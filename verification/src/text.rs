//! Character-level string operations used by the marketplace logic,
//! each stated over the `Seq<char>` view of a string.

use vstd::prelude::*;

verus! {

/// `needle` occurs in `hay` as a contiguous run starting at index `i`.
pub open spec fn occurs_at(hay: Seq<char>, needle: Seq<char>, i: int) -> bool {
    &&& 0 <= i
    &&& i + needle.len() <= hay.len()
    &&& hay.subrange(i, i + needle.len()) == needle
}

/// `needle` is a substring of `hay` (what `str::contains` with a `&str` pattern decides).
pub open spec fn has_substring(hay: Seq<char>, needle: Seq<char>) -> bool {
    exists|i: int| occurs_at(hay, needle, i)
}

/// `hay` ends with `suffix` (what `str::ends_with` with a `&str` pattern decides).
pub open spec fn has_suffix(hay: Seq<char>, suffix: Seq<char>) -> bool {
    suffix.len() <= hay.len() && hay.subrange(hay.len() - suffix.len(), hay.len() as int) == suffix
}

/// `hay` starts with `prefix`.
pub open spec fn has_prefix(hay: Seq<char>, prefix: Seq<char>) -> bool {
    prefix.len() <= hay.len() && hay.subrange(0, prefix.len() as int) == prefix
}

/// The characters of `s`, in order.
pub fn chars_of(s: &str) -> (res: Vec<char>)
    ensures
        res@ == s@,
{
    let n = s.unicode_len();
    let mut v: Vec<char> = Vec::new();
    for i in 0..n
        invariant
            n == s@.len(),
            v@ == s@.take(i as int),
    {
        v.push(s.get_char(i));
        assert(s@.take(i + 1) == s@.take(i as int).push(s@[i as int]));
    }
    assert(s@.take(n as int) == s@);
    v
}

/// Appends one character to a string (`String::push`).
#[verifier::external_body]
pub(crate) fn push_char(s: &mut String, c: char)
    ensures
        final(s)@ == old(s)@.push(c),
{
    s.push(c);
}

/// The string whose characters are `cs`.
pub fn string_from_chars(cs: &Vec<char>) -> (res: String)
    ensures
        res@ == cs@,
{
    let mut s = String::new();
    for i in 0..cs.len()
        invariant
            s@ == cs@.take(i as int),
    {
        push_char(&mut s, cs[i]);
        assert(cs@.take(i + 1) == cs@.take(i as int).push(cs@[i as int]));
    }
    assert(cs@.take(cs@.len() as int) == cs@);
    s
}

/// Whether `needle` occurs at index `i` of `hay`, decided character by character.
fn matches_at(hay: &Vec<char>, needle: &Vec<char>, i: usize) -> (res: bool)
    requires
        i + needle@.len() <= hay@.len(),
    ensures
        res == occurs_at(hay@, needle@, i as int),
{
    let m = needle.len();
    for j in 0..m
        invariant
            m == needle@.len(),
            hay@.len() == hay.len(),
            i + m <= hay@.len(),
            forall|k: int| 0 <= k < j ==> hay@[i + k] == needle@[k],
    {
        if hay[i + j] != needle[j] {
            assert(hay@.subrange(i as int, i + m)[j as int] != needle@[j as int]);
            return false;
        }
    }
    assert(hay@.subrange(i as int, i + m) =~= needle@);
    true
}

/// Substring test on character vectors.
pub fn contains_chars(hay: &Vec<char>, needle: &Vec<char>) -> (res: bool)
    ensures
        res == has_substring(hay@, needle@),
{
    let n = hay.len();
    let m = needle.len();
    if m > n {
        assert forall|i: int| !occurs_at(hay@, needle@, i) by {}
        return false;
    }
    if m == 0 {
        assert(hay@.subrange(0, 0) =~= needle@);
        assert(occurs_at(hay@, needle@, 0));
        return true;
    }
    let last = n - m;
    let mut i: usize = 0;
    while i <= last
        invariant
            n == hay@.len(),
            m == needle@.len(),
            last + m == n,
            m > 0,
            i <= last + 1,
            forall|k: int| 0 <= k < i ==> !occurs_at(hay@, needle@, k),
        decreases last + 1 - i,
    {
        if matches_at(hay, needle, i) {
            return true;
        }
        i = i + 1;
    }
    assert forall|k: int| !occurs_at(hay@, needle@, k) by {
        if 0 <= k < i {
        }
    }
    false
}

/// Substring test on strings (`str::contains` with a `&str` pattern).
pub fn str_contains(hay: &str, needle: &str) -> (res: bool)
    ensures
        res == has_substring(hay@, needle@),
{
    contains_chars(&chars_of(hay), &chars_of(needle))
}

/// Suffix test on strings (`str::ends_with` with a `&str` pattern).
pub fn str_ends_with(hay: &str, suffix: &str) -> (res: bool)
    ensures
        res == has_suffix(hay@, suffix@),
{
    let h = chars_of(hay);
    let s = chars_of(suffix);
    if s.len() > h.len() {
        return false;
    }
    let start = h.len() - s.len();
    let r = matches_at(&h, &s, start);
    r
}

/// Prefix test on strings (`str::starts_with` with a `&str` pattern).
pub fn str_starts_with(hay: &str, prefix: &str) -> (res: bool)
    ensures
        res == has_prefix(hay@, prefix@),
{
    let h = chars_of(hay);
    let p = chars_of(prefix);
    if p.len() > h.len() {
        return false;
    }
    matches_at(&h, &p, 0)
}

/// Whether a character has the Unicode `White_Space` property (what
/// `char::is_whitespace` decides): U+0009 to U+000D, U+0020, U+0085, U+00A0,
/// U+1680, U+2000 to U+200A, U+2028, U+2029, U+202F, U+205F and U+3000.
pub open spec fn spec_is_whitespace(c: char) -> bool {
    ||| ('\u{9}' <= c && c <= '\u{d}')
    ||| c == ' '
    ||| c == '\u{85}'
    ||| c == '\u{a0}'
    ||| c == '\u{1680}'
    ||| ('\u{2000}' <= c && c <= '\u{200a}')
    ||| c == '\u{2028}'
    ||| c == '\u{2029}'
    ||| c == '\u{202f}'
    ||| c == '\u{205f}'
    ||| c == '\u{3000}'
}

/// The lowercase mapping of a whole string, as `str::to_lowercase` computes it.
pub uninterp spec fn spec_to_lowercase(s: Seq<char>) -> Seq<char>;

/// Whether `c` is whitespace (`char::is_whitespace`; see `spec_is_whitespace`).
pub fn char_is_whitespace(c: char) -> (res: bool)
    ensures
        res == spec_is_whitespace(c),
{
    ('\u{9}' <= c && c <= '\u{d}') || c == ' ' || c == '\u{85}' || c == '\u{a0}' || c == '\u{1680}'
        || ('\u{2000}' <= c && c <= '\u{200a}') || c == '\u{2028}' || c == '\u{2029}'
        || c == '\u{202f}' || c == '\u{205f}' || c == '\u{3000}'
}

/// Every character of `s` is an ASCII character.
pub open spec fn is_ascii_text(s: Seq<char>) -> bool {
    forall|i: int| 0 <= i < s.len() ==> #[trigger] s[i] <= '\u{7f}'
}

/// `str::to_lowercase`: the result is named as a function of the input alone.
/// Two facts of the Unicode lowercase mapping are claimed: the empty string maps
/// to the empty string, and on ASCII text the mapping is the ASCII one, `A` to
/// `Z` becoming `a` to `z` and every other character kept. Nothing is claimed of
/// other characters.
#[verifier::external_body]
pub(crate) fn str_to_lowercase(s: &str) -> (res: String)
    ensures
        res@ == spec_to_lowercase(s@),
        s@.len() == 0 ==> res@.len() == 0,
        is_ascii_text(s@) ==> res@ == s@.map_values(|c: char| crate::slug::ascii_lower(c)),
{
    s.to_lowercase()
}

/// `s` with its leading whitespace removed.
pub open spec fn trim_start_spec(s: Seq<char>) -> Seq<char>
    decreases s.len(),
{
    if s.len() > 0 && spec_is_whitespace(s[0]) {
        trim_start_spec(s.drop_first())
    } else {
        s
    }
}

/// `s` with its trailing whitespace removed.
pub open spec fn trim_end_spec(s: Seq<char>) -> Seq<char>
    decreases s.len(),
{
    if s.len() > 0 && spec_is_whitespace(s.last()) {
        trim_end_spec(s.drop_last())
    } else {
        s
    }
}

/// `s` with leading and trailing whitespace removed (what `str::trim` returns).
pub open spec fn trim_spec(s: Seq<char>) -> Seq<char> {
    trim_end_spec(trim_start_spec(s))
}

proof fn lemma_trim_start_skip(s: Seq<char>, i: int)
    requires
        0 <= i <= s.len(),
        forall|k: int| 0 <= k < i ==> spec_is_whitespace(#[trigger] s[k]),
    ensures
        trim_start_spec(s) == trim_start_spec(s.subrange(i, s.len() as int)),
    decreases i,
{
    if i > 0 {
        assert(s.drop_first().subrange(i - 1, s.drop_first().len() as int) =~= s.subrange(i, s.len() as int));
        lemma_trim_start_skip(s.drop_first(), i - 1);
    } else {
        assert(s.subrange(0, s.len() as int) =~= s);
    }
}

proof fn lemma_trim_end_skip(s: Seq<char>, j: int)
    requires
        0 <= j <= s.len(),
        forall|k: int| j <= k < s.len() ==> spec_is_whitespace(#[trigger] s[k]),
    ensures
        trim_end_spec(s) == trim_end_spec(s.subrange(0, j)),
    decreases s.len() - j,
{
    if j < s.len() {
        assert(s.drop_last().subrange(0, j) =~= s.subrange(0, j));
        lemma_trim_end_skip(s.drop_last(), j);
    } else {
        assert(s.subrange(0, s.len() as int) =~= s);
    }
}

/// The index of the first non-whitespace character of `cs`, or its length.
fn first_non_ws(cs: &Vec<char>) -> (i: usize)
    ensures
        i <= cs@.len(),
        forall|k: int| 0 <= k < i ==> spec_is_whitespace(#[trigger] cs@[k]),
        i < cs@.len() ==> !spec_is_whitespace(cs@[i as int]),
{
    let mut i: usize = 0;
    while i < cs.len()
        invariant
            i <= cs@.len(),
            forall|k: int| 0 <= k < i ==> spec_is_whitespace(#[trigger] cs@[k]),
        decreases cs@.len() - i,
    {
        if !char_is_whitespace(cs[i]) {
            return i;
        }
        i = i + 1;
    }
    i
}

/// The string with leading and trailing whitespace removed (`str::trim`).
pub fn str_trim(s: &str) -> (res: String)
    ensures
        res@ == trim_spec(s@),
{
    let cs = chars_of(s);
    let i = first_non_ws(&cs);
    let mut j: usize = cs.len();
    while j > i && char_is_whitespace(cs[j - 1])
        invariant
            i <= j <= cs@.len(),
            forall|k: int| j <= k < cs@.len() ==> spec_is_whitespace(#[trigger] cs@[k]),
        decreases j,
    {
        j = j - 1;
    }
    proof {
        lemma_trim_start_skip(s@, i as int);
        let t = s@.subrange(i as int, s@.len() as int);
        if i < s@.len() {
            assert(trim_start_spec(t) == t);
        } else {
            assert(t.len() == 0);
        }
        assert forall|k: int| j - i <= k < t.len() implies spec_is_whitespace(#[trigger] t[k]) by {
            assert(t[k] == cs@[k + i]);
        }
        lemma_trim_end_skip(t, j - i);
        assert(t.subrange(0, j - i) =~= s@.subrange(i as int, j as int));
        let u = s@.subrange(i as int, j as int);
        if j > i {
            assert(u.last() == cs@[j - 1]);
            assert(trim_end_spec(u) == u);
        } else {
            assert(u.len() == 0);
        }
    }
    String::from_str(s.substring_char(i, j))
}

/// Equality of two strings, character by character.
pub fn str_eq(a: &str, b: &str) -> (res: bool)
    ensures
        res == (a@ == b@),
{
    let x = chars_of(a);
    let y = chars_of(b);
    if x.len() != y.len() {
        return false;
    }
    let r = matches_at(&x, &y, 0);
    proof {
        assert(x@.subrange(0, y@.len() as int) =~= x@);
    }
    r
}

/// The elements of `list` joined by `sep`.
pub open spec fn seq_join(list: Seq<Seq<char>>, sep: Seq<char>) -> Seq<char>
    decreases list.len(),
{
    if list.len() == 0 {
        Seq::<char>::empty()
    } else if list.len() == 1 {
        list[0]
    } else {
        seq_join(list.drop_last(), sep) + sep + list.last()
    }
}

/// `s` with every trailing repetition of the non-empty pattern `pat` removed
/// (what `str::trim_end_matches` with a `&str` pattern returns).
pub open spec fn strip_suffix_all(s: Seq<char>, pat: Seq<char>) -> Seq<char>
    decreases s.len(),
{
    if pat.len() > 0 && has_suffix(s, pat) {
        strip_suffix_all(s.subrange(0, s.len() - pat.len()), pat)
    } else {
        s
    }
}

/// Removes every trailing repetition of `pat` from `s` (`str::trim_end_matches`).
pub fn trim_end_matches(s: &str, pat: &str) -> (res: String)
    ensures
        res@ == strip_suffix_all(s@, pat@),
{
    let cs = chars_of(s);
    let ps = chars_of(pat);
    let m = ps.len();
    if m == 0 {
        return String::from_str(s);
    }
    let mut end: usize = cs.len();
    assert(s@.subrange(0, end as int) =~= s@);
    while end >= m && matches_at(&cs, &ps, end - m)
        invariant
            m == pat@.len(),
            m > 0,
            end <= cs@.len(),
            cs@ == s@,
            ps@ == pat@,
            strip_suffix_all(s@, pat@) == strip_suffix_all(s@.subrange(0, end as int), pat@),
        decreases end,
    {
        proof {
            let t = s@.subrange(0, end as int);
            assert(t.subrange(t.len() - m, t.len() as int) =~= s@.subrange(end - m, end as int));
            assert(t.subrange(0, t.len() - m) =~= s@.subrange(0, end - m));
        }
        end = end - m;
    }
    proof {
        let t = s@.subrange(0, end as int);
        if end >= m {
            assert(t.subrange(t.len() - m, t.len() as int) =~= s@.subrange(end - m, end as int));
        }
        assert(!has_suffix(t, pat@));
    }
    String::from_str(s.substring_char(0, end))
}

/// The views of a sequence of strings.
pub open spec fn string_views(v: Seq<String>) -> Seq<Seq<char>> {
    v.map_values(|s: String| s@)
}

/// The strings `list[from..]` joined by `sep` (what `[String]::join` returns).
pub fn join_from(list: &Vec<String>, from: usize, sep: &str) -> (res: String)
    requires
        from <= list@.len(),
    ensures
        res@ == seq_join(string_views(list@.subrange(from as int, list@.len() as int)), sep@),
{
    let ghost views = string_views(list@.subrange(from as int, list@.len() as int));
    let mut res = String::new();
    let mut i = from;
    while i < list.len()
        invariant
            from <= i <= list@.len(),
            views == string_views(list@.subrange(from as int, list@.len() as int)),
            res@ == seq_join(views.take(i - from), sep@),
        decreases list@.len() - i,
    {
        proof {
            assert(views.take(i + 1 - from).drop_last() =~= views.take(i - from));
            assert(views[i - from] == list@[i as int]@);
        }
        if i != from {
            res.append(sep);
        }
        res.append(list[i].as_str());
        i = i + 1;
    }
    proof {
        assert(views.take(list@.len() - from) =~= views);
    }
    res
}

} // verus!
