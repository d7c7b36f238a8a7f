//! Directory slugs derived from skill names and keys.

use vstd::prelude::*;
use crate::seqs::{lemma_filter_all_pass, lemma_filter_keeps_all};
use crate::text::{chars_of, seq_join, string_from_chars};

verus! {

/// An ASCII letter or digit (what `char::is_ascii_alphanumeric` decides).
pub open spec fn is_ascii_alnum(c: char) -> bool {
    ||| ('a' <= c && c <= 'z')
    ||| ('A' <= c && c <= 'Z')
    ||| ('0' <= c && c <= '9')
}

/// The ASCII lowercase form of a character (what `char::to_ascii_lowercase` returns).
pub open spec fn ascii_lower(c: char) -> char {
    if 'A' <= c && c <= 'Z' {
        ((c as u32) + 32) as char
    } else {
        c
    }
}

/// Lowercases an ASCII character; other characters are kept.
pub fn to_ascii_lower(c: char) -> (res: char)
    ensures
        res == ascii_lower(c),
{
    if 'A' <= c && c <= 'Z' {
        let b: u8 = c as u8;
        ((b + 32) as char)
    } else {
        c
    }
}

/// The character a slug keeps for `c`: ASCII letters and digits in lowercase,
/// a hyphen for anything else.
pub open spec fn slug_char(c: char) -> char {
    if is_ascii_alnum(c) {
        ascii_lower(c)
    } else {
        '-'
    }
}

/// The pieces of `s` between hyphens (what `str::split('-')` yields); there is
/// always at least one piece, possibly empty.
pub open spec fn split_dash(s: Seq<char>) -> Seq<Seq<char>>
    decreases s.len(),
{
    if s.len() == 0 {
        seq![Seq::<char>::empty()]
    } else {
        let p = split_dash(s.drop_last());
        if s.last() == '-' {
            p.push(Seq::<char>::empty())
        } else {
            p.update(p.len() - 1, p.last().push(s.last()))
        }
    }
}

/// A piece is kept in a slug when it is not empty.
pub open spec fn non_empty(p: Seq<char>) -> bool {
    p.len() > 0
}

/// The non-empty hyphen-separated pieces of the mapped characters of `value`.
pub open spec fn slug_pieces(value: Seq<char>) -> Seq<Seq<char>> {
    split_dash(value.map_values(|c: char| slug_char(c))).filter(|p: Seq<char>| non_empty(p))
}

/// The slug of `value` before the fallback: its pieces joined by single hyphens.
pub open spec fn slug_core(value: Seq<char>) -> Seq<char> {
    seq_join(slug_pieces(value), seq!['-'])
}

/// The slug of `value`: ASCII letters and digits lowercased, every run of other
/// characters collapsed into one hyphen, no hyphen at either end, and
/// `finbox-skill` when nothing is left.
pub open spec fn slug_spec(value: Seq<char>) -> Seq<char> {
    let core = slug_core(value);
    if core.len() == 0 {
        "finbox-skill"@
    } else {
        core
    }
}

proof fn lemma_split_dash_nonempty(s: Seq<char>)
    ensures
        split_dash(s).len() >= 1,
    decreases s.len(),
{
    if s.len() > 0 {
        lemma_split_dash_nonempty(s.drop_last());
    }
}

fn slug_char_exec(c: char) -> (res: char)
    ensures
        res == slug_char(c),
{
    if ('a' <= c && c <= 'z') || ('A' <= c && c <= 'Z') || ('0' <= c && c <= '9') {
        to_ascii_lower(c)
    } else {
        '-'
    }
}

fn append_chars(out: &mut Vec<char>, more: &Vec<char>)
    ensures
        final(out)@ == old(out)@ + more@,
{
    for i in 0..more.len()
        invariant
            out@ == old(out)@ + more@.take(i as int),
    {
        out.push(more[i]);
        assert(more@.take(i + 1) == more@.take(i as int).push(more@[i as int]));
    }
    assert(more@.take(more@.len() as int) == more@);
}

/// The directory slug of a name or key (see `slug_spec`).
pub fn slugify(value: &str) -> (res: String)
    ensures
        res@ == slug_spec(value@),
{
    let cs = chars_of(value);
    let ghost f = |c: char| slug_char(c);
    let ghost ne = |p: Seq<char>| non_empty(p);
    let ghost dash = seq!['-'];
    let mut out: Vec<char> = Vec::new();
    let mut cur: Vec<char> = Vec::new();
    let mut started = false;
    let ghost mut pieces: Seq<Seq<char>> = Seq::empty();
    for i in 0..cs.len()
        invariant
            cs@ == value@,
            f == (|c: char| slug_char(c)),
            ne == (|p: Seq<char>| non_empty(p)),
            dash == seq!['-'],
            split_dash(cs@.take(i as int).map_values(f)) == pieces.push(cur@),
            out@ == seq_join(pieces.filter(ne), dash),
            started == (pieces.filter(ne).len() > 0),
    {
        let d = slug_char_exec(cs[i]);
        let ghost m = cs@.take(i as int).map_values(f);
        proof {
            assert(cs@.take(i + 1).map_values(f) =~= m.push(d));
            assert(m.push(d).drop_last() =~= m);
            lemma_split_dash_nonempty(m);
        }
        if d == '-' {
            proof {
                pieces.lemma_filter_push(cur@, ne);
                if cur@.len() > 0 {
                    assert(pieces.filter(ne).push(cur@).drop_last() =~= pieces.filter(ne));
                }
            }
            if cur.len() > 0 {
                if started {
                    out.push('-');
                }
                append_chars(&mut out, &cur);
                started = true;
            }
            proof {
                pieces = pieces.push(cur@);
            }
            cur = Vec::new();
            proof {
                assert(split_dash(m.push(d)) =~= pieces.push(cur@));
            }
        } else {
            cur.push(d);
            proof {
                assert(split_dash(m.push(d)) =~= pieces.push(cur@));
            }
        }
    }
    proof {
        assert(cs@.take(cs@.len() as int) =~= cs@);
        pieces.lemma_filter_push(cur@, ne);
        if cur@.len() > 0 {
            assert(pieces.filter(ne).push(cur@).drop_last() =~= pieces.filter(ne));
        }
    }
    if cur.len() > 0 {
        if started {
            out.push('-');
        }
        append_chars(&mut out, &cur);
    }
    if out.len() == 0 {
        String::from_str("finbox-skill")
    } else {
        string_from_chars(&out)
    }
}

/// A character a slug may hold: a lowercase ASCII letter, a digit, or a hyphen.
pub open spec fn is_slug_char(c: char) -> bool {
    ('a' <= c && c <= 'z') || ('0' <= c && c <= '9') || c == '-'
}

/// A character a slug piece may hold: a lowercase ASCII letter or a digit.
pub open spec fn is_word_char(c: char) -> bool {
    ('a' <= c && c <= 'z') || ('0' <= c && c <= '9')
}

/// A well-formed slug: not empty, made of lowercase ASCII letters, digits and
/// hyphens, with no hyphen at either end and no two hyphens in a row.
pub open spec fn is_slug(s: Seq<char>) -> bool {
    &&& s.len() > 0
    &&& forall|i: int| 0 <= i < s.len() ==> is_slug_char(#[trigger] s[i])
    &&& s[0] != '-'
    &&& s.last() != '-'
    &&& forall|i: int| 0 <= i < s.len() - 1 ==> !(#[trigger] s[i] == '-' && s[i + 1] == '-')
}

/// A non-empty run of lowercase letters and digits.
pub open spec fn is_word(p: Seq<char>) -> bool {
    p.len() > 0 && forall|i: int| 0 <= i < p.len() ==> is_word_char(#[trigger] p[i])
}

pub proof fn lemma_slug_char_is_slug_char(c: char)
    ensures
        is_slug_char(slug_char(c)),
{
}

pub proof fn lemma_join_push(l: Seq<Seq<char>>, x: Seq<char>, sep: Seq<char>)
    ensures
        seq_join(l.push(x), sep) == if l.len() == 0 { x } else { seq_join(l, sep) + sep + x },
{
    assert(l.push(x).drop_last() =~= l);
}

pub proof fn lemma_join_extend_last(l: Seq<Seq<char>>, c: char, sep: Seq<char>)
    requires
        l.len() >= 1,
    ensures
        seq_join(l.update(l.len() - 1, l.last().push(c)), sep) == seq_join(l, sep).push(c),
{
    let u = l.update(l.len() - 1, l.last().push(c));
    if l.len() == 1 {
    } else {
        assert(u.drop_last() =~= l.drop_last());
        assert(seq_join(u, sep) =~= seq_join(l, sep).push(c));
    }
}

/// Joining the hyphen-separated pieces of `s` with hyphens gives `s` back.
pub proof fn lemma_join_split(s: Seq<char>)
    ensures
        seq_join(split_dash(s), seq!['-']) == s,
    decreases s.len(),
{
    if s.len() == 0 {
    } else {
        let d = s.drop_last();
        lemma_join_split(d);
        lemma_split_dash_nonempty(d);
        let p = split_dash(d);
        if s.last() == '-' {
            lemma_join_push(p, Seq::<char>::empty(), seq!['-']);
            assert(seq_join(split_dash(s), seq!['-']) =~= s);
        } else {
            lemma_join_extend_last(p, s.last(), seq!['-']);
            assert(seq_join(split_dash(s), seq!['-']) =~= s);
        }
    }
}

/// When every character of `s` is a slug character, every piece of `s` between
/// hyphens is made of lowercase letters and digits.
pub proof fn lemma_split_pieces_words(s: Seq<char>)
    requires
        forall|i: int| 0 <= i < s.len() ==> is_slug_char(#[trigger] s[i]),
    ensures
        forall|k: int, i: int| 0 <= k < split_dash(s).len() && 0 <= i < split_dash(s)[k].len()
            ==> is_word_char(#[trigger] split_dash(s)[k][i]),
    decreases s.len(),
{
    if s.len() > 0 {
        let d = s.drop_last();
        assert forall|i: int| 0 <= i < d.len() implies is_slug_char(#[trigger] d[i]) by {
            assert(d[i] == s[i]);
        }
        lemma_split_pieces_words(d);
        lemma_split_dash_nonempty(d);
        let p = split_dash(d);
        assert(is_slug_char(s[s.len() - 1]));
        if s.last() != '-' {
            assert forall|k: int, i: int| 0 <= k < split_dash(s).len() && 0 <= i < split_dash(s)[k].len()
                implies is_word_char(#[trigger] split_dash(s)[k][i]) by {
                if k == p.len() - 1 && i == p.last().len() {
                    assert(split_dash(s)[k][i] == s.last());
                } else if k == p.len() - 1 {
                    assert(split_dash(s)[k][i] == p[k][i]);
                } else {
                    assert(split_dash(s)[k] == p[k]);
                }
            }
        } else {
            assert forall|k: int, i: int| 0 <= k < split_dash(s).len() && 0 <= i < split_dash(s)[k].len()
                implies is_word_char(#[trigger] split_dash(s)[k][i]) by {
                assert(k < p.len());
                assert(split_dash(s)[k] == p[k]);
            }
        }
    }
}

/// Joining one or more words with hyphens gives a well-formed slug.
pub proof fn lemma_join_words_is_slug(l: Seq<Seq<char>>)
    requires
        l.len() >= 1,
        forall|k: int| 0 <= k < l.len() ==> is_word(#[trigger] l[k]),
    ensures
        is_slug(seq_join(l, seq!['-'])),
    decreases l.len(),
{
    let x = l.last();
    assert(is_word(l[l.len() - 1]));
    if l.len() == 1 {
        assert(is_word(l[0]));
    } else {
        let d = l.drop_last();
        assert forall|k: int| 0 <= k < d.len() implies is_word(#[trigger] d[k]) by {
            assert(d[k] == l[k]);
        }
        lemma_join_words_is_slug(d);
        lemma_join_push(d, x, seq!['-']);
        assert(d.push(x) =~= l);
        let a = seq_join(d, seq!['-']);
        let j = a + seq!['-'] + x;
        assert(seq_join(l, seq!['-']) == j);
        assert forall|i: int| 0 <= i < j.len() implies is_slug_char(#[trigger] j[i]) by {
            if i < a.len() {
                assert(j[i] == a[i]);
            } else if i > a.len() {
                assert(j[i] == x[i - a.len() - 1]);
            }
        }
        assert forall|i: int| 0 <= i < j.len() - 1 implies !(#[trigger] j[i] == '-' && j[i + 1] == '-') by {
            if i < a.len() - 1 {
                assert(j[i] == a[i] && j[i + 1] == a[i + 1]);
            } else if i == a.len() - 1 {
                assert(j[i] == a.last());
            } else if i == a.len() {
                assert(j[i + 1] == x[0]);
            } else {
                assert(j[i] == x[i - a.len() - 1]);
            }
        }
        assert(j[0] == a[0]);
        assert(j.last() == x.last());
    }
}

/// In a string that does not start with a hyphen and has no two hyphens in a
/// row, every piece between hyphens but the last is non-empty, and the last is
/// empty exactly when the string is empty or ends with a hyphen.
pub proof fn lemma_split_pieces_nonempty(s: Seq<char>)
    requires
        s.len() == 0 || s[0] != '-',
        forall|i: int| 0 <= i < s.len() - 1 ==> !(#[trigger] s[i] == '-' && s[i + 1] == '-'),
    ensures
        split_dash(s).len() >= 1,
        forall|k: int| 0 <= k < split_dash(s).len() - 1 ==> (#[trigger] split_dash(s)[k]).len() > 0,
        (split_dash(s).last().len() == 0) == (s.len() == 0 || s.last() == '-'),
    decreases s.len(),
{
    lemma_split_dash_nonempty(s);
    if s.len() > 0 {
        let d = s.drop_last();
        assert forall|i: int| 0 <= i < d.len() - 1 implies !(#[trigger] d[i] == '-' && d[i + 1] == '-') by {
            assert(d[i] == s[i] && d[i + 1] == s[i + 1]);
        }
        if d.len() > 0 {
            assert(d[0] == s[0]);
        }
        lemma_split_pieces_nonempty(d);
        let p = split_dash(d);
        if s.last() == '-' {
            if d.len() > 0 {
                assert(!(s[d.len() - 1] == '-' && s[d.len() as int] == '-'));
                assert(d.last() == s[d.len() - 1]);
            }
            assert forall|k: int| 0 <= k < split_dash(s).len() - 1 implies (#[trigger] split_dash(s)[k]).len() > 0 by {
                assert(split_dash(s)[k] == p[k]);
            }
        } else {
            assert forall|k: int| 0 <= k < split_dash(s).len() - 1 implies (#[trigger] split_dash(s)[k]).len() > 0 by {
                assert(split_dash(s)[k] == p[k]);
            }
        }
    }
}

/// Every well-formed slug is its own slug.
pub proof fn lemma_slug_fixed_point(t: Seq<char>)
    requires
        is_slug(t),
    ensures
        slug_spec(t) == t,
{
    let f = |c: char| slug_char(c);
    let m = t.map_values(f);
    assert forall|i: int| 0 <= i < t.len() implies m[i] == t[i] by {
        assert(is_slug_char(t[i]));
    }
    assert(m =~= t);
    lemma_split_pieces_nonempty(t);
    let p = split_dash(t);
    assert forall|k: int| 0 <= k < p.len() implies non_empty(#[trigger] p[k]) by {
    }
    lemma_filter_all_pass(p, |x: Seq<char>| non_empty(x));
    lemma_join_split(t);
}

/// Every piece of a slug is a non-empty run of lowercase letters and digits.
pub proof fn lemma_slug_pieces_words(value: Seq<char>)
    ensures
        forall|k: int| 0 <= k < slug_pieces(value).len() ==> is_word(#[trigger] slug_pieces(value)[k]),
{
    let m = value.map_values(|c: char| slug_char(c));
    assert forall|i: int| 0 <= i < m.len() implies is_slug_char(#[trigger] m[i]) by {
        lemma_slug_char_is_slug_char(value[i]);
    }
    lemma_split_pieces_words(m);
    let s = split_dash(m);
    let ne = |x: Seq<char>| non_empty(x);
    let q = |x: Seq<char>| forall|i: int| 0 <= i < x.len() ==> is_word_char(#[trigger] x[i]);
    assert forall|k: int| 0 <= k < s.len() implies q(#[trigger] s[k]) by {
    }
    lemma_filter_keeps_all(s, ne, q);
    let p = s.filter(ne);
    assert forall|k: int| 0 <= k < p.len() implies is_word(#[trigger] p[k]) by {
        s.lemma_filter_pred(ne, k);
        assert(q(p[k]));
    }
}

/// A character other than a hyphen.
pub open spec fn not_dash(c: char) -> bool {
    c != '-'
}

/// `s` with its hyphens removed.
pub open spec fn remove_dashes(s: Seq<char>) -> Seq<char> {
    s.filter(|c: char| not_dash(c))
}

/// The ASCII letters and digits of `v`, lowercased, in order.
pub open spec fn alnum_lowered(v: Seq<char>) -> Seq<char> {
    v.filter(|c: char| is_ascii_alnum(c)).map_values(|c: char| ascii_lower(c))
}

/// The pieces of `l` written one after another.
pub open spec fn concat_all(l: Seq<Seq<char>>) -> Seq<char>
    decreases l.len(),
{
    if l.len() == 0 {
        Seq::<char>::empty()
    } else {
        concat_all(l.drop_last()) + l.last()
    }
}

/// Writing out the pieces between hyphens gives the string without its hyphens.
pub proof fn lemma_concat_split(s: Seq<char>)
    ensures
        concat_all(split_dash(s)) == remove_dashes(s),
    decreases s.len(),
{
    reveal(Seq::filter);
    if s.len() == 0 {
        assert(split_dash(s).drop_last() =~= Seq::<Seq<char>>::empty());
        assert(concat_all(split_dash(s).drop_last()) =~= Seq::<char>::empty());
        assert(concat_all(split_dash(s)) =~= Seq::<char>::empty());
    } else {
        let d = s.drop_last();
        lemma_concat_split(d);
        lemma_split_dash_nonempty(d);
        let p = split_dash(d);
        let c = s.last();
        assert(d.push(c) =~= s);
        d.lemma_filter_push(c, |x: char| not_dash(x));
        if c == '-' {
            assert(p.push(Seq::<char>::empty()).drop_last() =~= p);
            assert(concat_all(split_dash(s)) =~= concat_all(p));
        } else {
            let u = p.update(p.len() - 1, p.last().push(c));
            if p.len() == 1 {
                assert(u.drop_last() =~= p.drop_last());
                assert(concat_all(u) =~= concat_all(p).push(c));
            } else {
                assert(u.drop_last() =~= p.drop_last());
                assert(concat_all(u) =~= concat_all(p).push(c));
            }
        }
    }
}

/// Dropping empty pieces does not change what the pieces spell.
pub proof fn lemma_concat_filter_non_empty(l: Seq<Seq<char>>)
    ensures
        concat_all(l.filter(|p: Seq<char>| non_empty(p))) == concat_all(l),
    decreases l.len(),
{
    reveal(Seq::filter);
    if l.len() > 0 {
        let d = l.drop_last();
        let x = l.last();
        let ne = |p: Seq<char>| non_empty(p);
        lemma_concat_filter_non_empty(d);
        assert(d.push(x) =~= l);
        d.lemma_filter_push(x, ne);
        if non_empty(x) {
            assert(d.filter(ne).push(x).drop_last() =~= d.filter(ne));
        } else {
            assert(concat_all(l) =~= concat_all(d));
        }
    }
}

/// Joining words with hyphens and then removing the hyphens spells the words.
pub proof fn lemma_remove_dashes_join(l: Seq<Seq<char>>)
    requires
        forall|k: int| 0 <= k < l.len() ==> is_word(#[trigger] l[k]),
    ensures
        remove_dashes(seq_join(l, seq!['-'])) == concat_all(l),
    decreases l.len(),
{
    reveal(Seq::filter);
    let nd = |c: char| not_dash(c);
    if l.len() == 0 {
        assert(remove_dashes(seq_join(l, seq!['-'])) =~= Seq::<char>::empty());
    } else {
        let x = l.last();
        assert(is_word(l[l.len() - 1]));
        assert forall|i: int| 0 <= i < x.len() implies nd(#[trigger] x[i]) by {
            assert(is_word_char(x[i]));
        }
        lemma_filter_all_pass(x, nd);
        if l.len() == 1 {
            assert(l.drop_last().len() == 0);
            assert(concat_all(l.drop_last()) =~= Seq::<char>::empty());
            assert(concat_all(l) =~= x);
        } else {
            let d = l.drop_last();
            assert forall|k: int| 0 <= k < d.len() implies is_word(#[trigger] d[k]) by {
                assert(d[k] == l[k]);
            }
            lemma_remove_dashes_join(d);
            let a = seq_join(d, seq!['-']);
            Seq::filter_distributes_over_add(a + seq!['-'], x, nd);
            Seq::filter_distributes_over_add(a, seq!['-'], nd);
            assert(seq!['-'].filter(nd) =~= Seq::<char>::empty()) by {
                reveal_with_fuel(Seq::filter, 2);
                assert(seq!['-'].drop_last() =~= Seq::<char>::empty());
            }
            assert(seq_join(l, seq!['-']) == a + seq!['-'] + x);
            assert(remove_dashes(seq_join(l, seq!['-'])) =~= concat_all(d) + x);
        }
    }
}

/// The mapped characters of `value`, without hyphens, are its ASCII letters and
/// digits lowercased.
pub proof fn lemma_remove_dashes_slug_chars(value: Seq<char>)
    ensures
        remove_dashes(value.map_values(|c: char| slug_char(c))) == alnum_lowered(value),
    decreases value.len(),
{
    reveal(Seq::filter);
    let f = |c: char| slug_char(c);
    let nd = |c: char| not_dash(c);
    let al = |c: char| is_ascii_alnum(c);
    let lo = |c: char| ascii_lower(c);
    if value.len() == 0 {
        assert(remove_dashes(value.map_values(f)) =~= Seq::<char>::empty());
        assert(alnum_lowered(value) =~= Seq::<char>::empty());
    } else {
        let d = value.drop_last();
        let c = value.last();
        lemma_remove_dashes_slug_chars(d);
        assert(d.push(c) =~= value);
        assert(value.map_values(f) =~= d.map_values(f).push(slug_char(c)));
        d.map_values(f).lemma_filter_push(slug_char(c), nd);
        d.lemma_filter_push(c, al);
        if is_ascii_alnum(c) {
            assert(d.filter(al).push(c).map_values(lo) =~= d.filter(al).map_values(lo).push(ascii_lower(c)));
        }
    }
}

} // verus!
