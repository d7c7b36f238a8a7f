//! The cached copy of the catalogue: the rows a refresh stores, and what a
//! read at a given time gives back of them.

use vstd::prelude::*;
use crate::skill::FinboxSkill;
use crate::skill::clone_opt_string;
use crate::seqs::lemma_filter_index_map;
use crate::text::{chars_of, string_from_chars, str_eq};
use crate::slug::{ascii_lower, to_ascii_lower};

verus! {

/// How long a stored catalogue stays fresh, in seconds.
pub const CACHE_TTL_SECONDS: i64 = 3600;

/// The decimal digit character for `d < 10`.
pub open spec fn digit_char(d: nat) -> char {
    (48 + d) as char
}

/// The decimal digits of `n`, most significant first, without leading zeros.
pub open spec fn nat_digits(n: nat) -> Seq<char>
    decreases n,
{
    if n < 10 {
        seq![digit_char(n)]
    } else {
        nat_digits(n / 10).push(digit_char(n % 10))
    }
}

/// The decimal text of an integer, with a leading `-` when it is negative
/// (what `i64`'s `Display` writes).
pub open spec fn decimal_spec(n: int) -> Seq<char> {
    if n < 0 {
        seq!['-'] + nat_digits((-n) as nat)
    } else {
        nat_digits(n as nat)
    }
}

fn digits_of(m: u64) -> (res: Vec<char>)
    ensures
        res@ == nat_digits(m as nat),
    decreases m,
{
    let d: u8 = (m % 10) as u8;
    let c: char = (d + 48) as char;
    if m < 10 {
        let mut v: Vec<char> = Vec::new();
        v.push(c);
        v
    } else {
        let mut v = digits_of(m / 10);
        v.push(c);
        v
    }
}

/// The decimal text of `n` (see `decimal_spec`).
pub fn decimal_string(n: i64) -> (res: String)
    ensures
        res@ == decimal_spec(n as int),
{
    if n < 0 {
        let m: u64 = (0i128 - (n as i128)) as u64;
        let digits = digits_of(m);
        let mut s = String::from_str("-");
        let tail = string_from_chars(&digits);
        s.append(tail.as_str());
        proof {
            reveal_strlit("-");
            assert("-"@ =~= seq!['-']);
        }
        s
    } else {
        let digits = digits_of(n as u64);
        string_from_chars(&digits)
    }
}

/// One row of the skill cache table, as a refresh writes it.
#[derive(Debug)]
pub struct CacheRow {
    pub key: String,
    pub name: String,
    pub description: Option<String>,
    pub download_url: Option<String>,
    pub category: Option<String>,
    pub raw_html_hash: String,
    pub cached_at: i64,
    pub expires_at: i64,
}

/// The marker stored for a refresh made at `now`: `api-` and the time in decimal.
pub open spec fn refresh_marker(now: i64) -> Seq<char> {
    "api-"@ + decimal_spec(now as int)
}

/// `row` is the row a refresh at `now` writes for `skill`: the cached columns of
/// the skill, the refresh marker, the time of caching and its expiry one TTL later.
pub open spec fn is_row_for(row: CacheRow, skill: FinboxSkill, now: i64) -> bool {
    &&& row.key == skill.key
    &&& row.name == skill.name
    &&& row.description == skill.description
    &&& row.download_url == skill.download_url
    &&& row.category == skill.category
    &&& row.raw_html_hash@ == refresh_marker(now)
    &&& row.cached_at == now
    &&& row.expires_at == now + CACHE_TTL_SECONDS
}

/// `rows` are the rows a refresh at `now` writes for `skills`, one per skill, in order.
pub open spec fn are_rows_for(rows: Seq<CacheRow>, skills: Seq<FinboxSkill>, now: i64) -> bool {
    &&& rows.len() == skills.len()
    &&& forall|k: int| 0 <= k < rows.len() ==> is_row_for(#[trigger] rows[k], skills[k], now)
}

/// The rows a refresh at `now` writes for `skills` (the table is emptied first).
pub fn cache_rows(skills: &Vec<FinboxSkill>, now: i64) -> (res: Vec<CacheRow>)
    requires
        now + CACHE_TTL_SECONDS <= i64::MAX,
    ensures
        are_rows_for(res@, skills@, now),
{
    let expires_at = now + CACHE_TTL_SECONDS;
    let mut marker = String::from_str("api-");
    let digits = decimal_string(now);
    marker.append(digits.as_str());
    let mut res: Vec<CacheRow> = Vec::new();
    for i in 0..skills.len()
        invariant
            expires_at == now + CACHE_TTL_SECONDS,
            marker@ == refresh_marker(now),
            res@.len() == i,
            forall|k: int| 0 <= k < i ==> is_row_for(#[trigger] res@[k], skills@[k], now),
    {
        let s = &skills[i];
        res.push(
            CacheRow {
                key: s.key.clone(),
                name: s.name.clone(),
                description: clone_opt_string(&s.description),
                download_url: clone_opt_string(&s.download_url),
                category: clone_opt_string(&s.category),
                raw_html_hash: marker.clone(),
                cached_at: now,
                expires_at,
            },
        );
    }
    res
}

/// The columns of a cache row that a read gives back.
#[derive(Debug)]
pub struct CachedSkillRow {
    pub key: String,
    pub name: String,
    pub description: Option<String>,
    pub download_url: Option<String>,
    pub category: Option<String>,
    pub expires_at: i64,
}

/// The columns a read gives back of a stored row.
pub open spec fn stored_columns(row: CacheRow) -> CachedSkillRow {
    CachedSkillRow {
        key: row.key,
        name: row.name,
        description: row.description,
        download_url: row.download_url,
        category: row.category,
        expires_at: row.expires_at,
    }
}

/// The skill a cache row stands for: the cached columns, every other field absent.
pub open spec fn row_to_skill(r: CachedSkillRow) -> FinboxSkill {
    FinboxSkill {
        key: r.key,
        name: r.name,
        description: r.description,
        download_url: r.download_url,
        category: r.category,
        owner: None,
        version: None,
        status: None,
        download_count: None,
        monthly_usage: None,
        star_count: None,
    }
}

/// A row is fresh at `now` while its expiry lies after `now`.
pub open spec fn is_fresh(r: CachedSkillRow, now: i64) -> bool {
    r.expires_at > now
}

/// The skills of the rows that are fresh at `now`, in row order.
pub open spec fn fresh_skills_of(rows: Seq<CachedSkillRow>, now: i64) -> Seq<FinboxSkill> {
    rows.filter(|r: CachedSkillRow| is_fresh(r, now)).map_values(|r: CachedSkillRow| row_to_skill(r))
}

/// A name as the case-insensitive collation compares it: ASCII letters folded
/// to lowercase, every other character kept.
pub open spec fn nocase(s: Seq<char>) -> Seq<char> {
    s.map_values(|c: char| ascii_lower(c))
}

/// Lexicographic order of character sequences by code point, a proper prefix first.
pub open spec fn lex_le(a: Seq<char>, b: Seq<char>) -> bool
    decreases a.len(),
{
    if a.len() == 0 {
        true
    } else if b.len() == 0 {
        false
    } else if a[0] != b[0] {
        a[0] < b[0]
    } else {
        lex_le(a.drop_first(), b.drop_first())
    }
}

/// `x` comes no later than `y` when ordered by name without regard to ASCII case.
pub open spec fn name_le(x: FinboxSkill, y: FinboxSkill) -> bool {
    lex_le(nocase(x.name@), nocase(y.name@))
}

/// The skills are in name order, without regard to ASCII case.
pub open spec fn sorted_by_name(s: Seq<FinboxSkill>) -> bool {
    forall|i: int, j: int| 0 <= i < j < s.len() ==> name_le(#[trigger] s[i], #[trigger] s[j])
}

proof fn lemma_lex_total(a: Seq<char>, b: Seq<char>)
    ensures
        lex_le(a, b) || lex_le(b, a),
    decreases a.len(),
{
    if a.len() > 0 && b.len() > 0 && a[0] == b[0] {
        lemma_lex_total(a.drop_first(), b.drop_first());
    }
}

proof fn lemma_lex_trans(a: Seq<char>, b: Seq<char>, c: Seq<char>)
    requires
        lex_le(a, b),
        lex_le(b, c),
    ensures
        lex_le(a, c),
    decreases a.len(),
{
    if a.len() > 0 && b.len() > 0 && c.len() > 0 && a[0] == b[0] && b[0] == c[0] {
        lemma_lex_trans(a.drop_first(), b.drop_first(), c.drop_first());
    }
}

fn lex_le_exec(a: &Vec<char>, b: &Vec<char>) -> (res: bool)
    ensures
        res == lex_le(a@, b@),
{
    let mut i: usize = 0;
    assert(a@.subrange(0, a@.len() as int) =~= a@);
    assert(b@.subrange(0, b@.len() as int) =~= b@);
    while i < a.len() && i < b.len() && a[i] == b[i]
        invariant
            i <= a@.len(),
            i <= b@.len(),
            lex_le(a@, b@) == lex_le(a@.subrange(i as int, a@.len() as int), b@.subrange(i as int, b@.len() as int)),
        decreases a@.len() - i,
    {
        proof {
            let x = a@.subrange(i as int, a@.len() as int);
            let y = b@.subrange(i as int, b@.len() as int);
            assert(x.drop_first() =~= a@.subrange(i + 1, a@.len() as int));
            assert(y.drop_first() =~= b@.subrange(i + 1, b@.len() as int));
        }
        i = i + 1;
    }
    proof {
        let x = a@.subrange(i as int, a@.len() as int);
        let y = b@.subrange(i as int, b@.len() as int);
        if i < a@.len() && i < b@.len() {
            assert(x[0] == a@[i as int] && y[0] == b@[i as int]);
        }
    }
    if i == a.len() {
        true
    } else if i == b.len() {
        false
    } else {
        a[i] < b[i]
    }
}

fn nocase_key(s: &str) -> (res: Vec<char>)
    ensures
        res@ == nocase(s@),
{
    let cs = chars_of(s);
    let mut res: Vec<char> = Vec::new();
    for i in 0..cs.len()
        invariant
            cs@ == s@,
            res@ == nocase(s@.take(i as int)),
    {
        res.push(to_ascii_lower(cs[i]));
        assert(nocase(s@.take(i + 1)) =~= nocase(s@.take(i as int)).push(ascii_lower(s@[i as int])));
    }
    assert(s@.take(s@.len() as int) =~= s@);
    res
}

/// The skill of a cache row, copied out of the row.
fn skill_of_row(r: &CachedSkillRow) -> (res: FinboxSkill)
    ensures
        res == row_to_skill(*r),
{
    FinboxSkill {
        key: r.key.clone(),
        name: r.name.clone(),
        description: clone_opt_string(&r.description),
        download_url: clone_opt_string(&r.download_url),
        category: clone_opt_string(&r.category),
        owner: None,
        version: None,
        status: None,
        download_count: None,
        monthly_usage: None,
        star_count: None,
    }
}

pub proof fn lemma_fresh_push(rows: Seq<CachedSkillRow>, r: CachedSkillRow, now: i64)
    ensures
        fresh_skills_of(rows.push(r), now) == if is_fresh(r, now) {
            fresh_skills_of(rows, now).push(row_to_skill(r))
        } else {
            fresh_skills_of(rows, now)
        },
{
    let pred = |x: CachedSkillRow| is_fresh(x, now);
    let f = |x: CachedSkillRow| row_to_skill(x);
    rows.lemma_filter_push(r, pred);
    if is_fresh(r, now) {
        assert(rows.filter(pred).push(r).map_values(f) =~= rows.filter(pred).map_values(f).push(f(r)));
    }
}

fn fresh_skills_in(rows: &Vec<CachedSkillRow>, now: i64) -> (res: Vec<FinboxSkill>)
    requires
        distinct_row_keys(rows@),
    ensures
        sorted_by_name(res@),
        res@.to_multiset() == fresh_skills_of(rows@, now).to_multiset(),
        distinct_keys(res@),
{
    let mut res: Vec<FinboxSkill> = Vec::new();
    let mut keys: Vec<Vec<char>> = Vec::new();
    let ghost mut src: Seq<int> = Seq::empty();
    proof {
        reveal(Seq::filter);
        assert(fresh_skills_of(rows@.take(0), now) =~= res@);
    }
    for i in 0..rows.len()
        invariant
            res@.len() == keys@.len(),
            forall|k: int| 0 <= k < keys@.len() ==> (#[trigger] keys@[k])@ == nocase(res@[k].name@),
            sorted_by_name(res@),
            res@.to_multiset() == fresh_skills_of(rows@.take(i as int), now).to_multiset(),
            distinct_row_keys(rows@),
            distinct_keys(res@),
            src.len() == res@.len(),
            forall|k: int| 0 <= k < res@.len() ==> 0 <= #[trigger] src[k] < i && res@[k].key@ == rows@[src[k]].key@,
    {
        proof {
            assert(rows@.take(i + 1) == rows@.take(i as int).push(rows@[i as int]));
            lemma_fresh_push(rows@.take(i as int), rows@[i as int], now);
        }
        if rows[i].expires_at > now {
            let s = skill_of_row(&rows[i]);
            let key = nocase_key(s.name.as_str());
            let mut p: usize = 0;
            while p < res.len() && lex_le_exec(&keys[p], &key)
                invariant
                    p <= res@.len(),
                    res@.len() == keys@.len(),
                    key@ == nocase(s.name@),
                    forall|k: int| 0 <= k < keys@.len() ==> (#[trigger] keys@[k])@ == nocase(res@[k].name@),
                    forall|k: int| 0 <= k < p ==> name_le(#[trigger] res@[k], s),
                decreases res@.len() - p,
            {
                p = p + 1;
            }
            proof {
                assert forall|k: int| p <= k < res@.len() implies name_le(s, #[trigger] res@[k]) by {
                    assert(keys@[p as int]@ == nocase(res@[p as int].name@));
                    lemma_lex_total(nocase(res@[p as int].name@), nocase(s.name@));
                    if k > p {
                        assert(name_le(res@[p as int], res@[k]));
                        lemma_lex_trans(nocase(s.name@), nocase(res@[p as int].name@), nocase(res@[k].name@));
                    }
                }
            }
            let ghost old_res = res@;
            let ghost old_keys = keys@;
            res.insert(p, s);
            keys.insert(p, key);
            proof {
                assert(res@ == old_res.insert(p as int, s));
                vstd::seq_lib::to_multiset_insert(old_res, p as int, s);
                let fr = fresh_skills_of(rows@.take(i as int), now);
                vstd::seq_lib::to_multiset_build(fr, s);
                assert forall|a: int, b: int| 0 <= a < b < res@.len() implies name_le(#[trigger] res@[a], #[trigger] res@[b]) by {
                    if a < p && b > p {
                        lemma_lex_trans(nocase(res@[a].name@), nocase(s.name@), nocase(res@[b].name@));
                    }
                    if a < p && b < p {
                        assert(res@[a] == old_res[a] && res@[b] == old_res[b]);
                    } else if a > p && b > p {
                        assert(res@[a] == old_res[a - 1] && res@[b] == old_res[b - 1]);
                    } else if a < p && b > p {
                        assert(res@[a] == old_res[a] && res@[b] == old_res[b - 1]);
                    } else if a == p {
                        assert(res@[b] == old_res[b - 1]);
                    } else {
                        assert(res@[a] == old_res[a]);
                    }
                }
                let old_src = src;
                src = src.insert(p as int, i as int);
                assert forall|k: int| 0 <= k < res@.len() implies 0 <= #[trigger] src[k] < i + 1 && res@[k].key@ == rows@[src[k]].key@ by {
                    if k < p {
                        assert(res@[k] == old_res[k] && src[k] == old_src[k]);
                    } else if k > p {
                        assert(res@[k] == old_res[k - 1] && src[k] == old_src[k - 1]);
                    }
                }
                assert forall|a: int, b: int| 0 <= a < b < res@.len() implies (#[trigger] res@[a]).key@ != (#[trigger] res@[b]).key@ by {
                    if a != p && b != p {
                        let oa = if a < p { a } else { a - 1 };
                        let ob = if b < p { b } else { b - 1 };
                        assert(res@[a] == old_res[oa] && res@[b] == old_res[ob]);
                    } else {
                        let o = if a == p { b } else { a };
                        let oo = if o < p { o } else { o - 1 };
                        assert(res@[o] == old_res[oo]);
                        assert(old_res[oo].key@ == rows@[old_src[oo]].key@);
                        assert(rows@[old_src[oo]].key@ != rows@[i as int].key@);
                    }
                }
                assert forall|k: int| 0 <= k < keys@.len() implies (#[trigger] keys@[k])@ == nocase(res@[k].name@) by {
                    if k < p {
                        assert(keys@[k] == old_keys[k] && res@[k] == old_res[k]);
                    } else if k > p {
                        assert(keys@[k] == old_keys[k - 1] && res@[k] == old_res[k - 1]);
                    }
                }
            }
        }
    }
    proof {
        assert(rows@.take(rows@.len() as int) == rows@);
    }
    res
}

/// `res` is the skill of the first row of `rows` with key `key` that is fresh
/// at `now`, or none when no such row exists.
pub open spec fn first_fresh_by_key(rows: Seq<CachedSkillRow>, key: Seq<char>, now: i64, res: Option<FinboxSkill>) -> bool {
    match res {
        None => forall|k: int| 0 <= k < rows.len() ==> !(#[trigger] rows[k].key@ == key && is_fresh(rows[k], now)),
        Some(s) => exists|k: int| #![trigger rows[k]] 0 <= k < rows.len() && rows[k].key@ == key && is_fresh(rows[k], now)
            && s == row_to_skill(rows[k])
            && forall|j: int| 0 <= j < k ==> !(#[trigger] rows[j].key@ == key && is_fresh(rows[j], now)),
    }
}

fn first_fresh_in(rows: &Vec<CachedSkillRow>, key: &str, now: i64) -> (res: Option<FinboxSkill>)
    ensures
        first_fresh_by_key(rows@, key@, now, res),
{
    for i in 0..rows.len()
        invariant
            forall|k: int| 0 <= k < i ==> !(#[trigger] rows@[k].key@ == key@ && is_fresh(rows@[k], now)),
    {
        if rows[i].expires_at > now && str_eq(rows[i].key.as_str(), key) {
            let s = skill_of_row(&rows[i]);
            assert(rows@[i as int].key@ == key@ && is_fresh(rows@[i as int], now));
            return Some(s);
        }
    }
    None
}

/// No two skills of the list share a key.
pub open spec fn distinct_keys(s: Seq<FinboxSkill>) -> bool {
    forall|i: int, j: int| 0 <= i < j < s.len() ==> (#[trigger] s[i]).key@ != (#[trigger] s[j]).key@
}

/// No two rows share a key.
pub open spec fn distinct_row_keys(rows: Seq<CachedSkillRow>) -> bool {
    forall|i: int, j: int| 0 <= i < j < rows.len() ==> (#[trigger] rows[i]).key@ != (#[trigger] rows[j]).key@
}

/// The rows a table keyed by `key` holds after the rows are inserted in order,
/// a row replacing any earlier row with the same key (`INSERT OR REPLACE`).
pub open spec fn replace_by_key(rows: Seq<CachedSkillRow>) -> Seq<CachedSkillRow>
    decreases rows.len(),
{
    if rows.len() == 0 {
        rows
    } else {
        let r = rows.last();
        replace_by_key(rows.drop_last()).filter(|x: CachedSkillRow| x.key@ != r.key@).push(r)
    }
}

/// The rows of the skill cache table: one row per key, the table's primary key.
#[derive(Debug)]
pub struct CacheTable {
    rows: Vec<CachedSkillRow>,
}

impl View for CacheTable {
    type V = Seq<CachedSkillRow>;

    closed spec fn view(&self) -> Seq<CachedSkillRow> {
        self.rows@
    }
}

impl Clone for CachedSkillRow {
    fn clone(&self) -> (res: Self)
        ensures
            res == *self,
    {
        CachedSkillRow {
            key: self.key.clone(),
            name: self.name.clone(),
            description: clone_opt_string(&self.description),
            download_url: clone_opt_string(&self.download_url),
            category: clone_opt_string(&self.category),
            expires_at: self.expires_at,
        }
    }
}

impl CacheTable {
    #[verifier::type_invariant]
    spec fn keys_are_distinct(self) -> bool {
        distinct_row_keys(self.rows@)
    }

    /// The table that holds `rows` once they are inserted in order, each row
    /// replacing an earlier one with the same key (see `replace_by_key`).
    pub fn from_rows(rows: Vec<CachedSkillRow>) -> (res: Self)
        ensures
            res@ == replace_by_key(rows@),
            distinct_row_keys(res@),
    {
        let mut acc: Vec<CachedSkillRow> = Vec::new();
        for i in 0..rows.len()
            invariant
                acc@ == replace_by_key(rows@.take(i as int)),
                distinct_row_keys(acc@),
        {
            let r = rows[i].clone();
            let ghost p = |x: CachedSkillRow| x.key@ != r.key@;
            let mut next: Vec<CachedSkillRow> = Vec::new();
            for j in 0..acc.len()
                invariant
                    p == (|x: CachedSkillRow| x.key@ != r.key@),
                    next@ == acc@.take(j as int).filter(p),
            {
                proof {
                    assert(acc@.take(j + 1) == acc@.take(j as int).push(acc@[j as int]));
                    acc@.take(j as int).lemma_filter_push(acc@[j as int], p);
                }
                if !str_eq(acc[j].key.as_str(), r.key.as_str()) {
                    next.push(acc[j].clone());
                }
            }
            proof {
                assert(acc@.take(acc@.len() as int) == acc@);
                assert(rows@.take(i + 1).drop_last() =~= rows@.take(i as int));
                let f = acc@.filter(p);
                let idx = lemma_filter_index_map(acc@, p);
                assert forall|a: int, b: int| 0 <= a < b < f.len() implies (#[trigger] f[a]).key@ != (#[trigger] f[b]).key@ by {
                    assert(idx[a] < idx[b]);
                    assert(f[a] == acc@[idx[a]] && f[b] == acc@[idx[b]]);
                }
                assert forall|a: int| 0 <= a < f.len() implies (#[trigger] f[a]).key@ != r.key@ by {
                    acc@.lemma_filter_pred(p, a);
                }
            }
            next.push(r);
            acc = next;
        }
        assert(rows@.take(rows@.len() as int) == rows@);
        CacheTable { rows: acc }
    }

    /// The rows of the table.
    pub fn rows(&self) -> (res: &Vec<CachedSkillRow>)
        ensures
            res@ == self@,
            distinct_row_keys(self@),
    {
        proof {
            use_type_invariant(self);
        }
        &self.rows
    }
}

/// The skills of the table's rows that are fresh at `now`, ordered by name
/// without regard to ASCII case (what the cache read's `expires_at > now` filter
/// and `ORDER BY name COLLATE NOCASE` give); rows of equal name keep their
/// order. The keys are distinct, as the table's are.
pub fn fresh_cached_skills(table: &CacheTable, now: i64) -> (res: Vec<FinboxSkill>)
    ensures
        sorted_by_name(res@),
        res@.to_multiset() == fresh_skills_of(table@, now).to_multiset(),
        distinct_row_keys(table@),
        distinct_keys(res@),
{
    fresh_skills_in(table.rows(), now)
}

/// The skill of the row of the table with key `key`, if it is fresh at `now`
/// (what the cache read by key gives).
pub fn fresh_cached_skill(table: &CacheTable, key: &str, now: i64) -> (res: Option<FinboxSkill>)
    ensures
        first_fresh_by_key(table@, key@, now, res),
        distinct_row_keys(table@),
{
    first_fresh_in(table.rows(), key, now)
}

} // verus!
