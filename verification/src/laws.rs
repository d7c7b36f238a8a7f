//! Properties of the library that span several of its functions.

use vstd::prelude::*;
use crate::skill::{search_key, search_result, skill_matches, skill_to_detail, tool_to_skill, FinboxSkill, FinboxToolRaw};
use crate::error::FinboxError;
use crate::install::install_plan_result;
use crate::text::{is_ascii_text, spec_to_lowercase};
use crate::skill::{ascii_key, is_search_of};
use crate::seqs::{
    is_index_map, is_sublist, lemma_filter_all_pass, lemma_filter_index_map, lemma_filter_keeps_all,
    lemma_increasing_at_least,
};
use crate::slug::{
    alnum_lowered, lemma_concat_filter_non_empty, lemma_concat_split, lemma_remove_dashes_join,
    lemma_remove_dashes_slug_chars, lemma_slug_pieces_words, not_dash, remove_dashes, slug_pieces,
    
    is_slug, is_word, is_word_char, lemma_join_words_is_slug,
    lemma_slug_fixed_point, lemma_split_pieces_words, non_empty, slug_char, slug_spec, split_dash,
};
use crate::cache::{
    replace_by_key,
    distinct_keys, distinct_row_keys,
    first_fresh_by_key, lemma_fresh_push,
    are_rows_for, fresh_skills_of, is_fresh, stored_columns, CacheRow, CachedSkillRow,
    CACHE_TTL_SECONDS,
};
use crate::install::{github_coords, UrlPartsView};
use crate::service::{opt_string_view, FinboxMarketplaceService};
use crate::text::{has_prefix, has_substring, occurs_at, seq_join, has_suffix, strip_suffix_all, spec_is_whitespace, trim_end_spec, trim_spec, trim_start_spec};

verus! {

proof fn lemma_trim_start_head(s: Seq<char>)
    ensures
        trim_start_spec(s).len() == 0 || !spec_is_whitespace(trim_start_spec(s)[0]),
    decreases s.len(),
{
    if s.len() > 0 && spec_is_whitespace(s[0]) {
        lemma_trim_start_head(s.drop_first());
    }
}

proof fn lemma_trim_end_tail(s: Seq<char>)
    ensures
        trim_end_spec(s).len() == 0 || !spec_is_whitespace(trim_end_spec(s).last()),
    decreases s.len(),
{
    if s.len() > 0 && spec_is_whitespace(s.last()) {
        lemma_trim_end_tail(s.drop_last());
    }
}

proof fn lemma_trim_end_prefix(s: Seq<char>)
    ensures
        trim_end_spec(s).len() <= s.len(),
        forall|i: int| 0 <= i < trim_end_spec(s).len() ==> trim_end_spec(s)[i] == s[i],
    decreases s.len(),
{
    if s.len() > 0 && spec_is_whitespace(s.last()) {
        lemma_trim_end_prefix(s.drop_last());
        assert forall|i: int| 0 <= i < trim_end_spec(s).len() implies trim_end_spec(s)[i] == s[i] by {
            assert(s.drop_last()[i] == s[i]);
        }
    }
}

/// Trimming is idempotent: a trimmed string trims to itself.
pub proof fn law_trim_idempotent(s: Seq<char>)
    ensures
        trim_spec(trim_spec(s)) == trim_spec(s),
{
    let u = trim_start_spec(s);
    let v = trim_end_spec(u);
    lemma_trim_start_head(s);
    lemma_trim_end_tail(u);
    lemma_trim_end_prefix(u);
    if v.len() > 0 {
        assert(v[0] == u[0]);
        assert(trim_start_spec(v) == v);
        assert(trim_end_spec(v) == v);
    }
}

/// Searching with no query, or with a query that is blank once trimmed, gives
/// the whole cached list back unchanged.
pub proof fn law_blank_query_returns_all(cached: Seq<FinboxSkill>, query: Option<Seq<char>>)
    requires
        query matches Some(q) ==> trim_spec(q).len() == 0,
    ensures
        search_result(cached, query) == cached,
{
}

/// A query and its trimmed form select the same skills.
pub proof fn law_search_ignores_surrounding_whitespace(cached: Seq<FinboxSkill>, q: Seq<char>)
    ensures
        search_result(cached, Some(trim_spec(q))) == search_result(cached, Some(q)),
{
    law_trim_idempotent(q);
}

proof fn lemma_filter_idempotent<A>(s: Seq<A>, p: spec_fn(A) -> bool)
    ensures
        s.filter(p).filter(p) == s.filter(p),
    decreases s.len(),
{
    reveal(Seq::filter);
    if s.len() > 0 {
        lemma_filter_idempotent(s.drop_last(), p);
        s.drop_last().filter(p).lemma_filter_push(s.last(), p);
    }
}

/// A search selects exactly the cached skills that match the query's key: every
/// skill it returns is a cached skill that matches, and every cached skill that
/// matches is returned.
pub proof fn law_search_selects_matching(cached: Seq<FinboxSkill>, query: Option<Seq<char>>, key: Seq<char>)
    requires
        search_key(query) == Some(key),
    ensures
        forall|i: int| 0 <= i < search_result(cached, query).len() ==> cached.contains(
            #[trigger] search_result(cached, query)[i],
        ) && skill_matches(search_result(cached, query)[i], key),
        forall|i: int| 0 <= i < cached.len() && skill_matches(#[trigger] cached[i], key) ==> search_result(
            cached,
            query,
        ).contains(cached[i]),
{
    let p = |s: FinboxSkill| skill_matches(s, key);
    let r = cached.filter(p);
    assert forall|i: int| 0 <= i < cached.len() implies cached.contains(#[trigger] cached[i]) by {}
    lemma_filter_keeps_all(cached, p, |s: FinboxSkill| cached.contains(s));
    assert forall|i: int| 0 <= i < r.len() implies skill_matches(#[trigger] r[i], key) by {
        cached.lemma_filter_pred(p, i);
    }
    assert forall|i: int| 0 <= i < cached.len() && skill_matches(#[trigger] cached[i], key) implies r.contains(cached[i]) by {
        cached.lemma_filter_contains(p, i);
    }
}

/// Searching the result of a search with the same query changes nothing.
pub proof fn law_search_idempotent(cached: Seq<FinboxSkill>, query: Option<Seq<char>>)
    ensures
        search_result(search_result(cached, query), query) == search_result(cached, query),
{
    if let Some(k) = search_key(query) {
        lemma_filter_idempotent(cached, |s: FinboxSkill| skill_matches(s, k));
    }
}

/// Every slug is well formed: not empty, made of lowercase ASCII letters,
/// digits and hyphens, with no hyphen at either end and none doubled.
pub proof fn law_slug_well_formed(value: Seq<char>)
    ensures
        is_slug(slug_spec(value)),
{
    let p = slug_pieces(value);
    lemma_slug_pieces_words(value);
    if p.len() >= 1 {
        lemma_join_words_is_slug(p);
    } else {
        reveal_strlit("finbox-skill");
    }
}

/// A slug keeps the ASCII letters and digits of its input, lowercased and in
/// order, and nothing else but hyphens; an input with no ASCII letter or digit
/// gives `finbox-skill`.
pub proof fn law_slug_keeps_letters_and_digits(value: Seq<char>)
    ensures
        alnum_lowered(value).len() > 0 ==> remove_dashes(slug_spec(value)) == alnum_lowered(value),
        alnum_lowered(value).len() == 0 ==> slug_spec(value) == "finbox-skill"@,
{
    let m = value.map_values(|c: char| slug_char(c));
    let p = slug_pieces(value);
    let core = seq_join(p, seq!['-']);
    lemma_slug_pieces_words(value);
    lemma_remove_dashes_join(p);
    lemma_concat_filter_non_empty(split_dash(m));
    lemma_concat_split(m);
    lemma_remove_dashes_slug_chars(value);
    assert(remove_dashes(core) == alnum_lowered(value));
    if p.len() >= 1 {
        lemma_join_words_is_slug(p);
        core.lemma_filter_contains(|c: char| not_dash(c), 0);
        assert(remove_dashes(core).len() > 0);
    }
}

/// Slugging is idempotent: the slug of a slug is itself.
pub proof fn law_slug_idempotent(value: Seq<char>)
    ensures
        slug_spec(slug_spec(value)) == slug_spec(value),
{
    law_slug_well_formed(value);
    lemma_slug_fixed_point(slug_spec(value));
}

proof fn lemma_strip_suffix_all_done(s: Seq<char>, pat: Seq<char>)
    requires
        pat.len() > 0,
    ensures
        !has_suffix(strip_suffix_all(s, pat), pat),
    decreases s.len(),
{
    if has_suffix(s, pat) {
        lemma_strip_suffix_all_done(s.subrange(0, s.len() - pat.len()), pat);
    }
}

/// The GitHub coordinates read from a URL always have a non-empty owner, and a
/// repository name that does not end with `.git`.
pub proof fn law_github_repo_name_clean(parts: Option<UrlPartsView>)
    ensures
        github_coords(parts) matches Some(c) ==> c.0.len() > 0 && !has_suffix(c.1, ".git"@),
{
    if let Some(c) = github_coords(parts) {
        let p = parts.unwrap();
        let s = p.1.unwrap().filter(|x: Seq<char>| non_empty(x));
        p.1.unwrap().lemma_filter_pred(|x: Seq<char>| non_empty(x), 0);
        reveal_strlit(".git");
        lemma_strip_suffix_all_done(s[1], ".git"@);
    }
}

/// The skill a read gives back for a stored skill: the cached columns, every
/// other field absent.
pub open spec fn cached_form(s: FinboxSkill) -> FinboxSkill {
    FinboxSkill {
        key: s.key,
        name: s.name,
        description: s.description,
        download_url: s.download_url,
        category: s.category,
        owner: None,
        version: None,
        status: None,
        download_count: None,
        monthly_usage: None,
        star_count: None,
    }
}

proof fn lemma_filter_none_pass<A>(s: Seq<A>, pred: spec_fn(A) -> bool)
    requires
        forall|i: int| 0 <= i < s.len() ==> !pred(#[trigger] s[i]),
    ensures
        s.filter(pred).len() == 0,
    decreases s.len(),
{
    reveal(Seq::filter);
    if s.len() > 0 {
        let d = s.drop_last();
        assert forall|i: int| 0 <= i < d.len() implies !pred(#[trigger] d[i]) by {
            assert(d[i] == s[i]);
        }
        lemma_filter_none_pass(d, pred);
        assert(!pred(s[s.len() - 1]));
    }
}

/// What a refresh stores is read back while it is fresh: reading the rows
/// written at `now` at any time `t` before they expire gives every stored skill,
/// in the order stored, with the cached columns only.
pub proof fn law_cache_read_back(skills: Seq<FinboxSkill>, rows: Seq<CacheRow>, now: i64, t: i64)
    requires
        are_rows_for(rows, skills, now),
        now <= t < now + CACHE_TTL_SECONDS,
    ensures
        fresh_skills_of(rows.map_values(|r: CacheRow| stored_columns(r)), t) == skills.map_values(
            |s: FinboxSkill| cached_form(s),
        ),
{
    let stored = rows.map_values(|r: CacheRow| stored_columns(r));
    let fresh = |r: CachedSkillRow| is_fresh(r, t);
    assert forall|i: int| 0 <= i < stored.len() implies fresh(#[trigger] stored[i]) by {
        assert(crate::cache::is_row_for(rows[i], skills[i], now));
    }
    lemma_filter_all_pass(stored, fresh);
    assert forall|i: int| 0 <= i < skills.len() implies fresh_skills_of(stored, t)[i] == cached_form(skills[i]) by {
        assert(crate::cache::is_row_for(rows[i], skills[i], now));
    }
    assert(fresh_skills_of(stored, t) =~= skills.map_values(|s: FinboxSkill| cached_form(s)));
}

/// Once a refresh has expired, reading its rows gives nothing.
pub proof fn law_cache_expires(skills: Seq<FinboxSkill>, rows: Seq<CacheRow>, now: i64, t: i64)
    requires
        are_rows_for(rows, skills, now),
        now + CACHE_TTL_SECONDS <= t,
    ensures
        fresh_skills_of(rows.map_values(|r: CacheRow| stored_columns(r)), t).len() == 0,
{
    let stored = rows.map_values(|r: CacheRow| stored_columns(r));
    let fresh = |r: CachedSkillRow| is_fresh(r, t);
    assert forall|i: int| 0 <= i < stored.len() implies !fresh(#[trigger] stored[i]) by {
        assert(crate::cache::is_row_for(rows[i], skills[i], now));
    }
    lemma_filter_none_pass(stored, fresh);
}

/// A cookie that has been set is what reading the cookie gives back, and the
/// service then reports that it holds one.
pub proof fn law_cookie_read_back(service: FinboxMarketplaceService, cookie: String, read: Option<String>)
    requires
        service.cookie() == Some(cookie@),
        opt_string_view(read) == service.cookie(),
    ensures
        read matches Some(c) && c@ == cookie@,
        service.cookie().is_some(),
{
}

/// A search result is an order-preserving sub-list of the cached list; when the
/// cached skills have distinct keys, so do the skills found.
pub proof fn law_search_is_sublist(cached: Seq<FinboxSkill>, query: Option<Seq<char>>)
    ensures
        is_sublist(search_result(cached, query), cached),
        search_result(cached, query).len() <= cached.len(),
        distinct_keys(cached) ==> distinct_keys(search_result(cached, query)),
{
    let r = search_result(cached, query);
    let idx = match search_key(query) {
        None => {
            let id = Seq::new(cached.len(), |i: int| i);
            assert(is_index_map(id, r, cached));
            id
        },
        Some(k) => lemma_filter_index_map(cached, |s: FinboxSkill| skill_matches(s, k)),
    };
    assert(is_index_map(idx, r, cached));
    if r.len() > cached.len() {
        let n = cached.len() as int;
        assert forall|i: int| 0 <= i <= n implies #[trigger] idx[i] >= i by {
            lemma_increasing_at_least(idx, cached, i);
        }
        assert(idx[n] >= n);
    }
    if distinct_keys(cached) {
        assert forall|i: int, j: int| 0 <= i < j < r.len() implies (#[trigger] r[i]).key@ != (#[trigger] r[j]).key@ by {
            assert(idx[i] < idx[j]);
            assert(r[i] == cached[idx[i]] && r[j] == cached[idx[j]]);
        }
    }
}

proof fn lemma_substring_trans(a: Seq<char>, b: Seq<char>, c: Seq<char>)
    requires
        has_substring(a, b),
        has_substring(b, c),
    ensures
        has_substring(a, c),
{
    let i = choose|i: int| occurs_at(a, b, i);
    let j = choose|j: int| occurs_at(b, c, j);
    assert(a.subrange(i + j, i + j + c.len()) =~= b.subrange(j, j + c.len()));
    assert(occurs_at(a, c, i + j));
}

/// The text a query is searched by: the trimmed query in lowercase, and the
/// empty text for a blank query (the lowercase of the empty string being empty,
/// see `str_to_lowercase`).
pub open spec fn search_text(q: Seq<char>) -> Seq<char> {
    if trim_spec(q).len() == 0 {
        Seq::<char>::empty()
    } else {
        spec_to_lowercase(trim_spec(q))
    }
}

/// A longer query never finds more: when the search text of one query contains
/// the search text of another, every skill the first finds, the second finds too.
pub proof fn law_search_monotone(cached: Seq<FinboxSkill>, q1: Seq<char>, q2: Seq<char>)
    requires
        has_substring(search_text(q2), search_text(q1)),
    ensures
        forall|i: int| 0 <= i < search_result(cached, Some(q2)).len() ==> search_result(cached, Some(q1)).contains(
            #[trigger] search_result(cached, Some(q2))[i],
        ),
{
    let r1 = search_result(cached, Some(q1));
    let r2 = search_result(cached, Some(q2));
    law_search_is_sublist(cached, Some(q2));
    let idx = choose|idx: Seq<int>| is_index_map(idx, r2, cached);
    if trim_spec(q1).len() == 0 {
        assert forall|i: int| 0 <= i < r2.len() implies r1.contains(#[trigger] r2[i]) by {
            assert(r1[idx[i]] == r2[i]);
        }
    } else if trim_spec(q2).len() == 0 {
        let k1 = search_text(q1);
        let i0 = choose|i: int| occurs_at(search_text(q2), k1, i);
        assert(k1.len() == 0);
        let p = |s: FinboxSkill| skill_matches(s, k1);
        assert forall|j: int| 0 <= j < cached.len() implies p(#[trigger] cached[j]) by {
            assert(spec_to_lowercase(cached[j].name@).subrange(0, 0) =~= k1);
            assert(occurs_at(spec_to_lowercase(cached[j].name@), k1, 0));
        }
        lemma_filter_all_pass(cached, p);
        assert forall|i: int| 0 <= i < r2.len() implies r1.contains(#[trigger] r2[i]) by {
            assert(r1[idx[i]] == r2[i]);
        }
    } else {
        let k1 = search_text(q1);
        let k2 = search_text(q2);
        law_search_selects_matching(cached, Some(q1), k1);
        law_search_selects_matching(cached, Some(q2), k2);
        assert forall|i: int| 0 <= i < r2.len() implies r1.contains(#[trigger] r2[i]) by {
            let s = r2[i];
            assert(cached.contains(s) && skill_matches(s, k2));
            let j = choose|j: int| 0 <= j < cached.len() && cached[j] == s;
            if has_substring(spec_to_lowercase(s.name@), k2) {
                lemma_substring_trans(spec_to_lowercase(s.name@), k2, k1);
            } else {
                lemma_substring_trans(spec_to_lowercase(s.description.unwrap()@), k2, k1);
            }
            assert(skill_matches(cached[j], k1));
        }
    }
}

proof fn lemma_trim_start_ws_prefix(a: Seq<char>, x: Seq<char>)
    requires
        forall|i: int| 0 <= i < a.len() ==> spec_is_whitespace(#[trigger] a[i]),
    ensures
        trim_start_spec(a + x) == trim_start_spec(x),
    decreases a.len(),
{
    if a.len() > 0 {
        assert((a + x)[0] == a[0]);
        assert((a + x).drop_first() =~= a.drop_first() + x);
        assert forall|i: int| 0 <= i < a.drop_first().len() implies spec_is_whitespace(#[trigger] a.drop_first()[i]) by {
            assert(a.drop_first()[i] == a[i + 1]);
        }
        lemma_trim_start_ws_prefix(a.drop_first(), x);
    } else {
        assert(a + x =~= x);
    }
}

proof fn lemma_trim_end_ws_suffix(x: Seq<char>, b: Seq<char>)
    requires
        forall|i: int| 0 <= i < b.len() ==> spec_is_whitespace(#[trigger] b[i]),
    ensures
        trim_end_spec(x + b) == trim_end_spec(x),
    decreases b.len(),
{
    if b.len() > 0 {
        assert((x + b).last() == b.last());
        assert((x + b).drop_last() =~= x + b.drop_last());
        assert forall|i: int| 0 <= i < b.drop_last().len() implies spec_is_whitespace(#[trigger] b.drop_last()[i]) by {
            assert(b.drop_last()[i] == b[i]);
        }
        lemma_trim_end_ws_suffix(x, b.drop_last());
    } else {
        assert(x + b =~= x);
    }
}

proof fn lemma_trim_start_append(x: Seq<char>, b: Seq<char>)
    ensures
        trim_start_spec(x + b) == if trim_start_spec(x).len() == 0 {
            trim_start_spec(b)
        } else {
            trim_start_spec(x) + b
        },
    decreases x.len(),
{
    if x.len() == 0 {
        assert(x + b =~= b);
    } else {
        assert((x + b)[0] == x[0]);
        assert((x + b).drop_first() =~= x.drop_first() + b);
        lemma_trim_start_append(x.drop_first(), b);
    }
}

proof fn lemma_trim_start_all_ws(b: Seq<char>)
    requires
        forall|i: int| 0 <= i < b.len() ==> spec_is_whitespace(#[trigger] b[i]),
    ensures
        trim_start_spec(b).len() == 0,
    decreases b.len(),
{
    if b.len() > 0 {
        assert forall|i: int| 0 <= i < b.drop_first().len() implies spec_is_whitespace(#[trigger] b.drop_first()[i]) by {
            assert(b.drop_first()[i] == b[i + 1]);
        }
        lemma_trim_start_all_ws(b.drop_first());
    }
}

/// Whitespace around a query does not change what it finds: a query padded on
/// either side with whitespace selects the same skills as the query itself.
pub proof fn law_search_ignores_padding(cached: Seq<FinboxSkill>, before: Seq<char>, q: Seq<char>, after: Seq<char>)
    requires
        forall|i: int| 0 <= i < before.len() ==> spec_is_whitespace(#[trigger] before[i]),
        forall|i: int| 0 <= i < after.len() ==> spec_is_whitespace(#[trigger] after[i]),
    ensures
        trim_spec(before + q + after) == trim_spec(q),
        search_result(cached, Some(before + q + after)) == search_result(cached, Some(q)),
{
    assert(before + q + after =~= before + (q + after));
    lemma_trim_start_ws_prefix(before, q + after);
    lemma_trim_start_append(q, after);
    if trim_start_spec(q).len() == 0 {
        lemma_trim_start_all_ws(after);
        assert(trim_end_spec(trim_start_spec(after)) =~= trim_start_spec(after));
        assert(trim_end_spec(trim_start_spec(q)) =~= trim_start_spec(q));
    } else {
        lemma_trim_end_ws_suffix(trim_start_spec(q), after);
    }
}

proof fn lemma_fresh_contains(rows: Seq<CachedSkillRow>, now: i64, x: FinboxSkill)
    ensures
        fresh_skills_of(rows, now).contains(x) <==> exists|j: int| #![trigger rows[j]] 0 <= j < rows.len() && is_fresh(rows[j], now)
            && crate::cache::row_to_skill(rows[j]) == x,
    decreases rows.len(),
{
    if rows.len() == 0 {
        reveal(Seq::filter);
        assert(fresh_skills_of(rows, now).len() == 0);
    } else {
        let d = rows.drop_last();
        let r = rows.last();
        assert(d.push(r) =~= rows);
        lemma_fresh_push(d, r, now);
        lemma_fresh_contains(d, now, x);
        let fd = fresh_skills_of(d, now);
        if fresh_skills_of(rows, now).contains(x) {
            let m = choose|m: int| 0 <= m < fresh_skills_of(rows, now).len() && fresh_skills_of(rows, now)[m] == x;
            if m < fd.len() {
                assert(fd[m] == x);
                assert(fd.contains(x));
                let j = choose|j: int| #![trigger d[j]] 0 <= j < d.len() && is_fresh(d[j], now) && crate::cache::row_to_skill(d[j]) == x;
                assert(rows[j] == d[j]);
            } else {
                assert(rows[rows.len() - 1] == r);
            }
        }
        if exists|j: int| #![trigger rows[j]] 0 <= j < rows.len() && is_fresh(rows[j], now) && crate::cache::row_to_skill(rows[j]) == x {
            let j = choose|j: int| #![trigger rows[j]] 0 <= j < rows.len() && is_fresh(rows[j], now) && crate::cache::row_to_skill(rows[j]) == x;
            if j < d.len() {
                assert(d[j] == rows[j]);
                assert(fd.contains(x));
                let m = choose|m: int| 0 <= m < fd.len() && fd[m] == x;
                assert(fresh_skills_of(rows, now)[m] == x);
            } else {
                assert(fresh_skills_of(rows, now)[fd.len() as int] == x);
            }
        }
    }
}

/// The read by key agrees with the full read: it finds a skill exactly when the
/// full list holds a skill with that key, and then that very skill. The rows are
/// those of a cache table, whose keys are distinct (both reads ensure it).
pub proof fn law_read_by_key_agrees_with_full_read(
    rows: Seq<CachedSkillRow>,
    now: i64,
    list: Seq<FinboxSkill>,
    key: Seq<char>,
    found: Option<FinboxSkill>,
)
    requires
        distinct_row_keys(rows),
        list.to_multiset() == fresh_skills_of(rows, now).to_multiset(),
        first_fresh_by_key(rows, key, now, found),
    ensures
        found matches Some(x) ==> list.contains(x) && x.key@ == key,
        forall|i: int| 0 <= i < list.len() && (#[trigger] list[i]).key@ == key ==> found == Some(list[i]),
        found is None ==> forall|i: int| 0 <= i < list.len() ==> (#[trigger] list[i]).key@ != key,
{
    let fresh = fresh_skills_of(rows, now);
    if let Some(x) = found {
        let k = choose|k: int| #![trigger rows[k]] 0 <= k < rows.len() && rows[k].key@ == key && is_fresh(rows[k], now)
            && x == crate::cache::row_to_skill(rows[k]) && forall|j: int| 0 <= j < k ==> !(#[trigger] rows[j].key@ == key && is_fresh(rows[j], now));
        lemma_fresh_contains(rows, now, x);
        vstd::seq_lib::to_multiset_contains(fresh, x);
        vstd::seq_lib::to_multiset_contains(list, x);
    }
    assert forall|i: int| 0 <= i < list.len() && (#[trigger] list[i]).key@ == key implies found == Some(list[i]) by {
        let y = list[i];
        assert(list.contains(y));
        vstd::seq_lib::to_multiset_contains(list, y);
        vstd::seq_lib::to_multiset_contains(fresh, y);
        lemma_fresh_contains(rows, now, y);
        let j = choose|j: int| #![trigger rows[j]] 0 <= j < rows.len() && is_fresh(rows[j], now) && crate::cache::row_to_skill(rows[j]) == y;
        assert(rows[j].key@ == key && is_fresh(rows[j], now));
        if let Some(x) = found {
            let k = choose|k: int| #![trigger rows[k]] 0 <= k < rows.len() && rows[k].key@ == key && is_fresh(rows[k], now)
                && x == crate::cache::row_to_skill(rows[k]) && forall|j2: int| 0 <= j2 < k ==> !(#[trigger] rows[j2].key@ == key && is_fresh(rows[j2], now));
            if k < j {
                assert(rows[k].key@ != rows[j].key@);
            } else if j < k {
                assert(rows[j].key@ != rows[k].key@);
            }
        }
    }
}

/// The detail read for a skill that a search returned is that same skill: same
/// key, name, description, download URL and category. The rows are those of a
/// cache table, whose keys are distinct (both reads ensure it).
pub proof fn law_detail_of_searched_skill(
    rows: Seq<CachedSkillRow>,
    now: i64,
    list: Seq<FinboxSkill>,
    query: Option<Seq<char>>,
    i: int,
    found: Option<FinboxSkill>,
)
    requires
        distinct_row_keys(rows),
        list.to_multiset() == fresh_skills_of(rows, now).to_multiset(),
        0 <= i < search_result(list, query).len(),
        first_fresh_by_key(rows, search_result(list, query)[i].key@, now, found),
    ensures
        found == Some(search_result(list, query)[i]),
        skill_to_detail(found.unwrap()).key == search_result(list, query)[i].key,
        skill_to_detail(found.unwrap()).name == search_result(list, query)[i].name,
        skill_to_detail(found.unwrap()).description == search_result(list, query)[i].description,
        skill_to_detail(found.unwrap()).download_url == search_result(list, query)[i].download_url,
        skill_to_detail(found.unwrap()).category == search_result(list, query)[i].category,
{
    let r = search_result(list, query);
    law_search_is_sublist(list, query);
    let idx = choose|idx: Seq<int>| is_index_map(idx, r, list);
    assert(r[i] == list[idx[i]]);
    law_read_by_key_agrees_with_full_read(rows, now, list, r[i].key@, found);
}

/// A skill of the listing, read back from a fresh refresh, keeps the listing's
/// download URL; so installing it by its key is never refused as unknown or as
/// having no download URL when the listing gave one.
pub proof fn law_listed_skill_keeps_download_url(
    tools: Seq<FinboxToolRaw>,
    rows: Seq<CacheRow>,
    now: i64,
    t: i64,
    k: int,
    app: Seq<char>,
    app_type_error: Option<String>,
    res: Result<crate::install::InstallPlan, FinboxError>,
)
    requires
        are_rows_for(rows, tools.map_values(|x: FinboxToolRaw| tool_to_skill(x)), now),
        now <= t < now + CACHE_TTL_SECONDS,
        0 <= k < tools.len(),
        install_plan_result(
            res,
            tools[k].id@,
            Some(fresh_skills_of(rows.map_values(|r: CacheRow| stored_columns(r)), t)[k]),
            app,
            app_type_error,
        ),
    ensures
        fresh_skills_of(rows.map_values(|r: CacheRow| stored_columns(r)), t)[k].key == tools[k].id,
        fresh_skills_of(rows.map_values(|r: CacheRow| stored_columns(r)), t)[k].download_url == tools[k].download_url,
        !(res matches Err(FinboxError::SkillNotFound { .. })),
        tools[k].download_url is Some ==> !(res matches Err(FinboxError::NoDownloadUrl { .. })),
{
    let skills = tools.map_values(|x: FinboxToolRaw| tool_to_skill(x));
    law_cache_read_back(skills, rows, now, t);
    assert(skills[k] == tool_to_skill(tools[k]));
}

/// The ASCII uppercase form of a character: `a` to `z` become `A` to `Z`,
/// every other character is kept.
pub open spec fn ascii_upper(c: char) -> char {
    if 'a' <= c && c <= 'z' {
        ((c as u32) - 32) as char
    } else {
        c
    }
}

proof fn lemma_upper_char(c: char)
    ensures
        spec_is_whitespace(ascii_upper(c)) == spec_is_whitespace(c),
        c <= '\u{7f}' ==> ascii_upper(c) <= '\u{7f}',
        c <= '\u{7f}' ==> crate::slug::ascii_lower(ascii_upper(c)) == crate::slug::ascii_lower(c),
{
}

proof fn lemma_trim_map_upper(s: Seq<char>)
    ensures
        trim_start_spec(s.map_values(|c: char| ascii_upper(c))) == trim_start_spec(s).map_values(|c: char| ascii_upper(c)),
        trim_end_spec(s.map_values(|c: char| ascii_upper(c))) == trim_end_spec(s).map_values(|c: char| ascii_upper(c)),
    decreases s.len(),
{
    let up = |c: char| ascii_upper(c);
    let u = s.map_values(up);
    if s.len() > 0 {
        lemma_upper_char(s[0]);
        lemma_upper_char(s.last());
        assert(u.drop_first() =~= s.drop_first().map_values(up));
        assert(u.drop_last() =~= s.drop_last().map_values(up));
        lemma_trim_map_upper(s.drop_first());
        lemma_trim_map_upper(s.drop_last());
    } else {
        assert(u =~= s.map_values(up));
    }
}

proof fn lemma_trim_keeps_ascii(s: Seq<char>)
    requires
        is_ascii_text(s),
    ensures
        is_ascii_text(trim_start_spec(s)),
        is_ascii_text(trim_end_spec(s)),
    decreases s.len(),
{
    if s.len() > 0 {
        assert(is_ascii_text(s.drop_first())) by {
            assert forall|i: int| 0 <= i < s.drop_first().len() implies #[trigger] s.drop_first()[i] <= '\u{7f}' by {
                assert(s.drop_first()[i] == s[i + 1]);
            }
        }
        assert(is_ascii_text(s.drop_last())) by {
            assert forall|i: int| 0 <= i < s.drop_last().len() implies #[trigger] s.drop_last()[i] <= '\u{7f}' by {
                assert(s.drop_last()[i] == s[i]);
            }
        }
        lemma_trim_keeps_ascii(s.drop_first());
        lemma_trim_keeps_ascii(s.drop_last());
    }
}

/// Searching ignores ASCII case and surrounding whitespace: an ASCII query, and
/// the same query in ASCII uppercase padded with whitespace, return the same skills.
pub proof fn law_search_ignores_ascii_case(
    cached: Seq<FinboxSkill>,
    before: Seq<char>,
    q: Seq<char>,
    after: Seq<char>,
    r1: Seq<FinboxSkill>,
    r2: Seq<FinboxSkill>,
)
    requires
        is_ascii_text(q),
        forall|i: int| 0 <= i < before.len() ==> spec_is_whitespace(#[trigger] before[i]),
        forall|i: int| 0 <= i < after.len() ==> spec_is_whitespace(#[trigger] after[i]),
        is_search_of(r1, cached, Some(q)),
        is_search_of(r2, cached, Some(before + q.map_values(|c: char| ascii_upper(c)) + after)),
    ensures
        r1 == r2,
{
    let up = |c: char| ascii_upper(c);
    let lo = |c: char| crate::slug::ascii_lower(c);
    let u = q.map_values(up);
    let padded = before + u + after;
    law_search_ignores_padding(cached, before, u, after);
    lemma_trim_map_upper(q);
    lemma_trim_map_upper(trim_start_spec(q));
    assert(trim_spec(u) == trim_spec(q).map_values(up));
    assert(trim_spec(padded) == trim_spec(q).map_values(up));
    if trim_spec(q).len() > 0 {
        lemma_trim_keeps_ascii(q);
        lemma_trim_keeps_ascii(trim_start_spec(q));
        let t = trim_spec(q);
        assert(is_ascii_text(t));
        assert(is_ascii_text(t.map_values(up))) by {
            assert forall|i: int| 0 <= i < t.len() implies #[trigger] t.map_values(up)[i] <= '\u{7f}' by {
                lemma_upper_char(t[i]);
            }
        }
        assert(ascii_key(padded) =~= ascii_key(q)) by {
            assert forall|i: int| 0 <= i < t.len() implies #[trigger] t.map_values(up).map_values(lo)[i] == t.map_values(lo)[i] by {
                lemma_upper_char(t[i]);
            }
        }
    }
}

/// A table filled with rows of distinct keys holds exactly those rows, in order:
/// inserting them replaces nothing.
pub proof fn law_table_of_distinct_rows(rows: Seq<CachedSkillRow>)
    requires
        distinct_row_keys(rows),
    ensures
        replace_by_key(rows) == rows,
    decreases rows.len(),
{
    if rows.len() > 0 {
        let d = rows.drop_last();
        let r = rows.last();
        assert forall|i: int, j: int| 0 <= i < j < d.len() implies (#[trigger] d[i]).key@ != (#[trigger] d[j]).key@ by {
            assert(d[i] == rows[i] && d[j] == rows[j]);
        }
        law_table_of_distinct_rows(d);
        let p = |x: CachedSkillRow| x.key@ != r.key@;
        assert forall|i: int| 0 <= i < d.len() implies p(#[trigger] d[i]) by {
            assert(d[i] == rows[i]);
            assert(rows[i].key@ != rows[rows.len() - 1].key@);
        }
        lemma_filter_all_pass(d, p);
        assert(d.push(r) =~= rows);
    }
}

/// Every character of `needle` equals the character of `hay` that far past
/// position `i`, all within `hay`.
pub open spec fn agrees_at(hay: Seq<char>, needle: Seq<char>, i: int) -> bool {
    &&& 0 <= i
    &&& i + needle.len() <= hay.len()
    &&& forall|j: int| 0 <= j < needle.len() ==> #[trigger] hay[i + j] == needle[j]
}

/// Substring, in terms of characters: `needle` occurs in `hay` exactly when, at
/// some position, every character of `needle` equals the character of `hay`
/// that far past that position.
pub proof fn law_substring_by_characters(hay: Seq<char>, needle: Seq<char>)
    ensures
        has_substring(hay, needle) <==> exists|i: int| #[trigger] agrees_at(hay, needle, i),
{
    if has_substring(hay, needle) {
        let i = choose|i: int| occurs_at(hay, needle, i);
        assert forall|j: int| 0 <= j < needle.len() implies #[trigger] hay[i + j] == needle[j] by {
            assert(hay.subrange(i, i + needle.len())[j] == hay[i + j]);
        }
        assert(agrees_at(hay, needle, i));
    }
    if exists|i: int| #[trigger] agrees_at(hay, needle, i) {
        let i = choose|i: int| #[trigger] agrees_at(hay, needle, i);
        assert forall|k: int| 0 <= k < needle.len() implies #[trigger] hay.subrange(i, i + needle.len())[k] == needle[k] by {
            assert(hay[i + k] == needle[k]);
        }
        assert(hay.subrange(i, i + needle.len()) =~= needle);
        assert(occurs_at(hay, needle, i));
    }
}

/// Prefix, in terms of characters: `hay` starts with `prefix` exactly when it is
/// at least as long and agrees with it on every position of `prefix`.
pub proof fn law_prefix_by_characters(hay: Seq<char>, prefix: Seq<char>)
    ensures
        has_prefix(hay, prefix) <==> prefix.len() <= hay.len() && forall|j: int| 0 <= j < prefix.len() ==> #[trigger] hay[j] == prefix[j],
{
    if prefix.len() <= hay.len() && forall|j: int| 0 <= j < prefix.len() ==> #[trigger] hay[j] == prefix[j] {
        assert(hay.subrange(0, prefix.len() as int) =~= prefix);
    }
    if has_prefix(hay, prefix) {
        assert forall|j: int| 0 <= j < prefix.len() implies #[trigger] hay[j] == prefix[j] by {
            assert(hay.subrange(0, prefix.len() as int)[j] == hay[j]);
        }
    }
}

/// Suffix, in terms of characters: `hay` ends with `suffix` exactly when it is
/// at least as long and agrees with it on its last `suffix.len()` positions.
pub proof fn law_suffix_by_characters(hay: Seq<char>, suffix: Seq<char>)
    ensures
        has_suffix(hay, suffix) <==> suffix.len() <= hay.len() && forall|j: int| 0 <= j < suffix.len()
            ==> #[trigger] hay[hay.len() - suffix.len() + j] == suffix[j],
{
    let d = hay.len() - suffix.len();
    if suffix.len() <= hay.len() && forall|j: int| 0 <= j < suffix.len() ==> #[trigger] hay[hay.len() - suffix.len() + j] == suffix[j] {
        assert forall|k: int| 0 <= k < suffix.len() implies #[trigger] hay.subrange(d, hay.len() as int)[k] == suffix[k] by {
            assert(hay[hay.len() - suffix.len() + k] == suffix[k]);
        }
        assert(hay.subrange(d, hay.len() as int) =~= suffix);
    }
    if has_suffix(hay, suffix) {
        assert forall|j: int| 0 <= j < suffix.len() implies #[trigger] hay[hay.len() - suffix.len() + j] == suffix[j] by {
            assert(hay.subrange(d, hay.len() as int)[j] == hay[d + j]);
        }
    }
}

/// A skill matches a search key exactly when its lowercase name contains the
/// key, or it has a description whose lowercase form contains the key; no other
/// field (category, owner, ...) plays any part.
pub proof fn law_match_is_name_or_description(s: FinboxSkill, key: Seq<char>)
    ensures
        skill_matches(s, key) == (has_substring(spec_to_lowercase(s.name@), key) || (s.description is Some
            && has_substring(spec_to_lowercase(s.description->0@), key))),
{
}

/// Whatever its other fields hold, a cached skill whose lowercase description
/// contains the search key, or whose lowercase name does, is in the search result.
pub proof fn law_description_or_name_hit_is_found(cached: Seq<FinboxSkill>, query: Option<Seq<char>>, key: Seq<char>, i: int)
    requires
        search_key(query) == Some(key),
        0 <= i < cached.len(),
        has_substring(spec_to_lowercase(cached[i].name@), key) || (cached[i].description is Some
            && has_substring(spec_to_lowercase(cached[i].description->0@), key)),
    ensures
        search_result(cached, query).contains(cached[i]),
{
    law_match_is_name_or_description(cached[i], key);
    law_search_selects_matching(cached, query, key);
}

/// ASCII case folding: `A` to `Z` move up to `a` to `z` (32 code points), every
/// other character is kept.
pub proof fn law_ascii_lower(c: char)
    ensures
        'A' <= c && c <= 'Z' ==> crate::slug::ascii_lower(c) as u32 == c as u32 + 32,
        !('A' <= c && c <= 'Z') ==> crate::slug::ascii_lower(c) == c,
{
}

proof fn lemma_lex_le_by_characters(a: Seq<char>, b: Seq<char>)
    ensures
        crate::cache::lex_le(a, b) <==> {
            ||| a.len() <= b.len() && forall|j: int| 0 <= j < a.len() ==> #[trigger] a[j] == b[j]
            ||| exists|i: int| 0 <= i < a.len() && i < b.len() && (forall|j: int| 0 <= j < i ==> #[trigger] a[j] == b[j]) && a[i] < b[i]
        },
    decreases a.len(),
{
    if a.len() > 0 && b.len() > 0 {
        let a1 = a.drop_first();
        let b1 = b.drop_first();
        lemma_lex_le_by_characters(a1, b1);
        if a[0] == b[0] {
            if a1.len() <= b1.len() && forall|j: int| 0 <= j < a1.len() ==> #[trigger] a1[j] == b1[j] {
                assert forall|j: int| 0 <= j < a.len() implies #[trigger] a[j] == b[j] by {
                    if j > 0 {
                        assert(a1[j - 1] == b1[j - 1]);
                    }
                }
            }
            if exists|i: int| 0 <= i < a1.len() && i < b1.len() && (forall|j: int| 0 <= j < i ==> #[trigger] a1[j] == b1[j]) && a1[i] < b1[i] {
                let i = choose|i: int| 0 <= i < a1.len() && i < b1.len() && (forall|j: int| 0 <= j < i ==> #[trigger] a1[j] == b1[j]) && a1[i] < b1[i];
                assert(a[i + 1] < b[i + 1]);
                assert forall|j: int| 0 <= j < i + 1 implies #[trigger] a[j] == b[j] by {
                    if j > 0 {
                        assert(a1[j - 1] == b1[j - 1]);
                    }
                }
            }
            if a.len() <= b.len() && forall|j: int| 0 <= j < a.len() ==> #[trigger] a[j] == b[j] {
                assert forall|j: int| 0 <= j < a1.len() implies #[trigger] a1[j] == b1[j] by {
                    assert(a[j + 1] == b[j + 1]);
                }
            }
            if exists|i: int| 0 <= i < a.len() && i < b.len() && (forall|j: int| 0 <= j < i ==> #[trigger] a[j] == b[j]) && a[i] < b[i] {
                let i = choose|i: int| 0 <= i < a.len() && i < b.len() && (forall|j: int| 0 <= j < i ==> #[trigger] a[j] == b[j]) && a[i] < b[i];
                assert(i > 0);
                assert forall|j: int| 0 <= j < i - 1 implies #[trigger] a1[j] == b1[j] by {
                    assert(a[j + 1] == b[j + 1]);
                }
                assert(a1[i - 1] < b1[i - 1]);
            }
        } else {
            if a[0] < b[0] {
                assert(exists|i: int| 0 <= i < a.len() && i < b.len() && (forall|j: int| 0 <= j < i ==> #[trigger] a[j] == b[j]) && a[i] < b[i]) by {
                    assert(a[0] < b[0]);
                }
            } else {
                assert(!(a.len() <= b.len() && forall|j: int| 0 <= j < a.len() ==> #[trigger] a[j] == b[j])) by {
                    assert(a[0] != b[0]);
                }
                assert forall|i: int| !(0 <= i < a.len() && i < b.len() && (forall|j: int| 0 <= j < i ==> #[trigger] a[j] == b[j]) && a[i] < b[i]) by {
                    if 0 < i < a.len() && i < b.len() && (forall|j: int| 0 <= j < i ==> #[trigger] a[j] == b[j]) {
                        assert(a[0] == b[0]);
                    }
                }
            }
        }
    } else if a.len() > 0 {
        assert(!(a.len() <= b.len()));
    }
}

/// The name order of the cache read compares whole names, character by
/// character, with ASCII letters folded to lowercase: `x` comes no later than
/// `y` exactly when the folded name of `x` is a prefix of that of `y`, or at the
/// first position where the folded names differ, `x`'s character is the smaller.
pub proof fn law_name_order_by_characters(x: FinboxSkill, y: FinboxSkill)
    ensures
        crate::cache::name_le(x, y) <==> {
            let a = x.name@;
            let b = y.name@;
            ||| a.len() <= b.len() && forall|j: int| 0 <= j < a.len() ==> #[trigger] crate::slug::ascii_lower(a[j])
                == crate::slug::ascii_lower(b[j])
            ||| exists|i: int| 0 <= i < a.len() && i < b.len() && (forall|j: int| 0 <= j < i ==> #[trigger] crate::slug::ascii_lower(a[j])
                == crate::slug::ascii_lower(b[j])) && crate::slug::ascii_lower(a[i]) < crate::slug::ascii_lower(b[i])
        },
{
    let a = x.name@;
    let b = y.name@;
    let fa = crate::cache::nocase(a);
    let fb = crate::cache::nocase(b);
    assert(fa.len() == a.len() && fb.len() == b.len());
    assert(forall|j: int| 0 <= j < a.len() ==> #[trigger] fa[j] == crate::slug::ascii_lower(a[j]));
    assert(forall|j: int| 0 <= j < b.len() ==> #[trigger] fb[j] == crate::slug::ascii_lower(b[j]));
    lemma_lex_le_by_characters(fa, fb);
    let p1 = a.len() <= b.len() && forall|j: int| 0 <= j < a.len() ==> #[trigger] crate::slug::ascii_lower(a[j]) == crate::slug::ascii_lower(b[j]);
    let q1 = fa.len() <= fb.len() && forall|j: int| 0 <= j < fa.len() ==> #[trigger] fa[j] == fb[j];
    assert(p1 == q1) by {
        if p1 {
            assert forall|j: int| 0 <= j < fa.len() implies #[trigger] fa[j] == fb[j] by {
                assert(crate::slug::ascii_lower(a[j]) == crate::slug::ascii_lower(b[j]));
            }
        }
        if q1 {
            assert forall|j: int| 0 <= j < a.len() implies #[trigger] crate::slug::ascii_lower(a[j]) == crate::slug::ascii_lower(b[j]) by {
                assert(fa[j] == fb[j]);
            }
        }
    }
    let p2 = exists|i: int| 0 <= i < a.len() && i < b.len() && (forall|j: int| 0 <= j < i ==> #[trigger] crate::slug::ascii_lower(a[j]) == crate::slug::ascii_lower(b[j])) && crate::slug::ascii_lower(a[i]) < crate::slug::ascii_lower(b[i]);
    let q2 = exists|i: int| 0 <= i < fa.len() && i < fb.len() && (forall|j: int| 0 <= j < i ==> #[trigger] fa[j] == fb[j]) && fa[i] < fb[i];
    assert(p2 == q2) by {
        if p2 {
            let i = choose|i: int| 0 <= i < a.len() && i < b.len() && (forall|j: int| 0 <= j < i ==> #[trigger] crate::slug::ascii_lower(a[j]) == crate::slug::ascii_lower(b[j])) && crate::slug::ascii_lower(a[i]) < crate::slug::ascii_lower(b[i]);
            assert forall|j: int| 0 <= j < i implies #[trigger] fa[j] == fb[j] by {
                assert(crate::slug::ascii_lower(a[j]) == crate::slug::ascii_lower(b[j]));
            }
            assert(fa[i] < fb[i]);
        }
        if q2 {
            let i = choose|i: int| 0 <= i < fa.len() && i < fb.len() && (forall|j: int| 0 <= j < i ==> #[trigger] fa[j] == fb[j]) && fa[i] < fb[i];
            assert forall|j: int| 0 <= j < i implies #[trigger] crate::slug::ascii_lower(a[j]) == crate::slug::ascii_lower(b[j]) by {
                assert(fa[j] == fb[j]);
            }
            assert(crate::slug::ascii_lower(a[i]) < crate::slug::ascii_lower(b[i]));
        }
    }
}

/// The GitHub coordinates of a URL: none unless the host is `github.com`, there
/// are path segments, and at least two of them are non-empty; the owner is the
/// first non-empty segment and the repository the second without trailing
/// `.git`; with `tree` or `blob` third and at least five non-empty segments, the
/// branch is the fourth and the directory every later segment joined by `/`
/// (so it starts with the fifth segment and ends with the last); otherwise the
/// branch is `main` and the directory empty.
pub proof fn law_github_coordinates(parts: Option<UrlPartsView>)
    ensures
        ({
            ||| parts is None
            ||| parts.unwrap().0 != Some("github.com"@)
            ||| parts.unwrap().1 is None
            ||| parts.unwrap().1.unwrap().filter(|x: Seq<char>| non_empty(x)).len() < 2
        }) ==> github_coords(parts) is None,
        github_coords(parts) matches Some(c) ==> {
            let s = parts.unwrap().1.unwrap().filter(|x: Seq<char>| non_empty(x));
            let n = s.len();
            &&& parts.unwrap().0 == Some("github.com"@)
            &&& n >= 2
            &&& c.0 == s[0]
            &&& c.1 == strip_suffix_all(s[1], ".git"@)
            &&& if n >= 5 && (s[2] == "tree"@ || s[2] == "blob"@) {
                &&& c.2 == s[3]
                &&& c.3 == seq_join(s.subrange(4, n as int), "/"@)
                &&& has_prefix(c.3, s[4])
                &&& has_suffix(c.3, s[n - 1])
            } else {
                c.2 == "main"@ && c.3.len() == 0
            }
        },
{
    if let Some(c) = github_coords(parts) {
        let s = parts.unwrap().1.unwrap().filter(|x: Seq<char>| non_empty(x));
        let n = s.len();
        if n >= 5 && (s[2] == "tree"@ || s[2] == "blob"@) {
            let l = s.subrange(4, n as int);
            lemma_join_ends(l, "/"@);
            assert(l[0] == s[4]);
            assert(l.last() == s[n - 1]);
        }
    }
}

proof fn lemma_join_ends(l: Seq<Seq<char>>, sep: Seq<char>)
    requires
        l.len() >= 1,
    ensures
        has_prefix(seq_join(l, sep), l[0]),
        has_suffix(seq_join(l, sep), l.last()),
    decreases l.len(),
{
    let j = seq_join(l, sep);
    if l.len() == 1 {
        assert(j.subrange(0, l[0].len() as int) =~= l[0]);
        assert(j.subrange(j.len() - l.last().len(), j.len() as int) =~= l.last());
    } else {
        let d = l.drop_last();
        lemma_join_ends(d, sep);
        let a = seq_join(d, sep);
        assert(j == a + sep + l.last());
        assert(d[0] == l[0]);
        assert(j.subrange(0, l[0].len() as int) =~= a.subrange(0, l[0].len() as int));
        assert(j.subrange(j.len() - l.last().len(), j.len() as int) =~= l.last());
    }
}

/// A listed tool becomes a catalogue skill field for field: its id is the key,
/// and name, description, download URL, category, owner, version, status and
/// the three counters are the tool's own.
pub proof fn law_tool_fields_carried(t: FinboxToolRaw)
    ensures
        tool_to_skill(t).key == t.id,
        tool_to_skill(t).name == t.name,
        tool_to_skill(t).description == t.description,
        tool_to_skill(t).download_url == t.download_url,
        tool_to_skill(t).category == t.category,
        tool_to_skill(t).owner == t.owner,
        tool_to_skill(t).version == t.version,
        tool_to_skill(t).status == t.status,
        tool_to_skill(t).download_count == t.download_count,
        tool_to_skill(t).monthly_usage == t.monthly_usage,
        tool_to_skill(t).star_count == t.star_count,
{
}

/// The login is complete on exactly the pages whose address starts with
/// `https://finbox.jd.com/` and contains neither `/sso/` nor `ssa.jd.com`:
/// every such Finbox page, whatever its path.
pub proof fn law_login_completed_pages(url: Seq<char>)
    ensures
        crate::sso::login_completed(url) <==> (has_prefix(url, "https://finbox.jd.com/"@) && !has_substring(url, "/sso/"@)
            && !has_substring(url, "ssa.jd.com"@)),
{
}

/// A download URL is an archive exactly when its lowercase form ends with `.zip`,
/// `.tar.gz` or `.tgz`.
pub proof fn law_archive_urls(url: Seq<char>)
    ensures
        crate::install::archive_url(url) <==> (has_suffix(spec_to_lowercase(url), ".zip"@) || has_suffix(
            spec_to_lowercase(url),
            ".tar.gz"@,
        ) || has_suffix(spec_to_lowercase(url), ".tgz"@)),
{
}

/// Reading the tool listing fails exactly on status 401, and then as an
/// expired single-sign-on session.
pub proof fn law_tools_status(status: u16, res: Result<(), FinboxError>)
    requires
        crate::service::status_result(status, res),
    ensures
        (status == 401) == (res is Err),
        res is Err ==> res matches Err(FinboxError::SsoExpired),
{
}

/// A list is in name order when every skill comes no later than each skill
/// after it.
pub proof fn law_sorted_means_pairwise(s: Seq<FinboxSkill>)
    ensures
        crate::cache::sorted_by_name(s) <==> forall|i: int, j: int| 0 <= i < j < s.len() ==> crate::cache::name_le(
            #[trigger] s[i],
            #[trigger] s[j],
        ),
{
}

/// Each row a refresh at `now` writes holds its skill's key, name,
/// description, download URL and category, was cached at `now`, and expires
/// one hour (3600 seconds) later.
pub proof fn law_refresh_rows(rows: Seq<CacheRow>, skills: Seq<FinboxSkill>, now: i64)
    requires
        are_rows_for(rows, skills, now),
    ensures
        rows.len() == skills.len(),
        forall|k: int| 0 <= k < rows.len() ==> {
            &&& (#[trigger] rows[k]).key == skills[k].key
            &&& rows[k].name == skills[k].name
            &&& rows[k].description == skills[k].description
            &&& rows[k].download_url == skills[k].download_url
            &&& rows[k].category == skills[k].category
            &&& rows[k].cached_at == now
            &&& rows[k].expires_at == now + 3600
        },
{
    assert forall|k: int| 0 <= k < rows.len() implies (#[trigger] rows[k]).expires_at == now + 3600 by {
        assert(crate::cache::is_row_for(rows[k], skills[k], now));
    }
}

/// The refusals of an install come in this order: an unknown key first, then a
/// missing download URL (whatever the application), then an unknown
/// application; an archive URL then gives an archive download saved as the
/// key's slug with `.zip`, and any other URL a repository install or an
/// unsupported-URL refusal.
pub proof fn law_install_order(
    res: Result<crate::install::InstallPlan, FinboxError>,
    key: Seq<char>,
    cached: Option<FinboxSkill>,
    app: Seq<char>,
    app_type_error: Option<String>,
)
    requires
        install_plan_result(res, key, cached, app, app_type_error),
    ensures
        cached is None ==> (res matches Err(FinboxError::SkillNotFound { key: k }) && k@ == key),
        cached is Some && cached.unwrap().download_url is None ==> (res matches Err(
            FinboxError::NoDownloadUrl { key: k },
        ) && k@ == key),
        cached is Some && cached.unwrap().download_url is Some && app_type_error is Some ==> (res matches Err(
            FinboxError::InvalidAppType { app: a, reason },
        ) && a@ == app && reason == app_type_error.unwrap()),
        cached is Some && cached.unwrap().download_url is Some && app_type_error is None
            && crate::install::archive_url(cached.unwrap().download_url.unwrap()@) ==> (res matches Ok(
            crate::install::InstallPlan::Archive { key: k, url, file_name },
        ) && k@ == key && url == cached.unwrap().download_url.unwrap() && file_name@ == slug_spec(key)
            + ".zip"@),
        cached is Some && cached.unwrap().download_url is Some && app_type_error is None
            && !crate::install::archive_url(cached.unwrap().download_url.unwrap()@) && res is Err ==> (res matches Err(
            FinboxError::UnsupportedUrl { url },
        ) && url@ == cached.unwrap().download_url.unwrap()@),
{
}

/// Trimming removes exactly the surrounding whitespace: the result is a
/// contiguous part of the input, everything before and after it is whitespace,
/// and when it is not empty it starts and ends with a non-whitespace character.
pub proof fn law_trim_removes_surrounding_whitespace(s: Seq<char>)
    ensures
        exists|i: int, j: int| #![trigger s.subrange(i, j)] {
            &&& 0 <= i <= j <= s.len()
            &&& trim_spec(s) == s.subrange(i, j)
            &&& forall|k: int| 0 <= k < i ==> spec_is_whitespace(#[trigger] s[k])
            &&& forall|k: int| j <= k < s.len() ==> spec_is_whitespace(#[trigger] s[k])
            &&& i < j ==> !spec_is_whitespace(s[i]) && !spec_is_whitespace(s[j - 1])
        },
{
    let i = lemma_trim_start_index(s);
    let t = s.subrange(i, s.len() as int);
    let m = lemma_trim_end_index(t);
    let j = i + m;
    assert(t.subrange(0, m) =~= s.subrange(i, j));
    assert forall|k: int| j <= k < s.len() implies spec_is_whitespace(#[trigger] s[k]) by {
        assert(t[k - i] == s[k]);
    }
    if i < j {
        assert(t[0] == s[i]);
        assert(t[m - 1] == s[j - 1]);
    }
    assert(trim_spec(s) == s.subrange(i, j));
}

proof fn lemma_trim_start_index(s: Seq<char>) -> (i: int)
    ensures
        0 <= i <= s.len(),
        trim_start_spec(s) == s.subrange(i, s.len() as int),
        forall|k: int| 0 <= k < i ==> spec_is_whitespace(#[trigger] s[k]),
        i < s.len() ==> !spec_is_whitespace(s[i]),
    decreases s.len(),
{
    if s.len() > 0 && spec_is_whitespace(s[0]) {
        let d = s.drop_first();
        let i0 = lemma_trim_start_index(d);
        assert(d.subrange(i0, d.len() as int) =~= s.subrange(i0 + 1, s.len() as int));
        assert forall|k: int| 0 <= k < i0 + 1 implies spec_is_whitespace(#[trigger] s[k]) by {
            if k > 0 {
                assert(d[k - 1] == s[k]);
            }
        }
        if i0 + 1 < s.len() {
            assert(d[i0] == s[i0 + 1]);
        }
        i0 + 1
    } else {
        assert(s.subrange(0, s.len() as int) =~= s);
        0
    }
}

proof fn lemma_trim_end_index(s: Seq<char>) -> (j: int)
    ensures
        0 <= j <= s.len(),
        trim_end_spec(s) == s.subrange(0, j),
        forall|k: int| j <= k < s.len() ==> spec_is_whitespace(#[trigger] s[k]),
        j > 0 ==> !spec_is_whitespace(s[j - 1]),
    decreases s.len(),
{
    if s.len() > 0 && spec_is_whitespace(s.last()) {
        let d = s.drop_last();
        let j0 = lemma_trim_end_index(d);
        assert(d.subrange(0, j0) =~= s.subrange(0, j0));
        assert forall|k: int| j0 <= k < s.len() implies spec_is_whitespace(#[trigger] s[k]) by {
            if k < d.len() {
                assert(d[k] == s[k]);
            }
        }
        if j0 > 0 {
            assert(d[j0 - 1] == s[j0 - 1]);
        }
        j0
    } else {
        assert(s.subrange(0, s.len() as int) =~= s);
        s.len() as int
    }
}

} // verus!
