//! The skill records of the Finbox catalogue and the search over the cached list.

use vstd::prelude::*;
use crate::slug::ascii_lower;
use crate::text::{has_substring, is_ascii_text, str_to_lowercase, spec_to_lowercase, str_contains, str_trim, trim_spec};

verus! {

/// A skill of the Finbox catalogue, as the front end receives it.
#[derive(Debug)]
pub struct FinboxSkill {
    pub key: String,
    pub name: String,
    pub description: Option<String>,
    pub download_url: Option<String>,
    pub category: Option<String>,
    pub owner: Option<String>,
    pub version: Option<String>,
    pub status: Option<String>,
    pub download_count: Option<i64>,
    pub monthly_usage: Option<i64>,
    pub star_count: Option<i64>,
}

/// The detail view of one skill.
#[derive(Debug)]
pub struct FinboxSkillDetail {
    pub key: String,
    pub name: String,
    pub description: Option<String>,
    pub download_url: Option<String>,
    pub category: Option<String>,
    pub version: Option<String>,
    pub readme: Option<String>,
}

/// One entry of the catalogue's tool listing, as the Finbox API sends it.
#[derive(Debug)]
pub struct FinboxToolRaw {
    pub id: String,
    pub name: String,
    pub description: Option<String>,
    pub download_url: Option<String>,
    pub category: Option<String>,
    pub owner: Option<String>,
    pub status: Option<String>,
    pub version: Option<String>,
    pub download_count: Option<i64>,
    pub monthly_usage: Option<i64>,
    pub star_count: Option<i64>,
}

/// A copy of an optional string.
pub fn clone_opt_string(s: &Option<String>) -> (res: Option<String>)
    ensures
        res == *s,
{
    match s {
        Some(x) => Some(x.clone()),
        None => None,
    }
}

impl Clone for FinboxSkill {
    fn clone(&self) -> (res: Self)
        ensures
            res == *self,
    {
        FinboxSkill {
            key: self.key.clone(),
            name: self.name.clone(),
            description: clone_opt_string(&self.description),
            download_url: clone_opt_string(&self.download_url),
            category: clone_opt_string(&self.category),
            owner: clone_opt_string(&self.owner),
            version: clone_opt_string(&self.version),
            status: clone_opt_string(&self.status),
            download_count: self.download_count,
            monthly_usage: self.monthly_usage,
            star_count: self.star_count,
        }
    }
}

impl Clone for FinboxSkillDetail {
    fn clone(&self) -> (res: Self)
        ensures
            res == *self,
    {
        FinboxSkillDetail {
            key: self.key.clone(),
            name: self.name.clone(),
            description: clone_opt_string(&self.description),
            download_url: clone_opt_string(&self.download_url),
            category: clone_opt_string(&self.category),
            version: clone_opt_string(&self.version),
            readme: clone_opt_string(&self.readme),
        }
    }
}

/// The view of an optional string slice.
pub open spec fn opt_str_view(q: Option<&str>) -> Option<Seq<char>> {
    match q {
        Some(s) => Some(s@),
        None => None,
    }
}

/// An optional text field matches `key` when it is present and its lowercase
/// form contains `key`.
pub open spec fn field_matches(field: Option<String>, key: Seq<char>) -> bool {
    match field {
        Some(f) => has_substring(spec_to_lowercase(f@), key),
        None => false,
    }
}

/// A skill matches the (already lowercased) search key when its name or its
/// description contains it, compared in lowercase.
pub open spec fn skill_matches(skill: FinboxSkill, key: Seq<char>) -> bool {
    ||| has_substring(spec_to_lowercase(skill.name@), key)
    ||| field_matches(skill.description, key)
}

/// The key a query searches by: none for an absent or blank query, otherwise
/// the trimmed query in lowercase.
pub open spec fn search_key(query: Option<Seq<char>>) -> Option<Seq<char>> {
    match query {
        None => None,
        Some(q) => if trim_spec(q).len() == 0 {
            None
        } else {
            Some(spec_to_lowercase(trim_spec(q)))
        },
    }
}

/// The skills of `cached` that a query selects, in their cached order.
pub open spec fn search_result(cached: Seq<FinboxSkill>, query: Option<Seq<char>>) -> Seq<FinboxSkill> {
    match search_key(query) {
        None => cached,
        Some(k) => cached.filter(|s: FinboxSkill| skill_matches(s, k)),
    }
}

fn field_matches_exec(field: &Option<String>, key: &str) -> (res: bool)
    ensures
        res == field_matches(*field, key@),
{
    match field {
        Some(f) => {
            let l = str_to_lowercase(f.as_str());
            str_contains(l.as_str(), key)
        },
        None => false,
    }
}

/// Whether `skill` matches the lowercased search key `key`.
pub fn skill_matches_key(skill: &FinboxSkill, key: &str) -> (res: bool)
    ensures
        res == skill_matches(*skill, key@),
{
    let name = str_to_lowercase(skill.name.as_str());
    str_contains(name.as_str(), key) || field_matches_exec(&skill.description, key)
}

/// A query whose trimmed text is non-blank and all ASCII.
pub open spec fn ascii_query(query: Option<Seq<char>>) -> bool {
    &&& query is Some
    &&& trim_spec(query->0).len() > 0
    &&& is_ascii_text(trim_spec(query->0))
}

/// The key of an ASCII query: its trimmed text with `A` to `Z` lowercased.
pub open spec fn ascii_key(q: Seq<char>) -> Seq<char> {
    trim_spec(q).map_values(|c: char| ascii_lower(c))
}

/// The search key of a query (see `search_key`); for a non-blank ASCII query it
/// is the trimmed query with ASCII letters lowercased.
pub fn query_search_key(query: Option<&str>) -> (res: Option<String>)
    ensures
        match res {
            Some(k) => search_key(opt_str_view(query)) == Some(k@),
            None => search_key(opt_str_view(query)).is_none(),
        },
        ascii_query(opt_str_view(query)) ==> (res matches Some(k) && k@ == ascii_key(opt_str_view(query)->0)),
{
    match query {
        None => None,
        Some(q) => {
            let t = str_trim(q);
            if t.as_str().unicode_len() == 0 {
                None
            } else {
                Some(str_to_lowercase(t.as_str()))
            }
        },
    }
}

/// `res` is what a search of `cached` with `query` returns: the search result,
/// which for a non-blank ASCII query is the filter by its ASCII-lowercased key.
pub open spec fn is_search_of(res: Seq<FinboxSkill>, cached: Seq<FinboxSkill>, query: Option<Seq<char>>) -> bool {
    &&& res == search_result(cached, query)
    &&& ascii_query(query) ==> res == cached.filter(|s: FinboxSkill| skill_matches(s, ascii_key(query->0)))
}

/// The skills of `cached` that match `query`: all of them for an absent or
/// blank query, else those whose name or description contains the trimmed
/// query, compared in lowercase. Order is kept.
pub fn filter_skills(cached: Vec<FinboxSkill>, query: Option<&str>) -> (res: Vec<FinboxSkill>)
    ensures
        res@ == search_result(cached@, opt_str_view(query)),
        is_search_of(res@, cached@, opt_str_view(query)),
{
    let key = match query_search_key(query) {
        None => return cached,
        Some(k) => k,
    };
    let ghost pred = |s: FinboxSkill| skill_matches(s, key@);
    let mut res: Vec<FinboxSkill> = Vec::new();
    for i in 0..cached.len()
        invariant
            search_key(opt_str_view(query)) == Some(key@),
            pred == (|s: FinboxSkill| skill_matches(s, key@)),
            res@ == cached@.take(i as int).filter(pred),
    {
        proof {
            assert(cached@.take(i + 1) == cached@.take(i as int).push(cached@[i as int]));
            cached@.take(i as int).lemma_filter_push(cached@[i as int], pred);
        }
        if skill_matches_key(&cached[i], key.as_str()) {
            res.push(cached[i].clone());
        }
    }
    assert(cached@.take(cached@.len() as int) == cached@);
    res
}

/// The catalogue skill for one entry of the tool listing: the tool's id is the
/// key, every other field, the download URL among them, is carried over.
pub open spec fn tool_to_skill(t: FinboxToolRaw) -> FinboxSkill {
    FinboxSkill {
        key: t.id,
        name: t.name,
        description: t.description,
        download_url: t.download_url,
        category: t.category,
        owner: t.owner,
        version: t.version,
        status: t.status,
        download_count: t.download_count,
        monthly_usage: t.monthly_usage,
        star_count: t.star_count,
    }
}

/// The detail view of a cached skill; no readme is known.
pub open spec fn skill_to_detail(s: FinboxSkill) -> FinboxSkillDetail {
    FinboxSkillDetail {
        key: s.key,
        name: s.name,
        description: s.description,
        download_url: s.download_url,
        category: s.category,
        version: s.version,
        readme: None,
    }
}

/// Turns one entry of the tool listing into a catalogue skill.
pub fn skill_from_tool(t: FinboxToolRaw) -> (res: FinboxSkill)
    ensures
        res == tool_to_skill(t),
{
    FinboxSkill {
        key: t.id,
        name: t.name,
        description: t.description,
        download_url: t.download_url,
        category: t.category,
        owner: t.owner,
        version: t.version,
        status: t.status,
        download_count: t.download_count,
        monthly_usage: t.monthly_usage,
        star_count: t.star_count,
    }
}

/// Turns the whole tool listing into catalogue skills, in listing order.
pub fn skills_from_tools(tools: Vec<FinboxToolRaw>) -> (res: Vec<FinboxSkill>)
    ensures
        res@ == tools@.map_values(|t: FinboxToolRaw| tool_to_skill(t)),
{
    let mut tools = tools;
    let ghost orig = tools@;
    let mut rev: Vec<FinboxSkill> = Vec::new();
    while tools.len() > 0
        invariant
            tools@.len() + rev@.len() == orig.len(),
            tools@ == orig.take(tools@.len() as int),
            forall|k: int| 0 <= k < rev@.len() ==> #[trigger] rev@[k] == tool_to_skill(orig[orig.len() - 1 - k]),
        decreases tools@.len(),
    {
        let t = tools.pop().unwrap();
        rev.push(skill_from_tool(t));
    }
    let mut res: Vec<FinboxSkill> = Vec::new();
    let n = rev.len();
    while rev.len() > 0
        invariant
            n == orig.len(),
            rev@.len() + res@.len() == n,
            forall|k: int| 0 <= k < rev@.len() ==> #[trigger] rev@[k] == tool_to_skill(orig[n - 1 - k]),
            forall|k: int| 0 <= k < res@.len() ==> #[trigger] res@[k] == tool_to_skill(orig[k]),
        decreases rev@.len(),
    {
        let s = rev.pop().unwrap();
        res.push(s);
    }
    assert(res@ =~= orig.map_values(|t: FinboxToolRaw| tool_to_skill(t)));
    res
}

/// The detail view of a cached skill.
pub fn detail_from_skill(s: FinboxSkill) -> (res: FinboxSkillDetail)
    ensures
        res == skill_to_detail(s),
{
    FinboxSkillDetail {
        key: s.key,
        name: s.name,
        description: s.description,
        download_url: s.download_url,
        category: s.category,
        version: s.version,
        readme: None,
    }
}

} // verus!
