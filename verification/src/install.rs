//! Where a skill is installed from: archive downloads and GitHub repositories.

use vstd::prelude::*;
use crate::error::FinboxError;
use crate::skill::{detail_from_skill, skill_to_detail, FinboxSkill, FinboxSkillDetail};
use crate::slug::{non_empty, slug_spec, slugify};
use crate::text::{
    has_suffix, str_to_lowercase, seq_join, spec_to_lowercase, str_ends_with, str_eq,
    strip_suffix_all, string_views, join_from, trim_end_matches,
};

verus! {

/// What the logic reads of a parsed URL: its host and its path segments.
#[derive(Debug)]
pub struct UrlParts {
    pub host: Option<String>,
    pub path_segments: Option<Vec<String>>,
}

/// The plain view of URL parts: the host and the segments, as character sequences.
pub type UrlPartsView = (Option<Seq<char>>, Option<Seq<Seq<char>>>);

impl View for UrlParts {
    type V = UrlPartsView;

    open spec fn view(&self) -> UrlPartsView {
        (
            match self.host {
                Some(h) => Some(h@),
                None => None,
            },
            match self.path_segments {
                Some(v) => Some(string_views(v@)),
                None => None,
            },
        )
    }
}

/// The host and path segments of the URL that `url::Url::parse` reads from
/// `input`, or none when it does not parse as an absolute URL.
pub uninterp spec fn spec_url_parts(input: Seq<char>) -> Option<UrlPartsView>;

/// `url::Url::parse`, then `Url::host_str` and `Url::path_segments` of the
/// parsed URL: the result is named as a function of the input alone. Nothing is
/// claimed of which inputs parse or of how hosts and paths are normalised.
#[verifier::external_body]
fn parse_url_parts(input: &str) -> (res: Option<UrlParts>)
    ensures
        match res {
            Some(p) => spec_url_parts(input@) == Some(p@),
            None => spec_url_parts(input@).is_none(),
        },
{
    let url = match url::Url::parse(input) {
        Ok(u) => u,
        Err(_) => return None,
    };
    let host = url.host_str().map(|h| h.to_string());
    let path_segments = url.path_segments().map(|segs| segs.map(|s| s.to_string()).collect());
    Some(UrlParts { host, path_segments })
}

/// The GitHub coordinates `(owner, repository, branch, directory)` that a URL
/// with these parts names: the host must be `github.com`, the non-empty path
/// segments must be at least two (owner and repository, the latter without any
/// trailing `.git`); a `tree` or `blob` segment followed by a branch and at least
/// one more segment gives the branch and the rest of the path as the directory,
/// otherwise the branch is `main` and the directory is empty.
pub open spec fn github_coords(parts: Option<UrlPartsView>) -> Option<(Seq<char>, Seq<char>, Seq<char>, Seq<char>)> {
    match parts {
        None => None,
        Some(p) => {
            if p.0 != Some("github.com"@) || p.1.is_none() {
                None
            } else {
                let s = p.1.unwrap().filter(|x: Seq<char>| non_empty(x));
                if s.len() < 2 {
                    None
                } else {
                    let owner = s[0];
                    let repo = strip_suffix_all(s[1], ".git"@);
                    if s.len() >= 5 && (s[2] == "tree"@ || s[2] == "blob"@) {
                        Some((owner, repo, s[3], seq_join(s.subrange(4, s.len() as int), "/"@)))
                    } else {
                        Some((owner, repo, "main"@, Seq::<char>::empty()))
                    }
                }
            }
        },
    }
}

/// The view of optional GitHub coordinates.
pub open spec fn coords_view(c: Option<(String, String, String, String)>) -> Option<(Seq<char>, Seq<char>, Seq<char>, Seq<char>)> {
    match c {
        Some(t) => Some((t.0@, t.1@, t.2@, t.3@)),
        None => None,
    }
}

/// The view of optional URL parts.
pub open spec fn parts_view(p: Option<UrlParts>) -> Option<UrlPartsView> {
    match p {
        Some(x) => Some(x@),
        None => None,
    }
}

fn non_empty_segments(all: &Vec<String>) -> (res: Vec<String>)
    ensures
        string_views(res@) == string_views(all@).filter(|x: Seq<char>| non_empty(x)),
{
    let ghost ne = |x: Seq<char>| non_empty(x);
    let mut res: Vec<String> = Vec::new();
    for i in 0..all.len()
        invariant
            ne == (|x: Seq<char>| non_empty(x)),
            string_views(res@) == string_views(all@.take(i as int)).filter(ne),
    {
        proof {
            assert(string_views(all@.take(i + 1)) =~= string_views(all@.take(i as int)).push(all@[i as int]@));
            string_views(all@.take(i as int)).lemma_filter_push(all@[i as int]@, ne);
        }
        if all[i].as_str().unicode_len() > 0 {
            let ghost prev = res@;
            res.push(all[i].clone());
            proof {
                assert(string_views(res@) =~= string_views(prev).push(all@[i as int]@));
            }
        }
    }
    assert(all@.take(all@.len() as int) =~= all@);
    res
}

/// The GitHub coordinates that URL parts name (see `github_coords`).
pub fn github_source_from_parts(parts: Option<UrlParts>) -> (res: Option<(String, String, String, String)>)
    ensures
        coords_view(res) == github_coords(parts_view(parts)),
{
    let p = match parts {
        None => return None,
        Some(p) => p,
    };
    let host = match &p.host {
        None => return None,
        Some(h) => h,
    };
    if !str_eq(host.as_str(), "github.com") {
        return None;
    }
    let all = match &p.path_segments {
        None => return None,
        Some(v) => v,
    };
    let s = non_empty_segments(all);
    let ghost sv = string_views(s@);
    assert(sv == p@.1.unwrap().filter(|x: Seq<char>| non_empty(x)));
    if s.len() < 2 {
        return None;
    }
    assert(sv[0] == s@[0]@ && sv[1] == s@[1]@);
    let owner = s[0].clone();
    let repo = trim_end_matches(s[1].as_str(), ".git");
    if s.len() >= 5 && (str_eq(s[2].as_str(), "tree") || str_eq(s[2].as_str(), "blob")) {
        assert(sv[2] == s@[2]@ && sv[3] == s@[3]@);
        let branch = s[3].clone();
        let dir = join_from(&s, 4, "/");
        assert(string_views(s@.subrange(4, s@.len() as int)) =~= sv.subrange(4, sv.len() as int));
        Some((owner, repo, branch, dir))
    } else {
        proof {
            if s@.len() >= 5 {
                assert(sv[2] == s@[2]@);
            }
        }
        Some((owner, repo, String::from_str("main"), String::new()))
    }
}

/// The GitHub coordinates `(owner, repository, branch, directory)` that a
/// download URL names, if it is a GitHub URL (see `github_coords`).
pub fn parse_github_url(url: &str) -> (res: Option<(String, String, String, String)>)
    ensures
        coords_view(res) == github_coords(spec_url_parts(url@)),
{
    let parts = parse_url_parts(url);
    github_source_from_parts(parts)
}

/// A download URL names an archive when its lowercase form ends with `.zip`,
/// `.tar.gz` or `.tgz`.
pub open spec fn archive_url(url: Seq<char>) -> bool {
    let l = spec_to_lowercase(url);
    has_suffix(l, ".zip"@) || has_suffix(l, ".tar.gz"@) || has_suffix(l, ".tgz"@)
}

/// Whether a download URL names an archive (see `archive_url`).
pub fn is_archive_url(url: &str) -> (res: bool)
    ensures
        res == archive_url(url@),
{
    let l = str_to_lowercase(url);
    str_ends_with(l.as_str(), ".zip") || str_ends_with(l.as_str(), ".tar.gz")
        || str_ends_with(l.as_str(), ".tgz")
}

/// The file name an archive download is saved under: the key's slug with `.zip`.
pub open spec fn archive_file_name_spec(key: Seq<char>) -> Seq<char> {
    slug_spec(key) + ".zip"@
}

/// The file name an archive download of skill `key` is saved under.
pub fn archive_file_name(key: &str) -> (res: String)
    ensures
        res@ == archive_file_name_spec(key@),
{
    let mut s = slugify(key);
    s.append(".zip");
    s
}

/// A skill that can be installed from a GitHub repository directory.
#[derive(Debug)]
pub struct DiscoverableSkill {
    pub key: String,
    pub name: String,
    pub description: String,
    pub directory: String,
    pub readme_url: Option<String>,
    pub repo_owner: String,
    pub repo_name: String,
    pub repo_branch: String,
}

/// The text of an optional description, empty when there is none.
pub open spec fn description_or_empty(d: Option<String>) -> Seq<char> {
    match d {
        Some(x) => x@,
        None => Seq::<char>::empty(),
    }
}

/// `skill` is the repository skill built from `detail` and the GitHub
/// coordinates `(owner, repo, branch, dir)`: key, name and description come
/// from the detail, the directory is `dir`, or the slug of the skill's name when
/// `dir` is empty, and there is no readme URL.
pub open spec fn is_repo_skill(
    skill: DiscoverableSkill,
    detail: FinboxSkillDetail,
    coords: (Seq<char>, Seq<char>, Seq<char>, Seq<char>),
) -> bool {
    &&& skill.key == detail.key
    &&& skill.name == detail.name
    &&& skill.description@ == description_or_empty(detail.description)
    &&& skill.directory@ == (if coords.3.len() == 0 { slug_spec(detail.name@) } else { coords.3 })
    &&& skill.readme_url.is_none()
    &&& skill.repo_owner@ == coords.0
    &&& skill.repo_name@ == coords.1
    &&& skill.repo_branch@ == coords.2
}

/// What building a repository skill from `detail` and the coordinates of
/// `download_url` gives: the skill, or `UnsupportedUrl` when the URL names no
/// GitHub repository.
pub open spec fn repo_skill_result(
    res: Result<DiscoverableSkill, FinboxError>,
    detail: FinboxSkillDetail,
    download_url: Seq<char>,
    coords: Option<(Seq<char>, Seq<char>, Seq<char>, Seq<char>)>,
) -> bool {
    match coords {
        None => res matches Err(FinboxError::UnsupportedUrl { url }) && url@ == download_url,
        Some(c) => res matches Ok(skill) && is_repo_skill(skill, detail, c),
    }
}

/// Builds the repository skill from `detail` and the GitHub coordinates already
/// read from `download_url` (see `repo_skill_result`).
pub fn discoverable_from_source(
    detail: &FinboxSkillDetail,
    download_url: &str,
    source: Option<(String, String, String, String)>,
) -> (res: Result<DiscoverableSkill, FinboxError>)
    ensures
        repo_skill_result(res, *detail, download_url@, coords_view(source)),
{
    let (owner, repo, branch, dir) = match source {
        None => return Err(FinboxError::UnsupportedUrl { url: String::from_str(download_url) }),
        Some(t) => t,
    };
    let directory = if dir.as_str().unicode_len() == 0 {
        slugify(detail.name.as_str())
    } else {
        dir
    };
    let description = match &detail.description {
        Some(d) => d.clone(),
        None => String::new(),
    };
    Ok(DiscoverableSkill {
        key: detail.key.clone(),
        name: detail.name.clone(),
        description,
        directory,
        readme_url: None,
        repo_owner: owner,
        repo_name: repo,
        repo_branch: branch,
    })
}

/// Builds the repository skill for `detail` from a GitHub download URL.
pub fn discoverable_from_detail(detail: &FinboxSkillDetail, download_url: &str) -> (res: Result<
    DiscoverableSkill,
    FinboxError,
>)
    ensures
        repo_skill_result(res, *detail, download_url@, github_coords(spec_url_parts(download_url@))),
{
    let source = parse_github_url(download_url);
    discoverable_from_source(detail, download_url, source)
}

/// How a skill is to be installed.
#[derive(Debug)]
pub enum InstallPlan {
    /// Download the archive at `url`, save it as `file_name`, and install from it.
    Archive { key: String, url: String, file_name: String },
    /// Install the skill from its GitHub repository directory.
    Repository { skill: DiscoverableSkill },
}

/// The outcome of planning the install of skill `key` from its cached entry
/// `cached`, for the application named `current_app`, whose parse as an
/// application type failed with `app_type_error` when that is present:
/// - no cached entry: `SkillNotFound`;
/// - no download URL: `NoDownloadUrl`;
/// - an application type that does not parse: `InvalidAppType`;
/// - an archive URL: download it to a file named after the key's slug;
/// - otherwise the repository skill of the URL, or `UnsupportedUrl`.
pub open spec fn install_plan_result(
    res: Result<InstallPlan, FinboxError>,
    key: Seq<char>,
    cached: Option<FinboxSkill>,
    current_app: Seq<char>,
    app_type_error: Option<String>,
) -> bool {
    match cached {
        None => res matches Err(FinboxError::SkillNotFound { key: k }) && k@ == key,
        Some(s) => match s.download_url {
            None => res matches Err(FinboxError::NoDownloadUrl { key: k }) && k@ == key,
            Some(u) => match app_type_error {
                Some(e) => res matches Err(FinboxError::InvalidAppType { app, reason }) && app@
                    == current_app && reason == e,
                None => if archive_url(u@) {
                    res matches Ok(InstallPlan::Archive { key: k, url, file_name }) && k@ == key
                        && url == u && file_name@ == archive_file_name_spec(key)
                } else {
                    match github_coords(spec_url_parts(u@)) {
                        None => res matches Err(FinboxError::UnsupportedUrl { url }) && url@ == u@,
                        Some(c) => res matches Ok(InstallPlan::Repository { skill }) && is_repo_skill(
                            skill,
                            skill_to_detail(s),
                            c,
                        ),
                    }
                },
            },
        },
    }
}

/// Plans the install of skill `key` (see `install_plan_result`).
pub fn plan_install(
    key: &str,
    cached: Option<FinboxSkill>,
    current_app: &str,
    app_type_error: Option<String>,
) -> (res: Result<InstallPlan, FinboxError>)
    ensures
        install_plan_result(res, key@, cached, current_app@, app_type_error),
{
    let skill = match cached {
        None => return Err(FinboxError::SkillNotFound { key: String::from_str(key) }),
        Some(s) => s,
    };
    let ghost cached_skill = skill;
    let detail = detail_from_skill(skill);
    let url = match &detail.download_url {
        None => return Err(FinboxError::NoDownloadUrl { key: String::from_str(key) }),
        Some(u) => u.clone(),
    };
    if let Some(e) = app_type_error {
        return Err(FinboxError::InvalidAppType { app: String::from_str(current_app), reason: e });
    }
    if is_archive_url(url.as_str()) {
        return Ok(
            InstallPlan::Archive {
                key: String::from_str(key),
                file_name: archive_file_name(key),
                url,
            },
        );
    }
    match discoverable_from_detail(&detail, url.as_str()) {
        Ok(skill) => Ok(InstallPlan::Repository { skill }),
        Err(e) => Err(e),
    }
}

} // verus!
