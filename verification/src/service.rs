//! The marketplace service: its single-sign-on cookie, and the decisions of each
//! of its operations, given what was read from the cache and the network.

use vstd::prelude::*;
use crate::cache::{are_rows_for, cache_rows, CacheRow, CACHE_TTL_SECONDS};
use crate::error::FinboxError;
use crate::install::{install_plan_result, plan_install, InstallPlan};
use crate::skill::{
    detail_from_skill, filter_skills, opt_str_view, search_result, skill_to_detail,
    skills_from_tools, tool_to_skill, FinboxSkill, FinboxSkillDetail, FinboxToolRaw,
};

verus! {

/// The address of the Finbox service.
pub const FINBOX_BASE_URL: &'static str = "https://finbox.jd.com";

/// The state of the marketplace service: the single-sign-on cookie, once one
/// has been set.
#[derive(Debug)]
pub struct FinboxMarketplaceService {
    sso_cookie: Option<String>,
}

/// The view of an optional string.
pub open spec fn opt_string_view(s: Option<String>) -> Option<Seq<char>> {
    match s {
        Some(x) => Some(x@),
        None => None,
    }
}

/// The headers of an authenticated request made with `cookie`.
pub open spec fn auth_headers(cookie: Seq<char>) -> Seq<(Seq<char>, Seq<char>)> {
    seq![
        ("Cookie"@, cookie),
        ("Accept"@, "application/json, text/plain, */*"@),
        ("X-Requested-With"@, "XMLHttpRequest"@),
        ("Referer"@, "https://finbox.jd.com/coverage/departments/3"@),
    ]
}

/// The views of a list of header pairs.
pub open spec fn header_views(h: Seq<(String, String)>) -> Seq<(Seq<char>, Seq<char>)> {
    h.map_values(|p: (String, String)| (p.0@, p.1@))
}

/// What reading the tool listing with a response status of `status` leads to:
/// `401 Unauthorized` means the single-sign-on session has expired; any other
/// status goes on to read the body.
pub open spec fn status_result(status: u16, res: Result<(), FinboxError>) -> bool {
    if status == 401 {
        res matches Err(FinboxError::SsoExpired)
    } else {
        res is Ok
    }
}

impl FinboxMarketplaceService {
    /// The single-sign-on cookie the service holds.
    pub closed spec fn cookie(&self) -> Option<Seq<char>> {
        opt_string_view(self.sso_cookie)
    }

    /// A service with no cookie set.
    pub fn new() -> (res: Self)
        ensures
            res.cookie().is_none(),
    {
        FinboxMarketplaceService { sso_cookie: None }
    }

    /// Sets the single-sign-on cookie, replacing any earlier one.
    pub fn set_sso_cookie(&mut self, cookie: String)
        ensures
            final(self).cookie() == Some(cookie@),
    {
        self.sso_cookie = Some(cookie);
    }

    /// The single-sign-on cookie, if one is set.
    pub fn get_sso_cookie(&self) -> (res: Option<String>)
        ensures
            opt_string_view(res) == self.cookie(),
    {
        match &self.sso_cookie {
            Some(c) => Some(c.clone()),
            None => None,
        }
    }

    /// Whether a single-sign-on cookie is set.
    pub fn has_sso_cookie(&self) -> (res: bool)
        ensures
            res == self.cookie().is_some(),
    {
        self.sso_cookie.is_some()
    }

    /// Sets the cookie read back from storage, when there was one; otherwise the
    /// service is left as it was.
    pub fn restore_sso_cookie(&mut self, stored: Option<String>)
        ensures
            final(self).cookie() == match stored {
                Some(c) => Some(c@),
                None => old(self).cookie(),
            },
    {
        if let Some(c) = stored {
            self.set_sso_cookie(c);
        }
    }

    /// The headers of an authenticated request to the Finbox API: the cookie
    /// and the headers the browser front end sends. Refused with
    /// `MissingSsoCookie` when no cookie is set.
    pub fn authed_request_headers(&self) -> (res: Result<Vec<(String, String)>, FinboxError>)
        ensures
            match self.cookie() {
                None => res matches Err(FinboxError::MissingSsoCookie),
                Some(c) => res matches Ok(h) && header_views(h@) == auth_headers(c),
            },
    {
        let cookie = match &self.sso_cookie {
            None => return Err(FinboxError::MissingSsoCookie),
            Some(c) => c.clone(),
        };
        let mut h: Vec<(String, String)> = Vec::new();
        h.push((String::from_str("Cookie"), cookie));
        h.push((String::from_str("Accept"), String::from_str("application/json, text/plain, */*")));
        h.push((String::from_str("X-Requested-With"), String::from_str("XMLHttpRequest")));
        h.push((String::from_str("Referer"), String::from_str("https://finbox.jd.com/coverage/departments/3")));
        assert(header_views(h@) =~= auth_headers(self.cookie().unwrap()));
        Ok(h)
    }

    /// The address of the tool listing.
    pub fn tools_url() -> (res: String)
        ensures
            res@ == FINBOX_BASE_URL@ + "/api/finbox/tools"@,
    {
        let mut s = String::from_str(FINBOX_BASE_URL);
        s.append("/api/finbox/tools");
        s
    }

    /// The decision on the status of the tool listing response (see `status_result`).
    pub fn check_tools_status(status: u16) -> (res: Result<(), FinboxError>)
        ensures
            status_result(status, res),
    {
        if status == 401 {
            Err(FinboxError::SsoExpired)
        } else {
            Ok(())
        }
    }

    /// Whether a search must refresh the cache first: when it holds no fresh skill.
    pub fn cache_needs_refresh(cached: &Vec<FinboxSkill>) -> (res: bool)
        ensures
            res == (cached@.len() == 0),
    {
        cached.len() == 0
    }

    /// The search over the cached skills (see `search_result`).
    pub fn search_skills(&self, cached: Vec<FinboxSkill>, query: Option<&str>) -> (res: Vec<FinboxSkill>)
        ensures
            res@ == search_result(cached@, opt_str_view(query)),
    {
        filter_skills(cached, query)
    }

    /// The detail of skill `key`, given its fresh cached entry if there is one;
    /// `SkillNotFound` when there is none.
    pub fn get_skill_detail(&self, key: &str, cached: Option<FinboxSkill>) -> (res: Result<FinboxSkillDetail, FinboxError>)
        ensures
            match cached {
                Some(s) => res == Ok::<FinboxSkillDetail, FinboxError>(skill_to_detail(s)),
                None => res matches Err(FinboxError::SkillNotFound { key: k }) && k@ == key@,
            },
    {
        match cached {
            Some(s) => Ok(detail_from_skill(s)),
            None => Err(FinboxError::SkillNotFound { key: String::from_str(key) }),
        }
    }

    /// The install plan of skill `key` (see `install_plan_result`).
    pub fn install_skill(
        &self,
        key: &str,
        cached: Option<FinboxSkill>,
        current_app: &str,
        app_type_error: Option<String>,
    ) -> (res: Result<InstallPlan, FinboxError>)
        ensures
            install_plan_result(res, key@, cached, current_app@, app_type_error),
    {
        plan_install(key, cached, current_app, app_type_error)
    }

    /// The cache rows a refresh at `now` stores for the fetched tool listing.
    pub fn refresh_cache(&self, tools: Vec<FinboxToolRaw>, now: i64) -> (res: Vec<CacheRow>)
        requires
            now + CACHE_TTL_SECONDS <= i64::MAX,
        ensures
            are_rows_for(res@, tools@.map_values(|t: FinboxToolRaw| tool_to_skill(t)), now),
            forall|k: int| 0 <= k < res@.len() ==> (#[trigger] res@[k]).key == tools@[k].id
                && res@[k].download_url == tools@[k].download_url,
            forall|k: int| 0 <= k < res@.len() ==> (#[trigger] res@[k]).name == tools@[k].name
                && res@[k].description == tools@[k].description && res@[k].category == tools@[k].category
                && res@[k].cached_at == now && res@[k].expires_at == now + 3600,
    {
        let ghost listed = tools@;
        let skills = skills_from_tools(tools);
        let rows = cache_rows(&skills, now);
        assert forall|k: int| 0 <= k < rows@.len() implies (#[trigger] rows@[k]).key == listed[k].id
            && rows@[k].download_url == listed[k].download_url by {
            assert(crate::cache::is_row_for(rows@[k], skills@[k], now));
        }
        assert forall|k: int| 0 <= k < rows@.len() implies (#[trigger] rows@[k]).name == listed[k].name
            && rows@[k].description == listed[k].description && rows@[k].category == listed[k].category
            && rows@[k].cached_at == now && rows@[k].expires_at == now + 3600 by {
            assert(crate::cache::is_row_for(rows@[k], skills@[k], now));
        }
        rows
    }
}

impl Default for FinboxMarketplaceService {
    fn default() -> (res: Self)
        ensures
            res.cookie().is_none(),
    {
        Self::new()
    }
}

} // verus!
