use finbox::cache::{cache_rows, CacheTable, fresh_cached_skill, fresh_cached_skills, CachedSkillRow, CACHE_TTL_SECONDS};
use finbox::error::FinboxError;
use finbox::install::{discoverable_from_detail, InstallPlan};
use finbox::service::FinboxMarketplaceService;
use finbox::skill::{detail_from_skill, filter_skills, skills_from_tools, FinboxSkill, FinboxSkillDetail, FinboxToolRaw};
use finbox::sso::{load_persisted_sso_cookie, sso_extraction_outcome, sso_login_completed, sso_open_action, SsoExtraction, SsoOpenAction};

fn skill(key: &str, name: &str) -> FinboxSkill {
    FinboxSkill {
        key: key.to_string(),
        name: name.to_string(),
        description: None,
        download_url: None,
        category: None,
        owner: None,
        version: None,
        status: None,
        download_count: None,
        monthly_usage: None,
        star_count: None,
    }
}

fn catalogue() -> Vec<FinboxSkill> {
    let mut a = skill("k1", "Excel Helper");
    a.description = Some("Works with SPREADSHEETS".to_string());
    let mut b = skill("k2", "Report Writer");
    b.category = Some("Finance".to_string());
    let mut c = skill("k3", "Mailer");
    c.owner = Some("Zhang San".to_string());
    vec![a, b, c]
}

fn keys(v: &[FinboxSkill]) -> Vec<String> {
    v.iter().map(|s| s.key.clone()).collect()
}

#[test]
fn blank_or_absent_query_returns_everything() {
    assert_eq!(keys(&filter_skills(catalogue(), None)), vec!["k1", "k2", "k3"]);
    assert_eq!(keys(&filter_skills(catalogue(), Some(""))), vec!["k1", "k2", "k3"]);
    assert_eq!(keys(&filter_skills(catalogue(), Some("  \t "))), vec!["k1", "k2", "k3"]);
}

#[test]
fn search_matches_name_and_description_case_insensitively() {
    assert_eq!(keys(&filter_skills(catalogue(), Some("EXCEL"))), vec!["k1"]);
    assert_eq!(keys(&filter_skills(catalogue(), Some("spreadsheet"))), vec!["k1"]);
    assert_eq!(keys(&filter_skills(catalogue(), Some("  WRITER "))), vec!["k2"]);
    assert_eq!(keys(&filter_skills(catalogue(), Some("er"))), vec!["k1", "k2", "k3"]);
    assert!(filter_skills(catalogue(), Some("nothing-like-this")).is_empty());
}

#[test]
fn search_ignores_category_and_owner() {
    assert!(filter_skills(catalogue(), Some("finance")).is_empty());
    assert!(filter_skills(catalogue(), Some("zhang")).is_empty());
}

#[test]
fn search_lowercases_beyond_ascii() {
    let v = vec![skill("u", "ÄPFEL Tool")];
    assert_eq!(keys(&filter_skills(v, Some("äpfel"))), vec!["u"]);
}

#[test]
fn search_twice_is_search_once() {
    let once = filter_skills(catalogue(), Some("er"));
    let twice = filter_skills(once.clone(), Some("er"));
    assert_eq!(keys(&once), keys(&twice));
}

#[test]
fn service_search_and_refresh_decision() {
    let svc = FinboxMarketplaceService::new();
    assert!(FinboxMarketplaceService::cache_needs_refresh(&Vec::new()));
    assert!(!FinboxMarketplaceService::cache_needs_refresh(&catalogue()));
    assert_eq!(keys(&svc.search_skills(catalogue(), Some("mail"))), vec!["k3"]);
}

#[test]
fn cookie_set_get_has() {
    let mut svc = FinboxMarketplaceService::default();
    assert!(!svc.has_sso_cookie());
    assert_eq!(svc.get_sso_cookie(), None);
    svc.set_sso_cookie("sid=1".to_string());
    assert!(svc.has_sso_cookie());
    assert_eq!(svc.get_sso_cookie(), Some("sid=1".to_string()));
    svc.set_sso_cookie("sid=2".to_string());
    assert_eq!(svc.get_sso_cookie(), Some("sid=2".to_string()));
}

#[test]
fn persisted_cookie_is_loaded_only_when_present() {
    let mut svc = FinboxMarketplaceService::new();
    load_persisted_sso_cookie(None, &mut svc);
    assert!(!svc.has_sso_cookie());
    load_persisted_sso_cookie(Some("sid=9".to_string()), &mut svc);
    assert_eq!(svc.get_sso_cookie(), Some("sid=9".to_string()));
    load_persisted_sso_cookie(None, &mut svc);
    assert_eq!(svc.get_sso_cookie(), Some("sid=9".to_string()));
}

#[test]
fn request_headers_need_a_cookie() {
    let mut svc = FinboxMarketplaceService::new();
    match svc.authed_request_headers() {
        Err(FinboxError::MissingSsoCookie) => {}
        other => panic!("unexpected {:?}", other),
    }
    svc.set_sso_cookie("sid=abc".to_string());
    let h = svc.authed_request_headers().unwrap();
    assert_eq!(h.len(), 4);
    assert_eq!(h[0], ("Cookie".to_string(), "sid=abc".to_string()));
    assert_eq!(h[1].0, "Accept");
    assert_eq!(h[2], ("X-Requested-With".to_string(), "XMLHttpRequest".to_string()));
    assert_eq!(h[3].1, "https://finbox.jd.com/coverage/departments/3");
}

#[test]
fn tools_url_and_status() {
    assert_eq!(FinboxMarketplaceService::tools_url(), "https://finbox.jd.com/api/finbox/tools");
    assert!(matches!(FinboxMarketplaceService::check_tools_status(401), Err(FinboxError::SsoExpired)));
    assert!(FinboxMarketplaceService::check_tools_status(200).is_ok());
    assert!(FinboxMarketplaceService::check_tools_status(500).is_ok());
}

#[test]
fn tools_become_skills_in_order() {
    let tools = vec![
        FinboxToolRaw {
            id: "t1".to_string(),
            name: "One".to_string(),
            description: Some("d".to_string()),
            download_url: Some("https://github.com/o/one".to_string()),
            category: None,
            owner: Some("o".to_string()),
            status: Some("online".to_string()),
            version: Some("1.0".to_string()),
            download_count: Some(5),
            monthly_usage: None,
            star_count: Some(2),
        },
        FinboxToolRaw {
            id: "t2".to_string(),
            name: "Two".to_string(),
            description: None,
            download_url: None,
            category: Some("c".to_string()),
            owner: None,
            status: None,
            version: None,
            download_count: None,
            monthly_usage: Some(7),
            star_count: None,
        },
    ];
    let skills = skills_from_tools(tools);
    assert_eq!(keys(&skills), vec!["t1", "t2"]);
    assert_eq!(skills[0].download_url.as_deref(), Some("https://github.com/o/one"));
    assert_eq!(skills[1].download_url, None);
    assert_eq!(skills[0].owner.as_deref(), Some("o"));
    assert_eq!(skills[0].download_count, Some(5));
    assert_eq!(skills[1].monthly_usage, Some(7));
    assert_eq!(skills[1].category.as_deref(), Some("c"));
}

#[test]
fn detail_of_cached_skill_and_not_found() {
    let svc = FinboxMarketplaceService::new();
    let mut s = skill("k", "Name");
    s.version = Some("2".to_string());
    s.download_url = Some("https://x/y.zip".to_string());
    let d = svc.get_skill_detail("k", Some(s.clone())).unwrap();
    assert_eq!(d.key, "k");
    assert_eq!(d.version.as_deref(), Some("2"));
    assert_eq!(d.download_url.as_deref(), Some("https://x/y.zip"));
    assert_eq!(d.readme, None);
    assert_eq!(detail_from_skill(s).name, "Name");
    let e = svc.get_skill_detail("missing", None).unwrap_err();
    assert_eq!(e.message(), "Skill 'missing' not found");
}

fn with_url(url: Option<&str>) -> FinboxSkill {
    let mut s = skill("my-key", "My Skill");
    s.description = Some("desc".to_string());
    s.download_url = url.map(|u| u.to_string());
    s
}

#[test]
fn install_plan_errors_in_order() {
    let svc = FinboxMarketplaceService::new();
    let e = svc.install_skill("k", None, "editor", None).unwrap_err();
    assert_eq!(e.message(), "Skill 'k' not found");
    let e = svc.install_skill("k", Some(with_url(None)), "editor", Some("bad".to_string())).unwrap_err();
    assert_eq!(e.message(), "Skill 'k' has no download URL");
    let e = svc
        .install_skill("k", Some(with_url(Some("https://gitlab.com/a/b"))), "nope", Some("unknown app".to_string()))
        .unwrap_err();
    assert_eq!(e.message(), "Invalid app type 'nope': unknown app");
    let e = svc.install_skill("k", Some(with_url(Some("https://gitlab.com/a/b"))), "editor", None).unwrap_err();
    assert_eq!(e.message(), "Not a supported URL: https://gitlab.com/a/b");
}

#[test]
fn install_plan_archive_and_repository() {
    let svc = FinboxMarketplaceService::new();
    match svc.install_skill("My Key", Some(with_url(Some("https://cdn.x/skill.TAR.GZ"))), "editor", None) {
        Ok(InstallPlan::Archive { key, url, file_name }) => {
            assert_eq!(key, "My Key");
            assert_eq!(url, "https://cdn.x/skill.TAR.GZ");
            assert_eq!(file_name, "my-key.zip");
        }
        _ => panic!("expected an archive plan"),
    }
    match svc.install_skill("k", Some(with_url(Some("https://github.com/o/r"))), "editor", None) {
        Ok(InstallPlan::Repository { skill }) => {
            assert_eq!(skill.key, "my-key");
            assert_eq!(skill.directory, "my-skill");
            assert_eq!(skill.repo_owner, "o");
            assert_eq!(skill.repo_name, "r");
            assert_eq!(skill.repo_branch, "main");
            assert_eq!(skill.description, "desc");
            assert_eq!(skill.readme_url, None);
        }
        _ => panic!("expected a repository plan"),
    }
}

#[test]
fn discoverable_keeps_directory_from_url() {
    let d = FinboxSkillDetail {
        key: "k".to_string(),
        name: "N".to_string(),
        description: None,
        download_url: None,
        category: None,
        version: None,
        readme: None,
    };
    let s = discoverable_from_detail(&d, "https://github.com/o/r.git/tree/v2/skills/pdf").unwrap();
    assert_eq!(s.directory, "skills/pdf");
    assert_eq!(s.repo_branch, "v2");
    assert_eq!(s.repo_name, "r");
    assert_eq!(s.description, "");
}

fn row(key: &str, name: &str, expires_at: i64) -> CachedSkillRow {
    CachedSkillRow {
        key: key.to_string(),
        name: name.to_string(),
        description: None,
        download_url: None,
        category: None,
        expires_at,
    }
}

#[test]
fn cache_rows_carry_time_and_marker() {
    let rows = cache_rows(&catalogue(), 1_700_000_000);
    assert_eq!(rows.len(), 3);
    assert_eq!(rows[0].key, "k1");
    assert_eq!(rows[1].category.as_deref(), Some("Finance"));
    assert_eq!(rows[2].cached_at, 1_700_000_000);
    assert_eq!(rows[2].expires_at, 1_700_000_000 + CACHE_TTL_SECONDS);
    assert_eq!(rows[0].raw_html_hash, "api-1700000000");
}

#[test]
fn fresh_rows_sorted_without_case() {
    let rows = vec![row("1", "beta", 100), row("2", "Alpha", 100), row("3", "gamma", 5), row("4", "ALPHA2", 101)];
    let got = fresh_cached_skills(&CacheTable::from_rows(rows.clone()), 10);
    assert_eq!(keys(&got), vec!["2", "4", "1"]);
    assert!(fresh_cached_skills(&CacheTable::from_rows(rows.clone()), 1000).is_empty());
}

#[test]
fn stored_catalogue_reads_back_until_expiry() {
    let now = 1_000;
    let rows = cache_rows(&catalogue(), now);
    let stored: Vec<CachedSkillRow> = rows
        .iter()
        .map(|r| CachedSkillRow {
            key: r.key.clone(),
            name: r.name.clone(),
            description: r.description.clone(),
            download_url: r.download_url.clone(),
            category: r.category.clone(),
            expires_at: r.expires_at,
        })
        .collect();
    let back = fresh_cached_skills(&CacheTable::from_rows(stored.clone()), now + 10);
    assert_eq!(keys(&back), vec!["k1", "k3", "k2"]);
    assert_eq!(back[0].owner, None);
    assert_eq!(back[0].description.as_deref(), Some("Works with SPREADSHEETS"));
    assert!(fresh_cached_skills(&CacheTable::from_rows(stored.clone()), now + CACHE_TTL_SECONDS).is_empty());
}

#[test]
fn fresh_row_by_key() {
    let rows = vec![row("a", "A", 5), row("a", "A2", 100), row("b", "B", 100)];
    assert_eq!(fresh_cached_skill(&CacheTable::from_rows(rows.clone()), "a", 10).unwrap().name, "A2");
    assert!(fresh_cached_skill(&CacheTable::from_rows(rows.clone()), "c", 10).is_none());
    assert!(fresh_cached_skill(&CacheTable::from_rows(rows.clone()), "b", 100).is_none());
}

#[test]
fn sso_login_detection() {
    assert!(sso_login_completed("https://finbox.jd.com/coverage"));
    assert!(!sso_login_completed("https://finbox.jd.com/sso/login"));
    assert!(!sso_login_completed("https://ssa.jd.com/sso/login?ReturnUrl=https://finbox.jd.com/"));
    assert!(!sso_login_completed("https://finbox.jd.com"));
    assert!(!sso_login_completed("http://finbox.jd.com/coverage"));
}

#[test]
fn sso_window_and_extraction_decisions() {
    assert!(matches!(sso_open_action(true), SsoOpenAction::FocusExisting));
    assert!(matches!(sso_open_action(false), SsoOpenAction::CreateWindow));
    let o = sso_extraction_outcome(SsoExtraction::CookieRead { cookie: Some("c".to_string()) });
    assert_eq!(o.persist_cookie.as_deref(), Some("c"));
    assert!(o.notify_success && o.close_window);
    let o = sso_extraction_outcome(SsoExtraction::CookieRead { cookie: None });
    assert!(o.persist_cookie.is_none() && !o.notify_success && o.close_window);
    let o = sso_extraction_outcome(SsoExtraction::ScriptFailed);
    assert!(!o.close_window && !o.notify_success);
    let o = sso_extraction_outcome(SsoExtraction::WindowGone);
    assert!(!o.close_window);
}

#[test]
fn error_messages() {
    assert_eq!(FinboxError::NoDownloadUrl { key: "x".to_string() }.message(), "Skill 'x' has no download URL");
    assert_eq!(FinboxError::MissingSsoCookie.message(), "未配置京东 SSO Cookie，请先登录 Finbox");
    assert_eq!(FinboxError::SsoExpired.message(), "SSO 登录已过期，请重新登录");
    assert_eq!(
        FinboxError::UnsupportedUrl { url: "u".to_string() }.message(),
        "Not a supported URL: u"
    );
}

#[test]
fn search_ignores_whitespace_padding() {
    let plain = keys(&filter_skills(catalogue(), Some("excel")));
    let padded = keys(&filter_skills(catalogue(), Some("\u{3000}\t excel \u{a0}\n")));
    assert_eq!(plain, padded);
}

#[test]
fn longer_query_finds_no_more() {
    let short = keys(&filter_skills(catalogue(), Some("er")));
    let long = keys(&filter_skills(catalogue(), Some("writer")));
    assert!(long.iter().all(|k| short.contains(k)));
    assert_eq!(long, vec!["k2"]);
}

#[test]
fn refreshed_listing_installs_from_its_download_url() {
    let svc = FinboxMarketplaceService::new();
    let tools = vec![FinboxToolRaw {
        id: "pdf".to_string(),
        name: "PDF Tools".to_string(),
        description: None,
        download_url: Some("https://github.com/acme/skills/tree/main/pdf".to_string()),
        category: None,
        owner: None,
        status: None,
        version: None,
        download_count: None,
        monthly_usage: None,
        star_count: None,
    }];
    let now = 5_000;
    let rows = svc.refresh_cache(tools, now);
    let stored: Vec<CachedSkillRow> = rows
        .iter()
        .map(|r| CachedSkillRow {
            key: r.key.clone(),
            name: r.name.clone(),
            description: r.description.clone(),
            download_url: r.download_url.clone(),
            category: r.category.clone(),
            expires_at: r.expires_at,
        })
        .collect();
    let cached = fresh_cached_skill(&CacheTable::from_rows(stored.clone()), "pdf", now + 1);
    match svc.install_skill("pdf", cached, "editor", None) {
        Ok(InstallPlan::Repository { skill }) => {
            assert_eq!(skill.repo_owner, "acme");
            assert_eq!(skill.repo_name, "skills");
            assert_eq!(skill.directory, "pdf");
        }
        _ => panic!("expected a repository plan"),
    }
}

#[test]
fn read_by_key_agrees_with_full_read() {
    let rows = vec![row("a", "Alpha", 100), row("b", "Beta", 100), row("c", "Gamma", 5)];
    let all = fresh_cached_skills(&CacheTable::from_rows(rows.clone()), 10);
    for k in ["a", "b", "c", "z"] {
        let one = fresh_cached_skill(&CacheTable::from_rows(rows.clone()), k, 10).map(|s| s.key);
        let from_all = all.iter().find(|s| s.key == k).map(|s| s.key.clone());
        assert_eq!(one, from_all);
    }
}

#[test]
fn table_keeps_last_row_of_a_key() {
    let rows = vec![row("a", "Old", 100), row("b", "B", 100), row("a", "New", 100)];
    let table = CacheTable::from_rows(rows);
    assert_eq!(table.rows().len(), 2);
    assert_eq!(table.rows()[0].key, "b");
    assert_eq!(table.rows()[1].name, "New");
    assert_eq!(fresh_cached_skill(&table, "a", 10).unwrap().name, "New");
    assert_eq!(keys(&fresh_cached_skills(&table, 10)), vec!["b", "a"]);
}

#[test]
fn search_ignores_ascii_case() {
    let lower = keys(&filter_skills(catalogue(), Some("excel")));
    let upper = keys(&filter_skills(catalogue(), Some("  EXCEL  ")));
    assert_eq!(lower, upper);
}
