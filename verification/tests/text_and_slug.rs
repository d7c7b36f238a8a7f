use finbox::cache::decimal_string;
use finbox::install::{archive_file_name, is_archive_url, parse_github_url};
use finbox::slug::slugify;
use finbox::text::{str_contains, str_ends_with, str_eq, str_starts_with, str_trim, trim_end_matches};

fn coords(a: &str, b: &str, c: &str, d: &str) -> Option<(String, String, String, String)> {
    Some((a.to_string(), b.to_string(), c.to_string(), d.to_string()))
}

#[test]
fn trim_removes_surrounding_whitespace() {
    assert_eq!(str_trim("  ab  "), "ab");
    assert_eq!(str_trim("\t\n x y \u{3000}"), "x y");
    assert_eq!(str_trim("   "), "");
    assert_eq!(str_trim(""), "");
}

#[test]
fn trim_is_idempotent_on_examples() {
    for s in ["  a b  ", "\u{2003}x\u{2003}", "plain"] {
        let once = str_trim(s);
        assert_eq!(str_trim(&once), once);
    }
}

#[test]
fn substring_prefix_suffix_and_equality() {
    assert!(str_contains("hello world", "lo w"));
    assert!(str_contains("abc", ""));
    assert!(!str_contains("abc", "abcd"));
    assert!(!str_contains("abc", "ac"));
    assert!(str_ends_with("archive.tar.gz", ".tar.gz"));
    assert!(!str_ends_with("gz", ".tar.gz"));
    assert!(str_starts_with("https://finbox.jd.com/x", "https://finbox.jd.com/"));
    assert!(str_eq("github.com", "github.com"));
    assert!(!str_eq("github.com", "github.co"));
}

#[test]
fn trim_end_matches_removes_every_repetition() {
    assert_eq!(trim_end_matches("repo.git", ".git"), "repo");
    assert_eq!(trim_end_matches("repo.git.git", ".git"), "repo");
    assert_eq!(trim_end_matches("repo", ".git"), "repo");
    assert_eq!(trim_end_matches(".git", ".git"), "");
}

#[test]
fn slugify_examples() {
    assert_eq!(slugify("Hello World!"), "hello-world");
    assert_eq!(slugify("--A__b--"), "a-b");
    assert_eq!(slugify("MySkill v2.0"), "myskill-v2-0");
    assert_eq!(slugify("already-a-slug"), "already-a-slug");
}

#[test]
fn slugify_falls_back_when_nothing_is_left() {
    assert_eq!(slugify(""), "finbox-skill");
    assert_eq!(slugify("---"), "finbox-skill");
    assert_eq!(slugify("中文技能"), "finbox-skill");
}

#[test]
fn slugify_is_idempotent_and_well_formed() {
    for s in ["Hello World!", "  x  ", "ÄÖ-Ü 12", "", "a--b", "Finbox Skill"] {
        let slug = slugify(s);
        assert_eq!(slugify(&slug), slug);
        assert!(!slug.is_empty());
        assert!(!slug.starts_with('-') && !slug.ends_with('-'));
        assert!(!slug.contains("--"));
        assert!(slug.chars().all(|c| c.is_ascii_lowercase() || c.is_ascii_digit() || c == '-'));
    }
}

#[test]
fn archive_urls_are_recognised_in_any_case() {
    assert!(is_archive_url("https://example.com/skill.zip"));
    assert!(is_archive_url("https://example.com/SKILL.ZIP"));
    assert!(is_archive_url("https://example.com/skill.tar.gz"));
    assert!(is_archive_url("https://example.com/skill.TGZ"));
    assert!(!is_archive_url("https://github.com/owner/repo"));
    assert!(!is_archive_url("https://example.com/skill.gz"));
}

#[test]
fn archive_file_name_is_slug_with_zip() {
    assert_eq!(archive_file_name("My Tool"), "my-tool.zip");
    assert_eq!(archive_file_name("***"), "finbox-skill.zip");
}

#[test]
fn github_repository_root() {
    assert_eq!(parse_github_url("https://github.com/owner/repo"), coords("owner", "repo", "main", ""));
    assert_eq!(parse_github_url("https://github.com/owner/repo.git"), coords("owner", "repo", "main", ""));
    assert_eq!(parse_github_url("https://github.com/owner/repo.git.git/"), coords("owner", "repo", "main", ""));
    assert_eq!(parse_github_url("https://github.com//owner//repo/"), coords("owner", "repo", "main", ""));
}

#[test]
fn github_tree_and_blob_paths() {
    assert_eq!(
        parse_github_url("https://github.com/o/r/tree/dev/skills/x"),
        coords("o", "r", "dev", "skills/x")
    );
    assert_eq!(parse_github_url("https://github.com/o/r/blob/main/a"), coords("o", "r", "main", "a"));
    assert_eq!(parse_github_url("https://github.com/o/r/tree/dev"), coords("o", "r", "main", ""));
    assert_eq!(parse_github_url("https://github.com/o/r/issues/1/x"), coords("o", "r", "main", ""));
}

#[test]
fn non_github_urls_are_refused() {
    assert_eq!(parse_github_url("https://gitlab.com/o/r"), None);
    assert_eq!(parse_github_url("https://github.com/only-owner"), None);
    assert_eq!(parse_github_url("not a url"), None);
    assert_eq!(parse_github_url("mailto:someone@github.com"), None);
}

#[test]
fn decimal_text_of_integers() {
    assert_eq!(decimal_string(0), "0");
    assert_eq!(decimal_string(42), "42");
    assert_eq!(decimal_string(-7), "-7");
    assert_eq!(decimal_string(1700000000), "1700000000");
    assert_eq!(decimal_string(i64::MAX), i64::MAX.to_string());
    assert_eq!(decimal_string(i64::MIN), i64::MIN.to_string());
}

#[test]
fn slug_keeps_letters_and_digits_in_order() {
    for (input, kept) in [("Hello, World 42!", "helloworld42"), ("a-b_c", "abc"), ("Ünïcödé x", "ncdx")] {
        assert_eq!(slugify(input).replace('-', ""), kept);
    }
}
