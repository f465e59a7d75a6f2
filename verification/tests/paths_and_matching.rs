use vault_hunter::path::Path;
use vault_hunter::text::{chars_of, contains_sub, name_matches};
use vault_hunter::config::Config;

#[test]
fn pushed_appends_and_leaves_original_alone() {
    let root = Path::new();
    let a = root.pushed("accounts");
    let ab = a.pushed("bank");
    assert_eq!(root.render(), "");
    assert_eq!(a.render(), "accounts");
    assert_eq!(ab.render(), "accounts/bank");
    // The parent is unchanged by pushing onto it.
    assert_eq!(a.render(), "accounts");
    assert_eq!(a.depth(), 1);
    assert_eq!(ab.depth(), 2);
}

#[test]
fn push_extends_in_place() {
    let mut p = Path::new();
    p.push("a");
    p.push("b");
    p.push("c");
    assert_eq!(p.render(), "a/b/c");
    assert_eq!(p.depth(), 3);
}

#[test]
fn email_matches_mail() {
    assert!(name_matches("Email", "mail"));
}

#[test]
fn matching_is_case_insensitive_both_ways() {
    assert!(name_matches("EMAIL", "email"));
    assert!(name_matches("email", "MAIL"));
    assert!(name_matches("WorkEmail", "workem"));
}

#[test]
fn empty_pattern_matches_every_name() {
    assert!(name_matches("anything", ""));
    assert!(name_matches("", ""));
}

#[test]
fn unrelated_names_do_not_match() {
    assert!(!name_matches("email", "bank"));
    assert!(!name_matches("", "bank"));
}

#[test]
fn substring_search_finds_inner_occurrences() {
    let hay = chars_of("concatenation");
    assert!(contains_sub(&hay, &chars_of("cat")));
    assert!(contains_sub(&hay, &chars_of("concatenation")));
    assert!(contains_sub(&hay, &chars_of("")));
    assert!(!contains_sub(&hay, &chars_of("dog")));
    assert!(!contains_sub(&chars_of(""), &chars_of("a")));
}

#[test]
fn username_is_lowercased_for_requests() {
    let conf = Config::assemble(
        Vec::new(),
        String::from("https://vault.example/"),
        String::from("MetroWind"),
        None,
        None,
        None,
        None,
        86400,
    );
    assert_eq!(conf.username(), "metrowind");
}
