use muko::registrar::add;

fn lines(v: &[&str]) -> Vec<String> {
    v.iter().map(|s| s.to_string()).collect()
}

#[test]
fn add_replaces_managed_entry_with_new_ip() {
    let original = lines(&["127.0.0.1 foo.test #muko: foo"]);
    let (out, replaced) = add(&original, "foo.test", "10.1.2.3", "foo");
    assert!(replaced);
    assert_eq!(out, lines(&["10.1.2.3 foo.test #muko: foo"]));
}

#[test]
fn add_claims_plain_unmanaged_entry() {
    let original = lines(&["1.2.3.4 foo.test"]);
    let (out, replaced) = add(&original, "foo.test", "127.0.0.1", "foo");
    assert!(replaced);
    assert_eq!(out, lines(&["127.0.0.1 foo.test #muko: foo"]));
}

#[test]
fn add_claims_commented_entry() {
    let original = lines(&["# 1.2.3.4 foo.test"]);
    let (out, replaced) = add(&original, "foo.test", "127.0.0.1", "foo");
    assert!(replaced);
    assert_eq!(out, lines(&["127.0.0.1 foo.test #muko: foo"]));
}

#[test]
fn add_strips_only_one_leading_hash() {
    // after the one optional leading hash, a second hash opens the inline
    // comment, so nothing here counts as a hostname token
    let original = lines(&["##1.2.3.4 foo.test"]);
    let (out, replaced) = add(&original, "foo.test", "127.0.0.1", "foo");
    assert!(!replaced);
    assert_eq!(
        out,
        lines(&["##1.2.3.4 foo.test", "127.0.0.1 foo.test #muko: foo"])
    );
}

#[test]
fn add_hash_after_stripped_hash_is_a_comment() {
    let original = lines(&["#  # 1.2.3.4 foo.test"]);
    let (out, replaced) = add(&original, "foo.test", "127.0.0.1", "foo");
    assert!(!replaced);
    assert_eq!(
        out,
        lines(&["#  # 1.2.3.4 foo.test", "127.0.0.1 foo.test #muko: foo"])
    );
}

#[test]
fn add_new_entry_lands_last_and_order_is_kept() {
    let original = lines(&[
        "127.0.0.1 localhost",
        "1.2.3.4 foo.test",
        "8.8.8.8 other.test",
    ]);
    let (out, replaced) = add(&original, "foo.test", "127.0.0.1", "foo");
    assert!(replaced);
    assert_eq!(
        out,
        lines(&[
            "127.0.0.1 localhost",
            "8.8.8.8 other.test",
            "127.0.0.1 foo.test #muko: foo",
        ])
    );
}

#[test]
fn add_substring_of_longer_token_is_not_a_duplicate() {
    let original = lines(&["127.0.0.1 latest.test"]);
    let (out, replaced) = add(&original, "test", "127.0.0.1", "t");
    assert!(!replaced);
    assert_eq!(
        out,
        lines(&["127.0.0.1 latest.test", "127.0.0.1 test #muko: t"])
    );
}

#[test]
fn add_domain_inside_inline_comment_is_not_a_duplicate() {
    let original = lines(&["1.2.3.4 bar.test # see foo.test"]);
    let (out, replaced) = add(&original, "foo.test", "127.0.0.1", "foo");
    assert!(!replaced);
    assert_eq!(
        out,
        lines(&["1.2.3.4 bar.test # see foo.test", "127.0.0.1 foo.test #muko: foo"])
    );
}

#[test]
fn add_domain_as_first_token_is_not_a_host_entry() {
    // only tokens after the IP column count as hostnames
    let original = lines(&["foo.test something"]);
    let (out, replaced) = add(&original, "foo.test", "127.0.0.1", "foo");
    assert!(!replaced);
    assert_eq!(
        out,
        lines(&["foo.test something", "127.0.0.1 foo.test #muko: foo"])
    );
}

#[test]
fn add_to_empty_file() {
    let (out, replaced) = add(&lines(&[]), "foo.test", "127.0.0.1", "foo");
    assert!(!replaced);
    assert_eq!(out, lines(&["127.0.0.1 foo.test #muko: foo"]));
}

#[test]
fn add_replaces_entry_listing_several_hosts() {
    let original = lines(&["1.2.3.4 bar.test foo.test baz.test"]);
    let (out, replaced) = add(&original, "foo.test", "127.0.0.1", "foo");
    assert!(replaced);
    assert_eq!(out, lines(&["127.0.0.1 foo.test #muko: foo"]));
}
