use muko::switch::toggle;

fn lines(v: &[&str]) -> Vec<String> {
    v.iter().map(|s| s.to_string()).collect()
}

#[test]
fn prod_comments_out_and_dev_restores_exactly() {
    let original = lines(&["127.0.0.1 foo.test #muko: foo"]);
    let prod = toggle(&original, "foo.test", false).expect("entry exists");
    assert_eq!(prod, lines(&["#127.0.0.1 foo.test #muko: foo"]));
    let dev = toggle(&prod, "foo.test", true).expect("entry exists");
    assert_eq!(dev, original);
}

#[test]
fn toggle_is_idempotent() {
    let original = lines(&["before", "127.0.0.1 foo.test #muko: foo", "after"]);
    let once = toggle(&original, "foo.test", false).expect("entry exists");
    let twice = toggle(&once, "foo.test", false).expect("entry exists");
    assert_eq!(twice, once);
    let once_dev = toggle(&original, "foo.test", true).expect("entry exists");
    let twice_dev = toggle(&once_dev, "foo.test", true).expect("entry exists");
    assert_eq!(twice_dev, once_dev);
    assert_eq!(once_dev, original);
}

#[test]
fn toggle_unknown_identifier_fails_and_rewrites_nothing() {
    let original = lines(&["127.0.0.1 foo.test #muko: foo"]);
    assert!(toggle(&original, "unknown.test", true).is_err());
    assert!(toggle(&original, "unknown.test", false).is_err());
    assert!(toggle(&lines(&[]), "foo.test", true).is_err());
}

#[test]
fn toggle_matches_by_alias() {
    let original = lines(&["127.0.0.1 foo.test #muko: shortcut"]);
    let prod = toggle(&original, "shortcut", false).expect("alias matches");
    assert_eq!(prod, lines(&["#127.0.0.1 foo.test #muko: shortcut"]));
}

#[test]
fn toggle_leaves_foreign_lines_byte_identical() {
    let original = lines(&[
        "# The hosts file",
        "127.0.0.1\tlocalhost",
        "",
        "10.0.0.5 foo.test #muko: foo",
        "::1     localhost ip6",
        "malformed #muko: line stays",
    ]);
    let prod = toggle(&original, "foo.test", false).expect("entry exists");
    assert_eq!(prod[0], original[0]);
    assert_eq!(prod[1], original[1]);
    assert_eq!(prod[2], original[2]);
    assert_eq!(prod[3], "#10.0.0.5 foo.test #muko: foo");
    assert_eq!(prod[4], original[4]);
    assert_eq!(prod[5], original[5]);
}

#[test]
fn dev_strips_hash_and_following_whitespace_only() {
    let original = lines(&["#  10.0.0.1   foo.test   #muko: foo"]);
    let dev = toggle(&original, "foo.test", true).expect("entry exists");
    assert_eq!(dev, lines(&["10.0.0.1   foo.test   #muko: foo"]));
}

#[test]
fn toggle_in_wanted_state_changes_nothing() {
    let active = lines(&["  10.0.0.1 foo.test #muko: foo"]);
    let dev = toggle(&active, "foo.test", true).expect("entry exists");
    assert_eq!(dev, active);
    let commented = lines(&["#10.0.0.1 foo.test #muko: foo"]);
    let prod = toggle(&commented, "foo.test", false).expect("entry exists");
    assert_eq!(prod, commented);
}

#[test]
fn toggle_rewrites_every_matching_line() {
    let original = lines(&[
        "10.0.0.1 foo.test #muko: a",
        "middle line",
        "10.0.0.2 foo.test #muko: b",
    ]);
    let prod = toggle(&original, "foo.test", false).expect("entry exists");
    assert_eq!(
        prod,
        lines(&[
            "#10.0.0.1 foo.test #muko: a",
            "middle line",
            "#10.0.0.2 foo.test #muko: b",
        ])
    );
}
