use muko::codec::{decode, encode, ManagedEntry};

fn entry(ip: &str, domain: &str, alias: Option<&str>, active: bool) -> ManagedEntry {
    ManagedEntry {
        ip: ip.to_string(),
        domain: domain.to_string(),
        alias: alias.map(|a| a.to_string()),
        active,
        prod_ip: None,
    }
}

#[test]
fn decode_active_line_with_alias() {
    let e = decode("127.0.0.1 foo.test #muko: foo").expect("managed line");
    assert_eq!(e, entry("127.0.0.1", "foo.test", Some("foo"), true));
}

#[test]
fn decode_commented_line_is_inactive() {
    let e = decode("#127.0.0.1 foo.test #muko: foo").expect("managed line");
    assert_eq!(e, entry("127.0.0.1", "foo.test", Some("foo"), false));
}

#[test]
fn decode_commented_line_with_space() {
    let e = decode("# 10.0.0.1 foo.test #muko: f").expect("managed line");
    assert_eq!(e, entry("10.0.0.1", "foo.test", Some("f"), false));
}

#[test]
fn decode_line_without_tag_is_not_managed() {
    assert_eq!(decode("127.0.0.1 foo.test"), None);
    assert_eq!(decode("# just a comment"), None);
    assert_eq!(decode(""), None);
}

#[test]
fn decode_malformed_line_with_tag_is_silently_ignored() {
    // the tag alone, or a tag on a line without the grammar, is not an error
    assert_eq!(decode("#muko: foo"), None);
    assert_eq!(decode("this line mentions #muko: but is not shaped right"), None);
}

#[test]
fn decode_tag_must_be_the_third_token() {
    assert_eq!(decode("1.2.3.4 host extra #muko: a"), None);
    assert_eq!(decode("1.2.3.4 #muko: a"), None);
}

#[test]
fn decode_ipv6_shaped_address() {
    let e = decode("::1 bar.test #muko: b").expect("managed line");
    assert_eq!(e, entry("::1", "bar.test", Some("b"), true));
    let e2 = decode("fe80::e5 baz.test #muko: z").expect("managed line");
    assert_eq!(e2.ip, "fe80::e5");
}

#[test]
fn decode_rejects_bad_ip_tokens() {
    assert_eq!(decode("1.2.3.4.5 foo.test #muko: f"), None);
    assert_eq!(decode("1.2.3 foo.test #muko: f"), None);
    assert_eq!(decode("nothex foo.test #muko: f"), None);
}

#[test]
fn decode_empty_alias_is_absent() {
    let e = decode("10.0.0.1 foo.test #muko: ").expect("managed line");
    assert_eq!(e.alias, None);
    let e2 = decode("10.0.0.1 foo.test #muko:").expect("managed line");
    assert_eq!(e2.alias, None);
}

#[test]
fn decode_alias_directly_after_tag() {
    let e = decode("10.0.0.1 foo.test #muko:x").expect("managed line");
    assert_eq!(e.alias.as_deref(), Some("x"));
}

#[test]
fn decode_keeps_only_first_alias_token() {
    let e = decode("10.0.0.1 foo.test #muko: one two").expect("managed line");
    assert_eq!(e.alias.as_deref(), Some("one"));
}

#[test]
fn decode_allows_leading_whitespace() {
    let e = decode("   10.0.0.1 foo.test #muko: f").expect("managed line");
    assert!(e.active);
}

#[test]
fn decode_hash_only_counts_in_the_first_column() {
    // whitespace before the hash: the grammar sees no comment marker and
    // no IP-shaped first token either
    assert_eq!(decode("  #10.0.0.1 foo.test #muko: f"), None);
}

#[test]
fn encode_renders_active_line() {
    let e = entry("10.1.2.3", "foo.test", Some("foo"), true);
    assert_eq!(encode(&e), "10.1.2.3 foo.test #muko: foo");
}

#[test]
fn encode_renders_inactive_line_with_hash() {
    let e = entry("10.1.2.3", "foo.test", Some("foo"), false);
    assert_eq!(encode(&e), "#10.1.2.3 foo.test #muko: foo");
}

#[test]
fn encode_without_alias_keeps_the_trailing_space() {
    let e = entry("10.1.2.3", "foo.test", None, true);
    assert_eq!(encode(&e), "10.1.2.3 foo.test #muko: ");
}

#[test]
fn encode_decode_round_trip_with_alias() {
    let original = entry("192.168.7.9", "site.test", Some("site"), true);
    let line = encode(&original);
    let back = decode(&line).expect("round trip decodes");
    assert_eq!(back, original);
}

#[test]
fn encode_decode_round_trip_without_alias() {
    let original = entry("::1", "six.test", None, true);
    let back = decode(&encode(&original)).expect("round trip decodes");
    assert_eq!(back, original);
}
