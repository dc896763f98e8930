use muko::codec::ManagedEntry;
use muko::report::{alias_display, collect, mode_label, prod_ip_display, with_prod_ip, Resolver};

fn lines(v: &[&str]) -> Vec<String> {
    v.iter().map(|s| s.to_string()).collect()
}

/// Drive one entry's resolver against a scripted run of lookup outcomes,
/// the way the caller performing real lookups would.
fn run_script(entry: &ManagedEntry, script: &[Option<&str>]) -> (Option<String>, usize) {
    let mut resolver = Resolver::new(entry);
    let mut attempts = 0usize;
    while resolver.wants_attempt() {
        let outcome = if attempts < script.len() {
            script[attempts].map(|s| s.to_string())
        } else {
            None
        };
        attempts += 1;
        resolver.record(outcome);
    }
    (resolver.finish(), attempts)
}

#[test]
fn collect_keeps_managed_entries_in_file_order() {
    let file = lines(&[
        "# comment",
        "127.0.0.1 localhost",
        "10.0.0.1 a.test #muko: a",
        "broken #muko: line",
        "#10.0.0.2 b.test #muko: b",
    ]);
    let entries = collect(&file);
    assert_eq!(entries.len(), 2);
    assert_eq!(entries[0].domain, "a.test");
    assert!(entries[0].active);
    assert_eq!(entries[0].prod_ip, None);
    assert_eq!(entries[1].domain, "b.test");
    assert!(!entries[1].active);
    assert_eq!(entries[1].prod_ip, None);
}

#[test]
fn resolver_takes_differing_answer_on_third_attempt() {
    let file = lines(&["#127.0.0.1 foo.test #muko: foo"]);
    let entry = &collect(&file)[0];
    let (prod, attempts) = run_script(
        entry,
        &[Some("127.0.0.1"), Some("127.0.0.1"), Some("9.9.9.9")],
    );
    assert_eq!(prod.as_deref(), Some("9.9.9.9"));
    assert_eq!(attempts, 3);
}

#[test]
fn resolver_stops_early_on_differing_answer() {
    let file = lines(&["#127.0.0.1 foo.test #muko: foo"]);
    let entry = &collect(&file)[0];
    let (prod, attempts) = run_script(entry, &[Some("8.8.8.8")]);
    assert_eq!(prod.as_deref(), Some("8.8.8.8"));
    assert_eq!(attempts, 1);
}

#[test]
fn resolver_keeps_override_answer_provisionally() {
    let file = lines(&["#127.0.0.1 foo.test #muko: foo"]);
    let entry = &collect(&file)[0];
    let (prod, attempts) = run_script(entry, &[Some("127.0.0.1"), None, None]);
    assert_eq!(prod.as_deref(), Some("127.0.0.1"));
    assert_eq!(attempts, 3);
}

#[test]
fn resolver_exhaustion_leaves_prod_ip_absent_and_entry_reported() {
    let file = lines(&["#127.0.0.1 foo.test #muko: foo", "10.0.0.1 b.test #muko: b"]);
    let entries = collect(&file);
    let (prod, attempts) = run_script(&entries[0], &[None, None, None]);
    assert_eq!(prod, None);
    assert_eq!(attempts, 3);
    let reported = with_prod_ip(entries[0].clone(), prod);
    // the entry stays in the report, merely without a production IP
    assert_eq!(reported.domain, "foo.test");
    assert_eq!(reported.prod_ip, None);
    assert_eq!(prod_ip_display(&reported), "-");
}

#[test]
fn active_entry_gets_no_resolution_attempt() {
    let file = lines(&["127.0.0.1 foo.test #muko: foo"]);
    let entry = &collect(&file)[0];
    let resolver = Resolver::new(entry);
    assert!(!resolver.wants_attempt());
    let (prod, attempts) = run_script(entry, &[Some("9.9.9.9")]);
    assert_eq!(prod, None);
    assert_eq!(attempts, 0);
    // even a handed-in address does not stick to an active entry
    let reported = with_prod_ip(entry.clone(), Some("9.9.9.9".to_string()));
    assert_eq!(reported.prod_ip, None);
}

#[test]
fn inactive_entry_takes_handed_in_prod_ip() {
    let file = lines(&["#127.0.0.1 foo.test #muko: foo"]);
    let entry = &collect(&file)[0];
    let reported = with_prod_ip(entry.clone(), Some("9.9.9.9".to_string()));
    assert_eq!(reported.prod_ip.as_deref(), Some("9.9.9.9"));
}

#[test]
fn display_helpers_follow_the_entry() {
    let file = lines(&[
        "10.0.0.1 a.test #muko: a.test",
        "#10.0.0.2 b.test #muko: nick",
    ]);
    let entries = collect(&file);
    assert_eq!(mode_label(&entries[0]), "DEV");
    assert_eq!(mode_label(&entries[1]), "PROD");
    // an alias equal to the domain is not repeated
    assert_eq!(alias_display(&entries[0]), "");
    assert_eq!(alias_display(&entries[1]), "nick");
    // active entries show no production IP at all
    assert_eq!(prod_ip_display(&entries[0]), "");
    let resolved = with_prod_ip(entries[1].clone(), Some("9.9.9.9".to_string()));
    assert_eq!(prod_ip_display(&resolved), "9.9.9.9");
}
