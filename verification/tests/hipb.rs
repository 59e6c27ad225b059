use pwdchk::account::Account;
use pwdchk::hipb::{
    all_sha1, leak_count, leaked_accounts, range_url, sha1, sha1_by_prefix, suffix_counts,
};

#[test]
fn sha1_splits_digest_of_password() {
    let a = Account::new("alice", "password");
    let (prefix, suffix) = sha1(&a);
    assert_eq!(prefix, "5BAA6");
    assert_eq!(suffix, "1E4C9B93F3F0682250B6CF8331B7EE68FD8");
}

#[test]
fn sha1_of_empty_and_abc() {
    let (p, s) = sha1(&Account::new("x", ""));
    assert_eq!(format!("{p}{s}"), "DA39A3EE5E6B4B0D3255BFEF95601890AFD80709");
    let (p, s) = sha1(&Account::new("y", "abc"));
    assert_eq!(p, "A9993");
    assert_eq!(s, "E364706816ABA3E25717850C26C9CD0D89D");
}

#[test]
fn all_sha1_keeps_order() {
    let accounts = vec![Account::new("a", "password"), Account::new("b", "abc")];
    let r = all_sha1(&accounts);
    assert_eq!(r.len(), 2);
    assert_eq!(r[0].0, "5BAA6");
    assert_eq!(r[1].0, "A9993");
    assert_eq!(r[1].2.password, "abc");
}

#[test]
fn sha1_by_prefix_groups_same_password() {
    let accounts = vec![
        Account::new("a", "password"),
        Account::new("b", "abc"),
        Account::new("c", "password"),
    ];
    let groups = sha1_by_prefix(&accounts);
    assert_eq!(groups.len(), 2);
    let g = groups.iter().find(|g| g.0 == "5BAA6").unwrap();
    assert_eq!(g.1.len(), 2);
    assert_eq!(g.1[0].0, "1E4C9B93F3F0682250B6CF8331B7EE68FD8");
    assert_eq!(g.1[1].1.password, "password");
    let h = groups.iter().find(|g| g.0 == "A9993").unwrap();
    assert_eq!(h.1.len(), 1);
}

#[test]
fn suffix_counts_reads_lines_and_keeps_last() {
    let lines = vec![
        "1E4C9B93F3F0682250B6CF8331B7EE68FD8:3861493".to_string(),
        "0018A45C4D1DEF81644B54AB7F969B88D65:1".to_string(),
        "0018A45C4D1DEF81644B54AB7F969B88D65:7".to_string(),
    ];
    let counts = suffix_counts(&lines).unwrap();
    assert_eq!(counts.len(), 2);
    assert_eq!(leak_count(&counts, "1E4C9B93F3F0682250B6CF8331B7EE68FD8"), Some(3861493));
    assert_eq!(leak_count(&counts, "0018A45C4D1DEF81644B54AB7F969B88D65"), Some(7));
    assert_eq!(leak_count(&counts, "FFFF"), None);
}

#[test]
fn suffix_counts_refuses_bad_lines() {
    assert!(suffix_counts(&["ABC".to_string()]).is_none());
    assert!(suffix_counts(&["ABC:x1".to_string()]).is_none());
    assert!(suffix_counts(&["ABC:".to_string()]).is_none());
    assert!(suffix_counts(&["ABC:18446744073709551616".to_string()]).is_none());
    let max = suffix_counts(&["ABC:18446744073709551615".to_string()]).unwrap();
    assert_eq!(leak_count(&max, "ABC"), Some(u64::MAX));
    assert_eq!(suffix_counts(&[]).unwrap().len(), 0);
}

#[test]
fn range_url_ends_with_prefix() {
    assert_eq!(range_url("5BAA6"), "https://api.pwnedpasswords.com/range/5BAA6");
}

#[test]
fn leak_count_takes_the_last_entry_of_a_suffix() {
    let counts = vec![("AB".to_string(), 1), ("CD".to_string(), 2), ("AB".to_string(), 3)];
    assert_eq!(leak_count(&counts, "AB"), Some(3));
    assert_eq!(leak_count(&counts, "CD"), Some(2));
    assert_eq!(leak_count(&counts, "EF"), None);
    assert_eq!(leak_count(&[], "AB"), None);
}

#[test]
fn leaked_accounts_keeps_known_suffixes_in_order() {
    let a = Account::new("a", "password");
    let b = Account::new("b", "other");
    let c = Account::new("c", "password");
    let entries = vec![("S1".to_string(), &a), ("S2".to_string(), &b), ("S1".to_string(), &c)];
    let counts = vec![("S1".to_string(), 42)];
    let leaked = leaked_accounts(&entries, &counts);
    assert_eq!(leaked.len(), 2);
    assert_eq!(leaked[0].1, 42);
    assert_eq!(leaked[1].0.password, "password");
    assert!(leaked_accounts(&entries, &[]).is_empty());
}

#[test]
fn sha1_prefix_and_suffix_make_the_whole_digest() {
    let (p, s) = sha1(&Account::new("z", "hunter2"));
    assert_eq!(format!("{p}{s}"), "F3BBBD66A63D4BF1747940578EC3D0103530E21D");
}
