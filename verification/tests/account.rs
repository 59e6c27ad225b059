use pwdchk::account::{group_report, Account};
use pwdchk::error::Error;
use std::str::FromStr;

fn login_of(groups: &[(&str, Vec<&str>)], password: &str) -> Option<Vec<String>> {
    groups
        .iter()
        .find(|g| g.0 == password)
        .map(|g| g.1.iter().map(|s| s.to_string()).collect())
}

#[test]
fn new_keeps_login_and_password() {
    let a = Account::new("alice", "secret");
    assert_eq!(a.password, "secret");
    assert_eq!(a.password_text(), "secret");
}

#[test]
fn from_string_splits_at_first_colon() {
    let a = Account::from_string("bob:pa:ss");
    assert_eq!(a.password, "pa:ss");
    let groups_input = vec![a, Account::new("carol", "pa:ss")];
    let groups = Account::group(&groups_input);
    assert_eq!(login_of(&groups, "pa:ss"), Some(vec!["bob".to_string(), "carol".to_string()]));
}

#[test]
fn from_string_empty_parts() {
    let a = Account::from_string(":");
    assert_eq!(a.password, "");
    let b = Account::from_string("x:");
    assert_eq!(b.password, "");
    let c = Account::from_string(":y");
    assert_eq!(c.password, "y");
}

#[test]
fn from_str_without_colon_is_an_error() {
    let r = Account::from_str("nocolon");
    assert!(matches!(r, Err(Error::NoColon)));
    let r2: Result<Account, Error> = "nocolon".parse();
    assert_eq!(r2.unwrap_err(), Error::NoColon);
}

#[test]
fn from_str_with_colon_is_an_account() {
    let a: Account = "dave:1234".parse().unwrap();
    assert_eq!(a.password, "1234");
}

#[test]
fn from_lines_reads_every_line() {
    let lines = vec!["a:1".to_string(), "b:2".to_string(), "c:1".to_string()];
    let accounts = Account::from_lines(&lines).unwrap();
    assert_eq!(accounts.len(), 3);
    assert_eq!(accounts[1].password, "2");
}

#[test]
fn from_lines_fails_on_a_line_without_colon() {
    let lines = vec!["a:1".to_string(), "oops".to_string(), "c:1".to_string()];
    assert_eq!(Account::from_lines(&lines).unwrap_err(), Error::NoColon);
    let empty: Vec<String> = vec![];
    assert_eq!(Account::from_lines(&empty).unwrap().len(), 0);
}

#[test]
fn group_keeps_only_shared_passwords() {
    let accounts = vec![
        Account::new("alice", "123456"),
        Account::new("bob", "hunter2"),
        Account::new("carol", "123456"),
        Account::new("dave", "qwerty"),
        Account::new("erin", "123456"),
        Account::new("frank", "qwerty"),
    ];
    let groups = Account::group(&accounts);
    assert_eq!(groups.len(), 2);
    assert_eq!(
        login_of(&groups, "123456"),
        Some(vec!["alice".to_string(), "carol".to_string(), "erin".to_string()])
    );
    assert_eq!(login_of(&groups, "qwerty"), Some(vec!["dave".to_string(), "frank".to_string()]));
    assert_eq!(login_of(&groups, "hunter2"), None);
}

#[test]
fn group_of_no_accounts_is_empty() {
    let accounts: Vec<Account> = vec![];
    assert!(Account::group(&accounts).is_empty());
    let single = vec![Account::new("solo", "pw")];
    assert!(Account::group(&single).is_empty());
}

#[test]
fn group_report_joins_logins() {
    assert_eq!(group_report("123456", &["alice", "carol"]), "Password 123456 used by alice, carol");
    assert_eq!(group_report("x", &[]), "Password x used by ");
}

#[test]
fn text_roundtrip_gives_back_login_and_password() {
    let a = Account::from_string("login:pass:word");
    let b = Account::new("login", "pass:word");
    let both = vec![a, b];
    let groups = Account::group(&both);
    assert_eq!(login_of(&groups, "pass:word"), Some(vec!["login".to_string(), "login".to_string()]));
}
