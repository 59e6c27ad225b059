use pwdchk::error::Error;
use pwdchk::scanner::{
    cartesian, expand_hosts, expand_net, identify, ipv4_to_string, next_ping_action, parse_ports, ping_address,
    ping_targets, report_line, try_expand_net, IdentificationResult, PingAction, PingEvent,
    PING_TIMEOUT_MS,
};

#[test]
fn cartesian_of_numbers_and_strings() {
    let words = [String::from("foo"), String::from("bar")];
    let refs: Vec<&String> = words.iter().collect();
    let prod = cartesian(&[1, 2, 3], &refs);
    let got: Vec<(i32, String)> = prod.into_iter().map(|(n, s)| (n, s.clone())).collect();
    assert_eq!(
        got,
        vec![
            (1, "foo".to_string()),
            (1, "bar".to_string()),
            (2, "foo".to_string()),
            (2, "bar".to_string()),
            (3, "foo".to_string()),
            (3, "bar".to_string()),
        ]
    );
}

#[test]
fn cartesian_with_an_empty_side_is_empty() {
    let none: [u8; 0] = [];
    assert!(cartesian(&none, &[1, 2]).is_empty());
    assert!(cartesian(&[1, 2], &none).is_empty());
}

#[test]
fn ping_targets_pairs_every_host_with_every_port() {
    let t = ping_targets(&["a", "b"], &[22, 80]);
    assert_eq!(t, vec![("a", 22), ("a", 80), ("b", 22), ("b", 80)]);
}

#[test]
fn expand_net_plain_host() {
    assert_eq!(expand_net("example.org"), vec!["example.org".to_string()]);
    assert_eq!(expand_net("10.0.0.1"), vec!["10.0.0.1".to_string()]);
}

#[test]
fn expand_net_network() {
    assert_eq!(expand_net("10.0.0.0/30"), vec!["10.0.0.1".to_string(), "10.0.0.2".to_string()]);
    assert_eq!(expand_net("10.0.0.0/31"), vec!["10.0.0.0".to_string(), "10.0.0.1".to_string()]);
    assert_eq!(expand_net("192.168.1.77/32"), vec!["192.168.1.77".to_string()]);
    let v = expand_net("172.16.5.9/24");
    assert_eq!(v.len(), 254);
    assert_eq!(v[0], "172.16.5.1");
    assert_eq!(v[253], "172.16.5.254");
}

#[test]
fn try_expand_net_refuses_bad_network() {
    assert_eq!(try_expand_net("10.0.0.0/33"), None);
    assert_eq!(try_expand_net("nope/24"), None);
    assert_eq!(try_expand_net("host"), Some(vec!["host".to_string()]));
    assert_eq!(try_expand_net("10.1.2.3/32"), Some(vec!["10.1.2.3".to_string()]));
}

#[test]
fn ipv4_text_is_dotted_decimal() {
    assert_eq!(ipv4_to_string(0), "0.0.0.0");
    assert_eq!(ipv4_to_string(0xC0A80101), "192.168.1.1");
    assert_eq!(ipv4_to_string(u32::MAX), "255.255.255.255");
}

#[test]
fn ping_address_joins_host_and_port() {
    assert_eq!(ping_address("localhost", 22), "localhost:22");
    assert_eq!(ping_address("h", 0), "h:0");
    assert_eq!(ping_address("h", 65535), "h:65535");
}

#[test]
fn ping_steps() {
    assert!(matches!(next_ping_action(PingEvent::Resolved), PingAction::Connect(3000)));
    assert_eq!(PING_TIMEOUT_MS, 3000);
    assert!(matches!(next_ping_action(PingEvent::Connected), PingAction::Finish(Ok(true))));
    assert!(matches!(next_ping_action(PingEvent::ConnectFailed), PingAction::Finish(Ok(false))));
    assert!(matches!(
        next_ping_action(PingEvent::TimedOut),
        PingAction::Finish(Err(Error::Timeout))
    ));
    match next_ping_action(PingEvent::ResolveFailed("no such host".to_string())) {
        PingAction::Finish(Err(Error::IoError(m))) => assert_eq!(m, "no such host"),
        _ => panic!("expected an io error"),
    }
}

#[test]
fn report_lines() {
    let open = Ok(identify(true));
    let closed = Ok(identify(false));
    let welcome = Ok(IdentificationResult::WelcomeLine("SSH-2.0".to_string()));
    let bad = Err(Error::IoError("x".to_string()));
    let slow = Err(Error::Timeout);
    let other = Err(Error::NoColon);
    assert_eq!(report_line("h", 22, &open, false).unwrap(), "h:22 is open");
    assert_eq!(report_line("h", 22, &welcome, true).unwrap(), "h:22 is open : SSH-2.0");
    assert_eq!(report_line("h", 22, &closed, false).unwrap(), "h:22 is closed");
    assert_eq!(report_line("h", 22, &closed, true), None);
    assert_eq!(report_line("h", 1, &bad, false).unwrap(), "h:1 is not a valid adress");
    assert_eq!(report_line("h", 1, &bad, true), None);
    assert_eq!(report_line("h", 1, &slow, false).unwrap(), "h:1 timed out");
    assert_eq!(report_line("h", 1, &other, false).unwrap(), "h:1 -> error");
    assert_eq!(report_line("h", 1, &other, true), None);
}

#[test]
fn parse_ports_reads_comma_list() {
    assert_eq!(parse_ports("22,80,443"), Some(vec![22, 80, 443]));
    assert_eq!(parse_ports("+8080"), Some(vec![8080]));
    assert_eq!(parse_ports("0,65535"), Some(vec![0, 65535]));
    assert_eq!(parse_ports("65536"), None);
    assert_eq!(parse_ports("22,"), None);
    assert_eq!(parse_ports(""), None);
    assert_eq!(parse_ports("-1"), None);
    assert_eq!(parse_ports("2 2"), None);
}

#[test]
fn expand_hosts_flattens_every_host() {
    assert_eq!(
        expand_hosts("a,10.0.0.0/30,b"),
        Some(vec!["a".to_string(), "10.0.0.1".to_string(), "10.0.0.2".to_string(), "b".to_string()])
    );
    assert_eq!(expand_hosts("a,1.2.3.4/40"), None);
    assert_eq!(expand_hosts(""), Some(vec!["".to_string()]));
}
