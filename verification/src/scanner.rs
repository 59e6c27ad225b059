use vstd::prelude::*;
use vstd::arithmetic::power2::pow2;
use crate::error::Error;
use crate::text::{
    decimal, find_char, parse_unsigned, push_char, push_decimal, split_char, split_on, string_texts,
    unsigned_value,
};

verus! {

/// What probing a port told about it.
pub enum IdentificationResult {
    WelcomeLine(String),
    NoWelcomeLine,
    ConnexionRefused,
}

/// The address and prefix length written in `text` as IPv4 network
/// notation (`a.b.c.d/len`), if `text` is such a notation.
pub uninterp spec fn parsed_ipv4_net(text: Seq<char>) -> Option<(u32, u8)>;

/// Trusted: calls `ipnet::Ipv4Net::from_str` and reads back the address, as
/// a number, and the prefix length. The parser refuses prefix lengths above 32.
#[verifier::external_body]
fn parse_ipv4_net(text: &str) -> (r: Option<(u32, u8)>)
    ensures
        r == parsed_ipv4_net(text@),
        r matches Some(p) ==> p.1 <= 32,
{
    match text.parse::<ipnet::Ipv4Net>() {
        Ok(net) => Some((u32::from(net.addr()), net.prefix_len())),
        Err(_) => None,
    }
}

/// Number of addresses in a network with the given prefix length.
pub open spec fn block_size(prefix_len: u8) -> nat {
    pow2((32 - prefix_len) as nat)
}

/// The network address: `addr` with its host bits cleared.
pub open spec fn network_of(addr: u32, prefix_len: u8) -> int {
    (addr as int) - (addr as int) % (block_size(prefix_len) as int)
}

/// The broadcast address: `addr` with its host bits set.
pub open spec fn broadcast_of(addr: u32, prefix_len: u8) -> int {
    network_of(addr, prefix_len) + block_size(prefix_len) - 1
}

/// The first usable host address: the network address itself only for
/// prefix lengths 31 and 32.
pub open spec fn first_host(addr: u32, prefix_len: u8) -> int {
    if prefix_len < 31 {
        network_of(addr, prefix_len) + 1
    } else {
        network_of(addr, prefix_len)
    }
}

/// The last usable host address: the broadcast address itself only for
/// prefix lengths 31 and 32.
pub open spec fn last_host(addr: u32, prefix_len: u8) -> int {
    if prefix_len < 31 {
        broadcast_of(addr, prefix_len) - 1
    } else {
        broadcast_of(addr, prefix_len)
    }
}

/// The usable host addresses of the network of `addr`, in increasing order.
pub open spec fn host_range(addr: u32, prefix_len: u8) -> Seq<u32> {
    let first = first_host(addr, prefix_len);
    let last = last_host(addr, prefix_len);
    Seq::new(
        if first <= last {
            (last - first + 1) as nat
        } else {
            0
        },
        |i: int| (first + i) as u32,
    )
}

/// Trusted: calls `ipnet::Ipv4Net::new` and `Ipv4Net::hosts`, whose
/// documentation and source give the addresses from the network address
/// to the broadcast address, both excluded when the prefix length is below 31.
#[verifier::external_body]
fn ipv4_hosts(addr: u32, prefix_len: u8) -> (hosts: Vec<u32>)
    requires
        prefix_len <= 32,
    ensures
        hosts@ == host_range(addr, prefix_len),
{
    let net = ipnet::Ipv4Net::new(addr.into(), prefix_len).unwrap();
    net.hosts().map(u32::from).collect()
}

/// A network has `2^(32 - len)` addresses, of which all but the network and
/// broadcast addresses are usable hosts when its prefix length is below 31.
pub proof fn lemma_host_count(addr: u32, prefix_len: u8)
    requires
        prefix_len <= 32,
    ensures
        host_range(addr, prefix_len).len() == if prefix_len < 31 {
            block_size(prefix_len) - 2
        } else {
            block_size(prefix_len) as int
        },
{
    vstd::arithmetic::power2::lemma_pow2_pos((32 - prefix_len) as nat);
    if prefix_len < 31 {
        vstd::arithmetic::power2::lemma2_to64();
        vstd::arithmetic::power2::lemma_pow2_strictly_increases(1, (32 - prefix_len) as nat);
    }
}

/// The dotted decimal text of an IPv4 address.
pub open spec fn ipv4_text(addr: u32) -> Seq<char> {
    decimal((addr / 0x100_0000) as nat) + seq!['.'] + decimal(((addr / 0x1_0000) % 256) as nat)
        + seq!['.'] + decimal(((addr / 256) % 256) as nat) + seq!['.'] + decimal((addr % 256) as nat)
}

/// The dotted decimal text of an IPv4 address.
pub fn ipv4_to_string(addr: u32) -> (s: String)
    ensures
        s@ == ipv4_text(addr),
{
    let mut s = String::new();
    push_decimal(&mut s, (addr / 0x100_0000) as u64);
    push_char(&mut s, '.');
    push_decimal(&mut s, ((addr / 0x1_0000) % 256) as u64);
    push_char(&mut s, '.');
    push_decimal(&mut s, ((addr / 256) % 256) as u64);
    push_char(&mut s, '.');
    push_decimal(&mut s, (addr % 256) as u64);
    assert(s@ =~= ipv4_text(addr));
    s
}

/// The addresses that a host given on the command line stands for: every
/// usable host of a network written `a.b.c.d/len`, or else the text itself.
pub open spec fn expansion(host: Seq<char>) -> Seq<Seq<char>> {
    if host.contains('/') {
        let p = parsed_ipv4_net(host).unwrap();
        host_range(p.0, p.1).map_values(|a: u32| ipv4_text(a))
    } else {
        seq![host]
    }
}

/// A host written `a.b.c.d/len` stands for the `2^(32 - len)` addresses of its
/// network, less the network and broadcast addresses when `len` is below 31:
/// counting up from the first usable address, in dotted decimal.
pub proof fn lemma_network_expansion(host: Seq<char>)
    requires
        host.contains('/'),
        parsed_ipv4_net(host) is Some,
        parsed_ipv4_net(host).unwrap().1 <= 32,
    ensures
        ({
            let (addr, len) = parsed_ipv4_net(host).unwrap();
            let size = pow2((32 - len) as nat) as int;
            let network = (addr as int) - (addr as int) % size;
            let first = if len < 31 {
                network + 1
            } else {
                network
            };
            &&& expansion(host).len() == if len < 31 {
                size - 2
            } else {
                size
            }
            &&& forall|i: int|
                0 <= i < expansion(host).len() ==> #[trigger] expansion(host)[i] == ipv4_text(
                    (first + i) as u32,
                )
        }),
{
    let (addr, len) = parsed_ipv4_net(host).unwrap();
    lemma_host_count(addr, len);
}

/// Every address that `host` stands for: the usable hosts of a network
/// written with a `'/'`, or `host` itself.
pub fn expand_net(host: &str) -> (r: Vec<String>)
    requires
        host@.contains('/') ==> parsed_ipv4_net(host@) is Some,
    ensures
        string_texts(r@) == expansion(host@),
        host@.contains('/') ==> r@.len() + (if parsed_ipv4_net(host@).unwrap().1 < 31 {
            2int
        } else {
            0int
        }) == pow2((32 - parsed_ipv4_net(host@).unwrap().1) as nat),
        !host@.contains('/') ==> r@.len() == 1 && r@[0]@ == host@,
{
    if find_char(host, '/').is_some() {
        let (addr, prefix_len) = match parse_ipv4_net(host) {
            Some(p) => p,
            // unreachable: `host` is a network notation
            None => (0, 0),
        };
        let hosts = ipv4_hosts(addr, prefix_len);
        let ghost want = expansion(host@);
        let n = hosts.len();
        let mut r: Vec<String> = Vec::new();
        let mut i: usize = 0;
        while i < n
            invariant
                n == hosts@.len(),
                hosts@ == host_range(addr, prefix_len),
                want == host_range(addr, prefix_len).map_values(|a: u32| ipv4_text(a)),
                i <= n,
                r@.len() == i,
                forall|j: int| 0 <= j < i ==> (#[trigger] r@[j])@ == want[j],
            decreases n - i,
        {
            let text = ipv4_to_string(hosts[i]);
            let ghost prev = r@;
            r.push(text);
            assert forall|j: int| 0 <= j < i + 1 implies (#[trigger] r@[j])@ == want[j] by {
                if j < i {
                    assert(r@[j] == prev[j]);
                }
            }
            i = i + 1;
        }
        assert(string_texts(r@) =~= want);
        proof {
            lemma_host_count(addr, prefix_len);
        }
        r
    } else {
        let r = vec![host.to_owned()];
        assert(string_texts(r@) =~= seq![host@]);
        r
    }
}

/// [`expand_net`] for any text: `None` when `host` holds a `'/'` but is no
/// IPv4 network notation.
pub fn try_expand_net(host: &str) -> (r: Option<Vec<String>>)
    ensures
        r is None <==> host@.contains('/') && parsed_ipv4_net(host@) is None,
        r matches Some(v) ==> string_texts(v@) == expansion(host@),
{
    if find_char(host, '/').is_some() && parse_ipv4_net(host).is_none() {
        None
    } else {
        Some(expand_net(host))
    }
}

/// A host text that names no address: a `'/'` without a valid network notation.
pub open spec fn is_bad_network(host: Seq<char>) -> bool {
    host.contains('/') && parsed_ipv4_net(host) is None
}

/// Every address that the comma-separated `hosts` stand for, in their order;
/// `None` when one of them holds a `'/'` but is no IPv4 network notation.
pub fn expand_hosts(hosts: &str) -> (r: Option<Vec<String>>)
    ensures
        r is None <==> exists|i: int|
            0 <= i < split_on(hosts@, ',').len() && is_bad_network(#[trigger] split_on(hosts@, ',')[i]),
        r matches Some(v) ==> string_texts(v@) == split_on(hosts@, ',').map_values(
            |h: Seq<char>| expansion(h),
        ).flatten(),
{
    let pieces = split_char(hosts, ',');
    let ghost p = split_on(hosts@, ',');
    let ghost e = p.map_values(|h: Seq<char>| expansion(h));
    let n = pieces.len();
    let mut out: Vec<String> = Vec::new();
    let mut i: usize = 0;
    while i < n
        invariant
            n == pieces@.len(),
            string_texts(pieces@) == p,
            p == split_on(hosts@, ','),
            e == p.map_values(|h: Seq<char>| expansion(h)),
            i <= n,
            forall|k: int| 0 <= k < i ==> !is_bad_network(#[trigger] p[k]),
            string_texts(out@) == e.take(i as int).flatten(),
        decreases n - i,
    {
        let piece = pieces[i].as_str();
        assert(p[i as int] == piece@);
        match try_expand_net(piece) {
            Some(mut v) => {
                let ghost before = out@;
                out.append(&mut v);
                proof {
                    e.take(i as int).lemma_flatten_push(e[i as int]);
                    assert(e.take(i + 1) =~= e.take(i as int).push(e[i as int]));
                    assert(string_texts(out@) =~= string_texts(before) + e[i as int]);
                }
            },
            None => {
                return None;
            },
        }
        i = i + 1;
    }
    assert(e.take(n as int) =~= e);
    Some(out)
}

/// Every pair of an element of `us` and an element of `vs`, the pairs of the
/// first element of `us` first and, with each element of `us`, the elements of
/// `vs` in their order.
pub open spec fn product<U, V>(us: Seq<U>, vs: Seq<V>) -> Seq<(U, V)>
    decreases us.len(),
{
    if us.len() == 0 {
        seq![]
    } else {
        product(us.drop_last(), vs) + vs.map_values(|v: V| (us.last(), v))
    }
}

/// The pair at position `i * |vs| + j` of the product is `(us[i], vs[j])`,
/// and the product has `|us| * |vs|` pairs.
pub proof fn lemma_product_index<U, V>(us: Seq<U>, vs: Seq<V>)
    ensures
        product(us, vs).len() == us.len() * vs.len(),
        forall|i: int, j: int|
            0 <= i < us.len() && 0 <= j < vs.len() ==> product(us, vs)[i * vs.len() + j] == (
            us[i],
            vs[j],
        ),
    decreases us.len(),
{
    if us.len() > 0 {
        let init = us.drop_last();
        lemma_product_index(init, vs);
        let n = init.len();
        assert(us.len() * vs.len() == n * vs.len() + vs.len()) by (nonlinear_arith)
            requires
                us.len() == n + 1,
        ;
        assert forall|i: int, j: int|
            0 <= i < us.len() && 0 <= j < vs.len() implies product(us, vs)[i * vs.len() + j] == (
            us[i],
            vs[j],
        ) by {
            if i < n {
                assert(i * vs.len() + j < n * vs.len()) by (nonlinear_arith)
                    requires
                        i < n,
                        j < vs.len(),
                ;
                assert(0 <= i * vs.len()) by (nonlinear_arith)
                    requires
                        0 <= i,
                ;
                assert(init[i] == us[i]);
            } else {
                assert(i * vs.len() == n * vs.len());
            }
        }
    }
}

/// Every pair of an element of `us` and an element of `vs` (see [`product`]).
pub fn cartesian<U: Copy, V: Copy>(us: &[U], vs: &[V]) -> (r: Vec<(U, V)>)
    ensures
        r@ == product(us@, vs@),
{
    let mut r: Vec<(U, V)> = Vec::new();
    let n = us.len();
    let m = vs.len();
    let mut i: usize = 0;
    while i < n
        invariant
            n == us@.len(),
            m == vs@.len(),
            i <= n,
            r@ == product(us@.take(i as int), vs@),
        decreases n - i,
    {
        let u = us[i];
        let ghost before = r@;
        let mut j: usize = 0;
        while j < m
            invariant
                n == us@.len(),
                m == vs@.len(),
                i < n,
                u == us@[i as int],
                j <= m,
                r@ == before + vs@.take(j as int).map_values(|v: V| (u, v)),
            decreases m - j,
        {
            r.push((u, vs[j]));
            assert(vs@.take(j + 1).map_values(|v: V| (u, v)) =~= vs@.take(j as int).map_values(
                |v: V| (u, v),
            ).push((u, vs@[j as int])));
            j = j + 1;
        }
        assert(us@.take(i + 1).drop_last() =~= us@.take(i as int));
        assert(vs@.take(m as int) =~= vs@);
        i = i + 1;
    }
    assert(us@.take(n as int) =~= us@);
    r
}

/// The host-and-port pairs to probe: every host with every port.
pub fn ping_targets<'a>(targets: &[&'a str], ports: &[u16]) -> (r: Vec<(&'a str, u16)>)
    ensures
        r@ == product(targets@, ports@),
{
    cartesian(targets, ports)
}

/// How long a connection attempt may take, in milliseconds.
pub const PING_TIMEOUT_MS: u64 = 3000;

/// The text `host:port` under which a port is probed.
pub fn ping_address(host: &str, port: u16) -> (s: String)
    ensures
        s@ == host@ + seq![':'] + decimal(port as nat),
{
    let mut s = host.to_owned();
    push_char(&mut s, ':');
    push_decimal(&mut s, port as u64);
    s
}

/// What came of the last step of probing a port.
pub enum PingEvent {
    /// The address was resolved.
    Resolved,
    /// The address could not be resolved, for the given reason.
    ResolveFailed(String),
    /// A connection was made.
    Connected,
    /// The connection was refused or failed.
    ConnectFailed,
    /// No connection was made in time.
    TimedOut,
}

/// What to do next when probing a port.
pub enum PingAction {
    /// Try to connect, giving up after the given number of milliseconds.
    Connect(u64),
    /// Stop, with the outcome: whether the port is open, or why it is unknown.
    Finish(Result<bool, Error>),
}

/// Decides the next step of probing a port: once the address resolves, try
/// to connect with a time limit; an open connection means an open port, a
/// failed one a closed port; a failed resolution or a timeout is an error.
pub fn next_ping_action(event: PingEvent) -> (a: PingAction)
    ensures
        match event {
            PingEvent::Resolved => a == PingAction::Connect(PING_TIMEOUT_MS),
            PingEvent::ResolveFailed(msg) => a == PingAction::Finish(Err(Error::IoError(msg))),
            PingEvent::Connected => a == PingAction::Finish(Ok(true)),
            PingEvent::ConnectFailed => a == PingAction::Finish(Ok(false)),
            PingEvent::TimedOut => a == PingAction::Finish(Err(Error::Timeout)),
        },
{
    match event {
        PingEvent::Resolved => PingAction::Connect(PING_TIMEOUT_MS),
        PingEvent::ResolveFailed(msg) => PingAction::Finish(Err(Error::IoError(msg))),
        PingEvent::Connected => PingAction::Finish(Ok(true)),
        PingEvent::ConnectFailed => PingAction::Finish(Ok(false)),
        PingEvent::TimedOut => PingAction::Finish(Err(Error::Timeout)),
    }
}

/// How a probe's outcome reads: an open port answered, a closed one refused.
pub fn identify(open: bool) -> (r: IdentificationResult)
    ensures
        open ==> r == IdentificationResult::NoWelcomeLine,
        !open ==> r == IdentificationResult::ConnexionRefused,
{
    if open {
        IdentificationResult::NoWelcomeLine
    } else {
        IdentificationResult::ConnexionRefused
    }
}

/// The line that reports the probe of `host:port`; `None` when only open
/// ports are reported and this one is not known to be open.
pub open spec fn report_text(
    host: Seq<char>,
    port: u16,
    result: Result<IdentificationResult, Error>,
    open_only: bool,
) -> Option<Seq<char>> {
    let target = host + seq![':'] + decimal(port as nat);
    match result {
        Ok(IdentificationResult::NoWelcomeLine) => Some(target + " is open"@),
        Ok(IdentificationResult::WelcomeLine(line)) => Some(target + " is open : "@ + line@),
        Ok(IdentificationResult::ConnexionRefused) => if open_only {
            None
        } else {
            Some(target + " is closed"@)
        },
        Err(Error::IoError(_)) => if open_only {
            None
        } else {
            Some(target + " is not a valid adress"@)
        },
        Err(Error::Timeout) => if open_only {
            None
        } else {
            Some(target + " timed out"@)
        },
        Err(_) => if open_only {
            None
        } else {
            Some(target + " -> error"@)
        },
    }
}

/// The port answered the probe.
pub open spec fn answered(result: Result<IdentificationResult, Error>) -> bool {
    match result {
        Ok(IdentificationResult::NoWelcomeLine) => true,
        Ok(IdentificationResult::WelcomeLine(_)) => true,
        _ => false,
    }
}

/// With only open ports asked for, exactly the ports that answered are
/// reported; otherwise every probe is.
pub proof fn lemma_open_only_reports_answers(
    host: Seq<char>,
    port: u16,
    result: Result<IdentificationResult, Error>,
)
    ensures
        report_text(host, port, result, true) is Some <==> answered(result),
        report_text(host, port, result, false) is Some,
{
}

/// A port that answered is reported the same way with or without the option
/// to report only open ports, and always as open: `host:port is open`,
/// followed by ` : ` and the welcome line when there is one. A port that
/// refused is reported as closed when every probe is reported.
pub proof fn lemma_open_ports_read_open(
    host: Seq<char>,
    port: u16,
    result: Result<IdentificationResult, Error>,
    open_only: bool,
)
    ensures
        answered(result) ==> report_text(host, port, result, true) == report_text(host, port, result, false),
        result matches Ok(IdentificationResult::NoWelcomeLine) ==> report_text(host, port, result, open_only)
            == Some(host + seq![':'] + decimal(port as nat) + " is open"@),
        result matches Ok(IdentificationResult::WelcomeLine(line)) ==> report_text(
            host,
            port,
            result,
            open_only,
        ) == Some(host + seq![':'] + decimal(port as nat) + " is open : "@ + line@),
        result matches Ok(IdentificationResult::ConnexionRefused) ==> report_text(host, port, result, false)
            == Some(host + seq![':'] + decimal(port as nat) + " is closed"@),
{
}

/// The line that reports the probe of `host:port` (see [`report_text`]).
pub fn report_line(
    host: &str,
    port: u16,
    result: &Result<IdentificationResult, Error>,
    open_only: bool,
) -> (r: Option<String>)
    ensures
        r matches Some(line) ==> report_text(host@, port, *result, open_only) == Some(line@),
        r is None ==> report_text(host@, port, *result, open_only) is None,
{
    let mut line = ping_address(host, port);
    match result {
        Ok(IdentificationResult::NoWelcomeLine) => {
            line.append(" is open");
        },
        Ok(IdentificationResult::WelcomeLine(welcome)) => {
            line.append(" is open : ");
            line.append(welcome.as_str());
        },
        Ok(IdentificationResult::ConnexionRefused) => {
            if open_only {
                return None;
            }
            line.append(" is closed");
        },
        Err(Error::IoError(_)) => {
            if open_only {
                return None;
            }
            line.append(" is not a valid adress");
        },
        Err(Error::Timeout) => {
            if open_only {
                return None;
            }
            line.append(" timed out");
        },
        Err(_) => {
            if open_only {
                return None;
            }
            line.append(" -> error");
        },
    }
    Some(line)
}

/// `s` is the text of a port number, 0 to 65535.
pub open spec fn is_port(s: Seq<char>) -> bool {
    unsigned_value(s) matches Some(v) && v <= 65535
}

/// The ports listed in `text`, separated by commas; `None` when a piece is
/// not a number from 0 to 65535.
pub fn parse_ports(text: &str) -> (r: Option<Vec<u16>>)
    ensures
        r is Some <==> forall|i: int|
            0 <= i < split_on(text@, ',').len() ==> is_port(#[trigger] split_on(text@, ',')[i]),
        r matches Some(ports) ==> ports.len() == split_on(text@, ',').len() && forall|i: int|
            0 <= i < ports.len() ==> unsigned_value(split_on(text@, ',')[i]) == Some(
                #[trigger] ports@[i] as nat,
            ),
{
    let pieces = split_char(text, ',');
    let ghost p = split_on(text@, ',');
    let n = pieces.len();
    let mut ports: Vec<u16> = Vec::new();
    let mut i: usize = 0;
    while i < n
        invariant
            n == pieces@.len(),
            string_texts(pieces@) == p,
            p == split_on(text@, ','),
            i <= n,
            ports@.len() == i,
            forall|k: int| 0 <= k < i ==> is_port(#[trigger] p[k]),
            forall|k: int| 0 <= k < i ==> unsigned_value(p[k]) == Some(#[trigger] ports@[k] as nat),
        decreases n - i,
    {
        let piece = pieces[i].as_str();
        assert(p[i as int] == piece@);
        match parse_unsigned(piece, 65535) {
            Some(v) => {
                ports.push(v as u16);
            },
            None => {
                return None;
            },
        }
        i = i + 1;
    }
    Some(ports)
}

} // verus!
