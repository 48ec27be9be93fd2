//! Which site answers a connection: configurations by listener, and by
//! domain within a listener.

use dashmap::DashMap;
use fxhash::FxBuildHasher;
use crate::matcher::composite::DomainMatcher;
use crate::matcher::router::{LastRouteMatch, PathRouter};
use crate::matcher::slot::{Matcher, Slot};
use crate::url::grammar::{is_canonical, parse_spec, path_text, Parsed};
use crate::url::path::UrlPath;
use vstd::utf8::{decode_utf8, encode_utf8};
use crate::text::{push_char, to_chars};
use vstd::prelude::*;

verus! {

/// The `dashmap` crate's concurrent map, declared so that it can stand in
/// fields and signatures; nothing of its inside is known.
#[verifier::external_type_specification]
#[verifier::external_body]
#[verifier::reject_recursive_types(K)]
#[verifier::reject_recursive_types(V)]
#[verifier::reject_recursive_types(S)]
pub struct ExDashMap<K, V, S>(DashMap<K, V, S>);

/// The `fxhash` crate's hasher, declared for the type of the map.
#[verifier::external_type_specification]
#[verifier::external_body]
pub struct ExFxHasher(fxhash::FxHasher);

/// The standard library's default builder of hashers, declared for the type
/// of the map.
#[verifier::external_type_specification]
#[verifier::external_body]
#[verifier::reject_recursive_types(H)]
pub struct ExBuildHasherDefault<H>(core::hash::BuildHasherDefault<H>);

/// The key of a listener as the table holds it: whether any host address
/// counts, the host address, the port, and whether the protocol is TLS.
pub type TableKey = (bool, u128, u16, bool);

/// What a listener table holds: the number under each key.
pub uninterp spec fn listener_entries(t: DashMap<TableKey, u64, FxBuildHasher>) -> Map<
    TableKey,
    u64,
>;

/// The empty mapping.
pub open spec fn no_listeners() -> Map<TableKey, u64> {
    Map::empty()
}

/// An empty table, by `DashMap::with_hasher`.
#[verifier::external_body]
pub(crate) fn listeners_new() -> (t: DashMap<TableKey, u64, FxBuildHasher>)
    ensures
        listener_entries(t) == no_listeners(),
{
    DashMap::with_hasher(FxBuildHasher::default())
}

/// Puts `value` under `key`, by `DashMap::insert`: what was under the key
/// before is replaced, every other key keeps what it had.
#[verifier::external_body]
pub(crate) fn listeners_insert(
    t: &mut DashMap<TableKey, u64, FxBuildHasher>,
    key: TableKey,
    value: u64,
)
    ensures
        listener_entries(*final(t)) == listener_entries(*old(t)).insert(key, value),
{
    let _ = t.insert(key, value);
}

/// What is under `key`, by `DashMap::get`.
#[verifier::external_body]
pub(crate) fn listeners_get(t: &DashMap<TableKey, u64, FxBuildHasher>, key: TableKey) -> (r:
    Option<u64>)
    ensures
        r == if listener_entries(*t).dom().contains(key) {
            Some(listener_entries(*t)[key])
        } else {
            None
        },
{
    t.get(&key).map(|entry| *entry.value())
}

/// The protocol that a listener starts a connection with.
#[derive(Copy, Clone, Debug, Hash, PartialEq, Eq, Structural)]
#[non_exhaustive]
pub enum InitProtocol {
    Http,
    Tls,
}

/// What a listener is known by: its port and protocol, and its local address
/// unless it listens on every address. An address is held as the 128 bits of
/// its IPv6 form.
#[derive(Copy, Clone, Debug, Hash, PartialEq, Eq, Structural)]
pub enum HostPortProtocolKey {
    AnyHost { port: u16, protocol: InitProtocol },
    Specific { ip: u128, port: u16, protocol: InitProtocol },
}

impl HostPortProtocolKey {
    /// The key as the table holds it.
    pub open spec fn table_key(self) -> TableKey {
        match self {
            HostPortProtocolKey::AnyHost { port, protocol } => (
                true,
                0u128,
                port,
                protocol is Tls,
            ),
            HostPortProtocolKey::Specific { ip, port, protocol } => (
                false,
                ip,
                port,
                protocol is Tls,
            ),
        }
    }

    /// The key as the table holds it.
    pub fn key(self) -> (k: TableKey)
        ensures
            k == self.table_key(),
    {
        match self {
            HostPortProtocolKey::AnyHost { port, protocol } => (
                true,
                0u128,
                port,
                matches!(protocol, InitProtocol::Tls),
            ),
            HostPortProtocolKey::Specific { ip, port, protocol } => (
                false,
                ip,
                port,
                matches!(protocol, InitProtocol::Tls),
            ),
        }
    }
}

/// The configuration of one site: the router for its paths.
pub struct SiteSpecificConfig {
    pub router: PathRouter,
}

/// The sites of one listener: a matcher from host names to slots, and the
/// site of each slot.
pub struct DomainResolvedConfigs {
    pub matcher: DomainMatcher,
    pub sites: Vec<SiteSpecificConfig>,
}

/// ASCII upper-case letters become lower-case, nothing else changes.
pub open spec fn lower(c: char) -> char {
    if 'A' <= c && c <= 'Z' {
        ((c as u32) + 32) as char
    } else {
        c
    }
}

/// Where the port of a host starts: at the last `:` if only digits follow
/// it, else at the end.
pub open spec fn port_start(host: Seq<char>, from: int) -> int
    decreases from,
{
    if from <= 0 {
        host.len() as int
    } else if host[from - 1] == ':' {
        from - 1
    } else if '0' <= host[from - 1] && host[from - 1] <= '9' {
        port_start(host, from - 1)
    } else {
        host.len() as int
    }
}

/// The host name that domains are matched against: without the port,
/// without one trailing dot, and in lower case.
pub open spec fn normal_host(host: Seq<char>) -> Seq<char> {
    let end = port_start(host, host.len() as int);
    let end = if end > 0 && host[end - 1] == '.' {
        end - 1
    } else {
        end
    };
    Seq::new(end as nat, |i: int| lower(host[i]))
}

/// The host name that domains are matched against: without the port,
/// without one trailing dot, and in lower case.
pub fn normalize_host(host: &str) -> (r: String)
    ensures
        r@ == normal_host(host@),
{
    let chars = to_chars(host);
    let n: usize = chars.len();
    let mut end: usize = n;
    let mut from: usize = n;
    while from > 0
        invariant_except_break
            end == n,
            port_start(chars@, n as int) == port_start(chars@, from as int),
        invariant
            from <= n,
            n == chars@.len(),
            end <= n,
        ensures
            end == port_start(chars@, n as int),
        decreases from,
    {
        let c: char = chars[from - 1];
        if c == ':' {
            end = from - 1;
            break ;
        } else if '0' <= c && c <= '9' {
            from = from - 1;
        } else {
            break ;
        }
    }
    assert(end == port_start(chars@, n as int));
    if end > 0 && chars[end - 1] == '.' {
        end = end - 1;
    }
    let mut r = String::new();
    let mut i: usize = 0;
    while i < end
        invariant
            i <= end <= n,
            n == chars@.len(),
            r@.len() == i,
            forall|j: int| 0 <= j < i ==> #[trigger] r@[j] == lower(chars@[j]),
        decreases end - i,
    {
        let c: char = chars[i];
        let l: char = if 'A' <= c && c <= 'Z' {
            (c as u8 + 32) as char
        } else {
            c
        };
        push_char(&mut r, l);
        i = i + 1;
    }
    assert(r@ =~= normal_host(host@));
    r
}

impl DomainResolvedConfigs {
    /// The site that a slot stands for.
    pub open spec fn site_of(&self, slot: Option<Slot>) -> Option<SiteSpecificConfig> {
        match slot {
            Some(s) => if s.0 < self.sites@.len() {
                Some(self.sites@[s.0 as int])
            } else {
                None
            },
            None => None,
        }
    }

    /// The site for a host name as the request gave it: the site of the
    /// slot that the matcher answers for the normalised name.
    pub fn resolve(&self, domain: &str) -> (r: Option<&SiteSpecificConfig>)
        ensures
            r is Some == self.site_of(self.matcher.answer(normal_host(domain@))) is Some,
            r matches Some(site) ==> Some(*site) == self.site_of(
                self.matcher.answer(normal_host(domain@)),
            ),
    {
        let host = normalize_host(domain);
        match self.matcher.match_(host.as_str()) {
            Some(slot) => {
                if slot.0 < self.sites.len() as u64 {
                    Some(&self.sites[slot.0 as usize])
                } else {
                    None
                }
            },
            None => None,
        }
    }
}

/// The configurations of all listeners.
pub struct ServerConfig {
    services: DashMap<TableKey, u64, FxBuildHasher>,
    configs: Vec<DomainResolvedConfigs>,
}

impl ServerConfig {
    /// The number of the configuration of each registered listener.
    pub closed spec fn listeners(&self) -> Map<TableKey, u64> {
        listener_entries(self.services)
    }

    /// The configurations, by number.
    pub closed spec fn configs(&self) -> Seq<DomainResolvedConfigs> {
        self.configs@
    }

    /// The configuration registered for a key, if there is one.
    pub open spec fn lookup(&self, key: HostPortProtocolKey) -> Option<DomainResolvedConfigs> {
        if self.listeners().dom().contains(key.table_key()) && self.listeners()[key.table_key()]
            < self.configs().len() {
            Some(self.configs()[self.listeners()[key.table_key()] as int])
        } else {
            None
        }
    }

    /// A configuration with no listener.
    pub fn new() -> (c: Self)
        ensures
            c.listeners() == no_listeners(),
            c.configs().len() == 0,
    {
        ServerConfig { services: listeners_new(), configs: Vec::new() }
    }

    /// Registers the configuration of a listener; it replaces what the
    /// listener had.
    pub fn register(&mut self, key: HostPortProtocolKey, config: DomainResolvedConfigs)
        ensures
            final(self).configs() == old(self).configs().push(config),
            final(self).listeners() == old(self).listeners().insert(
                key.table_key(),
                old(self).configs().len() as u64,
            ),
    {
        let number: usize = self.configs.len();
        self.configs.push(config);
        listeners_insert(&mut self.services, key.key(), number as u64);
    }

    fn get(&self, key: HostPortProtocolKey) -> (r: Option<&DomainResolvedConfigs>)
        ensures
            r is Some == self.lookup(key) is Some,
            r matches Some(c) ==> Some(*c) == self.lookup(key),
    {
        match listeners_get(&self.services, key.key()) {
            Some(number) => {
                if number < self.configs.len() as u64 {
                    Some(&self.configs[number as usize])
                } else {
                    None
                }
            },
            None => None,
        }
    }

    /// The configuration of the listener on every address with this port
    /// and protocol.
    pub fn resolve_unspecific(&self, port: u16, protocol: InitProtocol) -> (r: Option<
        &DomainResolvedConfigs,
    >)
        ensures
            r is Some == self.lookup(HostPortProtocolKey::AnyHost { port, protocol }) is Some,
            r matches Some(c) ==> Some(*c) == self.lookup(
                HostPortProtocolKey::AnyHost { port, protocol },
            ),
    {
        self.get(HostPortProtocolKey::AnyHost { port, protocol })
    }

    /// The configuration of the listener on this address, port and protocol.
    pub fn resolve_specific(&self, ip: u128, port: u16, protocol: InitProtocol) -> (r: Option<
        &DomainResolvedConfigs,
    >)
        ensures
            r is Some == self.lookup(HostPortProtocolKey::Specific { ip, port, protocol })
                is Some,
            r matches Some(c) ==> Some(*c) == self.lookup(
                HostPortProtocolKey::Specific { ip, port, protocol },
            ),
    {
        self.get(HostPortProtocolKey::Specific { ip, port, protocol })
    }

    /// The configuration of the listener on this address, or else of the
    /// listener on every address.
    pub fn resolve_specific_with_fallback(&self, ip: u128, port: u16, protocol: InitProtocol) -> (r:
        Option<&DomainResolvedConfigs>)
        ensures
            r is Some == self.fallback(ip, port, protocol) is Some,
            r matches Some(c) ==> Some(*c) == self.fallback(ip, port, protocol),
    {
        match self.resolve_specific(ip, port, protocol) {
            Some(c) => Some(c),
            None => self.resolve_unspecific(port, protocol),
        }
    }

    /// The specific listener's configuration if there is one, else that of
    /// the listener on every address.
    pub open spec fn fallback(&self, ip: u128, port: u16, protocol: InitProtocol) -> Option<
        DomainResolvedConfigs,
    > {
        match self.lookup(HostPortProtocolKey::Specific { ip, port, protocol }) {
            Some(c) => Some(c),
            None => self.lookup(HostPortProtocolKey::AnyHost { port, protocol }),
        }
    }
}

/// What the dispatch core is told of a connection.
pub struct Connection {
    /// The local address, as the 128 bits of its IPv6 form.
    pub local_ip: u128,
    pub local_port: u16,
    pub is_tls: bool,
    /// The host name that the client announced in the TLS handshake.
    pub sni_hostname: Option<String>,
}

/// What becomes of a request.
pub enum Dispatch<'a> {
    /// No listener is configured for the connection.
    NoListener,
    /// The listener has no site for the host, and no default.
    NoSite,
    /// The request target is outside the grammar: status 400.
    BadRequest,
    /// The request goes to the service `index` of `site`; index 0 is the
    /// site's default service, which answers with status 404.
    Route { site: &'a SiteSpecificConfig, index: usize, last: LastRouteMatch, path: UrlPath },
}

/// What becomes of a request, as mathematics.
pub enum Outcome {
    NoListener,
    NoSite,
    BadRequest,
    /// The site and the service picked in it, with the path as it was
    /// parsed: its text, its segments and query, and whether the text was
    /// canonical already.
    Route {
        site: SiteSpecificConfig,
        index: int,
        end: int,
        text: Seq<char>,
        parsed: Parsed,
        pure: bool,
    },
}

/// The model of a dispatch.
pub open spec fn outcome_of(d: Dispatch) -> Outcome {
    match d {
        Dispatch::NoListener => Outcome::NoListener,
        Dispatch::NoSite => Outcome::NoSite,
        Dispatch::BadRequest => Outcome::BadRequest,
        Dispatch::Route { site, index, last, path } => Outcome::Route {
            site: *site,
            index: index as int,
            end: last.end as int,
            text: path.text(),
            parsed: path.parsed(),
            pure: path.is_pure(),
        },
    }
}

/// The protocol of a connection.
pub open spec fn protocol_of(is_tls: bool) -> InitProtocol {
    if is_tls {
        InitProtocol::Tls
    } else {
        InitProtocol::Http
    }
}

/// The host that decides the site: the name from the TLS handshake where
/// there is one, else the host of the request.
pub open spec fn deciding_host(conn: Connection, host: Seq<char>) -> Seq<char> {
    if conn.is_tls && conn.sni_hostname is Some {
        conn.sni_hostname.unwrap()@
    } else {
        host
    }
}

/// What becomes of a request for `target` to `host` on a connection: the
/// listener is looked up by address, then on every address; the site by the
/// deciding host; the target is parsed; and the site's router picks the
/// service for the canonical path.
pub open spec fn dispatch_spec(
    config: &ServerConfig,
    conn: Connection,
    host: Seq<char>,
    target: Seq<char>,
) -> Outcome {
    match config.fallback(conn.local_ip, conn.local_port, protocol_of(conn.is_tls)) {
        None => Outcome::NoListener,
        Some(listener) => match listener.site_of(
            listener.matcher.answer(normal_host(deciding_host(conn, host))),
        ) {
            None => Outcome::NoSite,
            Some(site) => match parse_spec(encode_utf8(target)) {
                None => Outcome::BadRequest,
                Some(parsed) => {
                    let route = site.router.route(decode_utf8(path_text(parsed.segments)));
                    Outcome::Route {
                        site,
                        index: route.0,
                        end: route.1,
                        text: target,
                        parsed,
                        pure: is_canonical(encode_utf8(target)),
                    }
                },
            },
        },
    }
}

/// Decides what becomes of a request for `target` to `host` that came in on
/// `conn`.
pub fn dispatch<'a>(config: &'a ServerConfig, conn: &Connection, host: &str, target: &str) -> (r:
    Dispatch<'a>)
    ensures
        outcome_of(r) == dispatch_spec(config, *conn, host@, target@),
{
    let protocol = if conn.is_tls {
        InitProtocol::Tls
    } else {
        InitProtocol::Http
    };
    let listener = match config.resolve_specific_with_fallback(
        conn.local_ip,
        conn.local_port,
        protocol,
    ) {
        Some(listener) => listener,
        None => {
            return Dispatch::NoListener;
        },
    };
    let site = match &conn.sni_hostname {
        Some(name) => {
            if conn.is_tls {
                listener.resolve(name.as_str())
            } else {
                listener.resolve(host)
            }
        },
        None => listener.resolve(host),
    };
    let site = match site {
        Some(site) => site,
        None => {
            return Dispatch::NoSite;
        },
    };
    let path = match UrlPath::parse(target) {
        Ok(path) => path,
        Err(_) => {
            return Dispatch::BadRequest;
        },
    };
    let canonical = path.sanitized_segments();
    proof {
        vstd::utf8::encode_utf8_decode_utf8(canonical@);
    }
    let picked = site.router.pick_immu(canonical.as_str());
    Dispatch::Route { site, index: picked.0, last: picked.1, path }
}

} // verus!
