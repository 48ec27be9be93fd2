use bolt::config::{
    dispatch, normalize_host, Connection, Dispatch, DomainResolvedConfigs, HostPortProtocolKey,
    InitProtocol, ServerConfig, SiteSpecificConfig,
};
use bolt::matcher::hierarchy::DOMAIN_SEP;
use bolt::matcher::{NaiveMatcher, PathRouter, Slot, SuffixMatcher};

fn site(mount: &str) -> SiteSpecificConfig {
    let (router, _services) =
        PathRouter::builder(0u8).add_prefix(mount.to_string(), 1u8).build().unwrap();
    SiteSpecificConfig { router }
}

fn sites(domains: &[&str], default: Option<u64>, count: usize) -> DomainResolvedConfigs {
    let entries = domains.iter().enumerate().map(|(i, d)| (d.to_string(), Slot(i as u64))).collect();
    let fixed = SuffixMatcher::<DOMAIN_SEP>::build(entries).unwrap();
    DomainResolvedConfigs {
        matcher: NaiveMatcher::new(Vec::new(), Some(fixed), Vec::new(), default.map(Slot))
            .unwrap(),
        sites: (0..count).map(|i| site(&format!("/site{i}"))).collect(),
    }
}

fn plain(ip: u128, port: u16) -> Connection {
    Connection { local_ip: ip, local_port: port, is_tls: false, sni_hostname: None }
}

#[test]
fn host_is_normalised() {
    assert_eq!(normalize_host("Example.COM"), "example.com");
    assert_eq!(normalize_host("example.com."), "example.com");
    assert_eq!(normalize_host("example.com:8080"), "example.com");
    assert_eq!(normalize_host("Example.Com.:443"), "example.com");
    assert_eq!(normalize_host("example.com:"), "example.com");
    assert_eq!(normalize_host("example.com:80a"), "example.com:80a");
    assert_eq!(normalize_host("BÜCHER.example"), "bÜcher.example");
    assert_eq!(normalize_host(""), "");
    assert_eq!(normalize_host("8080"), "8080");
    assert_eq!(normalize_host("a..:1"), "a.");
}

#[test]
fn domains_resolve_to_sites() {
    let c = sites(&["example.com", "www.example.com"], None, 2);
    assert!(c.resolve("EXAMPLE.com:443").is_some());
    assert!(c.resolve("www.example.com.").is_some());
    assert!(c.resolve("evilexample.com").is_none());
}

#[test]
fn unknown_slot_is_no_site() {
    let c = sites(&["example.com"], Some(9), 1);
    assert!(c.resolve("example.com").is_some());
    assert!(c.resolve("other.org").is_none());
    let c = sites(&["example.com"], Some(0), 1);
    assert!(c.resolve("other.org").is_some());
}

#[test]
fn listeners_resolve_with_fallback() {
    let mut config = ServerConfig::new();
    assert!(config.resolve_unspecific(80, InitProtocol::Http).is_none());
    config.register(
        HostPortProtocolKey::AnyHost { port: 80, protocol: InitProtocol::Http },
        sites(&["any.example"], None, 1),
    );
    config.register(
        HostPortProtocolKey::Specific { ip: 1, port: 80, protocol: InitProtocol::Http },
        sites(&["one.example"], None, 1),
    );
    let any = config.resolve_unspecific(80, InitProtocol::Http).unwrap();
    assert!(any.resolve("any.example").is_some());
    assert!(any.resolve("one.example").is_none());
    let one = config.resolve_specific(1, 80, InitProtocol::Http).unwrap();
    assert!(one.resolve("one.example").is_some());
    assert!(config.resolve_specific(2, 80, InitProtocol::Http).is_none());
    let fallback = config.resolve_specific_with_fallback(2, 80, InitProtocol::Http).unwrap();
    assert!(fallback.resolve("any.example").is_some());
    let specific = config.resolve_specific_with_fallback(1, 80, InitProtocol::Http).unwrap();
    assert!(specific.resolve("one.example").is_some());
    assert!(config.resolve_specific_with_fallback(1, 80, InitProtocol::Tls).is_none());
    assert!(config.resolve_specific_with_fallback(1, 81, InitProtocol::Http).is_none());
}

#[test]
fn registering_again_replaces() {
    let mut config = ServerConfig::new();
    let key = HostPortProtocolKey::AnyHost { port: 443, protocol: InitProtocol::Tls };
    config.register(key, sites(&["old.example"], None, 1));
    config.register(key, sites(&["new.example"], None, 1));
    let c = config.resolve_unspecific(443, InitProtocol::Tls).unwrap();
    assert!(c.resolve("new.example").is_some());
    assert!(c.resolve("old.example").is_none());
}

#[test]
fn dispatch_outcomes() {
    let mut config = ServerConfig::new();
    config.register(
        HostPortProtocolKey::AnyHost { port: 80, protocol: InitProtocol::Http },
        sites(&["a.example", "b.example"], None, 2),
    );
    assert!(matches!(
        dispatch(&config, &plain(7, 81), "a.example", "/"),
        Dispatch::NoListener
    ));
    assert!(matches!(dispatch(&config, &plain(7, 80), "c.example", "/"), Dispatch::NoSite));
    assert!(matches!(
        dispatch(&config, &plain(7, 80), "a.example", "/site0/%zz"),
        Dispatch::BadRequest
    ));
    match dispatch(&config, &plain(7, 80), "A.Example:80", "/x/../site0/./file?q=1") {
        Dispatch::Route { index, last, path, .. } => {
            assert_eq!(index, 1);
            assert_eq!(last.end, 6);
            assert_eq!(path.sanitized_path(), "/site0/file?q=1");
            assert_eq!(path.total(), "/x/../site0/./file?q=1");
            assert!(!path.pure());
        }
        _ => panic!("expected a route"),
    }
    match dispatch(&config, &plain(7, 80), "b.example", "/site0/file") {
        Dispatch::Route { index, last, .. } => {
            assert_eq!(index, 0);
            assert_eq!(last.end, 0);
        }
        _ => panic!("expected the default route"),
    }
    match dispatch(&config, &plain(7, 80), "b.example", "/site1") {
        Dispatch::Route { index, last, path, .. } => {
            assert_eq!(index, 1);
            assert_eq!(last.end, 6);
            assert_eq!(path.total(), "/site1");
            assert!(path.pure());
        }
        _ => panic!("expected a route"),
    }
}

#[test]
fn dispatch_prefers_the_announced_name_on_tls() {
    let mut config = ServerConfig::new();
    config.register(
        HostPortProtocolKey::AnyHost { port: 443, protocol: InitProtocol::Tls },
        sites(&["a.example"], None, 1),
    );
    config.register(
        HostPortProtocolKey::AnyHost { port: 443, protocol: InitProtocol::Http },
        sites(&["a.example"], None, 1),
    );
    let tls = Connection {
        local_ip: 1,
        local_port: 443,
        is_tls: true,
        sni_hostname: Some("a.example".to_string()),
    };
    assert!(matches!(dispatch(&config, &tls, "other.example", "/"), Dispatch::Route { .. }));
    let not_tls = Connection { is_tls: false, ..tls };
    assert!(matches!(dispatch(&config, &not_tls, "other.example", "/"), Dispatch::NoSite));
    let silent = Connection { local_ip: 1, local_port: 443, is_tls: true, sni_hostname: None };
    assert!(matches!(dispatch(&config, &silent, "a.example", "/"), Dispatch::Route { .. }));
}
