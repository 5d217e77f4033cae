use cosmic_printers::uri::{uri_identity, web_page_from_device_uri};
use cosmic_printers::{parse_uri_endpoint, uri_prefix};

#[test]
fn endpoint_with_explicit_port() {
    assert_eq!(
        parse_uri_endpoint("ipp://Printer.Local:8631/ipp/print"),
        Some(("printer.local".to_string(), 8631))
    );
}

#[test]
fn endpoint_default_ports_by_scheme() {
    assert_eq!(parse_uri_endpoint("ipp://host/x"), Some(("host".to_string(), 631)));
    assert_eq!(parse_uri_endpoint("IPPS://host"), Some(("host".to_string(), 631)));
    assert_eq!(parse_uri_endpoint("http://host/"), Some(("host".to_string(), 631)));
    assert_eq!(parse_uri_endpoint("https://host/"), Some(("host".to_string(), 443)));
    assert_eq!(parse_uri_endpoint("socket://10.0.0.5"), Some(("10.0.0.5".to_string(), 9100)));
    assert_eq!(parse_uri_endpoint("lpd://host/queue"), Some(("host".to_string(), 515)));
}

#[test]
fn endpoint_unknown_scheme_needs_port() {
    assert_eq!(parse_uri_endpoint("usb://Vendor/Model"), None);
    assert_eq!(parse_uri_endpoint("dnssd://host:1234/x"), Some(("host".to_string(), 1234)));
}

#[test]
fn endpoint_rejects_missing_separator_and_empty_authority() {
    assert_eq!(parse_uri_endpoint("ipp:/host"), None);
    assert_eq!(parse_uri_endpoint("ipp:///path"), None);
    assert_eq!(parse_uri_endpoint("ipp://  /path"), None);
    assert_eq!(parse_uri_endpoint(""), None);
}

#[test]
fn endpoint_user_info_is_dropped() {
    assert_eq!(
        parse_uri_endpoint("ipp://user@pass@Host:631/x"),
        Some(("host".to_string(), 631))
    );
}

#[test]
fn endpoint_ipv6() {
    assert_eq!(
        parse_uri_endpoint("ipp://[FE80::1]:8000/ipp"),
        Some(("[fe80::1]".to_string(), 8000))
    );
    assert_eq!(parse_uri_endpoint("ipps://[::1]/ipp"), Some(("[::1]".to_string(), 631)));
    assert_eq!(parse_uri_endpoint("foo://[::1]/ipp"), None);
    assert_eq!(parse_uri_endpoint("ipp://[::1/ipp"), None);
    // a port that does not parse falls back to the scheme's default
    assert_eq!(parse_uri_endpoint("ipp://[::1]:x/ipp"), Some(("[::1]".to_string(), 631)));
}

#[test]
fn endpoint_bad_port_keeps_colon_in_host() {
    assert_eq!(
        parse_uri_endpoint("ipp://host:99999/x"),
        Some(("host:99999".to_string(), 631))
    );
    assert_eq!(parse_uri_endpoint("ipp://host:+42/x"), Some(("host".to_string(), 42)));
    assert_eq!(parse_uri_endpoint("ipp://host:65535"), Some(("host".to_string(), 65535)));
    assert_eq!(parse_uri_endpoint("foo://host:abc"), None);
}

#[test]
fn prefix_strips_query_fragment_and_slashes() {
    assert_eq!(uri_prefix("IPP://Host/Printers/A/?x=1#f"), "ipp://host/printers/a");
    assert_eq!(uri_prefix("ipp://host//"), "ipp://host");
    assert_eq!(uri_prefix("#frag"), "");
    assert_eq!(uri_prefix("already/lower"), "already/lower");
}

#[test]
fn prefix_is_idempotent() {
    for uri in ["IPP://Host/A//?q", "x", "", "a/b/#c/", "HTTP://H:80/"] {
        let once = uri_prefix(uri);
        assert_eq!(uri_prefix(&once), once);
    }
}

#[test]
fn identity_adds_ipp_default_port() {
    assert_eq!(uri_identity("ipp://Host/printers/a"), "ipp://host:631/printers/a");
    assert_eq!(uri_identity("ipps://host"), "ipps://host:631/");
    assert_eq!(uri_identity("ipp://host:8631/x"), "ipp://host:8631/x");
    assert_eq!(uri_identity("socket://host"), "socket://host/");
    assert_eq!(uri_identity("no-scheme/"), "no-scheme");
}

#[test]
fn web_page_from_host() {
    assert_eq!(
        web_page_from_device_uri("  ipp://admin@printer.lan:631/ipp/print "),
        Some("http://printer.lan".to_string())
    );
    assert_eq!(
        web_page_from_device_uri("socket://10.1.2.3:9100"),
        Some("http://10.1.2.3".to_string())
    );
    assert_eq!(web_page_from_device_uri("usb://HP/LaserJet"), None);
    assert_eq!(web_page_from_device_uri("IPP://host"), None);
    assert_eq!(web_page_from_device_uri("ipp:///x"), None);
    assert_eq!(web_page_from_device_uri("ipp://user@/x"), None);
    assert_eq!(web_page_from_device_uri("ipp://:631/x"), None);
    assert_eq!(web_page_from_device_uri("no uri"), None);
}

#[test]
fn identity_and_prefix_ignore_letter_case() {
    for uri in ["IPP://Host/Printers/A", "Socket://10.0.0.1:9100/", "USB://HP/X?Serial=Ab"] {
        let lower = uri.to_ascii_lowercase();
        assert_eq!(uri_identity(uri), uri_identity(&lower));
        assert_eq!(uri_prefix(uri), uri_prefix(&lower));
        assert!(!uri_prefix(uri).chars().any(|c| c.is_ascii_uppercase()));
    }
}

#[test]
fn identity_adds_ipp_default_port_to_ipv6_hosts() {
    assert_eq!(uri_identity("ipp://[fe80::1]/ipp/print"), "ipp://[fe80::1]:631/ipp/print");
    assert_eq!(uri_identity("ipps://[FE80::1]"), "ipps://[fe80::1]:631/");
    assert_eq!(uri_identity("ipp://[fe80::1]:8631/x"), "ipp://[fe80::1]:8631/x");
    assert_eq!(uri_identity("ipp://[fe80::1/x"), "ipp://[fe80::1/x");
    assert_eq!(uri_identity("ipp://[x]/p"), uri_identity("ipp://[x]:631/p"));
}

#[test]
fn endpoint_ignores_letter_case() {
    for uri in [
        "IPP://Printer.LAN:8631/ipp/print",
        "HTTPS://[FE80::AB]/x",
        "Socket://User@Host.Example",
        "LPD://Queue.Host:+515/q",
        "FOO://Host:abc/x",
    ] {
        let lower = uri.to_ascii_lowercase();
        assert_eq!(parse_uri_endpoint(uri), parse_uri_endpoint(&lower));
    }
    assert_eq!(
        parse_uri_endpoint("HTTPS://[FE80::AB]/x"),
        Some(("[fe80::ab]".to_string(), 443))
    );
}

#[test]
fn explicit_ipp_port_makes_no_difference() {
    for (short, long) in [
        ("ipp://host/ipp/print", "ipp://host:631/ipp/print"),
        ("ipps://Host.Local/", "ipps://Host.Local:631/"),
        ("ipp://[fe80::1]/x//", "ipp://[fe80::1]:631/x//"),
        ("ipp://user@host/q", "ipp://user@host:631/q"),
    ] {
        assert_eq!(uri_identity(short), uri_identity(long));
    }
    assert_eq!(uri_identity("ipps://Host.Local/"), "ipps://host.local:631/");
    assert_ne!(uri_identity("http://host/x"), uri_identity("http://host:631/x"));
}
