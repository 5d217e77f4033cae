use cosmic_printers::grouping::is_configured;
use cosmic_printers::{
    group_printers, DeviceIdentity, OptionMap, PrinterEntry, PrinterStatus,
};

fn entry(id: &str, options: &[(&str, &str)]) -> PrinterEntry {
    let mut map = OptionMap::new();
    for (k, v) in options {
        map.insert(k.to_string(), v.to_string());
    }
    PrinterEntry {
        id: id.to_string(),
        name: id.to_string(),
        is_default: false,
        printer_uri: format!("ipp://localhost/printers/{id}"),
        status: PrinterStatus::Ready,
        queue_status: String::new(),
        location: String::new(),
        model: String::new(),
        device_name: String::new(),
        web_page: None,
        driver_version: String::new(),
        paper_size_idx: 0,
        print_sides_idx: 0,
        options: map,
        supplies: Vec::new(),
        paper_sizes: Vec::new(),
        print_sides: Vec::new(),
    }
}

fn ids(device: &cosmic_printers::GroupedDevice) -> Vec<String> {
    device.queues().iter().map(|q| q.id.clone()).collect()
}

#[test]
fn identity_normalizes_fields() {
    let id = DeviceIdentity::new(
        Some("  ABC-123 "),
        Some("ipp://Printer.lan/ipp/print"),
        Some("ipp://localhost/printers/x"),
    );
    assert_eq!(id.uuid(), Some("abc-123"));
    assert_eq!(id.hostname(), Some("printer.lan"));
    assert_eq!(id.port(), Some(631));
    assert_eq!(id.uri(), Some("ipp://printer.lan:631/ipp/print"));
}

#[test]
fn identity_blank_uuid_and_fallback_uri() {
    let id = DeviceIdentity::new(Some("   "), None, Some("IPP://LocalHost/printers/x/"));
    assert_eq!(id.uuid(), None);
    assert_eq!(id.hostname(), None);
    assert_eq!(id.port(), None);
    assert_eq!(id.uri(), Some("ipp://localhost:631/printers/x"));
}

#[test]
fn matching_prefers_uuid() {
    let a = DeviceIdentity::new(Some("u1"), Some("ipp://a/x"), None);
    let b = DeviceIdentity::new(Some("U1"), Some("ipp://b/x"), None);
    let c = DeviceIdentity::new(Some("u2"), Some("ipp://a/x"), None);
    let d = DeviceIdentity::new(None, Some("ipp://a/x"), None);
    assert!(a.matches(&b));
    assert!(!a.matches(&c));
    // one side with a UUID never matches a side without one
    assert!(!a.matches(&d));
    assert!(!d.matches(&a));
}

#[test]
fn matching_by_endpoint_then_uri() {
    let a = DeviceIdentity::new(None, Some("ipp://host:631/one"), None);
    let b = DeviceIdentity::new(None, Some("ipps://HOST/two"), None);
    assert!(a.matches(&b));
    let c = DeviceIdentity::new(None, Some("usb://HP/Model?serial=1"), None);
    let d = DeviceIdentity::new(None, Some("USB://hp/model?serial=2"), None);
    assert!(c.matches(&d));
    let e = DeviceIdentity::new(None, None, None);
    assert!(!e.matches(&e));
}

#[test]
fn matching_is_symmetric() {
    let all = [
        DeviceIdentity::new(Some("u"), None, None),
        DeviceIdentity::new(None, Some("ipp://h/x"), None),
        DeviceIdentity::new(None, Some("usb://x"), None),
        DeviceIdentity::new(None, None, Some("ipp://h/x")),
        DeviceIdentity::new(None, None, None),
    ];
    for a in &all {
        for b in &all {
            assert_eq!(a.matches(b), b.matches(a));
        }
    }
}

#[test]
fn groups_same_device_and_sorts_queues() {
    let printers = vec![
        entry("zeta", &[("device-uri", "ipp://printer.lan/ipp/print")]),
        entry("alpha", &[("device-uri", "ipps://PRINTER.lan:631/ipp/secure")]),
        entry("other", &[("device-uri", "socket://10.0.0.9")]),
        entry("beta", &[("device-uri", "ipp://printer.lan/ipp/fax")]),
    ];
    let devices = group_printers(printers);
    assert_eq!(devices.len(), 2);
    assert_eq!(ids(&devices[0]), vec!["alpha", "beta", "zeta"]);
    assert_eq!(devices[0].hostname(), Some("printer.lan"));
    assert_eq!(devices[0].port(), Some(631));
    assert_eq!(devices[0].uuid(), None);
    assert_eq!(devices[0].device_uri_prefix(), Some("ipp://printer.lan:631/ipp/print"));
    assert_eq!(ids(&devices[1]), vec!["other"]);
    assert_eq!(devices[1].port(), Some(9100));
}

#[test]
fn same_uuid_same_group_different_uuid_apart() {
    let printers = vec![
        entry("a", &[("printer-uuid", "urn:uuid:1"), ("device-uri", "ipp://x/1")]),
        entry("b", &[("printer-uuid", "urn:uuid:2"), ("device-uri", "ipp://x/1")]),
        entry("c", &[("printer-uuid", "URN:UUID:1 "), ("device-uri", "ipp://y/1")]),
    ];
    let devices = group_printers(printers);
    assert_eq!(devices.len(), 2);
    assert_eq!(ids(&devices[0]), vec!["a", "c"]);
    assert_eq!(devices[0].uuid(), Some("urn:uuid:1"));
    assert_eq!(ids(&devices[1]), vec!["b"]);
    assert_eq!(devices[1].uuid(), Some("urn:uuid:2"));
}

#[test]
fn group_fills_missing_identity_fields() {
    let printers = vec![
        entry("first", &[("printer-uri-supported", "ipp://localhost/printers/q")]),
        entry(
            "second",
            &[
                ("printer-uri-supported", "ipp://localhost:631/printers/q"),
            ],
        ),
    ];
    let devices = group_printers(printers);
    assert_eq!(devices.len(), 1);
    assert_eq!(ids(&devices[0]), vec!["first", "second"]);
    assert_eq!(devices[0].device_uri_prefix(), Some("ipp://localhost:631/printers/q"));
    assert_eq!(devices[0].hostname(), None);
}

#[test]
fn queues_without_identity_stay_apart() {
    let printers = vec![entry("b", &[]), entry("a", &[]), entry("c", &[("device-uri", "  ")])];
    let devices = group_printers(printers);
    assert_eq!(devices.len(), 3);
    assert_eq!(ids(&devices[0]), vec!["b"]);
    assert_eq!(ids(&devices[1]), vec!["a"]);
    assert_eq!(ids(&devices[2]), vec!["c"]);
}

#[test]
fn grouping_keeps_every_queue_once() {
    let printers = vec![
        entry("d", &[("device-uri", "ipp://h/1")]),
        entry("b", &[("device-uri", "ipp://h/2")]),
        entry("b", &[("device-uri", "ipp://g/2")]),
        entry("a", &[]),
        entry("c", &[("device-uri", "ipp://g/3")]),
    ];
    let devices = group_printers(printers);
    let mut all: Vec<String> = devices.iter().flat_map(ids).collect();
    all.sort();
    assert_eq!(all, vec!["a", "b", "b", "c", "d"]);
    assert!(devices.iter().all(|d| !d.queues().is_empty()));
    assert_eq!(group_printers(Vec::new()).len(), 0);
}

#[test]
fn sort_is_stable_for_equal_ids() {
    let mut first = entry("same", &[("device-uri", "ipp://h/1")]);
    first.name = "first".to_string();
    let mut second = entry("same", &[("device-uri", "ipp://h/2")]);
    second.name = "second".to_string();
    let early = entry("early", &[("device-uri", "ipp://h/3")]);
    let devices = group_printers(vec![first, second, early]);
    let names: Vec<String> = devices[0].queues().iter().map(|q| q.name.clone()).collect();
    assert_eq!(names, vec!["early", "first", "second"]);
}

#[test]
fn status_labels() {
    assert_eq!(PrinterStatus::Ready.label(), "printer-ready");
    assert_eq!(PrinterStatus::Offline.label(), "printer-offline");
    assert_eq!(PrinterStatus::LowToner.label(), "printer-low-toner");
}

#[test]
fn device_without_host_has_neither_hostname_nor_port() {
    let devices = group_printers(vec![
        entry("usb", &[("device-uri", "usb://HP/LaserJet?serial=1")]),
        entry("bare", &[]),
    ]);
    assert_eq!(devices.len(), 2);
    for device in &devices {
        assert_eq!(device.hostname(), None);
        assert_eq!(device.port(), None);
    }
    assert_eq!(devices[0].device_uri_prefix(), Some("usb://hp/laserjet"));
}

#[test]
fn group_host_comes_from_earliest_queue_that_has_one() {
    let devices = group_printers(vec![
        entry("a", &[("printer-uuid", "u-1")]),
        entry("b", &[("printer-uuid", "U-1"), ("device-uri", "ipp://First.Host:8631/x")]),
        entry("c", &[("printer-uuid", "u-1"), ("device-uri", "ipp://second.host/y")]),
    ]);
    assert_eq!(devices.len(), 1);
    assert_eq!(ids(&devices[0]), vec!["a", "b", "c"]);
    assert_eq!(devices[0].uuid(), Some("u-1"));
    assert_eq!(devices[0].hostname(), Some("first.host"));
    assert_eq!(devices[0].port(), Some(8631));
    assert_eq!(devices[0].device_uri_prefix(), Some("ipp://first.host:8631/x"));
}

#[test]
fn device_hostnames_are_lower_case() {
    let devices = group_printers(vec![
        entry("a", &[("device-uri", "IPPS://MixedCase.Example/x")]),
        entry("b", &[("device-uri", "socket://[FE80::A]:9100")]),
    ]);
    assert_eq!(devices.len(), 2);
    assert_eq!(devices[0].hostname(), Some("mixedcase.example"));
    assert_eq!(devices[0].port(), Some(631));
    assert_eq!(devices[1].hostname(), Some("[fe80::a]"));
    assert_eq!(devices[1].port(), Some(9100));
}

#[test]
fn queues_of_a_device_without_uuid_share_its_host_and_port() {
    let uris = [
        "ipp://printer.lan/a",
        "IPPS://Printer.LAN:631/b",
        "usb://HP/x",
        "ipp://other.lan:8631/c",
        "http://printer.lan:631/d",
    ];
    let printers = uris
        .iter()
        .enumerate()
        .map(|(i, uri)| entry(&format!("q{i}"), &[("device-uri", uri)]))
        .collect();
    let devices = group_printers(printers);
    assert_eq!(devices.len(), 3);
    for device in &devices {
        assert_eq!(device.uuid(), None);
        for queue in device.queues() {
            let uri = queue.options.get("device-uri").map(String::as_str);
            let identity = DeviceIdentity::new(None, uri, None);
            if identity.port().is_some() {
                assert_eq!(identity.hostname(), device.hostname());
                assert_eq!(identity.port(), device.port());
            }
        }
    }
}

#[test]
fn queues_share_their_device_uuid() {
    let devices = group_printers(vec![
        entry("a", &[("printer-uuid", "  Urn:UUID:7 "), ("device-uri", "ipp://h/1")]),
        entry("b", &[("device-uri", "ipp://h/2")]),
        entry("c", &[("printer-uuid", "urn:uuid:7"), ("device-uri", "ipp://k/3")]),
        entry("d", &[("printer-uuid", "  "), ("device-uri", "ipp://h/4")]),
    ]);
    assert_eq!(devices.len(), 2);
    assert_eq!(ids(&devices[0]), vec!["a", "c"]);
    assert_eq!(devices[0].uuid(), Some("urn:uuid:7"));
    assert_eq!(ids(&devices[1]), vec!["b", "d"]);
    assert_eq!(devices[1].uuid(), None);
    for device in &devices {
        for queue in device.queues() {
            let uuid = queue.options.get("printer-uuid").map(String::as_str);
            assert_eq!(DeviceIdentity::new(uuid, None, None).uuid(), device.uuid());
        }
    }
}

#[test]
fn configured_check_uses_identity_matching() {
    let configured = vec![
        DeviceIdentity::new(Some("u1"), None, None),
        DeviceIdentity::new(None, Some("ipp://office.lan/ipp/print"), None),
    ];
    assert!(is_configured(&DeviceIdentity::new(Some("U1 "), None, None), &configured));
    assert!(is_configured(&DeviceIdentity::new(None, Some("ipps://OFFICE.lan:631/x"), None), &configured));
    assert!(!is_configured(&DeviceIdentity::new(None, Some("ipp://other.lan/x"), None), &configured));
    assert!(!is_configured(&DeviceIdentity::new(Some("u2"), None, None), &configured));
    assert!(!is_configured(&DeviceIdentity::new(Some("u1"), None, None), &Vec::new()));
}
