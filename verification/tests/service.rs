use cosmic_printers::service::{
    apply_queue_metadata, available_queue_name, creation_attributes, discovered_printer,
    discovered_queue_plan, find_printer_uri, job_query, permanent_printer_uri,
    sort_discovered_by_name, DiscoveredPrinter, DiscoveredRecord, JobFilter, QueueMetadata,
    ValueKind,
};
use cosmic_printers::{Error, OptionMap, PrinterEntry, PrinterStatus};

fn entry(id: &str, uri: &str) -> PrinterEntry {
    PrinterEntry {
        id: id.to_string(),
        name: id.to_string(),
        is_default: false,
        printer_uri: uri.to_string(),
        status: PrinterStatus::Ready,
        queue_status: String::new(),
        location: String::new(),
        model: String::new(),
        device_name: String::new(),
        web_page: None,
        driver_version: String::new(),
        paper_size_idx: 0,
        print_sides_idx: 0,
        options: OptionMap::new(),
        supplies: Vec::new(),
        paper_sizes: Vec::new(),
        print_sides: Vec::new(),
    }
}

#[test]
fn finds_printer_uri_by_id() {
    let printers = vec![entry("a", "ipp://x/a"), entry("b", "ipp://x/b"), entry("b", "ipp://x/b2")];
    assert_eq!(find_printer_uri(&printers, "b"), Ok("ipp://x/b".to_string()));
    assert_eq!(find_printer_uri(&printers, "c"), Err(Error::PrinterNotFound));
    assert_eq!(find_printer_uri(&Vec::new(), ""), Err(Error::PrinterNotFound));
}

#[test]
fn job_query_reads_filter() {
    let q = job_query("", "active");
    assert_eq!(q.printer, None);
    assert_eq!(q.filter, JobFilter::Active);
    let q = job_query("office", "completed");
    assert_eq!(q.printer, Some("office".to_string()));
    assert_eq!(q.filter, JobFilter::Completed);
    assert_eq!(job_query("x", "all").filter, JobFilter::All);
    assert_eq!(job_query("x", "").filter, JobFilter::All);
    assert_eq!(job_query("x", "Active").filter, JobFilter::All);
}

#[test]
fn metadata_fills_options() {
    let mut options = OptionMap::new();
    options.insert("printer-more-info".to_string(), "old".to_string());
    let meta = QueueMetadata {
        device_uuid: Some("urn:uuid:7".to_string()),
        printer_more_info: Some("http://p".to_string()),
    };
    apply_queue_metadata(&mut options, &meta);
    assert_eq!(options.get("device-uuid").map(String::as_str), Some("urn:uuid:7"));
    assert_eq!(options.get("printer-more-info").map(String::as_str), Some("http://p"));
    let mut untouched = OptionMap::new();
    apply_queue_metadata(&mut untouched, &QueueMetadata { device_uuid: None, printer_more_info: None });
    assert_eq!(untouched.len(), 0);
}

#[test]
fn discovered_printer_needs_device_uri() {
    assert!(discovered_printer("x".to_string(), None, None, None, None).is_none());
    let p = discovered_printer(
        "HP_Laser".to_string(),
        Some(String::new()),
        Some("Hall".to_string()),
        None,
        Some("ipp://hp.local/ipp/print".to_string()),
    )
    .unwrap();
    assert_eq!(p.id, "HP_Laser");
    assert_eq!(p.name, "HP_Laser");
    assert_eq!(p.device_uri, "ipp://hp.local/ipp/print");
    assert_eq!(p.location, "Hall");
    assert_eq!(p.model, "");
}

#[test]
fn queue_names_avoid_collisions() {
    let none: Vec<String> = Vec::new();
    assert_eq!(available_queue_name("HP LaserJet (Room 2)", &none), "HP_LaserJet__Room_2_");
    assert_eq!(available_queue_name("", &none), "printer");
    assert_eq!(available_queue_name("Über-Drucker.v2", &none), "_ber-Drucker.v2");
    let taken = vec!["printer".to_string(), "printer_2".to_string(), "printer_4".to_string()];
    assert_eq!(available_queue_name("", &taken), "printer_3");
    let many: Vec<String> = std::iter::once("q".to_string())
        .chain((2..=12).map(|i| format!("q_{i}")))
        .collect();
    assert_eq!(available_queue_name("q", &many), "q_13");
}

#[test]
fn creation_attributes_skip_empty_location() {
    let attrs = creation_attributes("ipp://d/x", "Desk", "");
    assert_eq!(attrs.len(), 2);
    assert_eq!(attrs[0].kind, ValueKind::Uri);
    assert_eq!(attrs[0].name, "device-uri");
    assert_eq!(attrs[0].value, "ipp://d/x");
    assert_eq!(attrs[1].kind, ValueKind::Text);
    assert_eq!(attrs[1].name, "printer-info");
    let attrs = creation_attributes("ipp://d/x", "Desk", "Room 1");
    assert_eq!(attrs.len(), 3);
    assert_eq!(attrs[2].name, "printer-location");
    assert_eq!(attrs[2].value, "Room 1");
    assert_eq!(permanent_printer_uri("Desk"), "ipp://localhost/printers/Desk");
}

#[test]
fn queue_names_use_safe_chars_only() {
    let taken = vec!["a_b".to_string()];
    for name in ["a b", "ä/ö:ü", "", "x.y-z_1", "a_b"] {
        let q = available_queue_name(name, &taken);
        assert!(!q.is_empty());
        assert!(q.chars().all(|c| c.is_ascii_alphanumeric() || c == '-' || c == '_' || c == '.'));
        assert!(!taken.contains(&q));
    }
    assert_eq!(available_queue_name("a b", &taken), "a_b_2");
}

fn record(id: &str, name: &str, info: Option<&str>, uri: Option<&str>) -> DiscoveredRecord {
    DiscoveredRecord {
        id: id.to_string(),
        name: name.to_string(),
        info: info.map(str::to_string),
        location: None,
        device_uri: uri.map(str::to_string),
    }
}

#[test]
fn discovered_queue_plan_decides_each_case() {
    let discovered = vec![
        record("HP@host", "HP Laser", None, Some("ipp://hp.local/ipp/print")),
        record("Bare@host", "Bare", Some("Front desk"), None),
        record("HP@host", "Second", None, Some("ipp://other/x")),
    ];
    let configured = vec!["HP_Laser".to_string()];
    assert!(matches!(
        discovered_queue_plan("Missing", &discovered, &configured),
        Err(Error::PrinterNotFound)
    ));
    assert!(matches!(
        discovered_queue_plan("Bare@host", &discovered, &configured),
        Err(Error::CupsFailed)
    ));
    let plan = discovered_queue_plan("HP@host", &discovered, &configured).unwrap();
    assert_eq!(plan.queue_name, "HP_Laser_2");
    assert_eq!(plan.device_uri, "ipp://hp.local/ipp/print");
    assert_eq!(plan.info, "HP Laser");
    assert_eq!(plan.location, "");

    let mut with_info = record("Desk", "Desk Jet", Some(""), Some("ipp://d/x"));
    with_info.location = Some("Room 4".to_string());
    let plan = discovered_queue_plan("Desk", &vec![with_info], &Vec::new()).unwrap();
    assert_eq!(plan.queue_name, "Desk_Jet");
    assert_eq!(plan.info, "");
    assert_eq!(plan.location, "Room 4");
}

fn found(name: &str, id: &str) -> DiscoveredPrinter {
    DiscoveredPrinter {
        id: id.to_string(),
        name: name.to_string(),
        device_uri: format!("ipp://{id}/"),
        location: String::new(),
        model: String::new(),
    }
}

#[test]
fn discovered_printers_sort_by_name_stably() {
    let sorted = sort_discovered_by_name(vec![
        found("Zeta", "z"),
        found("Alpha", "a1"),
        found("Mid", "m"),
        found("Alpha", "a2"),
        found("alpha", "a3"),
    ]);
    let ids: Vec<&str> = sorted.iter().map(|p| p.id.as_str()).collect();
    assert_eq!(ids, vec!["a1", "a2", "m", "z", "a3"]);
    assert!(sort_discovered_by_name(Vec::new()).is_empty());
}
