use cosmic_printers::queues::{
    attr_values, destination_to_printer_entry, is_printer_class, join_values, local_printer_uri,
    missing_attrs, option_values, printer_attributes, printer_status, record_attr_values,
    record_replies, split_list, web_page_from_options, AttrReading, QueueRecord, QueueState,
};
use cosmic_printers::{DeviceIdentity, OptionMap, PrinterStatus};

fn options(pairs: &[(&str, &str)]) -> OptionMap {
    let mut map = OptionMap::new();
    for (k, v) in pairs {
        map.insert(k.to_string(), v.to_string());
    }
    map
}

fn strings(v: &[&str]) -> Vec<String> {
    v.iter().map(|s| s.to_string()).collect()
}

#[test]
fn option_map_insert_get() {
    let mut m = OptionMap::new();
    assert_eq!(m.len(), 0);
    m.insert("a".to_string(), "1".to_string());
    m.insert("b".to_string(), "2".to_string());
    m.insert("a".to_string(), "3".to_string());
    assert_eq!(m.len(), 2);
    assert_eq!(m.get("a").map(String::as_str), Some("3"));
    assert_eq!(m.get("b").map(String::as_str), Some("2"));
    assert_eq!(m.get("c"), None);
    assert!(m.contains_key("b"));
    assert!(!m.contains_key("c"));
    let copy = m.clone();
    assert_eq!(copy.get("a").map(String::as_str), Some("3"));
}

#[test]
fn splits_comma_lists() {
    assert_eq!(split_list(" a4 , letter,,  legal "), strings(&["a4", "letter", "legal"]));
    assert_eq!(split_list(""), Vec::<String>::new());
    assert_eq!(split_list(" , ,"), Vec::<String>::new());
    assert_eq!(split_list("one"), strings(&["one"]));
    let opts = options(&[("media-supported", "iso_a4_210x297mm, na_letter_8.5x11in")]);
    assert_eq!(
        option_values(&opts, "media-supported"),
        strings(&["iso_a4_210x297mm", "na_letter_8.5x11in"])
    );
    assert_eq!(option_values(&opts, "sides-supported"), Vec::<String>::new());
}

#[test]
fn status_from_reasons_and_state() {
    let toner = strings(&["none", "toner-low-warning"]);
    assert_eq!(printer_status(&toner, QueueState::Idle), PrinterStatus::LowToner);
    let empty = strings(&["marker-toner-empty-error"]);
    assert_eq!(printer_status(&empty, QueueState::Stopped), PrinterStatus::LowToner);
    let none = strings(&["none"]);
    assert_eq!(printer_status(&none, QueueState::Idle), PrinterStatus::Ready);
    assert_eq!(printer_status(&none, QueueState::Processing), PrinterStatus::Ready);
    assert_eq!(printer_status(&none, QueueState::Stopped), PrinterStatus::Offline);
    assert_eq!(printer_status(&Vec::new(), QueueState::Unknown), PrinterStatus::Offline);
}

#[test]
fn class_detection_and_local_uri() {
    assert!(is_printer_class(&options(&[("printer-type", "1")])));
    assert!(is_printer_class(&options(&[("printer-type", "+4101")])));
    assert!(!is_printer_class(&options(&[("printer-type", "4100")])));
    assert!(!is_printer_class(&options(&[("printer-type", " 1")])));
    assert!(!is_printer_class(&options(&[("printer-type", "4294967297")])));
    assert!(!is_printer_class(&options(&[])));
    assert_eq!(
        local_printer_uri("office", &options(&[("printer-type", "5")])),
        "ipp://localhost/classes/office"
    );
    assert_eq!(local_printer_uri("desk", &options(&[])), "ipp://localhost/printers/desk");
}

#[test]
fn web_page_choice() {
    let more = options(&[("printer-more-info", " http://p/ "), ("device-uri", "ipp://h/x")]);
    assert_eq!(web_page_from_options(&more), Some("http://p/".to_string()));
    let blank = options(&[("printer-more-info", "  "), ("device-uri", "ipp://h/x")]);
    assert_eq!(web_page_from_options(&blank), None);
    let device = options(&[("device-uri", "ipps://printer:443/ipp")]);
    assert_eq!(web_page_from_options(&device), Some("http://printer".to_string()));
    assert_eq!(web_page_from_options(&options(&[])), None);
}

#[test]
fn attribute_values_as_text() {
    let accepting = AttrReading { booleans: vec![true, false], strings: vec![None], integers: vec![3] };
    assert_eq!(attr_values("printer-is-accepting-jobs", &accepting), strings(&["true", "false"]));
    let names = AttrReading {
        booleans: vec![false, false, false],
        strings: vec![Some(" black ".to_string()), None, Some("  ".to_string())],
        integers: vec![0, 0, 0],
    };
    assert_eq!(attr_values("marker-names", &names), strings(&["black"]));
    let levels = AttrReading {
        booleans: vec![false, false, false],
        strings: vec![None, Some(" ".to_string()), None],
        integers: vec![80, -1, i32::MIN],
    };
    assert_eq!(attr_values("marker-levels", &levels), strings(&["80", "-1", "-2147483648"]));
    let nothing = AttrReading { booleans: vec![], strings: vec![], integers: vec![] };
    assert!(attr_values("marker-levels", &nothing).is_empty());
}

#[test]
fn missing_and_recorded_attributes() {
    let mut opts = options(&[("printer-state", "3"), ("device-uri", "ipp://h/x")]);
    let wanted = strings(&["printer-state", "marker-levels", "device-uri", "media-supported"]);
    assert_eq!(missing_attrs(&opts, &wanted), strings(&["marker-levels", "media-supported"]));
    assert_eq!(join_values(&strings(&["80", "40"])), "80,40");
    assert_eq!(join_values(&Vec::new()), "");
    record_attr_values(&mut opts, "marker-levels", &strings(&["80", "40"]));
    assert_eq!(opts.get("marker-levels").map(String::as_str), Some("80,40"));
    record_attr_values(&mut opts, "media-supported", &Vec::new());
    assert!(!opts.contains_key("media-supported"));
    let attrs = printer_attributes();
    assert_eq!(attrs.len(), 19);
    assert_eq!(attrs[0], "printer-more-info");
    assert_eq!(attrs[18], "printer-uuid");
}

#[test]
fn entry_from_destination() {
    let record = QueueRecord {
        full_name: "Office/duplex".to_string(),
        name: "Office".to_string(),
        is_default: true,
        uri: None,
        info: Some(String::new()),
        location: Some("Room 2".to_string()),
        make_and_model: None,
        device_uri: Some("ipp://printer.lan/ipp/print".to_string()),
        state: QueueState::Idle,
        state_text: "idle".to_string(),
        state_reasons: strings(&["none"]),
        options: options(&[
            ("device-uri", "ipp://printer.lan/ipp/print"),
            ("media-supported", "a4,letter"),
            ("sides-supported", "one-sided"),
            ("printer-uuid", "urn:uuid:x"),
        ]),
    };
    let e = destination_to_printer_entry(record);
    assert_eq!(e.id, "Office/duplex");
    assert_eq!(e.name, "Office/duplex");
    assert!(e.is_default);
    assert_eq!(e.printer_uri, "ipp://localhost/printers/Office");
    assert_eq!(e.status, PrinterStatus::Ready);
    assert_eq!(e.queue_status, "idle");
    assert_eq!(e.location, "Room 2");
    assert_eq!(e.model, "");
    assert_eq!(e.device_name, "ipp://printer.lan/ipp/print");
    assert_eq!(e.web_page, Some("http://printer.lan".to_string()));
    assert_eq!(e.paper_sizes, strings(&["a4", "letter"]));
    assert_eq!(e.print_sides, strings(&["one-sided"]));
    assert_eq!(e.options.len(), 4);
    assert!(e.supplies.is_empty());
    let id = DeviceIdentity::new(Some("urn:uuid:x"), None, None);
    assert_eq!(id.uuid(), Some("urn:uuid:x"));
}

#[test]
fn entry_keeps_given_uri_and_info() {
    let record = QueueRecord {
        full_name: "q".to_string(),
        name: "q".to_string(),
        is_default: false,
        uri: Some("ipp://server/printers/q".to_string()),
        info: Some("Front desk".to_string()),
        location: None,
        make_and_model: Some("ACME 1".to_string()),
        device_uri: None,
        state: QueueState::Stopped,
        state_text: "stopped".to_string(),
        state_reasons: Vec::new(),
        options: OptionMap::new(),
    };
    let e = destination_to_printer_entry(record);
    assert_eq!(e.name, "Front desk");
    assert_eq!(e.printer_uri, "ipp://server/printers/q");
    assert_eq!(e.status, PrinterStatus::Offline);
    assert_eq!(e.model, "ACME 1");
    assert_eq!(e.location, "");
    assert_eq!(e.web_page, None);
}

#[test]
fn option_map_entries_enumerate_each_option_once() {
    let m = options(&[("x", "1"), ("y", "2"), ("x", "3"), ("z", "")]);
    let mut seen: Vec<(String, String)> = (0..m.len())
        .map(|i| {
            let (k, v) = m.entry(i);
            (k.clone(), v.clone())
        })
        .collect();
    seen.sort();
    assert_eq!(
        seen,
        vec![
            ("x".to_string(), "3".to_string()),
            ("y".to_string(), "2".to_string()),
            ("z".to_string(), String::new()),
        ]
    );
}

#[test]
fn list_values_never_empty_or_with_commas() {
    for s in ["a,,b", " , x ,", ",", "a b , c"] {
        for v in split_list(s) {
            assert!(!v.is_empty());
            assert!(!v.contains(','));
            assert_eq!(v.trim(), v);
        }
    }
}

#[test]
fn replies_are_recorded_for_each_asked_name() {
    let mut map = options(&[("printer-info", "Kept")]);
    let names = vec![
        "printer-is-accepting-jobs".to_string(),
        "marker-levels".to_string(),
        "printer-location".to_string(),
        "marker-names".to_string(),
    ];
    let replies = vec![
        Some(AttrReading { booleans: vec![true], strings: vec![None], integers: vec![0] }),
        Some(AttrReading { booleans: vec![false, false], strings: vec![None, None], integers: vec![70, -1] }),
        None,
        Some(AttrReading { booleans: Vec::new(), strings: Vec::new(), integers: Vec::new() }),
    ];
    record_replies(&mut map, &names, &replies);
    assert_eq!(map.get("printer-is-accepting-jobs").map(String::as_str), Some("true"));
    assert_eq!(map.get("marker-levels").map(String::as_str), Some("70,-1"));
    assert_eq!(map.get("printer-location"), None);
    assert_eq!(map.get("marker-names"), None);
    assert_eq!(map.get("printer-info").map(String::as_str), Some("Kept"));
    assert_eq!(map.len(), 3);
}
