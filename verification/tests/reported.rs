use cosmic_printers::reported::latest_reports;

fn report(id: &str, removed: bool, value: u32) -> (String, bool, u32) {
    (id.to_string(), removed, value)
}

#[test]
fn latest_report_of_each_id_wins() {
    let kept = latest_reports(vec![
        report("office", false, 1),
        report("lab", false, 2),
        report("office", false, 3),
    ]);
    assert_eq!(kept, vec![("office".to_string(), 3), ("lab".to_string(), 2)]);
}

#[test]
fn removed_ids_are_dropped() {
    let kept = latest_reports(vec![
        report("office", false, 1),
        report("lab", false, 2),
        report("office", true, 0),
        report("ghost", true, 9),
        report("lab", true, 0),
        report("lab", false, 5),
    ]);
    assert_eq!(kept, vec![("lab".to_string(), 5)]);
    assert!(latest_reports(Vec::<(String, bool, u32)>::new()).is_empty());
}
