use breviewer::config::{field_area, keybinds, reviews_area, Status, MAX_FIELDS};
use breviewer::geometry::AreaDescription;
use breviewer::report::{count_status, format_report, push_joined_lines, ReportEntry};
use breviewer::config::Field;

fn entry(name: &str, lines: &[&str]) -> ReportEntry {
    ReportEntry { name: name.to_string(), lines: lines.iter().map(|l| l.to_string()).collect() }
}

#[test]
fn keybinds_by_code_point_later_wins() {
    let statuses = vec![
        Status { name: "PASS".to_string(), key: 'p' },
        Status { name: "FAIL".to_string(), key: 'f' },
        Status { name: "PARTIAL".to_string(), key: 'p' },
        Status { name: "UPPER".to_string(), key: 'U' },
    ];
    let map = keybinds(&statuses);
    assert_eq!(map.len(), 3);
    assert_eq!(map.get(&('p' as u32)).unwrap(), "PARTIAL");
    assert_eq!(map.get(&('f' as u32)).unwrap(), "FAIL");
    assert_eq!(map.get(&('U' as u32)).unwrap(), "UPPER");
    assert!(keybinds(&Vec::new()).is_empty());
}

#[test]
fn field_areas() {
    assert_eq!(reviews_area(), AreaDescription::new(0, 0, 100, 80));
    assert_eq!(field_area(0), AreaDescription::new(0, 80, 25, 10));
    assert_eq!(field_area(3), AreaDescription::new(75, 80, 25, 10));
    assert_eq!(field_area(5), AreaDescription::new(25, 90, 25, 10));
    assert_eq!(field_area(MAX_FIELDS - 1), AreaDescription::new(75, 90, 25, 10));
    let _ = Field { name: String::new() };
}

#[test]
fn joined_lines() {
    let mut s = String::from(">");
    push_joined_lines(&mut s, &vec!["a".to_string(), "".to_string(), "b c".to_string()]);
    assert_eq!(s, ">a\n\nb c");
    let mut s = String::new();
    push_joined_lines(&mut s, &Vec::new());
    assert_eq!(s, "");
}

#[test]
fn counting_statuses() {
    let reviews = vec![entry("PASS", &[]), entry("FAIL", &[]), entry("PASS", &["x"])];
    assert_eq!(count_status(&reviews, &"PASS".to_string()), 2);
    assert_eq!(count_status(&reviews, &"FAIL".to_string()), 1);
    assert_eq!(count_status(&reviews, &"pass".to_string()), 0);
}

#[test]
fn report_layout() {
    let statuses = vec![
        Status { name: "PASS".to_string(), key: 'p' },
        Status { name: "FAIL".to_string(), key: 'f' },
        Status { name: "SKIP".to_string(), key: 's' },
    ];
    let reviews = vec![entry("PASS", &["fine"]), entry("FAIL", &["broken", "badly"])];
    let fields = vec![entry("Build", &["123"]), entry("Notes", &[""])];
    let text = format_report(&statuses, &reviews, &fields);
    assert_eq!(
        text,
        "1 PASS 1 FAIL 0 SKIP\nVM1 PASS fine\nVM2 FAIL broken\nbadly\n\n\nBuild: 123\n\nNotes: \n"
    );
}

#[test]
fn report_of_nothing() {
    assert_eq!(format_report(&Vec::new(), &Vec::new(), &Vec::new()), "\n\n");
    let statuses = vec![Status { name: "OK".to_string(), key: 'o' }];
    let many: Vec<ReportEntry> = (0..11).map(|_| entry("OK", &[])).collect();
    let text = format_report(&statuses, &many, &Vec::new());
    assert!(text.starts_with("11 OK\nVM1 OK \n"));
    assert!(text.ends_with("VM10 OK \nVM11 OK \n\n"));
}
