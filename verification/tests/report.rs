use vyges_resize::report::{changes_json, changes_report, decimal_string};

fn swaps(v: &[(&str, &str, &str)]) -> Vec<(String, String, String)> {
    v.iter().map(|(a, b, c)| (a.to_string(), b.to_string(), c.to_string())).collect()
}

#[test]
fn decimals() {
    assert_eq!(decimal_string(0), "0");
    assert_eq!(decimal_string(7), "7");
    assert_eq!(decimal_string(10), "10");
    assert_eq!(decimal_string(12345), "12345");
    assert_eq!(decimal_string(usize::MAX), usize::MAX.to_string());
}

#[test]
fn report_lists_each_swap() {
    let r = changes_report(&swaps(&[("u1", "INV", "INV2"), ("u2", "INV", "INV2")]));
    assert_eq!(r, "  changed: 2 cell(s)\n    u1: INV -> INV2\n    u2: INV -> INV2\n");
    assert_eq!(changes_report(&Vec::new()), "  changed: 0 cell(s)\n");
}

#[test]
fn json_items_joined_by_commas() {
    assert_eq!(changes_json(&Vec::new()), "");
    assert_eq!(
        changes_json(&swaps(&[("u1", "INV", "INV2")])),
        "{\"inst\":\"u1\",\"old\":\"INV\",\"new\":\"INV2\"}"
    );
    assert_eq!(
        changes_json(&swaps(&[("a", "B", "C"), ("d", "E", "F")])),
        "{\"inst\":\"a\",\"old\":\"B\",\"new\":\"C\"},{\"inst\":\"d\",\"old\":\"E\",\"new\":\"F\"}"
    );
}
