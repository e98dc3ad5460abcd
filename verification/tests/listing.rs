use output_switch::device::{Device, PortAvailability};
use output_switch::listing::{list_entries, ListEntry};
use output_switch::text::{append_decimal, render_entry, render_list};

fn described(index: u32, availability: PortAvailability, description: Option<&str>) -> Device {
    Device {
        index,
        name: Some(format!("sink-{}", index)),
        description: description.map(|d| d.to_string()),
        availability,
    }
}

fn entry(is_current: bool, index: u32, description: Option<&str>) -> ListEntry {
    ListEntry { is_current, index, description: description.map(|d| d.to_string()) }
}

fn decimal_of(number: u32) -> String {
    let mut text = String::new();
    append_decimal(&mut text, number);
    text
}

#[test]
fn list_marks_the_default_and_keeps_the_order() {
    let devices = vec![
        described(0, PortAvailability::Available, Some("Speakers")),
        described(3, PortAvailability::Unavailable, None),
    ];
    let entries = list_entries(&devices, &devices[0]);
    assert_eq!(entries, vec![entry(true, 0, Some("Speakers")), entry(false, 3, None)]);
}

#[test]
fn list_is_not_sorted_and_not_filtered() {
    let devices = vec![
        described(9, PortAvailability::Unavailable, Some("HDMI")),
        described(2, PortAvailability::Unknown, Some("Null output")),
        described(5, PortAvailability::Available, Some("Headphones")),
    ];
    let entries = list_entries(&devices, &devices[2]);
    assert_eq!(
        entries,
        vec![
            entry(false, 9, Some("HDMI")),
            entry(false, 2, Some("Null output")),
            entry(true, 5, Some("Headphones")),
        ]
    );
}

#[test]
fn exactly_one_entry_is_marked() {
    let devices = vec![
        described(1, PortAvailability::Available, Some("a")),
        described(4, PortAvailability::Unavailable, Some("b")),
        described(6, PortAvailability::Unknown, Some("c")),
    ];
    for current in &devices {
        let entries = list_entries(&devices, current);
        let marked: Vec<u32> = entries.iter().filter(|e| e.is_current).map(|e| e.index).collect();
        assert_eq!(marked, vec![current.index]);
    }
}

#[test]
fn no_entry_is_marked_when_the_default_is_not_listed() {
    let devices = vec![described(1, PortAvailability::Available, Some("a"))];
    let elsewhere = described(2, PortAvailability::Available, Some("b"));
    let entries = list_entries(&devices, &elsewhere);
    assert_eq!(entries, vec![entry(false, 1, Some("a"))]);
}

#[test]
fn empty_list_has_no_entries() {
    let elsewhere = described(2, PortAvailability::Available, None);
    assert_eq!(list_entries(&Vec::new(), &elsewhere), Vec::<ListEntry>::new());
}

#[test]
fn decimal_notation() {
    assert_eq!(decimal_of(0), "0");
    assert_eq!(decimal_of(7), "7");
    assert_eq!(decimal_of(10), "10");
    assert_eq!(decimal_of(109), "109");
    assert_eq!(decimal_of(1234567890), "1234567890");
    assert_eq!(decimal_of(u32::MAX), "4294967295");
}

#[test]
fn decimal_is_written_at_the_end() {
    let mut text = String::from("n=");
    append_decimal(&mut text, 42);
    assert_eq!(text, "n=42");
}

#[test]
fn line_of_the_default_starts_with_an_asterisk() {
    assert_eq!(render_entry(&entry(true, 0, Some("Speakers"))), "*[0]: Speakers");
    assert_eq!(render_entry(&entry(false, 17, Some("HDMI / DisplayPort"))), "[17]: HDMI / DisplayPort");
}

#[test]
fn device_without_description_is_shown_as_unknown() {
    assert_eq!(render_entry(&entry(false, 3, None)), "[3]: Unknown device");
    assert_eq!(render_entry(&entry(true, 3, Some(""))), "*[3]: ");
}

#[test]
fn whole_list_as_text() {
    let entries = vec![entry(true, 0, Some("Speakers")), entry(false, 3, None)];
    assert_eq!(
        render_list(&entries),
        "Available devices (*default):\n\n*[0]: Speakers\n[3]: Unknown device\n"
    );
    assert_eq!(render_list(&Vec::new()), "Available devices (*default):\n\n");
}
