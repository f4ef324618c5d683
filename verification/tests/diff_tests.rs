use usb_watch::DeviceSet;
use usb_watch::Event;
use usb_watch::EventKind;
use usb_watch::UsbDevice;
use usb_watch::diff::apply;
use usb_watch::diff::diff;

fn device(id: &str, vendor: u16, product: u16, description: Option<&str>) -> UsbDevice {
    UsbDevice {
        id: id.to_string(),
        vendor_id: vendor,
        product_id: product,
        description: description.map(|d| d.to_string()),
    }
}

fn set_of(devices: Vec<UsbDevice>) -> DeviceSet {
    DeviceSet::from_devices(devices)
}

fn ids(devices: &[UsbDevice]) -> Vec<String> {
    devices.iter().map(|d| d.id.clone()).collect()
}

#[test]
fn diff_of_a_set_against_itself_is_empty() {
    let a = set_of(vec![
        device("usb-1", 0x1234, 0x5678, Some("scope")),
        device("usb-2", 0xABCD, 0x0001, None),
    ]);
    let b = set_of(vec![
        device("usb-1", 0x1234, 0x5678, Some("scope")),
        device("usb-2", 0xABCD, 0x0001, None),
    ]);
    let events = diff(&a, &b);
    assert!(events.is_empty());
}

#[test]
fn diff_of_empty_sets_is_empty() {
    let a = DeviceSet::empty();
    let b = DeviceSet::empty();
    assert!(diff(&a, &b).is_empty());
}

#[test]
fn unchanged_description_identity_yields_no_event() {
    // Identity, not attributes, drives events: a changed description
    // with the same id produces nothing.
    let a = set_of(vec![device("usb-1", 0x1234, 0x5678, Some("old name"))]);
    let b = set_of(vec![device("usb-1", 0x1234, 0x5678, Some("new name"))]);
    assert!(diff(&a, &b).is_empty());
}

#[test]
fn left_events_precede_arrived_events() {
    let prev = set_of(vec![
        device("keep", 1, 1, None),
        device("gone-1", 2, 2, None),
        device("gone-2", 3, 3, None),
    ]);
    let cur = set_of(vec![
        device("new-1", 4, 4, None),
        device("keep", 1, 1, None),
        device("new-2", 5, 5, None),
    ]);
    let events = diff(&prev, &cur);
    assert_eq!(events.len(), 4);
    let first_arrived = events
        .iter()
        .position(|e| e.kind == EventKind::Arrived)
        .unwrap();
    let last_left = events
        .iter()
        .rposition(|e| e.kind == EventKind::Left)
        .unwrap();
    assert!(last_left < first_arrived);
    assert_eq!(events[0].kind, EventKind::Left);
    assert_eq!(events[0].device.id, "gone-1");
    assert_eq!(events[1].kind, EventKind::Left);
    assert_eq!(events[1].device.id, "gone-2");
    assert_eq!(events[2].kind, EventKind::Arrived);
    assert_eq!(events[2].device.id, "new-1");
    assert_eq!(events[3].kind, EventKind::Arrived);
    assert_eq!(events[3].device.id, "new-2");
}

#[test]
fn left_event_carries_last_known_attributes() {
    let prev = set_of(vec![device("usb-1", 0x1234, 0x5678, Some("PicoScope"))]);
    let cur = DeviceSet::empty();
    let events = diff(&prev, &cur);
    assert_eq!(
        events,
        vec![Event {
            kind: EventKind::Left,
            device: device("usb-1", 0x1234, 0x5678, Some("PicoScope")),
        }]
    );
}

#[test]
fn arrived_event_carries_current_snapshot() {
    let prev = DeviceSet::empty();
    let cur = set_of(vec![device("usb-9", 0x0CE9, 0x1220, None)]);
    let events = diff(&prev, &cur);
    assert_eq!(
        events,
        vec![Event {
            kind: EventKind::Arrived,
            device: device("usb-9", 0x0CE9, 0x1220, None),
        }]
    );
}

#[test]
fn replaying_a_diff_reconstructs_the_target_identity_set() {
    let a = set_of(vec![
        device("one", 1, 1, None),
        device("two", 2, 2, Some("kept")),
        device("three", 3, 3, None),
    ]);
    let b = set_of(vec![
        device("two", 2, 2, Some("kept")),
        device("four", 4, 4, None),
    ]);
    let events = diff(&a, &b);
    let rebuilt = apply(&a, &events);
    let mut rebuilt_ids = ids(&rebuilt);
    rebuilt_ids.sort();
    let mut expected = vec!["two".to_string(), "four".to_string()];
    expected.sort();
    assert_eq!(rebuilt_ids, expected);
}

#[test]
fn apply_removes_left_and_appends_arrived() {
    let base = set_of(vec![device("a", 1, 1, None), device("b", 2, 2, None)]);
    let events = vec![
        Event { kind: EventKind::Left, device: device("a", 1, 1, None) },
        Event { kind: EventKind::Arrived, device: device("c", 3, 3, None) },
    ];
    let rebuilt = apply(&base, &events);
    assert_eq!(ids(&rebuilt), vec!["b".to_string(), "c".to_string()]);
}

#[test]
fn from_devices_keeps_the_first_snapshot_per_id() {
    let s = set_of(vec![
        device("dup", 1, 1, Some("first")),
        device("other", 2, 2, None),
        device("dup", 9, 9, Some("second")),
    ]);
    assert_eq!(ids(&s.devices), vec!["dup".to_string(), "other".to_string()]);
    assert_eq!(s.devices[0].description, Some("first".to_string()));
    assert!(s.contains_id(&"dup".to_string()));
    assert!(s.contains_id(&"other".to_string()));
    assert!(!s.contains_id(&"absent".to_string()));
}

#[test]
fn duplicate_preserves_every_field() {
    let d = device("usb-1", 0x1234, 0x5678, Some("scope"));
    let copy = d.duplicate();
    assert_eq!(copy, d);
}
