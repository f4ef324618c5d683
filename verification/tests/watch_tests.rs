use usb_watch::DeviceSet;
use usb_watch::Event;
use usb_watch::EventFilter;
use usb_watch::EventKind;
use usb_watch::UsbDevice;
use usb_watch::Watch;
use usb_watch::WatchError;
use usb_watch::WatchPhase;
use usb_watch::WatchSubscription;

fn device(id: &str, vendor: u16, product: u16) -> UsbDevice {
    UsbDevice {
        id: id.to_string(),
        vendor_id: vendor,
        product_id: product,
        description: None,
    }
}

fn set_of(devices: Vec<UsbDevice>) -> DeviceSet {
    DeviceSet::from_devices(devices)
}

/// Dispatches each event in order and collects the events each handle
/// received, for one handle.
fn received(watch: &Watch, events: &[Event], handle: u64) -> Vec<Event> {
    let mut out = Vec::new();
    for event in events {
        if watch.dispatch(event).contains(&handle) {
            out.push(event.clone());
        }
    }
    out
}

#[test]
fn initial_population_is_silent_then_arrival_is_reported() {
    let mut w = Watch::new();
    assert_eq!(w.phase, WatchPhase::Starting);
    let h = w.on("connect".to_string(), None, None).unwrap();

    // Poll 1 establishes the baseline: nothing is reported even
    // though a device is already attached.
    let initial = w.poll_step(Ok(set_of(vec![])));
    assert!(initial.is_empty());
    assert_eq!(w.phase, WatchPhase::Running);

    // Poll 2 sees a new device: exactly one Arrived, no Left.
    let events = w.poll_step(Ok(set_of(vec![device("a", 0x1234, 0x5678)])));
    assert_eq!(
        events,
        vec![Event { kind: EventKind::Arrived, device: device("a", 0x1234, 0x5678) }]
    );
    assert_eq!(received(&w, &events, h), events);
}

#[test]
fn already_attached_devices_are_not_reported_at_start() {
    let mut w = Watch::new();
    let initial = w.poll_step(Ok(set_of(vec![device("a", 1, 1), device("b", 2, 2)])));
    assert!(initial.is_empty());
    let again = w.poll_step(Ok(set_of(vec![device("a", 1, 1), device("b", 2, 2)])));
    assert!(again.is_empty());
}

#[test]
fn unplugging_reports_one_left_with_last_known_attributes() {
    let mut w = Watch::new();
    let gone = UsbDevice {
        id: "a".to_string(),
        vendor_id: 0x1234,
        product_id: 0x5678,
        description: Some("flash drive".to_string()),
    };
    w.poll_step(Ok(set_of(vec![gone.clone()])));
    let events = w.poll_step(Ok(set_of(vec![])));
    assert_eq!(events, vec![Event { kind: EventKind::Left, device: gone }]);
}

#[test]
fn plugging_a_second_device_reports_only_that_device() {
    let mut w = Watch::new();
    w.poll_step(Ok(set_of(vec![device("a", 1, 1)])));
    let events = w.poll_step(Ok(set_of(vec![device("a", 1, 1), device("b", 2, 2)])));
    assert_eq!(
        events,
        vec![Event { kind: EventKind::Arrived, device: device("b", 2, 2) }]
    );
}

#[test]
fn failed_scan_reports_nothing_and_watch_recovers() {
    let mut w = Watch::new();
    w.poll_step(Ok(set_of(vec![device("a", 1, 1)])));

    // One enumeration pass fails: no event, baseline kept.
    let during_failure = w.poll_step(Err(WatchError::Enumeration));
    assert!(during_failure.is_empty());
    assert_eq!(w.phase, WatchPhase::Running);

    // The next pass succeeds: the diff is against the last known-good
    // baseline, with no event storm and no manual intervention.
    let events = w.poll_step(Ok(set_of(vec![device("a", 1, 1), device("b", 2, 2)])));
    assert_eq!(
        events,
        vec![Event { kind: EventKind::Arrived, device: device("b", 2, 2) }]
    );
}

#[test]
fn failed_scan_while_starting_keeps_waiting_for_a_baseline() {
    let mut w = Watch::new();
    let events = w.poll_step(Err(WatchError::Enumeration));
    assert!(events.is_empty());
    assert_eq!(w.phase, WatchPhase::Starting);
    let initial = w.poll_step(Ok(set_of(vec![device("a", 1, 1)])));
    assert!(initial.is_empty());
    assert_eq!(w.phase, WatchPhase::Running);
}

#[test]
fn vendor_filtered_listener_receives_only_matching_events_in_order() {
    let mut w = Watch::new();
    let h = w
        .on("connect".to_string(), Some(0x1234), None)
        .unwrap();
    let stream = vec![
        Event { kind: EventKind::Arrived, device: device("a", 0x1234, 1) },
        Event { kind: EventKind::Arrived, device: device("b", 0xABCD, 2) },
        Event { kind: EventKind::Arrived, device: device("c", 0x1234, 3) },
        Event { kind: EventKind::Arrived, device: device("d", 0xABCD, 4) },
    ];
    let got = received(&w, &stream, h);
    assert_eq!(
        got,
        vec![
            Event { kind: EventKind::Arrived, device: device("a", 0x1234, 1) },
            Event { kind: EventKind::Arrived, device: device("c", 0x1234, 3) },
        ]
    );
}

#[test]
fn unregistered_listener_receives_zero_events() {
    let mut w = Watch::new();
    let keep = w.on("connect".to_string(), None, None).unwrap();
    let h = w.on("connect".to_string(), None, None).unwrap();
    assert!(w.unregister(h));
    assert!(!w.unregister(h));

    w.poll_step(Ok(set_of(vec![])));
    let events = w.poll_step(Ok(set_of(vec![device("a", 0x1234, 0x5678)])));
    assert_eq!(events.len(), 1);
    assert!(received(&w, &events, h).is_empty());
    assert_eq!(received(&w, &events, keep), events);
}

#[test]
fn disconnect_listener_ignores_arrivals() {
    let mut w = Watch::new();
    let h = w.on("disconnect".to_string(), None, None).unwrap();
    w.poll_step(Ok(set_of(vec![device("a", 1, 1)])));
    let arrived = w.poll_step(Ok(set_of(vec![device("a", 1, 1), device("b", 2, 2)])));
    assert!(received(&w, &arrived, h).is_empty());
    let left = w.poll_step(Ok(set_of(vec![device("b", 2, 2)])));
    assert_eq!(left.len(), 1);
    assert_eq!(received(&w, &left, h), left);
}

#[test]
fn stopped_watch_reports_nothing_and_drops_listeners() {
    let mut w = Watch::new();
    let h = w.on("connect".to_string(), None, None).unwrap();
    w.poll_step(Ok(set_of(vec![device("a", 1, 1)])));
    w.stop();
    assert_eq!(w.phase, WatchPhase::Stopped);
    let events = w.poll_step(Ok(set_of(vec![device("a", 1, 1), device("b", 2, 2)])));
    assert!(events.is_empty());
    let probe = Event { kind: EventKind::Arrived, device: device("b", 2, 2) };
    assert!(w.dispatch(&probe).is_empty());
    let _ = h;
}

#[test]
fn on_rejects_unknown_method_and_out_of_range_filters() {
    let mut w = Watch::new();
    assert_eq!(
        w.on("attach".to_string(), None, None),
        Err(WatchError::UnknownMethod)
    );
    assert_eq!(
        w.on("connect".to_string(), Some(0x10000), None),
        Err(WatchError::InvalidFilter)
    );
    assert_eq!(
        w.on("disconnect".to_string(), None, Some(u32::MAX)),
        Err(WatchError::InvalidFilter)
    );
    // Rejected registrations left nothing behind.
    let probe = Event { kind: EventKind::Arrived, device: device("a", 1, 1) };
    assert!(w.dispatch(&probe).is_empty());
}

#[test]
fn parse_builds_the_listener_the_arguments_denote() {
    let sub = WatchSubscription::parse("connect".to_string(), Some(0x1234), None).unwrap();
    assert_eq!(sub.filter_kind, EventFilter::Arrived);
    assert_eq!(sub.vendor_id, Some(0x1234));
    assert_eq!(sub.product_id, None);

    let sub = WatchSubscription::parse("disconnect".to_string(), None, Some(0xFFFF)).unwrap();
    assert_eq!(sub.filter_kind, EventFilter::Left);
    assert_eq!(sub.vendor_id, None);
    assert_eq!(sub.product_id, Some(0xFFFF));

    assert_eq!(
        WatchSubscription::parse("plug".to_string(), None, None),
        Err(WatchError::UnknownMethod)
    );
    assert_eq!(
        WatchSubscription::parse("connect".to_string(), Some(0x1_0000), Some(2)),
        Err(WatchError::InvalidFilter)
    );
}

#[test]
fn matches_applies_kind_vendor_and_product_filters() {
    let arrived = Event { kind: EventKind::Arrived, device: device("a", 0x1234, 0x5678) };
    let left = Event { kind: EventKind::Left, device: device("a", 0x1234, 0x5678) };

    let open = WatchSubscription { filter_kind: EventFilter::Both, vendor_id: None, product_id: None };
    assert!(open.matches(&arrived));
    assert!(open.matches(&left));

    let only_arrived = WatchSubscription { filter_kind: EventFilter::Arrived, vendor_id: None, product_id: None };
    assert!(only_arrived.matches(&arrived));
    assert!(!only_arrived.matches(&left));

    let wrong_vendor = WatchSubscription { filter_kind: EventFilter::Both, vendor_id: Some(0x9999), product_id: None };
    assert!(!wrong_vendor.matches(&arrived));

    let wrong_product = WatchSubscription { filter_kind: EventFilter::Both, vendor_id: Some(0x1234), product_id: Some(0x1) };
    assert!(!wrong_product.matches(&arrived));

    let exact = WatchSubscription { filter_kind: EventFilter::Arrived, vendor_id: Some(0x1234), product_id: Some(0x5678) };
    assert!(exact.matches(&arrived));
    assert!(!exact.matches(&left));
}

#[test]
fn handles_are_fresh_and_distinct() {
    let mut w = Watch::new();
    let h1 = w.on("connect".to_string(), None, None).unwrap();
    let h2 = w.on("disconnect".to_string(), None, None).unwrap();
    assert_ne!(h1, h2);
    w.unregister(h1);
    let h3 = w.on("connect".to_string(), None, None).unwrap();
    assert_ne!(h3, h1);
    assert_ne!(h3, h2);
}
