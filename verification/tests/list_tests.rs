use usb_watch::List;
use usb_watch::UsbDevice;
use usb_watch::WatchError;
use usb_watch::get_optional_u16;
use usb_watch::list;

fn device(id: &str, vendor: u16, product: u16) -> UsbDevice {
    UsbDevice {
        id: id.to_string(),
        vendor_id: vendor,
        product_id: product,
        description: None,
    }
}

#[test]
fn get_optional_u16_narrows_in_range_values() {
    assert_eq!(get_optional_u16(None), Ok(None));
    assert_eq!(get_optional_u16(Some(0)), Ok(Some(0)));
    assert_eq!(get_optional_u16(Some(0x1234)), Ok(Some(0x1234)));
    assert_eq!(get_optional_u16(Some(0xFFFF)), Ok(Some(0xFFFF)));
}

#[test]
fn get_optional_u16_rejects_out_of_range_values() {
    assert_eq!(get_optional_u16(Some(0x10000)), Err(WatchError::InvalidFilter));
    assert_eq!(get_optional_u16(Some(u32::MAX)), Err(WatchError::InvalidFilter));
}

#[test]
fn list_accepts_valid_filters() {
    assert_eq!(
        list(Some(0x1234), Some(0x5678)),
        Ok(List { vendor_id: Some(0x1234), product_id: Some(0x5678) })
    );
    assert_eq!(list(None, None), Ok(List { vendor_id: None, product_id: None }));
}

#[test]
fn list_rejects_out_of_range_filters() {
    assert_eq!(list(Some(0x10000), None), Err(WatchError::InvalidFilter));
    assert_eq!(list(None, Some(0x10000)), Err(WatchError::InvalidFilter));
    assert_eq!(list(Some(0x10000), Some(0x10000)), Err(WatchError::InvalidFilter));
}

#[test]
fn post_filter_keeps_exactly_the_matching_devices_in_order() {
    let req = list(Some(0x1234), None).unwrap();
    let reported = vec![
        device("a", 0x1234, 1),
        device("b", 0xABCD, 2),
        device("c", 0x1234, 3),
    ];
    let filtered = req.post_filter(&reported);
    assert_eq!(filtered, vec![device("a", 0x1234, 1), device("c", 0x1234, 3)]);
}

#[test]
fn post_filter_applies_vendor_and_product_together() {
    let req = list(Some(0x1234), Some(0x5678)).unwrap();
    let reported = vec![
        device("a", 0x1234, 0x5678),
        device("b", 0x1234, 0x0001),
        device("c", 0x9999, 0x5678),
    ];
    let filtered = req.post_filter(&reported);
    assert_eq!(filtered, vec![device("a", 0x1234, 0x5678)]);
}

#[test]
fn unfiltered_request_accepts_everything() {
    let req = list(None, None).unwrap();
    let reported = vec![device("a", 1, 2), device("b", 3, 4)];
    assert!(req.accepts(&reported[0]));
    assert!(req.accepts(&reported[1]));
    assert_eq!(req.post_filter(&reported), reported);
}
