//! The one-shot enumeration surface.
//!
//! A `list` call validates the widened filter arguments and yields the
//! prepared request; the adaptation layer runs the bus scan off the
//! caller's execution context and hands the reported devices back
//! through [`List::post_filter`], which guarantees that every device
//! returned matches the filters, whatever the scan reported.

use vstd::prelude::*;

use crate::device::DeviceView;
use crate::device::UsbDevice;
use crate::utils::WatchError;
use crate::utils::filter_in_range;
use crate::utils::get_optional_u16;
use crate::utils::narrowed_filter;

verus! {

/// One prepared one-shot enumeration request: its validated filters.
#[derive(Debug, Clone, Copy, PartialEq, Eq)]
pub struct List {
    /// If set, only devices with this vendor identifier are reported.
    pub vendor_id: Option<u16>,
    /// If set, only devices with this product identifier are reported.
    pub product_id: Option<u16>,
}

/// Whether the filters of `l` admit the device `d`.
pub open spec fn admits(l: List, d: DeviceView) -> bool {
    &&& match l.vendor_id {
        Some(v) => d.vendor_id == v,
        None => true,
    }
    &&& match l.product_id {
        Some(p) => d.product_id == p,
        None => true,
    }
}

/// The devices of `s` the filters of `l` admit, in the order of `s`.
pub open spec fn admitted(l: List, s: Seq<DeviceView>) -> Seq<DeviceView>
    decreases s.len(),
{
    if s.len() == 0 {
        Seq::empty()
    } else {
        admitted(l, s.drop_last()) + if admits(l, s.last()) {
            seq![s.last()]
        } else {
            Seq::empty()
        }
    }
}

/// Prepares a one-shot enumeration: narrows the widened filter
/// arguments to the 16-bit range and rejects any that does not fit.
pub fn list(vendor_id: Option<u32>, product_id: Option<u32>) -> (r: Result<List, WatchError>)
    ensures
        filter_in_range(vendor_id) && filter_in_range(product_id) ==> r == Ok::<
            List,
            WatchError,
        >((List { vendor_id: narrowed_filter(vendor_id), product_id: narrowed_filter(product_id) })),
        !(filter_in_range(vendor_id) && filter_in_range(product_id)) ==> r == Err::<
            List,
            WatchError,
        >(WatchError::InvalidFilter),
{
    let vendor = match get_optional_u16(vendor_id) {
        Ok(v) => v,
        Err(e) => {
            return Err(e);
        },
    };
    let product = match get_optional_u16(product_id) {
        Ok(p) => p,
        Err(e) => {
            return Err(e);
        },
    };
    Ok(List { vendor_id: vendor, product_id: product })
}

impl List {
    /// Whether the filters admit this device.
    pub fn accepts(&self, device: &UsbDevice) -> (r: bool)
        ensures
            r == admits(*self, device@),
    {
        if let Some(v) = self.vendor_id {
            if v != device.vendor_id {
                return false;
            }
        }
        if let Some(p) = self.product_id {
            if p != device.product_id {
                return false;
            }
        }
        true
    }

    /// Keeps exactly the devices the filters admit, in the reported
    /// order: the enumeration contract holds of the result even when
    /// the bus scan ignored the filters.
    pub fn post_filter(&self, devices: &Vec<UsbDevice>) -> (r: Vec<UsbDevice>)
        ensures
            r.deep_view() == admitted(*self, devices.deep_view()),
    {
        let ghost all = devices.deep_view();
        let mut r: Vec<UsbDevice> = Vec::new();
        let mut i: usize = 0;
        while i < devices.len()
            invariant
                i <= devices.len(),
                all == devices.deep_view(),
                r.deep_view() == admitted(*self, all.take(i as int)),
            decreases devices.len() - i,
        {
            let ghost before = r.deep_view();
            proof {
                assert(all.take(i as int + 1).drop_last() =~= all.take(i as int));
                assert(all.take(i as int + 1).last() == all[i as int]);
            }
            if self.accepts(&devices[i]) {
                r.push(devices[i].duplicate());
                proof {
                    assert(r.deep_view() =~= before.push(all[i as int]));
                }
            }
            i += 1;
        }
        proof {
            assert(all.take(all.len() as int) =~= all);
        }
        r
    }
}

} // verus!
