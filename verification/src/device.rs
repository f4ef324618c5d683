//! The device model: one attached USB device's identifying attributes,
//! and the set of devices reported by one enumeration pass.
//!
//! Two snapshots describe the same device instance exactly when their
//! `id` fields are equal; vendor, product and description play no part
//! in identity. A `DeviceSet` therefore keeps at most one snapshot per
//! `id`, whatever the enumeration handed in.

use vstd::prelude::*;

verus! {

/// A snapshot of one attached USB device at a point in time.
#[derive(Debug, Clone, PartialEq, Eq)]
pub struct UsbDevice {
    /// Opaque identifier, stable across polls while the device stays attached.
    pub id: String,
    /// USB-assigned vendor identifier.
    pub vendor_id: u16,
    /// USB-assigned product identifier.
    pub product_id: u16,
    /// Optional human-readable description.
    pub description: Option<String>,
}

/// The mathematical image of a `UsbDevice`.
#[verifier::ext_equal]
pub ghost struct DeviceView {
    pub id: Seq<char>,
    pub vendor_id: u16,
    pub product_id: u16,
    pub description: Option<Seq<char>>,
}

impl View for UsbDevice {
    type V = DeviceView;

    open spec fn view(&self) -> DeviceView {
        DeviceView {
            id: self.id@,
            vendor_id: self.vendor_id,
            product_id: self.product_id,
            description: match self.description {
                Some(d) => Some(d@),
                None => None,
            },
        }
    }
}

impl DeepView for UsbDevice {
    type V = DeviceView;

    open spec fn deep_view(&self) -> DeviceView {
        self.view()
    }
}

impl UsbDevice {
    /// An identical snapshot of the same device.
    pub fn duplicate(&self) -> (r: UsbDevice)
        ensures
            r == *self,
    {
        UsbDevice {
            id: self.id.clone(),
            vendor_id: self.vendor_id,
            product_id: self.product_id,
            description: match &self.description {
                Some(d) => Some(d.clone()),
                None => None,
            },
        }
    }
}

/// Whether some device in `s` carries the identifier `id`.
pub open spec fn has_id(s: Seq<DeviceView>, id: Seq<char>) -> bool {
    exists|i: int| 0 <= i < s.len() && s[i].id == id
}

/// The identifiers present in `s`, as a set.
pub open spec fn id_set(s: Seq<DeviceView>) -> Set<Seq<char>> {
    Set::new(|id: Seq<char>| has_id(s, id))
}

/// No two devices in `s` share an identifier.
pub open spec fn distinct_ids(s: Seq<DeviceView>) -> bool {
    forall|i: int, j: int| 0 <= i < j < s.len() ==> s[i].id != s[j].id
}

/// `s` with every device whose `id` already occurred earlier removed,
/// keeping the first snapshot reported for each identifier.
pub open spec fn dedup_by_id(s: Seq<DeviceView>) -> Seq<DeviceView>
    decreases s.len(),
{
    if s.len() == 0 {
        Seq::empty()
    } else {
        let front = dedup_by_id(s.drop_last());
        if has_id(s.drop_last(), s.last().id) {
            front
        } else {
            front.push(s.last())
        }
    }
}

/// Deduplication keeps exactly the identifiers of the input and leaves
/// no identifier twice.
pub proof fn lemma_dedup_by_id(s: Seq<DeviceView>)
    ensures
        distinct_ids(dedup_by_id(s)),
        forall|id: Seq<char>| #[trigger] has_id(dedup_by_id(s), id) == has_id(s, id),
    decreases s.len(),
{
    if s.len() == 0 {
    } else {
        let rest = s.drop_last();
        let front = dedup_by_id(rest);
        lemma_dedup_by_id(rest);
        assert(forall|i: int| 0 <= i < rest.len() ==> rest[i] == s[i]);
        if !has_id(rest, s.last().id) {
            let d = front.push(s.last());
            assert(dedup_by_id(s) == d);
            assert forall|i: int, j: int| 0 <= i < j < d.len() implies d[i].id != d[j].id by {
                if j == front.len() {
                    assert(d[j] == s.last());
                    assert(d[i] == front[i]);
                    if front[i].id == s.last().id {
                        assert(has_id(front, s.last().id));
                    }
                } else {
                    assert(d[i] == front[i] && d[j] == front[j]);
                }
            }
        }
        assert forall|id: Seq<char>| #[trigger] has_id(dedup_by_id(s), id) == has_id(s, id) by {
            if has_id(s, id) {
                let i = choose|i: int| 0 <= i < s.len() && s[i].id == id;
                if i < s.len() - 1 {
                    assert(rest[i].id == id);
                    assert(has_id(front, id));
                    if has_id(rest, s.last().id) {
                        assert(has_id(dedup_by_id(s), id));
                    } else {
                        let k = choose|k: int| 0 <= k < front.len() && front[k].id == id;
                        assert(front.push(s.last())[k].id == id);
                        assert(has_id(dedup_by_id(s), id));
                    }
                } else {
                    assert(s.last().id == id);
                    if has_id(rest, s.last().id) {
                        assert(has_id(front, id));
                        assert(has_id(dedup_by_id(s), id));
                    } else {
                        let d = front.push(s.last());
                        assert(d[front.len() as int].id == id);
                        assert(has_id(dedup_by_id(s), id));
                    }
                }
            }
            if has_id(dedup_by_id(s), id) {
                let k = choose|k: int|
                    0 <= k < dedup_by_id(s).len() && dedup_by_id(s)[k].id == id;
                if has_id(rest, s.last().id) {
                    assert(front[k].id == id);
                    assert(has_id(rest, id));
                    let m = choose|m: int| 0 <= m < rest.len() && rest[m].id == id;
                    assert(s[m].id == id);
                    assert(has_id(s, id));
                } else {
                    let d = front.push(s.last());
                    if k < front.len() {
                        assert(d[k] == front[k]);
                        assert(has_id(front, id));
                        let m = choose|m: int| 0 <= m < rest.len() && rest[m].id == id;
                        assert(s[m].id == id);
                        assert(has_id(s, id));
                    } else {
                        assert(d[k] == s.last());
                        assert(s[s.len() - 1].id == id);
                        assert(has_id(s, id));
                    }
                }
            }
        }
    }
}

/// The complete collection of device snapshots from one enumeration
/// pass, keyed by `id`: well-formed when no identifier occurs twice.
pub struct DeviceSet {
    pub devices: Vec<UsbDevice>,
}

impl View for DeviceSet {
    type V = Seq<DeviceView>;

    open spec fn view(&self) -> Seq<DeviceView> {
        self.devices.deep_view()
    }
}

impl DeviceSet {
    /// Each device identifier occurs at most once.
    pub open spec fn wf(&self) -> bool {
        distinct_ids(self@)
    }

    /// The empty device set: no devices attached.
    pub fn empty() -> (s: DeviceSet)
        ensures
            s@ == Seq::<DeviceView>::empty(),
            s.wf(),
    {
        let s = DeviceSet { devices: Vec::new() };
        proof {
            assert(s@ =~= Seq::<DeviceView>::empty());
        }
        s
    }

    /// Whether some device in the set carries the identifier `id`.
    pub fn contains_id(&self, id: &String) -> (r: bool)
        ensures
            r == has_id(self@, id@),
    {
        vec_contains_id(&self.devices, id)
    }

    /// Builds the set from the devices one enumeration pass reported,
    /// keeping the first snapshot seen for each identifier.
    pub fn from_devices(devices: Vec<UsbDevice>) -> (s: DeviceSet)
        ensures
            s@ == dedup_by_id(devices.deep_view()),
            s.wf(),
            forall|id: Seq<char>| #[trigger] has_id(s@, id) == has_id(devices.deep_view(), id),
    {
        let ghost all = devices.deep_view();
        let mut out: Vec<UsbDevice> = Vec::new();
        let mut i: usize = 0;
        while i < devices.len()
            invariant
                i <= devices.len(),
                all == devices.deep_view(),
                out.deep_view() == dedup_by_id(all.take(i as int)),
            decreases devices.len() - i,
        {
            let ghost before = out.deep_view();
            let present = vec_contains_id(&out, &devices[i].id);
            proof {
                lemma_dedup_by_id(all.take(i as int));
                assert(all.take(i as int + 1).drop_last() =~= all.take(i as int));
                assert(all.take(i as int + 1).last() == all[i as int]);
            }
            if !present {
                let d = devices[i].duplicate();
                out.push(d);
                proof {
                    assert(out.deep_view() =~= before.push(all[i as int]));
                }
            }
            i += 1;
        }
        proof {
            assert(all.take(all.len() as int) =~= all);
            lemma_dedup_by_id(all);
        }
        DeviceSet { devices: out }
    }
}

/// Whether some device in `v` carries the identifier `id`.
pub fn vec_contains_id(v: &Vec<UsbDevice>, id: &String) -> (r: bool)
    ensures
        r == has_id(v.deep_view(), id@),
{
    let mut i: usize = 0;
    while i < v.len()
        invariant
            i <= v.len(),
            forall|k: int| 0 <= k < i ==> v.deep_view()[k].id != id@,
        decreases v.len() - i,
    {
        if v[i].id == *id {
            assert(v.deep_view()[i as int].id == id@);
            return true;
        }
        i += 1;
    }
    false
}

} // verus!
