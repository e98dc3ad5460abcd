//! The device list as shown to a user: one entry per device, in the order in
//! which the server listed them, with the current default marked.

use crate::device::{indices, Device};
use vstd::prelude::*;

verus! {

/// One line of the device list.
#[derive(Clone, Debug, PartialEq, Eq)]
pub struct ListEntry {
    /// Whether this device is the current default.
    pub is_current: bool,
    /// The device's identifier.
    pub index: u32,
    /// The device's description, where it has one.
    pub description: Option<String>,
}

/// The entry that stands for `device`: marked exactly when the device has
/// the identifier of the current default.
pub open spec fn entry_of(device: Device, default_index: u32) -> ListEntry {
    ListEntry {
        is_current: device.index == default_index,
        index: device.index,
        description: device.description,
    }
}

/// The list for `devices`: the entry of each device, in the same order.
pub open spec fn entries_of(devices: Seq<Device>, default_index: u32) -> Seq<ListEntry> {
    devices.map_values(|d: Device| entry_of(d, default_index))
}

/// A copy of an optional text.
fn copy_text(text: &Option<String>) -> (copy: Option<String>)
    ensures
        copy == *text,
{
    match text {
        Some(t) => Some(t.clone()),
        None => None,
    }
}

/// Builds the list for `devices`, marking the device that has the
/// identifier of `default_device`. Nothing is sorted and nothing is left
/// out.
pub fn list_entries(devices: &Vec<Device>, default_device: &Device) -> (entries: Vec<ListEntry>)
    ensures
        entries@ == entries_of(devices@, default_device.index),
{
    let mut entries: Vec<ListEntry> = Vec::new();
    let mut i: usize = 0;
    while i < devices.len()
        invariant
            i <= devices.len(),
            entries@ == entries_of(devices@.take(i as int), default_device.index),
        decreases devices.len() - i,
    {
        let device = &devices[i];
        let entry = ListEntry {
            is_current: device.index == default_device.index,
            index: device.index,
            description: copy_text(&device.description),
        };
        entries.push(entry);
        assert(entries@ =~= entries_of(devices@.take(i + 1), default_device.index));
        i += 1;
    }
    assert(devices@.take(devices.len() as int) =~= devices@);
    entries
}

/// Exactly one entry is marked. Where no two devices share an identifier
/// and the current default is among the devices, one entry of the list is
/// marked as current and no other is, and the marked entry carries the
/// identifier of the current default.
pub proof fn lemma_one_entry_is_current(devices: Seq<Device>, default_index: u32)
    requires
        indices(devices).no_duplicates(),
        indices(devices).contains(default_index),
    ensures
        exists|i: int|
            {
                &&& 0 <= i < entries_of(devices, default_index).len()
                &&& (#[trigger] entries_of(devices, default_index)[i]).is_current
                &&& entries_of(devices, default_index)[i].index == default_index
                &&& forall|j: int|
                    0 <= j < entries_of(devices, default_index).len() && (#[trigger] entries_of(
                        devices,
                        default_index,
                    )[j]).is_current ==> j == i
            },
{
    let listed = entries_of(devices, default_index);
    let i = choose|i: int| 0 <= i < indices(devices).len() && indices(devices)[i] == default_index;
    assert(listed[i].is_current && listed[i].index == default_index);
    assert forall|j: int| 0 <= j < listed.len() && (#[trigger] listed[j]).is_current implies j
        == i by {
        assert(indices(devices)[j] == indices(devices)[i]);
    }
}

} // verus!
