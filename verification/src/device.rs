//! Output devices and streams, as plain values.

use vstd::prelude::*;

verus! {

/// What the hardware says about the jack behind a device's active output.
#[derive(Clone, Copy, Debug, PartialEq, Eq, Structural)]
pub enum PortAvailability {
    /// The device has no physical output (a virtual or software device), or
    /// its output cannot detect a plug. Such a device counts as usable.
    Unknown,
    /// Something is plugged in.
    Available,
    /// Nothing is plugged in.
    Unavailable,
}

/// An output device known to the audio server.
#[derive(Clone, Debug, PartialEq, Eq)]
pub struct Device {
    /// The identifier the server gave the device. Identifiers need not be
    /// contiguous.
    pub index: u32,
    /// The stable machine name, where the server reports one.
    pub name: Option<String>,
    /// The text shown to a user, where the server reports one.
    pub description: Option<String>,
    /// The plug status of the device's active output.
    pub availability: PortAvailability,
}

/// A live stream that plays on some device. Stream identifiers and device
/// identifiers are unrelated numbers.
#[derive(Clone, Copy, Debug, PartialEq, Eq)]
pub struct ApplicationStream {
    /// The identifier of the stream.
    pub index: u32,
    /// The identifier of the device the stream plays on.
    pub device_index: u32,
}

/// The identifiers of `devices`, in the same order.
pub open spec fn indices(devices: Seq<Device>) -> Seq<u32> {
    devices.map_values(|d: Device| d.index)
}

/// Each identifier is smaller than every later one. This is the order in
/// which the server lists its devices.
pub open spec fn strictly_ascending(indices: Seq<u32>) -> bool {
    forall|i: int, j: int| 0 <= i < j < indices.len() ==> indices[i] < indices[j]
}

/// Whether `devices` is in strictly ascending order of identifier.
pub fn is_strictly_ascending(devices: &Vec<Device>) -> (ascending: bool)
    ensures
        ascending == strictly_ascending(indices(devices@)),
{
    let mut i: usize = 1;
    while i < devices.len()
        invariant
            1 <= i,
            forall|a: int, b: int|
                0 <= a < b < i && b < devices.len() ==> devices[a].index < devices[b].index,
        decreases devices.len() - i,
    {
        if devices[i - 1].index >= devices[i].index {
            assert(indices(devices@)[i - 1] >= indices(devices@)[i as int]);
            return false;
        }
        assert forall|a: int, b: int| 0 <= a < b < i + 1 && b < devices.len() implies devices[a].index
            < devices[b].index by {
            if b == i && a < i - 1 {
                assert(devices[a].index < devices[i - 1].index);
            }
        }
        i += 1;
    }
    assert forall|a: int, b: int| 0 <= a < b < indices(devices@).len() implies indices(
        devices@,
    )[a] < indices(devices@)[b] by {
        assert(devices[a].index < devices[b].index);
    }
    true
}

} // verus!
