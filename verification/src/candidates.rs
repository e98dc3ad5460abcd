//! Which devices may become the next default.
//!
//! A device whose output is known to be unplugged is passed over, with one
//! exception: the current default always stays in the running, so that the
//! place to continue from is never lost.

use crate::device::{indices, strictly_ascending, Device, PortAvailability};
use vstd::prelude::*;

verus! {

/// A device may become the next default when it is the current default or
/// its output is not known to be unplugged.
pub open spec fn is_candidate(device: Device, default_index: u32) -> bool {
    device.index == default_index || device.availability != PortAvailability::Unavailable
}

/// The candidates among `devices`, in the order of `devices`.
pub open spec fn candidates(devices: Seq<Device>, default_index: u32) -> Seq<Device> {
    devices.filter(|d: Device| is_candidate(d, default_index))
}

/// The devices of the list whose output is not known to be unplugged: the
/// candidates whoever is the default.
pub open spec fn usable(devices: Seq<Device>) -> Seq<Device> {
    devices.filter(|d: Device| d.availability != PortAvailability::Unavailable)
}

/// The devices that a list of borrowed devices points to.
pub open spec fn borrowed(devices: Seq<&Device>) -> Seq<Device> {
    devices.map_values(|d: &Device| *d)
}

/// Whether `device` may become the next default.
pub fn qualifies(device: &Device, default_device: &Device) -> (eligible: bool)
    ensures
        eligible == is_candidate(*device, default_device.index),
{
    device.index == default_device.index || match device.availability {
        PortAvailability::Unavailable => false,
        _ => true,
    }
}

/// Picks the candidates out of `devices`. The result keeps the order of
/// `devices` and borrows from it; `devices` itself is left as it is.
pub fn filter_candidates<'a>(devices: &'a Vec<Device>, default_device: &Device) -> (kept: Vec<
    &'a Device,
>)
    ensures
        borrowed(kept@) == candidates(devices@, default_device.index),
        indices(devices@).contains(default_device.index) ==> kept@.len() > 0,
{
    proof {
        if indices(devices@).contains(default_device.index) {
            lemma_default_stays(devices@, default_device.index);
        }
    }
    let ghost keep = |d: Device| is_candidate(d, default_device.index);
    let mut kept: Vec<&'a Device> = Vec::new();
    let mut i: usize = 0;
    assert(devices@.take(0) =~= Seq::<Device>::empty());
    assert(borrowed(kept@) =~= devices@.take(0).filter(keep)) by {
        reveal(Seq::filter);
    }
    while i < devices.len()
        invariant
            i <= devices.len(),
            keep == |d: Device| is_candidate(d, default_device.index),
            borrowed(kept@) == devices@.take(i as int).filter(keep),
        decreases devices.len() - i,
    {
        let device = &devices[i];
        proof {
            let before = devices@.take(i as int);
            let now = devices@.take(i + 1);
            assert(now.drop_last() =~= before);
            assert(now.last() == devices[i as int]);
            reveal(Seq::filter);
            assert(now.filter(keep) == if keep(devices[i as int]) {
                before.filter(keep).push(devices[i as int])
            } else {
                before.filter(keep)
            });
        }
        if qualifies(device, default_device) {
            let ghost earlier = kept@;
            kept.push(device);
            assert(borrowed(kept@) =~= borrowed(earlier).push(*device));
        }
        i += 1;
    }
    assert(devices@.take(devices.len() as int) =~= devices@);
    kept
}

/// Filtering neither invents a device nor drops a candidate: what is kept
/// are devices of the list that qualify, and every device of the list that
/// qualifies is kept.
pub proof fn lemma_candidates_members(devices: Seq<Device>, default_index: u32)
    ensures
        candidates(devices, default_index).len() <= devices.len(),
        forall|k: int|
            0 <= k < candidates(devices, default_index).len() ==> {
                &&& is_candidate(#[trigger] candidates(devices, default_index)[k], default_index)
                &&& devices.contains(candidates(devices, default_index)[k])
            },
        forall|i: int|
            0 <= i < devices.len() && is_candidate(devices[i], default_index) ==> candidates(
                devices,
                default_index,
            ).contains(#[trigger] devices[i]),
{
    let keep = |d: Device| is_candidate(d, default_index);
    let kept = devices.filter(keep);
    broadcast use Seq::lemma_filter_len, Seq::lemma_filter_pred, Seq::lemma_filter_contains;

    assert forall|k: int| 0 <= k < kept.len() implies devices.contains(#[trigger] kept[k]) by {
        assert(kept.contains(kept[k]));
        devices.lemma_filter_contains_rev(keep, kept[k]);
    }
    assert forall|i: int| 0 <= i < devices.len() && is_candidate(
        devices[i],
        default_index,
    ) implies kept.contains(#[trigger] devices[i]) by {
        assert(keep(devices[i]));
    }
}

/// Where the current default is among the devices, it is among the
/// candidates too, whatever its plug status: the candidates are not empty.
pub proof fn lemma_default_stays(devices: Seq<Device>, default_index: u32)
    requires
        indices(devices).contains(default_index),
    ensures
        candidates(devices, default_index).len() > 0,
        indices(candidates(devices, default_index)).contains(default_index),
{
    let kept = candidates(devices, default_index);
    let i = choose|i: int| 0 <= i < indices(devices).len() && indices(devices)[i] == default_index;
    assert(is_candidate(devices[i], default_index));
    lemma_candidates_members(devices, default_index);
    assert(kept.contains(devices[i]));
    let k = choose|k: int| 0 <= k < kept.len() && kept[k] == devices[i];
    assert(indices(kept)[k] == default_index);
}

/// Filtering keeps the relative order: of two candidates, the one that
/// comes first among the candidates came first in the list.
pub proof fn lemma_candidates_keep_order(devices: Seq<Device>, default_index: u32)
    ensures
        forall|a: int, b: int|
            #![trigger candidates(devices, default_index)[a], candidates(devices, default_index)[b]]
            0 <= a < b < candidates(devices, default_index).len() ==> exists|i: int, j: int|
                #![trigger devices[i], devices[j]]
                0 <= i < j < devices.len() && devices[i] == candidates(devices, default_index)[a]
                    && devices[j] == candidates(devices, default_index)[b],
    decreases devices.len(),
{
    let keep = |d: Device| is_candidate(d, default_index);
    let kept = devices.filter(keep);
    reveal(Seq::filter);
    if devices.len() > 0 {
        let front = devices.drop_last();
        let front_kept = front.filter(keep);
        lemma_candidates_keep_order(front, default_index);
        lemma_candidates_members(front, default_index);
        assert forall|a: int, b: int|
            #![trigger kept[a], kept[b]]
            0 <= a < b < kept.len() implies exists|i: int, j: int|
            #![trigger devices[i], devices[j]]
            0 <= i < j < devices.len() && devices[i] == kept[a] && devices[j] == kept[b] by {
            if b < front_kept.len() {
                assert(kept[a] == front_kept[a] && kept[b] == front_kept[b]);
                let (i, j) = choose|i: int, j: int|
                    #![trigger front[i], front[j]]
                    0 <= i < j < front.len() && front[i] == front_kept[a] && front[j]
                        == front_kept[b];
                assert(devices[i] == kept[a] && devices[j] == kept[b]);
            } else {
                assert(kept[a] == front_kept[a]);
                assert(front.contains(front_kept[a]));
                let i = choose|i: int| 0 <= i < front.len() && front[i] == front_kept[a];
                let j = devices.len() - 1;
                assert(devices[i] == kept[a] && devices[j] == kept[b]);
            }
        }
    }
}

/// Candidates of a list in strictly ascending order of identifier are in
/// strictly ascending order themselves.
pub proof fn lemma_candidates_ascending(devices: Seq<Device>, default_index: u32)
    requires
        strictly_ascending(indices(devices)),
    ensures
        strictly_ascending(indices(candidates(devices, default_index))),
{
    let kept = candidates(devices, default_index);
    lemma_candidates_keep_order(devices, default_index);
    assert forall|a: int, b: int| 0 <= a < b < indices(kept).len() implies indices(kept)[a]
        < indices(kept)[b] by {
        let (i, j) = choose|i: int, j: int|
            #![trigger devices[i], devices[j]]
            0 <= i < j < devices.len() && devices[i] == kept[a] && devices[j] == kept[b];
        assert(indices(devices)[i] < indices(devices)[j]);
    }
}

/// Two tests that agree on every element of a list pick the same elements.
proof fn lemma_filter_agrees(
    devices: Seq<Device>,
    first: spec_fn(Device) -> bool,
    second: spec_fn(Device) -> bool,
)
    requires
        forall|i: int| 0 <= i < devices.len() ==> first(devices[i]) == second(devices[i]),
    ensures
        devices.filter(first) == devices.filter(second),
    decreases devices.len(),
{
    reveal(Seq::filter);
    if devices.len() > 0 {
        let front = devices.drop_last();
        assert forall|i: int| 0 <= i < front.len() implies first(front[i]) == second(
            front[i],
        ) by {
            assert(front[i] == devices[i]);
        }
        lemma_filter_agrees(front, first, second);
        assert(first(devices.last()) == second(devices.last()));
    }
}

/// While the default is a device that can be used anyway, it makes no
/// difference to the candidates which device it is: where no two devices
/// share an identifier, the candidates are the usable devices.
pub proof fn lemma_usable_default(devices: Seq<Device>, place: int)
    requires
        indices(devices).no_duplicates(),
        0 <= place < devices.len(),
        devices[place].availability != PortAvailability::Unavailable,
    ensures
        candidates(devices, devices[place].index) == usable(devices),
{
    let default_index = devices[place].index;
    let first = |d: Device| is_candidate(d, default_index);
    let second = |d: Device| d.availability != PortAvailability::Unavailable;
    assert forall|i: int| 0 <= i < devices.len() implies first(devices[i]) == second(
        devices[i],
    ) by {
        if devices[i].index == default_index {
            assert(indices(devices)[i] == indices(devices)[place]);
        }
    }
    lemma_filter_agrees(devices, first, second);
}

} // verus!
