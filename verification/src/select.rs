//! The successor of the current default among the candidates.
//!
//! Cycling goes by position, not by number: the successor of a device is the
//! candidate listed after it, whatever its identifier, and after the last
//! candidate comes the first one again.
//!
//! Whether the end of the list has been reached is decided by magnitude: the
//! current default counts as last when its identifier is not smaller than
//! that of the last candidate. On a list in ascending order that holds the
//! current default this is the same as asking whether it stands in the last
//! place. On other lists the two differ, and the comparison by magnitude is
//! the one that is kept here.

use crate::candidates::{
    borrowed, candidates, filter_candidates, is_candidate, lemma_candidates_ascending,
    lemma_candidates_members, lemma_usable_default, usable,
};
use crate::device::{indices, strictly_ascending, Device, PortAvailability};
use crate::error::SwitchError;
use vstd::prelude::*;

verus! {

/// The last place at which `wanted` stands in `indices`, if it stands there
/// at all.
pub open spec fn last_position(indices: Seq<u32>, wanted: u32) -> Option<int>
    decreases indices.len(),
{
    if indices.len() == 0 {
        None
    } else if indices.last() == wanted {
        Some(indices.len() - 1)
    } else {
        last_position(indices.drop_last(), wanted)
    }
}

/// The identifier to switch to, given the candidates' identifiers in order
/// and the identifier of the current default.
///
/// * While the current default is smaller than the last candidate, the
///   answer is the candidate listed right after the current default. A
///   current default that is not listed has no successor, and the answer is
///   `NotFound`.
/// * Otherwise the answer is the first candidate.
/// * An empty list holds no current default: the answer is `NotFound`.
pub open spec fn successor(indices: Seq<u32>, current: u32) -> Result<u32, SwitchError> {
    if indices.len() == 0 {
        Err(SwitchError::NotFound { index: current })
    } else if current < indices.last() {
        match last_position(indices, current) {
            Some(place) => Ok(indices[place + 1]),
            None => Err(SwitchError::NotFound { index: current }),
        }
    } else {
        Ok(indices.first())
    }
}

/// The identifier to switch to from a list of devices: the successor of the
/// current default among the candidates of the list.
pub open spec fn next_target_of(devices: Seq<Device>, default_index: u32) -> Result<
    u32,
    SwitchError,
> {
    successor(indices(candidates(devices, default_index)), default_index)
}

/// What `last_position` finds is the greatest place that holds `wanted`,
/// and it finds nothing only where `wanted` does not occur.
pub proof fn lemma_last_position(indices: Seq<u32>, wanted: u32)
    ensures
        match last_position(indices, wanted) {
            Some(place) => {
                &&& 0 <= place < indices.len()
                &&& indices[place] == wanted
                &&& forall|j: int| place < j < indices.len() ==> indices[j] != wanted
            },
            None => !indices.contains(wanted),
        },
    decreases indices.len(),
{
    if indices.len() == 0 {
    } else if indices.last() == wanted {
    } else {
        let front = indices.drop_last();
        lemma_last_position(front, wanted);
        match last_position(front, wanted) {
            Some(place) => {
                assert(indices[place] == front[place]);
                assert forall|j: int| place < j < indices.len() implies indices[j] != wanted by {
                    if j < front.len() {
                        assert(front[j] == indices[j]);
                    }
                }
            },
            None => {
                if indices.contains(wanted) {
                    let j = choose|j: int| 0 <= j < indices.len() && indices[j] == wanted;
                    assert(front[j] == wanted);
                    assert(front.contains(wanted));
                }
            },
        }
    }
}

/// Computes the identifier to switch to from the candidates and the
/// identifier of the current default. Nothing is read but the two arguments.
pub fn select_next(candidates: &Vec<&Device>, current_default_index: u32) -> (target: Result<
    u32,
    SwitchError,
>)
    ensures
        target == successor(indices(borrowed(candidates@)), current_default_index),
{
    let ghost listed = indices(borrowed(candidates@));
    let count = candidates.len();
    if count == 0 {
        return Err(SwitchError::NotFound { index: current_default_index });
    }
    assert(listed.last() == candidates[count - 1].index);
    if current_default_index < candidates[count - 1].index {
        let mut found: Option<usize> = None;
        let mut i: usize = 0;
        while i < count
            invariant
                i <= count,
                count == candidates.len(),
                listed == indices(borrowed(candidates@)),
                match found {
                    Some(place) => last_position(listed.take(i as int), current_default_index)
                        == Some(place as int),
                    None => last_position(listed.take(i as int), current_default_index)
                        is None,
                },
            decreases count - i,
        {
            proof {
                assert(listed.take(i + 1).drop_last() =~= listed.take(i as int));
                assert(listed.take(i + 1).last() == candidates[i as int].index);
            }
            if candidates[i].index == current_default_index {
                found = Some(i);
            }
            i += 1;
        }
        proof {
            assert(listed.take(count as int) =~= listed);
            lemma_last_position(listed, current_default_index);
        }
        match found {
            Some(place) => {
                assert(place + 1 < count);
                assert(listed[place + 1] == candidates[place + 1].index);
                Ok(candidates[place + 1].index)
            },
            None => Err(SwitchError::NotFound { index: current_default_index }),
        }
    } else {
        assert(listed.first() == candidates[0].index);
        Ok(candidates[0].index)
    }
}

/// Computes the identifier to switch to from the devices as the server
/// lists them and the current default: filters, then selects.
pub fn next_target(devices: &Vec<Device>, default_device: &Device) -> (target: Result<
    u32,
    SwitchError,
>)
    ensures
        target == next_target_of(devices@, default_device.index),
{
    let kept = filter_candidates(devices, default_device);
    select_next(&kept, default_device.index)
}

/// When there is a successor and when there is none: the answer is
/// `NotFound` exactly for an empty list and for a current default that is
/// smaller than the last candidate without being listed, and every other
/// answer is a listed identifier.
pub proof fn lemma_successor_outcome(indices: Seq<u32>, current: u32)
    ensures
        match successor(indices, current) {
            Ok(target) => indices.contains(target),
            Err(e) => e == (SwitchError::NotFound { index: current }),
        },
        successor(indices, current) is Err <==> indices.len() == 0 || (current < indices.last()
            && !indices.contains(current)),
{
    lemma_last_position(indices, current);
    if indices.len() > 0 {
        if current < indices.last() {
            match last_position(indices, current) {
                Some(place) => {
                    assert(place + 1 < indices.len());
                    assert(indices.contains(indices[place + 1]));
                    assert(indices.contains(current));
                },
                None => {},
            }
        } else {
            assert(indices.contains(indices[0]));
        }
    }
}

/// A single candidate that is the current default is its own successor:
/// switching to it changes nothing and is no error.
pub proof fn lemma_single_candidate(indices: Seq<u32>, current: u32)
    requires
        indices.len() == 1,
        indices[0] == current,
    ensures
        successor(indices, current) == Ok::<u32, SwitchError>(current),
{
}

/// The place that follows `place` on a round of `count` places.
pub open spec fn next_place(place: int, count: int) -> int {
    if place + 1 < count {
        place + 1
    } else {
        0
    }
}

/// On a list in strictly ascending order the successor of a listed
/// identifier is the one in the next place, and that of the last one is the
/// first.
pub proof fn lemma_successor_by_place(indices: Seq<u32>, place: int)
    requires
        strictly_ascending(indices),
        0 <= place < indices.len(),
    ensures
        successor(indices, indices[place]) == Ok::<u32, SwitchError>(
            indices[next_place(place, indices.len() as int)],
        ),
{
    lemma_last_position(indices, indices[place]);
    if place + 1 < indices.len() {
        assert(indices[place] < indices[indices.len() - 1]);
        match last_position(indices, indices[place]) {
            Some(found) => {
                if found < place {
                    assert(indices[found] < indices[place]);
                }
            },
            None => {
                assert(indices.contains(indices[place]));
            },
        }
    }
}

/// Where the default stands after `switches` switches in a row, each to the
/// successor of the one before, over one unchanged list of candidates.
pub open spec fn after_switches(indices: Seq<u32>, start: u32, switches: nat) -> Result<
    u32,
    SwitchError,
>
    decreases switches,
{
    if switches == 0 {
        Ok(start)
    } else {
        match after_switches(indices, start, (switches - 1) as nat) {
            Ok(current) => successor(indices, current),
            Err(e) => Err(e),
        }
    }
}

/// The place reached from `place` after `steps` steps round `count` places,
/// for no more steps than there are places.
spec fn place_after(place: int, steps: int, count: int) -> int {
    if place + steps < count {
        place + steps
    } else {
        place + steps - count
    }
}

proof fn lemma_switches_by_place(indices: Seq<u32>, place: int, switches: nat)
    requires
        strictly_ascending(indices),
        0 <= place < indices.len(),
        switches <= indices.len(),
    ensures
        0 <= place_after(place, switches as int, indices.len() as int) < indices.len(),
        after_switches(indices, indices[place], switches) == Ok::<u32, SwitchError>(
            indices[place_after(place, switches as int, indices.len() as int)],
        ),
    decreases switches,
{
    if switches > 0 {
        let before = place_after(place, switches - 1, indices.len() as int);
        lemma_switches_by_place(indices, place, (switches - 1) as nat);
        lemma_successor_by_place(indices, before);
        assert(next_place(before, indices.len() as int) == place_after(
            place,
            switches as int,
            indices.len() as int,
        ));
    }
}

/// Cycling comes full circle. Over a list of candidates in strictly
/// ascending order, starting from a listed default, as many switches as
/// there are candidates lead back to the start, and no smaller number of
/// switches does.
pub proof fn lemma_full_cycle(indices: Seq<u32>, start: u32)
    requires
        strictly_ascending(indices),
        indices.contains(start),
    ensures
        after_switches(indices, start, indices.len()) == Ok::<u32, SwitchError>(start),
        forall|switches: nat|
            0 < switches < indices.len() ==> #[trigger] after_switches(indices, start, switches)
                != Ok::<u32, SwitchError>(start),
{
    let place = choose|i: int| 0 <= i < indices.len() && indices[i] == start;
    let count = indices.len() as int;
    lemma_switches_by_place(indices, place, indices.len());
    assert forall|switches: nat| 0 < switches < indices.len() implies #[trigger] after_switches(
        indices,
        start,
        switches,
    ) != Ok::<u32, SwitchError>(start) by {
        lemma_switches_by_place(indices, place, switches);
        let reached = place_after(place, switches as int, count);
        if reached < place {
            assert(indices[reached] < indices[place]);
        } else {
            assert(indices[place] < indices[reached]);
        }
    }
}

/// The successor among candidates is a candidate. Where every listed
/// device is the current default or has an output that is not known to be
/// unplugged, the identifier that comes out belongs to such a device.
pub proof fn lemma_successor_is_usable(listed: Seq<Device>, current: u32)
    requires
        forall|k: int| 0 <= k < listed.len() ==> is_candidate(#[trigger] listed[k], current),
    ensures
        match successor(indices(listed), current) {
            Ok(target) => exists|k: int|
                0 <= k < listed.len() && (#[trigger] listed[k]).index == target && (target
                    == current || listed[k].availability != PortAvailability::Unavailable),
            Err(e) => e == (SwitchError::NotFound { index: current }),
        },
{
    lemma_successor_outcome(indices(listed), current);
    if let Ok(target) = successor(indices(listed), current) {
        let k = choose|k: int| 0 <= k < indices(listed).len() && indices(listed)[k] == target;
        assert(is_candidate(listed[k], current));
        assert(listed[k].index == target);
    }
}

/// The device switched to can be used. Whatever the list and the current
/// default, an identifier that comes out belongs to a device of the list
/// that is the current default or whose output is not known to be
/// unplugged; and where nothing comes out, the current default had no
/// successor.
pub proof fn lemma_target_is_usable(devices: Seq<Device>, default_index: u32)
    ensures
        match next_target_of(devices, default_index) {
            Ok(target) => exists|i: int|
                0 <= i < devices.len() && (#[trigger] devices[i]).index == target && (target
                    == default_index || devices[i].availability != PortAvailability::Unavailable),
            Err(e) => e == (SwitchError::NotFound { index: default_index }),
        },
{
    let kept = candidates(devices, default_index);
    lemma_candidates_members(devices, default_index);
    lemma_successor_is_usable(kept, default_index);
    if let Ok(target) = next_target_of(devices, default_index) {
        let k = choose|k: int|
            0 <= k < kept.len() && (#[trigger] kept[k]).index == target && (target
                == default_index || kept[k].availability != PortAvailability::Unavailable);
        assert(devices.contains(kept[k]));
        let i = choose|i: int| 0 <= i < devices.len() && devices[i] == kept[k];
        assert(devices[i].index == target);
    }
}

/// Where no two devices of the list share an identifier, the identifier
/// that comes out is never that of a device whose output is known to be
/// unplugged, unless it is the current default itself.
pub proof fn lemma_target_never_unplugged(devices: Seq<Device>, default_index: u32, i: int)
    requires
        indices(devices).no_duplicates(),
        0 <= i < devices.len(),
        next_target_of(devices, default_index) == Ok::<u32, SwitchError>(devices[i].index),
    ensures
        devices[i].index == default_index || devices[i].availability
            != PortAvailability::Unavailable,
{
    lemma_target_is_usable(devices, default_index);
    let target = devices[i].index;
    let j = choose|j: int|
        0 <= j < devices.len() && (#[trigger] devices[j]).index == target && (target
            == default_index || devices[j].availability != PortAvailability::Unavailable);
    assert(indices(devices)[i] == indices(devices)[j]);
}

/// Where the default stands after `switches` uses of "next" in a row, each
/// filtering and selecting afresh, over one unchanged list of devices.
pub open spec fn after_nexts(devices: Seq<Device>, start: u32, switches: nat) -> Result<
    u32,
    SwitchError,
>
    decreases switches,
{
    if switches == 0 {
        Ok(start)
    } else {
        match after_nexts(devices, start, (switches - 1) as nat) {
            Ok(current) => next_target_of(devices, current),
            Err(e) => Err(e),
        }
    }
}

proof fn lemma_nexts_are_switches(devices: Seq<Device>, place: int, switches: nat)
    requires
        strictly_ascending(indices(devices)),
        0 <= place < devices.len(),
        devices[place].availability != PortAvailability::Unavailable,
        switches <= usable(devices).len(),
    ensures
        after_nexts(devices, devices[place].index, switches) == after_switches(
            indices(usable(devices)),
            devices[place].index,
            switches,
        ),
        strictly_ascending(indices(usable(devices))),
        indices(usable(devices)).contains(devices[place].index),
    decreases switches,
{
    let start = devices[place].index;
    let kept = usable(devices);
    lemma_usable_default(devices, place);
    lemma_candidates_ascending(devices, start);
    lemma_candidates_members(devices, start);
    assert(kept.contains(devices[place]));
    let at = choose|k: int| 0 <= k < kept.len() && kept[k] == devices[place];
    assert(indices(kept)[at] == start);
    if switches > 0 {
        lemma_nexts_are_switches(devices, place, (switches - 1) as nat);
        lemma_switches_by_place(indices(kept), at, (switches - 1) as nat);
        let reached = place_after(at, switches - 1, kept.len() as int);
        let current = indices(kept)[reached];
        assert(devices.contains(kept[reached]));
        let i = choose|i: int| 0 <= i < devices.len() && devices[i] == kept[reached];
        lemma_usable_default(devices, i);
        assert(next_target_of(devices, current) == successor(indices(kept), current));
    }
}

/// "Next" comes full circle. Over an unchanged list of devices in strictly
/// ascending order, starting from a default whose output is not known to
/// be unplugged, as many uses of "next" as there are usable devices lead
/// back to the start, and no smaller number does.
pub proof fn lemma_next_comes_full_circle(devices: Seq<Device>, place: int)
    requires
        strictly_ascending(indices(devices)),
        0 <= place < devices.len(),
        devices[place].availability != PortAvailability::Unavailable,
    ensures
        after_nexts(devices, devices[place].index, usable(devices).len()) == Ok::<
            u32,
            SwitchError,
        >(devices[place].index),
        forall|switches: nat|
            0 < switches < usable(devices).len() ==> #[trigger] after_nexts(
                devices,
                devices[place].index,
                switches,
            ) != Ok::<u32, SwitchError>(devices[place].index),
{
    let start = devices[place].index;
    let kept = usable(devices);
    lemma_nexts_are_switches(devices, place, kept.len());
    lemma_full_cycle(indices(kept), start);
    assert forall|switches: nat| 0 < switches < kept.len() implies #[trigger] after_nexts(
        devices,
        start,
        switches,
    ) != Ok::<u32, SwitchError>(start) by {
        lemma_nexts_are_switches(devices, place, switches);
    }
}

} // verus!
