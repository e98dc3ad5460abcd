use output_switch::candidates::{filter_candidates, qualifies};
use output_switch::device::{is_strictly_ascending, Device, PortAvailability};
use output_switch::error::SwitchError;
use output_switch::select::{next_target, select_next};

fn device(index: u32, availability: PortAvailability) -> Device {
    Device {
        index,
        name: Some(format!("sink-{}", index)),
        description: Some(format!("Device {}", index)),
        availability,
    }
}

fn plugged(index: u32) -> Device {
    device(index, PortAvailability::Available)
}

fn unplugged(index: u32) -> Device {
    device(index, PortAvailability::Unavailable)
}

fn kept_indices(devices: &Vec<Device>, default_device: &Device) -> Vec<u32> {
    filter_candidates(devices, default_device).iter().map(|d| d.index).collect()
}

fn select_among(indices: &[u32], current: u32) -> Result<u32, SwitchError> {
    let devices: Vec<Device> = indices.iter().map(|i| plugged(*i)).collect();
    let borrowed: Vec<&Device> = devices.iter().collect();
    select_next(&borrowed, current)
}

#[test]
fn unplugged_device_is_skipped_and_cycle_wraps() {
    let devices = vec![plugged(0), unplugged(2), plugged(5)];
    assert_eq!(kept_indices(&devices, &devices[0]), vec![0, 5]);
    let kept = filter_candidates(&devices, &devices[0]);
    assert_eq!(select_next(&kept, 0), Ok(5));

    assert_eq!(kept_indices(&devices, &devices[2]), vec![0, 5]);
    let kept = filter_candidates(&devices, &devices[2]);
    assert_eq!(select_next(&kept, 5), Ok(0));
}

#[test]
fn next_target_filters_then_selects() {
    let devices = vec![plugged(0), unplugged(2), plugged(5)];
    assert_eq!(next_target(&devices, &devices[0]), Ok(5));
    assert_eq!(next_target(&devices, &devices[2]), Ok(0));
}

#[test]
fn filter_keeps_order_and_borrows_the_listed_devices() {
    let devices = vec![plugged(7), unplugged(1), device(4, PortAvailability::Unknown), plugged(2)];
    let kept = filter_candidates(&devices, &devices[0]);
    assert_eq!(kept.len(), 3);
    assert!(std::ptr::eq(kept[0], &devices[0]));
    assert!(std::ptr::eq(kept[1], &devices[2]));
    assert!(std::ptr::eq(kept[2], &devices[3]));
    assert_eq!(devices.len(), 4);
}

#[test]
fn current_default_stays_a_candidate_when_unplugged() {
    let devices = vec![plugged(0), unplugged(3), plugged(8)];
    assert_eq!(kept_indices(&devices, &devices[1]), vec![0, 3, 8]);
    assert_eq!(next_target(&devices, &devices[1]), Ok(8));
}

#[test]
fn device_without_plug_detection_is_a_candidate() {
    let devices = vec![plugged(0), device(1, PortAvailability::Unknown)];
    assert_eq!(kept_indices(&devices, &devices[0]), vec![0, 1]);
    assert!(qualifies(&devices[1], &devices[0]));
}

#[test]
fn qualifies_tells_candidates_apart() {
    let current = plugged(4);
    assert!(qualifies(&plugged(9), &current));
    assert!(qualifies(&device(9, PortAvailability::Unknown), &current));
    assert!(!qualifies(&unplugged(9), &current));
    assert!(qualifies(&unplugged(4), &current));
}

#[test]
fn candidates_are_not_empty_when_the_default_is_listed() {
    let devices = vec![unplugged(0), unplugged(1), unplugged(2)];
    assert_eq!(kept_indices(&devices, &devices[1]), vec![1]);
}

#[test]
fn candidates_may_be_empty_when_the_default_is_not_listed() {
    let devices = vec![unplugged(0), unplugged(1)];
    assert_eq!(kept_indices(&devices, &plugged(9)), Vec::<u32>::new());
    assert_eq!(next_target(&devices, &plugged(9)), Err(SwitchError::NotFound { index: 9 }));
}

#[test]
fn no_devices_give_no_candidates() {
    let devices: Vec<Device> = Vec::new();
    assert!(filter_candidates(&devices, &plugged(0)).is_empty());
}

#[test]
fn successor_goes_by_position_not_by_number() {
    assert_eq!(select_among(&[3, 40, 41, 900], 3), Ok(40));
    assert_eq!(select_among(&[3, 40, 41, 900], 40), Ok(41));
    assert_eq!(select_among(&[3, 40, 41, 900], 41), Ok(900));
    assert_eq!(select_among(&[3, 40, 41, 900], 900), Ok(3));
}

#[test]
fn full_cycle_returns_to_the_start() {
    let listed = [2, 3, 11, 12, 70];
    for start in listed {
        let mut current = start;
        for round in 1..=listed.len() {
            current = select_among(&listed, current).unwrap();
            assert_eq!(current == start, round == listed.len());
        }
    }
}

#[test]
fn repeated_next_returns_to_a_usable_start() {
    let devices = vec![plugged(1), unplugged(2), device(4, PortAvailability::Unknown), plugged(9)];
    for start in [0usize, 2, 3] {
        let mut current = devices[start].index;
        for round in 1..=3 {
            let default = devices.iter().find(|d| d.index == current).unwrap();
            current = next_target(&devices, default).unwrap();
            assert_eq!(current == devices[start].index, round == 3);
        }
    }
}

#[test]
fn unplugged_start_is_left_for_good() {
    let devices = vec![plugged(1), unplugged(2), plugged(9)];
    assert_eq!(next_target(&devices, &devices[1]), Ok(9));
    assert_eq!(next_target(&devices, &devices[2]), Ok(1));
    assert_eq!(next_target(&devices, &devices[0]), Ok(9));
}

#[test]
fn single_candidate_selects_itself() {
    assert_eq!(select_among(&[6], 6), Ok(6));
    let devices = vec![unplugged(6)];
    assert_eq!(next_target(&devices, &devices[0]), Ok(6));
}

#[test]
fn single_candidate_that_is_not_the_default() {
    assert_eq!(select_among(&[5], 7), Ok(5));
    assert_eq!(select_among(&[5], 3), Err(SwitchError::NotFound { index: 3 }));
}

#[test]
fn empty_candidate_list_has_no_successor() {
    assert_eq!(select_among(&[], 0), Err(SwitchError::NotFound { index: 0 }));
}

#[test]
fn unlisted_default_below_the_last_candidate_is_not_found() {
    assert_eq!(select_among(&[0, 5, 9], 4), Err(SwitchError::NotFound { index: 4 }));
    assert_eq!(select_among(&[1, 5, 9], 0), Err(SwitchError::NotFound { index: 0 }));
}

#[test]
fn unlisted_default_above_the_last_candidate_wraps() {
    assert_eq!(select_among(&[2, 5], 7), Ok(2));
}

#[test]
fn end_of_list_is_decided_by_magnitude() {
    // 9 stands first, yet it is not smaller than the last candidate.
    assert_eq!(select_among(&[9, 4, 6], 9), Ok(9));
    // 4 is smaller than the last candidate, so its neighbour follows.
    assert_eq!(select_among(&[9, 4, 6], 4), Ok(6));
    assert_eq!(select_among(&[9, 4, 6], 6), Ok(9));
}

#[test]
fn last_of_several_equal_identifiers_counts() {
    assert_eq!(select_among(&[1, 2, 1, 3, 8], 1), Ok(3));
}

#[test]
fn target_is_never_an_unplugged_device_other_than_the_default() {
    let availabilities = [
        PortAvailability::Unknown,
        PortAvailability::Available,
        PortAvailability::Unavailable,
    ];
    for a in availabilities {
        for b in availabilities {
            for c in availabilities {
                let devices = vec![device(1, a), device(4, b), device(6, c)];
                for current in &devices {
                    let target = next_target(&devices, current).unwrap();
                    let chosen = devices.iter().find(|d| d.index == target).unwrap();
                    assert!(
                        target == current.index
                            || chosen.availability != PortAvailability::Unavailable
                    );
                }
            }
        }
    }
}

#[test]
fn ascending_order_is_recognised() {
    assert!(is_strictly_ascending(&Vec::new()));
    assert!(is_strictly_ascending(&vec![plugged(3)]));
    assert!(is_strictly_ascending(&vec![plugged(0), plugged(2), plugged(5)]));
    assert!(!is_strictly_ascending(&vec![plugged(0), plugged(2), plugged(2)]));
    assert!(!is_strictly_ascending(&vec![plugged(0), plugged(5), plugged(2)]));
    assert!(!is_strictly_ascending(&vec![plugged(1), plugged(0)]));
}
