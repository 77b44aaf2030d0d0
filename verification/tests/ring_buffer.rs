use rust_exercises::ring_buffer::{plan_copy, RingState};

#[test]
fn plan_without_wrap() {
    let plan = plan_copy(2, 7, 8, 4);
    assert_eq!((plan.physical_start, plan.first_part, plan.second_part), (2, 4, 0));
}

#[test]
fn plan_with_wrap() {
    let plan = plan_copy(6, 7, 8, 5);
    assert_eq!((plan.physical_start, plan.first_part, plan.second_part), (6, 2, 3));
    // Logical position 13 maps to slot 13 & 7 == 5.
    let plan = plan_copy(13, 7, 8, 3);
    assert_eq!((plan.physical_start, plan.first_part, plan.second_part), (5, 3, 0));
}

#[test]
fn plan_with_a_mask_that_is_not_one_less_than_a_power_of_two() {
    // 10 & 9 == 8: the slot is taken by masking, not by a remainder.
    let plan = plan_copy(10, 9, 10, 4);
    assert_eq!((plan.physical_start, plan.first_part, plan.second_part), (8, 2, 2));
}

#[test]
fn read_gives_back_what_was_written() {
    let mut ring = RingState::new(8, 0u32);
    ring.write_samples(&[1, 2, 3]);
    assert_eq!(ring.get_head(), 3);
    let mut dest = [0u32; 3];
    ring.copy_to_slice(0, &mut dest);
    assert_eq!(dest, [1, 2, 3]);
}

#[test]
fn writes_wrap_around_the_end() {
    let mut ring = RingState::new(4, 0i64);
    ring.write_samples(&[1, 2, 3]);
    ring.write_samples(&[4, 5, 6]);
    assert_eq!(ring.get_head(), 6);
    let mut dest = [0i64; 3];
    ring.copy_to_slice(3, &mut dest);
    assert_eq!(dest, [4, 5, 6]);
    let mut whole = [0i64; 4];
    ring.copy_to_slice(0, &mut whole);
    assert_eq!(whole, [5, 6, 3, 4]);
}

#[test]
fn fresh_ring_holds_the_fill_value() {
    let ring = RingState::new(3, 9u8);
    let mut dest = [0u8; 3];
    ring.copy_to_slice(7, &mut dest);
    assert_eq!(dest, [9, 9, 9]);
    assert_eq!(ring.get_head(), 0);
}

#[test]
fn empty_write_changes_nothing() {
    let mut ring = RingState::new(2, 1u16);
    ring.write_samples(&[]);
    assert_eq!(ring.get_head(), 0);
    let mut dest = [0u16; 2];
    ring.copy_to_slice(0, &mut dest);
    assert_eq!(dest, [1, 1]);
}

#[test]
fn plan_for_runs_longer_than_the_ring() {
    let plan = plan_copy(3, 3, 4, 5);
    assert_eq!((plan.physical_start, plan.first_part, plan.second_part), (3, 1, 4));
    let plan = plan_copy(0, 3, 4, 9);
    assert_eq!((plan.physical_start, plan.first_part, plan.second_part), (0, 4, 5));
}

#[test]
fn a_run_longer_than_the_ring_keeps_its_last_samples() {
    let mut ring = RingState::new(4, 0i32);
    ring.write_samples(&[1, 2, 3, 4, 5, 6]);
    assert_eq!(ring.get_head(), 6);
    let mut whole = [0i32; 4];
    ring.copy_to_slice(0, &mut whole);
    assert_eq!(whole, [5, 6, 3, 4]);
    let mut long = [0i32; 6];
    ring.copy_to_slice(0, &mut long);
    assert_eq!(long, [5, 6, 3, 4, 5, 6]);
}

#[test]
fn a_long_run_from_the_last_slot_overwrites_its_own_start() {
    let mut ring = RingState::new(4, 0i32);
    ring.write_samples(&[7, 8, 9]);
    ring.write_samples(&[10, 11, 12, 13, 14]);
    assert_eq!(ring.get_head(), 8);
    let mut whole = [0i32; 4];
    ring.copy_to_slice(0, &mut whole);
    assert_eq!(whole, [11, 12, 13, 14]);
    let mut last = [0i32; 4];
    ring.copy_to_slice(4, &mut last);
    assert_eq!(last, [11, 12, 13, 14]);
}

#[test]
fn head_counts_every_sample_written() {
    let mut ring = RingState::new(8, 0u8);
    ring.write_samples(&[1, 2, 3]);
    ring.write_samples(&[4]);
    ring.write_samples(&[5, 6, 7, 8, 9, 10]);
    assert_eq!(ring.get_head(), 10);
    let mut dest = [0u8; 8];
    ring.copy_to_slice(2, &mut dest);
    assert_eq!(dest, [3, 4, 5, 6, 7, 8, 9, 10]);
}
