use param_transfer::bit_words::word_and_bit;
use param_transfer::parameter_transfer::ParameterTransfer;

#[test]
fn word_and_bit_mapping() {
    assert_eq!(word_and_bit(0), (0, 1));
    assert_eq!(word_and_bit(5), (0, 1 << 5));
    assert_eq!(word_and_bit(63), (0, 1 << 63));
    assert_eq!(word_and_bit(64), (1, 1));
    assert_eq!(word_and_bit(130), (2, 1 << 2));
}

#[test]
fn new_table_is_zero_and_clean() {
    let mut pt = ParameterTransfer::new(100);
    assert_eq!(pt.parameter_count(), 100);
    for i in 0..100 {
        assert_eq!(pt.get_parameter(i), 0);
        assert_eq!(f32::from_bits(pt.get_parameter(i)), 0.0);
    }
    assert!(pt.drain(true).is_empty());
}

#[test]
fn set_then_get_is_bit_exact() {
    let mut pt = ParameterTransfer::new(100);
    pt.set_parameter(7, 0.25f32.to_bits());
    assert_eq!(f32::from_bits(pt.get_parameter(7)), 0.25);
    let nan = f32::NAN.to_bits() ^ 0x0000_0001;
    pt.set_parameter(99, nan);
    assert_eq!(pt.get_parameter(99), nan);
}

#[test]
fn drain_yields_every_written_slot() {
    let mut pt = ParameterTransfer::new(100);
    pt.set_parameter(0, 10);
    pt.set_parameter(31, 20);
    pt.set_parameter(32, 30);
    pt.set_parameter(63, 40);
    pt.set_parameter(64, 50);
    pt.set_parameter(99, 60);
    let got = pt.drain(true);
    assert_eq!(got, vec![(0, 10), (31, 20), (32, 30), (63, 40), (64, 50), (99, 60)]);
}

#[test]
fn last_write_wins_under_coalescing() {
    let mut pt = ParameterTransfer::new(100);
    pt.set_parameter(5, 1.0f32.to_bits());
    pt.set_parameter(5, 2.0f32.to_bits());
    let got = pt.drain(true);
    assert_eq!(got, vec![(5, 2.0f32.to_bits())]);
    assert_eq!(f32::from_bits(pt.get_parameter(5)), 2.0);
}

#[test]
fn nonclearing_drain_is_idempotent() {
    let mut pt = ParameterTransfer::new(100);
    pt.set_parameter(3, 7);
    pt.set_parameter(70, 8);
    let first = pt.drain(false);
    let second = pt.drain(false);
    assert_eq!(first, vec![(3, 7), (70, 8)]);
    assert_eq!(first, second);
}

#[test]
fn nonclearing_drain_keeps_marks_and_sees_new_ones() {
    let mut pt = ParameterTransfer::new(100);
    pt.set_parameter(3, 7);
    assert_eq!(pt.drain(false), vec![(3, 7)]);
    pt.set_parameter(1, 9);
    assert_eq!(pt.drain(false), vec![(1, 9), (3, 7)]);
}

#[test]
fn clearing_drain_converges_by_second_call() {
    let mut pt = ParameterTransfer::new(100);
    pt.set_parameter(5, 1);
    pt.set_parameter(95, 2);
    assert_eq!(pt.drain(true).len(), 2);
    assert!(pt.drain(true).is_empty());
    assert!(pt.drain(true).is_empty());
}

#[test]
fn out_of_range_set_is_rejected() {
    let mut pt = ParameterTransfer::new(100);
    assert!(!pt.try_set_parameter(100, 1));
    assert!(!pt.try_set_parameter(130, 1));
    assert!(pt.try_set_parameter(99, 5));
    assert_eq!(pt.drain(true), vec![(99, 5)]);
}

#[test]
fn scenario_full_cycle() {
    let mut pt = ParameterTransfer::new(128);
    assert!(pt.try_set_parameter(5, 1.0f32.to_bits()));
    assert!(!pt.try_set_parameter(130, 1.0f32.to_bits()));
    assert!(pt.try_set_parameter(5, 2.0f32.to_bits()));
    assert!(pt.try_set_parameter(64, 0.5f32.to_bits()));
    let got = pt.drain(true);
    assert_eq!(got, vec![(5, 2.0f32.to_bits()), (64, 0.5f32.to_bits())]);
    assert!(pt.drain(true).is_empty());
}

#[test]
fn cursor_is_resumable_and_acquires_one_mark_at_a_time() {
    let mut pt = ParameterTransfer::new(100);
    pt.set_parameter(2, 11);
    pt.set_parameter(66, 22);
    let mut it = pt.iterate(true);
    assert_eq!(it.next(&mut pt), Some((2, 11)));
    pt.set_parameter(1, 33);
    assert_eq!(it.next(&mut pt), Some((66, 22)));
    assert_eq!(it.next(&mut pt), None);
    assert_eq!(pt.drain(true), vec![(1, 33)]);
}

#[test]
fn nonacquiring_cursor_leaves_marks() {
    let mut pt = ParameterTransfer::new(100);
    pt.set_parameter(9, 1);
    let mut it = pt.iterate(false);
    assert_eq!(it.next(&mut pt), Some((9, 1)));
    assert_eq!(it.next(&mut pt), None);
    assert_eq!(pt.drain(false), vec![(9, 1)]);
}

#[test]
fn empty_table_drains_empty() {
    let mut pt = ParameterTransfer::new(0);
    assert_eq!(pt.parameter_count(), 0);
    assert!(pt.drain(true).is_empty());
    assert!(!pt.try_set_parameter(0, 1));
}

#[test]
fn word_boundary_sizes() {
    let mut pt = ParameterTransfer::new(64);
    pt.set_parameter(63, 3);
    assert_eq!(pt.drain(true), vec![(63, 3)]);
    let mut pt = ParameterTransfer::new(65);
    pt.set_parameter(64, 4);
    pt.set_parameter(63, 5);
    assert_eq!(pt.drain(true), vec![(63, 5), (64, 4)]);
}
