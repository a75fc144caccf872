//! The building blocks of the tables.

use horde::raw::bitmask::BitMask;
use horde::raw::group::{self, Group, DELETED, EMPTY};
use horde::raw::probe::ProbeSeq;
use horde::raw::table::{self, Bucket, TableRef};
use horde::sync_insert_table;
use horde::sync_table::header_layout;
use horde::util::{self, Layout};
use std::mem;

fn bits(mask: BitMask) -> Vec<usize> {
    let mut iter = mask.into_iter();
    let mut all = Vec::new();
    while let Some(bit) = iter.next() {
        all.push(bit);
    }
    all
}

#[test]
fn a_mask_hands_out_its_bits_in_order() {
    assert_eq!(bits(BitMask(0b1000_0000_0001_0010)), vec![1, 4, 15]);
    assert_eq!(bits(BitMask(0)), vec![]);
    assert_eq!(BitMask(0b110).invert().0, !0b110);
    assert_eq!(BitMask(0b110).remove_lowest_bit().0, 0b100);
    assert_eq!(BitMask(0).remove_lowest_bit().0, 0);
    assert!(BitMask(0b110).any_bit_set());
    assert!(!BitMask(0).any_bit_set());
    assert_eq!(BitMask(0b110).lowest_set_bit(), Some(1));
    assert_eq!(BitMask(0).lowest_set_bit(), None);
}

#[test]
fn a_group_matches_control_bytes() {
    let mut ctrl = vec![EMPTY; 32];
    ctrl[1] = 5;
    ctrl[2] = DELETED;
    ctrl[4] = 5;
    ctrl[15] = 6;
    let group = Group::load(&ctrl, 0);
    assert_eq!(bits(group.match_byte(5)), vec![1, 4]);
    assert_eq!(bits(group.match_byte(7)), vec![]);
    assert_eq!(bits(group.match_full()), vec![1, 4, 15]);
    assert_eq!(
        bits(group.match_empty()),
        vec![0, 3, 5, 6, 7, 8, 9, 10, 11, 12, 13, 14]
    );
    assert_eq!(
        bits(group.match_empty_or_deleted()),
        vec![0, 2, 3, 5, 6, 7, 8, 9, 10, 11, 12, 13, 14]
    );
    assert_eq!(bits(Group::load(&ctrl, 4).match_byte(6)), vec![11]);
    assert!(group::is_full(5));
    assert!(!group::is_full(DELETED));
}

#[test]
fn a_probe_sequence_visits_every_group_once() {
    let mut probe = ProbeSeq { pos: 3, stride: 0 };
    let mut positions = vec![probe.pos];
    for _ in 0..3 {
        probe.move_next(63);
        positions.push(probe.pos);
    }
    assert_eq!(positions, vec![3, 19, 51, 35]);
}

#[test]
fn hashes_are_split_into_position_and_tag() {
    let hash = 0xfe00_0000_0000_0007;
    assert_eq!(table::h1(hash), 0xfe00_0000_0000_0007);
    assert_eq!(table::h2(hash), 0x7f);
    assert_eq!(table::h2(7), 0);
}

#[test]
fn elements_are_found_by_their_hashes() {
    let mut table: TableRef<u64> = TableRef::allocate(16);
    assert_eq!((table.info.bucket_mask, table.info.growth_left, table.info.tombstones), (15, 14, 0));
    for i in 0..3 {
        let slot = table.find_insert_slot(5);
        assert_eq!(slot, 5 + i as usize);
        table.insert_at(slot, i, 5);
    }
    assert_eq!(table.search(5, |x| *x == 2), Ok(7));
    assert_eq!(table.search(5, |x| *x == 3), Err(8));
    let bucket = table.find(5, |x| *x == 1).expect("it was inserted");
    assert_eq!(*bucket.as_ref(&table), 1);
    assert!(table.find(6, |x| *x == 3).is_none());

    table.remove_at(6);
    assert!(table.find(5, |x| *x == 1).is_none());
    *Bucket::new(7).as_mut(&mut table) = 20;
    assert_eq!(*table.bucket(7), 20);

    let mut iter = table.iter();
    assert_eq!(iter.next(), Some(5));
    assert_eq!(iter.next(), Some(7));
    assert_eq!(iter.next(), None);
    let mut iter = table.iter_hash(5);
    assert_eq!(iter.next(), Some(5));
    assert_eq!(iter.next(), Some(7));
    assert_eq!(iter.next(), None);
}

#[test]
fn an_empty_table_holds_nothing() {
    let table: TableRef<u64> = TableRef::empty();
    assert_eq!(table.info.buckets(), 1);
    assert_eq!(table.info.num_ctrl_bytes(), 17);
    assert!(table.find(0, |_| true).is_none());
    assert_eq!(table.iter().next(), None);
}

#[test]
fn layouts_hold_buckets_counters_and_control_bytes() {
    // Three counters, a flag and an address.
    let header = 5 * mem::size_of::<usize>();
    assert_eq!(
        header_layout(),
        Layout { size: header, align: 16 }
    );
    let (layout, offset) = TableRef::<u8>::layout(5).expect("it is small");
    assert_eq!(offset, 16);
    assert_eq!(layout.size, (16 + header).next_multiple_of(16) + 5 + 16);
    assert_eq!(layout.align, 16);
    let (layout, offset) = TableRef::<u128>::layout(16).expect("it is small");
    assert_eq!(offset, 256);
    assert_eq!(layout.size, (256 + header).next_multiple_of(16) + 16 + 16);
    assert_eq!(layout.align, 16);

    // Tables that elements are only added to have nothing but the counters there.
    let header = 3 * mem::size_of::<usize>();
    let (layout, offset) = sync_insert_table::layout::<u16>(4).expect("it is small");
    assert_eq!(offset, 8);
    assert_eq!(layout.size, (8 + header).next_multiple_of(16) + 4 + 16);
    assert_eq!(layout.align, 16);
}

#[test]
fn values_are_aligned_upwards() {
    assert_eq!(util::align_up(0, 8), Some(0));
    assert_eq!(util::align_up(13, 8), Some(16));
    assert_eq!(util::align_up(16, 8), Some(16));
    assert_eq!(util::align_up(usize::MAX, 8), None);
    assert_eq!(
        Layout::from_size_align(24, 8),
        Some(Layout { size: 24, align: 8 })
    );
    assert_eq!(Layout::from_size_align(isize::MAX as usize, 8), None);
    assert_eq!(Layout::from_size_align(usize::MAX, 1), None);
}

#[test]
fn hints_do_not_change_values() {
    assert!(util::likely(true));
    assert!(!util::likely(false));
    assert!(util::unlikely(true));
    assert!(!util::unlikely(false));
    assert_eq!(util::cold_path(|| 3), 3);
}

/// Searches for `value` with the hash `hash`, taking each control byte from any of the states.
fn search_mixed(
    states: &[Vec<u8>],
    items: &TableRef<u64>,
    hash: u64,
    value: u64,
    seed: &mut u64,
) -> Option<usize> {
    let mask = items.info.bucket_mask;
    let mut probe = items.info.probe_seq(hash);
    for _ in 0..=mask {
        let mixed: Vec<u8> = (0..states[0].len())
            .map(|place| {
                *seed ^= *seed << 13;
                *seed ^= *seed >> 7;
                *seed ^= *seed << 17;
                states[(*seed >> 20) as usize % states.len()][place]
            })
            .collect();
        let group = Group::load(&mixed, probe.pos);
        for offset in bits(group.match_byte(table::h2(hash))) {
            let index = (probe.pos + offset) & mask;
            if *items.bucket(index) == value {
                return Some(index);
            }
        }
        if group.match_empty().any_bit_set() {
            return None;
        }
        probe.move_next(mask);
    }
    panic!("the search did not end");
}

#[test]
fn a_search_during_writes_is_right_for_one_of_the_states() {
    let hash = |value: u64| (value % 5) << 57 | value % 7;
    let mut seed = 0x9E37_79B9_7F4A_7C15;
    let mut table: TableRef<u64> = TableRef::allocate(32);
    let mut present = vec![[false; 40]];
    let mut states = vec![table.ctrl.clone()];
    for round in 0..28u64 {
        if round % 3 == 2 {
            let value = round / 2;
            if let Ok(index) = table.search(hash(value), |x| *x == value) {
                table.remove_at(index);
            }
        } else {
            let slot = table.find_insert_slot(hash(round));
            table.insert_at(slot, round, hash(round));
        }
        let mut now = [false; 40];
        for (value, there) in now.iter_mut().enumerate() {
            let value = value as u64;
            *there = table.search(hash(value), |x| *x == value).is_ok();
        }
        present.push(now);
        states.push(table.ctrl.clone());
    }
    for from in 0..states.len() {
        for to in from..states.len() {
            for value in 0..40u64 {
                let found =
                    search_mixed(&states[from..=to], &table, hash(value), value, &mut seed).is_some();
                assert!(present[from..=to]
                    .iter()
                    .any(|now| now[value as usize] == found));
            }
        }
    }
}
