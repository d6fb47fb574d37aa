//! Tests of the paged posting lists, versioned vectors, radix paths,
//! the fixed-point quantizer and the buffered I/O layer.

use vectordb::bufio::{BufferManager, BufIoError};
use vectordb::fixed::{dequantize, quantize, FX_ONE};
use vectordb::page::{Page, Pagepool};
use vectordb::path::calculate_path;
use vectordb::versioned_vec::VersionedVec;

#[test]
fn page_push_and_view() {
    let mut page: Page<4> = Page::new();
    page.push(7);
    page.push(9);
    assert_eq!(page.len, 2);
    assert_eq!(page.data[0], 7);
    assert_eq!(page.data[1], 9);
    assert_eq!(page.data[2], u32::MAX);
}

#[test]
fn pagepool_sum_of_page_lengths_matches_insertions() {
    let mut pool: Pagepool<10> = Pagepool::new();
    for i in 0..100u32 {
        pool.push(i);
    }
    // the flat count equals the number of insertions the index made
    assert_eq!(pool.total_len(), 100);
    let flat = pool.to_vec();
    assert_eq!(flat.len(), 100);
    for i in 0..100u32 {
        assert_eq!(flat[i as usize], i);
    }
    // ten full pages of ten
    assert_eq!(pool.inner.len(), 10);
    let mut total = 0;
    for p in &pool.inner {
        total += p.len;
    }
    assert_eq!(total, 100);
}

#[test]
fn pagepool_contains_sees_chunks_and_pushes() {
    let mut pool: Pagepool<4> = Pagepool::new();
    pool.push(3);
    pool.push_chunk(vec![11, 12, 13, 14]);
    assert!(pool.contains(3));
    assert!(pool.contains(13));
    assert!(!pool.contains(99));
    // the chunk's entries are live: page lengths count them
    assert_eq!(pool.total_len(), 5);
    assert_eq!(pool.to_vec(), vec![3, 11, 12, 13, 14]);
}

#[test]
fn versioned_vec_push_and_iterate() {
    let mut v: VersionedVec<u32> = VersionedVec::new(1);
    v.push(1, 10);
    v.push(1, 11);
    v.push(2, 20);
    v.push(1, 12);
    assert_eq!(v.len(), 4);
    assert!(!v.is_empty());
    let all = v.to_vec();
    // version-1 items stay in the head segment, version 2 in the tail
    assert_eq!(all, vec![10, 11, 12, 20]);
    let mut it = v.iter();
    assert_eq!(it.next(), Some(&10));
    assert_eq!(it.next(), Some(&11));
    assert_eq!(it.next(), Some(&12));
    assert_eq!(it.next(), Some(&20));
    assert_eq!(it.next(), None);
}

#[test]
fn versioned_vec_push_sorted_keeps_doc_order() {
    let mut v: VersionedVec<(u32, u32)> = VersionedVec::new(5);
    v.push_sorted(5, (30, 1));
    v.push_sorted(5, (10, 2));
    v.push_sorted(5, (20, 3));
    v.push_sorted(6, (2, 4));
    v.push_sorted(6, (1, 5));
    let all = v.to_vec();
    assert_eq!(all, vec![(10, 2), (20, 3), (30, 1), (1, 5), (2, 4)]);
}

#[test]
fn radix_path_digits_sum_back() {
    let path = calculate_path(0, 0);
    assert!(path.is_empty());
    let path = calculate_path(5, 0);
    // 5 = 4 + 1: greedy takes the larger power first
    assert_eq!(path, vec![1, 0]);
    let path = calculate_path(0xFFFF, 0);
    let mut sum: u64 = 0;
    for d in &path {
        assert!(*d < 16);
        sum += 1u64 << (2 * *d as u32);
    }
    assert_eq!(sum, 0xFFFF);
}

#[test]
fn quantizer_round_trip_within_one_step() {
    let ub = FX_ONE;
    for bits in 1..=8u8 {
        let max_code = (1u32 << bits) - 1;
        for v in [0u64, FX_ONE / 7, FX_ONE / 3, FX_ONE / 2, FX_ONE - 1, FX_ONE] {
            let q = quantize(v, ub, bits);
            assert!(u32::from(q) <= max_code);
            let d = dequantize(q, ub, bits);
            let err = if d > v { d - v } else { v - d };
            // within half a step plus the fixed-point grain
            assert!(err as u128 * u128::from(max_code) <= (ub / 2 + u64::from(max_code)) as u128);
            assert!(err <= ub / (1u64 << bits) + 1);
        }
    }
}

#[test]
fn quantizer_hits_exact_codes() {
    // the midpoint of [0, 1.0] at four bits sits at code round(0.5 * 15)
    assert_eq!(quantize(FX_ONE / 2, FX_ONE, 4), 8);
    assert_eq!(quantize(0, FX_ONE, 4), 0);
    assert_eq!(quantize(FX_ONE, FX_ONE, 4), 15);
    assert_eq!(quantize(2 * FX_ONE, FX_ONE, 4), 15);
}

#[test]
fn buffer_manager_read_back_what_was_written() {
    let mut bufman = BufferManager::new(Vec::new());
    let cursor = bufman.open_cursor().unwrap();
    bufman.update_u32_with_cursor(cursor, 0xDEAD_BEEF).unwrap();
    bufman.update_u16_with_cursor(cursor, 0x1234).unwrap();
    bufman.update_u8_with_cursor(cursor, 0x7F).unwrap();
    let offset = bufman.write_to_end_of_file(cursor, &[1, 2, 3]).unwrap();
    assert_eq!(offset, 7);
    assert_eq!(bufman.file_size(), 10);
    bufman.seek_with_cursor(cursor, 0).unwrap();
    assert_eq!(bufman.read_u32_with_cursor(cursor).unwrap(), 0xDEAD_BEEF);
    assert_eq!(bufman.read_u16_with_cursor(cursor).unwrap(), 0x1234);
    assert_eq!(bufman.read_u8_with_cursor(cursor).unwrap(), 0x7F);
    assert_eq!(bufman.read_with_cursor(cursor, 3).unwrap(), vec![1, 2, 3]);
    // reading past the end fails without moving anything
    assert_eq!(bufman.read_u8_with_cursor(cursor).unwrap_err(), BufIoError::Io);
    assert_eq!(bufman.file_size(), 10);
}
