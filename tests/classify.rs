use kr2r_squid::codec::{decode_cells, decode_slots, push_u64_le, read_u32_le, read_u64_le, Slot};
use kr2r_squid::dispatch::{
    batch_bytes, classify_slot, group_by_dest, next_phase, process_batch, read_chunk_header,
    resolve_page, ChunkError, ChunkEvent, ChunkPhase, PagePlan, ShardCursor, ShardGroup,
};
use kr2r_squid::layout::{combined, layout_from_bytes, left, mask_of, right, HashLayout};
use kr2r_squid::page::{BoundarySpanningPage, CompactPage, Page};

fn layout8() -> HashLayout {
    HashLayout::new(8, 8).unwrap()
}

fn cell(key: u32, taxid: u32) -> u32 {
    (key << 8) | taxid
}

fn query(idx: u64, dest: u64, key: u32) -> Slot {
    Slot { idx, value: (dest << 32) | ((key as u64) << 8) }
}

fn slot_bytes(slots: &[Slot]) -> Vec<u8> {
    let mut out = Vec::new();
    for s in slots {
        out.extend_from_slice(&s.idx.to_le_bytes());
        out.extend_from_slice(&s.value.to_le_bytes());
    }
    out
}

fn fixture_page() -> Page {
    // keys 0x55 at 1, 0x11 at 2 (collides with home 1), 0x22 at 3; cell 0 empty
    let cells = vec![0, cell(0x55, 7), cell(0x11, 9), cell(0x22, 4)];
    Page::Single(CompactPage::new(layout8(), cells))
}

#[test]
fn packing_round_trip() {
    let w = combined(0x00ab_cdef, 0x42, 8);
    assert_eq!(w, 0xabcd_ef42);
    assert_eq!(right(w, mask_of(8)), 0x42);
    assert_eq!(left(w, 8), 0x00ab_cdef);
    assert_eq!(mask_of(1), 1);
    assert_eq!(mask_of(31), 0x7fff_ffff);
}

#[test]
fn layout_rejects_bad_width() {
    assert!(HashLayout::new(10, 0).is_none());
    assert!(HashLayout::new(10, 32).is_none());
    let l = HashLayout::new(10, 22).unwrap();
    assert_eq!(l.value_mask, 0x3f_ffff);
    assert_eq!(l.get_value_bits(), 22);
}

#[test]
fn layout_descriptor_parsing() {
    let mut b = Vec::new();
    b.extend_from_slice(&1000u64.to_le_bytes());
    b.extend_from_slice(&16u64.to_le_bytes());
    let l = layout_from_bytes(&b).unwrap();
    assert_eq!(l.capacity, 1000);
    assert_eq!(l.value_bits, 16);
    assert_eq!(l.value_mask, 0xffff);
    assert!(layout_from_bytes(&b[..15]).is_none());
    let mut bad = b.clone();
    bad[8] = 40;
    assert!(layout_from_bytes(&bad).is_none());
}

#[test]
fn little_endian_codec() {
    let b = [1u8, 2, 3, 4, 5, 6, 7, 8, 9];
    assert_eq!(read_u64_le(&b, 0), 0x0807_0605_0403_0201);
    assert_eq!(read_u64_le(&b, 1), 0x0908_0706_0504_0302);
    assert_eq!(read_u32_le(&b, 0), 0x0403_0201);
    let mut out = vec![0xffu8];
    push_u64_le(&mut out, 0x0102_0304_0506_0708);
    assert_eq!(out, vec![0xff, 8, 7, 6, 5, 4, 3, 2, 1]);
    assert_eq!(decode_cells(&[1, 0, 0, 0, 2, 0, 0, 0, 9]), vec![1, 2]);
}

#[test]
fn partial_trailing_record_is_dropped() {
    let mut b = slot_bytes(&[Slot { idx: 5, value: 6 }, Slot { idx: 7, value: 8 }]);
    b.extend_from_slice(&[1, 2, 3]);
    let s = decode_slots(&b);
    assert_eq!(s, vec![Slot { idx: 5, value: 6 }, Slot { idx: 7, value: 8 }]);
    assert!(decode_slots(&b[..15]).is_empty());
}

#[test]
fn lookup_present_and_absent() {
    let page = fixture_page();
    assert_eq!(page.get_from_page(&query(1, 0, 0x55)), 7);
    // probe continues past a non-matching occupied cell
    assert_eq!(page.get_from_page(&query(1, 0, 0x11)), 9);
    assert_eq!(page.get_from_page(&query(1, 0, 0x22)), 4);
    // wraps to cell 0, which is empty
    assert_eq!(page.get_from_page(&query(3, 0, 0x66)), 0);
    // home address taken modulo the number of cells
    assert_eq!(page.get_from_page(&query(5, 0, 0x55)), 7);
    assert_eq!(page.get_value_bits(), 8);
    assert_eq!(page.get_value_mask(), 0xff);
}

#[test]
fn lookup_full_table_stops() {
    let cells = vec![cell(1, 1), cell(2, 2), cell(3, 3)];
    let page = CompactPage::new(layout8(), cells);
    assert_eq!(page.get_from_page(&query(2, 0, 9)), 0);
    assert_eq!(page.get_from_page(&query(2, 0, 1)), 1);
}

#[test]
fn spanning_lookup_continues_into_successor() {
    let first = vec![0, cell(1, 3), cell(2, 5)];
    let second = vec![cell(7, 11), 0, cell(8, 12)];
    let page = Page::Spanning(BoundarySpanningPage::new(layout8(), first, second));
    assert_eq!(page.get_from_page(&query(1, 0, 1)), 3);
    assert_eq!(page.get_from_page(&query(1, 0, 7)), 11);
    // absent: stops at the empty cell of the successor
    assert_eq!(page.get_from_page(&query(2, 0, 9)), 0);
    // never past the end of the successor, never wrapping to the start
    assert_eq!(page.get_from_page(&query(5, 0, 1)), 0);
    assert_eq!(page.get_from_page(&query(6, 0, 1)), 0);
}

#[test]
fn spanning_page_from_bytes() {
    let mut a = Vec::new();
    a.extend_from_slice(&cell(1, 3).to_le_bytes());
    let mut b = Vec::new();
    b.extend_from_slice(&cell(4, 6).to_le_bytes());
    let page = BoundarySpanningPage::from_bytes(layout8(), &a, &b);
    assert_eq!(page.get_from_page(&query(0, 0, 4)), 6);
    let single = CompactPage::from_bytes(layout8(), &b);
    assert_eq!(single.get_from_page(&query(0, 0, 4)), 6);
}

#[test]
fn chunk_header_parsing() {
    let mut b = Vec::new();
    b.extend_from_slice(&3u64.to_le_bytes());
    b.extend_from_slice(&42u64.to_le_bytes());
    let h = read_chunk_header(&b).unwrap();
    assert_eq!((h.partition, h.count), (3, 42));
    assert_eq!(read_chunk_header(&b[..15]), Err(ChunkError::MalformedHeader));
    assert_eq!(read_chunk_header(&[]), Err(ChunkError::MalformedHeader));
}

#[test]
fn page_resolution() {
    assert_eq!(resolve_page(1, 7), Ok(PagePlan::Single));
    assert_eq!(resolve_page(0, 0), Err(ChunkError::PartitionMissing));
    assert_eq!(resolve_page(4, 1), Ok(PagePlan::Pair { first: 1, second: 2 }));
    assert_eq!(resolve_page(4, 3), Ok(PagePlan::Pair { first: 3, second: 0 }));
    assert_eq!(resolve_page(4, 4), Err(ChunkError::PartitionMissing));
}

#[test]
fn batch_size_in_bytes() {
    assert_eq!(batch_bytes(8 * 1024 * 1024), Some(128 * 1024 * 1024));
    assert_eq!(batch_bytes(0), Some(0));
    assert_eq!(batch_bytes(usize::MAX), None);
}

#[test]
fn classify_repacks_value() {
    let page = fixture_page();
    assert_eq!(classify_slot(&page, &query(1, 3, 0x55)), Some((3, 0x5507)));
    assert_eq!(classify_slot(&page, &query(0, 3, 0x55)), None);
}

#[test]
fn end_to_end_single_hit() {
    let page = fixture_page();
    let mut chunk = Vec::new();
    chunk.extend_from_slice(&0u64.to_le_bytes());
    chunk.extend_from_slice(&2u64.to_le_bytes());
    let hit = query(1, 3, 0x55);
    let miss = query(1, 3, 0x66);
    chunk.extend_from_slice(&slot_bytes(&[hit, miss]));
    let h = read_chunk_header(&chunk).unwrap();
    assert_eq!((h.partition, h.count), (0, 2));
    let groups = process_batch(&page, &chunk[16..]);
    assert_eq!(groups.len(), 1);
    assert_eq!(groups[0].dest, hit.value >> 32);
    let expected = combined(left(hit.value as u32, 8), 7, 8) as u64;
    assert_eq!(groups[0].bytes, expected.to_le_bytes().to_vec());
}

#[test]
fn two_shards_in_ascending_order() {
    let page = fixture_page();
    let slots = [query(1, 9, 0x55), query(1, 2, 0x11), query(1, 9, 0x22), query(1, 2, 0x55)];
    let groups = process_batch(&page, &slot_bytes(&slots));
    assert_eq!(groups.len(), 2);
    assert_eq!(groups[0].dest, 2);
    assert_eq!(groups[1].dest, 9);
    let mut two = Vec::new();
    two.extend_from_slice(&0x1109u64.to_le_bytes());
    two.extend_from_slice(&0x5507u64.to_le_bytes());
    assert_eq!(groups[0].bytes, two);
    let mut nine = Vec::new();
    nine.extend_from_slice(&0x5507u64.to_le_bytes());
    nine.extend_from_slice(&0x2204u64.to_le_bytes());
    assert_eq!(groups[1].bytes, nine);
}

#[test]
fn many_records_group_like_sequential() {
    let page = fixture_page();
    let mut slots = Vec::new();
    for i in 0..5000u64 {
        let key = [0x55u32, 0x11, 0x22, 0x66][(i % 4) as usize];
        slots.push(query(1, i % 7, key));
    }
    let groups = process_batch(&page, &slot_bytes(&slots));
    assert_eq!(groups.len(), 7);
    for (j, g) in groups.iter().enumerate() {
        assert_eq!(g.dest, j as u64);
        let mut expect = Vec::new();
        for s in &slots {
            if let Some((d, v)) = classify_slot(&page, s) {
                if d == g.dest {
                    expect.extend_from_slice(&v.to_le_bytes());
                }
            }
        }
        assert_eq!(g.bytes, expect);
    }
}

#[test]
fn reprocessing_appends_same_bytes_twice() {
    let page = fixture_page();
    let body = slot_bytes(&[query(1, 4, 0x55), query(2, 4, 0x11)]);
    let mut shard: Vec<u8> = Vec::new();
    for _ in 0..2 {
        for g in process_batch(&page, &body) {
            assert_eq!(g.dest, 4);
            shard.extend_from_slice(&g.bytes);
        }
    }
    let once = process_batch(&page, &body);
    let mut twice = once[0].bytes.clone();
    twice.extend_from_slice(&once[0].bytes);
    assert_eq!(shard, twice);
    assert_eq!(shard.len(), 32);
}

#[test]
fn group_by_dest_merges() {
    let rs = vec![Some((5, 1)), None, Some((1, 2)), Some((5, 3))];
    let g: Vec<ShardGroup> = group_by_dest(&rs);
    assert_eq!(g.len(), 2);
    assert_eq!(g[0].dest, 1);
    assert_eq!(g[0].bytes, 2u64.to_le_bytes().to_vec());
    let mut five = 1u64.to_le_bytes().to_vec();
    five.extend_from_slice(&3u64.to_le_bytes());
    assert_eq!(g[1].bytes, five);
    assert!(group_by_dest(&vec![None, None]).is_empty());
}

#[test]
fn shard_cursor_reuses_open_handle() {
    let mut c = ShardCursor::new();
    let a = c.route(3);
    assert!(a.open && !a.close_current);
    let b = c.route(3);
    assert!(!b.open && !b.close_current);
    let d = c.route(4);
    assert!(d.open && d.close_current);
    assert_eq!(c.current, Some(4));
    assert!(c.finish());
    assert!(!c.finish());
}

#[test]
fn chunk_phases() {
    let mut p = ChunkPhase::Idle;
    for e in [ChunkEvent::HeaderParsed, ChunkEvent::PageReady, ChunkEvent::BytesRead(32)] {
        p = next_phase(p, e);
    }
    assert_eq!(p, ChunkPhase::Streaming);
    p = next_phase(p, ChunkEvent::BytesRead(0));
    assert_eq!(p, ChunkPhase::Draining);
    assert_eq!(next_phase(p, ChunkEvent::ShardsClosed), ChunkPhase::Done);
    assert_eq!(next_phase(ChunkPhase::Streaming, ChunkEvent::IoFailed), ChunkPhase::Failed);
    assert_eq!(next_phase(ChunkPhase::Idle, ChunkEvent::PageReady), ChunkPhase::Failed);
}
