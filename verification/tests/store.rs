use alloc_tracker::chunk::ChunkState;
use alloc_tracker::event::Event;
use alloc_tracker::store::Chunks;

const WIDTH: u64 = 0x400;
const MAX_LINES: usize = 256;

fn mk_alloc(ptr: u64, size: u64, label: &str) -> Event {
    Event::Alloc { ptr, size, identifier: String::from(label) }
}

fn free(ptr: u64) -> Event {
    Event::Free { ptr, identifier: String::new() }
}

#[test]
fn overlapping_alloc_is_flagged_already_used() {
    let mut store = Chunks::new(WIDTH, MAX_LINES);
    store.push_event(mk_alloc(0x0, 0x400, "a"));
    store.push_event(mk_alloc(0x100, 0x10, "b"));
    assert!(store.update());
    assert!(matches!(store.get(0x0).unwrap().state, ChunkState::Healthy));
    assert!(matches!(store.get(0x100).unwrap().state, ChunkState::AlreadyUsed));
}

#[test]
fn disjoint_allocs_stay_healthy() {
    let mut store = Chunks::new(WIDTH, MAX_LINES);
    store.push_event(mk_alloc(0x0, 0x100, "a"));
    store.push_event(mk_alloc(0x100, 0x100, "b"));
    store.push_event(mk_alloc(0x1000, 0x2000, "c"));
    assert!(store.update());
    for ptr in [0x0, 0x100, 0x1000] {
        assert!(matches!(store.get(ptr).unwrap().state, ChunkState::Healthy));
    }
}

#[test]
fn freed_chunk_is_gone_and_no_longer_overlaps() {
    let mut store = Chunks::new(WIDTH, MAX_LINES);
    store.push_event(mk_alloc(0x0, 0x400, "a"));
    store.push_event(free(0x0));
    store.push_event(mk_alloc(0x100, 0x10, "b"));
    assert!(store.update());
    assert!(store.get(0x0).is_none());
    assert!(matches!(store.get(0x100).unwrap().state, ChunkState::Healthy));
    let pairs = store.iter();
    assert_eq!(pairs.len(), 1);
    assert_eq!(pairs[0].0, 0x100);
}

#[test]
fn free_of_unknown_address_leaves_no_trace() {
    let mut store = Chunks::new(WIDTH, MAX_LINES);
    assert!(store.get(0x500).is_none());
    store.push_event(free(0x500));
    assert!(store.update());
    assert!(store.get(0x500).is_none());
    assert_eq!(store.iter().len(), 0);
}

#[test]
fn corrupted_always_pauses_ingestion() {
    let mut store = Chunks::new(WIDTH, MAX_LINES);
    assert!(store.do_advance());
    store.push_event(Event::Corrupted { ptr: 0x900 });
    assert!(store.update());
    assert!(!store.do_advance());
    let placeholder = store.get(0x900).unwrap();
    assert!(matches!(placeholder.state, ChunkState::Corrupted));
    assert_eq!(placeholder.size, 100);
}

#[test]
fn corrupted_marks_a_tracked_chunk_in_place() {
    let mut store = Chunks::new(WIDTH, MAX_LINES);
    store.push_event(mk_alloc(0x40, 0x20, "x"));
    assert!(store.update());
    store.push_event(Event::Corrupted { ptr: 0x40 });
    store.set_do_advance(true);
    assert!(store.update());
    assert!(!store.do_advance());
    let chunk = store.get(0x40).unwrap();
    assert!(matches!(chunk.state, ChunkState::Corrupted));
    assert_eq!(chunk.size, 0x20);
    assert_eq!(chunk.identifier, "x");
}

#[test]
fn already_used_is_sticky_after_freeing_the_collider() {
    let mut store = Chunks::new(WIDTH, MAX_LINES);
    store.push_event(mk_alloc(0x0, 0x400, "a"));
    store.push_event(mk_alloc(0x100, 0x10, "b"));
    store.push_event(free(0x0));
    assert!(store.update());
    assert!(store.get(0x0).is_none());
    assert!(matches!(store.get(0x100).unwrap().state, ChunkState::AlreadyUsed));
}

#[test]
fn paused_drain_applies_nothing_and_keeps_order() {
    let mut store = Chunks::new(WIDTH, MAX_LINES);
    store.set_do_advance(false);
    store.push_event(mk_alloc(0x0, 0x10, "a"));
    store.push_event(mk_alloc(0x4, 0x10, "b"));
    assert!(!store.update());
    assert!(store.get(0x0).is_none());
    assert!(store.get(0x4).is_none());
    store.set_do_advance(true);
    assert!(store.update());
    // Applied in original order: the second alloc collides with the first.
    assert!(matches!(store.get(0x0).unwrap().state, ChunkState::Healthy));
    assert!(matches!(store.get(0x4).unwrap().state, ChunkState::AlreadyUsed));
}

#[test]
fn malformed_line_changes_nothing() {
    let mut store = Chunks::new(WIDTH, MAX_LINES);
    if let Some(ev) = Event::try_from_line("x:zz") {
        store.push_event(ev);
    }
    assert!(!store.update());
    assert_eq!(store.iter().len(), 0);
}

#[test]
fn empty_drain_reports_no_update() {
    let mut store = Chunks::new(WIDTH, MAX_LINES);
    assert!(!store.update());
}

#[test]
fn replacing_alloc_at_same_address_collides_with_the_old_entry() {
    let mut store = Chunks::new(WIDTH, MAX_LINES);
    store.push_event(mk_alloc(0x40, 0x10, "old"));
    store.push_event(mk_alloc(0x40, 0x10, "new"));
    assert!(store.update());
    let chunk = store.get(0x40).unwrap();
    assert!(matches!(chunk.state, ChunkState::AlreadyUsed));
    assert_eq!(chunk.identifier, "new");
    assert_eq!(store.iter().len(), 1);
}

#[test]
fn alloc_beyond_the_tracked_range_is_ignored() {
    let mut store = Chunks::new(WIDTH, MAX_LINES);
    let beyond = WIDTH * MAX_LINES as u64;
    store.push_event(mk_alloc(beyond, 0x10, "far"));
    assert!(store.update());
    assert!(store.get(beyond).is_none());
}

#[test]
fn zero_sized_alloc_is_disjoint_from_everything() {
    let mut store = Chunks::new(WIDTH, MAX_LINES);
    store.push_event(mk_alloc(0x0, 0x400, "a"));
    store.push_event(mk_alloc(0x100, 0x0, "empty"));
    assert!(store.update());
    assert!(matches!(store.get(0x0).unwrap().state, ChunkState::Healthy));
    assert!(matches!(store.get(0x100).unwrap().state, ChunkState::Healthy));
}

#[test]
fn overlap_is_found_across_a_line_boundary() {
    let mut store = Chunks::new(WIDTH, MAX_LINES);
    // Spans lines 0 and 1; the second chunk sits on line 1 only.
    store.push_event(mk_alloc(0x3FC, 0xA, "straddler"));
    store.push_event(mk_alloc(0x404, 0x4, "tail"));
    assert!(store.update());
    assert!(matches!(store.get(0x3FC).unwrap().state, ChunkState::Healthy));
    assert!(matches!(store.get(0x404).unwrap().state, ChunkState::AlreadyUsed));
}

#[test]
fn sharing_a_line_without_intersecting_is_not_overlap() {
    let mut store = Chunks::new(WIDTH, MAX_LINES);
    store.push_event(mk_alloc(0x0, 0x10, "a"));
    store.push_event(mk_alloc(0x20, 0x10, "b"));
    assert!(store.update());
    assert!(matches!(store.get(0x0).unwrap().state, ChunkState::Healthy));
    assert!(matches!(store.get(0x20).unwrap().state, ChunkState::Healthy));
}

#[test]
fn iter_reports_addresses_with_their_chunks() {
    let mut store = Chunks::new(WIDTH, MAX_LINES);
    store.push_event(mk_alloc(0x10, 0x8, "one"));
    store.push_event(mk_alloc(0x40, 0x8, "two"));
    assert!(store.update());
    let mut pairs = store.iter();
    pairs.sort_by_key(|(ptr, _)| *ptr);
    assert_eq!(pairs.len(), 2);
    assert_eq!(pairs[0].0, 0x10);
    assert_eq!(pairs[0].1.identifier, "one");
    assert_eq!(pairs[1].0, 0x40);
    assert_eq!(pairs[1].1.identifier, "two");
}

#[test]
fn wire_lines_drive_the_store_end_to_end() {
    let mut store = Chunks::new(WIDTH, MAX_LINES);
    for line in ["m:0,400,first", "m:100,10,second", "f:0", "nonsense", "c:100"] {
        if let Some(ev) = Event::try_from_line(line) {
            store.push_event(ev);
        }
    }
    assert!(store.update());
    assert!(!store.do_advance());
    assert!(store.get(0x0).is_none());
    let survivor = store.get(0x100).unwrap();
    assert!(matches!(survivor.state, ChunkState::Corrupted));
    assert_eq!(survivor.identifier, "second");
}
