use alloc_tracker::chunk::{Chunk, ChunkLines, ChunkState};

#[test]
fn exact_line_fits_in_one_line() {
    let lines = ChunkLines::new(0, 0x400, 0x400);
    assert_eq!(lines.start, 0);
    assert_eq!(lines.count, 1);
}

#[test]
fn straddling_chunk_spans_two_lines() {
    let lines = ChunkLines::new(0x3FC, 0xA, 0x400);
    assert_eq!(lines.start, 0);
    assert_eq!(lines.count, 2);
    let (lo, hi) = lines.range();
    assert_eq!(lo, 0);
    assert_eq!(hi, 2);
}

#[test]
fn zero_size_still_occupies_its_line() {
    let lines = ChunkLines::new(0x1234, 0, 0x400);
    assert_eq!(lines.start, 0x1234 / 0x400);
    assert_eq!(lines.count, 1);
}

#[test]
fn one_byte_past_a_boundary_adds_a_line() {
    let lines = ChunkLines::new(0, 0x401, 0x400);
    assert_eq!(lines.count, 2);
    let lines = ChunkLines::new(0, 0x800, 0x400);
    assert_eq!(lines.count, 2);
    let lines = ChunkLines::new(0, 0x801, 0x400);
    assert_eq!(lines.count, 3);
}

#[test]
fn colliding_needs_both_chunks_solid() {
    let a = Chunk::new(0x0, 0x400, String::from("a"), 0x400);
    let mut b = Chunk::new(0x100, 0x10, String::from("b"), 0x400);
    assert!(a.is_colliding(&b));
    assert!(b.is_colliding(&a));
    b.set_state(ChunkState::Corrupted);
    assert!(!a.is_colliding(&b));
    b.set_state(ChunkState::AlreadyFreed);
    assert!(!a.is_colliding(&b));
    b.set_state(ChunkState::AlreadyUsed);
    assert!(a.is_colliding(&b));
}

#[test]
fn disjoint_chunks_do_not_collide() {
    let a = Chunk::new(0x0, 0x100, String::from("a"), 0x400);
    let b = Chunk::new(0x100, 0x100, String::from("b"), 0x400);
    assert!(!a.is_colliding(&b));
    assert!(!b.is_colliding(&a));
}

#[test]
fn zero_sized_chunk_never_collides() {
    let a = Chunk::new(0x100, 0, String::from("a"), 0x400);
    let b = Chunk::new(0x0, 0x400, String::from("b"), 0x400);
    assert!(!a.is_colliding(&b));
    assert!(!b.is_colliding(&a));
}

#[test]
fn placeholder_has_nominal_size_and_no_label() {
    let p = Chunk::placeholder(0x42, ChunkState::AlreadyFreed, 0x400);
    assert_eq!(p.ptr, 0x42);
    assert_eq!(p.size, 100);
    assert_eq!(p.identifier, "");
    assert!(matches!(p.state, ChunkState::AlreadyFreed));
}

#[test]
fn state_wording() {
    assert_eq!(ChunkState::Healthy.describe(), "ok");
    assert_eq!(ChunkState::AlreadyUsed.describe(), "already used");
    assert_eq!(ChunkState::AlreadyFreed.describe(), "already freed");
    assert_eq!(ChunkState::Corrupted.describe(), "corrupted");
}
