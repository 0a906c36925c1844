//! Chunks: tracked memory regions with an address, size, label and health
//! state, together with the grid-line span that a region occupies.
use vstd::arithmetic::div_mod::{
    lemma_div_is_ordered, lemma_fundamental_div_mod, lemma_fundamental_div_mod_converse,
    lemma_hoist_over_denominator,
};
use vstd::prelude::*;

verus! {

/// Health of a tracked chunk.
#[derive(Clone, Copy, PartialEq, Eq, Structural, Debug)]
pub enum ChunkState {
    Healthy,
    AlreadyUsed,
    AlreadyFreed,
    Corrupted,
}

impl ChunkState {
    /// Solid chunks are the ones that take part in overlap detection;
    /// freed or corrupted placeholders are inert.
    pub open spec fn spec_is_solid(self) -> bool {
        self != ChunkState::AlreadyFreed && self != ChunkState::Corrupted
    }

    pub fn is_solid(&self) -> (r: bool)
        ensures
            r == self.spec_is_solid(),
    {
        *self != ChunkState::AlreadyFreed && *self != ChunkState::Corrupted
    }

    /// The wording a display uses for each state.
    pub fn describe(&self) -> (r: &'static str)
        ensures
            match self {
                ChunkState::Healthy => r@ == "ok"@,
                ChunkState::AlreadyUsed => r@ == "already used"@,
                ChunkState::AlreadyFreed => r@ == "already freed"@,
                ChunkState::Corrupted => r@ == "corrupted"@,
            },
    {
        match self {
            ChunkState::Healthy => "ok",
            ChunkState::AlreadyUsed => "already used",
            ChunkState::AlreadyFreed => "already freed",
            ChunkState::Corrupted => "corrupted",
        }
    }
}

/// Index of the first grid line touched by an address, for a given line
/// width in bytes.
pub open spec fn spec_line_start(ptr: int, width: int) -> int
    recommends
        width >= 1,
{
    ptr / width
}

/// Number of grid lines spanned by the byte range `[ptr, ptr + size)`:
/// one for the leading partial row, plus one per full or partial row
/// after it.  A zero-sized range still occupies the line of its address.
pub open spec fn spec_line_count(ptr: int, size: int, width: int) -> int
    recommends
        width >= 1,
        ptr >= 0,
        size >= 0,
{
    let lead = width - ptr % width;
    if size < lead {
        1
    } else {
        (size - lead + width - 1) / width + 1
    }
}

/// The span is never empty.
pub proof fn lemma_line_count_at_least_one(ptr: int, size: int, width: int)
    requires
        width >= 1,
        ptr >= 0,
        size >= 0,
    ensures
        spec_line_count(ptr, size, width) >= 1,
{
    let lead = width - ptr % width;
    if size >= lead {
        lemma_div_is_ordered(0, size - lead + width - 1, width);
    }
}

/// For a non-empty range the last spanned line is the line of the last
/// byte: `start + count == (ptr + size - 1) / width + 1`.
pub proof fn lemma_line_span_exact(ptr: int, size: int, width: int)
    requires
        width >= 1,
        ptr >= 0,
        size >= 1,
    ensures
        spec_line_start(ptr, width) + spec_line_count(ptr, size, width) == (ptr + size - 1) / width
            + 1,
{
    let q = ptr / width;
    let o = ptr % width;
    let lead = width - o;
    lemma_fundamental_div_mod(ptr, width);
    if size < lead {
        // The whole range stays on line q.
        assert(ptr + size - 1 == q * width + (o + size - 1)) by {
            assert(ptr == width * q + o);
        };
        lemma_fundamental_div_mod_converse(ptr + size - 1, width, q, o + size - 1);
    } else {
        // size - lead + width - 1 == size + o - 1, so count - 1 is the
        // number of full lines after the first.
        assert(size - lead + width - 1 == o + size - 1);
        assert(ptr + size - 1 == (o + size - 1) + q * width) by {
            assert(ptr == width * q + o);
        };
        lemma_hoist_over_denominator(o + size - 1, q, width as nat);
    }
}

/// Every byte of the range lands on a line inside the span.
pub proof fn lemma_addr_line_in_span(ptr: int, size: int, width: int, x: int)
    requires
        width >= 1,
        ptr >= 0,
        ptr <= x < ptr + size,
    ensures
        spec_line_start(ptr, width) <= x / width,
        x / width < spec_line_start(ptr, width) + spec_line_count(ptr, size, width),
{
    lemma_div_is_ordered(ptr, x, width);
    lemma_div_is_ordered(x, ptr + size - 1, width);
    lemma_line_span_exact(ptr, size, width);
}

/// The grid-line span of a chunk: `count` lines starting at line `start`.
#[derive(Clone, Copy, PartialEq, Eq, Structural, Debug)]
pub struct ChunkLines {
    pub start: u64,
    pub count: u64,
}

impl ChunkLines {
    pub open spec fn spec_of(ptr: int, size: int, width: int) -> ChunkLines {
        ChunkLines {
            start: spec_line_start(ptr, width) as u64,
            count: spec_line_count(ptr, size, width) as u64,
        }
    }

    /// Whether this span is the one derived from `ptr` and `size`.
    pub open spec fn derived_from(self, ptr: int, size: int, width: int) -> bool {
        &&& self.start == spec_line_start(ptr, width)
        &&& self.count == spec_line_count(ptr, size, width)
    }

    pub fn new(ptr: u64, size: u64, width: u64) -> (r: ChunkLines)
        requires
            width >= 1,
        ensures
            r.derived_from(ptr as int, size as int, width as int),
            r.count >= 1,
    {
        let start: u64 = ptr / width;
        let offset: u64 = ptr % width;
        let lead: u64 = width - offset;
        proof {
            lemma_line_count_at_least_one(ptr as int, size as int, width as int);
        }
        let count: u64 = if size < lead {
            1
        } else {
            // The numerator can exceed u64::MAX, so widen for the division.
            let numer: u128 = (size - lead) as u128 + (width - 1) as u128;
            let q: u128 = numer / (width as u128);
            proof {
                lemma_count_fits_u64(ptr as int, size as int, width as int);
            }
            (q + 1) as u64
        };
        ChunkLines { start, count }
    }

    /// First line of the span and the line one past the last.
    pub fn range(&self) -> (r: (u64, u64))
        requires
            self.start + self.count <= u64::MAX,
        ensures
            r.0 == self.start,
            r.1 == self.start + self.count,
    {
        (self.start, self.start + self.count)
    }
}

/// The spanned line count always fits in 64 bits.
proof fn lemma_count_fits_u64(ptr: int, size: int, width: int)
    requires
        1 <= width <= u64::MAX,
        0 <= ptr <= u64::MAX,
        0 <= size <= u64::MAX,
    ensures
        spec_line_count(ptr, size, width) <= u64::MAX,
{
    let o = ptr % width;
    let lead = width - o;
    if size >= lead {
        let numer = size - lead + width - 1;
        if width == 1 {
            assert(o == 0) by {
                lemma_fundamental_div_mod(ptr, 1);
            };
            assert(numer / width == numer) by {
                lemma_fundamental_div_mod_converse(numer, 1, numer, 0);
            };
        } else {
            assert(0 <= o < width) by {
                vstd::arithmetic::div_mod::lemma_mod_bound(ptr, width);
            };
            assert(numer == size + o - 1);
            assert(numer / width <= numer / 2) by {
                vstd::arithmetic::div_mod::lemma_div_is_ordered_by_denominator(numer, 2, width);
            };
            assert(numer / 2 < u64::MAX) by {
                lemma_fundamental_div_mod(numer, 2);
                vstd::arithmetic::div_mod::lemma_mod_bound(numer, 2);
            };
        }
    }
}

/// Whether the half-open byte ranges `[a_ptr, a_ptr + a_size)` and
/// `[b_ptr, b_ptr + b_size)` intersect.  An empty range intersects
/// nothing.
pub open spec fn spec_ranges_intersect(a_ptr: int, a_size: int, b_ptr: int, b_size: int) -> bool {
    &&& a_size > 0
    &&& b_size > 0
    &&& a_ptr < b_ptr + b_size
    &&& b_ptr < a_ptr + a_size
}

/// Mathematical image of a chunk: the fields with the label as a
/// character sequence.
pub struct ChunkModel {
    pub lines: ChunkLines,
    pub ptr: u64,
    pub size: u64,
    pub identifier: Seq<char>,
    pub state: ChunkState,
}

impl ChunkModel {
    /// Collision as recorded by the store: both chunks solid, and their
    /// byte ranges intersecting.
    pub open spec fn collides_with(self, other: ChunkModel) -> bool {
        &&& self.state.spec_is_solid()
        &&& other.state.spec_is_solid()
        &&& spec_ranges_intersect(self.ptr as int, self.size as int, other.ptr as int, other.size as int)
    }

    /// The span fields agree with the address and size.
    pub open spec fn lines_derived(self, width: int) -> bool {
        self.lines.derived_from(self.ptr as int, self.size as int, width)
    }
}

/// Two colliding chunks always share a grid line, each within its own
/// derived span.
pub proof fn lemma_colliding_chunks_share_line(a: ChunkModel, b: ChunkModel, width: int)
    requires
        width >= 1,
        a.lines_derived(width),
        b.lines_derived(width),
        spec_ranges_intersect(a.ptr as int, a.size as int, b.ptr as int, b.size as int),
    ensures
        exists|l: int|
            {
                &&& #[trigger] in_span(l, a.lines)
                &&& in_span(l, b.lines)
            },
{
    // The later of the two start addresses lies in both ranges.
    let x: int = if a.ptr >= b.ptr {
        a.ptr as int
    } else {
        b.ptr as int
    };
    lemma_addr_line_in_span(a.ptr as int, a.size as int, width, x);
    lemma_addr_line_in_span(b.ptr as int, b.size as int, width, x);
    assert(in_span(x / width, a.lines) && in_span(x / width, b.lines));
}

/// Whether line `l` lies inside the span.
pub open spec fn in_span(l: int, lines: ChunkLines) -> bool {
    lines.start <= l < lines.start + lines.count
}

/// A tracked memory region.
#[derive(Clone, Debug)]
pub struct Chunk {
    pub lines: ChunkLines,
    pub ptr: u64,
    pub size: u64,
    pub identifier: String,
    pub state: ChunkState,
}

/// Nominal size given to placeholder chunks, which carry no real size;
/// it only keeps them visually representable.
pub const PLACEHOLDER_SIZE: u64 = 100;

impl View for Chunk {
    type V = ChunkModel;

    open spec fn view(&self) -> ChunkModel {
        ChunkModel {
            lines: self.lines,
            ptr: self.ptr,
            size: self.size,
            identifier: self.identifier@,
            state: self.state,
        }
    }
}

impl Chunk {
    /// A fresh chunk for an allocation event, initially healthy.
    pub fn new(ptr: u64, size: u64, identifier: String, width: u64) -> (r: Chunk)
        requires
            width >= 1,
        ensures
            r@ == (ChunkModel {
                lines: ChunkLines::spec_of(ptr as int, size as int, width as int),
                ptr,
                size,
                identifier: identifier@,
                state: ChunkState::Healthy,
            }),
            r@.lines_derived(width as int),
    {
        Chunk { lines: ChunkLines::new(ptr, size, width), ptr, size, identifier, state: ChunkState::Healthy }
    }

    /// A synthetic chunk standing for an event that referenced an
    /// address with no live entry.  It has a nominal size and no label.
    pub fn placeholder(ptr: u64, state: ChunkState, width: u64) -> (r: Chunk)
        requires
            width >= 1,
        ensures
            r@ == (ChunkModel {
                lines: ChunkLines::spec_of(ptr as int, PLACEHOLDER_SIZE as int, width as int),
                ptr,
                size: PLACEHOLDER_SIZE,
                identifier: Seq::<char>::empty(),
                state,
            }),
            r@.lines_derived(width as int),
    {
        let size = PLACEHOLDER_SIZE;
        Chunk {
            lines: ChunkLines::new(ptr, size, width),
            ptr,
            size,
            identifier: String::new(),
            state,
        }
    }

    /// Whether this chunk and `other` collide: both solid and their
    /// byte ranges intersect.
    pub fn is_colliding(&self, other: &Chunk) -> (r: bool)
        ensures
            r == self@.collides_with(other@),
    {
        (self.state.is_solid() && other.state.is_solid()) && (self.size > 0 && other.size > 0
            && (self.ptr as u128) < other.ptr as u128 + other.size as u128
            && (other.ptr as u128) < self.ptr as u128 + self.size as u128)
    }

    pub fn set_state(&mut self, state: ChunkState)
        ensures
            final(self)@ == (ChunkModel { state, ..old(self)@ }),
    {
        self.state = state;
    }
}

} // verus!
