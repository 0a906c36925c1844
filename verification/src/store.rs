//! The chunk store: the live map of address to chunk plus the grid-line
//! spatial index, the per-chunk state machine, and the pause flag that
//! gates event ingestion.
use crate::chunk::{
    in_span, lemma_colliding_chunks_share_line, spec_line_count, spec_line_start, Chunk,
    ChunkLines, ChunkModel, ChunkState, PLACEHOLDER_SIZE,
};
use crate::event::{Event, EventModel};
use std::collections::HashMap;
use vstd::prelude::*;
use vstd::std_specs::iter::IteratorSpec;

verus! {

broadcast use vstd::std_specs::hash::group_hash_axioms;

/// Abstract state of the store: the live chunks, the configured line
/// width and line capacity of the spatial index, and the ingestion flag.
pub struct StoreModel {
    pub live: Map<u64, ChunkModel>,
    pub width: u64,
    pub cap: nat,
    pub advance: bool,
}

/// Whether a chunk of this address and size lies inside the tracked
/// line range, so that the spatial index can hold it.
pub open spec fn spec_fits(ptr: u64, size: u64, width: u64, cap: nat) -> bool {
    spec_line_start(ptr as int, width as int) + spec_line_count(
        ptr as int,
        size as int,
        width as int,
    ) <= cap
}

/// Whether `c` collides with any chunk of `live`.
pub open spec fn spec_collides_any(live: Map<u64, ChunkModel>, c: ChunkModel) -> bool {
    exists|p: u64| #[trigger] live.contains_key(p) && c.collides_with(live[p])
}

/// The chunk that an allocation event creates: healthy, or flagged
/// `AlreadyUsed` right away when it collides with a live solid chunk.
pub open spec fn spec_alloc_chunk(m: StoreModel, ptr: u64, size: u64, identifier: Seq<char>) -> ChunkModel {
    let fresh = ChunkModel {
        lines: ChunkLines::spec_of(ptr as int, size as int, m.width as int),
        ptr,
        size,
        identifier,
        state: ChunkState::Healthy,
    };
    if spec_collides_any(m.live, fresh) {
        ChunkModel { state: ChunkState::AlreadyUsed, ..fresh }
    } else {
        fresh
    }
}

/// The placeholder chunk synthesized for a corruption notice naming an
/// unknown address.
pub open spec fn spec_corrupted_placeholder(m: StoreModel, ptr: u64) -> ChunkModel {
    ChunkModel {
        lines: ChunkLines::spec_of(ptr as int, PLACEHOLDER_SIZE as int, m.width as int),
        ptr,
        size: PLACEHOLDER_SIZE,
        identifier: Seq::empty(),
        state: ChunkState::Corrupted,
    }
}

/// The transition one event makes on the store.
///
/// - An allocation inserts a fresh chunk, replacing any previous entry
///   at the address; overlap with a live solid chunk is recorded in the
///   new chunk's state, never rejected.
/// - A free removes the live entry, if any; a free of an untracked
///   address leaves no durable entry behind.
/// - A corruption notice always clears the ingestion flag; it marks the
///   live chunk at the address corrupted, or records a placeholder when
///   the address is unknown.
///
/// An event whose span falls outside the tracked line range is ignored,
/// except that a corruption notice still clears the ingestion flag.
pub open spec fn spec_step(m: StoreModel, ev: EventModel) -> StoreModel {
    match ev {
        EventModel::Alloc { ptr, size, identifier } => {
            if spec_fits(ptr, size, m.width, m.cap) {
                StoreModel { live: m.live.insert(ptr, spec_alloc_chunk(m, ptr, size, identifier)), ..m }
            } else {
                m
            }
        },
        EventModel::Free { ptr, identifier } => StoreModel { live: m.live.remove(ptr), ..m },
        EventModel::Corrupted { ptr } => {
            if m.live.contains_key(ptr) {
                StoreModel {
                    live: m.live.insert(
                        ptr,
                        ChunkModel { state: ChunkState::Corrupted, ..m.live[ptr] },
                    ),
                    advance: false,
                    ..m
                }
            } else if spec_fits(ptr, PLACEHOLDER_SIZE, m.width, m.cap) {
                StoreModel {
                    live: m.live.insert(ptr, spec_corrupted_placeholder(m, ptr)),
                    advance: false,
                    ..m
                }
            } else {
                StoreModel { advance: false, ..m }
            }
        },
    }
}

/// The transition a whole sequence of events makes, applied in order.
pub open spec fn spec_apply_all(m: StoreModel, evs: Seq<EventModel>) -> StoreModel
    decreases evs.len(),
{
    if evs.len() == 0 {
        m
    } else {
        spec_apply_all(spec_step(m, evs[0]), evs.drop_first())
    }
}

/// The store.  Events decoded elsewhere are buffered here and applied
/// in order by [`Chunks::update`] while ingestion is enabled.
pub struct Chunks {
    chunks: HashMap<u64, Chunk>,
    line_lookup: Vec<Vec<u64>>,
    line_width: u64,
    pending: Vec<Event>,
    do_advance: bool,
}

impl Chunks {
    /// Abstract state of the store.
    pub closed spec fn model(&self) -> StoreModel {
        StoreModel {
            live: Map::new(
                |p: u64| self.chunks@.contains_key(p),
                |p: u64| self.chunks@[p]@,
            ),
            width: self.line_width,
            cap: self.line_lookup@.len(),
            advance: self.do_advance,
        }
    }

    /// Events buffered and not yet applied, oldest first.
    pub closed spec fn pending_events(&self) -> Seq<EventModel> {
        self.pending@.map_values(|e: Event| e@)
    }

    /// Internal consistency: each live chunk is keyed by its own
    /// address, its span is the one derived from its address and size,
    /// the span lies inside the index, and the chunk's address stands
    /// in every bucket of its span.
    pub closed spec fn wf(&self) -> bool {
        &&& self.line_width >= 1
        &&& forall|p: u64| #[trigger] self.chunks@.contains_key(p) ==> {
            let c = self.chunks@[p]@;
            &&& c.ptr == p
            &&& c.lines_derived(self.line_width as int)
            &&& c.lines.start + c.lines.count <= self.line_lookup@.len()
            &&& forall|l: int|
                in_span(l, c.lines) ==> (#[trigger] self.line_lookup@[l])@.contains(p)
        }
    }

    /// A store with no chunks, tracking `max_line_count` grid lines of
    /// `line_width` bytes each, with ingestion enabled.
    pub fn new(line_width: u64, max_line_count: usize) -> (r: Chunks)
        requires
            line_width >= 1,
        ensures
            r.wf(),
            r.model() == (StoreModel {
                live: Map::<u64, ChunkModel>::empty(),
                width: line_width,
                cap: max_line_count as nat,
                advance: true,
            }),
            r.pending_events() == Seq::<EventModel>::empty(),
    {
        let mut line_lookup: Vec<Vec<u64>> = Vec::new();
        while line_lookup.len() < max_line_count
            invariant
                line_lookup@.len() <= max_line_count,
            decreases max_line_count - line_lookup.len(),
        {
            line_lookup.push(Vec::new());
        }
        let r = Chunks {
            chunks: HashMap::new(),
            line_lookup,
            line_width,
            pending: Vec::new(),
            do_advance: true,
        };
        proof {
            assert(r.model().live =~= Map::<u64, ChunkModel>::empty());
            assert(r.pending_events() =~= Seq::<EventModel>::empty());
        }
        r
    }

    /// The live chunk at `ptr`, if any.
    pub fn get(&self, ptr: u64) -> (r: Option<&Chunk>)
        ensures
            match r {
                Some(c) => self.model().live.contains_key(ptr) && c@ == self.model().live[ptr],
                None => !self.model().live.contains_key(ptr),
            },
    {
        self.chunks.get(&ptr)
    }

    /// Whether buffered events are being applied.
    pub fn do_advance(&self) -> (r: bool)
        ensures
            r == self.model().advance,
    {
        self.do_advance
    }

    /// Enable or disable ingestion; buffered events are kept either way.
    pub fn set_do_advance(&mut self, v: bool)
        ensures
            final(self).model() == (StoreModel { advance: v, ..old(self).model() }),
            final(self).wf() == old(self).wf(),
            final(self).pending_events() == old(self).pending_events(),
    {
        self.do_advance = v;
    }

    /// Append `chunk` to every bucket of its span and make it the live
    /// entry at `ptr`, replacing any previous one.
    fn insert(&mut self, ptr: u64, chunk: Chunk)
        requires
            old(self).wf(),
            chunk@.ptr == ptr,
            chunk@.lines_derived(old(self).model().width as int),
            chunk@.lines.start + chunk@.lines.count <= old(self).model().cap,
        ensures
            final(self).wf(),
            final(self).model() == (StoreModel {
                live: old(self).model().live.insert(ptr, chunk@),
                ..old(self).model()
            }),
            final(self).pending_events() == old(self).pending_events(),
    {
        let n: usize = self.line_lookup.len();
        proof {
            assert(chunk@.lines.start + chunk@.lines.count <= n <= usize::MAX);
        }
        let lo: u64 = chunk.lines.start;
        let hi: u64 = chunk.lines.start + chunk.lines.count;
        let mut l: u64 = lo;
        while l < hi
            invariant
                lo <= l <= hi,
                hi <= self.line_lookup@.len() <= usize::MAX,
                self.chunks == old(self).chunks,
                self.line_width == old(self).line_width,
                self.pending == old(self).pending,
                self.do_advance == old(self).do_advance,
                self.line_lookup@.len() == old(self).line_lookup@.len(),
                forall|i: int|
                    0 <= i < self.line_lookup@.len() && !(lo <= i < l)
                        ==> self.line_lookup@[i] == old(self).line_lookup@[i],
                forall|i: int|
                    lo <= i < l ==> (#[trigger] self.line_lookup@[i])@ == old(
                        self,
                    ).line_lookup@[i]@.push(ptr),
            decreases hi - l,
        {
            let idx: usize = l as usize;
            self.line_lookup[idx].push(ptr);
            l = l + 1;
        }
        self.chunks.insert(ptr, chunk);
        proof {
            let m0 = old(self).model();
            assert forall|q: u64| #[trigger] self.chunks@.contains_key(q) implies {
                let c = self.chunks@[q]@;
                &&& c.ptr == q
                &&& c.lines_derived(self.line_width as int)
                &&& c.lines.start + c.lines.count <= self.line_lookup@.len()
                &&& forall|l2: int|
                    in_span(l2, c.lines) ==> (#[trigger] self.line_lookup@[l2])@.contains(q)
            } by {
                let c = self.chunks@[q]@;
                if q == ptr {
                    assert forall|l2: int| in_span(l2, c.lines) implies (
                    #[trigger] self.line_lookup@[l2])@.contains(q) by {
                        let b = old(self).line_lookup@[l2]@;
                        assert(self.line_lookup@[l2]@ == b.push(ptr));
                        assert(self.line_lookup@[l2]@[b.len() as int] == ptr);
                    }
                } else {
                    assert(old(self).chunks@.contains_key(q));
                    assert forall|l2: int| in_span(l2, c.lines) implies (
                    #[trigger] self.line_lookup@[l2])@.contains(q) by {
                        let b = old(self).line_lookup@[l2]@;
                        assert(b.contains(q));
                        let w = choose|w: int| 0 <= w < b.len() && b[w] == q;
                        if lo <= l2 < hi {
                            assert(self.line_lookup@[l2]@ == b.push(ptr));
                            assert(self.line_lookup@[l2]@[w] == q);
                        } else {
                            assert(self.line_lookup@[l2]@[w] == q);
                        }
                    }
                }
            }
            assert(self.model().live =~= m0.live.insert(ptr, chunk@));
        }
    }

    /// Whether `chunk` collides with any chunk now live: both solid and
    /// their byte ranges intersecting.  Found by scanning only the buckets
    /// of the candidate's own span.
    fn is_chunk_colliding(&self, chunk: &Chunk) -> (r: bool)
        requires
            self.wf(),
            chunk@.lines_derived(self.model().width as int),
            chunk@.lines.start + chunk@.lines.count <= self.model().cap,
        ensures
            r == spec_collides_any(self.model().live, chunk@),
    {
        let n: usize = self.line_lookup.len();
        proof {
            assert(chunk@.lines.start + chunk@.lines.count <= n <= usize::MAX);
        }
        let lo: u64 = chunk.lines.start;
        let hi: u64 = chunk.lines.start + chunk.lines.count;
        let mut l: u64 = lo;
        while l < hi
            invariant
                self.wf(),
                chunk@.lines_derived(self.line_width as int),
                lo == chunk@.lines.start,
                hi == chunk@.lines.start + chunk@.lines.count,
                lo <= l <= hi,
                hi <= self.line_lookup@.len() <= usize::MAX,
                forall|i: int, j: int|
                    lo <= i < l && 0 <= j < (#[trigger] self.line_lookup@[i])@.len() ==> !(
                    self.chunks@.contains_key(#[trigger] self.line_lookup@[i]@[j])
                        && chunk@.collides_with(self.chunks@[self.line_lookup@[i]@[j]]@)),
            decreases hi - l,
        {
            let idx: usize = l as usize;
            let mut j: usize = 0;
            while j < self.line_lookup[idx].len()
                invariant
                    self.wf(),
                    chunk@.lines_derived(self.line_width as int),
                    lo == chunk@.lines.start,
                    hi == chunk@.lines.start + chunk@.lines.count,
                    lo <= l < hi,
                    hi <= self.line_lookup@.len() <= usize::MAX,
                    idx == l as usize,
                    j <= self.line_lookup@[l as int]@.len(),
                    forall|i: int, j2: int|
                        lo <= i < l && 0 <= j2 < (#[trigger] self.line_lookup@[i])@.len() ==> !(
                        self.chunks@.contains_key(#[trigger] self.line_lookup@[i]@[j2])
                            && chunk@.collides_with(self.chunks@[self.line_lookup@[i]@[j2]]@)),
                    forall|j2: int|
                        0 <= j2 < j ==> !(self.chunks@.contains_key(
                            #[trigger] self.line_lookup@[l as int]@[j2],
                        ) && chunk@.collides_with(self.chunks@[self.line_lookup@[l as int]@[j2]]@)),
                decreases self.line_lookup@[l as int]@.len() - j,
            {
                let p: u64 = self.line_lookup[idx][j];
                match self.chunks.get(&p) {
                    Some(other) => {
                        if chunk.is_colliding(other) {
                            proof {
                                assert(self.model().live.contains_key(p)
                                    && chunk@.collides_with(self.model().live[p]));
                            }
                            return true;
                        }
                    },
                    None => {},
                }
                j = j + 1;
            }
            l = l + 1;
        }
        proof {
            assert forall|p: u64| !(#[trigger] self.model().live.contains_key(p)
                && chunk@.collides_with(self.model().live[p])) by {
                if self.model().live.contains_key(p) && chunk@.collides_with(
                    self.model().live[p],
                ) {
                    assert(self.chunks@.contains_key(p));
                    let c = self.chunks@[p]@;
                    assert(c == self.model().live[p]);
                    lemma_colliding_chunks_share_line(chunk@, c, self.line_width as int);
                    let l0 = choose|l0: int|
                        #[trigger] in_span(l0, chunk@.lines) && in_span(l0, c.lines);
                    assert((#[trigger] self.line_lookup@[l0])@.contains(p));
                    let jj = choose|jj: int|
                        0 <= jj < self.line_lookup@[l0]@.len() && self.line_lookup@[l0]@[jj] == p;
                    assert(lo <= l0 < hi);
                    assert(false);
                }
            }
        }
        false
    }

    /// Record an allocation: construct the chunk, flag it `AlreadyUsed`
    /// when it collides with a live solid chunk, and insert it either
    /// way.  An allocation outside the tracked line range is ignored.
    fn record_alloc(&mut self, ptr: u64, size: u64, identifier: String)
        requires
            old(self).wf(),
        ensures
            final(self).wf(),
            final(self).model() == spec_step(
                old(self).model(),
                EventModel::Alloc { ptr, size, identifier: identifier@ },
            ),
            final(self).pending_events() == old(self).pending_events(),
    {
        let mut chunk = Chunk::new(ptr, size, identifier, self.line_width);
        let cap: u64 = self.line_lookup.len() as u64;
        if chunk.lines.count > cap || chunk.lines.start > cap - chunk.lines.count {
            return ;
        }
        if self.is_chunk_colliding(&chunk) {
            chunk.set_state(ChunkState::AlreadyUsed);
        }
        self.insert(ptr, chunk);
    }

    /// Replace the contents of `bucket` by its entries other than `ptr`.
    fn remove_from_bucket(bucket: &mut Vec<u64>, ptr: u64)
        ensures
            forall|y: u64|
                old(bucket)@.contains(y) && y != ptr ==> (#[trigger] final(bucket)@.contains(y)),
            forall|y: u64|
                (#[trigger] final(bucket)@.contains(y)) ==> old(bucket)@.contains(y) && y != ptr,
    {
        let mut out: Vec<u64> = Vec::new();
        let mut k: usize = 0;
        while k < bucket.len()
            invariant
                k <= bucket@.len(),
                forall|i: int|
                    0 <= i < k && bucket@[i] != ptr ==> (#[trigger] out@.contains(bucket@[i])),
                forall|y: u64| (#[trigger] out@.contains(y)) ==> bucket@.contains(y) && y != ptr,
            decreases bucket@.len() - k,
        {
            let q: u64 = bucket[k];
            if q != ptr {
                let ghost before = out@;
                out.push(q);
                proof {
                    assert forall|y: u64| #[trigger] out@.contains(y) implies bucket@.contains(y)
                        && y != ptr by {
                        let w = choose|w: int| 0 <= w < out@.len() && out@[w] == y;
                        if w < before.len() {
                            assert(before.contains(y));
                        } else {
                            assert(y == q);
                            assert(bucket@[k as int] == q);
                        }
                    }
                    assert forall|i: int| 0 <= i < k + 1 && bucket@[i] != ptr implies (
                    #[trigger] out@.contains(bucket@[i])) by {
                        if i < k {
                            assert(before.contains(bucket@[i]));
                            let w = choose|w: int| 0 <= w < before.len() && before[w] == bucket@[i];
                            assert(out@[w] == bucket@[i]);
                        } else {
                            assert(out@[before.len() as int] == q);
                        }
                    }
                }
            }
            k = k + 1;
        }
        proof {
            assert forall|y: u64| bucket@.contains(y) && y != ptr implies (
            #[trigger] out@.contains(y)) by {
                let w = choose|w: int| 0 <= w < bucket@.len() && bucket@[w] == y;
                assert(out@.contains(bucket@[w]));
            }
        }
        *bucket = out;
    }

    /// Drop the live entry at `ptr`: clear its address from every
    /// bucket of its span, then remove it from the live map.  A free of
    /// an untracked address leaves no durable entry.
    fn free(&mut self, ptr: u64)
        requires
            old(self).wf(),
        ensures
            final(self).wf(),
            final(self).model() == (StoreModel {
                live: old(self).model().live.remove(ptr),
                ..old(self).model()
            }),
            final(self).pending_events() == old(self).pending_events(),
    {
        match self.chunks.remove(&ptr) {
            Some(chunk) => {
                let n: usize = self.line_lookup.len();
                proof {
                    assert(old(self).chunks@.contains_key(ptr));
                    assert(chunk@.lines.start + chunk@.lines.count <= n <= usize::MAX);
                }
                let lo: u64 = chunk.lines.start;
                let hi: u64 = chunk.lines.start + chunk.lines.count;
                let mut l: u64 = lo;
                while l < hi
                    invariant
                        lo <= l <= hi,
                        hi <= self.line_lookup@.len() <= usize::MAX,
                        self.chunks@ == old(self).chunks@.remove(ptr),
                        self.line_width == old(self).line_width,
                        self.pending == old(self).pending,
                        self.do_advance == old(self).do_advance,
                        self.line_lookup@.len() == old(self).line_lookup@.len(),
                        forall|i: int|
                            0 <= i < self.line_lookup@.len() && !(lo <= i < l)
                                ==> self.line_lookup@[i] == old(self).line_lookup@[i],
                        forall|i: int, y: u64|
                            lo <= i < l && old(self).line_lookup@[i]@.contains(y) && y != ptr
                                ==> #[trigger] self.line_lookup@[i]@.contains(y),
                    decreases hi - l,
                {
                    let idx: usize = l as usize;
                    Self::remove_from_bucket(&mut self.line_lookup[idx], ptr);
                    l = l + 1;
                }
                proof {
                    assert forall|q: u64| #[trigger] self.chunks@.contains_key(q) implies {
                        let c = self.chunks@[q]@;
                        &&& c.ptr == q
                        &&& c.lines_derived(self.line_width as int)
                        &&& c.lines.start + c.lines.count <= self.line_lookup@.len()
                        &&& forall|l2: int|
                            in_span(l2, c.lines) ==> (#[trigger] self.line_lookup@[l2])@.contains(
                                q,
                            )
                    } by {
                        let c = self.chunks@[q]@;
                        assert(old(self).chunks@.contains_key(q) && q != ptr);
                        assert forall|l2: int| in_span(l2, c.lines) implies (
                        #[trigger] self.line_lookup@[l2])@.contains(q) by {
                            assert(old(self).line_lookup@[l2]@.contains(q));
                        }
                    }
                    assert(self.model().live =~= old(self).model().live.remove(ptr));
                }
            },
            None => {
                proof {
                    assert(self.model().live =~= old(self).model().live.remove(ptr));
                }
            },
        }
    }

    /// Record a corruption notice: always stop ingestion; mark the live
    /// chunk at `ptr` corrupted, or insert a placeholder when the
    /// address is unknown and its span lies in the tracked range.
    fn corrupted(&mut self, ptr: u64)
        requires
            old(self).wf(),
        ensures
            final(self).wf(),
            final(self).model() == spec_step(old(self).model(), EventModel::Corrupted { ptr }),
            final(self).pending_events() == old(self).pending_events(),
    {
        self.do_advance = false;
        match self.chunks.remove(&ptr) {
            Some(mut chunk) => {
                chunk.set_state(ChunkState::Corrupted);
                self.chunks.insert(ptr, chunk);
                proof {
                    assert(self.model().live =~= spec_step(
                        old(self).model(),
                        EventModel::Corrupted { ptr },
                    ).live);
                }
            },
            None => {
                let lines = ChunkLines::new(ptr, PLACEHOLDER_SIZE, self.line_width);
                let cap: u64 = self.line_lookup.len() as u64;
                if lines.count <= cap && lines.start <= cap - lines.count {
                    self.insert(ptr, Chunk::placeholder(ptr, ChunkState::Corrupted, self.line_width));
                    proof {
                        assert(self.model().live =~= spec_step(
                            old(self).model(),
                            EventModel::Corrupted { ptr },
                        ).live);
                    }
                } else {
                    proof {
                        assert(self.model().live =~= spec_step(
                            old(self).model(),
                            EventModel::Corrupted { ptr },
                        ).live);
                    }
                }
            },
        }
    }

    /// Apply one decoded event to the store.
    fn apply_event(&mut self, event: Event)
        requires
            old(self).wf(),
        ensures
            final(self).wf(),
            final(self).model() == spec_step(old(self).model(), event@),
            final(self).pending_events() == old(self).pending_events(),
    {
        match event {
            Event::Alloc { ptr, size, identifier } => self.record_alloc(ptr, size, identifier),
            Event::Free { ptr, identifier: _ } => self.free(ptr),
            Event::Corrupted { ptr } => self.corrupted(ptr),
        }
    }

    /// The per-tick drain: while ingestion is enabled, apply every
    /// buffered event in arrival order and report whether any event was
    /// applied; while disabled, do nothing and keep the buffer.
    pub fn update(&mut self) -> (r: bool)
        requires
            old(self).wf(),
        ensures
            final(self).wf(),
            r == (old(self).model().advance && old(self).pending_events().len() > 0),
            old(self).model().advance ==> final(self).model() == spec_apply_all(
                old(self).model(),
                old(self).pending_events(),
            ) && final(self).pending_events() == Seq::<EventModel>::empty(),
            !old(self).model().advance ==> *final(self) == *old(self),
    {
        if !self.do_advance {
            return false;
        }
        let mut events: Vec<Event> = Vec::new();
        core::mem::swap(&mut self.pending, &mut events);
        let did_update = events.len() > 0;
        proof {
            assert(self.pending_events() =~= Seq::<EventModel>::empty());
        }
        while events.len() > 0
            invariant
                self.wf(),
                self.pending_events() == Seq::<EventModel>::empty(),
                spec_apply_all(self.model(), events@.map_values(|e: Event| e@)) == spec_apply_all(
                    old(self).model(),
                    old(self).pending_events(),
                ),
            decreases events@.len(),
        {
            let ghost evs = events@.map_values(|e: Event| e@);
            let e = events.remove(0);
            proof {
                assert(events@.map_values(|e2: Event| e2@) =~= evs.drop_first());
            }
            self.apply_event(e);
        }
        proof {
            assert(events@.map_values(|e: Event| e@) =~= Seq::<EventModel>::empty());
        }
        did_update
    }

    /// A snapshot of the live chunks, as address and chunk pairs in no
    /// particular order: every live chunk appears exactly once.
    pub fn iter(&self) -> (r: Vec<(u64, &Chunk)>)
        ensures
            r@.len() == self.model().live.dom().len(),
            forall|i: int|
                0 <= i < r@.len() ==> self.model().live.contains_key(#[trigger] r@[i].0)
                    && r@[i].1@ == self.model().live[r@[i].0],
            forall|p: u64|
                #[trigger] self.model().live.contains_key(p) ==> exists|i: int|
                    0 <= i < r@.len() && #[trigger] r@[i].0 == p,
    {
        let mut out: Vec<(u64, &Chunk)> = Vec::new();
        proof {
            let v = vstd::std_specs::hash::spec_hash_map_iter(&self.chunks).remaining();
            assert(v.skip(0) =~= v);
        }
        for kv in it: self.chunks.iter()
            invariant
                out@.len() == it.index(),
                it.seq().len() == self.chunks@.dom().len(),
                forall|j: int|
                    0 <= j < it.seq().len() ==> self.chunks@.contains_key(
                        *(#[trigger] it.seq()[j]).0,
                    ) && self.chunks@[*it.seq()[j].0] == *it.seq()[j].1,
                forall|i: int|
                    0 <= i < out@.len() ==> self.model().live.contains_key((#[trigger] out@[i]).0)
                        && out@[i].1@ == self.model().live[out@[i].0],
                forall|p: u64|
                    #[trigger] self.model().live.contains_key(p) ==> (exists|i: int|
                        0 <= i < out@.len() && (#[trigger] out@[i]).0 == p) || it.seq().skip(
                        it.index() as int,
                    ).contains((&p, &self.chunks@[p])),
        {
            let ghost idx0 = it.index() as int;
            let ghost pre = out@;
            let (k, v) = kv;
            proof {
                assert(kv == it.seq()[idx0]);
                assert(self.model().live.contains_key(*kv.0));
                assert(self.model().live[*kv.0] == self.chunks@[*kv.0]@);
            }
            out.push((*k, v));
            proof {
                let s = it.seq();
                assert forall|p: u64| #[trigger] self.model().live.contains_key(p) implies (
                exists|i: int| 0 <= i < out@.len() && (#[trigger] out@[i]).0 == p) || s.skip(
                    idx0 + 1,
                ).contains((&p, &self.chunks@[p])) by {
                    let pair = (&p, &self.chunks@[p]);
                    if exists|i: int| 0 <= i < pre.len() && (#[trigger] pre[i]).0 == p {
                        let i = choose|i: int| 0 <= i < pre.len() && (#[trigger] pre[i]).0 == p;
                        assert(out@[i].0 == p);
                    } else if s.skip(idx0).contains(pair) {
                        let w = choose|w: int|
                            0 <= w < s.skip(idx0).len() && s.skip(idx0)[w] == pair;
                        if w == 0 {
                            assert(out@[idx0].0 == p);
                        } else {
                            assert(s.skip(idx0 + 1)[w - 1] == pair);
                            assert(s.skip(idx0 + 1).contains(pair));
                        }
                    }
                }
            }
        }
        proof {
            assert(self.model().live.dom() =~= self.chunks@.dom());
        }
        out
    }

    /// Buffer one decoded event for a later [`Chunks::update`].
    pub fn push_event(&mut self, event: Event)
        ensures
            final(self).model() == old(self).model(),
            final(self).wf() == old(self).wf(),
            final(self).pending_events() == old(self).pending_events().push(event@),
    {
        let ghost before = self.pending@;
        self.pending.push(event);
        proof {
            assert(self.pending@.map_values(|e: Event| e@) =~= before.map_values(|e: Event| e@)
                .push(event@));
        }
    }
}

} // verus!
