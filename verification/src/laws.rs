//! Store-wide laws: properties of the event transition relation that
//! hold for every input, proved once and for all.
use crate::chunk::{ChunkModel, ChunkState, spec_ranges_intersect};
use crate::event::EventModel;
use crate::store::{
    spec_alloc_chunk, spec_apply_all, spec_collides_any, spec_corrupted_placeholder, spec_fits,
    spec_step, StoreModel,
};
use vstd::prelude::*;

verus! {

/// Address named by an event.
pub open spec fn spec_ev_ptr(ev: EventModel) -> u64 {
    match ev {
        EventModel::Alloc { ptr, .. } => ptr,
        EventModel::Free { ptr, .. } => ptr,
        EventModel::Corrupted { ptr } => ptr,
    }
}

/// Size carried by an allocation event; zero for the other kinds.
pub open spec fn spec_ev_size(ev: EventModel) -> u64 {
    match ev {
        EventModel::Alloc { size, .. } => size,
        EventModel::Free { .. } => 0,
        EventModel::Corrupted { .. } => 0,
    }
}

/// A batch of allocation events with pairwise disjoint byte ranges; an
/// empty range is disjoint from everything.
pub open spec fn spec_disjoint_alloc_batch(evs: Seq<EventModel>) -> bool {
    &&& forall|i: int| 0 <= i < evs.len() ==> (#[trigger] evs[i]) is Alloc
    &&& forall|i: int, j: int|
        0 <= i < evs.len() && 0 <= j < evs.len() && i != j ==> !spec_ranges_intersect(
            spec_ev_ptr(#[trigger] evs[i]) as int,
            spec_ev_size(evs[i]) as int,
            spec_ev_ptr(#[trigger] evs[j]) as int,
            spec_ev_size(evs[j]) as int,
        )
}

/// Every live chunk is healthy and disjoint from every event of the
/// batch still to come.
spec fn spec_clean_against(live: Map<u64, ChunkModel>, evs: Seq<EventModel>) -> bool {
    forall|p: u64| #[trigger] live.contains_key(p) ==> {
        &&& live[p].state == ChunkState::Healthy
        &&& forall|j: int|
            0 <= j < evs.len() ==> !spec_ranges_intersect(
                live[p].ptr as int,
                live[p].size as int,
                spec_ev_ptr(#[trigger] evs[j]) as int,
                spec_ev_size(evs[j]) as int,
            )
    }
}

proof fn lemma_allocs_keep_clean(m: StoreModel, evs: Seq<EventModel>)
    requires
        spec_disjoint_alloc_batch(evs),
        spec_clean_against(m.live, evs),
    ensures
        spec_clean_against(spec_apply_all(m, evs).live, Seq::<EventModel>::empty()),
    decreases evs.len(),
{
    if evs.len() > 0 {
        let ev = evs[0];
        let tail = evs.drop_first();
        let m1 = spec_step(m, ev);
        assert(spec_disjoint_alloc_batch(tail)) by {
            assert forall|i: int| 0 <= i < tail.len() implies (#[trigger] tail[i]) is Alloc by {
                assert(tail[i] == evs[i + 1]);
            }
            assert forall|i: int, j: int|
                0 <= i < tail.len() && 0 <= j < tail.len() && i != j implies !spec_ranges_intersect(
                spec_ev_ptr(#[trigger] tail[i]) as int,
                spec_ev_size(tail[i]) as int,
                spec_ev_ptr(#[trigger] tail[j]) as int,
                spec_ev_size(tail[j]) as int,
            ) by {
                assert(tail[i] == evs[i + 1] && tail[j] == evs[j + 1]);
            }
        }
        assert(spec_clean_against(m1.live, tail)) by {
            let ptr = spec_ev_ptr(ev);
            let size = spec_ev_size(ev);
            if spec_fits(ptr, size, m.width, m.cap) {
                if let EventModel::Alloc { ptr: p2, size: s2, identifier } = ev {
                    let fresh = spec_alloc_chunk(m, p2, s2, identifier);
                    assert(!spec_collides_any(
                        m.live,
                        ChunkModel { state: ChunkState::Healthy, ..fresh },
                    ));
                }
                assert forall|p: u64| #[trigger] m1.live.contains_key(p) implies {
                    &&& m1.live[p].state == ChunkState::Healthy
                    &&& forall|j: int|
                        0 <= j < tail.len() ==> !spec_ranges_intersect(
                            m1.live[p].ptr as int,
                            m1.live[p].size as int,
                            spec_ev_ptr(#[trigger] tail[j]) as int,
                            spec_ev_size(tail[j]) as int,
                        )
                } by {
                    if p == ptr {
                        assert forall|j: int| 0 <= j < tail.len() implies !spec_ranges_intersect(
                            m1.live[p].ptr as int,
                            m1.live[p].size as int,
                            spec_ev_ptr(#[trigger] tail[j]) as int,
                            spec_ev_size(tail[j]) as int,
                        ) by {
                            assert(tail[j] == evs[j + 1]);
                        }
                    } else {
                        assert(m.live.contains_key(p));
                        assert forall|j: int| 0 <= j < tail.len() implies !spec_ranges_intersect(
                            m1.live[p].ptr as int,
                            m1.live[p].size as int,
                            spec_ev_ptr(#[trigger] tail[j]) as int,
                            spec_ev_size(tail[j]) as int,
                        ) by {
                            assert(tail[j] == evs[j + 1]);
                        }
                    }
                }
            } else {
                assert forall|p: u64| #[trigger] m1.live.contains_key(p) implies {
                    &&& m1.live[p].state == ChunkState::Healthy
                    &&& forall|j: int|
                        0 <= j < tail.len() ==> !spec_ranges_intersect(
                            m1.live[p].ptr as int,
                            m1.live[p].size as int,
                            spec_ev_ptr(#[trigger] tail[j]) as int,
                            spec_ev_size(tail[j]) as int,
                        )
                } by {
                    assert forall|j: int| 0 <= j < tail.len() implies !spec_ranges_intersect(
                        m1.live[p].ptr as int,
                        m1.live[p].size as int,
                        spec_ev_ptr(#[trigger] tail[j]) as int,
                        spec_ev_size(tail[j]) as int,
                    ) by {
                        assert(tail[j] == evs[j + 1]);
                    }
                }
            }
        }
        lemma_allocs_keep_clean(m1, tail);
        assert(spec_apply_all(m, evs) == spec_apply_all(m1, tail));
    }
}

/// Allocations whose byte ranges are pairwise disjoint never produce
/// an `AlreadyUsed` chunk: applied to an empty store, in any order,
/// every resulting chunk is healthy.
pub proof fn lemma_disjoint_allocs_stay_healthy(m0: StoreModel, evs: Seq<EventModel>)
    requires
        m0.live == Map::<u64, ChunkModel>::empty(),
        spec_disjoint_alloc_batch(evs),
    ensures
        forall|p: u64|
            #[trigger] spec_apply_all(m0, evs).live.contains_key(p) ==> spec_apply_all(
                m0,
                evs,
            ).live[p].state == ChunkState::Healthy,
{
    lemma_allocs_keep_clean(m0, evs);
}

/// An allocation that intersects no live chunk is recorded healthy: in
/// particular, a chunk freed earlier no longer counts for overlap.
pub proof fn lemma_alloc_without_overlap_is_healthy(
    m: StoreModel,
    ptr: u64,
    size: u64,
    identifier: Seq<char>,
)
    requires
        spec_fits(ptr, size, m.width, m.cap),
        forall|q: u64|
            #[trigger] m.live.contains_key(q) ==> !spec_ranges_intersect(
                ptr as int,
                size as int,
                m.live[q].ptr as int,
                m.live[q].size as int,
            ),
    ensures
        spec_step(m, EventModel::Alloc { ptr, size, identifier }).live.contains_key(ptr),
        spec_step(m, EventModel::Alloc { ptr, size, identifier }).live[ptr].state
            == ChunkState::Healthy,
{
}

/// A freed chunk never contributes to overlap detection again: after
/// freeing it, its address is no longer live, and a later allocation
/// that intersects no remaining live chunk — however much it overlaps
/// the freed chunk's former range — is recorded healthy.
pub proof fn lemma_free_then_alloc_sees_no_freed_chunk(
    m: StoreModel,
    freed: u64,
    freed_label: Seq<char>,
    ptr: u64,
    size: u64,
    label: Seq<char>,
)
    requires
        spec_fits(ptr, size, m.width, m.cap),
        forall|q: u64|
            #[trigger] m.live.contains_key(q) && q != freed ==> !spec_ranges_intersect(
                ptr as int,
                size as int,
                m.live[q].ptr as int,
                m.live[q].size as int,
            ),
    ensures
        ({
            let m1 = spec_step(m, EventModel::Free { ptr: freed, identifier: freed_label });
            let m2 = spec_step(m1, EventModel::Alloc { ptr, size, identifier: label });
            &&& !m1.live.contains_key(freed)
            &&& m2.live.contains_key(ptr)
            &&& m2.live[ptr].state == ChunkState::Healthy
        }),
{
    let m1 = spec_step(m, EventModel::Free { ptr: freed, identifier: freed_label });
    lemma_alloc_without_overlap_is_healthy(m1, ptr, size, label);
}

/// A free changes no other entry: in particular an `AlreadyUsed` state
/// is never cleared by a later free of the chunk it collided with.
pub proof fn lemma_free_keeps_other_states(
    m: StoreModel,
    freed: u64,
    identifier: Seq<char>,
    q: u64,
)
    requires
        q != freed,
        m.live.contains_key(q),
    ensures
        spec_step(m, EventModel::Free { ptr: freed, identifier }).live.contains_key(q),
        spec_step(m, EventModel::Free { ptr: freed, identifier }).live[q] == m.live[q],
{
}

/// A corruption notice always stops ingestion, whether or not the
/// address is tracked; an untracked address in range becomes visible as
/// a corrupted placeholder.
pub proof fn lemma_corrupted_always_pauses(m: StoreModel, ptr: u64)
    ensures
        !spec_step(m, EventModel::Corrupted { ptr }).advance,
        !m.live.contains_key(ptr) && spec_fits(ptr, crate::chunk::PLACEHOLDER_SIZE, m.width, m.cap)
            ==> spec_step(m, EventModel::Corrupted { ptr }).live.contains_key(ptr)
            && spec_step(m, EventModel::Corrupted { ptr }).live[ptr] == spec_corrupted_placeholder(
            m,
            ptr,
        ),
{
}

} // verus!
