//! Properties of the download engine that span several operations.
use vstd::prelude::*;
use crate::download::{
    after_chunk, headed, holds, is_free, lemma_update_keeps_wf, progress_of, DownloadView, ManagerView,
    Progress, Status,
};
use crate::files::{is_confined, is_named_segment, lemma_sanitized_is_confined, sanitized, segments};
use crate::seqs::{lemma_first_index, lemma_first_index_at, lemma_first_index_none};

verus! {

/// A manager state with `n` free slots and an empty queue.
pub open spec fn empty_pool(root: Seq<char>, n: nat) -> ManagerView {
    ManagerView {
        root,
        active: Seq::new(n, |i: int| None::<DownloadView>),
        queue: Seq::empty(),
    }
}

/// The state after submitting `recs` in order.
pub open spec fn submitted_all(v: ManagerView, recs: Seq<DownloadView>) -> ManagerView
    decreases recs.len(),
{
    if recs.len() == 0 {
        v
    } else {
        submitted_all(v, recs.drop_last()).submitted(recs.last())
    }
}

/// The state after the records in `slots` finished, one after another.
pub open spec fn released_all(v: ManagerView, slots: Seq<int>) -> ManagerView
    decreases slots.len(),
{
    if slots.len() == 0 {
        v
    } else {
        released_all(v, slots.drop_last()).released(slots.last())
    }
}

/// Submitting records one after another to a pool of `n` free slots: the
/// first `n` run at once, in slots `0, 1, ...`, and only the records after
/// them wait, queued in submission order.
pub proof fn lemma_pool_fills_before_queueing(root: Seq<char>, n: nat, recs: Seq<DownloadView>)
    ensures
        submitted_all(empty_pool(root, n), recs).active == Seq::new(
            n,
            |i: int|
                if i < recs.len() {
                    Some(recs[i])
                } else {
                    None
                },
        ),
        submitted_all(empty_pool(root, n), recs).queue == if recs.len() <= n {
            Seq::empty()
        } else {
            recs.subrange(n as int, recs.len() as int)
        },
        submitted_all(empty_pool(root, n), recs).root == root,
    decreases recs.len(),
{
    let v = empty_pool(root, n);
    let target = Seq::new(
        n,
        |i: int|
            if i < recs.len() {
                Some(recs[i])
            } else {
                None
            },
    );
    if recs.len() == 0 {
        assert(v.active =~= target);
    } else {
        let init = recs.drop_last();
        let k = init.len() as int;
        lemma_pool_fills_before_queueing(root, n, init);
        let prev = submitted_all(v, init);
        let pf = |o: Option<DownloadView>| is_free(o);
        if k < n {
            assert(pf(prev.active[k]));
            assert forall|j: int| 0 <= j < k implies !pf(#[trigger] prev.active[j]) by {
                assert(prev.active[j] == Some(init[j]));
            }
            lemma_first_index_at(prev.active, pf, k);
            assert(prev.first_free() == k);
            assert(prev.active.update(k, Some(recs.last())) =~= target);
        } else {
            assert forall|j: int| 0 <= j < prev.active.len() implies !pf(
                #[trigger] prev.active[j],
            ) by {
                assert(prev.active[j] == Some(init[j]));
            }
            lemma_first_index_none(prev.active, pf);
            assert(prev.active =~= target) by {
                assert forall|j: int| 0 <= j < n implies prev.active[j] == target[j] by {
                    assert(init[j] == recs[j]);
                }
            }
            assert(prev.queue.push(recs.last()) =~= recs.subrange(n as int, recs.len() as int));
        }
    }
}

/// When every slot is occupied, a submitted record joins the tail of the
/// queue and no slot changes.
pub proof fn lemma_full_pool_queues(v: ManagerView, rec: DownloadView)
    requires
        forall|i: int| 0 <= i < v.active.len() ==> (#[trigger] v.active[i]) is Some,
    ensures
        v.submitted(rec).active == v.active,
        v.submitted(rec).queue == v.queue.push(rec),
{
    let pf = |o: Option<DownloadView>| is_free(o);
    assert forall|j: int| 0 <= j < v.active.len() implies !pf(#[trigger] v.active[j]) by {}
    lemma_first_index_none(v.active, pf);
}

/// Transfers that finish one after another hand their slots to the queued
/// records in queue order: the `j`-th slot released receives the `j`-th
/// oldest queued record, and the rest of the queue keeps its order.
pub proof fn lemma_release_follows_queue_order(v: ManagerView, slots: Seq<int>)
    requires
        slots.len() <= v.queue.len(),
        forall|j: int| 0 <= j < slots.len() ==> 0 <= #[trigger] slots[j] < v.active.len(),
    ensures
        forall|j: int|
            0 <= j < slots.len() ==> (#[trigger] released_all(v, slots.take(j + 1))).active[slots[j]]
                == Some(v.queue[j]),
        released_all(v, slots).queue == v.queue.subrange(slots.len() as int, v.queue.len() as int),
        released_all(v, slots).active.len() == v.active.len(),
    decreases slots.len(),
{
    if slots.len() == 0 {
        assert(v.queue.subrange(0, v.queue.len() as int) =~= v.queue);
    } else {
        let init = slots.drop_last();
        lemma_release_follows_queue_order(v, init);
        let m = init.len() as int;
        assert(slots.take(m + 1) =~= slots);
        assert forall|j: int| 0 <= j < slots.len() implies (#[trigger] released_all(
            v,
            slots.take(j + 1),
        )).active[slots[j]] == Some(v.queue[j]) by {
            if j < m {
                assert(slots.take(j + 1) =~= init.take(j + 1));
                assert(init[j] == slots[j]);
            } else {
                assert(init =~= slots.take(m));
                let prev = released_all(v, init);
                assert(prev.queue[0] == v.queue[m]);
            }
        }
        let prev = released_all(v, init);
        assert(prev.queue.drop_first() =~= v.queue.subrange(slots.len() as int, v.queue.len() as int));
    }
}

/// A cancelled queued record is gone for good: it is no longer tracked, and
/// neither a finishing transfer nor a later submission under another
/// identifier brings it back.
pub proof fn lemma_cancelled_queued_never_runs(
    v: ManagerView,
    id: u128,
    slot: int,
    rec: DownloadView,
)
    requires
        v.wf(),
        v.in_queue(id),
        0 <= slot < v.active.len(),
        rec.uuid != id,
    ensures
        !v.cancelled(id).is_tracked(id),
        !v.cancelled(id).released(slot).is_tracked(id),
        !v.cancelled(id).submitted(rec).is_tracked(id),
{
    lemma_cancel_queued_untracks(v, id);
    lemma_untracked_stays_untracked(v.cancelled(id), id, slot, rec);
}

proof fn lemma_cancel_queued_untracks(v: ManagerView, id: u128)
    requires
        v.wf(),
        v.in_queue(id),
    ensures
        !v.cancelled(id).is_tracked(id),
{
    let k0 = choose|k: int| 0 <= k < v.queue.len() && (#[trigger] v.queue[k]).uuid == id;
    let ps = |o: Option<DownloadView>| holds(o, id);
    let pq = |d: DownloadView| d.uuid == id;
    assert forall|j: int| 0 <= j < v.active.len() implies !ps(#[trigger] v.active[j]) by {
        if v.active[j] is Some {
            assert(v.active[j]->Some_0.uuid != v.queue[k0].uuid);
        }
    }
    lemma_first_index_none(v.active, ps);
    lemma_first_index(v.queue, pq);
    let k = v.queue_index_of(id);
    assert(k < v.queue.len()) by {
        if k >= v.queue.len() {
            assert(!pq(v.queue[k0]));
        }
    }
    let c = v.cancelled(id);
    assert(c.queue == v.queue.remove(k));
    assert(c.active == v.active);
    assert(!c.in_queue(id)) by {
        if c.in_queue(id) {
            let l = choose|l: int| 0 <= l < c.queue.len() && (#[trigger] c.queue[l]).uuid == id;
            let l0 = if l < k { l } else { l + 1 };
            assert(c.queue[l] == v.queue[l0]);
            assert(v.queue[k].uuid == id);
        }
    }
    assert(!c.in_slots(id)) by {
        if c.in_slots(id) {
            let i = choose|i: int| 0 <= i < c.active.len() && holds(#[trigger] c.active[i], id);
            assert(!ps(v.active[i]));
        }
    }
}

/// Only a submission under `id` makes an untracked identifier tracked.
proof fn lemma_untracked_stays_untracked(v: ManagerView, id: u128, slot: int, rec: DownloadView)
    requires
        !v.is_tracked(id),
        0 <= slot < v.active.len(),
        rec.uuid != id,
    ensures
        !v.released(slot).is_tracked(id),
        !v.submitted(rec).is_tracked(id),
{
    let r = v.released(slot);
    assert(!r.is_tracked(id)) by {
        if r.in_slots(id) {
            let i = choose|i: int| 0 <= i < r.active.len() && holds(#[trigger] r.active[i], id);
            if i == slot {
                assert(v.queue.len() > 0);
                assert(v.queue[0].uuid == id);
                assert(v.in_queue(id));
            } else {
                assert(holds(v.active[i], id));
            }
        }
        if r.in_queue(id) {
            let l = choose|l: int| 0 <= l < r.queue.len() && (#[trigger] r.queue[l]).uuid == id;
            assert(r.queue[l] == v.queue[l + 1]);
        }
    }
    let s = v.submitted(rec);
    lemma_first_index(v.active, |o: Option<DownloadView>| is_free(o));
    assert(!s.is_tracked(id)) by {
        if s.in_slots(id) {
            let i = choose|i: int| 0 <= i < s.active.len() && holds(#[trigger] s.active[i], id);
            if v.first_free() < v.active.len() {
                if i != v.first_free() {
                    assert(s.active[i] == v.active[i]);
                    assert(holds(v.active[i], id));
                }
            } else {
                assert(s.active[i] == v.active[i]);
                assert(holds(v.active[i], id));
            }
        }
        if s.in_queue(id) {
            let l = choose|l: int| 0 <= l < s.queue.len() && (#[trigger] s.queue[l]).uuid == id;
            if l < v.queue.len() {
                assert(s.queue[l] == v.queue[l]);
            }
        }
    }
}

/// Once the transfer in `slot` finished (completed, failed or cancelled) and
/// its slot was released, its record is no longer tracked.
pub proof fn lemma_finished_record_untracked(v: ManagerView, slot: int, id: u128)
    requires
        v.wf(),
        v.owns(slot, id),
    ensures
        !v.released(slot).is_tracked(id),
        v.released(slot).record_of(id) is None,
{
    let r = v.released(slot);
    assert(!r.is_tracked(id)) by {
        if r.in_slots(id) {
            let i = choose|i: int| 0 <= i < r.active.len() && holds(#[trigger] r.active[i], id);
            if i == slot {
                assert(v.queue[0].uuid != v.active[slot]->Some_0.uuid);
            } else {
                assert(v.active[i] is Some);
            }
        }
        if r.in_queue(id) {
            let l = choose|l: int| 0 <= l < r.queue.len() && (#[trigger] r.queue[l]).uuid == id;
            assert(r.queue[l] == v.queue[l + 1]);
            assert(v.active[slot] is Some);
        }
    }
    lemma_record_of_tracked(r, id);
}

/// A record is found exactly when it is tracked.
pub proof fn lemma_record_of_tracked(v: ManagerView, id: u128)
    ensures
        v.record_of(id) is Some <==> v.is_tracked(id),
{
    let ps = |o: Option<DownloadView>| holds(o, id);
    let pq = |d: DownloadView| d.uuid == id;
    lemma_first_index(v.active, ps);
    lemma_first_index(v.queue, pq);
    if v.in_slots(id) {
        let i = choose|i: int| 0 <= i < v.active.len() && holds(#[trigger] v.active[i], id);
        assert(ps(v.active[i]));
    }
    if v.in_queue(id) {
        let l = choose|l: int| 0 <= l < v.queue.len() && (#[trigger] v.queue[l]).uuid == id;
        assert(pq(v.queue[l]));
    }
    if v.slot_of(id) < v.active.len() {
        assert(ps(v.active[v.slot_of(id)]));
    }
    if v.queue_index_of(id) < v.queue.len() {
        assert(pq(v.queue[v.queue_index_of(id)]));
    }
}

/// Cancelling a running record stops its transfer at the next chunk, keeps
/// its destination (the file that the cancelled task deletes), and once the
/// task released the slot the record is gone and the slot is free or runs
/// the oldest queued record.
pub proof fn lemma_cancel_running_ends_at_next_chunk(v: ManagerView, slot: int, id: u128, len: u64)
    requires
        v.wf(),
        v.owns(slot, id),
    ensures
        ({
            let c = v.cancelled(id);
            let d = c.active[slot]->Some_0;
            let after = c.with_record(slot, after_chunk(d, len)).released(slot);
            &&& c.owns(slot, id)
            &&& d.status == Status::Cancelled
            &&& progress_of(d, len) == Progress::Cancelled
            &&& c.destination(d) == v.destination(v.active[slot]->Some_0)
            &&& !after.is_tracked(id)
            &&& after.active[slot] == if v.queue.len() > 0 {
                Some(v.queue[0])
            } else {
                None
            }
        }),
{
    let ps = |o: Option<DownloadView>| holds(o, id);
    assert forall|j: int| 0 <= j < slot implies !ps(#[trigger] v.active[j]) by {
        if v.active[j] is Some {
            assert(v.active[j]->Some_0.uuid != v.active[slot]->Some_0.uuid);
        }
    }
    lemma_first_index_at(v.active, ps, slot);
    let c = v.cancelled(id);
    let d = c.active[slot]->Some_0;
    let w = c.with_record(slot, after_chunk(d, len));
    lemma_update_keeps_wf(v, slot, d);
    assert(c == v.with_record(slot, d));
    lemma_update_keeps_wf(c, slot, after_chunk(d, len));
    lemma_finished_record_untracked(w, slot, id);
}

/// A record's byte counter never decreases, its announced size never
/// changes once known, and the counter stays within that size, whatever
/// step of its transfer comes next.
pub proof fn lemma_progress_is_monotone(d: DownloadView, len: u64, content_length: Option<u64>)
    ensures
        after_chunk(d, len).current_size >= d.current_size,
        headed(d, content_length).current_size == d.current_size,
        d.size is Some ==> after_chunk(d, len).size == d.size,
        d.size is Some ==> headed(d, content_length).size == d.size,
        d.within_size() ==> after_chunk(d, len).within_size(),
        d.within_size() ==> headed(d, content_length).within_size(),
{
}

/// The rank of a status in the order `Created`, `Running`, `Cancelled`.
pub open spec fn status_rank(s: Status) -> int {
    match s {
        Status::Created => 0,
        Status::Running => 1,
        Status::Cancelled => 2,
    }
}

/// A record's status only moves forward, and `Cancelled` is final.
pub proof fn lemma_status_moves_forward(d: DownloadView, len: u64, content_length: Option<u64>)
    ensures
        status_rank(headed(d, content_length).status) >= status_rank(d.status),
        status_rank(after_chunk(d, len).status) == status_rank(d.status),
        d.status == Status::Cancelled ==> headed(d, content_length).status == Status::Cancelled,
{
}

/// Every file the engine writes lies under the root: the destination of a
/// running record is the root, `/`, and a path of named segments only (no
/// `..`); and a submitted path, whatever it held, is stored that way.
pub proof fn lemma_destinations_stay_under_root(v: ManagerView, slot: int, path: Seq<char>)
    requires
        v.wf(),
        0 <= slot < v.active.len(),
        v.active[slot] is Some,
    ensures
        ({
            let d = v.active[slot]->Some_0;
            &&& v.destination(d) == v.root + seq!['/'] + d.path
            &&& is_confined(d.path)
            &&& forall|k: int|
                0 <= k < segments(d.path).len() ==> #[trigger] segments(d.path)[k] != seq!['.', '.']
        }),
        is_confined(sanitized(path)),
{
    let d = v.active[slot]->Some_0;
    lemma_sanitized_is_confined(path);
    if d.path.len() == 0 {
        assert(segments(d.path) =~= seq![Seq::<char>::empty()]);
        assert forall|k: int| 0 <= k < segments(d.path).len() implies #[trigger] segments(d.path)[k]
            != seq!['.', '.'] by {
            assert(segments(d.path)[k].len() == 0);
        }
    } else {
        assert forall|k: int| 0 <= k < segments(d.path).len() implies #[trigger] segments(d.path)[k]
            != seq!['.', '.'] by {
            assert(is_named_segment(segments(d.path)[k]));
        }
    }
}

/// A manager with free slots only and an empty queue tracks no record, so
/// no drawn identifier can collide: a submission to it always yields a
/// record, placed in slot 0 when there is a slot.
pub proof fn lemma_empty_pool_accepts(root: Seq<char>, n: nat, rec: DownloadView)
    ensures
        forall|id: u128| !(#[trigger] empty_pool(root, n).is_tracked(id)),
        n > 0 ==> empty_pool(root, n).submitted(rec).active == empty_pool(root, n).active.update(
            0,
            Some(rec),
        ),
        n == 0 ==> empty_pool(root, n).submitted(rec).queue == seq![rec],
{
    let v = empty_pool(root, n);
    assert forall|id: u128| !(#[trigger] v.is_tracked(id)) by {
        if v.in_slots(id) {
            let i = choose|i: int| 0 <= i < v.active.len() && holds(#[trigger] v.active[i], id);
            assert(v.active[i] is None);
        }
    }
    let pf = |o: Option<DownloadView>| is_free(o);
    if n > 0 {
        assert(pf(v.active[0]));
        lemma_first_index_at(v.active, pf, 0);
    } else {
        lemma_first_index_none(v.active, pf);
        assert(v.queue.push(rec) =~= seq![rec]);
    }
}

proof fn lemma_filter_keeps_all(s: Seq<DownloadView>, id: u128)
    requires
        forall|i: int| 0 <= i < s.len() ==> (#[trigger] s[i]).uuid != id,
    ensures
        s.filter(|d: DownloadView| d.uuid != id) == s,
    decreases s.len(),
{
    let f = |d: DownloadView| d.uuid != id;
    if s.len() > 0 {
        let init = s.drop_last();
        assert forall|i: int| 0 <= i < init.len() implies (#[trigger] init[i]).uuid != id by {
            assert(init[i] == s[i]);
        }
        lemma_filter_keeps_all(init, id);
        init.lemma_filter_push(s.last(), f);
        assert(init.push(s.last()) =~= s);
    } else {
        assert(s.filter(f) =~= s) by {
            s.lemma_filter_len(f);
        }
    }
}

proof fn lemma_remove_only_match_is_filter(s: Seq<DownloadView>, id: u128, k: int)
    requires
        0 <= k < s.len(),
        s[k].uuid == id,
        forall|i: int| 0 <= i < s.len() && i != k ==> (#[trigger] s[i]).uuid != id,
    ensures
        s.remove(k) == s.filter(|d: DownloadView| d.uuid != id),
    decreases s.len(),
{
    let f = |d: DownloadView| d.uuid != id;
    let init = s.drop_last();
    assert(init.push(s.last()) =~= s);
    init.lemma_filter_push(s.last(), f);
    if k == s.len() - 1 {
        assert forall|i: int| 0 <= i < init.len() implies (#[trigger] init[i]).uuid != id by {
            assert(init[i] == s[i]);
        }
        lemma_filter_keeps_all(init, id);
        assert(s.remove(k) =~= init);
    } else {
        assert forall|i: int| 0 <= i < init.len() && i != k implies (#[trigger] init[i]).uuid != id by {
            assert(init[i] == s[i]);
        }
        assert(init[k] == s[k]);
        lemma_remove_only_match_is_filter(init, id, k);
        assert(s.remove(k) =~= init.remove(k).push(s.last()));
    }
}

/// Cancelling a queued record removes exactly the records with its
/// identifier from the queue; the others keep their order, and no slot
/// changes.
pub proof fn lemma_cancel_queued_filters_queue(v: ManagerView, id: u128)
    requires
        v.wf(),
        v.in_queue(id),
    ensures
        v.cancelled(id).queue == v.queue.filter(|d: DownloadView| d.uuid != id),
        v.cancelled(id).active == v.active,
{
    let k0 = choose|k: int| 0 <= k < v.queue.len() && (#[trigger] v.queue[k]).uuid == id;
    let ps = |o: Option<DownloadView>| holds(o, id);
    let pq = |d: DownloadView| d.uuid == id;
    assert forall|j: int| 0 <= j < v.active.len() implies !ps(#[trigger] v.active[j]) by {
        if v.active[j] is Some {
            assert(v.active[j]->Some_0.uuid != v.queue[k0].uuid);
        }
    }
    lemma_first_index_none(v.active, ps);
    lemma_first_index(v.queue, pq);
    let k = v.queue_index_of(id);
    assert(k < v.queue.len()) by {
        if k >= v.queue.len() {
            assert(!pq(v.queue[k0]));
        }
    }
    assert forall|i: int| 0 <= i < v.queue.len() && i != k implies (#[trigger] v.queue[i]).uuid != id by {
        assert(v.queue[k].uuid == id);
    }
    lemma_remove_only_match_is_filter(v.queue, id, k);
}

} // verus!
