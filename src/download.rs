//! The bounded-concurrency download engine.
//!
//! A [`DownloadManager`] owns a fixed pool of slots, each holding at most one
//! running transfer, and a FIFO queue of transfers waiting for a slot. The
//! transfers themselves (network and file work) are driven from outside: the
//! driver reports each step of a transfer to the manager, and the manager
//! answers with what to do next. Every step that finishes a transfer hands its
//! slot to the oldest queued record, so slots are never leaked and the queue
//! drains in order.
//!
//! A record stays tracked from its submission until its slot is released
//! (or, while queued, until it is cancelled); a completed transfer leaves no
//! record behind, so it is no longer found.
use vstd::prelude::*;
use crate::files::{is_confined, lemma_sanitized_is_confined, sanitize_path, sanitized};
use crate::ids::random_uuid;
use crate::seqs::{first_index, lemma_first_index, lemma_first_index_at, lemma_first_index_none};

verus! {

/// Number of slots of a manager made by [`DownloadManager::new`].
pub const MAX_PARALLEL_DOWNLOADS: usize = 4;

/// Lifecycle of a record: `Created -> Running -> Cancelled`, where
/// `Cancelled` is terminal and may also directly follow `Created`.
#[derive(Clone, Copy, PartialEq, Eq, Debug, Structural)]
pub enum Status {
    Created,
    Running,
    Cancelled,
}

/// How a transfer ended, as seen by the task that drove it.
#[derive(Clone, Copy, PartialEq, Eq, Debug, Structural)]
pub enum Outcome {
    Completed,
    Failed,
    Cancelled,
}

/// The manager's answer to a chunk that was written to the destination file.
#[derive(Clone, Copy, PartialEq, Eq, Debug, Structural)]
pub enum Progress {
    /// Keep streaming.
    Continue,
    /// The record was cancelled: stop and finish with [`Outcome::Cancelled`].
    Cancelled,
    /// The body is longer than announced (or than a `u64` counts): the chunk
    /// was not counted; stop and finish with [`Outcome::Failed`].
    Overrun,
}

/// A task referred to a slot that does not hold its record.
#[derive(Clone, Copy, PartialEq, Eq, Debug, Structural)]
pub struct SlotViolation {
    pub slot: usize,
    pub uuid: u128,
}

/// One transfer: identity, target and live progress.
#[derive(Clone, PartialEq, Eq, Debug)]
pub struct Download {
    pub status: Status,
    pub uuid: u128,
    pub url: String,
    /// Destination, relative to the manager's root, with only named segments.
    pub path: String,
    /// Bytes written so far.
    pub current_size: u64,
    /// Announced length of the body, once the response headers are known.
    pub size: Option<u64>,
}

pub struct DownloadView {
    pub status: Status,
    pub uuid: u128,
    pub url: Seq<char>,
    pub path: Seq<char>,
    pub current_size: u64,
    pub size: Option<u64>,
}

impl View for Download {
    type V = DownloadView;

    open spec fn view(&self) -> DownloadView {
        DownloadView {
            status: self.status,
            uuid: self.uuid,
            url: self.url@,
            path: self.path@,
            current_size: self.current_size,
            size: self.size,
        }
    }
}

impl DownloadView {
    /// The byte counter stays within the announced length.
    pub open spec fn within_size(self) -> bool {
        match self.size {
            Some(total) => self.current_size <= total,
            None => true,
        }
    }
}

impl Download {
    /// A copy of the record, for handing out.
    pub fn snapshot(&self) -> (r: Download)
        ensures
            r@ == self@,
    {
        Download {
            status: self.status,
            uuid: self.uuid,
            url: self.url.clone(),
            path: self.path.clone(),
            current_size: self.current_size,
            size: self.size,
        }
    }
}

pub open spec fn opt_view(o: Option<Download>) -> Option<DownloadView> {
    match o {
        Some(d) => Some(d@),
        None => None,
    }
}

/// The slot content `o` is the record with identifier `id`.
pub open spec fn holds(o: Option<DownloadView>, id: u128) -> bool {
    match o {
        Some(d) => d.uuid == id,
        None => false,
    }
}

pub open spec fn is_free(o: Option<DownloadView>) -> bool {
    o is None
}

/// The records of the occupied slots, in slot order.
pub open spec fn occupied(s: Seq<Option<DownloadView>>) -> Seq<DownloadView>
    decreases s.len(),
{
    if s.len() == 0 {
        Seq::empty()
    } else {
        match s.last() {
            Some(d) => occupied(s.drop_last()).push(d),
            None => occupied(s.drop_last()),
        }
    }
}

pub open spec fn opt_str(o: Option<String>) -> Option<Seq<char>> {
    match o {
        Some(s) => Some(s@),
        None => None,
    }
}

/// `url`, followed by `?` and the query when one is given.
pub open spec fn merged_url(url: Seq<char>, query: Option<Seq<char>>) -> Seq<char> {
    match query {
        Some(q) => url + seq!['?'] + q,
        None => url,
    }
}

/// The record that a submission with these arguments creates.
pub open spec fn new_record(
    uuid: u128,
    url: Seq<char>,
    path: Seq<char>,
    query: Option<Seq<char>>,
) -> DownloadView {
    DownloadView {
        status: Status::Created,
        uuid,
        url: merged_url(url, query),
        path: sanitized(path),
        current_size: 0,
        size: None,
    }
}

/// The record once the response headers announced `content_length`: it is
/// running unless already cancelled, and the length is kept if none was
/// known yet and the bytes counted so far fit in it.
pub open spec fn headed(d: DownloadView, content_length: Option<u64>) -> DownloadView {
    DownloadView {
        status: if d.status == Status::Created {
            Status::Running
        } else {
            d.status
        },
        size: if d.size is None && (match content_length {
            Some(total) => d.current_size <= total,
            None => true,
        }) {
            content_length
        } else {
            d.size
        },
        ..d
    }
}

/// The counter after a chunk of `len` bytes, if it stays within the announced
/// size and within `u64`.
pub open spec fn counted(d: DownloadView, len: u64) -> Option<u64> {
    let n = d.current_size + len;
    if n <= u64::MAX && (match d.size {
        Some(total) => n <= total,
        None => true,
    }) {
        Some(n as u64)
    } else {
        None
    }
}

/// The record after a chunk of `len` bytes was written.
pub open spec fn after_chunk(d: DownloadView, len: u64) -> DownloadView {
    match counted(d, len) {
        Some(n) => DownloadView { current_size: n, ..d },
        None => d,
    }
}

/// What the task does after a chunk of `len` bytes was written: a cancelled
/// record stops, a chunk that does not fit fails, anything else goes on.
pub open spec fn progress_of(d: DownloadView, len: u64) -> Progress {
    if d.status == Status::Cancelled {
        Progress::Cancelled
    } else if counted(d, len) is None {
        Progress::Overrun
    } else {
        Progress::Continue
    }
}

pub struct ManagerView {
    /// Directory under which every destination lies.
    pub root: Seq<char>,
    /// The slots, by index.
    pub active: Seq<Option<DownloadView>>,
    /// The records waiting for a slot, oldest first.
    pub queue: Seq<DownloadView>,
}

impl ManagerView {
    pub open spec fn in_slots(self, id: u128) -> bool {
        exists|i: int| 0 <= i < self.active.len() && holds(#[trigger] self.active[i], id)
    }

    pub open spec fn in_queue(self, id: u128) -> bool {
        exists|k: int| 0 <= k < self.queue.len() && (#[trigger] self.queue[k]).uuid == id
    }

    /// The manager tracks a record with identifier `id`.
    pub open spec fn is_tracked(self, id: u128) -> bool {
        self.in_slots(id) || self.in_queue(id)
    }

    /// The slot that holds `id`, or `active.len()` if none does.
    pub open spec fn slot_of(self, id: u128) -> int {
        first_index(self.active, |o: Option<DownloadView>| holds(o, id))
    }

    /// The queue position of `id`, or `queue.len()` if it is not queued.
    pub open spec fn queue_index_of(self, id: u128) -> int {
        first_index(self.queue, |d: DownloadView| d.uuid == id)
    }

    /// The lowest free slot, or `active.len()` if all are occupied.
    pub open spec fn first_free(self) -> int {
        first_index(self.active, |o: Option<DownloadView>| is_free(o))
    }

    /// The tracked record with identifier `id`, looked up in the slots first.
    pub open spec fn record_of(self, id: u128) -> Option<DownloadView> {
        if self.slot_of(id) < self.active.len() {
            self.active[self.slot_of(id)]
        } else if self.queue_index_of(id) < self.queue.len() {
            Some(self.queue[self.queue_index_of(id)])
        } else {
            None
        }
    }

    /// The slot `slot` holds the record with identifier `id`.
    pub open spec fn owns(self, slot: int, id: u128) -> bool {
        0 <= slot < self.active.len() && holds(self.active[slot], id)
    }

    /// Where the record `d` is written.
    pub open spec fn destination(self, d: DownloadView) -> Seq<char> {
        self.root + seq!['/'] + d.path
    }

    /// The state after `rec` was submitted: it takes the lowest free slot, or
    /// joins the tail of the queue when every slot is occupied.
    pub open spec fn submitted(self, rec: DownloadView) -> ManagerView {
        let i = self.first_free();
        if i < self.active.len() {
            ManagerView { active: self.active.update(i, Some(rec)), ..self }
        } else {
            ManagerView { queue: self.queue.push(rec), ..self }
        }
    }

    /// The state after `id` was cancelled: a running record is marked
    /// cancelled (its task stops at the next chunk), a queued one is removed,
    /// an unknown identifier changes nothing.
    pub open spec fn cancelled(self, id: u128) -> ManagerView {
        let i = self.slot_of(id);
        let k = self.queue_index_of(id);
        if i < self.active.len() {
            let d = self.active[i]->Some_0;
            ManagerView {
                active: self.active.update(i, Some(DownloadView { status: Status::Cancelled, ..d })),
                ..self
            }
        } else if k < self.queue.len() {
            ManagerView { queue: self.queue.remove(k), ..self }
        } else {
            self
        }
    }

    /// The state after the record in `slot` left it: the oldest queued
    /// record takes the slot, or the slot becomes free.
    pub open spec fn released(self, slot: int) -> ManagerView {
        if self.queue.len() > 0 {
            ManagerView {
                active: self.active.update(slot, Some(self.queue[0])),
                queue: self.queue.drop_first(),
                ..self
            }
        } else {
            ManagerView { active: self.active.update(slot, None), ..self }
        }
    }

    /// The record in `slot` replaced by `d`.
    pub open spec fn with_record(self, slot: int, d: DownloadView) -> ManagerView {
        ManagerView { active: self.active.update(slot, Some(d)), ..self }
    }

    /// Identifiers are unique over all tracked records, progress stays within
    /// the announced size, every destination path is confined, and queued
    /// records have not started.
    pub open spec fn wf(self) -> bool {
        &&& forall|i: int, j: int|
            0 <= i < self.active.len() && 0 <= j < self.active.len() && i != j
                && (#[trigger] self.active[i]) is Some && (#[trigger] self.active[j]) is Some
                ==> self.active[i]->Some_0.uuid != self.active[j]->Some_0.uuid
        &&& forall|k: int, l: int|
            0 <= k < self.queue.len() && 0 <= l < self.queue.len() && k != l
                ==> (#[trigger] self.queue[k]).uuid != (#[trigger] self.queue[l]).uuid
        &&& forall|i: int, k: int|
            0 <= i < self.active.len() && 0 <= k < self.queue.len() && (
            #[trigger] self.active[i]) is Some ==> self.active[i]->Some_0.uuid != (
            #[trigger] self.queue[k]).uuid
        &&& forall|i: int|
            0 <= i < self.active.len() && (#[trigger] self.active[i]) is Some
                ==> self.active[i]->Some_0.within_size() && is_confined(self.active[i]->Some_0.path)
        &&& forall|k: int|
            0 <= k < self.queue.len() ==> {
                let d = #[trigger] self.queue[k];
                d.status == Status::Created && d.current_size == 0 && d.size is None && is_confined(d.path)
            }
    }
}

/// A record as it was submitted, and the slot it took, if any; the caller
/// starts a transfer task for that slot.
#[derive(Clone, Debug)]
pub struct Submission {
    pub download: Download,
    pub slot: Option<usize>,
}

/// Putting into `slot` a valid record whose identifier no other slot and
/// no queued record holds keeps the state well formed.
pub proof fn lemma_put_keeps_wf(v: ManagerView, slot: int, d: DownloadView)
    requires
        v.wf(),
        0 <= slot < v.active.len(),
        d.within_size(),
        is_confined(d.path),
        forall|i: int| 0 <= i < v.active.len() && i != slot ==> !holds(#[trigger] v.active[i], d.uuid),
        forall|k: int| 0 <= k < v.queue.len() ==> (#[trigger] v.queue[k]).uuid != d.uuid,
    ensures
        v.with_record(slot, d).wf(),
{
    let w = v.with_record(slot, d);
    assert forall|a: int, b: int|
        0 <= a < w.active.len() && 0 <= b < w.active.len() && a != b && (#[trigger] w.active[a]) is Some
            && (#[trigger] w.active[b]) is Some
            implies w.active[a]->Some_0.uuid != w.active[b]->Some_0.uuid by {
        if a == slot {
            assert(!holds(v.active[b], d.uuid));
        } else if b == slot {
            assert(!holds(v.active[a], d.uuid));
        } else {
            assert(v.active[a] is Some && v.active[b] is Some);
        }
    }
    assert forall|j: int, l: int|
        0 <= j < w.active.len() && 0 <= l < w.queue.len() && (#[trigger] w.active[j]) is Some
            implies w.active[j]->Some_0.uuid != (#[trigger] w.queue[l]).uuid by {
        if j != slot {
            assert(v.active[j] is Some);
        }
    }
}

/// The record in `slot` replaced by a valid record with the same identifier
/// keeps the state well formed.
pub proof fn lemma_update_keeps_wf(v: ManagerView, slot: int, d: DownloadView)
    requires
        v.wf(),
        0 <= slot < v.active.len(),
        v.active[slot] is Some,
        d.uuid == v.active[slot]->Some_0.uuid,
        d.within_size(),
        is_confined(d.path),
    ensures
        v.with_record(slot, d).wf(),
{
    assert forall|i: int| 0 <= i < v.active.len() && i != slot implies !holds(#[trigger] v.active[i], d.uuid) by {
        if v.active[i] is Some {
            assert(v.active[i]->Some_0.uuid != v.active[slot]->Some_0.uuid);
        }
    }
    assert forall|k: int| 0 <= k < v.queue.len() implies (#[trigger] v.queue[k]).uuid != d.uuid by {
        assert(v.active[slot] is Some);
    }
    lemma_put_keeps_wf(v, slot, d);
}

/// Removing a queued record keeps the state well formed.
pub proof fn lemma_dequeue_keeps_wf(v: ManagerView, k: int)
    requires
        v.wf(),
        0 <= k < v.queue.len(),
    ensures
        (ManagerView { queue: v.queue.remove(k), ..v }).wf(),
{
    let nq = v.queue.remove(k);
    assert forall|a: int, b: int|
        0 <= a < nq.len() && 0 <= b < nq.len() && a != b
            implies (#[trigger] nq[a]).uuid != (#[trigger] nq[b]).uuid by {
        let a0 = if a < k { a } else { a + 1 };
        let b0 = if b < k { b } else { b + 1 };
        assert(nq[a] == v.queue[a0]);
        assert(nq[b] == v.queue[b0]);
    }
    assert forall|j: int, l: int|
        0 <= j < v.active.len() && 0 <= l < nq.len() && (#[trigger] v.active[j]) is Some
            implies v.active[j]->Some_0.uuid != (#[trigger] nq[l]).uuid by {
        let l0 = if l < k { l } else { l + 1 };
        assert(nq[l] == v.queue[l0]);
    }
    assert forall|l: int| 0 <= l < nq.len() implies {
        let d = #[trigger] nq[l];
        d.status == Status::Created && d.current_size == 0 && d.size is None && is_confined(d.path)
    } by {
        let l0 = if l < k { l } else { l + 1 };
        assert(nq[l] == v.queue[l0]);
    }
}

/// A copy of everything the manager tracks.
#[derive(Clone, Debug)]
pub struct Downloads {
    /// The waiting records, oldest first.
    pub queue: Vec<Download>,
    /// The records of the occupied slots, in slot order.
    pub active_downloads: Vec<Download>,
}

pub open spec fn views(s: Seq<Download>) -> Seq<DownloadView> {
    s.map_values(|d: Download| d@)
}

/// Holds the slots and the queue of waiting records.
pub struct DownloadManager {
    root: String,
    active: Vec<Option<Download>>,
    queue: Vec<Download>,
}

impl View for DownloadManager {
    type V = ManagerView;

    closed spec fn view(&self) -> ManagerView {
        ManagerView {
            root: self.root@,
            active: self.active@.map_values(|o: Option<Download>| opt_view(o)),
            queue: self.queue@.map_values(|d: Download| d@),
        }
    }
}

impl DownloadManager {
    pub open spec fn wf(&self) -> bool {
        self@.wf()
    }

    /// A manager with [`MAX_PARALLEL_DOWNLOADS`] free slots and an empty queue,
    /// whose destinations lie under `download_root`.
    pub fn new(download_root: String) -> (r: DownloadManager)
        ensures
            r.wf(),
            r@.root == download_root@,
            r@.active == Seq::new(MAX_PARALLEL_DOWNLOADS as nat, |i: int| None::<DownloadView>),
            r@.queue.len() == 0,
    {
        DownloadManager::with_slots(download_root, MAX_PARALLEL_DOWNLOADS)
    }

    /// A manager with `slots` free slots and an empty queue.
    pub fn with_slots(download_root: String, slots: usize) -> (r: DownloadManager)
        ensures
            r.wf(),
            r@.root == download_root@,
            r@.active == Seq::new(slots as nat, |i: int| None::<DownloadView>),
            r@.queue.len() == 0,
    {
        let mut active: Vec<Option<Download>> = Vec::new();
        let mut i: usize = 0;
        while i < slots
            invariant
                i <= slots,
                active@.len() == i,
                forall|j: int| 0 <= j < i ==> (#[trigger] active@[j]) is None,
            decreases slots - i,
        {
            active.push(None);
            i = i + 1;
        }
        let r = DownloadManager { root: download_root, active, queue: Vec::new() };
        assert(r@.active =~= Seq::new(slots as nat, |i: int| None::<DownloadView>));
        r
    }

    /// The number of slots.
    pub fn slot_count(&self) -> (r: usize)
        ensures
            r == self@.active.len(),
    {
        self.active.len()
    }

    /// A copy of the tracked record with identifier `uuid`, searched in the
    /// slots first and then in the queue; `None` if no such record is tracked.
    pub fn get_download(&self, uuid: u128) -> (r: Option<Download>)
        ensures
            opt_view(r) == self@.record_of(uuid),
            r is Some <==> self@.is_tracked(uuid),
    {
        let ghost v = self@;
        let ghost ps = |o: Option<DownloadView>| holds(o, uuid);
        let ghost pq = |d: DownloadView| d.uuid == uuid;
        proof {
            lemma_first_index(v.active, ps);
            lemma_first_index(v.queue, pq);
        }
        let mut i: usize = 0;
        while i < self.active.len()
            invariant
                v == self@,
                i <= v.active.len(),
                ps == (|o: Option<DownloadView>| holds(o, uuid)),
                forall|j: int| 0 <= j < i ==> !ps(#[trigger] v.active[j]),
            decreases v.active.len() - i,
        {
            if let Some(d) = &self.active[i] {
                if d.uuid == uuid {
                    proof {
                        assert(ps(v.active[i as int]));
                        lemma_first_index_at(v.active, ps, i as int);
                    }
                    return Some(d.snapshot());
                }
            }
            assert(!ps(v.active[i as int]));
            i = i + 1;
        }
        proof {
            lemma_first_index_none(v.active, ps);
            assert(!v.in_slots(uuid)) by {
                if v.in_slots(uuid) {
                    let j = choose|j: int| 0 <= j < v.active.len() && holds(v.active[j], uuid);
                    assert(ps(v.active[j]));
                }
            }
        }
        let mut k: usize = 0;
        while k < self.queue.len()
            invariant
                v == self@,
                k <= v.queue.len(),
                pq == (|d: DownloadView| d.uuid == uuid),
                forall|j: int| 0 <= j < k ==> !pq(#[trigger] v.queue[j]),
                v.slot_of(uuid) == v.active.len(),
                !v.in_slots(uuid),
            decreases v.queue.len() - k,
        {
            if self.queue[k].uuid == uuid {
                proof {
                    assert(pq(v.queue[k as int]));
                    lemma_first_index_at(v.queue, pq, k as int);
                }
                return Some(self.queue[k].snapshot());
            }
            assert(!pq(v.queue[k as int]));
            k = k + 1;
        }
        proof {
            lemma_first_index_none(v.queue, pq);
            assert(!v.in_queue(uuid)) by {
                if v.in_queue(uuid) {
                    let j = choose|j: int| 0 <= j < v.queue.len() && v.queue[j].uuid == uuid;
                    assert(pq(v.queue[j]));
                }
            }
        }
        None
    }

    /// Submits a transfer of `url` (with `?query` appended when given) to
    /// `path` under the root, under the identifier `uuid`. The record takes
    /// the lowest free slot, or joins the tail of the queue. An identifier
    /// that is already tracked is refused and nothing changes.
    pub fn submit(&mut self, uuid: u128, url: String, path: String, query: Option<String>) -> (r:
        Option<Submission>)
        requires
            old(self).wf(),
        ensures
            final(self).wf(),
            old(self)@.is_tracked(uuid) ==> r is None && final(self)@ == old(self)@,
            !old(self)@.is_tracked(uuid) ==> r is Some && {
                let rec = new_record(uuid, url@, path@, opt_str(query));
                let i = old(self)@.first_free();
                &&& final(self)@ == old(self)@.submitted(rec)
                &&& r->Some_0.download@ == rec
                &&& r->Some_0.slot == if i < old(self)@.active.len() {
                    Some(i as usize)
                } else {
                    None
                }
            },
    {
        if self.get_download(uuid).is_some() {
            return None;
        }
        let ghost url_v = url@;
        let ghost query_v = opt_str(query);
        let full_url = match query {
            Some(q) => {
                let mut u = url;
                u.append("?");
                proof {
                    reveal_strlit("?");
                }
                assert(u@ == url_v + seq!['?']);
                u.append(q.as_str());
                u
            },
            None => url,
        };
        assert(full_url@ == merged_url(url_v, query_v));
        let record = Download {
            status: Status::Created,
            uuid,
            url: full_url,
            path: sanitize_path(path.as_str()),
            current_size: 0,
            size: None,
        };
        let ghost rec = record@;
        let ghost v = self@;
        proof {
            lemma_sanitized_is_confined(path@);
        }
        assert(rec == new_record(uuid, url_v, path@, query_v));
        let ghost pf = |o: Option<DownloadView>| is_free(o);
        proof {
            lemma_first_index(v.active, pf);
        }
        let snapshot = record.snapshot();
        let mut i: usize = 0;
        while i < self.active.len()
            invariant
                v == self@,
                v.wf(),
                !v.is_tracked(uuid),
                v == old(self)@,
                url_v == url@,
                query_v == opt_str(query),
                rec == record@,
                rec == new_record(uuid, url_v, path@, query_v),
                is_confined(rec.path),
                snapshot@ == rec,
                i <= v.active.len(),
                pf == (|o: Option<DownloadView>| is_free(o)),
                forall|j: int| 0 <= j < i ==> !pf(#[trigger] v.active[j]),
            decreases v.active.len() - i,
        {
            if self.active[i].is_none() {
                proof {
                    assert(pf(v.active[i as int]));
                    lemma_first_index_at(v.active, pf, i as int);
                }
                self.active.set(i, Some(record));
                assert(self@.active =~= v.active.update(i as int, Some(rec)));
                assert(self@ == v.submitted(rec));
                proof {
                    assert(!v.in_slots(uuid));
                    assert(!v.in_queue(uuid));
                    assert forall|j: int| 0 <= j < v.active.len() && j != i && (#[trigger] v.active[j]) is Some
                        implies v.active[j]->Some_0.uuid != uuid by {
                        assert(!holds(v.active[j], uuid));
                    }
                    assert forall|k: int| 0 <= k < v.queue.len() implies (#[trigger] v.queue[k]).uuid != uuid by {
                        if v.queue[k].uuid == uuid {
                            assert(v.in_queue(uuid));
                        }
                    }
                }
                return Some(Submission { download: snapshot, slot: Some(i) });
            }
            assert(!pf(v.active[i as int]));
            i = i + 1;
        }
        proof {
            lemma_first_index_none(v.active, pf);
        }
        self.queue.push(record);
        assert(self@.queue =~= v.queue.push(rec));
        assert(self@.active =~= v.active);
        proof {
            assert forall|j: int| 0 <= j < v.active.len() && (#[trigger] v.active[j]) is Some
                implies v.active[j]->Some_0.uuid != uuid by {
                if v.active[j]->Some_0.uuid == uuid {
                    assert(holds(v.active[j], uuid));
                    assert(v.in_slots(uuid));
                }
            }
            assert forall|k: int| 0 <= k < v.queue.len() implies (#[trigger] v.queue[k]).uuid != uuid by {
                if v.queue[k].uuid == uuid {
                    assert(v.in_queue(uuid));
                }
            }
        }
        Some(Submission { download: snapshot, slot: None })
    }

    /// Submits a transfer under a freshly drawn random identifier (see
    /// [`DownloadManager::submit`]). Should the identifier already be tracked,
    /// nothing changes and `None` is returned.
    pub fn trigger_download(&mut self, url: String, path: String, query: Option<String>) -> (r:
        Option<Submission>)
        requires
            old(self).wf(),
        ensures
            final(self).wf(),
            r is None ==> final(self)@ == old(self)@,
            r is None ==> exists|id: u128| old(self)@.is_tracked(id),
            r is Some ==> {
                let s = r->Some_0;
                let rec = new_record(s.download.uuid, url@, path@, opt_str(query));
                let i = old(self)@.first_free();
                &&& !old(self)@.is_tracked(s.download.uuid)
                &&& final(self)@ == old(self)@.submitted(rec)
                &&& s.download@ == rec
                &&& s.slot == if i < old(self)@.active.len() {
                    Some(i as usize)
                } else {
                    None
                }
            },
    {
        let uuid = random_uuid();
        self.submit(uuid, url, path, query)
    }

    /// Whether slot `slot` holds the record `uuid`.
    fn owns_slot(&self, slot: usize, uuid: u128) -> (r: bool)
        ensures
            r == self@.owns(slot as int, uuid),
    {
        if slot < self.active.len() {
            match &self.active[slot] {
                Some(d) => d.uuid == uuid,
                None => false,
            }
        } else {
            false
        }
    }

    /// Takes the record out of `slot`, leaving the slot free for the moment.
    fn take_record(&mut self, slot: usize, Ghost(uuid): Ghost<u128>) -> (r: Download)
        requires
            old(self)@.owns(slot as int, uuid),
        ensures
            Some(r@) == old(self)@.active[slot as int],
            final(self)@ == (ManagerView { active: old(self)@.active.update(slot as int, None), ..old(self)@ }),
    {
        let mut cur: Option<Download> = None;
        self.active.set_and_swap(slot, &mut cur);
        assert(self@.active =~= old(self)@.active.update(slot as int, None));
        cur.unwrap()
    }

    /// Puts `d` into the free slot `slot`.
    fn put_record(&mut self, slot: usize, d: Download)
        requires
            slot < old(self)@.active.len(),
        ensures
            final(self)@ == old(self)@.with_record(slot as int, d@),
    {
        let ghost dv = d@;
        self.active.set(slot, Some(d));
        assert(self@.active =~= old(self)@.active.update(slot as int, Some(dv)));
    }

    /// Cancels the record `uuid`: a queued record is removed at once and will
    /// never run; a running one is marked cancelled, and its task stops at the
    /// next chunk. An unknown identifier is ignored.
    pub fn cancel_download(&mut self, uuid: u128)
        requires
            old(self).wf(),
        ensures
            final(self).wf(),
            final(self)@ == old(self)@.cancelled(uuid),
    {
        let ghost v = self@;
        let ghost ps = |o: Option<DownloadView>| holds(o, uuid);
        let ghost pq = |d: DownloadView| d.uuid == uuid;
        let mut i: usize = 0;
        while i < self.active.len()
            invariant
                v == self@,
                v == old(self)@,
                v.wf(),
                i <= v.active.len(),
                ps == (|o: Option<DownloadView>| holds(o, uuid)),
                forall|j: int| 0 <= j < i ==> !ps(#[trigger] v.active[j]),
            decreases v.active.len() - i,
        {
            if self.owns_slot(i, uuid) {
                proof {
                    assert(ps(v.active[i as int]));
                    lemma_first_index_at(v.active, ps, i as int);
                }
                let mut d = self.take_record(i, Ghost(uuid));
                d.status = Status::Cancelled;
                self.put_record(i, d);
                assert(self@.active =~= v.cancelled(uuid).active);
                return;
            }
            assert(!ps(v.active[i as int]));
            i = i + 1;
        }
        proof {
            lemma_first_index_none(v.active, ps);
        }
        let mut k: usize = 0;
        while k < self.queue.len()
            invariant
                v == self@,
                v == old(self)@,
                v.wf(),
                k <= v.queue.len(),
                pq == (|d: DownloadView| d.uuid == uuid),
                forall|j: int| 0 <= j < k ==> !pq(#[trigger] v.queue[j]),
                v.slot_of(uuid) == v.active.len(),
            decreases v.queue.len() - k,
        {
            if self.queue[k].uuid == uuid {
                proof {
                    assert(pq(v.queue[k as int]));
                    lemma_first_index_at(v.queue, pq, k as int);
                }
                self.queue.remove(k);
                assert(self@.queue =~= v.queue.remove(k as int));
                assert(self@.active =~= v.active);
                proof {
                    lemma_dequeue_keeps_wf(v, k as int);
                }
                return;
            }
            assert(!pq(v.queue[k as int]));
            k = k + 1;
        }
        proof {
            lemma_first_index_none(v.queue, pq);
        }
    }

    /// Frees `slot` when its transfer ended, whatever the outcome: the oldest
    /// queued record takes the slot and is returned, for the caller to start
    /// its task; with an empty queue the slot becomes free. A slot that does
    /// not hold `uuid` is refused and nothing changes, so that a slot is
    /// released once per transfer.
    pub fn release_slot(&mut self, slot: usize, uuid: u128) -> (r: Result<Option<Download>, SlotViolation>)
        requires
            old(self).wf(),
        ensures
            final(self).wf(),
            !old(self)@.owns(slot as int, uuid) ==> r == Err::<Option<Download>, SlotViolation>(
                SlotViolation { slot, uuid },
            ) && final(self)@ == old(self)@,
            old(self)@.owns(slot as int, uuid) ==> r is Ok && final(self)@ == old(self)@.released(
                slot as int,
            ) && opt_view(r->Ok_0) == if old(self)@.queue.len() > 0 {
                Some(old(self)@.queue[0])
            } else {
                None
            },
    {
        if !self.owns_slot(slot, uuid) {
            return Err(SlotViolation { slot, uuid });
        }
        let ghost v = self@;
        if self.queue.len() > 0 {
            let next = self.queue.remove(0);
            let snapshot = next.snapshot();
            let ghost nv = next@;
            self.active.set(slot, Some(next));
            assert(self@.active =~= v.active.update(slot as int, Some(nv)));
            assert(self@.queue =~= v.queue.drop_first());
            proof {
                let w = ManagerView { queue: v.queue.remove(0), ..v };
                lemma_dequeue_keeps_wf(v, 0);
                assert(nv == v.queue[0]);
                assert forall|i: int| 0 <= i < w.active.len() && i != slot implies !holds(
                    #[trigger] w.active[i],
                    nv.uuid,
                ) by {
                    if w.active[i] is Some {
                        assert(v.active[i]->Some_0.uuid != v.queue[0].uuid);
                    }
                }
                assert forall|k: int| 0 <= k < w.queue.len() implies (#[trigger] w.queue[k]).uuid
                    != nv.uuid by {
                    assert(w.queue[k] == v.queue[k + 1]);
                }
                lemma_put_keeps_wf(w, slot as int, nv);
                assert(self@ == w.with_record(slot as int, nv));
            }
            Ok(Some(snapshot))
        } else {
            self.active.set(slot, None);
            assert(self@.active =~= v.active.update(slot as int, None));
            Ok(None)
        }
    }

    /// Where the record in `slot` is written: the root, `/`, its path.
    fn destination_of(&self, slot: usize, Ghost(uuid): Ghost<u128>) -> (r: String)
        requires
            self@.owns(slot as int, uuid),
        ensures
            r@ == self@.destination(self@.active[slot as int]->Some_0),
    {
        let d = self.active[slot].as_ref().unwrap();
        let mut dest = self.root.clone();
        dest.append("/");
        proof {
            reveal_strlit("/");
        }
        dest.append(d.path.as_str());
        dest
    }

    /// First step of the task of `slot`: the URL to request.
    pub fn begin_transfer(&self, slot: usize, uuid: u128) -> (r: Result<String, SlotViolation>)
        ensures
            !self@.owns(slot as int, uuid) ==> r == Err::<String, SlotViolation>(
                SlotViolation { slot, uuid },
            ),
            self@.owns(slot as int, uuid) ==> r is Ok && r->Ok_0@ == self@.active[slot as int]->Some_0.url,
    {
        if !self.owns_slot(slot, uuid) {
            return Err(SlotViolation { slot, uuid });
        }
        Ok(self.active[slot].as_ref().unwrap().url.clone())
    }

    /// The response headers arrived, announcing `content_length` if known:
    /// the record is running (unless already cancelled) and keeps the length.
    /// Returns the destination file to create, under the root.
    pub fn headers_received(&mut self, slot: usize, uuid: u128, content_length: Option<u64>) -> (r:
        Result<String, SlotViolation>)
        requires
            old(self).wf(),
        ensures
            final(self).wf(),
            !old(self)@.owns(slot as int, uuid) ==> r == Err::<String, SlotViolation>(
                SlotViolation { slot, uuid },
            ) && final(self)@ == old(self)@,
            old(self)@.owns(slot as int, uuid) ==> {
                let d = old(self)@.active[slot as int]->Some_0;
                &&& final(self)@ == old(self)@.with_record(slot as int, headed(d, content_length))
                &&& r is Ok
                &&& r->Ok_0@ == old(self)@.destination(d)
            },
    {
        if !self.owns_slot(slot, uuid) {
            return Err(SlotViolation { slot, uuid });
        }
        let ghost v = self@;
        let dest = self.destination_of(slot, Ghost(uuid));
        let mut d = self.take_record(slot, Ghost(uuid));
        if d.status == Status::Created {
            d.status = Status::Running;
        }
        if d.size.is_none() {
            let fits = match content_length {
                Some(total) => d.current_size <= total,
                None => true,
            };
            if fits {
                d.size = content_length;
            }
        }
        let ghost dv = d@;
        self.put_record(slot, d);
        proof {
            assert(self@.active =~= v.active.update(slot as int, Some(dv)));
            lemma_update_keeps_wf(v, slot as int, dv);
        }
        Ok(dest)
    }

    /// A chunk of `len` bytes was appended to the destination file. The
    /// counter grows by `len` unless that would pass the announced size (or
    /// the range of `u64`); the answer says whether to go on.
    pub fn chunk_written(&mut self, slot: usize, uuid: u128, len: u64) -> (r: Result<
        Progress,
        SlotViolation,
    >)
        requires
            old(self).wf(),
        ensures
            final(self).wf(),
            !old(self)@.owns(slot as int, uuid) ==> r == Err::<Progress, SlotViolation>(
                SlotViolation { slot, uuid },
            ) && final(self)@ == old(self)@,
            old(self)@.owns(slot as int, uuid) ==> {
                let d = old(self)@.active[slot as int]->Some_0;
                &&& final(self)@ == old(self)@.with_record(slot as int, after_chunk(d, len))
                &&& r == Ok::<Progress, SlotViolation>(progress_of(d, len))
            },
    {
        if !self.owns_slot(slot, uuid) {
            return Err(SlotViolation { slot, uuid });
        }
        let ghost v = self@;
        let mut d = self.take_record(slot, Ghost(uuid));
        let fits = if d.current_size <= u64::MAX - len {
            match d.size {
                Some(total) => d.current_size + len <= total,
                None => true,
            }
        } else {
            false
        };
        if fits {
            d.current_size = d.current_size + len;
        }
        let progress = if d.status == Status::Cancelled {
            Progress::Cancelled
        } else if !fits {
            Progress::Overrun
        } else {
            Progress::Continue
        };
        let ghost dv = d@;
        self.put_record(slot, d);
        proof {
            assert(self@.active =~= v.active.update(slot as int, Some(dv)));
            lemma_update_keeps_wf(v, slot as int, dv);
        }
        Ok(progress)
    }

    /// The task of `slot` stopped with `outcome`: the partial file to delete,
    /// which is the destination after a cancellation and nothing otherwise.
    /// The record stays tracked until [`DownloadManager::release_slot`].
    pub fn finalize(&self, slot: usize, uuid: u128, outcome: Outcome) -> (r: Result<
        Option<String>,
        SlotViolation,
    >)
        ensures
            !self@.owns(slot as int, uuid) ==> r == Err::<Option<String>, SlotViolation>(
                SlotViolation { slot, uuid },
            ),
            self@.owns(slot as int, uuid) ==> r is Ok && opt_str(r->Ok_0) == if outcome
                == Outcome::Cancelled {
                Some(self@.destination(self@.active[slot as int]->Some_0))
            } else {
                None
            },
    {
        if !self.owns_slot(slot, uuid) {
            return Err(SlotViolation { slot, uuid });
        }
        match outcome {
            Outcome::Cancelled => Ok(Some(self.destination_of(slot, Ghost(uuid)))),
            _ => Ok(None),
        }
    }

    /// A copy of all tracked records: those in slots, then those queued.
    pub fn get_downloads(&self) -> (r: Downloads)
        ensures
            views(r.active_downloads@) == occupied(self@.active),
            views(r.queue@) == self@.queue,
    {
        let ghost v = self@;
        let mut active_downloads: Vec<Download> = Vec::new();
        let mut i: usize = 0;
        while i < self.active.len()
            invariant
                v == self@,
                i <= v.active.len(),
                views(active_downloads@) == occupied(v.active.take(i as int)),
            decreases v.active.len() - i,
        {
            assert(v.active.take(i as int + 1).drop_last() =~= v.active.take(i as int));
            if let Some(d) = &self.active[i] {
                active_downloads.push(d.snapshot());
            }
            assert(views(active_downloads@) =~= occupied(v.active.take(i as int + 1)));
            i = i + 1;
        }
        assert(v.active.take(v.active.len() as int) =~= v.active);
        let mut queue: Vec<Download> = Vec::new();
        let mut k: usize = 0;
        while k < self.queue.len()
            invariant
                v == self@,
                k <= v.queue.len(),
                views(queue@) == v.queue.take(k as int),
            decreases v.queue.len() - k,
        {
            let ghost prev = queue@;
            queue.push(self.queue[k].snapshot());
            assert(views(queue@) =~= views(prev).push(v.queue[k as int]));
            assert(views(queue@) =~= v.queue.take(k as int + 1));
            k = k + 1;
        }
        assert(v.queue.take(v.queue.len() as int) =~= v.queue);
        Downloads { queue, active_downloads }
    }
}

} // verus!
