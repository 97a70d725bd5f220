//! Preview images of DVB-C channels: where they are served from, and the
//! queue of channels waiting for a preview to be grabbed.
use vstd::prelude::*;
use crate::dvbc::{channel_views, Channel};
use crate::files::{sanitize_path, sanitized};
use crate::text::strings;

verus! {

/// Seconds during which a preview image counts as fresh.
pub const PREVIEW_MAX_AGE_SECS: u64 = 300;

/// Waiting requests beyond which only channels without any image are queued.
pub const BUSY_QUEUE_LEN: usize = 5;

/// Waiting requests beyond which no request is queued.
pub const FULL_QUEUE_LEN: usize = 10;

/// A channel's preview image, and when it was created (milliseconds since
/// the Unix epoch) if it is fresh.
#[derive(Clone, PartialEq, Eq, Debug)]
pub struct ChannelPreview {
    pub url: String,
    pub created: Option<u128>,
}

/// What is on disk for a channel's preview.
#[derive(Clone, Copy, PartialEq, Eq, Debug)]
pub enum FileState {
    /// A fresh image, created at the given millisecond.
    New(u128),
    /// An image too old to show as current.
    Old,
    /// No image.
    Absent,
}

impl FileState {
    /// The state of an image of age `age_secs` created at `created_ms`, or
    /// of a missing image.
    pub fn from_metadata(metadata: Option<(u64, u128)>) -> (r: FileState)
        ensures
            r == match metadata {
                None => FileState::Absent,
                Some((age, created)) => if age <= PREVIEW_MAX_AGE_SECS {
                    FileState::New(created)
                } else {
                    FileState::Old
                },
            },
    {
        match metadata {
            None => FileState::Absent,
            Some((age, created)) => if age <= PREVIEW_MAX_AGE_SECS {
                FileState::New(created)
            } else {
                FileState::Old
            },
        }
    }
}

/// `s` with every space turned into an underscore.
pub open spec fn underscored(s: Seq<char>) -> Seq<char> {
    s.map_values(|c: char| if c == ' ' { '_' } else { c })
}

/// Turns every space of `s` into an underscore.
pub fn underscore_spaces(s: &str) -> (r: String)
    ensures
        r@ == underscored(s@),
{
    let n = s.unicode_len();
    let mut out = String::new();
    let mut i: usize = 0;
    proof {
        reveal_strlit("_");
    }
    while i < n
        invariant
            n == s@.len(),
            i <= n,
            out@ == underscored(s@.take(i as int)),
            "_"@ == seq!['_'],
        decreases n - i,
    {
        let c = s.get_char(i);
        let ghost prev = out@;
        if c == ' ' {
            out.append("_");
        } else {
            out.append(s.substring_char(i, i + 1));
        }
        assert(underscored(s@.take(i as int + 1)) =~= underscored(s@.take(i as int)).push(
            if c == ' ' {
                '_'
            } else {
                c
            },
        ));
        assert(out@ =~= underscored(s@.take(i as int + 1)));
        i = i + 1;
    }
    assert(s@.take(n as int) =~= s@);
    out
}

/// The served path of a channel's preview image: `/img/tv/preview/<name>.jpg`
/// with spaces in the name turned into underscores, confined like any path.
pub open spec fn preview_path(name: Seq<char>) -> Seq<char> {
    seq!['/'] + sanitized("img/tv/preview/"@ + underscored(name) + ".jpg"@)
}

/// The served path of the preview image of the channel `name`.
pub fn preview_url(name: &str) -> (r: String)
    ensures
        r@ == preview_path(name@),
{
    let mut raw = String::from_str("img/tv/preview/");
    let u = underscore_spaces(name);
    raw.append(u.as_str());
    raw.append(".jpg");
    let mut url = String::from_str("/");
    proof {
        reveal_strlit("/");
    }
    let clean = sanitize_path(raw.as_str());
    url.append(clean.as_str());
    url
}

/// Channels waiting for a preview, newest first.
pub struct PreviewQueue {
    waiting: Vec<Channel>,
}

impl View for PreviewQueue {
    type V = Seq<(Seq<char>, Seq<char>)>;

    closed spec fn view(&self) -> Seq<(Seq<char>, Seq<char>)> {
        channel_views(self.waiting@)
    }
}

/// Whether a channel named `name` is among `waiting`.
pub open spec fn is_waiting(waiting: Seq<(Seq<char>, Seq<char>)>, name: Seq<char>) -> bool {
    exists|k: int| 0 <= k < waiting.len() && (#[trigger] waiting[k]).0 == name
}

/// Whether a request is queued: the queue has room for it (more room when
/// the channel has no image at all) and the channel is not waiting already.
pub open spec fn admits(
    waiting: Seq<(Seq<char>, Seq<char>)>,
    name: Seq<char>,
    file_exists: bool,
) -> bool {
    (waiting.len() <= BUSY_QUEUE_LEN || (!file_exists && waiting.len() <= FULL_QUEUE_LEN))
        && !is_waiting(waiting, name)
}

impl PreviewQueue {
    pub fn new() -> (r: PreviewQueue)
        ensures
            r@.len() == 0,
    {
        PreviewQueue { waiting: Vec::new() }
    }

    pub fn len(&self) -> (r: usize)
        ensures
            r == self@.len(),
    {
        self.waiting.len()
    }

    /// Asks for a preview of `channel`, whose image exists (but is old) when
    /// `file_exists`. Returns whether the request was queued (at the front).
    pub fn request(&mut self, channel: &Channel, file_exists: bool) -> (r: bool)
        ensures
            r == admits(old(self)@, channel.name@, file_exists),
            r ==> final(self)@ == old(self)@.insert(0, (channel.name@, channel.url@)),
            !r ==> final(self)@ == old(self)@,
    {
        let len = self.waiting.len();
        if !(len <= BUSY_QUEUE_LEN || (!file_exists && len <= FULL_QUEUE_LEN)) {
            return false;
        }
        let ghost w = self@;
        let mut k: usize = 0;
        while k < self.waiting.len()
            invariant
                w == self@,
                w == old(self)@,
                k <= w.len(),
                forall|j: int| 0 <= j < k ==> (#[trigger] w[j]).0 != channel.name@,
            decreases w.len() - k,
        {
            if self.waiting[k].name == channel.name {
                assert(w[k as int].0 == channel.name@);
                return false;
            }
            k = k + 1;
        }
        let ghost cv = (channel.name@, channel.url@);
        self.waiting.insert(0, channel.duplicate());
        assert(self@ =~= w.insert(0, cv));
        true
    }

    /// Whether no channel is waiting.
    pub fn is_empty(&self) -> (r: bool)
        ensures
            r == (self@.len() == 0),
    {
        self.waiting.len() == 0
    }

    /// Drops the requests for channels named in `running`.
    fn drop_running(&mut self, running: &Vec<String>)
        ensures
            final(self)@ == old(self)@.filter(|c: (Seq<char>, Seq<char>)| !strings(running@).contains(c.0)),
    {
        let ghost o = self@;
        let ghost names = strings(running@);
        let ghost f = |c: (Seq<char>, Seq<char>)| !names.contains(c.0);
        let ghost n = o.len();
        let mut i: usize = 0;
        let ghost mut j: int = 0;
        while i < self.waiting.len()
            invariant
                names == strings(running@),
                f == (|c: (Seq<char>, Seq<char>)| !names.contains(c.0)),
                0 <= j <= n,
                n == o.len(),
                o == old(self)@,
                self@ == o.take(j).filter(f) + o.subrange(j, n as int),
                i == o.take(j).filter(f).len(),
            decreases n - j,
        {
            let ghost kept = o.take(j).filter(f);
            assert(self@[i as int] == o[j]);
            proof {
                o.take(j).lemma_filter_push(o[j], f);
                assert(o.take(j + 1) =~= o.take(j).push(o[j]));
            }
            let mut is_running = false;
            let mut k: usize = 0;
            while k < running.len()
                invariant
                    k <= running@.len(),
                    i < self.waiting@.len(),
                    names == strings(running@),
                    is_running == (exists|m: int| 0 <= m < k && running@[m]@ == self.waiting@[i as int].name@),
                decreases running@.len() - k,
            {
                if running[k] == self.waiting[i].name {
                    is_running = true;
                }
                k = k + 1;
            }
            assert(is_running == names.contains(o[j].0)) by {
                assert(o[j].0 == self.waiting@[i as int].name@);
                if is_running {
                    let m = choose|m: int| 0 <= m < k && running@[m]@ == self.waiting@[i as int].name@;
                    assert(names[m] == o[j].0);
                }
                if names.contains(o[j].0) {
                    let m = choose|m: int| 0 <= m < names.len() && names[m] == o[j].0;
                    assert(running@[m]@ == o[j].0);
                }
            }
            if !is_running {
                assert(self@ =~= o.take(j + 1).filter(f) + o.subrange(j + 1, n as int));
                i = i + 1;
            } else {
                let ghost before = self@;
                self.waiting.remove(i);
                assert(self@ =~= before.remove(i as int));
                assert(before.remove(i as int) =~= kept + o.subrange(j + 1, n as int));
            }
            proof {
                j = j + 1;
            }
        }
        assert(o.take(n as int) =~= o);
        assert(self@ =~= o.filter(f) + o.subrange(n as int, n as int));
        assert(o.filter(f) =~= old(self)@.filter(|c: (Seq<char>, Seq<char>)| !strings(running@).contains(c.0)));
    }

    /// The next channel to grab a preview of: requests for channels named
    /// in `running` are dropped, then the oldest remaining request is taken.
    pub fn take_next(&mut self, running: &Vec<String>) -> (r: Option<Channel>)
        ensures
            ({
                let rest = old(self)@.filter(
                    |c: (Seq<char>, Seq<char>)| !strings(running@).contains(c.0),
                );
                if rest.len() > 0 {
                    &&& final(self)@ == rest.drop_last()
                    &&& r is Some
                    &&& (r->Some_0.name@, r->Some_0.url@) == rest.last()
                } else {
                    &&& final(self)@ == rest
                    &&& r is None
                }
            }),
    {
        self.drop_running(running);
        if self.waiting.len() > 0 {
            let ghost before = self@;
            let c = self.waiting.pop().unwrap();
            assert(self@ =~= before.drop_last());
            Some(c)
        } else {
            None
        }
    }

    /// One scheduling step for `free_slots` idle grabbers while the channels
    /// named in `running` are being grabbed: requests for running channels
    /// are dropped, and the oldest remaining requests, one per idle grabber,
    /// are taken, oldest first. With no grabber idle the queue is left as it
    /// is.
    pub fn start_jobs(&mut self, running: &Vec<String>, free_slots: usize) -> (r: Vec<Channel>)
        ensures
            free_slots == 0 ==> r@.len() == 0 && final(self)@ == old(self)@,
            free_slots > 0 ==> ({
                let rest = old(self)@.filter(
                    |c: (Seq<char>, Seq<char>)| !strings(running@).contains(c.0),
                );
                let k = if free_slots < rest.len() {
                    free_slots as int
                } else {
                    rest.len() as int
                };
                &&& r@.len() == k
                &&& forall|j: int|
                    0 <= j < k ==> ((#[trigger] r@[j]).name@, r@[j].url@) == rest[rest.len() - 1 - j]
                &&& final(self)@ == rest.take(rest.len() - k)
            }),
    {
        if free_slots == 0 {
            return Vec::new();
        }
        self.drop_running(running);
        let ghost rest = self@;
        let mut jobs: Vec<Channel> = Vec::new();
        while jobs.len() < free_slots && self.waiting.len() > 0
            invariant
                jobs@.len() <= free_slots,
                jobs@.len() <= rest.len(),
                self@ == rest.take(rest.len() - jobs@.len()),
                forall|j: int|
                    0 <= j < jobs@.len() ==> ((#[trigger] jobs@[j]).name@, jobs@[j].url@) == rest[rest.len() - 1 - j],
            decreases self@.len(),
        {
            let ghost before = self@;
            let c = self.waiting.pop().unwrap();
            assert(self@ =~= before.drop_last());
            assert(self@ =~= rest.take(rest.len() - jobs@.len() - 1));
            assert((c.name@, c.url@) == before[before.len() - 1]);
            assert(before[before.len() - 1] == rest[rest.len() - 1 - jobs@.len()]);
            let ghost prev = jobs@;
            jobs.push(c);
            assert(forall|j: int| 0 <= j < prev.len() ==> jobs@[j] == prev[j]);
        }
        jobs
    }

    /// Whether the scheduler goes on after reaping finished grabs, with
    /// `free_slots` grabbers idle: while a grabber is idle it goes on (and
    /// starts jobs); with every grabber busy it goes on only while a request
    /// is waiting. Asked before any job of this step is started.
    pub fn keeps_scheduling(&self, free_slots: usize) -> (r: bool)
        ensures
            r == (free_slots > 0 || self@.len() > 0),
    {
        free_slots > 0 || self.waiting.len() > 0
    }
}

/// The preview of `channel` to report, given what is on disk at `url`: a
/// fresh image is reported with its creation time; otherwise a new image is
/// requested and the image is reported without one.
pub fn get_preview(queue: &mut PreviewQueue, channel: &Channel, state: FileState) -> (r:
    ChannelPreview)
    ensures
        r.url@ == preview_path(channel.name@),
        match state {
            FileState::New(created) => r.created == Some(created) && final(queue)@ == old(queue)@,
            FileState::Old => r.created is None && final(queue)@ == if admits(
                old(queue)@,
                channel.name@,
                true,
            ) {
                old(queue)@.insert(0, (channel.name@, channel.url@))
            } else {
                old(queue)@
            },
            FileState::Absent => r.created is None && final(queue)@ == if admits(
                old(queue)@,
                channel.name@,
                false,
            ) {
                old(queue)@.insert(0, (channel.name@, channel.url@))
            } else {
                old(queue)@
            },
        },
{
    let url = preview_url(channel.name.as_str());
    match state {
        FileState::New(created) => ChannelPreview { url, created: Some(created) },
        FileState::Old => {
            queue.request(channel, true);
            ChannelPreview { url, created: None }
        },
        FileState::Absent => {
            queue.request(channel, false);
            ChannelPreview { url, created: None }
        },
    }
}

} // verus!
