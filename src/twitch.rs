//! Twitch logins of frontend clients: device-flow requests waiting for the
//! user, and the clients that are logged in.
use vstd::prelude::*;
use crate::seqs::{first_index, lemma_first_index_at, lemma_first_index_none};
use crate::text::strings;
use crate::ids::random_uuid;

verus! {

/// A device-flow authorization request, as Twitch returns it.
#[derive(Clone, Debug)]
pub struct AuthorizationRequest {
    pub device_code: String,
    /// Seconds for which the request stays valid.
    pub expires_in: u64,
    pub interval: i32,
    pub user_code: String,
    pub verification_uri: String,
}

/// The tokens of a logged-in user.
#[derive(Clone, Debug)]
pub struct Authorization {
    pub access_token: String,
    pub refresh_token: String,
    pub expires_in: u64,
}

/// Who an access token belongs to.
#[derive(Clone, Debug)]
pub struct Validation {
    pub user_id: String,
    pub login: String,
}

/// A Twitch user, with the images shown for their stream.
#[derive(Clone, Debug)]
pub struct User {
    pub id: String,
    pub profile_image_url: String,
    pub offline_image_url: String,
}

struct Pending {
    id: u128,
    created_at: u64,
    auth_request: AuthorizationRequest,
}

struct LoggedIn {
    id: u128,
    auth: Authorization,
}

pub struct PendingView {
    pub id: u128,
    pub created_at: u64,
    pub expires_in: u64,
    pub device_code: Seq<char>,
    pub verification_uri: Seq<char>,
}

pub struct LoggedInView {
    pub id: u128,
    pub access_token: Seq<char>,
    pub refresh_token: Seq<char>,
}

pub struct ConnectionsView {
    /// Login requests, oldest first.
    pub pending: Seq<PendingView>,
    /// Logged-in clients, oldest first.
    pub logged_in: Seq<LoggedInView>,
}

impl Pending {
    spec fn view(&self) -> PendingView {
        PendingView {
            id: self.id,
            created_at: self.created_at,
            expires_in: self.auth_request.expires_in,
            device_code: self.auth_request.device_code@,
            verification_uri: self.auth_request.verification_uri@,
        }
    }
}

impl LoggedIn {
    spec fn view(&self) -> LoggedInView {
        LoggedInView {
            id: self.id,
            access_token: self.auth.access_token@,
            refresh_token: self.auth.refresh_token@,
        }
    }
}

/// The request is still valid at time `now` (seconds; a clock that went
/// backwards counts as no time passed).
pub open spec fn is_alive(p: PendingView, now: u64) -> bool {
    (if now >= p.created_at {
        now - p.created_at
    } else {
        0
    }) < p.expires_in
}

pub open spec fn pending_views_of(s: Seq<PendingView>, id: u128) -> int {
    first_index(s, |p: PendingView| p.id == id)
}

pub open spec fn logged_in_index(s: Seq<LoggedInView>, id: u128) -> int {
    first_index(s, |l: LoggedInView| l.id == id)
}

impl ConnectionsView {
    /// Expired requests dropped.
    pub open spec fn cleaned(self, now: u64) -> ConnectionsView {
        ConnectionsView { pending: self.pending.filter(|p: PendingView| is_alive(p, now)), ..self }
    }

    /// Every entry of client `id` dropped.
    pub open spec fn without(self, id: u128) -> ConnectionsView {
        ConnectionsView {
            pending: self.pending.filter(|p: PendingView| p.id != id),
            logged_in: self.logged_in.filter(|l: LoggedInView| l.id != id),
        }
    }
}

/// The pending login requests and the logged-in clients, by client id.
pub struct FrontendConnections {
    pending: Vec<Pending>,
    logged_in: Vec<LoggedIn>,
}

impl View for FrontendConnections {
    type V = ConnectionsView;

    closed spec fn view(&self) -> ConnectionsView {
        ConnectionsView {
            pending: self.pending@.map_values(|p: Pending| p.view()),
            logged_in: self.logged_in@.map_values(|l: LoggedIn| l.view()),
        }
    }
}

impl FrontendConnections {
    pub fn new() -> (r: FrontendConnections)
        ensures
            r@.pending.len() == 0,
            r@.logged_in.len() == 0,
    {
        FrontendConnections { pending: Vec::new(), logged_in: Vec::new() }
    }

    /// Drops the login requests that expired at time `now`.
    pub fn clean_pending(&mut self, now: u64)
        ensures
            final(self)@ == old(self)@.cleaned(now),
    {
        let ghost o = self.pending@.map_values(|p: Pending| p.view());
        let ghost f = |p: PendingView| is_alive(p, now);
        let ghost n = o.len();
        let mut i: usize = 0;
        let ghost mut j: int = 0;
        while i < self.pending.len()
            invariant
                f == (|p: PendingView| is_alive(p, now)),
                0 <= j <= n,
                n == o.len(),
                self.pending@.map_values(|p: Pending| p.view()) == o.take(j).filter(f) + o.subrange(j, n as int),
                i == o.take(j).filter(f).len(),
                self.logged_in == old(self).logged_in,
            decreases n - j,
        {
            let ghost kept = o.take(j).filter(f);
            assert(self.pending@[i as int].view() == o[j]) by {
                assert(self.pending@.map_values(|p: Pending| p.view())[i as int] == o[j]);
            }
            proof {
                o.take(j).lemma_filter_push(o[j], f);
                assert(o.take(j + 1) =~= o.take(j).push(o[j]));
            }
            let elapsed = if now >= self.pending[i].created_at {
                now - self.pending[i].created_at
            } else {
                0
            };
            if elapsed < self.pending[i].auth_request.expires_in {
                assert(f(o[j]));
                assert(self.pending@.map_values(|p: Pending| p.view()) =~= o.take(j + 1).filter(f) + o.subrange(j + 1, n as int));
                i = i + 1;
            } else {
                assert(!f(o[j]));
                let ghost before = self.pending@;
                self.pending.remove(i);
                proof {
                    let mb = before.map_values(|p: Pending| p.view());
                    assert(mb == kept + o.subrange(j, n as int));
                    assert(self.pending@ == before.remove(i as int));
                    assert(self.pending@.map_values(|p: Pending| p.view()) =~= mb.remove(i as int));
                    assert(mb.remove(i as int) =~= kept + o.subrange(j + 1, n as int));
                    assert(o.take(j + 1).filter(f) == kept);
                }
            }
            proof {
                j = j + 1;
            }
        }
        assert(o.take(n as int) =~= o);
        assert(self@.pending =~= o.filter(f) + o.subrange(n as int, n as int));
        assert(self@.pending =~= old(self)@.cleaned(now).pending);
    }

    /// Drops every entry of client `id`, pending or logged in.
    pub fn remove(&mut self, id: u128)
        ensures
            final(self)@ == old(self)@.without(id),
    {
        let ghost o = self.pending@.map_values(|p: Pending| p.view());
        let ghost f = |p: PendingView| p.id != id;
        let ghost n = o.len();
        let mut i: usize = 0;
        let ghost mut j: int = 0;
        while i < self.pending.len()
            invariant
                f == (|p: PendingView| p.id != id),
                0 <= j <= n,
                n == o.len(),
                self.pending@.map_values(|p: Pending| p.view()) == o.take(j).filter(f) + o.subrange(j, n as int),
                i == o.take(j).filter(f).len(),
                self.logged_in == old(self).logged_in,
            decreases n - j,
        {
            let ghost kept = o.take(j).filter(f);
            assert(self.pending@[i as int].view() == o[j]) by {
                assert(self.pending@.map_values(|p: Pending| p.view())[i as int] == o[j]);
            }
            proof {
                o.take(j).lemma_filter_push(o[j], f);
                assert(o.take(j + 1) =~= o.take(j).push(o[j]));
            }
            if self.pending[i].id != id {
                assert(self.pending@.map_values(|p: Pending| p.view()) =~= o.take(j + 1).filter(f) + o.subrange(j + 1, n as int));
                i = i + 1;
            } else {
                let ghost before = self.pending@;
                self.pending.remove(i);
                proof {
                    let mb = before.map_values(|p: Pending| p.view());
                    assert(self.pending@.map_values(|p: Pending| p.view()) =~= mb.remove(i as int));
                    assert(mb.remove(i as int) =~= kept + o.subrange(j + 1, n as int));
                }
            }
            proof {
                j = j + 1;
            }
        }
        assert(o.take(n as int) =~= o);
        assert(self@.pending =~= o.filter(f) + o.subrange(n as int, n as int));
        let ghost o2 = self.logged_in@.map_values(|l: LoggedIn| l.view());
        let ghost f2 = |l: LoggedInView| l.id != id;
        let ghost n2 = o2.len();
        let ghost pend = self@.pending;
        let mut i: usize = 0;
        let ghost mut j: int = 0;
        while i < self.logged_in.len()
            invariant
                f2 == (|l: LoggedInView| l.id != id),
                0 <= j <= n2,
                n2 == o2.len(),
                o2 == old(self)@.logged_in,
                self.logged_in@.map_values(|l: LoggedIn| l.view()) == o2.take(j).filter(f2) + o2.subrange(j, n2 as int),
                i == o2.take(j).filter(f2).len(),
                self@.pending == pend,
            decreases n2 - j,
        {
            let ghost kept = o2.take(j).filter(f2);
            assert(self.logged_in@[i as int].view() == o2[j]) by {
                assert(self.logged_in@.map_values(|l: LoggedIn| l.view())[i as int] == o2[j]);
            }
            proof {
                o2.take(j).lemma_filter_push(o2[j], f2);
                assert(o2.take(j + 1) =~= o2.take(j).push(o2[j]));
            }
            if self.logged_in[i].id != id {
                assert(self.logged_in@.map_values(|l: LoggedIn| l.view()) =~= o2.take(j + 1).filter(f2) + o2.subrange(j + 1, n2 as int));
                i = i + 1;
            } else {
                let ghost before = self.logged_in@;
                self.logged_in.remove(i);
                proof {
                    let mb = before.map_values(|l: LoggedIn| l.view());
                    assert(self.logged_in@.map_values(|l: LoggedIn| l.view()) =~= mb.remove(i as int));
                    assert(mb.remove(i as int) =~= kept + o2.subrange(j + 1, n2 as int));
                }
            }
            assert(self@.pending == pend);
            proof {
                j = j + 1;
            }
        }
        assert(o2.take(n2 as int) =~= o2);
        assert(self@.logged_in =~= o2.filter(f2) + o2.subrange(n2 as int, n2 as int));
        assert(self@ =~= old(self)@.without(id));
    }

    /// Records a new login request at time `now` (after dropping expired
    /// ones) under a freshly drawn client id, which is returned.
    pub fn create(&mut self, auth_request: AuthorizationRequest, now: u64) -> (r: u128)
        ensures
            final(self)@.pending == old(self)@.cleaned(now).pending.push(
                PendingView {
                    id: r,
                    created_at: now,
                    expires_in: auth_request.expires_in,
                    device_code: auth_request.device_code@,
                    verification_uri: auth_request.verification_uri@,
                },
            ),
            final(self)@.logged_in == old(self)@.logged_in,
    {
        self.clean_pending(now);
        let id = random_uuid();
        let ghost before = self@;
        let p = Pending { id, created_at: now, auth_request };
        let ghost pv = p.view();
        self.pending.push(p);
        assert(self@.pending =~= before.pending.push(pv));
        id
    }

    /// The device code and verification URI of client `id`'s login request,
    /// if one is still valid at time `now`; expired requests are dropped.
    pub fn get_pending(&mut self, id: u128, now: u64) -> (r: Option<(String, String)>)
        ensures
            final(self)@ == old(self)@.cleaned(now),
            ({
                let s = final(self)@.pending;
                let k = pending_views_of(s, id);
                match r {
                    Some((code, uri)) => k < s.len() && code@ == s[k].device_code && uri@
                        == s[k].verification_uri,
                    None => k == s.len(),
                }
            }),
    {
        self.clean_pending(now);
        let ghost s = self@.pending;
        let ghost pf = |p: PendingView| p.id == id;
        let mut i: usize = 0;
        while i < self.pending.len()
            invariant
                s == self@.pending,
                self@ == old(self)@.cleaned(now),
                i <= s.len(),
                pf == (|p: PendingView| p.id == id),
                forall|j: int| 0 <= j < i ==> !pf(#[trigger] s[j]),
            decreases s.len() - i,
        {
            assert(self.pending@[i as int].view() == s[i as int]);
            if self.pending[i].id == id {
                proof {
                    lemma_first_index_at(s, pf, i as int);
                }
                let req = &self.pending[i].auth_request;
                return Some((req.device_code.clone(), req.verification_uri.clone()));
            }
            i = i + 1;
        }
        proof {
            lemma_first_index_none(s, pf);
        }
        None
    }

    /// Moves client `id` to the logged-in clients with the tokens `auth`,
    /// dropping any earlier entry of it.
    pub fn log_in(&mut self, id: u128, auth: Authorization)
        ensures
            final(self)@.pending == old(self)@.without(id).pending,
            final(self)@.logged_in == old(self)@.without(id).logged_in.push(
                LoggedInView { id, access_token: auth.access_token@, refresh_token: auth.refresh_token@ },
            ),
    {
        self.remove(id);
        let ghost before = self@;
        let l = LoggedIn { id, auth };
        let ghost lv = l.view();
        self.logged_in.push(l);
        assert(self@.logged_in =~= before.logged_in.push(lv));
    }

    /// The access and refresh tokens of client `id`, if it is logged in.
    pub fn get_logged_in(&self, id: u128) -> (r: Option<(String, String)>)
        ensures
            ({
                let s = self@.logged_in;
                let k = logged_in_index(s, id);
                match r {
                    Some((access, refresh)) => k < s.len() && access@ == s[k].access_token
                        && refresh@ == s[k].refresh_token,
                    None => k == s.len(),
                }
            }),
    {
        let ghost s = self@.logged_in;
        let ghost pf = |l: LoggedInView| l.id == id;
        let mut i: usize = 0;
        while i < self.logged_in.len()
            invariant
                s == self@.logged_in,
                i <= s.len(),
                pf == (|l: LoggedInView| l.id == id),
                forall|j: int| 0 <= j < i ==> !pf(#[trigger] s[j]),
            decreases s.len() - i,
        {
            assert(self.logged_in@[i as int].view() == s[i as int]);
            if self.logged_in[i].id == id {
                proof {
                    lemma_first_index_at(s, pf, i as int);
                }
                let auth = &self.logged_in[i].auth;
                return Some((auth.access_token.clone(), auth.refresh_token.clone()));
            }
            i = i + 1;
        }
        proof {
            lemma_first_index_none(s, pf);
        }
        None
    }

    /// Replaces the tokens of logged-in client `id`; `None` if it is not
    /// logged in.
    pub fn update_logged_in(&mut self, id: u128, auth: Authorization) -> (r: Option<()>)
        ensures
            final(self)@.pending == old(self)@.pending,
            ({
                let s = old(self)@.logged_in;
                let k = logged_in_index(s, id);
                &&& (r is Some <==> k < s.len())
                &&& k < s.len() ==> final(self)@.logged_in == s.update(
                    k,
                    LoggedInView { id, access_token: auth.access_token@, refresh_token: auth.refresh_token@ },
                )
                &&& k == s.len() ==> final(self)@.logged_in == s
            }),
    {
        let ghost s = self@.logged_in;
        let ghost pf = |l: LoggedInView| l.id == id;
        let mut i: usize = 0;
        while i < self.logged_in.len()
            invariant
                s == self@.logged_in,
                s == old(self)@.logged_in,
                self@.pending == old(self)@.pending,
                i <= s.len(),
                pf == (|l: LoggedInView| l.id == id),
                forall|j: int| 0 <= j < i ==> !pf(#[trigger] s[j]),
            decreases s.len() - i,
        {
            assert(self.logged_in@[i as int].view() == s[i as int]);
            if self.logged_in[i].id == id {
                proof {
                    lemma_first_index_at(s, pf, i as int);
                }
                let l = LoggedIn { id, auth };
                let ghost lv = l.view();
                self.logged_in.set(i, l);
                assert(self@.logged_in =~= s.update(i as int, lv));
                return Some(());
            }
            i = i + 1;
        }
        proof {
            lemma_first_index_none(s, pf);
        }
        None
    }
}

/// Ids that one Helix request may name.
pub const IDS_PER_REQUEST: usize = 100;

/// `xs` joined with `sep` between consecutive elements.
pub open spec fn join_with(xs: Seq<Seq<char>>, sep: Seq<char>) -> Seq<char>
    decreases xs.len(),
{
    if xs.len() == 0 {
        Seq::empty()
    } else if xs.len() == 1 {
        xs[0]
    } else {
        join_with(xs.drop_last(), sep) + sep + xs.last()
    }
}

pub open spec fn chunk_count(n: nat) -> nat {
    (n + IDS_PER_REQUEST - 1) as nat / (IDS_PER_REQUEST as nat)
}

/// One URL per run of [`IDS_PER_REQUEST`] consecutive ids (the last run may
/// be shorter): `base` followed by the run's ids joined with `sep`.
pub open spec fn chunk_urls_of(base: Seq<char>, sep: Seq<char>, ids: Seq<Seq<char>>) -> Seq<Seq<char>> {
    Seq::new(
        chunk_count(ids.len()),
        |c: int|
            base + join_with(
                ids.subrange(
                    c * IDS_PER_REQUEST,
                    if (c + 1) * IDS_PER_REQUEST <= ids.len() {
                        (c + 1) * IDS_PER_REQUEST
                    } else {
                        ids.len() as int
                    },
                ),
                sep,
            ),
    )
}

/// The request URLs that name all of `ids`, [`IDS_PER_REQUEST`] at a time.
pub fn chunk_urls(base: &str, sep: &str, ids: &Vec<String>) -> (r: Vec<String>)
    ensures
        strings(r@) == chunk_urls_of(base@, sep@, strings(ids@)),
{
    let ghost s = strings(ids@);
    let n = ids.len();
    let mut out: Vec<String> = Vec::new();
    let mut start: usize = 0;
    let ghost mut c: int = 0;
    while start < n
        invariant
            s == strings(ids@),
            n == s.len(),
            start == c * IDS_PER_REQUEST || (start == n && c == chunk_count(n as nat)),
            0 <= c,
            start <= n,
            strings(out@) == chunk_urls_of(base@, sep@, s).take(c),
            c <= chunk_count(n as nat),
            start < n ==> c < chunk_count(n as nat),
        decreases n - start,
    {
        let end: usize = if n - start >= IDS_PER_REQUEST {
            start + IDS_PER_REQUEST
        } else {
            n
        };
        let ghost run = s.subrange(start as int, end as int);
        let mut url = String::from_str(base);
        let mut k: usize = start;
        while k < end
            invariant
                s == strings(ids@),
                start < end <= n,
                n == s.len(),
                start <= k <= end,
                run == s.subrange(start as int, end as int),
                url@ == base@ + join_with(s.subrange(start as int, k as int), sep@),
            decreases end - k,
        {
            if k > start {
                url.append(sep);
            }
            url.append(ids[k].as_str());
            let ghost part = s.subrange(start as int, k as int + 1);
            assert(part.drop_last() =~= s.subrange(start as int, k as int));
            assert(part.last() == ids@[k as int]@);
            if k == start {
                assert(part =~= seq![ids@[k as int]@]);
            }
            k = k + 1;
        }
        let ghost prev = strings(out@);
        out.push(url);
        proof {
            let all = chunk_urls_of(base@, sep@, s);
            assert((c + 1) * IDS_PER_REQUEST == c * IDS_PER_REQUEST + IDS_PER_REQUEST) by (nonlinear_arith);
            assert(all[c] == base@ + join_with(run, sep@));
            assert(strings(out@) =~= prev.push(all[c]));
            assert(all.take(c + 1) =~= all.take(c).push(all[c]));
            assert(start == c * 100);
            c = c + 1;
            assert(c <= chunk_count(n as nat)) by (nonlinear_arith)
                requires
                    (c - 1) * 100 < n,
                    c >= 1,
            ;
            if end < n {
                assert(end == c * 100);
                assert(c < chunk_count(n as nat)) by (nonlinear_arith)
                    requires
                        end == c * 100,
                        end < n,
                ;
            } else {
                assert(c == chunk_count(n as nat)) by (nonlinear_arith)
                    requires
                        (c - 1) * 100 < n,
                        n <= c * 100,
                ;
            }
        }
        start = end;
    }
    proof {
        if start != n {
            assert(c == chunk_count(n as nat)) by (nonlinear_arith)
                requires
                    start == c * 100,
                    start >= n,
                    c <= chunk_count(n as nat),
            ;
        }
        assert(chunk_urls_of(base@, sep@, s).take(c) =~= chunk_urls_of(base@, sep@, s));
    }
    out
}

/// The position in `users` of the first user with id `id`.
pub open spec fn user_position(users: Seq<User>, id: Seq<char>) -> int {
    first_index(users, |u: User| u.id@ == id)
}

/// For each stream, given by its user id, the position of that user in
/// `users` (the first with that id); `None` if some stream's user is not
/// among `users`.
pub fn match_streams(users: &Vec<User>, stream_user_ids: &Vec<String>) -> (r: Option<Vec<usize>>)
    ensures
        r is Some <==> forall|j: int|
            0 <= j < stream_user_ids@.len() ==> user_position(users@, (#[trigger] stream_user_ids@[j])@)
                < users@.len(),
        r is Some ==> r->Some_0@.len() == stream_user_ids@.len() && forall|j: int|
            0 <= j < stream_user_ids@.len() ==> #[trigger] r->Some_0@[j] as int == user_position(
                users@,
                stream_user_ids@[j]@,
            ),
{
    let mut out: Vec<usize> = Vec::new();
    let mut j: usize = 0;
    while j < stream_user_ids.len()
        invariant
            j <= stream_user_ids@.len(),
            out@.len() == j,
            forall|m: int| 0 <= m < j ==> #[trigger] out@[m] as int == user_position(users@, stream_user_ids@[m]@),
            forall|m: int| 0 <= m < j ==> user_position(users@, (#[trigger] stream_user_ids@[m])@) < users@.len(),
        decreases stream_user_ids@.len() - j,
    {
        let id = &stream_user_ids[j];
        let ghost pf = |u: User| u.id@ == id@;
        let mut i: usize = 0;
        while i < users.len()
            invariant
                i <= users@.len(),
                pf == (|u: User| u.id@ == id@),
                forall|k: int| 0 <= k < i ==> !pf(#[trigger] users@[k]),
            ensures
                i <= users@.len(),
                i < users@.len() ==> pf(users@[i as int]),
                forall|k: int| 0 <= k < i ==> !pf(#[trigger] users@[k]),
            decreases users@.len() - i,
        {
            if users[i].id == *id {
                break;
            }
            i = i + 1;
        }
        if i == users.len() {
            proof {
                lemma_first_index_none(users@, pf);
            }
            return None;
        }
        proof {
            assert(pf(users@[i as int]));
            lemma_first_index_at(users@, pf, i as int);
        }
        out.push(i);
        j = j + 1;
    }
    Some(out)
}

/// The Helix request for the channels `from` follows, 100 per page, after
/// the page cursor `after` if one is given.
pub open spec fn followed_url(from: Seq<char>, after: Option<Seq<char>>) -> Seq<char> {
    let base = "https://api.twitch.tv/helix/channels/followed?user_id="@ + from + "&first=100"@;
    match after {
        Some(cursor) => base + "&after="@ + cursor,
        None => base,
    }
}

fn followed_url_of(from: &str, after: Option<&str>) -> (r: String)
    ensures
        r@ == followed_url(
            from@,
            match after {
                Some(c) => Some(c@),
                None => None,
            },
        ),
{
    let mut url = String::from_str("https://api.twitch.tv/helix/channels/followed?user_id=");
    url.append(from);
    url.append("&first=100");
    match after {
        Some(cursor) => {
            url.append("&after=");
            url.append(cursor);
        },
        None => {},
    }
    url
}

/// Collects the channels a user follows, page by page: each answered page
/// adds its ids and says which page to request next.
pub struct FollowingPages {
    from_id: String,
    following: Vec<String>,
}

impl FollowingPages {
    pub closed spec fn from_id(&self) -> Seq<char> {
        self.from_id@
    }

    /// The ids collected so far, in page order.
    pub closed spec fn collected(&self) -> Seq<Seq<char>> {
        strings(self.following@)
    }

    /// Starts collecting for user `from_id`; returns the first page's URL.
    pub fn new(from_id: String) -> (r: (FollowingPages, String))
        ensures
            r.0.from_id() == from_id@,
            r.0.collected().len() == 0,
            r.1@ == followed_url(from_id@, None),
    {
        let url = followed_url_of(from_id.as_str(), None);
        let pages = FollowingPages { from_id, following: Vec::new() };
        assert(pages.collected() =~= Seq::empty());
        (pages, url)
    }

    /// A page arrived with the followed channel `ids` and the `cursor` of
    /// the next page, if there is one: the URL of that page.
    pub fn page(&mut self, ids: Vec<String>, cursor: Option<String>) -> (r: Option<String>)
        ensures
            final(self).from_id() == old(self).from_id(),
            final(self).collected() == old(self).collected() + strings(ids@),
            match cursor {
                Some(c) => r is Some && r->Some_0@ == followed_url(old(self).from_id(), Some(c@)),
                None => r is None,
            },
    {
        let ghost start = self.collected();
        let mut i: usize = 0;
        while i < ids.len()
            invariant
                i <= ids@.len(),
                self.from_id == old(self).from_id,
                start == old(self).collected(),
                self.collected() == start + strings(ids@).take(i as int),
            decreases ids@.len() - i,
        {
            let ghost prev = self.collected();
            self.following.push(ids[i].clone());
            assert(self.collected() =~= prev.push(ids@[i as int]@));
            assert(strings(ids@).take(i as int + 1) =~= strings(ids@).take(i as int).push(ids@[i as int]@));
            assert(start + strings(ids@).take(i as int + 1) =~= (start + strings(ids@).take(i as int)).push(ids@[i as int]@));
            i = i + 1;
        }
        assert(strings(ids@).take(ids@.len() as int) =~= strings(ids@));
        match cursor {
            Some(c) => Some(followed_url_of(self.from_id.as_str(), Some(c.as_str()))),
            None => None,
        }
    }

    /// All followed channels, and the user themself, so that their own
    /// stream shows too.
    pub fn finish(self) -> (r: Vec<String>)
        ensures
            strings(r@) == self.collected().push(self.from_id()),
    {
        let mut following = self.following;
        let ghost prev = strings(following@);
        following.push(self.from_id);
        assert(strings(following@) =~= prev.push(self.from_id@));
        following
    }
}

} // verus!
