//! DVB-C channel lists, as published by the router in M3U form.
use vstd::prelude::*;
use std::sync::Arc;
use crate::seqs::{first_index, lemma_first_index_at, lemma_first_index_none};
use crate::text::{lines, split_lines, strings};

verus! {

/// Seconds after which a fetched channel list is fetched again.
pub const CHANNELS_MAX_AGE_SECS: u64 = 3600;

/// Length of the `#EXTINF:0,` prefix in front of a channel name.
pub const EXTINF_PREFIX_LEN: usize = 10;

#[derive(Clone, PartialEq, Eq, Debug)]
pub struct Channel {
    pub name: String,
    pub url: String,
}

impl Channel {
    /// A copy of the channel.
    pub fn duplicate(&self) -> (r: Channel)
        ensures
            r.name@ == self.name@,
            r.url@ == self.url@,
    {
        Channel { name: self.name.clone(), url: self.url.clone() }
    }
}

/// The TV and radio channels, and when they were fetched (in seconds of the
/// clock the caller uses for `now` in [`needs_update`]).
pub struct Channels {
    pub tv: Vec<Channel>,
    pub radio: Vec<Channel>,
    pub fetched_at: u64,
}

/// Whether the channel list must be fetched: there is none yet, or it is
/// older than [`CHANNELS_MAX_AGE_SECS`] at time `now` (a clock that went
/// backwards counts as no time passed).
pub fn needs_update(channels: &Option<Arc<Channels>>, now: u64) -> (r: bool)
    ensures
        r == match channels {
            None => true,
            Some(c) => now as int - c.fetched_at as int > CHANNELS_MAX_AGE_SECS as int,
        },
{
    match channels {
        None => true,
        Some(c) => now > c.fetched_at && now - c.fetched_at > CHANNELS_MAX_AGE_SECS,
    }
}

/// A channel's name from its `#EXTINF` line: the line without its first
/// [`EXTINF_PREFIX_LEN`] characters (empty for a shorter line).
pub open spec fn channel_name(line: Seq<char>) -> Seq<char> {
    if line.len() >= EXTINF_PREFIX_LEN {
        line.subrange(EXTINF_PREFIX_LEN as int, line.len() as int)
    } else {
        Seq::empty()
    }
}

/// The number of complete three-line entries after the header line.
pub open spec fn entry_count(ls: Seq<Seq<char>>) -> int {
    if ls.len() == 0 {
        0
    } else {
        (ls.len() - 1) / 3
    }
}

/// The (name, url) pairs of an M3U list: after the header line, each entry
/// is an `#EXTINF` line with the name, an option line, and the URL line; an
/// incomplete entry at the end is ignored.
pub open spec fn m3u_entries(ls: Seq<Seq<char>>) -> Seq<(Seq<char>, Seq<char>)> {
    Seq::new(
        entry_count(ls) as nat,
        |g: int| (channel_name(ls[1 + 3 * g]), ls[3 + 3 * g]),
    )
}

pub open spec fn channel_views(v: Seq<Channel>) -> Seq<(Seq<char>, Seq<char>)> {
    v.map_values(|c: Channel| (c.name@, c.url@))
}

/// The channels of an M3U channel list.
pub fn parse_channels(text: &str) -> (r: Vec<Channel>)
    ensures
        channel_views(r@) == m3u_entries(lines(text@)),
{
    let ls = split_lines(text);
    let ghost l = lines(text@);
    let count: usize = if ls.len() == 0 {
        0
    } else {
        (ls.len() - 1) / 3
    };
    let mut channels: Vec<Channel> = Vec::new();
    let mut g: usize = 0;
    while g < count
        invariant
            strings(ls@) == l,
            count == entry_count(l),
            g <= count,
            channel_views(channels@) == m3u_entries(l).take(g as int),
        decreases count - g,
    {
        assert(3 * g + 3 < ls.len()) by (nonlinear_arith)
            requires
                g < count,
                count == (ls.len() - 1) / 3,
                ls.len() >= 1,
        ;
        let first = ls[1 + 3 * g].as_str();
        let len = first.unicode_len();
        let name = if len >= EXTINF_PREFIX_LEN {
            String::from_str(first.substring_char(EXTINF_PREFIX_LEN, len))
        } else {
            String::new()
        };
        let url = ls[3 + 3 * g].clone();
        assert(name@ == channel_name(l[1 + 3 * g as int]));
        let ghost prev = channels@;
        channels.push(Channel { name, url });
        assert(channel_views(channels@) =~= channel_views(prev).push(m3u_entries(l)[g as int]));
        assert(m3u_entries(l).take(g as int + 1) =~= m3u_entries(l).take(g as int).push(
            m3u_entries(l)[g as int],
        ));
        g = g + 1;
    }
    assert(m3u_entries(l).take(count as int) =~= m3u_entries(l));
    channels
}

/// A copy of the first channel of `channels` named `name`.
pub fn find_channel(channels: &Vec<Channel>, name: &String) -> (r: Option<Channel>)
    ensures
        ({
            let s = channel_views(channels@);
            let k = first_index(s, |c: (Seq<char>, Seq<char>)| c.0 == name@);
            match r {
                Some(c) => k < s.len() && (c.name@, c.url@) == s[k],
                None => k == s.len(),
            }
        }),
{
    let ghost s = channel_views(channels@);
    let ghost pf = |c: (Seq<char>, Seq<char>)| c.0 == name@;
    let mut i: usize = 0;
    while i < channels.len()
        invariant
            s == channel_views(channels@),
            i <= s.len(),
            pf == (|c: (Seq<char>, Seq<char>)| c.0 == name@),
            forall|j: int| 0 <= j < i ==> !pf(#[trigger] s[j]),
        decreases s.len() - i,
    {
        if channels[i].name == *name {
            proof {
                lemma_first_index_at(s, pf, i as int);
            }
            return Some(channels[i].duplicate());
        }
        i = i + 1;
    }
    proof {
        lemma_first_index_none(s, pf);
    }
    None
}

} // verus!
