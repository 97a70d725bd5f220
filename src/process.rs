//! The external player and chat processes: their command lines, and finding
//! the `mpv` children of a stream player in the output of `ps`.
use vstd::prelude::*;
use crate::dvbc::Channel;
use crate::text::{lines, pieces, split_lines, split_on, strings};

verus! {

/// What the video player is asked to play.
#[derive(Clone, PartialEq, Eq, Debug)]
pub enum VideoPlayerArgs {
    /// A Twitch stream, by channel name.
    Twitch(String),
    /// A DVB-C channel.
    DvbC(Channel),
}

/// What the video player plays, as reported to clients: the stream's name,
/// or the DVB-C channel's name.
pub enum VideoPlayerSomthing {
    Twitch(String),
    DvbC(String),
}

impl VideoPlayerSomthing {
    pub fn from_args(args: &VideoPlayerArgs) -> (r: VideoPlayerSomthing)
        ensures
            match (args, r) {
                (VideoPlayerArgs::Twitch(s), VideoPlayerSomthing::Twitch(t)) => t@ == s@,
                (VideoPlayerArgs::DvbC(c), VideoPlayerSomthing::DvbC(t)) => t@ == c.name@,
                _ => false,
            },
    {
        match args {
            VideoPlayerArgs::Twitch(stream) => VideoPlayerSomthing::Twitch(stream.clone()),
            VideoPlayerArgs::DvbC(channel) => VideoPlayerSomthing::DvbC(channel.name.clone()),
        }
    }
}

/// A program and its arguments, for the caller to spawn.
#[derive(Clone, PartialEq, Eq, Debug)]
pub struct CommandLine {
    pub program: String,
    pub args: Vec<String>,
}

/// Opens the Twitch chat of a channel in a kiosk browser window.
pub struct Chat {}

/// Plays Twitch streams with streamlink and DVB-C channels with ffplay.
pub struct VideoPlayer {}

impl Chat {
    /// `firefox -kiosk -private-window <chat page for channel>`.
    pub fn command(&self, channel: &String) -> (r: CommandLine)
        ensures
            r.program@ == "firefox"@,
            strings(r.args@) == seq![
                "-kiosk"@,
                "-private-window"@,
                "file:///opt/home_back/chat.html?channel="@ + channel@,
            ],
    {
        let mut page = String::from_str("file:///opt/home_back/chat.html?channel=");
        page.append(channel.as_str());
        let args = vec![String::from_str("-kiosk"), String::from_str("-private-window"), page];
        assert(strings(args@) =~= seq![
            "-kiosk"@,
            "-private-window"@,
            "file:///opt/home_back/chat.html?channel="@ + channel@,
        ]);
        CommandLine { program: String::from_str("firefox"), args }
    }
}

impl VideoPlayer {
    /// `streamlink --player-passthrough hls,http <stream>` for a Twitch
    /// stream, `ffplay -sn <url>` for a DVB-C channel.
    pub fn command(&self, args: &VideoPlayerArgs) -> (r: CommandLine)
        ensures
            match args {
                VideoPlayerArgs::Twitch(stream) => r.program@ == "streamlink"@ && strings(r.args@)
                    == seq!["--player-passthrough"@, "hls,http"@, stream@],
                VideoPlayerArgs::DvbC(channel) => r.program@ == "ffplay"@ && strings(r.args@)
                    == seq!["-sn"@, channel.url@],
            },
    {
        match args {
            VideoPlayerArgs::Twitch(stream) => {
                let a = vec![
                    String::from_str("--player-passthrough"),
                    String::from_str("hls,http"),
                    stream.clone(),
                ];
                assert(strings(a@) =~= seq!["--player-passthrough"@, "hls,http"@, stream@]);
                CommandLine { program: String::from_str("streamlink"), args: a }
            },
            VideoPlayerArgs::DvbC(channel) => {
                let a = vec![String::from_str("-sn"), channel.url.clone()];
                assert(strings(a@) =~= seq!["-sn"@, channel.url@]);
                CommandLine { program: String::from_str("ffplay"), args: a }
            },
        }
    }

    /// Whether stopping the player must also kill the `mpv` it started:
    /// streamlink leaves its player running, so for Twitch streams it must.
    pub fn kills_player_on_stop(&self, args: &VideoPlayerArgs) -> (r: bool)
        ensures
            r == (args is Twitch),
    {
        match args {
            VideoPlayerArgs::Twitch(_) => true,
            VideoPlayerArgs::DvbC(_) => false,
        }
    }
}

pub open spec fn is_digit(c: char) -> bool {
    '0' as u32 <= c as u32 <= '9' as u32
}

/// The value of a string of decimal digits.
pub open spec fn decimal_value(s: Seq<char>) -> int
    decreases s.len(),
{
    if s.len() == 0 {
        0
    } else {
        decimal_value(s.drop_last()) * 10 + (s.last() as u32 - '0' as u32)
    }
}

/// The digits of a number, after an optional leading `+`.
pub open spec fn unsigned_digits(w: Seq<char>) -> Seq<char> {
    if w.len() > 0 && w[0] == '+' {
        w.drop_first()
    } else {
        w
    }
}

/// A `u32` written in decimal, with an optional leading `+`.
pub open spec fn decimal_u32(w: Seq<char>) -> Option<u32> {
    let d = unsigned_digits(w);
    if d.len() > 0 && (forall|i: int| 0 <= i < d.len() ==> is_digit(#[trigger] d[i]))
        && decimal_value(d) <= u32::MAX {
        Some(decimal_value(d) as u32)
    } else {
        None
    }
}

proof fn lemma_decimal_value_grows(s: Seq<char>, k: int)
    requires
        0 <= k <= s.len(),
        forall|i: int| 0 <= i < s.len() ==> is_digit(#[trigger] s[i]),
    ensures
        decimal_value(s) >= decimal_value(s.take(k)) >= 0,
    decreases s.len(),
{
    if s.len() > 0 {
        let init = s.drop_last();
        assert forall|i: int| 0 <= i < init.len() implies is_digit(#[trigger] init[i]) by {
            assert(init[i] == s[i]);
        }
        assert(is_digit(s[s.len() - 1]));
        if k == s.len() {
            assert(s.take(k) =~= s);
            lemma_decimal_value_grows(init, 0);
        } else {
            lemma_decimal_value_grows(init, k);
            assert(init.take(k) =~= s.take(k));
        }
    } else {
        assert(s.take(k) =~= s);
    }
}

/// Parses a `u32` written in decimal, with an optional leading `+`.
pub fn parse_u32(word: &str) -> (r: Option<u32>)
    ensures
        r == decimal_u32(word@),
{
    let ghost w = word@;
    let n = word.unicode_len();
    let mut start: usize = 0;
    if n > 0 && word.get_char(0) == '+' {
        start = 1;
    }
    let ghost d = w.subrange(start as int, n as int);
    assert(d =~= unsigned_digits(w));
    if start == n {
        return None;
    }
    let mut acc: u32 = 0;
    let mut i: usize = start;
    while i < n
        invariant
            w == word@,
            n == w.len(),
            start <= i <= n,
            start < n,
            d == w.subrange(start as int, n as int),
            d == unsigned_digits(w),
            acc as int == decimal_value(d.take(i - start)),
            forall|j: int| 0 <= j < i - start ==> is_digit(#[trigger] d[j]),
        decreases n - i,
    {
        let c = word.get_char(i);
        if !('0' <= c && c <= '9') {
            assert(!is_digit(d[i - start]));
            return None;
        }
        let digit = (c as u32) - ('0' as u32);
        assert(d.take(i - start + 1).drop_last() =~= d.take(i - start));
        if acc > 429496729 || (acc == 429496729 && digit > 5) {
            proof {
                let k = i - start;
                assert(d.take(k + 1).last() == c);
                assert(decimal_value(d.take(k + 1)) == acc * 10 + digit);
                assert(acc * 10 + digit > u32::MAX) by (nonlinear_arith)
                    requires
                        acc > 429496729 || (acc == 429496729 && digit > 5),
                ;
                if forall|j: int| 0 <= j < d.len() ==> is_digit(#[trigger] d[j]) {
                    lemma_decimal_value_grows(d, i - start + 1);
                }
            }
            return None;
        }
        acc = acc * 10 + digit;
        i = i + 1;
    }
    assert(d.take(n - start) =~= d);
    Some(acc)
}

/// The words of a line of `ps` output: its pieces between spaces, empty
/// ones left out.
pub open spec fn words(line: Seq<char>) -> Seq<Seq<char>> {
    pieces(line, ' ').filter(|w: Seq<char>| w.len() > 0)
}

/// The numbers on a line: the words that are decimal `u32`s.
pub open spec fn numbers(line: Seq<char>) -> Seq<u32> {
    words(line).filter_map(|w: Seq<char>| decimal_u32(w))
}

/// The first number of a `pid ppid` line whose second number is `parent`.
pub open spec fn child_pid(line: Seq<char>, parent: u32) -> Option<u32> {
    let ns = numbers(line);
    if ns.len() >= 2 && ns[1] == parent {
        Some(ns[0])
    } else {
        None
    }
}

/// The numbers on one line.
fn line_numbers(line: &str) -> (r: Vec<u32>)
    ensures
        r@ == numbers(line@),
{
    let parts = split_on(line, ' ');
    let ghost p = pieces(line@, ' ');
    let ghost nonempty = |w: Seq<char>| w.len() > 0;
    let ghost f = |w: Seq<char>| decimal_u32(w);
    let mut out: Vec<u32> = Vec::new();
    let mut i: usize = 0;
    while i < parts.len()
        invariant
            strings(parts@) == p,
            nonempty == (|w: Seq<char>| w.len() > 0),
            f == (|w: Seq<char>| decimal_u32(w)),
            i <= p.len(),
            out@ == p.take(i as int).filter(nonempty).filter_map(f),
        decreases p.len() - i,
    {
        let word = parts[i].as_str();
        let ghost wv = p[i as int];
        assert(p.take(i as int + 1) =~= p.take(i as int).push(wv));
        proof {
            p.take(i as int).lemma_filter_push(wv, nonempty);
        }
        if word.unicode_len() > 0 {
            let ghost g = p.take(i as int).filter(nonempty);
            assert(g.push(wv).drop_last() =~= g);
            match parse_u32(word) {
                Some(v) => {
                    out.push(v);
                },
                None => {},
            }
            assert(out@ =~= p.take(i as int + 1).filter(nonempty).filter_map(f));
        }
        i = i + 1;
    }
    assert(p.take(p.len() as int) =~= p);
    out
}

/// The process ids of the children of `parent` in the output of
/// `ps h -o pid,ppid`: one `pid ppid` line per process. Lines with fewer
/// than two numbers are skipped.
pub fn children_of(ps_output: &str, parent: u32) -> (r: Vec<u32>)
    ensures
        r@ == lines(ps_output@).filter_map(|l: Seq<char>| child_pid(l, parent)),
{
    let ls = split_lines(ps_output);
    let ghost l = lines(ps_output@);
    let ghost f = |line: Seq<char>| child_pid(line, parent);
    let mut out: Vec<u32> = Vec::new();
    let mut i: usize = 0;
    while i < ls.len()
        invariant
            strings(ls@) == l,
            f == (|line: Seq<char>| child_pid(line, parent)),
            i <= l.len(),
            out@ == l.take(i as int).filter_map(f),
        decreases l.len() - i,
    {
        let ns = line_numbers(ls[i].as_str());
        proof {
            l.lemma_filter_map_take_succ(f, i as int);
        }
        if ns.len() >= 2 && ns[1] == parent {
            out.push(ns[0]);
        }
        assert(out@ =~= l.take(i as int + 1).filter_map(f));
        i = i + 1;
    }
    assert(l.take(l.len() as int) =~= l);
    out
}

} // verus!
