//! Splitting text into pieces and lines.
use vstd::prelude::*;

verus! {

/// The pieces of `s` between occurrences of `sep`, in order; a text with `k`
/// separators has `k + 1` pieces, empty ones included.
pub open spec fn pieces(s: Seq<char>, sep: char) -> Seq<Seq<char>>
    decreases s.len(),
{
    if s.len() == 0 {
        seq![Seq::empty()]
    } else {
        let init = pieces(s.drop_last(), sep);
        if s.last() == sep {
            init.push(Seq::empty())
        } else {
            init.update(init.len() - 1, init.last().push(s.last()))
        }
    }
}

pub proof fn lemma_pieces_nonempty(s: Seq<char>, sep: char)
    ensures
        pieces(s, sep).len() >= 1,
    decreases s.len(),
{
    if s.len() > 0 {
        lemma_pieces_nonempty(s.drop_last(), sep);
    }
}

pub open spec fn strings(v: Seq<String>) -> Seq<Seq<char>> {
    v.map_values(|s: String| s@)
}

/// Splits `text` at every `sep`.
pub fn split_on(text: &str, sep: char) -> (r: Vec<String>)
    ensures
        strings(r@) == pieces(text@, sep),
{
    let ghost s = text@;
    let n = text.unicode_len();
    let mut out: Vec<String> = Vec::new();
    let mut start: usize = 0;
    let mut i: usize = 0;
    let mut finished: bool = false;
    assert(s.subrange(0, 0) =~= Seq::<char>::empty());
    assert(strings(out@) =~= Seq::<Seq<char>>::empty());
    while !finished
        invariant
            n == s.len(),
            s == text@,
            start <= i,
            i <= n,
            !finished ==> pieces(s.subrange(0, i as int), sep) == strings(out@).push(
                s.subrange(start as int, i as int),
            ),
            finished ==> pieces(s, sep) == strings(out@),
        decreases (n - i) as int + if finished { 0int } else { 1int },
    {
        if i == n || text.get_char(i) == sep {
            let ghost prev = out@;
            let piece = text.substring_char(start, i);
            out.push(String::from_str(piece));
            assert(strings(out@) =~= strings(prev).push(s.subrange(start as int, i as int)));
            if i == n {
                assert(s.subrange(0, i as int) =~= s);
                finished = true;
            } else {
                proof {
                    let t = s.subrange(0, i as int + 1);
                    assert(t.drop_last() =~= s.subrange(0, i as int));
                    assert(s.subrange(i as int + 1, i as int + 1) =~= Seq::<char>::empty());
                }
                start = i + 1;
                i = i + 1;
            }
        } else {
            proof {
                let t = s.subrange(0, i as int + 1);
                assert(t.drop_last() =~= s.subrange(0, i as int));
                lemma_pieces_nonempty(s.subrange(0, i as int), sep);
                assert(s.subrange(start as int, i as int).push(s[i as int]) =~= s.subrange(
                    start as int,
                    i as int + 1,
                ));
                assert(strings(out@).push(s.subrange(start as int, i as int)).update(
                    out@.len() as int,
                    s.subrange(start as int, i as int + 1),
                ) =~= strings(out@).push(s.subrange(start as int, i as int + 1)));
            }
            i = i + 1;
        }
    }
    out
}

/// A line ended by a newline, without its `\r` if it ended in `\r\n`.
pub open spec fn without_cr(line: Seq<char>) -> Seq<char> {
    if line.len() > 0 && line.last() == '\r' {
        line.drop_last()
    } else {
        line
    }
}

/// The lines of `s`: split at `\n`, where a `\r` before the `\n` is part of
/// the line ending; the text after the last `\n` is a line if not empty.
pub open spec fn lines(s: Seq<char>) -> Seq<Seq<char>> {
    let p = pieces(s, '\n');
    let ended = p.drop_last().map_values(|l: Seq<char>| without_cr(l));
    if p.last().len() == 0 {
        ended
    } else {
        ended.push(p.last())
    }
}

/// The lines of `text`.
pub fn split_lines(text: &str) -> (r: Vec<String>)
    ensures
        strings(r@) == lines(text@),
{
    let parts = split_on(text, '\n');
    proof {
        lemma_pieces_nonempty(text@, '\n');
    }
    let ghost p = pieces(text@, '\n');
    let last_index = parts.len() - 1;
    let mut out: Vec<String> = Vec::new();
    let mut i: usize = 0;
    while i < last_index
        invariant
            strings(parts@) == p,
            p == pieces(text@, '\n'),
            last_index == p.len() - 1,
            i <= last_index,
            strings(out@) == p.take(i as int).map_values(|l: Seq<char>| without_cr(l)),
        decreases last_index - i,
    {
        let line = parts[i].as_str();
        let len = line.unicode_len();
        let ghost prev = out@;
        if len > 0 && line.get_char(len - 1) == '\r' {
            out.push(String::from_str(line.substring_char(0, len - 1)));
        } else {
            out.push(String::from_str(line));
        }
        assert(strings(out@) =~= strings(prev).push(without_cr(p[i as int])));
        assert(p.take(i as int + 1).map_values(|l: Seq<char>| without_cr(l)) =~= p.take(
            i as int,
        ).map_values(|l: Seq<char>| without_cr(l)).push(without_cr(p[i as int])));
        i = i + 1;
    }
    assert(p.take(last_index as int) =~= p.drop_last());
    let tail = parts[last_index].as_str();
    if tail.unicode_len() > 0 {
        let ghost prev = out@;
        out.push(String::from_str(tail));
        assert(strings(out@) =~= strings(prev).push(p.last()));
    }
    out
}

} // verus!
