//! Confinement of caller-supplied paths under a configured root directory.
use vstd::prelude::*;
use crate::text::{lemma_pieces_nonempty, pieces};

verus! {

/// The segments of `s` between `/` separators, in order. A path with `k`
/// separators has `k + 1` segments; empty segments are kept.
pub open spec fn segments(s: Seq<char>) -> Seq<Seq<char>> {
    pieces(s, '/')
}

/// The segments joined back together with `/` between consecutive ones.
pub open spec fn joined(segs: Seq<Seq<char>>) -> Seq<char>
    decreases segs.len(),
{
    if segs.len() == 0 {
        Seq::empty()
    } else if segs.len() == 1 {
        segs[0]
    } else {
        joined(segs.drop_last()) + seq!['/'] + segs.last()
    }
}

/// A segment that names a directory entry: not empty, not `.` and not `..`.
pub open spec fn is_named_segment(seg: Seq<char>) -> bool {
    seg.len() > 0 && seg != seq!['.'] && seg != seq!['.', '.']
}

/// The relative path made of the named segments of `s`: parent-directory,
/// current-directory and empty segments (hence also a leading `/`) are dropped.
pub open spec fn sanitized(s: Seq<char>) -> Seq<char> {
    joined(segments(s).filter(|seg: Seq<char>| is_named_segment(seg)))
}

/// Maps a caller-supplied path to a relative path that holds only named
/// segments, so that it cannot leave the directory it is joined to.
pub fn sanitize_path(path: &str) -> (r: String)
    ensures
        r@ == sanitized(path@),
{
    let ghost s = path@;
    let ghost pred = |seg: Seq<char>| is_named_segment(seg);
    let n = path.unicode_len();
    let mut out = String::new();
    let mut any: bool = false;
    let mut start: usize = 0;
    let mut i: usize = 0;
    let ghost mut done: Seq<Seq<char>> = Seq::empty();
    proof {
        assert(s.subrange(0, 0) =~= Seq::<char>::empty());
    }
    let mut finished: bool = false;
    while !finished
        invariant
            n == s.len(),
            s == path@,
            start <= i,
            i <= n,
            !finished ==> segments(s.subrange(0, i as int)) == done.push(
                s.subrange(start as int, i as int),
            ),
            finished ==> segments(s) == done,
            out@ == joined(done.filter(pred)),
            any == (done.filter(pred).len() > 0),
            pred == (|seg: Seq<char>| is_named_segment(seg)),
        decreases (n - i) as int + if finished { 0int } else { 1int },
    {
        let at_end = i == n;
        let sep = if at_end { true } else { path.get_char(i) == '/' };
        if sep {
            let ghost seg = s.subrange(start as int, i as int);
            let len = i - start;
            let named = if len == 0 {
                false
            } else if len == 1 {
                path.get_char(start) != '.'
            } else if len == 2 {
                !(path.get_char(start) == '.' && path.get_char(start + 1) == '.')
            } else {
                true
            };
            proof {
                assert(seg.len() == len);
                if len >= 1 {
                    assert(seg[0] == s[start as int]);
                }
                if len >= 2 {
                    assert(seg[1] == s[start + 1]);
                }
                if len == 1 {
                    assert(seg == seq!['.'] <==> seg[0] == '.') by {
                        if seg[0] == '.' {
                            assert(seg =~= seq!['.']);
                        }
                    }
                } else if len == 2 {
                    assert(seg == seq!['.', '.'] <==> (seg[0] == '.' && seg[1] == '.')) by {
                        if seg[0] == '.' && seg[1] == '.' {
                            assert(seg =~= seq!['.', '.']);
                        }
                    }
                } else if len > 2 {
                    assert(seg.len() != seq!['.'].len());
                    assert(seg.len() != seq!['.', '.'].len());
                }
                assert(named == is_named_segment(seg));
                done.lemma_filter_push(seg, pred);
                let f = done.filter(pred);
                if named {
                    assert(f.push(seg).drop_last() =~= f);
                }
            }
            if named {
                let piece = path.substring_char(start, i);
                if any {
                    out.append("/");
                    proof {
                        reveal_strlit("/");
                    }
                }
                out.append(piece);
                any = true;
            }
            proof {
                done = done.push(seg);
                if !at_end {
                    let t = s.subrange(0, i as int + 1);
                    assert(t.drop_last() =~= s.subrange(0, i as int));
                    assert(s.subrange(i as int + 1, i as int + 1) =~= Seq::<char>::empty());
                } else {
                    assert(s.subrange(0, i as int) =~= s);
                }
            }
            if at_end {
                finished = true;
            } else {
                start = i + 1;
                i = i + 1;
            }
        } else {
            proof {
                let t = s.subrange(0, i as int + 1);
                assert(t.drop_last() =~= s.subrange(0, i as int));
                lemma_pieces_nonempty(s.subrange(0, i as int), '/');
                assert(s.subrange(start as int, i as int).push(s[i as int]) =~= s.subrange(
                    start as int,
                    i as int + 1,
                ));
                assert(done.push(s.subrange(start as int, i as int)).update(
                    done.len() as int,
                    s.subrange(start as int, i as int + 1),
                ) =~= done.push(s.subrange(start as int, i as int + 1)));
            }
            i = i + 1;
        }
    }
    out
}

/// `s` holds no separator.
pub open spec fn no_separator(s: Seq<char>) -> bool {
    forall|i: int| 0 <= i < s.len() ==> s[i] != '/'
}

proof fn lemma_segments_no_separator(s: Seq<char>)
    ensures
        forall|k: int| 0 <= k < segments(s).len() ==> no_separator(#[trigger] segments(s)[k]),
    decreases s.len(),
{
    if s.len() > 0 {
        lemma_segments_no_separator(s.drop_last());
        lemma_pieces_nonempty(s.drop_last(), '/');
        let init = segments(s.drop_last());
        if s.last() != '/' {
            let l = init.last().push(s.last());
            assert(no_separator(l)) by {
                assert(no_separator(init[init.len() - 1]));
                assert forall|i: int| 0 <= i < l.len() implies l[i] != '/' by {
                    if i < l.len() - 1 {
                        assert(l[i] == init.last()[i]);
                    }
                }
            }
        }
    }
}

proof fn lemma_segments_extend(p: Seq<char>, q: Seq<char>)
    requires
        no_separator(q),
    ensures
        segments(p + q) == segments(p).update(
            segments(p).len() - 1,
            segments(p).last() + q,
        ),
    decreases q.len(),
{
    lemma_pieces_nonempty(p, '/');
    if q.len() == 0 {
        assert(p + q =~= p);
        assert(segments(p).last() + q =~= segments(p).last());
        assert(segments(p).update(segments(p).len() - 1, segments(p).last()) =~= segments(p));
    } else {
        let q0 = q.drop_last();
        assert(no_separator(q0)) by {
            assert forall|i: int| 0 <= i < q0.len() implies q0[i] != '/' by {
                assert(q0[i] == q[i]);
            }
        }
        lemma_segments_extend(p, q0);
        assert((p + q).drop_last() =~= p + q0);
        assert((p + q).last() == q.last());
        assert(segments(p).last() + q0 + seq![q.last()] =~= segments(p).last() + q);
        let a = segments(p + q0);
        assert(a.last() == segments(p).last() + q0);
        assert(a.last().push(q.last()) =~= segments(p).last() + q);
        assert(a.update(a.len() - 1, a.last().push(q.last())) =~= segments(p).update(
            segments(p).len() - 1,
            segments(p).last() + q,
        ));
    }
}

proof fn lemma_segments_of_joined(xs: Seq<Seq<char>>)
    requires
        xs.len() >= 1,
        forall|k: int| 0 <= k < xs.len() ==> no_separator(#[trigger] xs[k]),
    ensures
        segments(joined(xs)) == xs,
    decreases xs.len(),
{
    if xs.len() == 1 {
        lemma_segments_extend(Seq::empty(), xs[0]);
        assert(Seq::<char>::empty() + xs[0] =~= xs[0]);
        assert(Seq::<char>::empty() + xs[0] =~= xs[0]);
        assert(seq![Seq::<char>::empty()].update(0, Seq::<char>::empty() + xs[0]) =~= xs);
    } else {
        let init = xs.drop_last();
        assert forall|k: int| 0 <= k < init.len() implies no_separator(#[trigger] init[k]) by {
            assert(init[k] == xs[k]);
        }
        lemma_segments_of_joined(init);
        let p = joined(init).push('/');
        assert(p.drop_last() =~= joined(init));
        assert(segments(p) == init.push(Seq::empty()));
        assert(joined(init) + seq!['/'] + xs.last() =~= p + xs.last());
        assert(no_separator(xs[xs.len() - 1]));
        lemma_segments_extend(p, xs.last());
        assert(Seq::<char>::empty() + xs.last() =~= xs.last());
        assert(init.push(Seq::empty()).update(init.len() as int, xs.last()) =~= xs);
    }
}

/// A relative path whose segments all name directory entries (or the
/// empty path): joined to a directory, it stays inside it.
pub open spec fn is_confined(p: Seq<char>) -> bool {
    p.len() == 0 || forall|k: int| 0 <= k < segments(p).len() ==> is_named_segment(#[trigger] segments(p)[k])
}

/// A sanitized path has only named segments: no `..` can take it out of the
/// directory it is joined to, and it does not start with `/`.
pub proof fn lemma_sanitized_is_confined(s: Seq<char>)
    ensures
        is_confined(sanitized(s)),
        forall|k: int|
            0 <= k < segments(sanitized(s)).len() ==> #[trigger] segments(sanitized(s))[k] != seq![
                '.',
                '.',
            ],
        sanitized(s).len() == 0 || sanitized(s)[0] != '/',
{
    let pred = |seg: Seq<char>| is_named_segment(seg);
    let f = segments(s).filter(pred);
    lemma_segments_no_separator(s);
    assert forall|k: int| 0 <= k < f.len() implies no_separator(#[trigger] f[k])
        && is_named_segment(f[k]) by {
        segments(s).lemma_filter_pred(pred, k);
        assert(f.contains(f[k]));
        segments(s).lemma_filter_contains_rev(pred, f[k]);
        let j = choose|j: int| 0 <= j < segments(s).len() && segments(s)[j] == f[k];
        assert(no_separator(segments(s)[j]));
    }
    if f.len() == 0 {
        assert(sanitized(s).len() == 0);
    } else {
        lemma_segments_of_joined(f);
        assert(segments(sanitized(s)) == f);
        let first = f[0];
        assert(is_named_segment(first));
        assert(sanitized(s)[0] != '/') by {
            lemma_joined_starts_with_first(f);
            assert(no_separator(first));
            assert(sanitized(s)[0] == first[0]);
        }
    }
}

proof fn lemma_joined_starts_with_first(xs: Seq<Seq<char>>)
    requires
        xs.len() >= 1,
        xs[0].len() > 0,
    ensures
        joined(xs).len() > 0,
        joined(xs)[0] == xs[0][0],
    decreases xs.len(),
{
    if xs.len() > 1 {
        let init = xs.drop_last();
        assert(init[0] == xs[0]);
        lemma_joined_starts_with_first(init);
    }
}

} // verus!
