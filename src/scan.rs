//! Download links found in saved scan pages.
use vstd::prelude::*;
use crate::text::strings;

verus! {

/// The links that scan pages hold: an `https` host name followed by the
/// `hi10an` domain and a path up to a quote, `>` or `;`.
pub const LINK_PATTERN: &'static str = "https://[A-Za-z0-9]+?\\.hi10an[^>\\x22;]*";

/// Links to streaming pages, which are not downloads.
pub const STREAM_PREFIX: &'static str = "https://stream.";

/// The texts of the successive matches of `pattern` in `text`.
pub uninterp spec fn regex_matches(pattern: Seq<char>, text: Seq<char>) -> Seq<Seq<char>>;

/// Relies on regex::Regex::new to compile `pattern` (`None` when it is not a
/// valid regular expression) and on Regex::find_iter for the texts of its
/// successive non-overlapping matches in `text`.
#[verifier::external_body]
fn find_matches(pattern: &str, text: &str) -> (r: Option<Vec<String>>)
    ensures
        r is Some ==> strings(r->Some_0@) == regex_matches(pattern@, text@),
{
    match regex::Regex::new(pattern) {
        Ok(re) => Some(re.find_iter(text).map(|m| m.as_str().to_string()).collect()),
        Err(_) => None,
    }
}

/// Lexicographic order of character sequences, which for strings is the
/// order of their UTF-8 bytes.
pub open spec fn seq_less(a: Seq<char>, b: Seq<char>) -> bool
    decreases a.len(),
{
    if a.len() == 0 {
        b.len() > 0
    } else if b.len() == 0 {
        false
    } else if a[0] != b[0] {
        a[0] < b[0]
    } else {
        seq_less(a.drop_first(), b.drop_first())
    }
}

proof fn lemma_seq_less_total(a: Seq<char>, b: Seq<char>)
    requires
        a != b,
    ensures
        seq_less(a, b) || seq_less(b, a),
    decreases a.len(),
{
    if a.len() > 0 && b.len() > 0 && a[0] == b[0] {
        assert(a.drop_first() != b.drop_first()) by {
            if a.drop_first() == b.drop_first() {
                assert(a =~= seq![a[0]] + a.drop_first());
                assert(b =~= seq![b[0]] + b.drop_first());
            }
        }
        lemma_seq_less_total(a.drop_first(), b.drop_first());
    } else if a.len() == 0 && b.len() == 0 {
        assert(a =~= b);
    }
}

/// A link to a streaming page.
pub open spec fn is_stream_link(s: Seq<char>) -> bool {
    STREAM_PREFIX@.is_prefix_of(s)
}

/// Each element is less than the next.
pub open spec fn strictly_sorted(s: Seq<Seq<char>>) -> bool {
    forall|i: int| 0 <= i < s.len() - 1 ==> seq_less(#[trigger] s[i], s[i + 1])
}

/// Whether `prefix` is a prefix of `s`.
fn has_prefix(s: &str, prefix: &str) -> (r: bool)
    ensures
        r == prefix@.is_prefix_of(s@),
{
    let n = prefix.unicode_len();
    if n > s.unicode_len() {
        return false;
    }
    let mut i: usize = 0;
    while i < n
        invariant
            n == prefix@.len(),
            n <= s@.len(),
            i <= n,
            forall|j: int| 0 <= j < i ==> prefix@[j] == s@[j],
        decreases n - i,
    {
        if prefix.get_char(i) != s.get_char(i) {
            assert(prefix@[i as int] != s@.subrange(0, n as int)[i as int]);
            return false;
        }
        i = i + 1;
    }
    assert(prefix@ =~= s@.subrange(0, n as int));
    true
}

/// Whether `a` comes before `b`.
fn less_than(a: &str, b: &str) -> (r: bool)
    ensures
        r == seq_less(a@, b@),
{
    let na = a.unicode_len();
    let nb = b.unicode_len();
    let mut k: usize = 0;
    assert(a@.skip(0) =~= a@);
    assert(b@.skip(0) =~= b@);
    while k < na && k < nb
        invariant
            na == a@.len(),
            nb == b@.len(),
            k <= na,
            k <= nb,
            seq_less(a@, b@) == seq_less(a@.skip(k as int), b@.skip(k as int)),
        decreases na - k,
    {
        let ca = a.get_char(k);
        let cb = b.get_char(k);
        assert(a@.skip(k as int)[0] == ca);
        assert(b@.skip(k as int)[0] == cb);
        if ca != cb {
            return ca < cb;
        }
        assert(a@.skip(k as int).drop_first() =~= a@.skip(k as int + 1));
        assert(b@.skip(k as int).drop_first() =~= b@.skip(k as int + 1));
        k = k + 1;
    }
    k == na && k < nb
}

/// The links of `s` that are not streaming links, as a set.
pub open spec fn download_links(s: Seq<Seq<char>>) -> Set<Seq<char>> {
    s.to_set().filter(|x: Seq<char>| !is_stream_link(x))
}

/// The links of `found` that are not streaming links, sorted, each once.
pub fn select_links(found: Vec<String>) -> (r: Vec<String>)
    ensures
        strictly_sorted(strings(r@)),
        strings(r@).to_set() == download_links(strings(found@)),
{
    let ghost f = strings(found@);
    let mut out: Vec<String> = Vec::new();
    let mut i: usize = 0;
    assert(strings(out@).to_set() =~= download_links(f.take(0)));
    while i < found.len()
        invariant
            f == strings(found@),
            i <= f.len(),
            strictly_sorted(strings(out@)),
            strings(out@).to_set() == download_links(f.take(i as int)),
        decreases f.len() - i,
    {
        let link = found[i].as_str();
        let ghost lv = f[i as int];
        let ghost before = strings(out@);
        assert(f.take(i as int + 1) =~= f.take(i as int).push(lv));
        proof {
            f.take(i as int).lemma_push_to_set_commute(lv);
        }
        let stream = has_prefix(link, STREAM_PREFIX);
        let mut seen = false;
        let mut k: usize = 0;
        while k < out.len()
            invariant
                k <= out@.len(),
                seen == (exists|j: int| 0 <= j < k && out@[j]@ == lv),
                i < found@.len(),
                lv == found@[i as int]@,
            decreases out@.len() - k,
        {
            if out[k] == found[i] {
                seen = true;
            }
            k = k + 1;
        }
        assert(seen == before.to_set().contains(lv)) by {
            if seen {
                let j = choose|j: int| 0 <= j < k && out@[j]@ == lv;
                assert(before[j] == lv);
            }
            if before.to_set().contains(lv) {
                assert(before.contains(lv));
                let j = choose|j: int| 0 <= j < before.len() && before[j] == lv;
                assert(out@[j]@ == lv);
            }
        }
        assert(stream == is_stream_link(lv));
        if stream || seen {
            assert(strings(out@).to_set() =~= download_links(f.take(i as int + 1)));
        } else {
            let ghost o = strings(out@);
            let mut p: usize = 0;
            while p < out.len() && less_than(out[p].as_str(), link)
                invariant
                    o == strings(out@),
                    p <= o.len(),
                    lv == link@,
                    forall|j: int| 0 <= j < p ==> seq_less(#[trigger] o[j], lv),
                decreases o.len() - p,
            {
                p = p + 1;
            }
            proof {
                if p < o.len() {
                    assert(o[p as int] != lv) by {
                        assert(o.contains(o[p as int]));
                    }
                    lemma_seq_less_total(o[p as int], lv);
                }
            }
            out.insert(p, String::from_str(link));
            let ghost no = strings(out@);
            assert(no =~= o.insert(p as int, lv));
            assert forall|j: int| 0 <= j < no.len() - 1 implies seq_less(#[trigger] no[j], no[j + 1]) by {
                if j < p as int - 1 {
                    assert(no[j] == o[j] && no[j + 1] == o[j + 1]);
                } else if j == p as int - 1 {
                    assert(no[j] == o[j]);
                } else if j == p as int {
                } else {
                    assert(no[j] == o[j - 1] && no[j + 1] == o[j]);
                }
            }
            assert(no.to_set() =~= o.to_set().insert(lv)) by {
                assert forall|x: Seq<char>| no.contains(x) <==> (o.contains(x) || x == lv) by {
                    if no.contains(x) {
                        let j = choose|j: int| 0 <= j < no.len() && no[j] == x;
                        if j < p {
                            assert(o[j] == x);
                        } else if j > p {
                            assert(o[j - 1] == x);
                        }
                    }
                    if o.contains(x) {
                        let j = choose|j: int| 0 <= j < o.len() && o[j] == x;
                        if j < p {
                            assert(no[j] == x);
                        } else {
                            assert(no[j + 1] == x);
                        }
                    }
                    if x == lv {
                        assert(no[p as int] == x);
                    }
                }
            }
            assert(strings(out@).to_set() =~= download_links(f.take(i as int + 1)));
        }
        i = i + 1;
    }
    assert(f.take(f.len() as int) =~= f);
    out
}

/// The download links in a scan page: the matches of [`LINK_PATTERN`]
/// without streaming links, sorted, each once. `None` if the pattern could
/// not be compiled.
pub fn scan_links(content: &str) -> (r: Option<Vec<String>>)
    ensures
        r is Some ==> strictly_sorted(strings(r->Some_0@)) && strings(r->Some_0@).to_set()
            == download_links(regex_matches(LINK_PATTERN@, content@)),
{
    match find_matches(LINK_PATTERN, content) {
        Some(found) => Some(select_links(found)),
        None => None,
    }
}

} // verus!
