//! A small cache of values by key, whose entries expire.
use vstd::prelude::*;
use crate::seqs::{first_index, lemma_first_index_at, lemma_first_index_none};

verus! {

/// Seconds for which a cached follow list is used.
pub const FOLLOW_CACHE_SECS: u64 = 24 * 60 * 60;

pub struct CacheEntry<T> {
    created_at: u64,
    key: String,
    value: T,
}

/// Entries as (creation time, key, value), oldest first.
pub struct ExpiringCache<T> {
    entries: Vec<CacheEntry<T>>,
    max_age: u64,
}

/// The entry created at `created_at` is still used at time `now` (a clock
/// that went backwards counts as no time passed).
pub open spec fn is_fresh(created_at: u64, now: u64, max_age: u64) -> bool {
    (if now >= created_at {
        now - created_at
    } else {
        0
    }) < max_age
}

impl<T> ExpiringCache<T> {
    pub closed spec fn entries(&self) -> Seq<(u64, Seq<char>, T)> {
        self.entries@.map_values(|e: CacheEntry<T>| (e.created_at, e.key@, e.value))
    }

    pub closed spec fn max_age(&self) -> u64 {
        self.max_age
    }

    /// An empty cache whose entries are used for `max_age` seconds.
    pub fn new(max_age: u64) -> (r: Self)
        ensures
            r.entries().len() == 0,
            r.max_age() == max_age,
    {
        let r = ExpiringCache { entries: Vec::new(), max_age };
        assert(r.entries() =~= Seq::empty());
        r
    }

    /// Drops the entries that expired at time `now`.
    pub fn clean(&mut self, now: u64)
        ensures
            final(self).max_age() == old(self).max_age(),
            final(self).entries() == old(self).entries().filter(
                |e: (u64, Seq<char>, T)| is_fresh(e.0, now, old(self).max_age()),
            ),
    {
        let ghost o = self.entries();
        let ghost f = |e: (u64, Seq<char>, T)| is_fresh(e.0, now, self.max_age);
        let ghost n = o.len();
        let mut i: usize = 0;
        let ghost mut j: int = 0;
        while i < self.entries.len()
            invariant
                f == (|e: (u64, Seq<char>, T)| is_fresh(e.0, now, old(self).max_age())),
                self.max_age == old(self).max_age(),
                0 <= j <= n,
                n == o.len(),
                o == old(self).entries(),
                self.entries() == o.take(j).filter(f) + o.subrange(j, n as int),
                i == o.take(j).filter(f).len(),
            decreases n - j,
        {
            let ghost kept = o.take(j).filter(f);
            assert(self.entries()[i as int] == o[j]);
            proof {
                o.take(j).lemma_filter_push(o[j], f);
                assert(o.take(j + 1) =~= o.take(j).push(o[j]));
            }
            let created = self.entries[i].created_at;
            let age = if now >= created {
                now - created
            } else {
                0
            };
            if age < self.max_age {
                assert(self.entries() =~= o.take(j + 1).filter(f) + o.subrange(j + 1, n as int));
                i = i + 1;
            } else {
                let ghost before = self.entries@;
                self.entries.remove(i);
                proof {
                    let mb = before.map_values(|e: CacheEntry<T>| (e.created_at, e.key@, e.value));
                    assert(self.entries() =~= mb.remove(i as int));
                    assert(mb.remove(i as int) =~= kept + o.subrange(j + 1, n as int));
                }
            }
            proof {
                j = j + 1;
            }
        }
        assert(o.take(n as int) =~= o);
        assert(self.entries() =~= o.filter(f) + o.subrange(n as int, n as int));
    }

    /// The value of the oldest entry under `key`.
    pub fn find(&self, key: &str) -> (r: Option<&T>)
        ensures
            ({
                let s = self.entries();
                let k = first_index(s, |e: (u64, Seq<char>, T)| e.1 == key@);
                match r {
                    Some(v) => k < s.len() && *v == s[k].2,
                    None => k == s.len(),
                }
            }),
    {
        let ghost s = self.entries();
        let ghost pf = |e: (u64, Seq<char>, T)| e.1 == key@;
        let wanted = String::from_str(key);
        let mut i: usize = 0;
        while i < self.entries.len()
            invariant
                wanted@ == key@,
                s == self.entries(),
                i <= s.len(),
                pf == (|e: (u64, Seq<char>, T)| e.1 == key@),
                forall|j: int| 0 <= j < i ==> !pf(#[trigger] s[j]),
            decreases s.len() - i,
        {
            assert(s[i as int].1 == self.entries@[i as int].key@);
            if self.entries[i].key == wanted {
                proof {
                    lemma_first_index_at(s, pf, i as int);
                }
                return Some(&self.entries[i].value);
            }
            i = i + 1;
        }
        proof {
            lemma_first_index_none(s, pf);
        }
        None
    }

    /// Adds `value` under `key`, created at time `now`.
    pub fn insert(&mut self, key: &str, value: T, now: u64)
        ensures
            final(self).max_age() == old(self).max_age(),
            final(self).entries() == old(self).entries().push((now, key@, value)),
    {
        let ghost before = self.entries();
        self.entries.push(CacheEntry { created_at: now, key: String::from_str(key), value });
        assert(self.entries() =~= before.push((now, key@, value)));
    }
}

} // verus!
