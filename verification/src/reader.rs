//! The reader's handle cache: each engine handle keeps its own set of open
//! log files, keyed by generation, and discards any that fell behind the
//! writer's published safe point (the smallest generation still on disk).

use vstd::prelude::*;

verus! {

/// The generations a reader currently holds open.
pub struct ReaderCache {
    /// The cached generations, each at most once.
    pub gens: Vec<u64>,
}

impl ReaderCache {
    /// A fresh handle starts with nothing cached.
    pub fn new() -> (r: ReaderCache)
        ensures
            r.gens@.len() == 0,
    {
        ReaderCache { gens: Vec::new() }
    }

    /// Is this generation's file already open here?
    pub fn is_cached(&self, gen: u64) -> (r: bool)
        ensures
            r == self.gens@.contains(gen),
    {
        let n = self.gens.len();
        let mut i: usize = 0;
        while i < n
            invariant
                i <= n,
                n == self.gens@.len(),
                forall|j: int| 0 <= j < i ==> self.gens@[j] != gen,
            decreases n - i,
        {
            if self.gens[i] == gen {
                assert(self.gens@[i as int] == gen);
                return true;
            }
            i = i + 1;
        }
        proof {
            assert(!self.gens@.contains(gen)) by {
                if self.gens@.contains(gen) {
                    let j = choose|j: int| 0 <= j < self.gens@.len() && self.gens@[j] == gen;
                }
            }
        }
        false
    }

    /// Records that this generation's file is now open.
    pub fn note_open(&mut self, gen: u64)
        ensures
            forall|g: u64|
                final(self).gens@.contains(g) <==> (old(self).gens@.contains(g) || g == gen),
    {
        if !self.is_cached(gen) {
            let ghost pre = self.gens@;
            self.gens.push(gen);
            proof {
                assert forall|g: u64|
                    final(self).gens@.contains(g) <==> (pre.contains(g) || g == gen) by {
                    if self.gens@.contains(g) {
                        let j = choose|j: int|
                            0 <= j < self.gens@.len() && self.gens@[j] == g;
                        if j < pre.len() {
                            assert(pre[j] == g);
                        }
                    }
                    if pre.contains(g) {
                        let j = choose|j: int| 0 <= j < pre.len() && pre[j] == g;
                        assert(self.gens@[j] == g);
                    }
                    if g == gen {
                        assert(self.gens@[self.gens@.len() - 1] == g);
                    }
                }
            }
        }
    }

    /// Drops every handle whose generation fell below the safe point: those
    /// files are gone or going, and rereading them would be a torn read.
    /// Exactly the handles at or above the safe point survive.
    pub fn close_stale(&mut self, safe_point: u64)
        ensures
            forall|g: u64|
                final(self).gens@.contains(g) <==> (old(self).gens@.contains(g) && g
                    >= safe_point),
    {
        let n = self.gens.len();
        let mut keep: Vec<u64> = Vec::new();
        let mut i: usize = 0;
        while i < n
            invariant
                i <= n,
                n == self.gens@.len(),
                self.gens@ == old(self).gens@,
                forall|g: u64|
                    keep@.contains(g) <==> ((exists|j: int|
                        0 <= j < i && self.gens@[j] == g) && g >= safe_point),
            decreases n - i,
        {
            let g = self.gens[i];
            let ghost pre = keep@;
            if g >= safe_point {
                keep.push(g);
            }
            proof {
                assert forall|gg: u64|
                    keep@.contains(gg) <==> ((exists|j: int|
                        0 <= j < i + 1 && self.gens@[j] == gg) && gg >= safe_point) by {
                    if keep@.contains(gg) {
                        let j = choose|j: int| 0 <= j < keep@.len() && keep@[j] == gg;
                        if j < pre.len() {
                            assert(pre[j] == gg);
                            assert(pre.contains(gg));
                        } else {
                            assert(self.gens@[i as int] == gg);
                        }
                    }
                    if (exists|j: int| 0 <= j < i + 1 && self.gens@[j] == gg) && gg
                        >= safe_point {
                        let j = choose|j: int| 0 <= j < i + 1 && self.gens@[j] == gg;
                        if j < i {
                            assert(pre.contains(gg));
                            let jj = choose|jj: int| 0 <= jj < pre.len() && pre[jj] == gg;
                            assert(keep@[jj] == gg);
                        } else {
                            assert(keep@[keep@.len() - 1] == gg);
                        }
                    }
                }
            }
            i = i + 1;
        }
        self.gens = keep;
        proof {
            assert forall|g: u64|
                final(self).gens@.contains(g) <==> (old(self).gens@.contains(g) && g
                    >= safe_point) by {
                if old(self).gens@.contains(g) {
                    let j = choose|j: int|
                        0 <= j < old(self).gens@.len() && old(self).gens@[j] == g;
                }
            }
        }
    }
}

} // verus!
