//! A first-fit allocator of index ranges over a fixed pool `[0, limit)`.
//!
//! The pool is kept as a list of maximal free runs in ascending order, so the
//! set of free indices alone decides what every operation does.

use std::ops::Range;
use vstd::prelude::*;

verus! {

/// Why a request for a range was refused.
#[derive(Debug, Clone, Copy, PartialEq, Eq)]
pub enum RangeAllocError {
    /// No run of free indices is long enough.
    Exhausted,
}

/// The indices `start, start + 1, .., start + len - 1`.
pub open spec fn span(start: int, len: int) -> Set<int> {
    Set::new(|k: int| start <= k < start + len)
}

/// Every index of the run of `len` indices from `start` is in `free`.
pub open spec fn fits(free: Set<int>, start: int, len: int) -> bool {
    forall|k: int| start <= k < start + len ==> free.contains(k)
}

/// Some run of `len` indices is free.
pub open spec fn can_fit(free: Set<int>, len: int) -> bool {
    exists|s: int| fits(free, s, len)
}

/// Where the lowest free run of `len` indices starts.
pub open spec fn first_fit(free: Set<int>, len: int) -> int {
    choose|s: int| fits(free, s, len) && forall|t: int| t < s ==> !fits(free, t, len)
}

/// The lowest start of a fitting run is the first fit.
pub proof fn lemma_first_fit(free: Set<int>, len: int, s: int)
    requires
        fits(free, s, len),
        forall|t: int| t < s ==> !fits(free, t, len),
    ensures
        can_fit(free, len),
        first_fit(free, len) == s,
{
    let f = first_fit(free, len);
    assert(fits(free, f, len) && forall|t: int| t < f ==> !fits(free, t, len));
    if f < s {
        assert(!fits(free, f, len));
    }
    if s < f {
        assert(!fits(free, s, len));
    }
}

spec fn covered(runs: Seq<(usize, usize)>, k: int) -> bool {
    exists|i: int| 0 <= i < runs.len() && (#[trigger] runs[i]).0 <= k < runs[i].1
}

spec fn runs_wf(runs: Seq<(usize, usize)>, limit: int) -> bool {
    &&& forall|i: int| 0 <= i < runs.len() ==> (#[trigger] runs[i]).0 < runs[i].1 <= limit
    &&& forall|i: int, j: int|
        0 <= i < j < runs.len() ==> (#[trigger] runs[i]).1 < (#[trigger] runs[j]).0
}

/// A run of covered indices lies inside a single free run.
proof fn lemma_fit_in_one_run(runs: Seq<(usize, usize)>, limit: int, s: int, len: int)
    requires
        runs_wf(runs, limit),
        len >= 1,
        forall|k: int| s <= k < s + len ==> covered(runs, k),
    ensures
        exists|j: int| 0 <= j < runs.len() && (#[trigger] runs[j]).0 <= s && s + len <= runs[j].1,
{
    assert(covered(runs, s));
    let j = choose|j: int| 0 <= j < runs.len() && (#[trigger] runs[j]).0 <= s < runs[j].1;
    if s + len > runs[j].1 {
        let e = runs[j].1 as int;
        assert(covered(runs, e));
        let j2 = choose|j2: int| 0 <= j2 < runs.len() && (#[trigger] runs[j2]).0 <= e < runs[j2].1;
        if j2 < j {
            assert(runs[j2].1 < runs[j].0);
        } else if j < j2 {
            assert(runs[j].1 < runs[j2].0);
        }
        assert(false);
    }
    assert(runs[j].0 <= s && s + len <= runs[j].1);
}

/// Where the returned run sits in the list once it is back.
spec fn join_hole(i: int, below: bool) -> int {
    if below {
        i - 1
    } else {
        i
    }
}

/// By how many entries the list shrinks when a run is returned.
spec fn join_shift(below: bool, above: bool) -> int {
    if below && above {
        1
    } else if below || above {
        0
    } else {
        -1
    }
}

/// `after` is `before` with the run `[lo, hi)` put in at position `i`, joined
/// to the run below it, the run above it, or both, as `below` and `above` say.
spec fn joined(
    before: Seq<(usize, usize)>,
    after: Seq<(usize, usize)>,
    lo: int,
    hi: int,
    i: int,
    below: bool,
    above: bool,
) -> bool {
    let hole = join_hole(i, below);
    let shift = join_shift(below, above);
    &&& after.len() == before.len() - shift
    &&& 0 <= hole < after.len()
    &&& forall|a: int|
        0 <= a < after.len() && a != hole ==> #[trigger] after[a] == before[if a < hole {
            a
        } else {
            a + shift
        }]
    &&& after[hole].0 == (if below {
        before[i - 1].0 as int
    } else {
        lo
    })
    &&& after[hole].1 == (if above {
        before[i].1 as int
    } else {
        hi
    })
}

spec fn join_ready(
    before: Seq<(usize, usize)>,
    limit: int,
    lo: int,
    hi: int,
    i: int,
    below: bool,
    above: bool,
) -> bool {
    &&& runs_wf(before, limit)
    &&& 0 <= lo < hi <= limit
    &&& 0 <= i <= before.len()
    &&& forall|j: int| 0 <= j < i ==> (#[trigger] before[j]).1 <= lo
    &&& forall|j: int| i <= j < before.len() ==> hi <= (#[trigger] before[j]).0
    &&& below == (i > 0 && before[i - 1].1 == lo)
    &&& above == (i < before.len() && before[i].0 == hi)
}

proof fn lemma_joined_wf(
    before: Seq<(usize, usize)>,
    after: Seq<(usize, usize)>,
    limit: int,
    lo: int,
    hi: int,
    i: int,
    below: bool,
    above: bool,
)
    requires
        join_ready(before, limit, lo, hi, i, below, above),
        joined(before, after, lo, hi, i, below, above),
    ensures
        runs_wf(after, limit),
{
    let hole = join_hole(i, below);
    let shift = join_shift(below, above);
    assert forall|a: int| 0 <= a < after.len() implies (#[trigger] after[a]).0 < after[a].1
        <= limit by {
        if a != hole {
            let oa = if a < hole { a } else { a + shift };
            assert(after[a] == before[oa]);
            assert(before[oa].0 < before[oa].1 <= limit);
        } else {
            if below {
                assert(before[i - 1].0 < before[i - 1].1);
            }
            if above {
                assert(before[i].0 < before[i].1 <= limit);
            }
        }
    }
    assert forall|a: int, b: int| 0 <= a < b < after.len() implies (#[trigger] after[a]).1 < (
    #[trigger] after[b]).0 by {
        let oa = if a < hole { a } else { a + shift };
        let ob = if b < hole { b } else { b + shift };
        if a != hole && b != hole {
            assert(after[a] == before[oa]);
            assert(after[b] == before[ob]);
            assert(before[oa].1 < before[ob].0);
        } else if a == hole {
            assert(after[b] == before[ob]);
            assert(i <= ob < before.len());
            if above {
                assert(before[i].1 < before[ob].0);
            } else {
                assert(hi <= before[ob].0);
            }
        } else {
            assert(after[a] == before[oa]);
            assert(0 <= oa < i);
            if below {
                assert(before[oa].1 < before[i - 1].0);
            } else {
                assert(before[oa].1 <= lo);
            }
        }
    }
}

proof fn lemma_joined_covers(
    before: Seq<(usize, usize)>,
    after: Seq<(usize, usize)>,
    limit: int,
    lo: int,
    hi: int,
    i: int,
    below: bool,
    above: bool,
)
    requires
        join_ready(before, limit, lo, hi, i, below, above),
        joined(before, after, lo, hi, i, below, above),
    ensures
        forall|k: int| covered(after, k) == (covered(before, k) || lo <= k < hi),
{
    let hole = join_hole(i, below);
    let shift = join_shift(below, above);
    assert forall|k: int| covered(after, k) == (covered(before, k) || lo <= k < hi) by {
        let given = lo <= k < hi;
        if covered(after, k) {
            let a = choose|a: int| 0 <= a < after.len() && (#[trigger] after[a]).0 <= k < after[a].1;
            if a != hole {
                let oa = if a < hole { a } else { a + shift };
                assert(after[a] == before[oa]);
                assert(before[oa].0 <= k < before[oa].1);
            } else if !given {
                if k < lo {
                    assert(before[i - 1].0 <= k < before[i - 1].1);
                } else {
                    assert(before[i].0 <= k < before[i].1);
                }
            }
            assert(covered(before, k) || given);
        }
        if covered(before, k) {
            let b = choose|b: int|
                0 <= b < before.len() && (#[trigger] before[b]).0 <= k < before[b].1;
            if (below && b == i - 1) || (above && b == i) {
                assert(after[hole].0 <= k < after[hole].1);
            } else {
                let a = if b < hole { b } else { b - shift };
                assert(0 <= a < after.len() && a != hole);
                assert(after[a] == before[b]);
                assert(after[a].0 <= k < after[a].1);
            }
            assert(covered(after, k));
        }
        if given {
            assert(after[hole].0 <= k < after[hole].1);
            assert(covered(after, k));
        }
    }
}

/// The allocator: the pool's size and its free runs.
#[derive(Debug, Clone)]
pub struct RangeAlloc {
    limit: usize,
    runs: Vec<(usize, usize)>,
}

impl View for RangeAlloc {
    type V = Set<int>;

    /// The free indices.
    closed spec fn view(&self) -> Set<int> {
        Set::new(|k: int| covered(self.runs@, k))
    }
}

impl RangeAlloc {
    /// The free runs are non-empty, inside the pool, ascending, and no two of
    /// them touch.
    pub closed spec fn wf(&self) -> bool {
        runs_wf(self.runs@, self.limit as int)
    }

    /// The size of the pool.
    pub closed spec fn limit(&self) -> nat {
        self.limit as nat
    }

    /// Free indices lie inside the pool.
    pub proof fn lemma_free_in_pool(&self)
        requires
            self.wf(),
        ensures
            forall|k: int| self@.contains(k) ==> 0 <= k < self.limit(),
            self.limit() <= usize::MAX,
    {
        assert forall|k: int| self@.contains(k) implies 0 <= k < self.limit() by {
            let i = choose|i: int|
                0 <= i < self.runs@.len() && (#[trigger] self.runs@[i]).0 <= k < self.runs@[i].1;
            assert(self.runs@[i].1 <= self.limit);
        }
    }

    /// An allocator whose whole pool `[0, limit)` is free.
    pub fn new(limit: usize) -> (r: Self)
        ensures
            r.wf(),
            r.limit() == limit,
            r@ == span(0, limit as int),
    {
        let mut runs: Vec<(usize, usize)> = Vec::new();
        if limit > 0 {
            runs.push((0, limit));
        }
        let r = RangeAlloc { limit, runs };
        proof {
            assert forall|k: int| r@.contains(k) == span(0, limit as int).contains(k) by {
                if 0 <= k < limit {
                    assert(r.runs@[0].0 <= k < r.runs@[0].1);
                }
            }
            assert(r@ =~= span(0, limit as int));
        }
        r
    }

    /// A second allocator with the same pool and the same free indices.
    pub fn duplicate(&self) -> (r: Self)
        requires
            self.wf(),
        ensures
            r.wf(),
            r.limit() == self.limit(),
            r@ == self@,
    {
        let mut runs: Vec<(usize, usize)> = Vec::new();
        let mut i: usize = 0;
        while i < self.runs.len()
            invariant
                i <= self.runs@.len(),
                runs@ == self.runs@.take(i as int),
            decreases self.runs@.len() - i,
        {
            runs.push(self.runs[i]);
            proof {
                assert(runs@ =~= self.runs@.take(i + 1));
            }
            i += 1;
        }
        proof {
            assert(runs@ =~= self.runs@);
        }
        RangeAlloc { limit: self.limit, runs }
    }

    /// Frees the whole pool again.
    pub fn reset(&mut self)
        ensures
            final(self).wf(),
            final(self).limit() == old(self).limit(),
            final(self)@ == span(0, old(self).limit() as int),
    {
        let limit: usize = self.limit;
        let mut runs: Vec<(usize, usize)> = Vec::new();
        if limit > 0 {
            runs.push((0, limit));
        }
        self.runs = runs;
        proof {
            assert forall|k: int| self@.contains(k) == span(0, limit as int).contains(k) by {
                if 0 <= k < limit {
                    assert(self.runs@[0].0 <= k < self.runs@[0].1);
                }
            }
            assert(self@ =~= span(0, limit as int));
        }
    }

    /// Takes the lowest run of `len` free indices out of the pool.
    ///
    /// Fails exactly when no `len` consecutive indices are free, and leaves
    /// the pool as it was in that event.
    pub fn allocate(&mut self, len: usize) -> (r: Result<Range<usize>, RangeAllocError>)
        requires
            old(self).wf(),
            len >= 1,
        ensures
            final(self).wf(),
            final(self).limit() == old(self).limit(),
            r is Ok <==> can_fit(old(self)@, len as int),
            match r {
                Ok(range) => {
                    &&& range.end - range.start == len
                    &&& range.end <= old(self).limit()
                    &&& range.start == first_fit(old(self)@, len as int)
                    &&& fits(old(self)@, range.start as int, len as int)
                    &&& forall|s: int| s < range.start ==> !fits(old(self)@, s, len as int)
                    &&& final(self)@ == old(self)@.difference(span(range.start as int, len as int))
                },
                Err(_) => {
                    &&& forall|s: int| !fits(old(self)@, s, len as int)
                    &&& final(self)@ == old(self)@
                },
            },
    {
        let n: usize = self.runs.len();
        let mut i: usize = 0;
        while i < n
            invariant
                i <= n,
                n == self.runs@.len(),
                self.runs@ == old(self).runs@,
                self.limit == old(self).limit,
                runs_wf(self.runs@, self.limit as int),
                len >= 1,
                forall|j: int| 0 <= j < i ==> (#[trigger] self.runs@[j]).1 - self.runs@[j].0 < len,
            decreases n - i,
        {
            let run = self.runs[i];
            let start: usize = run.0;
            let end: usize = run.1;
            if end - start >= len {
                let ghost before = self.runs@;
                if end - start == len {
                    self.runs.remove(i);
                } else {
                    self.runs.set(i, (start + len, end));
                }
                proof {
                    let after = self.runs@;
                    let exact = (end - start == len);
                    assert(runs_wf(after, self.limit as int)) by {
                        if exact {
                            assert forall|a: int| 0 <= a < after.len() implies (#[trigger] after[a]).0
                                < after[a].1 <= self.limit by {
                                if a < i {
                                    assert(after[a] == before[a]);
                                } else {
                                    assert(after[a] == before[a + 1]);
                                }
                            }
                            assert forall|a: int, b: int| 0 <= a < b < after.len() implies (
                            #[trigger] after[a]).1 < (#[trigger] after[b]).0 by {
                                let oa = if a < i { a } else { a + 1 };
                                let ob = if b < i { b } else { b + 1 };
                                assert(after[a] == before[oa]);
                                assert(after[b] == before[ob]);
                            }
                        } else {
                            assert forall|a: int, b: int| 0 <= a < b < after.len() implies (
                            #[trigger] after[a]).1 < (#[trigger] after[b]).0 by {
                                assert(before[a].1 < before[b].0);
                            }
                        }
                    }
                    assert forall|k: int| start <= k < start + len implies old(self)@.contains(k) by {
                        assert(before[i as int].0 <= k < before[i as int].1);
                    }
                    assert forall|s: int| s < start implies !fits(old(self)@, s, len as int) by {
                        if fits(old(self)@, s, len as int) {
                            assert forall|k: int| s <= k < s + len implies covered(before, k) by {
                                assert(old(self)@.contains(k));
                            }
                            lemma_fit_in_one_run(before, self.limit as int, s, len as int);
                            let j = choose|j: int|
                                0 <= j < before.len() && (#[trigger] before[j]).0 <= s && s + len
                                    <= before[j].1;
                            if j > i {
                                assert(before[i as int].1 < before[j].0);
                            }
                            assert(false);
                        }
                    }
                    assert forall|k: int| self@.contains(k) == old(self)@.difference(
                        span(start as int, len as int),
                    ).contains(k) by {
                        let taken = start <= k < start + len;
                        if covered(after, k) {
                            let a = choose|a: int|
                                0 <= a < after.len() && (#[trigger] after[a]).0 <= k < after[a].1;
                            if exact {
                                let oa = if a < i { a } else { a + 1 };
                                assert(after[a] == before[oa]);
                                assert(before[oa].0 <= k < before[oa].1);
                                if oa < i {
                                    assert(before[oa].1 < before[i as int].0);
                                } else {
                                    assert(before[i as int].1 < before[oa].0);
                                }
                            } else {
                                if a == i {
                                    assert(before[a].0 <= k < before[a].1);
                                } else {
                                    assert(after[a] == before[a]);
                                    assert(before[a].0 <= k < before[a].1);
                                    if a < i {
                                        assert(before[a].1 < before[i as int].0);
                                    } else {
                                        assert(before[i as int].1 < before[a].0);
                                    }
                                }
                            }
                            assert(covered(before, k) && !taken);
                        }
                        if covered(before, k) && !taken {
                            let b = choose|b: int|
                                0 <= b < before.len() && (#[trigger] before[b]).0 <= k < before[b].1;
                            if exact {
                                assert(b != i);
                                let a = if b < i { b } else { b - 1 };
                                assert(after[a] == before[b]);
                                assert(after[a].0 <= k < after[a].1);
                            } else {
                                if b == i {
                                    assert(after[b].0 <= k < after[b].1);
                                } else {
                                    assert(after[b] == before[b]);
                                    assert(after[b].0 <= k < after[b].1);
                                }
                            }
                            assert(covered(after, k));
                        }
                    }
                    assert(self@ =~= old(self)@.difference(span(start as int, len as int)));
                    lemma_first_fit(old(self)@, len as int, start as int);
                }
                return Ok(Range { start, end: start + len });
            }
            i += 1;
        }
        proof {
            assert forall|s: int| !fits(old(self)@, s, len as int) by {
                if fits(old(self)@, s, len as int) {
                    assert forall|k: int| s <= k < s + len implies covered(self.runs@, k) by {
                        assert(old(self)@.contains(k));
                    }
                    lemma_fit_in_one_run(self.runs@, self.limit as int, s, len as int);
                    assert(false);
                }
            }
        }
        Err(RangeAllocError::Exhausted)
    }

    /// Puts `range` back into the pool, joining it to the free runs beside it.
    pub fn deallocate(&mut self, range: Range<usize>)
        requires
            old(self).wf(),
            range.start < range.end <= old(self).limit(),
            forall|k: int| range.start <= k < range.end ==> !old(self)@.contains(k),
        ensures
            final(self).wf(),
            final(self).limit() == old(self).limit(),
            final(self)@ == old(self)@.union(span(range.start as int, range.end - range.start)),
    {
        let lo: usize = range.start;
        let hi: usize = range.end;
        let n: usize = self.runs.len();
        let mut i: usize = 0;
        while i < n && self.runs[i].0 < lo
            invariant
                i <= n,
                n == self.runs@.len(),
                self.runs@ == old(self).runs@,
                self.limit == old(self).limit,
                forall|j: int| 0 <= j < i ==> (#[trigger] self.runs@[j]).0 < lo,
            decreases n - i,
        {
            i += 1;
        }
        let ghost before = self.runs@;
        proof {
            // The runs below `i` end at or before `lo`, the others begin at or after `hi`.
            assert forall|j: int| 0 <= j < i implies (#[trigger] before[j]).1 <= lo by {
                if before[j].1 > lo {
                    assert(before[j].0 <= lo < before[j].1);
                    assert(covered(before, lo as int));
                    assert(old(self)@.contains(lo as int));
                }
            }
            assert forall|j: int| i <= j < n implies hi <= (#[trigger] before[j]).0 by {
                assert(before[i as int].0 >= lo);
                if j > i {
                    assert(before[i as int].1 < before[j].0);
                }
                if before[j].0 < hi {
                    let k = before[j].0 as int;
                    assert(before[j].0 <= k < before[j].1);
                    assert(covered(before, k));
                    assert(old(self)@.contains(k));
                }
            }
        }
        let joins_below: bool = i > 0 && self.runs[i - 1].1 == lo;
        let joins_above: bool = i < n && self.runs[i].0 == hi;
        assert(join_ready(before, self.limit as int, lo as int, hi as int, i as int, joins_below, joins_above));
        if joins_below && joins_above {
            let below = self.runs[i - 1];
            let above = self.runs[i];
            self.runs.set(i - 1, (below.0, above.1));
            self.runs.remove(i);
            assert(joined(before, self.runs@, lo as int, hi as int, i as int, joins_below, joins_above));
        } else if joins_below {
            let below = self.runs[i - 1];
            self.runs.set(i - 1, (below.0, hi));
            assert(joined(before, self.runs@, lo as int, hi as int, i as int, joins_below, joins_above));
        } else if joins_above {
            let above = self.runs[i];
            self.runs.set(i, (lo, above.1));
            assert(joined(before, self.runs@, lo as int, hi as int, i as int, joins_below, joins_above));
        } else {
            self.runs.insert(i, (lo, hi));
            assert(joined(before, self.runs@, lo as int, hi as int, i as int, joins_below, joins_above));
        }
        proof {
            let after = self.runs@;
            lemma_joined_wf(before, after, self.limit as int, lo as int, hi as int, i as int, joins_below, joins_above);
            lemma_joined_covers(before, after, self.limit as int, lo as int, hi as int, i as int, joins_below, joins_above);
            assert forall|k: int| self@.contains(k) == old(self)@.union(
                span(lo as int, hi - lo),
            ).contains(k) by {
                assert(covered(after, k) == (covered(before, k) || lo <= k < hi));
            }
            assert(self@ =~= old(self)@.union(span(lo as int, hi - lo)));
        }
    }
}

} // verus!
