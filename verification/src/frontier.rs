//! The frontier tracker: an ascending, duplicate-free vector of cell
//! indices due for evaluation on the next step, with a batch merge that
//! keeps it sorted via a single backward cursor walk.

use vstd::prelude::*;

use crate::grid::lemma_push_contains;
use crate::model::strictly_increasing;

verus! {

/// Insert `c` into the ascending duplicate-free vector `v`, keeping it
/// ascending and duplicate-free; inserting a present value is a no-op.
fn insert_sorted(v: &mut Vec<u32>, c: u32)
    requires
        strictly_increasing(old(v)@),
    ensures
        strictly_increasing(final(v)@),
        forall|x: u32| final(v)@.contains(x) <==> (old(v)@.contains(x) || x == c),
{
    let mut p: usize = 0;
    while p < v.len() && v[p] < c
        invariant
            strictly_increasing(v@),
            v@ == old(v)@,
            p <= v@.len(),
            forall|m: int| 0 <= m < p ==> v@[m] < c,
        decreases v@.len() - p,
    {
        p += 1;
    }
    if p == v.len() {
        let ghost prev = v@;
        v.push(c);
        proof {
            assert forall|x: u32| v@.contains(x) <==> (prev.contains(x) || x == c) by {
                lemma_push_contains(prev, c, x);
            }
        }
    } else if v[p] > c {
        let ghost prev = v@;
        v.insert(p, c);
        proof {
            assert(v@ == prev.insert(p as int, c));
            assert forall|x: u32| v@.contains(x) implies (prev.contains(x) || x == c) by {
                let m = choose|m: int| 0 <= m < v@.len() && v@[m] == x;
                if m < p {
                    assert(prev[m] == x);
                } else if m > p {
                    assert(prev[m - 1] == x);
                }
            }
            assert forall|x: u32| (prev.contains(x) || x == c) implies v@.contains(x) by {
                if prev.contains(x) {
                    let m = choose|m: int| 0 <= m < prev.len() && prev[m] == x;
                    if m < p {
                        assert(v@[m] == x);
                    } else {
                        assert(v@[m + 1] == x);
                    }
                } else {
                    assert(v@[p as int] == x);
                }
            }
        }
    } else {
        // `v[p] == c`: already present.
        proof {
            assert(v@.contains(c));
        }
    }
}

/// Sort a batch of indices ascending and drop duplicates.
fn sort_dedup(cells: &Vec<u32>) -> (r: Vec<u32>)
    ensures
        strictly_increasing(r@),
        forall|x: u32| r@.contains(x) <==> cells@.contains(x),
{
    let mut r: Vec<u32> = Vec::new();
    let mut i: usize = 0;
    while i < cells.len()
        invariant
            i <= cells@.len(),
            strictly_increasing(r@),
            forall|x: u32| r@.contains(x) <==> cells@.take(i as int).contains(x),
        decreases cells@.len() - i,
    {
        let ghost prev = r@;
        insert_sorted(&mut r, cells[i]);
        proof {
            assert(cells@.take(i + 1) =~= cells@.take(i as int).push(cells@[i as int]));
            assert forall|x: u32|
                r@.contains(x) <==> cells@.take(i + 1).contains(x) by {
                assert(r@.contains(x) <==> (prev.contains(x) || x == cells@[i as int]));
                assert(prev.contains(x) <==> cells@.take(i as int).contains(x));
                lemma_push_contains(cells@.take(i as int), cells@[i as int], x);
            }
        }
        i += 1;
    }
    proof {
        assert(cells@.take(cells@.len() as int) =~= cells@);
    }
    r
}

/// `x` occurs in `s` at or after position `from`.
pub open spec fn in_suffix(s: Seq<u32>, from: int, x: u32) -> bool {
    exists|m: int| from <= m < s.len() && s[m] == x
}

/// The deduplicated, ascending set of cell indices scheduled for
/// evaluation on the next step.
pub struct Frontier {
    pub items: Vec<u32>,
}

impl Frontier {
    pub open spec fn wf(self) -> bool {
        strictly_increasing(self.items@)
    }

    pub open spec fn has(self, x: u32) -> bool {
        self.items@.contains(x)
    }

    pub fn empty() -> (r: Frontier)
        ensures
            r.wf(),
            r.items@.len() == 0,
    {
        Frontier { items: Vec::new() }
    }

    /// Hand off the current member list and leave the tracker empty.
    pub fn drain(&mut self) -> (r: Vec<u32>)
        ensures
            r@ == old(self).items@,
            final(self).items@.len() == 0,
            final(self).wf(),
    {
        let mut v: Vec<u32> = Vec::new();
        core::mem::swap(&mut self.items, &mut v);
        v
    }

    /// Merge a batch of candidate indices (any order, duplicates allowed)
    /// into the frontier. The frontier stays ascending and duplicate-free;
    /// afterwards it holds exactly the old members plus the batch.
    ///
    /// When the frontier is non-empty the batch is sorted ascending and
    /// walked in descending order against a backward cursor over the
    /// existing members, so both are traversed once per merge. A candidate
    /// equal to an existing member is skipped, never inserted twice.
    pub fn merge(&mut self, cells: Vec<u32>)
        requires
            old(self).wf(),
        ensures
            final(self).wf(),
            forall|x: u32|
                final(self).has(x) <==> (old(self).has(x) || cells@.contains(x)),
    {
        if self.items.len() == 0 {
            // Empty tracker: adopt the batch outright, deduplicated.
            self.items = sort_dedup(&cells);
            return ;
        }
        let cands = sort_dedup(&cells);
        let ghost orig = self.items@;
        let mut ptr: usize = self.items.len() - 1;
        let mut idx: usize = cands.len();
        while idx > 0
            invariant
                strictly_increasing(self.items@),
                strictly_increasing(cands@),
                self.items@.len() > 0,
                ptr < self.items@.len(),
                idx <= cands@.len(),
                forall|x: u32|
                    #[trigger] self.items@.contains(x) <==> (orig.contains(x) || in_suffix(
                        cands@,
                        idx as int,
                        x,
                    )),
                forall|m: int|
                    ptr < m < self.items@.len() && idx > 0 ==> cands@[idx - 1]
                        < #[trigger] self.items@[m],
            decreases idx,
        {
            idx -= 1;
            let c = cands[idx];
            while c < self.items[ptr] && ptr > 0
                invariant
                    strictly_increasing(self.items@),
                    self.items@.len() > 0,
                    ptr < self.items@.len(),
                    idx < cands@.len(),
                    c == cands@[idx as int],
                    forall|m: int|
                        ptr < m < self.items@.len() ==> c < #[trigger] self.items@[m],
                decreases ptr,
            {
                ptr -= 1;
            }
            let ghost before = self.items@;
            let cur_len = self.items.len();
            if c > self.items[ptr] {
                // All members up to `ptr` are smaller, all past it larger:
                // `c` is new; it belongs right after the cursor.
                proof {
                    assert(ptr < cur_len);
                }
                self.items.insert(ptr + 1, c);
                proof {
                    assert(self.items@ == before.insert(ptr + 1, c));
                    lemma_insert_contains(before, ptr + 1, c);
                    assert forall|a: int, b: int|
                        0 <= a < b < self.items@.len() implies self.items@[a]
                        < self.items@[b] by {
                        if a == ptr + 1 {
                            assert(self.items@[b] == before[b - 1]);
                        } else if b == ptr + 1 {
                            assert(self.items@[a] == before[a]);
                        } else if a < ptr + 1 && b > ptr + 1 {
                            assert(self.items@[a] == before[a]);
                            assert(self.items@[b] == before[b - 1]);
                        }
                    }
                }
            } else if c < self.items[ptr] {
                // The cursor is at the start: `c` is smaller than every
                // member, so it becomes the new head.
                self.items.insert(ptr, c);
                proof {
                    assert(ptr == 0);
                    assert(self.items@ == before.insert(0, c));
                    lemma_insert_contains(before, 0, c);
                    assert forall|a: int, b: int|
                        0 <= a < b < self.items@.len() implies self.items@[a]
                        < self.items@[b] by {
                        if a > 0 {
                            assert(self.items@[a] == before[a - 1]);
                        }
                        assert(self.items@[b] == before[b - 1]);
                    }
                }
            } else {
                // `c` is already a member: deduplication skips it.
                proof {
                    assert(self.items@.contains(c));
                }
            }
            proof {
                assert forall|x: u32|
                    #[trigger] self.items@.contains(x) <==> (orig.contains(x) || in_suffix(
                        cands@,
                        idx as int,
                        x,
                    )) by {
                    assert(self.items@.contains(x) <==> (before.contains(x) || x == c));
                    assert(before.contains(x) <==> (orig.contains(x) || in_suffix(
                        cands@,
                        idx + 1,
                        x,
                    )));
                    if in_suffix(cands@, idx + 1, x) {
                        let m = choose|m: int| idx + 1 <= m < cands@.len() && cands@[m] == x;
                        assert(idx <= m < cands@.len() && cands@[m] == x);
                        assert(in_suffix(cands@, idx as int, x));
                    }
                    if x == c {
                        assert(cands@[idx as int] == x);
                        assert(in_suffix(cands@, idx as int, x));
                    }
                    if in_suffix(cands@, idx as int, x) {
                        let m = choose|m: int| idx <= m < cands@.len() && cands@[m] == x;
                        if m > idx {
                            assert(idx + 1 <= m < cands@.len() && cands@[m] == x);
                            assert(in_suffix(cands@, idx + 1, x));
                        } else {
                            assert(x == c);
                        }
                    }
                }
                assert forall|m: int|
                    ptr < m < self.items@.len() && idx > 0 implies cands@[idx - 1]
                        < self.items@[m] by {
                    assert(cands@[idx - 1] < cands@[idx as int]);
                }
            }
        }
        proof {
            assert forall|x: u32|
                self.items@.contains(x) <==> (orig.contains(x) || cells@.contains(x)) by {
                assert(self.items@.contains(x) <==> (orig.contains(x) || in_suffix(
                    cands@,
                    0,
                    x,
                )));
                if cells@.contains(x) {
                    assert(cands@.contains(x));
                    let m = choose|m: int| 0 <= m < cands@.len() && cands@[m] == x;
                    assert(0 <= m < cands@.len() && cands@[m] == x);
                    assert(in_suffix(cands@, 0, x));
                }
                if in_suffix(cands@, 0, x) {
                    let m = choose|m: int| 0 <= m < cands@.len() && cands@[m] == x;
                    assert(cands@[m] == x);
                    assert(cands@.contains(x));
                }
            }
        }
    }
}

/// Inserting an element extends sequence membership by exactly that element.
proof fn lemma_insert_contains(s: Seq<u32>, p: int, c: u32)
    requires
        0 <= p <= s.len(),
    ensures
        forall|x: u32| s.insert(p, c).contains(x) <==> (s.contains(x) || x == c),
{
    let t = s.insert(p, c);
    assert forall|x: u32| t.contains(x) implies (s.contains(x) || x == c) by {
        let m = choose|m: int| 0 <= m < t.len() && t[m] == x;
        if m < p {
            assert(s[m] == x);
        } else if m > p {
            assert(s[m - 1] == x);
        }
    }
    assert forall|x: u32| (s.contains(x) || x == c) implies t.contains(x) by {
        if s.contains(x) {
            let m = choose|m: int| 0 <= m < s.len() && s[m] == x;
            if m < p {
                assert(t[m] == x);
            } else {
                assert(t[m + 1] == x);
            }
        } else {
            assert(t[p] == x);
        }
    }
}

} // verus!
