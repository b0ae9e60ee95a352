//! Watch-mode decisions: debouncing filesystem change bursts.
//!
//! The watch loop itself (awaiting events, sleeping, cancellation) is plain
//! I/O and lives outside the library. What is decided here: a burst of
//! change events on one file collapses into a single pending entry whose
//! deadline is pushed out by the debounce interval, and a re-index pass
//! takes exactly the entries whose deadline has arrived.

use vstd::prelude::*;

use crate::order::bytes_equal;
use crate::sync::contains_path;

verus! {

/// One file awaiting its debounce deadline.
pub struct PendingEntry {
    pub path: Vec<u8>,
    pub deadline: u64,
}

/// Mathematical value of a `PendingEntry`.
pub ghost struct PendingModel {
    pub path: Seq<u8>,
    pub deadline: u64,
}

impl View for PendingEntry {
    type V = PendingModel;

    open spec fn view(&self) -> PendingModel {
        PendingModel { path: self.path@, deadline: self.deadline }
    }
}

/// Some entry of `s` is for path `p`.
pub open spec fn has_pending(s: Seq<PendingModel>, p: Seq<u8>) -> bool {
    exists|i: int| 0 <= i < s.len() && (#[trigger] s[i]).path == p
}

/// The entry of `s` for path `p` (meaningful when `has_pending`).
pub open spec fn pending_at(s: Seq<PendingModel>, p: Seq<u8>) -> PendingModel {
    s[choose|i: int| 0 <= i < s.len() && (#[trigger] s[i]).path == p]
}

/// Entries carry pairwise distinct paths.
pub open spec fn pending_unique(s: Seq<PendingModel>) -> bool {
    forall|i: int, j: int| 0 <= i < j < s.len() ==> (#[trigger] s[i]).path != (#[trigger] s[j]).path
}

/// Debounce state: pending files and the fixed debounce interval.
pub struct Debouncer {
    /// Debounce interval, in the caller's time unit.
    pub interval: u64,
    pub pending: Vec<PendingEntry>,
}

impl Debouncer {
    /// The debouncer's invariant: one entry per file.
    pub open spec fn wf(&self) -> bool {
        pending_unique(self.pending@.map_values(|e: PendingEntry| e@))
    }

    /// Entries, as mathematical values.
    pub open spec fn model(&self) -> Seq<PendingModel> {
        self.pending@.map_values(|e: PendingEntry| e@)
    }

    /// A debouncer with nothing pending.
    pub fn new(interval: u64) -> (d: Self)
        ensures
            d.wf(),
            d.interval == interval,
            d.model() == Seq::<PendingModel>::empty(),
    {
        let d = Debouncer { interval, pending: Vec::new() };
        proof {
            assert(d.model() =~= Seq::<PendingModel>::empty());
        }
        d
    }

    /// How many files are pending.
    pub fn pending_count(&self) -> (n: usize)
        ensures
            n == self.model().len(),
    {
        self.pending.len()
    }

    /// A change event on `path` at time `now`: the file's single pending
    /// entry gets deadline `now + interval` (saturating); a burst of events
    /// on one file keeps collapsing into that one entry.
    pub fn record(&mut self, path: &[u8], now: u64)
        requires
            old(self).wf(),
        ensures
            final(self).wf(),
            final(self).interval == old(self).interval,
            has_pending(final(self).model(), path@),
            pending_at(final(self).model(), path@).deadline == (
            if now + old(self).interval > u64::MAX {
                u64::MAX
            } else {
                (now + old(self).interval) as u64
            }),
            forall|q: Seq<u8>|
                q != path@ ==> #[trigger] has_pending(final(self).model(), q) == has_pending(
                    old(self).model(),
                    q,
                ),
            forall|q: Seq<u8>|
                q != path@ && has_pending(old(self).model(), q) ==> #[trigger] pending_at(
                    final(self).model(),
                    q,
                ) == pending_at(old(self).model(), q),
            final(self).model().len() == old(self).model().len() + (
            if has_pending(old(self).model(), path@) {
                0int
            } else {
                1int
            }),
    {
        let ghost oldm = self.model();
        let deadline: u64 = match now.checked_add(self.interval) {
            Some(d) => d,
            None => u64::MAX,
        };
        proof {
            assert(deadline == (if now + self.interval > u64::MAX {
                u64::MAX
            } else {
                (now + self.interval) as u64
            }));
        }
        let mut i: usize = 0;
        while i < self.pending.len()
            invariant
                i <= self.pending@.len(),
                old(self).wf(),
                oldm == old(self).model(),
                oldm == self.model(),
                self.interval == old(self).interval,
                deadline == (if now + old(self).interval > u64::MAX {
                    u64::MAX
                } else {
                    (now + old(self).interval) as u64
                }),
                forall|k: int| 0 <= k < i ==> (#[trigger] oldm[k]).path != path@,
            decreases self.pending@.len() - i,
        {
            let same = bytes_equal(self.pending[i].path.as_slice(), path);
            if same {
                self.pending[i] = PendingEntry {
                    path: vstd::slice::slice_to_vec(path),
                    deadline,
                };
                proof {
                    let newm = self.model();
                    assert(newm =~= oldm.update(i as int, newm[i as int]));
                    assert(newm[i as int].path == path@);
                    assert(pending_unique(newm)) by {
                        assert forall|a: int, b: int|
                            0 <= a < b < newm.len() implies (#[trigger] newm[a]).path != (
                        #[trigger] newm[b]).path by {
                            assert(oldm[a].path != oldm[b].path);
                            assert(oldm[i as int].path == path@);
                        }
                    }
                    assert(has_pending(oldm, path@)) by {
                        assert(oldm[i as int].path == path@);
                    }
                    assert(pending_at(newm, path@) == newm[i as int]) by {
                        let w = choose|k: int|
                            0 <= k < newm.len() && (#[trigger] newm[k]).path == path@;
                        if w < i as int {
                            assert(oldm[w].path != oldm[i as int].path);
                        }
                        if (i as int) < w {
                            assert(oldm[i as int].path != oldm[w].path);
                        }
                    }
                    assert forall|q: Seq<u8>| q != path@ implies #[trigger] has_pending(newm, q)
                        == has_pending(oldm, q) by {
                        if has_pending(newm, q) {
                            let w = choose|k: int|
                                0 <= k < newm.len() && (#[trigger] newm[k]).path == q;
                            assert(w != i as int);
                            assert(oldm[w].path == q);
                        }
                        if has_pending(oldm, q) {
                            let w = choose|k: int|
                                0 <= k < oldm.len() && (#[trigger] oldm[k]).path == q;
                            assert(w != i as int);
                            assert(newm[w].path == q);
                        }
                    }
                    assert forall|q: Seq<u8>|
                        q != path@ && has_pending(oldm, q) implies #[trigger] pending_at(newm, q)
                        == pending_at(oldm, q) by {
                        assert(has_pending(newm, q));
                        let w1 = choose|k: int|
                            0 <= k < newm.len() && (#[trigger] newm[k]).path == q;
                        let w2 = choose|k: int|
                            0 <= k < oldm.len() && (#[trigger] oldm[k]).path == q;
                        assert(w1 != i as int);
                        assert(oldm[w1].path == q);
                        if w1 < w2 {
                            assert(oldm[w1].path != oldm[w2].path);
                        }
                        if w2 < w1 {
                            assert(oldm[w2].path != oldm[w1].path);
                        }
                    }
                }
                return ;
            }
            i = i + 1;
        }
        proof {
            assert(!has_pending(oldm, path@));
        }
        self.pending.push(PendingEntry { path: vstd::slice::slice_to_vec(path), deadline });
        proof {
            let newm = self.model();
            let last = newm.len() - 1;
            assert(newm =~= oldm.push(newm[last]));
            assert(newm[last].path == path@);
            assert(pending_unique(newm)) by {
                assert forall|a: int, b: int|
                    0 <= a < b < newm.len() implies (#[trigger] newm[a]).path != (
                #[trigger] newm[b]).path by {
                    if b < last {
                        assert(oldm[a].path != oldm[b].path);
                    } else {
                        assert(newm[a] == oldm[a]);
                        assert(oldm[a].path != path@);
                    }
                }
            }
            assert(pending_at(newm, path@) == newm[last]) by {
                let w = choose|k: int| 0 <= k < newm.len() && (#[trigger] newm[k]).path == path@;
                if w < last {
                    assert(oldm[w].path != path@);
                }
            }
            assert forall|q: Seq<u8>| q != path@ implies #[trigger] has_pending(newm, q)
                == has_pending(oldm, q) by {
                if has_pending(newm, q) {
                    let w = choose|k: int| 0 <= k < newm.len() && (#[trigger] newm[k]).path == q;
                    assert(w != last);
                    assert(oldm[w].path == q);
                }
                if has_pending(oldm, q) {
                    let w = choose|k: int| 0 <= k < oldm.len() && (#[trigger] oldm[k]).path == q;
                    assert(newm[w].path == q);
                }
            }
            assert forall|q: Seq<u8>|
                q != path@ && has_pending(oldm, q) implies #[trigger] pending_at(newm, q)
                == pending_at(oldm, q) by {
                assert(has_pending(newm, q));
                let w1 = choose|k: int| 0 <= k < newm.len() && (#[trigger] newm[k]).path == q;
                let w2 = choose|k: int| 0 <= k < oldm.len() && (#[trigger] oldm[k]).path == q;
                assert(w1 != last);
                assert(oldm[w1].path == q);
                if w1 < w2 {
                    assert(oldm[w1].path != oldm[w2].path);
                }
                if w2 < w1 {
                    assert(oldm[w2].path != oldm[w1].path);
                }
            }
        }
    }

    /// Take the files whose debounce deadline has arrived: exactly those
    /// with `deadline <= now` leave the pending set and are returned; the
    /// rest stay untouched.
    #[verifier::rlimit(100)]
    pub fn take_due(&mut self, now: u64) -> (due: Vec<Vec<u8>>)
        requires
            old(self).wf(),
        ensures
            final(self).wf(),
            final(self).interval == old(self).interval,
            forall|q: Seq<u8>|
                #[trigger] has_pending(final(self).model(), q) <==> (has_pending(
                    old(self).model(),
                    q,
                ) && pending_at(old(self).model(), q).deadline > now),
            forall|q: Seq<u8>|
                has_pending(final(self).model(), q) ==> #[trigger] pending_at(
                    final(self).model(),
                    q,
                ) == pending_at(old(self).model(), q),
            forall|q: Seq<u8>|
                #[trigger] contains_path(due@, q) <==> (has_pending(old(self).model(), q)
                    && pending_at(old(self).model(), q).deadline <= now),
    {
        let ghost oldm = self.model();
        let mut due: Vec<Vec<u8>> = Vec::new();
        let mut i: usize = 0;
        while i < self.pending.len()
            invariant
                i <= self.pending@.len(),
                old(self).wf(),
                oldm == old(self).model(),
                self.interval == old(self).interval,
                pending_unique(self.model()),
                forall|k: int| 0 <= k < i ==> (#[trigger] self.model()[k]).deadline > now,
                forall|q: Seq<u8>|
                    #[trigger] has_pending(self.model(), q) ==> has_pending(oldm, q)
                        && pending_at(oldm, q) == pending_at(self.model(), q),
                forall|q: Seq<u8>|
                    #[trigger] has_pending(oldm, q) ==> has_pending(self.model(), q)
                        || contains_path(due@, q),
                forall|q: Seq<u8>|
                    #[trigger] contains_path(due@, q) ==> has_pending(oldm, q) && pending_at(
                        oldm,
                        q,
                    ).deadline <= now,
                forall|q: Seq<u8>|
                    #[trigger] has_pending(self.model(), q) && contains_path(due@, q) ==> false,
            decreases self.pending@.len() - i,
        {
            let ghost curm = self.model();
            let d = self.pending[i].deadline;
            if d <= now {
                proof {
                    assert(curm[i as int].deadline <= now);
                    assert(has_pending(curm, curm[i as int].path)) by {
                        assert(curm[i as int].path == curm[i as int].path);
                    }
                }
                let entry = self.pending.remove(i);
                let ghost removed = curm[i as int];
                let ghost olddue = due@;
                due.push(entry.path);
                proof {
                    let newm = self.model();
                    assert(newm.len() == curm.len() - 1);
                    assert forall|k: int| 0 <= k < newm.len() implies #[trigger] newm[k] == (
                    if k < i {
                        curm[k]
                    } else {
                        curm[k + 1]
                    }) by {}
                    assert(pending_unique(newm)) by {
                        assert forall|a: int, b: int|
                            0 <= a < b < newm.len() implies (#[trigger] newm[a]).path != (
                        #[trigger] newm[b]).path by {
                            let a2: int = if a < i {
                                a
                            } else {
                                a + 1
                            };
                            let b2: int = if b < i {
                                b
                            } else {
                                b + 1
                            };
                            assert(curm[a2].path != curm[b2].path);
                        }
                    }
                    assert(contains_path(due@, removed.path)) by {
                        assert((due@[olddue.len() as int])@ == removed.path);
                    }
                    assert(pending_at(oldm, removed.path) == removed) by {
                        assert(has_pending(curm, removed.path));
                        let w2 = choose|k: int|
                            0 <= k < oldm.len() && (#[trigger] oldm[k]).path == removed.path;
                        assert(pending_at(curm, removed.path) == curm[i as int]) by {
                            let w = choose|k: int|
                                0 <= k < curm.len() && (#[trigger] curm[k]).path == removed.path;
                            if w < i as int {
                                assert(curm[w].path != curm[i as int].path);
                            }
                            if (i as int) < w {
                                assert(curm[i as int].path != curm[w].path);
                            }
                        }
                    }
                    assert forall|q: Seq<u8>| #[trigger] has_pending(newm, q) implies has_pending(
                        oldm,
                        q,
                    ) && pending_at(oldm, q) == pending_at(newm, q) by {
                        let w = choose|k: int|
                            0 <= k < newm.len() && (#[trigger] newm[k]).path == q;
                        let w2: int = if w < i {
                            w
                        } else {
                            w + 1
                        };
                        assert(curm[w2].path == q);
                        assert(has_pending(curm, q));
                        assert(pending_at(newm, q) == newm[w]) by {
                            let u = choose|k: int|
                                0 <= k < newm.len() && (#[trigger] newm[k]).path == q;
                            let u2: int = if u < i {
                                u
                            } else {
                                u + 1
                            };
                            if u2 < w2 {
                                assert(curm[u2].path != curm[w2].path);
                            }
                            if w2 < u2 {
                                assert(curm[w2].path != curm[u2].path);
                            }
                        }
                        assert(pending_at(curm, q) == curm[w2]) by {
                            let u = choose|k: int|
                                0 <= k < curm.len() && (#[trigger] curm[k]).path == q;
                            if u < w2 {
                                assert(curm[u].path != curm[w2].path);
                            }
                            if w2 < u {
                                assert(curm[w2].path != curm[u].path);
                            }
                        }
                    }
                    assert forall|q: Seq<u8>| #[trigger] has_pending(oldm, q) implies has_pending(
                        newm,
                        q,
                    ) || contains_path(due@, q) by {
                        if has_pending(curm, q) {
                            let w = choose|k: int|
                                0 <= k < curm.len() && (#[trigger] curm[k]).path == q;
                            if w == i as int {
                                assert(q == removed.path);
                                assert(contains_path(due@, q));
                            } else if w < i as int {
                                assert(newm[w].path == q);
                            } else {
                                assert(newm[w - 1].path == q);
                            }
                        } else {
                            let w = choose|k: int|
                                0 <= k < olddue.len() && (#[trigger] olddue[k])@ == q;
                            assert((due@[w])@ == q);
                        }
                    }
                    assert forall|q: Seq<u8>| #[trigger] contains_path(due@, q) implies has_pending(
                        oldm,
                        q,
                    ) && pending_at(oldm, q).deadline <= now by {
                        let w = choose|k: int|
                            0 <= k < due@.len() && (#[trigger] due@[k])@ == q;
                        if w < olddue.len() {
                            assert((olddue[w])@ == q);
                            assert(contains_path(olddue, q));
                        } else {
                            assert(q == removed.path);
                        }
                    }
                    assert forall|q: Seq<u8>|
                        #[trigger] has_pending(newm, q) && contains_path(due@, q) implies false by {
                        let w = choose|k: int|
                            0 <= k < newm.len() && (#[trigger] newm[k]).path == q;
                        let w2: int = if w < i {
                            w
                        } else {
                            w + 1
                        };
                        assert(curm[w2].path == q);
                        let u = choose|k: int|
                            0 <= k < due@.len() && (#[trigger] due@[k])@ == q;
                        if u < olddue.len() {
                            assert(contains_path(olddue, q));
                            assert(has_pending(curm, q));
                        } else {
                            assert(q == removed.path);
                            assert(curm[w2].path == curm[i as int].path);
                            assert(w2 != i as int);
                        }
                    }
                }
            } else {
                i = i + 1;
            }
        }
        proof {
            let newm = self.model();
            assert forall|q: Seq<u8>| #[trigger] has_pending(newm, q) implies pending_at(
                newm,
                q,
            ).deadline > now by {
                let w = choose|k: int| 0 <= k < newm.len() && (#[trigger] newm[k]).path == q;
                assert(newm[w].deadline > now);
                assert(pending_at(newm, q) == newm[w]) by {
                    let u = choose|k: int| 0 <= k < newm.len() && (#[trigger] newm[k]).path == q;
                    if u < w {
                        assert(newm[u].path != newm[w].path);
                    }
                    if w < u {
                        assert(newm[w].path != newm[u].path);
                    }
                }
            }
            assert forall|q: Seq<u8>|
                has_pending(oldm, q) && pending_at(oldm, q).deadline <= now implies #[trigger] contains_path(
                due@,
                q,
            ) by {
                if has_pending(newm, q) {
                    assert(pending_at(newm, q) == pending_at(oldm, q));
                    assert(pending_at(newm, q).deadline > now);
                }
            }
        }
        due
    }
}

} // verus!
