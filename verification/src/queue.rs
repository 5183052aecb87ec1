//! The queue of pending jobs: a binary min-heap on the deadlines, so that
//! the earliest deadline is served first.

use vstd::prelude::*;
use vstd::multiset::*;
use vstd::seq_lib::*;

verus! {

/// A job and the deadline at which it is due.
#[derive(Clone, Copy, Debug, PartialEq, Eq, Structural)]
pub struct ScheduledJob {
    /// The deadline, on the clock of the caller.
    pub when: u64,
    /// The index of the job among the loaded jobs.
    pub job: usize,
}

/// The position above position `i` in the heap.
pub open spec fn parent(i: int) -> int {
    (i - 1) / 2
}

/// Whether the entry at `i` is not due before the entry above it.
spec fn in_order(s: Seq<ScheduledJob>, i: int) -> bool {
    s[parent(i)].when <= s[i].when
}

/// Whether the entry at `i` is not due before the entry two above it.
spec fn in_order_twice(s: Seq<ScheduledJob>, i: int) -> bool {
    s[parent(parent(i))].when <= s[i].when
}

/// Whether no entry but the one at `skip` is due before the entry above it.
spec fn ordered_but(s: Seq<ScheduledJob>, skip: int) -> bool {
    forall|i: int| 1 <= i < s.len() && i != skip ==> #[trigger] in_order(s, i)
}

/// Whether no entry is due before the entry above it, but for those right
/// below `skip`.
spec fn ordered_but_below(s: Seq<ScheduledJob>, skip: int) -> bool {
    forall|i: int| 1 <= i < s.len() && parent(i) != skip ==> #[trigger] in_order(s, i)
}

/// Whether the entries right below `k` are not due before the entry above
/// `k`.
spec fn spans(s: Seq<ScheduledJob>, k: int) -> bool {
    forall|c: int|
        1 <= c < s.len() && parent(c) == k && k >= 1 ==> #[trigger] in_order_twice(s, c)
}

/// Whether no entry is due before the entry above it.
spec fn heap_ordered(s: Seq<ScheduledJob>) -> bool {
    ordered_but(s, 0)
}

/// In an ordered heap no entry is due before the first.
proof fn lemma_first_is_earliest(s: Seq<ScheduledJob>, i: int)
    requires
        heap_ordered(s),
        0 <= i < s.len(),
    ensures
        s[0].when <= s[i].when,
    decreases i,
{
    if i > 0 {
        assert(in_order(s, i));
        lemma_first_is_earliest(s, parent(i));
    }
}

/// Exchanging two entries keeps the entries the same.
proof fn lemma_exchange(s: Seq<ScheduledJob>, i: int, j: int)
    requires
        0 <= i < s.len(),
        0 <= j < s.len(),
    ensures
        s.update(i, s[j]).update(j, s[i]).to_multiset() == s.to_multiset(),
{
    broadcast use group_to_multiset_ensures;

    let t = s.update(i, s[j]);
    assert(t.to_multiset() =~= s.to_multiset().insert(s[j]).remove(s[i]));
    assert(t.update(j, s[i]).to_multiset() =~= t.to_multiset().insert(s[i]).remove(t[j]));
    assert(s.to_multiset().count(s[i]) > 0);
    assert(s.to_multiset().count(s[j]) > 0);
    assert(s.update(i, s[j]).update(j, s[i]).to_multiset() =~= s.to_multiset());
}

/// Exchanges the entries at `i` and `j`.
fn exchange(entries: &mut Vec<ScheduledJob>, i: usize, j: usize)
    requires
        i < old(entries)@.len(),
        j < old(entries)@.len(),
    ensures
        final(entries)@ == old(entries)@.update(i as int, old(entries)@[j as int]).update(
            j as int,
            old(entries)@[i as int],
        ),
        final(entries)@.to_multiset() == old(entries)@.to_multiset(),
{
    let a = entries[i];
    let b = entries[j];
    entries.set(i, b);
    entries.set(j, a);
    proof {
        lemma_exchange(old(entries)@, i as int, j as int);
    }
}

/// The pending jobs. `pop` serves the one that is due first.
pub struct JobQueue {
    entries: Vec<ScheduledJob>,
}

impl View for JobQueue {
    type V = Multiset<ScheduledJob>;

    closed spec fn view(&self) -> Multiset<ScheduledJob> {
        self.entries@.to_multiset()
    }
}

/// Whether `first` is an entry of `queue` and none is due before it.
pub open spec fn is_earliest(queue: Multiset<ScheduledJob>, first: ScheduledJob) -> bool {
    &&& queue.contains(first)
    &&& forall|other: ScheduledJob| queue.contains(other) ==> first.when <= other.when
}

impl JobQueue {
    #[verifier::type_invariant]
    spec fn well_formed(&self) -> bool {
        heap_ordered(self.entries@)
    }

    /// An empty queue.
    pub fn new() -> (queue: Self)
        ensures
            queue@ == Multiset::<ScheduledJob>::empty(),
    {
        let queue = JobQueue { entries: Vec::new() };
        assert(queue.entries@.to_multiset() =~= Multiset::<ScheduledJob>::empty()) by {
            broadcast use group_to_multiset_ensures;

            assert(queue.entries@.to_multiset().len() == 0);
        }
        queue
    }

    /// The number of pending jobs.
    pub fn len(&self) -> (n: usize)
        ensures
            n == self@.len(),
    {
        proof {
            broadcast use group_to_multiset_ensures;

        }
        self.entries.len()
    }

    /// Removes every entry.
    pub fn clear(&mut self)
        ensures
            final(self)@ == Multiset::<ScheduledJob>::empty(),
    {
        self.entries = Vec::new();
        assert(self.entries@.to_multiset() =~= Multiset::<ScheduledJob>::empty()) by {
            broadcast use group_to_multiset_ensures;

            assert(self.entries@.to_multiset().len() == 0);
        }
    }

    /// Adds an entry.
    pub fn push(&mut self, entry: ScheduledJob)
        ensures
            final(self)@ == old(self)@.insert(entry),
    {
        proof {
            use_type_invariant(&*self);
        }
        let mut entries: Vec<ScheduledJob> = Vec::new();
        std::mem::swap(&mut entries, &mut self.entries);
        let ghost before = entries@;
        entries.push(entry);
        proof {
            broadcast use group_to_multiset_ensures;

            assert(entries@.to_multiset() =~= before.to_multiset().insert(entry));
            assert forall|i: int|
                1 <= i < entries@.len() && i != entries@.len() - 1 implies #[trigger] in_order(
                entries@,
                i,
            ) by {
                assert(in_order(before, i));
            }
        }
        let mut k: usize = entries.len() - 1;
        while k > 0 && entries[(k - 1) / 2].when > entries[k].when
            invariant
                k < entries@.len(),
                entries@.to_multiset() == before.to_multiset().insert(entry),
                ordered_but(entries@, k as int),
                spans(entries@, k as int),
            decreases k,
        {
            let up: usize = (k - 1) / 2;
            let ghost s = entries@;
            exchange(&mut entries, up, k);
            proof {
                let t = entries@;
                assert forall|i: int| 1 <= i < t.len() && i != up implies #[trigger] in_order(
                    t,
                    i,
                ) by {
                    if i == k {
                    } else if parent(i) == k {
                        assert(in_order_twice(s, i));
                    } else {
                        assert(in_order(s, i));
                    }
                }
                assert forall|c: int|
                    1 <= c < t.len() && parent(c) == up && up >= 1 implies #[trigger] in_order_twice(
                    t,
                    c,
                ) by {
                    assert(in_order(s, up as int));
                    if c != k {
                        assert(in_order(s, c));
                    }
                }
            }
            k = up;
        }
        assert(heap_ordered(entries@)) by {
            assert forall|i: int| 1 <= i < entries@.len() implies #[trigger] in_order(
                entries@,
                i,
            ) by {
                if i != k {
                    assert(in_order(entries@, i));
                }
            }
        }
        self.entries = entries;
    }

    /// The entry that is due first, if the queue has one.
    pub fn peek(&self) -> (r: Option<ScheduledJob>)
        ensures
            match r {
                Some(first) => is_earliest(self@, first),
                None => self@.len() == 0,
            },
    {
        proof {
            use_type_invariant(self);
            broadcast use group_to_multiset_ensures;

        }
        if self.entries.len() == 0 {
            return None;
        }
        let first = self.entries[0];
        proof {
            let s = self.entries@;
            assert(s.contains(first));
            assert forall|other: ScheduledJob| self@.contains(other) implies first.when
                <= other.when by {
                assert(s.contains(other));
                let i = choose|i: int| 0 <= i < s.len() && s[i] == other;
                lemma_first_is_earliest(s, i);
            }
        }
        Some(first)
    }

    /// Removes and returns the entry that is due first. Of entries with the
    /// same deadline any one may come first.
    pub fn pop(&mut self) -> (r: Option<ScheduledJob>)
        ensures
            match r {
                Some(first) => is_earliest(old(self)@, first) && final(self)@ == old(self)@.remove(
                    first,
                ),
                None => old(self)@.len() == 0 && final(self)@ == old(self)@,
            },
    {
        proof {
            use_type_invariant(&*self);
        }
        let mut entries: Vec<ScheduledJob> = Vec::new();
        std::mem::swap(&mut entries, &mut self.entries);
        let ghost before = entries@;
        proof {
            broadcast use group_to_multiset_ensures;

            assert(self.entries@.to_multiset().len() == 0);
        }
        if entries.len() == 0 {
            assert(self.entries@ =~= before);
            return None;
        }
        let first = entries[0];
        let last = entries.pop().unwrap();
        proof {
            broadcast use group_to_multiset_ensures;

            assert(before.contains(first));
            assert forall|other: ScheduledJob| before.to_multiset().contains(other) implies first.when
                <= other.when by {
                assert(before.contains(other));
                let i = choose|i: int| 0 <= i < before.len() && before[i] == other;
                lemma_first_is_earliest(before, i);
            }
            assert(entries@ =~= before.remove(before.len() - 1));
            assert(entries@.to_multiset() =~= before.to_multiset().remove(last));
        }
        let n = entries.len();
        if n > 0 {
            let ghost shorter = entries@;
            entries.set(0, last);
            proof {
                broadcast use group_to_multiset_ensures;

                assert(before.to_multiset().count(last) > 0) by {
                    assert(before.contains(last));
                }
                assert(entries@.to_multiset() =~= shorter.to_multiset().insert(last).remove(first));
                assert(entries@.to_multiset() =~= before.to_multiset().remove(first));
                assert forall|i: int|
                    1 <= i < entries@.len() && parent(i) != 0 implies #[trigger] in_order(
                    entries@,
                    i,
                ) by {
                    assert(in_order(before, i));
                }
            }
            let mut k: usize = 0;
            let mut settled = false;
            while !settled
                invariant
                    k < n == entries@.len(),
                    entries@.to_multiset() == before.to_multiset().remove(first),
                    ordered_but_below(entries@, k as int),
                    spans(entries@, k as int),
                    settled ==> heap_ordered(entries@),
                decreases
                        n - k + if settled {
                            0int
                        } else {
                            1int
                        },
            {
                let ghost s = entries@;
                if k + 1 <= n - 1 - k {
                    let left: usize = 2 * k + 1;
                    let right: usize = left + 1;
                    let child: usize = if right < n && entries[right].when < entries[left].when {
                        right
                    } else {
                        left
                    };
                    if entries[k].when <= entries[child].when {
                        settled = true;
                        assert forall|i: int| 1 <= i < s.len() implies #[trigger] in_order(
                            s,
                            i,
                        ) by {
                            if parent(i) == k {
                                assert(i == left || i == right);
                            } else {
                                assert(in_order(s, i));
                            }
                        }
                    } else {
                        exchange(&mut entries, k, child);
                        proof {
                            let t = entries@;
                            assert forall|i: int|
                                1 <= i < t.len() && parent(i) != child implies #[trigger] in_order(
                                t,
                                i,
                            ) by {
                                if i == k {
                                    assert(in_order_twice(s, child as int));
                                } else if parent(i) == k {
                                    assert(i == left || i == right);
                                } else {
                                    assert(in_order(s, i));
                                }
                            }
                            assert forall|c: int|
                                1 <= c < t.len() && parent(c) == child && child >= 1 implies #[trigger] in_order_twice(
                                t,
                                c,
                            ) by {
                                assert(in_order(s, c));
                            }
                        }
                        k = child;
                    }
                } else {
                    settled = true;
                    assert forall|i: int| 1 <= i < s.len() implies #[trigger] in_order(s, i) by {
                        assert(parent(i) != k);
                        assert(in_order(s, i));
                    }
                }
            }
        } else {
            assert(first == last);
        }
        self.entries = entries;
        Some(first)
    }
}

} // verus!
