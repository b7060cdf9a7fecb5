//! The waiter registry: per-key FIFO queues of one-shot wakeup
//! handles for blocking pops.
//!
//! A waiter is named by a ticket, an identifier the embedder maps to
//! its signalling handle. The registry only orders tickets; firing a
//! handle is the embedder's side of the rendezvous.

use vstd::prelude::*;

use crate::assoc::assoc_map;
use crate::assoc::lemma_assoc_absent;
use crate::assoc::lemma_assoc_index;
use crate::assoc::lemma_assoc_push;
use crate::assoc::lemma_assoc_remove;
use crate::assoc::lemma_push_unique;
use crate::assoc::lemma_remove_unique;
use crate::assoc::unique_keys;
use crate::bytes::bytes_eq;
use crate::bytes::clone_bytes;

verus! {

/// Queue after enqueuing a fresh waiter at the back.
pub open spec fn enqueue_step(m: Map<Seq<u8>, Seq<u64>>, k: Seq<u8>, ticket: u64) -> Map<
    Seq<u8>,
    Seq<u64>,
> {
    let q = if m.dom().contains(k) {
        m[k]
    } else {
        Seq::empty()
    };
    m.insert(k, q.push(ticket))
}

/// Registry state and fired tickets after dequeuing up to `n` waiters
/// in FIFO order; a drained queue leaves the registry.
pub open spec fn dequeue_step(m: Map<Seq<u8>, Seq<u64>>, k: Seq<u8>, n: int) -> (Map<
    Seq<u8>,
    Seq<u64>,
>, Seq<u64>) {
    if !m.dom().contains(k) {
        (m, Seq::empty())
    } else {
        let q = m[k];
        let f = if n <= q.len() {
            n
        } else {
            q.len() as int
        };
        let fired = q.take(f);
        let rest = q.skip(f);
        if rest.len() == 0 {
            (m.remove(k), fired)
        } else {
            (m.insert(k, rest), fired)
        }
    }
}

/// Registry state after a session withdraws its ticket: the first
/// occurrence leaves the queue; an emptied queue leaves the registry.
pub open spec fn withdraw_step(m: Map<Seq<u8>, Seq<u64>>, k: Seq<u8>, ticket: u64) -> Map<
    Seq<u8>,
    Seq<u64>,
> {
    if !m.dom().contains(k) {
        m
    } else {
        match m[k].index_of_first(ticket) {
            None => m,
            Some(i) => {
                let rest = m[k].remove(i);
                if rest.len() == 0 {
                    m.remove(k)
                } else {
                    m.insert(k, rest)
                }
            },
        }
    }
}

/// Per-key FIFO queues of waiter tickets. Keys are unique and queues
/// are never empty.
pub struct Waiters {
    queues: Vec<(Vec<u8>, Vec<u64>)>,
}

spec fn queues_nonempty(s: Seq<(Vec<u8>, Vec<u64>)>) -> bool {
    forall|i: int| 0 <= i < s.len() ==> (#[trigger] s[i].1)@.len() >= 1
}

proof fn lemma_remove_nonempty(s: Seq<(Vec<u8>, Vec<u64>)>, i: int)
    requires
        queues_nonempty(s),
        0 <= i < s.len(),
    ensures
        queues_nonempty(s.remove(i)),
{
    assert forall|j: int| 0 <= j < s.remove(i).len() implies (#[trigger] s.remove(i)[j]).1@.len()
        >= 1 by {
        assert(s.remove(i)[j] == if j < i {
            s[j]
        } else {
            s[j + 1]
        });
    }
}

proof fn lemma_push_nonempty(s: Seq<(Vec<u8>, Vec<u64>)>, p: (Vec<u8>, Vec<u64>))
    requires
        queues_nonempty(s),
        p.1@.len() >= 1,
    ensures
        queues_nonempty(s.push(p)),
{
    assert forall|j: int| 0 <= j < s.push(p).len() implies (#[trigger] s.push(p)[j]).1@.len()
        >= 1 by {
        if j < s.len() {
            assert(s.push(p)[j] == s[j]);
        } else {
            assert(s.push(p)[j] == p);
        }
    }
}

/// Position of the first occurrence of `ticket` in a queue.
fn ticket_pos(q: &Vec<u64>, ticket: u64) -> (r: Option<usize>)
    ensures
        match r {
            Some(p) => p < q@.len() && q@[p as int] == ticket && forall|x: int|
                0 <= x < p ==> q@[x] != ticket,
            None => forall|x: int| 0 <= x < q@.len() ==> q@[x] != ticket,
        },
{
    let mut p: usize = 0;
    while p < q.len()
        invariant
            p <= q@.len(),
            forall|x: int| 0 <= x < p ==> q@[x] != ticket,
        decreases q@.len() - p,
    {
        if q[p] == ticket {
            return Some(p);
        }
        p += 1;
    }
    None
}

impl View for Waiters {
    type V = Map<Seq<u8>, Seq<u64>>;

    closed spec fn view(&self) -> Map<Seq<u8>, Seq<u64>> {
        assoc_map(self.queues@)
    }
}

impl Waiters {
    /// Keys are pairwise distinct and no queue is empty.
    pub closed spec fn wf(self) -> bool {
        &&& unique_keys(self.queues@)
        &&& queues_nonempty(self.queues@)
    }

    /// Fresh empty registry.
    pub fn new() -> (r: Waiters)
        ensures
            r.wf(),
            r@ == Map::<Seq<u8>, Seq<u64>>::empty(),
    {
        Waiters { queues: Vec::new() }
    }

    /// Index of the queue for `k`, if any.
    fn find(&self, k: &Vec<u8>) -> (r: Option<usize>)
        requires
            self.wf(),
        ensures
            match r {
                Some(i) => i < self.queues@.len() && self.queues@[i as int].0@ == k@
                    && self@.dom().contains(k@) && self@[k@] == self.queues@[i as int].1@,
                None => !self@.dom().contains(k@) && forall|j: int|
                    0 <= j < self.queues@.len() ==> (#[trigger] self.queues@[j]).0@ != k@,
            },
    {
        let mut i: usize = 0;
        while i < self.queues.len()
            invariant
                self.wf(),
                i <= self.queues@.len(),
                forall|j: int| 0 <= j < i ==> (#[trigger] self.queues@[j]).0@ != k@,
            decreases self.queues@.len() - i,
        {
            if bytes_eq(&self.queues[i].0, k) {
                proof {
                    lemma_assoc_index(self.queues@, i as int);
                }
                return Some(i);
            }
            i += 1;
        }
        proof {
            lemma_assoc_absent(self.queues@, k@);
        }
        None
    }

    /// Append a waiter's ticket to the queue for `k`, creating the
    /// queue if none exists.
    pub fn enqueue(&mut self, k: &Vec<u8>, ticket: u64)
        requires
            old(self).wf(),
        ensures
            final(self).wf(),
            final(self)@ == enqueue_step(old(self)@, k@, ticket),
    {
        let ghost old_map = self@;
        let key = clone_bytes(k);
        let mut q: Vec<u64>;
        match self.find(k) {
            Some(i) => {
                proof {
                    lemma_assoc_remove(self.queues@, i as int);
                    lemma_remove_unique(self.queues@, i as int);
                    lemma_remove_nonempty(self.queues@, i as int);
                }
                q = self.queues.remove(i).1;
            },
            None => {
                q = Vec::new();
            },
        }
        q.push(ticket);
        proof {
            lemma_assoc_push(self.queues@, (key, q));
            lemma_push_unique(self.queues@, (key, q));
            lemma_push_nonempty(self.queues@, (key, q));
        }
        self.queues.push((key, q));
        proof {
            assert(self@ =~= enqueue_step(old_map, k@, ticket));
        }
    }

    /// Dequeue up to `n` tickets in FIFO order; a drained queue leaves
    /// the registry.
    pub fn dequeue_upto(&mut self, k: &Vec<u8>, n: usize) -> (fired: Vec<u64>)
        requires
            old(self).wf(),
        ensures
            final(self).wf(),
            final(self)@ == dequeue_step(old(self)@, k@, n as int).0,
            fired@ == dequeue_step(old(self)@, k@, n as int).1,
    {
        let ghost old_map = self@;
        match self.find(k) {
            None => {
                let fired: Vec<u64> = Vec::new();
                proof {
                    assert(fired@ =~= dequeue_step(old_map, k@, n as int).1);
                }
                fired
            },
            Some(i) => {
                proof {
                    lemma_assoc_remove(self.queues@, i as int);
                    lemma_remove_unique(self.queues@, i as int);
                    lemma_remove_nonempty(self.queues@, i as int);
                }
                let (key, mut q) = self.queues.remove(i);
                let ghost base = q@;
                let f = if n <= q.len() {
                    n
                } else {
                    q.len()
                };
                let mut fired: Vec<u64> = Vec::new();
                let mut j: usize = 0;
                proof {
                    assert(fired@ =~= base.take(0));
                    assert(q@ =~= base.skip(0));
                }
                while j < f
                    invariant
                        j <= f,
                        f <= base.len(),
                        q@ == base.skip(j as int),
                        fired@ == base.take(j as int),
                    decreases f - j,
                {
                    let t = q.remove(0);
                    fired.push(t);
                    j += 1;
                    proof {
                        assert(q@ =~= base.skip(j as int));
                        assert(fired@ =~= base.take(j as int));
                    }
                }
                if q.len() > 0 {
                    proof {
                        lemma_assoc_push(self.queues@, (key, q));
                        lemma_push_unique(self.queues@, (key, q));
                        lemma_push_nonempty(self.queues@, (key, q));
                    }
                    self.queues.push((key, q));
                }
                proof {
                    assert(self@ =~= dequeue_step(old_map, k@, n as int).0);
                }
                fired
            },
        }
    }

    /// Withdraw a session's ticket from the queue for `k` (best-effort
    /// de-registration at session teardown).
    pub fn withdraw(&mut self, k: &Vec<u8>, ticket: u64)
        requires
            old(self).wf(),
        ensures
            final(self).wf(),
            final(self)@ == withdraw_step(old(self)@, k@, ticket),
    {
        let ghost old_map = self@;
        match self.find(k) {
            None => {},
            Some(i) => {
                let ghost base = self.queues@[i as int].1@;
                let pos = match ticket_pos(&self.queues[i].1, ticket) {
                    None => {
                        proof {
                            assert(base.index_of_first(ticket) is None) by {
                                base.index_of_first_ensures(ticket);
                            }
                        }
                        return ;
                    },
                    Some(p) => p,
                };
                proof {
                    assert(base.index_of_first(ticket) == Some(pos as int)) by {
                        base.index_of_first_ensures(ticket);
                    }
                    lemma_assoc_remove(self.queues@, i as int);
                    lemma_remove_unique(self.queues@, i as int);
                    lemma_remove_nonempty(self.queues@, i as int);
                }
                let (key, mut q) = self.queues.remove(i);
                let _ = q.remove(pos);
                if q.len() > 0 {
                    proof {
                        lemma_assoc_push(self.queues@, (key, q));
                        lemma_push_unique(self.queues@, (key, q));
                        lemma_push_nonempty(self.queues@, (key, q));
                    }
                    self.queues.push((key, q));
                }
                proof {
                    assert(self@ =~= withdraw_step(old_map, k@, ticket));
                }
            },
        }
    }
}

/// Every queued ticket is below the bound.
pub open spec fn tickets_lt(w: Map<Seq<u8>, Seq<u64>>, bound: u64) -> bool {
    forall|k: Seq<u8>, i: int|
        w.dom().contains(k) && 0 <= i < w[k].len() ==> #[trigger] w[k][i] < bound
}

/// Enqueuing the bound itself keeps every ticket below any larger
/// bound.
pub proof fn lemma_enqueue_tickets(w: Map<Seq<u8>, Seq<u64>>, k: Seq<u8>, t: u64, b2: u64)
    requires
        tickets_lt(w, t),
        t < b2,
    ensures
        tickets_lt(enqueue_step(w, k, t), b2),
{
    let w2 = enqueue_step(w, k, t);
    assert forall|k2: Seq<u8>, i: int|
        w2.dom().contains(k2) && 0 <= i < w2[k2].len() implies #[trigger] w2[k2][i] < b2 by {
        if k2 == k {
            let q = if w.dom().contains(k) {
                w[k]
            } else {
                Seq::empty()
            };
            assert(w2[k2] == q.push(t));
            if i < q.len() {
                assert(w[k][i] < t);
            }
        } else {
            assert(w2[k2] == w[k2]);
            assert(w[k2][i] < t);
        }
    }
}

/// Dequeuing keeps every ticket below the bound.
pub proof fn lemma_dequeue_tickets(w: Map<Seq<u8>, Seq<u64>>, k: Seq<u8>, n: int, b: u64)
    requires
        n >= 0,
        tickets_lt(w, b),
    ensures
        tickets_lt(dequeue_step(w, k, n).0, b),
{
    let w2 = dequeue_step(w, k, n).0;
    assert forall|k2: Seq<u8>, i: int|
        w2.dom().contains(k2) && 0 <= i < w2[k2].len() implies #[trigger] w2[k2][i] < b by {
        if w.dom().contains(k) && k2 == k {
            let q = w[k];
            let f = if n <= q.len() {
                n
            } else {
                q.len() as int
            };
            if q.skip(f).len() == 0 {
                assert(!w2.dom().contains(k2));
            } else {
                assert(w2[k2][i] == q[i + f]);
                assert(w[k][i + f] < b);
            }
        } else {
            assert(w2[k2] == w[k2]);
            assert(w[k2][i] < b);
        }
    }
}

/// Withdrawing a ticket keeps every ticket below the bound.
pub proof fn lemma_withdraw_tickets(w: Map<Seq<u8>, Seq<u64>>, k: Seq<u8>, t: u64, b: u64)
    requires
        tickets_lt(w, b),
    ensures
        tickets_lt(withdraw_step(w, k, t), b),
{
    let w2 = withdraw_step(w, k, t);
    assert forall|k2: Seq<u8>, i: int|
        w2.dom().contains(k2) && 0 <= i < w2[k2].len() implies #[trigger] w2[k2][i] < b by {
        if w.dom().contains(k) && k2 == k && w[k].index_of_first(t) is Some {
            let q = w[k];
            let x = q.index_of_first(t)->Some_0;
            q.index_of_first_ensures(t);
            assert(w2[k2] == q.remove(x));
            assert(q.remove(x)[i] == if i < x {
                q[i]
            } else {
                q[i + 1]
            });
            assert(w[k][i] < b);
            assert(w[k][i + 1] < b);
        } else {
            assert(w2[k2] == w[k2]);
            assert(w[k2][i] < b);
        }
    }
}

/// No ticket sits in two places: across all queues, equal tickets
/// mean the same queue position.
pub open spec fn tickets_unique(w: Map<Seq<u8>, Seq<u64>>) -> bool {
    forall|k1: Seq<u8>, k2: Seq<u8>, i1: int, i2: int|
        #![trigger w[k1][i1], w[k2][i2]]
        w.dom().contains(k1) && w.dom().contains(k2) && 0 <= i1 < w[k1].len() && 0 <= i2
            < w[k2].len() && w[k1][i1] == w[k2][i2] ==> k1 == k2 && i1 == i2
}

/// Enqueuing a ticket above every queued one keeps tickets unique.
pub proof fn lemma_enqueue_unique(w: Map<Seq<u8>, Seq<u64>>, k: Seq<u8>, t: u64)
    requires
        tickets_lt(w, t),
        tickets_unique(w),
    ensures
        tickets_unique(enqueue_step(w, k, t)),
{
    let q = if w.dom().contains(k) {
        w[k]
    } else {
        Seq::<u64>::empty()
    };
    let w2 = enqueue_step(w, k, t);
    assert forall|k1: Seq<u8>, k2: Seq<u8>, i1: int, i2: int|
        #![trigger w2[k1][i1], w2[k2][i2]]
        w2.dom().contains(k1) && w2.dom().contains(k2) && 0 <= i1 < w2[k1].len() && 0 <= i2
            < w2[k2].len() && w2[k1][i1] == w2[k2][i2] implies k1 == k2 && i1 == i2 by {
        let fresh1 = k1 == k && i1 == q.len();
        let fresh2 = k2 == k && i2 == q.len();
        if fresh1 && fresh2 {
        } else if fresh1 {
            assert(w2[k1][i1] == t);
            if k2 == k {
                assert(w2[k2][i2] == q[i2]);
                if w.dom().contains(k) {
                    assert(w[k][i2] < t);
                }
            } else {
                assert(w2[k2][i2] == w[k2][i2]);
                assert(w[k2][i2] < t);
            }
        } else if fresh2 {
            assert(w2[k2][i2] == t);
            if k1 == k {
                assert(w2[k1][i1] == q[i1]);
                if w.dom().contains(k) {
                    assert(w[k][i1] < t);
                }
            } else {
                assert(w2[k1][i1] == w[k1][i1]);
                assert(w[k1][i1] < t);
            }
        } else {
            let j1 = i1;
            let j2 = i2;
            if k1 == k {
                assert(w.dom().contains(k) || j1 < 0);
                assert(w2[k1][i1] == w[k1][j1]);
            } else {
                assert(w2[k1][i1] == w[k1][j1]);
            }
            if k2 == k {
                assert(w2[k2][i2] == w[k2][j2]);
            } else {
                assert(w2[k2][i2] == w[k2][j2]);
            }
            assert(w[k1][j1] == w[k2][j2]);
        }
    }
}

/// Dequeuing keeps tickets unique.
pub proof fn lemma_dequeue_unique(w: Map<Seq<u8>, Seq<u64>>, k: Seq<u8>, n: int)
    requires
        n >= 0,
        tickets_unique(w),
    ensures
        tickets_unique(dequeue_step(w, k, n).0),
{
    let w2 = dequeue_step(w, k, n).0;
    let f = if !w.dom().contains(k) {
        0
    } else if n <= w[k].len() {
        n
    } else {
        w[k].len() as int
    };
    assert forall|k1: Seq<u8>, k2: Seq<u8>, i1: int, i2: int|
        #![trigger w2[k1][i1], w2[k2][i2]]
        w2.dom().contains(k1) && w2.dom().contains(k2) && 0 <= i1 < w2[k1].len() && 0 <= i2
            < w2[k2].len() && w2[k1][i1] == w2[k2][i2] implies k1 == k2 && i1 == i2 by {
        let j1 = if w.dom().contains(k) && k1 == k {
            i1 + f
        } else {
            i1
        };
        let j2 = if w.dom().contains(k) && k2 == k {
            i2 + f
        } else {
            i2
        };
        assert(w2[k1][i1] == w[k1][j1]);
        assert(w2[k2][i2] == w[k2][j2]);
        assert(w[k1][j1] == w[k2][j2]);
    }
}

/// Withdrawing a ticket keeps tickets unique.
pub proof fn lemma_withdraw_unique(w: Map<Seq<u8>, Seq<u64>>, k: Seq<u8>, t: u64)
    requires
        tickets_unique(w),
    ensures
        tickets_unique(withdraw_step(w, k, t)),
{
    let w2 = withdraw_step(w, k, t);
    if w.dom().contains(k) && w[k].index_of_first(t) is Some {
        let x = w[k].index_of_first(t)->Some_0;
        w[k].index_of_first_ensures(t);
        assert forall|k1: Seq<u8>, k2: Seq<u8>, i1: int, i2: int|
            #![trigger w2[k1][i1], w2[k2][i2]]
            w2.dom().contains(k1) && w2.dom().contains(k2) && 0 <= i1 < w2[k1].len() && 0 <= i2
                < w2[k2].len() && w2[k1][i1] == w2[k2][i2] implies k1 == k2 && i1 == i2 by {
            let j1 = if k1 == k && i1 >= x {
                i1 + 1
            } else {
                i1
            };
            let j2 = if k2 == k && i2 >= x {
                i2 + 1
            } else {
                i2
            };
            if k1 == k {
                assert(w2[k1][i1] == w[k].remove(x)[i1]);
            }
            if k2 == k {
                assert(w2[k2][i2] == w[k].remove(x)[i2]);
            }
            assert(w2[k1][i1] == w[k1][j1]);
            assert(w2[k2][i2] == w[k2][j2]);
            assert(w[k1][j1] == w[k2][j2]);
        }
    } else {
        assert(w2 == w);
    }
}

} // verus!
