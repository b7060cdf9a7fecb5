//! The keyspace: a mapping from binary-safe keys to stored values,
//! with passive expiry on read access.
//!
//! The abstract state is a `Map<Seq<u8>, EntryView>`. Every operation
//! has a spec-level step function over that map; the executable
//! methods are proved to implement the step functions exactly.

use vstd::prelude::*;

use crate::assoc::assoc_map;
use crate::assoc::lemma_assoc_absent;
use crate::assoc::lemma_assoc_dom_len;
use crate::assoc::lemma_assoc_index;
use crate::assoc::lemma_assoc_push;
use crate::assoc::lemma_assoc_remove;
use crate::assoc::lemma_push_unique;
use crate::assoc::lemma_remove_unique;
use crate::assoc::unique_keys;
use crate::bytes::bytes_eq;
use crate::bytes::clone_bytes;
use crate::bytes::deep_of;
use crate::value::Data;
use crate::value::DataView;
use crate::value::Entry;
use crate::value::EntryView;
use crate::value::expired_at;

verus! {

broadcast use vstd::set::group_set_axioms, crate::bytes::lemma_deep_of_vec;

/// Error for a command applied to a key holding the other kind of value.
pub struct TypeErr;

/// The list items of a payload; the empty sequence when the payload is
/// a string. Contracts only apply it under a list-shaped payload.
pub open spec fn items_of(d: DataView) -> Seq<Seq<u8>> {
    match d {
        DataView::List(l) => l,
        DataView::Str(_) => Seq::empty(),
    }
}

/// Whether a payload keeps the keyspace invariant: a stored list is
/// never empty.
pub open spec fn payload_wf(d: DataView) -> bool {
    match d {
        DataView::List(l) => l.len() >= 1,
        DataView::Str(_) => true,
    }
}

/// Outcome of a read of a string key.
pub enum GetOut {
    Val(Seq<u8>),
    Nil,
    Wrong,
}

/// Outcome of a pop from the head of a list.
pub enum PopOut {
    Popped(Seq<Seq<u8>>),
    Missing,
    Wrong,
}

/// State after `set`: the key is overwritten wholesale; creation time
/// and TTL are reset.
pub open spec fn set_step(
    m: Map<Seq<u8>, EntryView>,
    k: Seq<u8>,
    v: Seq<u8>,
    ttl_ms: Option<u64>,
    now: u64,
) -> Map<Seq<u8>, EntryView> {
    m.insert(k, EntryView { data: DataView::Str(v), created_at_ms: now, ttl_ms })
}

/// State and reply of `get`: nil on a missing key; an expired entry is
/// deleted in the same step and reported nil; a list key is a type error.
pub open spec fn get_step(m: Map<Seq<u8>, EntryView>, k: Seq<u8>, now: u64) -> (Map<
    Seq<u8>,
    EntryView,
>, GetOut) {
    if !m.dom().contains(k) {
        (m, GetOut::Nil)
    } else if expired_at(m[k], now) {
        (m.remove(k), GetOut::Nil)
    } else {
        match m[k].data {
            DataView::Str(s) => (m, GetOut::Val(s)),
            DataView::List(_) => (m, GetOut::Wrong),
        }
    }
}

/// Remaining TTL of `k` at `now` in milliseconds, clamped to zero and
/// saturated at the machine limit; `None` when the key is missing or
/// carries no TTL (the two are not distinguished).
pub open spec fn ttl_step(m: Map<Seq<u8>, EntryView>, k: Seq<u8>, now: u64) -> Option<int> {
    if !m.dom().contains(k) {
        None
    } else {
        match m[k].ttl_ms {
            None => None,
            Some(t) => {
                let deadline = if m[k].created_at_ms + t <= u64::MAX {
                    m[k].created_at_ms + t
                } else {
                    u64::MAX as int
                };
                Some(if deadline >= now { deadline - now } else { 0 })
            },
        }
    }
}

/// The list that a push leaves under the key: arguments are appended in
/// order at the back, or inserted one by one at the front (so the last
/// argument ends up at index 0).
pub open spec fn pushed_items(old_items: Seq<Seq<u8>>, vals: Seq<Seq<u8>>, at_front: bool) -> Seq<
    Seq<u8>,
> {
    if at_front {
        vals.reverse() + old_items
    } else {
        old_items + vals
    }
}

/// State and reply of `rpush`/`lpush`: a missing key becomes a fresh
/// list (created now, no TTL); a string key is a type error; an
/// existing list keeps its creation time and TTL.
pub open spec fn push_step(
    m: Map<Seq<u8>, EntryView>,
    k: Seq<u8>,
    vals: Seq<Seq<u8>>,
    now: u64,
    at_front: bool,
) -> (Map<Seq<u8>, EntryView>, Result<int, TypeErr>) {
    if m.dom().contains(k) && !(m[k].data is List) {
        (m, Err(TypeErr))
    } else {
        let old_items = if m.dom().contains(k) {
            items_of(m[k].data)
        } else {
            Seq::empty()
        };
        let new_items = pushed_items(old_items, vals, at_front);
        let entry = EntryView {
            data: DataView::List(new_items),
            created_at_ms: if m.dom().contains(k) {
                m[k].created_at_ms
            } else {
                now
            },
            ttl_ms: if m.dom().contains(k) {
                m[k].ttl_ms
            } else {
                None
            },
        };
        (m.insert(k, entry), Ok(new_items.len() as int))
    }
}

/// State and reply of `lpop`: up to `count` heads leave the list in
/// order; a list drained to empty is removed from the keyspace.
pub open spec fn lpop_step(m: Map<Seq<u8>, EntryView>, k: Seq<u8>, count: int) -> (Map<
    Seq<u8>,
    EntryView,
>, PopOut) {
    if !m.dom().contains(k) {
        (m, PopOut::Missing)
    } else if !(m[k].data is List) {
        (m, PopOut::Wrong)
    } else {
        let items = items_of(m[k].data);
        let n = if count <= items.len() {
            count
        } else {
            items.len() as int
        };
        let popped = items.take(n);
        let rest = items.skip(n);
        if rest.len() == 0 {
            (m.remove(k), PopOut::Popped(popped))
        } else {
            let entry = EntryView {
                data: DataView::List(rest),
                created_at_ms: m[k].created_at_ms,
                ttl_ms: m[k].ttl_ms,
            };
            (m.insert(k, entry), PopOut::Popped(popped))
        }
    }
}

/// Reply of `llen`: zero on a missing key; a string key is a type error.
pub open spec fn llen_step(m: Map<Seq<u8>, EntryView>, k: Seq<u8>) -> Result<int, TypeErr> {
    if !m.dom().contains(k) {
        Ok(0)
    } else if !(m[k].data is List) {
        Err(TypeErr)
    } else {
        Ok(items_of(m[k].data).len() as int)
    }
}

/// The inclusive slice `LRANGE` returns: negative indices count from
/// the end (added to the length once), then `start` is clamped up to 0
/// and `stop` down to the last index; an inverted range is empty.
pub open spec fn lrange_slice(items: Seq<Seq<u8>>, start: int, stop: int) -> Seq<Seq<u8>> {
    let n = items.len() as int;
    let s0 = if start < 0 {
        start + n
    } else {
        start
    };
    let e0 = if stop < 0 {
        stop + n
    } else {
        stop
    };
    let s1 = if s0 < 0 {
        0
    } else {
        s0
    };
    let e1 = if e0 > n - 1 {
        n - 1
    } else {
        e0
    };
    if s1 > e1 {
        Seq::empty()
    } else {
        items.subrange(s1, e1 + 1)
    }
}

/// Reply of `lrange`: the clamped slice; a missing key yields the empty
/// array; a string key is a type error.
pub open spec fn lrange_step(m: Map<Seq<u8>, EntryView>, k: Seq<u8>, start: int, stop: int) -> Result<
    Seq<Seq<u8>>,
    TypeErr,
> {
    if !m.dom().contains(k) {
        Ok(Seq::empty())
    } else if !(m[k].data is List) {
        Err(TypeErr)
    } else {
        Ok(lrange_slice(items_of(m[k].data), start, stop))
    }
}

/// The keyspace. Keys are unique and stored lists are never empty.
pub struct Store {
    entries: Vec<(Vec<u8>, Entry)>,
}

spec fn payload_all(s: Seq<(Vec<u8>, Entry)>) -> bool {
    forall|i: int| 0 <= i < s.len() ==> payload_wf(#[trigger] s[i].1@.data)
}

proof fn lemma_remove_payload(s: Seq<(Vec<u8>, Entry)>, i: int)
    requires
        payload_all(s),
        0 <= i < s.len(),
    ensures
        payload_all(s.remove(i)),
{
    assert forall|j: int| 0 <= j < s.remove(i).len() implies payload_wf(
        (#[trigger] s.remove(i)[j]).1@.data,
    ) by {
        assert(s.remove(i)[j] == if j < i {
            s[j]
        } else {
            s[j + 1]
        });
    }
}

proof fn lemma_push_payload(s: Seq<(Vec<u8>, Entry)>, p: (Vec<u8>, Entry))
    requires
        payload_all(s),
        payload_wf(p.1@.data),
    ensures
        payload_all(s.push(p)),
{
    assert forall|j: int| 0 <= j < s.push(p).len() implies payload_wf(
        (#[trigger] s.push(p)[j]).1@.data,
    ) by {
        if j < s.len() {
            assert(s.push(p)[j] == s[j]);
        } else {
            assert(s.push(p)[j] == p);
        }
    }
}

impl View for Store {
    type V = Map<Seq<u8>, EntryView>;

    closed spec fn view(&self) -> Map<Seq<u8>, EntryView> {
        assoc_map(self.entries@)
    }
}

impl Store {
    /// Keys are pairwise distinct and every stored list is non-empty.
    pub closed spec fn wf(self) -> bool {
        &&& unique_keys(self.entries@)
        &&& payload_all(self.entries@)
    }

    /// Every list in a well-formed keyspace is non-empty.
    pub proof fn lemma_lists_nonempty(&self)
        requires
            self.wf(),
        ensures
            forall|k: Seq<u8>| #[trigger]
                self@.dom().contains(k) ==> payload_wf(self@[k].data),
    {
        assert forall|k: Seq<u8>| #[trigger] self@.dom().contains(k) implies payload_wf(
            self@[k].data,
        ) by {
            self.lemma_dom_index(k);
        }
    }

    /// A key in the abstract map stands at some index of the backing
    /// vector, with the same entry.
    proof fn lemma_dom_index(&self, k: Seq<u8>)
        requires
            self.wf(),
            self@.dom().contains(k),
        ensures
            exists|i: int|
                0 <= i < self.entries@.len() && self.entries@[i].0@ == k && #[trigger] self.entries@[i].1@
                    == self@[k],
    {
        if forall|i: int| 0 <= i < self.entries@.len() ==> self.entries@[i].0@ != k {
            lemma_assoc_absent(self.entries@, k);
        } else {
            let i = choose|i: int|
                0 <= i < self.entries@.len() && #[trigger] self.entries@[i].0@ == k;
            lemma_assoc_index(self.entries@, i);
        }
    }

    /// Fresh empty keyspace.
    pub fn new() -> (r: Store)
        ensures
            r.wf(),
            r@ == Map::<Seq<u8>, EntryView>::empty(),
    {
        Store { entries: Vec::new() }
    }

    /// Index of the entry holding `k`, if any.
    fn find(&self, k: &Vec<u8>) -> (r: Option<usize>)
        requires
            self.wf(),
        ensures
            match r {
                Some(i) => i < self.entries@.len() && self.entries@[i as int].0@ == k@
                    && self@.dom().contains(k@) && self@[k@] == self.entries@[i as int].1@,
                None => !self@.dom().contains(k@) && forall|j: int|
                    0 <= j < self.entries@.len() ==> (#[trigger] self.entries@[j]).0@ != k@,
            },
    {
        let mut i: usize = 0;
        while i < self.entries.len()
            invariant
                self.wf(),
                i <= self.entries@.len(),
                forall|j: int| 0 <= j < i ==> self.entries@[j].0@ != k@,
            decreases self.entries@.len() - i,
        {
            if bytes_eq(&self.entries[i].0, k) {
                proof {
                    lemma_assoc_index(self.entries@, i as int);
                }
                return Some(i);
            }
            i += 1;
        }
        proof {
            lemma_assoc_absent(self.entries@, k@);
        }
        None
    }

    /// Number of entries currently stored.
    pub fn dbsize(&self) -> (r: usize)
        requires
            self.wf(),
        ensures
            r == self@.dom().len(),
            self@.dom().finite(),
    {
        proof {
            lemma_assoc_dom_len(self.entries@);
        }
        self.entries.len()
    }

    /// `SET k v [ttl]`: overwrite wholesale, resetting creation time
    /// and TTL.
    pub fn set(&mut self, k: Vec<u8>, v: Vec<u8>, ttl_ms: Option<u64>, now: u64)
        requires
            old(self).wf(),
        ensures
            final(self).wf(),
            final(self)@ == set_step(old(self)@, k@, v@, ttl_ms, now),
    {
        let ghost vv = v@;
        let ghost kv = k@;
        let entry = Entry::new_str(v, now, ttl_ms);
        match self.find(&k) {
            Some(i) => {
                proof {
                    lemma_assoc_remove(self.entries@, i as int);
                    lemma_remove_unique(self.entries@, i as int);
                    lemma_remove_payload(self.entries@, i as int);
                }
                let _ = self.entries.remove(i);
                proof {
                    lemma_assoc_push(self.entries@, (k, entry));
                    lemma_push_unique(self.entries@, (k, entry));
                    lemma_push_payload(self.entries@, (k, entry));
                }
                self.entries.push((k, entry));
                proof {
                    assert(self@ =~= set_step(old(self)@, kv, vv, ttl_ms, now));
                }
            },
            None => {
                proof {
                    lemma_assoc_push(self.entries@, (k, entry));
                    lemma_push_unique(self.entries@, (k, entry));
                    lemma_push_payload(self.entries@, (k, entry));
                }
                self.entries.push((k, entry));
            },
        }
    }

    /// `GET k`: nil on a missing key; an entry expired at `now` is
    /// deleted in the same step and reported nil; a surviving list key
    /// is a type error.
    pub fn get(&mut self, k: &Vec<u8>, now: u64) -> (r: Result<Option<Vec<u8>>, TypeErr>)
        requires
            old(self).wf(),
        ensures
            final(self).wf(),
            final(self)@ == get_step(old(self)@, k@, now).0,
            match r {
                Ok(Some(v)) => get_step(old(self)@, k@, now).1 == GetOut::Val(v@),
                Ok(None) => get_step(old(self)@, k@, now).1 is Nil,
                Err(_) => get_step(old(self)@, k@, now).1 is Wrong,
            },
    {
        match self.find(k) {
            None => Ok(None),
            Some(i) => {
                if self.entries[i].1.is_expired_at(now) {
                    proof {
                        lemma_assoc_remove(self.entries@, i as int);
                        lemma_remove_unique(self.entries@, i as int);
                        lemma_remove_payload(self.entries@, i as int);
                    }
                    let _ = self.entries.remove(i);
                    Ok(None)
                } else {
                    match &self.entries[i].1.data {
                        Data::Str(s) => Ok(Some(clone_bytes(s))),
                        Data::List(_) => Err(TypeErr),
                    }
                }
            },
        }
    }

    /// `TTL k`: remaining milliseconds, clamped to zero; `None` when
    /// the key is missing or never expires.
    pub fn ttl_remaining(&self, k: &Vec<u8>, now: u64) -> (r: Option<u64>)
        requires
            self.wf(),
        ensures
            match r {
                Some(x) => ttl_step(self@, k@, now) == Some(x as int),
                None => ttl_step(self@, k@, now) is None,
            },
    {
        match self.find(k) {
            None => None,
            Some(i) => {
                let e = &self.entries[i].1;
                match e.ttl_ms {
                    None => None,
                    Some(t) => {
                        let deadline = if e.created_at_ms <= u64::MAX - t {
                            e.created_at_ms + t
                        } else {
                            u64::MAX
                        };
                        Some(if deadline >= now { deadline - now } else { 0 })
                    },
                }
            },
        }
    }

    /// `RPUSH`/`LPUSH`: append `vals` in order at the back, or insert
    /// them one by one at the front. A missing key becomes a fresh
    /// list; a string key is a type error.
    pub fn push(&mut self, k: &Vec<u8>, vals: Vec<Vec<u8>>, now: u64, at_front: bool) -> (r: Result<
        usize,
        TypeErr,
    >)
        requires
            old(self).wf(),
            vals@.len() >= 1,
        ensures
            final(self).wf(),
            final(self)@ == push_step(old(self)@, k@, vals.deep_view(), now, at_front).0,
            match r {
                Ok(n) => push_step(old(self)@, k@, vals.deep_view(), now, at_front).1 == Ok::<
                    int,
                    TypeErr,
                >(n as int),
                Err(_) => push_step(old(self)@, k@, vals.deep_view(), now, at_front).1 is Err,
            },
    {
        let ghost old_map = self@;
        let mut entry: Entry;
        let key: Vec<u8> = clone_bytes(k);
        match self.find(k) {
            Some(i) => {
                match &self.entries[i].1.data {
                    Data::Str(_) => {
                        return Err(TypeErr);
                    },
                    Data::List(_) => {},
                }
                proof {
                    lemma_assoc_remove(self.entries@, i as int);
                    lemma_remove_unique(self.entries@, i as int);
                    lemma_remove_payload(self.entries@, i as int);
                }
                entry = self.entries.remove(i).1;
            },
            None => {
                entry = Entry::new_list(now);
            },
        }
        let ghost base_items = items_of(entry@.data);
        let n: usize;
        match &mut entry.data {
            Data::List(items) => {
                n = push_items(items, vals, at_front);
            },
            Data::Str(_) => {
                proof {
                    assert(false);
                }
                return Err(TypeErr);
            },
        }
        proof {
            assert(items_of(entry@.data) == pushed_items(base_items, vals.deep_view(), at_front));
            assert(items_of(entry@.data).len() >= 1);
            lemma_assoc_push(self.entries@, (key, entry));
            lemma_push_unique(self.entries@, (key, entry));
            lemma_push_payload(self.entries@, (key, entry));
        }
        self.entries.push((key, entry));
        proof {
            assert(self@ =~= push_step(old_map, k@, vals.deep_view(), now, at_front).0);
        }
        Ok(n)
    }

    /// `LPOP k count`: pop up to `count` heads; a drained list removes
    /// the key.
    pub fn lpop(&mut self, k: &Vec<u8>, count: usize) -> (r: Result<
        Option<Vec<Vec<u8>>>,
        TypeErr,
    >)
        requires
            old(self).wf(),
        ensures
            final(self).wf(),
            final(self)@ == lpop_step(old(self)@, k@, count as int).0,
            match r {
                Ok(Some(popped)) => lpop_step(old(self)@, k@, count as int).1 == PopOut::Popped(
                    popped.deep_view(),
                ),
                Ok(None) => lpop_step(old(self)@, k@, count as int).1 is Missing,
                Err(_) => lpop_step(old(self)@, k@, count as int).1 is Wrong,
            },
    {
        let ghost old_map = self@;
        match self.find(k) {
            None => Ok(None),
            Some(i) => {
                match &self.entries[i].1.data {
                    Data::Str(_) => {
                        return Err(TypeErr);
                    },
                    Data::List(_) => {},
                }
                proof {
                    lemma_assoc_remove(self.entries@, i as int);
                    lemma_remove_unique(self.entries@, i as int);
                    lemma_remove_payload(self.entries@, i as int);
                }
                let (key, mut entry) = self.entries.remove(i);
                let ghost base_items = items_of(entry@.data);
                let mut popped: Vec<Vec<u8>> = Vec::new();
                match &mut entry.data {
                    Data::List(items) => {
                        let n = if count <= items.len() {
                            count
                        } else {
                            items.len()
                        };
                        let mut j: usize = 0;
                        proof {
                            assert(base_items.skip(0) =~= base_items);
                            assert(deep_of(popped@) =~= base_items.take(0));
                        }
                        while j < n
                            invariant
                                j <= n,
                                n <= base_items.len(),
                                n == if count as int <= base_items.len() {
                                    count as int
                                } else {
                                    base_items.len() as int
                                },
                                items@.len() == base_items.len() - j,
                                popped@.len() == j,
                                deep_of(items@) == base_items.skip(j as int),
                                deep_of(popped@) == base_items.take(j as int),
                            decreases n - j,
                        {
                            let ghost items0 = items@;
                            let ghost popped0 = popped@;
                            let head = items.remove(0);
                            popped.push(head);
                            j += 1;
                            proof {
                                assert forall|x: int|
                                    0 <= x < items@.len() implies deep_of(items@)[x]
                                    == base_items.skip(j as int)[x] by {
                                    assert(items@[x] == items0[x + 1]);
                                    assert(deep_of(items0)[x + 1] == items0[x + 1]@);
                                }
                                assert(deep_of(items@) =~= base_items.skip(j as int));
                                assert forall|x: int|
                                    0 <= x < popped@.len() implies deep_of(popped@)[x]
                                    == base_items.take(j as int)[x] by {
                                    if x < popped0.len() {
                                        assert(popped@[x] == popped0[x]);
                                        assert(deep_of(popped0)[x] == popped0[x]@);
                                    } else {
                                        assert(popped@[x] == items0[0]);
                                        assert(deep_of(items0)[0] == items0[0]@);
                                    }
                                }
                                assert(deep_of(popped@) =~= base_items.take(j as int));
                            }
                        }
                        if items.len() > 0 {
                            proof {
                                lemma_assoc_push(self.entries@, (key, entry));
                                lemma_push_unique(self.entries@, (key, entry));
            lemma_push_payload(self.entries@, (key, entry));
                            }
                            self.entries.push((key, entry));
                        }
                    },
                    Data::Str(_) => {
                        proof {
                            assert(false);
                        }
                        return Err(TypeErr);
                    },
                }
                proof {
                    assert(self@ =~= lpop_step(old_map, k@, count as int).0);
                }
                Ok(Some(popped))
            },
        }
    }

    /// `LLEN k`: length of the list, zero on a missing key.
    pub fn llen(&self, k: &Vec<u8>) -> (r: Result<usize, TypeErr>)
        requires
            self.wf(),
        ensures
            match r {
                Ok(n) => llen_step(self@, k@) == Ok::<int, TypeErr>(n as int),
                Err(_) => llen_step(self@, k@) is Err,
            },
    {
        match self.find(k) {
            None => Ok(0),
            Some(i) => match &self.entries[i].1.data {
                Data::List(items) => Ok(items.len()),
                Data::Str(_) => Err(TypeErr),
            },
        }
    }

    /// `LRANGE k start stop`: the clamped inclusive slice; a missing
    /// key yields the empty array.
    pub fn lrange(&self, k: &Vec<u8>, start: i64, stop: i64) -> (r: Result<Vec<Vec<u8>>, TypeErr>)
        requires
            self.wf(),
        ensures
            match r {
                Ok(items) => lrange_step(self@, k@, start as int, stop as int) == Ok::<
                    Seq<Seq<u8>>,
                    TypeErr,
                >(items.deep_view()),
                Err(_) => lrange_step(self@, k@, start as int, stop as int) is Err,
            },
    {
        match self.find(k) {
            None => {
                let r: Vec<Vec<u8>> = Vec::new();
                proof {
                    assert(r.deep_view() =~= Seq::<Seq<u8>>::empty());
                }
                Ok(r)
            },
            Some(i) => match &self.entries[i].1.data {
                Data::Str(_) => Err(TypeErr),
                Data::List(items) => {
                    let n = items.len() as i128;
                    let mut s: i128 = start as i128;
                    let mut e: i128 = stop as i128;
                    if s < 0 {
                        s = s + n;
                    }
                    if e < 0 {
                        e = e + n;
                    }
                    if s < 0 {
                        s = 0;
                    }
                    if e > n - 1 {
                        e = n - 1;
                    }
                    let mut out: Vec<Vec<u8>> = Vec::new();
                    if s > e {
                        proof {
                            assert(out.deep_view() =~= Seq::<Seq<u8>>::empty());
                        }
                        return Ok(out);
                    }
                    let lo: usize = s as usize;
                    let hi: usize = e as usize;
                    let mut j: usize = lo;
                    proof {
                        assert(deep_of(out@) =~= deep_of(items@).subrange(lo as int, lo as int));
                    }
                    while j <= hi
                        invariant
                            lo <= j <= hi + 1,
                            hi < items@.len(),
                            items@.len() <= usize::MAX,
                            out@.len() == j - lo,
                            deep_of(out@) == deep_of(items@).subrange(lo as int, j as int),
                        decreases hi + 1 - j,
                    {
                        let ghost out0 = out@;
                        let c = clone_bytes(&items[j]);
                        let ghost cj = j as int;
                        out.push(c);
                        j += 1;
                        proof {
                            assert forall|x: int|
                                0 <= x < out@.len() implies deep_of(out@)[x] == deep_of(
                                items@,
                            ).subrange(lo as int, j as int)[x] by {
                                if x < out0.len() {
                                    assert(out@[x] == out0[x]);
                                    assert(deep_of(out0)[x] == out0[x]@);
                                } else {
                                    assert(out@[x] == c);
                                    assert(deep_of(items@)[cj] == items@[cj]@);
                                }
                            }
                            assert(deep_of(out@) =~= deep_of(items@).subrange(lo as int, j as int));
                        }
                    }
                    Ok(out)
                },
            },
        }
    }
}

/// Move `vals` into `items`, appending in order at the back or
/// inserting one by one at the front; returns the new length.
fn push_items(items: &mut Vec<Vec<u8>>, vals: Vec<Vec<u8>>, at_front: bool) -> (n: usize)
    ensures
        final(items).deep_view() == pushed_items(old(items).deep_view(), vals.deep_view(), at_front),
        n == final(items).deep_view().len(),
{
    let ghost base = deep_of(items@);
    let ghost vs = deep_of(vals@);
    let mut j: usize = 0;
    let total = vals.len();
    let mut rest = vals;
    proof {
        assert(vs.skip(0) =~= vs);
        assert(vs.take(0).reverse() + base =~= base);
        assert(base + vs.take(0) =~= base);
    }
    while j < total
        invariant
            j <= total,
            total == vs.len(),
            rest@.len() == vs.len() - j,
            deep_of(rest@) == vs.skip(j as int),
            deep_of(items@) == if at_front {
                vs.take(j as int).reverse() + base
            } else {
                base + vs.take(j as int)
            },
        decreases total - j,
    {
        let ghost rest0 = rest@;
        let ghost items0 = items@;
        let v = rest.remove(0);
        if at_front {
            items.insert(0, v);
        } else {
            items.push(v);
        }
        j += 1;
        proof {
            assert forall|x: int|
                0 <= x < rest@.len() implies deep_of(rest@)[x] == vs.skip(j as int)[x] by {
                assert(rest@[x] == rest0[x + 1]);
                assert(deep_of(rest0)[x + 1] == rest0[x + 1]@);
            }
            assert(deep_of(rest@) =~= vs.skip(j as int));
            assert(deep_of(rest0)[0] == rest0[0]@);
            assert(v@ == vs[j as int - 1]);
            assert(items@.len() == items0.len() + 1);
            assert(deep_of(items0).len() == items0.len());
            if at_front {
                assert(deep_of(items0) == vs.take(j as int - 1).reverse() + base);
                assert(vs.take(j as int).reverse().len() == j);
                assert forall|x: int|
                    0 <= x < items@.len() implies deep_of(items@)[x] == (vs.take(
                    j as int,
                ).reverse() + base)[x] by {
                    assert(deep_of(items@)[x] == items@[x]@);
                    if x == 0 {
                        assert(items@[0] == v);
                        assert(vs.take(j as int).reverse()[0] == vs.take(j as int)[j as int - 1]);
                        assert((vs.take(j as int).reverse() + base)[0] == vs[j as int - 1]);
                    } else {
                        assert(items@[x] == items0[x - 1]);
                        assert(deep_of(items0)[x - 1] == items0[x - 1]@);
                        if x < j {
                            assert((vs.take(j as int).reverse() + base)[x] == vs.take(
                                j as int,
                            ).reverse()[x]);
                            assert(vs.take(j as int).reverse()[x] == vs.take(j as int)[j as int - 1
                                - x]);
                            assert((vs.take(j as int - 1).reverse() + base)[x - 1] == vs.take(
                                j as int - 1,
                            ).reverse()[x - 1]);
                            assert(vs.take(j as int - 1).reverse()[x - 1] == vs.take(j as int - 1)[j
                                as int - 1 - x]);
                        } else {
                            assert((vs.take(j as int).reverse() + base)[x] == base[x - j]);
                            assert((vs.take(j as int - 1).reverse() + base)[x - 1] == base[x - j]);
                        }
                    }
                }
                assert(deep_of(items@) =~= vs.take(j as int).reverse() + base);
            } else {
                assert(deep_of(items0) == base + vs.take(j as int - 1));
                assert((base + vs.take(j as int)).len() == base.len() + j);
                assert forall|x: int|
                    0 <= x < items@.len() implies deep_of(items@)[x] == (base + vs.take(
                    j as int,
                ))[x] by {
                    assert(deep_of(items@)[x] == items@[x]@);
                    if x < items0.len() {
                        assert(items@[x] == items0[x]);
                        assert(deep_of(items0)[x] == items0[x]@);
                        assert((base + vs.take(j as int - 1))[x] == (base + vs.take(j as int))[x]);
                    } else {
                        assert(items@[x] == v);
                        assert((base + vs.take(j as int))[x] == vs[j as int - 1]);
                    }
                }
                assert(deep_of(items@) =~= base + vs.take(j as int));
            }
        }
    }
    proof {
        assert(vs.take(vs.len() as int) =~= vs);
        assert(deep_of(items@) =~= pushed_items(base, vs, at_front));
    }
    items.len()
}

} // verus!

