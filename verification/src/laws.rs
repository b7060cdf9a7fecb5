//! Laws of the engine, stated over the abstract step functions and
//! proved once and for all.

use vstd::prelude::*;

use crate::dispatch::EngineView;
use crate::dispatch::step_push;
use crate::store::GetOut;
use crate::store::PopOut;
use crate::store::TypeErr;
use crate::store::get_step;
use crate::store::items_of;
use crate::store::llen_step;
use crate::store::lpop_step;
use crate::store::lrange_slice;
use crate::store::lrange_step;
use crate::store::payload_wf;
use crate::store::pushed_items;
use crate::store::set_step;
use crate::value::DataView;
use crate::value::EntryView;
use crate::value::expired_at;

verus! {

/// Every key the keyspace counts is observable: an unexpired string
/// key answers `GET` with its value, and a list key answers `LLEN`
/// with its positive length. (`DBSIZE` itself returns exactly the
/// number of keys: see `Store::dbsize`.)
pub proof fn lemma_counted_key_observed(m: Map<Seq<u8>, EntryView>, k: Seq<u8>, now: u64)
    requires
        m.dom().contains(k),
        payload_wf(m[k].data),
    ensures
        m[k].data matches DataView::Str(s) ==> (!expired_at(m[k], now) ==> get_step(m, k, now).1
            == GetOut::Val(s)),
        m[k].data matches DataView::List(l) ==> llen_step(m, k) == Ok::<int, TypeErr>(
            l.len() as int,
        ) && l.len() >= 1,
{
}

/// A pop that drains the list removes the key: afterwards `LLEN`
/// answers zero and `LRANGE 0 -1` answers the empty array.
pub proof fn lemma_lpop_drains(m: Map<Seq<u8>, EntryView>, k: Seq<u8>, count: int)
    requires
        m.dom().contains(k),
        m[k].data is List,
        count >= items_of(m[k].data).len(),
    ensures
        ({
            let m2 = lpop_step(m, k, count).0;
            &&& lpop_step(m, k, count).1 == PopOut::Popped(items_of(m[k].data))
            &&& !m2.dom().contains(k)
            &&& llen_step(m2, k) == Ok::<int, TypeErr>(0)
            &&& lrange_step(m2, k, 0, -1) == Ok::<Seq<Seq<u8>>, TypeErr>(Seq::empty())
        }),
{
    let items = items_of(m[k].data);
    assert(items.skip(items.len() as int) =~= Seq::<Seq<u8>>::empty());
    assert(items.take(items.len() as int) =~= items);
}

/// The `LRANGE` slice, element by element: after normalizing negative
/// indices and clamping, the result is exactly the inclusive window.
pub proof fn lemma_lrange_elements(l: Seq<Seq<u8>>, start: int, stop: int)
    ensures
        ({
            let n = l.len() as int;
            let s0 = if start < 0 {
                start + n
            } else {
                start
            };
            let e0 = if stop < 0 {
                stop + n
            } else {
                stop
            };
            let s1 = if s0 < 0 {
                0
            } else {
                s0
            };
            let e1 = if e0 > n - 1 {
                n - 1
            } else {
                e0
            };
            let r = lrange_slice(l, start, stop);
            &&& r.len() == (if s1 > e1 {
                0
            } else {
                e1 - s1 + 1
            })
            &&& forall|i: int| 0 <= i < r.len() ==> r[i] == l[s1 + i]
        }),
{
}

/// `LRANGE k 0 -1` returns the whole list.
pub proof fn lemma_lrange_full(l: Seq<Seq<u8>>)
    ensures
        lrange_slice(l, 0, -1) == l,
{
    if l.len() >= 1 {
        assert(l.subrange(0, l.len() as int) =~= l);
    } else {
        assert(lrange_slice(l, 0, -1) =~= l);
    }
}

/// Waiter FIFO: with waiters blocked on `k` in queue order and one
/// push of `m` values, the first `min(m, n)` waiters receive, in
/// order, exactly the elements that non-blocking head pops on the
/// post-push list would yield.
pub proof fn lemma_waiter_fifo(v: EngineView, args: Seq<Seq<u8>>, now: u64, at_front: bool)
    requires
        args.len() >= 3,
        v.waiters.dom().contains(args[1]),
        v.store.dom().contains(args[1]) ==> v.store[args[1]].data is List,
    ensures
        ({
            let s = step_push(v, args, now, at_front);
            let vals = args.skip(2);
            let old_items = if v.store.dom().contains(args[1]) {
                items_of(v.store[args[1]].data)
            } else {
                Seq::empty()
            };
            let post_push = pushed_items(old_items, vals, at_front);
            let q = v.waiters[args[1]];
            let f = if vals.len() <= q.len() {
                vals.len() as int
            } else {
                q.len() as int
            };
            &&& s.2.len() == f
            &&& forall|i: int| 0 <= i < f ==> s.2[i] == (q[i], post_push[i])
        }),
{
    let k = args[1];
    let vals = args.skip(2);
    let old_items = if v.store.dom().contains(k) {
        items_of(v.store[k].data)
    } else {
        Seq::<Seq<u8>>::empty()
    };
    let post_push = pushed_items(old_items, vals, at_front);
    let q = v.waiters[k];
    let f = if vals.len() <= q.len() {
        vals.len() as int
    } else {
        q.len() as int
    };
    assert(q.take(f).len() == f);
    assert(post_push.take(f).len() == f);
    assert forall|i: int| 0 <= i < f implies step_push(v, args, now, at_front).2[i] == (
        q[i],
        post_push[i],
    ) by {
        assert(q.take(f)[i] == q[i]);
        assert(post_push.take(f)[i] == post_push[i]);
    }
}

/// Expiry is final: a `GET` that observes expiry deletes the key, and
/// every later `GET` keeps answering nil — and keeps the key absent —
/// until something writes it again.
pub proof fn lemma_expiry_monotone(m: Map<Seq<u8>, EntryView>, k: Seq<u8>, now: u64, later: u64)
    requires
        m.dom().contains(k),
        expired_at(m[k], now),
    ensures
        ({
            let m2 = get_step(m, k, now).0;
            &&& get_step(m, k, now).1 is Nil
            &&& !m2.dom().contains(k)
            &&& get_step(m2, k, later).1 is Nil
            &&& get_step(m2, k, later).0 == m2
        }),
{
}

/// Type safety: a reply never crosses kinds. A list key never yields
/// a string value from `GET`; a string key never yields a list reply
/// from `LLEN`, `LRANGE` or `LPOP`; and a value returned by `GET` is
/// exactly the stored string.
pub proof fn lemma_type_safety(
    m: Map<Seq<u8>, EntryView>,
    k: Seq<u8>,
    now: u64,
    start: int,
    stop: int,
    count: int,
)
    requires
        m.dom().contains(k),
    ensures
        m[k].data is List && !expired_at(m[k], now) ==> get_step(m, k, now).1 is Wrong,
        m[k].data is Str ==> llen_step(m, k) is Err && lrange_step(m, k, start, stop) is Err
            && lpop_step(m, k, count).1 is Wrong,
        forall|s: Seq<u8>|
            get_step(m, k, now).1 == GetOut::Val(s) ==> m[k].data == DataView::Str(s),
{
}

/// Round trip: `SET k b` then `GET k` yields exactly `b`, at any
/// instant at which the entry has not expired, and leaves the
/// keyspace as the `SET` left it.
pub proof fn lemma_set_get_roundtrip(
    m: Map<Seq<u8>, EntryView>,
    k: Seq<u8>,
    b: Seq<u8>,
    ttl_ms: Option<u64>,
    now: u64,
    later: u64,
)
    requires
        !expired_at(
            EntryView { data: DataView::Str(b), created_at_ms: now, ttl_ms },
            later,
        ),
    ensures
        get_step(set_step(m, k, b, ttl_ms, now), k, later).1 == GetOut::Val(b),
        get_step(set_step(m, k, b, ttl_ms, now), k, later).0 == set_step(m, k, b, ttl_ms, now),
{
}

} // verus!
