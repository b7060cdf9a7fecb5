//! The value model: a tagged payload (binary-safe string or list of
//! binary-safe strings) together with its creation instant and an
//! optional time-to-live in milliseconds.

use vstd::prelude::*;

verus! {

/// Payload stored under a key: either one byte string or a list of
/// byte strings.
pub enum Data {
    Str(Vec<u8>),
    List(Vec<Vec<u8>>),
}

/// Mathematical shape of a payload.
pub enum DataView {
    Str(Seq<u8>),
    List(Seq<Seq<u8>>),
}

impl View for Data {
    type V = DataView;

    open spec fn view(&self) -> DataView {
        match self {
            Data::Str(s) => DataView::Str(s@),
            Data::List(l) => DataView::List(l.deep_view()),
        }
    }
}

/// A stored value: payload, creation time (milliseconds on the
/// embedder's clock) and optional TTL in milliseconds. A missing TTL
/// means the entry never expires.
pub struct Entry {
    pub data: Data,
    pub created_at_ms: u64,
    pub ttl_ms: Option<u64>,
}

/// Mathematical shape of a stored value.
pub struct EntryView {
    pub data: DataView,
    pub created_at_ms: u64,
    pub ttl_ms: Option<u64>,
}

impl View for Entry {
    type V = EntryView;

    open spec fn view(&self) -> EntryView {
        EntryView {
            data: self.data@,
            created_at_ms: self.created_at_ms,
            ttl_ms: self.ttl_ms,
        }
    }
}

/// An entry is expired at instant `now` when it carries a TTL and the
/// instant lies strictly beyond creation time plus TTL.
pub open spec fn expired_at(e: EntryView, now: u64) -> bool {
    match e.ttl_ms {
        Some(t) => now > e.created_at_ms + t,
        None => false,
    }
}

impl Entry {
    /// Fresh string entry created at `now` with the given TTL.
    pub fn new_str(bytes: Vec<u8>, now: u64, ttl_ms: Option<u64>) -> (r: Entry)
        ensures
            r@ == (EntryView { data: DataView::Str(bytes@), created_at_ms: now, ttl_ms }),
    {
        Entry { data: Data::Str(bytes), created_at_ms: now, ttl_ms }
    }

    /// Fresh empty list entry created at `now`; list entries carry no TTL.
    pub fn new_list(now: u64) -> (r: Entry)
        ensures
            r@ == (EntryView {
                data: DataView::List(Seq::empty()),
                created_at_ms: now,
                ttl_ms: None,
            }),
    {
        let items: Vec<Vec<u8>> = Vec::new();
        proof {
            assert(items.deep_view() =~= Seq::<Seq<u8>>::empty());
        }
        Entry { data: Data::List(items), created_at_ms: now, ttl_ms: None }
    }

    /// Whether this entry is expired at instant `now`.
    pub fn is_expired_at(&self, now: u64) -> (r: bool)
        ensures
            r == expired_at(self@, now),
    {
        match self.ttl_ms {
            Some(t) => now > self.created_at_ms && now - self.created_at_ms > t,
            None => false,
        }
    }
}

} // verus!
