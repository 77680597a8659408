//! A cache entry: a value with an optional time-to-live and two timestamps.

use vstd::prelude::*;

verus! {

/// Mathematical model of an [`Entry`]. All times are in milliseconds; the
/// caches read them from one clock, so only differences of them matter.
pub ghost struct EntryModel {
    pub value: Seq<char>,
    pub ttl_ms: Option<u64>,
    pub created_at_ms: u64,
    pub last_accessed_at_ms: u64,
}

/// How long an entry has been in the cache at time `now_ms`. Zero if the
/// clock has moved backwards past the creation time.
pub open spec fn spec_age(e: EntryModel, now_ms: u64) -> u64 {
    if now_ms >= e.created_at_ms {
        (now_ms - e.created_at_ms) as u64
    } else {
        0
    }
}

/// Idle time: how long since the entry was last accessed.
pub open spec fn spec_idle_time(e: EntryModel, now_ms: u64) -> u64 {
    if now_ms >= e.last_accessed_at_ms {
        (now_ms - e.last_accessed_at_ms) as u64
    } else {
        0
    }
}

/// An entry is expired exactly when it has a time-to-live and its age
/// exceeds it. An entry without a time-to-live never expires.
pub open spec fn spec_is_expired(e: EntryModel, now_ms: u64) -> bool {
    match e.ttl_ms {
        Some(t) => spec_age(e, now_ms) > t,
        None => false,
    }
}

/// The entry as freshly constructed at time `now_ms`.
pub open spec fn spec_fresh(value: Seq<char>, ttl_ms: Option<u64>, now_ms: u64) -> EntryModel {
    EntryModel { value, ttl_ms, created_at_ms: now_ms, last_accessed_at_ms: now_ms }
}

/// The entry after its last-accessed time is moved to `now_ms`.
pub open spec fn spec_touched(e: EntryModel, now_ms: u64) -> EntryModel {
    EntryModel { last_accessed_at_ms: now_ms, ..e }
}

/// The entry after its value is replaced and it is touched. The creation
/// time and the time-to-live are kept.
pub open spec fn spec_updated(e: EntryModel, value: Seq<char>, now_ms: u64) -> EntryModel {
    EntryModel { value, last_accessed_at_ms: now_ms, ..e }
}

/// A timestamped cache entry. Constructors stamp both timestamps with the
/// time they are given; the caches pass the system clock in.
#[derive(Debug)]
pub struct Entry {
    value: String,
    ttl_ms: Option<u64>,
    created_at_ms: u64,
    last_accessed_at_ms: u64,
}

impl View for Entry {
    type V = EntryModel;

    closed spec fn view(&self) -> EntryModel {
        EntryModel {
            value: self.value@,
            ttl_ms: self.ttl_ms,
            created_at_ms: self.created_at_ms,
            last_accessed_at_ms: self.last_accessed_at_ms,
        }
    }
}

impl Entry {
    /// A new entry without a time-to-live, created at time `now_ms`.
    pub fn new(value: &str, now_ms: u64) -> (e: Entry)
        ensures
            e@ == spec_fresh(value@, None, now_ms),
    {
        Entry::with_ttl(value, None, now_ms)
    }

    /// A new entry with an optional time-to-live, created at time `now_ms`.
    pub fn with_ttl(value: &str, ttl_ms: Option<u64>, now_ms: u64) -> (e: Entry)
        ensures
            e@ == spec_fresh(value@, ttl_ms, now_ms),
    {
        Entry {
            value: value.to_owned(),
            ttl_ms,
            created_at_ms: now_ms,
            last_accessed_at_ms: now_ms,
        }
    }

    /// The stored value.
    pub fn value(&self) -> (v: &str)
        ensures
            v@ == self@.value,
    {
        self.value.as_str()
    }

    /// The stored value as an owned string.
    pub fn value_string(&self) -> (v: String)
        ensures
            v@ == self@.value,
    {
        self.value.clone()
    }

    /// The entry's time-to-live, if it has one.
    pub fn ttl(&self) -> (t: Option<u64>)
        ensures
            t == self@.ttl_ms,
    {
        self.ttl_ms
    }

    /// Whether the entry is expired at time `now_ms`.
    pub fn is_expired(&self, now_ms: u64) -> (r: bool)
        ensures
            r == spec_is_expired(self@, now_ms),
    {
        match self.ttl_ms {
            Some(t) => self.age(now_ms) > t,
            None => false,
        }
    }

    /// Moves the last-accessed time to `now_ms`; nothing else changes.
    pub fn touch(&mut self, now_ms: u64)
        ensures
            final(self)@ == spec_touched(old(self)@, now_ms),
    {
        self.last_accessed_at_ms = now_ms;
    }

    /// Replaces the value and touches the entry.
    pub fn update_value(&mut self, new_value: &str, now_ms: u64)
        ensures
            final(self)@ == spec_updated(old(self)@, new_value@, now_ms),
    {
        self.value = new_value.to_owned();
        self.last_accessed_at_ms = now_ms;
    }

    /// A copy of the entry with its last-accessed time moved to `now_ms`.
    pub fn touched(&self, now_ms: u64) -> (e: Entry)
        ensures
            e@ == spec_touched(self@, now_ms),
    {
        Entry {
            value: self.value.clone(),
            ttl_ms: self.ttl_ms,
            created_at_ms: self.created_at_ms,
            last_accessed_at_ms: now_ms,
        }
    }

    /// A copy of the entry with the value replaced and the entry touched.
    pub fn updated(&self, new_value: &str, now_ms: u64) -> (e: Entry)
        ensures
            e@ == spec_updated(self@, new_value@, now_ms),
    {
        Entry {
            value: new_value.to_owned(),
            ttl_ms: self.ttl_ms,
            created_at_ms: self.created_at_ms,
            last_accessed_at_ms: now_ms,
        }
    }

    /// How long the entry has been in the cache at time `now_ms`.
    pub fn age(&self, now_ms: u64) -> (a: u64)
        ensures
            a == spec_age(self@, now_ms),
    {
        if now_ms >= self.created_at_ms {
            now_ms - self.created_at_ms
        } else {
            0
        }
    }

    /// How long since the entry was last read or updated, at time `now_ms`.
    pub fn idle_time(&self, now_ms: u64) -> (a: u64)
        ensures
            a == spec_idle_time(self@, now_ms),
    {
        if now_ms >= self.last_accessed_at_ms {
            now_ms - self.last_accessed_at_ms
        } else {
            0
        }
    }
}

} // verus!
