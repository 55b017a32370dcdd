use vstd::prelude::*;

verus! {

/// Nanoseconds in one second; timestamps in this crate count nanoseconds.
pub const NANOS_PER_SEC: u128 = 1_000_000_000;

/// `std::time::Instant`, the monotonic clock reading a [`Clock`] counts from.
#[verifier::external_type_specification]
#[verifier::external_body]
pub struct ExInstant(std::time::Instant);

/// Reads the monotonic clock (`std::time::Instant::now`). Nothing is promised
/// of the reading: it depends on the time of the call.
#[verifier::external_body]
fn instant_now() -> std::time::Instant {
    std::time::Instant::now()
}

/// Nanoseconds elapsed since `origin` (`std::time::Instant::elapsed`, read as
/// whole nanoseconds). Nothing is promised of the value: it depends on the
/// time of the call.
#[verifier::external_body]
fn elapsed_nanos(origin: &std::time::Instant) -> u128 {
    origin.elapsed().as_nanos()
}

/// A monotonic clock that reads nanoseconds since its own creation.
pub struct Clock {
    origin: std::time::Instant,
}

impl Clock {
    /// A clock whose zero is the moment of this call.
    pub fn new() -> Self {
        Clock { origin: instant_now() }
    }

    /// Nanoseconds since the clock was created, saturating at `u64::MAX`.
    pub fn now_ns(&self) -> u64 {
        let nanos = elapsed_nanos(&self.origin);
        if nanos > u64::MAX as u128 {
            u64::MAX
        } else {
            nanos as u64
        }
    }
}

/// The expiry instant of an entry written at `now` with a TTL of `ttl` seconds.
pub open spec fn expiry_after(now: u64, ttl: Option<u64>) -> Option<u128> {
    match ttl {
        Some(secs) => Some((now + secs * NANOS_PER_SEC) as u128),
        None => None,
    }
}

/// Whether an entry with expiry `expires_at` is expired at `now`.
pub open spec fn expired_at(expires_at: Option<u128>, now: u64) -> bool {
    match expires_at {
        Some(expiry) => now >= expiry,
        None => false,
    }
}

/// Nanoseconds an entry with expiry `expires_at` still has to live at `now`.
pub open spec fn remaining_at(expires_at: Option<u128>, now: u64) -> Option<u128> {
    match expires_at {
        Some(expiry) => Some(if expiry > now { (expiry - now) as u128 } else { 0u128 }),
        None => None,
    }
}

/// A stored value with its optional expiry and last access time.
#[derive(Debug)]
pub struct Entry {
    pub data: Vec<u8>,
    /// Expiry instant in nanoseconds on the owning clock; `None` never expires.
    pub expires_at: Option<u128>,
    /// Nanoseconds on the owning clock of the last write or read.
    pub last_access: u64,
    /// Length of `data` in bytes.
    pub size: usize,
}

impl Entry {
    /// An entry holding `data`, written at `now`, that expires `ttl` seconds later.
    pub fn new(data: Vec<u8>, ttl: Option<u64>, now: u64) -> (entry: Self)
        ensures
            entry.data@ == data@,
            entry.expires_at == expiry_after(now, ttl),
            entry.last_access == now,
            entry.size == data@.len(),
    {
        let size = data.len();
        let expires_at = match ttl {
            Some(secs) => Some(now as u128 + secs as u128 * NANOS_PER_SEC),
            None => None,
        };
        Entry { data, expires_at, last_access: now, size }
    }

    /// Whether the entry is expired at `now`.
    pub fn is_expired(&self, now: u64) -> (expired: bool)
        ensures
            expired == expired_at(self.expires_at, now),
    {
        match self.expires_at {
            Some(expiry) => now as u128 >= expiry,
            None => false,
        }
    }

    /// Nanoseconds left before expiry at `now` (zero once expired); `None`
    /// for an entry without TTL.
    pub fn ttl_remaining(&self, now: u64) -> (remaining: Option<u128>)
        ensures
            remaining == remaining_at(self.expires_at, now),
    {
        match self.expires_at {
            Some(expiry) => Some(if expiry > now as u128 { expiry - now as u128 } else { 0 }),
            None => None,
        }
    }

    /// Records an access at `now`.
    pub fn touch(&mut self, now: u64)
        ensures
            final(self).last_access == now,
            final(self).data == old(self).data,
            final(self).expires_at == old(self).expires_at,
            final(self).size == old(self).size,
    {
        self.last_access = now;
    }
}

} // verus!
