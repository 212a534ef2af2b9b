use vstd::prelude::*;
use std::time::{Duration, SystemTime};

use crate::ident::{bundle_id_spec, compute_bundle_id, is_lower_hex_digit};

verus! {

/// Identifier of a bundle: a short lowercase hexadecimal string.
pub type BundleId = String;

/// Delivery priority of a bundle.
#[derive(Debug, Clone, Copy, PartialEq, Eq, Structural)]
pub enum Priority {
    Routine,
    Important,
    Urgent,
}

/// The numeric code of a priority, as it enters a bundle's identifier.
pub open spec fn priority_code_spec(priority: Priority) -> u8 {
    match priority {
        Priority::Routine => 0,
        Priority::Important => 1,
        Priority::Urgent => 2,
    }
}

pub fn priority_code(priority: Priority) -> (code: u8)
    ensures
        code == priority_code_spec(priority),
{
    match priority {
        Priority::Routine => 0,
        Priority::Important => 1,
        Priority::Urgent => 2,
    }
}

/// The routing state of a message: identity, lifetime, hop budget,
/// priority and payload size.
#[derive(Debug)]
pub struct Bundle {
    pub id: BundleId,
    pub created_at_ms: u64,
    pub expires_at_ms: u64,
    pub hop_limit: u8,
    pub priority: Priority,
    pub payload_bytes: usize,
}

/// The abstract value of a bundle: its fields, with the identifier as text.
pub struct BundleView {
    pub id: Seq<char>,
    pub created_at_ms: u64,
    pub expires_at_ms: u64,
    pub hop_limit: u8,
    pub priority: Priority,
    pub payload_bytes: usize,
}

impl View for Bundle {
    type V = BundleView;

    open spec fn view(&self) -> BundleView {
        BundleView {
            id: self.id@,
            created_at_ms: self.created_at_ms,
            expires_at_ms: self.expires_at_ms,
            hop_limit: self.hop_limit,
            priority: self.priority,
            payload_bytes: self.payload_bytes,
        }
    }
}

impl Clone for Bundle {
    fn clone(&self) -> (copy: Self)
        ensures
            copy == *self,
    {
        Bundle {
            id: self.id.clone(),
            created_at_ms: self.created_at_ms,
            expires_at_ms: self.expires_at_ms,
            hop_limit: self.hop_limit,
            priority: self.priority,
            payload_bytes: self.payload_bytes,
        }
    }
}

impl Bundle {
    /// A bundle is expired from its expiry instant on.
    pub open spec fn expired_at(&self, now_ms: u64) -> bool {
        now_ms >= self.expires_at_ms
    }

    /// Once expired, a bundle stays expired.
    pub proof fn lemma_expiry_is_permanent(&self, t1: u64, t2: u64)
        requires
            self.expired_at(t1),
            t1 <= t2,
        ensures
            self.expired_at(t2),
    {
    }

    pub fn is_expired_at(&self, now_ms: u64) -> (expired: bool)
        ensures
            expired == self.expired_at(now_ms),
    {
        now_ms >= self.expires_at_ms
    }

    pub fn can_forward(&self) -> (ok: bool)
        ensures
            ok == (self.hop_limit > 0),
    {
        self.hop_limit > 0
    }

    /// The bundle as it leaves this node: same identity, one hop less.
    pub fn forwarded(&self) -> (next: Option<Self>)
        ensures
            self.hop_limit == 0 ==> next is None,
            self.hop_limit > 0 ==> next == Some((Bundle { hop_limit: (self.hop_limit - 1) as u8, ..*self })),
    {
        if !self.can_forward() {
            return None;
        }
        let mut next = self.clone();
        next.hop_limit = next.hop_limit - 1;
        Some(next)
    }
}

/// The wall clock, `std::time::SystemTime`.
#[verifier::external_type_specification]
#[verifier::external_body]
pub struct ExSystemTime(SystemTime);

/// Calls `SystemTime::now`. Nothing is claimed of the instant it returns.
#[verifier::external_body]
fn system_now() -> SystemTime {
    SystemTime::now()
}

/// Calls `SystemTime::duration_since` against `UNIX_EPOCH`, mapping its
/// error (a clock set before the epoch) to `None`. Nothing is claimed of
/// the duration.
#[verifier::external_body]
fn since_unix_epoch(t: &SystemTime) -> Option<Duration> {
    t.duration_since(std::time::UNIX_EPOCH).ok()
}

/// The whole milliseconds in a duration, as `Duration::as_millis` gives them.
pub uninterp spec fn duration_as_millis(d: Duration) -> u128;

/// Calls `Duration::as_millis`. Trusted: the result is `duration_as_millis`
/// of the duration, a function of the duration alone; nothing more is
/// claimed of it.
#[verifier::external_body]
fn duration_millis(d: &Duration) -> (ms: u128)
    ensures
        ms == duration_as_millis(*d),
{
    d.as_millis()
}

/// Calls `rand::random` for sixteen bytes of entropy. The bytes depend on
/// chance; nothing is claimed of them.
#[verifier::external_body]
fn random_entropy() -> [u8; 16] {
    rand::random()
}

/// Milliseconds in the time since the Unix epoch, truncated to 64 bits;
/// 0 when the clock reads before the epoch.
pub open spec fn epoch_millis_spec(since: Option<Duration>) -> u64 {
    match since {
        Some(d) => duration_as_millis(d) as u64,
        None => 0u64,
    }
}

pub fn epoch_millis(since: Option<Duration>) -> (ms: u64)
    ensures
        ms == epoch_millis_spec(since),
{
    match since {
        Some(d) => {
            let millis: u128 = duration_millis(&d);
            millis as u64
        },
        None => 0,
    }
}

/// The clock in milliseconds since the Unix epoch; 0 when the clock reads
/// before the epoch, truncated to 64 bits.
pub fn now_ms() -> (ms: u64)
    ensures
        exists|since: Option<Duration>| ms == epoch_millis_spec(since),
{
    let now = system_now();
    let since = since_unix_epoch(&now);
    let ghost read = since;
    let ms = epoch_millis(since);
    assert(ms == epoch_millis_spec(read));
    ms
}

impl Bundle {
    /// Creates a bundle for `payload`, stamped with the current time and a
    /// fresh random identifier.
    pub fn new(payload: &[u8], lifetime: Duration, hop_limit: u8, priority: Priority) -> (b: Self)
        ensures
            b.hop_limit == hop_limit,
            b.priority == priority,
            b.payload_bytes == payload@.len(),
            exists|since: Option<Duration>| b.created_at_ms == epoch_millis_spec(since),
            b.expires_at_ms == (if b.created_at_ms + (duration_as_millis(lifetime) as u64) > u64::MAX {
                u64::MAX as int
            } else {
                b.created_at_ms + (duration_as_millis(lifetime) as u64)
            }),
            b.id@.len() == 24,
            forall|i: int| 0 <= i < b.id@.len() ==> is_lower_hex_digit(#[trigger] b.id@[i]),
            exists|entropy: Seq<u8>|
                entropy.len() == 16 && b.id@ == bundle_id_spec(
                    b.created_at_ms,
                    b.expires_at_ms,
                    hop_limit,
                    priority,
                    payload@,
                    entropy,
                ),
    {
        let created_at_ms = now_ms();
        let lifetime_ms = duration_millis(&lifetime) as u64;
        let entropy = random_entropy();
        Self::from_parts(payload, created_at_ms, lifetime_ms, hop_limit, priority, &entropy)
    }

    /// Creates a bundle from an explicit creation instant, lifetime and
    /// entropy; the expiry saturates at `u64::MAX`.
    pub fn from_parts(
        payload: &[u8],
        created_at_ms: u64,
        lifetime_ms: u64,
        hop_limit: u8,
        priority: Priority,
        entropy: &[u8; 16],
    ) -> (b: Self)
        ensures
            b.created_at_ms == created_at_ms,
            b.expires_at_ms == (if created_at_ms + lifetime_ms > u64::MAX {
                u64::MAX as int
            } else {
                created_at_ms + lifetime_ms
            }),
            b.hop_limit == hop_limit,
            b.priority == priority,
            b.payload_bytes == payload@.len(),
            b.id@ == bundle_id_spec(created_at_ms, b.expires_at_ms, hop_limit, priority, payload@, entropy@),
            b.id@.len() == 24,
            forall|i: int| 0 <= i < b.id@.len() ==> is_lower_hex_digit(#[trigger] b.id@[i]),
    {
        let expires_at_ms = created_at_ms.saturating_add(lifetime_ms);
        let id = compute_bundle_id(created_at_ms, expires_at_ms, hop_limit, priority, payload, entropy);
        Bundle { id, created_at_ms, expires_at_ms, hop_limit, priority, payload_bytes: payload.len() }
    }
}

} // verus!
