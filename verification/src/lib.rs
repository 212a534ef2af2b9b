//! Sombra: a delay-tolerant bundle queue for intermittent, degraded networks.
//!
//! The library holds the verified core: bundles and their identifiers, a
//! bounded deduplication cache, the priority scheduler and the durable
//! store's state machine (enqueue, readiness, retry backoff and expiry).
pub mod bundle;
pub mod dedup;
pub mod ident;
pub mod scheduler;
pub mod store;
pub mod simulation;
pub mod transport;

pub use bundle::{Bundle, BundleId, Priority};
pub use dedup::DedupCache;
pub use scheduler::{BundleScheduler, ScheduleCandidate};
pub use store::{AttemptOutcome, BundleStore, EnqueueOutcome, StoreError, StoredBundle};
pub use simulation::DeliveryTally;
pub use transport::TransportKind;
