//! A verified core for watching USB device attachment.
//!
//! The crate models device snapshots and device sets, computes the
//! difference between two enumeration passes as attach/detach events,
//! matches events against per-listener filters, and drives the poll
//! loop as a state machine. The raw bus scan and the host-runtime
//! plumbing live outside this crate; they hand plain values in and
//! take plain values back.

pub mod device;
pub mod diff;
pub mod list;
pub mod registry;
pub mod utils;
pub mod watch;

pub use device::DeviceSet;
pub use device::UsbDevice;
pub use diff::Event;
pub use diff::EventKind;
pub use list::List;
pub use list::list;
pub use registry::EventFilter;
pub use registry::Registry;
pub use registry::WatchSubscription;
pub use utils::WatchError;
pub use utils::get_optional_u16;
pub use watch::Watch;
pub use watch::WatchPhase;
