//! A one-way directory mirror: the reconciliation engine that keeps a remote
//! tree equal to a local one.
//!
//! The engine performs no I/O. It decides; a driver performs. The modules,
//! leaves first:
//!
//! - [`path`]: paths as sequences of components.
//! - [`filter`]: the blacklist.
//! - [`intent`], [`coalesce`]: change kinds, and the reduction of a window of
//!   notifications to one net action per path.
//! - [`remote`]: the requests that the engine hands to its driver, and the
//!   answers it takes back.
//! - [`engine`], [`plan`], [`worker`], [`ops`]: the setting of a mirror, the
//!   tasks that each decision unfolds into, the work queue that carries an
//!   operation through its requests, and the operations themselves.
//! - [`dispatch`], [`cli`]: the decisions of the event loop, and the settings
//!   of a run.
//! - [`model`], [`removal`], [`transfer`], [`fullsync`]: a model of the two
//!   trees, and what the operations are proved to achieve in it.

pub mod cli;
pub mod coalesce;
pub mod dispatch;
pub mod engine;
pub mod filter;
pub mod fullsync;
pub mod intent;
pub mod model;
pub mod ops;
pub mod path;
pub mod plan;
pub mod remote;
pub mod removal;
pub mod transfer;
pub mod worker;
