//! A typed, zero-copy publish/subscribe middleware core: instance naming,
//! the slot engine with crash-safe reference accounting, the service
//! registry, and the typed producer/consumer surface built on top of them.
pub mod error;
pub mod config;
pub mod container;
pub mod instance;
pub mod laws;
pub mod layout;
pub mod proxy;
pub mod region;
pub mod registry;
pub mod reloc;
pub mod runtime;
pub mod skeleton;
pub mod slot;
pub mod vehicle;
