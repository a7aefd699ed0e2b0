//! The core of a hot-reloadable extension runtime for an entity-component-system host:
//! dirty detection, the artifact cache, extension discovery, the registry and its reload
//! decisions, storage surrender and restore, and the workload compiler that layers systems
//! into stages. The host performs the file, process, library and interpreter work that
//! these decisions call for.

pub mod cache;
pub mod chunks;
pub mod discovery;
pub mod env;
pub mod extension;
pub mod light;
pub mod registry;
pub mod storage;
pub mod system;
pub mod terrain;
pub mod workload;
