//! An extension host for content providers: the capability interface and
//! its calling convention, the host bridge protocol, the per-provider
//! runtime state machine, the provider registry with its dispatch rules, the
//! bus that fronts native and sandboxed providers, and the plugin build plan.
//! Beside it stand the local library scanner's choices and plain records the
//! rest of the application exchanges.
pub mod abi;
pub mod bridge;
pub mod bus;
pub mod compiler;
pub mod instance;
pub mod model;
pub mod scanner;
pub mod vm;
pub mod wire;
