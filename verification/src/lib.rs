//! Filesystem policy for CDI devices, and tracing for the gateway.
//!
//! CDI, the Container Device Interface, describes what a container needs to
//! use a device. [`cdi_linux`] turns a request for devices into the device
//! nodes, mounts and groups that a sandbox policy has to admit, and refuses
//! whatever could widen the policy by accident; [`cdi_stub`] is its
//! counterpart where CDI is not available. [`tracing_setup`] decides which
//! tracer providers the gateway makes and which layers it installs.
//!
//! What holds of every derived policy is stated in [`laws`] and, entry by
//! entry, in [`grants`]; what holds of whole requests in [`requests`].

pub mod accumulator;
pub mod cdi;
pub mod cdi_linux;
pub mod cdi_stub;
pub mod collect;
pub mod devices;
pub mod grants;
pub mod laws;
pub mod ordered;
pub mod paths;
pub mod policy;
pub mod requests;
pub mod text;
pub mod tracing_setup;
pub mod upstream;
