//! Placing rewritten code into an image.
//!
//! A rewritten function is not written back over the original. It is encoded for
//! a fresh address in an appended section, described to the unwinder by an entry
//! of its own, and the original entry becomes a jump to the copy. A function
//! about which there is any doubt is left alone.

pub mod address;
pub mod calls;
pub mod code;
pub mod decoder;
pub mod error;
pub mod functions;
pub mod laws;
pub mod layout;
pub mod linking;
pub mod markers;
pub mod marking;
pub mod memory;
pub mod moving;
pub mod protect;
pub mod references;
pub mod region;
pub mod relocated;
pub mod rewrite;
pub mod scanning;
pub mod sdk;
pub mod sdk_protect;
pub mod sdk_run;
pub mod slice;
pub mod steps;
pub mod stub;
pub mod unwind;
pub mod vm;
pub mod vm_embed;
pub mod writing;
