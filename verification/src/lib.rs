//! Verified building blocks of the Aero PC emulator tooling: PCI interrupt
//! routing, the legacy `AEROSPRS` sparse disk format, in-place REGF hive
//! editing, BIOS ROM assembly and the pure helpers of the machine runner.

pub mod pci_routing;
pub mod storage;
pub mod sparse;
pub mod hive;
pub mod text;
pub mod tier1;
pub mod cli;
pub mod bios;
pub mod inspect;
pub mod resume;
pub mod patch;
pub mod devnodes;
pub mod resources;
pub mod lfb;
pub mod physmap;
pub mod procscan;
pub mod sce;
pub mod bootvid;
pub mod ramscan;
pub mod linear;
pub mod runloop;
pub mod vga;
pub mod jitcache;
