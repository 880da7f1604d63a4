//! The logic of WebGen Files, a file manager for the WebGen desktop: the file list's rows and
//! their order, the Info dialog, file associations, saved network mounts, the Places sidebar
//! and the volumes the machine can mount. The program around it reads the disk, runs the
//! commands and draws the window; every decision it shows is made here, with its contract.
pub mod text;
pub mod sizes;
pub mod sort;
pub mod registry;
pub mod mounts;
pub mod places;
pub mod assoc;
pub mod blockdev;
pub mod entry;
pub mod meta;
pub mod nav;
pub mod actions;
pub mod sidebar;
