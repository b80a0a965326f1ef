//! Brightness control for backlight and LED devices.
//!
//! The kernel shows every such device as a directory with a file for its
//! brightness and one for the greatest brightness it can have. This library
//! holds what is decided about those directories and files, and proves it:
//!
//! - [`path`] reads paths as text: their components, file names, parents,
//!   and how paths are joined and matched;
//! - [`order`] compares paths and puts things in their order;
//! - [`number`] reads and writes raw brightness values as decimal text;
//! - [`class`] names the classes of devices and their directories;
//! - [`device`] makes a device out of a path and the contents of its files;
//! - [`discovery`] picks the devices out of the listings of the class
//!   directories;
//! - [`controller`] says how a brightness is set and what follows from the
//!   result;
//! - [`save`] keeps and restores the brightness of devices;
//! - [`percent`] tells which bit patterns are percentages;
//! - [`perception`] holds the rules that relate a percentage to a raw
//!   brightness as far as whole numbers decide them.
//!
//! The library touches neither the file system nor the system bus. A caller
//! lists directories, reads and writes files and talks to the bus, and hands
//! what it got to the functions here.

pub mod class;
pub mod controller;
pub mod device;
pub mod discovery;
pub mod error;
pub mod number;
pub mod order;
pub mod path;
pub mod percent;
pub mod perception;
pub mod save;
pub mod text;
