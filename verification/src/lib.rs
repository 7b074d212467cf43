//! The logic of a fan control daemon for Intel MacBooks that steers on every sensor on the
//! board, not just the CPU.
//!
//! Each configured sensor has a PI controller, and the fans run at whichever of them asks for
//! the most air. The library decides; a program around it reads and writes the kernel's files,
//! waits and reports. So its functions take what was read and give back what to do.
//!
//! - [`config`]: the settings, their defaults, and which of them are valid.
//! - [`control`]: the controllers and the governor that folds them into one command, and in
//!   [`policy`], [`windup`], [`slew`] and [`faithful`] what they promise.
//! - [`sysfs`], [`fan`], [`guard`]: finding sensors and fans, and the writes that drive the fans
//!   and give them back.
//! - [`startup`], [`session`], [`daemon`]: what is settled before a fan is touched, the order in
//!   which lock and fans are taken and given back, and the loop in between.
//! - [`cli`], [`sd`], [`report`]: the command line, notifications, and what is said to whom.
//!
//! Temperatures and speeds are binary64 numbers. Their arithmetic is done on whole numbers, in
//! [`binary64`], so that it can be reasoned about: [`datum`] says what each operation gives,
//! [`rounding`] how an exact result is rounded, [`order`] how the operations keep the order of
//! numbers, and [`accuracy`] how far their results lie from the exact ones.
pub mod accuracy;
pub mod binary64;
pub mod cli;
pub mod config;
pub mod control;
pub mod daemon;
pub mod datum;
pub mod faithful;
pub mod fan;
pub mod guard;
pub mod order;
pub mod policy;
pub mod report;
pub mod rounding;
pub mod sd;
pub mod session;
pub mod slew;
pub mod sorting;
pub mod startup;
pub mod sysfs;
pub mod text;
pub mod windup;
