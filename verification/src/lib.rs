//! The verified core of a second-stage bootloader for a microcontroller with
//! NOR flash.
//!
//! At every reset the bootloader looks at one control page of the flash. If
//! a swap is armed there, it exchanges the application with the image in the
//! staging partition, page by page and in such a way that a power cut at any
//! moment can be made good at the next boot. If a copy-list is armed there,
//! it applies the list's items: plain copies, copies of inflated streams,
//! and the replacement of the bootloader itself.
//!
//! This crate holds what such a bootloader decides and a model of the flash
//! on which the decisions are carried out and proved:
//!
//! - `flash`: the model of the flash and the page primitives;
//! - `partitions`: the partition map;
//! - `crc32`, `word`: IEEE CRC-32 and little-endian words;
//! - `model`: the layout of the copy-list and the magic numbers;
//! - `swap`: the swap engine with its progress log, and in `swap::laws` what
//!   holds of it after a power cut;
//! - `copylist`: the copy-list executor, and in `copylist::laws` what holds
//!   of it;
//! - `boot`: what the entry sequence decides.
//!
//! The hardware is not in this crate. A program for the device reads and
//! writes the flash itself, calls the inflater and the master boot record
//! itself, and asks this crate what to do next.

pub mod boot;
pub mod copylist;
pub mod crc32;
pub mod flash;
pub mod model;
pub mod partitions;
pub mod swap;
pub mod word;
