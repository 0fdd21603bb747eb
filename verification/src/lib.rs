//! The verified heart of a small x86_64 kernel.
//!
//! Storage: sector buffers ([`sector`], [`sector_list`]), the drives and their sectors
//! ([`ata`], [`file_systems`]), the file table of a drive ([`file_table`]), the block lists of
//! files ([`file`]) with what holds of the lists this crate builds ([`linked`]), and files in
//! the tape-archive format ([`ustar`]).
//!
//! Memory: the frame source of the boot ([`allocator`]) and the order of events that brings
//! the kernel heap up ([`heap`]).
//!
//! Around them: the text console ([`console`]), the keyboard queue ([`input`]), and a few
//! small things that the rest of a kernel wants to share.

pub mod codec;
pub mod sector;
pub mod ata;
pub mod sector_list;
pub mod file_systems;
pub mod file_table;
pub mod file;
pub mod linked;
pub mod allocator;
pub mod heap;
pub mod math;
pub mod time;
pub mod ram_fs;
pub mod input;
pub mod boot;
pub mod graphics;
pub mod programs;
pub mod io;
pub mod console;
pub mod ustar;
