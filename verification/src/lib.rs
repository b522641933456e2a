//! Tools for Wii U homebrew: conversion of PowerPC ELF executables into Cafe
//! OS modules, packaging of modules into WUHB bundles, and the wiiload upload
//! format.
use vstd::prelude::*;

pub mod bytes;
pub mod cli;
pub mod elf;
pub mod external;
pub mod rpl;
pub mod upload;
pub mod wuhb;

verus! {
} // verus!
