//! WHiDL: a compiler from nand2tetris HDL to VHDL. The library scans HDL,
//! evaluates width expressions, infers signal widths, unrolls for-generate
//! loops, runs passes over the parse tree, renders VHDL entities and Quartus
//! scripts, reads test scripts and compare files into Modelsim testbenches,
//! builds ROM chips and Logisim projects, with their contracts proved by
//! Verus.
#![allow(unused_imports)]

pub mod keys;
pub mod strmap;
pub mod fmt;
pub mod error;
pub mod parser;
pub mod expr;
pub mod simulator;
pub mod busmap;
pub mod rom;
pub mod chars;
pub mod scanner;
pub mod test_scanner;
pub mod test_parser;
pub mod test_script;
pub mod vhdl;
pub mod modelsim;
pub mod logisim;
pub mod opt;
pub mod chip;
pub mod elaborate;
pub mod circuit;
pub mod table;

use vstd::prelude::*;

verus! {

} // verus!
