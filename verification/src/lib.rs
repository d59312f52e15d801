//! Honest digital-logic simulation: a gate-level circuit representation, a
//! reference interpreter, and engines that provably compute the same values.
pub mod adding;
pub mod assembler;
pub mod banks;
pub mod batch;
pub mod board;
pub mod circuit;
pub mod clock;
pub mod compile;
pub mod compiling;
pub mod isa;
pub mod jit;
pub mod kahn;
mod lower;
pub mod lowering;
pub mod manual;
pub mod cpu;
pub mod datapath;
pub mod editor;
pub mod emission;
pub mod emu;
pub mod engine;
pub mod entity;
pub mod event;
pub mod exercises;
pub mod fibonacci;
pub mod fold;
pub mod fuse;
pub mod fusion;
pub mod gather;
pub mod hybrid;
pub mod interp;
pub mod lanes;
pub mod layout;
pub mod meaning;
pub mod mem;
pub mod names;
pub mod native;
pub mod netlist;
pub mod pack;
pub mod pack_jit;
pub mod panel;
pub mod plan;
pub mod programs;
pub mod rtl;
pub mod scalar;
pub mod searching;
pub mod threaded;
pub mod wires;
pub mod wiring;
pub mod words;
