//! From the sea-of-nodes graph to machine code: a block-structured
//! representation with value slots and copy edges, instruction selection,
//! and register allocation.
pub mod lir;
pub mod slots;
pub mod postorder;
pub mod gen_instr;
pub mod gen_block;
pub mod amd64;
