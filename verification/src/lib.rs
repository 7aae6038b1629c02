//! Verified core of a Lenia-style continuous cellular automaton: the toroidal
//! grid geometry, neighbourhood enumeration, the compressed life-form format and
//! the integer bookkeeping around cell buffers.
pub mod vector;
pub mod grid;
pub mod compressed;
pub mod lattice;
pub mod shapes;
pub mod rule;
pub mod coloration;
