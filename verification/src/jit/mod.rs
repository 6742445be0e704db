pub mod abi;
pub mod analysis;
pub mod break_laws;
pub mod breaks;
pub mod call_laws;
pub mod calls;
pub mod cfg;
pub mod cfg_laws;
pub mod compile;
pub mod compiler;
pub mod correct;
pub mod cycles;
pub mod delta;
pub mod emit;
pub mod ending_laws;
pub mod graph;
pub mod heights;
pub mod lower;
pub mod machine_laws;
pub mod memory;
pub mod memory_laws;
pub mod monotone;
pub mod native;
pub mod plan;
pub mod reach;
pub mod reach_laws;
pub mod scc;
pub mod solution_laws;
pub mod sound;
pub mod straight_laws;
pub mod tailcall;
pub mod unique;
