pub mod analysis;
pub mod ast;
pub mod ast_to_ir;
pub mod bitsets;
pub mod builder;
pub mod cfg;
pub mod cfg_build;
pub mod fuzz;
pub mod instr_config;
pub mod ir;
pub mod layout;
pub mod printer;
pub mod shim;
pub mod source;
pub mod text;
