pub mod position;
pub mod ast;
pub mod cst;
pub mod language_def;
pub mod symbol_table;
pub mod builder;
pub mod scoping;
pub mod st_manager;
pub mod translator;
pub mod usages;
