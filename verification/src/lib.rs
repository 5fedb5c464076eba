pub(crate) mod order;
pub mod text;
pub mod decode;
pub mod rom;
pub mod analysis;
pub mod codegen;
pub mod laws;
pub mod instruction_laws;
