pub mod clock;
pub mod codec;
pub mod console;
pub mod collective;
pub mod corn_kernel;
pub mod cortex;
pub mod crypto;
pub mod digest;
pub mod eku;
pub mod merkle;
pub mod protocol;
pub mod security;
pub mod spine;
pub mod text;
pub mod vm;
