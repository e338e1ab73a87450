pub mod driver;
pub mod engine;
pub mod laws;
pub mod protocol;
pub mod scenario;
pub mod text;
