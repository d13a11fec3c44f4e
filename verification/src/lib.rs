pub mod text;
pub mod conf;
pub mod roundtrip;
pub mod dump;
pub mod ops;
pub mod host;
pub mod settings;
pub mod elevate;
