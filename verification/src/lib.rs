pub mod codec;
pub mod item;
pub mod store;
pub mod telemetry;
