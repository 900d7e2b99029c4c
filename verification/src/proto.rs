pub mod fields;
pub mod proto_all;
pub mod wire;
