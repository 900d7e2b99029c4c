#[allow(non_snake_case)]
pub mod ReceiveHeader;
#[allow(non_snake_case)]
pub mod SendHeader;
