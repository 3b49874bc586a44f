pub mod mqtt;
pub mod control;
pub mod soil;
pub mod servo;
pub mod storage;
pub mod display;
pub mod link;
