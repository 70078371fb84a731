pub mod dispatch;
pub mod executor;
pub mod md;
