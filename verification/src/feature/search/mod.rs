pub mod dispatch;
pub mod executor;
pub mod table;
