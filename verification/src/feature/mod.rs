pub mod record;
pub mod search;
