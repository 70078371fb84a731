pub mod del;
pub mod open;
pub mod run;
