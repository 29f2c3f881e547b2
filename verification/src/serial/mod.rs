pub mod worker;
