pub mod digits;
pub mod oracle;
pub mod register;
pub mod search;
pub mod worker;
