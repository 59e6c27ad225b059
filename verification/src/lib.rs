pub mod account;
pub mod block_alloc;
pub mod error;
pub mod executor;
pub mod grouping;
pub mod hipb;
pub mod scanner;
pub mod text;
