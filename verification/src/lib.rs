//! QUBO solving through SAT: the encodings, the search and their contracts.
pub mod cnf;
pub mod qubo;
pub mod encode;
pub mod sortnet;
pub mod sortlaw;
pub mod sorter;
pub mod constraints;
pub mod tabus;
pub mod encoding;
pub mod sums;
pub mod search;
pub mod value;
pub mod solqubo;
pub mod chkqubo;
pub mod findasgnqubo;
pub mod utils;
pub mod limits;
