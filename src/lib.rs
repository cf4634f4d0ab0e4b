//! A memetic algorithm for the travelling salesman problem: a genetic search
//! with sequential constructive crossover, refined by local-search operators.
//! Edge costs are non-negative integers and tour costs are exact.

pub mod evolution;
pub mod local_search;
pub mod matrix;
pub mod random;
pub mod tour;
