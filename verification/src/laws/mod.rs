//! What holds of the solver as a whole.

pub mod average;
pub mod books;
pub mod breadth;
pub mod carried;
pub mod counts;
pub mod course;
pub mod depressurize;
pub mod effects;
pub mod errands;
pub mod fast;
pub mod finalize;
pub mod flood;
pub mod grid;
pub mod hunt;
pub mod level;
pub mod limits;
pub mod mirror;
pub mod nearer;
pub mod once;
pub mod ordered;
pub mod outcome;
pub mod paths;
pub mod plan;
pub mod planet;
pub mod planets;
pub mod quick;
pub mod reach;
pub mod rounds;
pub mod runs;
pub mod seeds;
pub mod settle;
pub mod shares;
pub mod space;
pub mod sums;
pub mod tree;
pub mod upon;
pub mod ways;
pub mod whole;
pub mod zone;
