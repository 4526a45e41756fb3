//! Verified core of a 2D rectangular nesting (cutting-stock) optimiser.

pub mod geometry;
pub mod model;
pub mod select;
pub mod run;
pub mod maxrects;
pub mod guillotine;
pub mod bottom_left;
pub mod nfp_greedy;
pub mod order;
pub mod packing;
pub mod fitness;
pub mod random;
pub mod perm;
pub mod search;
pub mod genetic;
pub mod annealing;
pub mod svgnest;
pub mod steps;
pub mod parse;
pub mod algo_id;
pub mod shape_entry;
pub mod stat_cell;
pub mod import;
pub mod shape_list;
