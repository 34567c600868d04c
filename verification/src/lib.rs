//! A toolbox of small, verified programs: a JSON reader with renderers,
//! analyzer and path queries, number theory, sorting, a search tree, a hash
//! table, and the rules of a few console programs.
//!
//! Every function states in its contract what it returns, and Verus proves
//! that it does. Reading input, printing, connecting to a network, moving
//! files and arithmetic on floating-point numbers are left to the caller.

pub mod binary_search_tree;
pub mod calculator;
pub mod factorial;
pub mod fibonacci;
pub mod file_organizer;
pub mod gcd_lcm;
pub mod hash_table;
pub mod json;
pub mod network_scanner;
pub mod palindrome;
pub mod password_generator;
pub mod prime_number;
pub mod sort_list;
pub mod text;
pub mod text_adventure;
pub mod word_frequency;
