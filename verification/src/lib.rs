//! Program nodes, data trees and program-graph transformations for quantum program execution.

pub mod addressing;
pub mod arrays;
pub mod backend_v3;
pub mod collections;
pub mod data_tree;
pub mod input;
pub mod keywords;
pub mod math_nodes;
pub mod nodes;
pub mod parameter_expressions;
pub mod program;
pub mod program_node;
pub mod quantum_program;
pub mod render;
pub mod shot_loop;
pub mod tensor;
pub mod text;
