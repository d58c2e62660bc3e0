//! Parsing and indexing of the dependency trees printed by `nix-store --query --tree`.

pub mod nix_query_tree;
pub mod tree;
mod text;
