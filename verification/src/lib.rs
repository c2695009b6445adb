pub mod commands;
pub mod helpers;
pub mod path_utils;
pub mod text;
pub mod trie;
