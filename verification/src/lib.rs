pub mod automaton;
pub mod avro;
pub mod bangla;
pub mod encoding;
pub mod frontier;
pub mod generate;
pub mod index;
pub mod order;
pub mod patterns;
pub mod suggest;
pub mod text;
pub mod trie;
pub mod utils;
pub mod words;
