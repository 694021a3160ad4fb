//! Finds the anagrams of words in a word list: each word is indexed under the sorted
//! sequence of its characters, and a lookup returns the other words under the same key.

pub mod anagram_dict;
pub mod args_parser;
pub mod commands;
pub mod config;
