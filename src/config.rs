use vstd::prelude::*;
use vstd::string::StringExecFns;

verus! {

/// The word list read when no other is named.
pub const DEFAULT_WORDS_LIST_PATH: &'static str = "/usr/share/dict/words";

/// What a run is asked to do: how words are compared, which word list to read, and which
/// words to find anagrams of.
pub struct Config {
    /// Compare letters with their case; by default case is ignored.
    pub case_sensitive: bool,
    /// File system path of the word list, one word per line.
    pub dictionary_path: String,
    /// The words to find anagrams of, in the order given.
    pub input_words: Vec<String>,
}

impl Config {
    /// The defaults: case ignored, the system word list, no words yet.
    pub fn new() -> (r: Config)
        ensures
            !r.case_sensitive,
            r.dictionary_path@ == DEFAULT_WORDS_LIST_PATH@,
            r.input_words@.len() == 0,
    {
        Config {
            case_sensitive: false,
            dictionary_path: String::from_str(DEFAULT_WORDS_LIST_PATH),
            input_words: Vec::new(),
        }
    }
}

} // verus!
