use vstd::prelude::*;
use vstd::string::StringExecFns;
use crate::anagram_dict::{
    anagrams_in, index_of, is_lookup_result, lemma_ascending_unique, texts, AnagramDictTrait,
    AnagramDictionary,
};
use crate::config::Config;

verus! {

/// What a run of the program does, as read from its arguments.
pub enum Command {
    /// Print how the program is called.
    PrintUsage { base_name: String },
    /// Load the word list and print the anagrams of each word.
    PrintAnagrams(Config),
    /// Stop with a reason, loading nothing.
    ErrorExit { reason: String },
}

/// How a run ended.
pub enum CommandResult {
    Success,
    Error(String),
}

/// Why the word list could not be loaded.
pub enum LoadError {
    /// No regular file is at the path.
    NotFound { path: String },
    /// Reading the file failed; the message says how.
    Io { message: String },
}

/// Text after which the usage line names the program.
pub const USAGE_PREFIX: &'static str = "Usage: ";

/// Text after the program's name in the usage line.
pub const USAGE_SUFFIX: &'static str = " [-d DICTIONARY_FILE] [-c] WORD...";

/// Text before the path of a missing word list.
pub const NOT_FOUND_PREFIX: &'static str = "Can't find file: ";

/// Text before the reason a word list could not be loaded.
pub const LOAD_FAILURE_PREFIX: &'static str = "Couldn't load dictionary file: ";

/// Text between a word and its anagrams.
pub const WORD_SEPARATOR: &'static str = ": ";

/// Text between two anagrams.
pub const LIST_SEPARATOR: &'static str = ", ";

/// The usage line for a program called `base_name`.
pub open spec fn usage_text(base_name: Seq<char>) -> Seq<char> {
    USAGE_PREFIX@ + base_name + USAGE_SUFFIX@
}

impl LoadError {
    /// The text that reports this error.
    pub open spec fn message_spec(&self) -> Seq<char> {
        match self {
            LoadError::NotFound { path } => NOT_FOUND_PREFIX@ + path@,
            LoadError::Io { message } => message@,
        }
    }

    /// The text that reports this error; a missing file is named by its path.
    pub fn message(&self) -> (r: String)
        ensures
            r@ == self.message_spec(),
    {
        match self {
            LoadError::NotFound { path } => {
                let mut r = String::from_str(NOT_FOUND_PREFIX);
                r.append(path.as_str());
                r
            },
            LoadError::Io { message } => message.clone(),
        }
    }
}

/// The words of `v`, separated by a comma and a space.
pub open spec fn joined(v: Seq<Seq<char>>) -> Seq<char>
    decreases v.len(),
{
    if v.len() == 0 {
        Seq::empty()
    } else if v.len() == 1 {
        v[0]
    } else {
        joined(v.drop_last()) + LIST_SEPARATOR@ + v.last()
    }
}

/// The printed line for `word` and its anagrams.
pub open spec fn anagram_line_spec(word: Seq<char>, anagrams: Seq<Seq<char>>) -> Seq<char> {
    word + WORD_SEPARATOR@ + joined(anagrams)
}

/// `word` has at least one anagram in `index`.
pub open spec fn has_anagrams(index: Map<Seq<char>, Set<Seq<char>>>, word: Seq<char>, case_sensitive: bool) -> bool {
    exists|w: Seq<char>| anagrams_in(index, word, case_sensitive).contains(w)
}

/// The anagrams of `word` in `index`, in ascending order.
pub open spec fn sorted_anagrams(index: Map<Seq<char>, Set<Seq<char>>>, word: Seq<char>, case_sensitive: bool) -> Seq<Seq<char>> {
    choose|v: Seq<Seq<char>>| is_lookup_result(index, word, case_sensitive, Some(v))
}

/// The lines printed for `words`: one for each word that has anagrams, in the order of the words.
pub open spec fn report(index: Map<Seq<char>, Set<Seq<char>>>, words: Seq<Seq<char>>, case_sensitive: bool) -> Seq<Seq<char>>
    decreases words.len(),
{
    if words.len() == 0 {
        Seq::empty()
    } else {
        let earlier = report(index, words.drop_last(), case_sensitive);
        let word = words.last();
        if has_anagrams(index, word, case_sensitive) {
            earlier.push(anagram_line_spec(word, sorted_anagrams(index, word, case_sensitive)))
        } else {
            earlier
        }
    }
}

/// The usage line for a program called `base_name`.
pub fn usage_line(base_name: &str) -> (r: String)
    ensures
        r@ == usage_text(base_name@),
{
    let mut r = String::from_str(USAGE_PREFIX);
    r.append(base_name);
    r.append(USAGE_SUFFIX);
    r
}

/// The line `word: a, b, ...` for a word and its anagrams.
pub fn anagram_line(word: &str, anagrams: &Vec<&str>) -> (r: String)
    ensures
        r@ == anagram_line_spec(word@, texts(anagrams@)),
{
    let mut r = String::from_str(word);
    r.append(WORD_SEPARATOR);
    let ghost start = r@;
    let mut i: usize = 0;
    while i < anagrams.len()
        invariant
            i <= anagrams.len(),
            start == word@ + WORD_SEPARATOR@,
            r@ == start + joined(texts(anagrams@).subrange(0, i as int)),
        decreases anagrams.len() - i,
    {
        let ghost done = texts(anagrams@).subrange(0, i as int);
        let ghost next = texts(anagrams@).subrange(0, i + 1);
        proof {
            assert(next.drop_last() =~= done);
        }
        if i > 0 {
            r.append(LIST_SEPARATOR);
        }
        r.append(anagrams[i]);
        proof {
            if i == 0 {
                assert(done =~= Seq::<Seq<char>>::empty());
                assert(r@ =~= start + joined(next));
            } else {
                assert(r@ =~= start + joined(next));
            }
        }
        i = i + 1;
    }
    assert(texts(anagrams@).subrange(0, i as int) =~= texts(anagrams@));
    r
}

/// A lookup's list is the one `sorted_anagrams` names.
proof fn lemma_lookup_list(index: Map<Seq<char>, Set<Seq<char>>>, word: Seq<char>, case_sensitive: bool, v: Seq<Seq<char>>)
    requires
        is_lookup_result(index, word, case_sensitive, Some(v)),
    ensures
        v == sorted_anagrams(index, word, case_sensitive),
        has_anagrams(index, word, case_sensitive),
{
    let s = sorted_anagrams(index, word, case_sensitive);
    lemma_ascending_unique(v, s);
    assert(v.contains(v[0]));
}

/// The lines to print for the words of `config`: for each word with anagrams in `dict`, in
/// order, the word and its anagrams.
pub fn lookup_and_print_anagrams(dict: &AnagramDictionary, config: &Config) -> (r: Vec<String>)
    ensures
        r.deep_view() == report(dict.index(), config.input_words.deep_view(), config.case_sensitive),
{
    let ghost words = config.input_words.deep_view();
    let mut lines: Vec<String> = Vec::new();
    let mut i: usize = 0;
    proof {
        assert(words.subrange(0, 0) =~= Seq::<Seq<char>>::empty());
        assert(lines.deep_view() =~= Seq::<Seq<char>>::empty());
    }
    while i < config.input_words.len()
        invariant
            i <= config.input_words.len(),
            words == config.input_words.deep_view(),
            lines.deep_view() == report(dict.index(), words.subrange(0, i as int), config.case_sensitive),
        decreases config.input_words.len() - i,
    {
        let word = config.input_words[i].as_str();
        let ghost done = words.subrange(0, i as int);
        let ghost next = words.subrange(0, i + 1);
        proof {
            assert(next.drop_last() =~= done);
            assert(next.last() == word@);
        }
        match dict.lookup(word, config.case_sensitive) {
            Some(anagrams) => {
                proof {
                    lemma_lookup_list(dict.index(), word@, config.case_sensitive, texts(anagrams@));
                }
                let line = anagram_line(word, &anagrams);
                lines.push(line);
                proof {
                    assert(lines.deep_view() =~= report(dict.index(), done, config.case_sensitive).push(line@));
                }
            },
            None => {},
        }
        i = i + 1;
    }
    assert(words.subrange(0, i as int) =~= words);
    lines
}

impl Command {
    /// Carries out the command. `dictionary` is the word list of `PrintAnagrams`, read as
    /// lines, or why it could not be read; the other commands load nothing. Returns how the
    /// run ended and the lines to print.
    pub fn execute(&self, dictionary: Option<Result<Vec<String>, LoadError>>) -> (r: (CommandResult, Vec<String>))
        requires
            self is PrintAnagrams ==> dictionary is Some,
        ensures
            match self {
                Command::PrintUsage { base_name } => {
                    &&& r.0 is Success
                    &&& r.1.deep_view() == seq![usage_text(base_name@)]
                },
                Command::ErrorExit { reason } => {
                    &&& r.0 matches CommandResult::Error(e) && e@ == reason@
                    &&& r.1.len() == 0
                },
                Command::PrintAnagrams(config) => match dictionary {
                    Some(Ok(lines)) => {
                        &&& r.0 is Success
                        &&& r.1.deep_view() == report(
                            index_of(lines.deep_view(), config.case_sensitive),
                            config.input_words.deep_view(),
                            config.case_sensitive,
                        )
                    },
                    Some(Err(e)) => {
                        &&& r.0 matches CommandResult::Error(m) && m@ == LOAD_FAILURE_PREFIX@ + e.message_spec()
                        &&& r.1.len() == 0
                    },
                    None => false,
                },
            },
    {
        match self {
            Command::PrintUsage { base_name } => {
                let line = usage_line(base_name.as_str());
                let mut out: Vec<String> = Vec::new();
                out.push(line);
                proof {
                    assert(out.deep_view() =~= seq![usage_text(base_name@)]);
                }
                (CommandResult::Success, out)
            },
            Command::PrintAnagrams(config) => match dictionary {
                Some(Ok(lines)) => {
                    let dict = AnagramDictionary::from_lines(&lines, config.case_sensitive);
                    let out = lookup_and_print_anagrams(&dict, config);
                    (CommandResult::Success, out)
                },
                Some(Err(e)) => {
                    let mut m = String::from_str(LOAD_FAILURE_PREFIX);
                    m.append(e.message().as_str());
                    (CommandResult::Error(m), Vec::new())
                },
                None => (CommandResult::Success, Vec::new()),
            },
            Command::ErrorExit { reason } => (CommandResult::Error(reason.clone()), Vec::new()),
        }
    }
}

} // verus!
