use anagrams::anagram_dict::{anagram_key, key_of_folded, AnagramDictTrait, AnagramDictionary};
use anagrams::args_parser::parse_args;
use anagrams::commands::{anagram_line, lookup_and_print_anagrams, usage_line, Command, CommandResult, LoadError};
use anagrams::config::Config;

fn strings(words: &[&str]) -> Vec<String> {
    words.iter().map(|w| w.to_string()).collect()
}

fn dict(words: &[&str], case_sensitive: bool) -> AnagramDictionary {
    AnagramDictionary::from_lines(&strings(words), case_sensitive)
}

fn args(words: &[&str]) -> Vec<String> {
    strings(words)
}

#[test]
fn end_to_end_listen() {
    let d = dict(&["listen", "silent", "enlist", "cat's", "tac"], false);
    assert_eq!(d.lookup("listen", false), Some(vec!["enlist", "silent"]));
    assert_eq!(d.lookup("cat", false), Some(vec!["tac"]));
    assert_eq!(d.lookup("dog", false), None);
}

#[test]
fn anagrams_find_each_other_ignoring_case() {
    let d = dict(&["Listen", "Silent", "banana"], false);
    assert_eq!(d.lookup("Listen", false), Some(vec!["Silent"]));
    assert_eq!(d.lookup("Silent", false), Some(vec!["Listen"]));
    assert_eq!(d.lookup("TINSEL", false), Some(vec!["Listen", "Silent"]));
}

#[test]
fn self_match_is_excluded() {
    let d = dict(&["cat", "Cat", "act"], false);
    assert_eq!(d.lookup("cat", false), Some(vec!["act"]));
    assert_eq!(d.lookup("CAT", false), Some(vec!["act"]));
    assert_eq!(d.lookup("act", false), Some(vec!["Cat", "cat"]));
}

#[test]
fn self_match_is_excluded_when_case_sensitive() {
    let d = dict(&["cat", "tca", "Cat"], true);
    assert_eq!(d.lookup("act", true), Some(vec!["cat", "tca"]));
    assert_eq!(d.lookup("cat", true), Some(vec!["tca"]));
}

#[test]
fn possessive_lines_are_never_found() {
    let d = dict(&["spot's", "s'tops", "post's"], false);
    assert_eq!(d.lookup("st'ops", false), Some(vec!["s'tops"]));
    assert_eq!(d.lookup("s'tops", false), None);
}

#[test]
fn possessive_query_finds_nothing() {
    let d = dict(&["tac", "act", "cat's"], false);
    assert_eq!(d.lookup("cat's", false), None);
    assert_eq!(d.lookup("tca's", true), None);
    assert_eq!(d.lookup("tca", false), Some(vec!["act", "tac"]));
}

#[test]
fn empty_result_is_none() {
    let d = dict(&["cat", "dog"], false);
    assert_eq!(d.lookup("cat", false), None);
    assert_eq!(d.lookup("CAT", false), None);
    let empty = dict(&[], false);
    assert_eq!(empty.lookup("cat", false), None);
    assert_eq!(empty.lookup("", false), None);
}

#[test]
fn results_are_sorted() {
    let d = dict(&["stop", "pots", "tops", "opts", "spot", "post", "Tops"], false);
    assert_eq!(
        d.lookup("stop", false),
        Some(vec!["Tops", "opts", "post", "pots", "spot", "tops"])
    );
}

#[test]
fn duplicate_lines_collapse() {
    let d = dict(&["silent", "silent", "listen", "enlist", "silent"], false);
    assert_eq!(d.lookup("listen", false), Some(vec!["enlist", "silent"]));
}

#[test]
fn case_sensitivity_toggle() {
    let folded = dict(&["tac"], false);
    assert_eq!(folded.lookup("Cat", false), Some(vec!["tac"]));
    let exact = dict(&["tac"], true);
    assert_eq!(exact.lookup("Cat", true), None);
    let both = dict(&["Cat", "tac"], true);
    assert_eq!(both.lookup("Cat", true), None);
    assert_eq!(both.lookup("atC", true), Some(vec!["Cat"]));
}

#[test]
fn non_ascii_letters() {
    let d = dict(&["été", "tée", "ÉTÉ"], false);
    assert_eq!(d.lookup("éét", false), Some(vec!["ÉTÉ", "été"]));
    assert_eq!(d.lookup("eét", false), Some(vec!["tée"]));
}

#[test]
fn missing_file_message_names_path() {
    let e = LoadError::NotFound { path: "/no/such/words".to_string() };
    assert_eq!(e.message(), "Can't find file: /no/such/words");
    let io = LoadError::Io { message: "permission denied".to_string() };
    assert_eq!(io.message(), "permission denied");
}

#[test]
fn missing_file_fails_the_command() {
    let mut config = Config::new();
    config.dictionary_path = "/no/such/words".to_string();
    config.input_words = strings(&["listen"]);
    let command = Command::PrintAnagrams(config);
    let (result, output) = command.execute(Some(Err(LoadError::NotFound {
        path: "/no/such/words".to_string(),
    })));
    match result {
        CommandResult::Error(reason) => {
            assert_eq!(reason, "Couldn't load dictionary file: Can't find file: /no/such/words")
        }
        CommandResult::Success => panic!("expected an error"),
    }
    assert!(output.is_empty());
}

#[test]
fn no_arguments_means_no_words() {
    match parse_args(&args(&["anagrams"])) {
        Command::ErrorExit { reason } => assert_eq!(reason, "No words specified"),
        _ => panic!("expected an error"),
    }
}

#[test]
fn flags_without_words_mean_no_words() {
    match parse_args(&args(&["anagrams", "-c", "-d", "/tmp/words"])) {
        Command::ErrorExit { reason } => assert_eq!(reason, "No words specified"),
        _ => panic!("expected an error"),
    }
}

#[test]
fn dictionary_flag_needs_a_path() {
    match parse_args(&args(&["anagrams", "-d"])) {
        Command::ErrorExit { reason } => assert_eq!(reason, "Option `-d' requires an argument"),
        _ => panic!("expected an error"),
    }
    match parse_args(&args(&["anagrams", "listen", "--dictionary"])) {
        Command::ErrorExit { reason } => assert_eq!(reason, "Option `-d' requires an argument"),
        _ => panic!("expected an error"),
    }
}

#[test]
fn help_flag_outside_an_operand_wins() {
    match parse_args(&args(&["anagrams", "listen", "-d", "-h"])) {
        Command::PrintAnagrams(config) => {
            assert_eq!(config.dictionary_path, "-h");
            assert_eq!(config.input_words, strings(&["listen"]));
        }
        _ => panic!("expected anagrams"),
    }
    match parse_args(&args(&["anagrams", "listen", "-h", "-d"])) {
        Command::PrintUsage { base_name } => assert_eq!(base_name, "anagrams"),
        _ => panic!("expected usage"),
    }
    match parse_args(&args(&["./prog", "--help"])) {
        Command::PrintUsage { base_name } => assert_eq!(base_name, "./prog"),
        _ => panic!("expected usage"),
    }
}

#[test]
fn full_command_line() {
    let a = args(&["anagrams", "-c", "-d", "/tmp/words", "listen", "--case-sensitive", "silent"]);
    match parse_args(&a) {
        Command::PrintAnagrams(config) => {
            assert!(config.case_sensitive);
            assert_eq!(config.dictionary_path, "/tmp/words");
            assert_eq!(config.input_words, strings(&["listen", "silent"]));
        }
        _ => panic!("expected anagrams"),
    }
}

#[test]
fn flag_after_dictionary_flag_is_its_path() {
    match parse_args(&args(&["anagrams", "-d", "-c", "/tmp/words", "cat"])) {
        Command::PrintAnagrams(config) => {
            assert!(!config.case_sensitive);
            assert_eq!(config.dictionary_path, "-c");
            assert_eq!(config.input_words, strings(&["/tmp/words", "cat"]));
        }
        _ => panic!("expected anagrams"),
    }
    match parse_args(&args(&["prog", "-d", "-c", "w"])) {
        Command::PrintAnagrams(config) => {
            assert!(!config.case_sensitive);
            assert_eq!(config.dictionary_path, "-c");
            assert_eq!(config.input_words, strings(&["w"]));
        }
        _ => panic!("expected anagrams"),
    }
    match parse_args(&args(&["prog", "-d", "-c"])) {
        Command::ErrorExit { reason } => assert_eq!(reason, "No words specified"),
        _ => panic!("expected an error"),
    }
}

#[test]
fn help_after_dictionary_flag_is_its_path() {
    match parse_args(&args(&["prog", "--dictionary", "-h", "cat"])) {
        Command::PrintAnagrams(config) => {
            assert_eq!(config.dictionary_path, "-h");
            assert_eq!(config.input_words, strings(&["cat"]));
        }
        _ => panic!("expected anagrams"),
    }
    match parse_args(&args(&["prog", "-d", "-d", "cat"])) {
        Command::PrintAnagrams(config) => {
            assert_eq!(config.dictionary_path, "-d");
            assert_eq!(config.input_words, strings(&["cat"]));
        }
        _ => panic!("expected anagrams"),
    }
}

#[test]
fn keys_of_folded_words() {
    assert_eq!(key_of_folded("listen"), "eilnst");
    assert_eq!(key_of_folded("tac"), "act");
    assert_eq!(key_of_folded("Cat"), "Cat");
    assert_eq!(key_of_folded(""), "");
}

#[test]
fn anagram_keys() {
    assert_eq!(anagram_key("Cat", false), Some("act".to_string()));
    assert_eq!(anagram_key("Cat", true), Some("Cat".to_string()));
    assert_eq!(anagram_key("cat's", false), None);
    assert_eq!(anagram_key("CAT'S", false), Some("'acst".to_string()));
    assert_eq!(anagram_key("'s", true), None);
}

#[test]
fn defaults_apply() {
    match parse_args(&args(&["anagrams", "cat"])) {
        Command::PrintAnagrams(config) => {
            assert!(!config.case_sensitive);
            assert_eq!(config.dictionary_path, "/usr/share/dict/words");
            assert_eq!(config.input_words, strings(&["cat"]));
        }
        _ => panic!("expected anagrams"),
    }
}

#[test]
fn config_defaults() {
    let c = Config::new();
    assert!(!c.case_sensitive);
    assert_eq!(c.dictionary_path, "/usr/share/dict/words");
    assert!(c.input_words.is_empty());
}

#[test]
fn usage_text() {
    assert_eq!(usage_line("anagrams"), "Usage: anagrams [-d DICTIONARY_FILE] [-c] WORD...");
    let (result, output) = Command::PrintUsage { base_name: "anagrams".to_string() }.execute(None);
    assert!(matches!(result, CommandResult::Success));
    assert_eq!(output, strings(&["Usage: anagrams [-d DICTIONARY_FILE] [-c] WORD..."]));
}

#[test]
fn error_exit_keeps_reason() {
    let (result, output) = Command::ErrorExit { reason: "No words specified".to_string() }.execute(None);
    match result {
        CommandResult::Error(reason) => assert_eq!(reason, "No words specified"),
        CommandResult::Success => panic!("expected an error"),
    }
    assert!(output.is_empty());
}

#[test]
fn anagram_line_format() {
    assert_eq!(anagram_line("listen", &vec!["enlist", "silent"]), "listen: enlist, silent");
    assert_eq!(anagram_line("cat", &vec!["tac"]), "cat: tac");
}

#[test]
fn report_skips_words_without_anagrams() {
    let d = dict(&["listen", "silent", "enlist", "cat's", "tac"], false);
    let mut config = Config::new();
    config.input_words = strings(&["listen", "dog", "cat", "silent"]);
    assert_eq!(
        lookup_and_print_anagrams(&d, &config),
        strings(&["listen: enlist, silent", "cat: tac", "silent: enlist, listen"])
    );
}

#[test]
fn execute_prints_anagrams() {
    let mut config = Config::new();
    config.input_words = strings(&["Listen", "dog"]);
    let command = Command::PrintAnagrams(config);
    let lines = strings(&["listen", "silent", "enlist", "cat's", "tac"]);
    let (result, output) = command.execute(Some(Ok(lines)));
    assert!(matches!(result, CommandResult::Success));
    assert_eq!(output, strings(&["Listen: enlist, silent"]));
}
