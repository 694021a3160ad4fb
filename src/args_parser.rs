use vstd::prelude::*;
use vstd::string::StringExecFns;
use crate::anagram_dict::chars_of;
use crate::commands::Command;
use crate::config::{Config, DEFAULT_WORDS_LIST_PATH};

verus! {

/// Reason given when `-d` is the last argument.
pub const MISSING_DICTIONARY_PATH: &'static str = "Option `-d' requires an argument";

/// Reason given when no word is among the arguments.
pub const NO_WORDS_SPECIFIED: &'static str = "No words specified";

/// What the arguments read so far have set.
pub ghost struct ArgsModel {
    /// A help flag was read; what follows it is not read.
    pub help_requested: bool,
    pub case_sensitive: bool,
    pub dictionary_path: Seq<char>,
    pub input_words: Seq<Seq<char>>,
    /// The last argument read was `-d`, whose path is still to come.
    pub expect_dictionary_path: bool,
}

pub open spec fn is_help_flag(a: Seq<char>) -> bool {
    a == "-h"@ || a == "--help"@
}

pub open spec fn is_dictionary_flag(a: Seq<char>) -> bool {
    a == "-d"@ || a == "--dictionary"@
}

pub open spec fn is_case_flag(a: Seq<char>) -> bool {
    a == "-c"@ || a == "--case-sensitive"@
}

/// The effect of one argument. The argument after `-d` is the path, whatever it reads.
pub open spec fn read_arg(m: ArgsModel, a: Seq<char>) -> ArgsModel {
    if m.help_requested {
        m
    } else if m.expect_dictionary_path {
        ArgsModel { dictionary_path: a, expect_dictionary_path: false, ..m }
    } else if is_help_flag(a) {
        ArgsModel { help_requested: true, ..m }
    } else if is_dictionary_flag(a) {
        ArgsModel { expect_dictionary_path: true, ..m }
    } else if is_case_flag(a) {
        ArgsModel { case_sensitive: true, ..m }
    } else {
        ArgsModel { input_words: m.input_words.push(a), ..m }
    }
}

/// What the arguments (after the program name) set, read from left to right from the defaults.
pub open spec fn read_args(args: Seq<Seq<char>>) -> ArgsModel
    decreases args.len(),
{
    if args.len() == 0 {
        ArgsModel {
            help_requested: false,
            case_sensitive: false,
            dictionary_path: DEFAULT_WORDS_LIST_PATH@,
            input_words: Seq::empty(),
            expect_dictionary_path: false,
        }
    } else {
        read_arg(read_args(args.drop_last()), args.last())
    }
}

/// Once a help flag is read, it stays read whatever follows.
proof fn lemma_help_persists(args: Seq<Seq<char>>, k: int)
    requires
        0 <= k <= args.len(),
        read_args(args.subrange(0, k)).help_requested,
    ensures
        read_args(args).help_requested,
    decreases args.len() - k,
{
    if k < args.len() {
        assert(args.subrange(0, k + 1).drop_last() =~= args.subrange(0, k));
        lemma_help_persists(args, k + 1);
    } else {
        assert(args.subrange(0, k) =~= args);
    }
}

/// Whether two texts are equal.
fn text_eq(a: &str, b: &str) -> (r: bool)
    ensures
        r == (a@ == b@),
{
    let x = chars_of(a);
    let y = chars_of(b);
    if x.len() != y.len() {
        return false;
    }
    let mut i: usize = 0;
    while i < x.len()
        invariant
            x@ == a@,
            y@ == b@,
            x.len() == y.len(),
            i <= x.len(),
            forall|j: int| 0 <= j < i ==> x@[j] == y@[j],
        decreases x.len() - i,
    {
        if x[i] != y[i] {
            return false;
        }
        i = i + 1;
    }
    assert(x@ =~= y@);
    true
}

/// Reads the command line: `args[0]` is the program's name, the rest are flags and words,
/// read from left to right. `-d`/`--dictionary` takes the next argument, whatever it is, as the
/// word list's path; otherwise `-h`/`--help` asks for the usage text, `-c`/`--case-sensitive`
/// makes comparison case sensitive, and any other argument is a word.
pub fn parse_args(args: &Vec<String>) -> (r: Command)
    requires
        args.len() >= 1,
    ensures
        ({
            let m = read_args(args.deep_view().drop_first());
            match r {
                Command::PrintUsage { base_name } => m.help_requested && base_name@ == args[0]@,
                Command::ErrorExit { reason } => !m.help_requested && (if m.expect_dictionary_path {
                    reason@ == MISSING_DICTIONARY_PATH@
                } else {
                    m.input_words.len() == 0 && reason@ == NO_WORDS_SPECIFIED@
                }),
                Command::PrintAnagrams(config) => {
                    &&& !m.help_requested
                    &&& !m.expect_dictionary_path
                    &&& m.input_words.len() > 0
                    &&& config.case_sensitive == m.case_sensitive
                    &&& config.dictionary_path@ == m.dictionary_path
                    &&& config.input_words.deep_view() == m.input_words
                },
            }
        }),
{
    let base_name = args[0].clone();
    let ghost rest = args.deep_view().drop_first();
    let mut config = Config::new();
    let mut expect_dictionary_path = false;
    let mut i: usize = 1;
    proof {
        assert(rest.subrange(0, 0) =~= Seq::<Seq<char>>::empty());
        assert(config.input_words.deep_view() =~= Seq::<Seq<char>>::empty());
    }
    while i < args.len()
        invariant
            1 <= i <= args.len(),
            base_name@ == args[0]@,
            rest == args.deep_view().drop_first(),
            rest.len() == args.len() - 1,
            ({
                let m = read_args(rest.subrange(0, i - 1));
                &&& !m.help_requested
                &&& config.case_sensitive == m.case_sensitive
                &&& config.dictionary_path@ == m.dictionary_path
                &&& config.input_words.deep_view() == m.input_words
                &&& expect_dictionary_path == m.expect_dictionary_path
            }),
        decreases args.len() - i,
    {
        let arg = args[i].as_str();
        let ghost before = rest.subrange(0, i - 1);
        let ghost after = rest.subrange(0, i as int);
        proof {
            assert(after.drop_last() =~= before);
            assert(after.last() == arg@);
        }
        if expect_dictionary_path {
            config.dictionary_path = args[i].clone();
            expect_dictionary_path = false;
        } else if text_eq(arg, "-h") || text_eq(arg, "--help") {
            proof {
                lemma_help_persists(rest, i as int);
            }
            return Command::PrintUsage { base_name };
        } else if text_eq(arg, "-d") || text_eq(arg, "--dictionary") {
            expect_dictionary_path = true;
        } else if text_eq(arg, "-c") || text_eq(arg, "--case-sensitive") {
            config.case_sensitive = true;
        } else {
            config.input_words.push(args[i].clone());
            proof {
                assert(config.input_words.deep_view() =~= read_args(before).input_words.push(arg@));
            }
        }
        i = i + 1;
    }
    proof {
        assert(rest.subrange(0, i - 1) =~= rest);
    }
    if expect_dictionary_path {
        return Command::ErrorExit { reason: String::from_str(MISSING_DICTIONARY_PATH) };
    }
    if config.input_words.len() == 0 {
        return Command::ErrorExit { reason: String::from_str(NO_WORDS_SPECIFIED) };
    }
    Command::PrintAnagrams(config)
}

} // verus!
