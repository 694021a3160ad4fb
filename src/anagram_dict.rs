use vstd::prelude::*;
use vstd::relations::{sorted_by, total_ordering};
use vstd::seq_lib::lemma_sorted_unique;
use vstd::multiset::Multiset;
use vstd::string::StrSliceExecFns;

verus! {

/// What `str::to_lowercase` makes of a sequence of characters.
pub uninterp spec fn lower_of(s: Seq<char>) -> Seq<char>;

/// Relies on `str::to_lowercase`: the lowercase form depends on the characters alone.
#[verifier::external_body]
fn lowercase(s: &str) -> (r: String)
    ensures
        r@ == lower_of(s@),
{
    s.to_lowercase()
}

/// Relies on `String: FromIterator<char>`: the characters are collected in order.
#[verifier::external_body]
fn string_from_chars(chars: Vec<char>) -> (r: String)
    ensures
        r@ == chars@,
{
    String::from_iter(chars)
}

/// A dictionary line or a query with this ending (`'s`) is left out of every lookup.
pub open spec fn has_skip_suffix(w: Seq<char>) -> bool {
    w.len() >= 2 && w[w.len() - 2] == '\'' && w[w.len() - 1] == 's'
}

/// The form of a word that is compared: the word itself, or its lowercase form.
pub open spec fn folded(w: Seq<char>, case_sensitive: bool) -> Seq<char> {
    if case_sensitive {
        w
    } else {
        lower_of(w)
    }
}

/// The anagram key of a word: the characters of its compared form in ascending order.
pub open spec fn key_of(w: Seq<char>, case_sensitive: bool) -> Seq<char> {
    folded(w, case_sensitive).sort_by(char_leq())
}

/// Order of characters by code point.
pub open spec fn char_leq() -> spec_fn(char, char) -> bool {
    |a: char, b: char| a <= b
}

proof fn lemma_char_leq_total()
    ensures
        total_ordering(char_leq()),
{
}

/// The characters of `s`, in order.
pub(crate) fn chars_of(s: &str) -> (r: Vec<char>)
    ensures
        r@ == s@,
{
    let n = s.unicode_len();
    let mut r: Vec<char> = Vec::new();
    let mut i: usize = 0;
    while i < n
        invariant
            n == s@.len(),
            i <= n,
            r@ == s@.subrange(0, i as int),
        decreases n - i,
    {
        r.push(s.get_char(i));
        i = i + 1;
    }
    assert(r@ =~= s@);
    r
}

/// Whether `w` ends in the skip suffix `'s`.
fn ends_with_skip_suffix(w: &str) -> (r: bool)
    ensures
        r == has_skip_suffix(w@),
{
    let n = w.unicode_len();
    n >= 2 && w.get_char(n - 2) == '\'' && w.get_char(n - 1) == 's'
}

/// The characters of `chars` in ascending order.
fn sort_chars(chars: &Vec<char>) -> (r: Vec<char>)
    ensures
        r@ == chars@.sort_by(char_leq()),
{
    let mut r: Vec<char> = Vec::new();
    let mut i: usize = 0;
    proof {
        broadcast use vstd::seq_lib::group_to_multiset_ensures;
        assert(chars@.subrange(0, 0) =~= r@);
    }
    while i < chars.len()
        invariant
            i <= chars.len(),
            sorted_by(r@, char_leq()),
            r@.to_multiset() == chars@.subrange(0, i as int).to_multiset(),
        decreases chars.len() - i,
    {
        insert_char_sorted(&mut r, chars[i]);
        proof {
            assert(chars@.subrange(0, i + 1) =~= chars@.subrange(0, i as int).push(chars@[i as int]));
            broadcast use vstd::seq_lib::group_to_multiset_ensures;
        }
        i = i + 1;
    }
    proof {
        assert(chars@.subrange(0, i as int) =~= chars@);
        lemma_char_leq_total();
        chars@.lemma_sort_by_ensures(char_leq());
        lemma_sorted_unique(r@, chars@.sort_by(char_leq()), char_leq());
    }
    r
}

/// The anagram key of a word already in its compared form: its characters in ascending
/// order of code point.
pub fn key_of_folded(folded: &str) -> (r: String)
    ensures
        r@ == folded@.sort_by(char_leq()),
{
    let chars = chars_of(folded);
    let sorted = sort_chars(&chars);
    string_from_chars(sorted)
}

/// The anagram key of `word`, or `None` when it ends in the skip suffix (tested on the word
/// as given, before any case folding).
pub fn anagram_key(word: &str, case_sensitive: bool) -> (r: Option<String>)
    ensures
        r is None <==> has_skip_suffix(word@),
        r matches Some(k) ==> k@ == key_of(word@, case_sensitive),
{
    if ends_with_skip_suffix(word) {
        None
    } else if case_sensitive {
        Some(key_of_folded(word))
    } else {
        let lower = lowercase(word);
        Some(key_of_folded(lower.as_str()))
    }
}

/// Inserts `c` into the ascending sequence `v`, keeping it ascending.
fn insert_char_sorted(v: &mut Vec<char>, c: char)
    requires
        sorted_by(old(v)@, char_leq()),
    ensures
        sorted_by(final(v)@, char_leq()),
        final(v)@.to_multiset() == old(v)@.to_multiset().insert(c),
{
    let mut i: usize = 0;
    while i < v.len() && v[i] <= c
        invariant
            0 <= i <= v.len(),
            forall|j: int| 0 <= j < i ==> v@[j] <= c,
            sorted_by(v@, char_leq()),
        decreases v.len() - i,
    {
        i = i + 1;
    }
    let ghost before = v@;
    v.insert(i, c);
    proof {
        assert(before =~= before.subrange(0, i as int) + before.subrange(i as int, before.len() as int));
        assert(v@ =~= before.subrange(0, i as int) + seq![c] + before.subrange(i as int, before.len() as int));
        vstd::seq_lib::lemma_multiset_commutative(before.subrange(0, i as int), before.subrange(i as int, before.len() as int));
        vstd::seq_lib::lemma_multiset_commutative(before.subrange(0, i as int) + seq![c], before.subrange(i as int, before.len() as int));
        vstd::seq_lib::lemma_multiset_commutative(before.subrange(0, i as int), seq![c]);
        assert(seq![c].to_multiset() =~= Multiset::empty().insert(c)) by {
            broadcast use vstd::seq_lib::group_to_multiset_ensures;
            assert(seq![c] =~= Seq::<char>::empty().push(c));
        }
        assert(v@.to_multiset() =~= before.to_multiset().insert(c));
        assert forall|a: int, b: int| 0 <= a < b < v@.len() implies #[trigger] (char_leq())(v@[a], v@[b]) by {
            if i < before.len() {
                assert(c <= before[i as int]);
                if b > i && a < i {
                    assert((char_leq())(before[a], before[b - 1]));
                }
                if b > i + 1 && a == i {
                    assert((char_leq())(before[i as int], before[b - 1]));
                }
            }
        }
    }
}

/// Lexicographic order of words, by code point: `a` comes strictly before `b`.
pub open spec fn lex_lt(a: Seq<char>, b: Seq<char>) -> bool
    decreases a.len(),
{
    if b.len() == 0 {
        false
    } else if a.len() == 0 {
        true
    } else if a[0] != b[0] {
        a[0] < b[0]
    } else {
        lex_lt(a.drop_first(), b.drop_first())
    }
}

/// The texts of a sequence of string slices.
pub open spec fn texts(v: Seq<&str>) -> Seq<Seq<char>> {
    v.map_values(|s: &str| s@)
}

/// Every word comes strictly before the ones after it.
pub open spec fn strictly_ascending(v: Seq<Seq<char>>) -> bool {
    forall|i: int, j: int| 0 <= i < j < v.len() ==> lex_lt(#[trigger] v[i], #[trigger] v[j])
}

proof fn lemma_lex_lt_irreflexive(a: Seq<char>)
    ensures
        !lex_lt(a, a),
    decreases a.len(),
{
    if a.len() > 0 {
        lemma_lex_lt_irreflexive(a.drop_first());
    }
}

proof fn lemma_lex_lt_transitive(a: Seq<char>, b: Seq<char>, c: Seq<char>)
    requires
        lex_lt(a, b),
        lex_lt(b, c),
    ensures
        lex_lt(a, c),
    decreases a.len(),
{
    if a.len() > 0 && a[0] == b[0] && b[0] == c[0] {
        lemma_lex_lt_transitive(a.drop_first(), b.drop_first(), c.drop_first());
    }
}

proof fn lemma_lex_lt_total(a: Seq<char>, b: Seq<char>)
    requires
        a != b,
    ensures
        lex_lt(a, b) || lex_lt(b, a),
    decreases a.len(),
{
    if a.len() > 0 && b.len() > 0 && a[0] == b[0] {
        if a.drop_first() == b.drop_first() {
            assert(a =~= seq![a[0]] + a.drop_first());
            assert(b =~= seq![b[0]] + b.drop_first());
        }
        lemma_lex_lt_total(a.drop_first(), b.drop_first());
    } else if a.len() == 0 && b.len() == 0 {
        assert(a =~= b);
    }
}

/// Whether `a` comes strictly before `b`.
fn lex_less(a: &str, b: &str) -> (r: bool)
    ensures
        r == lex_lt(a@, b@),
{
    let x = chars_of(a);
    let y = chars_of(b);
    let mut i: usize = 0;
    proof {
        assert(a@.subrange(0, a@.len() as int) =~= a@);
        assert(b@.subrange(0, b@.len() as int) =~= b@);
    }
    while i < x.len() && i < y.len() && x[i] == y[i]
        invariant
            i <= x.len(),
            i <= y.len(),
            x@ == a@,
            y@ == b@,
            lex_lt(a@, b@) == lex_lt(a@.subrange(i as int, a@.len() as int), b@.subrange(i as int, b@.len() as int)),
        decreases x.len() - i,
    {
        proof {
            let sa = a@.subrange(i as int, a@.len() as int);
            let sb = b@.subrange(i as int, b@.len() as int);
            assert(sa.drop_first() =~= a@.subrange(i + 1, a@.len() as int));
            assert(sb.drop_first() =~= b@.subrange(i + 1, b@.len() as int));
        }
        i = i + 1;
    }
    if i == y.len() {
        false
    } else if i == x.len() {
        true
    } else {
        x[i] < y[i]
    }
}

/// Inserts `w` into the strictly ascending `v`, unless an equal word is already there.
fn insert_word_sorted<'a>(v: &mut Vec<&'a str>, w: &'a str)
    requires
        strictly_ascending(texts(old(v)@)),
    ensures
        strictly_ascending(texts(final(v)@)),
        forall|x: Seq<char>| texts(final(v)@).contains(x) <==> (texts(old(v)@).contains(x) || x == w@),
{
    let mut i: usize = 0;
    while i < v.len() && lex_less(v[i], w)
        invariant
            0 <= i <= v.len(),
            forall|j: int| 0 <= j < i ==> lex_lt(#[trigger] texts(v@)[j], w@),
            strictly_ascending(texts(v@)),
        decreases v.len() - i,
    {
        i = i + 1;
    }
    let ghost before = texts(v@);
    if i < v.len() && !lex_less(w, v[i]) {
        proof {
            if w@ != before[i as int] {
                lemma_lex_lt_total(w@, before[i as int]);
            }
            assert(before[i as int] == w@);
            assert(before.contains(w@));
        }
        return;
    }
    proof {
        if i < before.len() {
            assert(lex_lt(w@, before[i as int])) by {
                lemma_lex_lt_total(w@, before[i as int]);
                if w@ == before[i as int] {
                    lemma_lex_lt_irreflexive(w@);
                }
            }
        }
    }
    v.insert(i, w);
    proof {
        let after = texts(v@);
        assert(after =~= before.insert(i as int, w@));
        assert forall|a: int, b: int| 0 <= a < b < after.len() implies lex_lt(#[trigger] after[a], #[trigger] after[b]) by {
            if a < i && b == i {
            } else if a < i && b > i {
                assert(lex_lt(before[a], before[b - 1]));
            } else if a == i && b > i + 1 {
                lemma_lex_lt_transitive(w@, before[i as int], before[b - 1]);
            } else if a > i {
                assert(lex_lt(before[a - 1], before[b - 1]));
            }
        }
        assert forall|x: Seq<char>| after.contains(x) <==> (before.contains(x) || x == w@) by {
            if after.contains(x) {
                let k = choose|k: int| 0 <= k < after.len() && after[k] == x;
                if k > i {
                    assert(before[k - 1] == x);
                } else if k < i {
                    assert(before[k] == x);
                }
            }
            if before.contains(x) {
                let k = choose|k: int| 0 <= k < before.len() && before[k] == x;
                if k >= i {
                    assert(after[k + 1] == x);
                } else {
                    assert(after[k] == x);
                }
            }
            if x == w@ {
                assert(after[i as int] == x);
            }
        }
    }
}

/// Two strictly ascending sequences with the same words are equal.
pub proof fn lemma_ascending_unique(a: Seq<Seq<char>>, b: Seq<Seq<char>>)
    requires
        strictly_ascending(a),
        strictly_ascending(b),
        forall|x: Seq<char>| a.contains(x) <==> b.contains(x),
    ensures
        a == b,
    decreases a.len(),
{
    if a.len() == 0 || b.len() == 0 {
        if a.len() > 0 {
            assert(a.contains(a[0]));
        }
        if b.len() > 0 {
            assert(b.contains(b[0]));
        }
        assert(a =~= b);
    } else {
        assert(a.contains(a[0]));
        assert(b.contains(b[0]));
        if a[0] != b[0] {
            let k = choose|k: int| 0 <= k < b.len() && b[k] == a[0];
            let m = choose|m: int| 0 <= m < a.len() && a[m] == b[0];
            assert(lex_lt(b[0], b[k]));
            assert(lex_lt(a[0], a[m]));
            lemma_lex_lt_transitive(a[0], b[0], a[0]);
            lemma_lex_lt_irreflexive(a[0]);
        }
        let a1 = a.drop_first();
        let b1 = b.drop_first();
        assert forall|x: Seq<char>| a1.contains(x) <==> b1.contains(x) by {
            if a1.contains(x) {
                let i = choose|i: int| 0 <= i < a1.len() && a1[i] == x;
                assert(lex_lt(a[0], a[i + 1]));
                lemma_lex_lt_irreflexive(x);
                assert(b.contains(x));
                let j = choose|j: int| 0 <= j < b.len() && b[j] == x;
                assert(j != 0);
                assert(b1[j - 1] == x);
            }
            if b1.contains(x) {
                let i = choose|i: int| 0 <= i < b1.len() && b1[i] == x;
                assert(lex_lt(b[0], b[i + 1]));
                lemma_lex_lt_irreflexive(x);
                assert(a.contains(x));
                let j = choose|j: int| 0 <= j < a.len() && a[j] == x;
                assert(j != 0);
                assert(a1[j - 1] == x);
            }
        }
        assert forall|i: int, j: int| 0 <= i < j < a1.len() implies lex_lt(#[trigger] a1[i], #[trigger] a1[j]) by {
            assert(lex_lt(a[i + 1], a[j + 1]));
        }
        assert forall|i: int, j: int| 0 <= i < j < b1.len() implies lex_lt(#[trigger] b1[i], #[trigger] b1[j]) by {
            assert(lex_lt(b[i + 1], b[j + 1]));
        }
        lemma_ascending_unique(a1, b1);
        assert(a =~= seq![a[0]] + a1);
        assert(b =~= seq![b[0]] + b1);
    }
}

/// A word of the dictionary is indexed when it is one of its lines and lacks the skip suffix.
pub open spec fn is_indexed(lines: Seq<Seq<char>>, w: Seq<char>) -> bool {
    lines.contains(w) && !has_skip_suffix(w)
}

/// The index built from the lines of a word list: each anagram key that an indexed word has,
/// mapped to the set of indexed words with that key.
pub open spec fn index_of(lines: Seq<Seq<char>>, case_sensitive: bool) -> Map<Seq<char>, Set<Seq<char>>> {
    Map::new(
        |k: Seq<char>| exists|w: Seq<char>| is_indexed(lines, w) && key_of(w, case_sensitive) == k,
        |k: Seq<char>| Set::new(|w: Seq<char>| is_indexed(lines, w) && key_of(w, case_sensitive) == k),
    )
}

/// The anagrams of `word` in `index`: the words under its key, but those equal to it once
/// lowercased; none for a word with the skip suffix.
pub open spec fn anagrams_in(index: Map<Seq<char>, Set<Seq<char>>>, word: Seq<char>, case_sensitive: bool) -> Set<Seq<char>> {
    Set::new(|w: Seq<char>|
        !has_skip_suffix(word)
        && index.contains_key(key_of(word, case_sensitive))
        && index[key_of(word, case_sensitive)].contains(w)
        && lower_of(w) != lower_of(word))
}

/// What a lookup returns: nothing when there is no anagram, else every anagram once, in
/// ascending order.
pub open spec fn is_lookup_result(index: Map<Seq<char>, Set<Seq<char>>>, word: Seq<char>, case_sensitive: bool, r: Option<Seq<Seq<char>>>) -> bool {
    let found = anagrams_in(index, word, case_sensitive);
    match r {
        None => forall|w: Seq<char>| !found.contains(w),
        Some(v) => {
            &&& v.len() > 0
            &&& strictly_ascending(v)
            &&& forall|w: Seq<char>| v.contains(w) <==> found.contains(w)
        },
    }
}

/// Words with the same characters, counted with multiplicity, have the same key.
pub proof fn lemma_same_letters_same_key(w1: Seq<char>, w2: Seq<char>, case_sensitive: bool)
    requires
        folded(w1, case_sensitive).to_multiset() == folded(w2, case_sensitive).to_multiset(),
    ensures
        key_of(w1, case_sensitive) == key_of(w2, case_sensitive),
{
    let f1 = folded(w1, case_sensitive);
    let f2 = folded(w2, case_sensitive);
    lemma_char_leq_total();
    f1.lemma_sort_by_ensures(char_leq());
    f2.lemma_sort_by_ensures(char_leq());
    lemma_sorted_unique(f1.sort_by(char_leq()), f2.sort_by(char_leq()), char_leq());
}

/// Two words of the word list, neither ending in `'s`, whose lowercase forms have the same
/// characters find each other when case is ignored, unless they are the same word once
/// lowercased.
pub proof fn lemma_anagrams_find_each_other(lines: Seq<Seq<char>>, w1: Seq<char>, w2: Seq<char>)
    requires
        lines.contains(w1),
        lines.contains(w2),
        !has_skip_suffix(w1),
        !has_skip_suffix(w2),
        lower_of(w1).to_multiset() == lower_of(w2).to_multiset(),
        lower_of(w1) != lower_of(w2),
    ensures
        anagrams_in(index_of(lines, false), w1, false).contains(w2),
        anagrams_in(index_of(lines, false), w2, false).contains(w1),
        !is_lookup_result(index_of(lines, false), w1, false, None),
        forall|v: Seq<Seq<char>>| is_lookup_result(index_of(lines, false), w1, false, Some(v)) ==> v.contains(w2),
        !is_lookup_result(index_of(lines, false), w2, false, None),
        forall|v: Seq<Seq<char>>| is_lookup_result(index_of(lines, false), w2, false, Some(v)) ==> v.contains(w1),
{
    lemma_same_letters_same_key(w1, w2, false);
    let index = index_of(lines, false);
    assert(is_indexed(lines, w1) && key_of(w1, false) == key_of(w1, false));
    assert(index.contains_key(key_of(w1, false)));
    assert(index[key_of(w1, false)].contains(w2));
    assert(index[key_of(w1, false)].contains(w1));
    assert(anagrams_in(index, w1, false).contains(w2));
    assert(anagrams_in(index, w2, false).contains(w1));
}

/// A lookup never returns the word looked up, nor any word equal to it once lowercased.
pub proof fn lemma_no_self_match(index: Map<Seq<char>, Set<Seq<char>>>, word: Seq<char>, case_sensitive: bool, v: Seq<Seq<char>>)
    requires
        is_lookup_result(index, word, case_sensitive, Some(v)),
    ensures
        forall|i: int| 0 <= i < v.len() ==> lower_of(#[trigger] v[i]) != lower_of(word),
{
    assert forall|i: int| 0 <= i < v.len() implies lower_of(#[trigger] v[i]) != lower_of(word) by {
        assert(v.contains(v[i]));
    }
}

/// A word list line ending in `'s` is under no key of the index, and no lookup returns it.
pub proof fn lemma_skipped_line_never_found(lines: Seq<Seq<char>>, case_sensitive: bool, w: Seq<char>, word: Seq<char>)
    requires
        has_skip_suffix(w),
    ensures
        forall|k: Seq<char>| index_of(lines, case_sensitive).contains_key(k) ==> !(#[trigger] index_of(lines, case_sensitive)[k]).contains(w),
        forall|v: Seq<Seq<char>>| is_lookup_result(index_of(lines, case_sensitive), word, case_sensitive, Some(v)) ==> !v.contains(w),
{
}

/// A lookup of a word ending in `'s` returns nothing.
pub proof fn lemma_skipped_query_finds_nothing(index: Map<Seq<char>, Set<Seq<char>>>, word: Seq<char>, case_sensitive: bool, r: Option<Seq<Seq<char>>>)
    requires
        has_skip_suffix(word),
        is_lookup_result(index, word, case_sensitive, r),
    ensures
        r is None,
{
    if let Some(v) = r {
        assert(v.contains(v[0]));
    }
}

/// Looking words up in an anagram index.
pub trait AnagramDictTrait: Sized {
    /// The index: anagram keys mapped to the words that have them.
    spec fn index(&self) -> Map<Seq<char>, Set<Seq<char>>>;

    /// Builds the index of a word list given as its lines.
    fn from_lines(lines: &Vec<String>, case_sensitive: bool) -> (r: Self)
        ensures
            r.index() == index_of(lines.deep_view(), case_sensitive),
    ;

    /// The anagrams of `word`, in ascending order, or `None` when there are none.
    fn lookup(&self, word: &str, case_sensitive: bool) -> (r: Option<Vec<&str>>)
        ensures
            is_lookup_result(self.index(), word@, case_sensitive, match r {
                None => None,
                Some(v) => Some(texts(v@)),
            }),
    ;
}

/// One indexed word with its anagram key.
struct IndexEntry {
    key: String,
    word: String,
}

/// An anagram index held as the list of indexed words, each beside its key.
pub struct AnagramDictionary {
    entries: Vec<IndexEntry>,
}

impl View for AnagramDictionary {
    type V = Map<Seq<char>, Set<Seq<char>>>;

    closed spec fn view(&self) -> Map<Seq<char>, Set<Seq<char>>> {
        Map::new(
            |k: Seq<char>| exists|j: int| 0 <= j < self.entries.len() && #[trigger] self.entries@[j].key@ == k,
            |k: Seq<char>| Set::new(|w: Seq<char>| exists|j: int|
                0 <= j < self.entries.len() && #[trigger] self.entries@[j].key@ == k && self.entries@[j].word@ == w),
        )
    }
}

impl AnagramDictTrait for AnagramDictionary {
    open spec fn index(&self) -> Map<Seq<char>, Set<Seq<char>>> {
        self@
    }

    fn from_lines(lines: &Vec<String>, case_sensitive: bool) -> (r: Self) {
        let ghost all = lines.deep_view();
        let mut entries: Vec<IndexEntry> = Vec::new();
        let mut i: usize = 0;
        while i < lines.len()
            invariant
                i <= lines.len(),
                all == lines.deep_view(),
                forall|j: int| 0 <= j < entries.len() ==> {
                    &&& is_indexed(all.subrange(0, i as int), #[trigger] entries@[j].word@)
                    &&& entries@[j].key@ == key_of(entries@[j].word@, case_sensitive)
                },
                forall|w: Seq<char>| is_indexed(all.subrange(0, i as int), w) ==>
                    exists|j: int| 0 <= j < entries.len() && #[trigger] entries@[j].word@ == w,
            decreases lines.len() - i,
        {
            let line = &lines[i];
            let ghost prefix = all.subrange(0, i as int);
            let ghost next = all.subrange(0, i + 1);
            let ghost earlier = entries@;
            proof {
                assert(next =~= prefix.push(line@));
                assert forall|w: Seq<char>| #[trigger] prefix.contains(w) implies next.contains(w) by {
                    let k = choose|k: int| 0 <= k < prefix.len() && prefix[k] == w;
                    assert(next[k] == w);
                }
            }
            match anagram_key(line.as_str(), case_sensitive) {
                Some(key) => {
                    entries.push(IndexEntry { key, word: line.clone() });
                    proof {
                        assert(entries@[entries.len() - 1].word@ == line@);
                        assert(next[i as int] == line@);
                    }
                },
                None => {},
            }
            proof {
                assert forall|w: Seq<char>| is_indexed(next, w) implies
                    exists|j: int| 0 <= j < entries.len() && #[trigger] entries@[j].word@ == w by {
                    let k = choose|k: int| 0 <= k < next.len() && next[k] == w;
                    if k < i {
                        assert(prefix[k] == w);
                        assert(prefix.contains(w));
                        assert(is_indexed(prefix, w));
                        let jj = choose|jj: int| 0 <= jj < earlier.len() && #[trigger] earlier[jj].word@ == w;
                        assert(entries@[jj].word@ == w);
                    } else {
                        assert(w == line@);
                        assert(entries@[entries.len() - 1].word@ == w);
                    }
                }
            }
            i = i + 1;
        }
        let r = AnagramDictionary { entries };
        proof {
            assert(all.subrange(0, i as int) =~= all);
            let target = index_of(all, case_sensitive);
            assert forall|k: Seq<char>| #[trigger] r@.contains_key(k) <==> target.contains_key(k) by {
                if r@.contains_key(k) {
                    let j = choose|j: int| 0 <= j < r.entries.len() && #[trigger] r.entries@[j].key@ == k;
                    assert(is_indexed(all, r.entries@[j].word@));
                }
                if target.contains_key(k) {
                    let w = choose|w: Seq<char>| is_indexed(all, w) && key_of(w, case_sensitive) == k;
                    let j = choose|j: int| 0 <= j < r.entries.len() && #[trigger] r.entries@[j].word@ == w;
                    assert(r.entries@[j].key@ == k);
                }
            }
            assert forall|k: Seq<char>| #[trigger] r@.contains_key(k) implies r@[k] =~= target[k] by {
                assert forall|w: Seq<char>| r@[k].contains(w) <==> target[k].contains(w) by {
                    if target[k].contains(w) {
                        let j = choose|j: int| 0 <= j < r.entries.len() && #[trigger] r.entries@[j].word@ == w;
                        assert(r.entries@[j].key@ == k);
                    }
                }
            }
            assert(r@ =~= target);
        }
        r
    }

    fn lookup(&self, word: &str, case_sensitive: bool) -> (r: Option<Vec<&str>>) {
        let key = match anagram_key(word, case_sensitive) {
            Some(k) => k,
            None => {
                return None;
            },
        };
        let lower_word = lowercase(word);
        let ghost index = self@;
        let ghost found = anagrams_in(index, word@, case_sensitive);
        let mut anagrams: Vec<&str> = Vec::new();
        let mut j: usize = 0;
        while j < self.entries.len()
            invariant
                j <= self.entries.len(),
                key@ == key_of(word@, case_sensitive),
                !has_skip_suffix(word@),
                lower_word@ == lower_of(word@),
                strictly_ascending(texts(anagrams@)),
                forall|x: Seq<char>| texts(anagrams@).contains(x) <==> exists|i: int|
                    0 <= i < j && #[trigger] self.entries@[i].key@ == key@ && self.entries@[i].word@ == x
                    && lower_of(x) != lower_of(word@),
            decreases self.entries.len() - j,
        {
            let entry = &self.entries[j];
            if entry.key == key {
                let lower = lowercase(entry.word.as_str());
                if !(lower == lower_word) {
                    insert_word_sorted(&mut anagrams, entry.word.as_str());
                }
            }
            proof {
                assert forall|x: Seq<char>| texts(anagrams@).contains(x) <==> exists|i: int|
                    0 <= i < j + 1 && #[trigger] self.entries@[i].key@ == key@ && self.entries@[i].word@ == x
                    && lower_of(x) != lower_of(word@) by {
                    if x == entry.word@ && entry.key@ == key@ && lower_of(x) != lower_of(word@) {
                        assert(self.entries@[j as int].key@ == key@);
                    }
                }
            }
            j = j + 1;
        }
        proof {
            assert forall|x: Seq<char>| texts(anagrams@).contains(x) <==> found.contains(x) by {
                if found.contains(x) {
                    let i = choose|i: int| 0 <= i < self.entries.len() && #[trigger] self.entries@[i].key@ == key@
                        && self.entries@[i].word@ == x;
                }
            }
        }
        if anagrams.len() == 0 {
            None
        } else {
            proof {
                assert(texts(anagrams@).contains(texts(anagrams@)[0]));
            }
            Some(anagrams)
        }
    }
}

} // verus!
