//! The dictionary store: the in-memory word-to-variants mapping, built once
//! from the lines of a pronunciation dictionary file and immutable afterwards.
//!
//! The store is modelled as a sequence of entries in arrival order, each a
//! normalized word paired with its phoneme-string variants, also in arrival
//! order. Word keys are unique; a repeated word extends the existing entry's
//! variant list, so the first-arriving variant stays first. A line with no
//! separator aborts the load with `LoadError::MalformedLine`.

use vstd::prelude::*;
use crate::parse::{spec_parse_line, parse_line};
use crate::text::{norm, chars_eq};

verus! {

/// One store entry: a normalized word and its phoneme-string variants.
#[derive(Debug)]
struct Entry {
    word: Vec<char>,
    variants: Vec<String>,
}

impl View for Entry {
    type V = (Seq<char>, Seq<Seq<char>>);

    closed spec fn view(&self) -> Self::V {
        (self.word@, self.variants.deep_view())
    }
}

/// The abstract contents of a list of entries.
spec fn abs_entries(es: Seq<Entry>) -> Seq<(Seq<char>, Seq<Seq<char>>)> {
    es.map_values(|e: Entry| e@)
}

/// The index of the first entry whose word is `w`, or `es.len()` if none.
pub open spec fn key_index(es: Seq<(Seq<char>, Seq<Seq<char>>)>, w: Seq<char>) -> int
    decreases es.len(),
{
    if es.len() == 0 {
        0
    } else if es[0].0 == w {
        0
    } else {
        1 + key_index(es.drop_first(), w)
    }
}

/// Whether some entry has word `w`.
pub open spec fn has_key(es: Seq<(Seq<char>, Seq<Seq<char>>)>, w: Seq<char>) -> bool {
    key_index(es, w) < es.len()
}

/// The variant list of the first entry whose word is `w`.
pub open spec fn variants_of(es: Seq<(Seq<char>, Seq<Seq<char>>)>, w: Seq<char>) -> Seq<
    Seq<char>,
> {
    es[key_index(es, w)].1
}

/// `key_index` finds the first entry with word `w`: it stays within bounds,
/// lands on `w` when `w` is present, and skips no earlier occurrence.
pub proof fn lemma_key_index(es: Seq<(Seq<char>, Seq<Seq<char>>)>, w: Seq<char>)
    ensures
        0 <= key_index(es, w) <= es.len(),
        key_index(es, w) < es.len() ==> es[key_index(es, w)].0 == w,
        forall|i: int| 0 <= i < key_index(es, w) ==> es[i].0 != w,
    decreases es.len(),
{
    if es.len() > 0 && es[0].0 != w {
        lemma_key_index(es.drop_first(), w);
        assert forall|i: int| 0 <= i < key_index(es, w) implies es[i].0 != w by {
            if i > 0 {
                assert(es.drop_first()[i - 1] == es[i]);
            }
        }
    }
}

/// One parsed line folded into the mapping: a new variant appended to the
/// word's entry, or a fresh entry appended at the end.
pub open spec fn insert_pair(
    es: Seq<(Seq<char>, Seq<Seq<char>>)>,
    w: Seq<char>,
    p: Seq<char>,
) -> Seq<(Seq<char>, Seq<Seq<char>>)> {
    if has_key(es, w) {
        let i = key_index(es, w);
        es.update(i, (w, es[i].1.push(p)))
    } else {
        es.push((w, seq![p]))
    }
}

/// The mapping that a sequence of dictionary lines loads to, or `None` when
/// some line is malformed (holds no separator).
pub open spec fn load_model(lines: Seq<Seq<char>>) -> Option<
    Seq<(Seq<char>, Seq<Seq<char>>)>,
>
    decreases lines.len(),
{
    if lines.len() == 0 {
        Some(Seq::empty())
    } else {
        match load_model(lines.drop_last()) {
            Option::None => Option::None,
            Option::Some(es) => match spec_parse_line(lines.last()) {
                Option::None => Option::None,
                Option::Some(wp) => Option::Some(insert_pair(es, wp.0, wp.1)),
            },
        }
    }
}

/// A malformed line anywhere makes the whole load fail.
pub proof fn lemma_load_model_malformed(lines: Seq<Seq<char>>, k: int)
    requires
        0 <= k < lines.len(),
        spec_parse_line(lines[k]) is None,
    ensures
        load_model(lines) is None,
    decreases lines.len(),
{
    if k < lines.len() - 1 {
        lemma_load_model_malformed(lines.drop_last(), k);
    }
}

/// Why a load fails: the first malformed line.
#[derive(Debug, PartialEq, Eq, Structural)]
pub enum LoadError {
    MalformedLine(usize),
}

/// The dictionary store: the complete word-to-variants mapping for the
/// lifetime of one loaded instance.
#[derive(Debug)]
pub struct DictionaryStore {
    entries: Vec<Entry>,
}

impl View for DictionaryStore {
    type V = Seq<(Seq<char>, Seq<Seq<char>>)>;

    closed spec fn view(&self) -> Self::V {
        abs_entries(self.entries@)
    }
}

/// Well-formedness of the mapping: word keys unique, every key normalized,
/// every entry with at least one variant.
pub open spec fn entries_wf(es: Seq<(Seq<char>, Seq<Seq<char>>)>) -> bool {
    &&& forall|i: int, j: int| 0 <= i < j < es.len() ==> es[i].0 != es[j].0
    &&& forall|i: int| 0 <= i < es.len() ==> #[trigger] es[i].1.len() >= 1
    &&& forall|i: int| 0 <= i < es.len() ==> norm(#[trigger] es[i].0) == es[i].0
}

/// The index of the first entry of `entries` whose word is `w`, or
/// `entries.len()` if there is none.
fn find_entry(entries: &Vec<Entry>, w: &Vec<char>) -> (r: usize)
    ensures
        r == key_index(abs_entries(entries@), w@),
{
    let ghost es = abs_entries(entries@);
    proof {
        lemma_key_index(es, w@);
    }
    let n = entries.len();
    let mut i: usize = 0;
    while i < n
        invariant
            i <= n,
            n == entries@.len(),
            es == abs_entries(entries@),
            forall|j: int| 0 <= j < i ==> es[j].0 != w@,
        decreases n - i,
    {
        if chars_eq(&entries[i].word, w) {
            proof {
                lemma_key_index(es, w@);
                assert(es[i as int].0 == w@);
            }
            return i;
        }
        i = i + 1;
    }
    proof {
        lemma_key_index(es, w@);
    }
    i
}

impl DictionaryStore {
    #[verifier::type_invariant]
    closed spec fn wf(self) -> bool {
        entries_wf(self@)
    }

    /// The number of distinct words in the store.
    pub fn len(&self) -> (r: usize)
        ensures
            r == self@.len(),
    {
        self.entries.len()
    }

    /// Parses dictionary lines into a store: each line contributes one
    /// phoneme-string variant to its (normalized) word's entry, in file
    /// order. The first line with no separator aborts the load.
    pub fn load(lines: &Vec<String>) -> (r: Result<DictionaryStore, LoadError>)
        ensures
            match r {
                Result::Ok(store) => load_model(lines.deep_view()) == Some(store@),
                Result::Err(LoadError::MalformedLine(k)) => {
                    &&& load_model(lines.deep_view()) is None
                    &&& k < lines.len()
                    &&& spec_parse_line(lines.deep_view()[k as int]) is None
                    &&& forall|j: int|
                        0 <= j < k ==> spec_parse_line(lines.deep_view()[j]) is Some
                },
            },
    {
        let ghost ldv = lines.deep_view();
        let mut entries: Vec<Entry> = Vec::new();
        let mut i: usize = 0;
        proof {
            assert(ldv.take(0) =~= Seq::<Seq<char>>::empty());
            assert(abs_entries(entries@) =~= Seq::<(Seq<char>, Seq<Seq<char>>)>::empty());
        }
        while i < lines.len()
            invariant
                i <= lines.len(),
                ldv == lines.deep_view(),
                load_model(ldv.take(i as int)) == Some(abs_entries(entries@)),
                forall|j: int| 0 <= j < i ==> spec_parse_line(ldv[j]) is Some,
            decreases lines.len() - i,
        {
            let ghost es_old = abs_entries(entries@);
            match parse_line(lines[i].as_str()) {
                Option::None => {
                    proof {
                        lemma_load_model_malformed(ldv, i as int);
                    }
                    return Result::Err(LoadError::MalformedLine(i));
                },
                Option::Some((w, p)) => {
                    let ghost wv = w@;
                    let ghost pv = p@;
                    let idx = find_entry(&entries, &w);
                    proof {
                        lemma_key_index(es_old, wv);
                    }
                    if idx < entries.len() {
                        push_variant(&mut entries[idx], p);
                        proof {
                            assert(abs_entries(entries@) =~~= insert_pair(es_old, wv, pv));
                        }
                    } else {
                        let mut variants: Vec<String> = Vec::new();
                        variants.push(p);
                        entries.push(Entry { word: w, variants });
                        proof {
                            assert(entries@.last()@.1 =~= seq![pv]);
                            assert(abs_entries(entries@) =~~= insert_pair(es_old, wv, pv));
                        }
                    }
                    proof {
                        assert(ldv.take(i + 1).drop_last() =~= ldv.take(i as int));
                        assert(ldv.take(i + 1).last() == ldv[i as int]);
                    }
                    i = i + 1;
                },
            }
        }
        proof {
            assert(ldv.take(i as int) =~= ldv);
            lemma_load_model_wf(ldv);
        }
        Result::Ok(DictionaryStore { entries })
    }

    /// Pure map read: the full variant list of the given normalized word, in
    /// arrival order, or `None` when the word is absent. The returned list is
    /// never empty.
    pub fn lookup_key(&self, key: &Vec<char>) -> (r: Option<&Vec<String>>)
        ensures
            r is Some <==> has_key(self@, key@),
            r matches Some(v) ==> v.deep_view() == variants_of(self@, key@) && v.len() >= 1,
    {
        proof {
            use_type_invariant(self);
            lemma_key_index(self@, key@);
        }
        let idx = find_entry(&self.entries, key);
        if idx < self.entries.len() {
            Some(&self.entries[idx].variants)
        } else {
            None
        }
    }

    /// Pure map read keyed by a string: the variant list of the given
    /// normalized word, or `None` when the word is absent.
    pub fn lookup(&self, word: &str) -> (r: Option<&Vec<String>>)
        ensures
            r is Some <==> has_key(self@, word@),
            r matches Some(v) ==> v.deep_view() == variants_of(self@, word@) && v.len() >= 1,
    {
        let key = crate::text::to_chars(word);
        self.lookup_key(&key)
    }
}

/// Appends one phoneme-string variant to an entry.
fn push_variant(e: &mut Entry, p: String)
    ensures
        final(e).word == old(e).word,
        final(e).variants@ == old(e).variants@.push(p),
{
    e.variants.push(p);
}

/// Loading preserves well-formedness: keys stay unique and normalized, and
/// every entry keeps at least one variant.
pub proof fn lemma_load_model_wf(lines: Seq<Seq<char>>)
    requires
        load_model(lines) is Some,
    ensures
        entries_wf(load_model(lines)->Some_0),
    decreases lines.len(),
{
    if lines.len() > 0 {
        lemma_load_model_wf(lines.drop_last());
        let es = load_model(lines.drop_last())->Some_0;
        let wp = spec_parse_line(lines.last())->Some_0;
        crate::parse::lemma_parse_word_normalized(lines.last());
        lemma_insert_pair_wf(es, wp.0, wp.1);
    }
}

/// `insert_pair` preserves well-formedness when the inserted word is
/// normalized.
pub proof fn lemma_insert_pair_wf(es: Seq<(Seq<char>, Seq<Seq<char>>)>, w: Seq<char>, p: Seq<char>)
    requires
        entries_wf(es),
        norm(w) == w,
    ensures
        entries_wf(insert_pair(es, w, p)),
{
    lemma_key_index(es, w);
}

/// Whether a line parses to an entry for the word `w`.
pub open spec fn line_defines(l: Seq<char>, w: Seq<char>) -> bool {
    spec_parse_line(l) matches Some(wp) && wp.0 == w
}

/// `key_index` looks only at the words: two entry lists with the same words
/// in the same places index every key alike.
proof fn lemma_key_index_same_keys(
    es1: Seq<(Seq<char>, Seq<Seq<char>>)>,
    es2: Seq<(Seq<char>, Seq<Seq<char>>)>,
    q: Seq<char>,
)
    requires
        es1.len() == es2.len(),
        forall|i: int| 0 <= i < es1.len() ==> es1[i].0 == es2[i].0,
    ensures
        key_index(es1, q) == key_index(es2, q),
    decreases es1.len(),
{
    if es1.len() > 0 {
        assert forall|i: int| 0 <= i < es1.drop_first().len() implies es1.drop_first()[i].0
            == es2.drop_first()[i].0 by {
            assert(es1.drop_first()[i] == es1[i + 1]);
            assert(es2.drop_first()[i] == es2[i + 1]);
        }
        lemma_key_index_same_keys(es1.drop_first(), es2.drop_first(), q);
    }
}

/// How `key_index` behaves across a push: an existing key keeps its index; a
/// fresh key lands on the pushed entry if it matches, and past the end if
/// not.
proof fn lemma_key_index_push(
    es: Seq<(Seq<char>, Seq<Seq<char>>)>,
    x: (Seq<char>, Seq<Seq<char>>),
    q: Seq<char>,
)
    ensures
        key_index(es.push(x), q) == if has_key(es, q) {
            key_index(es, q)
        } else if x.0 == q {
            es.len() as int
        } else {
            es.len() as int + 1
        },
    decreases es.len(),
{
    lemma_key_index(es, q);
    if es.len() == 0 {
        assert(es.push(x)[0] == x);
        assert(es.push(x).drop_first() =~= Seq::<(Seq<char>, Seq<Seq<char>>)>::empty());
        assert(key_index(Seq::<(Seq<char>, Seq<Seq<char>>)>::empty(), q) == 0);
        if x.0 == q {
            assert(key_index(es.push(x), q) == 0);
        } else {
            assert(key_index(es.push(x), q) == 1);
        }
    } else {
        assert(es.push(x).drop_first() =~= es.drop_first().push(x));
        lemma_key_index_push(es.drop_first(), x, q);
    }
}

/// How one inserted pair changes the mapping: the key set grows by at most
/// the inserted word, the first variant of every existing word is kept, and
/// a fresh word gets exactly the inserted variant.
proof fn lemma_insert_pair_props(
    es: Seq<(Seq<char>, Seq<Seq<char>>)>,
    w: Seq<char>,
    p: Seq<char>,
    q: Seq<char>,
)
    requires
        entries_wf(es),
    ensures
        has_key(insert_pair(es, w, p), q) <==> (has_key(es, q) || q == w),
        has_key(es, q) ==> variants_of(insert_pair(es, w, p), q)[0] == variants_of(es, q)[0],
        !has_key(es, q) && q == w ==> variants_of(insert_pair(es, w, p), q) == seq![p],
{
    lemma_key_index(es, q);
    lemma_key_index(es, w);
    if has_key(es, w) {
        let i = key_index(es, w);
        let es2 = es.update(i, (w, es[i].1.push(p)));
        assert forall|m: int| 0 <= m < es.len() implies es[m].0 == es2[m].0 by {}
        lemma_key_index_same_keys(es, es2, q);
    } else {
        lemma_key_index_push(es, (w, seq![p]), q);
    }
}

/// Where the store's keys come from: a word is in a loaded mapping exactly
/// when some line of the file defines it.
pub proof fn lemma_load_model_keys(lines: Seq<Seq<char>>, q: Seq<char>)
    requires
        load_model(lines) is Some,
    ensures
        has_key(load_model(lines)->Some_0, q) <==> exists|j: int|
            0 <= j < lines.len() && line_defines(lines[j], q),
    decreases lines.len(),
{
    if lines.len() == 0 {
        lemma_key_index(load_model(lines)->Some_0, q);
    } else {
        let prev = lines.drop_last();
        lemma_load_model_keys(prev, q);
        lemma_load_model_wf(prev);
        let es = load_model(prev)->Some_0;
        let wp = spec_parse_line(lines.last())->Some_0;
        lemma_insert_pair_props(es, wp.0, wp.1, q);
        assert forall|j: int| 0 <= j < prev.len() implies prev[j] == lines[j] by {}
        if has_key(load_model(lines)->Some_0, q) {
            if has_key(es, q) {
                let j = choose|j: int| 0 <= j < prev.len() && line_defines(prev[j], q);
                assert(line_defines(lines[j], q));
            } else {
                assert(line_defines(lines[lines.len() - 1], q));
            }
        }
        if exists|j: int| 0 <= j < lines.len() && line_defines(lines[j], q) {
            let j = choose|j: int| 0 <= j < lines.len() && line_defines(lines[j], q);
            if j < lines.len() - 1 {
                assert(line_defines(prev[j], q));
            }
        }
    }
}

/// First-variant-wins: when line `k` is the first line of the file that
/// defines the word `w`, the loaded mapping lists that line's phoneme string
/// as the first variant of `w` — later lines for the same word only add
/// later variants.
pub proof fn lemma_load_first_variant(lines: Seq<Seq<char>>, k: int, w: Seq<char>, p: Seq<char>)
    requires
        load_model(lines) is Some,
        0 <= k < lines.len(),
        spec_parse_line(lines[k]) == Some((w, p)),
        forall|j: int| 0 <= j < k ==> !line_defines(lines[j], w),
    ensures
        has_key(load_model(lines)->Some_0, w),
        variants_of(load_model(lines)->Some_0, w)[0] == p,
    decreases lines.len(),
{
    let prev = lines.drop_last();
    let es = load_model(prev)->Some_0;
    let wp = spec_parse_line(lines.last())->Some_0;
    lemma_load_model_wf(prev);
    lemma_insert_pair_props(es, wp.0, wp.1, w);
    assert forall|j: int| 0 <= j < prev.len() implies prev[j] == lines[j] by {}
    if k == lines.len() - 1 {
        assert(wp == (w, p));
        lemma_load_model_keys(prev, w);
        assert(!has_key(es, w));
    } else {
        lemma_load_first_variant(prev, k, w, p);
    }
}

} // verus!
