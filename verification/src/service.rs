//! The lookup service: resolves one raw word against a loaded store, with
//! the unknown-word fallback, and assembles the outward response.

use vstd::prelude::*;
use crate::parse::spec_parse_line;
use crate::store::{DictionaryStore, has_key, variants_of, load_model, line_defines,
    lemma_load_first_variant, lemma_load_model_keys};
use crate::text::{norm, norm_word};

verus! {

/// The outcome of resolving one word: the phoneme string of the word's
/// first-seen variant when the word is known, or the original input echoed
/// back when it is not.
pub struct LookupResult {
    pub phonemes: String,
    pub found: bool,
}

/// What resolving `w` against the mapping `es` yields: the first variant of
/// the normalized word when present, else the raw input unchanged.
pub open spec fn spec_resolve(es: Seq<(Seq<char>, Seq<Seq<char>>)>, w: Seq<char>) -> (
    Seq<char>,
    bool,
) {
    let n = norm(w);
    if has_key(es, n) {
        (variants_of(es, n)[0], true)
    } else {
        (w, false)
    }
}

/// Resolves a raw word: lowercases it, looks it up, and falls back to the
/// original (non-lowercased) input when the word is unknown. A pure, total
/// function of the store contents and the input; it never fails and never
/// changes the store, so repeated calls return identical results.
pub fn resolve(store: &DictionaryStore, word: &str) -> (r: LookupResult)
    ensures
        r.phonemes@ == spec_resolve(store@, word@).0,
        r.found == spec_resolve(store@, word@).1,
        r.found <==> has_key(store@, norm(word@)),
{
    let key = norm_word(word);
    match store.lookup_key(&key) {
        Some(variants) => LookupResult { phonemes: variants[0].clone(), found: true },
        None => LookupResult { phonemes: word.to_owned(), found: false },
    }
}

/// Case-insensitivity of resolution: two inputs with the same normalized
/// form are both found or both missed, and when found they yield the same
/// phoneme string; only the unknown-word fallback (which echoes the raw
/// input) can tell them apart.
pub proof fn lemma_resolve_case_insensitive(
    es: Seq<(Seq<char>, Seq<Seq<char>>)>,
    w1: Seq<char>,
    w2: Seq<char>,
)
    requires
        norm(w1) == norm(w2),
    ensures
        spec_resolve(es, w1).1 == spec_resolve(es, w2).1,
        spec_resolve(es, w1).1 ==> spec_resolve(es, w1).0 == spec_resolve(es, w2).0,
{
}

/// Resolution against a loaded file, end to end: when line `k` is the first
/// line of the file that defines the word `w`, any input whose normalized
/// form is `w` resolves to that line's phoneme string, with `found` set —
/// in particular, under duplicate keys the line appearing first in the file
/// wins.
pub proof fn lemma_resolve_first_variant(
    lines: Seq<Seq<char>>,
    k: int,
    w: Seq<char>,
    p: Seq<char>,
    raw: Seq<char>,
)
    requires
        load_model(lines) is Some,
        0 <= k < lines.len(),
        spec_parse_line(lines[k]) == Some((w, p)),
        forall|j: int| 0 <= j < k ==> !line_defines(lines[j], w),
        norm(raw) == w,
    ensures
        spec_resolve(load_model(lines)->Some_0, raw) == (p, true),
{
    lemma_load_first_variant(lines, k, w, p);
}

/// The unknown-word fallback, end to end: when no line of the loaded file
/// defines the input's normalized form, the input is echoed back exactly as
/// written, with `found` clear.
pub proof fn lemma_resolve_unknown(lines: Seq<Seq<char>>, raw: Seq<char>)
    requires
        load_model(lines) is Some,
        forall|j: int| 0 <= j < lines.len() ==> !line_defines(lines[j], norm(raw)),
    ensures
        spec_resolve(load_model(lines)->Some_0, raw) == (raw, false),
{
    lemma_load_model_keys(lines, norm(raw));
}

/// The outward reply: the request's opaque identifier passed through, the
/// phoneme string, and a fixed message naming the outcome.
pub struct Response {
    pub req_id: String,
    pub phonemes: String,
    pub message: String,
}

/// Assembles the reply for one resolved word: `req_id` is passed through
/// unchanged, and the message is exactly "data processed" for a known word
/// and "unknown word" otherwise.
pub fn make_response(req_id: String, result: LookupResult) -> (r: Response)
    ensures
        r.req_id == req_id,
        r.phonemes == result.phonemes,
        result.found ==> r.message@ == "data processed"@,
        !result.found ==> r.message@ == "unknown word"@,
{
    let message = if result.found {
        "data processed".to_owned()
    } else {
        "unknown word".to_owned()
    };
    Response { req_id, phonemes: result.phonemes, message }
}

} // verus!
