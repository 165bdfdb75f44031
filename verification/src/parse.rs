//! The dictionary line grammar.
//!
//! A line has the form `WORD<sep>PHONE1 PHONE2 ...`, where `<sep>` is either a
//! horizontal tab or the three-character token quote-space-quote (`" "`). The
//! word is everything before the first separator, normalized by lowercasing;
//! the phoneme string is the rest of the line with each further separator
//! occurrence replaced by a single space (separators are consumed left to
//! right, without overlap). A line with no separator at all is malformed.

use vstd::prelude::*;
use vstd::string::StrSliceExecFns;
use crate::text::{norm, lower_char_exec};

verus! {

/// Whether a separator token (tab, or quote-space-quote) starts at index `i`.
pub open spec fn is_sep_at(s: Seq<char>, i: int) -> bool {
    0 <= i < s.len() && (s[i] == '\t' || (i + 3 <= s.len() && s[i] == '"' && s[i + 1] == ' '
        && s[i + 2] == '"'))
}

/// The length of the separator token that starts at index `i`.
pub open spec fn sep_len_at(s: Seq<char>, i: int) -> int {
    if s[i] == '\t' {
        1
    } else {
        3
    }
}

/// The index of the first separator token at or after `i`, or `s.len()` if
/// there is none.
pub open spec fn find_sep_from(s: Seq<char>, i: int) -> int
    decreases s.len() - i when 0 <= i <= s.len()
{
    if i >= s.len() {
        s.len() as int
    } else if is_sep_at(s, i) {
        i
    } else {
        find_sep_from(s, i + 1)
    }
}

/// The tail of a line from index `i` on, with every separator token replaced
/// by a single space: the phoneme fields rejoined with single spaces.
pub open spec fn tail_from(s: Seq<char>, i: int) -> Seq<char>
    decreases s.len() - i when 0 <= i <= s.len()
{
    if i >= s.len() {
        Seq::empty()
    } else if is_sep_at(s, i) {
        seq![' '] + tail_from(s, i + sep_len_at(s, i))
    } else {
        seq![s[i]] + tail_from(s, i + 1)
    }
}

/// What a dictionary line parses to: the normalized word and the phoneme
/// string, or nothing when the line holds no separator.
pub open spec fn spec_parse_line(s: Seq<char>) -> Option<(Seq<char>, Seq<char>)> {
    let j = find_sep_from(s, 0);
    if j == s.len() {
        None
    } else {
        Some((norm(s.take(j)), tail_from(s, j + sep_len_at(s, j))))
    }
}

/// Basic facts about `find_sep_from`: it stays within bounds, lands on a
/// separator when one exists, and skips no earlier separator.
pub proof fn lemma_find_sep_from(s: Seq<char>, i: int)
    requires
        0 <= i <= s.len(),
    ensures
        i <= find_sep_from(s, i) <= s.len(),
        find_sep_from(s, i) < s.len() ==> is_sep_at(s, find_sep_from(s, i)),
        forall|j: int| i <= j < find_sep_from(s, i) ==> !is_sep_at(s, j),
    decreases s.len() - i,
{
    if i < s.len() && !is_sep_at(s, i) {
        lemma_find_sep_from(s, i + 1);
    }
}

/// Unrolls `tail_from` across one separator-free run: from `i`, the tail is
/// the run up to the next separator, then a space and the rest (or the run
/// alone when no separator remains).
pub proof fn lemma_tail_run(s: Seq<char>, i: int)
    requires
        0 <= i <= s.len(),
    ensures
        ({
            let k = find_sep_from(s, i);
            tail_from(s, i) == if k == s.len() {
                s.subrange(i, k)
            } else {
                s.subrange(i, k) + seq![' '] + tail_from(s, k + sep_len_at(s, k))
            }
        }),
    decreases s.len() - i,
{
    let k = find_sep_from(s, i);
    lemma_find_sep_from(s, i);
    if i >= s.len() {
        assert(tail_from(s, i) =~= s.subrange(i, k));
    } else if is_sep_at(s, i) {
        assert(k == i);
        assert(s.subrange(i, i) =~= Seq::<char>::empty());
        assert(s.subrange(i, k) + seq![' '] + tail_from(s, k + sep_len_at(s, k)) =~= tail_from(
            s,
            i,
        ));
    } else {
        lemma_tail_run(s, i + 1);
        assert(find_sep_from(s, i + 1) == k);
        assert(seq![s[i]] + s.subrange(i + 1, k) =~= s.subrange(i, k));
        if k == s.len() {
            assert(tail_from(s, i) =~= seq![s[i]] + s.subrange(i + 1, k));
        } else {
            let rest = tail_from(s, k + sep_len_at(s, k));
            assert(tail_from(s, i + 1) == s.subrange(i + 1, k) + seq![' '] + rest);
            assert(seq![s[i]] + (s.subrange(i + 1, k) + seq![' '] + rest) =~= s.subrange(i, k)
                + seq![' '] + rest);
        }
    }
}

/// `find_sep_from` lands exactly on `m` when no separator starts before `m`
/// and one starts at `m` (or the line ends there).
proof fn lemma_find_sep_interval(s: Seq<char>, i: int, m: int)
    requires
        0 <= i <= m <= s.len(),
        forall|j: int| i <= j < m ==> !is_sep_at(s, j),
        m == s.len() || is_sep_at(s, m),
    ensures
        find_sep_from(s, i) == m,
    decreases m - i,
{
    if i < m {
        lemma_find_sep_interval(s, i + 1, m);
    }
}

/// A separator-free tail is copied unchanged into the phoneme string.
proof fn lemma_tail_no_sep(s: Seq<char>, i: int)
    requires
        0 <= i <= s.len(),
        forall|j: int| i <= j < s.len() ==> !is_sep_at(s, j),
    ensures
        tail_from(s, i) == s.subrange(i, s.len() as int),
    decreases s.len() - i,
{
    if i >= s.len() {
        assert(tail_from(s, i) =~= s.subrange(i, s.len() as int));
    } else {
        lemma_tail_no_sep(s, i + 1);
        assert(seq![s[i]] + s.subrange(i + 1, s.len() as int) =~= s.subrange(
            i,
            s.len() as int,
        ));
    }
}

/// Separator interchangeability: a line built with a tab and a line built
/// with the quote-space-quote token parse to the same word and the same
/// phoneme string, provided the word holds no tab or quote character and the
/// phoneme part holds no separator token of its own.
pub proof fn lemma_separator_equivalence(w: Seq<char>, p: Seq<char>)
    requires
        forall|i: int| 0 <= i < w.len() ==> w[i] != '\t' && w[i] != '"',
        forall|i: int| 0 <= i < p.len() ==> !is_sep_at(p, i),
    ensures
        spec_parse_line(w + seq!['\t'] + p) == Some((norm(w), p)),
        spec_parse_line(w + seq!['"', ' ', '"'] + p) == Some((norm(w), p)),
{
    lemma_one_separator(w, seq!['\t'], p);
    lemma_one_separator(w, seq!['"', ' ', '"'], p);
}

/// The common argument behind `lemma_separator_equivalence`, for one of the
/// two separator tokens.
proof fn lemma_one_separator(w: Seq<char>, sep: Seq<char>, p: Seq<char>)
    requires
        forall|i: int| 0 <= i < w.len() ==> w[i] != '\t' && w[i] != '"',
        forall|i: int| 0 <= i < p.len() ==> !is_sep_at(p, i),
        sep == seq!['\t'] || sep == seq!['"', ' ', '"'],
    ensures
        spec_parse_line(w + sep + p) == Some((norm(w), p)),
{
    let s = w + sep + p;
    let wl = w.len() as int;
    let start = wl + sep.len() as int;
    assert forall|j: int| 0 <= j < wl implies !is_sep_at(s, j) by {
        assert(s[j] == w[j]);
    }
    assert(is_sep_at(s, wl));
    lemma_find_sep_interval(s, 0, wl);
    assert(sep_len_at(s, wl) == sep.len() as int);
    assert forall|j: int| start <= j < s.len() implies !is_sep_at(s, j) by {
        assert(s[j] == p[j - start]);
        if is_sep_at(s, j) {
            if s[j] == '\t' {
                assert(is_sep_at(p, j - start));
            } else {
                assert(s[j + 1] == p[j + 1 - start]);
                assert(s[j + 2] == p[j + 2 - start]);
                assert(is_sep_at(p, j - start));
            }
        }
    }
    lemma_tail_no_sep(s, start);
    assert(s.take(wl) =~= w);
    assert(s.subrange(start, s.len() as int) =~= p);
}

/// The word a line parses to is already normalized.
pub proof fn lemma_parse_word_normalized(s: Seq<char>)
    ensures
        spec_parse_line(s) matches Some(wp) ==> norm(wp.0) == wp.0,
{
    let j = find_sep_from(s, 0);
    if j != s.len() {
        crate::text::lemma_norm_idempotent(s.take(j));
    }
}

/// Finds the first separator token at or after `from`, returning the line
/// length when there is none.
pub fn find_sep(line: &str, from: usize) -> (r: usize)
    requires
        from <= line@.len(),
    ensures
        r == find_sep_from(line@, from as int),
{
    let n = line.unicode_len();
    let mut i: usize = from;
    while i < n
        invariant
            from <= i <= n,
            n == line@.len(),
            find_sep_from(line@, from as int) == find_sep_from(line@, i as int),
        decreases n - i,
    {
        let c = line.get_char(i);
        if c == '\t' {
            proof {
                assert(is_sep_at(line@, i as int));
            }
            return i;
        }
        if c == '"' && n - i > 2 {
            let c1 = line.get_char(i + 1);
            let c2 = line.get_char(i + 2);
            if c1 == ' ' && c2 == '"' {
                proof {
                    assert(is_sep_at(line@, i as int));
                }
                return i;
            }
            proof {
                assert(!is_sep_at(line@, i as int));
            }
        }
        proof {
            assert(!is_sep_at(line@, i as int));
        }
        i = i + 1;
    }
    i
}

/// Parses one dictionary line into its normalized word (as characters) and
/// its phoneme string; returns `None` when the line holds no separator.
pub fn parse_line(line: &str) -> (r: Option<(Vec<char>, String)>)
    ensures
        r is Some <==> spec_parse_line(line@) is Some,
        r matches Some(p) ==> spec_parse_line(line@) == Some((p.0@, p.1@)),
{
    let n = line.unicode_len();
    let j = find_sep(line, 0);
    proof {
        lemma_find_sep_from(line@, 0);
    }
    if j == n {
        return None;
    }
    // The word: everything before the first separator, lowercased.
    let mut word: Vec<char> = Vec::new();
    let mut i: usize = 0;
    while i < j
        invariant
            i <= j,
            j < n,
            n == line@.len(),
            word@ == norm(line@.take(i as int)),
        decreases j - i,
    {
        word.push(lower_char_exec(line.get_char(i)));
        i = i + 1;
        proof {
            assert(word@ =~= norm(line@.take(i as int)));
        }
    }
    // The separator token itself.
    let jlen: usize = if line.get_char(j) == '\t' {
        1
    } else {
        3
    };
    proof {
        assert(jlen == sep_len_at(line@, j as int));
        assert(j + jlen <= n) by {
            assert(is_sep_at(line@, j as int));
        }
    }
    // The phoneme string: the remaining fields rejoined with single spaces.
    let ghost start: int = j + jlen;
    let mut phones = String::new();
    let mut pos: usize = j + jlen;
    proof {
        assert(phones@ + tail_from(line@, pos as int) =~= tail_from(line@, start));
    }
    while pos < n
        invariant
            j + jlen <= pos <= n,
            n == line@.len(),
            start == j + jlen,
            phones@ + tail_from(line@, pos as int) == tail_from(line@, start),
        decreases n - pos,
    {
        let k = find_sep(line, pos);
        proof {
            lemma_find_sep_from(line@, pos as int);
            lemma_tail_run(line@, pos as int);
        }
        let piece = line.substring_char(pos, k);
        phones.append(piece);
        if k < n {
            phones.append(" ");
            proof {
                reveal_strlit(" ");
                assert(is_sep_at(line@, k as int));
            }
            let klen: usize = if line.get_char(k) == '\t' {
                1
            } else {
                3
            };
            pos = k + klen;
            proof {
                assert(phones@ + tail_from(line@, pos as int) =~= tail_from(line@, start));
            }
        } else {
            pos = k;
            proof {
                assert(tail_from(line@, pos as int) =~= Seq::<char>::empty());
                assert(phones@ + tail_from(line@, pos as int) =~= tail_from(line@, start));
            }
        }
    }
    proof {
        assert(tail_from(line@, pos as int) =~= Seq::<char>::empty());
        assert(phones@ =~= tail_from(line@, start));
        assert(line@.take(j as int) == line@.subrange(0, j as int));
    }
    Some((word, phones))
}

} // verus!
