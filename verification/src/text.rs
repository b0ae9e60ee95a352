//! Lexical analysis of raw bytes: splitting into lowercased terms.
//!
//! A term is a maximal run of ASCII word bytes (letters, digits, underscore),
//! lowercased. Both the embedder and the lexical half of the searcher work on
//! this term sequence, so the split is a pure function of the bytes.

use vstd::prelude::*;

verus! {

/// Whether `b` is part of a term.
pub open spec fn is_word_byte(b: u8) -> bool {
    (97 <= b <= 122) || (65 <= b <= 90) || (48 <= b <= 57) || b == 95
}

/// ASCII lowercasing of one byte.
pub open spec fn lower_byte(b: u8) -> u8 {
    if 65 <= b <= 90 {
        (b + 32) as u8
    } else {
        b
    }
}

/// A byte sequence lowercased.
pub open spec fn lower_seq(s: Seq<u8>) -> Seq<u8> {
    s.map_values(|b: u8| lower_byte(b))
}

/// Length of the initial run of word bytes of `s`.
pub open spec fn run_len(s: Seq<u8>) -> int
    decreases s.len(),
{
    if s.len() == 0 || !is_word_byte(s[0]) {
        0
    } else {
        1 + run_len(s.skip(1))
    }
}

/// `run_len` props: in range, all word bytes, and maximal.
pub proof fn lemma_run_len(s: Seq<u8>)
    ensures
        0 <= run_len(s) <= s.len(),
        forall|k: int| 0 <= k < run_len(s) ==> is_word_byte(s[k]),
        run_len(s) < s.len() ==> !is_word_byte(s[run_len(s)]),
        s.len() > 0 && is_word_byte(s[0]) ==> run_len(s) >= 1,
    decreases s.len(),
{
    if s.len() > 0 && is_word_byte(s[0]) {
        lemma_run_len(s.skip(1));
        assert(forall|k: int| 0 <= k < run_len(s.skip(1)) ==> is_word_byte(s.skip(1)[k]));
        assert forall|k: int| 0 <= k < run_len(s) implies is_word_byte(s[k]) by {
            if k > 0 {
                assert(s.skip(1)[k - 1] == s[k]);
            }
        }
        if run_len(s) < s.len() {
            assert(s.skip(1)[run_len(s) - 1] == s[run_len(s)]);
        }
    }
}

/// The terms of `s`: maximal word-byte runs, each lowercased, in order.
pub open spec fn terms_of(s: Seq<u8>) -> Seq<Seq<u8>>
    decreases s.len(),
    via terms_of_decreases
{
    if s.len() == 0 {
        Seq::empty()
    } else if !is_word_byte(s[0]) {
        terms_of(s.skip(1))
    } else {
        seq![lower_seq(s.take(run_len(s)))].add(terms_of(s.skip(run_len(s))))
    }
}

#[via_fn]
proof fn terms_of_decreases(s: Seq<u8>) {
    lemma_run_len(s);
}

/// A scan that stops at `j` has found exactly the initial run.
pub proof fn lemma_run_len_is(s: Seq<u8>, j: int)
    requires
        0 <= j <= s.len(),
        forall|k: int| 0 <= k < j ==> is_word_byte(s[k]),
        j == s.len() || !is_word_byte(s[j]),
    ensures
        run_len(s) == j,
    decreases j,
{
    if j > 0 {
        assert(s.skip(1).len() == s.len() - 1);
        assert(forall|k: int| 0 <= k < j - 1 ==> s.skip(1)[k] == s[k + 1]);
        lemma_run_len_is(s.skip(1), j - 1);
    }
}

/// Lowercase one byte.
pub fn lower(b: u8) -> (r: u8)
    ensures
        r == lower_byte(b),
{
    if 65 <= b && b <= 90 {
        b + 32
    } else {
        b
    }
}

/// Whether `b` is a term byte.
pub fn word_byte(b: u8) -> (r: bool)
    ensures
        r == is_word_byte(b),
{
    (97 <= b && b <= 122) || (65 <= b && b <= 90) || (48 <= b && b <= 57) || b == 95
}

/// Split `bytes` into its lowercased terms.
pub fn extract_terms(bytes: &[u8]) -> (out: Vec<Vec<u8>>)
    ensures
        out@.len() == terms_of(bytes@).len(),
        forall|i: int| 0 <= i < out@.len() ==> (#[trigger] out@[i])@ == terms_of(bytes@)[i],
{
    let n = bytes.len();
    let mut out: Vec<Vec<u8>> = Vec::new();
    let mut i: usize = 0;
    proof {
        assert(bytes@.skip(0) =~= bytes@);
        assert(out@.map_values(|t: Vec<u8>| t@) =~= Seq::<Seq<u8>>::empty());
    }
    while i < n
        invariant
            n == bytes@.len(),
            i <= n,
            terms_of(bytes@) =~= out@.map_values(|t: Vec<u8>| t@).add(
                terms_of(bytes@.skip(i as int)),
            ),
            forall|k: int|
                0 <= k < out@.len() ==> (#[trigger] out@[k])@ == out@.map_values(
                    |t: Vec<u8>| t@,
                )[k],
        decreases n - i,
    {
        if !word_byte(bytes[i]) {
            proof {
                assert(bytes@.skip(i as int)[0] == bytes@[i as int]);
                assert(bytes@.skip(i as int).skip(1) =~= bytes@.skip(i + 1));
            }
            i = i + 1;
        } else {
            let mut word: Vec<u8> = Vec::new();
            let mut j: usize = i;
            while j < n && word_byte(bytes[j])
                invariant
                    n == bytes@.len(),
                    i <= j <= n,
                    forall|k: int| i <= k < j ==> is_word_byte(bytes@[k]),
                    word@.len() == j - i,
                    forall|k: int|
                        0 <= k < word@.len() ==> word@[k] == lower_byte(bytes@[i + k]),
                decreases n - j,
            {
                word.push(lower(bytes[j]));
                j = j + 1;
            }
            proof {
                let rest = bytes@.skip(i as int);
                assert(forall|k: int| 0 <= k < j - i ==> rest[k] == bytes@[i + k]);
                assert(j - i == rest.len() || !is_word_byte(rest[j - i]));
                lemma_run_len_is(rest, j - i);
                assert(word@ =~= lower_seq(rest.take(j - i)));
                assert(rest.skip(j - i) =~= bytes@.skip(j as int));
                assert(terms_of(rest) =~= seq![word@].add(terms_of(bytes@.skip(j as int))));
            }
            let ghost old_out = out@;
            out.push(word);
            proof {
                assert(out@.map_values(|t: Vec<u8>| t@) =~= old_out.map_values(|t: Vec<u8>| t@).push(
                    out@[out@.len() - 1]@,
                ));
            }
            i = j;
        }
    }
    proof {
        assert(terms_of(bytes@.skip(n as int)) =~= Seq::<Seq<u8>>::empty());
    }
    out
}

} // verus!
