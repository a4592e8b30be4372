//! The alphabet Σ of Kannada grapheme clusters, and greedy segmentation of
//! text into it.

use crate::text::{chars_of, same_chars, string_of};
use vstd::slice::slice_subrange;
use vstd::string::StringExecFns;
use std::collections::HashMap;
use vstd::prelude::*;
use vstd::std_specs::hash::*;

verus! {

broadcast use {axiom_u64_obeys_hash_table_key_model, axiom_random_state_builds_valid_hashers};

/// The consonants, in script order.
pub open spec fn consonant_chars() -> Seq<char> {
    seq![
        'ಕ', 'ಖ', 'ಗ', 'ಘ', 'ಙ',
        'ಚ', 'ಛ', 'ಜ', 'ಝ', 'ಞ',
        'ಟ', 'ಠ', 'ಡ', 'ಢ', 'ಣ',
        'ತ', 'ಥ', 'ದ', 'ಧ', 'ನ',
        'ಪ', 'ಫ', 'ಬ', 'ಭ', 'ಮ',
        'ಯ', 'ರ', 'ಱ', 'ಲ', 'ಳ', 'ೞ', 'ವ',
        'ಶ', 'ಷ', 'ಸ', 'ಹ',
    ]
}

/// The independent vowels.
pub open spec fn vowel_chars() -> Seq<char> {
    seq!['ಅ', 'ಆ', 'ಇ', 'ಈ', 'ಉ', 'ಊ', 'ಋ', 'ೠ', 'ಎ', 'ಏ', 'ಐ', 'ಒ', 'ಓ', 'ಔ']
}

/// The dependent vowel signs.
pub open spec fn matra_chars() -> Seq<char> {
    seq!['ಾ', 'ಿ', 'ೀ', 'ು', 'ೂ', 'ೃ', 'ೄ', 'ೆ', 'ೇ', 'ೈ', 'ೊ', 'ೋ', 'ೌ']
}

/// The virama, which joins consonants.
pub open spec fn halant_char() -> char {
    '್'
}

/// Anusvara and visarga.
pub open spec fn modifier_chars() -> Seq<char> {
    seq!['ಂ', 'ಃ']
}

/// Punctuation, space first.
pub open spec fn punctuation_chars() -> Seq<char> {
    seq![' ', '.', ',', '!', '?', '।']
}

/// `base`, then `base` followed by each modifier.
pub open spec fn with_modifiers(base: Seq<char>) -> Seq<Seq<char>> {
    seq![base] + modifier_chars().map_values(|m: char| base.push(m))
}

/// Consonant + matra (each with its modifiers), then consonant + modifier.
pub open spec fn consonant_forms(c: char) -> Seq<Seq<char>> {
    matra_clusters(seq![c], matra_chars().len() as int) + modifier_chars().map_values(
        |m: char| seq![c, m],
    )
}

/// `base` + each of the first `k` matras, each followed by its modified forms.
pub open spec fn matra_clusters(base: Seq<char>, k: int) -> Seq<Seq<char>> {
    matra_chars().take(k).map_values(|t: char| with_modifiers(base.push(t))).flatten()
}

/// A two-consonant conjunct, its matra forms and its modified forms.
pub open spec fn conjunct_forms(c1: char, c2: char) -> Seq<Seq<char>> {
    let base = seq![c1, halant_char(), c2];
    seq![base] + matra_clusters(base, matra_chars().len() as int) + modifier_chars().map_values(
        |m: char| base.push(m),
    )
}

/// The non-space punctuation among the first `k`.
pub open spec fn punctuation_clusters(k: int) -> Seq<Seq<char>> {
    punctuation_chars().take(k).filter(|p: char| p != ' ').map_values(|p: char| seq![p])
}

/// The first `k` vowels, each with its modified forms.
pub open spec fn vowel_clusters(k: int) -> Seq<Seq<char>> {
    vowel_chars().take(k).map_values(|v: char| with_modifiers(seq![v])).flatten()
}

/// The first `k` bare consonants.
pub open spec fn bare_consonant_clusters(k: int) -> Seq<Seq<char>> {
    consonant_chars().take(k).map_values(|c: char| seq![c])
}

/// The forms of the first `k` consonants.
pub open spec fn consonant_form_clusters(k: int) -> Seq<Seq<char>> {
    consonant_chars().take(k).map_values(|c: char| consonant_forms(c)).flatten()
}

/// The first `k` dead consonants.
pub open spec fn dead_consonant_clusters(k: int) -> Seq<Seq<char>> {
    consonant_chars().take(k).map_values(|c: char| seq![c, halant_char()])
}

/// The conjunct forms of `c1` with each of the first `k` consonants.
pub open spec fn conjunct_row(c1: char, k: int) -> Seq<Seq<char>> {
    consonant_chars().take(k).map_values(|c2: char| conjunct_forms(c1, c2)).flatten()
}

/// The conjunct forms whose first consonant is one of the first `k`.
pub open spec fn conjunct_clusters(k: int) -> Seq<Seq<char>> {
    consonant_chars().take(k).map_values(
        |c1: char| conjunct_row(c1, consonant_chars().len() as int),
    ).flatten()
}

/// Dead conjuncts of `c1` with each of the first `k` consonants.
pub open spec fn dead_conjunct_row(c1: char, k: int) -> Seq<Seq<char>> {
    consonant_chars().take(k).map_values(|c2: char| seq![c1, halant_char(), c2, halant_char()])
}

/// Dead conjuncts whose first consonant is one of the first `k`.
pub open spec fn dead_conjunct_clusters(k: int) -> Seq<Seq<char>> {
    consonant_chars().take(k).map_values(
        |c1: char| dead_conjunct_row(c1, consonant_chars().len() as int),
    ).flatten()
}

/// Σ, in its defining order: space, punctuation, vowels, consonants,
/// consonant forms, dead consonants, conjuncts, dead conjuncts.
pub open spec fn alphabet_spec() -> Seq<Seq<char>> {
    let nc = consonant_chars().len() as int;
    seq![seq![' ']] + punctuation_clusters(punctuation_chars().len() as int) + vowel_clusters(
        vowel_chars().len() as int,
    ) + bare_consonant_clusters(nc) + consonant_form_clusters(nc) + dead_consonant_clusters(nc)
        + conjunct_clusters(nc) + dead_conjunct_clusters(nc)
}

/// `i` is the first position of `s` in `alpha`.
pub open spec fn is_first_index(alpha: Seq<Seq<char>>, s: Seq<char>, i: int) -> bool {
    &&& 0 <= i < alpha.len()
    &&& alpha[i] == s
    &&& forall|j: int| 0 <= j < i ==> alpha[j] != s
}

/// The length of the longest prefix of `text`, of at most `len` characters,
/// that is a cluster of `alpha`; zero when there is none.
pub open spec fn longest_match(alpha: Seq<Seq<char>>, text: Seq<char>, len: nat) -> nat
    decreases len,
{
    if len == 0 {
        0
    } else if alpha.contains(text.take(len as int)) {
        len
    } else {
        longest_match(alpha, text, (len - 1) as nat)
    }
}

/// Greedy longest-match segmentation of `text` into clusters of `alpha`:
/// `None` when some position starts no cluster.
pub open spec fn greedy_pieces(alpha: Seq<Seq<char>>, text: Seq<char>) -> Option<Seq<Seq<char>>>
    decreases text.len(),
    via greedy_pieces_decreases
{
    if text.len() == 0 {
        Some(Seq::empty())
    } else {
        let l = longest_match(alpha, text, text.len());
        if l == 0 {
            None
        } else {
            match greedy_pieces(alpha, text.skip(l as int)) {
                Some(rest) => Some(seq![text.take(l as int)] + rest),
                None => None,
            }
        }
    }
}

#[via_fn]
proof fn greedy_pieces_decreases(alpha: Seq<Seq<char>>, text: Seq<char>) {
    if text.len() > 0 {
        lemma_longest_match_bound(alpha, text, text.len());
    }
}

proof fn lemma_longest_match_bound(alpha: Seq<Seq<char>>, text: Seq<char>, len: nat)
    ensures
        longest_match(alpha, text, len) <= len,
        longest_match(alpha, text, len) > 0 ==> alpha.contains(
            text.take(longest_match(alpha, text, len) as int),
        ),
    decreases len,
{
    if len > 0 && !alpha.contains(text.take(len as int)) {
        lemma_longest_match_bound(alpha, text, (len - 1) as nat);
    }
}

/// Lengths above `low` up to `high` that match nothing leave the longest match unchanged.
proof fn lemma_longest_match_skip(alpha: Seq<Seq<char>>, text: Seq<char>, low: nat, high: nat)
    requires
        low <= high,
        forall|l: nat| low < l <= high ==> !alpha.contains(#[trigger] text.take(l as int)),
    ensures
        longest_match(alpha, text, high) == longest_match(alpha, text, low),
    decreases high,
{
    if high > low {
        lemma_longest_match_skip(alpha, text, low, (high - 1) as nat);
    }
}

/// The concatenation of the clusters at `indices`, skipping indices out of range.
pub open spec fn concat_clusters(alpha: Seq<Seq<char>>, indices: Seq<usize>) -> Seq<char>
    decreases indices.len(),
{
    if indices.len() == 0 {
        Seq::empty()
    } else {
        let i = indices.last() as int;
        concat_clusters(alpha, indices.drop_last()) + (if i < alpha.len() {
            alpha[i]
        } else {
            Seq::empty()
        })
    }
}

/// The concatenation of a sequence of pieces.
pub open spec fn concat_pieces(pieces: Seq<Seq<char>>) -> Seq<char> {
    pieces.flatten()
}

/// `indices` are the first positions in `alpha` of `pieces`, one for one.
pub open spec fn indexes_pieces(alpha: Seq<Seq<char>>, indices: Seq<usize>, pieces: Seq<Seq<char>>) -> bool {
    &&& indices.len() == pieces.len()
    &&& forall|k: int| 0 <= k < indices.len() ==> is_first_index(alpha, pieces[k], #[trigger] indices[k] as int)
}

/// Every greedy piece is a cluster.
pub proof fn lemma_pieces_are_clusters(alpha: Seq<Seq<char>>, text: Seq<char>)
    requires
        greedy_pieces(alpha, text) is Some,
    ensures
        forall|k: int|
            0 <= k < greedy_pieces(alpha, text).unwrap().len() ==> alpha.contains(
                #[trigger] greedy_pieces(alpha, text).unwrap()[k],
            ),
    decreases text.len(),
{
    if text.len() > 0 {
        let l = longest_match(alpha, text, text.len());
        lemma_longest_match_bound(alpha, text, text.len());
        lemma_pieces_are_clusters(alpha, text.skip(l as int));
        let rest = greedy_pieces(alpha, text.skip(l as int)).unwrap();
        let p = greedy_pieces(alpha, text).unwrap();
        assert forall|k: int| 0 <= k < p.len() implies alpha.contains(#[trigger] p[k]) by {
            if k > 0 {
                assert(p[k] == rest[k - 1]);
            }
        }
    }
}

/// A cluster has a first position.
pub proof fn lemma_first_index_exists(alpha: Seq<Seq<char>>, s: Seq<char>, i: int)
    requires
        0 <= i < alpha.len(),
        alpha[i] == s,
    ensures
        exists|j: int| is_first_index(alpha, s, j),
    decreases i,
{
    if exists|j: int| 0 <= j < i && alpha[j] == s {
        let j = choose|j: int| 0 <= j < i && alpha[j] == s;
        lemma_first_index_exists(alpha, s, j);
    } else {
        assert(is_first_index(alpha, s, i));
    }
}

/// The first position is unique.
pub proof fn lemma_first_index_unique(alpha: Seq<Seq<char>>, s: Seq<char>, i: int, j: int)
    requires
        is_first_index(alpha, s, i),
        is_first_index(alpha, s, j),
    ensures
        i == j,
{
}

/// Greedy pieces concatenate back to the text.
proof fn lemma_pieces_concat(alpha: Seq<Seq<char>>, text: Seq<char>)
    requires
        greedy_pieces(alpha, text) is Some,
    ensures
        concat_pieces(greedy_pieces(alpha, text).unwrap()) == text,
    decreases text.len(),
{
    if text.len() > 0 {
        let l = longest_match(alpha, text, text.len());
        lemma_longest_match_bound(alpha, text, text.len());
        let rest = greedy_pieces(alpha, text.skip(l as int)).unwrap();
        lemma_pieces_concat(alpha, text.skip(l as int));
        let p = seq![text.take(l as int)] + rest;
        assert(p.drop_first() =~= rest);
        assert(p.flatten() == p.first() + p.drop_first().flatten());
        assert(text.take(l as int) + text.skip(l as int) =~= text);
    } else {
        assert(Seq::<Seq<char>>::empty().flatten() =~= Seq::<char>::empty());
    }
}

/// Concatenation of clusters distributes over appending indices.
pub proof fn lemma_concat_clusters_append(alpha: Seq<Seq<char>>, a: Seq<usize>, b: Seq<usize>)
    ensures
        concat_clusters(alpha, a + b) == concat_clusters(alpha, a) + concat_clusters(alpha, b),
    decreases b.len(),
{
    if b.len() == 0 {
        assert(a + b =~= a);
        assert(concat_clusters(alpha, a) + Seq::<char>::empty() =~= concat_clusters(alpha, a));
    } else {
        lemma_concat_clusters_append(alpha, a, b.drop_last());
        assert((a + b).drop_last() =~= a + b.drop_last());
        assert((a + b).last() == b.last());
        assert(concat_clusters(alpha, a) + concat_clusters(alpha, b.drop_last()) + (if (b.last() as int) < alpha.len() {
            alpha[b.last() as int]
        } else {
            Seq::empty()
        }) =~= concat_clusters(alpha, a) + concat_clusters(alpha, b));
    }
}

/// Clusters at the indices of pieces concatenate to the pieces' concatenation.
proof fn lemma_indices_concat(alpha: Seq<Seq<char>>, indices: Seq<usize>, pieces: Seq<Seq<char>>)
    requires
        indexes_pieces(alpha, indices, pieces),
    ensures
        concat_clusters(alpha, indices) == concat_pieces(pieces),
    decreases indices.len(),
{
    if indices.len() > 0 {
        let (i1, p1) = (indices.drop_last(), pieces.drop_last());
        assert forall|k: int| 0 <= k < i1.len() implies is_first_index(alpha, p1[k], #[trigger] i1[k] as int) by {
            assert(i1[k] == indices[k] && p1[k] == pieces[k]);
        }
        lemma_indices_concat(alpha, i1, p1);
        assert(is_first_index(alpha, pieces[pieces.len() - 1], indices[indices.len() - 1] as int));
        p1.lemma_flatten_push(pieces.last());
        assert(p1.push(pieces.last()) =~= pieces);
    } else {
        assert(pieces.flatten() =~= Seq::<char>::empty());
    }
}

/// Segmenting a text and concatenating the clusters of the resulting indices
/// gives the text back.
pub proof fn lemma_segment_round_trip(alpha: Seq<Seq<char>>, text: Seq<char>, indices: Seq<usize>)
    requires
        greedy_pieces(alpha, text) is Some,
        indexes_pieces(alpha, indices, greedy_pieces(alpha, text).unwrap()),
    ensures
        concat_clusters(alpha, indices) == text,
{
    lemma_pieces_concat(alpha, text);
    lemma_indices_concat(alpha, indices, greedy_pieces(alpha, text).unwrap());
}

/// Short texts of non-zero characters below U+1000 get a numeric key.
pub open spec fn keyable(s: Seq<char>) -> bool {
    &&& 1 <= s.len() <= 5
    &&& forall|i: int| 0 <= i < s.len() ==> 0 < (#[trigger] s[i] as u32) < 4096
}

/// The base-4096 number whose digits are the characters' code points.
pub open spec fn cluster_key(s: Seq<char>) -> nat
    decreases s.len(),
{
    if s.len() == 0 {
        0
    } else {
        cluster_key(s.drop_last()) * 4096 + (s.last() as u32) as nat
    }
}

/// 4096^n, bounding the key of `n` characters.
spec fn key_bound(n: nat) -> nat
    decreases n,
{
    if n == 0 {
        1
    } else {
        4096 * key_bound((n - 1) as nat)
    }
}

proof fn lemma_key_positive(s: Seq<char>)
    requires
        s.len() > 0,
        forall|i: int| 0 <= i < s.len() ==> 0 < (#[trigger] s[i] as u32),
    ensures
        cluster_key(s) > 0,
{
    assert(s.last() == s[s.len() - 1]);
}

/// A keyable text's key fits in 64 bits.
proof fn lemma_key_fits(s: Seq<char>)
    requires
        keyable(s),
    ensures
        cluster_key(s) < 0x1_0000_0000_0000_0000,
{
    lemma_key_below(s);
    assert(key_bound(0) == 1);
    assert(key_bound(1) == 4096);
    assert(key_bound(2) == 4096 * 4096);
    assert(key_bound(3) == 4096 * 4096 * 4096);
    assert(key_bound(4) == 4096 * 4096 * 4096 * 4096);
    assert(key_bound(5) == 4096 * 4096 * 4096 * 4096 * 4096);
}

proof fn lemma_key_below(s: Seq<char>)
    requires
        forall|i: int| 0 <= i < s.len() ==> (#[trigger] s[i] as u32) < 4096,
    ensures
        cluster_key(s) < key_bound(s.len()),
    decreases s.len(),
{
    if s.len() > 0 {
        let t = s.drop_last();
        assert forall|i: int| 0 <= i < t.len() implies (#[trigger] t[i] as u32) < 4096 by {
            assert(t[i] == s[i]);
        }
        lemma_key_below(t);
        assert(s.last() == s[s.len() - 1]);
    }
}

/// Distinct texts of non-zero characters below U+1000 have distinct keys.
proof fn lemma_key_injective(s: Seq<char>, t: Seq<char>)
    requires
        forall|i: int| 0 <= i < s.len() ==> 0 < (#[trigger] s[i] as u32) < 4096,
        forall|i: int| 0 <= i < t.len() ==> 0 < (#[trigger] t[i] as u32) < 4096,
        cluster_key(s) == cluster_key(t),
    ensures
        s == t,
    decreases s.len() + t.len(),
{
    if s.len() == 0 && t.len() == 0 {
        assert(s =~= t);
    } else if s.len() == 0 {
        lemma_key_positive(t);
    } else if t.len() == 0 {
        lemma_key_positive(s);
    } else {
        let (s1, t1) = (s.drop_last(), t.drop_last());
        assert(s.last() == s[s.len() - 1] && t.last() == t[t.len() - 1]);
        let (a, b) = ((s.last() as u32) as nat, (t.last() as u32) as nat);
        vstd::arithmetic::div_mod::lemma_fundamental_div_mod_converse(
            cluster_key(s) as int, 4096, cluster_key(s1) as int, a as int);
        vstd::arithmetic::div_mod::lemma_fundamental_div_mod_converse(
            cluster_key(t) as int, 4096, cluster_key(t1) as int, b as int);
        assert forall|i: int| 0 <= i < s1.len() implies 0 < (#[trigger] s1[i] as u32) < 4096 by {
            assert(s1[i] == s[i]);
        }
        assert forall|i: int| 0 <= i < t1.len() implies 0 < (#[trigger] t1[i] as u32) < 4096 by {
            assert(t1[i] == t[i]);
        }
        lemma_key_injective(s1, t1);
        assert(s.last() == t.last()) by {
            vstd::utf8::char_u32_cast(s.last(), s.last() as u32);
            vstd::utf8::char_u32_cast(t.last(), t.last() as u32);
        }
        assert(s =~= s1.push(s.last()));
        assert(t =~= t1.push(t.last()));
    }
}

/// The key of `s`, when it has one.
fn key_of(s: &[char]) -> (r: Option<u64>)
    ensures
        r == (if keyable(s@) {
            Some(cluster_key(s@) as u64)
        } else {
            None
        }),
{
    let n = s.len();
    if n < 1 || n > 5 {
        return None;
    }
    let mut acc: u64 = 0;
    let mut i: usize = 0;
    while i < n
        invariant
            n == s@.len(),
            1 <= n <= 5,
            i <= n,
            acc as nat == cluster_key(s@.take(i as int)),
            (acc as nat) < key_bound(i as nat),
            forall|k: int| 0 <= k < i ==> 0 < (#[trigger] s@[k] as u32) < 4096,
        decreases n - i,
    {
        let c = s[i] as u32;
        if c == 0 || c >= 4096 {
            return None;
        }
        proof {
            assert(key_bound(0) == 1);
            assert(key_bound(1) == 4096);
            assert(key_bound(2) == 4096 * 4096);
            assert(key_bound(3) == 4096 * 4096 * 4096);
            assert(key_bound(4) == 4096 * 4096 * 4096 * 4096);
            assert(key_bound(5) == 4096 * 4096 * 4096 * 4096 * 4096);
            assert(s@.take(i + 1).drop_last() =~= s@.take(i as int));
            assert(s@.take(i + 1).last() == s@[i as int]);
        }
        acc = acc * 4096 + c as u64;
        i = i + 1;
    }
    proof {
        assert(s@.take(n as int) =~= s@);
    }
    Some(acc)
}

/// Kannada script character tables.
pub struct KannadaScript;

impl KannadaScript {
    /// The consonants, in script order.
    pub fn consonants() -> (r: &'static [char])
        ensures
            r@ == consonant_chars(),
    {
        let r: &'static [char] = &[
            'ಕ', 'ಖ', 'ಗ', 'ಘ', 'ಙ',
            'ಚ', 'ಛ', 'ಜ', 'ಝ', 'ಞ',
            'ಟ', 'ಠ', 'ಡ', 'ಢ', 'ಣ',
            'ತ', 'ಥ', 'ದ', 'ಧ', 'ನ',
            'ಪ', 'ಫ', 'ಬ', 'ಭ', 'ಮ',
            'ಯ', 'ರ', 'ಱ', 'ಲ', 'ಳ', 'ೞ', 'ವ',
            'ಶ', 'ಷ', 'ಸ', 'ಹ',
        ];
        proof {
            assert(r@ =~= consonant_chars());
        }
        r
    }

    /// The independent vowels.
    pub fn vowels() -> (r: &'static [char])
        ensures
            r@ == vowel_chars(),
    {
        let r: &'static [char] = &['ಅ', 'ಆ', 'ಇ', 'ಈ', 'ಉ', 'ಊ', 'ಋ', 'ೠ', 'ಎ', 'ಏ', 'ಐ', 'ಒ', 'ಓ', 'ಔ'];
        proof {
            assert(r@ =~= vowel_chars());
        }
        r
    }

    /// The dependent vowel signs.
    pub fn matras() -> (r: &'static [char])
        ensures
            r@ == matra_chars(),
    {
        let r: &'static [char] = &['ಾ', 'ಿ', 'ೀ', 'ು', 'ೂ', 'ೃ', 'ೄ', 'ೆ', 'ೇ', 'ೈ', 'ೊ', 'ೋ', 'ೌ'];
        proof {
            assert(r@ =~= matra_chars());
        }
        r
    }

    /// The virama.
    pub fn halant() -> (r: char)
        ensures
            r == halant_char(),
    {
        '್'
    }

    /// Anusvara and visarga.
    pub fn modifiers() -> (r: &'static [char])
        ensures
            r@ == modifier_chars(),
    {
        let r: &'static [char] = &['ಂ', 'ಃ'];
        proof {
            assert(r@ =~= modifier_chars());
        }
        r
    }

    /// Punctuation, space first.
    pub fn punctuation() -> (r: &'static [char])
        ensures
            r@ == punctuation_chars(),
    {
        let r: &'static [char] = &[' ', '.', ',', '!', '?', '।'];
        proof {
            assert(r@ =~= punctuation_chars());
        }
        r
    }
}

/// One more element of a mapped prefix.
proof fn lemma_map_take_step<B>(list: Seq<char>, f: spec_fn(char) -> B, k: int)
    requires
        0 <= k < list.len(),
    ensures
        list.take(k + 1).map_values(f) == list.take(k).map_values(f).push(f(list[k])),
{
    assert(list.take(k + 1).map_values(f) =~= list.take(k).map_values(f).push(f(list[k])));
}

/// One more group of a flattened, mapped prefix.
proof fn lemma_flatten_take_step(list: Seq<char>, f: spec_fn(char) -> Seq<Seq<char>>, k: int)
    requires
        0 <= k < list.len(),
    ensures
        list.take(k + 1).map_values(f).flatten() == list.take(k).map_values(f).flatten() + f(
            list[k],
        ),
{
    lemma_map_take_step(list, f, k);
    list.take(k).map_values(f).lemma_flatten_push(f(list[k]));
}

/// `base` followed by `c`.
fn extended(base: &Vec<char>, c: char) -> (r: Vec<char>)
    ensures
        r@ == base@.push(c),
{
    let mut r: Vec<char> = Vec::new();
    let mut i: usize = 0;
    while i < base.len()
        invariant
            i <= base@.len(),
            r@ == base@.take(i as int),
        decreases base@.len() - i,
    {
        r.push(base[i]);
        proof {
            assert(base@.take(i + 1) =~= base@.take(i as int).push(base@[i as int]));
        }
        i = i + 1;
    }
    proof {
        assert(base@.take(i as int) =~= base@);
    }
    r.push(c);
    r
}

/// The alphabet of valid Kannada grapheme clusters.
pub struct GraphemeAlphabet {
    clusters: Vec<String>,
    cluster_to_index: HashMap<u64, usize>,
    max_cluster_chars: usize,
    all_keyed: bool,
}

impl View for GraphemeAlphabet {
    type V = Seq<Seq<char>>;

    closed spec fn view(&self) -> Seq<Seq<char>> {
        self.clusters@.map_values(|s: String| s@)
    }
}

impl GraphemeAlphabet {
    /// The lookup table and the length bound agree with the clusters.
    pub closed spec fn wf(&self) -> bool {
        let alpha = self@;
        let m = self.cluster_to_index@;
        &&& self.max_cluster_chars >= 1
        &&& forall|i: int| 0 <= i < alpha.len() ==> (#[trigger] alpha[i]).len() <= self.max_cluster_chars
        &&& forall|k: u64| #[trigger]
            m.contains_key(k) ==> {
                let i = m[k] as int;
                &&& 0 <= i < alpha.len()
                &&& keyable(alpha[i])
                &&& cluster_key(alpha[i]) == k as nat
                &&& forall|j: int| 0 <= j < i ==> !(keyable(alpha[j]) && cluster_key(alpha[j]) == k as nat)
            }
        &&& forall|i: int|
            0 <= i < alpha.len() && keyable(#[trigger] alpha[i]) ==> m.contains_key(
                cluster_key(alpha[i]) as u64,
            )
        &&& self.all_keyed ==> forall|i: int| 0 <= i < alpha.len() ==> keyable(#[trigger] alpha[i])
    }

    fn empty() -> (r: GraphemeAlphabet)
        ensures
            r.wf(),
            r@ == Seq::<Seq<char>>::empty(),
    {
        let r = GraphemeAlphabet {
            clusters: Vec::new(),
            cluster_to_index: HashMap::new(),
            max_cluster_chars: 1,
            all_keyed: true,
        };
        proof {
            assert(r@ =~= Seq::<Seq<char>>::empty());
        }
        r
    }

    fn push_cluster(&mut self, chars: &Vec<char>)
        requires
            old(self).wf(),
        ensures
            final(self).wf(),
            final(self)@ == old(self)@.push(chars@),
    {
        let ghost alpha0 = self@;
        let i = self.clusters.len();
        let s = string_of(chars.as_slice());
        self.clusters.push(s);
        assert(self@ =~= alpha0.push(chars@));
        if chars.len() > self.max_cluster_chars {
            self.max_cluster_chars = chars.len();
        }
        match key_of(chars.as_slice()) {
            Some(k) => {
                if !self.cluster_to_index.contains_key(&k) {
                    self.cluster_to_index.insert(k, i);
                }
            },
            None => {
                self.all_keyed = false;
            },
        }
        proof {
            let alpha = self@;
            let m = self.cluster_to_index@;
            assert(alpha[i as int] == chars@);
            if keyable(chars@) {
                lemma_key_fits(chars@);
            }
            assert forall|j: int| 0 <= j < alpha.len() implies (#[trigger] alpha[j]).len()
                <= self.max_cluster_chars by {
                if j < i {
                    assert(alpha[j] == alpha0[j]);
                }
            }
            assert forall|k: u64| #[trigger] m.contains_key(k) implies {
                let x = m[k] as int;
                &&& 0 <= x < alpha.len()
                &&& keyable(alpha[x])
                &&& cluster_key(alpha[x]) == k as nat
                &&& forall|j: int| 0 <= j < x ==> !(keyable(alpha[j]) && cluster_key(alpha[j]) == k as nat)
            } by {
                let x = m[k] as int;
                if x < i {
                    assert(alpha[x] == alpha0[x]);
                    assert forall|j: int| 0 <= j < x implies !(keyable(alpha[j]) && cluster_key(alpha[j]) == k as nat) by {
                        assert(alpha[j] == alpha0[j]);
                    }
                } else {
                    assert forall|j: int| 0 <= j < x implies !(keyable(alpha[j]) && cluster_key(alpha[j]) == k as nat) by {
                        assert(alpha[j] == alpha0[j]);
                        if keyable(alpha0[j]) {
                            lemma_key_fits(alpha0[j]);
                        }
                    }
                }
            }
            assert forall|j: int| 0 <= j < alpha.len() && keyable(#[trigger] alpha[j]) implies m.contains_key(
                cluster_key(alpha[j]) as u64,
            ) by {
                if j < i {
                    assert(alpha[j] == alpha0[j]);
                }
            }
            assert(self.all_keyed ==> forall|j: int| 0 <= j < alpha.len() ==> keyable(#[trigger] alpha[j])) by {
                if self.all_keyed {
                    assert forall|j: int| 0 <= j < alpha.len() implies keyable(#[trigger] alpha[j]) by {
                        if j < i {
                            assert(alpha[j] == alpha0[j]);
                        }
                    }
                }
            }
        }
    }

    fn push_all_with_modifiers(&mut self, base: &Vec<char>, modifiers: &[char])
        requires
            old(self).wf(),
            modifiers@ == modifier_chars(),
        ensures
            final(self).wf(),
            final(self)@ == old(self)@ + with_modifiers(base@),
    {
        let ghost before = self@;
        self.push_cluster(base);
        let mut i: usize = 0;
        while i < modifiers.len()
            invariant
                self.wf(),
                modifiers@ == modifier_chars(),
                i <= 2,
                self@ == before + seq![base@] + modifier_chars().take(i as int).map_values(
                    |m: char| base@.push(m),
                ),
            decreases 2 - i,
        {
            let v = extended(base, modifiers[i]);
            self.push_cluster(&v);
            proof {
                lemma_map_take_step(modifier_chars(), |m: char| base@.push(m), i as int);
            }
            i = i + 1;
        }
        proof {
            assert(modifier_chars().take(2) =~= modifier_chars());
            assert(self@ =~= before + with_modifiers(base@));
        }
    }

    fn push_matra_clusters(&mut self, base: &Vec<char>, matras: &[char], modifiers: &[char])
        requires
            old(self).wf(),
            matras@ == matra_chars(),
            modifiers@ == modifier_chars(),
        ensures
            final(self).wf(),
            final(self)@ == old(self)@ + matra_clusters(base@, matra_chars().len() as int),
    {
        let ghost before = self@;
        let mut i: usize = 0;
        while i < matras.len()
            invariant
                self.wf(),
                matras@ == matra_chars(),
                modifiers@ == modifier_chars(),
                i <= matras@.len(),
                self@ == before + matra_clusters(base@, i as int),
            decreases matras@.len() - i,
        {
            let with_matra = extended(base, matras[i]);
            self.push_all_with_modifiers(&with_matra, modifiers);
            proof {
                lemma_flatten_take_step(
                    matra_chars(),
                    |t: char| with_modifiers(base@.push(t)),
                    i as int,
                );
            }
            i = i + 1;
        }
    }

    fn push_consonant_forms(&mut self, c: char, matras: &[char], modifiers: &[char])
        requires
            old(self).wf(),
            matras@ == matra_chars(),
            modifiers@ == modifier_chars(),
        ensures
            final(self).wf(),
            final(self)@ == old(self)@ + consonant_forms(c),
    {
        let ghost before = self@;
        let base = vec![c];
        assert(base@ =~= seq![c]);
        self.push_matra_clusters(&base, matras, modifiers);
        let ghost middle = self@;
        let mut i: usize = 0;
        while i < modifiers.len()
            invariant
                self.wf(),
                modifiers@ == modifier_chars(),
                i <= 2,
                self@ == middle + modifier_chars().take(i as int).map_values(|m: char| seq![c, m]),
            decreases 2 - i,
        {
            let v = vec![c, modifiers[i]];
            self.push_cluster(&v);
            proof {
                lemma_map_take_step(modifier_chars(), |m: char| seq![c, m], i as int);
                assert(v@ =~= seq![c, modifier_chars()[i as int]]);
            }
            i = i + 1;
        }
        proof {
            assert(modifier_chars().take(2) =~= modifier_chars());
            assert(self@ =~= before + consonant_forms(c));
        }
    }

    fn push_conjunct_forms(
        &mut self,
        c1: char,
        c2: char,
        halant: char,
        matras: &[char],
        modifiers: &[char],
    )
        requires
            old(self).wf(),
            halant == halant_char(),
            matras@ == matra_chars(),
            modifiers@ == modifier_chars(),
        ensures
            final(self).wf(),
            final(self)@ == old(self)@ + conjunct_forms(c1, c2),
    {
        let ghost before = self@;
        let base = vec![c1, halant, c2];
        assert(base@ =~= seq![c1, halant_char(), c2]);
        self.push_cluster(&base);
        self.push_matra_clusters(&base, matras, modifiers);
        let ghost middle = self@;
        let mut i: usize = 0;
        while i < modifiers.len()
            invariant
                self.wf(),
                modifiers@ == modifier_chars(),
                i <= 2,
                self@ == middle + modifier_chars().take(i as int).map_values(|m: char| base@.push(m)),
            decreases 2 - i,
        {
            let v = extended(&base, modifiers[i]);
            self.push_cluster(&v);
            proof {
                lemma_map_take_step(modifier_chars(), |m: char| base@.push(m), i as int);
            }
            i = i + 1;
        }
        proof {
            assert(modifier_chars().take(2) =~= modifier_chars());
            assert(self@ =~= before + conjunct_forms(c1, c2));
        }
    }


    fn push_punctuation(&mut self, punctuation: &[char])
        requires
            old(self).wf(),
            punctuation@ == punctuation_chars(),
        ensures
            final(self).wf(),
            final(self)@ == old(self)@ + punctuation_clusters(punctuation_chars().len() as int),
    {
        let ghost before = self@;
        let mut i: usize = 0;
        proof {
            assert(punctuation_clusters(0) =~= Seq::<Seq<char>>::empty()) by {
                reveal(Seq::filter);
            }
            assert(self@ =~= before + punctuation_clusters(0));
        }
        while i < punctuation.len()
            invariant
                self.wf(),
                punctuation@ == punctuation_chars(),
                i <= punctuation@.len(),
                self@ == before + punctuation_clusters(i as int),
            decreases punctuation@.len() - i,
        {
            let p = punctuation[i];
            let ghost pred = |q: char| q != ' ';
            let ghost f = |q: char| seq![q];
            proof {
                let list = punctuation_chars();
                assert(list.take(i + 1) =~= list.take(i as int).push(p));
                list.take(i as int).lemma_filter_push(p, pred);
            }
            if p != ' ' {
                let v = vec![p];
                self.push_cluster(&v);
                proof {
                    let fl = punctuation_chars().take(i as int).filter(pred);
                    assert(fl.push(p).map_values(f) =~= fl.map_values(f).push(seq![p]));
                    assert(v@ =~= seq![p]);
                }
            }
            i = i + 1;
        }
    }

    /// Builds Σ in its defining order.
    pub fn new() -> (r: GraphemeAlphabet)
        ensures
            r.wf(),
            r@ == alphabet_spec(),
    {
        let consonants = KannadaScript::consonants();
        let vowels = KannadaScript::vowels();
        let matras = KannadaScript::matras();
        let modifiers = KannadaScript::modifiers();
        let punctuation = KannadaScript::punctuation();
        let halant = KannadaScript::halant();
        let nc = consonants.len();

        let mut a = GraphemeAlphabet::empty();
        let space = vec![' '];
        a.push_cluster(&space);
        proof {
            assert(space@ =~= seq![' ']);
        }
        a.push_punctuation(punctuation);

        let ghost start = a@;
        let mut i: usize = 0;
        while i < vowels.len()
            invariant
                a.wf(),
                vowels@ == vowel_chars(),
                modifiers@ == modifier_chars(),
                i <= vowels@.len(),
                a@ == start + vowel_clusters(i as int),
            decreases vowels@.len() - i,
        {
            let v = vec![vowels[i]];
            assert(v@ =~= seq![vowel_chars()[i as int]]);
            a.push_all_with_modifiers(&v, modifiers);
            proof {
                lemma_flatten_take_step(vowel_chars(), |v: char| with_modifiers(seq![v]), i as int);
            }
            i = i + 1;
        }
        proof {
            assert(vowel_chars().take(14) =~= vowel_chars());
        }

        let ghost start = a@;
        let mut i: usize = 0;
        while i < nc
            invariant
                a.wf(),
                nc == consonants@.len(),
                consonants@ == consonant_chars(),
                i <= nc,
                a@ == start + bare_consonant_clusters(i as int),
            decreases nc - i,
        {
            let v = vec![consonants[i]];
            a.push_cluster(&v);
            proof {
                lemma_map_take_step(consonant_chars(), |c: char| seq![c], i as int);
                assert(v@ =~= seq![consonant_chars()[i as int]]);
            }
            i = i + 1;
        }

        let ghost start = a@;
        let mut i: usize = 0;
        while i < nc
            invariant
                a.wf(),
                nc == consonants@.len(),
                consonants@ == consonant_chars(),
                matras@ == matra_chars(),
                modifiers@ == modifier_chars(),
                i <= nc,
                a@ == start + consonant_form_clusters(i as int),
            decreases nc - i,
        {
            a.push_consonant_forms(consonants[i], matras, modifiers);
            proof {
                lemma_flatten_take_step(consonant_chars(), |c: char| consonant_forms(c), i as int);
            }
            i = i + 1;
        }

        let ghost start = a@;
        let mut i: usize = 0;
        while i < nc
            invariant
                a.wf(),
                nc == consonants@.len(),
                consonants@ == consonant_chars(),
                halant == halant_char(),
                i <= nc,
                a@ == start + dead_consonant_clusters(i as int),
            decreases nc - i,
        {
            let v = vec![consonants[i], halant];
            a.push_cluster(&v);
            proof {
                lemma_map_take_step(consonant_chars(), |c: char| seq![c, halant_char()], i as int);
                assert(v@ =~= seq![consonant_chars()[i as int], halant_char()]);
            }
            i = i + 1;
        }

        let ghost start = a@;
        let mut i: usize = 0;
        while i < nc
            invariant
                a.wf(),
                nc == consonants@.len(),
                consonants@ == consonant_chars(),
                matras@ == matra_chars(),
                modifiers@ == modifier_chars(),
                halant == halant_char(),
                i <= nc,
                a@ == start + conjunct_clusters(i as int),
            decreases nc - i,
        {
            let c1 = consonants[i];
            let ghost row_start = a@;
            let mut j: usize = 0;
            while j < nc
                invariant
                    a.wf(),
                    nc == consonants@.len(),
                    consonants@ == consonant_chars(),
                    matras@ == matra_chars(),
                    modifiers@ == modifier_chars(),
                    halant == halant_char(),
                    j <= nc,
                    a@ == row_start + conjunct_row(c1, j as int),
                decreases nc - j,
            {
                a.push_conjunct_forms(c1, consonants[j], halant, matras, modifiers);
                proof {
                    lemma_flatten_take_step(consonant_chars(), |c2: char| conjunct_forms(c1, c2), j as int);
                }
                j = j + 1;
            }
            proof {
                lemma_flatten_take_step(
                    consonant_chars(),
                    |c: char| conjunct_row(c, consonant_chars().len() as int),
                    i as int,
                );
            }
            i = i + 1;
        }

        let ghost start = a@;
        let mut i: usize = 0;
        while i < nc
            invariant
                a.wf(),
                nc == consonants@.len(),
                consonants@ == consonant_chars(),
                halant == halant_char(),
                i <= nc,
                a@ == start + dead_conjunct_clusters(i as int),
            decreases nc - i,
        {
            let c1 = consonants[i];
            let ghost row_start = a@;
            let mut j: usize = 0;
            while j < nc
                invariant
                    a.wf(),
                    nc == consonants@.len(),
                    consonants@ == consonant_chars(),
                    halant == halant_char(),
                    j <= nc,
                    a@ == row_start + dead_conjunct_row(c1, j as int),
                decreases nc - j,
            {
                let v = vec![c1, halant, consonants[j], halant];
                a.push_cluster(&v);
                proof {
                    lemma_map_take_step(
                        consonant_chars(),
                        |c2: char| seq![c1, halant_char(), c2, halant_char()],
                        j as int,
                    );
                    assert(v@ =~= seq![c1, halant_char(), consonant_chars()[j as int], halant_char()]);
                }
                j = j + 1;
            }
            proof {
                lemma_flatten_take_step(
                    consonant_chars(),
                    |c: char| dead_conjunct_row(c, consonant_chars().len() as int),
                    i as int,
                );
            }
            i = i + 1;
        }
        proof {
            assert(seq![seq![' ']] + punctuation_clusters(6) =~= seq![seq![' ']].add(punctuation_clusters(6)));
            assert(a@ =~= alphabet_spec());
        }
        a
    }


    /// |Σ|.
    pub fn size(&self) -> (r: usize)
        ensures
            r == self@.len(),
    {
        self.clusters.len()
    }

    /// The cluster at `index`, if there is one.
    pub fn get(&self, index: usize) -> (r: Option<&str>)
        ensures
            r is None <==> index >= self@.len(),
            r matches Some(s) ==> s@ == self@[index as int],
    {
        if index < self.clusters.len() {
            Some(self.clusters[index].as_str())
        } else {
            None
        }
    }

    fn index_of_chars(&self, s: &[char]) -> (r: Option<usize>)
        requires
            self.wf(),
        ensures
            r matches Some(i) ==> is_first_index(self@, s@, i as int),
            r is None ==> !self@.contains(s@),
    {
        let ghost alpha = self@;
        match key_of(s) {
            Some(k) => {
                proof {
                    lemma_key_fits(s@);
                }
                match self.cluster_to_index.get(&k) {
                    Some(i) => {
                        proof {
                            let x = *i as int;
                            lemma_key_injective(alpha[x], s@);
                            assert forall|j: int| 0 <= j < x implies alpha[j] != s@ by {
                                if alpha[j] == s@ {
                                    assert(keyable(alpha[j]) && cluster_key(alpha[j]) == k as nat);
                                }
                            }
                        }
                        Some(*i)
                    },
                    None => {
                        proof {
                            if alpha.contains(s@) {
                                let j = choose|j: int| 0 <= j < alpha.len() && alpha[j] == s@;
                                assert(keyable(alpha[j]));
                            }
                        }
                        None
                    },
                }
            },
            None => {
                if self.all_keyed {
                    proof {
                        if alpha.contains(s@) {
                            let j = choose|j: int| 0 <= j < alpha.len() && alpha[j] == s@;
                            assert(keyable(alpha[j]));
                        }
                    }
                    return None;
                }
                let mut j: usize = 0;
                while j < self.clusters.len()
                    invariant
                        alpha == self@,
                        j <= alpha.len(),
                        forall|x: int| 0 <= x < j ==> alpha[x] != s@,
                    decreases alpha.len() - j,
                {
                    let c = chars_of(self.clusters[j].as_str());
                    if same_chars(c.as_slice(), s) {
                        return Some(j);
                    }
                    j = j + 1;
                }
                None
            },
        }
    }

    /// The first position of `cluster` in Σ, if it is a cluster.
    pub fn index_of(&self, cluster: &str) -> (r: Option<usize>)
        requires
            self.wf(),
        ensures
            r matches Some(i) ==> is_first_index(self@, cluster@, i as int),
            r is None <==> !self@.contains(cluster@),
    {
        let chars = chars_of(cluster);
        self.index_of_chars(chars.as_slice())
    }

    /// The longest cluster that starts at `pos`: its length and index.
    fn match_at(&self, chars: &[char], pos: usize) -> (r: Option<(usize, usize)>)
        requires
            self.wf(),
            pos < chars@.len(),
        ensures
            ({
                let t = chars@.skip(pos as int);
                let l = longest_match(self@, t, t.len());
                match r {
                    Some((len, i)) => len == l && len > 0 && is_first_index(
                        self@,
                        t.take(len as int),
                        i as int,
                    ),
                    None => l == 0,
                }
            }),
    {
        let ghost alpha = self@;
        let ghost t = chars@.skip(pos as int);
        let n = chars.len();
        let rest = n - pos;
        let max_len = if rest < self.max_cluster_chars {
            rest
        } else {
            self.max_cluster_chars
        };
        proof {
            assert forall|l: nat| max_len < l <= t.len() implies !alpha.contains(#[trigger] t.take(l as int)) by {
                if alpha.contains(t.take(l as int)) {
                    let j = choose|j: int| 0 <= j < alpha.len() && alpha[j] == t.take(l as int);
                    assert(alpha[j].len() <= self.max_cluster_chars);
                }
            }
            lemma_longest_match_skip(alpha, t, max_len as nat, t.len());
        }
        let mut len = max_len;
        while len > 0
            invariant
                self.wf(),
                alpha == self@,
                t == chars@.skip(pos as int),
                n == chars@.len(),
                pos + max_len <= n,
                len <= max_len,
                longest_match(alpha, t, t.len()) == longest_match(alpha, t, len as nat),
            decreases len,
        {
            let candidate = slice_subrange(chars, pos, pos + len);
            proof {
                assert(candidate@ =~= t.take(len as int));
            }
            match self.index_of_chars(candidate) {
                Some(i) => {
                    proof {
                        assert(alpha.contains(t.take(len as int)));
                    }
                    return Some((len, i));
                },
                None => {},
            }
            len = len - 1;
        }
        None
    }

    /// Splits `text` into clusters by greedy longest match from the left;
    /// `None` when some position starts no cluster.
    pub fn segment(&self, text: &str) -> (r: Option<Vec<usize>>)
        requires
            self.wf(),
        ensures
            r is Some <==> greedy_pieces(self@, text@) is Some,
            r matches Some(v) ==> indexes_pieces(self@, v@, greedy_pieces(self@, text@).unwrap()),
    {
        let ghost alpha = self@;
        let chars = chars_of(text);
        let n = chars.len();
        let mut result: Vec<usize> = Vec::new();
        let mut pos: usize = 0;
        let ghost mut done: Seq<Seq<char>> = Seq::empty();
        proof {
            assert(text@.skip(0) =~= text@);
            match greedy_pieces(alpha, text@) {
                Some(rest) => {
                    assert(done + rest =~= rest);
                },
                None => {},
            }
        }
        while pos < n
            invariant
                self.wf(),
                alpha == self@,
                n == chars@.len(),
                chars@ == text@,
                pos <= n,
                greedy_pieces(alpha, text@) == (match greedy_pieces(alpha, text@.skip(pos as int)) {
                    Some(rest) => Some(done + rest),
                    None => None,
                }),
                indexes_pieces(alpha, result@, done),
            decreases n - pos,
        {
            let ghost t = text@.skip(pos as int);
            assert(chars@.skip(pos as int) == t);
            match self.match_at(chars.as_slice(), pos) {
                None => {
                    return None;
                },
                Some((len, i)) => {
                    proof {
                        lemma_longest_match_bound(alpha, t, t.len());
                        let piece = t.take(len as int);
                        assert(t.skip(len as int) =~= text@.skip(pos + len));
                        match greedy_pieces(alpha, t.skip(len as int)) {
                            Some(rest) => {
                                assert(done + (seq![piece] + rest) =~= done.push(piece) + rest);
                            },
                            None => {},
                        }
                        assert forall|k: int| 0 <= k < result@.push(i).len() implies is_first_index(
                            alpha,
                            done.push(piece)[k],
                            #[trigger] result@.push(i)[k] as int,
                        ) by {
                            if k < result@.len() {
                                assert(result@.push(i)[k] == result@[k]);
                            }
                        }
                        done = done.push(piece);
                    }
                    result.push(i);
                    pos = pos + len;
                },
            }
        }
        proof {
            assert(text@.skip(n as int).len() == 0);
            assert(done + Seq::<Seq<char>>::empty() =~= done);
        }
        Some(result)
    }

    /// The concatenation of the clusters at `indices`; indices out of range
    /// are skipped.
    pub fn indices_to_string(&self, indices: &[usize]) -> (r: String)
        ensures
            r@ == concat_clusters(self@, indices@),
    {
        let mut out = String::new();
        let mut i: usize = 0;
        while i < indices.len()
            invariant
                i <= indices@.len(),
                out@ == concat_clusters(self@, indices@.take(i as int)),
            decreases indices@.len() - i,
        {
            let idx = indices[i];
            proof {
                assert(indices@.take(i + 1).drop_last() =~= indices@.take(i as int));
            }
            if idx < self.clusters.len() {
                out.append(self.clusters[idx].as_str());
            } else {
                proof {
                    assert(out@ + Seq::<char>::empty() =~= out@);
                }
            }
            i = i + 1;
        }
        proof {
            assert(indices@.take(i as int) =~= indices@);
        }
        out
    }

}

impl Default for GraphemeAlphabet {
    fn default() -> (r: Self)
        ensures
            r.wf(),
            r@ == alphabet_spec(),
    {
        Self::new()
    }
}

} // verus!
