//! The library: pages of addresses, and addresses of texts.

use crate::alphabet::{
    lemma_concat_clusters_append, lemma_first_index_exists, lemma_first_index_unique,
    lemma_pieces_are_clusters,
    alphabet_spec, bare_consonant_clusters, concat_clusters, consonant_chars, greedy_pieces,
    indexes_pieces, is_first_index, lemma_segment_round_trip, GraphemeAlphabet,
};
use crate::bignum::{
    big_add, big_bits, big_div_rem, big_from_hex, big_mul, big_to_hex, hex_text, hex_value,
    is_hex_chars, is_hex_string, BigNum,
};
use crate::bijection::{
    digits_below, digits_value, lemma_content_address_round_trip, lemma_digits_positional,
    lemma_digits_round_trip,
    to_digits, BijectionEngine,
};
use crate::constants::{CLUSTERS_PER_LINE, CLUSTERS_PER_PAGE};
use crate::text::{chars_of, decimal_field, parse_bounded, push_char, starts_with_chars, string_of};
use crate::types::{
    field_at, lemma_same_raw_same_fields, parse_display, raw_of, rsplit_bounds, rsplit_fields, HierarchicalAddress, Location,
    Page, SearchResult,
};
use vstd::slice::slice_subrange;
use std::collections::hash_map::RandomState;
use std::hash::BuildHasher;
use vstd::prelude::*;
use vstd::string::StringExecFns;

verus! {

/// The formatted text of the clusters at `indices`: a newline before every
/// line of `CLUSTERS_PER_LINE` clusters but the first.
pub open spec fn formatted_clusters(alpha: Seq<Seq<char>>, indices: Seq<usize>) -> Seq<char>
    decreases indices.len(),
{
    if indices.len() == 0 {
        Seq::empty()
    } else {
        let k = indices.len() - 1;
        let i = indices.last() as int;
        formatted_clusters(alpha, indices.drop_last()) + (if k > 0 && k % (CLUSTERS_PER_LINE as int) == 0 {
            seq!['\n']
        } else {
            Seq::empty()
        }) + (if i < alpha.len() {
            alpha[i]
        } else {
            Seq::empty()
        })
    }
}

/// The first position of `s` in `alpha`.
pub open spec fn first_index(alpha: Seq<Seq<char>>, s: Seq<char>) -> int {
    choose|i: int| is_first_index(alpha, s, i)
}

/// The first positions of the pieces.
pub open spec fn piece_indices(alpha: Seq<Seq<char>>, pieces: Seq<Seq<char>>) -> Seq<usize> {
    pieces.map_values(|p: Seq<char>| first_index(alpha, p) as usize)
}

/// `s` cut or padded with zeros (spaces) to length `len`.
pub open spec fn padded(s: Seq<usize>, len: nat) -> Seq<usize> {
    if s.len() >= len {
        s.take(len as int)
    } else {
        s + Seq::new((len - s.len()) as nat, |i: int| 0usize)
    }
}

/// The cells of a page with `query` at `position` and `fill` elsewhere,
/// each fill word reduced below `base`.
pub open spec fn placed_cells(query: Seq<usize>, position: int, fill: Seq<u64>, base: nat) -> Seq<usize> {
    Seq::new(
        fill.len(),
        |j: int|
            if position <= j < position + query.len() {
                query[j - position]
            } else {
                (fill[j] as nat % base) as usize
            },
    )
}

/// `prefix` is a prefix of `s`.
pub open spec fn is_prefix_of(prefix: Seq<char>, s: Seq<char>) -> bool {
    prefix.len() <= s.len() && s.take(prefix.len() as int) == prefix
}

/// Whether `c` lies in the Kannada block, U+0C80 to U+0CFF.
pub open spec fn is_kannada_char(c: char) -> bool {
    '\u{0C80}' <= c <= '\u{0CFF}'
}

/// The first positions of pieces that are all clusters index them.
proof fn lemma_piece_indices(alpha: Seq<Seq<char>>, pieces: Seq<Seq<char>>)
    requires
        forall|k: int| 0 <= k < pieces.len() ==> alpha.contains(#[trigger] pieces[k]),
        alpha.len() <= usize::MAX,
    ensures
        indexes_pieces(alpha, piece_indices(alpha, pieces), pieces),
        digits_below(piece_indices(alpha, pieces), alpha.len()),
{
    let idx = piece_indices(alpha, pieces);
    assert forall|k: int| 0 <= k < idx.len() implies is_first_index(alpha, pieces[k], #[trigger] idx[k] as int) && (idx[k] as nat) < alpha.len() by {
        assert(alpha.contains(pieces[k]));
        let i = choose|i: int| 0 <= i < alpha.len() && alpha[i] == pieces[k];
        lemma_first_index_exists(alpha, pieces[k], i);
    }
}

/// Indices that index the pieces are their first positions.
proof fn lemma_indices_are_piece_indices(alpha: Seq<Seq<char>>, v: Seq<usize>, pieces: Seq<Seq<char>>)
    requires
        indexes_pieces(alpha, v, pieces),
    ensures
        v == piece_indices(alpha, pieces),
{
    assert forall|k: int| 0 <= k < v.len() implies v[k] == #[trigger] piece_indices(alpha, pieces)[k] by {
        assert(is_first_index(alpha, pieces[k], v[k] as int));
        let c = first_index(alpha, pieces[k]);
        lemma_first_index_unique(alpha, pieces[k], c, v[k] as int);
    }
    assert(v =~= piece_indices(alpha, pieces));
}

/// The page found for a query starts with the query: for every text that
/// splits into at least one and at most a page of clusters, verifying the
/// text at the location that `search` returns succeeds.
pub proof fn lemma_search_then_verify(lib: &LibraryOfBabel, query: Seq<char>)
    requires
        lib.wf(),
        greedy_pieces(lib.alphabet_view(), query) is Some,
        0 < greedy_pieces(lib.alphabet_view(), query).unwrap().len() <= CLUSTERS_PER_PAGE,
    ensures
        is_prefix_of(query, lib.page_text(lib.search_address(query))),
{
    let alpha = lib.alphabet_view();
    let e = lib.engine();
    let base = e.base();
    let pieces = greedy_pieces(alpha, query).unwrap();
    let n = pieces.len();
    lemma_pieces_are_clusters(alpha, query);
    lemma_piece_indices(alpha, pieces);
    let idx = piece_indices(alpha, pieces);
    let zeros = Seq::new((CLUSTERS_PER_PAGE - n) as nat, |i: int| 0usize);
    let cells = padded(idx, CLUSTERS_PER_PAGE as nat);
    if n == CLUSTERS_PER_PAGE {
        assert(cells =~= idx + zeros);
    } else {
        assert(cells == idx + zeros);
    }
    assert(digits_below(cells, base)) by {
        assert forall|i: int| 0 <= i < cells.len() implies (#[trigger] cells[i] as nat) < base by {
            if i < n {
                assert(cells[i] == idx[i]);
            } else {
                assert(cells[i] == 0);
            }
        }
    }
    lemma_digits_positional(cells, base);
    let c = digits_value(cells, base);
    lemma_content_address_round_trip(&e, c);
    lemma_digits_round_trip(cells, base);
    lemma_concat_clusters_append(alpha, idx, zeros);
    lemma_segment_round_trip(alpha, query, idx);
    let rest = concat_clusters(alpha, zeros);
    assert((query + rest).take(query.len() as int) =~= query);
}

/// A page built with the query at a cell holds the query's clusters from
/// that cell on, and the reduced fill words in every other cell.
pub proof fn lemma_placed_query(lib: &LibraryOfBabel, query: Seq<char>, position: int, fill: Seq<u64>)
    requires
        lib.wf(),
        lib.is_query(query),
        0 <= position <= CLUSTERS_PER_PAGE - greedy_pieces(lib.alphabet_view(), query).unwrap().len(),
        fill.len() == CLUSTERS_PER_PAGE,
    ensures
        lib.page_indices(lib.placed_address(query, position, fill)) == placed_cells(
            lib.query_indices(query),
            position,
            fill,
            lib.engine().base(),
        ),
        lib.page_indices(lib.placed_address(query, position, fill)).subrange(
            position,
            position + greedy_pieces(lib.alphabet_view(), query).unwrap().len(),
        ) == lib.query_indices(query),
{
    let alpha = lib.alphabet_view();
    let e = lib.engine();
    let base = e.base();
    let pieces = greedy_pieces(alpha, query).unwrap();
    let n = pieces.len();
    lemma_pieces_are_clusters(alpha, query);
    lemma_piece_indices(alpha, pieces);
    let idx = piece_indices(alpha, pieces);
    let cells = placed_cells(idx, position, fill, base);
    assert(digits_below(cells, base)) by {
        assert forall|i: int| 0 <= i < cells.len() implies (#[trigger] cells[i] as nat) < base by {
            if position <= i < position + n {
                assert(cells[i] == idx[i - position]);
            }
        }
    }
    lemma_digits_positional(cells, base);
    let c = digits_value(cells, base);
    lemma_content_address_round_trip(&e, c);
    lemma_digits_round_trip(cells, base);
    assert(cells.subrange(position, position + n) =~= idx);
}

/// `v` cut or padded with zeros to `len`.
fn pad_to(v: &Vec<usize>, len: usize) -> (r: Vec<usize>)
    ensures
        r@ == padded(v@, len as nat),
{
    let mut r: Vec<usize> = Vec::new();
    let mut i: usize = 0;
    while i < len
        invariant
            i <= len,
            r@.len() == i,
            forall|k: int| 0 <= k < i ==> r@[k] == (if k < v@.len() { v@[k] } else { 0usize }),
        decreases len - i,
    {
        if i < v.len() {
            r.push(v[i]);
        } else {
            r.push(0);
        }
        i = i + 1;
    }
    assert(r@ =~= padded(v@, len as nat));
    r
}

/// `s` holds a character of the Kannada block.
pub open spec fn has_kannada(s: Seq<char>) -> bool {
    exists|i: int| 0 <= i < s.len() && is_kannada_char(#[trigger] s[i])
}

/// `s` without its leading zeros.
pub open spec fn drop_leading_zeros(s: Seq<usize>) -> Seq<usize>
    decreases s.len(),
{
    if s.len() > 0 && s[0] == 0 {
        drop_leading_zeros(s.drop_first())
    } else {
        s
    }
}

/// The number of digits of a mandira written in clusters.
pub const MANDIRA_DIGITS: usize = 399;

/// A mandira is written in clusters only while it has fewer bits than this.
pub const MANDIRA_DISPLAY_BITS: u64 = 10000;

/// Whether some character lies in the Kannada block.
fn chars_have_kannada(s: &[char]) -> (r: bool)
    ensures
        r == has_kannada(s@),
{
    let mut i: usize = 0;
    while i < s.len()
        invariant
            i <= s@.len(),
            forall|k: int| 0 <= k < i ==> !is_kannada_char(#[trigger] s@[k]),
        decreases s@.len() - i,
    {
        let c = s[i];
        if '\u{0C80}' <= c && c <= '\u{0CFF}' {
            assert(is_kannada_char(s@[i as int]));
            return true;
        }
        i = i + 1;
    }
    false
}

/// Whether some character is a `.`.
fn chars_have_dot(s: &[char]) -> (r: bool)
    ensures
        r == s@.contains('.'),
{
    let mut i: usize = 0;
    while i < s.len()
        invariant
            i <= s@.len(),
            forall|k: int| 0 <= k < i ==> s@[k] != '.',
        decreases s@.len() - i,
    {
        if s[i] == '.' {
            assert(s@[i as int] == '.');
            return true;
        }
        i = i + 1;
    }
    false
}

/// Relies on `RandomState::new`: a hasher state with fresh keys.
#[verifier::external_body]
fn fresh_random_state() -> (r: RandomState) {
    RandomState::new()
}

/// Relies on `BuildHasher::hash_one`: the hash of `x` under the state's
/// keys; nothing is known of its value.
#[verifier::external_body]
fn random_word(state: &RandomState, x: u64) -> (r: u64) {
    state.hash_one(x)
}

/// The Library of Babel for Kannada.
pub struct LibraryOfBabel {
    alphabet: GraphemeAlphabet,
    bijection: BijectionEngine,
}

impl LibraryOfBabel {
    /// Σ.
    pub closed spec fn alphabet_view(&self) -> Seq<Seq<char>> {
        self.alphabet@
    }

    /// The bijection engine.
    pub closed spec fn engine(&self) -> BijectionEngine {
        self.bijection
    }

    /// The alphabet's lookup structures are sound.
    pub closed spec fn alphabet_wf(&self) -> bool {
        self.alphabet.wf()
    }

    /// The library is built over Σ and an engine of base |Σ|.
    pub open spec fn wf(&self) -> bool {
        &&& self.alphabet_wf()
        &&& self.alphabet_view() == alphabet_spec()
        &&& self.engine().wf()
        &&& self.engine().base() == self.alphabet_view().len()
    }

    /// The cluster indices of the page at raw address `raw`.
    pub open spec fn page_indices(&self, raw: nat) -> Seq<usize> {
        to_digits(
            self.engine().spec_address_to_content(raw),
            self.engine().base(),
            CLUSTERS_PER_PAGE as nat,
        )
    }

    /// The text of the page at raw address `raw`.
    pub open spec fn page_text(&self, raw: nat) -> Seq<char> {
        concat_clusters(self.alphabet_view(), self.page_indices(raw))
    }

    /// The formatted text of the page at raw address `raw`.
    pub open spec fn page_lines(&self, raw: nat) -> Seq<char> {
        formatted_clusters(self.alphabet_view(), self.page_indices(raw))
    }

    /// `p` is the page at raw address `raw`.
    pub open spec fn is_page_at(&self, p: Page, raw: nat) -> bool {
        &&& p.location.consistent()
        &&& p.location.spec_raw() == raw
        &&& p.cluster_indices@ == self.page_indices(raw)
        &&& p.content@ == self.page_text(raw)
        &&& p.formatted_content@ == self.page_lines(raw)
    }

    /// The cluster indices of a segmentable query.
    pub open spec fn query_indices(&self, query: Seq<char>) -> Seq<usize> {
        piece_indices(self.alphabet_view(), greedy_pieces(self.alphabet_view(), query).unwrap())
    }

    /// The raw address whose page starts with `query`.
    pub open spec fn search_address(&self, query: Seq<char>) -> nat {
        self.engine().spec_content_to_address(
            digits_value(
                padded(self.query_indices(query), CLUSTERS_PER_PAGE as nat),
                self.engine().base(),
            ),
        )
    }

    /// `query` splits into at least one cluster.
    pub open spec fn is_query(&self, query: Seq<char>) -> bool {
        &&& greedy_pieces(self.alphabet_view(), query) is Some
        &&& greedy_pieces(self.alphabet_view(), query).unwrap().len() > 0
    }

    /// The number that a text of clusters writes in base |Σ|.
    pub open spec fn kannada_number(&self, s: Seq<char>) -> nat {
        digits_value(self.query_indices(s), self.engine().base())
    }

    /// A mandira field: in clusters when it holds a Kannada character, else
    /// in hexadecimal.
    pub open spec fn mandira_value(&self, m: Seq<char>) -> Option<nat> {
        if has_kannada(m) {
            if self.is_query(m) {
                Some(self.kannada_number(m))
            } else {
                None
            }
        } else if is_hex_string(m) {
            Some(hex_value(m))
        } else {
            None
        }
    }

    /// The raw address that `parse_address` reads from `s`.
    pub open spec fn parsed_raw(&self, s: Seq<char>) -> Option<int> {
        if s.contains('.') {
            match rsplit_fields(s, 4) {
                Some(f) => match (
                    self.mandira_value(f[0]),
                    decimal_field(f[1]),
                    decimal_field(f[2]),
                    decimal_field(f[3]),
                    decimal_field(f[4]),
                ) {
                    (Some(m), Some(g), Some(p), Some(b), Some(t)) => if 1 <= g <= 4 && 1 <= p <= 5
                        && 1 <= b <= 32 && 1 <= t <= 410 {
                        Some(raw_of(m, g as int, p as int, b as int, t as int))
                    } else {
                        None
                    },
                    _ => None,
                },
                None => None,
            }
        } else {
            match self.mandira_value(s) {
                Some(m) => Some(
                    if has_kannada(s) {
                        raw_of(m, 1, 1, 1, 1)
                    } else {
                        m as int
                    },
                ),
                None => None,
            }
        }
    }

    /// The raw address of a page with `query` at cell `position` and `fill`
    /// reduced below |Σ| in the other cells.
    pub open spec fn placed_address(&self, query: Seq<char>, position: int, fill: Seq<u64>) -> nat {
        self.engine().spec_content_to_address(
            digits_value(
                placed_cells(self.query_indices(query), position, fill, self.engine().base()),
                self.engine().base(),
            ),
        )
    }

    /// Builds Σ and the engine over it.
    pub fn new() -> (r: LibraryOfBabel)
        ensures
            r.wf(),
    {
        let alphabet = GraphemeAlphabet::new();
        proof {
            let nc = consonant_chars().len() as int;
            assert(bare_consonant_clusters(nc).len() == nc);
            assert(alphabet_spec().len() >= 2);
        }
        let bijection = BijectionEngine::new(alphabet.size());
        LibraryOfBabel { alphabet, bijection }
    }

    /// |Σ|.
    pub fn alphabet_size(&self) -> (r: usize)
        ensures
            r == self.alphabet_view().len(),
    {
        self.alphabet.size()
    }

    /// Clusters per page.
    pub fn page_length(&self) -> (r: usize)
        ensures
            r == CLUSTERS_PER_PAGE,
    {
        CLUSTERS_PER_PAGE
    }

    /// The page at `location`; its location is rendered afresh from the raw address.
    pub fn generate_page(&self, location: &Location) -> (r: Page)
        requires
            self.wf(),
            location.hierarchical.valid(),
        ensures
            self.is_page_at(r, location.spec_raw() as nat),
    {
        let raw_address = location.to_raw();
        self.page_of_raw(&raw_address)
    }

    fn page_of_raw(&self, raw_address: &BigNum) -> (r: Page)
        requires
            self.wf(),
        ensures
            self.is_page_at(r, raw_address@),
    {
        let content_num = self.bijection.address_to_content(raw_address);
        let indices = self.bijection.biguint_to_indices(content_num, CLUSTERS_PER_PAGE);
        let content = self.alphabet.indices_to_string(indices.as_slice());
        let formatted = self.format_content(indices.as_slice());
        Page {
            location: Location::from_raw_address(raw_address),
            content,
            formatted_content: formatted,
            cluster_indices: indices,
        }
    }

    /// The page at a hexadecimal raw address.
    pub fn generate_page_from_hex(&self, hex: &str) -> (r: Option<Page>)
        requires
            self.wf(),
        ensures
            r is Some <==> is_hex_string(hex@),
            r matches Some(p) ==> self.is_page_at(p, hex_value(hex@)),
    {
        match Location::from_hex(hex) {
            Some(location) => Some(self.generate_page(&location)),
            None => None,
        }
    }

    /// The page at a hierarchical display address.
    pub fn generate_page_from_hierarchical(&self, s: &str) -> (r: Option<Page>)
        requires
            self.wf(),
        ensures
            r is Some <==> parse_display(s@) is Some,
            r matches Some(p) ==> {
                let (m, g, pa, b, t) = parse_display(s@).unwrap();
                self.is_page_at(p, crate::types::raw_of(m, g as int, pa as int, b as int, t as int) as nat)
            },
    {
        match HierarchicalAddress::from_display_string(s) {
            Some(h) => {
                let location = Location::from_hierarchical(h);
                Some(self.generate_page(&location))
            },
            None => None,
        }
    }

    /// The address at whose page start `query` stands; `None` when `query`
    /// is empty or does not split into clusters. A query of more clusters
    /// than a page holds is cut to a page.
    pub fn search(&self, query: &str) -> (r: Option<SearchResult>)
        requires
            self.wf(),
        ensures
            r is Some <==> (greedy_pieces(self.alphabet_view(), query@) is Some && greedy_pieces(
                self.alphabet_view(),
                query@,
            ).unwrap().len() > 0),
            r matches Some(res) ==> {
                &&& res.query@ == query@
                &&& res.cluster_count == greedy_pieces(self.alphabet_view(), query@).unwrap().len()
                &&& res.location.consistent()
                &&& res.location.spec_raw() == self.search_address(query@)
            },
    {
        let query_indices = match self.alphabet.segment(query) {
            Some(v) => v,
            None => {
                return None;
            },
        };
        if query_indices.len() == 0 {
            return None;
        }
        proof {
            let alpha = self.alphabet_view();
            lemma_indices_are_piece_indices(alpha, query_indices@, greedy_pieces(alpha, query@).unwrap());
        }
        let cells = pad_to(&query_indices, CLUSTERS_PER_PAGE);
        let content_num = self.bijection.indices_to_biguint(cells.as_slice());
        let raw_address = self.bijection.content_to_address(&content_num);
        let location = Location::from_raw_address(&raw_address);
        Some(SearchResult { query: String::from_str(query), location, cluster_count: query_indices.len() })
    }

    /// Whether the page at `location` starts with `expected_start`.
    pub fn verify(&self, location: &Location, expected_start: &str) -> (r: bool)
        requires
            self.wf(),
            location.hierarchical.valid(),
        ensures
            r == is_prefix_of(expected_start@, self.page_text(location.spec_raw() as nat)),
    {
        let page = self.generate_page(location);
        let content = chars_of(page.content.as_str());
        let expected = chars_of(expected_start);
        starts_with_chars(content.as_slice(), expected.as_slice())
    }

    /// The page after `location`.
    pub fn next_page(&self, location: &Location) -> (r: Page)
        requires
            self.wf(),
            location.hierarchical.valid(),
        ensures
            self.is_page_at(r, (location.spec_raw() + 1) as nat),
    {
        let next_location = location.next();
        self.generate_page(&next_location)
    }

    /// The page before `location`; `None` at the first page.
    pub fn previous_page(&self, location: &Location) -> (r: Option<Page>)
        requires
            self.wf(),
            location.hierarchical.valid(),
        ensures
            r is None <==> location.spec_raw() == 0,
            r matches Some(p) ==> self.is_page_at(p, (location.spec_raw() - 1) as nat),
    {
        match location.previous() {
            Some(prev_location) => Some(self.generate_page(&prev_location)),
            None => None,
        }
    }

    /// Whether `s` holds a character of the Kannada block, U+0C80 to U+0CFF.
    pub fn contains_kannada(s: &str) -> (r: bool)
        ensures
            r == has_kannada(s@),
    {
        let chars = chars_of(s);
        chars_have_kannada(chars.as_slice())
    }

    /// The segmentation of a text as a query: `None` unless it splits into
    /// at least one cluster.
    fn query_of(&self, text: &str) -> (r: Option<Vec<usize>>)
        requires
            self.wf(),
        ensures
            r is Some <==> self.is_query(text@),
            r matches Some(v) ==> v@ == self.query_indices(text@) && v@.len() == greedy_pieces(
                self.alphabet_view(),
                text@,
            ).unwrap().len(),
    {
        match self.alphabet.segment(text) {
            Some(v) => {
                if v.len() == 0 {
                    return None;
                }
                proof {
                    let alpha = self.alphabet_view();
                    lemma_indices_are_piece_indices(alpha, v@, greedy_pieces(alpha, text@).unwrap());
                }
                Some(v)
            },
            None => None,
        }
    }

    /// The number that a text of clusters writes, in hexadecimal.
    pub fn kannada_to_hex(&self, kannada: &str) -> (r: Option<String>)
        requires
            self.wf(),
        ensures
            r is Some <==> self.is_query(kannada@),
            r matches Some(h) ==> h@ == hex_text(self.kannada_number(kannada@)),
    {
        let indices = match self.query_of(kannada) {
            Some(v) => v,
            None => {
                return None;
            },
        };
        let num = self.bijection.indices_to_biguint(indices.as_slice());
        Some(big_to_hex(&num))
    }

    fn mandira_of(&self, m: &[char]) -> (r: Option<BigNum>)
        requires
            self.wf(),
        ensures
            r is Some <==> self.mandira_value(m@) is Some,
            r matches Some(x) ==> x@ == self.mandira_value(m@).unwrap(),
    {
        let text = string_of(m);
        if chars_have_kannada(m) {
            match self.query_of(text.as_str()) {
                Some(indices) => Some(self.bijection.indices_to_biguint(indices.as_slice())),
                None => None,
            }
        } else if is_hex_chars(m) {
            big_from_hex(text.as_str())
        } else {
            None
        }
    }

    /// Reads an address: hexadecimal, hierarchical with a hexadecimal or
    /// Kannada mandira, or Kannada alone (a mandira, on its first page).
    pub fn parse_address(&self, address: &str) -> (r: Option<Location>)
        requires
            self.wf(),
        ensures
            r is Some <==> self.parsed_raw(address@) is Some,
            r matches Some(l) ==> l.consistent() && l.spec_raw() == self.parsed_raw(address@).unwrap(),
    {
        let chars = chars_of(address);
        let n = chars.len();
        proof {
            assert(chars@.take(n as int) =~= address@);
        }
        if chars_have_dot(chars.as_slice()) {
            let b = match rsplit_bounds(chars.as_slice(), n, 4) {
                Some(b) => b,
                None => {
                    return None;
                },
            };
            let ghost f = rsplit_fields(address@, 4).unwrap();
            assert(field_at(chars@, f, n, b@, 0) && field_at(chars@, f, n, b@, 1) && field_at(
                chars@,
                f,
                n,
                b@,
                2,
            ) && field_at(chars@, f, n, b@, 3) && field_at(chars@, f, n, b@, 4));
            let puta = parse_bounded(slice_subrange(chars.as_slice(), b[4].0, b[4].1), 410);
            let pustaka = parse_bounded(slice_subrange(chars.as_slice(), b[3].0, b[3].1), 32);
            let patti = parse_bounded(slice_subrange(chars.as_slice(), b[2].0, b[2].1), 5);
            let gode = parse_bounded(slice_subrange(chars.as_slice(), b[1].0, b[1].1), 4);
            let mandira = self.mandira_of(slice_subrange(chars.as_slice(), b[0].0, b[0].1));
            match (mandira, gode, patti, pustaka, puta) {
                (Some(m), Some(g), Some(p), Some(k), Some(t)) => {
                    let h = HierarchicalAddress {
                        mandira: m,
                        gode: g as u8,
                        patti: p as u8,
                        pustaka: k as u8,
                        puta: t as u16,
                    };
                    Some(Location::from_hierarchical(h))
                },
                _ => None,
            }
        } else {
            let m = match self.mandira_of(chars.as_slice()) {
                Some(m) => m,
                None => {
                    return None;
                },
            };
            if chars_have_kannada(chars.as_slice()) {
                let h = HierarchicalAddress { mandira: m, gode: 1, patti: 1, pustaka: 1, puta: 1 };
                Some(Location::from_hierarchical(h))
            } else {
                Some(Location::from_raw_address(&m))
            }
        }
    }

    /// Like `search`, with the query at cell `position_word mod (L - n + 1)`
    /// of a page of `L` cells and `fill[j] mod |Σ|` in every other cell `j`;
    /// `None` unless the query splits into `n` clusters with `0 < n < L`.
    pub fn search_at_position(&self, query: &str, position_word: u64, fill: &Vec<u64>) -> (r:
        Option<SearchResult>)
        requires
            self.wf(),
            fill@.len() == CLUSTERS_PER_PAGE,
        ensures
            r is Some <==> (self.is_query(query@) && greedy_pieces(self.alphabet_view(), query@).unwrap().len()
                < CLUSTERS_PER_PAGE),
            r matches Some(res) ==> {
                let n = greedy_pieces(self.alphabet_view(), query@).unwrap().len();
                &&& res.query@ == query@
                &&& res.cluster_count == n
                &&& res.location.consistent()
                &&& res.location.spec_raw() == self.placed_address(
                    query@,
                    position_word as int % (CLUSTERS_PER_PAGE - n + 1),
                    fill@,
                )
            },
    {
        let query_indices = match self.query_of(query) {
            Some(v) => v,
            None => {
                return None;
            },
        };
        let n = query_indices.len();
        if n >= CLUSTERS_PER_PAGE {
            return None;
        }
        let max_position = CLUSTERS_PER_PAGE - n;
        let position = (position_word % (max_position as u64 + 1)) as usize;
        let size = self.alphabet.size();
        let ghost cells = placed_cells(query_indices@, position as int, fill@, size as nat);
        let mut content_indices: Vec<usize> = Vec::new();
        let mut j: usize = 0;
        while j < CLUSTERS_PER_PAGE
            invariant
                j <= CLUSTERS_PER_PAGE,
                fill@.len() == CLUSTERS_PER_PAGE,
                query_indices@.len() == n,
                position + n <= CLUSTERS_PER_PAGE,
                size >= 2,
                cells == placed_cells(query_indices@, position as int, fill@, size as nat),
                content_indices@ == cells.take(j as int),
            decreases CLUSTERS_PER_PAGE - j,
        {
            let cell = if position <= j && j < position + n {
                query_indices[j - position]
            } else {
                (fill[j] % (size as u64)) as usize
            };
            proof {
                assert(cells.take(j + 1) =~= cells.take(j as int).push(cell));
            }
            content_indices.push(cell);
            j = j + 1;
        }
        proof {
            assert(cells.take(CLUSTERS_PER_PAGE as int) =~= cells);
        }
        let content_num = self.bijection.indices_to_biguint(content_indices.as_slice());
        let raw_address = self.bijection.content_to_address(&content_num);
        let location = Location::from_raw_address(&raw_address);
        Some(SearchResult { query: String::from_str(query), location, cluster_count: n })
    }

    /// Searches for `query` at a random cell of a page whose other cells are
    /// random; `None` unless the query splits into `n` clusters with `0 < n < L`.
    /// Whatever the draw, the page found holds the query's clusters from some
    /// cell on.
    pub fn search_at_random_position(&self, query: &str) -> (r: Option<SearchResult>)
        requires
            self.wf(),
        ensures
            r is Some <==> (self.is_query(query@) && greedy_pieces(self.alphabet_view(), query@).unwrap().len()
                < CLUSTERS_PER_PAGE),
            r matches Some(res) ==> {
                let n = greedy_pieces(self.alphabet_view(), query@).unwrap().len();
                &&& res.query@ == query@
                &&& res.cluster_count == n
                &&& res.location.consistent()
                &&& exists|p: int|
                    0 <= p <= CLUSTERS_PER_PAGE - n && #[trigger] self.page_indices(
                        res.location.spec_raw() as nat,
                    ).subrange(p, p + n) == self.query_indices(query@)
            },
    {
        let state = fresh_random_state();
        let position_word = random_word(&state, 0);
        let mut fill: Vec<u64> = Vec::new();
        let mut j: usize = 0;
        while j < CLUSTERS_PER_PAGE
            invariant
                j <= CLUSTERS_PER_PAGE,
                fill@.len() == j,
            decreases CLUSTERS_PER_PAGE - j,
        {
            fill.push(random_word(&state, j as u64 + 1));
            j = j + 1;
        }
        let r = self.search_at_position(query, position_word, &fill);
        proof {
            if r is Some {
                let n = greedy_pieces(self.alphabet_view(), query@).unwrap().len();
                let p = position_word as int % (CLUSTERS_PER_PAGE - n + 1);
                lemma_placed_query(self, query@, p, fill@);
            }
        }
        r
    }

    /// The page at `seed mod M`.
    pub fn page_from_seed(&self, seed: &BigNum) -> (r: Page)
        requires
            self.wf(),
        ensures
            self.is_page_at(r, seed@ % self.engine().modulus_value()),
    {
        proof {
            vstd::arithmetic::power::lemma_pow_positive(
                self.engine().base() as int,
                CLUSTERS_PER_PAGE as nat,
            );
        }
        let (_, raw) = big_div_rem(seed, self.bijection.modulus());
        self.page_of_raw(&raw)
    }

    /// A page at a random raw address below M: four random 64-bit words,
    /// reduced modulo M.
    pub fn random_page(&self) -> (r: Page)
        requires
            self.wf(),
        ensures
            r.location.spec_raw() < self.engine().modulus_value(),
            self.is_page_at(r, r.location.spec_raw() as nat),
    {
        let state = fresh_random_state();
        let word_radix = BigNum::from_u128(0x1_0000_0000_0000_0000);
        let mut seed = BigNum::zero();
        let mut i: u64 = 0;
        while i < 4
            invariant
                i <= 4,
            decreases 4 - i,
        {
            let word = BigNum::from_u64(random_word(&state, i));
            let shifted = big_mul(&seed, &word_radix);
            seed = big_add(&shifted, &word);
            i = i + 1;
        }
        proof {
            vstd::arithmetic::power::lemma_pow_positive(
                self.engine().base() as int,
                CLUSTERS_PER_PAGE as nat,
            );
        }
        self.page_from_seed(&seed)
    }

    /// The mandira written in clusters: its `MANDIRA_DIGITS` lowest base-|Σ|
    /// digits without leading zeros (spaces).
    pub fn mandira_as_kannada(&self, mandira: &BigNum) -> (r: String)
        requires
            self.wf(),
        ensures
            r@ == concat_clusters(
                self.alphabet_view(),
                drop_leading_zeros(
                    to_digits(mandira@, self.engine().base(), MANDIRA_DIGITS as nat),
                ),
            ),
    {
        let indices = self.bijection.biguint_to_indices(mandira.copy(), MANDIRA_DIGITS);
        let n = indices.len();
        let mut start: usize = 0;
        proof {
            assert(indices@.skip(0) =~= indices@);
        }
        while start < n && indices[start] == 0
            invariant
                n == indices@.len(),
                start <= n,
                drop_leading_zeros(indices@) == drop_leading_zeros(indices@.skip(start as int)),
            decreases n - start,
        {
            proof {
                assert(indices@.skip(start as int).drop_first() =~= indices@.skip(start + 1));
            }
            start = start + 1;
        }
        let rest = slice_subrange(indices.as_slice(), start, n);
        proof {
            assert(rest@ =~= indices@.skip(start as int));
        }
        self.alphabet.indices_to_string(rest)
    }

    /// The mandira written in clusters, when it has fewer than
    /// `MANDIRA_DISPLAY_BITS` bits.
    pub fn mandira_kannada(&self, mandira: &BigNum) -> (r: Option<String>)
        requires
            self.wf(),
        ensures
            r is Some <==> mandira@ < vstd::arithmetic::power::pow(2, (MANDIRA_DISPLAY_BITS - 1) as nat),
            r matches Some(t) ==> t@ == concat_clusters(
                self.alphabet_view(),
                drop_leading_zeros(
                    to_digits(mandira@, self.engine().base(), MANDIRA_DIGITS as nat),
                ),
            ),
    {
        let bits = big_bits(mandira);
        proof {
            if bits < MANDIRA_DISPLAY_BITS {
                vstd::arithmetic::power::lemma_pow_increases(2, bits as nat, (MANDIRA_DISPLAY_BITS - 1) as nat);
            } else {
                vstd::arithmetic::power::lemma_pow_increases(2, (MANDIRA_DISPLAY_BITS - 1) as nat, (bits - 1) as nat);
            }
        }
        if bits < MANDIRA_DISPLAY_BITS {
            Some(self.mandira_as_kannada(mandira))
        } else {
            None
        }
    }

    fn format_content(&self, indices: &[usize]) -> (r: String)
        ensures
            r@ == formatted_clusters(self.alphabet_view(), indices@),
    {
        let mut formatted = String::new();
        let mut i: usize = 0;
        while i < indices.len()
            invariant
                i <= indices@.len(),
                formatted@ == formatted_clusters(self.alphabet_view(), indices@.take(i as int)),
            decreases indices@.len() - i,
        {
            proof {
                assert(indices@.take(i + 1).drop_last() =~= indices@.take(i as int));
            }
            let ghost before = formatted@;
            if i > 0 && i % CLUSTERS_PER_LINE == 0 {
                push_char(&mut formatted, '\n');
            }
            let ghost middle = formatted@;
            match self.alphabet.get(indices[i]) {
                Some(cluster) => {
                    formatted.append(cluster);
                },
                None => {},
            }
            proof {
                let alpha = self.alphabet_view();
                let idx = indices[i as int] as int;
                if i > 0 && i % CLUSTERS_PER_LINE == 0 {
                    assert(middle == before + seq!['\n']);
                } else {
                    assert(middle =~= before + Seq::<char>::empty());
                }
                if idx < alpha.len() {
                    assert(formatted@ == middle + alpha[idx]);
                } else {
                    assert(formatted@ =~= middle + Seq::<char>::empty());
                }
            }
            i = i + 1;
        }
        proof {
            assert(indices@.take(i as int) =~= indices@);
        }
        formatted
    }
}

impl Default for LibraryOfBabel {
    fn default() -> (r: Self)
        ensures
            r.wf(),
    {
        Self::new()
    }
}

/// A page is determined by its raw address: two pages at one raw address
/// have the same location fields, indices and text.
pub proof fn lemma_page_determined(lib: &LibraryOfBabel, p: Page, q: Page, raw: nat)
    requires
        lib.is_page_at(p, raw),
        lib.is_page_at(q, raw),
    ensures
        p.location.raw_hex@ == q.location.raw_hex@,
        p.location.hierarchical.mandira@ == q.location.hierarchical.mandira@,
        p.location.hierarchical.gode == q.location.hierarchical.gode,
        p.location.hierarchical.patti == q.location.hierarchical.patti,
        p.location.hierarchical.pustaka == q.location.hierarchical.pustaka,
        p.location.hierarchical.puta == q.location.hierarchical.puta,
        p.cluster_indices@ == q.cluster_indices@,
        p.content@ == q.content@,
        p.formatted_content@ == q.formatted_content@,
{
    lemma_same_raw_same_fields(p.location.hierarchical, q.location.hierarchical);
}

} // verus!
