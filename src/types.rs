//! Addresses, locations, pages and search results.

use crate::bignum::{
    is_lower_hex_char, lemma_hex_round_trip,
    big_add, big_div_rem, big_from_hex, big_mul, big_sub, big_to_hex, hex_text, hex_value,
    is_hex_chars, is_hex_string, BigNum,
};
use crate::text::{
    is_decimal_digit, lemma_decimal_round_trip,
    chars_of, copy_string, decimal_field, decimal_text, parse_bounded, push_char, push_decimal,
    string_of,
};
use vstd::slice::slice_subrange;
use crate::constants::{BOOKS_PER_SHELF, PAGES_PER_BOOK, SHELVES_PER_WALL, WALLS_PER_ROOM};
use vstd::prelude::*;

verus! {

/// The raw address of (mandira, gode, patti, pustaka, puta), mixed radix,
/// least significant last; the four small fields count from 1.
pub open spec fn raw_of(mandira: nat, gode: int, patti: int, pustaka: int, puta: int) -> int {
    (((mandira * 4 + (gode - 1)) * 5 + (patti - 1)) * 32 + (pustaka - 1)) * 410 + (puta - 1)
}

/// Hierarchical address: room, wall, shelf, book, page.
#[derive(Clone, Debug)]
pub struct HierarchicalAddress {
    /// Room (ಮಂದಿರ), unbounded.
    pub mandira: BigNum,
    /// Wall (ಗೋಡೆ), 1 to 4.
    pub gode: u8,
    /// Shelf (ಪಟ್ಟಿ), 1 to 5.
    pub patti: u8,
    /// Book (ಪುಸ್ತಕ), 1 to 32.
    pub pustaka: u8,
    /// Page (ಪುಟ), 1 to 410.
    pub puta: u16,
}

impl HierarchicalAddress {
    /// Every field is in its range.
    pub open spec fn valid(&self) -> bool {
        &&& 1 <= self.gode <= 4
        &&& 1 <= self.patti <= 5
        &&& 1 <= self.pustaka <= 32
        &&& 1 <= self.puta <= 410
    }

    /// The raw address this denotes.
    pub open spec fn spec_raw(&self) -> int {
        raw_of(
            self.mandira@,
            self.gode as int,
            self.patti as int,
            self.pustaka as int,
            self.puta as int,
        )
    }

    /// The fields are those that `raw` decomposes into.
    pub open spec fn decomposes(&self, raw: nat) -> bool {
        &&& self.puta as int == raw % 410 + 1
        &&& self.pustaka as int == (raw / 410) % 32 + 1
        &&& self.patti as int == (raw / 410 / 32) % 5 + 1
        &&& self.gode as int == (raw / 410 / 32 / 5) % 4 + 1
        &&& self.mandira@ == raw / 410 / 32 / 5 / 4
    }

    /// Decomposes a raw address.
    pub fn from_raw(raw: &BigNum) -> (r: HierarchicalAddress)
        ensures
            r.valid(),
            r.decomposes(raw@),
            r.spec_raw() == raw@,
    {
        let (rest, puta) = big_div_rem(raw, &BigNum::from_u64(PAGES_PER_BOOK as u64));
        let (rest, pustaka) = big_div_rem(&rest, &BigNum::from_u64(BOOKS_PER_SHELF as u64));
        let (rest, patti) = big_div_rem(&rest, &BigNum::from_u64(SHELVES_PER_WALL as u64));
        let (mandira, gode) = big_div_rem(&rest, &BigNum::from_u64(WALLS_PER_ROOM as u64));
        let r = HierarchicalAddress {
            mandira,
            gode: small_field(&gode, 4) as u8 + 1,
            patti: small_field(&patti, 5) as u8 + 1,
            pustaka: small_field(&pustaka, 32) as u8 + 1,
            puta: small_field(&puta, 410) as u16 + 1,
        };
        proof {
            lemma_raw_of_decomposition(raw@);
        }
        r
    }

    /// The raw address.
    pub fn to_raw(&self) -> (r: BigNum)
        requires
            self.valid(),
        ensures
            r@ == self.spec_raw(),
    {
        let mut raw = big_mul(&self.mandira, &BigNum::from_u64(WALLS_PER_ROOM as u64));
        raw = big_add(&raw, &BigNum::from_u64((self.gode - 1) as u64));
        raw = big_mul(&raw, &BigNum::from_u64(SHELVES_PER_WALL as u64));
        raw = big_add(&raw, &BigNum::from_u64((self.patti - 1) as u64));
        raw = big_mul(&raw, &BigNum::from_u64(BOOKS_PER_SHELF as u64));
        raw = big_add(&raw, &BigNum::from_u64((self.pustaka - 1) as u64));
        raw = big_mul(&raw, &BigNum::from_u64(PAGES_PER_BOOK as u64));
        raw = big_add(&raw, &BigNum::from_u64((self.puta - 1) as u64));
        raw
    }

    /// A copy of this address.
    pub fn copy(&self) -> (r: HierarchicalAddress)
        ensures
            r.mandira@ == self.mandira@,
            r.gode == self.gode,
            r.patti == self.patti,
            r.pustaka == self.pustaka,
            r.puta == self.puta,
    {
        HierarchicalAddress {
            mandira: self.mandira.copy(),
            gode: self.gode,
            patti: self.patti,
            pustaka: self.pustaka,
            puta: self.puta,
        }
    }

    /// The next page in sequence; puta carries into pustaka, patti, gode and
    /// mandira in turn.
    pub fn next(&self) -> (r: HierarchicalAddress)
        requires
            self.valid(),
        ensures
            r.valid(),
            r.spec_raw() == self.spec_raw() + 1,
    {
        let mut mandira = self.mandira.copy();
        let mut gode = self.gode;
        let mut patti = self.patti;
        let mut pustaka = self.pustaka;
        let mut puta = self.puta;

        puta = puta + 1;
        if puta > PAGES_PER_BOOK as u16 {
            puta = 1;
            pustaka = pustaka + 1;
            if pustaka > BOOKS_PER_SHELF as u8 {
                pustaka = 1;
                patti = patti + 1;
                if patti > SHELVES_PER_WALL as u8 {
                    patti = 1;
                    gode = gode + 1;
                    if gode > WALLS_PER_ROOM as u8 {
                        gode = 1;
                        mandira = big_add(&mandira, &BigNum::from_u64(1));
                    }
                }
            }
        }
        HierarchicalAddress { mandira, gode, patti, pustaka, puta }
    }

    /// The previous page in sequence, or `None` at the very first page.
    pub fn previous(&self) -> (r: Option<HierarchicalAddress>)
        requires
            self.valid(),
        ensures
            r is None <==> self.spec_raw() == 0,
            r matches Some(p) ==> p.valid() && p.spec_raw() + 1 == self.spec_raw(),
    {
        let mut mandira = self.mandira.copy();
        let mut gode = self.gode;
        let mut patti = self.patti;
        let mut pustaka = self.pustaka;
        let mut puta = self.puta;

        if puta > 1 {
            puta = puta - 1;
        } else {
            puta = PAGES_PER_BOOK as u16;
            if pustaka > 1 {
                pustaka = pustaka - 1;
            } else {
                pustaka = BOOKS_PER_SHELF as u8;
                if patti > 1 {
                    patti = patti - 1;
                } else {
                    patti = SHELVES_PER_WALL as u8;
                    if gode > 1 {
                        gode = gode - 1;
                    } else {
                        gode = WALLS_PER_ROOM as u8;
                        if mandira.is_zero() {
                            return None;
                        }
                        mandira = big_sub(&mandira, &BigNum::from_u64(1));
                    }
                }
            }
        }
        Some(HierarchicalAddress { mandira, gode, patti, pustaka, puta })
    }

    /// `<mandira_hex>.<gode>.<patti>.<pustaka>.<puta>`.
    pub fn to_display_string(&self) -> (r: String)
        ensures
            r@ == display_text(*self),
    {
        let mut s = self.mandira_hex();
        push_char(&mut s, '.');
        push_decimal(&mut s, self.gode as u64);
        push_char(&mut s, '.');
        push_decimal(&mut s, self.patti as u64);
        push_char(&mut s, '.');
        push_decimal(&mut s, self.pustaka as u64);
        push_char(&mut s, '.');
        push_decimal(&mut s, self.puta as u64);
        s
    }

    /// Parses `<mandira_hex>.<gode>.<patti>.<pustaka>.<puta>`, splitting at the
    /// last four dots; `None` when a field is malformed or out of its range.
    pub fn from_display_string(s: &str) -> (r: Option<HierarchicalAddress>)
        ensures
            r is Some <==> parse_display(s@) is Some,
            r matches Some(h) ==> h.valid() && parse_display(s@) == Some(
                (h.mandira@, h.gode as nat, h.patti as nat, h.pustaka as nat, h.puta as nat),
            ),
    {
        let chars = chars_of(s);
        let n = chars.len();
        proof {
            assert(chars@.take(n as int) =~= s@);
        }
        let b = match rsplit_bounds(chars.as_slice(), n, 4) {
            Some(b) => b,
            None => {
                return None;
            },
        };
        let ghost f = rsplit_fields(s@, 4).unwrap();
        assert(field_at(chars@, f, n, b@, 0) && field_at(chars@, f, n, b@, 1) && field_at(chars@, f, n, b@, 2) && field_at(chars@, f, n, b@, 3) && field_at(chars@, f, n, b@, 4));
        assert(f[0] == chars@.subrange(b@[0].0 as int, b@[0].1 as int));
        assert(f[1] == chars@.subrange(b@[1].0 as int, b@[1].1 as int));
        assert(f[2] == chars@.subrange(b@[2].0 as int, b@[2].1 as int));
        assert(f[3] == chars@.subrange(b@[3].0 as int, b@[3].1 as int));
        assert(f[4] == chars@.subrange(b@[4].0 as int, b@[4].1 as int));
        let puta = parse_bounded(slice_subrange(chars.as_slice(), b[4].0, b[4].1), 410);
        let pustaka = parse_bounded(slice_subrange(chars.as_slice(), b[3].0, b[3].1), 32);
        let patti = parse_bounded(slice_subrange(chars.as_slice(), b[2].0, b[2].1), 5);
        let gode = parse_bounded(slice_subrange(chars.as_slice(), b[1].0, b[1].1), 4);
        let mandira_chars = slice_subrange(chars.as_slice(), b[0].0, b[0].1);
        match (gode, patti, pustaka, puta) {
            (Some(g), Some(p), Some(k), Some(t)) => {
                if !is_hex_chars(mandira_chars) {
                    return None;
                }
                let text = string_of(mandira_chars);
                let mandira = match big_from_hex(text.as_str()) {
                    Some(m) => m,
                    None => {
                        return None;
                    },
                };
                Some(
                    HierarchicalAddress {
                        mandira,
                        gode: g as u8,
                        patti: p as u8,
                        pustaka: k as u8,
                        puta: t as u16,
                    },
                )
            },
            _ => None,
        }
    }

    /// The mandira in lowercase hexadecimal; `"0"` for zero.
    pub fn mandira_hex(&self) -> (r: String)
        ensures
            r@ == hex_text(self.mandira@),
    {
        big_to_hex(&self.mandira)
    }
}


/// A location: raw address in hexadecimal, and its hierarchical form.
#[derive(Clone, Debug)]
pub struct Location {
    /// Lowercase hexadecimal of the raw address; `"0"` for zero.
    pub raw_hex: String,
    /// The same address, hierarchically.
    pub hierarchical: HierarchicalAddress,
}

impl Location {
    /// The raw address.
    pub open spec fn spec_raw(&self) -> int {
        self.hierarchical.spec_raw()
    }

    /// The two forms agree and the fields are in range.
    pub open spec fn consistent(&self) -> bool {
        &&& self.hierarchical.valid()
        &&& self.raw_hex@ == hex_text(self.spec_raw() as nat)
    }

    /// The location of a raw address.
    pub fn from_raw_address(raw: &BigNum) -> (r: Location)
        ensures
            r.consistent(),
            r.hierarchical.decomposes(raw@),
            r.spec_raw() == raw@,
    {
        let raw_hex = big_to_hex(raw);
        let hierarchical = HierarchicalAddress::from_raw(raw);
        Location { raw_hex, hierarchical }
    }

    /// The location of a hexadecimal raw address (either case); `None` unless
    /// `hex` is a non-empty run of hexadecimal digits.
    pub fn from_hex(hex: &str) -> (r: Option<Location>)
        ensures
            r is Some <==> is_hex_string(hex@),
            r matches Some(l) ==> l.consistent() && l.spec_raw() == hex_value(hex@),
    {
        let chars = chars_of(hex);
        if !is_hex_chars(chars.as_slice()) {
            return None;
        }
        match big_from_hex(hex) {
            Some(raw) => Some(Location::from_raw_address(&raw)),
            None => None,
        }
    }

    /// The location of a hierarchical address.
    pub fn from_hierarchical(h: HierarchicalAddress) -> (r: Location)
        requires
            h.valid(),
        ensures
            r.consistent(),
            r.spec_raw() == h.spec_raw(),
            r.hierarchical.mandira@ == h.mandira@,
            r.hierarchical.gode == h.gode,
            r.hierarchical.patti == h.patti,
            r.hierarchical.pustaka == h.pustaka,
            r.hierarchical.puta == h.puta,
    {
        let raw = h.to_raw();
        proof {
            lemma_hierarchical_round_trip(h);
        }
        Location::from_raw_address(&raw)
    }

    /// The raw address.
    pub fn to_raw(&self) -> (r: BigNum)
        requires
            self.hierarchical.valid(),
        ensures
            r@ == self.spec_raw(),
    {
        self.hierarchical.to_raw()
    }

    /// The next page's location.
    pub fn next(&self) -> (r: Location)
        requires
            self.hierarchical.valid(),
        ensures
            r.consistent(),
            r.spec_raw() == self.spec_raw() + 1,
    {
        let next_h = self.hierarchical.next();
        Location::from_hierarchical(next_h)
    }

    /// The previous page's location, or `None` at the first page.
    pub fn previous(&self) -> (r: Option<Location>)
        requires
            self.hierarchical.valid(),
        ensures
            r is None <==> self.spec_raw() == 0,
            r matches Some(p) ==> p.consistent() && p.spec_raw() + 1 == self.spec_raw(),
    {
        match self.hierarchical.previous() {
            Some(h) => Some(Location::from_hierarchical(h)),
            None => None,
        }
    }

    /// A copy of this location.
    pub fn copy(&self) -> (r: Location)
        ensures
            r.raw_hex@ == self.raw_hex@,
            r.hierarchical.mandira@ == self.hierarchical.mandira@,
            r.hierarchical.gode == self.hierarchical.gode,
            r.hierarchical.patti == self.hierarchical.patti,
            r.hierarchical.pustaka == self.hierarchical.pustaka,
            r.hierarchical.puta == self.hierarchical.puta,
    {
        Location { raw_hex: copy_string(&self.raw_hex), hierarchical: self.hierarchical.copy() }
    }
}

/// A page of the library.
#[derive(Clone, Debug)]
pub struct Page {
    /// Where the page is.
    pub location: Location,
    /// The page's clusters, concatenated.
    pub content: String,
    /// The content with a newline after every line of clusters.
    pub formatted_content: String,
    /// The index in Σ of each cluster of the page.
    pub cluster_indices: Vec<usize>,
}

/// The result of a search.
#[derive(Clone, Debug)]
pub struct SearchResult {
    /// The text searched for.
    pub query: String,
    /// A location whose page holds the text.
    pub location: Location,
    /// The number of clusters of the text.
    pub cluster_count: usize,
}

/// Index of the last `.` in `s`, or -1.
pub open spec fn last_dot(s: Seq<char>) -> int
    decreases s.len(),
{
    if s.len() == 0 {
        -1
    } else if s.last() == '.' {
        s.len() - 1
    } else {
        last_dot(s.drop_last())
    }
}

proof fn lemma_last_dot_range(s: Seq<char>)
    ensures
        -1 <= last_dot(s) < s.len(),
        last_dot(s) >= 0 ==> s[last_dot(s)] == '.',
    decreases s.len(),
{
    if s.len() > 0 && s.last() != '.' {
        lemma_last_dot_range(s.drop_last());
    }
}

/// `s` split at its last `k` dots, searching from the right: `k + 1` fields
/// in text order, of which the first may hold dots. `None` with fewer dots.
pub open spec fn rsplit_fields(s: Seq<char>, k: nat) -> Option<Seq<Seq<char>>>
    decreases k,
{
    if k == 0 {
        Some(seq![s])
    } else {
        let d = last_dot(s);
        if d < 0 {
            None
        } else {
            match rsplit_fields(s.take(d), (k - 1) as nat) {
                Some(f) => Some(f.push(s.skip(d + 1))),
                None => None,
            }
        }
    }
}

/// The fields of a display string `<mandira_hex>.<gode>.<patti>.<pustaka>.<puta>`,
/// each in its range: (mandira, gode, patti, pustaka, puta).
pub open spec fn parse_display(s: Seq<char>) -> Option<(nat, nat, nat, nat, nat)> {
    match rsplit_fields(s, 4) {
        Some(f) => match (
            decimal_field(f[1]),
            decimal_field(f[2]),
            decimal_field(f[3]),
            decimal_field(f[4]),
        ) {
            (Some(g), Some(p), Some(b), Some(t)) => if is_hex_string(f[0]) && 1 <= g <= 4 && 1 <= p
                <= 5 && 1 <= b <= 32 && 1 <= t <= 410 {
                Some((hex_value(f[0]), g, p, b, t))
            } else {
                None
            },
            _ => None,
        },
        None => None,
    }
}

/// The display text of an address.
pub open spec fn display_text(h: HierarchicalAddress) -> Seq<char> {
    hex_text(h.mandira@) + seq!['.'] + decimal_text(h.gode as nat) + seq!['.'] + decimal_text(
        h.patti as nat,
    ) + seq!['.'] + decimal_text(h.pustaka as nat) + seq!['.'] + decimal_text(h.puta as nat)
}

/// The last `.` before `end`.
fn last_dot_before(s: &[char], end: usize) -> (r: Option<usize>)
    requires
        end <= s@.len(),
    ensures
        r == (if last_dot(s@.take(end as int)) < 0 {
            None
        } else {
            Some(last_dot(s@.take(end as int)) as usize)
        }),
{
    let mut i = end;
    while i > 0
        invariant
            i <= end <= s@.len(),
            last_dot(s@.take(end as int)) == last_dot(s@.take(i as int)),
        decreases i,
    {
        assert(s@.take(i as int).drop_last() =~= s@.take(i - 1));
        if s[i - 1] == '.' {
            return Some(i - 1);
        }
        i = i - 1;
    }
    None
}

/// `b` holds the bounds of the fields of `s[..end]` split at its last `k` dots.
pub(crate) open spec fn bounds_of_fields(s: Seq<char>, end: usize, k: usize, b: Seq<(usize, usize)>) -> bool {
    let f = rsplit_fields(s.take(end as int), k as nat).unwrap();
    &&& b.len() == k + 1
    &&& f.len() == k + 1
    &&& forall|j: int| 0 <= j <= k ==> field_at(s, f, end, b, j)
}

/// Field `j` of `f` lies at its bounds in `b`.
pub(crate) open spec fn field_at(s: Seq<char>, f: Seq<Seq<char>>, end: usize, b: Seq<(usize, usize)>, j: int) -> bool {
    b[j].0 <= b[j].1 <= end && f[j] == s.subrange(b[j].0 as int, b[j].1 as int)
}

/// Split of `s[..end]` at its last `k` dots, as the bounds of each field.
#[verifier::spinoff_prover]
pub(crate) fn rsplit_bounds(s: &[char], end: usize, k: usize) -> (r: Option<Vec<(usize, usize)>>)
    requires
        end <= s@.len(),
    ensures
        r is Some <==> rsplit_fields(s@.take(end as int), k as nat) is Some,
        r matches Some(b) ==> bounds_of_fields(s@, end, k, b@),
    decreases k,
{
    if k == 0 {
        let v = vec![(0, end)];
        proof {
            assert(s@.take(end as int) =~= s@.subrange(0, end as int));
            assert(v@[0] == (0usize, end));
            assert(field_at(s@, seq![s@.take(end as int)], end, v@, 0));
            assert(bounds_of_fields(s@, end, k, v@));
        }
        return Some(v);
    }
    match last_dot_before(s, end) {
        None => None,
        Some(d) => {
            proof {
                lemma_last_dot_range(s@.take(end as int));
                assert(s@.take(end as int).take(d as int) =~= s@.take(d as int));
                assert(s@.take(end as int).skip(d + 1) =~= s@.subrange(d + 1, end as int));
            }
            match rsplit_bounds(s, d, k - 1) {
                None => None,
                Some(b0) => {
                    let mut b = b0;
                    b.push((d + 1, end));
                    proof {
                        let f = rsplit_fields(s@.take(end as int), k as nat).unwrap();
                        let f1 = rsplit_fields(s@.take(d as int), (k - 1) as nat).unwrap();
                        assert(f == f1.push(s@.subrange(d + 1, end as int)));
                        assert forall|j: int| 0 <= j <= k implies field_at(s@, f, end, b@, j) by {
                            if j < k {
                                assert(b@[j] == b0@[j]);
                                assert(field_at(s@, f1, d, b0@, j));
                                assert(f[j] == f1[j]);
                            } else {
                                assert(b@[j].0 == d + 1 && b@[j].1 == end);
                            }
                        }
                    }
                    Some(b)
                },
            }
        },
    }
}

/// The value of a number known to be below `bound`, which fits in 64 bits.
fn small_field(n: &BigNum, bound: u64) -> (r: u64)
    requires
        n@ < bound,
    ensures
        r == n@,
{
    match n.to_u64() {
        Some(v) => v,
        None => 0,
    }
}

/// A raw address is the raw address of its decomposition.
proof fn lemma_raw_of_decomposition(raw: nat)
    ensures
        raw_of(
            raw / 410 / 32 / 5 / 4,
            ((raw / 410 / 32 / 5) % 4 + 1) as int,
            ((raw / 410 / 32) % 5 + 1) as int,
            ((raw / 410) % 32 + 1) as int,
            (raw % 410 + 1) as int,
        ) == raw,
{
    let q1 = raw / 410;
    let q2 = q1 / 32;
    let q3 = q2 / 5;
    let q4 = q3 / 4;
    assert(raw == q1 * 410 + raw % 410);
    assert(q1 == q2 * 32 + q1 % 32);
    assert(q2 == q3 * 5 + q2 % 5);
    assert(q3 == q4 * 4 + q3 % 4);
}

/// Decomposing the raw address of valid fields gives the fields back, so
/// hierarchical and raw addresses are in one-to-one correspondence.
pub proof fn lemma_hierarchical_round_trip(h: HierarchicalAddress)
    requires
        h.valid(),
    ensures
        h.spec_raw() >= 0,
        h.decomposes(h.spec_raw() as nat),
{
    let m = h.mandira@;
    let (g, p, b, t) = (h.gode as int - 1, h.patti as int - 1, h.pustaka as int - 1, h.puta as int - 1);
    let x3 = m * 4 + g;
    let x2 = x3 * 5 + p;
    let x1 = x2 * 32 + b;
    let raw = x1 * 410 + t;
    vstd::arithmetic::div_mod::lemma_fundamental_div_mod_converse(raw, 410, x1, t);
    vstd::arithmetic::div_mod::lemma_fundamental_div_mod_converse(x1, 32, x2, b);
    vstd::arithmetic::div_mod::lemma_fundamental_div_mod_converse(x2, 5, x3, p);
    vstd::arithmetic::div_mod::lemma_fundamental_div_mod_converse(x3, 4, m as int, g);
}

/// Two valid addresses with the same raw address have the same fields.
pub proof fn lemma_same_raw_same_fields(a: HierarchicalAddress, b: HierarchicalAddress)
    requires
        a.valid(),
        b.valid(),
        a.spec_raw() == b.spec_raw(),
    ensures
        a.mandira@ == b.mandira@,
        a.gode == b.gode,
        a.patti == b.patti,
        a.pustaka == b.pustaka,
        a.puta == b.puta,
{
    lemma_hierarchical_round_trip(a);
    lemma_hierarchical_round_trip(b);
}

/// The hexadecimal form of a consistent location is lowercase, has no
/// leading zero unless it is `"0"`, and `Location::from_hex` reads it back
/// as the same raw address, hence the same fields.
pub proof fn lemma_location_hex_round_trip(l: Location)
    requires
        l.consistent(),
    ensures
        is_hex_string(l.raw_hex@),
        hex_value(l.raw_hex@) == l.spec_raw(),
        forall|i: int| 0 <= i < l.raw_hex@.len() ==> is_lower_hex_char(#[trigger] l.raw_hex@[i]),
        l.raw_hex@[0] == '0' ==> l.raw_hex@ == seq!['0'],
{
    lemma_hierarchical_round_trip(l.hierarchical);
    lemma_hex_round_trip(l.spec_raw() as nat);
    if l.raw_hex@[0] == '0' {
        assert(l.raw_hex@ =~= seq!['0']);
    }
}

/// Appending characters other than `.` leaves the last dot where it was.
proof fn lemma_last_dot_append(x: Seq<char>, y: Seq<char>)
    requires
        !y.contains('.'),
    ensures
        last_dot(x + y) == last_dot(x),
    decreases y.len(),
{
    if y.len() == 0 {
        assert(x + y =~= x);
    } else {
        let z = x + y;
        assert(z.drop_last() =~= x + y.drop_last());
        assert(z.last() == y[y.len() - 1]);
        lemma_last_dot_append(x, y.drop_last());
    }
}

/// `x.y`, with no dot in `y`, splits at its last dot into `x` and `y`.
proof fn lemma_split_last_field(x: Seq<char>, y: Seq<char>)
    requires
        !y.contains('.'),
    ensures
        last_dot(x + seq!['.'] + y) == x.len(),
        (x + seq!['.'] + y).take(x.len() as int) == x,
        (x + seq!['.'] + y).skip(x.len() as int + 1) == y,
{
    let d = x + seq!['.'];
    lemma_last_dot_append(d, y);
    assert(d.last() == '.');
    assert((x + seq!['.'] + y).take(x.len() as int) =~= x);
    assert((x + seq!['.'] + y).skip(x.len() as int + 1) =~= y);
}

/// Decimal text holds no dot.
proof fn lemma_decimal_no_dot(n: nat)
    ensures
        !decimal_text(n).contains('.'),
{
    lemma_decimal_round_trip(n);
    if decimal_text(n).contains('.') {
        let i = choose|i: int| 0 <= i < decimal_text(n).len() && decimal_text(n)[i] == '.';
        assert(is_decimal_digit(decimal_text(n)[i]));
    }
}

/// The display text of a valid address parses back to its fields.
pub proof fn lemma_display_round_trip(h: HierarchicalAddress)
    requires
        h.valid(),
    ensures
        parse_display(display_text(h)) == Some(
            (h.mandira@, h.gode as nat, h.patti as nat, h.pustaka as nat, h.puta as nat),
        ),
{
    let a = hex_text(h.mandira@);
    let g = decimal_text(h.gode as nat);
    let p = decimal_text(h.patti as nat);
    let b = decimal_text(h.pustaka as nat);
    let t = decimal_text(h.puta as nat);
    lemma_decimal_no_dot(h.gode as nat);
    lemma_decimal_no_dot(h.patti as nat);
    lemma_decimal_no_dot(h.pustaka as nat);
    lemma_decimal_no_dot(h.puta as nat);
    lemma_decimal_round_trip(h.gode as nat);
    lemma_decimal_round_trip(h.patti as nat);
    lemma_decimal_round_trip(h.pustaka as nat);
    lemma_decimal_round_trip(h.puta as nat);
    lemma_hex_round_trip(h.mandira@);
    let s3 = a + seq!['.'] + g;
    let s2 = s3 + seq!['.'] + p;
    let s1 = s2 + seq!['.'] + b;
    let s0 = s1 + seq!['.'] + t;
    assert(s0 == display_text(h));
    lemma_split_last_field(s1, t);
    lemma_split_last_field(s2, b);
    lemma_split_last_field(s3, p);
    lemma_split_last_field(a, g);
    assert(rsplit_fields(a, 0) == Some(seq![a]));
    assert(rsplit_fields(s3, 1) == Some(seq![a].push(g)));
    assert(rsplit_fields(s2, 2) == Some(seq![a].push(g).push(p)));
    assert(rsplit_fields(s1, 3) == Some(seq![a].push(g).push(p).push(b)));
    assert(rsplit_fields(s0, 4) == Some(seq![a].push(g).push(p).push(b).push(t)));
    let f = seq![a].push(g).push(p).push(b).push(t);
    assert(f[0] == a && f[1] == g && f[2] == p && f[3] == b && f[4] == t);
}

} // verus!
