use vstd::prelude::*;
use crate::partial_key::{extract_partial_key, infix_of, lemma_infix_monotone};
use crate::bitmap::{
    bits_of, clear_bit, get_bit, has_bits_in_range, lemma_ones_before_mono, rank_cached,
    lemma_select_unique, ones_before, rank, select, set_bit, word_bit, low_mask,
    lemma_word_nonzero, WORD_BITS,
};

verus! {

/// Number of quotient bits of an infix; `2^QUOTIENT_SIZE` quotients share one store.
pub const QUOTIENT_SIZE: u8 = 10;

/// Number of possible quotients, the width of the occupieds bitmap.
pub const TARGET_SIZE: usize = 1024;

/// Number of size grades.
pub const SIZE_GRADE_COUNT: usize = 31;

/// Largest remainder width, so that an infix fits in 63 bits.
pub const MAX_REMAINDER_SIZE: u8 = 53;

/// Words of the occupieds bitmap.
const OCCUPIEDS_WORDS: usize = 16;

/// Slot capacity of each size grade; grade 14 holds the target bracket size.
pub open spec fn capacity(grade: int) -> int {
    if grade == 0 {
        463
    } else if grade == 1 {
        488
    } else if grade == 2 {
        514
    } else if grade == 3 {
        541
    } else if grade == 4 {
        570
    } else if grade == 5 {
        600
    } else if grade == 6 {
        632
    } else if grade == 7 {
        666
    } else if grade == 8 {
        701
    } else if grade == 9 {
        738
    } else if grade == 10 {
        777
    } else if grade == 11 {
        818
    } else if grade == 12 {
        861
    } else if grade == 13 {
        907
    } else if grade == 14 {
        1024
    } else if grade == 15 {
        1078
    } else if grade == 16 {
        1135
    } else if grade == 17 {
        1195
    } else if grade == 18 {
        1258
    } else if grade == 19 {
        1325
    } else if grade == 20 {
        1395
    } else if grade == 21 {
        1469
    } else if grade == 22 {
        1547
    } else if grade == 23 {
        1629
    } else if grade == 24 {
        1715
    } else if grade == 25 {
        1806
    } else if grade == 26 {
        1901
    } else if grade == 27 {
        2002
    } else if grade == 28 {
        2108
    } else if grade == 29 {
        2219
    } else {
        2326
    }
}

pub proof fn lemma_capacity_bounds(grade: int)
    requires
        0 <= grade < 31,
    ensures
        463 <= capacity(grade) <= 2326,
        grade > 0 ==> capacity(grade - 1) < capacity(grade),
{
}

pub proof fn lemma_capacity_mono(g1: int, g2: int)
    requires
        0 <= g1 <= g2 < 31,
    ensures
        capacity(g1) <= capacity(g2),
        g1 < g2 ==> capacity(g1) < capacity(g2),
    decreases g2 - g1,
{
    if g1 < g2 {
        lemma_capacity_mono(g1, g2 - 1);
        lemma_capacity_bounds(g2);
    }
}

/// Slot capacity of `grade`.
pub fn scaled_size(grade: u8) -> (r: usize)
    requires
        grade < 31,
    ensures
        r == capacity(grade as int),
        463 <= r <= 2326,
{
    match grade {
        0 => 463,
        1 => 488,
        2 => 514,
        3 => 541,
        4 => 570,
        5 => 600,
        6 => 632,
        7 => 666,
        8 => 701,
        9 => 738,
        10 => 777,
        11 => 818,
        12 => 861,
        13 => 907,
        14 => 1024,
        15 => 1078,
        16 => 1135,
        17 => 1195,
        18 => 1258,
        19 => 1325,
        20 => 1395,
        21 => 1469,
        22 => 1547,
        23 => 1629,
        24 => 1715,
        25 => 1806,
        26 => 1901,
        27 => 2002,
        28 => 2108,
        29 => 2219,
        _ => 2326,
    }
}

/// Number of words that hold `bits` bits.
pub open spec fn words_for(bits: int) -> int {
    (bits + 63) / 64
}

/// The infix `x` cut to its quotient and remainder bits.
pub open spec fn canonical(x: u64, r: u64) -> u64 {
    x & low_mask((10 + r) as u64)
}

/// Quotient of a canonical infix.
pub open spec fn quot(c: u64, r: u64) -> u64 {
    c >> r
}

/// Remainder of an infix.
pub open spec fn rem(c: u64, r: u64) -> u64 {
    c & low_mask(r)
}

pub open spec fn strictly_sorted(s: Seq<u64>) -> bool {
    forall|i: int, j: int| 0 <= i < j < s.len() ==> s[i] < s[j]
}

/// Whether position `i` of the sorted infixes `s` is the last one of its quotient.
pub open spec fn is_run_end(s: Seq<u64>, r: u64, i: int) -> bool {
    i == s.len() - 1 || quot(s[i], r) != quot(s[i + 1], r)
}

/// Whether some infix of `s` has quotient `q`.
pub open spec fn has_quotient(s: Seq<u64>, r: u64, q: int) -> bool {
    exists|i: int| 0 <= i < s.len() && quot(s[i], r) == q
}

/// Bit `t` of slot `i` in the packed slot bitmap `sb`, for slots of `r` bits.
pub open spec fn slot_bit(sb: Seq<bool>, r: nat, i: int, t: int) -> bool {
    sb[i * r + t]
}

/// The packed layout that holds the sorted infixes `s`: occupieds bit `q` tells whether
/// quotient `q` is used, runends bit `p` whether slot `p` ends a run, and slot `i` holds
/// the remainder of `s[i]`.
pub open spec fn layout_holds(
    ob: Seq<bool>,
    rb: Seq<bool>,
    sb: Seq<bool>,
    r: u64,
    cap: int,
    s: Seq<u64>,
) -> bool {
    &&& r <= 53
    &&& ob.len() == 1024
    &&& rb.len() >= cap
    &&& sb.len() >= cap * r
    &&& s.len() <= cap
    &&& strictly_sorted(s)
    &&& forall|i: int| 0 <= i < s.len() ==> quot(#[trigger] s[i], r) < 1024
    &&& forall|i: int, t: int|
        0 <= i < s.len() && 0 <= t < r ==> #[trigger] slot_bit(sb, r as nat, i, t) == word_bit(
            s[i],
            t as u64,
        )
    &&& forall|p: int| 0 <= p < rb.len() ==> #[trigger] rb[p] == (p < s.len() && is_run_end(s, r, p))
    &&& forall|q: int| 0 <= q < 1024 ==> #[trigger] ob[q] == has_quotient(s, r, q)
}

/// Number of quotients below `q` used by some infix of `s`.
pub open spec fn count_quotients(s: Seq<u64>, r: u64, q: int) -> nat
    decreases q,
{
    if q <= 0 {
        0
    } else {
        count_quotients(s, r, q - 1) + if has_quotient(s, r, q - 1) {
            1nat
        } else {
            0nat
        }
    }
}

/// A per-bracket succinct quotient filter. Infixes (quotient followed by remainder) are
/// kept sorted and packed: remainders fill the slots from slot 0 without gaps, runs of
/// one quotient are marked in `runends`, and the quotients in use in `occupieds`.
pub struct InfixStore {
    elem_count: u16,
    size_grade: u8,
    remainder_size: u8,
    quotient_size: u8,
    /// Set bits in the first half of occupieds (high 32 bits) and of runends (low 32 bits).
    popcounts: u64,
    occupieds: Vec<u64>,
    runends: Vec<u64>,
    slots: Vec<u64>,
    contents: Ghost<Seq<u64>>,
}

impl View for InfixStore {
    type V = Seq<u64>;

    /// The stored infixes, in ascending order.
    closed spec fn view(&self) -> Seq<u64> {
        self.contents@
    }
}

impl InfixStore {
    /// Remainder width of the store.
    pub closed spec fn spec_remainder_size(&self) -> u64 {
        self.remainder_size as u64
    }

    /// Size grade of the store.
    pub closed spec fn spec_size_grade(&self) -> int {
        self.size_grade as int
    }

    pub closed spec fn wf(&self) -> bool {
        &&& self.quotient_size == 10
        &&& self.size_grade < 31
        &&& self.occupieds@.len() == 16
        &&& self.runends@.len() == words_for(capacity(self.size_grade as int))
        &&& self.slots@.len() == words_for(capacity(self.size_grade as int) * self.remainder_size)
        &&& self.elem_count == self.contents@.len()
        &&& self.popcounts >> 32 == ones_before(bits_of(self.occupieds@), 512)
        &&& self.popcounts & 0xffff_ffff == ones_before(
            bits_of(self.runends@),
            capacity(self.size_grade as int) / 2,
        )
        &&& layout_holds(
            bits_of(self.occupieds@),
            bits_of(self.runends@),
            bits_of(self.slots@),
            self.remainder_size as u64,
            capacity(self.size_grade as int),
            self.contents@,
        )
    }

    /// The occupieds bitmap: bit `q` tells whether quotient `q` is in use.
    pub closed spec fn occupied_bits(&self) -> Seq<bool> {
        bits_of(self.occupieds@)
    }

    /// The runends bitmap: bit `p` tells whether slot `p` ends a run.
    pub closed spec fn runend_bits(&self) -> Seq<bool> {
        bits_of(self.runends@)
    }

    /// The observable state of `other` is that of `self`: contents, remainder width and
    /// size grade.
    pub open spec fn same_state(&self, other: &InfixStore) -> bool {
        &&& self@ == other@
        &&& self.spec_remainder_size() == other.spec_remainder_size()
        &&& self.spec_size_grade() == other.spec_size_grade()
    }

    /// Layout consistency: in a well-formed store, the set bits of occupieds and of runends
    /// both count the distinct quotients stored, and the infixes fit the slots.
    pub proof fn lemma_layout_consistent(&self)
        requires
            self.wf(),
        ensures
            ones_before(self.occupied_bits(), 1024) == count_quotients(
                self@,
                self.spec_remainder_size(),
                1024,
            ),
            ones_before(self.runend_bits(), self.runend_bits().len() as int) == count_quotients(
                self@,
                self.spec_remainder_size(),
                1024,
            ),
            self@.len() <= capacity(self.spec_size_grade()),
    {
        let s = self.contents@;
        let r = self.remainder_size as u64;
        let ob = bits_of(self.occupieds@);
        let rb = bits_of(self.runends@);
        lemma_ones_count_quotients(ob, s, r, 1024);
        lemma_rank_occupieds(ob, rb, bits_of(self.slots@), r, capacity(self.size_grade as int), s, 1024, s.len() as int);
        lemma_no_ones(rb, s.len() as int, rb.len() as int);
    }

    /// A resize up followed by a resize down gives back the observable state: the same
    /// contents, remainder width and size grade.
    pub proof fn lemma_resize_round_trip(a: &InfixStore, b: &InfixStore, c: &InfixStore)
        requires
            a.wf(),
            b@ == a@ && b.spec_remainder_size() == a.spec_remainder_size() && b.spec_size_grade()
                == a.spec_size_grade() + 1,
            c@ == b@ && c.spec_remainder_size() == b.spec_remainder_size() && c.spec_size_grade()
                == b.spec_size_grade() - 1,
        ensures
            c.same_state(a),
    {
    }

    /// What a well-formed store promises of its contents.
    pub proof fn lemma_wf(&self)
        requires
            self.wf(),
        ensures
            strictly_sorted(self@),
            self.spec_remainder_size() <= 53,
            0 <= self.spec_size_grade() < 31,
            self@.len() <= capacity(self.spec_size_grade()),
            forall|i: int|
                0 <= i < self@.len() ==> #[trigger] self@[i] == canonical(
                    self@[i],
                    self.spec_remainder_size(),
                ),
    {
        assert forall|i: int| 0 <= i < self@.len() implies #[trigger] self@[i] == canonical(
            self@[i],
            self.spec_remainder_size(),
        ) by {
            lemma_canonical_of_small(self@[i], self.spec_remainder_size());
        }
    }
}

proof fn lemma_canonical_of_small(c: u64, r: u64)
    requires
        r <= 53,
        quot(c, r) < 1024,
    ensures
        canonical(c, r) == c,
{
    assert((c >> r) < 1024u64 ==> c & (((1u64 << ((10 + r) as u64)) - 1u64) as u64) == c)
        by (bit_vector)
        requires
            r <= 53,
    ;
}

proof fn lemma_slot_in_range(i: int, t: int, r: int, n: int)
    requires
        0 <= i < n,
        0 <= t < r,
    ensures
        0 <= i * r + t < n * r,
        i * r <= i * r + t < i * r + r,
{
    assert(i * r + t < n * r) by (nonlinear_arith)
        requires
            0 <= i < n,
            0 <= t < r,
    ;
    assert(0 <= i * r) by (nonlinear_arith)
        requires
            0 <= i,
            0 <= r,
    ;
}

/// Bits of two different slots never overlap.
proof fn lemma_slots_disjoint(i: int, j: int, t: int, r: int)
    requires
        0 <= i,
        0 <= j,
        i != j,
        0 <= t < r,
    ensures
        !(i * r <= j * r + t < i * r + r),
{
    if j < i {
        assert(j * r + t < i * r) by (nonlinear_arith)
            requires
                0 <= j < i,
                0 <= t < r,
        ;
    } else {
        assert(i * r + r <= j * r) by (nonlinear_arith)
            requires
                0 <= i < j,
                0 <= r,
        ;
    }
}

/// The popcounts cache word: set bits in the first half of the occupieds bitmap (high
/// 32 bits) and in the first half of the `num_slots` runend bits (low 32 bits).
fn compute_popcounts(occupieds: &Vec<u64>, runends: &Vec<u64>, num_slots: usize) -> (p: u64)
    requires
        occupieds@.len() == 16,
        num_slots <= 2326,
        num_slots <= runends@.len() * 64,
    ensures
        p >> 32 == ones_before(bits_of(occupieds@), 512),
        p & 0xffff_ffff == ones_before(bits_of(runends@), (num_slots / 2) as int),
{
    let occupieds_popcount = rank(occupieds, TARGET_SIZE / 2) as u64;
    let runends_popcount = rank(runends, num_slots / 2) as u64;
    proof {
        crate::bitmap::lemma_ones_before_bound(bits_of(occupieds@), 512);
        crate::bitmap::lemma_ones_before_bound(bits_of(runends@), (num_slots / 2) as int);
        let a = occupieds_popcount;
        let b = runends_popcount;
        assert(((a << 32u64) | b) >> 32u64 == a && ((a << 32u64) | b) & 0xffff_ffffu64 == b)
            by (bit_vector)
            requires
                a <= 512,
                b <= 2326,
        ;
    }
    (occupieds_popcount << 32) | runends_popcount
}

/// A vector of `len` zero words.
fn zeroed_words(len: usize) -> (v: Vec<u64>)
    ensures
        v@.len() == len,
        forall|i: int| 0 <= i < len ==> v@[i] == 0,
        forall|p: int| 0 <= p < bits_of(v@).len() ==> !#[trigger] bits_of(v@)[p],
{
    let mut v: Vec<u64> = Vec::with_capacity(len);
    let mut i: usize = 0;
    while i < len
        invariant
            i <= len,
            v@.len() == i,
            forall|k: int| 0 <= k < i ==> v@[k] == 0,
        decreases len - i,
    {
        v.push(0);
        i = i + 1;
    }
    assert forall|p: int| 0 <= p < bits_of(v@).len() implies !#[trigger] bits_of(v@)[p] by {
        let w = v@[p / 64];
        assert(w == 0);
        let j = (p % 64) as u64;
        assert((0u64 >> j) & 1u64 == 0u64) by (bit_vector);
    }
    v
}

/// Read the `r`-bit remainder held in slot `i` of the packed slot words.
fn read_slot_bits(slots: &Vec<u64>, r: u8, i: usize) -> (v: u64)
    requires
        r < 64,
        (i + 1) * r <= slots@.len() * 64,
        slots@.len() * 64 <= usize::MAX,
    ensures
        forall|k: u64|
            k < 64 ==> #[trigger] word_bit(v, k) == (k < r && slot_bit(
                bits_of(slots@),
                r as nat,
                i as int,
                k as int,
            )),
{
    let ghost sb = bits_of(slots@);
    proof {
        assert((i + 1) * r == i * r + r) by (nonlinear_arith);
    }
    let base = i * (r as usize);
    let mut result: u64 = 0;
    let mut t: usize = 0;
    proof {
        assert forall|k: u64| k < 64 implies !#[trigger] word_bit(0u64, k) by {
            assert((0u64 >> k) & 1u64 == 0u64) by (bit_vector);
        }
        assert((i + 1) * r == i * r + r) by (nonlinear_arith);
    }
    while t < r as usize
        invariant
            t <= r,
            r < 64,
            base == i * r,
            base + r <= slots@.len() * 64,
            slots@.len() * 64 <= usize::MAX,
            sb == bits_of(slots@),
            forall|k: u64|
                k < 64 ==> #[trigger] word_bit(result, k) == (k < t && slot_bit(
                    sb,
                    r as nat,
                    i as int,
                    k as int,
                )),
        decreases r - t,
    {
        let b = get_bit(slots, base + t);
        let ghost old_result = result;
        if b {
            result = result | (1u64 << (t as u64));
        }
        proof {
            assert forall|k: u64| k < 64 implies #[trigger] word_bit(result, k) == (k < t + 1
                && slot_bit(sb, r as nat, i as int, k as int)) by {
                crate::bitmap::lemma_or_bit(old_result, t as u64, k);
            }
        }
        t = t + 1;
    }
    result
}

/// Write the low `r` bits of `value` into slot `i` of the packed slot words.
fn write_slot(slots: &mut Vec<u64>, i: usize, value: u64, r: u8)
    requires
        r < 64,
        (i + 1) * r <= old(slots)@.len() * 64,
        old(slots)@.len() * 64 <= usize::MAX,
    ensures
        final(slots)@.len() == old(slots)@.len(),
        forall|p: int|
            0 <= p < bits_of(final(slots)@).len() ==> #[trigger] bits_of(final(slots)@)[p] == if i
                * r <= p < i * r + r {
                word_bit(value, (p - i * r) as u64)
            } else {
                bits_of(old(slots)@)[p]
            },
{
    let ghost ob = bits_of(slots@);
    proof {
        assert((i + 1) * r == i * r + r) by (nonlinear_arith);
    }
    let base = i * (r as usize);
    let mut t: usize = 0;
    while t < r as usize
        invariant
            t <= r,
            r < 64,
            base == i * r,
            base + r <= slots@.len() * 64,
            slots@.len() * 64 <= usize::MAX,
            slots@.len() == old(slots)@.len(),
            ob == bits_of(old(slots)@),
            forall|p: int|
                0 <= p < bits_of(slots@).len() ==> #[trigger] bits_of(slots@)[p] == if base <= p
                    < base + t {
                    word_bit(value, (p - base) as u64)
                } else {
                    ob[p]
                },
        decreases r - t,
    {
        if (value >> (t as u64)) & 1u64 == 1u64 {
            set_bit(slots, base + t);
        } else {
            clear_bit(slots, base + t);
        }
        t = t + 1;
    }
}

/// The parts that `split_infix` takes out of `x` put together give its canonical form.
proof fn lemma_split_join(x: u64, r: u64)
    requires
        r <= 53,
    ensures
        (x >> r) & low_mask(10) < 1024,
        x & low_mask(r) == (x & low_mask(r)) & low_mask(r),
        (((x >> r) & low_mask(10)) << r) | (x & low_mask(r)) == canonical(x, r),
{
    assert((x >> r) & (((1u64 << 10u64) - 1u64) as u64) < 1024 && x & (((1u64 << r) - 1u64) as u64)
        == (x & (((1u64 << r) - 1u64) as u64)) & (((1u64 << r) - 1u64) as u64) && (((x >> r) & (((1u64
        << 10u64) - 1u64) as u64)) << r) | (x & (((1u64 << r) - 1u64) as u64)) == x & (((1u64 << ((10
        + r) as u64)) - 1u64) as u64)) by (bit_vector)
        requires
            r <= 53,
    ;
}

/// An infix of `10 + r` bits is its own canonical form.
pub proof fn lemma_canonical_small(x: u64, r: u64)
    requires
        r <= 53,
        x < 1u64 << ((10 + r) as u64),
    ensures
        canonical(x, r) == x,
{
    let w = (10 + r) as u64;
    assert(x & (((1u64 << w) - 1u64) as u64) == x) by (bit_vector)
        requires
            w <= 63,
            x < 1u64 << w,
    ;
}

proof fn lemma_words_cover(bits: int)
    requires
        0 <= bits,
    ensures
        64 * words_for(bits) >= bits,
        words_for(bits) >= 0,
{
}

/// A quotient `q` and a remainder `rr` put together.
proof fn lemma_join(q: u64, rr: u64, r: u64)
    requires
        r <= 53,
        q < 1024,
        rr == rr & low_mask(r),
    ensures
        quot((q << r) | rr, r) == q,
        rem((q << r) | rr, r) == rr,
        (q << r) | rr == canonical((q << r) | rr, r),
        forall|t: u64| t < r ==> #[trigger] word_bit((q << r) | rr, t) == word_bit(rr, t),
{
    assert(((q << r) | rr) >> r == q && ((q << r) | rr) & (((1u64 << r) - 1u64) as u64) == rr)
        by (bit_vector)
        requires
            r <= 53,
            q < 1024,
            rr == rr & (((1u64 << r) - 1u64) as u64),
    ;
    assert(((q << r) | rr) & (((1u64 << ((10 + r) as u64)) - 1u64) as u64) == (q << r) | rr)
        by (bit_vector)
        requires
            r <= 53,
            q < 1024,
            rr == rr & (((1u64 << r) - 1u64) as u64),
    ;
    assert forall|t: u64| t < r implies #[trigger] word_bit((q << r) | rr, t) == word_bit(rr, t) by {
        assert(((((q << r) | rr) >> t) & 1u64 == 1u64) == ((rr >> t) & 1u64 == 1u64))
            by (bit_vector)
            requires
                r <= 53,
                t < r,
                rr == rr & (((1u64 << r) - 1u64) as u64),
        ;
    }
}

/// Order of infixes against order of quotients and remainders.
proof fn lemma_order(c1: u64, c2: u64, r: u64)
    requires
        r <= 53,
    ensures
        c1 < c2 ==> quot(c1, r) <= quot(c2, r),
        quot(c1, r) < quot(c2, r) ==> c1 < c2,
        quot(c1, r) == quot(c2, r) ==> (c1 < c2 <==> rem(c1, r) < rem(c2, r)),
        quot(c1, r) == quot(c2, r) ==> (c1 == c2 <==> rem(c1, r) == rem(c2, r)),
{
    assert(c1 < c2 ==> (c1 >> r) <= (c2 >> r)) by (bit_vector)
        requires
            r <= 53,
    ;
    assert((c1 >> r) < (c2 >> r) ==> c1 < c2) by (bit_vector)
        requires
            r <= 53,
    ;
    assert((c1 >> r) == (c2 >> r) ==> (c1 < c2 <==> (c1 & (((1u64 << r) - 1u64) as u64)) < (c2
        & (((1u64 << r) - 1u64) as u64)))) by (bit_vector)
        requires
            r <= 53,
    ;
    assert((c1 >> r) == (c2 >> r) ==> (c1 == c2 <==> (c1 & (((1u64 << r) - 1u64) as u64)) == (c2
        & (((1u64 << r) - 1u64) as u64)))) by (bit_vector)
        requires
            r <= 53,
    ;
}

/// Appending an infix above all stored ones, with its slot, runend and occupieds bits.
proof fn lemma_layout_append(
    ob: Seq<bool>,
    rb: Seq<bool>,
    sb: Seq<bool>,
    ob2: Seq<bool>,
    rb2: Seq<bool>,
    sb2: Seq<bool>,
    r: u64,
    cap: int,
    s: Seq<u64>,
    c: u64,
)
    requires
        layout_holds(ob, rb, sb, r, cap, s),
        s.len() < cap,
        s.len() > 0 ==> s.last() < c,
        quot(c, r) < 1024,
        ob2 == ob.update(quot(c, r) as int, true),
        rb2 == if s.len() > 0 && quot(s.last(), r) == quot(c, r) {
            rb.update(s.len() - 1, false).update(s.len() as int, true)
        } else {
            rb.update(s.len() as int, true)
        },
        sb2.len() == sb.len(),
        forall|p: int|
            0 <= p < sb2.len() ==> #[trigger] sb2[p] == if s.len() * r <= p < s.len() * r + r {
                word_bit(c, (p - s.len() * r) as u64)
            } else {
                sb[p]
            },
    ensures
        layout_holds(ob2, rb2, sb2, r, cap, s.push(c)),
{
    let n = s.len() as int;
    let s2 = s.push(c);
    assert forall|i: int, j: int| 0 <= i < j < s2.len() implies s2[i] < s2[j] by {
        if j == n && i < n - 1 {
            assert(s[i] < s[n - 1]);
        }
    }
    assert forall|i: int, t: int| 0 <= i < s2.len() && 0 <= t < r implies #[trigger] slot_bit(
        sb2,
        r as nat,
        i,
        t,
    ) == word_bit(s2[i], t as u64) by {
        lemma_slot_in_range(i, t, r as int, cap);
        let p = i * r + t;
        assert(slot_bit(sb2, r as nat, i, t) == sb2[p]);
        assert(cap * r <= sb.len());
        if i < n {
            lemma_slots_disjoint(n, i, t, r as int);
            assert(sb2[p] == sb[p]);
            assert(slot_bit(sb, r as nat, i, t) == word_bit(s[i], t as u64));
        } else {
            assert(p - n * r == t);
        }
    }
    assert forall|p: int| 0 <= p < rb2.len() implies #[trigger] rb2[p] == (p < s2.len()
        && is_run_end(s2, r, p)) by {
        if p < n - 1 {
            assert(rb[p] == is_run_end(s, r, p));
        }
    }
    assert forall|q: int| 0 <= q < 1024 implies #[trigger] ob2[q] == has_quotient(s2, r, q) by {
        if has_quotient(s, r, q) {
            let i = choose|i: int| 0 <= i < s.len() && quot(s[i], r) == q;
            assert(s2[i] == s[i]);
        }
        if quot(c, r) == q {
            assert(s2[n] == c);
        }
        if has_quotient(s2, r, q) {
            let i = choose|i: int| 0 <= i < s2.len() && quot(s2[i], r) == q;
            if i < n {
                assert(s[i] == s2[i]);
            }
        }
    }
}

/// Bit `t` of slot `j` after a write of slot `i` that leaves the other slots alone.
proof fn lemma_slot_after_write(
    sb: Seq<bool>,
    sb2: Seq<bool>,
    r: int,
    i: int,
    value: u64,
    j: int,
    t: int,
)
    requires
        0 <= i,
        0 <= j,
        0 <= t < r,
        (j + 1) * r <= sb.len(),
        sb2.len() == sb.len(),
        forall|p: int|
            0 <= p < sb2.len() ==> #[trigger] sb2[p] == if i * r <= p < i * r + r {
                word_bit(value, (p - i * r) as u64)
            } else {
                sb[p]
            },
    ensures
        slot_bit(sb2, r as nat, j, t) == if j == i {
            word_bit(value, t as u64)
        } else {
            slot_bit(sb, r as nat, j, t)
        },
{
    lemma_slot_in_range(j, t, r, j + 1);
    assert(j * r + t < sb.len());
    if j != i {
        lemma_slots_disjoint(i, j, t, r);
    }
}

/// Move slots `[start, n)` one slot up.
fn shift_slots_right(slots: &mut Vec<u64>, start: usize, n: usize, r: u8)
    requires
        r < 64,
        start <= n,
        (n + 1) * r <= old(slots)@.len() * 64,
        old(slots)@.len() * 64 <= usize::MAX,
    ensures
        final(slots)@.len() == old(slots)@.len(),
        forall|j: int, t: int|
            0 <= j <= n && 0 <= t < r ==> #[trigger] slot_bit(bits_of(final(slots)@), r as nat, j, t)
                == if j <= start {
                slot_bit(bits_of(old(slots)@), r as nat, j, t)
            } else {
                slot_bit(bits_of(old(slots)@), r as nat, j - 1, t)
            },
{
    let ghost sb0 = bits_of(slots@);
    let mut k = n;
    while k > start
        invariant
            r < 64,
            start <= k <= n,
            (n + 1) * r <= slots@.len() * 64,
            slots@.len() == old(slots)@.len(),
            slots@.len() * 64 <= usize::MAX,
            sb0 == bits_of(old(slots)@),
            forall|j: int, t: int|
                0 <= j <= n && 0 <= t < r ==> #[trigger] slot_bit(bits_of(slots@), r as nat, j, t)
                    == if j <= k {
                    slot_bit(sb0, r as nat, j, t)
                } else {
                    slot_bit(sb0, r as nat, j - 1, t)
                },
        decreases k,
    {
        proof {
            assert(k * r <= (n + 1) * r) by (nonlinear_arith)
                requires
                    k <= n + 1,
                    0 <= r,
            ;
        }
        let value = read_slot_bits(slots, r, k - 1);
        let ghost sb1 = bits_of(slots@);
        proof {
            assert((k + 1) * r <= (n + 1) * r) by (nonlinear_arith)
                requires
                    k <= n,
                    0 <= r,
            ;
        }
        write_slot(slots, k, value, r);
        proof {
            assert forall|j: int, t: int| 0 <= j <= n && 0 <= t < r implies #[trigger] slot_bit(
                bits_of(slots@),
                r as nat,
                j,
                t,
            ) == if j <= k - 1 {
                slot_bit(sb0, r as nat, j, t)
            } else {
                slot_bit(sb0, r as nat, j - 1, t)
            } by {
                assert((j + 1) * r <= (n + 1) * r) by (nonlinear_arith)
                    requires
                        j <= n,
                        0 <= r,
                ;
                lemma_slot_after_write(sb1, bits_of(slots@), r as int, k as int, value, j, t);
                if j == k {
                    assert(word_bit(value, t as u64) == slot_bit(sb1, r as nat, k - 1, t));
                }
            }
        }
        k = k - 1;
    }
}

/// Move slots `[start + 1, n)` one slot down.
fn shift_slots_left(slots: &mut Vec<u64>, start: usize, n: usize, r: u8)
    requires
        r < 64,
        start < n,
        n * r <= old(slots)@.len() * 64,
        old(slots)@.len() * 64 <= usize::MAX,
    ensures
        final(slots)@.len() == old(slots)@.len(),
        forall|j: int, t: int|
            0 <= j < n - 1 && 0 <= t < r ==> #[trigger] slot_bit(bits_of(final(slots)@), r as nat, j, t)
                == if j < start {
                slot_bit(bits_of(old(slots)@), r as nat, j, t)
            } else {
                slot_bit(bits_of(old(slots)@), r as nat, j + 1, t)
            },
{
    let ghost sb0 = bits_of(slots@);
    let mut k = start;
    while k < n - 1
        invariant
            r < 64,
            start <= k <= n - 1,
            n * r <= slots@.len() * 64,
            slots@.len() == old(slots)@.len(),
            slots@.len() * 64 <= usize::MAX,
            sb0 == bits_of(old(slots)@),
            forall|j: int, t: int|
                0 <= j < n && 0 <= t < r ==> #[trigger] slot_bit(bits_of(slots@), r as nat, j, t)
                    == if start <= j < k {
                    slot_bit(sb0, r as nat, j + 1, t)
                } else {
                    slot_bit(sb0, r as nat, j, t)
                },
        decreases n - k,
    {
        proof {
            assert((k + 2) * r <= n * r && (k + 1) * r <= n * r) by (nonlinear_arith)
                requires
                    k + 2 <= n,
                    0 <= r,
            ;
        }
        let value = read_slot_bits(slots, r, k + 1);
        let ghost sb1 = bits_of(slots@);
        write_slot(slots, k, value, r);
        proof {
            assert forall|j: int, t: int| 0 <= j < n && 0 <= t < r implies #[trigger] slot_bit(
                bits_of(slots@),
                r as nat,
                j,
                t,
            ) == if start <= j < k + 1 {
                slot_bit(sb0, r as nat, j + 1, t)
            } else {
                slot_bit(sb0, r as nat, j, t)
            } by {
                assert((j + 1) * r <= n * r) by (nonlinear_arith)
                    requires
                        j < n,
                        0 <= r,
                ;
                lemma_slot_after_write(sb1, bits_of(slots@), r as int, k as int, value, j, t);
                if j == k {
                    assert(word_bit(value, t as u64) == slot_bit(sb1, r as nat, k + 1, t));
                }
            }
        }
        k = k + 1;
    }
}

/// Move runend bits `[start, n)` one position up and clear position `start`.
fn shift_runends_right(runends: &mut Vec<u64>, start: usize, n: usize)
    requires
        start <= n,
        n < old(runends)@.len() * 64,
    ensures
        final(runends)@.len() == old(runends)@.len(),
        forall|p: int|
            0 <= p < bits_of(final(runends)@).len() ==> #[trigger] bits_of(final(runends)@)[p] == if p
                < start {
                bits_of(old(runends)@)[p]
            } else if p == start {
                false
            } else if p <= n {
                bits_of(old(runends)@)[p - 1]
            } else {
                bits_of(old(runends)@)[p]
            },
{
    let ghost rb0 = bits_of(runends@);
    let mut k = n;
    while k > start
        invariant
            start <= k <= n,
            n < runends@.len() * 64,
            runends@.len() == old(runends)@.len(),
            rb0 == bits_of(old(runends)@),
            forall|p: int|
                0 <= p < bits_of(runends@).len() ==> #[trigger] bits_of(runends@)[p] == if p <= k {
                    rb0[p]
                } else if p <= n {
                    rb0[p - 1]
                } else {
                    rb0[p]
                },
        decreases k,
    {
        let bit_value = get_bit(runends, k - 1);
        if bit_value {
            set_bit(runends, k);
        } else {
            clear_bit(runends, k);
        }
        k = k - 1;
    }
    clear_bit(runends, start);
}

/// Move runend bits `[start + 1, n)` one position down and clear position `n - 1`.
fn shift_runends_left(runends: &mut Vec<u64>, start: usize, n: usize)
    requires
        start < n,
        n <= old(runends)@.len() * 64,
    ensures
        final(runends)@.len() == old(runends)@.len(),
        forall|p: int|
            0 <= p < bits_of(final(runends)@).len() ==> #[trigger] bits_of(final(runends)@)[p] == if p
                < start {
                bits_of(old(runends)@)[p]
            } else if p < n - 1 {
                bits_of(old(runends)@)[p + 1]
            } else if p == n - 1 {
                false
            } else {
                bits_of(old(runends)@)[p]
            },
{
    let ghost rb0 = bits_of(runends@);
    let mut k = start;
    while k < n - 1
        invariant
            start <= k <= n - 1,
            n <= runends@.len() * 64,
            runends@.len() == old(runends)@.len(),
            rb0 == bits_of(old(runends)@),
            forall|p: int|
                0 <= p < bits_of(runends@).len() ==> #[trigger] bits_of(runends@)[p] == if start <= p
                    < k {
                    rb0[p + 1]
                } else {
                    rb0[p]
                },
        decreases n - k,
    {
        let bit_value = get_bit(runends, k + 1);
        if bit_value {
            set_bit(runends, k);
        } else {
            clear_bit(runends, k);
        }
        k = k + 1;
    }
    clear_bit(runends, n - 1);
}

/// Copy the first `k` words of `src` into `dst`.
fn copy_words(dst: &mut Vec<u64>, src: &Vec<u64>, k: usize)
    requires
        k <= old(dst)@.len(),
        k <= src@.len(),
    ensures
        final(dst)@.len() == old(dst)@.len(),
        forall|p: int|
            0 <= p < bits_of(final(dst)@).len() ==> #[trigger] bits_of(final(dst)@)[p] == if p < 64 * k {
                bits_of(src@)[p]
            } else {
                bits_of(old(dst)@)[p]
            },
{
    let ghost d0 = dst@;
    let mut i: usize = 0;
    while i < k
        invariant
            i <= k,
            k <= d0.len(),
            k <= src@.len(),
            dst@.len() == d0.len(),
            d0 == old(dst)@,
            forall|j: int| 0 <= j < dst@.len() ==> #[trigger] dst@[j] == if j < i {
                src@[j]
            } else {
                d0[j]
            },
        decreases k - i,
    {
        dst.set(i, src[i]);
        i = i + 1;
    }
    assert forall|p: int| 0 <= p < bits_of(dst@).len() implies #[trigger] bits_of(dst@)[p] == if p
        < 64 * k {
        bits_of(src@)[p]
    } else {
        bits_of(d0)[p]
    } by {
        crate::bitmap::lemma_word_of_pos(p, dst@.len() as int);
        if p < 64 * k {
            assert(p / 64 < k);
            crate::bitmap::lemma_word_of_pos(p, src@.len() as int);
        }
    }
}

/// The layout after putting `c` at position `pos` of the sorted infixes `s`, given the
/// slot, runend and occupieds bits around it.
proof fn lemma_layout_insert(
    ob: Seq<bool>,
    rb: Seq<bool>,
    sb: Seq<bool>,
    ob2: Seq<bool>,
    rb2: Seq<bool>,
    sb2: Seq<bool>,
    r: u64,
    cap: int,
    s: Seq<u64>,
    c: u64,
    pos: int,
)
    requires
        layout_holds(ob, rb, sb, r, cap, s),
        s.len() < cap,
        0 <= pos <= s.len(),
        forall|i: int| 0 <= i < pos ==> #[trigger] s[i] < c,
        forall|i: int| pos <= i < s.len() ==> #[trigger] s[i] > c,
        quot(c, r) < 1024,
        ob2 == ob.update(quot(c, r) as int, true),
        rb2.len() == rb.len(),
        forall|p: int|
            0 <= p < rb2.len() ==> #[trigger] rb2[p] == if p < pos - 1 {
                rb[p]
            } else if p == pos - 1 {
                quot(s[pos - 1], r) != quot(c, r)
            } else if p == pos {
                pos == s.len() || quot(c, r) != quot(s[pos], r)
            } else if p <= s.len() {
                rb[p - 1]
            } else {
                rb[p]
            },
        sb2.len() == sb.len(),
        forall|j: int, t: int|
            0 <= j <= s.len() && 0 <= t < r ==> #[trigger] slot_bit(sb2, r as nat, j, t) == if j
                < pos {
                slot_bit(sb, r as nat, j, t)
            } else if j == pos {
                word_bit(c, t as u64)
            } else {
                slot_bit(sb, r as nat, j - 1, t)
            },
    ensures
        layout_holds(ob2, rb2, sb2, r, cap, s.insert(pos, c)),
{
    let n = s.len() as int;
    let s2 = s.insert(pos, c);
    assert forall|i: int| 0 <= i < s2.len() implies quot(#[trigger] s2[i], r) < 1024 by {
        if i > pos {
            assert(s2[i] == s[i - 1]);
        }
    }
    assert forall|i: int, j: int| 0 <= i < j < s2.len() implies s2[i] < s2[j] by {
        if j < pos {
        } else if j == pos {
        } else if i < pos {
            assert(s2[j] == s[j - 1]);
        } else if i == pos {
            assert(s2[j] == s[j - 1]);
        } else {
            assert(s2[j] == s[j - 1]);
            assert(s2[i] == s[i - 1]);
        }
    }
    assert forall|j: int, t: int| 0 <= j < s2.len() && 0 <= t < r implies #[trigger] slot_bit(
        sb2,
        r as nat,
        j,
        t,
    ) == word_bit(s2[j], t as u64) by {
        if j < pos {
            assert(slot_bit(sb, r as nat, j, t) == word_bit(s[j], t as u64));
        } else if j > pos {
            assert(slot_bit(sb, r as nat, j - 1, t) == word_bit(s[j - 1], t as u64));
        }
    }
    assert forall|p: int| 0 <= p < rb2.len() implies #[trigger] rb2[p] == (p < s2.len()
        && is_run_end(s2, r, p)) by {
        if p < pos - 1 {
            assert(rb[p] == (p < n && is_run_end(s, r, p)));
        } else if p == pos - 1 {
        } else if p == pos {
        } else if p <= n {
            assert(rb[p - 1] == (p - 1 < n && is_run_end(s, r, p - 1)));
            if p < n {
                assert(s2[p + 1] == s[p]);
            }
        } else {
            assert(rb[p] == (p < n && is_run_end(s, r, p)));
        }
    }
    assert forall|q: int| 0 <= q < 1024 implies #[trigger] ob2[q] == has_quotient(s2, r, q) by {
        if has_quotient(s, r, q) {
            let i = choose|i: int| 0 <= i < s.len() && quot(s[i], r) == q;
            if i < pos {
                assert(s2[i] == s[i]);
            } else {
                assert(s2[i + 1] == s[i]);
            }
        }
        if quot(c, r) == q {
            assert(s2[pos] == c);
        }
        if has_quotient(s2, r, q) {
            let i = choose|i: int| 0 <= i < s2.len() && quot(s2[i], r) == q;
            if i < pos {
                assert(s[i] == s2[i]);
            } else if i > pos {
                assert(s[i - 1] == s2[i]);
            }
        }
    }
}

/// The runend bits after the shift and the updates of an insert at `pos`.
proof fn lemma_insert_runends(
    rb: Seq<bool>,
    rb1: Seq<bool>,
    rb2: Seq<bool>,
    r: u64,
    cap: int,
    s: Seq<u64>,
    c: u64,
    pos: int,
    is_new: bool,
    extends: bool,
    run_end: int,
)
    requires
        0 <= pos <= s.len() < cap <= rb.len(),
        forall|p: int| 0 <= p < rb.len() ==> #[trigger] rb[p] == (p < s.len() && is_run_end(s, r, p)),
        rb1.len() == rb.len(),
        forall|p: int|
            0 <= p < rb1.len() ==> #[trigger] rb1[p] == if p < pos {
                rb[p]
            } else if p == pos {
                false
            } else if p <= s.len() {
                rb[p - 1]
            } else {
                rb[p]
            },
        rb2 == if is_new {
            rb1.update(pos, true)
        } else if extends {
            rb1.update(run_end, false).update(pos, true)
        } else {
            rb1
        },
        extends ==> !is_new && pos > 0 && run_end == pos - 1,
        pos > 0 && !extends ==> is_run_end(s, r, pos - 1) == (quot(s[pos - 1], r) != quot(c, r)),
        extends ==> quot(s[pos - 1], r) == quot(c, r),
        (is_new || extends) == (pos == s.len() || quot(s[pos], r) != quot(c, r)),
    ensures
        rb2.len() == rb.len(),
        forall|p: int|
            0 <= p < rb2.len() ==> #[trigger] rb2[p] == if p < pos - 1 {
                rb[p]
            } else if p == pos - 1 {
                quot(s[pos - 1], r) != quot(c, r)
            } else if p == pos {
                pos == s.len() || quot(c, r) != quot(s[pos], r)
            } else if p <= s.len() {
                rb[p - 1]
            } else {
                rb[p]
            },
{
}

/// The layout after taking out the infix at position `pos` of the sorted infixes `s`,
/// given the slot, runend and occupieds bits around it.
proof fn lemma_layout_remove(
    ob: Seq<bool>,
    rb: Seq<bool>,
    sb: Seq<bool>,
    ob2: Seq<bool>,
    rb2: Seq<bool>,
    sb2: Seq<bool>,
    r: u64,
    cap: int,
    s: Seq<u64>,
    pos: int,
)
    requires
        layout_holds(ob, rb, sb, r, cap, s),
        0 <= pos < s.len(),
        ob2.len() == ob.len(),
        forall|q: int|
            0 <= q < 1024 ==> #[trigger] ob2[q] == if q == quot(s[pos], r) {
                has_quotient(s.remove(pos), r, q)
            } else {
                ob[q]
            },
        rb2.len() == rb.len(),
        forall|p: int|
            0 <= p < rb2.len() ==> #[trigger] rb2[p] == if p < pos - 1 {
                rb[p]
            } else if p == pos - 1 {
                pos == s.len() - 1 || quot(s[pos - 1], r) != quot(s[pos + 1], r)
            } else if p < s.len() - 1 {
                rb[p + 1]
            } else if p == s.len() - 1 {
                false
            } else {
                rb[p]
            },
        sb2.len() == sb.len(),
        forall|j: int, t: int|
            0 <= j < s.len() - 1 && 0 <= t < r ==> #[trigger] slot_bit(sb2, r as nat, j, t) == if j
                < pos {
                slot_bit(sb, r as nat, j, t)
            } else {
                slot_bit(sb, r as nat, j + 1, t)
            },
    ensures
        layout_holds(ob2, rb2, sb2, r, cap, s.remove(pos)),
{
    let n = s.len() as int;
    let s2 = s.remove(pos);
    assert forall|i: int| 0 <= i < s2.len() implies quot(#[trigger] s2[i], r) < 1024 by {
        if i >= pos {
            assert(s2[i] == s[i + 1]);
        }
    }
    assert forall|i: int, j: int| 0 <= i < j < s2.len() implies s2[i] < s2[j] by {
        if i >= pos {
            assert(s2[i] == s[i + 1]);
        }
        if j >= pos {
            assert(s2[j] == s[j + 1]);
        }
    }
    assert forall|j: int, t: int| 0 <= j < s2.len() && 0 <= t < r implies #[trigger] slot_bit(
        sb2,
        r as nat,
        j,
        t,
    ) == word_bit(s2[j], t as u64) by {
        if j < pos {
            assert(slot_bit(sb, r as nat, j, t) == word_bit(s[j], t as u64));
        } else {
            assert(slot_bit(sb, r as nat, j + 1, t) == word_bit(s[j + 1], t as u64));
        }
    }
    assert forall|p: int| 0 <= p < rb2.len() implies #[trigger] rb2[p] == (p < s2.len()
        && is_run_end(s2, r, p)) by {
        if p < pos - 1 {
            assert(rb[p] == (p < n && is_run_end(s, r, p)));
        } else if p == pos - 1 {
            if pos < n - 1 {
                assert(s2[pos] == s[pos + 1]);
            }
        } else if p < n - 1 {
            assert(rb[p + 1] == (p + 1 < n && is_run_end(s, r, p + 1)));
            assert(s2[p] == s[p + 1]);
            if p + 1 < n - 1 {
                assert(s2[p + 1] == s[p + 2]);
            }
        } else if p > n - 1 {
            assert(rb[p] == (p < n && is_run_end(s, r, p)));
        }
    }
    assert forall|q: int| 0 <= q < 1024 implies #[trigger] ob2[q] == has_quotient(s2, r, q) by {
        if q != quot(s[pos], r) {
            if has_quotient(s, r, q) {
                let i = choose|i: int| 0 <= i < s.len() && quot(s[i], r) == q;
                if i < pos {
                    assert(s2[i] == s[i]);
                } else {
                    assert(s2[i - 1] == s[i]);
                }
            }
            if has_quotient(s2, r, q) {
                let i = choose|i: int| 0 <= i < s2.len() && quot(s2[i], r) == q;
                if i < pos {
                    assert(s[i] == s2[i]);
                } else {
                    assert(s[i + 1] == s2[i]);
                }
            }
        }
    }
}

/// What `s` without its element at `pos` contains, when its elements are distinct.
proof fn lemma_remove_contains(s: Seq<u64>, pos: int)
    requires
        0 <= pos < s.len(),
        strictly_sorted(s),
    ensures
        forall|x: u64| s.remove(pos).contains(x) <==> (s.contains(x) && x != s[pos]),
{
    let s2 = s.remove(pos);
    assert forall|x: u64| s2.contains(x) <==> (s.contains(x) && x != s[pos]) by {
        if s2.contains(x) {
            let k = choose|k: int| 0 <= k < s2.len() && s2[k] == x;
            if k < pos {
                assert(s[k] == x);
            } else {
                assert(s[k + 1] == x);
            }
        }
        if s.contains(x) && x != s[pos] {
            let k = choose|k: int| 0 <= k < s.len() && s[k] == x;
            if k < pos {
                assert(s2[k] == x);
            } else {
                assert(s2[k - 1] == x);
            }
        }
    }
}

/// What `s` with `c` put in at `pos` contains.
proof fn lemma_insert_contains(s: Seq<u64>, pos: int, c: u64)
    requires
        0 <= pos <= s.len(),
    ensures
        forall|x: u64| s.insert(pos, c).contains(x) <==> (s.contains(x) || x == c),
{
    let s2 = s.insert(pos, c);
    assert forall|x: u64| s2.contains(x) <==> (s.contains(x) || x == c) by {
        if s2.contains(x) {
            let k = choose|k: int| 0 <= k < s2.len() && s2[k] == x;
            if k < pos {
                assert(s[k] == x);
            } else if k > pos {
                assert(s[k - 1] == x);
            }
        }
        if s.contains(x) {
            let k = choose|k: int| 0 <= k < s.len() && s[k] == x;
            if k < pos {
                assert(s2[k] == x);
            } else {
                assert(s2[k + 1] == x);
            }
        }
        if x == c {
            assert(s2[pos] == c);
        }
    }
}

/// The first index of the sorted infixes `s` whose quotient is at least `q`.
proof fn lemma_boundary(s: Seq<u64>, r: u64, q: int) -> (f: int)
    requires
        strictly_sorted(s),
        r <= 53,
    ensures
        0 <= f <= s.len(),
        forall|i: int| 0 <= i < f ==> (quot(#[trigger] s[i], r) as int) < q,
        forall|i: int| f <= i < s.len() ==> (quot(#[trigger] s[i], r) as int) >= q,
    decreases s.len(),
{
    if s.len() == 0 {
        0
    } else {
        let t = s.drop_last();
        assert(strictly_sorted(t));
        let f0 = lemma_boundary(t, r, q);
        let last = s.last();
        if (quot(last, r) as int) < q {
            assert forall|i: int| 0 <= i < s.len() implies (quot(#[trigger] s[i], r) as int) < q by {
                if i < s.len() - 1 {
                    lemma_order(s[i], last, r);
                }
            }
            s.len() as int
        } else {
            assert forall|i: int| f0 <= i < s.len() implies (quot(#[trigger] s[i], r) as int) >= q by {
                if i < s.len() - 1 {
                    assert(t[i] == s[i]);
                }
            }
            assert forall|i: int| 0 <= i < f0 implies (quot(#[trigger] s[i], r) as int) < q by {
                assert(t[i] == s[i]);
            }
            f0
        }
    }
}

proof fn lemma_no_ones(b: Seq<bool>, a: int, c: int)
    requires
        0 <= a <= c <= b.len(),
        forall|p: int| a <= p < c ==> !#[trigger] b[p],
    ensures
        ones_before(b, c) == ones_before(b, a),
    decreases c - a,
{
    if a < c {
        lemma_no_ones(b, a, c - 1);
    }
}

/// The quotients below `q` in use are as many as the runs that end before the first
/// infix of quotient `q` or more.
proof fn lemma_rank_occupieds(
    ob: Seq<bool>,
    rb: Seq<bool>,
    sb: Seq<bool>,
    r: u64,
    cap: int,
    s: Seq<u64>,
    q: int,
    f: int,
)
    requires
        layout_holds(ob, rb, sb, r, cap, s),
        0 <= q <= 1024,
        0 <= f <= s.len(),
        forall|i: int| 0 <= i < f ==> (quot(#[trigger] s[i], r) as int) < q,
        forall|i: int| f <= i < s.len() ==> (quot(#[trigger] s[i], r) as int) >= q,
    ensures
        ones_before(ob, q) == ones_before(rb, f),
    decreases q,
{
    if q == 0 {
        if f > 0 {
            assert(quot(s[0], r) < 0);
        }
    } else {
        let f1 = lemma_boundary(s, r, q - 1);
        lemma_rank_occupieds(ob, rb, sb, r, cap, s, q - 1, f1);
        assert(f1 <= f) by {
            if f < f1 {
                assert(quot(s[f], r) >= q);
                assert(quot(s[f], r) < q - 1);
            }
        }
        assert forall|p: int| f1 <= p < f - 1 implies !#[trigger] rb[p] by {
            assert(quot(s[p], r) == q - 1);
            assert(quot(s[p + 1], r) == q - 1);
        }
        if f1 < f {
            lemma_no_ones(rb, f1, f - 1);
            assert(quot(s[f1], r) == q - 1);
            assert(ob[q - 1]);
            assert(rb[f - 1]) by {
                if f < s.len() {
                    assert(quot(s[f], r) >= q);
                }
            }
        } else {
            assert(!ob[q - 1]) by {
                if has_quotient(s, r, q - 1) {
                    let i = choose|i: int| 0 <= i < s.len() && quot(s[i], r) == q - 1;
                    if i < f1 {
                    } else {
                        assert(quot(s[i], r) >= q);
                    }
                }
            }
        }
    }
}

proof fn lemma_ones_count_quotients(ob: Seq<bool>, s: Seq<u64>, r: u64, q: int)
    requires
        0 <= q <= 1024,
        ob.len() == 1024,
        forall|k: int| 0 <= k < 1024 ==> #[trigger] ob[k] == has_quotient(s, r, k),
    ensures
        ones_before(ob, q) == count_quotients(s, r, q),
    decreases q,
{
    if q > 0 {
        lemma_ones_count_quotients(ob, s, r, q - 1);
    }
}

/// Two words with the same bits are equal.
proof fn lemma_bits_equal(x: u64, y: u64)
    requires
        forall|k: u64| k < 64 ==> #[trigger] word_bit(x, k) == word_bit(y, k),
    ensures
        x == y,
{
    let z = x ^ y;
    assert forall|k: u64| k < 64 implies !#[trigger] word_bit(z, k) by {
        assert(((((x ^ y) >> k) & 1u64 == 1u64) == (((x >> k) & 1u64 == 1u64) != ((y >> k) & 1u64
            == 1u64)))) by (bit_vector)
            requires
                k < 64,
        ;
        assert(word_bit(x, k) == word_bit(y, k));
    }
    lemma_word_nonzero(z);
    assert(x ^ y == 0 ==> x == y) by (bit_vector);
}

impl InfixStore {
    /// Split an infix into its quotient (the `quotient_size` bits above the remainder) and
    /// its remainder (the low `remainder_size` bits).
    pub fn split_infix(infix: u64, quotient_size: u8, remainder_size: u8) -> (res: (u64, u64))
        requires
            quotient_size < 64,
            remainder_size < 64,
        ensures
            res.0 == (infix >> remainder_size) & low_mask(quotient_size as u64),
            res.1 == infix & low_mask(remainder_size as u64),
    {
        let remainder = infix & crate::bitmap::make_low_mask(remainder_size as u64);
        let quotient = (infix >> remainder_size) & crate::bitmap::make_low_mask(
            quotient_size as u64,
        );
        (quotient, remainder)
    }

    /// Build a store from infixes sorted by their quotient and remainder bits; an infix
    /// equal to the one before it is stored once.
    pub fn new_with_infixes(infixes: &[u64], remainder_size: u8) -> (st: Self)
        requires
            remainder_size <= MAX_REMAINDER_SIZE,
            infixes@.len() <= 2326,
            forall|i: int, j: int|
                0 <= i <= j < infixes@.len() ==> canonical(infixes@[i], remainder_size as u64)
                    <= canonical(infixes@[j], remainder_size as u64),
        ensures
            st.wf(),
            st.spec_remainder_size() == remainder_size,
            capacity(st.spec_size_grade()) >= infixes@.len(),
            st.spec_size_grade() == 0 || capacity(st.spec_size_grade() - 1) < infixes@.len(),
            forall|x: u64|
                st@.contains(x) <==> exists|i: int|
                    0 <= i < infixes@.len() && canonical(infixes@[i], remainder_size as u64) == x,
    {
        let r = remainder_size;
        let ghost rr = r as u64;
        let size_grade = Self::choose_size_grade(infixes.len());
        let num_slots = scaled_size(size_grade);
        let mut occupieds = zeroed_words(OCCUPIEDS_WORDS);
        let mut runends = zeroed_words((num_slots + WORD_BITS - 1) / WORD_BITS);
        proof {
            assert(num_slots * r <= 2326 * 53) by (nonlinear_arith)
                requires
                    num_slots <= 2326,
                    r <= 53,
            ;
        }
        let mut slots = zeroed_words((num_slots * (r as usize) + WORD_BITS - 1) / WORD_BITS);
        let ghost cap = capacity(size_grade as int);
        proof {
            lemma_words_cover(cap);
            lemma_words_cover(cap * r);
            // all bits are clear: the layout of no infixes
            assert(layout_holds(
                bits_of(occupieds@),
                bits_of(runends@),
                bits_of(slots@),
                rr,
                cap,
                Seq::empty(),
            ));
        }
        let (count, Ghost(s)) = Self::load_infixes_to_store(
            &mut occupieds,
            &mut runends,
            &mut slots,
            infixes,
            r,
            num_slots,
        );
        let popcounts = compute_popcounts(&occupieds, &runends, num_slots);
        InfixStore {
            elem_count: count as u16,
            size_grade,
            remainder_size: r,
            quotient_size: QUOTIENT_SIZE,
            popcounts,
            occupieds,
            runends,
            slots,
            contents: Ghost(s),
        }
    }

    /// Number of stored infixes.
    pub fn elem_count(&self) -> (n: usize)
        requires
            self.wf(),
        ensures
            n == self@.len(),
    {
        self.elem_count as usize
    }

    /// Current size grade.
    pub fn size_grade(&self) -> (g: u8)
        ensures
            g == self.spec_size_grade(),
    {
        self.size_grade
    }

    /// Remainder width in bits.
    pub fn remainder_size(&self) -> (r: u8)
        ensures
            r == self.spec_remainder_size(),
    {
        self.remainder_size
    }

    /// Slot capacity of the current size grade.
    pub fn num_slots(&self) -> (n: usize)
        requires
            self.wf(),
        ensures
            n == capacity(self.spec_size_grade()),
    {
        scaled_size(self.size_grade)
    }

    /// Whether quotient `quotient` is used by some stored infix.
    pub fn is_occupied(&self, quotient: usize) -> (r: bool)
        requires
            self.wf(),
            quotient < TARGET_SIZE,
        ensures
            r == has_quotient(self@, self.spec_remainder_size(), quotient as int),
    {
        get_bit(&self.occupieds, quotient)
    }

    /// Whether slot `slot_pos` ends a run.
    pub fn is_runend(&self, slot_pos: usize) -> (r: bool)
        requires
            self.wf(),
            slot_pos < capacity(self.spec_size_grade()),
        ensures
            r == (slot_pos < self@.len() && is_run_end(
                self@,
                self.spec_remainder_size(),
                slot_pos as int,
            )),
    {
        proof {
            lemma_words_cover(capacity(self.size_grade as int));
        }
        get_bit(&self.runends, slot_pos)
    }

    /// The remainder held in slot `slot_index`.
    pub fn read_slot(&self, slot_index: usize) -> (v: u64)
        requires
            self.wf(),
            slot_index < capacity(self.spec_size_grade()),
        ensures
            slot_index < self@.len() ==> v == rem(
                self@[slot_index as int],
                self.spec_remainder_size(),
            ),
    {
        let ghost cap = capacity(self.size_grade as int);
        let ghost r = self.remainder_size as int;
        proof {
            lemma_words_cover(cap * r);
            assert((slot_index + 1) * r <= cap * r) by (nonlinear_arith)
                requires
                    slot_index < cap,
                    0 <= r,
            ;
            assert(cap * r <= 2326 * 53) by (nonlinear_arith)
                requires
                    cap <= 2326,
                    0 <= r <= 53,
            ;
        }
        let v = read_slot_bits(&self.slots, self.remainder_size, slot_index);
        proof {
            if slot_index < self@.len() {
                let c = self@[slot_index as int];
                assert forall|k: u64| k < 64 implies #[trigger] word_bit(v, k) == word_bit(
                    rem(c, r as u64),
                    k,
                ) by {
                    crate::bitmap::lemma_masked_bit(c, r as u64, k);
                    if k < r {
                        assert(slot_bit(bits_of(self.slots@), r as nat, slot_index as int, k as int)
                            == word_bit(c, k));
                    }
                }
                lemma_bits_equal(v, rem(c, r as u64));
            }
        }
        v
    }

    /// Cached number of used quotients in the first half of occupieds.
    fn occupieds_half_popcount(&self) -> (c: usize)
        requires
            self.wf(),
        ensures
            c == ones_before(bits_of(self.occupieds@), 512),
    {
        proof {
            crate::bitmap::lemma_ones_before_bound(bits_of(self.occupieds@), 512);
        }
        (self.popcounts >> 32) as usize
    }

    /// Start of the run of `quotient`: the first slot whose quotient is `quotient` or more.
    fn run_start(&self, quotient: usize) -> (start: usize)
        requires
            self.wf(),
            quotient < TARGET_SIZE,
        ensures
            start <= self@.len(),
            forall|i: int|
                0 <= i < start ==> (quot(#[trigger] self@[i], self.spec_remainder_size()) as int)
                    < quotient,
            forall|i: int|
                start <= i < self@.len() ==> (quot(#[trigger] self@[i], self.spec_remainder_size())
                    as int) >= quotient,
    {
        let ghost s = self.contents@;
        let ghost r = self.remainder_size as u64;
        let ghost ob = bits_of(self.occupieds@);
        let ghost rb = bits_of(self.runends@);
        let ghost cap = capacity(self.size_grade as int);
        let ghost f = lemma_boundary(s, r, quotient as int);
        proof {
            lemma_rank_occupieds(ob, rb, bits_of(self.slots@), r, cap, s, quotient as int, f);
            lemma_words_cover(cap);
            if f > 0 {
                assert(rb[f - 1]) by {
                    if f < s.len() {
                        assert(quot(s[f], r) >= quotient);
                    }
                }
                lemma_ones_before_mono(rb, f - 1, f);
            }
        }
        let k = rank_cached(
            &self.occupieds,
            quotient,
            TARGET_SIZE / 2,
            self.occupieds_half_popcount(),
        );
        if k == 0 {
            0
        } else {
            proof {
                crate::bitmap::lemma_ones_before_mono(rb, f, rb.len() as int);
            }
            match select(&self.runends, k - 1) {
                Some(p) => {
                    proof {
                        lemma_select_unique(rb, p as int, f - 1);
                    }
                    p + 1
                },
                None => 0,
            }
        }
    }

    /// First and last slot of the run of `quotient`, if some infix has that quotient.
    fn get_run_bounds(&self, quotient: usize) -> (res: Option<(usize, usize)>)
        requires
            self.wf(),
            quotient < TARGET_SIZE,
        ensures
            res is Some <==> has_quotient(self@, self.spec_remainder_size(), quotient as int),
            res matches Some((a, e)) ==> a <= e < self@.len() && (forall|i: int|
                0 <= i < a ==> (quot(#[trigger] self@[i], self.spec_remainder_size()) as int)
                    < quotient) && (forall|i: int|
                a <= i <= e ==> (quot(#[trigger] self@[i], self.spec_remainder_size()) as int)
                    == quotient) && (forall|i: int|
                e < i < self@.len() ==> (quot(#[trigger] self@[i], self.spec_remainder_size())
                    as int) > quotient),
    {
        if !self.is_occupied(quotient) {
            return None;
        }
        let ghost s = self.contents@;
        let ghost r = self.remainder_size as u64;
        let ghost ob = bits_of(self.occupieds@);
        let ghost rb = bits_of(self.runends@);
        let ghost cap = capacity(self.size_grade as int);
        let start = self.run_start(quotient);
        let ghost g = lemma_boundary(s, r, quotient + 1);
        proof {
            lemma_rank_occupieds(ob, rb, bits_of(self.slots@), r, cap, s, quotient as int, start as int);
            lemma_words_cover(cap);
            let i = choose|i: int| 0 <= i < s.len() && quot(s[i], r) == quotient;
            assert(start <= i < g);
            assert(rb[g - 1]) by {
                if g < s.len() {
                    assert(quot(s[g], r) >= quotient + 1);
                }
            }
            assert forall|p: int| start <= p < g - 1 implies !#[trigger] rb[p] by {
                assert(quot(s[p], r) == quotient);
                assert(quot(s[p + 1], r) == quotient);
            }
            lemma_no_ones(rb, start as int, g - 1);
            crate::bitmap::lemma_ones_before_mono(rb, g - 1, rb.len() as int);
        }
        let k = rank_cached(
            &self.occupieds,
            quotient,
            TARGET_SIZE / 2,
            self.occupieds_half_popcount(),
        );
        match select(&self.runends, k) {
            Some(e) => {
                proof {
                    lemma_select_unique(rb, e as int, g - 1);
                }
                Some((start, e))
            },
            None => None,
        }
    }

    /// Whether the run of `quotient` holds the remainder `target_remainder`.
    fn find_remainder_in_run(&self, quotient: usize, target_remainder: u64) -> (found: bool)
        requires
            self.wf(),
            quotient < TARGET_SIZE,
        ensures
            found == exists|i: int|
                0 <= i < self@.len() && quot(#[trigger] self@[i], self.spec_remainder_size())
                    == quotient && rem(self@[i], self.spec_remainder_size()) == target_remainder,
    {
        let (run_start, run_end) = match self.get_run_bounds(quotient) {
            Some(bounds) => bounds,
            None => {
                return false;
            },
        };
        let ghost s = self@;
        let ghost r = self.spec_remainder_size();
        let mut pos = run_start;
        while pos <= run_end
            invariant
                self.wf(),
                s == self@,
                r == self.spec_remainder_size(),
                run_start <= pos <= run_end + 1,
                run_end < s.len(),
                forall|i: int| run_start <= i <= run_end ==> quot(#[trigger] s[i], r) == quotient,
                forall|i: int|
                    0 <= i < s.len() && !(run_start <= i <= run_end) ==> quot(#[trigger] s[i], r)
                        != quotient,
                forall|i: int| run_start <= i < pos ==> rem(#[trigger] s[i], r) != target_remainder,
            decreases run_end + 1 - pos,
        {
            proof {
                lemma_capacity_bounds(self.size_grade as int);
            }
            let remainder = self.read_slot(pos);
            if remainder == target_remainder {
                return true;
            }
            pos = pos + 1;
        }
        false
    }

    /// Whether the store holds the infix `infix` (its quotient and remainder bits).
    pub fn query_infix(&self, infix: u64) -> (found: bool)
        requires
            self.wf(),
        ensures
            found == self@.contains(canonical(infix, self.spec_remainder_size())),
    {
        let ghost r = self.spec_remainder_size();
        let (quotient, remainder) = Self::split_infix(infix, self.quotient_size, self.remainder_size);
        proof {
            lemma_split_join(infix, r);
            lemma_join(quotient, remainder, r);
        }
        if !self.is_occupied(quotient as usize) {
            proof {
                let c = canonical(infix, r);
                if self@.contains(c) {
                    let i = choose|i: int| 0 <= i < self@.len() && self@[i] == c;
                    assert(has_quotient(self@, r, quotient as int));
                }
            }
            return false;
        }
        let found = self.find_remainder_in_run(quotient as usize, remainder);
        proof {
            let c = canonical(infix, r);
            if found {
                let i = choose|i: int|
                    0 <= i < self@.len() && quot(#[trigger] self@[i], r) == quotient && rem(
                        self@[i],
                        r,
                    ) == remainder;
                lemma_order(self@[i], c, r);
            }
            if self@.contains(c) {
                let i = choose|i: int| 0 <= i < self@.len() && self@[i] == c;
                assert(quot(self@[i], r) == quotient);
            }
        }
        found
    }

    /// The infix of `key` in the bracket `[predecessor_key, successor_key]`.
    fn convert_key_to_infix(
        &self,
        key: u64,
        predecessor_key: u64,
        successor_key: u64,
        remainder_size: u8,
    ) -> (infix: u64)
        requires
            remainder_size <= MAX_REMAINDER_SIZE,
        ensures
            infix == infix_of(key, predecessor_key, successor_key, (10 + remainder_size) as u64),
            infix < 1u64 << ((10 + remainder_size) as u64),
    {
        extract_partial_key(key, predecessor_key, successor_key, QUOTIENT_SIZE, remainder_size)
    }

    /// Whether the store holds the infix of `query_key` in the bracket
    /// `[predecessor_key, successor_key]`.
    pub fn point_query(
        &self,
        query_key: u64,
        predecessor_key: u64,
        successor_key: u64,
        remainder_size: u8,
    ) -> (found: bool)
        requires
            self.wf(),
            remainder_size <= MAX_REMAINDER_SIZE,
        ensures
            found == self@.contains(
                canonical(
                    infix_of(query_key, predecessor_key, successor_key, (10 + remainder_size) as u64),
                    self.spec_remainder_size(),
                ),
            ),
    {
        let infix = self.convert_key_to_infix(
            query_key,
            predecessor_key,
            successor_key,
            remainder_size,
        );
        self.query_infix(infix)
    }

    /// Whether the store holds an infix between those of `start_key` and `end_key` in the
    /// bracket `[predecessor_key, successor_key]`; false when `start_key > end_key`.
    pub fn range_query(
        &self,
        start_key: u64,
        end_key: u64,
        predecessor_key: u64,
        successor_key: u64,
        remainder_size: u8,
    ) -> (found: bool)
        requires
            self.wf(),
            remainder_size as u64 == self.spec_remainder_size(),
            start_key <= end_key ==> predecessor_key <= start_key && end_key <= successor_key,
        ensures
            found == (start_key <= end_key && exists|i: int|
                0 <= i < self@.len() && infix_of(
                    start_key,
                    predecessor_key,
                    successor_key,
                    (10 + remainder_size) as u64,
                ) <= #[trigger] self@[i] <= infix_of(
                    end_key,
                    predecessor_key,
                    successor_key,
                    (10 + remainder_size) as u64,
                )),
    {
        if start_key > end_key {
            return false;
        }
        let start_infix = self.convert_key_to_infix(
            start_key,
            predecessor_key,
            successor_key,
            remainder_size,
        );
        let end_infix = self.convert_key_to_infix(
            end_key,
            predecessor_key,
            successor_key,
            remainder_size,
        );
        proof {
            lemma_infix_monotone(
                predecessor_key,
                successor_key,
                start_key,
                end_key,
                (10 + remainder_size) as u64,
            );
            lemma_canonical_small(start_infix, remainder_size as u64);
            lemma_canonical_small(end_infix, remainder_size as u64);
        }
        self.query_infix_range(start_infix, end_infix)
    }

    /// Whether the run of `quotient` holds a remainder in `[start_remainder, end_remainder]`,
    /// scanning from the end of the run.
    fn scan_run_for_range(&self, quotient: usize, start_remainder: u64, end_remainder: u64) -> (found:
        bool)
        requires
            self.wf(),
            quotient < TARGET_SIZE,
        ensures
            found == exists|i: int|
                0 <= i < self@.len() && quot(#[trigger] self@[i], self.spec_remainder_size())
                    == quotient && start_remainder <= rem(self@[i], self.spec_remainder_size())
                    <= end_remainder,
    {
        let (run_start, run_end) = match self.get_run_bounds(quotient) {
            Some(bounds) => bounds,
            None => return false,
        };
        let ghost s = self@;
        let ghost r = self.spec_remainder_size();
        let mut pos = run_end + 1;
        while pos > run_start
            invariant
                self.wf(),
                s == self@,
                r == self.spec_remainder_size(),
                run_start <= pos <= run_end + 1,
                run_end < s.len(),
                forall|i: int| run_start <= i <= run_end ==> quot(#[trigger] s[i], r) == quotient,
                forall|i: int|
                    0 <= i < s.len() && !(run_start <= i <= run_end) ==> quot(#[trigger] s[i], r)
                        != quotient,
                forall|i: int| pos <= i <= run_end ==> rem(#[trigger] s[i], r) > end_remainder,
            decreases pos,
        {
            proof {
                lemma_capacity_bounds(self.size_grade as int);
            }
            let remainder = self.read_slot(pos - 1);
            if remainder >= start_remainder && remainder <= end_remainder {
                return true;
            }
            if remainder < start_remainder {
                proof {
                    assert forall|i: int|
                        0 <= i < s.len() && quot(#[trigger] s[i], r) == quotient implies !(
                        start_remainder <= rem(s[i], r) <= end_remainder) by {
                        if i < pos - 1 {
                            lemma_order(s[i], s[pos - 1], r);
                        }
                    }
                }
                return false;
            }
            pos = pos - 1;
        }
        false
    }

    /// Whether the run of `quotient` holds a remainder at least `threshold_remainder`
    /// (`ascending`) or at most `threshold_remainder` (not `ascending`).
    fn scan_run_from_remainder(&self, quotient: usize, threshold_remainder: u64, ascending: bool) -> (found:
        bool)
        requires
            self.wf(),
            quotient < TARGET_SIZE,
        ensures
            found == exists|i: int|
                0 <= i < self@.len() && quot(#[trigger] self@[i], self.spec_remainder_size())
                    == quotient && if ascending {
                    rem(self@[i], self.spec_remainder_size()) >= threshold_remainder
                } else {
                    rem(self@[i], self.spec_remainder_size()) <= threshold_remainder
                },
    {
        let (run_start, run_end) = match self.get_run_bounds(quotient) {
            Some(bounds) => bounds,
            None => return false,
        };
        let ghost s = self@;
        let ghost r = self.spec_remainder_size();
        proof {
            lemma_capacity_bounds(self.size_grade as int);
        }
        if ascending {
            let mut pos = run_start;
            while pos <= run_end
                invariant
                    self.wf(),
                    s == self@,
                    r == self.spec_remainder_size(),
                    run_start <= pos <= run_end + 1,
                    run_end < s.len(),
                    forall|i: int| run_start <= i <= run_end ==> quot(#[trigger] s[i], r) == quotient,
                    forall|i: int|
                        0 <= i < s.len() && !(run_start <= i <= run_end) ==> quot(#[trigger] s[i], r)
                            != quotient,
                    forall|i: int| run_start <= i < pos ==> rem(#[trigger] s[i], r) < threshold_remainder,
                    ascending,
                decreases run_end + 1 - pos,
            {
                let remainder = self.read_slot(pos);
                if remainder >= threshold_remainder {
                    assert(quot(s[pos as int], r) == quotient);
                    return true;
                }
                pos = pos + 1;
            }
        } else {
            let mut pos = run_end + 1;
            while pos > run_start
                invariant
                    self.wf(),
                    s == self@,
                    r == self.spec_remainder_size(),
                    run_start <= pos <= run_end + 1,
                    run_end < s.len(),
                    forall|i: int| run_start <= i <= run_end ==> quot(#[trigger] s[i], r) == quotient,
                    forall|i: int|
                        0 <= i < s.len() && !(run_start <= i <= run_end) ==> quot(#[trigger] s[i], r)
                            != quotient,
                    forall|i: int| pos <= i <= run_end ==> rem(#[trigger] s[i], r) > threshold_remainder,
                    !ascending,
                decreases pos,
            {
                let remainder = self.read_slot(pos - 1);
                if remainder <= threshold_remainder {
                    assert(quot(s[pos - 1], r) == quotient);
                    return true;
                }
                pos = pos - 1;
            }
        }
        false
    }

    /// Whether the store holds an infix in `[infix_lo, infix_hi]`.
    pub fn query_infix_range(&self, infix_lo: u64, infix_hi: u64) -> (found: bool)
        requires
            self.wf(),
            infix_lo <= infix_hi,
            canonical(infix_lo, self.spec_remainder_size()) == infix_lo,
            canonical(infix_hi, self.spec_remainder_size()) == infix_hi,
        ensures
            found == exists|i: int| 0 <= i < self@.len() && infix_lo <= #[trigger] self@[i] <= infix_hi,
    {
        let ghost s = self@;
        let ghost r = self.spec_remainder_size();
        let (start_quotient, start_remainder) = Self::split_infix(
            infix_lo,
            self.quotient_size,
            self.remainder_size,
        );
        let (end_quotient, end_remainder) = Self::split_infix(
            infix_hi,
            self.quotient_size,
            self.remainder_size,
        );
        proof {
            lemma_split_join(infix_lo, r);
            lemma_join(start_quotient, start_remainder, r);
            lemma_split_join(infix_hi, r);
            lemma_join(end_quotient, end_remainder, r);
            lemma_order(infix_lo, infix_hi, r);
            // where an infix stands against the two ends, by its quotient and remainder
            assert forall|i: int| 0 <= i < s.len() implies (infix_lo <= #[trigger] s[i] <= infix_hi)
                == ((quot(s[i], r) == start_quotient ==> rem(s[i], r) >= start_remainder) && (quot(
                s[i],
                r,
            ) == end_quotient ==> rem(s[i], r) <= end_remainder) && start_quotient <= quot(s[i], r)
                <= end_quotient) by {
                lemma_order(infix_lo, s[i], r);
                lemma_order(s[i], infix_hi, r);
            }
        }
        if start_quotient == end_quotient {
            return self.query_single_quotient_range(
                start_quotient as usize,
                start_remainder,
                end_remainder,
            );
        }
        self.query_multiple_quotient_range(
            start_quotient as usize,
            start_remainder,
            end_quotient as usize,
            end_remainder,
        )
    }

    /// Range query within one quotient: whether its run holds a remainder in
    /// `[start_remainder, end_remainder]`.
    fn query_single_quotient_range(&self, quotient: usize, start_remainder: u64, end_remainder: u64) -> (found:
        bool)
        requires
            self.wf(),
            quotient < TARGET_SIZE,
        ensures
            found == exists|i: int|
                0 <= i < self@.len() && quot(#[trigger] self@[i], self.spec_remainder_size())
                    == quotient && start_remainder <= rem(self@[i], self.spec_remainder_size())
                    <= end_remainder,
    {
        if !self.is_occupied(quotient) {
            proof {
                if exists|i: int|
                    0 <= i < self@.len() && quot(#[trigger] self@[i], self.spec_remainder_size())
                        == quotient && start_remainder <= rem(self@[i], self.spec_remainder_size())
                        <= end_remainder {
                    let i = choose|i: int|
                        0 <= i < self@.len() && quot(#[trigger] self@[i], self.spec_remainder_size())
                            == quotient && start_remainder <= rem(self@[i], self.spec_remainder_size())
                            <= end_remainder;
                    assert(has_quotient(self@, self.spec_remainder_size(), quotient as int));
                }
            }
            return false;
        }
        self.scan_run_for_range(quotient, start_remainder, end_remainder)
    }

    /// Range query across quotients `start_quotient < end_quotient`: whether some infix has
    /// a quotient strictly between them, or the first quotient with a remainder at least
    /// `start_remainder`, or the last with a remainder at most `end_remainder`.
    fn query_multiple_quotient_range(
        &self,
        start_quotient: usize,
        start_remainder: u64,
        end_quotient: usize,
        end_remainder: u64,
    ) -> (found: bool)
        requires
            self.wf(),
            start_quotient < end_quotient < TARGET_SIZE,
        ensures
            found == exists|i: int|
                0 <= i < self@.len() && ({
                    let q = quot(#[trigger] self@[i], self.spec_remainder_size());
                    let rr = rem(self@[i], self.spec_remainder_size());
                    (q == start_quotient && rr >= start_remainder) || (start_quotient < q
                        < end_quotient) || (q == end_quotient && rr <= end_remainder)
                }),
    {
        let ghost s = self@;
        let ghost r = self.spec_remainder_size();
        if start_quotient + 1 < end_quotient {
            let between = has_bits_in_range(&self.occupieds, start_quotient + 1, end_quotient);
            if between {
                proof {
                    let ob = bits_of(self.occupieds@);
                    let q = choose|q: int|
                        start_quotient + 1 <= q < end_quotient && 0 <= q < ob.len() && #[trigger] ob[q];
                    assert(has_quotient(s, r, q));
                    let i = choose|i: int| 0 <= i < s.len() && quot(s[i], r) == q;
                    assert(start_quotient < quot(s[i], r) < end_quotient);
                }
                return true;
            }
        }
        proof {
            let ob = bits_of(self.occupieds@);
            assert forall|i: int| 0 <= i < s.len() implies !(start_quotient < quot(
                #[trigger] s[i],
                r,
            ) < end_quotient) by {
                let q = quot(s[i], r) as int;
                if start_quotient < q < end_quotient {
                    assert(has_quotient(s, r, q));
                    assert(ob[q]);
                }
            }
        }
        if self.is_occupied(start_quotient) {
            if self.scan_run_from_remainder(start_quotient, start_remainder, true) {
                return true;
            }
        }
        if self.is_occupied(end_quotient) {
            if self.scan_run_from_remainder(end_quotient, end_remainder, false) {
                return true;
            }
        }
        proof {
            assert forall|i: int| 0 <= i < s.len() implies !({
                let q = quot(#[trigger] s[i], r);
                let rr = rem(s[i], r);
                (q == start_quotient && rr >= start_remainder) || (start_quotient < q < end_quotient)
                    || (q == end_quotient && rr <= end_remainder)
            }) by {
                if quot(s[i], r) == start_quotient {
                    assert(has_quotient(s, r, start_quotient as int));
                } else if quot(s[i], r) == end_quotient {
                    assert(has_quotient(s, r, end_quotient as int));
                }
            }
        }
        false
    }

    /// Move the store to size grade `new_size_grade`: occupieds are kept as they are,
    /// runends and slots in use are copied, the rest of the new capacity is zero.
    fn resize_to(&mut self, new_size_grade: u8)
        requires
            old(self).wf(),
            new_size_grade < 31,
            old(self)@.len() <= capacity(new_size_grade as int),
        ensures
            final(self).wf(),
            final(self)@ == old(self)@,
            final(self).spec_remainder_size() == old(self).spec_remainder_size(),
            final(self).spec_size_grade() == new_size_grade,
    {
        let ghost s = self.contents@;
        let ghost r = self.remainder_size as u64;
        let ghost rb = bits_of(self.runends@);
        let ghost sb = bits_of(self.slots@);
        let n = self.elem_count as usize;
        let rs = self.remainder_size as usize;
        let new_num_slots = scaled_size(new_size_grade);
        let old_num_slots = scaled_size(self.size_grade);
        let ghost cap = new_num_slots as int;
        proof {
            assert(new_num_slots * rs <= 2326 * 53 && n * rs <= new_num_slots * rs && n * rs
                <= old_num_slots * rs) by (nonlinear_arith)
                requires
                    new_num_slots <= 2326,
                    rs <= 53,
                    n <= new_num_slots,
                    n <= old_num_slots,
            ;
            lemma_words_cover(cap);
            lemma_words_cover(cap * r);
            lemma_words_cover(n * r);
        }
        let mut new_runends = zeroed_words((new_num_slots + WORD_BITS - 1) / WORD_BITS);
        let mut new_slots = zeroed_words((new_num_slots * rs + WORD_BITS - 1) / WORD_BITS);
        let valid_runends_words = (n + WORD_BITS - 1) / WORD_BITS;
        copy_words(&mut new_runends, &self.runends, valid_runends_words);
        let valid_slots_words = (n * rs + WORD_BITS - 1) / WORD_BITS;
        copy_words(&mut new_slots, &self.slots, valid_slots_words);
        proof {
            let rb2 = bits_of(new_runends@);
            let sb2 = bits_of(new_slots@);
            assert forall|p: int| 0 <= p < rb2.len() implies #[trigger] rb2[p] == (p < s.len()
                && is_run_end(s, r, p)) by {
                if p < 64 * valid_runends_words {
                    assert(rb[p] == (p < s.len() && is_run_end(s, r, p)));
                }
            }
            assert forall|i: int, t: int| 0 <= i < s.len() && 0 <= t < r implies #[trigger] slot_bit(
                sb2,
                r as nat,
                i,
                t,
            ) == word_bit(s[i], t as u64) by {
                lemma_slot_in_range(i, t, r as int, s.len() as int);
                assert(slot_bit(sb, r as nat, i, t) == word_bit(s[i], t as u64));
            }
        }
        self.popcounts = compute_popcounts(&self.occupieds, &new_runends, new_num_slots);
        self.runends = new_runends;
        self.slots = new_slots;
        self.size_grade = new_size_grade;
    }

    /// Grow one size grade; fails at the largest grade.
    pub fn resize_up(&mut self) -> (grown: bool)
        requires
            old(self).wf(),
        ensures
            final(self).wf(),
            final(self)@ == old(self)@,
            final(self).spec_remainder_size() == old(self).spec_remainder_size(),
            grown == (old(self).spec_size_grade() < 30),
            final(self).spec_size_grade() == if grown {
                old(self).spec_size_grade() + 1
            } else {
                old(self).spec_size_grade()
            },
    {
        if self.size_grade as usize >= SIZE_GRADE_COUNT - 1 {
            return false;
        }
        proof {
            lemma_capacity_bounds(self.size_grade + 1);
        }
        self.resize_to(self.size_grade + 1);
        true
    }

    /// Shrink one size grade when the contents fit; fails at the smallest grade.
    pub fn resize_down(&mut self) -> (shrunk: bool)
        requires
            old(self).wf(),
            old(self).spec_size_grade() > 0 ==> old(self)@.len() <= capacity(
                old(self).spec_size_grade() - 1,
            ),
        ensures
            final(self).wf(),
            final(self)@ == old(self)@,
            final(self).spec_remainder_size() == old(self).spec_remainder_size(),
            shrunk == (old(self).spec_size_grade() > 0),
            final(self).spec_size_grade() == if shrunk {
                old(self).spec_size_grade() - 1
            } else {
                old(self).spec_size_grade()
            },
    {
        if self.size_grade == 0 {
            return false;
        }
        self.resize_to(self.size_grade - 1);
        true
    }

    /// Where the infix `c` (quotient `quotient`, remainder `remainder`) goes among the stored
    /// ones, or `None` when it is stored already. Also tells whether its quotient is new,
    /// and whether it goes right after the end `run_end` of its quotient's run.
    fn insert_position(&self, quotient: usize, remainder: u64, Ghost(c): Ghost<u64>) -> (res: Option<
        (usize, bool, bool, usize),
    >)
        requires
            self.wf(),
            quotient < TARGET_SIZE,
            quot(c, self.spec_remainder_size()) == quotient,
            rem(c, self.spec_remainder_size()) == remainder,
        ensures
            res is None ==> self@.contains(c),
            res matches Some((pos, is_new, extends, run_end)) ==> {
                let s = self@;
                let r = self.spec_remainder_size();
                &&& pos <= s.len()
                &&& forall|j: int| 0 <= j < pos ==> #[trigger] s[j] < c
                &&& forall|j: int| pos <= j < s.len() ==> #[trigger] s[j] > c
                &&& is_new == !has_quotient(s, r, quotient as int)
                &&& extends ==> !is_new && pos > 0 && run_end == pos - 1
                &&& pos > 0 && !extends ==> is_run_end(s, r, pos - 1) == (quot(s[pos - 1], r)
                    != quotient)
                &&& extends ==> quot(s[pos - 1], r) == quotient
                &&& (is_new || extends) == (pos == s.len() || quot(s[pos as int], r) != quotient)
            },
    {
        let ghost s = self@;
        let ghost r = self.spec_remainder_size();
        if !self.is_occupied(quotient) {
            let pos = self.run_start(quotient);
            proof {
                assert forall|i: int| 0 <= i < s.len() implies (#[trigger] s[i] < c) == (i < pos) by {
                    lemma_order(s[i], c, r);
                    if quot(s[i], r) == quotient {
                        assert(has_quotient(s, r, quotient as int));
                    }
                }
                if pos < s.len() && quot(s[pos as int], r) == quotient {
                    assert(has_quotient(s, r, quotient as int));
                }
            }
            return Some((pos, true, false, 0));
        }
        let (run_start, run_end) = match self.get_run_bounds(quotient) {
            Some(bounds) => bounds,
            None => (0, 0),
        };
        let mut found_pos = run_end + 1;
        let mut i = run_start;
        loop
            invariant_except_break
                found_pos == run_end + 1,
            invariant
                self.wf(),
                s == self@,
                r == self.spec_remainder_size(),
                quot(c, r) == quotient,
                rem(c, r) == remainder,
                run_start <= i <= run_end + 1,
                run_end < s.len(),
                forall|j: int| run_start <= j <= run_end ==> quot(#[trigger] s[j], r) == quotient,
                forall|j: int| run_start <= j < i ==> rem(#[trigger] s[j], r) < remainder,
            ensures
                run_start <= found_pos <= run_end + 1,
                forall|j: int| run_start <= j < found_pos ==> rem(#[trigger] s[j], r) < remainder,
                found_pos <= run_end ==> rem(s[found_pos as int], r) > remainder,
            decreases run_end + 1 - i,
        {
            if i > run_end {
                break;
            }
            proof {
                lemma_capacity_bounds(self.size_grade as int);
            }
            let val = self.read_slot(i);
            if val == remainder {
                proof {
                    lemma_order(s[i as int], c, r);
                }
                return None;
            }
            if val > remainder {
                found_pos = i;
                break;
            }
            i = i + 1;
        }
        let extends = found_pos == run_end + 1;
        proof {
            assert forall|j: int| 0 <= j < s.len() implies (#[trigger] s[j] < c) == (j < found_pos) by {
                lemma_order(s[j], c, r);
                if run_start <= j <= run_end && found_pos <= run_end {
                    if j > found_pos {
                        assert(s[found_pos as int] < s[j]);
                        lemma_order(s[found_pos as int], s[j], r);
                    }
                }
            }
            if found_pos > 0 && !extends && found_pos == run_start {
                assert(quot(s[found_pos - 1], r) < quotient);
            }
            if found_pos < s.len() && extends {
                assert(quot(s[found_pos as int], r) > quotient);
            }
        }
        Some((found_pos, false, extends, run_end))
    }

    /// Insert an infix. Fails, leaving the store as it was, only when the store is full at
    /// its largest size grade; an infix already stored is accepted without change.
    pub fn insert(&mut self, infix: u64) -> (ok: bool)
        requires
            old(self).wf(),
        ensures
            final(self).wf(),
            final(self).spec_remainder_size() == old(self).spec_remainder_size(),
            ok == (old(self)@.len() < capacity(30)),
            final(self).spec_size_grade() == if old(self)@.len() >= capacity(
                old(self).spec_size_grade(),
            ) && old(self).spec_size_grade() < 30 {
                old(self).spec_size_grade() + 1
            } else {
                old(self).spec_size_grade()
            },
            ok ==> forall|x: u64|
                final(self)@.contains(x) <==> (old(self)@.contains(x) || x == canonical(
                    infix,
                    old(self).spec_remainder_size(),
                )),
            !ok ==> final(self)@ == old(self)@,
    {
        let ghost r = self.spec_remainder_size();
        let num_slots = scaled_size(self.size_grade);
        if self.elem_count as usize >= num_slots {
            proof {
                lemma_capacity_bounds(self.size_grade as int);
                if self.size_grade < 30 {
                    lemma_capacity_mono(self.size_grade as int, 30);
                }
            }
            if !self.resize_up() {
                return false;
            }
        }
        proof {
            lemma_capacity_bounds(self.size_grade as int);
            lemma_capacity_mono(self.size_grade as int, 30);
        }
        let ghost s = self.contents@;
        assert(s == old(self)@);
        let (quotient, remainder) = Self::split_infix(infix, self.quotient_size, self.remainder_size);
        let ghost c = (quotient << r) | remainder;
        proof {
            lemma_split_join(infix, r);
            lemma_join(quotient, remainder, r);
        }
        let q = quotient as usize;
        let (insert_pos, is_new_quotient, extends, old_run_end) = match self.insert_position(
            q,
            remainder,
            Ghost(c),
        ) {
            Some(found) => found,
            None => {
                return true;
            },
        };
        let n = self.elem_count as usize;
        let ghost ob = bits_of(self.occupieds@);
        let ghost rb = bits_of(self.runends@);
        let ghost sb = bits_of(self.slots@);
        let ghost cap = capacity(self.size_grade as int);
        let ghost rr = self.remainder_size as int;
        proof {
            lemma_words_cover(cap);
            lemma_words_cover(cap * rr);
            assert((n + 1) * rr <= cap * rr && cap * rr <= 2326 * 53 && (insert_pos + 1) * rr <= (n
                + 1) * rr) by (nonlinear_arith)
                requires
                    n + 1 <= cap,
                    cap <= 2326,
                    0 <= rr <= 53,
                    insert_pos <= n,
            ;
        }
        shift_slots_right(&mut self.slots, insert_pos, n, self.remainder_size);
        shift_runends_right(&mut self.runends, insert_pos, n);
        let ghost sb1 = bits_of(self.slots@);
        let ghost rb1 = bits_of(self.runends@);
        write_slot(&mut self.slots, insert_pos, remainder, self.remainder_size);
        if is_new_quotient {
            set_bit(&mut self.runends, insert_pos);
            set_bit(&mut self.occupieds, q);
        } else if extends {
            clear_bit(&mut self.runends, old_run_end);
            set_bit(&mut self.runends, insert_pos);
        }
        proof {
            let sb2 = bits_of(self.slots@);
            if !is_new_quotient {
                assert(bits_of(self.occupieds@) =~= ob.update(quot(c, r) as int, true));
            }
            assert forall|j: int, t: int| 0 <= j <= s.len() && 0 <= t < r implies #[trigger] slot_bit(
                sb2,
                r as nat,
                j,
                t,
            ) == if j < insert_pos {
                slot_bit(sb, r as nat, j, t)
            } else if j == insert_pos {
                word_bit(c, t as u64)
            } else {
                slot_bit(sb, r as nat, j - 1, t)
            } by {
                assert((j + 1) * rr <= cap * rr) by (nonlinear_arith)
                    requires
                        j + 1 <= cap,
                        0 <= rr,
                ;
                lemma_slot_after_write(sb1, sb2, rr, insert_pos as int, remainder, j, t);
            }
            lemma_insert_runends(
                rb,
                rb1,
                bits_of(self.runends@),
                r,
                cap,
                s,
                c,
                insert_pos as int,
                is_new_quotient,
                extends,
                old_run_end as int,
            );
            lemma_layout_insert(
                ob,
                rb,
                sb,
                bits_of(self.occupieds@),
                bits_of(self.runends@),
                sb2,
                r,
                cap,
                s,
                c,
                insert_pos as int,
            );
        }
        self.elem_count = self.elem_count + 1;
        self.contents = Ghost(s.insert(insert_pos as int, c));
        proof {
            lemma_capacity_bounds(self.size_grade as int);
        }
        self.popcounts = compute_popcounts(&self.occupieds, &self.runends, scaled_size(self.size_grade));
        proof {
            lemma_insert_contains(s, insert_pos as int, c);
            assert(self@ == s.insert(insert_pos as int, c));
            assert(c == canonical(infix, r));
            assert forall|x: u64| self@.contains(x) <==> (old(self)@.contains(x) || x == canonical(
                infix,
                r,
            )) by {
                assert(s.insert(insert_pos as int, c).contains(x) <==> (s.contains(x) || x == c));
            }
        }
        true
    }

    /// Delete an infix. Returns whether it was stored. After a delete the store drops one
    /// size grade when its contents fit in half of the grade below.
    pub fn delete(&mut self, infix: u64) -> (found: bool)
        requires
            old(self).wf(),
        ensures
            final(self).wf(),
            final(self).spec_remainder_size() == old(self).spec_remainder_size(),
            found == old(self)@.contains(canonical(infix, old(self).spec_remainder_size())),
            found ==> forall|x: u64|
                final(self)@.contains(x) <==> (old(self)@.contains(x) && x != canonical(
                    infix,
                    old(self).spec_remainder_size(),
                )),
            !found ==> final(self)@ == old(self)@,
            final(self).spec_size_grade() == if found && old(self).spec_size_grade() > 0
                && final(self)@.len() <= capacity(old(self).spec_size_grade() - 1) / 2 {
                old(self).spec_size_grade() - 1
            } else {
                old(self).spec_size_grade()
            },
    {
        let ghost r = self.spec_remainder_size();
        let ghost s = self.contents@;
        let (quotient, remainder) = Self::split_infix(infix, self.quotient_size, self.remainder_size);
        let ghost c = (quotient << r) | remainder;
        proof {
            lemma_split_join(infix, r);
            lemma_join(quotient, remainder, r);
        }
        let q = quotient as usize;
        if !self.is_occupied(q) {
            proof {
                if s.contains(c) {
                    let i = choose|i: int| 0 <= i < s.len() && s[i] == c;
                    assert(has_quotient(s, r, quotient as int));
                }
            }
            return false;
        }
        let (run_start, run_end) = match self.get_run_bounds(q) {
            Some(bounds) => bounds,
            None => (0, 0),
        };
        let mut i = run_start;
        let mut del_pos: usize = 0;
        let mut present = false;
        while i <= run_end && !present
            invariant
                self.wf(),
                s == self@,
                r == self.spec_remainder_size(),
                quot(c, r) == quotient,
                rem(c, r) == remainder,
                run_start <= i <= run_end + 1,
                run_end < s.len(),
                forall|j: int| run_start <= j <= run_end ==> quot(#[trigger] s[j], r) == quotient,
                forall|j: int| run_start <= j < i ==> rem(#[trigger] s[j], r) != remainder,
                present ==> run_start <= del_pos <= run_end && s[del_pos as int] == c,
            decreases run_end + 1 - i + if present { 0int } else { 1int },
        {
            proof {
                lemma_capacity_bounds(self.size_grade as int);
            }
            if self.read_slot(i) == remainder {
                proof {
                    lemma_order(s[i as int], c, r);
                }
                del_pos = i;
                present = true;
            } else {
                i = i + 1;
            }
        }
        if !present {
            proof {
                if s.contains(c) {
                    let k = choose|k: int| 0 <= k < s.len() && s[k] == c;
                    assert(quot(s[k], r) == quotient);
                }
            }
            return false;
        }
        let pos = del_pos;
        let n = self.elem_count as usize;
        let ghost ob = bits_of(self.occupieds@);
        let ghost rb = bits_of(self.runends@);
        let ghost sb = bits_of(self.slots@);
        let ghost cap = capacity(self.size_grade as int);
        let ghost rr = self.remainder_size as int;
        proof {
            lemma_capacity_bounds(self.size_grade as int);
            lemma_words_cover(cap);
            lemma_words_cover(cap * rr);
            assert(n * rr <= cap * rr && cap * rr <= 2326 * 53) by (nonlinear_arith)
                requires
                    n <= cap,
                    cap <= 2326,
                    0 <= rr <= 53,
            ;
        }
        if run_start == run_end {
            clear_bit(&mut self.occupieds, q);
        } else if pos == run_end {
            set_bit(&mut self.runends, pos - 1);
        }
        let ghost rb1 = bits_of(self.runends@);
        shift_slots_left(&mut self.slots, pos, n, self.remainder_size);
        shift_runends_left(&mut self.runends, pos, n);
        proof {
            let s2 = s.remove(pos as int);
            if pos > 0 {
                assert(rb1[pos - 1] == (pos == n - 1 || quot(s[pos - 1], r) != quot(s[pos + 1], r))) by {
                    if run_start == run_end {
                        assert(rb[pos - 1] == is_run_end(s, r, pos - 1));
                        assert(quot(s[pos - 1], r) < quotient);
                        if pos < n - 1 {
                            assert(quot(s[pos + 1], r) > quotient);
                        }
                    } else if pos == run_end {
                        assert(quot(s[pos - 1], r) == quotient);
                        if pos < n - 1 {
                            assert(quot(s[pos + 1], r) > quotient);
                        }
                    } else {
                        assert(rb[pos - 1] == is_run_end(s, r, pos - 1));
                        assert(quot(s[pos + 1], r) == quotient);
                        if pos > run_start {
                            assert(quot(s[pos - 1], r) == quotient);
                        } else {
                            assert(quot(s[pos - 1], r) < quotient);
                        }
                    }
                }
            }
            let ob2 = bits_of(self.occupieds@);
            assert forall|qq: int| 0 <= qq < 1024 implies #[trigger] ob2[qq] == if qq == quot(
                s[pos as int],
                r,
            ) {
                has_quotient(s2, r, qq)
            } else {
                ob[qq]
            } by {
                if qq == quotient {
                    if run_start == run_end {
                        if has_quotient(s2, r, qq) {
                            let k = choose|k: int| 0 <= k < s2.len() && quot(s2[k], r) == qq;
                            if k < pos {
                                assert(s2[k] == s[k]);
                            } else {
                                assert(s2[k] == s[k + 1]);
                            }
                        }
                    } else {
                        let other: int = if pos == run_start {
                            run_start + 1
                        } else {
                            run_start as int
                        };
                        if other < pos {
                            assert(s2[other] == s[other]);
                        } else {
                            assert(s2[other - 1] == s[other]);
                        }
                    }
                }
            }
            assert forall|j: int, t: int| 0 <= j < n - 1 && 0 <= t < r implies #[trigger] slot_bit(
                bits_of(self.slots@),
                r as nat,
                j,
                t,
            ) == if j < pos {
                slot_bit(sb, r as nat, j, t)
            } else {
                slot_bit(sb, r as nat, j + 1, t)
            } by {
            }
            lemma_layout_remove(
                ob,
                rb,
                sb,
                ob2,
                bits_of(self.runends@),
                bits_of(self.slots@),
                r,
                cap,
                s,
                pos as int,
            );
            lemma_remove_contains(s, pos as int);
        }
        self.elem_count = self.elem_count - 1;
        self.contents = Ghost(s.remove(pos as int));
        self.popcounts = compute_popcounts(&self.occupieds, &self.runends, scaled_size(self.size_grade));
        if self.size_grade > 0 {
            let prev_size_grade = scaled_size(self.size_grade - 1);
            if self.elem_count as usize <= prev_size_grade / 2 {
                self.resize_down();
            }
        }
        true
    }

    /// Load sorted infixes into zeroed bitmaps and slots: each infix not equal to the one
    /// before it goes to the next slot, with its quotient marked in `occupieds` and the end
    /// of its run in `runends`. Returns how many were stored, and which.
    fn load_infixes_to_store(
        occupieds: &mut Vec<u64>,
        runends: &mut Vec<u64>,
        slots: &mut Vec<u64>,
        infixes: &[u64],
        r: u8,
        num_slots: usize,
    ) -> (res: (usize, Ghost<Seq<u64>>))
        requires
            r <= MAX_REMAINDER_SIZE,
            infixes@.len() <= num_slots <= 2326,
            forall|i: int, j: int|
                0 <= i <= j < infixes@.len() ==> canonical(infixes@[i], r as u64) <= canonical(
                    infixes@[j],
                    r as u64,
                ),
            old(occupieds)@.len() == 16,
            old(runends)@.len() == words_for(num_slots as int),
            old(slots)@.len() == words_for(num_slots * r),
            layout_holds(
                bits_of(old(occupieds)@),
                bits_of(old(runends)@),
                bits_of(old(slots)@),
                r as u64,
                num_slots as int,
                Seq::empty(),
            ),
        ensures
            final(occupieds)@.len() == 16,
            final(runends)@.len() == old(runends)@.len(),
            final(slots)@.len() == old(slots)@.len(),
            layout_holds(
                bits_of(final(occupieds)@),
                bits_of(final(runends)@),
                bits_of(final(slots)@),
                r as u64,
                num_slots as int,
                res.1@,
            ),
            res.0 == res.1@.len(),
            forall|x: u64|
                res.1@.contains(x) <==> exists|i: int|
                    0 <= i < infixes@.len() && canonical(infixes@[i], r as u64) == x,
    {
        let ghost rr = r as u64;
        let ghost cap = num_slots as int;
        proof {
            lemma_words_cover(cap);
            lemma_words_cover(cap * r);
            assert(cap * r <= 2326 * 53) by (nonlinear_arith)
                requires
                    cap <= 2326,
                    r <= 53,
            ;
        }
        let mut count: usize = 0;
        let mut prev: Option<u64> = None;
        let ghost mut s: Seq<u64> = Seq::empty();
        let mut j: usize = 0;
        while j < infixes.len()
            invariant
                j <= infixes@.len() <= 2326,
                r <= 53,
                rr == r as u64,
                cap >= infixes@.len(),
                num_slots == cap,
                forall|a: int, b: int|
                    0 <= a <= b < infixes@.len() ==> canonical(infixes@[a], rr) <= canonical(
                        infixes@[b],
                        rr,
                    ),
                occupieds@.len() == 16,
                cap == num_slots,
                cap * r <= 2326 * 53,
                runends@.len() == words_for(cap),
                slots@.len() == words_for(cap * r),
                64 * words_for(cap) >= cap,
                64 * words_for(cap * r) >= cap * r,
                layout_holds(bits_of(occupieds@), bits_of(runends@), bits_of(slots@), rr, cap, s),
                count == s.len(),
                count <= j,
                prev == (if count == 0 {
                    None::<u64>
                } else {
                    Some(s.last())
                }),
                count > 0 ==> s.last() == canonical(infixes@[j - 1], rr),
                forall|x: u64|
                    s.contains(x) <==> exists|i: int|
                        0 <= i < j && canonical(infixes@[i], rr) == x,
            decreases infixes@.len() - j,
        {
            let x = infixes[j];
            let (q, rm) = Self::split_infix(x, QUOTIENT_SIZE, r);
            let c = (q << (r as u64)) | rm;
            proof {
                lemma_split_join(x, rr);
                lemma_join(q, rm, rr);
            }
            let (dup, same_run) = match prev {
                Some(pc) => (pc == c, (pc >> (r as u64)) == q),
                None => (false, false),
            };
            if !dup {
                let ghost ob = bits_of(occupieds@);
                let ghost rb = bits_of(runends@);
                let ghost sb = bits_of(slots@);
                proof {
                    if count > 0 {
                        assert(canonical(infixes@[j - 1], rr) <= canonical(infixes@[j as int], rr));
                    }
                    assert((count + 1) * r <= slots@.len() * 64) by (nonlinear_arith)
                        requires
                            count < cap,
                            64 * words_for(cap * r) >= cap * r,
                            slots@.len() == words_for(cap * r),
                    ;
                }
                write_slot(slots, count, rm, r);
                if same_run {
                    clear_bit(runends, count - 1);
                }
                let ghost rb1 = bits_of(runends@);
                set_bit(runends, count);
                set_bit(occupieds, q as usize);
                proof {
                    assert forall|p: int| 0 <= p < bits_of(slots@).len() implies #[trigger] bits_of(
                        slots@,
                    )[p] == if s.len() * rr <= p < s.len() * rr + rr {
                        word_bit(c, (p - s.len() * rr) as u64)
                    } else {
                        sb[p]
                    } by {
                        if s.len() * rr <= p < s.len() * rr + rr {
                            assert(word_bit(c, (p - s.len() * rr) as u64) == word_bit(
                                rm,
                                (p - s.len() * rr) as u64,
                            ));
                        }
                    }
                    if same_run {
                        assert(rb1 == rb.update(count - 1, false));
                    }
                    lemma_layout_append(
                        ob,
                        rb,
                        sb,
                        bits_of(occupieds@),
                        bits_of(runends@),
                        bits_of(slots@),
                        rr,
                        cap,
                        s,
                        c,
                    );
                    assert forall|x: u64|
                        s.push(c).contains(x) <==> exists|i: int|
                            0 <= i < j + 1 && canonical(infixes@[i], rr) == x by {
                        if s.push(c).contains(x) {
                            let k = choose|k: int| 0 <= k < s.push(c).len() && s.push(c)[k] == x;
                            if k < s.len() {
                                assert(s.contains(x));
                            }
                        }
                        if exists|i: int| 0 <= i < j + 1 && canonical(infixes@[i], rr) == x {
                            let i = choose|i: int| 0 <= i < j + 1 && canonical(infixes@[i], rr) == x;
                            if i < j {
                                assert(s.contains(x));
                                let k = choose|k: int| 0 <= k < s.len() && s[k] == x;
                                assert(s.push(c)[k] == x);
                            } else {
                                assert(s.push(c)[s.len() as int] == x);
                            }
                        }
                    }
                    s = s.push(c);
                }
                prev = Some(c);
                count = count + 1;
            } else {
                proof {
                    assert forall|x: u64|
                        s.contains(x) <==> exists|i: int|
                            0 <= i < j + 1 && canonical(infixes@[i], rr) == x by {
                        if exists|i: int| 0 <= i < j + 1 && canonical(infixes@[i], rr) == x {
                            let i = choose|i: int| 0 <= i < j + 1 && canonical(infixes@[i], rr) == x;
                            if i == j {
                                assert(s[s.len() - 1] == x);
                            }
                        }
                    }
                }
            }
            j = j + 1;
        }
        proof {
            assert forall|x: u64| s.contains(x) <==> exists|i: int|
                0 <= i < infixes@.len() && canonical(infixes@[i], rr) == x by {
            }
        }
        (count, Ghost(s))
    }

    /// Smallest size grade whose capacity holds `num_elements`, or the largest grade.
    fn choose_size_grade(num_elements: usize) -> (g: u8)
        ensures
            g < 31,
            num_elements <= 2326 ==> capacity(g as int) >= num_elements && (g == 0 || capacity(
                g - 1,
            ) < num_elements),
    {
        let mut grade: usize = 0;
        while grade < SIZE_GRADE_COUNT
            invariant
                grade <= 31,
                forall|k: int| 0 <= k < grade ==> capacity(k) < num_elements,
            decreases 31 - grade,
        {
            if scaled_size(grade as u8) >= num_elements {
                return grade as u8;
            }
            grade = grade + 1;
        }
        (SIZE_GRADE_COUNT - 1) as u8
    }
}

} // verus!
