use vstd::prelude::*;

verus! {

/// Number of bits in one word of a bitmap.
pub const WORD_BITS: usize = 64;

/// Bit `j` of the word `w` (bit 0 is the least significant one).
pub open spec fn word_bit(w: u64, j: u64) -> bool {
    (w >> j) & 1u64 == 1u64
}

/// The bitmap held by a sequence of words, little-endian within each word.
pub open spec fn bits_of(data: Seq<u64>) -> Seq<bool> {
    Seq::new((data.len() * 64) as nat, |p: int| word_bit(data[p / 64], (p % 64) as u64))
}

/// Number of set positions in `b[0..pos)`.
pub open spec fn ones_before(b: Seq<bool>, pos: int) -> nat
    decreases pos,
{
    if pos <= 0 {
        0
    } else {
        ones_before(b, pos - 1) + if b[pos - 1] { 1nat } else { 0nat }
    }
}

/// Number of set bits among the `n` lowest bits of `w`.
pub open spec fn word_ones(w: u64, n: int) -> nat
    decreases n,
{
    if n <= 0 {
        0
    } else {
        word_ones(w, n - 1) + if word_bit(w, (n - 1) as u64) { 1nat } else { 0nat }
    }
}

/// The word whose `n` lowest bits are set.
pub open spec fn low_mask(n: u64) -> u64 {
    ((1u64 << n) - 1u64) as u64
}

/// Whether some position of `b` in `[lo, hi)` is set.
pub open spec fn any_set(b: Seq<bool>, lo: int, hi: int) -> bool {
    exists|p: int| lo <= p < hi && 0 <= p < b.len() && #[trigger] b[p]
}

/// Relies on u64::count_ones: the number of ones in the binary representation of `w`.
#[verifier::external_body]
fn popcount(w: u64) -> (r: u32)
    ensures
        r == word_ones(w, 64),
{
    w.count_ones()
}

pub proof fn lemma_ones_before_bound(b: Seq<bool>, pos: int)
    ensures
        ones_before(b, pos) <= if pos < 0 { 0 } else { pos },
    decreases pos,
{
    if pos > 0 {
        lemma_ones_before_bound(b, pos - 1);
    }
}

/// `ones_before` does not decrease, and grows past every set position.
pub proof fn lemma_ones_before_mono(b: Seq<bool>, p: int, q: int)
    requires
        p <= q,
    ensures
        ones_before(b, p) <= ones_before(b, q),
        0 <= p < q && p < b.len() && b[p] ==> ones_before(b, p) + 1 <= ones_before(b, q),
    decreases q - p,
{
    if p < q {
        lemma_ones_before_mono(b, p, q - 1);
        if 0 <= p && p == q - 1 && p < b.len() && b[p] {
        }
    }
}

/// Two set positions with the same number of set positions before them are equal.
pub proof fn lemma_select_unique(b: Seq<bool>, p: int, q: int)
    requires
        0 <= p < b.len(),
        0 <= q < b.len(),
        b[p],
        b[q],
        ones_before(b, p) == ones_before(b, q),
    ensures
        p == q,
{
    if p < q {
        lemma_ones_before_mono(b, p, q);
    } else if q < p {
        lemma_ones_before_mono(b, q, p);
    }
}

/// Every rank below the number of set positions is the rank of a set position.
pub proof fn lemma_select_exists(b: Seq<bool>, pos: int, r: nat)
    requires
        0 <= pos <= b.len(),
        r < ones_before(b, pos),
    ensures
        exists|p: int| 0 <= p < pos && b[p] && ones_before(b, p) == r,
    decreases pos,
{
    if pos > 0 {
        if r < ones_before(b, pos - 1) {
            lemma_select_exists(b, pos - 1, r);
        } else {
            assert(b[pos - 1] && ones_before(b, pos - 1) == r);
        }
    }
}

/// For a bitmap `b` and any `r` below its number of set bits there is exactly one set
/// position `p` with `r` set positions before it (the one that `select` returns), and
/// counting up to and including it gives `r + 1`.
pub proof fn lemma_rank_select_identity(b: Seq<bool>, r: nat)
    requires
        r < ones_before(b, b.len() as int),
    ensures
        exists|p: int| 0 <= p < b.len() && b[p] && ones_before(b, p) == r,
        forall|p: int|
            0 <= p < b.len() && b[p] && ones_before(b, p) == r ==> ones_before(b, p + 1) == r + 1,
        forall|p: int, q: int|
            0 <= p < b.len() && b[p] && ones_before(b, p) == r && 0 <= q < b.len() && b[q]
                && ones_before(b, q) == r ==> p == q,
{
    lemma_select_exists(b, b.len() as int, r);
    assert forall|p: int, q: int|
        0 <= p < b.len() && b[p] && ones_before(b, p) == r && 0 <= q < b.len() && b[q]
            && ones_before(b, q) == r implies p == q by {
        lemma_select_unique(b, p, q);
    }
}

proof fn lemma_word_index(wi: int, j: int)
    requires
        0 <= wi,
        0 <= j < 64,
    ensures
        (64 * wi + j) / 64 == wi,
        (64 * wi + j) % 64 == j,
{
    assert((64 * wi + j) / 64 == wi) by (nonlinear_arith)
        requires
            0 <= wi,
            0 <= j < 64,
    ;
    assert((64 * wi + j) % 64 == j) by (nonlinear_arith)
        requires
            0 <= wi,
            0 <= j < 64,
    ;
}

/// Bit `j` of word `wi` is position `64 * wi + j` of the bitmap.
pub proof fn lemma_bit_of_word(data: Seq<u64>, wi: int, j: int)
    requires
        0 <= wi < data.len(),
        0 <= j < 64,
    ensures
        64 * wi + j < bits_of(data).len(),
        bits_of(data)[64 * wi + j] == word_bit(data[wi], j as u64),
{
    lemma_word_index(wi, j);
    assert(64 * wi + j < data.len() * 64) by (nonlinear_arith)
        requires
            0 <= wi < data.len(),
            0 <= j < 64,
    ;
}

/// Counting across word `wi` adds the ones of that word.
proof fn lemma_ones_across_word(data: Seq<u64>, wi: int, n: int)
    requires
        0 <= wi < data.len(),
        0 <= n <= 64,
    ensures
        ones_before(bits_of(data), 64 * wi + n) == ones_before(bits_of(data), 64 * wi) + word_ones(
            data[wi],
            n,
        ),
    decreases n,
{
    if n > 0 {
        lemma_ones_across_word(data, wi, n - 1);
        lemma_bit_of_word(data, wi, n - 1);
    }
}

pub proof fn lemma_masked_bit(w: u64, n: u64, j: u64)
    requires
        n < 64,
        j < 64,
    ensures
        word_bit(w & low_mask(n), j) == (j < n && word_bit(w, j)),
{
    assert((((w & (((1u64 << n) - 1u64) as u64)) >> j) & 1u64 == 1u64) == (j < n && (w >> j)
        & 1u64 == 1u64)) by (bit_vector)
        requires
            n < 64,
            j < 64,
    ;
}

proof fn lemma_masked_ones(w: u64, n: u64, m: int)
    requires
        n < 64,
        0 <= m <= 64,
    ensures
        word_ones(w & low_mask(n), m) == word_ones(w, if m < n { m } else { n as int }),
    decreases m,
{
    if m > 0 {
        lemma_masked_ones(w, n, m - 1);
        lemma_masked_bit(w, n, (m - 1) as u64);
    }
}

/// The word whose `n` lowest bits are set.
pub fn make_low_mask(n: u64) -> (m: u64)
    requires
        n < 64,
    ensures
        m == low_mask(n),
{
    assert(1u64 << n >= 1u64) by (bit_vector)
        requires
            n < 64,
    ;
    (1u64 << n) - 1
}

/// Count the set bits of `data` in positions `[64 * from_word, pos)`.
fn ones_from_word(data: &[u64], from_word: usize, pos: usize) -> (r: usize)
    requires
        64 * from_word <= pos <= data@.len() * 64,
    ensures
        r + ones_before(bits_of(data@), 64 * from_word as int) == ones_before(
            bits_of(data@),
            pos as int,
        ),
{
    let word_index = pos / WORD_BITS;
    let bit_index = pos % WORD_BITS;
    let ghost b = bits_of(data@);
    let ghost base = ones_before(b, 64 * from_word as int);
    let mut count: usize = 0;
    let mut i: usize = from_word;
    proof {
        lemma_ones_before_bound(b, pos as int);
    }
    while i < word_index
        invariant
            from_word <= i <= word_index,
            word_index == pos / 64,
            64 * from_word <= pos <= data@.len() * 64,
            b == bits_of(data@),
            base == ones_before(b, 64 * from_word as int),
            count + base == ones_before(b, 64 * i as int),
            ones_before(b, pos as int) <= pos,
        decreases word_index - i,
    {
        proof {
            lemma_ones_across_word(data@, i as int, 64);
            lemma_ones_before_mono(b, 64 * (i + 1), pos as int);
        }
        let c = popcount(data[i]);
        count = count + c as usize;
        i = i + 1;
    }
    if bit_index > 0 {
        let mask = make_low_mask(bit_index as u64);
        let c = popcount(data[word_index] & mask);
        proof {
            lemma_masked_ones(data@[word_index as int], bit_index as u64, 64);
            lemma_ones_across_word(data@, word_index as int, bit_index as int);
            lemma_ones_before_mono(b, 64 * word_index as int, pos as int);
        }
        count = count + c as usize;
    }
    count
}

/// Count the set bits of `data` in positions `[0, pos)`.
pub fn rank(data: &[u64], pos: usize) -> (r: usize)
    requires
        pos <= data@.len() * 64,
    ensures
        r == ones_before(bits_of(data@), pos as int),
{
    ones_from_word(data, 0, pos)
}

proof fn lemma_single_bit(w: u64, j: u64)
    requires
        j < 64,
    ensures
        (w & (1u64 << j) != 0) == word_bit(w, j),
{
    assert((w & (1u64 << j) != 0) == ((w >> j) & 1u64 == 1u64)) by (bit_vector)
        requires
            j < 64,
    ;
}

/// Position `p` of a bitmap is bit `p % 64` of word `p / 64`.
proof fn lemma_split_pos(p: int)
    requires
        0 <= p,
    ensures
        p == 64 * (p / 64) + p % 64,
        0 <= p % 64 < 64,
        0 <= p / 64,
{
}

pub proof fn lemma_word_of_pos(pos: int, len: int)
    requires
        0 <= pos < len * 64,
    ensures
        pos / 64 < len,
{
}

/// Whether position `pos` of `data` is set.
pub fn get_bit(data: &[u64], pos: usize) -> (r: bool)
    requires
        pos < data@.len() * 64,
    ensures
        r == bits_of(data@)[pos as int],
{
    proof {
        lemma_single_bit(data@[(pos / 64) as int], (pos % 64) as u64);
        lemma_split_pos(pos as int);
        assert(pos / 64 < data@.len()) by (nonlinear_arith)
            requires
                pos < data@.len() * 64,
        ;
    }
    data[pos / WORD_BITS] & (1u64 << ((pos % WORD_BITS) as u64)) != 0
}

pub proof fn lemma_or_bit(w: u64, j: u64, k: u64)
    requires
        j < 64,
        k < 64,
    ensures
        word_bit(w | (1u64 << j), k) == (k == j || word_bit(w, k)),
        word_bit(w & !(1u64 << j), k) == (k != j && word_bit(w, k)),
{
    assert((((w | (1u64 << j)) >> k) & 1u64 == 1u64) == (k == j || (w >> k) & 1u64 == 1u64))
        by (bit_vector)
        requires
            j < 64,
            k < 64,
    ;
    assert((((w & !(1u64 << j)) >> k) & 1u64 == 1u64) == (k != j && (w >> k) & 1u64 == 1u64))
        by (bit_vector)
        requires
            j < 64,
            k < 64,
    ;
}

/// Writing word `wi` changes only the bits of that word.
proof fn lemma_write_word(old_data: Seq<u64>, new_data: Seq<u64>, wi: int, pos: int, v: bool)
    requires
        0 <= wi < old_data.len(),
        new_data == old_data.update(wi, new_data[wi]),
        pos / 64 == wi,
        0 <= pos,
        forall|k: u64| k < 64 ==> #[trigger] word_bit(new_data[wi], k) == if k == (pos % 64) as u64 {
            v
        } else {
            word_bit(old_data[wi], k)
        },
    ensures
        bits_of(new_data) == bits_of(old_data).update(pos, v),
{
    let nb = bits_of(new_data);
    let ob = bits_of(old_data).update(pos, v);
    assert(pos < old_data.len() * 64) by (nonlinear_arith)
        requires
            pos / 64 == wi,
            0 <= wi < old_data.len(),
            0 <= pos,
    ;
    assert forall|p: int| 0 <= p < nb.len() implies nb[p] == ob[p] by {
        lemma_split_pos(p);
        lemma_split_pos(pos);
        if p / 64 == wi {
            assert(word_bit(new_data[wi], (p % 64) as u64) == if (p % 64) as u64 == (pos
                % 64) as u64 {
                v
            } else {
                word_bit(old_data[wi], (p % 64) as u64)
            });
        }
    }
    assert(nb =~= ob);
}

/// Set position `pos` of `data`.
pub fn set_bit(data: &mut Vec<u64>, pos: usize)
    requires
        pos < old(data)@.len() * 64,
    ensures
        final(data)@.len() == old(data)@.len(),
        bits_of(final(data)@) == bits_of(old(data)@).update(pos as int, true),
{
    let wi = pos / WORD_BITS;
    let j = (pos % WORD_BITS) as u64;
    proof {
        lemma_word_of_pos(pos as int, data@.len() as int);
    }
    let w = data[wi] | (1u64 << j);
    let ghost old_data = data@;
    data.set(wi, w);
    proof {
        assert forall|k: u64| k < 64 implies #[trigger] word_bit(data@[wi as int], k) == if k == j {
            true
        } else {
            word_bit(old_data[wi as int], k)
        } by {
            lemma_or_bit(old_data[wi as int], j, k);
        }
        lemma_write_word(old_data, data@, wi as int, pos as int, true);
    }
}

/// Clear position `pos` of `data`.
pub fn clear_bit(data: &mut Vec<u64>, pos: usize)
    requires
        pos < old(data)@.len() * 64,
    ensures
        final(data)@.len() == old(data)@.len(),
        bits_of(final(data)@) == bits_of(old(data)@).update(pos as int, false),
{
    let wi = pos / WORD_BITS;
    let j = (pos % WORD_BITS) as u64;
    proof {
        lemma_word_of_pos(pos as int, data@.len() as int);
    }
    let w = data[wi] & !(1u64 << j);
    let ghost old_data = data@;
    data.set(wi, w);
    proof {
        assert forall|k: u64| k < 64 implies #[trigger] word_bit(data@[wi as int], k) == if k == j {
            false
        } else {
            word_bit(old_data[wi as int], k)
        } by {
            lemma_or_bit(old_data[wi as int], j, k);
        }
        lemma_write_word(old_data, data@, wi as int, pos as int, false);
    }
}

/// Position of the set bit of `word` that has `rank` set bits below it.
pub fn select_in_word(word: u64, rank: usize) -> (r: Option<usize>)
    ensures
        match r {
            Some(j) => j < 64 && word_bit(word, j as u64) && word_ones(word, j as int) == rank,
            None => word_ones(word, 64) <= rank,
        },
{
    let mut count: usize = 0;
    let mut i: usize = 0;
    while i < WORD_BITS
        invariant
            i <= 64,
            count == word_ones(word, i as int),
            count <= rank,
        decreases 64 - i,
    {
        proof {
            lemma_single_bit(word, i as u64);
        }
        if word & (1u64 << (i as u64)) != 0 {
            if count == rank {
                return Some(i);
            }
            count = count + 1;
        }
        i = i + 1;
    }
    None
}

/// Search, from word `from_word` on, for the set bit that has `r` set bits between
/// the start of that word and itself.
fn select_from_word(data: &[u64], from_word: usize, r: usize) -> (res: Option<usize>)
    requires
        from_word <= data@.len(),
        data@.len() * 64 <= usize::MAX,
    ensures
        match res {
            Some(p) => 64 * from_word <= p < data@.len() * 64 && bits_of(data@)[p as int]
                && ones_before(bits_of(data@), p as int) == ones_before(
                bits_of(data@),
                64 * from_word as int,
            ) + r,
            None => ones_before(bits_of(data@), (data@.len() * 64) as int) <= ones_before(
                bits_of(data@),
                64 * from_word as int,
            ) + r,
        },
{
    let ghost b = bits_of(data@);
    let ghost base = ones_before(b, 64 * from_word as int);
    let mut count: usize = 0;
    let mut wi: usize = from_word;
    while wi < data.len()
        invariant
            from_word <= wi <= data@.len(),
            data@.len() * 64 <= usize::MAX,
            b == bits_of(data@),
            base == ones_before(b, 64 * from_word as int),
            count + base == ones_before(b, 64 * wi as int),
            count <= r,
        decreases data@.len() - wi,
    {
        let word = data[wi];
        let ones = popcount(word) as usize;
        proof {
            lemma_ones_across_word(data@, wi as int, 64);
            lemma_ones_before_bound(b, 64 * (wi + 1));
            assert(64 * (wi + 1) <= data@.len() * 64) by (nonlinear_arith)
                requires
                    wi < data@.len(),
            ;
        }
        if r < count + ones {
            match select_in_word(word, r - count) {
                Some(j) => {
                    proof {
                        lemma_ones_across_word(data@, wi as int, j as int);
                        lemma_bit_of_word(data@, wi as int, j as int);
                    }
                    return Some(wi * WORD_BITS + j);
                },
                None => {
                    return None;
                },
            }
        }
        count = count + ones;
        wi = wi + 1;
    }
    None
}

/// Position of the set bit of `data` that has `rank` set bits before it, if any.
pub fn select(data: &[u64], rank: usize) -> (res: Option<usize>)
    requires
        data@.len() * 64 <= usize::MAX,
    ensures
        match res {
            Some(p) => p < data@.len() * 64 && bits_of(data@)[p as int] && ones_before(
                bits_of(data@),
                p as int,
            ) == rank,
            None => ones_before(bits_of(data@), (data@.len() * 64) as int) <= rank,
        },
{
    select_from_word(data, 0, rank)
}

/// `rank`, starting from a cached count of the set bits before `half_pos`.
pub fn rank_cached(data: &[u64], pos: usize, half_pos: usize, cached_popcount: usize) -> (r: usize)
    requires
        pos <= data@.len() * 64,
        half_pos <= data@.len() * 64,
        half_pos % 64 == 0,
        cached_popcount == ones_before(bits_of(data@), half_pos as int),
    ensures
        r == ones_before(bits_of(data@), pos as int),
{
    if pos <= half_pos {
        rank(data, pos)
    } else {
        proof {
            lemma_ones_before_bound(bits_of(data@), pos as int);
        }
        let word_offset = half_pos / WORD_BITS;
        let remaining = ones_from_word(data, word_offset, pos);
        cached_popcount + remaining
    }
}

/// `select`, starting from a cached count of the set bits before `half_pos`.
pub fn select_cached(data: &[u64], rank_val: usize, half_pos: usize, cached_popcount: usize) -> (res:
    Option<usize>)
    requires
        data@.len() * 64 <= usize::MAX,
        half_pos <= data@.len() * 64,
        half_pos % 64 == 0,
        cached_popcount == ones_before(bits_of(data@), half_pos as int),
    ensures
        match res {
            Some(p) => p < data@.len() * 64 && bits_of(data@)[p as int] && ones_before(
                bits_of(data@),
                p as int,
            ) == rank_val,
            None => ones_before(bits_of(data@), (data@.len() * 64) as int) <= rank_val,
        },
{
    if rank_val < cached_popcount {
        select(data, rank_val)
    } else {
        let remaining_rank = rank_val - cached_popcount;
        let word_offset = half_pos / WORD_BITS;
        select_from_word(data, word_offset, remaining_rank)
    }
}

pub proof fn lemma_word_nonzero(x: u64)
    ensures
        x != 0 <==> exists|j: u64| j < 64 && #[trigger] word_bit(x, j),
    decreases x,
{
    if x == 0 {
        assert forall|j: u64| j < 64 implies !#[trigger] word_bit(x, j) by {
            assert((0u64 >> j) & 1u64 == 0u64) by (bit_vector);
        }
    } else {
        assert(word_bit(x, 0) == (x & 1u64 == 1u64)) by (bit_vector);
        if x & 1u64 == 1u64 {
            assert(word_bit(x, 0));
        } else {
            let y = x >> 1u64;
            assert(y != 0 && y < x) by (bit_vector)
                requires
                    x != 0,
                    x & 1u64 != 1u64,
                    y == x >> 1u64,
            ;
            lemma_word_nonzero(y);
            let j = choose|j: u64| j < 64 && #[trigger] word_bit(y, j);
            assert(!word_bit(y, 63)) by (bit_vector)
                requires
                    y == x >> 1u64,
            ;
            assert(word_bit(x, (j + 1) as u64) == word_bit(y, j)) by (bit_vector)
                requires
                    y == x >> 1u64,
                    j < 63,
            ;
        }
    }
}

/// Whether some bit of `w` in `[s, e)` is set, by masking.
fn word_has_bits(w: u64, s: u64, e: u64) -> (r: bool)
    requires
        s < e <= 64,
    ensures
        r == exists|j: u64| s <= j < e && #[trigger] word_bit(w, j),
{
    let low_s = make_low_mask(s);
    let mask = if e == 64 {
        !low_s
    } else {
        make_low_mask(e) & !low_s
    };
    proof {
        assert forall|j: u64| j < 64 implies #[trigger] word_bit(w & mask, j) == (s <= j < e
            && word_bit(w, j)) by {
            if e == 64 {
                assert((((w & !(((1u64 << s) - 1u64) as u64)) >> j) & 1u64 == 1u64) == (s <= j
                    && (w >> j) & 1u64 == 1u64)) by (bit_vector)
                    requires
                        s < 64,
                        j < 64,
                ;
            } else {
                assert((((w & ((((1u64 << e) - 1u64) as u64) & !(((1u64 << s) - 1u64) as u64)))
                    >> j) & 1u64 == 1u64) == (s <= j < e && (w >> j) & 1u64 == 1u64))
                    by (bit_vector)
                    requires
                        s < e,
                        e < 64,
                        j < 64,
                ;
            }
        }
        lemma_word_nonzero(w & mask);
        if exists|j: u64| s <= j < e && #[trigger] word_bit(w, j) {
            let j = choose|j: u64| s <= j < e && #[trigger] word_bit(w, j);
            assert(word_bit(w & mask, j));
        }
    }
    (w & mask) != 0
}

/// Bits `[s, e)` of word `wi` are the positions `[64 * wi + s, 64 * wi + e)`.
proof fn lemma_word_range(data: Seq<u64>, wi: int, s: int, e: int)
    requires
        0 <= wi < data.len(),
        0 <= s < e <= 64,
    ensures
        (exists|j: u64| s <= j < e && #[trigger] word_bit(data[wi], j)) == any_set(
            bits_of(data),
            64 * wi + s,
            64 * wi + e,
        ),
{
    let b = bits_of(data);
    if exists|j: u64| s <= j < e && #[trigger] word_bit(data[wi], j) {
        let j = choose|j: u64| s <= j < e && #[trigger] word_bit(data[wi], j);
        lemma_bit_of_word(data, wi, j as int);
        assert(b[64 * wi + j]);
    }
    if any_set(b, 64 * wi + s, 64 * wi + e) {
        let p = choose|p: int| 64 * wi + s <= p < 64 * wi + e && 0 <= p < b.len() && #[trigger] b[p];
        lemma_bit_of_word(data, wi, p - 64 * wi);
        assert(word_bit(data[wi], (p - 64 * wi) as u64));
    }
}

proof fn lemma_any_set_split(b: Seq<bool>, lo: int, mid: int, hi: int)
    requires
        lo <= mid <= hi,
    ensures
        any_set(b, lo, hi) == (any_set(b, lo, mid) || any_set(b, mid, hi)),
{
    if any_set(b, lo, hi) {
        let p = choose|p: int| lo <= p < hi && 0 <= p < b.len() && #[trigger] b[p];
        if p < mid {
            assert(any_set(b, lo, mid));
        } else {
            assert(any_set(b, mid, hi));
        }
    }
    if any_set(b, lo, mid) {
        let p = choose|p: int| lo <= p < mid && 0 <= p < b.len() && #[trigger] b[p];
        assert(any_set(b, lo, hi));
    }
    if any_set(b, mid, hi) {
        let p = choose|p: int| mid <= p < hi && 0 <= p < b.len() && #[trigger] b[p];
        assert(any_set(b, lo, hi));
    }
}

proof fn lemma_any_set_past_end(b: Seq<bool>, lo: int, hi: int)
    requires
        b.len() <= lo,
    ensures
        !any_set(b, lo, hi),
{
}

/// Whether any position of `data` in `[start_pos, end_pos)` is set; positions past the
/// end of `data` count as clear.
pub fn has_bits_in_range(data: &[u64], start_pos: usize, end_pos: usize) -> (r: bool)
    ensures
        r == any_set(bits_of(data@), start_pos as int, end_pos as int),
{
    let ghost b = bits_of(data@);
    if start_pos >= end_pos {
        return false;
    }
    let start_word = start_pos / WORD_BITS;
    let end_word = (end_pos - 1) / WORD_BITS;
    let start_bit = start_pos % WORD_BITS;
    let end_bit = (end_pos - 1) % WORD_BITS + 1;
    proof {
        lemma_split_pos(start_pos as int);
        lemma_split_pos(end_pos - 1);
        assert(b.len() == data@.len() * 64);
    }
    if start_word == end_word {
        if start_word < data.len() {
            proof {
                lemma_word_range(data@, start_word as int, start_bit as int, end_bit as int);
            }
            return word_has_bits(data[start_word], start_bit as u64, end_bit as u64);
        }
        proof {
            assert(b.len() <= 64 * start_word) by (nonlinear_arith)
                requires
                    b.len() == data@.len() * 64,
                    start_word >= data@.len(),
            ;
            lemma_any_set_past_end(b, start_pos as int, end_pos as int);
        }
        return false;
    }
    // first word, from start_bit on

    if start_word < data.len() {
        proof {
            lemma_word_range(data@, start_word as int, start_bit as int, 64);
        }
        if word_has_bits(data[start_word], start_bit as u64, 64) {
            proof {
                lemma_any_set_split(b, start_pos as int, 64 * (start_word + 1), end_pos as int);
            }
            return true;
        }
    } else {
        proof {
            assert(b.len() <= 64 * start_word) by (nonlinear_arith)
                requires
                    b.len() == data@.len() * 64,
                    start_word >= data@.len(),
            ;
            lemma_any_set_past_end(b, start_pos as int, end_pos as int);
        }
        return false;
    }
    // whole words in between

    let stop = if end_word < data.len() {
        end_word
    } else {
        data.len()
    };
    let mut word_idx = start_word + 1;
    while word_idx < stop
        invariant
            start_word < word_idx <= end_word,
            word_idx <= stop || word_idx == start_word + 1,
            start_word < data@.len(),
            stop <= data@.len(),
            stop <= end_word,
            start_word < end_word,
            b == bits_of(data@),
            !any_set(b, start_pos as int, 64 * word_idx as int),
            64 * start_word <= start_pos < 64 * (start_word + 1),
            64 * end_word < end_pos,
        decreases stop - word_idx,
    {
        proof {
            lemma_word_nonzero(data@[word_idx as int]);
            lemma_word_range(data@, word_idx as int, 0, 64);
            lemma_any_set_split(b, start_pos as int, 64 * word_idx as int, 64 * (word_idx + 1));
        }
        if data[word_idx] != 0 {
            proof {
                lemma_any_set_split(b, start_pos as int, 64 * (word_idx + 1), end_pos as int);
            }
            return true;
        }
        word_idx = word_idx + 1;
    }
    proof {
        if word_idx < start_word + 1 {
            assert(false);
        }
    }
    // last word, up to end_bit

    if end_word < data.len() {
        proof {
            lemma_word_range(data@, end_word as int, 0, end_bit as int);
            if word_idx < end_word {
                assert(false);
            }
            lemma_any_set_split(b, start_pos as int, 64 * word_idx as int, end_pos as int);
        }
        if word_has_bits(data[end_word], 0, end_bit as u64) {
            return true;
        }
    } else {
        proof {
            assert(b.len() <= 64 * word_idx) by (nonlinear_arith)
                requires
                    b.len() == data@.len() * 64,
                    word_idx >= data@.len(),
            ;
            lemma_any_set_split(b, start_pos as int, 64 * word_idx as int, end_pos as int);
            lemma_any_set_past_end(b, 64 * word_idx as int, end_pos as int);
        }
    }
    false
}

} // verus!
