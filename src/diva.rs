use vstd::prelude::*;
use vstd::arithmetic::power2::{pow2, lemma_pow2_unfold};
use crate::infix_store::{
    canonical, capacity, lemma_canonical_small, strictly_sorted, InfixStore, MAX_REMAINDER_SIZE,
    QUOTIENT_SIZE,
};
use vstd::std_specs::bits::{axiom_u64_leading_zeros, u64_leading_zeros};
use crate::partial_key::{extract_partial_key, infix_of, lemma_infix_bound, lemma_infix_monotone};

verus! {

/// Parts per million in one.
pub const PPM: u64 = 1_000_000;

/// Largest target bracket size: a bracket's keys between its samples fill at most the
/// largest store.
pub const MAX_TARGET_BRACKET: usize = 2327;

/// Relies on `<[u64]>::sort_unstable`: the same keys, in ascending order.
#[verifier::external_body]
pub(crate) fn sort_keys(v: &mut Vec<u64>)
    ensures
        final(v)@.len() == old(v)@.len(),
        forall|x: u64| final(v)@.contains(x) <==> old(v)@.contains(x),
        forall|i: int, j: int| 0 <= i <= j < final(v)@.len() ==> final(v)@[i] <= final(v)@[j],
{
    v.sort_unstable();
}

/// A copy of `keys`.
pub(crate) fn copy_keys(keys: &[u64]) -> (v: Vec<u64>)
    ensures
        v@ == keys@,
{
    let mut v: Vec<u64> = Vec::with_capacity(keys.len());
    let mut i: usize = 0;
    while i < keys.len()
        invariant
            i <= keys@.len(),
            v@ == keys@.subrange(0, i as int),
        decreases keys@.len() - i,
    {
        v.push(keys[i]);
        i = i + 1;
        assert(v@ =~= keys@.subrange(0, i as int));
    }
    assert(v@ =~= keys@);
    v
}

/// The keys of a sorted vector, each once.
fn dedup_sorted(sorted: &Vec<u64>) -> (u: Vec<u64>)
    requires
        forall|i: int, j: int| 0 <= i <= j < sorted@.len() ==> sorted@[i] <= sorted@[j],
    ensures
        strictly_sorted(u@),
        forall|x: u64| u@.contains(x) <==> sorted@.contains(x),
{
    let mut u: Vec<u64> = Vec::new();
    let mut i: usize = 0;
    while i < sorted.len()
        invariant
            i <= sorted@.len(),
            forall|a: int, b: int| 0 <= a <= b < sorted@.len() ==> sorted@[a] <= sorted@[b],
            strictly_sorted(u@),
            i > 0 ==> u@.len() > 0 && u@.last() == sorted@[i - 1],
            i == 0 ==> u@.len() == 0,
            forall|x: u64| u@.contains(x) <==> exists|k: int| 0 <= k < i && sorted@[k] == x,
        decreases sorted@.len() - i,
    {
        let x = sorted[i];
        let ghost u0 = u@;
        if u.len() == 0 || u[u.len() - 1] != x {
            u.push(x);
            proof {
                assert forall|y: u64| u@.contains(y) <==> exists|k: int|
                    0 <= k < i + 1 && sorted@[k] == y by {
                    if u@.contains(y) {
                        let m = choose|m: int| 0 <= m < u@.len() && u@[m] == y;
                        if m < u0.len() {
                            assert(u0.contains(y));
                        }
                    }
                    if exists|k: int| 0 <= k < i + 1 && sorted@[k] == y {
                        let k = choose|k: int| 0 <= k < i + 1 && sorted@[k] == y;
                        if k < i {
                            assert(u0.contains(y));
                            let m = choose|m: int| 0 <= m < u0.len() && u0[m] == y;
                            assert(u@[m] == y);
                        } else {
                            assert(u@[u0.len() as int] == y);
                        }
                    }
                }
            }
        } else {
            proof {
                assert forall|y: u64| u@.contains(y) <==> exists|k: int|
                    0 <= k < i + 1 && sorted@[k] == y by {
                    if exists|k: int| 0 <= k < i + 1 && sorted@[k] == y {
                        let k = choose|k: int| 0 <= k < i + 1 && sorted@[k] == y;
                        if k == i {
                            assert(u@[u@.len() - 1] == y);
                        }
                    }
                }
            }
        }
        i = i + 1;
    }
    proof {
        assert forall|x: u64| u@.contains(x) <==> sorted@.contains(x) by {
            if sorted@.contains(x) {
                let k = choose|k: int| 0 <= k < sorted@.len() && sorted@[k] == x;
            }
        }
    }
    u
}

/// Width of the infixes for a target bracket size and a false-positive rate in parts per
/// million: the least `w` with `2^w * fpr_ppm >= target_bracket * 1_000_000`.
pub open spec fn infix_width_fits(target_bracket: int, fpr_ppm: int, w: int) -> bool {
    pow2(w as nat) * fpr_ppm >= target_bracket * 1_000_000
}

/// Remainder width for a target bracket size and a false-positive rate in parts per
/// million: the infix width `ceil(log2(target_bracket / fpr))` less the quotient bits.
pub fn remainder_bits(target_bracket: usize, fpr_ppm: u32) -> (r: u8)
    requires
        1 <= target_bracket <= MAX_TARGET_BRACKET,
        1 <= fpr_ppm,
    ensures
        r <= MAX_REMAINDER_SIZE,
        infix_width_fits(target_bracket as int, fpr_ppm as int, 10 + r),
        r == 0 || !infix_width_fits(target_bracket as int, fpr_ppm as int, 9 + r),
{
    let goal: u64 = target_bracket as u64 * 1_000_000;
    let mut scaled: u64 = fpr_ppm as u64;
    let mut w: u8 = 0;
    proof {
        vstd::arithmetic::power2::lemma2_to64();
    }
    while scaled < goal
        invariant
            goal == target_bracket * 1_000_000,
            goal <= 2327 * 1_000_000,
            scaled == pow2(w as nat) * fpr_ppm,
            fpr_ppm >= 1,
            scaled >= 1,
            w <= 32,
            w == 0 || !infix_width_fits(target_bracket as int, fpr_ppm as int, w - 1),
        decreases 32 - w,
    {
        proof {
            lemma_pow2_unfold((w + 1) as nat);
            if w == 32 {
                vstd::arithmetic::power2::lemma2_to64();
                assert(scaled >= 0x1_0000_0000) by (nonlinear_arith)
                    requires
                        scaled == pow2(32) * fpr_ppm,
                        pow2(32) == 0x1_0000_0000,
                        fpr_ppm >= 1,
                ;
            }
            assert(scaled * 2 == pow2((w + 1) as nat) * fpr_ppm) by (nonlinear_arith)
                requires
                    scaled == pow2(w as nat) * fpr_ppm,
                    pow2((w + 1) as nat) == 2 * pow2(w as nat),
            ;
        }
        scaled = scaled * 2;
        w = w + 1;
    }
    if w > 10 {
        w - 10
    } else {
        proof {
            if w < 10 {
                vstd::arithmetic::power2::lemma_pow2_strictly_increases(w as nat, 10);
            }
            assert(pow2(10) * fpr_ppm >= pow2(w as nat) * fpr_ppm) by (nonlinear_arith)
                requires
                    pow2(10) >= pow2(w as nat),
                    fpr_ppm >= 1,
            ;
        }
        0
    }
}

/// Remainder width of the bracket `[p, s]` for the base width `base`: one bit more, and
/// one more for each high bit of the bracket's suffix that its span `s - p` leaves unused,
/// so that the bracket's keys spread over as many infixes as a full span would; at most
/// 53 bits.
pub open spec fn bracket_remainder(base: u64, p: u64, s: u64) -> u64 {
    let unused = u64_leading_zeros((s - p) as u64) - u64_leading_zeros(p ^ s);
    let extra = if unused >= 0 {
        unused + 1
    } else {
        1
    };
    if base + extra <= 53 {
        (base + extra) as u64
    } else {
        53
    }
}

/// Remainder width of the bracket `[p, s]`, for `p <= s`.
pub fn bracket_remainder_bits(base: u8, p: u64, s: u64) -> (r: u8)
    requires
        base <= MAX_REMAINDER_SIZE,
        p <= s,
    ensures
        r == bracket_remainder(base as u64, p, s),
        r <= MAX_REMAINDER_SIZE,
{
    proof {
        axiom_u64_leading_zeros((s - p) as u64);
        axiom_u64_leading_zeros(p ^ s);
    }
    let span_zeros = (s - p).leading_zeros();
    let shared = (p ^ s).leading_zeros();
    let extra: u32 = if span_zeros >= shared {
        span_zeros - shared + 1
    } else {
        1
    };
    if base as u32 + extra <= MAX_REMAINDER_SIZE as u32 {
        (base as u32 + extra) as u8
    } else {
        MAX_REMAINDER_SIZE
    }
}

/// Position, among `n` sorted distinct keys, of sample `j` for brackets of `target` keys:
/// every `target`-th key, and the last key to close the last bracket.
pub open spec fn sample_position(j: int, target: int, n: int) -> int {
    if j * target < n - 1 {
        j * target
    } else {
        n - 1
    }
}

/// Number of entries of the ascending `samples` that are at most `key`.
fn count_at_most(samples: &Vec<u64>, key: u64) -> (idx: usize)
    requires
        strictly_sorted(samples@),
    ensures
        idx <= samples@.len(),
        forall|j: int| 0 <= j < idx ==> #[trigger] samples@[j] <= key,
        forall|j: int| idx <= j < samples@.len() ==> #[trigger] samples@[j] > key,
{
    let mut lo: usize = 0;
    let mut hi: usize = samples.len();
    while lo < hi
        invariant
            lo <= hi <= samples@.len(),
            strictly_sorted(samples@),
            forall|j: int| 0 <= j < lo ==> #[trigger] samples@[j] <= key,
            forall|j: int| hi <= j < samples@.len() ==> #[trigger] samples@[j] > key,
        decreases hi - lo,
    {
        let mid = lo + (hi - lo) / 2;
        if samples[mid] <= key {
            lo = mid + 1;
        } else {
            hi = mid;
        }
    }
    lo
}

/// The store for the bracket from `uniq[start]` to `uniq[end]`, holding the infixes of
/// the keys strictly between them.
fn bracket_store(uniq: &Vec<u64>, start: usize, end: usize, r: u8) -> (st: InfixStore)
    requires
        start < end < uniq@.len(),
        end - start <= MAX_TARGET_BRACKET,
        strictly_sorted(uniq@),
        r <= MAX_REMAINDER_SIZE,
    ensures
        st.wf(),
        st.spec_remainder_size() == r,
        forall|x: u64|
            #[trigger] st@.contains(x) <==> exists|m: int|
                start < m < end && infix_of(
                    uniq@[m],
                    uniq@[start as int],
                    uniq@[end as int],
                    (10 + r) as u64,
                ) == x,
{
    let p = uniq[start];
    let sk = uniq[end];
    let mut infixes: Vec<u64> = Vec::new();
    let mut j = start + 1;
    while j < end
        invariant
            start < j <= end,
            end < uniq@.len(),
            r <= 53,
            p == uniq@[start as int],
            sk == uniq@[end as int],
            infixes@.len() == j - start - 1,
            forall|t: int|
                0 <= t < infixes@.len() ==> #[trigger] infixes@[t] == infix_of(
                    uniq@[start + 1 + t],
                    p,
                    sk,
                    (10 + r) as u64,
                ) && infixes@[t] < 1u64 << ((10 + r) as u64),
        decreases end - j,
    {
        let x = extract_partial_key(uniq[j], p, sk, QUOTIENT_SIZE, r);
        infixes.push(x);
        j = j + 1;
    }
    proof {
        assert forall|a: int, b: int|
            0 <= a <= b < infixes@.len() implies canonical(infixes@[a], r as u64) <= canonical(
            infixes@[b],
            r as u64,
        ) by {
            lemma_canonical_small(infixes@[a], r as u64);
            lemma_canonical_small(infixes@[b], r as u64);
            if a < b {
                assert(uniq@[start + 1 + a] < uniq@[start + 1 + b]);
            }
            if start + 1 + b < end {
                assert(uniq@[start + 1 + b] < uniq@[end as int]);
            }
            assert(uniq@[start as int] < uniq@[start + 1 + a]);
            lemma_infix_monotone(p, sk, uniq@[start + 1 + a], uniq@[start + 1 + b], (10 + r) as u64);
        }
    }
    let st = InfixStore::new_with_infixes(&infixes, r);
    proof {
        assert forall|x: u64| #[trigger] st@.contains(x) <==> exists|m: int|
            start < m < end && infix_of(
                uniq@[m],
                uniq@[start as int],
                uniq@[end as int],
                (10 + r) as u64,
            ) == x by {
            if st@.contains(x) {
                let t = choose|t: int| 0 <= t < infixes@.len() && canonical(infixes@[t], r as u64) == x;
                lemma_canonical_small(infixes@[t], r as u64);
                assert(infixes@[t] == infix_of(uniq@[start + 1 + t], p, sk, (10 + r) as u64));
            }
            if exists|m: int|
                start < m < end && infix_of(
                    uniq@[m],
                    uniq@[start as int],
                    uniq@[end as int],
                    (10 + r) as u64,
                ) == x {
                let m = choose|m: int|
                    start < m < end && infix_of(
                        uniq@[m],
                        uniq@[start as int],
                        uniq@[end as int],
                        (10 + r) as u64,
                    ) == x;
                let t = m - start - 1;
                assert(infixes@[t] == infix_of(uniq@[start + 1 + t], p, sk, (10 + r) as u64));
                lemma_canonical_small(infixes@[t], r as u64);
            }
        }
    }
    st
}

/// An approximate range filter over `u64` keys. Sample keys, every `target_size`-th of the
/// sorted keys, cut the key space into brackets; each bracket keeps the infixes of its
/// other keys in an `InfixStore`.
pub struct Diva {
    samples: Vec<u64>,
    stores: Vec<InfixStore>,
    remainder_size: u8,
    target_size: usize,
}

impl Diva {
    /// The sample keys, ascending.
    pub closed spec fn spec_samples(&self) -> Seq<u64> {
        self.samples@
    }

    /// The infixes held for bracket `i`, between samples `i` and `i + 1`.
    pub closed spec fn spec_store(&self, i: int) -> Seq<u64> {
        self.stores@[i]@
    }

    /// Remainder width of the infixes.
    pub closed spec fn spec_remainder_size(&self) -> u64 {
        self.remainder_size as u64
    }

    pub closed spec fn wf(&self) -> bool {
        &&& strictly_sorted(self.samples@)
        &&& self.remainder_size <= 53
        &&& self.stores@.len() == if self.samples@.len() == 0 {
            0
        } else {
            self.samples@.len() - 1
        }
        &&& forall|i: int|
            0 <= i < self.stores@.len() ==> (#[trigger] self.stores@[i]).wf()
                && self.stores@[i].spec_remainder_size() == bracket_remainder(
                self.remainder_size as u64,
                self.samples@[i],
                self.samples@[i + 1],
            )
    }

    /// Remainder width of the store of bracket `i`.
    pub closed spec fn spec_store_remainder(&self, i: int) -> u64 {
        self.stores@[i].spec_remainder_size()
    }

    /// Whether `key` lies strictly inside bracket `i`.
    pub open spec fn inside(&self, i: int, key: u64) -> bool {
        0 <= i < self.spec_samples().len() - 1 && self.spec_samples()[i] < key
            < self.spec_samples()[i + 1]
    }

    /// The infix of `key` in bracket `i`.
    pub open spec fn infix_in(&self, i: int, key: u64) -> u64 {
        infix_of(
            key,
            self.spec_samples()[i],
            self.spec_samples()[i + 1],
            (10 + self.spec_store_remainder(i)) as u64,
        )
    }

    /// Whether the filter answers yes for `key`: it is a sample, or its bracket holds its
    /// infix.
    pub open spec fn holds_key(&self, key: u64) -> bool {
        self.spec_samples().contains(key) || exists|i: int|
            self.inside(i, key) && #[trigger] self.spec_store(i).contains(self.infix_in(i, key))
    }

    /// Whether the filter answers yes for `[a, b]`: a sample lies in it, or it lies inside
    /// one bracket whose store holds an infix between those of `a` and `b`.
    pub open spec fn holds_in_range(&self, a: u64, b: u64) -> bool {
        a <= b && ((exists|j: int|
            0 <= j < self.spec_samples().len() && a <= #[trigger] self.spec_samples()[j] <= b)
            || exists|i: int|
            self.inside(i, a) && self.inside(i, b) && exists|t: int|
                0 <= t < self.spec_store(i).len() && self.infix_in(i, a) <= #[trigger] self.spec_store(
                    i,
                )[t] <= self.infix_in(i, b))
    }

    /// What a well-formed filter promises of its samples and stores.
    pub proof fn lemma_wf(&self)
        requires
            self.wf(),
        ensures
            strictly_sorted(self.spec_samples()),
            self.spec_remainder_size() <= 53,
            forall|i: int|
                0 <= i < self.spec_samples().len() - 1 ==> #[trigger] self.spec_store_remainder(i)
                    == bracket_remainder(
                    self.spec_remainder_size(),
                    self.spec_samples()[i],
                    self.spec_samples()[i + 1],
                ),
    {
    }

    /// Build the filter from `keys` (any order, repeats allowed), with brackets of
    /// `target_bracket` keys and a false-positive rate of `fpr_ppm` parts per million.
    pub fn new_with_keys(keys: &[u64], target_bracket: usize, fpr_ppm: u32) -> (d: Self)
        requires
            1 <= target_bracket <= MAX_TARGET_BRACKET,
            1 <= fpr_ppm < PPM,
        ensures
            d.wf(),
            forall|k: u64| keys@.contains(k) ==> d.holds_key(k),
            forall|j: int| 0 <= j < d.spec_samples().len() ==> keys@.contains(#[trigger] d.spec_samples()[j]),
            d.spec_samples().len() == 0 <==> keys@.len() == 0,
            exists|u: Seq<u64>|
                #[trigger] strictly_sorted(u) && (forall|x: u64| u.contains(x) <==> keys@.contains(x))
                    && (u.len() > 0 ==> d.spec_samples().last() == u.last()) && forall|j: int|
                    0 <= j < d.spec_samples().len() ==> #[trigger] d.spec_samples()[j] == u[sample_position(
                        j,
                        target_bracket as int,
                        u.len() as int,
                    )],
            forall|k: u64|
                keys@.contains(k) ==> d.spec_samples()[0] <= k <= d.spec_samples().last(),
            forall|i: int, x: u64|
                0 <= i < d.spec_samples().len() - 1 ==> (#[trigger] d.spec_store(i).contains(x)
                    <==> exists|k: u64| keys@.contains(k) && d.inside(i, k) && d.infix_in(i, k) == x),
            infix_width_fits(target_bracket as int, fpr_ppm as int, 10 + d.spec_remainder_size()),
            d.spec_remainder_size() == 0 || !infix_width_fits(
                target_bracket as int,
                fpr_ppm as int,
                9 + d.spec_remainder_size(),
            ),
    {
        let mut sorted = copy_keys(keys);
        sort_keys(&mut sorted);
        let uniq = dedup_sorted(&sorted);
        let r = remainder_bits(target_bracket, fpr_ppm);
        let mut d = Diva {
            samples: Vec::new(),
            stores: Vec::new(),
            remainder_size: r,
            target_size: target_bracket,
        };
        let n = uniq.len();
        proof {
            if keys@.len() > 0 {
                assert(keys@.contains(keys@[0]));
            }
        }
        if n == 0 {
            proof {
                assert(strictly_sorted(uniq@));
                if exists|k: u64| keys@.contains(k) {
                    let k = choose|k: u64| keys@.contains(k);
                    assert(sorted@.contains(k));
                    assert(uniq@.contains(k));
                }
            }
            return d;
        }
        d.samples.push(uniq[0]);
        let mut start: usize = 0;
        while start < n - 1
            invariant
                n == uniq@.len(),
                n >= 1,
                start <= n - 1,
                strictly_sorted(uniq@),
                forall|x: u64| uniq@.contains(x) <==> keys@.contains(x),
                1 <= target_bracket <= MAX_TARGET_BRACKET,
                d.remainder_size == r,
                r <= 53,
                d.samples@.len() >= 1,
                d.samples@.last() == uniq@[start as int],
                d.samples@[0] == uniq@[0],
                start == sample_position(d.samples@.len() - 1, target_bracket as int, n as int),
                forall|j: int|
                    0 <= j < d.samples@.len() ==> #[trigger] d.samples@[j] == uniq@[sample_position(
                        j,
                        target_bracket as int,
                        n as int,
                    )],
                strictly_sorted(d.samples@),
                forall|j: int| 0 <= j < d.samples@.len() ==> uniq@.contains(#[trigger] d.samples@[j]),
                d.stores@.len() == d.samples@.len() - 1,
                forall|i: int|
                    0 <= i < d.stores@.len() ==> (#[trigger] d.stores@[i]).wf()
                        && d.stores@[i].spec_remainder_size() == bracket_remainder(
                        r as u64,
                        d.samples@[i],
                        d.samples@[i + 1],
                    ),
                forall|j: int| 0 <= j <= start ==> d.holds_key(#[trigger] uniq@[j]),
                forall|i: int, x: u64|
                    0 <= i < d.samples@.len() - 1 ==> (#[trigger] d.spec_store(i).contains(x)
                        <==> exists|k: u64| keys@.contains(k) && d.inside(i, k) && d.infix_in(i, k) == x),
            decreases n - 1 - start,
        {
            let end = if n - 1 - start > target_bracket {
                start + target_bracket
            } else {
                n - 1
            };
            let rb = bracket_remainder_bits(r, uniq[start], uniq[end]);
            let store = bracket_store(&uniq, start, end, rb);
            let ghost d0 = d;
            d.samples.push(uniq[end]);
            d.stores.push(store);
            proof {
                Self::lemma_extend(d0, d, keys@, uniq@, start as int, end as int);
                let len0 = d0.samples@.len() as int;
                let t = target_bracket as int;
                assert(len0 * t == (len0 - 1) * t + t) by (nonlinear_arith);
                assert((len0 - 1) * t >= 0) by (nonlinear_arith)
                    requires
                        len0 >= 1,
                        t >= 1,
                ;
                assert(start == (len0 - 1) * t);
                assert(end == sample_position(len0, t, n as int));
                assert forall|j: int| 0 <= j < d.samples@.len() implies #[trigger] d.samples@[j]
                    == uniq@[sample_position(j, t, n as int)] by {
                    if j < len0 {
                        assert(d.samples@[j] == d0.samples@[j]);
                    }
                }
            }
            start = end;
        }
        proof {
            assert(uniq@.contains(uniq@[0]));
            assert(strictly_sorted(uniq@));
            assert(d.spec_samples().last() == uniq@.last());
            assert forall|k: u64| keys@.contains(k) implies d.holds_key(k) by {
                assert(uniq@.contains(k));
                let m = choose|m: int| 0 <= m < uniq@.len() && uniq@[m] == k;
                assert(d.holds_key(uniq@[m]));
            }
            assert forall|k: u64| keys@.contains(k) implies d.spec_samples()[0] <= k
                <= d.spec_samples().last() by {
                assert(uniq@.contains(k));
                let m = choose|m: int| 0 <= m < uniq@.len() && uniq@[m] == k;
                if m > 0 {
                    assert(uniq@[0] < uniq@[m]);
                }
                if m < n - 1 {
                    assert(uniq@[m] < uniq@[n - 1]);
                }
            }
        }
        d
    }

    /// Appending the bracket that ends at `uniq[end]` keeps what the build loop tracks.
    proof fn lemma_extend(d0: Diva, d: Diva, keys: Seq<u64>, uniq: Seq<u64>, start: int, end: int)
        requires
            0 <= start < end < uniq.len(),
            strictly_sorted(uniq),
            forall|x: u64| uniq.contains(x) <==> keys.contains(x),
            d0.samples@.len() >= 1,
            d0.samples@.last() == uniq[start],
            strictly_sorted(d0.samples@),
            forall|j: int| 0 <= j < d0.samples@.len() ==> uniq.contains(#[trigger] d0.samples@[j]),
            d0.stores@.len() == d0.samples@.len() - 1,
            d.samples@ == d0.samples@.push(uniq[end]),
            d.stores@.len() == d0.stores@.len() + 1,
            forall|i: int| 0 <= i < d0.stores@.len() ==> d.stores@[i] == d0.stores@[i],
            d.remainder_size == d0.remainder_size,
            forall|x: u64|
                #[trigger] d.stores@[d0.stores@.len() as int]@.contains(x) <==> exists|m: int|
                    start < m < end && infix_of(
                        uniq[m],
                        uniq[start],
                        uniq[end],
                        (10 + d.stores@[d0.stores@.len() as int].spec_remainder_size()) as u64,
                    ) == x,
            forall|j: int| 0 <= j <= start ==> d0.holds_key(#[trigger] uniq[j]),
            forall|i: int, x: u64|
                0 <= i < d0.samples@.len() - 1 ==> (#[trigger] d0.spec_store(i).contains(x)
                    <==> exists|k: u64| keys.contains(k) && d0.inside(i, k) && d0.infix_in(i, k) == x),
        ensures
            d.samples@.len() >= 1,
            d.samples@.last() == uniq[end],
            d.samples@[0] == d0.samples@[0],
            strictly_sorted(d.samples@),
            forall|j: int| 0 <= j < d.samples@.len() ==> uniq.contains(#[trigger] d.samples@[j]),
            d.stores@.len() == d.samples@.len() - 1,
            forall|j: int| 0 <= j <= end ==> d.holds_key(#[trigger] uniq[j]),
            forall|i: int, x: u64|
                0 <= i < d.samples@.len() - 1 ==> (#[trigger] d.spec_store(i).contains(x)
                    <==> exists|k: u64| keys.contains(k) && d.inside(i, k) && d.infix_in(i, k) == x),
    {
        let i0 = d0.samples@.len() - 1;
        assert(d.samples@[i0] == uniq[start]);
        assert(d.samples@[i0 + 1] == uniq[end]);
        assert forall|i: int, k: u64| 0 <= i < i0 implies d.inside(i, k) == d0.inside(i, k)
            && d.infix_in(i, k) == d0.infix_in(i, k) && d.spec_store(i) == d0.spec_store(i) by {
            assert(d.samples@[i] == d0.samples@[i]);
            assert(d.samples@[i + 1] == d0.samples@[i + 1]);
        }
        assert forall|a: int, b: int| 0 <= a < b < d.samples@.len() implies d.samples@[a]
            < d.samples@[b] by {
            if b == i0 + 1 {
                if a < i0 {
                    assert(d0.samples@[a] < d0.samples@[i0]);
                }
            } else {
                assert(d.samples@[a] == d0.samples@[a]);
                assert(d.samples@[b] == d0.samples@[b]);
            }
        }
        assert forall|j: int| 0 <= j < d.samples@.len() implies uniq.contains(#[trigger] d.samples@[j]) by {
            if j < i0 + 1 {
                assert(d.samples@[j] == d0.samples@[j]);
            } else {
                assert(uniq[end] == d.samples@[j]);
            }
        }
        assert forall|j: int| 0 <= j <= end implies d.holds_key(#[trigger] uniq[j]) by {
            if j <= start {
                assert(d0.holds_key(uniq[j]));
                if d0.samples@.contains(uniq[j]) {
                    let m = choose|m: int| 0 <= m < d0.samples@.len() && d0.samples@[m] == uniq[j];
                    assert(d.samples@[m] == uniq[j]);
                } else {
                    let i = choose|i: int|
                        d0.inside(i, uniq[j]) && #[trigger] d0.spec_store(i).contains(
                            d0.infix_in(i, uniq[j]),
                        );
                    assert(d.inside(i, uniq[j]));
                }
            } else if j == end {
                assert(d.samples@[i0 + 1] == uniq[j]);
            } else {
                assert(d.inside(i0, uniq[j]));
                assert(d.spec_store(i0).contains(d.infix_in(i0, uniq[j])));
            }
        }
        assert forall|i: int, x: u64| 0 <= i < d.samples@.len() - 1 implies (
        #[trigger] d.spec_store(i).contains(x) <==> exists|k: u64|
            keys.contains(k) && d.inside(i, k) && d.infix_in(i, k) == x) by {
            if i < i0 {
                if exists|k: u64| keys.contains(k) && d.inside(i, k) && d.infix_in(i, k) == x {
                    let k = choose|k: u64| keys.contains(k) && d.inside(i, k) && d.infix_in(i, k) == x;
                    assert(d0.inside(i, k) && d0.infix_in(i, k) == x);
                }
                if d0.spec_store(i).contains(x) {
                    let k = choose|k: u64| keys.contains(k) && d0.inside(i, k) && d0.infix_in(i, k) == x;
                    assert(d.inside(i, k) && d.infix_in(i, k) == x);
                }
            } else {
                if d.spec_store(i).contains(x) {
                    let m = choose|m: int|
                        start < m < end && infix_of(
                            uniq[m],
                            uniq[start],
                            uniq[end],
                            (10 + d.stores@[i0].spec_remainder_size()) as u64,
                        ) == x;
                    let k = uniq[m];
                    assert(uniq.contains(k));
                    assert(keys.contains(k) && d.inside(i, k) && d.infix_in(i, k) == x);
                }
                if exists|k: u64| keys.contains(k) && d.inside(i, k) && d.infix_in(i, k) == x {
                    let k = choose|k: u64| keys.contains(k) && d.inside(i, k) && d.infix_in(i, k) == x;
                    assert(uniq.contains(k));
                    let m = choose|m: int| 0 <= m < uniq.len() && uniq[m] == k;
                    assert(start < m < end) by {
                        if m < start {
                            assert(uniq[m] < uniq[start]);
                        }
                        if m > end {
                            assert(uniq[end] < uniq[m]);
                        }
                    }
                }
            }
        }
    }

    /// Two brackets that both hold `key` strictly inside are the same.
    proof fn lemma_inside_unique(&self, i: int, j: int, key: u64)
        requires
            self.wf(),
            self.inside(i, key),
            self.inside(j, key),
        ensures
            i == j,
    {
        let smp = self.samples@;
        if i < j {
            if i + 1 < j {
                assert(smp[i + 1] < smp[j]);
            }
        } else if j < i {
            if j + 1 < i {
                assert(smp[j + 1] < smp[i]);
            }
        }
    }

    /// Index of the bracket whose interior holds `key`, if `key` is no sample and lies
    /// between the first and the last sample.
    fn locate(&self, key: u64) -> (res: Option<usize>)
        requires
            self.wf(),
        ensures
            res matches Some(i) ==> self.inside(i as int, key),
            res is None ==> self.spec_samples().contains(key) || forall|i: int| !self.inside(i, key),
    {
        let idx = count_at_most(&self.samples, key);
        if idx == 0 {
            return None;
        }
        if self.samples[idx - 1] == key {
            return None;
        }
        if idx == self.samples.len() {
            return None;
        }
        Some(idx - 1)
    }

    /// Whether `key` may be in the set: true for every key the filter was built from or
    /// that was inserted since (and not deleted), and for others only by an infix collision.
    pub fn point_query(&self, key: u64) -> (found: bool)
        requires
            self.wf(),
        ensures
            found == self.holds_key(key),
    {
        let idx = count_at_most(&self.samples, key);
        if idx > 0 && self.samples[idx - 1] == key {
            return true;
        }
        match self.locate(key) {
            None => {
                proof {
                    if exists|i: int|
                        self.inside(i, key) && #[trigger] self.spec_store(i).contains(
                            self.infix_in(i, key),
                        ) {
                        let i = choose|i: int|
                            self.inside(i, key) && #[trigger] self.spec_store(i).contains(
                                self.infix_in(i, key),
                            );
                        assert(self.inside(i, key));
                    }
                    if self.spec_samples().contains(key) {
                        let m = choose|m: int|
                            0 <= m < self.samples@.len() && self.samples@[m] == key;
                        assert(m < idx);
                        if m < idx - 1 {
                            assert(self.samples@[m] < self.samples@[idx - 1]);
                        }
                    }
                }
                false
            },
            Some(i) => {
                let st = &self.stores[i];
                let rs = st.remainder_size();
                let found = st.point_query(key, self.samples[i], self.samples[i + 1], rs);
                proof {
                    assert(!self.spec_samples().contains(key)) by {
                        if self.spec_samples().contains(key) {
                            let m = choose|m: int|
                                0 <= m < self.samples@.len() && self.samples@[m] == key;
                            if m <= i {
                                if m < i {
                                    assert(self.samples@[m] < self.samples@[i as int]);
                                }
                            } else {
                                if m > i + 1 {
                                    assert(self.samples@[i + 1] < self.samples@[m]);
                                }
                            }
                        }
                    }
                    lemma_infix_bound(
                        key,
                        self.samples@[i as int],
                        self.samples@[i + 1],
                        (10 + rs) as u64,
                    );
                    lemma_canonical_small(self.infix_in(i as int, key), rs as u64);
                    if self.spec_samples().contains(key) {
                        let m = choose|m: int|
                            0 <= m < self.samples@.len() && self.samples@[m] == key;
                        if m <= i {
                            if m < i {
                                assert(self.samples@[m] < self.samples@[i as int]);
                            }
                        } else {
                            if m > i + 1 {
                                assert(self.samples@[i + 1] < self.samples@[m]);
                            }
                        }
                    }
                    if exists|j: int|
                        self.inside(j, key) && #[trigger] self.spec_store(j).contains(
                            self.infix_in(j, key),
                        ) {
                        let j = choose|j: int|
                            self.inside(j, key) && #[trigger] self.spec_store(j).contains(
                                self.infix_in(j, key),
                            );
                        self.lemma_inside_unique(i as int, j, key);
                    }
                    if found {
                        assert(self.inside(i as int, key) && self.spec_store(i as int).contains(
                            self.infix_in(i as int, key),
                        ));
                    }
                }
                found
            },
        }
    }

    /// Whether some key in `[a, b]` may be in the set: true whenever a key the filter holds
    /// lies in the range.
    pub fn range_query(&self, a: u64, b: u64) -> (found: bool)
        requires
            self.wf(),
        ensures
            found == self.holds_in_range(a, b),
    {
        let n = self.samples.len();
        if a > b || n == 0 {
            return false;
        }
        let idx = count_at_most(&self.samples, b);
        if idx > 0 && self.samples[idx - 1] >= a {
            proof {
                assert(a <= self.spec_samples()[idx - 1] <= b);
            }
            return true;
        }
        proof {
            assert forall|j: int| 0 <= j < n implies !(a <= #[trigger] self.samples@[j] <= b) by {
                if j < idx - 1 {
                    assert(self.samples@[j] < self.samples@[idx - 1]);
                }
            }
        }
        if idx == 0 || idx == n {
            proof {
                if exists|i: int|
                    self.inside(i, a) && self.inside(i, b) && exists|t: int|
                        0 <= t < self.spec_store(i).len() && self.infix_in(i, a)
                            <= #[trigger] self.spec_store(i)[t] <= self.infix_in(i, b) {
                    let i = choose|i: int|
                        self.inside(i, a) && self.inside(i, b) && exists|t: int|
                            0 <= t < self.spec_store(i).len() && self.infix_in(i, a)
                                <= #[trigger] self.spec_store(i)[t] <= self.infix_in(i, b);
                    if idx == 0 {
                        assert(self.samples@[i] < b);
                    } else {
                        assert(self.samples@[i + 1] > b);
                    }
                }
            }
            return false;
        }
        let i = idx - 1;
        let rs = self.stores[i].remainder_size();
        let found = self.stores[i].range_query(a, b, self.samples[i], self.samples[i + 1], rs);
        proof {
            assert(self.inside(i as int, a) && self.inside(i as int, b));
            if found {
                let t = choose|t: int|
                    0 <= t < self.stores@[i as int]@.len() && infix_of(
                        a,
                        self.samples@[i as int],
                        self.samples@[i + 1],
                        (10 + rs) as u64,
                    ) <= #[trigger] self.stores@[i as int]@[t] <= infix_of(
                        b,
                        self.samples@[i as int],
                        self.samples@[i + 1],
                        (10 + rs) as u64,
                    );
                assert(0 <= t < self.spec_store(i as int).len() && self.infix_in(i as int, a)
                    <= self.spec_store(i as int)[t] <= self.infix_in(i as int, b));
            }
            if exists|j: int|
                self.inside(j, a) && self.inside(j, b) && exists|t: int|
                    0 <= t < self.spec_store(j).len() && self.infix_in(j, a)
                        <= #[trigger] self.spec_store(j)[t] <= self.infix_in(j, b) {
                let j = choose|j: int|
                    self.inside(j, a) && self.inside(j, b) && exists|t: int|
                        0 <= t < self.spec_store(j).len() && self.infix_in(j, a)
                            <= #[trigger] self.spec_store(j)[t] <= self.infix_in(j, b);
                self.lemma_inside_unique(i as int, j, a);
            }
        }
        found
    }

    /// Insert `key` into the store of the bracket that holds it. A sample key is accepted
    /// as it is; a key below the first or above the last sample is refused; otherwise only a
    /// full store at its largest size refuses.
    pub fn insert(&mut self, key: u64) -> (ok: bool)
        requires
            old(self).wf(),
        ensures
            final(self).wf(),
            final(self).spec_samples() == old(self).spec_samples(),
            final(self).spec_remainder_size() == old(self).spec_remainder_size(),
            ok == (old(self).spec_samples().contains(key) || exists|i: int|
                old(self).inside(i, key) && #[trigger] old(self).spec_store(i).len() < capacity(30)),
            ok ==> final(self).holds_key(key),
            forall|k: u64| old(self).holds_key(k) ==> final(self).holds_key(k),
            forall|i: int|
                0 <= i < old(self).spec_samples().len() - 1 && !old(self).inside(i, key)
                    ==> #[trigger] final(self).spec_store(i) == old(self).spec_store(i),
            forall|i: int, x: u64|
                old(self).inside(i, key) ==> (#[trigger] final(self).spec_store(i).contains(x)
                    <==> old(self).spec_store(i).contains(x) || (ok && x == old(self).infix_in(
                    i,
                    key,
                ))),
    {
        let idx = count_at_most(&self.samples, key);
        if idx > 0 && self.samples[idx - 1] == key {
            proof {
                assert(self.spec_samples().contains(key)) by {
                    assert(self.spec_samples()[idx - 1] == key);
                }
                assert forall|i: int| !self.inside(i, key) by {
                    if self.inside(i, key) {
                        if i < idx - 1 {
                            if i + 1 < idx - 1 {
                                assert(self.samples@[i + 1] < self.samples@[idx - 1]);
                            }
                        } else if i > idx - 1 {
                            assert(self.samples@[idx - 1] < self.samples@[i]);
                        }
                    }
                }
            }
            return true;
        }
        match self.locate(key) {
            None => {
                proof {
                    if self.spec_samples().contains(key) {
                        let m = choose|m: int| 0 <= m < self.samples@.len() && self.samples@[m] == key;
                        assert(m < idx);
                        if m < idx - 1 {
                            assert(self.samples@[m] < self.samples@[idx - 1]);
                        }
                    }
                }
                false
            },
            Some(i) => {
                let ghost old_self = *self;
                let rs = self.stores[i].remainder_size();
                let infix = extract_partial_key(
                    key,
                    self.samples[i],
                    self.samples[i + 1],
                    QUOTIENT_SIZE,
                    rs,
                );
                let ok = self.stores[i].insert(infix);
                proof {
                    lemma_canonical_small(infix, rs as u64);
                    assert(!old_self.spec_samples().contains(key)) by {
                        if old_self.spec_samples().contains(key) {
                            let m = choose|m: int|
                                0 <= m < self.samples@.len() && self.samples@[m] == key;
                            if m < i {
                                assert(self.samples@[m] < self.samples@[i as int]);
                            } else if m > i + 1 {
                                assert(self.samples@[i + 1] < self.samples@[m]);
                            }
                        }
                    }
                    if exists|j: int|
                        old_self.inside(j, key) && #[trigger] old_self.spec_store(j).len() < capacity(30) {
                        let j = choose|j: int|
                            old_self.inside(j, key) && #[trigger] old_self.spec_store(j).len() < capacity(30);
                        old_self.lemma_inside_unique(i as int, j, key);
                    }
                    if ok {
                        assert(old_self.spec_store(i as int).len() < capacity(30));
                        assert(self.inside(i as int, key) && self.spec_store(i as int).contains(
                            self.infix_in(i as int, key),
                        ));
                    }
                    assert forall|j: int, x: u64| old_self.inside(j, key) implies (
                    #[trigger] self.spec_store(j).contains(x) <==> old_self.spec_store(j).contains(x)
                        || (ok && x == old_self.infix_in(j, key))) by {
                        old_self.lemma_inside_unique(i as int, j, key);
                    }
                    assert(self.spec_samples() == old_self.spec_samples());
                    assert forall|k: u64| old_self.holds_key(k) implies self.holds_key(k) by {
                        if !old_self.spec_samples().contains(k) {
                            let j = choose|j: int|
                                old_self.inside(j, k) && #[trigger] old_self.spec_store(j).contains(
                                    old_self.infix_in(j, k),
                                );
                            assert(self.inside(j, k));
                            if j == i {
                                assert(self.spec_store(j).contains(self.infix_in(j, k)));
                            } else {
                                assert(self.stores@[j] == old_self.stores@[j]);
                                assert(self.spec_store(j) == old_self.spec_store(j));
                            }
                            assert(self.spec_store(j).contains(self.infix_in(j, k)));
                        }
                    }
                }
                ok
            },
        }
    }

    /// Delete `key` from the store of the bracket that holds it. Returns whether its infix
    /// was there; a sample key, or one outside the samples, is never deleted.
    pub fn delete(&mut self, key: u64) -> (found: bool)
        requires
            old(self).wf(),
        ensures
            final(self).wf(),
            final(self).spec_samples() == old(self).spec_samples(),
            final(self).spec_remainder_size() == old(self).spec_remainder_size(),
            found == exists|i: int|
                old(self).inside(i, key) && #[trigger] old(self).spec_store(i).contains(
                    old(self).infix_in(i, key),
                ),
            found ==> !final(self).holds_key(key),
            forall|i: int|
                0 <= i < old(self).spec_samples().len() - 1 && !old(self).inside(i, key)
                    ==> #[trigger] final(self).spec_store(i) == old(self).spec_store(i),
            forall|i: int, x: u64|
                old(self).inside(i, key) ==> (#[trigger] final(self).spec_store(i).contains(x)
                    <==> old(self).spec_store(i).contains(x) && x != old(self).infix_in(i, key)),
    {
        match self.locate(key) {
            None => {
                proof {
                    if exists|i: int|
                        self.inside(i, key) && #[trigger] self.spec_store(i).contains(
                            self.infix_in(i, key),
                        ) {
                        let i = choose|i: int|
                            self.inside(i, key) && #[trigger] self.spec_store(i).contains(
                                self.infix_in(i, key),
                            );
                        assert(self.inside(i, key));
                        let m = choose|m: int| 0 <= m < self.samples@.len() && self.samples@[m] == key;
                        if m <= i {
                            if m < i {
                                assert(self.samples@[m] < self.samples@[i]);
                            }
                        } else if m > i + 1 {
                            assert(self.samples@[i + 1] < self.samples@[m]);
                        }
                    }
                }
                false
            },
            Some(i) => {
                let ghost old_self = *self;
                let n = self.samples.len();
                proof {
                    assert(self.inside(i as int, key));
                    assert(i + 1 < n);
                }
                let rs = self.stores[i].remainder_size();
                let infix = extract_partial_key(
                    key,
                    self.samples[i],
                    self.samples[i + 1],
                    QUOTIENT_SIZE,
                    rs,
                );
                let found = self.stores[i].delete(infix);
                proof {
                    lemma_canonical_small(infix, rs as u64);
                    if exists|j: int|
                        old_self.inside(j, key) && #[trigger] old_self.spec_store(j).contains(
                            old_self.infix_in(j, key),
                        ) {
                        let j = choose|j: int|
                            old_self.inside(j, key) && #[trigger] old_self.spec_store(j).contains(
                                old_self.infix_in(j, key),
                            );
                        old_self.lemma_inside_unique(i as int, j, key);
                    }
                    if found {
                        assert(old_self.spec_store(i as int).contains(old_self.infix_in(i as int, key)));
                    }
                    assert forall|j: int, x: u64| old_self.inside(j, key) implies (
                    #[trigger] self.spec_store(j).contains(x) <==> old_self.spec_store(j).contains(x)
                        && x != old_self.infix_in(j, key)) by {
                        old_self.lemma_inside_unique(i as int, j, key);
                    }
                    if found {
                        assert(!self.spec_samples().contains(key)) by {
                            if self.spec_samples().contains(key) {
                                let m = choose|m: int|
                                    0 <= m < self.samples@.len() && self.samples@[m] == key;
                                if m <= i {
                                    if m < i {
                                        assert(self.samples@[m] < self.samples@[i as int]);
                                    }
                                } else if m > i + 1 {
                                    assert(self.samples@[i + 1] < self.samples@[m]);
                                }
                            }
                        }
                        if exists|j: int|
                            self.inside(j, key) && #[trigger] self.spec_store(j).contains(
                                self.infix_in(j, key),
                            ) {
                            let j = choose|j: int|
                                self.inside(j, key) && #[trigger] self.spec_store(j).contains(
                                    self.infix_in(j, key),
                                );
                            old_self.lemma_inside_unique(i as int, j, key);
                        }
                    }
                }
                found
            },
        }
    }

    /// No false negatives on ranges: when the filter answers yes for a key `k`, it answers
    /// yes for every range `[a, b]` that contains `k`.
    pub proof fn lemma_range_no_false_negatives(&self, k: u64, a: u64, b: u64)
        requires
            self.wf(),
            self.holds_key(k),
            a <= k <= b,
        ensures
            self.holds_in_range(a, b),
    {
        let smp = self.spec_samples();
        if smp.contains(k) {
            let j = choose|j: int| 0 <= j < smp.len() && smp[j] == k;
            assert(a <= smp[j] <= b);
        } else if !(exists|j: int| 0 <= j < smp.len() && a <= #[trigger] smp[j] <= b) {
            let i = choose|i: int|
                self.inside(i, k) && #[trigger] self.spec_store(i).contains(self.infix_in(i, k));
            assert(smp[i] < a) by {
                if smp[i] >= a {
                    assert(a <= smp[i] <= b);
                }
            }
            assert(b < smp[i + 1]) by {
                if smp[i + 1] <= b {
                    assert(a <= smp[i + 1] <= b);
                }
            }
            let width = (10 + self.spec_store_remainder(i)) as u64;
            lemma_infix_monotone(smp[i], smp[i + 1], a, k, width);
            lemma_infix_monotone(smp[i], smp[i + 1], k, b, width);
            let t = choose|t: int|
                0 <= t < self.spec_store(i).len() && self.spec_store(i)[t] == self.infix_in(i, k);
            assert(self.infix_in(i, a) <= self.spec_store(i)[t] <= self.infix_in(i, b));
            assert(self.inside(i, a) && self.inside(i, b) && exists|t: int|
                0 <= t < self.spec_store(i).len() && self.infix_in(i, a) <= #[trigger] self.spec_store(
                    i,
                )[t] <= self.infix_in(i, b));
        }
    }

    /// Number of sample keys.
    pub fn sample_count(&self) -> (n: usize)
        ensures
            n == self.spec_samples().len(),
    {
        self.samples.len()
    }
}

} // verus!
