use vstd::prelude::*;

verus! {

/// The largest signed 32-bit integer, the generator's modulus.
pub const MODULUS: i32 = 2147483647;

/// The fixed constant the seed is subtracted from.
pub const GOLDEN: i32 = 161803398;

/// Number of slots in the circular buffer.
pub const SLOTS: usize = 56;

/// Distance between the two running indices.
pub const LAG: usize = 31;

/// Number of mixing passes run over the buffer after it is filled.
pub const MIX_ROUNDS: usize = 5;

/// `a - b` with two's-complement wraparound, then `MODULUS` added if negative.
pub open spec fn sub_mod(a: i32, b: i32) -> i32 {
    let d = a.wrapping_sub(b);
    if d < 0 {
        (d + MODULUS) as i32
    } else {
        d
    }
}

/// The value the fill starts from: `GOLDEN - |seed|`.
pub open spec fn seed_origin(seed: i32) -> int {
    GOLDEN - if seed < 0 {
        -seed
    } else {
        seed as int
    }
}

/// Buffer, `num1` and `num2` after the first `k` steps of the fill.
pub open spec fn fill(seed: i32, k: nat) -> (Seq<i32>, int, int)
    decreases k,
{
    if k == 0 {
        (Seq::new(56, |i: int| if i == 55 { seed_origin(seed) as i32 } else { 0i32 }), seed_origin(seed), 1)
    } else {
        let prev = fill(seed, (k - 1) as nat);
        let idx = (21 * k) as int % 55;
        let d = prev.1 - prev.2;
        (prev.0.update(idx, prev.2 as i32), prev.2, if d < 0 { d + MODULUS } else { d })
    }
}

/// One mixing update of slot `i`.
pub open spec fn mix_step(s: Seq<i32>, i: int) -> Seq<i32> {
    s.update(i, sub_mod(s[i], s[1 + (i + 30) % 55]))
}

/// Slots `1..=j` of one mixing pass applied in order.
pub open spec fn mix_prefix(s: Seq<i32>, j: nat) -> Seq<i32>
    decreases j,
{
    if j == 0 {
        s
    } else {
        mix_step(mix_prefix(s, (j - 1) as nat), j as int)
    }
}

/// `p` full mixing passes.
pub open spec fn mix_rounds(s: Seq<i32>, p: nat) -> Seq<i32>
    decreases p,
{
    if p == 0 {
        s
    } else {
        mix_prefix(mix_rounds(s, (p - 1) as nat), 55)
    }
}

/// The buffer of a freshly seeded generator.
pub open spec fn initial_slots(seed: i32) -> Seq<i32> {
    mix_rounds(fill(seed, 54).0, MIX_ROUNDS as nat)
}

/// One sampling step on `(next, buffer)`; the paired index is `next + 31`.
pub open spec fn advance(st: (int, Seq<i32>)) -> (int, Seq<i32>) {
    let n = (st.0 + 1) % 56;
    let p = (n + 31) % 56;
    (n, st.1.update(n, sub_mod(st.1[n], st.1[p])))
}

/// `(next, buffer)` after `k` samples from `seed`.
pub open spec fn state_after(seed: i32, k: nat) -> (int, Seq<i32>)
    decreases k,
{
    if k == 0 {
        (0, initial_slots(seed))
    } else {
        advance(state_after(seed, (k - 1) as nat))
    }
}

/// The raw sample number `k` (counting from 0) drawn from `seed`.
pub open spec fn sample_at(seed: i32, k: nat) -> i32 {
    let st = advance(state_after(seed, k));
    st.1[st.0]
}

/// `raw / MODULUS * bound`, truncated toward zero.
pub open spec fn scale(raw: int, bound: int) -> int {
    let p = raw * bound;
    if p >= 0 {
        p / MODULUS as int
    } else {
        -((-p) / MODULUS as int)
    }
}

/// Whether all 56 slots of a buffer lie in `[0, MODULUS)`.
pub open spec fn slots_in_range(s: Seq<i32>) -> bool {
    &&& s.len() == 56
    &&& forall|i: int| 0 <= i < 56 ==> 0 <= #[trigger] s[i] < MODULUS
}

proof fn lemma_fill_shape(seed: i32, k: nat)
    ensures
        fill(seed, k).0.len() == 56,
        -GOLDEN <= seed <= GOLDEN ==> {
            &&& slots_in_range(fill(seed, k).0)
            &&& 0 <= fill(seed, k).1 < MODULUS
            &&& 0 <= fill(seed, k).2 < MODULUS
        },
    decreases k,
{
    if k > 0 {
        lemma_fill_shape(seed, (k - 1) as nat);
    }
}

proof fn lemma_mix_prefix_shape(s: Seq<i32>, j: nat)
    requires
        s.len() == 56,
        j <= 55,
    ensures
        mix_prefix(s, j).len() == 56,
        slots_in_range(s) ==> slots_in_range(mix_prefix(s, j)),
    decreases j,
{
    if j > 0 {
        lemma_mix_prefix_shape(s, (j - 1) as nat);
    }
}

proof fn lemma_mix_rounds_shape(s: Seq<i32>, p: nat)
    requires
        s.len() == 56,
    ensures
        mix_rounds(s, p).len() == 56,
        slots_in_range(s) ==> slots_in_range(mix_rounds(s, p)),
    decreases p,
{
    if p > 0 {
        lemma_mix_rounds_shape(s, (p - 1) as nat);
        lemma_mix_prefix_shape(mix_rounds(s, (p - 1) as nat), 55);
    }
}

proof fn lemma_state_shape(seed: i32, k: nat)
    ensures
        state_after(seed, k).1.len() == 56,
        0 <= state_after(seed, k).0 < 56,
        -GOLDEN <= seed <= GOLDEN ==> slots_in_range(state_after(seed, k).1),
    decreases k,
{
    if k == 0 {
        lemma_fill_shape(seed, 54);
        lemma_mix_rounds_shape(fill(seed, 54).0, MIX_ROUNDS as nat);
    } else {
        lemma_state_shape(seed, (k - 1) as nat);
    }
}

/// Every raw sample lies in `[-1, MODULUS]`, and in `[0, MODULUS)` for a seed
/// of magnitude at most `GOLDEN`: the fill then starts from a value that is
/// not negative, and subtracting in `[0, MODULUS)` with the modulus added back
/// never leaves that range. For larger seeds the slot that starts negative can
/// only reach -1 or `MODULUS` on exact edges of the wraparound.
pub proof fn lemma_sample_bounds(seed: i32, k: nat)
    ensures
        -1 <= sample_at(seed, k) <= MODULUS,
        -GOLDEN <= seed <= GOLDEN ==> 0 <= sample_at(seed, k) < MODULUS,
{
    lemma_state_shape(seed, k);
}

/// For one and the same sample that is not negative, a larger bound never
/// gives a smaller result.
pub proof fn lemma_scale_monotone(raw: int, b1: int, b2: int)
    requires
        0 <= raw,
        b1 <= b2,
    ensures
        scale(raw, b1) <= scale(raw, b2),
{
    let m = MODULUS as int;
    assert(raw * b1 <= raw * b2) by (nonlinear_arith)
        requires
            0 <= raw,
            b1 <= b2,
    ;
    let p1 = raw * b1;
    let p2 = raw * b2;
    if p1 >= 0 {
        vstd::arithmetic::div_mod::lemma_div_is_ordered(p1, p2, m);
    } else if p2 >= 0 {
        assert(p2 / m >= 0) by (nonlinear_arith)
            requires
                p2 >= 0,
                m > 0,
        ;
        assert((-p1) / m >= 0) by (nonlinear_arith)
            requires
                p1 < 0,
                m > 0,
        ;
    } else {
        vstd::arithmetic::div_mod::lemma_div_is_ordered(-p2, -p1, m);
    }
}

proof fn lemma_div_within(p: int, b: int)
    requires
        0 <= p <= MODULUS * b,
    ensures
        0 <= p / (MODULUS as int) <= b,
        p < MODULUS * b ==> p / (MODULUS as int) < b,
{
    let m = MODULUS as int;
    vstd::arithmetic::div_mod::lemma_fundamental_div_mod(p, m);
    vstd::arithmetic::div_mod::lemma_mod_bound(p, m);
    let q = p / m;
    let r = p % m;
    assert(0 <= q <= b) by (nonlinear_arith)
        requires
            p == m * q + r,
            0 <= r < m,
            0 <= p <= m * b,
            m > 0,
    ;
    assert(p < m * b ==> q < b) by (nonlinear_arith)
        requires
            p == m * q + r,
            0 <= r,
            m > 0,
    ;
}

/// The range of `scale(v, b)` for a sample `v` in `[-1, MODULUS]`, and the
/// half-open range for a sample in `[0, MODULUS)`.
proof fn lemma_scale_range(v: int, b: int)
    requires
        -1 <= v <= MODULUS,
    ensures
        b == 0 ==> scale(v, b) == 0,
        0 < b < MODULUS ==> 0 <= scale(v, b) <= b,
        -MODULUS < b < 0 ==> b <= scale(v, b) <= 0,
        0 <= v < MODULUS && b > 0 ==> 0 <= scale(v, b) < b,
        0 <= v < MODULUS && b < 0 ==> b < scale(v, b) <= 0,
{
    let m = MODULUS as int;
    let p = v * b;
    if b > 0 {
        if v >= 0 {
            assert(0 <= p <= m * b && (v < m ==> p < m * b)) by (nonlinear_arith)
                requires
                    0 <= v <= m,
                    b > 0,
                    p == v * b,
            ;
            lemma_div_within(p, b);
        } else {
            assert(v == -1);
            assert(p == -b) by (nonlinear_arith)
                requires
                    v == -1,
                    p == v * b,
            ;
            if b < m {
                lemma_div_within(-p, 1);
                assert(-p < m * 1);
            }
        }
    } else if b < 0 {
        if v >= 0 {
            assert(0 <= -p <= m * (-b) && (v < m ==> -p < m * (-b))) by (nonlinear_arith)
                requires
                    0 <= v <= m,
                    b < 0,
                    p == v * b,
            ;
            lemma_div_within(-p, -b);
            if p == 0 {
                assert(p / m == 0);
            }
        } else {
            assert(v == -1);
            assert(p == -b) by (nonlinear_arith)
                requires
                    v == -1,
                    p == v * b,
            ;
            if -b < m {
                lemma_div_within(p, 1);
                assert(p < m * 1);
            }
        }
    } else {
        assert(p == 0) by (nonlinear_arith)
            requires
                b == 0,
                p == v * b,
        ;
    }
}

proof fn lemma_scale_bounds(v: int, b: int)
    requires
        -1 <= v <= MODULUS,
        -2147483648 <= b <= 2147483647,
    ensures
        -0x4000_0000_0000_0000 <= v * b <= 0x4000_0000_0000_0000,
        -2147483648 <= scale(v, b) <= 2147483647,
{
    assert(-0x4000_0000_0000_0000 <= v * b <= 0x4000_0000_0000_0000) by (nonlinear_arith)
        requires
            -1 <= v <= MODULUS,
            -2147483648 <= b <= 2147483647,
    ;
    let m = MODULUS as int;
    if v * b >= 0 {
        assert(v * b / m <= 2147483647) by (nonlinear_arith)
            requires
                -1 <= v <= m,
                -2147483648 <= b <= 2147483647,
                v * b >= 0,
                m == 2147483647,
        ;
        assert(v * b / m >= 0) by (nonlinear_arith)
            requires
                v * b >= 0,
                m == 2147483647,
        ;
    } else {
        assert((-(v * b)) / m <= 2147483648) by (nonlinear_arith)
            requires
                -1 <= v <= m,
                -2147483648 <= b <= 2147483647,
                v * b < 0,
                m == 2147483647,
        ;
        assert((-(v * b)) / m >= 0) by (nonlinear_arith)
            requires
                v * b < 0,
                m == 2147483647,
        ;
    }
}

proof fn lemma_scale_full(v: int)
    requires
        -1 <= v <= MODULUS,
    ensures
        scale(v, MODULUS as int) == v,
{
    let m = MODULUS as int;
    if v >= 0 {
        assert(v * m / m == v) by (nonlinear_arith)
            requires
                m > 0,
        ;
    } else {
        assert(v == -1);
        assert(-(v * m) / m == 1) by (nonlinear_arith)
            requires
                m > 0,
                v == -1,
        ;
    }
}

/// Knuth's subtractive generator as seeded by the legacy platform.
pub struct DspRandom {
    /// Index of the slot the next sample overwrites, less one.
    pub inext: usize,
    /// Index of the slot subtracted from it, 31 further on.
    pub inextp: usize,
    /// The seed the generator was built from.
    pub seed: i32,
    /// The circular buffer.
    pub seed_array: Vec<i32>,
    /// Number of samples drawn since seeding.
    pub drawn: Ghost<nat>,
}

impl DspRandom {
    /// The seed this generator was built from.
    pub open spec fn seed_of(&self) -> i32 {
        self.seed
    }

    /// Number of samples drawn since seeding.
    pub open spec fn draws(&self) -> nat {
        self.drawn@
    }

    /// `(next, buffer)`: the running index and the circular buffer.
    pub open spec fn state(&self) -> (int, Seq<i32>) {
        (self.inext as int, self.seed_array@)
    }

    /// The buffer has its 56 slots, the indices are 31 apart, and the state is
    /// the one reached from the seed after `draws()` samples.
    pub open spec fn wf(&self) -> bool {
        &&& self.seed_array@.len() == 56
        &&& self.inext < 56
        &&& self.inextp == (self.inext + 31) % 56
        &&& self.state() == state_after(self.seed, self.drawn@)
    }

    /// Seeds a generator; its buffer is `initial_slots(seed)`.
    pub fn new(seed: i32) -> (r: Self)
        ensures
            r.wf(),
            r.seed_of() == seed,
            r.draws() == 0,
            r.state() == (0int, initial_slots(seed)),
    {
        let mut seed_array: Vec<i32> = Vec::new();
        let mut k: usize = 0;
        while k < SLOTS
            invariant
                k <= SLOTS,
                seed_array@ == Seq::new(k as nat, |i: int| 0i32),
            decreases SLOTS - k,
        {
            seed_array.push(0);
            k = k + 1;
        }
        let magnitude: i64 = if seed < 0 {
            -(seed as i64)
        } else {
            seed as i64
        };
        let mut num1: i32 = (GOLDEN as i64 - magnitude) as i32;
        seed_array.set(55, num1);
        assert(seed_array@ =~= fill(seed, 0).0);
        let mut num2: i32 = 1;
        let mut index1: usize = 1;
        while index1 < 55
            invariant
                1 <= index1 <= 55,
                seed_array@.len() == 56,
                fill(seed, (index1 - 1) as nat) == (seed_array@, num1 as int, num2 as int),
                index1 == 1 ==> num1 == seed_origin(seed) && num2 == 1,
                index1 > 1 ==> 0 <= num1 < MODULUS && 0 <= num2 < MODULUS,
            decreases 55 - index1,
        {
            let index2: usize = (21 * index1) % 55;
            seed_array.set(index2, num2);
            let old_num2 = num2;
            num2 = num1 - num2;
            if num2 < 0 {
                num2 = num2 + MODULUS;
            }
            num1 = old_num2;
            index1 = index1 + 1;
        }
        let ghost filled = seed_array@;
        let mut round: usize = 0;
        while round < MIX_ROUNDS
            invariant
                round <= MIX_ROUNDS,
                seed_array@.len() == 56,
                seed_array@ == mix_rounds(filled, round as nat),
            decreases MIX_ROUNDS - round,
        {
            let ghost before = seed_array@;
            let mut index4: usize = 1;
            while index4 < 56
                invariant
                    1 <= index4 <= 56,
                    seed_array@.len() == 56,
                    seed_array@ == mix_prefix(before, (index4 - 1) as nat),
                decreases 56 - index4,
            {
                let mut val: i32 = seed_array[index4].wrapping_sub(seed_array[1 + (index4 + 30) % 55]);
                if val < 0 {
                    val = val + MODULUS;
                }
                seed_array.set(index4, val);
                index4 = index4 + 1;
            }
            round = round + 1;
        }
        DspRandom { inext: 0, inextp: LAG, seed, seed_array, drawn: Ghost(0) }
    }

    /// Advances both indices and returns the next raw sample.
    fn sample(&mut self) -> (r: i32)
        requires
            old(self).wf(),
        ensures
            final(self).wf(),
            final(self).seed_of() == old(self).seed_of(),
            final(self).draws() == old(self).draws() + 1,
            r == sample_at(old(self).seed_of(), old(self).draws()),
            -1 <= r <= MODULUS,
    {
        self.inext = (self.inext + 1) % SLOTS;
        self.inextp = (self.inextp + 1) % SLOTS;
        let mut num: i32 = self.seed_array[self.inext].wrapping_sub(self.seed_array[self.inextp]);
        if num < 0 {
            num = num.wrapping_add(MODULUS);
        }
        self.seed_array.set(self.inext, num);
        self.drawn = Ghost(self.drawn@ + 1);
        num
    }

    /// Draws `sample * max_value` with `sample = raw / MODULUS`, computed exactly
    /// on integers and truncated toward zero. For a raw sample in
    /// `[0, MODULUS)`, which every seed of magnitude at most `GOLDEN` gives, the
    /// result lies in `[0, max_value)` for a positive bound.
    pub fn next_i32(&mut self, max_value: i32) -> (r: i32)
        requires
            old(self).wf(),
        ensures
            final(self).wf(),
            final(self).seed_of() == old(self).seed_of(),
            final(self).draws() == old(self).draws() + 1,
            r == scale(sample_at(old(self).seed_of(), old(self).draws()) as int, max_value as int),
            -1 <= sample_at(old(self).seed_of(), old(self).draws()) <= MODULUS,
            -GOLDEN <= old(self).seed_of() <= GOLDEN ==> 0 <= sample_at(old(self).seed_of(), old(self).draws()) < MODULUS,
            max_value == 0 ==> r == 0,
            0 < max_value < MODULUS ==> 0 <= r <= max_value,
            -MODULUS < max_value < 0 ==> max_value <= r <= 0,
            0 <= sample_at(old(self).seed_of(), old(self).draws()) < MODULUS ==> {
                &&& max_value > 0 ==> 0 <= r < max_value
                &&& max_value < 0 ==> max_value < r <= 0
            },
    {
        let raw = self.sample();
        proof {
            lemma_scale_bounds(raw as int, max_value as int);
            lemma_scale_range(raw as int, max_value as int);
            lemma_sample_bounds(old(self).seed, old(self).drawn@);
        }
        let p: i64 = raw as i64 * max_value as i64;
        if p >= 0 {
            (p / (MODULUS as i64)) as i32
        } else {
            (-((-p) / (MODULUS as i64))) as i32
        }
    }

    /// Draws `sample * MODULUS` as a `usize`, computed exactly on integers: the
    /// raw sample, or 0 below zero.
    pub fn next_usize(&mut self) -> (r: usize)
        requires
            old(self).wf(),
        ensures
            final(self).wf(),
            final(self).seed_of() == old(self).seed_of(),
            final(self).draws() == old(self).draws() + 1,
            r == if sample_at(old(self).seed_of(), old(self).draws()) < 0 {
                0
            } else {
                scale(sample_at(old(self).seed_of(), old(self).draws()) as int, MODULUS as int)
            },
            0 <= sample_at(old(self).seed_of(), old(self).draws()) ==> r == sample_at(old(self).seed_of(), old(self).draws()),
            r <= MODULUS,
            -GOLDEN <= old(self).seed_of() <= GOLDEN ==> r < MODULUS,
    {
        let raw = self.sample();
        proof {
            lemma_scale_full(raw as int);
            lemma_sample_bounds(old(self).seed, old(self).drawn@);
        }
        if raw < 0 {
            0
        } else {
            raw as usize
        }
    }

    /// Draws `sample * MODULUS`, computed exactly on integers: the raw sample,
    /// a seed for a nested generator.
    pub fn next_seed(&mut self) -> (r: i32)
        requires
            old(self).wf(),
        ensures
            final(self).wf(),
            final(self).seed_of() == old(self).seed_of(),
            final(self).draws() == old(self).draws() + 1,
            r == scale(sample_at(old(self).seed_of(), old(self).draws()) as int, MODULUS as int),
            r == sample_at(old(self).seed_of(), old(self).draws()),
            -1 <= r <= MODULUS,
            -GOLDEN <= old(self).seed_of() <= GOLDEN ==> 0 <= r < MODULUS,
    {
        let raw = self.sample();
        proof {
            lemma_scale_full(raw as int);
            lemma_sample_bounds(old(self).seed, old(self).drawn@);
        }
        raw
    }
}

/// Two generators seeded alike that have drawn equally many samples are in the
/// same state, so they go on to draw the same values: the stream is a function
/// of the seed and the number of draws alone.
pub proof fn lemma_replay(a: &DspRandom, b: &DspRandom)
    requires
        a.wf(),
        b.wf(),
        a.seed_of() == b.seed_of(),
        a.draws() == b.draws(),
    ensures
        a.state() == b.state(),
        a.state() == state_after(a.seed_of(), a.draws()),
{
}

/// Two generators in the same state draw the same values from then on: after
/// `k` further samples each, the states agree again and so does sample `k`.
pub proof fn lemma_same_state_same_stream(a: &DspRandom, b: &DspRandom, k: nat)
    requires
        a.wf(),
        b.wf(),
        a.state() == b.state(),
    ensures
        state_after(a.seed_of(), a.draws() + k) == state_after(b.seed_of(), b.draws() + k),
        sample_at(a.seed_of(), a.draws() + k) == sample_at(b.seed_of(), b.draws() + k),
    decreases k,
{
    if k > 0 {
        lemma_same_state_same_stream(a, b, (k - 1) as nat);
        assert(state_after(a.seed_of(), a.draws() + k) == advance(state_after(a.seed_of(), (a.draws() + k - 1) as nat)));
        assert(state_after(b.seed_of(), b.draws() + k) == advance(state_after(b.seed_of(), (b.draws() + k - 1) as nat)));
    }
}

/// A seed and its negation give the same stream.
pub proof fn lemma_sign_free(seed: i32, k: nat)
    requires
        seed > i32::MIN,
    ensures
        sample_at(seed, k) == sample_at((-seed) as i32, k),
{
    lemma_state_sign_free(seed, k);
}

proof fn lemma_fill_sign_free(seed: i32, k: nat)
    requires
        seed > i32::MIN,
    ensures
        fill(seed, k) == fill((-seed) as i32, k),
    decreases k,
{
    if k > 0 {
        lemma_fill_sign_free(seed, (k - 1) as nat);
    } else {
        assert(fill(seed, 0).0 =~= fill((-seed) as i32, 0).0);
    }
}

proof fn lemma_state_sign_free(seed: i32, k: nat)
    requires
        seed > i32::MIN,
    ensures
        state_after(seed, k) == state_after((-seed) as i32, k),
    decreases k,
{
    if k > 0 {
        lemma_state_sign_free(seed, (k - 1) as nat);
    } else {
        lemma_fill_sign_free(seed, 54);
    }
}

} // verus!
