//! Allocation-free integer DSP blocks used by both firmware and host tests.
//!
//! Audio samples use signed Q12 fixed point, leaving enough headroom for the
//! pink and brown generators. Coefficients and gains use signed Q15. Keeping
//! the sample loop to 32-bit integer multiplies is important on Cortex-M0+,
//! where floating-point operations are implemented in software.
//!
//! The product inside a Q15 multiply, and the low-pass accumulator, wrap
//! on overflow, as `i32` arithmetic does in the firmware's release build;
//! every other operation of the sample path is proved free of overflow.

use vstd::prelude::*;

verus! {

/// Fractional bits of an audio sample.
pub const SIGNAL_BITS: u32 = 12;

/// The sample value that stands for full scale, `1 << SIGNAL_BITS`.
pub const SIGNAL_ONE: i32 = 4096;

/// The Q15 coefficient that stands for `1.0`.
pub const Q15_ONE: i32 = 32768;

/// `x` reduced to the `i32` range, as two's complement arithmetic does.
pub open spec fn wrap_i32(x: int) -> int {
    let r = x % 0x1_0000_0000;
    if r > 0x7fff_ffff {
        r - 0x1_0000_0000
    } else {
        r
    }
}

/// The Q15 product of a value and a coefficient: the `i32` product, with
/// wrap-around, divided by `2^15` and rounded down.
pub open spec fn q15(value: int, coefficient: int) -> int {
    wrap_i32(value * coefficient) / 0x8000
}

proof fn lemma_shift_is_floor_division(x: i32)
    ensures
        (x >> 15u32) as int == x as int / 0x8000,
{
    assert(((x >> 15u32) as int) * 0x8000 <= x as int && (x as int) < ((x >> 15u32) as int) * 0x8000
        + 0x8000) by (bit_vector);
}

/// A product that fits in `i32` does not wrap.
pub proof fn lemma_q15_exact(value: int, coefficient: int)
    requires
        i32::MIN <= value * coefficient <= i32::MAX,
    ensures
        q15(value, coefficient) == (value * coefficient) / 0x8000,
{
    let x = value * coefficient;
    if x < 0 {
        assert(x % 0x1_0000_0000 == x + 0x1_0000_0000);
    } else {
        assert(x % 0x1_0000_0000 == x);
    }
}

/// Every Q15 product lies in `[-2^16, 2^16)`.
pub proof fn lemma_q15_bounded(value: int, coefficient: int)
    ensures
        -0x1_0000 <= q15(value, coefficient) < 0x1_0000,
{
}

/// For a value between `lo` and `hi` and a coefficient in `[0, 2^15]`
/// whose products fit in `i32`, the Q15 product is exact and ordered.
pub proof fn lemma_q15_between(value: int, coefficient: int, lo: int, hi: int)
    requires
        lo <= value <= hi,
        0 <= coefficient,
        i32::MIN <= lo * coefficient,
        hi * coefficient <= i32::MAX,
    ensures
        q15(value, coefficient) == (value * coefficient) / 0x8000,
        (lo * coefficient) / 0x8000 <= q15(value, coefficient) <= (hi * coefficient) / 0x8000,
{
    assert(lo * coefficient <= value * coefficient <= hi * coefficient) by (nonlinear_arith)
        requires
            lo <= value <= hi,
            0 <= coefficient,
    ;
    lemma_q15_exact(value, coefficient);
    vstd::arithmetic::div_mod::lemma_div_is_ordered(lo * coefficient, value * coefficient, 0x8000);
    vstd::arithmetic::div_mod::lemma_div_is_ordered(value * coefficient, hi * coefficient, 0x8000);
}

/// As `lemma_q15_between`, for a negative coefficient.
pub proof fn lemma_q15_between_negative(value: int, coefficient: int, lo: int, hi: int)
    requires
        lo <= value <= hi,
        coefficient < 0,
        i32::MIN <= hi * coefficient,
        lo * coefficient <= i32::MAX,
    ensures
        q15(value, coefficient) == (value * coefficient) / 0x8000,
        (hi * coefficient) / 0x8000 <= q15(value, coefficient) <= (lo * coefficient) / 0x8000,
{
    assert(hi * coefficient <= value * coefficient <= lo * coefficient) by (nonlinear_arith)
        requires
            lo <= value <= hi,
            coefficient < 0,
    ;
    lemma_q15_exact(value, coefficient);
    vstd::arithmetic::div_mod::lemma_div_is_ordered(hi * coefficient, value * coefficient, 0x8000);
    vstd::arithmetic::div_mod::lemma_div_is_ordered(value * coefficient, lo * coefficient, 0x8000);
}

/// Multiplies a sample by a Q15 coefficient.
pub fn multiply_q15(value: i32, coefficient: i32) -> (product: i32)
    ensures
        product as int == q15(value as int, coefficient as int),
{
    let wrapped = value.wrapping_mul(coefficient);
    proof {
        lemma_shift_is_floor_division(wrapped);
    }
    wrapped >> 15u32
}


/// One step of the xorshift32 generator.
pub open spec fn xorshift(x: u32) -> u32 {
    let a = x ^ (x << 13u32);
    let b = a ^ (a >> 17u32);
    b ^ (b << 5u32)
}

/// The Q12 white-noise sample a generator state stands for: the state as a
/// signed word, keeping its upper 13 bits.
pub open spec fn white_sample(state: u32) -> int {
    ((state as i32) >> 19u32) as int
}

/// Xorshift never reaches the all-zero state, which it could not leave.
pub proof fn lemma_xorshift_nonzero(x: u32)
    requires
        x != 0,
    ensures
        xorshift(x) != 0,
{
    assert(x != 0 ==> (x ^ (x << 13u32)) != 0) by (bit_vector);
    let a = x ^ (x << 13u32);
    assert(a != 0 ==> (a ^ (a >> 17u32)) != 0) by (bit_vector);
    let b = a ^ (a >> 17u32);
    assert(b != 0 ==> (b ^ (b << 5u32)) != 0) by (bit_vector);
}

/// A white sample is a Q12 value in `[-1.0, 1.0)`.
pub proof fn lemma_white_sample_range(state: u32)
    ensures
        -SIGNAL_ONE <= white_sample(state) < SIGNAL_ONE,
{
    assert(-4096 <= ((state as i32) >> 19u32) && ((state as i32) >> 19u32) < 4096) by (bit_vector);
}

/// Deterministic xorshift32 source, suitable for audio noise (not cryptography).
#[derive(Clone, Copy, Debug)]
struct WhiteNoise {
    state: u32,
}

impl WhiteNoise {
    fn new(seed: u32) -> (noise: Self)
        ensures
            noise.state == (if seed == 0 { 1 } else { seed }),
    {
        // Xorshift's all-zero state is absorbing.
        Self { state: if seed == 0 { 1 } else { seed } }
    }

    fn next(&mut self) -> (sample: i32)
        ensures
            final(self).state == xorshift(old(self).state),
            sample as int == white_sample(final(self).state),
            -SIGNAL_ONE <= sample < SIGNAL_ONE,
    {
        let mut x = self.state;
        x ^= x << 13u32;
        x ^= x >> 17u32;
        x ^= x << 5u32;
        self.state = x;
        proof {
            lemma_white_sample_range(x);
        }

        // Treat the PRNG word as signed, then retain its upper 13 bits. This
        // gives a uniform Q12 value in [-1.0, 1.0).
        (x as i32) >> 19u32
    }
}


/// Integer division by two rounding towards zero, as `/` does on `i32`.
pub open spec fn half_towards_zero(x: int) -> int {
    if x >= 0 {
        x / 2
    } else {
        -((-x) / 2)
    }
}

/// The state of the colored-noise generator.
pub struct NoiseState {
    /// State of the white-noise generator.
    pub white: u32,
    /// The seven pink-noise filter stages.
    pub pink: Seq<int>,
    /// The leaky random walk behind brown noise.
    pub brown: int,
}

/// Bound of each pink stage: the first stage is bounded by the range of a
/// Q15 product, the others by their decay.
pub open spec fn pink_bound(i: int) -> int {
    if i == 0 {
        65_764
    } else if i == 1 {
        47_000
    } else if i == 2 {
        21_000
    } else if i == 3 {
        9_600
    } else if i == 4 {
        4_900
    } else if i == 5 {
        300
    } else {
        475
    }
}

/// Bound of the brown random walk.
pub open spec fn brown_bound() -> int {
    4_200
}

/// Bound of a colored-noise sample.
pub open spec fn noise_bound() -> int {
    98_304
}

/// The states the generator reaches from its seed.
pub open spec fn noise_wf(s: NoiseState) -> bool {
    &&& s.white != 0
    &&& s.pink.len() == 7
    &&& forall|i: int| 0 <= i < 7 ==> -pink_bound(i) <= #[trigger] s.pink[i] <= pink_bound(i)
    &&& -brown_bound() <= s.brown <= brown_bound()
}

/// The pink and brown samples of one step, before color interpolation,
/// and the state they leave.
pub open spec fn noise_filters(s: NoiseState) -> (NoiseState, int, int, int) {
    let white_state = xorshift(s.white);
    let white = white_sample(white_state);
    // Paul Kellet's economical pink-noise approximation. The scale brings
    // its RMS level close enough to white for smooth color interpolation.
    let p0 = q15(s.pink[0], 32_730) + q15(white, 1_819);
    let p1 = q15(s.pink[1], 32_549) + q15(white, 2_460);
    let p2 = q15(s.pink[2], 31_752) + q15(white, 5_041);
    let p3 = q15(s.pink[3], 28_393) + q15(white, 10_174);
    let p4 = q15(s.pink[4], 18_022) + q15(white, 17_464);
    let p5 = q15(s.pink[5], -24_956) + q15(white, -554);
    let pink = q15(p0 + p1 + p2 + p3 + p4 + p5 + s.pink[6] + q15(white, 17_570), 3_604);
    let p6 = q15(white, 3_799);
    // A leaky random walk avoids unbounded DC drift.
    let walk = q15(s.brown, 32_125) + q15(white, 643);
    let brown = half_towards_zero(walk * 7);
    (
        NoiseState { white: white_state, pink: seq![p0, p1, p2, p3, p4, p5, p6], brown: walk },
        white,
        pink,
        brown,
    )
}

/// One step of the colored-noise generator at color `color_q15`: `0` is
/// white, `2^15` pink and `2^16` brown, with linear interpolation between.
pub open spec fn noise_step(s: NoiseState, color_q15: int) -> (NoiseState, int) {
    let (t, white, pink, brown) = noise_filters(s);
    if color_q15 <= 32_768 {
        (t, white + q15(pink - white, color_q15))
    } else {
        (t, pink + q15(brown - pink, color_q15 - 32_768))
    }
}

/// Produces white, pink and brown streams in parallel and interpolates them.
#[derive(Clone, Copy, Debug)]
pub struct ColoredNoise {
    white: WhiteNoise,
    pink: [i32; 7],
    brown: i32,
}

impl View for ColoredNoise {
    type V = NoiseState;

    closed spec fn view(&self) -> NoiseState {
        NoiseState {
            white: self.white.state,
            pink: self.pink@.map_values(|x: i32| x as int),
            brown: self.brown as int,
        }
    }
}

/// Bounds of one decaying filter stage `q15(p, decay) + q15(white, gain)`.
proof fn lemma_stage(p: int, decay: int, white: int, gain: int, bound: int)
    requires
        -bound <= p <= bound,
        0 <= bound,
        0 < decay <= 32_768,
        0 <= gain <= 32_768,
        -4096 <= white <= 4095,
        bound * decay <= i32::MAX,
        (bound * decay) / 0x8000 + (4095 * gain) / 0x8000 <= bound,
        (-bound * decay) / 0x8000 + (-4096 * gain) / 0x8000 >= -bound,
    ensures
        -bound <= q15(p, decay) + q15(white, gain) <= bound,
{
    assert((-bound) * decay == -(bound * decay)) by (nonlinear_arith);
    lemma_q15_between(p, decay, -bound, bound);
    lemma_q15_between(white, gain, -4096, 4095);
}

/// Bounds of the terms of one generator step from a well-formed state.
proof fn lemma_noise_terms(s: NoiseState)
    requires
        noise_wf(s),
    ensures
        ({
            let white = white_sample(xorshift(s.white));
            let (t, w, pink, brown) = noise_filters(s);
            &&& w == white
            &&& -4096 <= white < 4096
            &&& -0x1_0000 <= q15(s.pink[0], 32_730) < 0x1_0000
            &&& -228 <= q15(white, 1_819) <= 227
            &&& -47_000 <= q15(s.pink[1], 32_549) + q15(white, 2_460) <= 47_000
            &&& -21_000 <= q15(s.pink[2], 31_752) + q15(white, 5_041) <= 21_000
            &&& -9_600 <= q15(s.pink[3], 28_393) + q15(white, 10_174) <= 9_600
            &&& -4_900 <= q15(s.pink[4], 18_022) + q15(white, 17_464) <= 4_900
            &&& -300 <= q15(s.pink[5], -24_956) + q15(white, -554) <= 300
            &&& -475 <= q15(white, 3_799) <= 475
            &&& -2_200 <= q15(white, 17_570) <= 2_200
            &&& -4_200 <= q15(s.brown, 32_125) + q15(white, 643) <= 4_200
            &&& -0x1_0000 <= q15(s.brown, 32_125) < 0x1_0000
            &&& -0x1_0000 <= q15(s.pink[1], 32_549) < 0x1_0000
            &&& -0x1_0000 <= q15(s.pink[2], 31_752) < 0x1_0000
            &&& -0x1_0000 <= q15(s.pink[3], 28_393) < 0x1_0000
            &&& -0x1_0000 <= q15(s.pink[4], 18_022) < 0x1_0000
            &&& -0x1_0000 <= q15(s.pink[5], -24_956) < 0x1_0000
            &&& -0x1_0000 <= q15(white, 2_460) < 0x1_0000
            &&& -0x1_0000 <= q15(white, 5_041) < 0x1_0000
            &&& -0x1_0000 <= q15(white, 10_174) < 0x1_0000
            &&& -0x1_0000 <= q15(white, 17_464) < 0x1_0000
            &&& -0x1_0000 <= q15(white, -554) < 0x1_0000
            &&& -0x1_0000 <= q15(white, 643) < 0x1_0000
            &&& noise_wf(t)
            &&& -17_000 <= pink <= 17_000
            &&& -15_000 <= brown <= 15_000
        }),
{
    let white = white_sample(xorshift(s.white));
    lemma_xorshift_nonzero(s.white);
    lemma_white_sample_range(xorshift(s.white));
    assert(-pink_bound(0) <= s.pink[0] <= pink_bound(0));
    assert(-pink_bound(1) <= s.pink[1] <= pink_bound(1));
    assert(-pink_bound(2) <= s.pink[2] <= pink_bound(2));
    assert(-pink_bound(3) <= s.pink[3] <= pink_bound(3));
    assert(-pink_bound(4) <= s.pink[4] <= pink_bound(4));
    assert(-pink_bound(5) <= s.pink[5] <= pink_bound(5));
    assert(-pink_bound(6) <= s.pink[6] <= pink_bound(6));
    lemma_q15_bounded(s.pink[0], 32_730);
    lemma_q15_bounded(s.pink[1], 32_549);
    lemma_q15_bounded(s.pink[2], 31_752);
    lemma_q15_bounded(s.pink[3], 28_393);
    lemma_q15_bounded(s.pink[4], 18_022);
    lemma_q15_bounded(s.pink[5], -24_956);
    lemma_q15_bounded(s.brown, 32_125);
    lemma_q15_bounded(white, 2_460);
    lemma_q15_bounded(white, 5_041);
    lemma_q15_bounded(white, 10_174);
    lemma_q15_bounded(white, 17_464);
    lemma_q15_bounded(white, -554);
    lemma_q15_bounded(white, 643);
    lemma_q15_between(white, 1_819, -4096, 4095);
    lemma_stage(s.pink[1], 32_549, white, 2_460, 47_000);
    lemma_stage(s.pink[2], 31_752, white, 5_041, 21_000);
    lemma_stage(s.pink[3], 28_393, white, 10_174, 9_600);
    lemma_stage(s.pink[4], 18_022, white, 17_464, 4_900);
    lemma_q15_between_negative(s.pink[5], -24_956, -300, 300);
    lemma_q15_between_negative(white, -554, -4096, 4095);
    lemma_q15_between(white, 17_570, -4096, 4095);
    lemma_q15_between(white, 3_799, -4096, 4095);
    lemma_stage(s.brown, 32_125, white, 643, 4_200);
    let (t, w, pink, brown) = noise_filters(s);
    let p0 = q15(s.pink[0], 32_730) + q15(white, 1_819);
    let p1 = q15(s.pink[1], 32_549) + q15(white, 2_460);
    let p2 = q15(s.pink[2], 31_752) + q15(white, 5_041);
    let p3 = q15(s.pink[3], 28_393) + q15(white, 10_174);
    let p4 = q15(s.pink[4], 18_022) + q15(white, 17_464);
    let p5 = q15(s.pink[5], -24_956) + q15(white, -554);
    let sum = p0 + p1 + p2 + p3 + p4 + p5 + s.pink[6] + q15(white, 17_570);
    assert(-160_000 <= sum <= 160_000);
    lemma_q15_between(sum, 3_604, -160_000, 160_000);
    assert(t.pink =~= seq![p0, p1, p2, p3, p4, p5, q15(white, 3_799)]);
    assert forall|i: int| 0 <= i < 7 implies -pink_bound(i) <= #[trigger] t.pink[i] <= pink_bound(i) by {
        if i == 0 {
            assert(t.pink[i] == p0);
        } else if i == 1 {
            assert(t.pink[i] == p1);
        } else if i == 2 {
            assert(t.pink[i] == p2);
        } else if i == 3 {
            assert(t.pink[i] == p3);
        } else if i == 4 {
            assert(t.pink[i] == p4);
        } else if i == 5 {
            assert(t.pink[i] == p5);
        } else {
            assert(t.pink[i] == q15(white, 3_799));
        }
    }
}

impl ColoredNoise {
    #[verifier::type_invariant]
    spec fn inv(&self) -> bool {
        noise_wf(self@)
    }

    /// A generator seeded with `seed`; a zero seed stands for one, since
    /// xorshift's all-zero state is absorbing.
    pub fn new(seed: u32) -> (noise: Self)
        ensures
            noise_wf(noise@),
            noise@.white == (if seed == 0 { 1 } else { seed }),
            noise@.pink == Seq::new(7, |i: int| 0int),
            noise@.brown == 0,
    {
        let noise = Self { white: WhiteNoise::new(seed), pink: [0; 7], brown: 0 };
        assert(noise@.pink =~= Seq::new(7, |i: int| 0int));
        noise
    }

    /// The next sample at color `color_q15`.
    #[verifier::rlimit(50)]
    pub fn next(&mut self, color_q15: i32) -> (sample: i32)
        ensures
            noise_wf(final(self)@),
            (final(self)@, sample as int) == noise_step(old(self)@, color_q15 as int),
            -noise_bound() <= sample <= noise_bound(),
    {
        proof {
            use_type_invariant(&*self);
        }
        let ghost s = self@;
        proof {
            lemma_xorshift_nonzero(self.white.state);
            assert(s.pink[0] == self.pink[0] as int);
            assert(s.pink[1] == self.pink[1] as int);
            assert(s.pink[2] == self.pink[2] as int);
            assert(s.pink[3] == self.pink[3] as int);
            assert(s.pink[4] == self.pink[4] as int);
            assert(s.pink[5] == self.pink[5] as int);
            assert(s.pink[6] == self.pink[6] as int);
        }
        proof {
            lemma_noise_terms(s);
        }
        let mut generator = self.white;
        let white = generator.next();
        let p0 = multiply_q15(self.pink[0], 32_730) + multiply_q15(white, 1_819);
        let p1 = multiply_q15(self.pink[1], 32_549) + multiply_q15(white, 2_460);
        let p2 = multiply_q15(self.pink[2], 31_752) + multiply_q15(white, 5_041);
        let p3 = multiply_q15(self.pink[3], 28_393) + multiply_q15(white, 10_174);
        let p4 = multiply_q15(self.pink[4], 18_022) + multiply_q15(white, 17_464);
        let p5 = multiply_q15(self.pink[5], -24_956) + multiply_q15(white, -554);
        let sum = p0 + p1 + p2 + p3 + p4 + p5 + self.pink[6] + multiply_q15(white, 17_570);
        let pink = multiply_q15(sum, 3_604);
        let p6 = multiply_q15(white, 3_799);
        self.pink = [p0, p1, p2, p3, p4, p5, p6];

        let walk = multiply_q15(self.brown, 32_125) + multiply_q15(white, 643);
        self.brown = walk;
        self.white = generator;
        let brown = walk * 7 / 2;

        proof {
            assert(self@.pink =~= seq![p0 as int, p1 as int, p2 as int, p3 as int, p4 as int, p5 as int, p6 as int]);
        }
        if color_q15 <= 32_768 {
            let mixed = multiply_q15(pink - white, color_q15);
            proof {
                lemma_q15_bounded((pink - white) as int, color_q15 as int);
            }
            white + mixed
        } else {
            let mixed = multiply_q15(brown - pink, color_q15 - 32_768);
            proof {
                lemma_q15_bounded((brown - pink) as int, color_q15 - 32_768);
            }
            pink + mixed
        }
    }
}


/// Bound the sample path keeps on the high-pass filter's state.
pub open spec fn filter_input_bound() -> int {
    0x10_0000
}

/// Coefficient and bypass switch of a first-order filter.
#[derive(Clone, Copy, Debug, PartialEq, Eq)]
pub struct FilterSettings {
    /// Q15 filter coefficient.
    pub alpha: i32,
    /// Whether the filter passes its input through unchanged.
    pub bypassed: bool,
}

/// The state of the high-pass filter.
#[derive(Clone, Copy, Debug, PartialEq, Eq)]
pub struct HighPassState {
    pub alpha: i32,
    pub previous_input: i32,
    pub previous_output: i32,
    pub bypassed: bool,
}

/// Whether the filter's sums `y[n-1] + x[n]` and `y[n-1] + x[n] - x[n-1]`
/// fit in `i32` for input `input`; a bypassed filter takes any input.
pub open spec fn high_pass_accepts(h: HighPassState, input: int) -> bool {
    !h.bypassed ==> {
        &&& i32::MIN <= h.previous_output + input <= i32::MAX
        &&& i32::MIN <= h.previous_output + input - h.previous_input <= i32::MAX
    }
}

pub open spec fn high_pass_wf(h: HighPassState) -> bool {
    &&& -filter_input_bound() <= h.previous_input <= filter_input_bound()
    &&& -filter_input_bound() <= h.previous_output <= filter_input_bound()
}

/// One sample through the high-pass filter
/// `y[n] = alpha * (y[n-1] + x[n] - x[n-1])`.
pub open spec fn high_pass_step(h: HighPassState, input: int) -> (HighPassState, int) {
    let output = if h.bypassed {
        input
    } else {
        q15(h.previous_output + input - h.previous_input, h.alpha as int)
    };
    (HighPassState { previous_input: input as i32, previous_output: output as i32, ..h }, output)
}

/// First-order high-pass filter.
#[derive(Clone, Copy, Debug)]
pub struct HighPass {
    alpha: i32,
    previous_input: i32,
    previous_output: i32,
    bypassed: bool,
}

impl View for HighPass {
    type V = HighPassState;

    closed spec fn view(&self) -> HighPassState {
        HighPassState {
            alpha: self.alpha,
            previous_input: self.previous_input,
            previous_output: self.previous_output,
            bypassed: self.bypassed,
        }
    }
}

impl HighPass {
    /// A bypassed filter at rest.
    pub fn new() -> (filter: Self)
        ensures
            filter@ == (HighPassState { alpha: 0, previous_input: 0, previous_output: 0, bypassed: true }),
    {
        Self { alpha: 0, previous_input: 0, previous_output: 0, bypassed: true }
    }

    /// Sets the coefficient and the bypass switch; the filter state stays.
    pub fn configure(&mut self, settings: FilterSettings)
        ensures
            final(self)@ == (HighPassState {
                alpha: settings.alpha,
                bypassed: settings.bypassed,
                ..old(self)@
            }),
    {
        self.bypassed = settings.bypassed;
        self.alpha = settings.alpha;
    }

    /// Filters one sample.
    pub fn process(&mut self, input: i32) -> (output: i32)
        requires
            high_pass_accepts(old(self)@, input as int),
        ensures
            (final(self)@, output as int) == high_pass_step(old(self)@, input as int),
    {
        let output = if self.bypassed {
            input
        } else {
            proof {
                lemma_q15_bounded(
                    self.previous_output + input - self.previous_input,
                    self.alpha as int,
                );
            }
            multiply_q15(self.previous_output + input - self.previous_input, self.alpha)
        };
        self.previous_input = input;
        self.previous_output = output;
        output
    }
}

/// The state of the low-pass filter.
#[derive(Clone, Copy, Debug, PartialEq, Eq)]
pub struct LowPassState {
    pub alpha: i32,
    pub output: i32,
    pub bypassed: bool,
}

/// One sample through the low-pass filter
/// `y[n] = y[n-1] + alpha * (x[n] - y[n-1])`, in wrapping `i32` arithmetic.
pub open spec fn low_pass_step(l: LowPassState, input: int) -> (LowPassState, int) {
    let output = if l.bypassed {
        input
    } else {
        wrap_i32(l.output + q15(wrap_i32(input - l.output), l.alpha as int))
    };
    (LowPassState { output: output as i32, ..l }, output)
}

proof fn lemma_wrapping_add(x: i32, y: i32)
    ensures
        x.wrapping_add(y) as int == wrap_i32(x + y),
{
}

proof fn lemma_wrapping_sub(x: i32, y: i32)
    ensures
        x.wrapping_sub(y) as int == wrap_i32(x - y),
{
}

/// First-order low-pass filter.
#[derive(Clone, Copy, Debug)]
pub struct LowPass {
    alpha: i32,
    output: i32,
    bypassed: bool,
}

impl View for LowPass {
    type V = LowPassState;

    closed spec fn view(&self) -> LowPassState {
        LowPassState { alpha: self.alpha, output: self.output, bypassed: self.bypassed }
    }
}

impl LowPass {
    /// A bypassed filter at rest.
    pub fn new() -> (filter: Self)
        ensures
            filter@ == (LowPassState { alpha: 32_768, output: 0, bypassed: true }),
    {
        Self { alpha: 32_768, output: 0, bypassed: true }
    }

    /// Sets the coefficient and the bypass switch; the filter state stays.
    pub fn configure(&mut self, settings: FilterSettings)
        ensures
            final(self)@ == (LowPassState {
                alpha: settings.alpha,
                bypassed: settings.bypassed,
                ..old(self)@
            }),
    {
        self.bypassed = settings.bypassed;
        self.alpha = settings.alpha;
    }

    /// Filters one sample.
    pub fn process(&mut self, input: i32) -> (output: i32)
        ensures
            (final(self)@, output as int) == low_pass_step(old(self)@, input as int),
    {
        self.output = if self.bypassed {
            input
        } else {
            let difference = input.wrapping_sub(self.output);
            let step = multiply_q15(difference, self.alpha);
            proof {
                lemma_wrapping_sub(input, self.output);
                lemma_wrapping_add(self.output, step);
            }
            self.output.wrapping_add(step)
        };
        self.output
    }
}

/// Clamps a Q12 sample to full scale and converts it to 16-bit PCM.
pub open spec fn pcm_sample(sample: int) -> int {
    if sample < -SIGNAL_ONE {
        -SIGNAL_ONE * 8
    } else if sample > SIGNAL_ONE - 1 {
        (SIGNAL_ONE - 1) * 8
    } else {
        sample * 8
    }
}

fn fixed_to_i16(sample: i32) -> (pcm: i16)
    ensures
        pcm as int == pcm_sample(sample as int),
{
    let sample = if sample < -SIGNAL_ONE {
        -SIGNAL_ONE
    } else if sample > SIGNAL_ONE - 1 {
        SIGNAL_ONE - 1
    } else {
        sample
    };
    let shifted = sample << 3u32;
    assert(-4096 <= sample <= 4095 ==> (sample << 3u32) == sample * 8) by (bit_vector);
    shifted as i16
}


/// What the sample path reads of the user's controls, in fixed point.
#[derive(Clone, Copy, Debug, PartialEq, Eq)]
pub struct ChainSettings {
    /// Spectral color in Q15: `0` white, `2^15` pink, `2^16` brown.
    pub color_q15: i32,
    /// Output gain in Q15, from silence (`0`) to full scale (`2^15`).
    pub gain_q15: i32,
    pub high_pass: FilterSettings,
    pub low_pass: FilterSettings,
}

impl ChainSettings {
    /// Whether the gain is in the range the chain can smooth towards.
    pub open spec fn valid(self) -> bool {
        0 <= self.gain_q15 <= Q15_ONE
    }

    /// Tells whether `valid` holds.
    pub fn is_valid(&self) -> (valid: bool)
        ensures
            valid == self.valid(),
    {
        0 <= self.gain_q15 && self.gain_q15 <= Q15_ONE
    }
}

/// The state of the whole sample path.
pub struct ChainState {
    pub noise: NoiseState,
    pub high_pass: HighPassState,
    pub low_pass: LowPassState,
    pub color_q15: i32,
    pub gain: i32,
    pub gain_target: i32,
    pub gain_smoothing: i32,
}

pub open spec fn chain_wf(c: ChainState) -> bool {
    &&& noise_wf(c.noise)
    &&& high_pass_wf(c.high_pass)
    &&& 0 <= c.gain <= Q15_ONE
    &&& 0 <= c.gain_target <= Q15_ONE
    &&& 0 <= c.gain_smoothing <= Q15_ONE
}

/// The gain after one smoothing step towards `target`.
pub open spec fn gain_step(gain: int, target: int, smoothing: int) -> int {
    gain + q15(target - gain, smoothing)
}

/// One output sample: noise, high-pass, low-pass, smoothed gain and
/// saturating conversion to PCM.
pub open spec fn chain_step(c: ChainState) -> (ChainState, int) {
    let (noise, colored) = noise_step(c.noise, c.color_q15 as int);
    let (high_pass, high) = high_pass_step(c.high_pass, colored);
    let (low_pass, low) = low_pass_step(c.low_pass, high);
    let gain = gain_step(c.gain as int, c.gain_target as int, c.gain_smoothing as int);
    (
        ChainState { noise, high_pass, low_pass, gain: gain as i32, ..c },
        pcm_sample(q15(low, gain)),
    )
}

/// `n` samples rendered from state `c`, and the state they leave.
pub open spec fn render(c: ChainState, n: nat) -> (ChainState, Seq<i16>)
    decreases n,
{
    if n == 0 {
        (c, Seq::empty())
    } else {
        let (before, samples) = render(c, (n - 1) as nat);
        let (after, sample) = chain_step(before);
        (after, samples.push(sample as i16))
    }
}

/// The state of a chain made with `seed`, gain smoothing `smoothing` and
/// `settings`.
pub open spec fn initial_chain(seed: u32, smoothing: i32, settings: ChainSettings) -> ChainState {
    ChainState {
        noise: NoiseState {
            white: if seed == 0 { 1 } else { seed },
            pink: Seq::new(7, |i: int| 0int),
            brown: 0,
        },
        high_pass: HighPassState {
            alpha: settings.high_pass.alpha,
            previous_input: 0,
            previous_output: 0,
            bypassed: settings.high_pass.bypassed,
        },
        low_pass: LowPassState {
            alpha: settings.low_pass.alpha,
            output: 0,
            bypassed: settings.low_pass.bypassed,
        },
        color_q15: settings.color_q15,
        gain: settings.gain_q15,
        gain_target: settings.gain_q15,
        gain_smoothing: smoothing,
    }
}

/// `c` with new settings: the gain keeps its value and smooths towards the
/// new target; filter states are kept.
pub open spec fn with_settings(c: ChainState, settings: ChainSettings) -> ChainState {
    ChainState {
        high_pass: HighPassState {
            alpha: settings.high_pass.alpha,
            bypassed: settings.high_pass.bypassed,
            ..c.high_pass
        },
        low_pass: LowPassState {
            alpha: settings.low_pass.alpha,
            bypassed: settings.low_pass.bypassed,
            ..c.low_pass
        },
        color_q15: settings.color_q15,
        gain_target: settings.gain_q15,
        ..c
    }
}

/// Noise source → HPF → LPF → smoothed gain → saturating PCM output.
#[derive(Clone, Copy, Debug)]
pub struct DspChain {
    noise: ColoredNoise,
    high_pass: HighPass,
    low_pass: LowPass,
    color_q15: i32,
    gain: i32,
    gain_target: i32,
    gain_smoothing: i32,
}

impl View for DspChain {
    type V = ChainState;

    closed spec fn view(&self) -> ChainState {
        ChainState {
            noise: self.noise@,
            high_pass: self.high_pass@,
            low_pass: self.low_pass@,
            color_q15: self.color_q15,
            gain: self.gain,
            gain_target: self.gain_target,
            gain_smoothing: self.gain_smoothing,
        }
    }
}

impl DspChain {
    #[verifier::type_invariant]
    spec fn inv(&self) -> bool {
        chain_wf(self@)
    }

    /// A chain seeded with `seed` whose gain moves `gain_smoothing` (Q15)
    /// of the way to its target each sample. It starts at the requested
    /// gain, which avoids a fade from silence at boot.
    pub fn new(seed: u32, gain_smoothing: i32, settings: ChainSettings) -> (chain: Self)
        requires
            0 <= gain_smoothing <= Q15_ONE,
            settings.valid(),
        ensures
            chain@ == initial_chain(seed, gain_smoothing, settings),
    {
        let mut high_pass = HighPass::new();
        high_pass.configure(settings.high_pass);
        let mut low_pass = LowPass::new();
        low_pass.configure(settings.low_pass);
        let chain = Self {
            noise: ColoredNoise::new(seed),
            high_pass,
            low_pass,
            color_q15: settings.color_q15,
            gain: settings.gain_q15,
            gain_target: settings.gain_q15,
            gain_smoothing,
        };
        proof {
            assert(chain@.noise.pink =~= Seq::new(7, |i: int| 0int));
        }
        chain
    }

    /// Applies new settings from the next sample on.
    pub fn set_settings(&mut self, settings: ChainSettings)
        requires
            settings.valid(),
        ensures
            final(self)@ == with_settings(old(self)@, settings),
            final(self)@.color_q15 == settings.color_q15,
            final(self)@.gain_target == settings.gain_q15,
            final(self)@.high_pass.alpha == settings.high_pass.alpha,
            final(self)@.high_pass.bypassed == settings.high_pass.bypassed,
            final(self)@.low_pass.alpha == settings.low_pass.alpha,
            final(self)@.low_pass.bypassed == settings.low_pass.bypassed,
            final(self)@.noise == old(self)@.noise,
            final(self)@.gain == old(self)@.gain,
            final(self)@.gain_smoothing == old(self)@.gain_smoothing,
            final(self)@.high_pass.previous_input == old(self)@.high_pass.previous_input,
            final(self)@.high_pass.previous_output == old(self)@.high_pass.previous_output,
            final(self)@.low_pass.output == old(self)@.low_pass.output,
    {
        proof {
            use_type_invariant(&*self);
        }
        let mut high_pass = self.high_pass;
        high_pass.configure(settings.high_pass);
        let mut low_pass = self.low_pass;
        low_pass.configure(settings.low_pass);
        self.high_pass = high_pass;
        self.low_pass = low_pass;
        self.color_q15 = settings.color_q15;
        self.gain_target = settings.gain_q15;
    }

    /// The current output gain, in Q15.
    pub fn gain(&self) -> (gain: i32)
        ensures
            gain == self@.gain,
    {
        self.gain
    }

    /// Render one mono sample. Send the same value to both I2S slots.
    pub fn next_i16(&mut self) -> (sample: i16)
        ensures
            (final(self)@, sample as int) == chain_step(old(self)@),
            final(self)@.noise == noise_step(old(self)@.noise, old(self)@.color_q15 as int).0,
            final(self)@.color_q15 == old(self)@.color_q15,
            final(self)@.gain_target == old(self)@.gain_target,
    {
        proof {
            use_type_invariant(&*self);
        }
        let mut noise = self.noise;
        let sample = noise.next(self.color_q15);
        let mut high_pass = self.high_pass;
        let sample = high_pass.process(sample);
        let mut low_pass = self.low_pass;
        let sample = low_pass.process(sample);

        proof {
            lemma_q15_between(
                (self.gain_target - self.gain) as int,
                self.gain_smoothing as int,
                -32768,
                32768,
            );
        }
        let step = multiply_q15(self.gain_target - self.gain, self.gain_smoothing);
        proof {
            lemma_gain_step_between(self.gain as int, self.gain_target as int, self.gain_smoothing as int);
        }
        let gain = self.gain + step;
        let pcm = fixed_to_i16(multiply_q15(sample, gain));
        self.noise = noise;
        self.high_pass = high_pass;
        self.low_pass = low_pass;
        self.gain = gain;
        pcm
    }

    /// Renders `output.len()` samples, as that many calls of `next_i16`.
    pub fn fill_i16(&mut self, output: &mut [i16])
        ensures
            final(output)@.len() == old(output)@.len(),
            (final(self)@, final(output)@) == render(old(self)@, old(output)@.len()),
    {
        let ghost start = self@;
        let n = output.len();
        let mut i: usize = 0;
        while i < n
            invariant
                0 <= i <= n,
                n == output@.len(),
                self@ == render(start, i as nat).0,
                output@.take(i as int) == render(start, i as nat).1,
            decreases n - i,
        {
            let sample = self.next_i16();
            output[i] = sample;
            proof {
                assert(output@.take(i + 1) =~= output@.take(i as int).push(sample));
            }
            i = i + 1;
        }
        proof {
            assert(output@.take(n as int) =~= output@);
        }
    }
}

/// Between `gain` and `target` the smoothed gain stays.
proof fn lemma_gain_step_between(gain: int, target: int, smoothing: int)
    requires
        0 <= gain <= 32768,
        0 <= target <= 32768,
        0 <= smoothing <= 32768,
    ensures
        gain <= target ==> gain <= gain_step(gain, target, smoothing) <= target,
        target <= gain ==> target <= gain_step(gain, target, smoothing) <= gain,
{
    let d = target - gain;
    lemma_q15_between(d, smoothing, -32768, 32768);
    if d >= 0 {
        assert(0 <= d * smoothing <= d * 32768) by (nonlinear_arith)
            requires
                d >= 0,
                0 <= smoothing <= 32768,
        ;
        vstd::arithmetic::div_mod::lemma_div_is_ordered(0, d * smoothing, 0x8000);
        vstd::arithmetic::div_mod::lemma_div_is_ordered(d * smoothing, d * 32768, 0x8000);
    } else {
        assert(d * 32768 <= d * smoothing <= 0) by (nonlinear_arith)
            requires
                d < 0,
                0 <= smoothing <= 32768,
        ;
        vstd::arithmetic::div_mod::lemma_div_is_ordered(d * 32768, d * smoothing, 0x8000);
        vstd::arithmetic::div_mod::lemma_div_is_ordered(d * smoothing, 0, 0x8000);
    }
}


/// A mono sample repeated in both 16-bit halves of an I2S frame.
pub open spec fn stereo_frame(sample: i16) -> u32 {
    let half = sample as u16 as u32;
    half | (half << 16u32)
}

/// The frame for one sample.
pub fn frame_for(sample: i16) -> (frame: u32)
    ensures
        frame == stereo_frame(sample),
{
    let half = sample as u16 as u32;
    half | (half << 16u32)
}

/// Renders one I2S frame per entry of `frames`, each holding the next
/// sample of `dsp` in both slots.
pub fn fill_frames(dsp: &mut DspChain, frames: &mut [u32])
    ensures
        final(frames)@.len() == old(frames)@.len(),
        final(dsp)@ == render(old(dsp)@, old(frames)@.len()).0,
        forall|i: int|
            0 <= i < final(frames)@.len() ==> #[trigger] final(frames)@[i] == stereo_frame(
                render(old(dsp)@, old(frames)@.len()).1[i],
            ),
{
    let ghost start = dsp@;
    let n = frames.len();
    let mut i: usize = 0;
    while i < n
        invariant
            0 <= i <= n,
            n == frames@.len(),
            dsp@ == render(start, i as nat).0,
            render(start, i as nat).1.len() == i,
            forall|j: int| 0 <= j < i ==> #[trigger] frames@[j] == stereo_frame(render(start, i as nat).1[j]),
        decreases n - i,
    {
        let ghost before = render(start, i as nat);
        let sample = dsp.next_i16();
        frames[i] = frame_for(sample);
        proof {
            assert(render(start, (i + 1) as nat).1 == before.1.push(sample));
        }
        i = i + 1;
    }
    proof {
        lemma_render_prefix(start, n as nat, n as nat);
    }
}

/// Rendering `n` samples renders the first `k` of them first.
pub proof fn lemma_render_prefix(c: ChainState, n: nat, k: nat)
    requires
        k <= n,
    ensures
        render(c, n).1.len() == n,
        render(c, n).1.take(k as int) == render(c, k).1,
    decreases n,
{
    if n > 0 {
        lemma_render_prefix(c, (n - 1) as nat, if k == n { (n - 1) as nat } else { k });
        if k < n {
            assert(render(c, n).1.take(k as int) =~= render(c, (n - 1) as nat).1.take(k as int));
        } else {
            assert(render(c, n).1.take(k as int) =~= render(c, n).1);
        }
    }
}

/// Rendering `n + m` samples is rendering `n`, then `m` more from where
/// the first `n` left the chain: filling two buffers in turn gives the
/// same stream as filling one long buffer.
pub proof fn lemma_render_split(c: ChainState, n: nat, m: nat)
    ensures
        render(c, n + m).0 == render(render(c, n).0, m).0,
        render(c, n + m).1 == render(c, n).1 + render(render(c, n).0, m).1,
    decreases m,
{
    if m == 0 {
        assert(render(c, n).1 + Seq::<i16>::empty() =~= render(c, n).1);
    } else {
        lemma_render_split(c, n, (m - 1) as nat);
        assert((n + m - 1) as nat == n + (m - 1) as nat);
        let mid = render(c, n).0;
        let (after, sample) = chain_step(render(mid, (m - 1) as nat).0);
        assert(render(c, n).1 + render(mid, (m - 1) as nat).1.push(sample as i16) =~= (render(c, n).1
            + render(mid, (m - 1) as nat).1).push(sample as i16));
    }
}

/// Both slots of a frame hold the sample.
pub proof fn lemma_stereo_frame_halves(sample: i16)
    ensures
        stereo_frame(sample) & 0xffff == sample as u16,
        stereo_frame(sample) >> 16u32 == sample as u16,
{
    let half = sample as u16 as u32;
    assert(half < 0x1_0000 ==> (half | (half << 16u32)) & 0xffff == half) by (bit_vector);
    assert(half < 0x1_0000 ==> (half | (half << 16u32)) >> 16u32 == half) by (bit_vector);
}

/// PCM output saturates at full scale instead of wrapping.
pub proof fn lemma_pcm_sample_saturates(sample: int)
    ensures
        -32768 <= pcm_sample(sample) <= 32760,
        -SIGNAL_ONE <= sample < SIGNAL_ONE ==> pcm_sample(sample) == sample * 8,
        sample <= -SIGNAL_ONE ==> pcm_sample(sample) == -32768,
        sample >= SIGNAL_ONE ==> pcm_sample(sample) == 32760,
{
}

/// The color control interpolates the streams: `0` gives white noise,
/// `2^15` pink and `2^16` brown, and colors between give samples between
/// the neighbouring streams.
pub proof fn lemma_color_interpolates(s: NoiseState, color_q15: int)
    requires
        noise_wf(s),
        0 <= color_q15 <= 0x1_0000,
    ensures
        ({
            let (t, white, pink, brown) = noise_filters(s);
            let sample = noise_step(s, color_q15).1;
            &&& color_q15 == 0 ==> sample == white
            &&& color_q15 == 0x8000 ==> sample == pink
            &&& color_q15 == 0x1_0000 ==> sample == brown
            &&& color_q15 <= 0x8000 ==> (white <= sample <= pink || pink <= sample <= white)
            &&& color_q15 >= 0x8000 ==> (pink <= sample <= brown || brown <= sample <= pink)
        }),
{
    lemma_noise_terms(s);
    let (t, white, pink, brown) = noise_filters(s);
    if color_q15 <= 0x8000 {
        lemma_mix_between(white, pink, color_q15);
    } else {
        lemma_mix_between(pink, brown, color_q15 - 0x8000);
    }
}

/// `from + q15(to - from, c)` moves from `from` towards `to` by `c / 2^15`
/// of the way.
proof fn lemma_mix_between(from: int, to: int, c: int)
    requires
        -20_000 <= from <= 20_000,
        -20_000 <= to <= 20_000,
        0 <= c <= 0x8000,
    ensures
        c == 0 ==> from + q15(to - from, c) == from,
        c == 0x8000 ==> from + q15(to - from, c) == to,
        from <= from + q15(to - from, c) <= to || to <= from + q15(to - from, c) <= from,
{
    let d = to - from;
    lemma_q15_between(d, c, -40_000, 40_000);
    if d >= 0 {
        assert(0 <= d * c <= d * 0x8000) by (nonlinear_arith)
            requires
                d >= 0,
                0 <= c <= 0x8000,
        ;
        vstd::arithmetic::div_mod::lemma_div_is_ordered(0, d * c, 0x8000);
        vstd::arithmetic::div_mod::lemma_div_is_ordered(d * c, d * 0x8000, 0x8000);
    } else {
        assert(d * 0x8000 <= d * c <= 0) by (nonlinear_arith)
            requires
                d < 0,
                0 <= c <= 0x8000,
        ;
        vstd::arithmetic::div_mod::lemma_div_is_ordered(d * 0x8000, d * c, 0x8000);
        vstd::arithmetic::div_mod::lemma_div_is_ordered(d * c, 0, 0x8000);
    }
    vstd::arithmetic::div_mod::lemma_div_multiples_vanish(d, 0x8000);
}

/// A bypassed filter passes its input through.
pub proof fn lemma_bypassed_filters_pass_through(h: HighPassState, l: LowPassState, input: int)
    requires
        h.bypassed,
        l.bypassed,
    ensures
        high_pass_step(h, input).1 == input,
        low_pass_step(l, input).1 == input,
{
}

/// Under a steady input the high-pass output decays towards zero without
/// crossing it: a positive output falls by at least one step per sample,
/// a negative one never grows in magnitude.
pub proof fn lemma_high_pass_rejects_dc(h: HighPassState, input: int)
    requires
        !h.bypassed,
        0 <= h.alpha < 0x8000,
        h.previous_input == input,
        -0x1_0000 <= h.previous_output <= 0x1_0000,
    ensures
        ({
            let y = h.previous_output as int;
            let out = high_pass_step(h, input).1;
            &&& y > 0 ==> 0 <= out < y
            &&& y <= 0 ==> y <= out <= 0
        }),
{
    let y = h.previous_output as int;
    let a = h.alpha as int;
    assert(y + input - h.previous_input == y);
    lemma_q15_between(y, a, -0x1_0000, 0x1_0000);
    if y > 0 {
        assert(0 <= y * a <= y * 0x8000 - y) by (nonlinear_arith)
            requires
                y > 0,
                0 <= a < 0x8000,
        ;
        vstd::arithmetic::div_mod::lemma_div_is_ordered(0, y * a, 0x8000);
        vstd::arithmetic::div_mod::lemma_div_is_ordered(y * a, y * 0x8000 - y, 0x8000);
        assert((y * 0x8000 - y) / 0x8000 < y);
    } else {
        assert(y * 0x8000 <= y * a <= 0) by (nonlinear_arith)
            requires
                y <= 0,
                0 <= a < 0x8000,
        ;
        vstd::arithmetic::div_mod::lemma_div_is_ordered(y * 0x8000, y * a, 0x8000);
        vstd::arithmetic::div_mod::lemma_div_is_ordered(y * a, 0, 0x8000);
        vstd::arithmetic::div_mod::lemma_div_multiples_vanish(y, 0x8000);
    }
}

/// While its input and output stay within full scale of 16 bits, the
/// low-pass output moves from its previous value towards the input
/// without overshooting it.
pub proof fn lemma_low_pass_never_overshoots(l: LowPassState, input: int)
    requires
        !l.bypassed,
        0 <= l.alpha <= 0x8000,
        -0x4000 <= input <= 0x4000,
        -0x4000 <= l.output <= 0x4000,
    ensures
        ({
            let out = low_pass_step(l, input).1;
            l.output <= out <= input || input <= out <= l.output
        }),
{
    let y = l.output as int;
    assert(wrap_i32(input - y) == input - y) by {
        lemma_q15_exact(input - y, 1);
    }
    lemma_mix_between_wide(y, input, l.alpha as int);
}

proof fn lemma_mix_between_wide(from: int, to: int, c: int)
    requires
        -0x4000 <= from <= 0x4000,
        -0x4000 <= to <= 0x4000,
        0 <= c <= 0x8000,
    ensures
        wrap_i32(from + q15(to - from, c)) == from + q15(to - from, c),
        from <= from + q15(to - from, c) <= to || to <= from + q15(to - from, c) <= from,
{
    let d = to - from;
    lemma_q15_between(d, c, -0x8000, 0x8000);
    if d >= 0 {
        assert(0 <= d * c <= d * 0x8000) by (nonlinear_arith)
            requires
                d >= 0,
                0 <= c <= 0x8000,
        ;
        vstd::arithmetic::div_mod::lemma_div_is_ordered(0, d * c, 0x8000);
        vstd::arithmetic::div_mod::lemma_div_is_ordered(d * c, d * 0x8000, 0x8000);
    } else {
        assert(d * 0x8000 <= d * c <= 0) by (nonlinear_arith)
            requires
                d < 0,
                0 <= c <= 0x8000,
        ;
        vstd::arithmetic::div_mod::lemma_div_is_ordered(d * 0x8000, d * c, 0x8000);
        vstd::arithmetic::div_mod::lemma_div_is_ordered(d * c, 0, 0x8000);
    }
    vstd::arithmetic::div_mod::lemma_div_multiples_vanish(d, 0x8000);
    lemma_q15_exact(from + q15(d, c), 1);
}

/// The smoothed gain moves towards its target without overshooting it.
/// Falling, it moves at least one step per sample when smoothing is on, so
/// a lowered volume is reached exactly.
pub proof fn lemma_gain_moves_to_target(gain: int, target: int, smoothing: int)
    requires
        0 <= gain <= 32768,
        0 <= target <= 32768,
        0 <= smoothing <= 32768,
    ensures
        gain <= target ==> gain <= gain_step(gain, target, smoothing) <= target,
        target <= gain ==> target <= gain_step(gain, target, smoothing) <= gain,
        target < gain && smoothing > 0 ==> gain_step(gain, target, smoothing) < gain,
        gain == target ==> gain_step(gain, target, smoothing) == gain,
{
    lemma_gain_step_between(gain, target, smoothing);
    if target < gain && smoothing > 0 {
        let d = target - gain;
        lemma_q15_between(d, smoothing, -32768, 32768);
        assert(d * smoothing <= -1) by (nonlinear_arith)
            requires
                d < 0,
                smoothing > 0,
        ;
        vstd::arithmetic::div_mod::lemma_div_is_ordered(d * smoothing, -1, 0x8000);
    }
}

/// A lowered gain target is reached after at most as many samples as the
/// gain had to fall: with target `0`, the output reaches silence.
pub proof fn lemma_lowered_gain_is_reached(c: ChainState, n: nat)
    requires
        chain_wf(c),
        c.gain_target <= c.gain,
        c.gain_smoothing > 0,
    ensures
        ({
            let after = render(c, n).0;
            &&& after.gain_target == c.gain_target
            &&& after.gain_smoothing == c.gain_smoothing
            &&& c.gain_target <= after.gain <= c.gain
            &&& after.gain <= c.gain_target || after.gain <= c.gain - n
        }),
    decreases n,
{
    if n > 0 {
        lemma_lowered_gain_is_reached(c, (n - 1) as nat);
        let before = render(c, (n - 1) as nat).0;
        lemma_gain_moves_to_target(
            before.gain as int,
            before.gain_target as int,
            before.gain_smoothing as int,
        );
    }
}

/// The color control mixes the streams linearly, rounding down: between
/// `0` and `2^15` the sample moves from the white towards the pink stream
/// by `color / 2^15` of their distance, and between `2^15` and `2^16` from
/// the pink towards the brown stream by `(color - 2^15) / 2^15` of theirs.
pub proof fn lemma_color_mixes_linearly(s: NoiseState, color_q15: int)
    requires
        noise_wf(s),
        0 <= color_q15 <= 0x1_0000,
    ensures
        ({
            let (t, white, pink, brown) = noise_filters(s);
            let sample = noise_step(s, color_q15).1;
            &&& color_q15 <= 0x8000 ==> sample == white + ((pink - white) * color_q15) / 0x8000
            &&& color_q15 >= 0x8000 ==> sample == pink + ((brown - pink) * (color_q15 - 0x8000))
                / 0x8000
        }),
{
    lemma_noise_terms(s);
    let (t, white, pink, brown) = noise_filters(s);
    if color_q15 <= 0x8000 {
        lemma_q15_between(pink - white, color_q15, -30_000, 30_000);
    }
    if color_q15 >= 0x8000 {
        lemma_q15_between(brown - pink, color_q15 - 0x8000, -40_000, 40_000);
    }
    if color_q15 == 0x8000 {
        vstd::arithmetic::div_mod::lemma_div_multiples_vanish(pink - white, 0x8000);
        assert(((brown - pink) * 0) / 0x8000 == 0);
    }
}

/// Raising the color within one half of its range moves the sample
/// monotonically from one stream to the next: never back towards the
/// stream it leaves.
pub proof fn lemma_color_is_monotonic(s: NoiseState, lower: int, higher: int)
    requires
        noise_wf(s),
        0 <= lower <= higher <= 0x1_0000,
        higher <= 0x8000 || 0x8000 <= lower,
    ensures
        ({
            let (t, white, pink, brown) = noise_filters(s);
            let (from, to) = if higher <= 0x8000 { (white, pink) } else { (pink, brown) };
            let a = noise_step(s, lower).1;
            let b = noise_step(s, higher).1;
            &&& from <= to ==> a <= b
            &&& to <= from ==> b <= a
        }),
{
    lemma_color_mixes_linearly(s, lower);
    lemma_color_mixes_linearly(s, higher);
    let (t, white, pink, brown) = noise_filters(s);
    if higher <= 0x8000 {
        lemma_mix_is_ordered(white, pink, lower, higher);
    } else {
        lemma_mix_is_ordered(pink, brown, lower - 0x8000, higher - 0x8000);
    }
}

/// A larger share of the way from `from` to `to` lies no nearer `from`.
proof fn lemma_mix_is_ordered(from: int, to: int, x: int, y: int)
    requires
        0 <= x <= y,
    ensures
        from <= to ==> ((to - from) * x) / 0x8000 <= ((to - from) * y) / 0x8000,
        to <= from ==> ((to - from) * y) / 0x8000 <= ((to - from) * x) / 0x8000,
{
    let d = to - from;
    if d == 0 {
        assert(d * x == 0 && d * y == 0);
    } else if d > 0 {
        assert(d * x <= d * y) by (nonlinear_arith)
            requires
                d > 0,
                x <= y,
        ;
        vstd::arithmetic::div_mod::lemma_div_is_ordered(d * x, d * y, 0x8000);
    } else {
        assert(d * y <= d * x) by (nonlinear_arith)
            requires
                d < 0,
                x <= y,
        ;
        vstd::arithmetic::div_mod::lemma_div_is_ordered(d * y, d * x, 0x8000);
    }
}

/// With both filters bypassed and the gain settled at full scale, a chain
/// sample is the colored-noise sample at the chain's own color, as 16-bit
/// PCM: white at color `0`, brown at `2^16`.
pub proof fn lemma_chain_plays_its_color(c: ChainState)
    requires
        chain_wf(c),
        c.high_pass.bypassed,
        c.low_pass.bypassed,
        c.gain == 0x8000,
        c.gain_target == 0x8000,
        0 <= c.color_q15 <= 0x1_0000,
    ensures
        chain_step(c).0.noise == noise_step(c.noise, c.color_q15 as int).0,
        chain_step(c).0.gain == 0x8000,
        chain_step(c).1 == pcm_sample(noise_step(c.noise, c.color_q15 as int).1),
        c.color_q15 == 0 ==> chain_step(c).1 == pcm_sample(noise_filters(c.noise).1),
        c.color_q15 == 0x1_0000 ==> chain_step(c).1 == pcm_sample(noise_filters(c.noise).3),
{
    lemma_noise_terms(c.noise);
    lemma_color_interpolates(c.noise, c.color_q15 as int);
    let sample = noise_step(c.noise, c.color_q15 as int).1;
    assert(-20_000 <= sample <= 20_000);
    assert(q15(0, c.gain_smoothing as int) == 0);
    lemma_q15_exact(sample, 0x8000);
    vstd::arithmetic::div_mod::lemma_div_multiples_vanish(sample, 0x8000);
    assert(q15(sample, 0x8000) == sample);
}

/// New settings are heard from the next sample on: with both new filters
/// bypassed and the gain at full scale, the next sample is the noise at
/// the new color.
pub proof fn lemma_new_color_is_heard(c: ChainState, settings: ChainSettings)
    requires
        chain_wf(c),
        c.gain == 0x8000,
        settings.gain_q15 == 0x8000,
        settings.high_pass.bypassed,
        settings.low_pass.bypassed,
        0 <= settings.color_q15 <= 0x1_0000,
    ensures
        chain_step(with_settings(c, settings)).1 == pcm_sample(
            noise_step(c.noise, settings.color_q15 as int).1,
        ),
{
    let d = with_settings(c, settings);
    assert(d.color_q15 == settings.color_q15);
    assert(d.noise == c.noise);
    lemma_chain_plays_its_color(d);
}

} // verus!
