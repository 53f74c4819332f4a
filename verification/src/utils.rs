//! Sample codec and buffer layout helpers.
//!
//! Decoding maps a raw integer sample of a given bit depth to the canonical
//! normalized representation: `clamp(v * NORM_ONE / max_positive, -NORM_ONE,
//! NORM_ONE)`. The scale factor `1 / max_positive` makes the most positive
//! raw value map to exactly 1.0, while the most negative raw value lands
//! slightly beyond -1.0 before the clamp snaps it back; that asymmetry is
//! deliberate and preserved here.
//!
//! Encoding is the inverse affine mapping onto an output sample type, with
//! saturation at the type's bounds.
//!
//! All quotients truncate toward zero, written `tdiv` in specifications.

use vstd::prelude::*;

use crate::NORM_ONE;
use vstd::string::StringExecFns;

verus! {

/// Truncating division (quotient rounded toward zero), for a positive divisor.
pub open spec fn tdiv(a: int, b: int) -> int
    recommends
        b > 0,
{
    if a >= 0 {
        a / b
    } else {
        -((-a) / b)
    }
}

/// Clamp an integer to the inclusive range `[lo, hi]`.
pub open spec fn spec_clamp(x: int, lo: int, hi: int) -> int
    recommends
        lo <= hi,
{
    if x < lo {
        lo
    } else if x > hi {
        hi
    } else {
        x
    }
}

/// Truncating division is monotone in the numerator.
pub proof fn lemma_tdiv_ordered(a: int, b: int, d: int)
    requires
        d > 0,
    ensures
        a <= b ==> tdiv(a, d) <= tdiv(b, d),
        b <= a ==> tdiv(b, d) <= tdiv(a, d),
{
    if a <= b {
        lemma_tdiv_ordered_one(a, b, d);
    }
    if b <= a {
        lemma_tdiv_ordered_one(b, a, d);
    }
}

proof fn lemma_tdiv_ordered_one(a: int, b: int, d: int)
    requires
        d > 0,
        a <= b,
    ensures
        tdiv(a, d) <= tdiv(b, d),
{
    if a >= 0 {
        vstd::arithmetic::div_mod::lemma_div_is_ordered(a, b, d);
    } else if b < 0 {
        vstd::arithmetic::div_mod::lemma_div_is_ordered(-b, -a, d);
    } else {
        vstd::arithmetic::div_mod::lemma_div_pos_is_pos(b, d);
        vstd::arithmetic::div_mod::lemma_div_pos_is_pos(-a, d);
    }
}

/// Encoded value of a normalized sample as unsigned 8-bit:
/// `(sample + 1.0) * 127.5`, saturated.
pub open spec fn spec_encode_u8(s: int) -> int {
    spec_clamp(tdiv((s + NORM_ONE) * 255, 2 * NORM_ONE), 0, 255)
}

/// Encoded value of a normalized sample as signed 16-bit:
/// `sample * 32767`, saturated.
pub open spec fn spec_encode_i16(s: int) -> int {
    spec_clamp(tdiv(s * 32767, NORM_ONE as int), -32768, 32767)
}

/// Encoded value of a normalized sample as signed 32-bit:
/// `sample * 2147483647`, saturated.
pub open spec fn spec_encode_i32(s: int) -> int {
    spec_clamp(tdiv(s * 2147483647, NORM_ONE as int), -2147483648, 2147483647)
}

/// Clamp on machine integers.
pub fn clamp_i64(x: i64, lo: i64, hi: i64) -> (r: i64)
    requires
        lo <= hi,
    ensures
        r == spec_clamp(x as int, lo as int, hi as int),
{
    if x < lo {
        lo
    } else if x > hi {
        hi
    } else {
        x
    }
}

/// Truncating division on machine integers.
pub(crate) fn div_trunc(a: i64, b: i64) -> (r: i64)
    requires
        b > 0,
        a > i64::MIN,
    ensures
        r == tdiv(a as int, b as int),
{
    if a >= 0 {
        let q: u64 = (a as u64) / (b as u64);
        assert(q <= a as u64);
        q as i64
    } else {
        let m: u64 = ((-a) as u64) / (b as u64);
        assert(m <= (-a) as u64);
        -(m as i64)
    }
}

/// Source sample representation: signed integers of 8, 16, 24 or 32 bits
/// (24-bit values travel in a 32-bit container), or 32-bit float already
/// brought to the canonical fixed-point form.
#[derive(Debug, Clone, Copy, PartialEq, Eq, Structural)]
pub enum Scale {
    I8,
    I16,
    I24,
    I32,
    F32,
}

impl Scale {
    /// The raw value that decodes to exactly 1.0. For `F32` the raw value is
    /// already in canonical units, so the factor is `NORM_ONE` itself.
    pub open spec fn spec_max_positive(self) -> int {
        match self {
            Scale::I8 => 127,
            Scale::I16 => 32767,
            Scale::I24 => 8388607,
            Scale::I32 => 2147483647,
            Scale::F32 => NORM_ONE as int,
        }
    }

    pub fn max_positive(self) -> (r: i64)
        ensures
            r == self.spec_max_positive(),
    {
        match self {
            Scale::I8 => 127,
            Scale::I16 => 32767,
            Scale::I24 => 8388607,
            Scale::I32 => 2147483647,
            Scale::F32 => NORM_ONE,
        }
    }
}

/// Whether a source stores integer or floating-point samples.
#[derive(Debug, Clone, Copy, PartialEq, Eq, Structural)]
pub enum SampleFormat {
    Int,
    Float,
}

/// The decoding scale for a declared sample format and bit depth. Integer
/// sources of 8, 16, 24 and 32 bits and 32-bit float sources are supported;
/// any other depth is rejected with `UnsupportedBitsPerSample`.
pub fn scale_for(format: SampleFormat, bits_per_sample: u16) -> (r: Result<
    Scale,
    crate::error::AudioError,
>)
    ensures
        match r {
            Ok(scale) => match format {
                SampleFormat::Int => (bits_per_sample == 8 && scale == Scale::I8) || (
                bits_per_sample == 16 && scale == Scale::I16) || (bits_per_sample == 24 && scale
                    == Scale::I24) || (bits_per_sample == 32 && scale == Scale::I32),
                SampleFormat::Float => bits_per_sample == 32 && scale == Scale::F32,
            },
            Err(e) => {
                &&& e == crate::error::AudioError::UnsupportedBitsPerSample(bits_per_sample)
                &&& match format {
                    SampleFormat::Int => bits_per_sample != 8 && bits_per_sample != 16
                        && bits_per_sample != 24 && bits_per_sample != 32,
                    SampleFormat::Float => bits_per_sample != 32,
                }
            },
        },
{
    match format {
        SampleFormat::Int => match bits_per_sample {
            8 => Ok(Scale::I8),
            16 => Ok(Scale::I16),
            24 => Ok(Scale::I24),
            32 => Ok(Scale::I32),
            _ => Err(crate::error::AudioError::UnsupportedBitsPerSample(bits_per_sample)),
        },
        SampleFormat::Float => match bits_per_sample {
            32 => Ok(Scale::F32),
            _ => Err(crate::error::AudioError::UnsupportedBitsPerSample(bits_per_sample)),
        },
    }
}

/// The normalized value of raw sample `v` at scale `s`:
/// `clamp(v / max_positive, -1.0, 1.0)` in canonical units.
pub open spec fn spec_convert(v: int, s: Scale) -> int {
    spec_clamp(
        tdiv(v * NORM_ONE, s.spec_max_positive()),
        -NORM_ONE as int,
        NORM_ONE as int,
    )
}

/// A value in the canonical representation: an amplitude in [-1.0, 1.0].
pub open spec fn norm_in_range(v: int) -> bool {
    -NORM_ONE <= v <= NORM_ONE
}

/// Number of samples that land in channel `i` when an interleaved buffer of
/// `len` samples is split into `c` channels: the count of indices congruent
/// to `i` modulo `c` below `len`.
pub open spec fn spec_channel_len(len: int, c: int, i: int) -> int
    recommends
        c >= 1,
        0 <= i,
{
    if i < len {
        (len - i - 1) / c + 1
    } else {
        0
    }
}

/// The samples of channel `i` of an interleaved buffer: the elements at
/// indices `i, i + c, i + 2c, ...`.
pub open spec fn spec_channel(s: Seq<i64>, c: int, i: int) -> Seq<i64>
    recommends
        c >= 1,
        0 <= i,
{
    Seq::new(spec_channel_len(s.len() as int, c, i) as nat, |k: int| s[i + k * c])
}

/// Split an interleaved buffer into its per-channel sequences.
pub open spec fn spec_deinterleave(s: Seq<i64>, c: int) -> Seq<Seq<i64>>
    recommends
        c >= 0,
{
    Seq::new(c as nat, |i: int| spec_channel(s, c, i))
}

/// The longest channel length among a set of per-channel buffers.
pub open spec fn spec_max_len(chs: Seq<Seq<i64>>) -> nat
    decreases chs.len(),
{
    if chs.len() == 0 {
        0
    } else {
        let rest = spec_max_len(chs.drop_last());
        if chs.last().len() > rest {
            chs.last().len()
        } else {
            rest
        }
    }
}

/// The sample an interleaved buffer holds at index `j`: frame `j / c` of
/// channel `j % c`, or 0.0 where that channel is too short.
pub open spec fn spec_interleave_at(chs: Seq<Seq<i64>>, j: int) -> i64
    recommends
        chs.len() >= 1,
        0 <= j,
{
    let c = chs.len() as int;
    let f = j / c;
    let i = j % c;
    if f < chs[i].len() {
        chs[i][f]
    } else {
        0
    }
}

/// Merge per-channel buffers into one interleaved buffer, padded with 0.0
/// where a channel is shorter than the longest one.
pub open spec fn spec_interleave(chs: Seq<Seq<i64>>) -> Seq<i64> {
    Seq::new(chs.len() * spec_max_len(chs), |j: int| spec_interleave_at(chs, j))
}

/// The character for one decimal digit.
pub open spec fn spec_digit_char(d: int) -> char {
    if d == 0 {
        '0'
    } else if d == 1 {
        '1'
    } else if d == 2 {
        '2'
    } else if d == 3 {
        '3'
    } else if d == 4 {
        '4'
    } else if d == 5 {
        '5'
    } else if d == 6 {
        '6'
    } else if d == 7 {
        '7'
    } else if d == 8 {
        '8'
    } else {
        '9'
    }
}

/// The decimal rendering of a non-negative integer, most significant digit
/// first, without leading zeros (a lone zero for 0).
pub open spec fn spec_decimal(n: int) -> Seq<char>
    recommends
        n >= 0,
    decreases n,
{
    if n < 10 {
        seq![spec_digit_char(n)]
    } else {
        spec_decimal(n / 10).push(spec_digit_char(n % 10))
    }
}

fn digit_str(d: u32) -> (r: &'static str)
    requires
        d < 10,
    ensures
        r@ == seq![spec_digit_char(d as int)],
{
    proof {
        reveal_strlit("0");
        reveal_strlit("1");
        reveal_strlit("2");
        reveal_strlit("3");
        reveal_strlit("4");
        reveal_strlit("5");
        reveal_strlit("6");
        reveal_strlit("7");
        reveal_strlit("8");
        reveal_strlit("9");
        assert("0"@ =~= seq!['0']);
        assert("1"@ =~= seq!['1']);
        assert("2"@ =~= seq!['2']);
        assert("3"@ =~= seq!['3']);
        assert("4"@ =~= seq!['4']);
        assert("5"@ =~= seq!['5']);
        assert("6"@ =~= seq!['6']);
        assert("7"@ =~= seq!['7']);
        assert("8"@ =~= seq!['8']);
        assert("9"@ =~= seq!['9']);
    }
    match d {
        0 => "0",
        1 => "1",
        2 => "2",
        3 => "3",
        4 => "4",
        5 => "5",
        6 => "6",
        7 => "7",
        8 => "8",
        _ => "9",
    }
}

/// Render a number in decimal.
pub fn decimal_string(n: u32) -> (r: String)
    ensures
        r@ == spec_decimal(n as int),
    decreases n,
{
    if n < 10 {
        String::from_str(digit_str(n))
    } else {
        let mut s = decimal_string(n / 10);
        s.append(digit_str(n % 10));
        proof {
            assert(s@ =~= spec_decimal(n as int));
        }
        s
    }
}

/// Law: at every supported scale, the most positive raw value decodes to
/// exactly 1.0, the raw value of the same magnitude on the negative side
/// decodes to exactly -1.0, the most negative raw value (one further out)
/// is snapped to -1.0 by the clamp, and a raw 0 decodes to 0.0.
pub proof fn lemma_decode_extremes(s: Scale)
    ensures
        spec_convert(s.spec_max_positive(), s) == NORM_ONE,
        spec_convert(-s.spec_max_positive(), s) == -NORM_ONE,
        spec_convert(-s.spec_max_positive() - 1, s) == -NORM_ONE,
        spec_convert(0, s) == 0,
{
    let m = s.spec_max_positive();
    assert(m > 0);
    assert((m * NORM_ONE) / m == NORM_ONE) by (nonlinear_arith)
        requires
            m > 0,
    ;
    assert(tdiv(m * NORM_ONE, m) == NORM_ONE);
    assert((-m) * NORM_ONE == -(m * NORM_ONE)) by (nonlinear_arith);
    assert(tdiv((-m) * NORM_ONE, m) == -NORM_ONE);
    assert((-m - 1) * NORM_ONE <= (-m) * NORM_ONE) by (nonlinear_arith)
        requires
            NORM_ONE > 0,
    ;
    lemma_tdiv_ordered((-m - 1) * NORM_ONE, (-m) * NORM_ONE, m);
    assert(0 * NORM_ONE == 0) by (nonlinear_arith);
}

proof fn lemma_max_len_uniform(chs: Seq<Seq<i64>>, q: nat)
    requires
        chs.len() > 0,
        forall|i: int| 0 <= i < chs.len() ==> chs[i].len() == q,
    ensures
        spec_max_len(chs) == q,
    decreases chs.len(),
{
    assert(chs.last().len() == q);
    if chs.len() > 1 {
        assert forall|i: int| 0 <= i < chs.drop_last().len() implies chs.drop_last()[i].len()
            == q by {
            assert(chs.drop_last()[i] == chs[i]);
        }
        lemma_max_len_uniform(chs.drop_last(), q);
    } else {
        assert(chs.drop_last().len() == 0);
        assert(spec_max_len(chs.drop_last()) == 0);
    }
}

/// Law: interleaving the de-interleaved channels of a whole-frame buffer
/// reproduces the buffer exactly, for any channel count >= 1 and any frame
/// count, including the empty buffer.
pub proof fn lemma_interleave_deinterleave(s: Seq<i64>, c: int)
    requires
        c >= 1,
        s.len() as int % c == 0,
    ensures
        spec_interleave(spec_deinterleave(s, c)) == s,
{
    let chs = spec_deinterleave(s, c);
    let len = s.len() as int;
    let q = len / c;
    vstd::arithmetic::div_mod::lemma_fundamental_div_mod(len, c);
    assert(len == q * c) by (nonlinear_arith)
        requires
            len == c * q + len % c,
            len % c == 0,
    ;
    assert forall|i: int| 0 <= i < c implies chs[i].len() == q as nat by {
        if len == 0 {
            assert(q * c == 0);
            vstd::arithmetic::mul::lemma_mul_is_commutative(q, c);
            assert(q == 0 || c == 0) by (nonlinear_arith)
                requires
                    q * c == 0,
            ;
        } else {
            assert(q >= 1) by (nonlinear_arith)
                requires
                    q * c == len,
                    len > 0,
                    c >= 1,
                    q >= 0,
            ;
            assert(i < len) by (nonlinear_arith)
                requires
                    i < c,
                    c >= 1,
                    q >= 1,
                    len == q * c,
            ;
            assert(len - i - 1 == (q - 1) * c + (c - i - 1)) by (nonlinear_arith)
                requires
                    len == q * c,
            ;
            vstd::arithmetic::div_mod::lemma_fundamental_div_mod_converse(
                len - i - 1,
                c,
                q - 1,
                c - i - 1,
            );
        }
    }
    lemma_max_len_uniform(chs, q as nat);
    assert(spec_interleave(chs).len() == c * q);
    assert(c * q == q * c) by (nonlinear_arith);
    assert forall|j: int| 0 <= j < len implies spec_interleave_at(chs, j) == s[j] by {
        let f = j / c;
        let i = j % c;
        vstd::arithmetic::div_mod::lemma_fundamental_div_mod(j, c);
        vstd::arithmetic::div_mod::lemma_mod_bound(j, c);
        assert(f < q) by (nonlinear_arith)
            requires
                j == c * f + i,
                0 <= i < c,
                j < q * c,
                c >= 1,
        ;
        assert(f >= 0) by (nonlinear_arith)
            requires
                j == c * f + i,
                0 <= i < c,
                0 <= j,
                c >= 1,
        ;
        assert(i + f * c == j) by (nonlinear_arith)
            requires
                j == c * f + i,
        ;
        assert(chs[i][f] == s[j]);
    }
    assert(spec_interleave(chs) =~= s);
}

proof fn lemma_max_len_le(chs: Seq<Seq<i64>>, m: nat)
    requires
        forall|i: int| 0 <= i < chs.len() ==> (#[trigger] chs[i]).len() <= m,
    ensures
        spec_max_len(chs) <= m,
    decreases chs.len(),
{
    if chs.len() > 0 {
        assert(chs.last().len() <= m);
        assert forall|i: int| 0 <= i < chs.drop_last().len() implies (
        #[trigger] chs.drop_last()[i]).len() <= m by {
            assert(chs.drop_last()[i] == chs[i]);
        }
        lemma_max_len_le(chs.drop_last(), m);
    }
}

proof fn lemma_max_len_ge(chs: Seq<Seq<i64>>, i: int)
    requires
        0 <= i < chs.len(),
    ensures
        spec_max_len(chs) >= chs[i].len(),
    decreases chs.len(),
{
    if i < chs.len() - 1 {
        assert(chs.drop_last()[i] == chs[i]);
        lemma_max_len_ge(chs.drop_last(), i);
    }
}

/// Law: interleaving the de-interleaved channels of any buffer reproduces
/// it, padded with 0.0 up to a whole frame where the last frame was
/// truncated (the channels then have uneven lengths and the missing
/// samples re-interleave as 0.0).
pub proof fn lemma_interleave_deinterleave_padded(s: Seq<i64>, c: int)
    requires
        c >= 1,
    ensures
        spec_interleave(spec_deinterleave(s, c)).len() >= s.len(),
        spec_interleave(spec_deinterleave(s, c)).len() < s.len() + c,
        spec_interleave(spec_deinterleave(s, c)).len() as int % c == 0,
        forall|j: int|
            0 <= j < s.len() ==> #[trigger] spec_interleave(spec_deinterleave(s, c))[j] == s[j],
        forall|j: int|
            s.len() <= j < spec_interleave(spec_deinterleave(s, c)).len()
                ==> #[trigger] spec_interleave(spec_deinterleave(s, c))[j] == 0,
{
    let chs = spec_deinterleave(s, c);
    let len = s.len() as int;
    let q = len / c;
    let r0 = len % c;
    vstd::arithmetic::div_mod::lemma_fundamental_div_mod(len, c);
    vstd::arithmetic::div_mod::lemma_mod_bound(len, c);
    vstd::arithmetic::div_mod::lemma_div_pos_is_pos(len, c);

    assert forall|i: int| 0 <= i < c implies chs[i].len() == (if i < r0 {
        q + 1
    } else {
        q
    }) by {
        lemma_channel_len_split(len, c, i);
    }

    let m = if r0 > 0 { q + 1 } else { q };
    assert(spec_max_len(chs) == m) by {
        lemma_max_len_le(chs, m as nat);
        if r0 > 0 {
            lemma_max_len_ge(chs, 0);
        } else if c <= len {
            lemma_max_len_ge(chs, 0);
        } else {
            assert(q == 0);
        }
    }

    let out = spec_interleave(chs);
    assert(out.len() == c * m);
    assert(c * m >= len && c * m < len + c && (c * m) % c == 0) by (nonlinear_arith)
        requires
            len == c * q + r0,
            0 <= r0 < c,
            c >= 1,
            m == (if r0 > 0 {
                q + 1
            } else {
                q
            }),
            q >= 0,
    ;

    assert forall|j: int| 0 <= j < out.len() implies out[j] == (if j < len {
        s[j]
    } else {
        0
    }) by {
        let f = j / c;
        let i = j % c;
        vstd::arithmetic::div_mod::lemma_fundamental_div_mod(j, c);
        vstd::arithmetic::div_mod::lemma_mod_bound(j, c);
        vstd::arithmetic::div_mod::lemma_div_pos_is_pos(j, c);
        lemma_channel_len_split(len, c, i);
        assert((f < chs[i].len()) == (j < len)) by (nonlinear_arith)
            requires
                j == c * f + i,
                len == c * q + r0,
                0 <= r0 < c,
                0 <= i < c,
                f >= 0,
                q >= 0,
                chs[i].len() == (if i < r0 {
                    q + 1
                } else {
                    q
                }),
        ;
        if j < len {
            assert(i + f * c == j) by (nonlinear_arith)
                requires
                    j == c * f + i,
            ;
            assert(chs[i][f] == s[j]);
        }
    }
}

/// The exact channel length produced by de-interleaving: the first
/// `len % c` channels get one sample of the trailing partial frame.
proof fn lemma_channel_len_split(len: int, c: int, i: int)
    requires
        c >= 1,
        0 <= i < c,
        len >= 0,
        len == c * (len / c) + len % c,
        0 <= len % c < c,
    ensures
        spec_channel_len(len, c, i) == (if i < len % c {
            len / c + 1
        } else {
            len / c
        }),
{
    let q = len / c;
    let r0 = len % c;
    if i < len {
        if i < r0 {
            assert(len - i - 1 == q * c + (r0 - i - 1)) by (nonlinear_arith)
                requires
                    len == c * q + r0,
            ;
            vstd::arithmetic::div_mod::lemma_fundamental_div_mod_converse(
                len - i - 1,
                c,
                q,
                r0 - i - 1,
            );
        } else {
            assert(q >= 1) by (nonlinear_arith)
                requires
                    len == c * q + r0,
                    i < len,
                    0 <= r0 <= i < c,
                    q >= 0,
            ;
            assert(len - i - 1 == (q - 1) * c + (c + r0 - i - 1)) by (nonlinear_arith)
                requires
                    len == c * q + r0,
            ;
            vstd::arithmetic::div_mod::lemma_fundamental_div_mod_converse(
                len - i - 1,
                c,
                q - 1,
                c + r0 - i - 1,
            );
        }
    } else {
        assert(q == 0 && r0 == len) by (nonlinear_arith)
            requires
                len == c * q + r0,
                0 <= len <= i < c,
                0 <= r0 < c,
                q >= 0,
        ;
    }
}

/// Buffer layout helpers and the sample codec.
pub struct Utils;

impl Utils {
    /// Decode one raw sample to the canonical normalized representation.
    pub fn convert_sample_to_norm(v: i64, scale: Scale) -> (r: i64)
        ensures
            r == spec_convert(v as int, scale),
            norm_in_range(r as int),
    {
        let max = scale.max_positive();
        if v >= max {
            proof {
                assert(v * NORM_ONE >= max * NORM_ONE) by (nonlinear_arith)
                    requires
                        v >= max,
                        NORM_ONE > 0,
                ;
                assert(tdiv(v * NORM_ONE, max as int) >= NORM_ONE) by {
                    assert(max * NORM_ONE == NORM_ONE * max);
                    assert((NORM_ONE * max) / (max as int) == NORM_ONE) by (nonlinear_arith)
                        requires
                            max > 0,
                    ;
                    vstd::arithmetic::div_mod::lemma_div_is_ordered(
                        max * NORM_ONE,
                        v * NORM_ONE,
                        max as int,
                    );
                }
            }
            NORM_ONE
        } else if v <= -max {
            proof {
                assert(-(v * NORM_ONE) >= max * NORM_ONE) by (nonlinear_arith)
                    requires
                        v <= -max,
                        NORM_ONE > 0,
                ;
                assert((-(v * NORM_ONE)) / (max as int) >= NORM_ONE) by {
                    assert(max * NORM_ONE == NORM_ONE * max);
                    assert((NORM_ONE * max) / (max as int) == NORM_ONE) by (nonlinear_arith)
                        requires
                            max > 0,
                    ;
                    vstd::arithmetic::div_mod::lemma_div_is_ordered(
                        max * NORM_ONE,
                        -(v * NORM_ONE),
                        max as int,
                    );
                }
            }
            -NORM_ONE
        } else {
            proof {
                assert(-(max * NORM_ONE) < v * NORM_ONE < max * NORM_ONE) by (nonlinear_arith)
                    requires
                        -max < v < max,
                        NORM_ONE > 0,
                        max > 0,
                ;
            }
            let prod: i64 = v * NORM_ONE;
            let q = div_trunc(prod, max);
            proof {
                if prod >= 0 {
                    vstd::arithmetic::div_mod::lemma_div_is_ordered(
                        prod as int,
                        max * NORM_ONE,
                        max as int,
                    );
                    assert((max * NORM_ONE) / (max as int) == NORM_ONE) by (nonlinear_arith)
                        requires
                            max > 0,
                    ;
                } else {
                    vstd::arithmetic::div_mod::lemma_div_is_ordered(
                        -(prod as int),
                        max * NORM_ONE,
                        max as int,
                    );
                    assert((max * NORM_ONE) / (max as int) == NORM_ONE) by (nonlinear_arith)
                        requires
                            max > 0,
                    ;
                }
            }
            q
        }
    }

    /// Encode a normalized sample as an unsigned 8-bit output sample:
    /// `(sample + 1.0) * 127.5`, saturated to the type's range.
    pub fn sample_to_u8(s: i64) -> (r: u8)
        ensures
            r == spec_encode_u8(s as int),
    {
        let c: i64 = clamp_i64(s, -2 * NORM_ONE, 2 * NORM_ONE);
        let q = div_trunc((c + NORM_ONE) * 255, 2 * NORM_ONE);
        proof {
            lemma_tdiv_ordered((c + NORM_ONE) * 255, (s + NORM_ONE) * 255, 2 * NORM_ONE as int);
            if s > 2 * NORM_ONE {
                assert(tdiv((2 * NORM_ONE + NORM_ONE) * 255, 2 * NORM_ONE as int) == 382);
            }
            if s < -2 * NORM_ONE {
                assert(tdiv((-2 * NORM_ONE + NORM_ONE) * 255, 2 * NORM_ONE as int) == -127);
            }
        }
        clamp_i64(q, 0, 255) as u8
    }

    /// Encode a normalized sample as a signed 16-bit output sample:
    /// `sample * 32767`, saturated to the type's range.
    pub fn sample_to_i16(s: i64) -> (r: i16)
        ensures
            r == spec_encode_i16(s as int),
    {
        let c: i64 = clamp_i64(s, -2 * NORM_ONE, 2 * NORM_ONE);
        let q = div_trunc(c * 32767, NORM_ONE);
        proof {
            lemma_tdiv_ordered(c * 32767, s * 32767, NORM_ONE as int);
            if s > 2 * NORM_ONE {
                assert(tdiv(2 * NORM_ONE * 32767, NORM_ONE as int) == 65534);
            }
            if s < -2 * NORM_ONE {
                assert(tdiv(-2 * NORM_ONE * 32767, NORM_ONE as int) == -65534);
            }
        }
        clamp_i64(q, -32768, 32767) as i16
    }

    /// Encode a normalized sample as a signed 32-bit output sample:
    /// `sample * 2147483647`, saturated to the type's range.
    pub fn sample_to_i32(s: i64) -> (r: i32)
        ensures
            r == spec_encode_i32(s as int),
    {
        let c: i64 = clamp_i64(s, -2 * NORM_ONE, 2 * NORM_ONE);
        let q = div_trunc(c * 2147483647, NORM_ONE);
        proof {
            lemma_tdiv_ordered(c * 2147483647, s * 2147483647, NORM_ONE as int);
            if s > 2 * NORM_ONE {
                assert(tdiv(2 * NORM_ONE * 2147483647, NORM_ONE as int) == 4294967294);
            }
            if s < -2 * NORM_ONE {
                assert(tdiv(-2 * NORM_ONE * 2147483647, NORM_ONE as int) == -4294967294);
            }
        }
        clamp_i64(q, -2147483648, 2147483647) as i32
    }

    /// De-interleave a buffer into one contiguous sequence per channel.
    /// Channel `i` receives the samples at indices `i, i + c, i + 2c, ...`.
    pub fn deinterleave_samples(samples: &Vec<i64>, num_channels: usize) -> (r: Vec<Vec<i64>>)
        ensures
            r@.len() == num_channels,
            forall|i: int|
                0 <= i < num_channels ==> r@[i]@ == spec_channel(
                    samples@,
                    num_channels as int,
                    i,
                ),
    {
        let len = samples.len();
        let mut out: Vec<Vec<i64>> = Vec::new();
        let mut i: usize = 0;
        while i < num_channels
            invariant
                i <= num_channels,
                out@.len() == i,
                len == samples@.len(),
                forall|t: int|
                    0 <= t < i ==> out@[t]@ == spec_channel(samples@, num_channels as int, t),
            decreases num_channels - i,
        {
            let count: usize = if i < len {
                (len - i - 1) / num_channels + 1
            } else {
                0
            };
            let ghost c = num_channels as int;
            assert(count == spec_channel_len(len as int, c, i as int));
            let mut chan: Vec<i64> = Vec::new();
            let mut k: usize = 0;
            while k < count
                invariant
                    k <= count,
                    chan@.len() == k,
                    len == samples@.len(),
                    i < num_channels,
                    c == num_channels as int,
                    count == spec_channel_len(len as int, c, i as int),
                    forall|t: int| 0 <= t < k ==> chan@[t] == samples@[i + t * c],
                decreases count - k,
            {
                proof {
                    let x = len - i - 1;
                    vstd::arithmetic::div_mod::lemma_fundamental_div_mod(x as int, c);
                    vstd::arithmetic::div_mod::lemma_mod_bound(x as int, c);
                    assert(k * c <= (x as int / c) * c) by (nonlinear_arith)
                        requires
                            k <= x as int / c,
                            c > 0,
                    ;
                }
                let idx = i + k * num_channels;
                chan.push(samples[idx]);
                k = k + 1;
            }
            assert(chan@ =~= spec_channel(samples@, c, i as int));
            out.push(chan);
            i = i + 1;
        }
        out
    }

    /// Interleave per-channel buffers into one buffer, frame by frame.
    /// A channel shorter than the longest one contributes 0.0 for its
    /// missing frames.
    pub fn interleave_samples(channels: &Vec<Vec<i64>>) -> (r: Vec<i64>)
        ensures
            r@ == spec_interleave(channels.deep_view()),
    {
        let ghost chs = channels.deep_view();
        let c = channels.len();
        let mut out: Vec<i64> = Vec::new();
        if c == 0 {
            assert(out@ =~= spec_interleave(chs));
            return out;
        }

        let mut max_len: usize = 0;
        let mut t: usize = 0;
        while t < c
            invariant
                t <= c,
                c == channels@.len(),
                chs == channels.deep_view(),
                max_len == spec_max_len(chs.take(t as int)),
            decreases c - t,
        {
            proof {
                assert(chs.take(t + 1).drop_last() =~= chs.take(t as int));
                assert(chs.take(t + 1).last() == chs[t as int]);
                assert(chs[t as int] =~= channels@[t as int]@);
            }
            if channels[t].len() > max_len {
                max_len = channels[t].len();
            }
            t = t + 1;
        }
        proof {
            assert(chs.take(c as int) =~= chs);
        }

        let mut f: usize = 0;
        while f < max_len
            invariant
                f <= max_len,
                c == channels@.len(),
                c >= 1,
                chs == channels.deep_view(),
                max_len == spec_max_len(chs),
                out@.len() == f * c,
                forall|j: int| 0 <= j < f * c ==> out@[j] == spec_interleave_at(chs, j),
            decreases max_len - f,
        {
            let mut i: usize = 0;
            while i < c
                invariant
                    i <= c,
                    f < max_len,
                    c == channels@.len(),
                    c >= 1,
                    chs == channels.deep_view(),
                    max_len == spec_max_len(chs),
                    out@.len() == f * c + i,
                    forall|j: int| 0 <= j < f * c + i ==> out@[j] == spec_interleave_at(chs, j),
                decreases c - i,
            {
                proof {
                    assert(chs[i as int] =~= channels@[i as int]@);
                }
                let v: i64 = if f < channels[i].len() {
                    channels[i][f]
                } else {
                    0
                };
                proof {
                    vstd::arithmetic::div_mod::lemma_fundamental_div_mod_converse(
                        f * c + i,
                        c as int,
                        f as int,
                        i as int,
                    );
                    assert(v == spec_interleave_at(chs, f * c + i));
                }
                out.push(v);
                i = i + 1;
            }
            proof {
                assert((f + 1) * c == f * c + c) by (nonlinear_arith);
            }
            f = f + 1;
        }
        proof {
            assert(out@.len() == max_len * c);
            assert(max_len * c == chs.len() * spec_max_len(chs)) by (nonlinear_arith)
                requires
                    max_len == spec_max_len(chs),
                    c == chs.len(),
            ;
            assert(out@ =~= spec_interleave(chs));
        }
        out
    }

    /// Decode a whole buffer of raw samples.
    pub fn convert_samples_to_norm(samples: &Vec<i64>, scale: Scale) -> (r: Vec<i64>)
        ensures
            r@.len() == samples@.len(),
            forall|i: int|
                0 <= i < samples@.len() ==> r@[i] == spec_convert(samples@[i] as int, scale),
    {
        let mut out: Vec<i64> = Vec::new();
        let mut k: usize = 0;
        while k < samples.len()
            invariant
                k <= samples@.len(),
                out@.len() == k,
                forall|i: int|
                    0 <= i < k ==> out@[i] == spec_convert(samples@[i] as int, scale),
            decreases samples@.len() - k,
        {
            let v = Utils::convert_sample_to_norm(samples[k], scale);
            out.push(v);
            k = k + 1;
        }
        out
    }
}

} // verus!
