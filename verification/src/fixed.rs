use vstd::prelude::*;
use vstd::arithmetic::div_mod::lemma_basic_div;
use vstd::arithmetic::div_mod::lemma_breakdown;
use vstd::arithmetic::div_mod::lemma_div_denominator;
use vstd::arithmetic::div_mod::lemma_div_multiples_vanish;
use vstd::arithmetic::div_mod::lemma_div_plus_one;
use vstd::arithmetic::div_mod::lemma_small_mod;
use crate::errors::TimeSeriesError;

verus! {

/// Number of fixed-point units in one whole value: `10^18`.
pub const FIXED_SCALE: u128 = 1_000_000_000_000_000_000;

/// Largest magnitude, in fixed-point units, that a series value may have
/// (ten million wholes).  Keeping values inside this range lets every sum
/// and squared deviation of a series fit the machine integers.
pub const VALUE_LIMIT: i128 = 10_000_000_000_000_000_000_000_000;

/// Number of units in a smoothing factor of exactly one.
pub const ALPHA_SCALE: u64 = 1_000_000_000;

/// Most points a series may hold, so that sums over it stay representable.
pub const MAX_SERIES_LEN: usize = 10_000_000;

/// A series value in the representable fixed-point range.
pub open spec fn in_range(v: i128) -> bool {
    -(VALUE_LIMIT as int) <= v as int <= VALUE_LIMIT as int
}

pub open spec fn abs_int(v: int) -> int {
    if v >= 0 {
        v
    } else {
        -v
    }
}

/// Integer division that rounds toward zero, the rounding used by every
/// averaging operator of this crate.
pub open spec fn div_trunc(a: int, b: int) -> int
    recommends
        b > 0,
{
    if a >= 0 {
        a / b
    } else {
        -((-a) / b)
    }
}

pub open spec fn pow256(n: nat) -> int
    decreases n,
{
    if n == 0 {
        1
    } else {
        256 * pow256((n - 1) as nat)
    }
}

/// Big-endian expansion of a non-negative integer into `n` bytes,
/// most significant byte first.
pub open spec fn be_of(x: int, n: nat) -> Seq<u8> {
    Seq::new(n as nat, |i: int| ((x / pow256((n - 1 - i) as nat)) % 256) as u8)
}

/// The integer denoted by a big-endian byte sequence.
pub open spec fn be_value(s: Seq<u8>) -> int
    decreases s.len(),
{
    if s.len() == 0 {
        0
    } else {
        s[0] * pow256((s.len() - 1) as nat) + be_value(s.drop_first())
    }
}

/// Concrete values of the small powers of 256 that the byte codec uses.
pub proof fn lemma_pow256_table()
    ensures
        pow256(0) == 1,
        pow256(1) == 0x100,
        pow256(7) == 0x100000000000000,
        pow256(8) == 0x10000000000000000,
        pow256(15) == 0x1000000000000000000000000000000,
        pow256(16) == 0x100000000000000000000000000000000,
{
    assert(pow256(0) == 1);
    assert(pow256(1) == 256 * pow256(0));
    assert(pow256(2) == 256 * pow256(1));
    assert(pow256(3) == 256 * pow256(2));
    assert(pow256(4) == 256 * pow256(3));
    assert(pow256(5) == 256 * pow256(4));
    assert(pow256(6) == 256 * pow256(5));
    assert(pow256(7) == 256 * pow256(6));
    assert(pow256(8) == 256 * pow256(7));
    assert(pow256(9) == 256 * pow256(8));
    assert(pow256(10) == 256 * pow256(9));
    assert(pow256(11) == 256 * pow256(10));
    assert(pow256(12) == 256 * pow256(11));
    assert(pow256(13) == 256 * pow256(12));
    assert(pow256(14) == 256 * pow256(13));
    assert(pow256(15) == 256 * pow256(14));
    assert(pow256(16) == 256 * pow256(15));
}

pub proof fn lemma_pow256_pos(n: nat)
    ensures
        pow256(n) >= 1,
    decreases n,
{
    if n > 0 {
        lemma_pow256_pos((n - 1) as nat);
    }
}

pub proof fn lemma_pow256_increases(a: nat, b: nat)
    requires
        a <= b,
    ensures
        pow256(a) <= pow256(b),
    decreases b,
{
    if a < b {
        lemma_pow256_increases(a, (b - 1) as nat);
        lemma_pow256_pos((b - 1) as nat);
    }
}

/// Expanding a value to bytes and reading the bytes back gives the value,
/// reduced modulo the capacity of the byte width.
pub proof fn lemma_be_of_value(x: int, n: nat)
    requires
        x >= 0,
    ensures
        be_value(be_of(x, n)) == x % pow256(n),
    decreases n,
{
    if n == 0 {
        assert(pow256(0) == 1);
        assert(be_of(x, 0).len() == 0);
        assert(be_value(be_of(x, 0)) == 0);
        assert(x % 1 == 0) by (nonlinear_arith)
            requires
                x >= 0,
        ;
    } else {
        let s = be_of(x, n);
        let p = pow256((n - 1) as nat);
        lemma_pow256_pos((n - 1) as nat);
        assert(s.drop_first() =~= be_of(x, (n - 1) as nat));
        lemma_be_of_value(x, (n - 1) as nat);
        assert(s[0] == ((x / p) % 256) as u8);
        assert(0 <= (x / p) % 256 < 256);
        assert(be_value(s) == s[0] * pow256((n - 1) as nat) + be_value(s.drop_first()));
        assert(be_value(s) == ((x / p) % 256) * p + (x % p));
        lemma_breakdown(x, p, 256);
        assert(x % (p * 256) == p * ((x / p) % 256) + x % p);
        assert(p * 256 == pow256(n)) by {
            assert(pow256(n) == 256 * p);
            assert(p * 256 == 256 * p) by (nonlinear_arith);
        }
        assert(be_value(s) == x % pow256(n));
    }
}

/// Appending a byte multiplies the denoted value by 256 and adds the byte.
pub proof fn lemma_be_value_snoc(s: Seq<u8>, b: u8)
    ensures
        be_value(s.push(b)) == 256 * be_value(s) + b,
    decreases s.len(),
{
    if s.len() == 0 {
        assert(s.push(b) =~= seq![b]);
        assert(seq![b].drop_first() =~= Seq::<u8>::empty());
        assert(be_value(seq![b].drop_first()) == 0);
        assert(be_value(seq![b]) == b * pow256(0) + be_value(seq![b].drop_first()));
        assert(pow256(0) == 1);
        assert(b * 1 == b) by (nonlinear_arith);
        assert(be_value(s) == 0);
    } else {
        let n = s.len();
        let p = pow256((n - 1) as nat);
        assert(s.push(b).drop_first() =~= s.drop_first().push(b));
        lemma_be_value_snoc(s.drop_first(), b);
        assert(be_value(s.push(b)) == s[0] * pow256(n) + 256 * be_value(s.drop_first()) + b);
        assert(s[0] * pow256(n) == 256 * (s[0] * p)) by {
            assert(pow256(n) == 256 * p);
            assert(s[0] * (256 * p) == 256 * (s[0] * p)) by (nonlinear_arith);
        }
    }
}

pub open spec fn pow2i(n: nat) -> int
    decreases n,
{
    if n == 0 {
        1
    } else {
        2 * pow2i((n - 1) as nat)
    }
}

pub proof fn lemma_pow2i_pos(n: nat)
    ensures
        pow2i(n) >= 1,
    decreases n,
{
    if n > 0 {
        lemma_pow2i_pos((n - 1) as nat);
    }
}

/// Sign bit of an IEEE-754 double bit pattern.
pub open spec fn bits_sign(bits: u64) -> bool {
    bits / 0x8000000000000000 == 1
}

/// Biased exponent field of an IEEE-754 double bit pattern.
pub open spec fn bits_exp(bits: u64) -> int {
    ((bits as int) / 0x10000000000000) % 0x800
}

/// Fraction field of an IEEE-754 double bit pattern.
pub open spec fn bits_frac(bits: u64) -> int {
    (bits as int) % 0x10000000000000
}

/// A pattern is finite when its exponent field is not all ones.
pub open spec fn is_finite_bits(bits: u64) -> bool {
    bits_exp(bits) != 0x7FF
}

/// `round(|x| * 10^18)` for the finite double `x` with the given bit
/// pattern: the scaled significand, shifted by the unbiased exponent
/// with round-half-up.  Zeros and subnormals scale to zero.
pub open spec fn scaled_mag_of(bits: u64) -> int {
    let e = bits_exp(bits);
    let m = bits_frac(bits);
    if e == 0 {
        0
    } else {
        let num = (0x10000000000000 + m) * (FIXED_SCALE as int);
        if e >= 1075 {
            num * pow2i((e - 1075) as nat)
        } else {
            (num + pow2i((1075 - e - 1) as nat)) / pow2i((1075 - e) as nat)
        }
    }
}

/// The signed fixed-point reading of a finite double bit pattern.
pub open spec fn fixed_of_bits(bits: u64) -> int {
    if bits_sign(bits) {
        -scaled_mag_of(bits)
    } else {
        scaled_mag_of(bits)
    }
}

/// Decodes an IEEE-754 double bit pattern into a fixed-point value by
/// exact integer arithmetic: scales the significand by `10^18` and
/// shifts by the exponent, rounding half up.
///
/// Fails with `NonFiniteValue` on NaN or an infinity, and with
/// `EncodingOverflow` when the magnitude leaves the fixed-point range.
#[verifier::loop_isolation(false)]
pub fn fixed_from_bits(bits: u64) -> (r: Result<i128, TimeSeriesError>)
    ensures
        r.is_ok() <==> is_finite_bits(bits) && scaled_mag_of(bits) <= VALUE_LIMIT as int,
        match r {
            Ok(v) => {
                &&& is_finite_bits(bits)
                &&& (v as int) == fixed_of_bits(bits)
                &&& in_range(v)
            },
            Err(e) => {
                &&& (e == TimeSeriesError::NonFiniteValue <==> !is_finite_bits(bits))
                &&& (e == TimeSeriesError::EncodingOverflow <==> is_finite_bits(bits)
                    && scaled_mag_of(bits) > VALUE_LIMIT as int)
            },
        },
{
    let e: u64 = (bits / 0x10000000000000) % 0x800;
    let m: u64 = bits % 0x10000000000000;
    let neg: bool = bits >= 0x8000000000000000;
    proof {
        assert(neg == bits_sign(bits));
        assert((e as int) == bits_exp(bits));
        assert((m as int) == bits_frac(bits));
    }
    if e == 0x7FF {
        return Err(TimeSeriesError::NonFiniteValue);
    }
    if e == 0 {
        return Ok(0);
    }
    proof {
        assert(((0x10000000000000 + m) as int) * (FIXED_SCALE as int)
            < 0x20000000000000000000000000000) by (nonlinear_arith)
            requires
                (m as int) < 0x10000000000000,
        ;
    }
    let num: u128 = ((0x10000000000000u64 + m) as u128) * FIXED_SCALE;
    let ghost numi = num as int;
    if e >= 1075 {
        proof {
            lemma_pow2i_pos((e - 1075) as nat);
            assert(scaled_mag_of(bits) >= numi) by (nonlinear_arith)
                requires
                    scaled_mag_of(bits) == numi * pow2i((e - 1075) as nat),
                    pow2i((e - 1075) as nat) >= 1,
                    numi >= 0,
            ;
            assert(numi >= 0x10000000000000 * (FIXED_SCALE as int)) by (nonlinear_arith)
                requires
                    numi == ((0x10000000000000 + m) as int) * (FIXED_SCALE as int),
                    (m as int) >= 0,
            ;
        }
        return Err(TimeSeriesError::EncodingOverflow);
    }
    let k: u64 = 1075 - e;
    let mut q: u128 = num;
    let mut t: u64 = 0;
    proof {
        lemma_pow2i_pos(0);
        assert(numi / 1 == numi) by (nonlinear_arith);
    }
    while t < k - 1
        invariant
            t <= k - 1,
            (q as int) == numi / pow2i(t as nat),
            q <= num,
        decreases k - 1 - t,
    {
        proof {
            lemma_pow2i_pos(t as nat);
            lemma_div_denominator(numi, pow2i(t as nat), 2);
            assert(pow2i(t as nat) * 2 == pow2i((t + 1) as nat)) by {
                assert(pow2i((t + 1) as nat) == 2 * pow2i(t as nat));
            }
        }
        q = q / 2;
        t += 1;
    }
    let scaled: u128 = (q + 1) / 2;
    proof {
        let h = pow2i((k - 1) as nat);
        lemma_pow2i_pos((k - 1) as nat);
        lemma_div_plus_one(numi, h);
        assert((q as int) + 1 == (h + numi) / h);
        lemma_div_denominator(numi + h, h, 2);
        assert(h * 2 == pow2i(k as nat)) by {
            assert(pow2i(k as nat) == 2 * pow2i((k - 1) as nat));
        }
        assert((scaled as int) == (numi + h) / pow2i(k as nat));
        assert(scaled_mag_of(bits) == (scaled as int));
    }
    if scaled > (VALUE_LIMIT as u128) {
        return Err(TimeSeriesError::EncodingOverflow);
    }
    if neg {
        Ok(-(scaled as i128))
    } else {
        Ok(scaled as i128)
    }
}

/// A 256-bit fixed-point magnitude: 32 bytes, big-endian, left padded
/// with zeros.  This is the only numeric shape that leaves the crate.
#[derive(Debug)]
pub struct FixedPointValue {
    pub bytes: Vec<u8>,
}

/// Encodes the magnitude of a fixed-point value into the canonical
/// 32-byte big-endian layout.  The sign is dropped: a value and its
/// negation encode identically.
pub fn encode(v: i128) -> (r: FixedPointValue)
    requires
        v != i128::MIN,
    ensures
        r.bytes@ == be_of(abs_int(v as int), 32),
        r.bytes@.len() == 32,
{
    let m: u128 = if v >= 0 {
        v as u128
    } else {
        (-v) as u128
    };
    proof {
        lemma_pow256_table();
    }
    let ghost a = abs_int(v as int);
    let mut out: Vec<u8> = Vec::new();
    let mut i: usize = 0;
    while i < 16
        invariant
            out@.len() == i,
            i <= 16,
            forall|k: int| 0 <= k < i ==> out@[k] == 0u8,
        decreases 16 - i,
    {
        out.push(0u8);
        i += 1;
    }
    let mut p: u128 = 0x1000000000000000000000000000000;
    assert(p as int == pow256(15));
    let mut j: usize = 0;
    while j < 16
        invariant
            out@.len() == 16 + j,
            j <= 16,
            m as int == a,
            forall|k: int| 0 <= k < 16 ==> out@[k] == 0u8,
            forall|k: int|
                0 <= k < j ==> #[trigger] out@[16 + k] == ((a / pow256((15 - k) as nat))
                    % 256) as u8,
            j < 16 ==> p as int == pow256((15 - j) as nat),
        decreases 16 - j,
    {
        assert(p > 0) by {
            lemma_pow256_pos((15 - j) as nat);
        }
        out.push(((m / p) % 256) as u8);
        if j < 15 {
            proof {
                assert(pow256((15 - j) as nat) == 256 * pow256((14 - j) as nat));
                lemma_div_multiples_vanish(pow256((14 - j) as nat), 256);
            }
            p = p / 256;
        }
        j += 1;
    }
    proof {
        assert forall|k: int| 0 <= k < 32 implies out@[k] == be_of(a, 32)[k] by {
            if k < 16 {
                lemma_pow256_pos((31 - k) as nat);
                lemma_pow256_increases(16, (31 - k) as nat);
                assert(a < pow256(16));
                lemma_basic_div(a, pow256((31 - k) as nat));
                assert(a / pow256((31 - k) as nat) == 0);
            } else {
                assert(out@[16 + (k - 16)] == ((a / pow256((15 - (k - 16)) as nat))
                    % 256) as u8);
                assert((15 - (k - 16)) as nat == (31 - k) as nat);
            }
        }
        assert(out@ =~= be_of(a, 32));
    }
    FixedPointValue { bytes: out }
}

/// Reads the low-order sixteen bytes of a 32-byte encoding back as an
/// unsigned fixed-point magnitude.
pub fn decode(fp: &FixedPointValue) -> (r: u128)
    requires
        fp.bytes@.len() == 32,
    ensures
        r as int == be_value(fp.bytes@.subrange(16, 32)),
{
    proof {
        lemma_pow256_table();
    }
    let mut acc: u128 = 0;
    let mut i: usize = 16;
    while i < 32
        invariant
            16 <= i <= 32,
            fp.bytes@.len() == 32,
            acc as int == be_value(fp.bytes@.subrange(16, i as int)),
            (acc as int) < pow256((i - 16) as nat),
        decreases 32 - i,
    {
        let b = fp.bytes[i];
        proof {
            lemma_be_value_snoc(fp.bytes@.subrange(16, i as int), fp.bytes@[i as int]);
            assert(fp.bytes@.subrange(16, i + 1) =~= fp.bytes@.subrange(16, i as int).push(
                fp.bytes@[i as int],
            ));
            lemma_pow256_table();
            lemma_pow256_increases(((i - 16) as nat) + 1, 16);
            assert(pow256(((i - 16) as nat) + 1) == 256 * pow256((i - 16) as nat));
            assert(256 * (acc as int) + 256 <= pow256(((i - 16) as nat) + 1));
        }
        acc = acc * 256 + (b as u128);
        i += 1;
    }
    acc
}

/// Round-trip law of the codec: decoding an encoding returns exactly the
/// encoded magnitude, and a value and its negation produce one encoding,
/// so the sign loss is deterministic.
pub proof fn lemma_codec_round_trip(v: i128)
    requires
        in_range(v),
    ensures
        be_value(be_of(abs_int(v as int), 32).subrange(16, 32)) == abs_int(v as int),
        be_of(abs_int(v as int), 32) == be_of(abs_int(-(v as int)), 32),
{
    let a = abs_int(v as int);
    lemma_pow256_table();
    assert(be_of(a, 32).subrange(16, 32) =~= be_of(a, 16));
    lemma_be_of_value(a, 16);
    assert(a < pow256(16));
    lemma_small_mod(a as nat, pow256(16) as nat);
    assert(abs_int(-(v as int)) == a);
}

} // verus!
