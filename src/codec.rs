use crate::bitstream::{
    bits_value, bytes_bits, field_bits, lemma_bits_value_bound, lemma_field_bits_value,
    lemma_split_at, padded, Bitstream, BitstreamError, BitstreamWriter,
};
use crate::frame::{lemma_raster, Plane};
use vstd::arithmetic::power2::{
    lemma2_to64, lemma_pow2_pos, lemma_pow2_strictly_increases, lemma_pow2_unfold, pow2,
};
use vstd::bits::{lemma_u32_shr_is_div, lemma_u64_shl_is_mul};
use vstd::prelude::*;

verus! {

/// Median-edge prediction of a sample from its left (`a`), upper (`b`) and
/// upper-left (`c`) neighbours.
pub open spec fn prediction(a: int, b: int, c: int) -> int {
    let lo = if a <= b { a } else { b };
    let hi = if a <= b { b } else { a };
    if c >= hi {
        lo
    } else if c <= lo {
        hi
    } else {
        a + b - c
    }
}

pub open spec fn abs_diff(x: int, y: int) -> nat {
    if x >= y { (x - y) as nat } else { (y - x) as nat }
}

/// Local activity of a neighbourhood.
pub open spec fn activity(a: int, b: int, c: int, d: int) -> nat {
    abs_diff(d, b) + abs_diff(b, c) + abs_diff(c, a)
}

/// The smallest `k` with `3 * 2^k >= act`.
pub open spec fn param_for(act: int) -> nat
    decreases act,
{
    if act <= 3 {
        0
    } else {
        1 + param_for((act + 1) / 2)
    }
}

/// Zig-zag folding of a signed value: 0, -1, 1, -2, 2, ... become 0, 1, 2, 3, 4, ...
pub open spec fn zigzag(x: int) -> nat {
    if x >= 0 { (2 * x) as nat } else { (-2 * x - 1) as nat }
}

/// Inverse of `zigzag`.
pub open spec fn unzigzag(u: nat) -> int {
    if u % 2 == 0 { (u / 2) as int } else { -((u / 2) as int) - 1 }
}

/// `h` zero bits followed by a one bit.
pub open spec fn unary(h: nat) -> Seq<bool> {
    Seq::new(h + 1, |i: int| i == h)
}

/// The code of `x` under parameter `k`: the high part of its folding in unary,
/// then its low `k` bits.
pub open spec fn value_code(k: nat, x: int) -> Seq<bool> {
    unary(zigzag(x) / pow2(k)) + field_bits(zigzag(x), k)
}

/// Length of the run of zero bits that starts at `pos` and ends with a one bit.
pub open spec fn unary_run(s: Seq<bool>, pos: int) -> Option<nat>
    decreases s.len() - pos,
{
    if pos < 0 || pos >= s.len() {
        None
    } else if s[pos] {
        Some(0)
    } else {
        match unary_run(s, pos + 1) {
            Some(h) => Some(h + 1),
            None => None,
        }
    }
}

/// What decoding one value with parameter `k` at bit `pos` of `s` gives: the
/// value and the position after its code, or `None` where `s` ends too soon.
pub open spec fn decode_value_at(s: Seq<bool>, pos: int, k: nat) -> Option<(i32, int)> {
    match unary_run(s, pos) {
        None => None,
        Some(h) => {
            let p = pos + h + 1;
            if p + k > s.len() {
                None
            } else {
                let u = (h * pow2(k) + bits_value(s.subrange(p, p + k))) % 0x1_0000_0000;
                Some((unzigzag(u as nat) as i32, p + k))
            }
        },
    }
}

pub fn fixed_prediction(a: u16, b: u16, c: u16) -> (r: i32)
    ensures
        r == prediction(a as int, b as int, c as int),
{
    let min_a_b = if a <= b { a } else { b };
    let max_a_b = if a <= b { b } else { a };
    if c >= max_a_b {
        min_a_b as i32
    } else if c <= min_a_b {
        max_a_b as i32
    } else {
        a as i32 + b as i32 - c as i32
    }
}

/// The prediction lies between the smallest and the largest of the two direct
/// neighbours, so within `[min(a,b,c), 2*max(a,b,c) - min(a,b,c)]`, and it fits
/// a signed 32-bit value.
pub proof fn lemma_prediction_bounds(a: u16, b: u16, c: u16)
    ensures
        ({
            let p = prediction(a as int, b as int, c as int);
            let lo = if a <= b { a as int } else { b as int };
            let hi = if a <= b { b as int } else { a as int };
            let lo3 = if lo <= c { lo } else { c as int };
            let hi3 = if hi >= c { hi } else { c as int };
            &&& lo <= p <= hi
            &&& lo3 <= p <= hi3 + hi3 - lo3
            &&& i32::MIN <= p <= i32::MAX
        }),
{
}

/// `3 * 2^k >= act` exactly when `k` is at least `param_for(act)`.
pub proof fn lemma_param_for(act: int, k: nat)
    ensures
        3 * pow2(k) >= act <==> param_for(act) <= k,
    decreases act,
{
    lemma_pow2_pos(k);
    if act > 3 {
        lemma_param_for((act + 1) / 2, (k - 1) as nat);
        if k > 0 {
            lemma_pow2_unfold(k);
        } else {
            lemma2_to64();
        }
    }
}

/// The parameter never decreases as the activity grows.
pub proof fn lemma_param_monotone(act1: int, act2: int)
    requires
        act1 <= act2,
    ensures
        param_for(act1) <= param_for(act2),
{
    lemma_param_for(act2, param_for(act2));
    lemma_param_for(act1, param_for(act2));
}

/// For a neighbourhood whose three absolute differences are each no larger than
/// those of another, the parameter is no larger either.
pub proof fn lemma_k_monotone(a: u16, b: u16, c: u16, d: u16, a2: u16, b2: u16, c2: u16, d2: u16)
    requires
        abs_diff(d as int, b as int) <= abs_diff(d2 as int, b2 as int),
        abs_diff(b as int, c as int) <= abs_diff(b2 as int, c2 as int),
        abs_diff(c as int, a as int) <= abs_diff(c2 as int, a2 as int),
    ensures
        param_for(activity(a as int, b as int, c as int, d as int) as int) <= param_for(
            activity(a2 as int, b2 as int, c2 as int, d2 as int) as int,
        ),
{
    lemma_param_monotone(
        activity(a as int, b as int, c as int, d as int) as int,
        activity(a2 as int, b2 as int, c2 as int, d2 as int) as int,
    );
}

/// The entropy coder's parameter for a neighbourhood.
pub fn k(a: u16, b: u16, c: u16, d: u16) -> (r: u32)
    ensures
        r == param_for(activity(a as int, b as int, c as int, d as int) as int),
        r <= 17,
{
    let d1: u64 = if d >= b { (d - b) as u64 } else { (b - d) as u64 };
    let d2: u64 = if b >= c { (b - c) as u64 } else { (c - b) as u64 };
    let d3: u64 = if c >= a { (c - a) as u64 } else { (a - c) as u64 };
    let activity_level: u64 = d1 + d2 + d3;
    let ghost act = activity(a as int, b as int, c as int, d as int) as int;
    let mut k: u32 = 0;
    let mut step: u64 = 3;
    proof {
        lemma2_to64();
    }
    while step < activity_level
        invariant
            activity_level == act,
            act <= 3 * 65535,
            step == 3 * pow2(k as nat),
            step >= 3,
            k > 0 ==> 3 * pow2((k - 1) as nat) < act,
            k <= 17,
        decreases 17 - k,
    {
        proof {
            lemma_pow2_unfold(k as nat + 1);
            if k >= 17 {
                lemma_pow2_strictly_increases(16, k as nat);
                lemma2_to64();
            }
        }
        step = step * 2;
        k = k + 1;
    }
    proof {
        lemma_param_for(act, k as nat);
        if k > 0 {
            lemma_param_for(act, (k - 1) as nat);
        }
    }
    k
}

/// Writing `1` in `h + 1` bits gives `h` zeros and a one.
proof fn lemma_unary_field(h: nat)
    ensures
        field_bits(1, h + 1) =~= unary(h),
{
    assert forall|i: int| 0 <= i < h + 1 implies #[trigger] field_bits(1, h + 1)[i] == unary(h)[i] by {
        lemma2_to64();
        if i < h {
            lemma_pow2_strictly_increases(0, (h - i) as nat);
            vstd::arithmetic::div_mod::lemma_basic_div(1, pow2((h - i) as nat) as int);
        } else {
            assert(field_bits(1, h + 1)[i] == ((1nat / pow2(0)) % 2 == 1));
        }
    }
}

/// Appends the code of `x` under parameter `k`.
pub fn encode_value(k: u32, x: i32, dest: &mut BitstreamWriter)
    requires
        old(dest).wf(),
        k <= 31,
        -0x4000_0000 <= x < 0x4000_0000,
    ensures
        final(dest).wf(),
        final(dest).bits() == old(dest).bits() + value_code(k as nat, x as int),
{
    let wide: i64 = x as i64;
    let u: u32 = if wide >= 0 { (2 * wide) as u32 } else { (2 * (0 - wide) - 1) as u32 };
    let high_bits = u >> k;
    proof {
        lemma_u32_shr_is_div(u, k);
        lemma_pow2_pos(k as nat);
        lemma_unary_field(high_bits as nat);
    }
    dest.write_bits(1, (high_bits + 1) as usize);
    dest.write_bits(u as u64, k as usize);
    assert(final(dest).bits() =~= old(dest).bits() + value_code(k as nat, x as int));
}

proof fn lemma_single_bit(s: Seq<bool>, p: int)
    requires
        0 <= p < s.len(),
    ensures
        bits_value(s.subrange(p, p + 1)) == if s[p] { 1nat } else { 0nat },
{
    let t = s.subrange(p, p + 1);
    assert(t.drop_last() =~= Seq::<bool>::empty());
    assert(bits_value(t.drop_last()) == 0);
    assert(t.last() == s[p]);
}

/// Reads one value coded under parameter `k`.
pub fn decode_value(k: u32, source: &mut Bitstream) -> (r: Result<i32, BitstreamError>)
    requires
        old(source).wf(),
        k <= 31,
    ensures
        final(source).wf(),
        final(source).bits() == old(source).bits(),
        match decode_value_at(old(source).bits(), old(source).pos() as int, k as nat) {
            Some((x, p)) => r == Ok::<i32, BitstreamError>(x) && final(source).pos() == p,
            None => r == Err::<i32, BitstreamError>(BitstreamError::UnexpectedEof),
        },
{
    let ghost s = source.bits();
    let ghost p0 = source.pos() as int;
    proof {
        source.lemma_wf();
    }
    let mut high_bits: u64 = 0;
    let first = source.read_bits(1);
    proof {
        if p0 < s.len() {
            lemma_single_bit(s, p0);
        }
    }
    let mut bit: u64 = match first {
        Ok(v) => v,
        Err(e) => {
            return Err(e);
        },
    };
    while bit == 0
        invariant
            source.wf(),
            s == source.bits(),
            s == old(source).bits(),
            p0 == old(source).pos(),
            s.len() <= usize::MAX,
            source.pos() == p0 + high_bits + 1,
            0 <= p0,
            p0 + high_bits < s.len(),
            bit == if s[p0 + high_bits] { 1u64 } else { 0u64 },
            unary_run(s, p0) == match unary_run(s, p0 + high_bits) {
                Some(m) => Some((m + high_bits) as nat),
                None => None::<nat>,
            },
        decreases s.len() - source.pos(),
    {
        proof {
            source.lemma_wf();
            if p0 + high_bits + 1 < s.len() {
                lemma_single_bit(s, p0 + high_bits + 1);
            }
        }
        let next = source.read_bits(1);
        match next {
            Ok(v) => {
                bit = v;
            },
            Err(e) => {
                return Err(e);
            },
        }
        high_bits = high_bits + 1;
    }
    assert(unary_run(s, p0) == Some(high_bits as nat));
    let low = match source.read_bits(k as usize) {
        Ok(v) => v,
        Err(e) => {
            return Err(e);
        },
    };
    let ghost low_bits = s.subrange(p0 + high_bits + 1, p0 + high_bits + 1 + k);
    proof {
        lemma2_to64();
        vstd::bits::lemma_u64_pow2_no_overflow(k as nat);
        lemma_u64_shl_is_mul(1, k as u64);
        lemma_bits_value_bound(low_bits);
        if k < 31 {
            lemma_pow2_strictly_increases(k as nat, 31);
        }
    }
    let scale: u64 = 1u64 << (k as u64);
    assert(high_bits as u128 * scale as u128 <= 0xffff_ffff_ffff_ffffu128 * 0x8000_0000u128) by (nonlinear_arith)
        requires
            high_bits <= 0xffff_ffff_ffff_ffffu64,
            scale <= 0x8000_0000u64,
    ;
    let u: u32 = ((high_bits as u128 * scale as u128 + low as u128) % 0x1_0000_0000u128) as u32;
    let x: i32 = if u % 2 == 0 {
        (u / 2) as i32
    } else {
        -((u / 2) as i32) - 1
    };
    Ok(x)
}

/// Decoding the code of `x` gives `x` back and stops right after the code.
pub proof fn lemma_value_round_trip(k: nat, x: int, s: Seq<bool>, pos: int)
    requires
        k <= 31,
        -0x4000_0000 <= x < 0x4000_0000,
        0 <= pos,
        pos + value_code(k, x).len() <= s.len(),
        s.subrange(pos, pos + value_code(k, x).len()) == value_code(k, x),
    ensures
        decode_value_at(s, pos, k) == Some((x as i32, pos + value_code(k, x).len())),
{
    let u = zigzag(x);
    let h = u / pow2(k);
    let code = value_code(k, x);
    lemma_pow2_pos(k);
    assert forall|j: int| 0 <= j <= h implies #[trigger] s[pos + j] == (j == h) by {
        assert(s.subrange(pos, pos + code.len())[j] == code[j]);
    }
    lemma_unary_run(s, pos, h);
    let p = pos + h + 1;
    assert(s.subrange(p, p + k) =~= field_bits(u, k)) by {
        assert forall|j: int| 0 <= j < k implies #[trigger] s.subrange(p, p + k)[j] == field_bits(u, k)[j] by {
            assert(s.subrange(pos, pos + code.len())[h + 1 + j] == code[h + 1 + j]);
        }
    }
    lemma_field_bits_value(u, k);
    vstd::arithmetic::div_mod::lemma_fundamental_div_mod(u as int, pow2(k) as int);
    assert(h * pow2(k) + u % pow2(k) == u) by (nonlinear_arith)
        requires
            u == pow2(k) * (u / pow2(k)) + u % pow2(k),
            h == u / pow2(k),
    ;
}

proof fn lemma_unary_run(s: Seq<bool>, pos: int, h: nat)
    requires
        0 <= pos,
        pos + h < s.len(),
        forall|j: int| 0 <= j <= h ==> #[trigger] s[pos + j] == (j == h),
    ensures
        unary_run(s, pos) == Some(h),
    decreases h,
{
    if h > 0 {
        assert(s[pos + 0] == false);
        assert forall|j: int| 0 <= j <= h - 1 implies #[trigger] s[pos + 1 + j] == (j == h - 1) by {
            assert(s[pos + (j + 1)] == (j + 1 == h));
        }
        lemma_unary_run(s, pos + 1, (h - 1) as nat);
    } else {
        assert(s[pos + 0]);
    }
}

/// The neighbours `(a, b, c, d)` of raster position `i` in a plane of width `w`:
/// left, above, above-left and above-right, zero outside the plane.
pub open spec fn context(s: Seq<u16>, w: int, i: int) -> (int, int, int, int) {
    let col = i % w;
    let up = i >= w;
    let a = if col > 0 { s[i - 1] as int } else { 0 };
    let b = if up { s[i - w] as int } else { 0 };
    let c = if up && col > 0 { s[i - w - 1] as int } else { 0 };
    let d = if up && col + 1 < w { s[i - w + 1] as int } else { 0 };
    (a, b, c, d)
}

/// The parameter used at raster position `i`.
pub open spec fn context_param(s: Seq<u16>, w: int, i: int) -> nat {
    let (a, b, c, d) = context(s, w, i);
    param_for(activity(a, b, c, d) as int)
}

/// The prediction used at raster position `i`.
pub open spec fn context_prediction(s: Seq<u16>, w: int, i: int) -> int {
    let (a, b, c, d) = context(s, w, i);
    prediction(a, b, c)
}

/// The code of the sample at raster position `i`.
pub open spec fn sample_code(s: Seq<u16>, w: int, i: int) -> Seq<bool> {
    value_code(context_param(s, w, i), s[i] as int - context_prediction(s, w, i))
}

/// The codes of the first `n` samples in raster order.
#[verifier::opaque]
pub open spec fn plane_code(s: Seq<u16>, w: int, n: nat) -> Seq<bool>
    decreases n,
{
    if n == 0 {
        Seq::empty()
    } else {
        plane_code(s, w, (n - 1) as nat) + sample_code(s, w, n - 1)
    }
}

/// The low 16 bits of `v`.
pub open spec fn wrap16(v: int) -> u16 {
    (v % 0x1_0000) as u16
}

/// What decoding `n` samples of a plane of width `w` from bit `pos` of `bits`
/// gives: the samples in raster order and the position after them, or `None`
/// where the bits end too soon.
#[verifier::opaque]
pub open spec fn plane_decode(bits: Seq<bool>, pos: int, w: int, n: nat) -> Option<(Seq<u16>, int)>
    decreases n,
{
    if n == 0 {
        Some((Seq::empty(), pos))
    } else {
        match plane_decode(bits, pos, w, (n - 1) as nat) {
            None => None,
            Some((t, p)) => match decode_value_at(bits, p, context_param(t, w, n - 1)) {
                None => None,
                Some((r, p2)) => Some((t.push(wrap16(context_prediction(t, w, n - 1) + r)), p2)),
            },
        }
    }
}

proof fn lemma_param_small(a: int, b: int, c: int, d: int)
    requires
        0 <= a <= 0xffff,
        0 <= b <= 0xffff,
        0 <= c <= 0xffff,
        0 <= d <= 0xffff,
    ensures
        param_for(activity(a, b, c, d) as int) <= 17,
{
    lemma2_to64();
    lemma_param_for(activity(a, b, c, d) as int, 17);
}

/// Once decoding runs out of bits it stays out of bits.
proof fn lemma_decode_none(bits: Seq<bool>, w: int, m: nat, n: nat)
    requires
        m <= n,
        plane_decode(bits, 0, w, m) is None,
    ensures
        plane_decode(bits, 0, w, n) is None,
    decreases n - m,
{
    reveal_with_fuel(plane_decode, 1);
    if m < n {
        lemma_decode_none(bits, w, m + 1, n);
        assert(plane_decode(bits, 0, w, m + 1) is None);
    }
}

/// The context at a position looks only at earlier samples.
proof fn lemma_context_prefix(s: Seq<u16>, t: Seq<u16>, w: int, row: int, col: int)
    requires
        0 <= row,
        0 <= col < w,
        row * w + col <= t.len(),
        row * w + col <= s.len(),
        t.subrange(0, row * w + col) == s.subrange(0, row * w + col),
    ensures
        context(s, w, row * w + col) == context(t, w, row * w + col),
{
    let i = row * w + col;
    lemma_raster(w, row, col);
    assert forall|j: int| 0 <= j < i implies s[j] == t[j] by {
        assert(s[j] == s.subrange(0, i)[j]);
        assert(t[j] == t.subrange(0, i)[j]);
    }
}

/// Moving one column right: the new left neighbour is the sample just passed,
/// the new upper one the old upper-right one and the new upper-left the old upper.
proof fn lemma_context_next(s: Seq<u16>, w: int, row: int, col: int)
    requires
        0 <= row,
        0 <= col,
        col + 1 < w,
        row * w + col + 1 <= s.len(),
    ensures
        context(s, w, row * w + col + 1).0 == s[row * w + col] as int,
        context(s, w, row * w + col + 1).1 == context(s, w, row * w + col).3,
        context(s, w, row * w + col + 1).2 == context(s, w, row * w + col).1,
{
    lemma_raster(w, row, col);
    lemma_raster(w, row, col + 1);
}

proof fn lemma_decode_step(bits: Seq<bool>, w: int, t: Seq<u16>, pos: int, i: nat)
    requires
        plane_decode(bits, 0, w, i) == Some((t, pos)),
    ensures
        plane_decode(bits, 0, w, i + 1) == match decode_value_at(bits, pos, context_param(t, w, i as int)) {
            None => None,
            Some((r, p2)) => Some((t.push(wrap16(context_prediction(t, w, i as int) + r)), p2)),
        },
{
    reveal_with_fuel(plane_decode, 1);
}

/// Decoding yields as many samples as asked for and never moves past the end.
pub proof fn lemma_plane_decode_facts(bits: Seq<bool>, pos: int, w: int, n: nat)
    requires
        0 <= pos <= bits.len(),
    ensures
        plane_decode(bits, pos, w, n) matches Some((t, p)) ==> t.len() == n && pos <= p <= bits.len(),
    decreases n,
{
    reveal_with_fuel(plane_decode, 1);
    if n > 0 {
        lemma_plane_decode_facts(bits, pos, w, (n - 1) as nat);
    }
}

/// Raster position `m` in a plane of width `w` splits into a row and a column.
proof fn lemma_row_col(m: int, w: int)
    requires
        0 <= m,
        0 < w,
    ensures
        0 <= m / w,
        0 <= m % w < w,
        m == (m / w) * w + m % w,
{
    vstd::arithmetic::div_mod::lemma_fundamental_div_mod(m, w);
    vstd::arithmetic::div_mod::lemma_div_pos_is_pos(m, w);
    assert(m == (m / w) * w + m % w) by (nonlinear_arith)
        requires
            m == w * (m / w) + m % w,
    ;
}

/// The sample at position `m` decodes from its code, given its earlier samples.
proof fn lemma_sample_round_trip(s: Seq<u16>, w: int, m: nat, bits: Seq<bool>, q: int)
    requires
        w > 0,
        m < s.len(),
        0 <= q,
        q + sample_code(s, w, m as int).len() <= bits.len(),
        bits.subrange(q, q + sample_code(s, w, m as int).len()) == sample_code(s, w, m as int),
    ensures
        decode_value_at(bits, q, context_param(s.take(m as int), w, m as int)) matches Some((r, p2))
            && p2 == q + sample_code(s, w, m as int).len()
            && wrap16(context_prediction(s.take(m as int), w, m as int) + r) == s[m as int],
{
    let t = s.take(m as int);
    lemma_row_col(m as int, w);
    assert(t.subrange(0, m as int) =~= s.subrange(0, m as int));
    lemma_context_prefix(s, t, w, m as int / w, m as int % w);
    let (a, b, c, d) = context(s, w, m as int);
    let x = s[m as int] as int;
    let pr = prediction(a, b, c);
    lemma_param_small(a, b, c, d);
    lemma_value_round_trip(context_param(s, w, m as int), x - pr, bits, q);
    assert(wrap16(pr + (x - pr)) == s[m as int]);
}

/// Decoding the codes of the first `n` samples of a plane gives those samples
/// back, and stops right after the codes, whatever follows them.
pub proof fn lemma_plane_round_trip(s: Seq<u16>, w: int, n: nat, bits: Seq<bool>, pos: int)
    requires
        w > 0,
        n <= s.len(),
        0 <= pos,
        pos + plane_code(s, w, n).len() <= bits.len(),
        bits.subrange(pos, pos + plane_code(s, w, n).len()) == plane_code(s, w, n),
    ensures
        plane_decode(bits, pos, w, n) == Some((s.take(n as int), pos + plane_code(s, w, n).len())),
    decreases n,
{
    reveal_with_fuel(plane_decode, 1);
    reveal_with_fuel(plane_code, 1);
    if n == 0 {
        assert(s.take(0) =~= Seq::<u16>::empty());
    } else {
        let m = (n - 1) as nat;
        let prev = plane_code(s, w, m);
        let sc = sample_code(s, w, m as int);
        assert(plane_code(s, w, n) == prev + sc);
        lemma_split_at(bits, pos, prev, sc);
        lemma_plane_round_trip(s, w, m, bits, pos);
        lemma_sample_round_trip(s, w, m, bits, pos + prev.len());
        assert(s.take(m as int).push(s[m as int]) =~= s.take(n as int));
    }
}

/// The code of one sample takes at most 131088 bits.
pub proof fn lemma_sample_code_len(s: Seq<u16>, w: int, i: int)
    requires
        w > 0,
        0 <= i < s.len(),
    ensures
        sample_code(s, w, i).len() <= 131088,
{
    let (a, b, c, d) = context(s, w, i);
    lemma_param_small(a, b, c, d);
    let k = context_param(s, w, i);
    let u = zigzag(s[i] as int - context_prediction(s, w, i));
    assert(u <= 131070);
    lemma_pow2_pos(k);
    vstd::arithmetic::div_mod::lemma_div_is_ordered_by_denominator(u as int, 1, pow2(k) as int);
}

/// The codes of `n` samples take at most `131088 * n` bits.
pub proof fn lemma_plane_code_len(s: Seq<u16>, w: int, n: nat)
    requires
        w > 0,
        n <= s.len(),
    ensures
        plane_code(s, w, n).len() <= 131088 * n,
    decreases n,
{
    reveal_with_fuel(plane_code, 1);
    if n > 0 {
        lemma_plane_code_len(s, w, (n - 1) as nat);
        lemma_sample_code_len(s, w, n - 1);
    }
}

/// Plane encoder and decoder.
pub struct Codec;

impl Codec {
    /// Appends the plane's code, padded to whole bytes, to `dest`.
    pub fn encode(plane: &Plane, dest: &mut Vec<u8>)
        requires
            plane.wf(),
        ensures
            final(dest)@.len() >= old(dest)@.len(),
            final(dest)@.take(old(dest)@.len() as int) == old(dest)@,
            bytes_bits(final(dest)@.skip(old(dest)@.len() as int)) == padded(
                plane_code(plane.samples(), plane.width as int, (plane.width * plane.height) as nat),
            ),
    {
        let mut bitstream = BitstreamWriter::new(Vec::new());
        let ghost s = plane.samples();
        let w = plane.width;
        let ghost wi = w as int;
        let mut b: u16 = 0;
        let mut row: usize = 0;
        assert(bitstream.bits() =~= plane_code(s, wi, 0)) by {
            reveal_with_fuel(plane_code, 1);
            assert(bytes_bits(Seq::<u8>::empty()) =~= Seq::<bool>::empty());
        }
        while row < plane.height
            invariant
                plane.wf(),
                s == plane.samples(),
                w == plane.width,
                wi == w,
                row <= plane.height,
                bitstream.wf(),
                bitstream.bits() == plane_code(s, wi, (row * w) as nat),
                w > 0 ==> b as int == if row > 0 { s[(row - 1) * wi] as int } else { 0 },
            decreases plane.height - row,
        {
            let mut a: u16 = 0;
            let mut c: u16 = 0;
            let mut col: usize = 0;
            proof {
                if w > 0 {
                    lemma_raster(wi, row as int, 0);
                }
            }
            while col < w
                invariant
                    plane.wf(),
                    s == plane.samples(),
                    w == plane.width,
                    wi == w,
                    row < plane.height,
                    col <= w,
                    bitstream.wf(),
                    bitstream.bits() == plane_code(s, wi, (row * w + col) as nat),
                    col < w ==> context(s, wi, row * wi + col) == (a as int, b as int, c as int, context(s, wi, row * wi + col).3),
                decreases w - col,
            {
                proof {
                    lemma_raster(wi, row as int, col as int);
                    plane.lemma_index(row as int, col as int);
                    if row > 0 {
                        plane.lemma_index(row - 1, col as int);
                        if col + 1 < w {
                            plane.lemma_index(row - 1, col + 1);
                        }
                    }
                }
                let x = plane.sample(col, row);
                let d = if row > 0 && col + 1 < w {
                    plane.sample(col + 1, row - 1)
                } else {
                    0
                };
                let ghost i = row * wi + col;
                assert(context(s, wi, i).3 == d as int);
                let prediction = fixed_prediction(a, b, c);
                let prediction_residual = x as i32 - prediction;
                let kk = k(a, b, c, d);
                proof {
                    lemma_prediction_bounds(a, b, c);
                }
                encode_value(kk, prediction_residual, &mut bitstream);
                assert(bitstream.bits() =~= plane_code(s, wi, (i + 1) as nat)) by {
                    reveal_with_fuel(plane_code, 1);
                }
                c = b;
                b = d;
                a = x;
                col = col + 1;
                proof {
                    if col < w {
                        lemma_raster(wi, row as int, col as int);
                        if row > 0 {
                            lemma_raster(wi, row - 1, col as int);
                            lemma_raster(wi, row - 1, col - 1);
                        }
                        lemma_raster(wi, row as int, col - 1);
                    }
                }
            }
            if w > 0 {
                b = plane.sample(0, row);
            }
            row = row + 1;
            proof {
                if w > 0 {
                    assert(row * wi == (row - 1) * wi + wi) by (nonlinear_arith);
                }
            }
        }
        let mut bytes = bitstream.finish();
        proof {
            if w == 0 {
                assert(w * plane.height == 0);
            } else {
                assert(row * w == w * plane.height) by (nonlinear_arith)
                    requires
                        row == plane.height,
                ;
            }
        }
        let ghost old_dest = dest@;
        let ghost new_bytes = bytes@;
        dest.append(&mut bytes);
        assert(dest@.take(old_dest.len() as int) =~= old_dest);
        assert(dest@.skip(old_dest.len() as int) =~= new_bytes);
    }

    /// Decodes a plane of `width` by `height` samples from the start of `source`:
    /// the samples in raster order and the number of bytes the plane's stream took.
    pub fn decode(source: &[u8], width: usize, height: usize) -> (r: Result<(Vec<u16>, usize), BitstreamError>)
        requires
            source@.len() * 8 <= usize::MAX,
            width * height <= usize::MAX,
        ensures
            match plane_decode(bytes_bits(source@), 0, width as int, (width * height) as nat) {
                Some((t, p)) => r matches Ok((v, m)) && v@ == t && m == (p + 7) / 8,
                None => r == Err::<(Vec<u16>, usize), BitstreamError>(BitstreamError::UnexpectedEof),
            },
    {
        let mut bitstream = Bitstream::new(source);
        let ghost bits = bytes_bits(source@);
        let w = width;
        let ghost wi = w as int;
        let ghost n = (width * height) as nat;
        let mut out: Vec<u16> = Vec::new();
        let mut b: u16 = 0;
        let mut row: usize = 0;
        assert(out@ =~= Seq::<u16>::empty());
        assert(plane_decode(bits, 0, wi, 0) == Some((out@, 0int))) by {
            reveal_with_fuel(plane_decode, 1);
        }
        while row < height
            invariant
                bitstream.wf(),
                bitstream.bits() == bits,
                bits == bytes_bits(source@),
                w == width,
                wi == w,
                n == w * height,
                w * height <= usize::MAX,
                row <= height,
                out@.len() == row * w,
                plane_decode(bits, 0, wi, (row * w) as nat) == Some((out@, bitstream.pos() as int)),
                w > 0 ==> b as int == if row > 0 { out@[(row - 1) * wi] as int } else { 0 },
            decreases height - row,
        {
            let mut a: u16 = 0;
            let mut c: u16 = 0;
            let mut col: usize = 0;
            proof {
                if w > 0 {
                    lemma_raster(wi, row as int, 0);
                }
                assert(row * w + w <= w * height) by (nonlinear_arith)
                    requires
                        row < height,
                ;
            }
            while col < w
                invariant
                    bitstream.wf(),
                    bitstream.bits() == bits,
                    bits == bytes_bits(source@),
                    w == width,
                    wi == w,
                    n == w * height,
                    w * height <= usize::MAX,
                    row < height,
                    row * w + w <= w * height,
                    col <= w,
                    out@.len() == row * w + col,
                    plane_decode(bits, 0, wi, (row * w + col) as nat) == Some((out@, bitstream.pos() as int)),
                    col < w ==> context(out@, wi, row * wi + col) == (a as int, b as int, c as int, context(out@, wi, row * wi + col).3),
                decreases w - col,
            {
                let ghost i = row * wi + col;
                proof {
                    lemma_raster(wi, row as int, col as int);
                    if row > 0 && col + 1 < w {
                        lemma_raster(wi, row - 1, col + 1);
                        assert((row - 1) * wi + col + 1 <= row * wi + col);
                    }
                }
                let d = if row > 0 && col + 1 < w {
                    out[(row - 1) * w + col + 1]
                } else {
                    0
                };
                assert(context(out@, wi, i).3 == d as int);
                let prediction = fixed_prediction(a, b, c);
                let kk = k(a, b, c, d);
                proof {
                    lemma_prediction_bounds(a, b, c);
                }
                let ghost before = out@;
                let ghost pos = bitstream.pos() as int;
                proof {
                    lemma_decode_step(bits, wi, before, pos, i as nat);
                }
                let decoded = decode_value(kk, &mut bitstream);
                let prediction_residual = match decoded {
                    Ok(v) => v,
                    Err(e) => {
                        proof {
                            assert(i + 1 <= n) by (nonlinear_arith)
                                requires
                                    i == row * wi + col,
                                    col < wi,
                                    row * wi + wi <= n,
                            ;
                            lemma_decode_none(bits, wi, (i + 1) as nat, n);
                        }
                        return Err(e);
                    },
                };
                let v: i64 = prediction as i64 + prediction_residual as i64;
                let x: u16 = ((v + 0x1_0000_0000i64) as u64 % 0x1_0000u64) as u16;
                proof {
                    vstd::arithmetic::div_mod::lemma_mod_multiples_vanish(0x1_0000, v as int, 0x1_0000);
                    assert(x == wrap16(v as int));
                }
                out.push(x);
                proof {
                    if col + 1 < w {
                        lemma_context_next(out@, wi, row as int, col as int);
                        assert(out@.subrange(0, i) =~= before.subrange(0, i));
                        lemma_context_prefix(out@, before, wi, row as int, col as int);
                    }
                }
                c = b;
                b = d;
                a = x;
                col = col + 1;
            }
            if w > 0 {
                proof {
                    lemma_raster(wi, row as int, 0);
                }
                b = out[row * w];
            }
            row = row + 1;
            proof {
                assert(row * wi == (row - 1) * wi + wi) by (nonlinear_arith);
            }
        }
        proof {
            assert(row * w == w * height) by (nonlinear_arith)
                requires
                    row == height,
            ;
            bitstream.lemma_wf();
        }
        Ok((out, bitstream.bytes_consumed()))
    }
}

} // verus!
