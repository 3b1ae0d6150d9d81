use vstd::arithmetic::power2::{lemma2_to64, lemma_pow2_pos, lemma_pow2_strictly_increases, lemma_pow2_unfold, pow2};
use vstd::bits::lemma_u64_shr_is_div;
use vstd::prelude::*;

verus! {

/// Bit `i` of byte `b`, counting from the most significant bit (`i == 0`).
pub open spec fn byte_bit(b: u8, i: int) -> bool {
    (b >> ((7 - i) as u8)) & 1u8 == 1u8
}

/// The bits of a byte sequence, each byte most significant bit first.
pub open spec fn bytes_bits(s: Seq<u8>) -> Seq<bool> {
    Seq::new((s.len() * 8) as nat, |i: int| byte_bit(s[i / 8], i % 8))
}

/// The unsigned value of a bit sequence read most significant bit first.
pub open spec fn bits_value(s: Seq<bool>) -> nat
    decreases s.len(),
{
    if s.len() == 0 {
        0
    } else {
        2 * bits_value(s.drop_last()) + if s.last() { 1nat } else { 0nat }
    }
}

/// The low `n` bits of `v`, most significant first; positions above the width of
/// `v` are zero.
pub open spec fn field_bits(v: nat, n: nat) -> Seq<bool> {
    Seq::new(n, |i: int| (v / pow2((n - 1 - i) as nat)) % 2 == 1)
}

/// Number of zero bits that bring a sequence of `len` bits to a byte boundary.
pub open spec fn pad_len(len: nat) -> nat {
    ((8 - len % 8) % 8) as nat
}

/// `bits` followed by zero bits up to the next byte boundary.
pub open spec fn padded(bits: Seq<bool>) -> Seq<bool> {
    bits + Seq::new(pad_len(bits.len()), |i: int| false)
}

/// A value of `n` bits is below `2^n`.
pub proof fn lemma_bits_value_bound(s: Seq<bool>)
    ensures
        bits_value(s) < pow2(s.len()),
    decreases s.len(),
{
    if s.len() == 0 {
        lemma2_to64();
    } else {
        lemma_bits_value_bound(s.drop_last());
        lemma_pow2_unfold(s.len());
    }
}

/// Reading back the low `n` bits of `v` gives `v` modulo `2^n`.
pub proof fn lemma_field_bits_value(v: nat, n: nat)
    ensures
        bits_value(field_bits(v, n)) == v % pow2(n),
    decreases n,
{
    if n == 0 {
        lemma2_to64();
    } else {
        let f = field_bits(v, n);
        let g = field_bits(v / 2, (n - 1) as nat);
        assert forall|i: int| 0 <= i < n - 1 implies #[trigger] f.drop_last()[i] == g[i] by {
            let e = (n - 2 - i) as nat;
            lemma_pow2_unfold(e + 1);
            lemma_pow2_pos(e);
            vstd::arithmetic::div_mod::lemma_div_denominator(v as int, 2, pow2(e) as int);
        }
        assert(f.drop_last() =~= g);
        lemma2_to64();
        assert(f[n - 1] == ((v / pow2(0)) % 2 == 1));
        assert(v / 1 == v);
        assert(f.last() == (v % 2 == 1));
        assert(bits_value(f) == 2 * bits_value(g) + v % 2);
        lemma_field_bits_value(v / 2, (n - 1) as nat);
        lemma_pow2_unfold(n);
        lemma_pow2_pos((n - 1) as nat);
        vstd::arithmetic::div_mod::lemma_mod_breakdown(v as int, 2, pow2((n - 1) as nat) as int);
    }
}

/// Appending one byte appends its eight bits.
pub proof fn lemma_bytes_bits_push(s: Seq<u8>, b: u8)
    ensures
        bytes_bits(s.push(b)) =~= bytes_bits(s) + Seq::new(8, |i: int| byte_bit(b, i)),
{
    let l = bytes_bits(s.push(b));
    let r = bytes_bits(s) + Seq::new(8, |i: int| byte_bit(b, i));
    assert forall|i: int| 0 <= i < l.len() implies l[i] == r[i] by {
        if i < s.len() * 8 {
            assert(i / 8 < s.len());
        } else {
            vstd::arithmetic::div_mod::lemma_fundamental_div_mod_converse(i, 8, s.len() as int, i - s.len() * 8);
        }
    }
}

/// The bits of a concatenation are the concatenation of the bits.
pub proof fn lemma_bytes_bits_concat(s: Seq<u8>, t: Seq<u8>)
    ensures
        bytes_bits(s + t) =~= bytes_bits(s) + bytes_bits(t),
{
    let l = bytes_bits(s + t);
    let r = bytes_bits(s) + bytes_bits(t);
    assert forall|i: int| 0 <= i < l.len() implies l[i] == r[i] by {
        if i < s.len() * 8 {
            assert(i / 8 < s.len());
        } else {
            let j = i - s.len() * 8;
            vstd::arithmetic::div_mod::lemma_fundamental_div_mod(j, 8);
            vstd::arithmetic::div_mod::lemma_fundamental_div_mod_converse(i, 8, s.len() + j / 8, j % 8);
        }
    }
}

/// Skipping whole bytes skips their bits.
pub proof fn lemma_bytes_bits_skip(s: Seq<u8>, n: int)
    requires
        0 <= n <= s.len(),
    ensures
        bytes_bits(s.skip(n)) =~= bytes_bits(s).skip(n * 8),
{
    assert(s =~= s.take(n) + s.skip(n));
    lemma_bytes_bits_concat(s.take(n), s.skip(n));
}

/// The bits of a sequence of writes `(bits, n)`, one after the other.
pub open spec fn writes_bits(ws: Seq<(u64, nat)>) -> Seq<bool>
    decreases ws.len(),
{
    if ws.len() == 0 {
        Seq::empty()
    } else {
        writes_bits(ws.drop_last()) + field_bits(ws.last().0 as nat, ws.last().1)
    }
}

proof fn lemma_writes_bits_prefix(ws: Seq<(u64, nat)>, j: int)
    requires
        0 <= j <= ws.len(),
    ensures
        writes_bits(ws.take(j)).len() <= writes_bits(ws).len(),
        writes_bits(ws).subrange(0, writes_bits(ws.take(j)).len() as int) == writes_bits(ws.take(j)),
    decreases ws.len() - j,
{
    if j == ws.len() {
        assert(ws.take(j) =~= ws);
        assert(writes_bits(ws).subrange(0, writes_bits(ws).len() as int) =~= writes_bits(ws));
    } else {
        lemma_writes_bits_prefix(ws, j + 1);
        assert(ws.take(j + 1).drop_last() =~= ws.take(j));
        let a = writes_bits(ws.take(j));
        let b = writes_bits(ws.take(j + 1));
        assert(writes_bits(ws).subrange(0, a.len() as int) =~= b.subrange(0, a.len() as int));
    }
}

/// Bits written as a sequence of `(bits, n)` writes with `bits < 2^n` and then
/// flushed read back, `n` bits at a time, as the same sequence; the bytes number
/// the total of the widths divided by eight, rounded up.
pub proof fn lemma_bitstream_round_trip(ws: Seq<(u64, nat)>, bytes: Seq<u8>, j: int)
    requires
        forall|i: int| 0 <= i < ws.len() ==> (#[trigger] ws[i]).1 <= 64 && (ws[i].0 as nat) < pow2(ws[i].1),
        bytes_bits(bytes) == padded(writes_bits(ws)),
        0 <= j < ws.len(),
    ensures
        ({
            let start = writes_bits(ws.take(j)).len() as int;
            bits_value(bytes_bits(bytes).subrange(start, start + ws[j].1)) == ws[j].0
        }),
        bytes.len() == (writes_bits(ws).len() + 7) / 8,
{
    let start = writes_bits(ws.take(j)).len() as int;
    let (v, n) = ws[j];
    lemma_writes_bits_prefix(ws, j + 1);
    assert(ws.take(j + 1).drop_last() =~= ws.take(j));
    let all = writes_bits(ws);
    let upto = writes_bits(ws.take(j + 1));
    assert(bytes_bits(bytes).subrange(start, start + n) =~= field_bits(v as nat, n)) by {
        assert forall|i: int| 0 <= i < n implies bytes_bits(bytes).subrange(start, start + n)[i] == field_bits(v as nat, n)[i] by {
            assert(all.subrange(0, upto.len() as int)[start + i] == upto[start + i]);
        }
    }
    lemma_field_bits_value(v as nat, n);
    vstd::arithmetic::div_mod::lemma_small_mod(v as nat, pow2(n));
    let l = all.len();
    assert(bytes.len() * 8 == l + pad_len(l));
    assert(bytes.len() == (l + 7) / 8);
}

/// Where `bits` holds `x + y` at `pos`, it holds `x` at `pos` and `y` right after.
pub proof fn lemma_split_at(bits: Seq<bool>, pos: int, x: Seq<bool>, y: Seq<bool>)
    requires
        0 <= pos,
        pos + x.len() + y.len() <= bits.len(),
        bits.subrange(pos, pos + x.len() + y.len()) == x + y,
    ensures
        bits.subrange(pos, pos + x.len()) == x,
        bits.subrange(pos + x.len(), pos + x.len() + y.len()) == y,
{
    let whole = bits.subrange(pos, pos + x.len() + y.len());
    assert forall|j: int| 0 <= j < x.len() implies bits.subrange(pos, pos + x.len())[j] == x[j] by {
        assert(whole[j] == (x + y)[j]);
    }
    assert forall|j: int| 0 <= j < y.len() implies bits.subrange(pos + x.len(), pos + x.len() + y.len())[j] == y[j] by {
        assert(whole[x.len() + j] == (x + y)[x.len() + j]);
    }
    assert(bits.subrange(pos, pos + x.len()) =~= x);
    assert(bits.subrange(pos + x.len(), pos + x.len() + y.len()) =~= y);
}

/// Bytes are fixed by their bits.
pub proof fn lemma_bytes_bits_injective(s: Seq<u8>, t: Seq<u8>)
    requires
        bytes_bits(s) == bytes_bits(t),
    ensures
        s == t,
{
    assert(bytes_bits(s).len() == s.len() * 8);
    assert(bytes_bits(t).len() == t.len() * 8);
    assert(s.len() == t.len());
    assert forall|j: int| 0 <= j < s.len() implies s[j] == t[j] by {
        let a = s[j];
        let b = t[j];
        assert forall|i: int| 0 <= i < 8 implies byte_bit(a, i) == byte_bit(b, i) by {
            vstd::arithmetic::div_mod::lemma_fundamental_div_mod_converse(8 * j + i, 8, j, i);
            assert(8 * j + i < s.len() * 8);
            assert(bytes_bits(s)[8 * j + i] == byte_bit(s[j], i));
            assert(bytes_bits(t)[8 * j + i] == byte_bit(t[j], i));
        }
        assert(byte_bit(a, 0) == byte_bit(b, 0) && byte_bit(a, 1) == byte_bit(b, 1));
        assert(byte_bit(a, 2) == byte_bit(b, 2) && byte_bit(a, 3) == byte_bit(b, 3));
        assert(byte_bit(a, 4) == byte_bit(b, 4) && byte_bit(a, 5) == byte_bit(b, 5));
        assert(byte_bit(a, 6) == byte_bit(b, 6) && byte_bit(a, 7) == byte_bit(b, 7));
        assert(a == b) by (bit_vector)
            requires
                ((a >> 7u8) & 1u8 == 1u8) == ((b >> 7u8) & 1u8 == 1u8),
                ((a >> 6u8) & 1u8 == 1u8) == ((b >> 6u8) & 1u8 == 1u8),
                ((a >> 5u8) & 1u8 == 1u8) == ((b >> 5u8) & 1u8 == 1u8),
                ((a >> 4u8) & 1u8 == 1u8) == ((b >> 4u8) & 1u8 == 1u8),
                ((a >> 3u8) & 1u8 == 1u8) == ((b >> 3u8) & 1u8 == 1u8),
                ((a >> 2u8) & 1u8 == 1u8) == ((b >> 2u8) & 1u8 == 1u8),
                ((a >> 1u8) & 1u8 == 1u8) == ((b >> 1u8) & 1u8 == 1u8),
                ((a >> 0u8) & 1u8 == 1u8) == ((b >> 0u8) & 1u8 == 1u8),
        ;
    }
    assert(s =~= t);
}

/// The bits of bytes `lo..hi` are bits `8 * lo .. 8 * hi`.
pub proof fn lemma_bytes_bits_subrange(s: Seq<u8>, lo: int, hi: int)
    requires
        0 <= lo <= hi <= s.len(),
    ensures
        bytes_bits(s.subrange(lo, hi)) =~= bytes_bits(s).subrange(lo * 8, hi * 8),
{
    let k = s.skip(lo);
    lemma_bytes_bits_skip(s, lo);
    assert(k =~= s.subrange(lo, hi) + k.skip(hi - lo));
    lemma_bytes_bits_concat(s.subrange(lo, hi), k.skip(hi - lo));
    assert(bytes_bits(s.subrange(lo, hi)) =~= bytes_bits(k).take((hi - lo) * 8));
}

/// Error of a reader that runs out of input.
#[derive(Clone, Copy, Debug, PartialEq, Eq, Structural)]
pub enum BitstreamError {
    UnexpectedEof,
}

/// Reads bits, most significant first, from a byte slice.
pub struct Bitstream<'a> {
    inner: &'a [u8],
    position: usize,
}

impl<'a> Bitstream<'a> {
    /// All bits of the underlying bytes.
    pub closed spec fn bits(&self) -> Seq<bool> {
        bytes_bits(self.inner@)
    }

    /// Number of bits consumed so far.
    pub closed spec fn pos(&self) -> nat {
        self.position as nat
    }

    pub closed spec fn wf(&self) -> bool {
        self.inner@.len() * 8 <= usize::MAX && self.position <= self.inner@.len() * 8
    }

    pub proof fn lemma_wf(&self)
        requires
            self.wf(),
        ensures
            self.pos() <= self.bits().len() <= usize::MAX,
            self.bits().len() % 8 == 0,
    {
    }

    pub fn new(inner: &'a [u8]) -> (r: Self)
        requires
            inner@.len() * 8 <= usize::MAX,
        ensures
            r.wf(),
            r.bits() == bytes_bits(inner@),
            r.pos() == 0,
    {
        Bitstream { inner, position: 0 }
    }

    /// Number of whole bytes that reading so far has taken from the input.
    pub fn bytes_consumed(&self) -> (r: usize)
        requires
            self.wf(),
        ensures
            r == (self.pos() + 7) / 8,
    {
        self.position / 8 + if self.position % 8 == 0 { 0 } else { 1 }
    }

    /// The next `n` bits as an unsigned value, without consuming them.
    pub fn next_bits(&self, n: usize) -> (r: Result<u64, BitstreamError>)
        requires
            self.wf(),
            n <= 64,
        ensures
            self.pos() + n <= self.bits().len() ==> r == Ok::<u64, BitstreamError>(
                bits_value(self.bits().subrange(self.pos() as int, self.pos() + n)) as u64,
            ),
            self.pos() + n > self.bits().len() ==> r == Err::<u64, BitstreamError>(
                BitstreamError::UnexpectedEof,
            ),
    {
        let total = self.inner.len() * 8;
        if n > total - self.position {
            return Err(BitstreamError::UnexpectedEof);
        }
        let ghost bits = self.bits();
        let ghost start = self.position as int;
        let mut v: u64 = 0;
        let mut i: usize = 0;
        while i < n
            invariant
                self.wf(),
                bits == self.bits(),
                start == self.position,
                n <= 64,
                i <= n,
                self.position + n <= total,
                total == self.inner@.len() * 8,
                v as nat == bits_value(bits.subrange(start, start + i)),
            decreases n - i,
        {
            let p = self.position + i;
            let byte = self.inner[p / 8];
            let bit = (byte >> ((7 - p % 8) as u8)) & 1u8;
            proof {
                assert(bit <= 1) by (bit_vector)
                    requires
                        bit == (byte >> ((7 - p % 8) as u8)) & 1u8,
                ;
                assert(bits[p as int] == (bit == 1));
                let s = bits.subrange(start, start + i + 1);
                assert(s.drop_last() =~= bits.subrange(start, start + i));
                lemma_bits_value_bound(bits.subrange(start, start + i));
                lemma2_to64();
                vstd::arithmetic::power2::lemma2_to64_rest();
                if i < 63 {
                    lemma_pow2_strictly_increases(i as nat, 63);
                }
            }
            v = v * 2 + bit as u64;
            i += 1;
        }
        Ok(v)
    }

    /// The next `n` bits as an unsigned value; they are consumed.
    pub fn read_bits(&mut self, n: usize) -> (r: Result<u64, BitstreamError>)
        requires
            old(self).wf(),
            n <= 64,
        ensures
            final(self).wf(),
            final(self).bits() == old(self).bits(),
            old(self).pos() + n <= old(self).bits().len() ==> r == Ok::<u64, BitstreamError>(
                bits_value(old(self).bits().subrange(old(self).pos() as int, old(self).pos() + n)) as u64,
            ) && final(self).pos() == old(self).pos() + n,
            old(self).pos() + n > old(self).bits().len() ==> r == Err::<u64, BitstreamError>(
                BitstreamError::UnexpectedEof,
            ) && final(self).pos() == old(self).pos(),
    {
        let ret = self.next_bits(n)?;
        self.position = self.position + n;
        Ok(ret)
    }
}

/// Writes bits, most significant first, into a byte buffer; a partial byte is
/// held back until it is complete or the writer is flushed.
pub struct BitstreamWriter {
    inner: Vec<u8>,
    next_bits: u8,
    next_bits_length: usize,
}

impl BitstreamWriter {
    /// All bits written so far, including those not yet drained into bytes.
    pub closed spec fn bits(&self) -> Seq<bool> {
        bytes_bits(self.inner@) + Seq::new(self.next_bits_length as nat, |i: int| byte_bit(self.next_bits, i))
    }

    /// The complete bytes drained so far.
    pub closed spec fn bytes(&self) -> Seq<u8> {
        self.inner@
    }

    pub closed spec fn wf(&self) -> bool {
        &&& self.next_bits_length < 8
        &&& self.next_bits & (0xffu8 >> self.next_bits_length as u8) == 0
    }

    /// The drained bytes hold all but the last fewer-than-eight bits written.
    pub proof fn lemma_wf(&self)
        requires
            self.wf(),
        ensures
            self.bytes().len() * 8 <= self.bits().len() < self.bytes().len() * 8 + 8,
            self.bits().take((self.bytes().len() * 8) as int) == bytes_bits(self.bytes()),
    {
        assert(self.bits().take((self.bytes().len() * 8) as int) =~= bytes_bits(self.bytes()));
    }

    pub fn new(inner: Vec<u8>) -> (r: Self)
        ensures
            r.wf(),
            r.bytes() == inner@,
            r.bits() == bytes_bits(inner@),
    {
        let r = BitstreamWriter { inner, next_bits: 0, next_bits_length: 0 };
        assert(0u8 & (0xffu8 >> 0u8) == 0) by (bit_vector);
        assert(r.bits() =~= bytes_bits(inner@));
        r
    }

    fn push_bit(&mut self, bit: bool)
        requires
            old(self).wf(),
        ensures
            final(self).wf(),
            final(self).bits() == old(self).bits().push(bit),
            final(self).bytes().len() >= old(self).bytes().len(),
            final(self).bytes().take(old(self).bytes().len() as int) == old(self).bytes(),
    {
        let len = self.next_bits_length as u8;
        let cur = self.next_bits;
        let nb: u8 = if bit { cur | (0x80u8 >> len) } else { cur };
        proof {
            let pending = Seq::new(len as nat, |i: int| byte_bit(cur, i));
            let next = Seq::new(len as nat + 1, |i: int| byte_bit(nb, i));
            assert forall|j: int| 0 <= j < len implies #[trigger] next[j] == pending[j] by {
                let jj = (7 - j) as u8;
                assert((nb >> jj) & 1u8 == (cur >> jj) & 1u8) by (bit_vector)
                    requires
                        len < 8,
                        7 - len < jj <= 7,
                        nb == cur | (0x80u8 >> len) || nb == cur,
                ;
            }
            let jl = (7 - len) as u8;
            assert(((nb >> jl) & 1u8 == 1u8) == bit) by (bit_vector)
                requires
                    len < 8,
                    jl == 7 - len,
                    cur & (0xffu8 >> len) == 0,
                    bit ==> nb == cur | (0x80u8 >> len),
                    !bit ==> nb == cur,
            ;
            assert(next =~= pending.push(bit));
            if len + 1 < 8 {
                let l1 = (len + 1) as u8;
                assert(nb & (0xffu8 >> l1) == 0) by (bit_vector)
                    requires
                        len < 7,
                        l1 == len + 1,
                        cur & (0xffu8 >> len) == 0,
                        nb == cur | (0x80u8 >> len) || nb == cur,
                ;
            }
        }
        if len == 7 {
            proof {
                lemma_bytes_bits_push(self.inner@, nb);
            }
            self.inner.push(nb);
            self.next_bits = 0;
            self.next_bits_length = 0;
            assert(0u8 & (0xffu8 >> 0u8) == 0) by (bit_vector);
            assert(self.bits() =~= old(self).bits().push(bit));
            assert(self.bytes().take(old(self).bytes().len() as int) =~= old(self).bytes());
        } else {
            self.next_bits = nb;
            self.next_bits_length = self.next_bits_length + 1;
            assert(self.bits() =~= old(self).bits().push(bit));
            assert(self.bytes().take(old(self).bytes().len() as int) =~= old(self).bytes());
        }
    }

    /// Appends the low `len` bits of `bits`, most significant first; for `len`
    /// above 64 the extra leading bits are zero. Complete bytes are drained at once.
    pub fn write_bits(&mut self, bits: u64, len: usize)
        requires
            old(self).wf(),
        ensures
            final(self).wf(),
            final(self).bits() == old(self).bits() + field_bits(bits as nat, len as nat),
            final(self).bytes().len() * 8 <= final(self).bits().len(),
            final(self).bits().len() < final(self).bytes().len() * 8 + 8,
            final(self).bytes().take(old(self).bytes().len() as int) == old(self).bytes(),
            final(self).bits().take((final(self).bytes().len() * 8) as int) == bytes_bits(final(self).bytes()),
    {
        let ghost field = field_bits(bits as nat, len as nat);
        let mut i: usize = 0;
        while i < len
            invariant
                self.wf(),
                i <= len,
                field == field_bits(bits as nat, len as nat),
                self.bits() == old(self).bits() + field.take(i as int),
                self.bytes().len() >= old(self).bytes().len(),
                self.bytes().take(old(self).bytes().len() as int) == old(self).bytes(),
            decreases len - i,
        {
            let sh = len - 1 - i;
            let bit = if sh < 64 {
                (bits >> (sh as u64)) & 1u64 == 1u64
            } else {
                false
            };
            proof {
                lemma_pow2_pos(sh as nat);
                if sh < 64 {
                    lemma_u64_shr_is_div(bits, sh as u64);
                    let q = bits >> (sh as u64);
                    assert((q & 1u64 == 1u64) == (q % 2 == 1)) by (bit_vector);
                } else {
                    lemma2_to64();
                    if sh > 64 {
                        lemma_pow2_strictly_increases(64, sh as nat);
                    }
                    assert(bits as nat / pow2(sh as nat) == 0) by {
                        vstd::arithmetic::div_mod::lemma_basic_div(bits as int, pow2(sh as nat) as int);
                    }
                }
                assert(field[i as int] == bit);
                assert(field.take(i + 1) =~= field.take(i as int).push(bit));
            }
            let ghost mid = self.bytes();
            self.push_bit(bit);
            assert(self.bytes().take(old(self).bytes().len() as int) =~= old(self).bytes()) by {
                assert forall|j: int| 0 <= j < old(self).bytes().len() implies self.bytes()[j] == old(self).bytes()[j] by {
                    assert(self.bytes().take(mid.len() as int)[j] == mid[j]);
                    assert(mid.take(old(self).bytes().len() as int)[j] == old(self).bytes()[j]);
                }
            }
            i += 1;
        }
        assert(field.take(len as int) =~= field);
        proof {
            self.lemma_wf();
        }
    }

    /// Pads with zero bits to the next byte boundary and drains the last byte.
    /// An aligned writer is left as it is.
    pub fn flush(&mut self)
        requires
            old(self).wf(),
        ensures
            final(self).wf(),
            bytes_bits(final(self).bytes()) == padded(old(self).bits()),
            final(self).bits() == bytes_bits(final(self).bytes()),
            old(self).bits().len() % 8 == 0 ==> final(self).bytes() == old(self).bytes(),
            final(self).bytes().len() == (old(self).bits().len() + 7) / 8,
            final(self).bytes().take(old(self).bytes().len() as int) == old(self).bytes(),
    {
        let ghost before = self.bits();
        proof {
            let n = self.inner@.len() * 8 + self.next_bits_length;
            assert(before.len() == n);
            assert(n % 8 == self.next_bits_length) by {
                vstd::arithmetic::div_mod::lemma_fundamental_div_mod_converse(
                    n as int, 8, self.inner@.len() as int, self.next_bits_length as int);
            }
        }
        if self.next_bits_length > 0 {
            let nb = self.next_bits;
            let len = self.next_bits_length as u8;
            proof {
                lemma_bytes_bits_push(self.inner@, nb);
                let tail = Seq::new(8, |i: int| byte_bit(nb, i));
                let pad = Seq::new(pad_len(before.len()), |i: int| false);
                assert forall|j: int| len <= j < 8 implies !#[trigger] tail[j] by {
                    let jj = (7 - j) as u8;
                    assert((nb >> jj) & 1u8 == 0u8) by (bit_vector)
                        requires
                            jj < 8 - len,
                            len < 8,
                            nb & (0xffu8 >> len) == 0,
                    ;
                }
                assert(bytes_bits(self.inner@.push(nb)) =~= padded(before));
            }
            self.inner.push(nb);
            self.next_bits = 0;
            self.next_bits_length = 0;
            assert(0u8 & (0xffu8 >> 0u8) == 0) by (bit_vector);
        } else {
            assert(padded(before) =~= before);
        }
        assert(self.bits() =~= bytes_bits(self.bytes()));
        assert(self.bytes().take(old(self).bytes().len() as int) =~= old(self).bytes());
    }

    /// The complete bytes written so far.
    pub fn get_ref(&self) -> (r: &Vec<u8>)
        ensures
            r@ == self.bytes(),
    {
        &self.inner
    }

    /// Flushes and hands back the bytes. A writer dropped without `flush` or
    /// `finish` loses the bits of its last partial byte.
    pub fn finish(self) -> (r: Vec<u8>)
        requires
            self.wf(),
        ensures
            bytes_bits(r@) == padded(self.bits()),
            self.bits().len() % 8 == 0 ==> r@ == self.bytes(),
    {
        let mut w = self;
        w.flush();
        w.inner
    }
}

} // verus!
