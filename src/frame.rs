use crate::bitstream::{
    bits_value, byte_bit, bytes_bits, field_bits, lemma_bits_value_bound, lemma_bytes_bits_concat,
    lemma_bytes_bits_skip, lemma_bytes_bits_subrange, lemma_field_bits_value, lemma_split_at, pad_len, padded, Bitstream,
    BitstreamError, BitstreamWriter,
};
use crate::codec::{
    lemma_plane_code_len, lemma_plane_decode_facts, lemma_plane_round_trip, plane_code, plane_decode, Codec,
};
use vstd::arithmetic::power2::{lemma2_to64, pow2};
use vstd::prelude::*;

verus! {

/// A window of `width` by `height` samples over a buffer: sample (`col`, `row`)
/// is at `base + row * row_stride + col * sample_stride`.
pub struct Plane<'a> {
    pub data: &'a [u16],
    pub base: usize,
    pub width: usize,
    pub height: usize,
    pub sample_stride: usize,
    pub row_stride: usize,
}

impl<'a> Plane<'a> {
    pub open spec fn index(&self, row: int, col: int) -> int {
        self.base + row * self.row_stride + col * self.sample_stride
    }

    /// Every sample of the window lies inside the buffer.
    pub open spec fn wf(&self) -> bool {
        &&& self.width * self.height <= usize::MAX
        &&& (self.width > 0 && self.height > 0) ==> self.index(
            self.height - 1,
            self.width - 1,
        ) < self.data@.len()
    }

    /// The samples in raster order.
    pub open spec fn samples(&self) -> Seq<u16> {
        Seq::new(
            (self.width * self.height) as nat,
            |i: int| self.data@[self.index(i / self.width as int, i % self.width as int)],
        )
    }

    pub proof fn lemma_index(&self, row: int, col: int)
        requires
            self.wf(),
            0 <= row < self.height,
            0 <= col < self.width,
        ensures
            0 <= self.index(row, col) < self.data@.len(),
            row * self.width + col < self.width * self.height,
            self.samples()[row * self.width + col] == self.data@[self.index(row, col)],
    {
        let w = self.width as int;
        let h = self.height as int;
        assert(row * self.row_stride <= (h - 1) * self.row_stride) by (nonlinear_arith)
            requires
                row <= h - 1,
        ;
        assert(col * self.sample_stride <= (w - 1) * self.sample_stride) by (nonlinear_arith)
            requires
                col <= w - 1,
        ;
        assert(0 <= row * self.row_stride && 0 <= col * self.sample_stride) by (nonlinear_arith)
            requires
                row >= 0,
                col >= 0,
        ;
        lemma_raster(w, row, col);
        assert(row * w + col < w * h) by (nonlinear_arith)
            requires
                row <= h - 1,
                0 <= col < w,
        {
            assert((row + 1) * w <= h * w) by (nonlinear_arith)
                requires
                    row + 1 <= h,
                    w >= 0,
            ;
        }
    }

    pub fn sample(&self, col: usize, row: usize) -> (r: u16)
        requires
            self.wf(),
            col < self.width,
            row < self.height,
        ensures
            r == self.data@[self.index(row as int, col as int)],
            r == self.samples()[row * self.width + col],
    {
        // an index below the buffer's length fits in usize
        let _len = self.data.len();
        proof {
            self.lemma_index(row as int, col as int);
        }
        self.data[self.base + row * self.row_stride + col * self.sample_stride]
    }
}

/// Row and column of a raster position.
pub proof fn lemma_raster(w: int, row: int, col: int)
    requires
        0 <= row,
        0 <= col < w,
    ensures
        (row * w + col) / w == row,
        (row * w + col) % w == col,
        row * w + col >= w <==> row > 0,
        row > 0 ==> row * w + col - w == (row - 1) * w + col,
{
    vstd::arithmetic::div_mod::lemma_fundamental_div_mod_converse(row * w + col, w, row, col);
    if row > 0 {
        assert(row * w >= w) by (nonlinear_arith)
            requires
                row >= 1,
                w > 0,
        ;
        assert(row * w - w == (row - 1) * w) by (nonlinear_arith);
    }
}

/// Samples of plane `p` of `count` interleaved planes, `n` samples each.
pub open spec fn plane_of(data: Seq<u16>, count: int, p: int, n: nat) -> Seq<u16> {
    Seq::new(n, |i: int| data[i * count + p])
}

/// The streams of the first `m` planes, each padded to whole bytes.
pub open spec fn planes_code(data: Seq<u16>, count: int, w: int, n: nat, m: nat) -> Seq<bool>
    decreases m,
{
    if m == 0 {
        Seq::empty()
    } else {
        planes_code(data, count, w, n, (m - 1) as nat) + padded(
            plane_code(plane_of(data, count, m - 1, n), w, n),
        )
    }
}

/// Number of planes that a buffer of `len` samples holds at `w` by `h`.
pub open spec fn plane_count(len: int, w: int, h: int) -> int {
    len / (w * h)
}

/// The encoded frame as bits: a byte holding the plane count minus one in its
/// top two bits, then each plane's stream.
pub open spec fn frame_code(data: Seq<u16>, w: int, h: int) -> Seq<bool> {
    let count = plane_count(data.len() as int, w, h);
    padded(field_bits((count - 1) as nat, 2)) + planes_code(data, count, w, (w * h) as nat, count as nat)
}

/// Decoding `m` planes of `n` samples whose streams start at byte `start`: the
/// planes and the byte after the last stream.
pub open spec fn planes_decode(bytes: Seq<u8>, start: int, w: int, n: nat, m: nat) -> Option<(Seq<Seq<u16>>, int)>
    decreases m,
{
    if m == 0 {
        Some((Seq::empty(), start))
    } else {
        match planes_decode(bytes, start, w, n, (m - 1) as nat) {
            None => None,
            Some((ps, off)) => match plane_decode(bytes_bits(bytes.skip(off)), 0, w, n) {
                None => None,
                Some((t, p)) => Some((ps.push(t), off + (p + 7) / 8)),
            },
        }
    }
}

/// Planes of `n` samples each, interleaved sample by sample.
pub open spec fn interleave(planes: Seq<Seq<u16>>, count: int, n: nat) -> Seq<u16> {
    Seq::new(n * count as nat, |j: int| planes[j % count][j / count])
}

/// What decoding a frame of `w` by `h` from `bytes` gives: its samples, or
/// `None` where the bytes end too soon.
pub open spec fn frame_decode(bytes: Seq<u8>, w: int, h: int) -> Option<Seq<u16>> {
    if bytes.len() == 0 {
        None
    } else {
        let count = bits_value(bytes_bits(bytes).take(2)) + 1;
        match planes_decode(bytes, 1, w, (w * h) as nat, count) {
            None => None,
            Some((ps, _)) => Some(interleave(ps, count as int, (w * h) as nat)),
        }
    }
}

/// An owned image of `width` by `height` pixels with one to four 16-bit
/// samples each, stored pixel by pixel.
pub struct RGB48Frame {
    pub data: Vec<u16>,
    pub width: usize,
    pub height: usize,
}

impl RGB48Frame {
    pub open spec fn n_planes(&self) -> int {
        plane_count(self.data@.len() as int, self.width as int, self.height as int)
    }

    pub open spec fn wf(&self) -> bool {
        &&& self.width * self.height > 0
        &&& 1 <= self.n_planes() <= 4
        &&& self.data@.len() == self.width * self.height * self.n_planes()
    }

    /// A view of each plane.
    pub fn planes(&self) -> (r: Vec<Plane<'_>>)
        requires
            self.wf(),
        ensures
            r@.len() == self.n_planes(),
            forall|p: int|
                0 <= p < r@.len() ==> {
                    &&& (#[trigger] r@[p]).wf()
                    &&& r@[p].width == self.width
                    &&& r@[p].height == self.height
                    &&& r@[p].data@ == self.data@
                    &&& r@[p].base == p
                    &&& r@[p].sample_stride == self.n_planes()
                    &&& r@[p].row_stride == self.n_planes() * self.width
                    &&& r@[p].samples() == plane_of(
                        self.data@,
                        self.n_planes(),
                        p,
                        (self.width * self.height) as nat,
                    )
                },
    {
        let len = self.data.len();
        proof {
            assert(self.width * self.height <= self.width * self.height * self.n_planes()) by (nonlinear_arith)
                requires
                    self.n_planes() >= 1,
                    self.width * self.height > 0,
            ;
        }
        let n_planes = len / (self.width * self.height);
        let mut r: Vec<Plane<'_>> = Vec::new();
        let mut p: usize = 0;
        while p < n_planes
            invariant
                self.wf(),
                len == self.data@.len(),
                n_planes == self.n_planes(),
                p <= n_planes,
                r@.len() == p,
                forall|q: int|
                    0 <= q < p ==> {
                        &&& (#[trigger] r@[q]).wf()
                        &&& r@[q].width == self.width
                        &&& r@[q].height == self.height
                        &&& r@[q].data@ == self.data@
                        &&& r@[q].base == q
                        &&& r@[q].sample_stride == n_planes
                        &&& r@[q].row_stride == n_planes * self.width
                        &&& r@[q].samples() == plane_of(
                            self.data@,
                            n_planes as int,
                            q,
                            (self.width * self.height) as nat,
                        )
                    },
            decreases n_planes - p,
        {
            let w = self.width;
            let h = self.height;
            proof {
                assert(n_planes * w <= n_planes * w * h) by (nonlinear_arith)
                    requires
                        w * h > 0,
                ;
                assert(n_planes * w * h == w * h * n_planes) by (nonlinear_arith);
            }
            let plane = Plane {
                data: self.data.as_slice(),
                base: p,
                width: w,
                height: h,
                sample_stride: n_planes,
                row_stride: n_planes * w,
            };
            proof {
                lemma_plane_layout(plane, n_planes as int);
            }
            r.push(plane);
            p = p + 1;
        }
        r
    }

    /// Decodes a frame of `width` by `height` pixels from the start of `source`.
    pub fn decode(source: &[u8], width: usize, height: usize) -> (r: Result<RGB48Frame, BitstreamError>)
        requires
            source@.len() * 8 <= usize::MAX,
            width * height * 4 <= usize::MAX,
        ensures
            match frame_decode(source@, width as int, height as int) {
                Some(d) => r matches Ok(f) && f.data@ == d && f.width == width && f.height == height,
                None => r == Err::<RGB48Frame, BitstreamError>(BitstreamError::UnexpectedEof),
            },
    {
        let mut header = Bitstream::new(source);
        let ghost bits = bytes_bits(source@);
        let hdr = match header.read_bits(2) {
            Ok(v) => v,
            Err(e) => {
                return Err(e);
            },
        };
        proof {
            assert(bits.subrange(0, 2) =~= bits.take(2));
            lemma_bits_value_bound(bits.take(2));
            vstd::arithmetic::power2::lemma2_to64();
        }
        let n_planes: usize = hdr as usize + 1;
        let n: usize = width * height;
        proof {
            assert(n * n_planes <= width * height * 4) by (nonlinear_arith)
                requires
                    n == width * height,
                    n_planes <= 4,
            ;
        }
        let mut data: Vec<u16> = vec![0u16; n * n_planes];
        assert forall|i: int, q: int|
            0 <= i < n && 0 <= q < n_planes implies data@[#[trigger] (i * n_planes + q)] == 0 by {
            assert(i * n_planes + q < n * n_planes) by (nonlinear_arith)
                requires
                    i < n,
                    q < n_planes,
                    0 <= i,
                    0 <= q,
            ;
        }
        let mut offset: usize = 1;
        let ghost mut planes: Seq<Seq<u16>> = Seq::empty();
        let mut p: usize = 0;
        while p < n_planes
            invariant
                source@.len() * 8 <= usize::MAX,
                source@.len() > 0,
                n_planes == bits_value(bytes_bits(source@).take(2)) + 1,
                1 <= n_planes <= 4,
                n == width * height,
                n * n_planes <= usize::MAX,
                width * height * 4 <= usize::MAX,
                p <= n_planes,
                planes_decode(source@, 1, width as int, n as nat, p as nat) == Some((planes, offset as int)),
                1 <= offset <= source@.len(),
                planes.len() == p,
                forall|q: int| 0 <= q < p ==> (#[trigger] planes[q]).len() == n,
                data@.len() == n * n_planes,
                forall|i: int, q: int|
                    0 <= i < n && 0 <= q < n_planes ==> data@[#[trigger] (i * n_planes + q)] == if q < p {
                        planes[q][i]
                    } else {
                        0
                    },
            decreases n_planes - p,
        {
            let rest = vstd::slice::slice_subrange(source, offset, source.len());
            assert(rest@ =~= source@.skip(offset as int));
            proof {
                lemma_bytes_bits_skip(source@, offset as int);
                lemma_plane_decode_facts(bytes_bits(rest@), 0, width as int, n as nat);
            }
            let decoded = Codec::decode(rest, width, height);
            let (samples, used) = match decoded {
                Ok(x) => x,
                Err(e) => {
                    proof {
                        assert(plane_decode(bytes_bits(source@.skip(offset as int)), 0, width as int, n as nat) is None);
                        assert(planes_decode(source@, 1, width as int, n as nat, (p + 1) as nat) is None);
                        lemma_planes_decode_none(source@, width as int, n as nat, (p + 1) as nat, n_planes as nat);
                    }
                    return Err(e);
                },
            };
            let mut i: usize = 0;
            while i < n
                invariant
                    1 <= n_planes <= 4,
                    p < n_planes,
                    n * n_planes <= usize::MAX,
                    samples@.len() == n,
                    i <= n,
                    data@.len() == n * n_planes,
                    forall|i2: int, q: int|
                        0 <= i2 < n && 0 <= q < n_planes ==> data@[#[trigger] (i2 * n_planes + q)] == if q < p {
                            planes[q][i2]
                        } else if q == p && i2 < i {
                            samples@[i2]
                        } else {
                            0
                        },
                decreases n - i,
            {
                proof {
                    lemma_raster(n_planes as int, i as int, p as int);
                    assert((i + 1) * n_planes <= n * n_planes) by (nonlinear_arith)
                        requires
                            i < n,
                    ;
                }
                let ghost before = data@;
                assert(i * n_planes + p < n * n_planes) by (nonlinear_arith)
                    requires
                        i < n,
                        p < n_planes,
                ;
                let idx = i * n_planes + p;
                data.set(idx, samples[i]);
                proof {
                    assert forall|i2: int, q: int|
                        0 <= i2 < n && 0 <= q < n_planes implies data@[#[trigger] (i2 * n_planes + q)] == if q < p {
                            planes[q][i2]
                        } else if q == p && i2 < i + 1 {
                            samples@[i2]
                        } else {
                            0
                        } by {
                        lemma_raster(n_planes as int, i2, q);
                        assert(i2 * n_planes + q < n * n_planes) by (nonlinear_arith)
                            requires
                                i2 < n,
                                q < n_planes,
                        ;
                    }
                }
                i = i + 1;
            }
            offset = offset + used;
            proof {
                planes = planes.push(samples@);
            }
            p = p + 1;
        }
        proof {
            let d = interleave(planes, n_planes as int, n as nat);
            assert forall|j: int| 0 <= j < data@.len() implies data@[j] == d[j] by {
                vstd::arithmetic::div_mod::lemma_fundamental_div_mod(j, n_planes as int);
                let i2 = j / n_planes as int;
                let q = j % n_planes as int;
                assert(j == i2 * n_planes + q) by (nonlinear_arith)
                    requires
                        j == n_planes * (j / n_planes as int) + j % n_planes as int,
                        i2 == j / n_planes as int,
                        q == j % n_planes as int,
                ;
                assert(0 <= i2 < n) by {
                    vstd::arithmetic::div_mod::lemma_div_pos_is_pos(j, n_planes as int);
                    assert(i2 < n) by (nonlinear_arith)
                        requires
                            j == i2 * n_planes + q,
                            0 <= q,
                            j < n * n_planes,
                            n_planes > 0,
                    ;
                }
            }
            assert(data@ =~= d);
        }
        Ok(RGB48Frame { data, width, height })
    }

    /// Appends the encoded frame to `dest`: a header byte with the plane count
    /// minus one in its top two bits, then each plane's stream.
    pub fn encode(&self, dest: &mut Vec<u8>)
        requires
            self.wf(),
        ensures
            final(dest)@.len() >= old(dest)@.len(),
            final(dest)@.take(old(dest)@.len() as int) == old(dest)@,
            bytes_bits(final(dest)@.skip(old(dest)@.len() as int)) == frame_code(
                self.data@,
                self.width as int,
                self.height as int,
            ),
    {
        let planes = self.planes();
        let ghost count = self.n_planes();
        let ghost n = (self.width * self.height) as nat;
        let ghost start = dest@;
        let mut bitstream = BitstreamWriter::new(Vec::new());
        bitstream.write_bits((planes.len() - 1) as u64, 2);
        let mut header = bitstream.finish();
        proof {
            assert(bytes_bits(Seq::<u8>::empty()) =~= Seq::<bool>::empty());
            assert(Seq::<bool>::empty() + field_bits((count - 1) as nat, 2) =~= field_bits((count - 1) as nat, 2));
            lemma_bytes_bits_concat(start, header@);
        }
        dest.append(&mut header);
        proof {
            assert(dest@.take(start.len() as int) =~= start);
            assert(dest@.skip(start.len() as int) =~= dest@.subrange(start.len() as int, dest@.len() as int));
        }
        let mut p: usize = 0;
        while p < planes.len()
            invariant
                self.wf(),
                count == self.n_planes(),
                n == self.width * self.height,
                planes@.len() == count,
                forall|q: int|
                    0 <= q < planes@.len() ==> {
                        &&& (#[trigger] planes@[q]).wf()
                        &&& planes@[q].width == self.width
                        &&& planes@[q].height == self.height
                        &&& planes@[q].samples() == plane_of(self.data@, count, q, n)
                    },
                p <= planes@.len(),
                dest@.len() >= start.len(),
                dest@.take(start.len() as int) == start,
                bytes_bits(dest@.skip(start.len() as int)) == padded(field_bits((count - 1) as nat, 2))
                    + planes_code(self.data@, count, self.width as int, n, p as nat),
            decreases planes@.len() - p,
        {
            let ghost before = dest@;
            Codec::encode(&planes[p], dest);
            proof {
                let chunk = dest@.skip(before.len() as int);
                assert(dest@ =~= before + chunk);
                assert(dest@.skip(start.len() as int) =~= before.skip(start.len() as int) + chunk);
                lemma_bytes_bits_concat(before.skip(start.len() as int), chunk);
                assert(dest@.take(start.len() as int) =~= before.take(start.len() as int));
            }
            p = p + 1;
            proof {
                assert(padded(field_bits((count - 1) as nat, 2)) + planes_code(self.data@, count, self.width as int, n, p as nat)
                    =~= padded(field_bits((count - 1) as nat, 2)) + planes_code(self.data@, count, self.width as int, n, (p - 1) as nat)
                    + padded(plane_code(plane_of(self.data@, count, p - 1, n), self.width as int, n)));
            }
        }
    }
}

/// Once a plane cannot be decoded, neither can the frame.
proof fn lemma_planes_decode_none(bytes: Seq<u8>, w: int, n: nat, m: nat, count: nat)
    requires
        m <= count,
        planes_decode(bytes, 1, w, n, m) is None,
    ensures
        planes_decode(bytes, 1, w, n, count) is None,
    decreases count - m,
{
    if m < count {
        lemma_planes_decode_none(bytes, w, n, m + 1, count);
    }
}

/// Decoding the streams of the first `m` planes gives those planes back.
proof fn lemma_planes_round_trip(data: Seq<u16>, count: int, w: int, n: nat, bytes: Seq<u8>, m: nat)
    requires
        w > 0,
        count >= 1,
        8 + planes_code(data, count, w, n, m).len() <= bytes_bits(bytes).len(),
        bytes_bits(bytes).subrange(8, 8 + planes_code(data, count, w, n, m).len() as int)
            == planes_code(data, count, w, n, m),
    ensures
        planes_code(data, count, w, n, m).len() % 8 == 0,
        planes_decode(bytes, 1, w, n, m) == Some((
            Seq::new(m, |q: int| plane_of(data, count, q, n)),
            1 + planes_code(data, count, w, n, m).len() as int / 8,
        )),
    decreases m,
{
    if m == 0 {
        assert(Seq::new(0, |q: int| plane_of(data, count, q, n)) =~= Seq::<Seq<u16>>::empty());
    } else {
        let prev = planes_code(data, count, w, n, (m - 1) as nat);
        let plane = plane_of(data, count, m - 1, n);
        let code = plane_code(plane, w, n);
        assert(planes_code(data, count, w, n, m) == prev + padded(code));
        lemma_split_at(bytes_bits(bytes), 8, prev, padded(code));
        lemma_planes_round_trip(data, count, w, n, bytes, (m - 1) as nat);
        let off = 1 + prev.len() as int / 8;
        lemma_plane_after(bytes, off, code, plane, w, n);
        lemma_pad_div(code.len());
        lemma_planes_decode_step(bytes, w, n, (m - 1) as nat);
        assert(Seq::new((m - 1) as nat, |q: int| plane_of(data, count, q, n)).push(plane)
            =~= Seq::new(m, |q: int| plane_of(data, count, q, n)));
    }
}

/// A plane's padded stream starting at byte `off` decodes to the plane.
proof fn lemma_plane_after(bytes: Seq<u8>, off: int, code: Seq<bool>, plane: Seq<u16>, w: int, n: nat)
    requires
        w > 0,
        plane.len() == n,
        code == plane_code(plane, w, n),
        0 <= off,
        off * 8 + padded(code).len() <= bytes_bits(bytes).len(),
        bytes_bits(bytes).subrange(off * 8, off * 8 + padded(code).len()) == padded(code),
    ensures
        plane_decode(bytes_bits(bytes.skip(off)), 0, w, n) == Some((plane, code.len() as int)),
{
    let bb = bytes_bits(bytes);
    let zeros = Seq::new(pad_len(code.len()), |i: int| false);
    assert(padded(code) == code + zeros);
    lemma_split_at(bb, off * 8, code, zeros);
    assert(off <= bytes.len());
    lemma_bytes_bits_skip(bytes, off);
    let rest = bb.skip(off * 8);
    assert(rest.subrange(0, code.len() as int) =~= bb.subrange(off * 8, off * 8 + code.len()));
    lemma_plane_round_trip(plane, w, n, rest, 0);
    assert(plane.take(n as int) =~= plane);
}

proof fn lemma_planes_decode_step(bytes: Seq<u8>, w: int, n: nat, m: nat)
    ensures
        planes_decode(bytes, 1, w, n, m + 1) == match planes_decode(bytes, 1, w, n, m) {
            None => None,
            Some((ps, off)) => match plane_decode(bytes_bits(bytes.skip(off)), 0, w, n) {
                None => None,
                Some((t, p)) => Some((ps.push(t), off + (p + 7) / 8)),
            },
        },
{
}

proof fn lemma_pad_div(l: nat)
    ensures
        (l + pad_len(l)) % 8 == 0,
        (l + 7) / 8 == (l + pad_len(l)) / 8,
{
}

/// Decoding an encoded frame gives the frame back, whatever bytes follow its
/// encoding.
pub proof fn lemma_frame_round_trip(f: RGB48Frame, bytes: Seq<u8>)
    requires
        f.wf(),
        frame_code(f.data@, f.width as int, f.height as int).len() <= bytes_bits(bytes).len(),
        bytes_bits(bytes).take(frame_code(f.data@, f.width as int, f.height as int).len() as int)
            == frame_code(f.data@, f.width as int, f.height as int),
    ensures
        frame_decode(bytes, f.width as int, f.height as int) == Some(f.data@),
{
    let w = f.width as int;
    let h = f.height as int;
    let count = f.n_planes();
    let n = (w * h) as nat;
    let data = f.data@;
    let bb = bytes_bits(bytes);
    let head = padded(field_bits((count - 1) as nat, 2));
    let pc = planes_code(data, count, w, n, count as nat);
    let code = frame_code(data, w, h);
    assert(code == head + pc);
    assert(head.len() == 8);
    assert(bytes.len() > 0);
    assert(bb.take(2) =~= field_bits((count - 1) as nat, 2)) by {
        assert forall|j: int| 0 <= j < 2 implies bb.take(2)[j] == field_bits((count - 1) as nat, 2)[j] by {
            assert(bb.take(code.len() as int)[j] == code[j]);
        }
    }
    lemma_field_bits_value((count - 1) as nat, 2);
    vstd::arithmetic::power2::lemma2_to64();
    assert(bb.subrange(8, 8 + pc.len() as int) =~= pc) by {
        assert forall|j: int| 0 <= j < pc.len() implies bb.subrange(8, 8 + pc.len() as int)[j] == pc[j] by {
            assert(bb.take(code.len() as int)[8 + j] == code[8 + j]);
        }
    }
    assert(w > 0) by (nonlinear_arith)
        requires
            w * h > 0,
            w >= 0,
            h >= 0,
    ;
    lemma_planes_round_trip(data, count, w, n, bytes, count as nat);
    let planes = Seq::new(count as nat, |q: int| plane_of(data, count, q, n));
    let d = interleave(planes, count, n);
    assert(d.len() == data.len()) by (nonlinear_arith)
        requires
            d.len() == n * count,
            data.len() == w * h * count,
            n == w * h,
    ;
    assert forall|j: int| 0 <= j < data.len() implies d[j] == data[j] by {
        vstd::arithmetic::div_mod::lemma_fundamental_div_mod(j, count);
        let i2 = j / count;
        let q = j % count;
        vstd::arithmetic::div_mod::lemma_div_pos_is_pos(j, count);
        assert(j == i2 * count + q) by (nonlinear_arith)
            requires
                j == count * (j / count) + j % count,
                i2 == j / count,
                q == j % count,
        ;
        assert(i2 < n) by (nonlinear_arith)
            requires
                j == i2 * count + q,
                0 <= q,
                j < n * count,
                count > 0,
        ;
    }
    assert(d =~= data);
}

proof fn lemma_planes_code_len(data: Seq<u16>, count: int, w: int, n: nat, m: nat)
    requires
        w > 0,
        count >= 1,
    ensures
        planes_code(data, count, w, n, m).len() <= m * (131088 * n + 7),
    decreases m,
{
    if m > 0 {
        lemma_planes_code_len(data, count, w, n, (m - 1) as nat);
        lemma_plane_code_len(plane_of(data, count, m - 1, n), w, n);
        assert((m - 1) * (131088 * n + 7) + (131088 * n + 7) == m * (131088 * n + 7)) by (nonlinear_arith);
    }
}

/// An encoded frame takes at most `1 + P * (16386 * w * h + 1)` bytes, where
/// `P` is its plane count: a sample's code is at most 131088 bits.
pub proof fn lemma_frame_code_len(f: RGB48Frame, bytes: Seq<u8>)
    requires
        f.wf(),
        bytes_bits(bytes) == frame_code(f.data@, f.width as int, f.height as int),
    ensures
        frame_code(f.data@, f.width as int, f.height as int).len()
            <= 8 + f.n_planes() * (131088 * f.width * f.height + 7),
        bytes.len() <= 1 + f.n_planes() * (16386 * f.width * f.height + 1),
{
    let w = f.width as int;
    let h = f.height as int;
    let count = f.n_planes();
    let n = (w * h) as nat;
    assert(w > 0) by (nonlinear_arith)
        requires
            w * h > 0,
            w >= 0,
            h >= 0,
    ;
    lemma_planes_code_len(f.data@, count, w, n, count as nat);
    assert(pad_len(2) == 6);
    let l = frame_code(f.data@, w, h).len();
    assert(bytes.len() * 8 == l);
    assert(131088 * w * h == 131088 * n) by (nonlinear_arith)
        requires
            n == w * h,
    ;
    assert(bytes.len() <= 1 + count * (16386 * w * h + 1)) by (nonlinear_arith)
        requires
            bytes.len() * 8 <= 8 + count * (131088 * n + 7),
            n == w * h,
            count >= 1,
    ;
}

/// A plane's encoded bytes, followed by any bytes at all, decode to the plane,
/// and the decoder's byte count is exactly the length of the plane's bytes.
pub proof fn lemma_plane_stream_round_trip(s: Seq<u16>, w: int, n: nat, bytes: Seq<u8>, rest: Seq<u8>)
    requires
        w > 0,
        s.len() == n,
        bytes_bits(bytes) == padded(plane_code(s, w, n)),
    ensures
        plane_decode(bytes_bits(bytes + rest), 0, w, n) matches Some((t, p))
            && t == s
            && (p + 7) / 8 == bytes.len(),
{
    let code = plane_code(s, w, n);
    let all = bytes + rest;
    lemma_bytes_bits_concat(bytes, rest);
    assert(all.skip(0) =~= all);
    assert(bytes_bits(all).subrange(0, padded(code).len() as int) =~= padded(code));
    lemma_plane_after(all, 0, code, s, w, n);
    lemma_pad_div(code.len());
}

/// The streams of fewer planes are a prefix of those of more planes.
proof fn lemma_planes_code_prefix(data: Seq<u16>, count: int, w: int, n: nat, m: nat, k: nat)
    requires
        m <= k,
    ensures
        planes_code(data, count, w, n, m).len() <= planes_code(data, count, w, n, k).len(),
        planes_code(data, count, w, n, k).subrange(0, planes_code(data, count, w, n, m).len() as int)
            == planes_code(data, count, w, n, m),
    decreases k - m,
{
    let a = planes_code(data, count, w, n, m);
    if m < k {
        lemma_planes_code_prefix(data, count, w, n, m, (k - 1) as nat);
        let b = planes_code(data, count, w, n, (k - 1) as nat);
        let c = planes_code(data, count, w, n, k);
        assert(c.subrange(0, a.len() as int) =~= b.subrange(0, a.len() as int));
    } else {
        assert(a.subrange(0, a.len() as int) =~= a);
    }
}

proof fn lemma_planes_code_aligned(data: Seq<u16>, count: int, w: int, n: nat, m: nat)
    ensures
        planes_code(data, count, w, n, m).len() % 8 == 0,
    decreases m,
{
    if m > 0 {
        lemma_planes_code_aligned(data, count, w, n, (m - 1) as nat);
        lemma_pad_div(plane_code(plane_of(data, count, m - 1, n), w, n).len());
    }
}

/// In an encoded frame, plane `p` occupies bytes `lo..hi`, whose bits are that
/// plane's padded stream, the same bits that `Codec::encode` gives for it; the
/// last plane ends at the last byte.
pub proof fn lemma_frame_layout(f: RGB48Frame, bytes: Seq<u8>, p: int)
    requires
        f.wf(),
        bytes_bits(bytes) == frame_code(f.data@, f.width as int, f.height as int),
        0 <= p < f.n_planes(),
    ensures
        ({
            let n = (f.width * f.height) as nat;
            let lo = 1 + planes_code(f.data@, f.n_planes(), f.width as int, n, p as nat).len() as int / 8;
            let hi = 1 + planes_code(f.data@, f.n_planes(), f.width as int, n, (p + 1) as nat).len() as int / 8;
            &&& 1 <= lo <= hi <= bytes.len()
            &&& bytes_bits(bytes.subrange(lo, hi)) == padded(
                plane_code(plane_of(f.data@, f.n_planes(), p, n), f.width as int, n),
            )
            &&& p == f.n_planes() - 1 ==> hi == bytes.len()
        }),
{
    let w = f.width as int;
    let count = f.n_planes();
    let n = (f.width * f.height) as nat;
    let pc = planes_code(f.data@, count, w, n, count as nat);
    let a = planes_code(f.data@, count, w, n, p as nat);
    let b = planes_code(f.data@, count, w, n, (p + 1) as nat);
    let seg = padded(plane_code(plane_of(f.data@, count, p, n), w, n));
    let bb = bytes_bits(bytes);
    assert(pad_len(2) == 6);
    assert(bb == padded(field_bits((count - 1) as nat, 2)) + pc);
    lemma_planes_code_prefix(f.data@, count, w, n, (p + 1) as nat, count as nat);
    lemma_planes_code_aligned(f.data@, count, w, n, p as nat);
    lemma_planes_code_aligned(f.data@, count, w, n, (p + 1) as nat);
    lemma_planes_code_aligned(f.data@, count, w, n, count as nat);
    assert(b == a + seg);
    let lo = 1 + a.len() as int / 8;
    let hi = 1 + b.len() as int / 8;
    assert(bb.len() == bytes.len() * 8);
    lemma_bytes_bits_subrange(bytes, lo, hi);
    assert forall|j: int| 0 <= j < seg.len() implies bb.subrange(lo * 8, hi * 8)[j] == seg[j] by {
        assert(pc.subrange(0, b.len() as int)[a.len() + j] == b[a.len() + j]);
    }
    assert(bb.subrange(lo * 8, hi * 8) =~= seg);
}

/// The first byte of an encoded frame holds the plane count minus one in its
/// two top bits; its other six bits are zero.
pub proof fn lemma_frame_header(f: RGB48Frame, bytes: Seq<u8>)
    requires
        f.wf(),
        bytes_bits(bytes) == frame_code(f.data@, f.width as int, f.height as int),
    ensures
        bytes.len() > 0,
        bytes[0] as int == (f.n_planes() - 1) * 64,
{
    let code = frame_code(f.data@, f.width as int, f.height as int);
    let p = (f.n_planes() - 1) as nat;
    assert(pad_len(2) == 6);
    assert(padded(field_bits(p, 2)).len() == 8);
    assert(code.len() >= 8);
    assert(bytes_bits(bytes).len() == bytes.len() * 8);
    assert(bytes.len() > 0);
    let b = bytes[0];
    assert(code.take(8) =~= field_bits(p, 2) + Seq::new(6, |i: int| false));
    assert forall|i: int| 0 <= i < 8 implies #[trigger] byte_bit(b, i) == code[i] by {
        assert(i / 8 == 0 && i % 8 == i);
        assert(bytes_bits(bytes)[i] == byte_bit(bytes[i / 8], i % 8));
    }
    let hi = p / 2 == 1;
    let lo = p % 2 == 1;
    lemma2_to64();
    assert(code[0] == code.take(8)[0] && code[1] == code.take(8)[1]);
    assert(field_bits(p, 2)[0] == ((p / pow2(1)) % 2 == 1));
    assert(field_bits(p, 2)[1] == ((p / pow2(0)) % 2 == 1));
    assert(code[0] == hi && code[1] == lo);
    assert(!code[2] && !code[3] && !code[4] && !code[5] && !code[6] && !code[7]);
    assert(byte_bit(b, 0) == hi && byte_bit(b, 1) == lo);
    assert(!byte_bit(b, 2) && !byte_bit(b, 3) && !byte_bit(b, 4));
    assert(!byte_bit(b, 5) && !byte_bit(b, 6) && !byte_bit(b, 7));
    assert(b == (if hi { 128u8 } else { 0u8 }) + (if lo { 64u8 } else { 0u8 })) by (bit_vector)
        requires
            ((b >> 7u8) & 1u8 == 1u8) == hi,
            ((b >> 6u8) & 1u8 == 1u8) == lo,
            !((b >> 5u8) & 1u8 == 1u8),
            !((b >> 4u8) & 1u8 == 1u8),
            !((b >> 3u8) & 1u8 == 1u8),
            !((b >> 2u8) & 1u8 == 1u8),
            !((b >> 1u8) & 1u8 == 1u8),
            !((b >> 0u8) & 1u8 == 1u8),
    ;
}

/// A plane of a frame lies in its buffer, and its samples are every
/// `count`-th sample from its base.
proof fn lemma_plane_layout(plane: Plane, count: int)
    requires
        plane.width * plane.height > 0,
        0 <= plane.base < count,
        plane.sample_stride == count,
        plane.row_stride == count * plane.width,
        plane.data@.len() == plane.width * plane.height * count,
        plane.data@.len() <= usize::MAX,
    ensures
        plane.wf(),
        plane.samples() == plane_of(plane.data@, count, plane.base as int, (plane.width * plane.height) as nat),
{
    let w = plane.width as int;
    let h = plane.height as int;
    let b = plane.base as int;
    assert(w > 0 && h > 0) by (nonlinear_arith)
        requires
            w * h > 0,
            w >= 0,
            h >= 0,
    ;
    assert(w * h <= w * h * count) by (nonlinear_arith)
        requires
            w > 0,
            h > 0,
            count >= 1,
    ;
    assert(b + (h - 1) * (count * w) + (w - 1) * count < w * h * count) by (nonlinear_arith)
        requires
            0 <= b < count,
            w > 0,
            h > 0,
    ;
    assert forall|i: int| 0 <= i < w * h implies #[trigger] plane.samples()[i] == plane.data@[i * count + b] by {
        vstd::arithmetic::div_mod::lemma_fundamental_div_mod(i, w);
        assert(b + (i / w) * (count * w) + (i % w) * count == i * count + b) by (nonlinear_arith)
            requires
                i == w * (i / w) + i % w,
        ;
    }
    assert(plane.samples() =~= plane_of(plane.data@, count, b, (w * h) as nat));
}

} // verus!
