//! Raster images stored as a flat buffer of 8-bit channels.
use vstd::prelude::*;
use crate::text::{decimal_digits, push_decimal};

verus! {

/// An image of `width * height` pixels, each made of `PIXELS` channels,
/// stored row by row in `data`.
pub struct Image<const PIXELS: usize> {
    data: Vec<u8>,
    width: u32,
    height: u32,
}

/// The concatenation of a sequence of byte strings.
pub open spec fn concat_bytes(chunks: Seq<Seq<u8>>) -> Seq<u8>
    decreases chunks.len(),
{
    if chunks.len() == 0 {
        Seq::empty()
    } else {
        concat_bytes(chunks.drop_last()) + chunks.last()
    }
}

/// The column of the `i`-th pixel of an image `w` pixels wide, as the pixel
/// iterator reports it.
pub open spec fn pixel_column(i: int, w: int) -> u32 {
    (i % w) as u32
}

/// The row of the `i`-th pixel of an image `w` pixels wide, as the pixel
/// iterator reports it.
pub open spec fn pixel_row(i: int, w: int) -> u32 {
    (i / w) as u32
}

impl<const PIXELS: usize> Image<PIXELS> {
    /// The channel bytes of the image.
    pub closed spec fn spec_data(&self) -> Seq<u8> {
        self.data@
    }

    /// The width of the image in pixels.
    pub closed spec fn spec_width(&self) -> nat {
        self.width as nat
    }

    /// The height of the image in pixels.
    pub closed spec fn spec_height(&self) -> nat {
        self.height as nat
    }

    /// The number of whole pixels held in the buffer.
    pub open spec fn spec_pixel_count(&self) -> nat
        recommends
            PIXELS > 0,
    {
        self.spec_data().len() / (PIXELS as nat)
    }

    /// The bytes that make up the `i`-th pixel.
    pub open spec fn spec_pixel(&self, i: int) -> Seq<u8> {
        self.spec_data().subrange(i * PIXELS, i * PIXELS + PIXELS)
    }

    /// Read access to the channel bytes.
    pub fn data(&self) -> (r: &[u8])
        ensures
            r@ == self.spec_data(),
    {
        self.data.as_slice()
    }

    /// Write access to the channel bytes; the dimensions stay as they are.
    pub fn data_mut(&mut self) -> (r: &mut Vec<u8>)
        ensures
            r@ == old(self).spec_data(),
            final(self).spec_data() == final(r)@,
            final(self).spec_width() == old(self).spec_width(),
            final(self).spec_height() == old(self).spec_height(),
    {
        &mut self.data
    }

    /// Every whole pixel of the buffer, in order, with its column and row and
    /// a mutable view of its channels. Bytes past the last whole pixel are
    /// left out and left unchanged.
    pub fn pixels_mut(&mut self) -> (r: Vec<(u32, u32, &mut [u8])>)
        requires
            PIXELS > 0,
            old(self).spec_width() > 0 || old(self).spec_data().len() < PIXELS,
        ensures
            r.len() == old(self).spec_pixel_count(),
            forall|i: int|
                0 <= i < r.len() ==> {
                    &&& (#[trigger] r@[i]).0 == pixel_column(i, old(self).spec_width() as int)
                    &&& r@[i].1 == pixel_row(i, old(self).spec_width() as int)
                    &&& r@[i].2@ == old(self).spec_pixel(i)
                },
            final(self).spec_data() == concat_bytes(
                Seq::new(r.len() as nat, |i: int| final(r@[i].2)@),
            ) + old(self).spec_data().subrange(
                r.len() * PIXELS,
                old(self).spec_data().len() as int,
            ),
            final(self).spec_width() == old(self).spec_width(),
            final(self).spec_height() == old(self).spec_height(),
    {
        let n: usize = self.data.len() / PIXELS;
        let w: usize = self.width as usize;
        let ghost os = self.data@;
        let ghost wi = w as int;
        proof {
            assert(n * PIXELS <= os.len()) by (nonlinear_arith)
                requires
                    n == os.len() / (PIXELS as nat),
                    PIXELS > 0,
            ;
        }
        proof {
            if os.len() < PIXELS {
                assert(n == 0) by (nonlinear_arith)
                    requires
                        n == os.len() / (PIXELS as nat),
                        os.len() < PIXELS,
                ;
            }
        }
        let ghost fs = final(self).data@;
        let mut out: Vec<(u32, u32, &mut [u8])> = Vec::new();
        let mut rest: &mut [u8] = self.data.as_mut_slice();
        assert(fs == final(rest)@);
        assert(rest@ == os);
        assert(0 * PIXELS == 0);
        assert(os.subrange(0 * PIXELS, os.len() as int) =~= os);
        assert(concat_bytes(Seq::new(0nat, |i: int| final(out@[i].2)@)) =~= Seq::empty());
        let mut k: usize = 0;
        while k < n
            invariant
                PIXELS > 0,
                k <= n,
                n * PIXELS <= os.len(),
                w == wi,
                wi > 0 || n == 0,
                out.len() == k,
                rest@ == os.subrange(k * PIXELS, os.len() as int),
                forall|i: int|
                    0 <= i < k ==> {
                        &&& (#[trigger] out@[i]).0 == pixel_column(i, wi)
                        &&& out@[i].1 == pixel_row(i, wi)
                        &&& out@[i].2@ == os.subrange(i * PIXELS, i * PIXELS + PIXELS)
                    },
                fs == concat_bytes(Seq::new(k as nat, |i: int| final(out@[i].2)@)) + final(rest)@,
            decreases n - k,
        {
            proof {
                assert(k * PIXELS + PIXELS <= n * PIXELS) by (nonlinear_arith)
                    requires
                        k < n,
                        PIXELS > 0,
                ;
            }
            let ghost prev = out@;
            let ghost prev_rest_final = final(rest)@;
            let (head, tail) = rest.split_at_mut(PIXELS);
            assert(prev_rest_final == final(head)@ + final(tail)@);
            let column: u32 = (k % w) as u32;
            let row: u32 = (k / w) as u32;
            out.push((column, row, head));
            rest = tail;
            k = k + 1;
            proof {
                assert((k - 1) * PIXELS + PIXELS == k * PIXELS) by (nonlinear_arith);
                let fresh = Seq::new(k as nat, |i: int| final(out@[i].2)@);
                let before = Seq::new((k - 1) as nat, |i: int| final(prev[i].2)@);
                assert(fresh.drop_last() =~= before);
                assert(fresh.last() == final(out@[k - 1].2)@);
            }
        }
        out
    }
}

impl Image<3> {
    /// A black RGB image of `w * h` pixels.
    pub fn rgb(w: u32, h: u32) -> (img: Self)
        requires
            w * h * 3 <= usize::MAX,
        ensures
            img.spec_width() == w,
            img.spec_height() == h,
            img.spec_data() == Seq::new((w * h * 3) as nat, |i: int| 0u8),
    {
        let d: usize = (w as usize) * (h as usize);
        let data = vec![0u8; d * 3];
        assert(data@ =~= Seq::new((w * h * 3) as nat, |i: int| 0u8));
        Image { data, width: w, height: h }
    }
}

impl Image<1> {
    /// A black grayscale image of `w * h` pixels.
    pub fn grayscale(w: u32, h: u32) -> (img: Self)
        requires
            w * h <= usize::MAX,
        ensures
            img.spec_width() == w,
            img.spec_height() == h,
            img.spec_data() == Seq::new((w * h) as nat, |i: int| 0u8),
    {
        let d: usize = (w as usize) * (h as usize);
        let data = vec![0u8; d];
        assert(data@ =~= Seq::new((w * h) as nat, |i: int| 0u8));
        Image { data, width: w, height: h }
    }
}

/// The magic number of the binary netpbm format for images of `pixels`
/// channels: `P5` (graymap) for one channel, `P6` (pixmap) for three.
pub open spec fn netpbm_magic(pixels: nat) -> Seq<u8> {
    if pixels == 1 {
        seq![80u8, 53u8]
    } else {
        seq![80u8, 54u8]
    }
}

/// Chunks of `p` bytes each, laid end to end: there are `p` bytes per chunk,
/// and byte `k` of chunk `i` stands at `i * p + k`.
proof fn lemma_concat_index(chunks: Seq<Seq<u8>>, p: nat, i: int, k: int)
    requires
        forall|j: int| 0 <= j < chunks.len() ==> #[trigger] chunks[j].len() == p,
        0 <= i < chunks.len(),
        0 <= k < p,
    ensures
        concat_bytes(chunks).len() == chunks.len() * p,
        i * p + k < chunks.len() * p,
        concat_bytes(chunks)[i * p + k] == chunks[i][k],
    decreases chunks.len(),
{
    let n = chunks.len();
    let front = chunks.drop_last();
    assert(concat_bytes(chunks) == concat_bytes(front) + chunks.last());
    assert((n - 1) * p + p == n * p) by (nonlinear_arith) requires n >= 1;
    if i < n - 1 {
        assert(forall|j: int| 0 <= j < front.len() ==> #[trigger] front[j] == chunks[j]);
        lemma_concat_index(front, p, i, k);
        assert(i * p + k < (n - 1) * p);
    } else {
        if n > 1 {
            assert(forall|j: int| 0 <= j < front.len() ==> #[trigger] front[j] == chunks[j]);
            lemma_concat_index(front, p, 0, 0);
        } else {
            assert(concat_bytes(front) =~= Seq::<u8>::empty());
        }
        assert(i * p == (n - 1) * p);
    }
}

/// What a write through `pixels_mut` leaves in the buffer. After the call
/// the buffer is the bytes of the pixel slices, in order, then the bytes past
/// the last whole pixel (its `ensures`), and each slice keeps its length
/// (a slice's length never changes; `requires` states it of `chunks`).
/// So for an image `w` pixels wide and `h` high whose slices hold `chunks`,
/// the slice reported at column `x`, row `y` is the one whose byte `k` the
/// buffer holds at `(y * w + x) * PIXELS + k`, and the buffer keeps its
/// length.
pub proof fn lemma_pixels_write_through(chunks: Seq<Seq<u8>>, tail: Seq<u8>, p: int, w: u32, h: u32, x: int, y: int, k: int)
    requires
        w > 0,
        0 <= x < w,
        0 <= y < h,
        0 <= k < p,
        chunks.len() == w * h,
        forall|i: int| 0 <= i < chunks.len() ==> #[trigger] chunks[i].len() == p,
    ensures
        pixel_column(y * w + x, w as int) == x,
        pixel_row(y * w + x, w as int) == y,
        (concat_bytes(chunks) + tail).len() == w * h * p + tail.len(),
        (y * w + x) * p + k < w * h * p,
        (concat_bytes(chunks) + tail)[(y * w + x) * p + k] == chunks[y * w + x][k],
{
    lemma_pixel_of_cell(w as int, x, y);
    let i = y * w + x;
    assert(0 <= i < w * h) by (nonlinear_arith) requires 0 <= x < w, 0 <= y < h, i == y * w + x;
    lemma_concat_index(chunks, p as nat, i, k);
    assert(chunks.len() * p == w * h * p);
}

/// The header of a binary netpbm file: the magic number, the width and the
/// height in decimal, and the maximum channel value 255, one per line.
pub open spec fn netpbm_header(pixels: nat, width: nat, height: nat) -> Seq<u8> {
    netpbm_magic(pixels) + seq![10u8] + decimal_digits(width) + seq![32u8] + decimal_digits(height)
        + seq![10u8] + seq![50u8, 53u8, 53u8, 10u8]
}

/// The file name extension of the netpbm format for images of `pixels`
/// channels: `.pgm` for one channel, `.ppm` for three.
pub open spec fn netpbm_extension(pixels: nat) -> Seq<u8> {
    if pixels == 1 {
        seq![46u8, 112u8, 103u8, 109u8]
    } else {
        seq![46u8, 112u8, 112u8, 109u8]
    }
}

impl<const PIXELS: usize> Image<PIXELS> {
    /// The bytes of the image as a binary netpbm file (PGM for grayscale,
    /// PPM for RGB): the header, then the channel bytes as they are.
    pub fn netpbm_bytes(&self) -> (r: Vec<u8>)
        requires
            PIXELS == 1 || PIXELS == 3,
        ensures
            r@ == netpbm_header(PIXELS as nat, self.spec_width(), self.spec_height()) + self.spec_data(),
    {
        let mut out: Vec<u8> = Vec::new();
        out.push(80u8);
        if PIXELS == 1 {
            out.push(53u8);
        } else {
            out.push(54u8);
        }
        out.push(10u8);
        push_decimal(&mut out, self.width);
        out.push(32u8);
        push_decimal(&mut out, self.height);
        out.push(10u8);
        out.push(50u8);
        out.push(53u8);
        out.push(53u8);
        out.push(10u8);
        let ghost header = out@;
        assert(header =~= netpbm_header(PIXELS as nat, self.spec_width(), self.spec_height()));
        let mut i: usize = 0;
        while i < self.data.len()
            invariant
                i <= self.data@.len(),
                out@ == header + self.data@.take(i as int),
            decreases self.data@.len() - i,
        {
            out.push(self.data[i]);
            i = i + 1;
            assert(self.data@.take(i as int) =~= self.data@.take(i - 1).push(self.data@[i - 1]));
        }
        assert(self.data@.take(i as int) =~= self.data@);
        out
    }

    /// Whether `path` carries the file name extension of this image's netpbm
    /// format, as saving requires.
    pub fn has_netpbm_extension(path: &[u8]) -> (r: bool)
        requires
            PIXELS == 1 || PIXELS == 3,
        ensures
            r == (path@.len() >= 4 && path@.skip(path@.len() - 4) == netpbm_extension(PIXELS as nat)),
    {
        let n = path.len();
        if n < 4 {
            return false;
        }
        let third: u8 = if PIXELS == 1 { 103u8 } else { 112u8 };
        let r = path[n - 4] == 46u8 && path[n - 3] == 112u8 && path[n - 2] == third && path[n - 1] == 109u8;
        let ghost tail = path@.skip(n - 4);
        assert(tail[0] == path@[n - 4] && tail[1] == path@[n - 3] && tail[2] == path@[n - 2] && tail[3] == path@[n - 1]);
        if r {
            assert(tail =~= netpbm_extension(PIXELS as nat));
        }
        r
    }
}

/// The cell at column `x` and row `y` of a `w` pixels wide image is the
/// pixel `y * w + x`.
pub proof fn lemma_pixel_of_cell(w: int, x: int, y: int)
    requires
        0 <= x < w,
        0 <= y,
        w <= u32::MAX,
        y <= u32::MAX,
    ensures
        pixel_column(y * w + x, w) == x,
        pixel_row(y * w + x, w) == y,
{
    assert((y * w + x) % w == x) by (nonlinear_arith) requires 0 <= x < w, 0 <= y;
    assert((y * w + x) / w == y) by (nonlinear_arith) requires 0 <= x < w, 0 <= y;
}

/// The pixels of a `w` by `h` image, walked in order, land on the grid of
/// columns below `w` and rows below `h`, one pixel to each cell: the `i`-th
/// pixel is at column `i % w` and row `i / w`, and no two pixels share a
/// cell.
pub proof fn lemma_pixels_cover_grid(w: nat, h: nat)
    requires
        w > 0,
        h <= u32::MAX,
        w <= u32::MAX,
    ensures
        forall|i: int|
            0 <= i < w * h ==> (#[trigger] pixel_column(i, w as int) as int) < w && (pixel_row(i, w as int) as int) < h
                && pixel_row(i, w as int) * w + pixel_column(i, w as int) == i,
{
    assert forall|i: int| 0 <= i < w * h implies (#[trigger] pixel_column(i, w as int) as int) < w && (pixel_row(i, w as int) as int) < h
        && pixel_row(i, w as int) * w + pixel_column(i, w as int) == i by {
        assert(0 <= i % (w as int) < w) by (nonlinear_arith) requires w > 0;
        assert(0 <= i / (w as int) < h) by (nonlinear_arith) requires w > 0, 0 <= i < w * h;
        assert((i / (w as int)) * w + i % (w as int) == i) by (nonlinear_arith) requires w > 0;
    }
}

} // verus!
