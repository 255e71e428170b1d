//! Bitmap fonts: each glyph is `height` rows of `width` pixels, a row
//! being `(width + 7) / 8` bytes, most significant bit first.
use vstd::prelude::*;

verus! {

/// Bytes in one row of a glyph.
pub open spec fn row_bytes(width: int) -> int {
    (width + 7) / 8
}

/// Bytes in one glyph.
pub open spec fn glyph_bytes(width: int, height: int) -> int {
    row_bytes(width) * height
}

/// Whether pixel `fx` of byte `b`, counted from the most significant bit,
/// is set.
pub open spec fn byte_pixel(b: u8, j: int) -> bool {
    (b << (j as u8)) & 0x80u8 == 0x80u8
}

/// A bitmap font.
#[derive(Debug)]
pub struct Font {
    width: usize,
    height: usize,
    count: usize,
    data: Vec<u8>,
}

impl Font {
    #[verifier::type_invariant]
    spec fn covers(&self) -> bool {
        &&& self.width + 7 <= usize::MAX
        &&& glyph_bytes(self.width as int, self.height as int) * self.count <= self.data@.len()
    }

    /// Width of a glyph in pixels.
    pub closed spec fn width_spec(&self) -> usize {
        self.width
    }

    /// Height of a glyph in pixels.
    pub closed spec fn height_spec(&self) -> usize {
        self.height
    }

    /// Number of glyphs.
    pub closed spec fn count_spec(&self) -> usize {
        self.count
    }

    /// The glyph bitmaps, one after the other.
    pub closed spec fn data_spec(&self) -> Seq<u8> {
        self.data@
    }

    /// Pixel (`fx`, `fy`) of glyph `glyph` is set.
    pub open spec fn pixel_spec(&self, glyph: int, fx: int, fy: int) -> bool {
        byte_pixel(
            self.data_spec()[glyph_bytes(self.width_spec() as int, self.height_spec() as int) * glyph
                + row_bytes(self.width_spec() as int) * fy + fx / 8],
            fx % 8,
        )
    }

    /// The pixels of a glyph, row by row: column, row and whether it is set.
    pub open spec fn pixels_spec(&self, glyph: int) -> Seq<(usize, usize, bool)> {
        Seq::new(
            (self.width_spec() * self.height_spec()) as nat,
            |k: int|
                (
                    (k % self.width_spec() as int) as usize,
                    (k / self.width_spec() as int) as usize,
                    self.pixel_spec(glyph, k % self.width_spec() as int, k / self.width_spec() as int),
                ),
        )
    }

    /// A font of `count` glyphs of `width` by `height` pixels stored in
    /// `data`, which must hold them all.
    pub fn new(width: usize, height: usize, count: usize, data: Vec<u8>) -> (r: Self)
        requires
            width + 7 <= usize::MAX,
            glyph_bytes(width as int, height as int) * count <= data@.len(),
        ensures
            r.width_spec() == width,
            r.height_spec() == height,
            r.count_spec() == count,
            r.data_spec() == data@,
    {
        Font { width, height, count, data }
    }

    /// Width of a glyph in pixels.
    pub fn width(&self) -> (r: usize)
        ensures
            r == self.width_spec(),
    {
        self.width
    }

    /// Height of a glyph in pixels.
    pub fn height(&self) -> (r: usize)
        ensures
            r == self.height_spec(),
    {
        self.height
    }

    /// Number of glyphs.
    pub fn glyph_count(&self) -> (r: usize)
        ensures
            r == self.count_spec(),
    {
        self.count
    }

    /// The glyph bitmaps.
    pub fn data(&self) -> (r: &[u8])
        ensures
            r@ == self.data_spec(),
    {
        self.data.as_slice()
    }
}


/// Shifting a byte left one more bit.
proof fn lemma_shift_step(b: u8, s: u8)
    requires
        s < 8,
    ensures
        ((b << s) << 1u8) == b << ((s + 1) as u8),
{
    assert(s < 8 ==> ((b << s) << 1u8) == b << ((s + 1u8) as u8)) by (bit_vector);
}

/// The glyph's byte for a pixel lies within the font's data.
proof fn lemma_glyph_index(w: int, h: int, count: int, glyph: int, fx: int, fy: int, n: int)
    requires
        0 <= w,
        0 <= h,
        0 <= glyph < count,
        0 <= fx < w,
        0 <= fy < h,
        glyph_bytes(w, h) * count <= n,
    ensures
        0 <= glyph_bytes(w, h) * glyph + row_bytes(w) * fy + fx / 8 < n,
        glyph_bytes(w, h) * glyph + glyph_bytes(w, h) <= n,
{
    let p = row_bytes(w);
    assert(fx / 8 < p);
    assert(0 <= p);
    assert(p * fy + fx / 8 < p * h) by (nonlinear_arith)
        requires
            fx / 8 < p,
            0 <= fy < h,
            0 <= fx / 8,
    ;
    assert(glyph_bytes(w, h) * glyph + glyph_bytes(w, h) <= glyph_bytes(w, h) * count) by (nonlinear_arith)
        requires
            0 <= glyph < count,
            0 <= glyph_bytes(w, h),
    ;
    assert(0 <= glyph_bytes(w, h) * glyph) by (nonlinear_arith)
        requires
            0 <= glyph,
            0 <= glyph_bytes(w, h),
    ;
    assert(0 <= p * fy) by (nonlinear_arith)
        requires
            0 <= p,
            0 <= fy,
    ;
}

impl Font {
    /// The pixels of glyph `glyph`, row by row, each row from the left:
    /// column, row and whether the pixel is set.
    pub fn with_pixels(&self, glyph: usize) -> (r: Vec<(usize, usize, bool)>)
        requires
            glyph < self.count_spec(),
        ensures
            r@ == self.pixels_spec(glyph as int),
    {
        proof {
            use_type_invariant(self);
        }
        let w = self.width;
        let h = self.height;
        let n = self.data.len();
        let pitch = (w + 7) / 8;
        proof {
            assert(pitch * h <= glyph_bytes(w as int, h as int) * self.count) by (nonlinear_arith)
                requires
                    pitch * h == glyph_bytes(w as int, h as int),
                    glyph < self.count,
                    0 <= pitch * h,
            ;
            assert(glyph_bytes(w as int, h as int) * glyph <= glyph_bytes(w as int, h as int) * self.count) by (nonlinear_arith)
                requires
                    glyph < self.count,
                    0 <= glyph_bytes(w as int, h as int),
            ;
        }
        assert(pitch * h <= n);
        let len = pitch * h;
        assert(len * glyph <= n);
        let base = len * glyph;
        let mut out: Vec<(usize, usize, bool)> = Vec::new();
        let mut fy: usize = 0;
        while fy < h
            invariant
                w == self.width,
                h == self.height,
                pitch == row_bytes(w as int),
                len == glyph_bytes(w as int, h as int),
                base == len * glyph,
                glyph < self.count,
                w + 7 <= usize::MAX,
                glyph_bytes(w as int, h as int) * self.count <= self.data@.len(),
                n == self.data@.len(),
                0 <= fy <= h,
                out@.len() == fy * w,
                forall|k: int| 0 <= k < out@.len() ==> #[trigger] out@[k] == self.pixels_spec(glyph as int)[k],
            decreases h - fy,
        {
            let mut fx: usize = 0;
            let mut index: usize = 0;
            proof {
                if w > 0 {
                    lemma_glyph_index(w as int, h as int, self.count as int, glyph as int, 0, fy as int, self.data@.len() as int);
                }
            }
            if w > 0 {
                assert(0 <= pitch * fy) by (nonlinear_arith)
                    requires
                        0 <= pitch,
                        0 <= fy,
                ;
                index = base + pitch * fy;
            }
            while fx < w
                invariant
                    w == self.width,
                    h == self.height,
                    pitch == row_bytes(w as int),
                    len == glyph_bytes(w as int, h as int),
                    base == len * glyph,
                    glyph < self.count,
                    w + 7 <= usize::MAX,
                    glyph_bytes(w as int, h as int) * self.count <= self.data@.len(),
                    n == self.data@.len(),
                    0 <= fy < h,
                    fx % 8 == 0,
                    fx < w ==> index == base + pitch * fy + fx / 8,
                    fx <= w + 7,
                    out@.len() == fy * w + (if fx < w { fx as int } else { w as int }),
                    forall|k: int| 0 <= k < out@.len() ==> #[trigger] out@[k] == self.pixels_spec(glyph as int)[k],
                decreases w + 8 - fx,
            {
                proof {
                    lemma_glyph_index(w as int, h as int, self.count as int, glyph as int, fx as int, fy as int, self.data@.len() as int);
                }
                let mut v: u8 = self.data[index];
                let ghost b = v;
                let end = if w < fx + 8 {
                    w
                } else {
                    fx + 8
                };
                let mut j: usize = fx;
                proof {
                    assert(b << 0u8 == b) by (bit_vector);
                }
                while j < end
                    invariant
                        w == self.width,
                        h == self.height,
                        pitch == row_bytes(w as int),
                        len == glyph_bytes(w as int, h as int),
                        base == len * glyph,
                        glyph < self.count,
                        0 <= fy < h,
                        fx % 8 == 0,
                        fx < w,
                        fx <= j <= end <= w,
                        end <= fx + 8,
                        index == base + pitch * fy + fx / 8,
                        0 <= index < self.data@.len(),
                        b == self.data@[index as int],
                        v == b << ((j - fx) as u8),
                        out@.len() == fy * w + j,
                        forall|k: int| 0 <= k < out@.len() ==> #[trigger] out@[k] == self.pixels_spec(glyph as int)[k],
                    decreases end - j,
                {
                    let on = v & 0x80u8 == 0x80u8;
                    let ghost k = out@.len() as int;
                    proof {
                        vstd::arithmetic::div_mod::lemma_fundamental_div_mod_converse(k, w as int, fy as int, j as int);
                        assert(j / 8 == fx / 8 && j % 8 == j - fx) by {
                            vstd::arithmetic::div_mod::lemma_fundamental_div_mod_converse(j as int, 8, (fx / 8) as int, j - fx);
                        }
                        assert(k < w * h) by (nonlinear_arith)
                            requires
                                k == fy * w + j,
                                j < w,
                                fy < h,
                        ;
                    }
                    out.push((j, fy, on));
                    proof {
                        lemma_shift_step(b, (j - fx) as u8);
                        assert(out@[k] == self.pixels_spec(glyph as int)[k]);
                    }
                    v = v << 1u8;
                    j = j + 1;
                }
                proof {
                    if fx + 8 < w {
                        vstd::arithmetic::div_mod::lemma_fundamental_div_mod_converse(fx as int + 8, 8, (fx / 8) as int + 1, 0);
                    }
                }
                proof {
                    if fx + 8 < w {
                        lemma_glyph_index(w as int, h as int, self.count as int, glyph as int, fx as int + 8, fy as int, self.data@.len() as int);
                    }
                }
                fx = fx + 8;
                if fx < w {
                    index = index + 1;
                }
            }
            fy = fy + 1;
            assert(out@.len() == fy * w) by (nonlinear_arith)
                requires
                    out@.len() == (fy - 1) * w + w,
            ;
        }
        proof {
            assert(out@.len() == w * h) by (nonlinear_arith)
                requires
                    out@.len() == h * w,
            ;
            assert(out@ =~= self.pixels_spec(glyph as int));
        }
        out
    }
}

} // verus!
