//! Eight-bit RGB images held as plain bytes.
use vstd::prelude::*;

verus! {

/// An image of `width` by `height` pixels, row by row from the top, three bytes
/// to a pixel: red, green, blue.
#[derive(Debug)]
pub struct Image {
    pub width: u32,
    pub height: u32,
    pub data: Vec<u8>,
}

/// Where the byte of channel `c` of the pixel in column `x` and row `y` stands
/// in an image `width` pixels wide.
pub open spec fn byte_index(width: int, x: int, y: int, c: int) -> int {
    (y * width + x) * 3 + c
}

impl Image {
    /// The bytes are those of `width` times `height` pixels.
    pub open spec fn wf(&self) -> bool {
        self.data@.len() == self.width * self.height * 3
    }

    /// Channel `c` of the pixel in column `x` and row `y`.
    pub open spec fn channel(&self, x: int, y: int, c: int) -> u8 {
        self.data@[byte_index(self.width as int, x, y, c)]
    }

    /// Whether the two images hold the same pixels.
    pub open spec fn same_as(&self, other: &Image) -> bool {
        &&& self.width == other.width
        &&& self.height == other.height
        &&& self.data@ == other.data@
    }
}

/// A pixel inside the image has its bytes inside the data, and no two of them
/// are the same byte.
pub proof fn byte_index_in_bounds(width: int, height: int, x: int, y: int, c: int)
    requires
        0 <= x < width,
        0 <= y < height,
        0 <= c < 3,
    ensures
        0 <= byte_index(width, x, y, c) < width * height * 3,
        0 <= y * width <= y * width + x < width * height,
        byte_index(width, x, y, c) <= width * height * 3 - 3 + c,
{
    assert(0 <= y * width) by (nonlinear_arith)
        requires
            0 <= y,
            0 <= width,
    ;
    assert((y + 1) * width <= height * width) by (nonlinear_arith)
        requires
            y + 1 <= height,
            0 <= width,
    ;
    assert((y + 1) * width == y * width + width) by (nonlinear_arith);
    assert(height * width == width * height) by (nonlinear_arith);
}

/// Distinct places have distinct bytes.
pub proof fn byte_index_is_injective(
    width: int,
    x: int,
    y: int,
    c: int,
    x2: int,
    y2: int,
    c2: int,
)
    requires
        0 <= x < width,
        0 <= x2 < width,
        0 <= c < 3,
        0 <= c2 < 3,
        byte_index(width, x, y, c) == byte_index(width, x2, y2, c2),
    ensures
        x == x2,
        y == y2,
        c == c2,
{
    assert(y * width + x == y2 * width + x2);
    vstd::arithmetic::div_mod::lemma_fundamental_div_mod_converse(
        y * width + x,
        width,
        y,
        x,
    );
    vstd::arithmetic::div_mod::lemma_fundamental_div_mod_converse(
        y2 * width + x2,
        width,
        y2,
        x2,
    );
}

/// An image is its size and its channels: two images that agree in these are the
/// same.
pub proof fn channels_tell_the_image(a: &Image, b: &Image)
    requires
        a.wf(),
        b.wf(),
        a.width == b.width,
        a.height == b.height,
        forall|x: int, y: int, c: int|
            0 <= x < a.width && 0 <= y < a.height && 0 <= c < 3 ==> #[trigger] a.channel(x, y, c)
                == b.channel(x, y, c),
    ensures
        a.same_as(b),
{
    let (w, h) = (a.width as int, a.height as int);
    assert forall|k: int| 0 <= k < a.data@.len() implies a.data@[k] == b.data@[k] by {
        let (i, c) = (k / 3, k % 3);
        assert(0 <= i < w * h);
        assert(w > 0) by (nonlinear_arith)
            requires
                0 <= i < w * h,
                w >= 0,
        ;
        let (x, y) = (i % w, i / w);
        vstd::arithmetic::div_mod::lemma_fundamental_div_mod(i, w);
        assert(w * y == y * w) by (nonlinear_arith);
        assert(0 <= y < h) by (nonlinear_arith)
            requires
                0 <= i < w * h,
                i == y * w + x,
                0 <= x < w,
        ;
        assert(byte_index(w, x, y, c) == k);
        assert(a.channel(x, y, c) == b.channel(x, y, c));
    }
    assert(a.data@ =~= b.data@);
}

impl Image {
    /// A copy of the image.
    pub fn copy(&self) -> (r: Image)
        ensures
            r.same_as(self),
    {
        let mut data: Vec<u8> = Vec::new();
        data.extend_from_slice(self.data.as_slice());
        assert(data@ =~= self.data@);
        Image { width: self.width, height: self.height, data }
    }

    /// Reads one byte of a pixel.
    pub fn get(&self, x: u32, y: u32, c: usize) -> (r: u8)
        requires
            self.wf(),
            x < self.width,
            y < self.height,
            c < 3,
        ensures
            r == self.channel(x as int, y as int, c as int),
    {
        proof {
            byte_index_in_bounds(
                self.width as int,
                self.height as int,
                x as int,
                y as int,
                c as int,
            );
        }
        let n: usize = self.data.len();
        assert(self.width * self.height * 3 == n);
        self.data[(y as usize * self.width as usize + x as usize) * 3 + c]
    }

    /// Writes one byte of a pixel; every other byte stays.
    pub fn put(&mut self, x: u32, y: u32, c: usize, v: u8)
        requires
            old(self).wf(),
            x < old(self).width,
            y < old(self).height,
            c < 3,
        ensures
            final(self).wf(),
            final(self).width == old(self).width,
            final(self).height == old(self).height,
            final(self).data@ == old(self).data@.update(
                byte_index(old(self).width as int, x as int, y as int, c as int),
                v,
            ),
    {
        proof {
            byte_index_in_bounds(
                self.width as int,
                self.height as int,
                x as int,
                y as int,
                c as int,
            );
        }
        let n: usize = self.data.len();
        assert(self.width * self.height * 3 == n);
        let at: usize = (y as usize * self.width as usize + x as usize) * 3 + c;
        self.data.set(at, v);
    }
}

impl Image {
    /// Writes one pixel; every other pixel stays.
    pub fn put_pixel(&mut self, x: u32, y: u32, red: u8, green: u8, blue: u8)
        requires
            old(self).wf(),
            x < old(self).width,
            y < old(self).height,
        ensures
            final(self).wf(),
            final(self).width == old(self).width,
            final(self).height == old(self).height,
            final(self).channel(x as int, y as int, 0) == red,
            final(self).channel(x as int, y as int, 1) == green,
            final(self).channel(x as int, y as int, 2) == blue,
            forall|a: int, b: int, c: int|
                0 <= a < old(self).width && 0 <= b < old(self).height && 0 <= c < 3 && (a != x || b
                    != y) ==> #[trigger] final(self).channel(a, b, c) == old(self).channel(a, b, c),
    {
        let ghost before: Seq<u8> = self.data@;
        let ghost w: int = self.width as int;
        proof {
            byte_index_in_bounds(w, self.height as int, x as int, y as int, 0);
            byte_index_in_bounds(w, self.height as int, x as int, y as int, 2);
        }
        self.put(x, y, 0, red);
        self.put(x, y, 1, green);
        self.put(x, y, 2, blue);
        proof {
            assert forall|a: int, b: int, c: int|
                0 <= a < w && 0 <= b < self.height && 0 <= c < 3 && (a != x || b
                    != y) implies #[trigger] self.channel(a, b, c) == before[byte_index(
                w,
                a,
                b,
                c,
            )] by {
                byte_index_in_bounds(w, self.height as int, a, b, c);
                if byte_index(w, a, b, c) == byte_index(w, x as int, y as int, 0) {
                    byte_index_is_injective(w, a, b, c, x as int, y as int, 0);
                }
                if byte_index(w, a, b, c) == byte_index(w, x as int, y as int, 1) {
                    byte_index_is_injective(w, a, b, c, x as int, y as int, 1);
                }
                if byte_index(w, a, b, c) == byte_index(w, x as int, y as int, 2) {
                    byte_index_is_injective(w, a, b, c, x as int, y as int, 2);
                }
            }
        }
    }
}

// ---------------------------------------------------------------------------
// Cutting out a rectangle
// ---------------------------------------------------------------------------

/// The smaller of two numbers.
pub open spec fn least(a: int, b: int) -> int {
    if a <= b {
        a
    } else {
        b
    }
}

/// `out` is the rectangle of `img` with its upper left corner in column `x` and
/// row `y`, `w` pixels wide and `h` high.
pub open spec fn is_cut_of(out: &Image, img: &Image, x: int, y: int, w: int, h: int) -> bool {
    &&& out.wf()
    &&& out.width == w
    &&& out.height == h
    &&& forall|i: int, j: int, c: int|
        0 <= i < w && 0 <= j < h && 0 <= c < 3 ==> #[trigger] out.channel(i, j, c) == img.channel(
            x + i,
            y + j,
            c,
        )
}

/// The rectangle of `img` that starts at (`x`, `y`) and is `w` by `h` pixels, as
/// far as it lies inside the image.
pub fn cut(img: &Image, x: u32, y: u32, w: u32, h: u32) -> (r: Image)
    requires
        img.wf(),
    ensures
        is_cut_of(
            &r,
            img,
            least(x as int, img.width as int),
            least(y as int, img.height as int),
            least(w as int, img.width - least(x as int, img.width as int)),
            least(h as int, img.height - least(y as int, img.height as int)),
        ),
{
    let x0: u32 = if x < img.width { x } else { img.width };
    let y0: u32 = if y < img.height { y } else { img.height };
    let w0: u32 = if w < img.width - x0 { w } else { img.width - x0 };
    let h0: u32 = if h < img.height - y0 { h } else { img.height - y0 };
    let mut data: Vec<u8> = Vec::new();
    let mut j: u32 = 0;
    proof {
        assert(0 * w0 == 0) by (nonlinear_arith);
    }
    while j < h0
        invariant
            img.wf(),
            j <= h0,
            x0 + w0 <= img.width,
            y0 + h0 <= img.height,
            data@.len() == j * w0 * 3,
            forall|i: int, k: int, c: int|
                #![trigger byte_index(w0 as int, i, k, c)]
                0 <= i < w0 && 0 <= k < j && 0 <= c < 3 ==> data@[byte_index(w0 as int, i, k, c)]
                    == img.channel(x0 + i, y0 + k, c),
        decreases h0 - j,
    {
        let mut i: u32 = 0;
        while i < w0
            invariant
                img.wf(),
                j < h0,
                i <= w0,
                x0 + w0 <= img.width,
                y0 + h0 <= img.height,
                data@.len() == (j * w0 + i) * 3,
                forall|a: int, k: int, c: int|
                    #![trigger byte_index(w0 as int, a, k, c)]
                    0 <= a < w0 && 0 <= k < j && 0 <= c < 3 ==> data@[byte_index(
                        w0 as int,
                        a,
                        k,
                        c,
                    )] == img.channel(x0 + a, y0 + k, c),
                forall|a: int, c: int|
                    #![trigger byte_index(w0 as int, a, j as int, c)]
                    0 <= a < i && 0 <= c < 3 ==> data@[byte_index(w0 as int, a, j as int, c)]
                        == img.channel(x0 + a, y0 + j, c),
            decreases w0 - i,
        {
            let ghost held: Seq<u8> = data@;
            data.push(img.get(x0 + i, y0 + j, 0));
            data.push(img.get(x0 + i, y0 + j, 1));
            data.push(img.get(x0 + i, y0 + j, 2));
            proof {
                assert forall|a: int, k: int, c: int|
                    #![trigger byte_index(w0 as int, a, k, c)]
                    0 <= a < w0 && 0 <= k < j && 0 <= c < 3 implies data@[byte_index(
                    w0 as int,
                    a,
                    k,
                    c,
                )] == img.channel(x0 + a, y0 + k, c) by {
                    byte_index_in_bounds(w0 as int, j as int, a, k, c);
                    assert(w0 * j == j * w0) by (nonlinear_arith);
                    assert(held[byte_index(w0 as int, a, k, c)] == img.channel(
                        x0 + a,
                        y0 + k,
                        c,
                    ));
                }
                assert forall|a: int, c: int|
                    #![trigger byte_index(w0 as int, a, j as int, c)]
                    0 <= a < i + 1 && 0 <= c < 3 implies data@[byte_index(
                    w0 as int,
                    a,
                    j as int,
                    c,
                )] == img.channel(x0 + a, y0 + j, c) by {
                    if a < i {
                        assert(held[byte_index(w0 as int, a, j as int, c)] == img.channel(
                            x0 + a,
                            y0 + j,
                            c,
                        ));
                    }
                }
            }
            i = i + 1;
        }
        proof {
            assert((j + 1) * w0 == j * w0 + w0) by (nonlinear_arith);
        }
        j = j + 1;
    }
    proof {
        assert(h0 * w0 == w0 * h0) by (nonlinear_arith);
    }
    Image { width: w0, height: h0, data }
}

/// There is one cut: two cuts of the same rectangle are the same.
pub proof fn cuts_are_unique(a: &Image, b: &Image, img: &Image, x: int, y: int, w: int, h: int)
    requires
        is_cut_of(a, img, x, y, w, h),
        is_cut_of(b, img, x, y, w, h),
    ensures
        a.same_as(b),
{
    assert forall|i: int, j: int, c: int|
        0 <= i < a.width && 0 <= j < a.height && 0 <= c < 3 implies #[trigger] a.channel(i, j, c)
        == b.channel(i, j, c) by {
        assert(b.channel(i, j, c) == img.channel(x + i, y + j, c));
    }
    channels_tell_the_image(a, b);
}

} // verus!
