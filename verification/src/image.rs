//! A row-flipped RGB pixel buffer and the iteration over its pixels.
//!
//! The buffer stores three channel values per pixel.  Row 0 is the bottom
//! row of the picture: it occupies the last `3 * width` entries of the buffer.

use vstd::prelude::*;
use vstd::slice::slice_subrange;

verus! {

/// Offset of the first channel of the pixel at (`row`, `column`) in the
/// buffer of a `width` by `height` image.
pub open spec fn pixel_offset(width: int, height: int, row: int, column: int) -> int {
    3 * ((height - 1 - row) * width + column)
}

/// The three channels stored at `offset` in `buffer`.
pub open spec fn channels<T>(buffer: Seq<T>, offset: int) -> (T, T, T) {
    (buffer[offset], buffer[offset + 1], buffer[offset + 2])
}

/// An image of `width * height` pixels of three channels each.
pub struct Image<T> {
    pub buffer: Vec<T>,
    pub width: u32,
    pub height: u32,
}

impl<T> Image<T> {
    /// The buffer holds exactly three channels per pixel, and the pixel
    /// count fits the `u32` arithmetic of [`Image::index`].
    pub open spec fn wf(&self) -> bool {
        &&& self.width * self.height <= u32::MAX
        &&& self.buffer.len() == 3 * (self.width * self.height)
    }

    /// Every pixel has a slot that [`Image::index`] can compute and that
    /// lies in the buffer: the pixel count fits `u32` and the buffer holds
    /// at least three channels per pixel.
    pub open spec fn covers(&self) -> bool {
        &&& self.width * self.height <= u32::MAX
        &&& 3 * (self.width * self.height) <= self.buffer.len()
    }

    /// What [`Image::index`] returns.
    pub open spec fn spec_index(&self, row: int, column: int) -> int {
        self.buffer.len() - 3 * (row * self.width + (self.width - column))
    }

    /// The channels of the pixel at (`row`, `column`).
    pub open spec fn pixel_at(&self, row: int, column: int) -> (T, T, T) {
        channels(self.buffer@, self.spec_index(row, column))
    }

    /// Creates a `width` by `height` image whose channels all hold `fill`.
    pub fn new(width: u32, height: u32, fill: T) -> (img: Self)
        where T: Copy,
        requires
            width * height <= u32::MAX,
            3 * (width * height) <= usize::MAX,
        ensures
            img.wf(),
            img.width == width,
            img.height == height,
            forall|i: int| 0 <= i < img.buffer.len() ==> #[trigger] img.buffer@[i] == fill,
    {
        let len = 3 * (width * height) as usize;
        let mut buffer: Vec<T> = Vec::with_capacity(len);
        let mut i: usize = 0;
        while i < len
            invariant
                i <= len,
                buffer.len() == i,
                forall|j: int| 0 <= j < i ==> #[trigger] buffer@[j] == fill,
            decreases len - i,
        {
            buffer.push(fill);
            i += 1;
        }
        Image { buffer, width, height }
    }

    /// Buffer offset of the pixel in `row` and `column`.  Rows are stored
    /// bottom-up: row 0 ends the buffer.
    pub fn index(&self, row: u32, column: u32) -> (i: usize)
        requires
            column <= self.width,
            row * self.width + (self.width - column) <= u32::MAX,
            3 * (row * self.width + (self.width - column)) <= self.buffer.len(),
        ensures
            i == self.spec_index(row as int, column as int),
    {
        let column = self.width - column;
        self.buffer.len() - 3 * (row * self.width + column) as usize
    }

    /// Stores the three channels of `color` from offset `index` on.
    pub fn write(&mut self, color: (T, T, T), index: usize)
        requires
            index + 3 <= old(self).buffer.len(),
        ensures
            final(self).width == old(self).width,
            final(self).height == old(self).height,
            final(self).buffer@ == old(self).buffer@.update(index as int, color.0).update(
                index + 1,
                color.1,
            ).update(index + 2, color.2),
    {
        let (r, g, b) = color;
        self.buffer.set(index, r);
        self.buffer.set(index + 1, g);
        self.buffer.set(index + 2, b);
    }

    /// The three channels stored from offset `index` on.
    pub fn read(&self, index: usize) -> (color: (T, T, T))
        where T: Copy,
        requires
            index + 3 <= self.buffer.len(),
        ensures
            color == channels(self.buffer@, index as int),
    {
        (self.buffer[index], self.buffer[index + 1], self.buffer[index + 2])
    }

    /// Fills every pixel with what `work_load(column, row)` returns, row by
    /// row from row 0, each row from column 0.
    pub fn compute<F>(&mut self, work_load: F)
        where F: Fn(u32, u32) -> (T, T, T),
        requires
            old(self).covers(),
            forall|w: u32, h: u32|
                w < old(self).width && h < old(self).height ==> #[trigger] work_load.requires((w, h)),
        ensures
            final(self).buffer.len() == old(self).buffer.len(),
            forall|i: int|
                0 <= i < old(self).buffer.len() - 3 * (old(self).width * old(self).height)
                    ==> #[trigger] final(self).buffer@[i] == old(self).buffer@[i],
            final(self).width == old(self).width,
            final(self).height == old(self).height,
            forall|h: u32, w: u32|
                h < final(self).height && w < final(self).width ==> work_load.ensures(
                    (w, h),
                    #[trigger] final(self).pixel_at(h as int, w as int),
                ),
    {
        let ghost width = self.width as int;
        let ghost height = self.height as int;
        let ghost len = self.buffer.len();
        let ghost initial = self.buffer@;
        let mut h: u32 = 0;
        while h < self.height
            invariant
                self.covers(),
                self.buffer.len() == len,
                forall|i: int| 0 <= i < len - 3 * (width * height) ==> #[trigger] self.buffer@[i] == initial[i],
                self.width == width,
                self.height == height,
                h <= height,
                forall|w: u32, h: u32|
                    w < width && h < height ==> #[trigger] work_load.requires((w, h)),
                forall|h2: u32, w2: u32|
                    h2 < h && w2 < width ==> work_load.ensures(
                        (w2, h2),
                        #[trigger] self.pixel_at(h2 as int, w2 as int),
                    ),
            decreases height - h,
        {
            let mut w: u32 = 0;
            while w < self.width
                invariant
                    self.covers(),
                    self.buffer.len() == len,
                    forall|i: int| 0 <= i < len - 3 * (width * height) ==> #[trigger] self.buffer@[i] == initial[i],
                    self.width == width,
                    self.height == height,
                    h < height,
                    w <= width,
                    forall|w: u32, h: u32|
                        w < width && h < height ==> #[trigger] work_load.requires((w, h)),
                    forall|h2: u32, w2: u32|
                        (h2 < h && w2 < width) || (h2 == h && w2 < w) ==> work_load.ensures(
                            (w2, h2),
                            #[trigger] self.pixel_at(h2 as int, w2 as int),
                        ),
                decreases width - w,
            {
                let color = work_load(w, h);
                proof {
                    lemma_index_in_bounds(&*self, h, w);
                }
                let index = self.index(h, w);
                let ghost before = *self;
                self.write(color, index);
                proof {
                    assert(self.pixel_at(h as int, w as int) == color);
                    assert forall|h2: u32, w2: u32|
                        (h2 < h && w2 < width) || (h2 == h && w2 < w + 1) implies work_load.ensures(
                        (w2, h2),
                        #[trigger] self.pixel_at(h2 as int, w2 as int),
                    ) by {
                        if h2 != h || w2 != w {
                            lemma_index_in_bounds(&before, h2, w2);
                            lemma_index_slots_disjoint(
                                &before,
                                h as int,
                                w as int,
                                h2 as int,
                                w2 as int,
                            );
                            assert(self.pixel_at(h2 as int, w2 as int) == before.pixel_at(
                                h2 as int,
                                w2 as int,
                            ));
                        }
                    }
                }
                w += 1;
            }
            h += 1;
        }
    }

    /// An iterator over the pixels in buffer order.
    pub fn iter_pixels(&self) -> (it: ImageIterator<'_, T>)
        ensures
            it.inv(),
            it.image() == *self,
            it.yielded() == 0,
    {
        ImageIterator::new(self)
    }
}

/// When the image covers its pixels, [`Image::index`] accepts every
/// in-range pixel and returns the offset of a three-channel slot inside the
/// buffer; for a well-formed image that slot is at [`pixel_offset`].
pub proof fn lemma_index_in_bounds<T>(img: &Image<T>, row: u32, column: u32)
    requires
        img.covers(),
        row < img.height,
        column < img.width,
    ensures
        column <= img.width,
        row * img.width + (img.width - column) <= u32::MAX,
        3 * (row * img.width + (img.width - column)) <= img.buffer.len(),
        0 <= img.spec_index(row as int, column as int),
        img.buffer.len() - 3 * (img.width * img.height) <= img.spec_index(row as int, column as int),
        img.spec_index(row as int, column as int) + 3 <= img.buffer.len(),
        img.wf() ==> img.spec_index(row as int, column as int) == pixel_offset(
            img.width as int,
            img.height as int,
            row as int,
            column as int,
        ),
{
    let w = img.width as int;
    let h = img.height as int;
    let r = row as int;
    let c = column as int;
    assert(r * w + (w - c) <= w * h) by (nonlinear_arith)
        requires
            0 <= r < h,
            0 <= c < w,
    ;
    assert(3 * (w * h) - 3 * (r * w + (w - c)) == 3 * ((h - 1 - r) * w + c)) by (nonlinear_arith);
    assert(1 <= r * w + (w - c)) by (nonlinear_arith)
        requires
            0 <= r,
            0 <= c < w,
    ;
}

/// [`Image::index`] gives distinct in-range pixels disjoint three-channel
/// slots.
pub proof fn lemma_index_slots_disjoint<T>(img: &Image<T>, r1: int, c1: int, r2: int, c2: int)
    requires
        0 <= r1,
        0 <= r2,
        0 <= c1 < img.width,
        0 <= c2 < img.width,
        r1 != r2 || c1 != c2,
    ensures
        img.spec_index(r1, c1) + 3 <= img.spec_index(r2, c2) || img.spec_index(r2, c2) + 3
            <= img.spec_index(r1, c1),
{
    let w = img.width as int;
    let k1 = r1 * w + (w - 1 - c1);
    let k2 = r2 * w + (w - 1 - c2);
    if r1 < r2 {
        assert(k1 < k2) by (nonlinear_arith)
            requires
                r1 + 1 <= r2,
                k1 == r1 * w + (w - 1 - c1),
                k2 == r2 * w + (w - 1 - c2),
                0 <= c1 < w,
                0 <= c2 < w,
        ;
    } else if r2 < r1 {
        assert(k2 < k1) by (nonlinear_arith)
            requires
                r2 + 1 <= r1,
                k1 == r1 * w + (w - 1 - c1),
                k2 == r2 * w + (w - 1 - c2),
                0 <= c1 < w,
                0 <= c2 < w,
        ;
    }
}

/// Reading a slot gives back the color last written there, and writing a
/// slot leaves every channel outside it as it was.
pub proof fn lemma_read_after_write<T>(buffer: Seq<T>, index: int, color: (T, T, T), other: int)
    requires
        0 <= index,
        index + 3 <= buffer.len(),
        0 <= other < buffer.len(),
        !(index <= other < index + 3),
    ensures
        ({
            let written = buffer.update(index, color.0).update(index + 1, color.1).update(
                index + 2,
                color.2,
            );
            &&& channels(written, index) == color
            &&& written[other] == buffer[other]
            &&& written.len() == buffer.len()
        }),
{
}

/// The `n`-th pixel an [`ImageIterator`] yields, at column `n % width` and
/// iterator row `n / width`, is the pixel that [`Image::index`] places at
/// offset `3 * n`: iterator rows count from the top, image rows from the
/// bottom.
pub proof fn lemma_iteration_order_matches_index(width: int, height: int, n: int)
    requires
        0 <= n < width * height,
        width > 0,
    ensures
        0 <= height - 1 - n / width < height,
        pixel_offset(width, height, height - 1 - n / width, n % width) == 3 * n,
{
    let q = n / width;
    let r = n % width;
    vstd::arithmetic::div_mod::lemma_fundamental_div_mod(n, width);
    vstd::arithmetic::div_mod::lemma_mod_bound(n, width);
    assert(0 <= q < height) by (nonlinear_arith)
        requires
            n == width * q + r,
            0 <= r < width,
            0 <= n < width * height,
    ;
    assert(3 * ((height - 1 - (height - 1 - q)) * width + r) == 3 * n) by (nonlinear_arith)
        requires
            n == width * q + r,
    ;
}

/// Iterating over `width * height` pixels visits each pixel exactly once:
/// distinct steps yield distinct positions, and the pixel at column `x` and
/// row `y` is yielded at step `y * width + x`.
pub proof fn lemma_iteration_visits_each_pixel_once(width: int, height: int, n1: int, n2: int, x: int, y: int)
    requires
        width > 0,
        0 <= n1 < width * height,
        0 <= n2 < width * height,
        0 <= x < width,
        0 <= y < height,
    ensures
        n1 != n2 ==> (n1 % width != n2 % width || n1 / width != n2 / width),
        0 <= y * width + x < width * height,
        (y * width + x) % width == x,
        (y * width + x) / width == y,
{
    vstd::arithmetic::div_mod::lemma_fundamental_div_mod(n1, width);
    vstd::arithmetic::div_mod::lemma_fundamental_div_mod(n2, width);
    vstd::arithmetic::div_mod::lemma_fundamental_div_mod_converse(y * width + x, width, y, x);
    assert(y * width + x < width * height) by (nonlinear_arith)
        requires
            0 <= x < width,
            0 <= y < height,
    ;
    assert(0 <= y * width) by (nonlinear_arith)
        requires
            0 <= y,
            0 < width,
    ;
}

/// Walks the pixels of an image in buffer order, yielding each pixel's
/// position and its three channels.
pub struct ImageIterator<'a, T> {
    image: &'a Image<T>,
    x: usize,
    y: usize,
    idx: usize,
}

impl<'a, T> ImageIterator<'a, T> {
    /// The iterator's bookkeeping: `idx` is three times the number of pixels
    /// yielded so far, which is `y * width + x`; with a width of 0 every
    /// pixel starts a new row.
    pub closed spec fn inv(&self) -> bool {
        let width = self.image.width as int;
        let len = self.image.buffer.len() as int;
        &&& self.idx <= len
        &&& self.idx % 3 == 0
        &&& if width > 0 {
            &&& self.x <= width
            &&& self.idx == 3 * (self.y * width + self.x)
        } else {
            &&& self.y == self.idx / 3
            &&& self.x == if self.idx == 0 {
                0int
            } else {
                1int
            }
        }
    }

    /// The image walked over.
    pub closed spec fn image(&self) -> Image<T> {
        *self.image
    }

    /// How many pixels have been yielded so far.
    pub closed spec fn yielded(&self) -> int {
        self.idx as int / 3
    }

    pub fn new(image: &'a Image<T>) -> (it: Self)
        ensures
            it.inv(),
            it.image() == *image,
            it.yielded() == 0,
    {
        ImageIterator { image, x: 0, y: 0, idx: 0 }
    }

    /// Yields the `n`-th group of three channels of the buffer with its
    /// position: column `n % width` and row `n / width` (for a width of 0,
    /// column 0 and row `n + 1`); `None` once the buffer is exhausted.  A
    /// last group with fewer than three channels cannot be yielded.
    pub fn next(&mut self) -> (item: Option<(usize, usize, &'a [T])>)
        requires
            old(self).inv(),
            3 * old(self).yielded() >= old(self).image().buffer.len() || 3 * old(self).yielded() + 3
                <= old(self).image().buffer.len(),
        ensures
            final(self).inv(),
            final(self).image() == old(self).image(),
            ({
                let img = old(self).image();
                let width = img.width as int;
                let n = old(self).yielded();
                if 3 * n < img.buffer.len() {
                    &&& final(self).yielded() == n + 1
                    &&& item matches Some((x, y, s)) && s@ == img.buffer@.subrange(3 * n, 3 * n + 3)
                        && (width > 0 ==> x == n % width && y == n / width) && (width == 0 ==> x == 0
                        && y == n + 1)
                } else {
                    &&& final(self).yielded() == n
                    &&& item is None
                }
            }),
    {
        let ghost w = self.image.width as int;
        let len = self.image.buffer.len();
        if self.idx >= len {
            return None;
        }
        let mut x = self.x;
        let mut y = self.y;
        let width = self.image.width as usize;
        if x >= width {
            proof {
                if w > 0 {
                    assert((y + 1) * w == y * w + w) by (nonlinear_arith);
                    assert(y + 1 <= (y + 1) * w) by (nonlinear_arith)
                        requires
                            w >= 1,
                            y >= 0,
                    ;
                }
            }
            x = 0;
            y += 1;
        }
        let idx = self.idx;
        proof {
            if w > 0 {
                assert(idx == 3 * (y * w + x));
                assert(x < w);
                vstd::arithmetic::div_mod::lemma_fundamental_div_mod_converse(
                    (y * w + x) as int,
                    w,
                    y as int,
                    x as int,
                );
            }
        }
        let buf = slice_subrange(self.image.buffer.as_slice(), idx, idx + 3);
        *self = ImageIterator { image: self.image, x: x + 1, y, idx: idx + 3 };
        Some((x, y, buf))
    }

    /// Returns the buffer length as both bounds.
    pub fn size_hint(&self) -> (bounds: (usize, Option<usize>))
        ensures
            bounds == (self.image().buffer.len(), Some(self.image().buffer.len())),
    {
        let len = self.image.buffer.len();
        (len, Some(len))
    }
}

} // verus!
