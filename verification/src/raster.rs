//! Pictures of four bytes a pixel, stored row by row from the top left corner.
use vstd::arithmetic::div_mod::lemma_fundamental_div_mod_converse;
use vstd::prelude::*;
use vstd::slice::*;

use crate::bytes::push_bytes;

verus! {

/// A picture: `height` rows of `width` pixels, each pixel red, green, blue and alpha.
pub struct Image {
    pub width: u32,
    pub height: u32,
    pub pixels: Vec<u8>,
}

/// What an [`Image`] shows.
#[verifier::ext_equal]
pub struct Raster {
    pub width: u32,
    pub height: u32,
    pub pixels: Seq<u8>,
}

impl View for Image {
    type V = Raster;

    open spec fn view(&self) -> Raster {
        Raster { width: self.width, height: self.height, pixels: self.pixels@ }
    }
}

impl Raster {
    /// The pixel bytes are as many as the two dimensions ask for.
    pub open spec fn wf(self) -> bool {
        self.pixels.len() == byte_count(self.width as int, self.height as int)
    }

    /// The bytes that the picture takes.
    pub open spec fn size(self) -> int {
        byte_count(self.width as int, self.height as int)
    }

    /// Channel `c` of the pixel in column `x` of row `y`.
    pub open spec fn at(self, x: int, y: int, c: int) -> u8 {
        self.pixels[place(self.width as int, x, y, c)]
    }

    /// The `width` by `height` rectangle whose top left corner is at `x`, `y`.
    pub open spec fn cropped(self, x: int, y: int, width: u32, height: u32) -> Raster {
        drawn(width, height, |px: int, py: int, c: int| self.at(x + px, y + py, c))
    }
}

/// The bytes of a picture of these dimensions.
pub open spec fn byte_count(width: int, height: int) -> int {
    4 * (width * height)
}

/// Where channel `c` of the pixel in column `x` of row `y` is stored.
pub open spec fn place(width: int, x: int, y: int, c: int) -> int {
    4 * (y * width + x) + c
}

/// The picture whose pixel bytes a function of column, row and channel gives.
pub open spec fn drawn(width: u32, height: u32, shade: spec_fn(int, int, int) -> u8) -> Raster {
    Raster {
        width,
        height,
        pixels: Seq::new(
            byte_count(width as int, height as int) as nat,
            |i: int| shade((i / 4) % (width as int), (i / 4) / (width as int), i % 4),
        ),
    }
}

/// What the images show.
pub open spec fn rasters(images: Seq<Image>) -> Seq<Raster> {
    Seq::new(images.len(), |i: int| images[i]@)
}

/// What the images show, those that are there.
pub open spec fn loaded(images: Seq<Option<Image>>) -> Seq<Option<Raster>> {
    Seq::new(
        images.len(),
        |i: int|
            match images[i] {
                Some(image) => Some(image@),
                None => None,
            },
    )
}

/// The first picture from `from` on that is missing.
pub open spec fn first_missing(pictures: Seq<Option<Raster>>, from: int) -> Option<int>
    decreases pictures.len() - from,
{
    if from < 0 || from >= pictures.len() {
        None
    } else if pictures[from] is None {
        Some(from)
    } else {
        first_missing(pictures, from + 1)
    }
}

/// Every stored byte belongs to one channel of one pixel.
pub proof fn lemma_place(width: int, height: int, x: int, y: int, c: int)
    requires
        0 <= x < width,
        0 <= y < height,
        0 <= c < 4,
    ensures
        0 <= place(width, x, y, c) < byte_count(width, height),
        (place(width, x, y, c) / 4) % width == x,
        (place(width, x, y, c) / 4) / width == y,
        place(width, x, y, c) % 4 == c,
{
    let q = y * width + x;
    assert(place(width, x, y, c) / 4 == q);
    lemma_fundamental_div_mod_converse(q, width, y, x);
    assert(0 <= q && q + 1 <= width * height) by (nonlinear_arith)
        requires
            0 <= x < width,
            0 <= y < height,
            q == y * width + x,
    ;
}

/// The pixel that a stored byte belongs to.
pub proof fn lemma_place_of(width: int, height: int, i: int)
    requires
        0 <= width,
        0 <= height,
        0 <= i < byte_count(width, height),
    ensures
        0 <= (i / 4) % width < width,
        0 <= (i / 4) / width < height,
        place(width, (i / 4) % width, (i / 4) / width, i % 4) == i,
{
    let q = i / 4;
    assert(width > 0) by (nonlinear_arith)
        requires
            0 <= width,
            0 <= q < width * height,
    ;
    vstd::arithmetic::div_mod::lemma_fundamental_div_mod(q, width);
    vstd::arithmetic::div_mod::lemma_mod_bound(q, width);
    let y = q / width;
    let x = q % width;
    assert(q == y * width + x) by (nonlinear_arith)
        requires
            q == width * y + x,
    ;
    assert(0 <= y && y < height) by (nonlinear_arith)
        requires
            0 < width,
            0 <= q < width * height,
            q == y * width + x,
            0 <= x < width,
    ;
}

/// A drawn picture shows what its function says.
pub proof fn lemma_drawn_at(
    width: u32,
    height: u32,
    shade: spec_fn(int, int, int) -> u8,
    x: int,
    y: int,
    c: int,
)
    requires
        0 <= x < width,
        0 <= y < height,
        0 <= c < 4,
    ensures
        drawn(width, height, shade).at(x, y, c) == shade(x, y, c),
{
    lemma_place(width as int, height as int, x, y, c);
}

/// A drawn picture is well formed.
pub proof fn lemma_drawn_wf(width: u32, height: u32, shade: spec_fn(int, int, int) -> u8)
    ensures
        drawn(width, height, shade).wf(),
{
    assert(0 <= width * height) by (nonlinear_arith);
}

/// Two pictures that agree on every channel of every pixel are the same.
pub proof fn lemma_same_picture(a: Raster, b: Raster)
    requires
        a.wf(),
        b.wf(),
        a.width == b.width,
        a.height == b.height,
        forall|x: int, y: int, c: int|
            0 <= x < a.width && 0 <= y < a.height && 0 <= c < 4 ==> #[trigger] a.at(x, y, c)
                == b.at(x, y, c),
    ensures
        a == b,
{
    let w = a.width as int;
    assert forall|i: int| 0 <= i < a.pixels.len() implies a.pixels[i] == b.pixels[i] by {
        lemma_place_of(w, a.height as int, i);
        let x = (i / 4) % w;
        let y = (i / 4) / w;
        assert(a.at(x, y, i % 4) == b.at(x, y, i % 4));
    }
    assert(a.pixels =~= b.pixels);
}

/// Whether the bytes so far are the first bytes of the picture.
pub open spec fn begins(pixels: Seq<u8>, picture: Raster) -> bool {
    &&& pixels.len() <= picture.pixels.len()
    &&& forall|i: int| 0 <= i < pixels.len() ==> #[trigger] pixels[i] == picture.pixels[i]
}

/// A run of pixels of one row continues a picture.
pub proof fn lemma_begins_run(
    pixels: Seq<u8>,
    run: Seq<u8>,
    width: u32,
    height: u32,
    shade: spec_fn(int, int, int) -> u8,
    x: int,
    y: int,
    count: int,
)
    requires
        begins(pixels, drawn(width, height, shade)),
        0 <= x,
        0 <= count,
        x + count <= width,
        0 <= y < height,
        pixels.len() == 4 * (y * width + x),
        run.len() == 4 * count,
        forall|k: int, c: int|
            0 <= k < count && 0 <= c < 4 ==> #[trigger] run[4 * k + c] == shade(x + k, y, c),
    ensures
        begins(pixels + run, drawn(width, height, shade)),
        (pixels + run).len() == 4 * (y * width + x + count),
{
    let picture = drawn(width, height, shade);
    let all = pixels + run;
    assert(y * width + x + count <= width * height) by (nonlinear_arith)
        requires
            0 <= y < height,
            x + count <= width,
    ;
    assert forall|i: int| 0 <= i < all.len() implies #[trigger] all[i] == picture.pixels[i] by {
        if i < pixels.len() {
            assert(all[i] == pixels[i]);
        } else {
            let j = i - pixels.len();
            let k = j / 4;
            let c = j % 4;
            assert(run[4 * k + c] == shade(x + k, y, c));
            lemma_place(width as int, height as int, x + k, y, c);
            assert(place(width as int, x + k, y, c) == i);
        }
    }
}

/// Once all the bytes are there, they are the picture.
pub proof fn lemma_begins_all(pixels: Seq<u8>, picture: Raster)
    requires
        begins(pixels, picture),
        pixels.len() == picture.pixels.len(),
    ensures
        pixels == picture.pixels,
{
    assert(pixels =~= picture.pixels);
}

/// Puts `count` zero bytes behind the bytes of `out`.
pub fn push_zeros(out: &mut Vec<u8>, count: u64)
    ensures
        final(out)@ == old(out)@ + Seq::new(count as nat, |i: int| 0u8),
{
    let mut done: u64 = 0;
    let ghost before = out@;
    while done < count
        invariant
            done <= count,
            out@ == before + Seq::new(done as nat, |i: int| 0u8),
        decreases count - done,
    {
        out.push(0);
        done = done + 1;
        assert(out@ =~= before + Seq::new(done as nat, |i: int| 0u8));
    }
}

impl Image {
    /// The `width` by `height` rectangle whose top left corner is at `x`, `y`.
    pub fn crop(&self, x: u32, y: u32, width: u32, height: u32) -> (part: Image)
        requires
            self@.wf(),
            x + width <= self.width,
            y + height <= self.height,
        ensures
            part@ == self@.cropped(x as int, y as int, width, height),
            part@.wf(),
    {
        let mut pixels: Vec<u8> = Vec::new();
        let ghost shade = |px: int, py: int, c: int| self@.at(x + px, y + py, c);
        let ghost picture = drawn(width, height, shade);
        let mut row: u32 = 0;
        assert(4 * (0 * width + 0) == 0) by (nonlinear_arith);
        while row < height
            invariant
                self@.wf(),
                x + width <= self.width,
                y + height <= self.height,
                row <= height,
                picture == drawn(width, height, shade),
                shade == (|px: int, py: int, c: int| self@.at(x + px, y + py, c)),
                begins(pixels@, picture),
                pixels@.len() == 4 * (row * width + 0),
            decreases height - row,
        {
            assert((y + row) * self.width + x + width <= self.width * self.height)
                by (nonlinear_arith)
                requires
                    y + row < self.height,
                    x + width <= self.width,
            ;
            assert(0 <= (y + row) * self.width) by (nonlinear_arith);
            assert(self.pixels@.len() == self.pixels.len());
            let from: usize = 4 * ((y as usize + row as usize) * (self.width as usize)
                + x as usize);
            let to: usize = from + 4 * (width as usize);
            let run = slice_subrange(self.pixels.as_slice(), from, to);
            proof {
                assert forall|k: int, c: int| 0 <= k < width && 0 <= c < 4 implies #[trigger] run@[4
                    * k + c] == shade(0 + k, row as int, c) by {
                    assert(run@[4 * k + c] == self.pixels@[from + 4 * k + c]);
                }
                lemma_begins_run(
                    pixels@,
                    run@,
                    width,
                    height,
                    shade,
                    0,
                    row as int,
                    width as int,
                );
                assert(row * width + 0 + width == (row + 1) * width + 0) by (nonlinear_arith);
            }
            push_bytes(&mut pixels, run);
            row = row + 1;
        }
        proof {
            lemma_drawn_wf(width, height, shade);
            assert(height * width + 0 == width * height) by (nonlinear_arith);
            lemma_begins_all(pixels@, picture);
        }
        Image { width, height, pixels }
    }
}

} // verus!
