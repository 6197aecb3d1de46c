//! RGBA pixel buffers.
use vstd::prelude::*;

verus! {

/// One pixel: red, green, blue, alpha.
#[derive(Debug, Clone, Copy, PartialEq, Eq, Structural)]
pub struct Rgba {
    pub r: u8,
    pub g: u8,
    pub b: u8,
    pub a: u8,
}

impl Rgba {
    pub open spec fn transparent() -> Rgba {
        Rgba { r: 0, g: 0, b: 0, a: 0 }
    }

    /// An opaque colour.
    pub fn opaque(r: u8, g: u8, b: u8) -> (c: Rgba)
        ensures
            c == (Rgba { r, g, b, a: 255 }),
    {
        Rgba { r, g, b, a: 255 }
    }
}

/// An image of `width` x `height` pixels, stored row by row.
pub struct RgbaImage {
    width: u32,
    height: u32,
    pixels: Vec<Rgba>,
}

/// Where pixel (x, y) sits in row-major order.
pub open spec fn pixel_index(width: int, x: int, y: int) -> int {
    y * width + x
}

/// Distinct pixels of an image sit at distinct places.
pub proof fn lemma_pixel_index(width: int, height: int, x: int, y: int)
    requires
        0 <= x < width,
        0 <= y < height,
    ensures
        0 <= pixel_index(width, x, y) < width * height,
        forall|x2: int, y2: int|
            0 <= x2 < width && 0 <= y2 < height && (x2 != x || y2 != y) ==> #[trigger] pixel_index(
                width,
                x2,
                y2,
            ) != pixel_index(width, x, y),
{
    assert(0 <= y * width + x < width * height) by (nonlinear_arith)
        requires
            0 <= x < width,
            0 <= y < height,
    ;
    assert forall|x2: int, y2: int|
        0 <= x2 < width && 0 <= y2 < height && (x2 != x || y2 != y) implies #[trigger] pixel_index(
        width,
        x2,
        y2,
    ) != pixel_index(width, x, y) by {
        if y2 == y {
        } else if y2 < y {
            assert(y2 * width + x2 < y * width + x) by (nonlinear_arith)
                requires
                    y2 < y,
                    0 <= x2 < width,
                    0 <= x,
            ;
        } else {
            assert(y * width + x < y2 * width + x2) by (nonlinear_arith)
                requires
                    y < y2,
                    0 <= x < width,
                    0 <= x2,
            ;
        }
    }
}

impl RgbaImage {
    /// The pixel buffer holds exactly width x height pixels.
    pub closed spec fn wf(&self) -> bool {
        self.pixels@.len() == self.width * self.height
    }

    pub closed spec fn spec_width(&self) -> nat {
        self.width as nat
    }

    pub closed spec fn spec_height(&self) -> nat {
        self.height as nat
    }

    /// The pixel at (x, y), for x below the width and y below the height.
    pub closed spec fn pixel(&self, x: int, y: int) -> Rgba {
        self.pixels@[pixel_index(self.width as int, x, y)]
    }

    /// A `width` x `height` image of transparent black pixels.
    pub fn new(width: u32, height: u32) -> (img: RgbaImage)
        requires
            width * height <= usize::MAX,
        ensures
            img.wf(),
            img.spec_width() == width,
            img.spec_height() == height,
            forall|x: int, y: int|
                0 <= x < width && 0 <= y < height ==> #[trigger] img.pixel(x, y)
                    == Rgba::transparent(),
    {
        let n = (width as usize) * (height as usize);
        let mut pixels: Vec<Rgba> = Vec::new();
        let mut i: usize = 0;
        while i < n
            invariant
                i <= n,
                pixels@.len() == i,
                forall|j: int| 0 <= j < i ==> pixels@[j] == Rgba::transparent(),
            decreases n - i,
        {
            pixels.push(Rgba { r: 0, g: 0, b: 0, a: 0 });
            i = i + 1;
        }
        let img = RgbaImage { width, height, pixels };
        proof {
            assert forall|x: int, y: int|
                0 <= x < width && 0 <= y < height implies #[trigger] img.pixel(x, y)
                == Rgba::transparent() by {
                lemma_pixel_index(width as int, height as int, x, y);
            }
        }
        img
    }

    pub fn width(&self) -> (w: u32)
        ensures
            w == self.spec_width(),
    {
        self.width
    }

    pub fn height(&self) -> (h: u32)
        ensures
            h == self.spec_height(),
    {
        self.height
    }

    /// The pixel at (x, y).
    pub fn get_pixel(&self, x: u32, y: u32) -> (p: Rgba)
        requires
            self.wf(),
            x < self.spec_width(),
            y < self.spec_height(),
        ensures
            p == self.pixel(x as int, y as int),
    {
        proof {
            lemma_pixel_index(self.width as int, self.height as int, x as int, y as int);
        }
        let (xi, yi, wi) = (x as usize, y as usize, self.width as usize);
        let len = self.pixels.len();
        assert(yi * wi + xi < len);
        assert(yi * wi <= yi * wi + xi);
        self.pixels[yi * wi + xi]
    }

    /// Sets the pixel at (x, y) and leaves the others as they were.
    pub fn put_pixel(&mut self, x: u32, y: u32, p: Rgba)
        requires
            old(self).wf(),
            x < old(self).spec_width(),
            y < old(self).spec_height(),
        ensures
            final(self).wf(),
            final(self).spec_width() == old(self).spec_width(),
            final(self).spec_height() == old(self).spec_height(),
            forall|x2: int, y2: int|
                0 <= x2 < old(self).spec_width() && 0 <= y2 < old(self).spec_height()
                    ==> #[trigger] final(self).pixel(x2, y2) == (if x2 == x && y2 == y {
                    p
                } else {
                    old(self).pixel(x2, y2)
                }),
    {
        proof {
            lemma_pixel_index(self.width as int, self.height as int, x as int, y as int);
        }
        let (xi, yi, wi) = (x as usize, y as usize, self.width as usize);
        let len = self.pixels.len();
        assert(yi * wi + xi < len);
        assert(yi * wi <= yi * wi + xi);
        let i = yi * wi + xi;
        assert(i == pixel_index(self.width as int, x as int, y as int));
        let ghost before = *self;
        self.pixels.set(i, p);
        proof {
            assert forall|x2: int, y2: int|
                0 <= x2 < before.width && 0 <= y2 < before.height implies #[trigger] self.pixel(
                x2,
                y2,
            ) == (if x2 == x && y2 == y {
                p
            } else {
                before.pixel(x2, y2)
            }) by {
                if x2 != x || y2 != y {
                    assert(pixel_index(before.width as int, x2, y2) != pixel_index(
                        before.width as int,
                        x as int,
                        y as int,
                    ));
                    lemma_pixel_index(before.width as int, before.height as int, x2, y2);
                }
            }
        }
    }

    /// The pixel bytes, row by row, four bytes (r, g, b, a) per pixel.
    pub fn as_raw(&self) -> (raw: Vec<u8>)
        requires
            self.wf(),
        ensures
            raw@.len() == 4 * self.spec_width() * self.spec_height(),
            raw@ == self.raw_bytes(),
    {
        let mut raw: Vec<u8> = Vec::new();
        let mut i: usize = 0;
        while i < self.pixels.len()
            invariant
                i <= self.pixels@.len(),
                raw@ == pixel_bytes(self.pixels@.take(i as int)),
            decreases self.pixels@.len() - i,
        {
            let p = self.pixels[i];
            raw.push(p.r);
            raw.push(p.g);
            raw.push(p.b);
            raw.push(p.a);
            proof {
                assert(self.pixels@.take(i + 1).drop_last() =~= self.pixels@.take(i as int));
            }
            i = i + 1;
        }
        proof {
            assert(self.pixels@.take(self.pixels@.len() as int) =~= self.pixels@);
            lemma_pixel_bytes_len(self.pixels@);
            assert(4 * (self.width * self.height) == 4 * self.width * self.height) by (nonlinear_arith);
        }
        raw
    }

    /// The pixel bytes of the image, row by row.
    pub closed spec fn raw_bytes(&self) -> Seq<u8> {
        pixel_bytes(self.pixels@)
    }

    /// An image from its pixel bytes (four per pixel, row by row).
    pub fn from_raw(width: u32, height: u32, raw: &Vec<u8>) -> (img: RgbaImage)
        requires
            raw@.len() == 4 * width * height,
        ensures
            img.wf(),
            img.spec_width() == width,
            img.spec_height() == height,
            img.raw_bytes() == raw@,
    {
        let n = raw.len() / 4;
        let mut pixels: Vec<Rgba> = Vec::new();
        let mut i: usize = 0;
        proof {
            assert(n == width * height && n * 4 == raw@.len()) by (nonlinear_arith)
                requires
                    n == raw@.len() / 4,
                    raw@.len() == 4 * width * height,
            ;
        }
        while i < n
            invariant
                i <= n,
                n * 4 == raw@.len(),
                pixels@.len() == i,
                pixel_bytes(pixels@) == raw@.subrange(0, 4 * i),
            decreases n - i,
        {
            let rl = raw.len();
            assert(4 * i + 3 < rl);
            let p = Rgba { r: raw[4 * i], g: raw[4 * i + 1], b: raw[4 * i + 2], a: raw[4 * i + 3] };
            let ghost before = pixels@;
            pixels.push(p);
            proof {
                assert(pixels@.drop_last() =~= before);
                assert(pixel_bytes(pixels@) =~= raw@.subrange(0, 4 * (i + 1)));
            }
            i = i + 1;
        }
        proof {
            assert(raw@.subrange(0, 4 * n) =~= raw@);
        }
        RgbaImage { width, height, pixels }
    }
}

/// The bytes of a run of pixels, four per pixel.
pub open spec fn pixel_bytes(ps: Seq<Rgba>) -> Seq<u8>
    decreases ps.len(),
{
    if ps.len() == 0 {
        seq![]
    } else {
        let p = ps.last();
        pixel_bytes(ps.drop_last()) + seq![p.r, p.g, p.b, p.a]
    }
}

pub proof fn lemma_pixel_bytes_len(ps: Seq<Rgba>)
    ensures
        pixel_bytes(ps).len() == 4 * ps.len(),
    decreases ps.len(),
{
    if ps.len() > 0 {
        lemma_pixel_bytes_len(ps.drop_last());
    }
}

/// (x, y) lies in columns x0..x1 and rows y0..y1 (upper ends excluded).
pub open spec fn in_rect(x: int, y: int, x0: int, x1: int, y0: int, y1: int) -> bool {
    x0 <= x < x1 && y0 <= y < y1
}

/// Fills columns `x0..x1` of rows `y0..y1` with `color`.
pub fn fill_rect(img: &mut RgbaImage, x0: u32, x1: u32, y0: u32, y1: u32, color: Rgba)
    requires
        old(img).wf(),
        x1 <= old(img).spec_width(),
        y1 <= old(img).spec_height(),
    ensures
        final(img).wf(),
        final(img).spec_width() == old(img).spec_width(),
        final(img).spec_height() == old(img).spec_height(),
        forall|x: int, y: int|
            0 <= x < old(img).spec_width() && 0 <= y < old(img).spec_height()
                ==> #[trigger] final(img).pixel(x, y) == (if in_rect(
                x,
                y,
                x0 as int,
                x1 as int,
                y0 as int,
                y1 as int,
            ) {
                color
            } else {
                old(img).pixel(x, y)
            }),
{
    let ghost start = *img;
    let mut y = y0;
    while y < y1
        invariant
            img.wf(),
            img.spec_width() == start.spec_width(),
            img.spec_height() == start.spec_height(),
            x1 <= start.spec_width(),
            y1 <= start.spec_height(),
            y0 <= y,
            y0 < y1 ==> y <= y1,
            y0 >= y1 ==> y == y0,
            forall|px: int, py: int|
                0 <= px < start.spec_width() && 0 <= py < start.spec_height()
                    ==> #[trigger] img.pixel(px, py) == (if in_rect(
                    px,
                    py,
                    x0 as int,
                    x1 as int,
                    y0 as int,
                    y as int,
                ) {
                    color
                } else {
                    start.pixel(px, py)
                }),
        decreases y1 - y,
    {
        let mut x = x0;
        while x < x1
            invariant
                img.wf(),
                img.spec_width() == start.spec_width(),
                img.spec_height() == start.spec_height(),
                x1 <= start.spec_width(),
                y < y1 <= start.spec_height(),
                y0 <= y,
                x0 <= x,
                x0 < x1 ==> x <= x1,
                x0 >= x1 ==> x == x0,
                forall|px: int, py: int|
                    0 <= px < start.spec_width() && 0 <= py < start.spec_height()
                        ==> #[trigger] img.pixel(px, py) == (if in_rect(
                        px,
                        py,
                        x0 as int,
                        x1 as int,
                        y0 as int,
                        y as int,
                    ) || (py == y && x0 <= px < x) {
                        color
                    } else {
                        start.pixel(px, py)
                    }),
            decreases x1 - x,
        {
            img.put_pixel(x, y, color);
            x = x + 1;
        }
        y = y + 1;
    }
}

} // verus!
