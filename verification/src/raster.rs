//! Rasterizer: paints one vertical bar per column into an RGBA byte grid.
//!
//! Pixel `(x, y)` is foreground exactly when `height - (y + 1)` is below the
//! column's height, which grows a bar upward from the bottom row with no
//! anti-aliasing; every pixel is exactly the foreground or the background
//! color.

use vstd::prelude::*;

verus! {

/// An 8-bit RGBA color.
#[derive(Clone, Copy, PartialEq, Eq, Structural, Debug)]
pub struct Color {
    pub red: u8,
    pub green: u8,
    pub blue: u8,
    pub alpha: u8,
}

impl Color {
    /// The channels in memory order.
    pub open spec fn spec_channel(self, c: int) -> u8 {
        if c == 0 {
            self.red
        } else if c == 1 {
            self.green
        } else if c == 2 {
            self.blue
        } else {
            self.alpha
        }
    }

    pub fn new(red: u8, green: u8, blue: u8, alpha: u8) -> (c: Color)
        ensures
            c == (Color { red, green, blue, alpha }),
    {
        Color { red, green, blue, alpha }
    }

    /// A gray level: all three channels at the same value.
    pub fn gray(level: u8, alpha: u8) -> (c: Color)
        ensures
            c == (Color { red: level, green: level, blue: level, alpha }),
    {
        Color { red: level, green: level, blue: level, alpha }
    }
}

/// A row-major RGBA image, 4 bytes per pixel.
pub struct Raster {
    pub width: u32,
    pub height: u32,
    pub data: Vec<u8>,
}

impl Raster {
    /// The byte buffer holds exactly the pixel grid.
    pub open spec fn wf(self) -> bool {
        self.data@.len() == 4 * self.width * self.height
    }

    /// Byte index of channel `c` of pixel `(x, y)`.
    pub open spec fn byte_index(self, x: int, y: int, c: int) -> int {
        4 * (y * self.width + x) + c
    }

    /// The color stored at pixel `(x, y)`.
    pub open spec fn spec_pixel(self, x: int, y: int) -> Color {
        Color {
            red: self.data@[self.byte_index(x, y, 0)],
            green: self.data@[self.byte_index(x, y, 1)],
            blue: self.data@[self.byte_index(x, y, 2)],
            alpha: self.data@[self.byte_index(x, y, 3)],
        }
    }

    /// The stored color of a pixel, read back from the byte buffer.
    pub fn pixel(&self, x: u32, y: u32) -> (c: Color)
        requires
            self.wf(),
            x < self.width,
            y < self.height,
        ensures
            c == self.spec_pixel(x as int, y as int),
    {
        let n: usize = self.data.len();
        proof {
            lemma_byte_index_in_range(*self, x as int, y as int);
            assert(4 * ((y as int) * (self.width as int) + (x as int)) + 3 < n);
        }
        let base: usize = 4 * ((y as usize) * (self.width as usize) + (x as usize));
        Color {
            red: self.data[base],
            green: self.data[base + 1],
            blue: self.data[base + 2],
            alpha: self.data[base + 3],
        }
    }
}

proof fn lemma_byte_index_in_range(img: Raster, x: int, y: int)
    requires
        img.wf(),
        0 <= x < img.width,
        0 <= y < img.height,
    ensures
        0 <= y * img.width,
        0 <= img.byte_index(x, y, 0),
        img.byte_index(x, y, 3) < img.data@.len(),
{
    assert(0 <= y * img.width) by (nonlinear_arith)
        requires
            0 <= y,
            0 <= img.width,
    ;
    assert(0 <= 4 * (y * img.width + x) && 4 * (y * img.width + x) + 3 < 4 * img.width
        * img.height) by (nonlinear_arith)
        requires
            0 <= x < img.width,
            0 <= y < img.height,
    ;
}

/// The decision for pixel `(x, y)`: foreground exactly when the bottom-up
/// distance `height - (y + 1)` lies below the bar's height.
pub open spec fn bar_pixel(columns: Seq<u64>, height: int, x: int, y: int, fg: Color, bg: Color) -> Color {
    if height - (y + 1) < columns[x] {
        fg
    } else {
        bg
    }
}

/// The two-color raster of the column bars: `columns.len() x height` pixels,
/// each exactly `bar_pixel` of its coordinates.
pub fn rasterize(columns: &Vec<u64>, height: u32, fg: Color, bg: Color) -> (img: Raster)
    requires
        columns@.len() <= u32::MAX,
        4 * columns@.len() * height <= usize::MAX,
    ensures
        img.wf(),
        img.width == columns@.len(),
        img.height == height,
        forall|x: int, y: int|
            0 <= x < img.width && 0 <= y < img.height ==> img.spec_pixel(x, y) == bar_pixel(
                columns@,
                height as int,
                x,
                y,
                fg,
                bg,
            ),
{
    let width: u32 = columns.len() as u32;
    let mut data: Vec<u8> = Vec::new();
    let mut y: u32 = 0;
    while y < height
        invariant
            0 <= y <= height,
            width == columns@.len(),
            4 * columns@.len() * height <= usize::MAX,
            data@.len() == 4 * y * width,
            forall|px: int, py: int|
                0 <= px < width && 0 <= py < y ==> pixel_written(
                    data@,
                    columns@,
                    width as int,
                    height as int,
                    px,
                    py,
                    fg,
                    bg,
                ),
        decreases height - y,
    {
        let mut x: u32 = 0;
        while x < width
            invariant
                0 <= x <= width,
                0 <= y < height,
                width == columns@.len(),
                4 * columns@.len() * height <= usize::MAX,
                data@.len() == 4 * y * width + 4 * x,
                forall|px: int, py: int|
                    0 <= px < width && 0 <= py < y ==> pixel_written(
                        data@,
                        columns@,
                        width as int,
                        height as int,
                        px,
                        py,
                        fg,
                        bg,
                    ),
                forall|px: int|
                    0 <= px < x ==> pixel_written(
                        data@,
                        columns@,
                        width as int,
                        height as int,
                        px,
                        y as int,
                        fg,
                        bg,
                    ),
            decreases width - x,
        {
            proof {
                assert(4 * (y as int) * width + 4 * x + 4 <= 4 * columns@.len() * height)
                    by (nonlinear_arith)
                    requires
                        0 <= x < width,
                        0 <= y < height,
                        width == columns@.len(),
                ;
            }
            let col: u64 = columns[x as usize];
            let c: Color = if ((height - (y + 1)) as u64) < col {
                fg
            } else {
                bg
            };
            let ghost before = data@;
            data.push(c.red);
            data.push(c.green);
            data.push(c.blue);
            data.push(c.alpha);
            proof {
                assert(forall|k: int| 0 <= k < before.len() ==> #[trigger] data@[k] == before[k]);
                assert(c == bar_pixel(columns@, height as int, x as int, y as int, fg, bg));
                assert forall|px: int, py: int|
                    0 <= px < width && 0 <= py < y implies pixel_written(
                    data@,
                    columns@,
                    width as int,
                    height as int,
                    px,
                    py,
                    fg,
                    bg,
                ) by {
                    lemma_pixel_written_preserved(
                        before,
                        data@,
                        columns@,
                        width as int,
                        height as int,
                        px,
                        py,
                        fg,
                        bg,
                    );
                }
                assert forall|px: int| 0 <= px < x implies pixel_written(
                    data@,
                    columns@,
                    width as int,
                    height as int,
                    px,
                    y as int,
                    fg,
                    bg,
                ) by {
                    lemma_pixel_written_preserved(
                        before,
                        data@,
                        columns@,
                        width as int,
                        height as int,
                        px,
                        y as int,
                        fg,
                        bg,
                    );
                }
                assert(4 * ((y as int) * width + x) == before.len()) by (nonlinear_arith)
                    requires
                        before.len() == 4 * (y as int) * width + 4 * (x as int),
                ;
                assert(pixel_written(
                    data@,
                    columns@,
                    width as int,
                    height as int,
                    x as int,
                    y as int,
                    fg,
                    bg,
                ));
            }
            x = x + 1;
        }
        proof {
            assert(4 * (y as int) * width + 4 * width == 4 * ((y as int) + 1) * width)
                by (nonlinear_arith);
        }
        y = y + 1;
    }
    let img = Raster { width, height, data };
    proof {
        assert(4 * (height as int) * width == 4 * width * height) by (nonlinear_arith);
        assert forall|x: int, y: int|
            0 <= x < img.width && 0 <= y < img.height implies img.spec_pixel(x, y) == bar_pixel(
            columns@,
            height as int,
            x,
            y,
            fg,
            bg,
        ) by {
            assert(pixel_written(
                img.data@,
                columns@,
                width as int,
                height as int,
                x,
                y,
                fg,
                bg,
            ));
        }
    }
    img
}

proof fn lemma_pixel_written_preserved(
    before: Seq<u8>,
    after: Seq<u8>,
    columns: Seq<u64>,
    width: int,
    height: int,
    x: int,
    y: int,
    fg: Color,
    bg: Color,
)
    requires
        pixel_written(before, columns, width, height, x, y, fg, bg),
        after.len() >= before.len(),
        forall|k: int| 0 <= k < before.len() ==> #[trigger] after[k] == before[k],
    ensures
        pixel_written(after, columns, width, height, x, y, fg, bg),
{
}

/// The four bytes of pixel `(x, y)` in `data` hold exactly its `bar_pixel`
/// color.
pub open spec fn pixel_written(
    data: Seq<u8>,
    columns: Seq<u64>,
    width: int,
    height: int,
    x: int,
    y: int,
    fg: Color,
    bg: Color,
) -> bool {
    let base = 4 * (y * width + x);
    let c = bar_pixel(columns, height, x, y, fg, bg);
    &&& 0 <= base
    &&& base + 4 <= data.len()
    &&& data[base] == c.red
    &&& data[base + 1] == c.green
    &&& data[base + 2] == c.blue
    &&& data[base + 3] == c.alpha
}

/// When every column reaches the image height, every pixel is foreground:
/// the bars touch top and bottom everywhere.
pub proof fn lemma_full_columns_fill_raster(
    columns: Seq<u64>,
    height: int,
    fg: Color,
    bg: Color,
)
    requires
        forall|x: int| 0 <= x < columns.len() ==> height <= #[trigger] columns[x],
    ensures
        forall|x: int, y: int|
            0 <= x < columns.len() && 0 <= y < height ==> bar_pixel(columns, height, x, y, fg, bg)
                == fg,
{
}

} // verus!
