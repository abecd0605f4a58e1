use vstd::prelude::*;
use crate::css::{Color, Val, Value};
use crate::text::{lower_text, str_eq, to_lowercase};

verus! {

broadcast use vstd::string::group_string_axioms;

/// An RGBA pixel buffer, row by row, four bytes a pixel.
pub struct Canvas {
    pub width: u32,
    pub height: u32,
    pub pixels: Vec<u8>,
}

/// Whether byte `i` of a canvas `w` pixels wide belongs to the rectangle of columns `x0..x1`
/// and rows `y0..y1`.
pub open spec fn in_rect(i: int, w: int, x0: int, y0: int, x1: int, y1: int) -> bool {
    let p = i / 4;
    x0 <= p % w < x1 && y0 <= p / w < y1
}

/// The bytes after the rectangle is painted with `color`.
pub open spec fn filled(
    old: Seq<u8>,
    w: int,
    x0: int,
    y0: int,
    x1: int,
    y1: int,
    color: Seq<u8>,
) -> Seq<u8> {
    Seq::new(old.len(), |i: int| if in_rect(i, w, x0, y0, x1, y1) { color[i % 4] } else { old[i] })
}

/// Whether byte `i` was painted once the rows `y0..row` and, in row `row`, the columns
/// `x0..col` are done.
spec fn painted_yet(i: int, w: int, x0: int, y0: int, x1: int, row: int, col: int) -> bool {
    let p = i / 4;
    let r = p / w;
    let c = p % w;
    x0 <= c < x1 && y0 <= r && (r < row || (r == row && c < col))
}

proof fn lemma_pixel_index(row: int, col: int, w: int, h: int, j: int)
    requires
        0 <= row < h,
        0 <= col < w,
        0 <= j < 4,
    ensures
        ((row * w + col) * 4 + j) / 4 == row * w + col,
        ((row * w + col) * 4 + j) % 4 == j,
        (row * w + col) / w == row,
        (row * w + col) % w == col,
        (row * w + col) * 4 + j < w * h * 4,
        0 <= row * w + col,
{
    vstd::arithmetic::div_mod::lemma_fundamental_div_mod_converse(
        (row * w + col) * 4 + j,
        4,
        row * w + col,
        j,
    );
    vstd::arithmetic::div_mod::lemma_fundamental_div_mod_converse(row * w + col, w, row, col);
    assert((row * w + col) * 4 + j < w * h * 4) by (nonlinear_arith)
        requires
            0 <= row < h,
            0 <= col < w,
            0 <= j < 4,
    ;
    assert(0 <= row * w + col) by (nonlinear_arith)
        requires
            0 <= row,
            0 <= col,
            0 <= w,
    ;
}

/// Painting one pixel changes whether no byte outside it is painted.
proof fn lemma_other_bytes(i: int, w: int, x0: int, y0: int, x1: int, row: int, col: int)
    requires
        0 <= i,
        w > 0,
        0 <= row,
        0 <= col < w,
        i < (row * w + col) * 4 || i >= (row * w + col) * 4 + 4,
    ensures
        painted_yet(i, w, x0, y0, x1, row, col + 1) == painted_yet(i, w, x0, y0, x1, row, col),
{
    let p = i / 4;
    vstd::arithmetic::div_mod::lemma_fundamental_div_mod(i, 4);
    vstd::arithmetic::div_mod::lemma_mod_bound(i, 4);
    vstd::arithmetic::div_mod::lemma_fundamental_div_mod(p, w);
    if p / w == row && p % w == col {
        assert(p == row * w + col) by (nonlinear_arith)
            requires
                p == w * (p / w) + p % w,
                p / w == row,
                p % w == col,
        ;
    }
}

/// Whether a byte is painted depends on rows only through the rows done, once a row is done.
proof fn lemma_row_done(i: int, w: int, x0: int, y0: int, x1: int, row: int, col: int)
    requires
        0 <= i,
        0 <= x0,
        col >= x1,
        col <= x1 || col == x0,
    ensures
        painted_yet(i, w, x0, y0, x1, row, col) == painted_yet(i, w, x0, y0, x1, row + 1, 0),
{
    if w > 0 {
        vstd::arithmetic::div_mod::lemma_mod_bound(i / 4, w);
        vstd::arithmetic::div_mod::lemma_div_pos_is_pos(i, 4);
    }
}

/// Once all rows are done, the painted bytes are those of the rectangle.
proof fn lemma_all_done(i: int, w: int, x0: int, y0: int, x1: int, y1: int, row: int)
    requires
        0 <= i,
        0 <= x0,
        row >= y1,
        row <= y1 || row == y0,
    ensures
        painted_yet(i, w, x0, y0, x1, row, 0) == in_rect(i, w, x0, y0, x1, y1),
{
    if w > 0 {
        vstd::arithmetic::div_mod::lemma_mod_bound(i / 4, w);
        vstd::arithmetic::div_mod::lemma_div_pos_is_pos(i, 4);
    }
}

impl Canvas {
    /// The buffer holds four bytes for each of the `width * height` pixels, and that many
    /// bytes can be counted in a `u32`.
    pub open spec fn wf(&self) -> bool {
        &&& self.width * self.height * 4 <= u32::MAX
        &&& self.pixels@.len() == self.width * self.height * 4
    }

    /// A canvas with every byte 0: transparent black.
    pub fn new(width: u32, height: u32) -> (c: Canvas)
        requires
            width * height * 4 <= u32::MAX,
        ensures
            c.wf(),
            c.width == width,
            c.height == height,
            forall|i: int| 0 <= i < c.pixels@.len() ==> c.pixels@[i] == 0,
    {
        assert(width * height <= u32::MAX) by (nonlinear_arith)
            requires
                width * height * 4 <= u32::MAX,
        ;
        let n: u32 = width * height * 4;
        let mut pixels: Vec<u8> = Vec::new();
        let mut i: u32 = 0;
        while i < n
            invariant
                i <= n,
                pixels@.len() == i,
                forall|k: int| 0 <= k < i ==> pixels@[k] == 0,
            decreases n - i,
        {
            pixels.push(0);
            i += 1;
        }
        Canvas { width, height, pixels }
    }

    /// Paints the columns `x0..x1` of the rows `y0..y1` with `color`.
    pub fn fill_rect(&mut self, x0: u32, y0: u32, x1: u32, y1: u32, color: [u8; 4])
        requires
            old(self).wf(),
            x1 <= old(self).width,
            y1 <= old(self).height,
        ensures
            final(self).wf(),
            final(self).width == old(self).width,
            final(self).height == old(self).height,
            final(self).pixels@ == filled(
                old(self).pixels@,
                old(self).width as int,
                x0 as int,
                y0 as int,
                x1 as int,
                y1 as int,
                color@,
            ),
    {
        let ghost old_px = self.pixels@;
        let w = self.width;
        let ghost h = self.height as int;
        let mut row = y0;
        while row < y1
            invariant
                self.wf(),
                self.width == w,
                self.height == h,
                x1 <= w,
                y1 <= h,
                (y0 <= row <= y1) || row == y0,
                self.pixels@.len() == old_px.len(),
                forall|i: int|
                    0 <= i < old_px.len() ==> #[trigger] self.pixels@[i] == if painted_yet(
                        i,
                        w as int,
                        x0 as int,
                        y0 as int,
                        x1 as int,
                        row as int,
                        0,
                    ) {
                        color@[i % 4]
                    } else {
                        old_px[i]
                    },
            decreases y1 - row,
        {
            let mut col = x0;
            while col < x1
                invariant
                    self.wf(),
                    self.width == w,
                    self.height == h,
                    x1 <= w,
                    y0 <= row < y1 <= h,
                    x0 <= col,
                    col <= x1 || col == x0,
                    self.pixels@.len() == old_px.len(),
                    forall|i: int|
                        0 <= i < old_px.len() ==> #[trigger] self.pixels@[i] == if painted_yet(
                            i,
                            w as int,
                            x0 as int,
                            y0 as int,
                            x1 as int,
                            row as int,
                            col as int,
                        ) {
                            color@[i % 4]
                        } else {
                            old_px[i]
                        },
                decreases x1 - col,
            {
                proof {
                    lemma_pixel_index(row as int, col as int, w as int, h, 0);
                    lemma_pixel_index(row as int, col as int, w as int, h, 1);
                    lemma_pixel_index(row as int, col as int, w as int, h, 2);
                    lemma_pixel_index(row as int, col as int, w as int, h, 3);
                }
                let base: u32 = (row * w + col) * 4;
                let idx = base as usize;
                let ghost before = self.pixels@;
                self.pixels.set(idx, color[0]);
                self.pixels.set(idx + 1, color[1]);
                self.pixels.set(idx + 2, color[2]);
                self.pixels.set(idx + 3, color[3]);
                proof {
                    assert forall|i: int| 0 <= i < old_px.len() implies #[trigger] self.pixels@[i]
                        == if painted_yet(
                        i,
                        w as int,
                        x0 as int,
                        y0 as int,
                        x1 as int,
                        row as int,
                        col + 1,
                    ) {
                        color@[i % 4]
                    } else {
                        old_px[i]
                    } by {
                        if idx <= i < idx + 4 {
                            lemma_pixel_index(row as int, col as int, w as int, h, i - idx);
                        } else {
                            assert(self.pixels@[i] == before[i]);
                            lemma_other_bytes(
                                i,
                                w as int,
                                x0 as int,
                                y0 as int,
                                x1 as int,
                                row as int,
                                col as int,
                            );
                        }
                    }
                }
                col += 1;
            }
            proof {
                assert forall|i: int| 0 <= i < old_px.len() implies #[trigger] self.pixels@[i] == if painted_yet(
                    i,
                    w as int,
                    x0 as int,
                    y0 as int,
                    x1 as int,
                    row + 1,
                    0,
                ) {
                    color@[i % 4]
                } else {
                    old_px[i]
                } by {
                    lemma_row_done(i, w as int, x0 as int, y0 as int, x1 as int, row as int, col as int);
                }
            }
            row += 1;
        }
        proof {
            assert forall|i: int| 0 <= i < old_px.len() implies self.pixels@[i] == filled(
                old_px,
                w as int,
                x0 as int,
                y0 as int,
                x1 as int,
                y1 as int,
                color@,
            )[i] by {
                lemma_all_done(i, w as int, x0 as int, y0 as int, x1 as int, y1 as int, row as int);
            }
            assert(self.pixels@ =~= filled(
                old_px,
                w as int,
                x0 as int,
                y0 as int,
                x1 as int,
                y1 as int,
                color@,
            ));
        }
    }
}

/// A canvas that layout boxes are painted onto.
pub struct RenderEngine {
    canvas: Canvas,
}

impl RenderEngine {
    pub closed spec fn canvas_view(&self) -> Canvas {
        self.canvas
    }

    pub fn new(width: u32, height: u32) -> (e: RenderEngine)
        requires
            width * height * 4 <= u32::MAX,
        ensures
            e.canvas_view().wf(),
            e.canvas_view().width == width,
            e.canvas_view().height == height,
            forall|i: int| 0 <= i < e.canvas_view().pixels@.len() ==> e.canvas_view().pixels@[i] == 0,
    {
        RenderEngine { canvas: Canvas::new(width, height) }
    }

    /// The canvas painted so far.
    pub fn canvas(&self) -> (c: &Canvas)
        ensures
            *c == self.canvas_view(),
    {
        &self.canvas
    }

    /// The bytes of the canvas.
    pub fn get_pixels(&self) -> (p: &[u8])
        ensures
            p@ == self.canvas_view().pixels@,
    {
        self.canvas.pixels.as_slice()
    }

    /// Paints the columns `x0..x1` of the rows `y0..y1` of the canvas with `color`.
    pub fn fill_rect(&mut self, x0: u32, y0: u32, x1: u32, y1: u32, color: [u8; 4])
        requires
            old(self).canvas_view().wf(),
            x1 <= old(self).canvas_view().width,
            y1 <= old(self).canvas_view().height,
        ensures
            final(self).canvas_view().wf(),
            final(self).canvas_view().width == old(self).canvas_view().width,
            final(self).canvas_view().height == old(self).canvas_view().height,
            final(self).canvas_view().pixels@ == filled(
                old(self).canvas_view().pixels@,
                old(self).canvas_view().width as int,
                x0 as int,
                y0 as int,
                x1 as int,
                y1 as int,
                color@,
            ),
    {
        self.canvas.fill_rect(x0, y0, x1, y1, color);
    }
}

/// The RGBA bytes of the named colors.
pub open spec fn named_rgba(l: Seq<char>) -> Option<Seq<u8>> {
    if l == "red"@ {
        Some(seq![255u8, 0, 0, 255])
    } else if l == "green"@ {
        Some(seq![0u8, 255, 0, 255])
    } else if l == "blue"@ {
        Some(seq![0u8, 0, 255, 255])
    } else if l == "black"@ {
        Some(seq![0u8, 0, 0, 255])
    } else if l == "white"@ {
        Some(seq![255u8, 255, 255, 255])
    } else if l == "yellow"@ {
        Some(seq![255u8, 255, 0, 255])
    } else if l == "cyan"@ {
        Some(seq![0u8, 255, 255, 255])
    } else if l == "magenta"@ {
        Some(seq![255u8, 0, 255, 255])
    } else if l == "gray"@ || l == "grey"@ {
        Some(seq![128u8, 128, 128, 255])
    } else {
        None
    }
}

pub open spec fn rgba_view(o: Option<[u8; 4]>) -> Option<Seq<u8>> {
    match o {
        Some(c) => Some(c@),
        None => None,
    }
}

/// The color a name stands for, in any case.
pub fn named_color(name: &str) -> (r: Option<[u8; 4]>)
    ensures
        rgba_view(r) == named_rgba(lower_text(name@)),
{
    let l = to_lowercase(name);
    let s = l.as_str();
    let r: Option<[u8; 4]> = if str_eq(s, "red") {
        Some([255, 0, 0, 255])
    } else if str_eq(s, "green") {
        Some([0, 255, 0, 255])
    } else if str_eq(s, "blue") {
        Some([0, 0, 255, 255])
    } else if str_eq(s, "black") {
        Some([0, 0, 0, 255])
    } else if str_eq(s, "white") {
        Some([255, 255, 255, 255])
    } else if str_eq(s, "yellow") {
        Some([255, 255, 0, 255])
    } else if str_eq(s, "cyan") {
        Some([0, 255, 255, 255])
    } else if str_eq(s, "magenta") {
        Some([255, 0, 255, 255])
    } else if str_eq(s, "gray") || str_eq(s, "grey") {
        Some([128, 128, 128, 255])
    } else {
        None
    };
    proof {
        if let Some(c) = r {
            assert(c@ =~= named_rgba(lower_text(name@))->0);
        }
    }
    r
}

/// The color that a style value paints with.
pub open spec fn value_rgba(v: Val) -> Option<Seq<u8>> {
    match v {
        Val::ColorValue(c) => Some(seq![c.r, c.g, c.b, c.a]),
        Val::Keyword(k) => named_rgba(lower_text(k)),
        Val::Length(_, _) => None,
    }
}

/// The color that a style value paints with, if it names one.
pub fn color_from_value(value: &Value) -> (r: Option<[u8; 4]>)
    ensures
        rgba_view(r) == value_rgba(value@),
{
    match value {
        Value::ColorValue(Color { r, g, b, a }) => {
            let c = [*r, *g, *b, *a];
            assert(c@ =~= seq![*r, *g, *b, *a]);
            Some(c)
        },
        Value::Keyword(kw) => named_color(kw.as_str()),
        _ => None,
    }
}

} // verus!
