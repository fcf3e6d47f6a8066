use vstd::prelude::*;
use crate::css::{Color, Value};
use crate::css::Rule;
use crate::dom::Node;
use crate::style::{is_style_tree, lemma_style_tree_deterministic, StyledNode};
use crate::layout::{
    box_shape, builds, laid_out, lemma_build_deterministic, lemma_layout_deterministic, same_boxes, sat, sat_add, sat_sub, styles_wf, BoxType,
    Dimensions, LayoutBox, Rect,
};

verus! {

/// A drawing command: fill a rectangle with a color.
#[derive(Clone, Copy, Debug, PartialEq, Eq, Structural)]
pub enum DisplayCommand {
    SolidColor(Color, Rect),
}

pub type DisplayList = Vec<DisplayCommand>;

/// The color that property `name` of the box's styled node holds, if it is a
/// color; anonymous boxes have none.
pub open spec fn color_of(b: LayoutBox, name: Seq<char>) -> Option<Color> {
    match b.box_type {
        BoxType::AnonymousBlock => None,
        _ => match b.spec_style().spec_value(name) {
            Some(Value::ColorValue(c)) => Some(c),
            _ => None,
        },
    }
}

/// The background of a box: its border box in its `background` color.
pub open spec fn background_items(b: LayoutBox) -> Seq<DisplayCommand> {
    match color_of(b, "background"@) {
        Some(c) => seq![DisplayCommand::SolidColor(c, b.dimensions.spec_border_box())],
        None => Seq::empty(),
    }
}

/// The borders of a box in its `border-color`: left, right, top and bottom
/// strips of the border box, as wide as the border on that side.
pub open spec fn border_items(b: LayoutBox) -> Seq<DisplayCommand> {
    let d = b.dimensions;
    let bb = d.spec_border_box();
    match color_of(b, "border-color"@) {
        Some(c) => seq![
            DisplayCommand::SolidColor(
                c,
                Rect { x: bb.x, y: bb.y, width: d.border.left, height: bb.height },
            ),
            DisplayCommand::SolidColor(
                c,
                Rect {
                    x: sat(sat(bb.x + bb.width) - d.border.right) as i64,
                    y: bb.y,
                    width: d.border.right,
                    height: bb.height,
                },
            ),
            DisplayCommand::SolidColor(
                c,
                Rect { x: bb.x, y: bb.y, width: bb.width, height: d.border.top },
            ),
            DisplayCommand::SolidColor(
                c,
                Rect {
                    x: bb.x,
                    y: sat(sat(bb.y + bb.height) - d.border.bottom) as i64,
                    width: bb.width,
                    height: d.border.bottom,
                },
            ),
        ],
        None => Seq::empty(),
    }
}

/// The commands that paint a box tree: each box's background, then its
/// borders, then its children's commands in order.
pub open spec fn display_items(b: LayoutBox) -> Seq<DisplayCommand>
    decreases b, b.children@.len() + 1,
{
    background_items(b) + border_items(b) + children_items(b, b.children@.len() as int)
}

/// The commands of the first `k` children of `b`, in order.
pub open spec fn children_items(b: LayoutBox, k: int) -> Seq<DisplayCommand>
    decreases b, k,
{
    if k <= 0 || k > b.children@.len() {
        Seq::empty()
    } else {
        children_items(b, k - 1) + display_items(b.children@[k - 1])
    }
}

/// The color of property `name` of the box, if it is a color.
fn get_color(layout_box: &LayoutBox, name: &str) -> (r: Option<Color>)
    requires
        styles_wf(*layout_box),
    ensures
        r == color_of(*layout_box, name@),
{
    match layout_box.box_type {
        BoxType::BlockNode(style) | BoxType::InlineNode(style) => match style.value(name) {
            Some(Value::ColorValue(color)) => Some(color),
            _ => None,
        },
        BoxType::AnonymousBlock => None,
    }
}

fn render_background(list: &mut DisplayList, layout_box: &LayoutBox)
    requires
        styles_wf(*layout_box),
    ensures
        final(list)@ == old(list)@ + background_items(*layout_box),
{
    if let Some(color) = get_color(layout_box, "background") {
        list.push(DisplayCommand::SolidColor(color, layout_box.dimensions.border_box()));
    } else {
        assert(old(list)@ + background_items(*layout_box) =~= old(list)@);
    }
}

fn render_borders(list: &mut DisplayList, layout_box: &LayoutBox)
    requires
        styles_wf(*layout_box),
    ensures
        final(list)@ == old(list)@ + border_items(*layout_box),
{
    let color = match get_color(layout_box, "border-color") {
        Some(color) => color,
        None => {
            assert(old(list)@ + border_items(*layout_box) =~= old(list)@);
            return;
        },
    };
    let d = &layout_box.dimensions;
    let border_box = d.border_box();
    list.push(
        DisplayCommand::SolidColor(
            color,
            Rect { x: border_box.x, y: border_box.y, width: d.border.left, height: border_box.height },
        ),
    );
    list.push(
        DisplayCommand::SolidColor(
            color,
            Rect {
                x: sat_sub(sat_add(border_box.x, border_box.width), d.border.right),
                y: border_box.y,
                width: d.border.right,
                height: border_box.height,
            },
        ),
    );
    list.push(
        DisplayCommand::SolidColor(
            color,
            Rect { x: border_box.x, y: border_box.y, width: border_box.width, height: d.border.top },
        ),
    );
    list.push(
        DisplayCommand::SolidColor(
            color,
            Rect {
                x: border_box.x,
                y: sat_sub(sat_add(border_box.y, border_box.height), d.border.bottom),
                width: border_box.width,
                height: d.border.bottom,
            },
        ),
    );
    assert(final(list)@ =~= old(list)@ + border_items(*layout_box));
}

fn render_layout_box(list: &mut DisplayList, layout_box: &LayoutBox)
    requires
        styles_wf(*layout_box),
    ensures
        final(list)@ == old(list)@ + display_items(*layout_box),
    decreases *layout_box,
{
    render_background(list, layout_box);
    render_borders(list, layout_box);
    let ghost start = list@;
    let mut k: usize = 0;
    while k < layout_box.children.len()
        invariant
            styles_wf(*layout_box),
            k <= layout_box.children@.len(),
            list@ == start + children_items(*layout_box, k as int),
        decreases layout_box.children@.len() - k,
    {
        proof {
            assert(styles_wf(layout_box.children@[k as int]));
        }
        render_layout_box(list, &layout_box.children[k]);
        proof {
            assert(list@ =~= start + children_items(*layout_box, k + 1));
        }
        k = k + 1;
    }
    assert(list@ =~= old(list)@ + display_items(*layout_box));
}

/// The commands that paint a box tree, in painting order.
pub fn build_display_list(layout_root: &LayoutBox) -> (r: DisplayList)
    requires
        styles_wf(*layout_root),
    ensures
        r@ == display_items(*layout_root),
{
    let mut list: DisplayList = Vec::new();
    render_layout_box(&mut list, layout_root);
    assert(list@ =~= display_items(*layout_root));
    list
}


pub open spec fn white() -> Color {
    Color { r: 255, g: 255, b: 255, a: 255 }
}

/// `v` held to the range `0 ..= hi`.
pub open spec fn clamp_to(v: int, hi: int) -> int {
    if v < 0 {
        0
    } else if v > hi {
        hi
    } else {
        v
    }
}

/// Whether pixel `(x, y)` of a `w` by `h` canvas lies in rectangle `r` once
/// the rectangle is clamped to the canvas.
pub open spec fn covers(r: Rect, w: int, h: int, x: int, y: int) -> bool {
    &&& clamp_to(r.x as int, w) <= x < clamp_to(sat(r.x + r.width), w)
    &&& clamp_to(r.y as int, h) <= y < clamp_to(sat(r.y + r.height), h)
}

/// The color of pixel `(x, y)` of a white `w` by `h` canvas once `items` are
/// painted in order: that of the last command whose rectangle covers it.
pub open spec fn pixel_at(items: Seq<DisplayCommand>, w: int, h: int, x: int, y: int) -> Color
    decreases items.len(),
{
    if items.len() == 0 {
        white()
    } else {
        let DisplayCommand::SolidColor(c, r) = items.last();
        if covers(r, w, h, x, y) {
            c
        } else {
            pixel_at(items.drop_last(), w, h, x, y)
        }
    }
}

/// The pixel at `(x, y)` of a row-major buffer `w` pixels wide.
pub open spec fn pixel(pixels: Seq<Color>, w: int, x: int, y: int) -> Color {
    pixels[x + y * w]
}

proof fn lemma_index_bounds(x: int, y: int, w: int, h: int)
    requires
        0 <= x < w,
        0 <= y < h,
    ensures
        0 <= x + y * w < w * h,
{
    assert(0 <= x + y * w < w * h) by (nonlinear_arith)
        requires
            0 <= x < w,
            0 <= y < h,
    ;
}

proof fn lemma_index_unique(x: int, y: int, x2: int, y2: int, w: int)
    requires
        0 <= x < w,
        0 <= x2 < w,
        0 <= y,
        0 <= y2,
        x + y * w == x2 + y2 * w,
    ensures
        x == x2 && y == y2,
{
    assert(x == x2 && y == y2) by (nonlinear_arith)
        requires
            0 <= x < w,
            0 <= x2 < w,
            0 <= y,
            0 <= y2,
            x + y * w == x2 + y2 * w,
    ;
}

/// A buffer of `width` by `height` pixels, row by row.
#[derive(Debug)]
pub struct Canvas {
    pub pixels: Vec<Color>,
    pub width: usize,
    pub height: usize,
}

/// `v` held to `0 ..= hi`.
fn clamp_index(v: i64, hi: usize) -> (r: usize)
    ensures
        r == clamp_to(v as int, hi as int),
{
    if v < 0 {
        0
    } else if v as u64 > hi as u64 {
        hi
    } else {
        v as usize
    }
}

impl Canvas {
    pub open spec fn wf(&self) -> bool {
        self.pixels@.len() == self.width * self.height
    }

    /// A `width` by `height` canvas, every pixel opaque white.
    pub fn new(width: usize, height: usize) -> (r: Canvas)
        requires
            width * height <= usize::MAX,
        ensures
            r.wf(),
            r.width == width,
            r.height == height,
            forall|i: int| 0 <= i < r.pixels@.len() ==> #[trigger] r.pixels@[i] == white(),
    {
        let opaque_white = Color { r: 255, g: 255, b: 255, a: 255 };
        let n = width * height;
        let mut pixels: Vec<Color> = Vec::new();
        let mut i: usize = 0;
        while i < n
            invariant
                i <= n,
                opaque_white == white(),
                pixels@.len() == i,
                forall|j: int| 0 <= j < i ==> #[trigger] pixels@[j] == white(),
            decreases n - i,
        {
            pixels.push(opaque_white);
            proof {
                assert(pixels@[i as int] == white());
            }
            i = i + 1;
        }
        Canvas { pixels, width, height }
    }

    /// Fills with the command's color every pixel of the canvas that its
    /// rectangle, clamped to the canvas, covers; the other pixels are kept.
    pub fn paint_item(&mut self, item: &DisplayCommand)
        requires
            old(self).wf(),
        ensures
            final(self).wf(),
            final(self).width == old(self).width,
            final(self).height == old(self).height,
            forall|x: int, y: int|
                0 <= x < final(self).width && 0 <= y < final(self).height ==> #[trigger] pixel(
                    final(self).pixels@,
                    final(self).width as int,
                    x,
                    y,
                ) == {
                    let DisplayCommand::SolidColor(c, r) = *item;
                    if covers(r, old(self).width as int, old(self).height as int, x, y) {
                        c
                    } else {
                        pixel(old(self).pixels@, old(self).width as int, x, y)
                    }
                },
    {
        let DisplayCommand::SolidColor(color, rect) = *item;
        let w = self.width;
        let h = self.height;
        let ghost p0 = self.pixels@;
        let x0 = clamp_index(rect.x, w);
        let y0 = clamp_index(rect.y, h);
        let x1 = clamp_index(sat_add(rect.x, rect.width), w);
        let y1 = clamp_index(sat_add(rect.y, rect.height), h);
        let mut y = y0;
        while y < y1
            invariant
                self.width == w,
                self.height == h,
                self.pixels@.len() == w * h,
                y0 <= y,
                y <= h,
                y == y0 || y <= y1,
                y1 <= h,
                x0 <= w,
                x1 <= w,
                forall|px: int, py: int|
                    0 <= px < w && 0 <= py < h ==> #[trigger] pixel(self.pixels@, w as int, px, py)
                        == if x0 <= px < x1 && y0 <= py < y {
                        color
                    } else {
                        pixel(p0, w as int, px, py)
                    },
            decreases y1 - y,
        {
            let mut x = x0;
            while x < x1
                invariant
                    self.width == w,
                    self.height == h,
                    self.pixels@.len() == w * h,
                    y0 <= y < y1,
                    y1 <= h,
                    x0 <= x,
                    x <= w,
                    x == x0 || x <= x1,
                    x1 <= w,
                    forall|px: int, py: int|
                        0 <= px < w && 0 <= py < h ==> #[trigger] pixel(
                            self.pixels@,
                            w as int,
                            px,
                            py,
                        ) == if x0 <= px < x1 && (y0 <= py < y || (py == y && px < x)) {
                            color
                        } else {
                            pixel(p0, w as int, px, py)
                        },
                decreases x1 - x,
            {
                let len = self.pixels.len();
                proof {
                    lemma_index_bounds(x as int, y as int, w as int, h as int);
                    assert(y * w <= x + y * w);
                    assert(x + y * w < len);
                }
                let ghost before = self.pixels@;
                self.pixels.set(x + y * w, color);
                proof {
                    assert forall|px: int, py: int|
                        0 <= px < w && 0 <= py < h implies #[trigger] pixel(
                            self.pixels@,
                            w as int,
                            px,
                            py,
                        ) == if x0 <= px < x1 && (y0 <= py < y || (py == y && px < x + 1)) {
                            color
                        } else {
                            pixel(p0, w as int, px, py)
                        } by {
                        lemma_index_bounds(px, py, w as int, h as int);
                        if px + py * w == x + y * w {
                            lemma_index_unique(px, py, x as int, y as int, w as int);
                        } else {
                            assert(pixel(self.pixels@, w as int, px, py) == pixel(
                                before,
                                w as int,
                                px,
                                py,
                            ));
                            if px == x && py == y {
                                assert(false);
                            }
                        }
                    }
                }
                x = x + 1;
            }
            y = y + 1;
        }
    }
}

/// `v` where it is positive, else 0.
pub open spec fn canvas_size(v: i64) -> int {
    if v < 0 {
        0
    } else {
        v as int
    }
}

/// `c` is box tree `root` painted onto a canvas the size of `bounds`: each
/// pixel has the color of the last command of the display list that covers
/// it, white where none does.
pub open spec fn paints(c: Canvas, root: LayoutBox, bounds: Rect) -> bool {
    &&& c.wf()
    &&& c.width == canvas_size(bounds.width)
    &&& c.height == canvas_size(bounds.height)
    &&& forall|x: int, y: int|
        0 <= x < c.width && 0 <= y < c.height ==> #[trigger] pixel(c.pixels@, c.width as int, x, y)
            == pixel_at(display_items(root), c.width as int, c.height as int, x, y)
}

/// Paints a box tree onto a canvas the size of `bounds`: the display list in
/// order, each command overwriting the pixels it covers.
pub fn paint(layout_root: &LayoutBox, bounds: Rect) -> (r: Canvas)
    requires
        styles_wf(*layout_root),
        canvas_size(bounds.width) <= usize::MAX,
        canvas_size(bounds.height) <= usize::MAX,
        canvas_size(bounds.width) * canvas_size(bounds.height) <= usize::MAX,
    ensures
        paints(r, *layout_root, bounds),
{
    let display_list = build_display_list(layout_root);
    let w: usize = if bounds.width < 0 { 0 } else { bounds.width as usize };
    let h: usize = if bounds.height < 0 { 0 } else { bounds.height as usize };
    let mut canvas = Canvas::new(w, h);
    proof {
        assert forall|x: int, y: int|
            0 <= x < w && 0 <= y < h implies #[trigger] pixel(canvas.pixels@, w as int, x, y)
                == pixel_at(display_list@.take(0), w as int, h as int, x, y) by {
            lemma_index_bounds(x, y, w as int, h as int);
        }
    }
    let mut k: usize = 0;
    while k < display_list.len()
        invariant
            k <= display_list@.len(),
            canvas.wf(),
            canvas.width == w,
            canvas.height == h,
            forall|x: int, y: int|
                0 <= x < w && 0 <= y < h ==> #[trigger] pixel(canvas.pixels@, w as int, x, y)
                    == pixel_at(display_list@.take(k as int), w as int, h as int, x, y),
        decreases display_list@.len() - k,
    {
        canvas.paint_item(&display_list[k]);
        proof {
            assert(display_list@.take(k + 1).drop_last() =~= display_list@.take(k as int));
        }
        k = k + 1;
    }
    assert(display_list@.take(display_list@.len() as int) =~= display_list@);
    canvas
}


/// Clamping a rectangle to the canvas changes nothing inside the canvas: a
/// pixel of the canvas is covered exactly when it lies in the rectangle
/// itself.
pub proof fn lemma_clamp_keeps_in_bounds_pixels(r: Rect, w: int, h: int, x: int, y: int)
    requires
        0 <= x < w,
        0 <= y < h,
    ensures
        covers(r, w, h, x, y) <==> (r.x <= x < sat(r.x + r.width) && r.y <= y < sat(
            r.y + r.height,
        )),
{
}

/// A rectangle that lies wholly outside the canvas covers none of its pixels.
pub proof fn lemma_outside_rect_covers_nothing(r: Rect, w: int, h: int)
    requires
        r.x >= w || sat(r.x + r.width) <= 0 || r.y >= h || sat(r.y + r.height) <= 0,
    ensures
        forall|x: int, y: int| 0 <= x < w && 0 <= y < h ==> !#[trigger] covers(r, w, h, x, y),
{
}

/// A pixel takes the color of the last command that covers it, whatever
/// came before.
pub proof fn lemma_last_cover_wins(
    before: Seq<DisplayCommand>,
    c: Color,
    r: Rect,
    after: Seq<DisplayCommand>,
    w: int,
    h: int,
    x: int,
    y: int,
)
    requires
        covers(r, w, h, x, y),
        forall|k: int|
            0 <= k < after.len() ==> !covers(
                (#[trigger] after[k])->SolidColor_1,
                w,
                h,
                x,
                y,
            ),
    ensures
        pixel_at(before + seq![DisplayCommand::SolidColor(c, r)] + after, w, h, x, y) == c,
    decreases after.len(),
{
    let all = before + seq![DisplayCommand::SolidColor(c, r)] + after;
    if after.len() == 0 {
        assert(all.drop_last() =~= before);
    } else {
        let rest = after.drop_last();
        assert(all.drop_last() =~= before + seq![DisplayCommand::SolidColor(c, r)] + rest);
        assert(all.last() == after[after.len() - 1]);
        lemma_last_cover_wins(before, c, r, rest, w, h, x, y);
    }
}

/// A parent and its only child, both with a background and no border color,
/// the child with no children of its own: wherever the child's border box
/// covers a pixel, the pixel takes the child's color, for the child is
/// painted after its parent.
pub proof fn lemma_child_background_wins(parent: LayoutBox, w: int, h: int, x: int, y: int)
    requires
        parent.children@.len() == 1,
        color_of(parent, "background"@) is Some,
        color_of(parent, "border-color"@) is None,
        color_of(parent.children@[0], "background"@) is Some,
        color_of(parent.children@[0], "border-color"@) is None,
        parent.children@[0].children@.len() == 0,
        covers(parent.children@[0].dimensions.spec_border_box(), w, h, x, y),
    ensures
        pixel_at(display_items(parent), w, h, x, y) == color_of(
            parent.children@[0],
            "background"@,
        )->Some_0,
{
    let child = parent.children@[0];
    let cc = color_of(child, "background"@)->Some_0;
    let cmd = DisplayCommand::SolidColor(cc, child.dimensions.spec_border_box());
    assert(children_items(child, 0) == Seq::<DisplayCommand>::empty());
    assert(display_items(child) =~= seq![cmd]);
    assert(children_items(parent, 0) == Seq::<DisplayCommand>::empty());
    assert(children_items(parent, 1) =~= seq![cmd]);
    assert(display_items(parent) =~= background_items(parent) + seq![cmd] + Seq::empty());
    lemma_last_cover_wins(background_items(parent), cc, child.dimensions.spec_border_box(), Seq::empty(), w, h, x, y);
}


/// The same box trees give the same display list.
pub proof fn lemma_same_display(a: LayoutBox, b: LayoutBox)
    requires
        same_boxes(a, b),
    ensures
        display_items(a) == display_items(b),
    decreases a, a.children@.len() + 1,
{
    lemma_same_children_display(a, b, a.children@.len() as int);
}

proof fn lemma_same_children_display(a: LayoutBox, b: LayoutBox, k: int)
    requires
        same_boxes(a, b),
        0 <= k <= a.children@.len(),
    ensures
        children_items(a, k) == children_items(b, k),
    decreases a, k,
{
    if k > 0 {
        lemma_same_children_display(a, b, k - 1);
        assert(same_boxes(a.children@[k - 1], b.children@[k - 1]));
        lemma_same_display(a.children@[k - 1], b.children@[k - 1]);
    }
}

/// Two canvases that paint box trees with the same display list in the same
/// bounds hold the same pixels.
pub proof fn lemma_paint_deterministic(
    r1: LayoutBox,
    r2: LayoutBox,
    bounds: Rect,
    c1: Canvas,
    c2: Canvas,
)
    requires
        display_items(r1) == display_items(r2),
        paints(c1, r1, bounds),
        paints(c2, r2, bounds),
    ensures
        c1.width == c2.width,
        c1.height == c2.height,
        c1.pixels@ == c2.pixels@,
{
    let w = c1.width as int;
    let h = c1.height as int;
    assert forall|i: int| 0 <= i < c1.pixels@.len() implies c1.pixels@[i] == c2.pixels@[i] by {
        let x = i % w;
        let y = i / w;
        assert(w > 0) by (nonlinear_arith)
            requires
                0 <= i < w * h,
                h >= 0,
        ;
        assert(0 <= x < w && 0 <= y < h && i == x + y * w) by (nonlinear_arith)
            requires
                w > 0,
                h >= 0,
                0 <= i < w * h,
                x == i % w,
                y == i / w,
        ;
        assert(pixel(c1.pixels@, w, x, y) == pixel(c2.pixels@, w, x, y));
    }
    assert(c1.pixels@ =~= c2.pixels@);
}

/// Rendering is a function of its inputs: resolving the styles of one
/// document under one sheet, building and laying out the box tree in one
/// containing block and painting it in one set of bounds, done twice, gives
/// canvases of the same size with the same pixels.
pub proof fn lemma_render_deterministic(
    doc: Node,
    rules: Seq<Rule>,
    s1: StyledNode,
    s2: StyledNode,
    b1: LayoutBox,
    b2: LayoutBox,
    cb: Dimensions,
    n1: LayoutBox,
    n2: LayoutBox,
    bounds: Rect,
    c1: Canvas,
    c2: Canvas,
)
    requires
        is_style_tree(s1, doc, rules),
        is_style_tree(s2, doc, rules),
        builds(b1, s1),
        builds(b2, s2),
        box_shape(b1),
        box_shape(b2),
        laid_out(b1, n1, cb),
        laid_out(b2, n2, cb),
        paints(c1, n1, bounds),
        paints(c2, n2, bounds),
    ensures
        c1.width == c2.width,
        c1.height == c2.height,
        c1.pixels@ == c2.pixels@,
{
    lemma_style_tree_deterministic(s1, s2, doc, rules);
    lemma_build_deterministic(b1, b2, s1, s2);
    lemma_layout_deterministic(b1, b2, n1, n2, cb);
    lemma_same_display(n1, n2);
    lemma_paint_deterministic(n1, n2, bounds, c1, c2);
}

} // verus!
