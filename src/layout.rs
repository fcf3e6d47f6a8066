use vstd::prelude::*;
use crate::css::{Unit, Value};
use crate::style::{lemma_styled_child, same_styles, styled_wf, Display, StyledNode};

verus! {

/// `x` held to the range of `i64`.
pub open spec fn sat(x: int) -> int {
    if x > i64::MAX {
        i64::MAX as int
    } else if x < i64::MIN {
        i64::MIN as int
    } else {
        x
    }
}

/// `a + b`, saturating at the bounds of `i64`.
pub fn sat_add(a: i64, b: i64) -> (r: i64)
    ensures
        r == sat(a + b),
{
    let s: i128 = a as i128 + b as i128;
    if s > i64::MAX as i128 {
        i64::MAX
    } else if s < i64::MIN as i128 {
        i64::MIN
    } else {
        s as i64
    }
}

/// `a - b`, saturating at the bounds of `i64`.
pub fn sat_sub(a: i64, b: i64) -> (r: i64)
    ensures
        r == sat(a - b),
{
    let s: i128 = a as i128 - b as i128;
    if s > i64::MAX as i128 {
        i64::MAX
    } else if s < i64::MIN as i128 {
        i64::MIN
    } else {
        s as i64
    }
}

/// A rectangle: its top left corner, its width and its height; y grows downward.
#[derive(Clone, Copy, Debug, PartialEq, Eq, Structural)]
pub struct Rect {
    pub x: i64,
    pub y: i64,
    pub width: i64,
    pub height: i64,
}

/// The four sizes of an edge around a rectangle.
#[derive(Clone, Copy, Debug, PartialEq, Eq, Structural)]
pub struct EdgeSizes {
    pub left: i64,
    pub right: i64,
    pub top: i64,
    pub bottom: i64,
}

/// A content rectangle with its padding, border and margin.
#[derive(Clone, Copy, Debug, PartialEq, Eq, Structural)]
pub struct Dimensions {
    pub content: Rect,
    pub padding: EdgeSizes,
    pub border: EdgeSizes,
    pub margin: EdgeSizes,
}

pub open spec fn zero_edges() -> EdgeSizes {
    EdgeSizes { left: 0, right: 0, top: 0, bottom: 0 }
}

pub open spec fn zero_dimensions() -> Dimensions {
    Dimensions {
        content: Rect { x: 0, y: 0, width: 0, height: 0 },
        padding: zero_edges(),
        border: zero_edges(),
        margin: zero_edges(),
    }
}

impl Rect {
    pub open spec fn spec_expanded_by(self, edge: EdgeSizes) -> Rect {
        Rect {
            x: sat(self.x - edge.left) as i64,
            y: sat(self.y - edge.top) as i64,
            width: sat(sat(self.width + edge.left) + edge.right) as i64,
            height: sat(sat(self.height + edge.top) + edge.bottom) as i64,
        }
    }

    /// The rectangle grown by `edge` on each side.
    pub fn expanded_by(self, edge: EdgeSizes) -> (r: Rect)
        ensures
            r == self.spec_expanded_by(edge),
    {
        Rect {
            x: sat_sub(self.x, edge.left),
            y: sat_sub(self.y, edge.top),
            width: sat_add(sat_add(self.width, edge.left), edge.right),
            height: sat_add(sat_add(self.height, edge.top), edge.bottom),
        }
    }
}

impl Dimensions {
    /// All rectangles and edges zero.
    pub fn zero() -> (r: Dimensions)
        ensures
            r == zero_dimensions(),
    {
        let e = EdgeSizes { left: 0, right: 0, top: 0, bottom: 0 };
        Dimensions { content: Rect { x: 0, y: 0, width: 0, height: 0 }, padding: e, border: e, margin: e }
    }

    pub open spec fn spec_padding_box(self) -> Rect {
        self.content.spec_expanded_by(self.padding)
    }

    pub open spec fn spec_border_box(self) -> Rect {
        self.spec_padding_box().spec_expanded_by(self.border)
    }

    pub open spec fn spec_margin_box(self) -> Rect {
        self.spec_border_box().spec_expanded_by(self.margin)
    }

    /// The content area grown by the padding.
    pub fn padding_box(self) -> (r: Rect)
        ensures
            r == self.spec_padding_box(),
    {
        self.content.expanded_by(self.padding)
    }

    /// The padding box grown by the border.
    pub fn border_box(self) -> (r: Rect)
        ensures
            r == self.spec_border_box(),
    {
        self.padding_box().expanded_by(self.border)
    }

    /// The border box grown by the margin.
    pub fn margin_box(self) -> (r: Rect)
        ensures
            r == self.spec_margin_box(),
    {
        self.border_box().expanded_by(self.margin)
    }
}

/// What a layout box stands for: a block or inline styled node, or an
/// anonymous block that groups inline boxes.
#[derive(Debug)]
pub enum BoxType<'a> {
    BlockNode(&'a StyledNode<'a>),
    InlineNode(&'a StyledNode<'a>),
    AnonymousBlock,
}

/// A box of the layout tree, with its geometry and its children in order.
#[derive(Debug)]
pub struct LayoutBox<'a> {
    pub dimensions: Dimensions,
    pub box_type: BoxType<'a>,
    pub children: Vec<LayoutBox<'a>>,
}

/// The children of `cs` with each anonymous box replaced by its own children.
pub open spec fn flatten(cs: Seq<LayoutBox>) -> Seq<LayoutBox>
    decreases cs.len(),
{
    if cs.len() == 0 {
        Seq::empty()
    } else {
        let last = cs.last();
        flatten(cs.drop_last()) + if last.box_type is AnonymousBlock {
            last.children@
        } else {
            seq![last]
        }
    }
}

/// How the children `cs` of a box of type `t` are arranged. Under a block,
/// inline boxes stand only inside anonymous boxes; each anonymous box has
/// zero geometry and holds at least one box, all of them inline; and no two
/// anonymous boxes are neighbours. An inline box has no anonymous child. An
/// anonymous box holds inline boxes only.
pub open spec fn arranged(t: BoxType, cs: Seq<LayoutBox>) -> bool {
    match t {
        BoxType::BlockNode(_) => {
            &&& forall|k: int| 0 <= k < cs.len() ==> !(#[trigger] cs[k].box_type is InlineNode)
            &&& forall|k: int|
                0 <= k < cs.len() && (#[trigger] cs[k].box_type is AnonymousBlock) ==> {
                    &&& cs[k].dimensions == zero_dimensions()
                    &&& cs[k].children@.len() > 0
                    &&& forall|j: int|
                        0 <= j < cs[k].children@.len() ==> (#[trigger] cs[k].children@[j]).box_type is InlineNode
                }
            &&& forall|k: int|
                0 <= k < cs.len() - 1 ==> !((#[trigger] cs[k].box_type is AnonymousBlock) && cs[k
                    + 1].box_type is AnonymousBlock)
        },
        BoxType::InlineNode(_) => forall|k: int|
            0 <= k < cs.len() ==> !(#[trigger] cs[k].box_type is AnonymousBlock),
        BoxType::AnonymousBlock => forall|k: int|
            0 <= k < cs.len() ==> (#[trigger] cs[k].box_type is InlineNode),
    }
}

/// Every box of the tree has its children arranged, and every styled node
/// that a box stands for holds a well-formed property map.
pub open spec fn box_shape(b: LayoutBox) -> bool
    decreases b,
{
    &&& arranged(b.box_type, b.children@)
    &&& match b.box_type {
        BoxType::BlockNode(s) => s.specified_values.wf(),
        BoxType::InlineNode(s) => s.specified_values.wf(),
        BoxType::AnonymousBlock => true,
    }
    &&& forall|k: int| 0 <= k < b.children@.len() ==> box_shape(#[trigger] b.children@[k])
}

/// `b` is the box that styled node `s` gives: a block box for `display:
/// block`, an inline one otherwise, never one for `display: none`; zero
/// geometry; and, once anonymous boxes are looked through, one child for
/// each child of `s` that is not `display: none`, in order, built the same way.
pub open spec fn builds(b: LayoutBox, s: StyledNode) -> bool
    decreases s, s.children@.len() + 1,
{
    &&& s.spec_display() != Display::DisplayNone
    &&& b.dimensions == zero_dimensions()
    &&& if s.spec_display() == Display::Block {
        b.box_type matches BoxType::BlockNode(t) && *t == s
    } else {
        b.box_type matches BoxType::InlineNode(t) && *t == s
    }
    &&& builds_children(flatten(b.children@), s, s.children@.len() as int)
}

/// `flat` holds the boxes built from the first `n` children of `s`, those
/// with `display: none` left out.
pub open spec fn builds_children(flat: Seq<LayoutBox>, s: StyledNode, n: int) -> bool
    decreases s, n,
{
    if n <= 0 || n > s.children@.len() {
        n == 0 && flat.len() == 0
    } else {
        let c = s.children@[n - 1];
        if c.spec_display() == Display::DisplayNone {
            builds_children(flat, s, n - 1)
        } else {
            flat.len() > 0 && builds(flat.last(), c) && builds_children(flat.drop_last(), s, n - 1)
        }
    }
}

proof fn lemma_flatten_push(cs: Seq<LayoutBox>, x: LayoutBox)
    ensures
        flatten(cs.push(x)) == flatten(cs) + if x.box_type is AnonymousBlock {
            x.children@
        } else {
            seq![x]
        },
{
    assert(cs.push(x).drop_last() =~= cs);
}

proof fn lemma_shape_intro(b: LayoutBox)
    requires
        arranged(b.box_type, b.children@),
        match b.box_type {
            BoxType::BlockNode(s) => s.specified_values.wf(),
            BoxType::InlineNode(s) => s.specified_values.wf(),
            BoxType::AnonymousBlock => true,
        },
        forall|k: int| 0 <= k < b.children@.len() ==> box_shape(#[trigger] b.children@[k]),
    ensures
        box_shape(b),
{
}

impl<'a> LayoutBox<'a> {
    /// A box of the given type with zero geometry and no children.
    pub fn new(box_type: BoxType<'a>) -> (r: LayoutBox<'a>)
        ensures
            r.box_type == box_type,
            r.dimensions == zero_dimensions(),
            r.children@.len() == 0,
    {
        LayoutBox { dimensions: Dimensions::zero(), box_type, children: Vec::new() }
    }

    /// Adds an inline box to the box that holds this box's inline content:
    /// the box itself where it is inline or anonymous; under a block, its
    /// last child where that is anonymous, else a new anonymous last child.
    pub fn push_inline(&mut self, child: LayoutBox<'a>)
        requires
            child.box_type is InlineNode,
            box_shape(child),
            arranged(old(self).box_type, old(self).children@),
            forall|k: int|
                0 <= k < old(self).children@.len() ==> box_shape(#[trigger] old(self).children@[k]),
        ensures
            final(self).box_type == old(self).box_type,
            final(self).dimensions == old(self).dimensions,
            flatten(final(self).children@) == flatten(old(self).children@).push(child),
            arranged(final(self).box_type, final(self).children@),
            forall|k: int|
                0 <= k < final(self).children@.len() ==> box_shape(
                    #[trigger] final(self).children@[k],
                ),
    {
        let ghost c = child;
        let ghost old_children = self.children@;
        match self.box_type {
            BoxType::BlockNode(_) => {
                let n = self.children.len();
                if n > 0 && matches!(self.children[n - 1].box_type, BoxType::AnonymousBlock) {
                    let mut last = self.children.pop().unwrap();
                    let ghost old_last = last;
                    last.children.push(child);
                    proof {
                        assert(old_children =~= self.children@.push(old_last));
                        lemma_flatten_push(self.children@, old_last);
                        lemma_flatten_push(self.children@, last);
                        assert(box_shape(old_last));
                        assert forall|k: int| 0 <= k < last.children@.len() implies box_shape(
                            #[trigger] last.children@[k],
                        ) by {
                            if k < old_last.children@.len() {
                                assert(last.children@[k] == old_last.children@[k]);
                            }
                        }
                        lemma_shape_intro(last);
                    }
                    self.children.push(last);
                    proof {
                        assert(flatten(self.children@) =~= flatten(old_children).push(c));
                        assert forall|k: int| 0 <= k < self.children@.len() implies box_shape(
                            #[trigger] self.children@[k],
                        ) by {
                            if k < n - 1 {
                                assert(self.children@[k] == old_children[k]);
                            }
                        }
                    }
                } else {
                    let mut anon = LayoutBox::new(BoxType::AnonymousBlock);
                    anon.children.push(child);
                    proof {
                        assert(anon.children@[0] == c);
                        lemma_shape_intro(anon);
                        lemma_flatten_push(self.children@, anon);
                        assert(anon.children@ =~= seq![c]);
                    }
                    self.children.push(anon);
                    proof {
                        assert(flatten(self.children@) =~= flatten(old_children).push(c));
                        assert forall|k: int| 0 <= k < self.children@.len() implies box_shape(
                            #[trigger] self.children@[k],
                        ) by {
                            if k < n {
                                assert(self.children@[k] == old_children[k]);
                            }
                        }
                    }
                }
            },
            _ => {
                self.children.push(child);
                proof {
                    lemma_flatten_push(old_children, c);
                    assert(flatten(self.children@) =~= flatten(old_children).push(c));
                    assert forall|k: int| 0 <= k < self.children@.len() implies box_shape(
                        #[trigger] self.children@[k],
                    ) by {
                        if k < old_children.len() {
                            assert(self.children@[k] == old_children[k]);
                        }
                    }
                }
            },
        }
    }
}

/// Why no layout tree could be built.
#[derive(Clone, Copy, Debug, PartialEq, Eq, Structural)]
pub enum LayoutError {
    /// The root node has `display: none`: there is nothing to lay out.
    RootDisplayNone,
}

/// The box of a styled node that is not `display: none`, with the boxes of
/// its descendants.
fn build_layout_box<'a>(style_node: &'a StyledNode<'a>) -> (r: LayoutBox<'a>)
    requires
        styled_wf(*style_node),
        style_node.spec_display() != Display::DisplayNone,
    ensures
        builds(r, *style_node),
        box_shape(r),
    decreases style_node,
{
    let mut root = LayoutBox::new(
        match style_node.display() {
            Display::Block => BoxType::BlockNode(style_node),
            _ => BoxType::InlineNode(style_node),
        },
    );
    let ghost t = root.box_type;
    let mut i: usize = 0;
    while i < style_node.children.len()
        invariant
            styled_wf(*style_node),
            i <= style_node.children@.len(),
            root.box_type == t,
            t == (if style_node.spec_display() == Display::Block {
                BoxType::BlockNode(style_node)
            } else {
                BoxType::InlineNode(style_node)
            }),
            root.dimensions == zero_dimensions(),
            arranged(root.box_type, root.children@),
            forall|k: int| 0 <= k < root.children@.len() ==> box_shape(#[trigger] root.children@[k]),
            builds_children(flatten(root.children@), *style_node, i as int),
        decreases style_node.children@.len() - i,
    {
        let child = &style_node.children[i];
        proof {
            lemma_styled_child(*style_node, i as int);
        }
        let ghost flat = flatten(root.children@);
        match child.display() {
            Display::Block => {
                let b = build_layout_box(child);
                let ghost old_children = root.children@;
                root.children.push(b);
                proof {
                    lemma_flatten_push(old_children, b);
                    assert(flatten(root.children@).drop_last() =~= flat);
                    assert forall|k: int| 0 <= k < root.children@.len() implies box_shape(
                        #[trigger] root.children@[k],
                    ) by {
                        if k < old_children.len() {
                            assert(root.children@[k] == old_children[k]);
                        }
                    }
                }
            },
            Display::Inline => {
                let b = build_layout_box(child);
                root.push_inline(b);
                proof {
                    assert(flatten(root.children@).drop_last() =~= flat);
                }
            },
            Display::DisplayNone => {},
        }
        i = i + 1;
    }
    proof {
        lemma_shape_intro(root);
    }
    root
}

/// The layout tree of a styled tree; its root must not be `display: none`.
pub fn build_layout_tree<'a>(style_node: &'a StyledNode<'a>) -> (r: Result<LayoutBox<'a>, LayoutError>)
    requires
        styled_wf(*style_node),
    ensures
        r is Err <==> style_node.spec_display() == Display::DisplayNone,
        r matches Ok(b) ==> builds(b, *style_node) && box_shape(b) && styles_wf(b),
        r matches Err(e) ==> e == LayoutError::RootDisplayNone,
{
    match style_node.display() {
        Display::DisplayNone => Err(LayoutError::RootDisplayNone),
        _ => {
            let b = build_layout_box(style_node);
            proof {
                lemma_shape_styles(b);
            }
            Ok(b)
        },
    }
}

/// The pixel length 0, the default of every edge size.
pub open spec fn zero_len() -> Value {
    Value::Length(0, Unit::Px)
}

/// `x / 2` rounded down.
pub fn half_down(x: i64) -> (r: i64)
    ensures
        r == x / 2,
{
    if x >= 0 {
        x / 2
    } else {
        let y: i64 = -(x + 1);
        let r = -(y / 2) - 1;
        assert(r == x / 2) by (nonlinear_arith)
            requires
                y == -(x + 1),
                y >= 0,
                r == -(y / 2) - 1,
        ;
        r
    }
}

/// The edge size that `name` gives, else the shorthand `fallback`, else 0.
pub open spec fn edge(s: StyledNode, name: Seq<char>, fallback: Seq<char>) -> Value {
    s.spec_lookup(name, fallback, zero_len())
}

/// Content width, then margin left and right, of a block box whose specified
/// width is `w` (`None` where it has none) and margins `ml` and `mr`, beside
/// borders and paddings that add up to `bp`, in a containing block `cbw`
/// wide. `auto` counts as 0 in the sum; where a width is given and the sum
/// exceeds `cbw`, `auto` margins become 0; what is left over (`underflow`)
/// goes where the case table puts it.
pub open spec fn resolve_width(w: Option<Value>, ml: Value, mr: Value, bp: int, cbw: int) -> (int, int, int) {
    let w_auto = match w {
        Some(v) => v.spec_is_auto(),
        None => true,
    };
    let w_px = match w {
        Some(v) => v.spec_to_px(),
        None => 0,
    };
    let total = sat(sat(sat(ml.spec_to_px() + mr.spec_to_px()) + bp) + w_px);
    let over = !w_auto && total > cbw;
    let ml_auto = ml.spec_is_auto() && !over;
    let mr_auto = mr.spec_is_auto() && !over;
    let u = sat(cbw - total);
    if w_auto {
        if u >= 0 {
            (u, ml.spec_to_px(), mr.spec_to_px())
        } else {
            (0, ml.spec_to_px(), sat(mr.spec_to_px() + u))
        }
    } else if !ml_auto && !mr_auto {
        (w_px, ml.spec_to_px(), sat(mr.spec_to_px() + u))
    } else if !ml_auto && mr_auto {
        (w_px, ml.spec_to_px(), u)
    } else if ml_auto && !mr_auto {
        (w_px, u, mr.spec_to_px())
    } else {
        (w_px, u / 2, u - u / 2)
    }
}

/// The dimensions `d` with the horizontal sizes of block `s` resolved in a
/// containing block `cbw` wide.
pub open spec fn width_dimensions(d: Dimensions, s: StyledNode, cbw: int) -> Dimensions {
    let bl = edge(s, "border-left-width"@, "border-width"@).spec_to_px();
    let br = edge(s, "border-right-width"@, "border-width"@).spec_to_px();
    let pl = edge(s, "padding-left"@, "padding"@).spec_to_px();
    let pr = edge(s, "padding-right"@, "padding"@).spec_to_px();
    let bp = sat(sat(sat(bl + br) + pl) + pr);
    let (w, ml, mr) = resolve_width(
        s.spec_value("width"@),
        edge(s, "margin-left"@, "margin"@),
        edge(s, "margin-right"@, "margin"@),
        bp,
        cbw,
    );
    Dimensions {
        content: Rect { width: w as i64, ..d.content },
        padding: EdgeSizes { left: pl as i64, right: pr as i64, ..d.padding },
        border: EdgeSizes { left: bl as i64, right: br as i64, ..d.border },
        margin: EdgeSizes { left: ml as i64, right: mr as i64, ..d.margin },
    }
}

/// The dimensions `d` with the vertical edges of block `s` read and its
/// content placed inside containing block `cb`: after the left edges, and
/// below the content laid out in `cb` so far, after the top edges.
pub open spec fn position_dimensions(d: Dimensions, s: StyledNode, cb: Dimensions) -> Dimensions {
    let mt = edge(s, "margin-top"@, "margin"@).spec_to_px() as i64;
    let mb = edge(s, "margin-bottom"@, "margin"@).spec_to_px() as i64;
    let bt = edge(s, "border-top-width"@, "border-width"@).spec_to_px() as i64;
    let bb = edge(s, "border-bottom-width"@, "border-width"@).spec_to_px() as i64;
    let pt = edge(s, "padding-top"@, "padding"@).spec_to_px() as i64;
    let pb = edge(s, "padding-bottom"@, "padding"@).spec_to_px() as i64;
    Dimensions {
        content: Rect {
            x: sat(sat(sat(cb.content.x + d.margin.left) + d.border.left) + d.padding.left) as i64,
            y: sat(sat(sat(sat(cb.content.y + cb.content.height) + mt) + bt) + pt) as i64,
            ..d.content
        },
        padding: EdgeSizes { top: pt, bottom: pb, ..d.padding },
        border: EdgeSizes { top: bt, bottom: bb, ..d.border },
        margin: EdgeSizes { top: mt, bottom: mb, ..d.margin },
    }
}

/// The dimensions `d` with the content height that block `s` specifies in
/// pixels, where it does.
pub open spec fn height_dimensions(d: Dimensions, s: StyledNode) -> Dimensions {
    match s.spec_value("height"@) {
        Some(Value::Length(h, _)) => Dimensions { content: Rect { height: h, ..d.content }, ..d },
        _ => d,
    }
}

impl<'a> LayoutBox<'a> {
    /// The styled node of a block or inline box.
    pub open spec fn spec_style(&self) -> StyledNode<'a> {
        match self.box_type {
            BoxType::BlockNode(s) => *s,
            BoxType::InlineNode(s) => *s,
            BoxType::AnonymousBlock => arbitrary(),
        }
    }

    /// The styled node of a block or inline box.
    pub fn get_style_node(&self) -> (r: &'a StyledNode<'a>)
        requires
            !(self.box_type is AnonymousBlock),
        ensures
            *r == self.spec_style(),
    {
        match self.box_type {
            BoxType::BlockNode(s) => s,
            BoxType::InlineNode(s) => s,
            BoxType::AnonymousBlock => unreached(),
        }
    }

    /// Resolves the content width and the horizontal edges of a block box.
    fn calculate_block_width(&mut self, containing_block: Dimensions)
        requires
            old(self).box_type matches BoxType::BlockNode(s) && s.specified_values.wf(),
        ensures
            final(self).box_type == old(self).box_type,
            final(self).children == old(self).children,
            final(self).dimensions == width_dimensions(
                old(self).dimensions,
                old(self).spec_style(),
                containing_block.content.width as int,
            ),
    {
        let style = self.get_style_node();
        let zero = Value::Length(0, Unit::Px);
        let width = style.value("width");
        let margin_left = style.lookup("margin-left", "margin", &zero);
        let margin_right = style.lookup("margin-right", "margin", &zero);
        let border_left = style.lookup("border-left-width", "border-width", &zero).to_px();
        let border_right = style.lookup("border-right-width", "border-width", &zero).to_px();
        let padding_left = style.lookup("padding-left", "padding", &zero).to_px();
        let padding_right = style.lookup("padding-right", "padding", &zero).to_px();
        let bp = sat_add(sat_add(sat_add(border_left, border_right), padding_left), padding_right);
        let cbw = containing_block.content.width;

        let width_auto = match &width {
            Some(v) => v.is_auto(),
            None => true,
        };
        let width_px = match &width {
            Some(v) => v.to_px(),
            None => 0,
        };
        let ml = margin_left.to_px();
        let mr = margin_right.to_px();
        let total = sat_add(sat_add(sat_add(ml, mr), bp), width_px);
        let over = !width_auto && total > cbw;
        let ml_auto = margin_left.is_auto() && !over;
        let mr_auto = margin_right.is_auto() && !over;
        let underflow = sat_sub(cbw, total);

        let (w, l, r) = if width_auto {
            if underflow >= 0 {
                (underflow, ml, mr)
            } else {
                (0, ml, sat_add(mr, underflow))
            }
        } else if !ml_auto && !mr_auto {
            (width_px, ml, sat_add(mr, underflow))
        } else if !ml_auto && mr_auto {
            (width_px, ml, underflow)
        } else if ml_auto && !mr_auto {
            (width_px, underflow, mr)
        } else {
            let half = half_down(underflow);
            (width_px, half, underflow - half)
        };
        proof {
            let (sw, sl, sr) = resolve_width(width, margin_left, margin_right, bp as int, cbw as int);
            assert(sw == w && sl == l && sr == r);
        }
        let d = &mut self.dimensions;
        d.content.width = w;
        d.padding.left = padding_left;
        d.padding.right = padding_right;
        d.border.left = border_left;
        d.border.right = border_right;
        d.margin.left = l;
        d.margin.right = r;
    }

    /// Reads the vertical edges of a block box and places its content in the
    /// containing block.
    fn calculate_block_position(&mut self, containing_block: Dimensions)
        requires
            old(self).box_type matches BoxType::BlockNode(s) && s.specified_values.wf(),
        ensures
            final(self).box_type == old(self).box_type,
            final(self).children == old(self).children,
            final(self).dimensions == position_dimensions(
                old(self).dimensions,
                old(self).spec_style(),
                containing_block,
            ),
    {
        let style = self.get_style_node();
        let zero = Value::Length(0, Unit::Px);
        let mt = style.lookup("margin-top", "margin", &zero).to_px();
        let mb = style.lookup("margin-bottom", "margin", &zero).to_px();
        let bt = style.lookup("border-top-width", "border-width", &zero).to_px();
        let bb = style.lookup("border-bottom-width", "border-width", &zero).to_px();
        let pt = style.lookup("padding-top", "padding", &zero).to_px();
        let pb = style.lookup("padding-bottom", "padding", &zero).to_px();
        let d = &mut self.dimensions;
        d.margin.top = mt;
        d.margin.bottom = mb;
        d.border.top = bt;
        d.border.bottom = bb;
        d.padding.top = pt;
        d.padding.bottom = pb;
        d.content.x = sat_add(
            sat_add(sat_add(containing_block.content.x, d.margin.left), d.border.left),
            d.padding.left,
        );
        d.content.y = sat_add(
            sat_add(
                sat_add(
                    sat_add(containing_block.content.y, containing_block.content.height),
                    mt,
                ),
                bt,
            ),
            pt,
        );
    }

    /// Where the block specifies a height in pixels, it replaces the content
    /// height.
    fn calculate_block_height(&mut self)
        requires
            old(self).box_type matches BoxType::BlockNode(s) && s.specified_values.wf(),
        ensures
            final(self).box_type == old(self).box_type,
            final(self).children == old(self).children,
            final(self).dimensions == height_dimensions(
                old(self).dimensions,
                old(self).spec_style(),
            ),
    {
        let style = self.get_style_node();
        if let Some(Value::Length(h, _)) = style.value("height") {
            self.dimensions.content.height = h;
        }
    }
}

/// Every styled node that a box of the tree stands for holds a well-formed
/// property map.
pub open spec fn styles_wf(b: LayoutBox) -> bool
    decreases b,
{
    &&& match b.box_type {
        BoxType::BlockNode(s) => s.specified_values.wf(),
        BoxType::InlineNode(s) => s.specified_values.wf(),
        BoxType::AnonymousBlock => true,
    }
    &&& forall|k: int| 0 <= k < b.children@.len() ==> styles_wf(#[trigger] b.children@[k])
}

pub proof fn lemma_shape_styles(b: LayoutBox)
    requires
        box_shape(b),
    ensures
        styles_wf(b),
    decreases b,
{
    assert forall|k: int| 0 <= k < b.children@.len() implies styles_wf(#[trigger] b.children@[k]) by {
        lemma_shape_styles(b.children@[k]);
    }
}

/// `d` with content height `h`.
pub open spec fn with_height(d: Dimensions, h: int) -> Dimensions {
    Dimensions { content: Rect { height: h as i64, ..d.content }, ..d }
}

/// The content height of `d` once the margin boxes of the first `k` boxes of
/// `cs` are stacked under it.
pub open spec fn height_after(d: Dimensions, cs: Seq<LayoutBox>, k: int) -> int
    decreases k,
{
    if k <= 0 {
        d.content.height as int
    } else {
        sat(height_after(d, cs, k - 1) + cs[k - 1].dimensions.spec_margin_box().height)
    }
}

proof fn lemma_height_after_prefix(d: Dimensions, cs: Seq<LayoutBox>, ds: Seq<LayoutBox>, k: int)
    requires
        0 <= k <= cs.len(),
        k <= ds.len(),
        forall|i: int| 0 <= i < k ==> cs[i] == ds[i],
    ensures
        height_after(d, cs, k) == height_after(d, ds, k),
    decreases k,
{
    if k > 0 {
        lemma_height_after_prefix(d, cs, ds, k - 1);
    }
}

/// The dimensions of block box `b` before its children: its width and
/// position resolved in containing block `cb`.
pub open spec fn placed(b: LayoutBox, cb: Dimensions) -> Dimensions {
    position_dimensions(
        width_dimensions(b.dimensions, b.spec_style(), cb.content.width as int),
        b.spec_style(),
        cb,
    )
}

/// `new` is `old` laid out in containing block `cb`. A block box gets its
/// width and position; each child is laid out in turn, in the box's
/// dimensions with the content height stacked so far, and adds its margin
/// box height to that content height; an explicit height then replaces it.
/// Inline and anonymous boxes are left as they are.
pub open spec fn laid_out(old: LayoutBox, new: LayoutBox, cb: Dimensions) -> bool
    decreases old,
{
    &&& new.box_type == old.box_type
    &&& new.children@.len() == old.children@.len()
    &&& if old.box_type is BlockNode {
        let d = placed(old, cb);
        &&& forall|k: int|
            0 <= k < old.children@.len() ==> laid_out(
                #[trigger] old.children@[k],
                new.children@[k],
                with_height(d, height_after(d, new.children@, k)),
            )
        &&& new.dimensions == height_dimensions(
            with_height(d, height_after(d, new.children@, new.children@.len() as int)),
            old.spec_style(),
        )
    } else {
        new.dimensions == old.dimensions && new.children@ == old.children@
    }
}

impl<'a> LayoutBox<'a> {
    /// Lays out the box and its descendants in containing block
    /// `containing_block`.
    pub fn layout(&mut self, containing_block: Dimensions)
        requires
            styles_wf(*old(self)),
        ensures
            laid_out(*old(self), *final(self), containing_block),
            styles_wf(*final(self)),
        decreases *old(self),
    {
        if !matches!(self.box_type, BoxType::BlockNode(_)) {
            return;
        }
        let ghost start = *self;
        let ghost orig = *old(self);
        self.calculate_block_width(containing_block);
        self.calculate_block_position(containing_block);
        let ghost d = self.dimensions;
        let ghost cs = self.children@;
        assert(d == placed(start, containing_block));
        let n = self.children.len();
        let mut k: usize = 0;
        while k < n
            invariant
                n == cs.len(),
                k <= n,
                self.box_type == start.box_type,
                start.box_type is BlockNode,
                self.children@.len() == n,
                cs == start.children@,
                orig == *old(self),
                cs == orig.children@,
                forall|j: int| 0 <= j < n ==> styles_wf(#[trigger] cs[j]),
                forall|j: int|
                    0 <= j < k ==> laid_out(
                        #[trigger] cs[j],
                        self.children@[j],
                        with_height(d, height_after(d, self.children@, j)),
                    ),
                forall|j: int| 0 <= j < k ==> styles_wf(#[trigger] self.children@[j]),
                forall|j: int| k <= j < n ==> #[trigger] self.children@[j] == cs[j],
                self.dimensions == with_height(d, height_after(d, self.children@, k as int)),
            decreases n - k,
        {
            let before = self.dimensions;
            let ghost prev = self.children@;
            proof {
                assert(styles_wf(cs[k as int]));
                assert(decreases_to!(orig => orig.children));
                assert(decreases_to!(orig.children => orig.children@));
                assert(decreases_to!(orig.children@ => orig.children@[k as int]));
                assert(decreases_to!(orig => orig.children@[k as int]));
            }
            self.children[k].layout(before);
            let grown = sat_add(before.content.height, self.children[k].dimensions.margin_box().height);
            self.dimensions.content.height = grown;
            proof {
                lemma_height_after_prefix(d, prev, self.children@, k as int);
                lemma_height_after_prefix(d, prev, self.children@, k as int);
                assert forall|j: int|
                    0 <= j < k implies laid_out(
                        #[trigger] cs[j],
                        self.children@[j],
                        with_height(d, height_after(d, self.children@, j)),
                    ) by {
                    assert(self.children@[j] == prev[j]);
                    lemma_height_after_prefix(d, prev, self.children@, j);
                }
                assert(height_after(d, self.children@, k + 1) == grown);
            }
            k = k + 1;
        }
        self.calculate_block_height();
        proof {
            assert forall|j: int| 0 <= j < n implies styles_wf(#[trigger] self.children@[j]) by {}
        }
    }
}


/// `a` and `b` are boxes of one kind, standing for styled nodes with the
/// same property maps where they stand for one.
pub open spec fn same_kind(a: LayoutBox, b: LayoutBox) -> bool {
    match (a.box_type, b.box_type) {
        (BoxType::BlockNode(s), BoxType::BlockNode(t)) => s.specified_values@ == t.specified_values@,
        (BoxType::InlineNode(s), BoxType::InlineNode(t)) => s.specified_values@
            == t.specified_values@,
        (BoxType::AnonymousBlock, BoxType::AnonymousBlock) => true,
        _ => false,
    }
}

/// `a` and `b` are the same box tree: the same dimensions and kind, and
/// children that are the same box trees, in order.
pub open spec fn same_boxes(a: LayoutBox, b: LayoutBox) -> bool
    decreases a,
{
    &&& a.dimensions == b.dimensions
    &&& same_kind(a, b)
    &&& a.children@.len() == b.children@.len()
    &&& forall|k: int|
        0 <= k < a.children@.len() ==> same_boxes(#[trigger] a.children@[k], b.children@[k])
}

/// Styled nodes with the same property maps read the same values.
proof fn lemma_same_values(s1: StyledNode, s2: StyledNode)
    requires
        s1.specified_values@ == s2.specified_values@,
    ensures
        forall|name: Seq<char>| #[trigger] s1.spec_value(name) == s2.spec_value(name),
{
}

proof fn lemma_placed_same(o1: LayoutBox, o2: LayoutBox, cb: Dimensions)
    requires
        o1.box_type is BlockNode,
        same_kind(o1, o2),
        o1.dimensions == o2.dimensions,
    ensures
        placed(o1, cb) == placed(o2, cb),
        o1.spec_style().spec_value("height"@) == o2.spec_style().spec_value("height"@),
{
    lemma_same_values(o1.spec_style(), o2.spec_style());
    let s1 = o1.spec_style();
    let s2 = o2.spec_style();
    assert(width_dimensions(o1.dimensions, s1, cb.content.width as int) == width_dimensions(
        o2.dimensions,
        s2,
        cb.content.width as int,
    ));
}

/// Laying out the same tree in the same containing block twice gives the
/// same tree.
pub proof fn lemma_layout_deterministic(
    o1: LayoutBox,
    o2: LayoutBox,
    n1: LayoutBox,
    n2: LayoutBox,
    cb: Dimensions,
)
    requires
        same_boxes(o1, o2),
        laid_out(o1, n1, cb),
        laid_out(o2, n2, cb),
    ensures
        same_boxes(n1, n2),
    decreases o1, o1.children@.len() + 1,
{
    if o1.box_type is BlockNode {
        let n = o1.children@.len() as int;
        lemma_placed_same(o1, o2, cb);
        lemma_children_deterministic(o1, o2, n1, n2, cb, n);
        assert forall|k: int| 0 <= k < n1.children@.len() implies same_boxes(
            #[trigger] n1.children@[k],
            n2.children@[k],
        ) by {}
    } else {
        assert forall|k: int| 0 <= k < n1.children@.len() implies same_boxes(
            #[trigger] n1.children@[k],
            n2.children@[k],
        ) by {
            assert(same_boxes(o1.children@[k], o2.children@[k]));
        }
    }
}

proof fn lemma_children_deterministic(
    o1: LayoutBox,
    o2: LayoutBox,
    n1: LayoutBox,
    n2: LayoutBox,
    cb: Dimensions,
    k: int,
)
    requires
        o1.box_type is BlockNode,
        same_boxes(o1, o2),
        placed(o1, cb) == placed(o2, cb),
        laid_out(o1, n1, cb),
        laid_out(o2, n2, cb),
        0 <= k <= o1.children@.len(),
    ensures
        forall|j: int| 0 <= j < k ==> same_boxes(#[trigger] n1.children@[j], n2.children@[j]),
        height_after(placed(o1, cb), n1.children@, k) == height_after(
            placed(o1, cb),
            n2.children@,
            k,
        ),
    decreases o1, k,
{
    if k > 0 {
        let d = placed(o1, cb);
        lemma_children_deterministic(o1, o2, n1, n2, cb, k - 1);
        let c1 = o1.children@[k - 1];
        let c2 = o2.children@[k - 1];
        let inner = with_height(d, height_after(d, n1.children@, k - 1));
        assert(laid_out(c1, n1.children@[k - 1], inner));
        assert(laid_out(c2, n2.children@[k - 1], inner));
        assert(same_boxes(c1, c2));
        lemma_layout_deterministic(c1, c2, n1.children@[k - 1], n2.children@[k - 1], inner);
    }
}


/// Two sequences of the same box trees, position for position.
pub open spec fn same_seq(a: Seq<LayoutBox>, b: Seq<LayoutBox>) -> bool {
    &&& a.len() == b.len()
    &&& forall|k: int| 0 <= k < a.len() ==> same_boxes(#[trigger] a[k], b[k])
}

proof fn lemma_flatten_plain(c: Seq<LayoutBox>)
    requires
        forall|k: int| 0 <= k < c.len() ==> !(#[trigger] c[k].box_type is AnonymousBlock),
    ensures
        flatten(c) == c,
    decreases c.len(),
{
    if c.len() > 0 {
        let p = c.drop_last();
        assert forall|k: int| 0 <= k < p.len() implies !(#[trigger] p[k].box_type is AnonymousBlock) by {
            assert(p[k] == c[k]);
        }
        lemma_flatten_plain(p);
        assert(flatten(c) =~= c);
    }
}

proof fn lemma_flatten_shape(c: Seq<LayoutBox>)
    requires
        forall|k: int| 0 <= k < c.len() ==> box_shape(#[trigger] c[k]),
    ensures
        forall|k: int| 0 <= k < flatten(c).len() ==> box_shape(#[trigger] flatten(c)[k]),
    decreases c.len(),
{
    if c.len() > 0 {
        let p = c.drop_last();
        let x = c.last();
        assert forall|k: int| 0 <= k < p.len() implies box_shape(#[trigger] p[k]) by {
            assert(p[k] == c[k]);
        }
        lemma_flatten_shape(p);
        let fp = flatten(p);
        assert forall|k: int| 0 <= k < flatten(c).len() implies box_shape(#[trigger] flatten(c)[k]) by {
            if k >= fp.len() && x.box_type is AnonymousBlock {
                assert(box_shape(x));
                assert(flatten(c)[k] == x.children@[k - fp.len()]);
            }
        }
    }
}

/// Under a block, the grouping of inline boxes into anonymous boxes is fixed
/// by the boxes that the grouping holds.
proof fn lemma_grouping(t1: BoxType, t2: BoxType, c1: Seq<LayoutBox>, c2: Seq<LayoutBox>)
    requires
        t1 is BlockNode,
        t2 is BlockNode,
        arranged(t1, c1),
        arranged(t2, c2),
        same_seq(flatten(c1), flatten(c2)),
    ensures
        same_seq(c1, c2),
    decreases c1.len() + c2.len(),
{
    let f1 = flatten(c1);
    let f2 = flatten(c2);
    if c1.len() == 0 || c2.len() == 0 {
        if c1.len() > 0 {
            assert(c1.last().box_type is AnonymousBlock ==> c1[c1.len() - 1].children@.len() > 0);
        }
        if c2.len() > 0 {
            assert(c2.last().box_type is AnonymousBlock ==> c2[c2.len() - 1].children@.len() > 0);
        }
    } else {
        let n1 = c1.len() as int;
        let n2 = c2.len() as int;
        let x = c1[n1 - 1];
        let y = c2[n2 - 1];
        let p1 = c1.drop_last();
        let p2 = c2.drop_last();
        let l = f1.len() as int;
        assert(arranged(t1, p1)) by {
            assert forall|k: int| 0 <= k < p1.len() implies p1[k] == #[trigger] c1[k] by {}
        }
        assert(arranged(t2, p2)) by {
            assert forall|k: int| 0 <= k < p2.len() implies p2[k] == #[trigger] c2[k] by {}
        }
        assert(!(x.box_type is InlineNode));
        assert(!(y.box_type is InlineNode));
        if x.box_type is AnonymousBlock {
            assert(x.children@.len() > 0);
            assert(f1[l - 1] == x.children@[x.children@.len() - 1]);
            assert(f1[l - 1].box_type is InlineNode);
        } else {
            assert(f1[l - 1] == x);
        }
        if y.box_type is AnonymousBlock {
            assert(y.children@.len() > 0);
            assert(f2[l - 1] == y.children@[y.children@.len() - 1]);
            assert(f2[l - 1].box_type is InlineNode);
        } else {
            assert(f2[l - 1] == y);
        }
        assert(same_boxes(f1[l - 1], f2[l - 1]));
        if x.box_type is AnonymousBlock {
            let a = x.children@.len() as int;
            let b = y.children@.len() as int;
            assert(y.box_type is AnonymousBlock);
            if a < b {
                assert(f2[l - a - 1] == y.children@[b - a - 1]);
                assert(f2[l - a - 1].box_type is InlineNode);
                assert(p1.len() > 0);
                let z = p1.last();
                assert(!(c1[n1 - 2].box_type is AnonymousBlock && c1[n1 - 1].box_type is AnonymousBlock));
                assert(z == c1[n1 - 2]);
                assert(!(z.box_type is AnonymousBlock));
                assert(flatten(p1)[l - a - 1] == z);
                assert(f1[l - a - 1] == z);
                assert(same_boxes(f1[l - a - 1], f2[l - a - 1]));
                assert(!(z.box_type is InlineNode));
                assert(false);
            }
            if b < a {
                assert(f1[l - b - 1] == x.children@[a - b - 1]);
                assert(f1[l - b - 1].box_type is InlineNode);
                assert(p2.len() > 0);
                let z = p2.last();
                assert(!(c2[n2 - 2].box_type is AnonymousBlock && c2[n2 - 1].box_type is AnonymousBlock));
                assert(z == c2[n2 - 2]);
                assert(!(z.box_type is AnonymousBlock));
                assert(flatten(p2)[l - b - 1] == z);
                assert(f2[l - b - 1] == z);
                assert(same_boxes(f1[l - b - 1], f2[l - b - 1]));
                assert(!(z.box_type is InlineNode));
                assert(false);
            }
            assert forall|k: int| 0 <= k < a implies same_boxes(
                #[trigger] x.children@[k],
                y.children@[k],
            ) by {
                assert(f1[l - a + k] == x.children@[k]);
                assert(f2[l - a + k] == y.children@[k]);
            }
            assert(same_boxes(x, y));
            assert forall|k: int| 0 <= k < l - a implies same_boxes(
                #[trigger] flatten(p1)[k],
                flatten(p2)[k],
            ) by {
                assert(f1[k] == flatten(p1)[k]);
                assert(f2[k] == flatten(p2)[k]);
            }
        } else {
            assert(!(y.box_type is AnonymousBlock));
            assert(same_boxes(x, y));
            assert forall|k: int| 0 <= k < l - 1 implies same_boxes(
                #[trigger] flatten(p1)[k],
                flatten(p2)[k],
            ) by {
                assert(f1[k] == flatten(p1)[k]);
                assert(f2[k] == flatten(p2)[k]);
            }
        }
        lemma_grouping(t1, t2, p1, p2);
        assert forall|k: int| 0 <= k < n1 implies same_boxes(#[trigger] c1[k], c2[k]) by {
            if k < n1 - 1 {
                assert(c1[k] == p1[k]);
                assert(c2[k] == p2[k]);
            }
        }
    }
}


/// Building the box trees of two styled nodes with the same property maps,
/// node for node, gives the same tree.
pub proof fn lemma_build_deterministic(b1: LayoutBox, b2: LayoutBox, s1: StyledNode, s2: StyledNode)
    requires
        same_styles(s1, s2),
        builds(b1, s1),
        builds(b2, s2),
        box_shape(b1),
        box_shape(b2),
    ensures
        same_boxes(b1, b2),
    decreases s1, s1.children@.len() + 1,
{
    let c1 = b1.children@;
    let c2 = b2.children@;
    lemma_flatten_shape(c1);
    lemma_flatten_shape(c2);
    lemma_build_children_deterministic(
        flatten(c1),
        flatten(c2),
        s1,
        s2,
        s1.children@.len() as int,
    );
    if b1.box_type is BlockNode {
        lemma_grouping(b1.box_type, b2.box_type, c1, c2);
    } else {
        assert forall|k: int| 0 <= k < c1.len() implies !(
        #[trigger] c1[k].box_type is AnonymousBlock) by {}
        assert forall|k: int| 0 <= k < c2.len() implies !(
        #[trigger] c2[k].box_type is AnonymousBlock) by {}
        lemma_flatten_plain(c1);
        lemma_flatten_plain(c2);
    }
    assert forall|k: int| 0 <= k < c1.len() implies same_boxes(
        #[trigger] b1.children@[k],
        b2.children@[k],
    ) by {
        assert(same_boxes(c1[k], c2[k]));
    }
}

proof fn lemma_build_children_deterministic(
    f1: Seq<LayoutBox>,
    f2: Seq<LayoutBox>,
    s1: StyledNode,
    s2: StyledNode,
    n: int,
)
    requires
        same_styles(s1, s2),
        builds_children(f1, s1, n),
        builds_children(f2, s2, n),
        forall|k: int| 0 <= k < f1.len() ==> box_shape(#[trigger] f1[k]),
        forall|k: int| 0 <= k < f2.len() ==> box_shape(#[trigger] f2[k]),
    ensures
        same_seq(f1, f2),
    decreases s1, n,
{
    if 0 < n <= s1.children@.len() {
        let c1 = s1.children@[n - 1];
        let c2 = s2.children@[n - 1];
        assert(same_styles(c1, c2));
        if c1.spec_display() == Display::DisplayNone {
            lemma_build_children_deterministic(f1, f2, s1, s2, n - 1);
        } else {
            let p1 = f1.drop_last();
            let p2 = f2.drop_last();
            assert forall|k: int| 0 <= k < p1.len() implies box_shape(#[trigger] p1[k]) by {
                assert(p1[k] == f1[k]);
            }
            assert forall|k: int| 0 <= k < p2.len() implies box_shape(#[trigger] p2[k]) by {
                assert(p2[k] == f2[k]);
            }
            lemma_build_children_deterministic(p1, p2, s1, s2, n - 1);
            assert(box_shape(f1[f1.len() - 1]));
            assert(box_shape(f2[f2.len() - 1]));
            lemma_build_deterministic(f1.last(), f2.last(), c1, c2);
            assert forall|k: int| 0 <= k < f1.len() implies same_boxes(
                #[trigger] f1[k],
                f2[k],
            ) by {
                if k < f1.len() - 1 {
                    assert(f1[k] == p1[k]);
                    assert(f2[k] == p2[k]);
                }
            }
        }
    }
}

} // verus!
