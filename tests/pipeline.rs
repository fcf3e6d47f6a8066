use minirender::css::{
    specificity_lt, Color, Declaration, Rule, Selector, SimpleSelector, Stylesheet, Unit, Value,
};
use minirender::dom::{contains_word, elem, text, ElementData, Node};
use minirender::layout::{
    build_layout_tree, half_down, sat_add, sat_sub, BoxType, Dimensions, EdgeSizes, LayoutBox,
    LayoutError, Rect,
};
use minirender::painting::{build_display_list, paint, Canvas, DisplayCommand};
use minirender::style::{specified_values, style_tree, Display, StyledNode};

fn s(x: &str) -> String {
    x.to_string()
}

fn px(n: i64) -> Value {
    Value::Length(n, Unit::Px)
}

fn kw(k: &str) -> Value {
    Value::Keyword(s(k))
}

fn color(r: u8, g: u8, b: u8) -> Value {
    Value::ColorValue(Color { r, g, b, a: 255 })
}

fn decl(name: &str, value: Value) -> Declaration {
    Declaration { name: s(name), value }
}

fn sel(tag: Option<&str>, id: Option<&str>, class: &[&str]) -> Selector {
    Selector::Simple(SimpleSelector {
        tag_name: tag.map(s),
        id: id.map(s),
        class: class.iter().map(|c| s(c)).collect(),
    })
}

fn rule(selectors: Vec<Selector>, declarations: Vec<Declaration>) -> Rule {
    Rule { selectors, declarations }
}

fn element(tag: &str, attrs: &[(&str, &str)], children: Vec<Node>) -> Node {
    elem(s(tag), attrs.iter().map(|(k, v)| (s(k), s(v))).collect(), children)
}

fn element_data(tag: &str, attrs: &[(&str, &str)]) -> ElementData {
    ElementData { tag_name: s(tag), attributes: attrs.iter().map(|(k, v)| (s(k), s(v))).collect() }
}

fn block_dims(width: i64) -> Dimensions {
    let mut d = Dimensions::zero();
    d.content.width = width;
    d
}

fn px_of(v: &Option<Value>) -> Option<i64> {
    match v {
        Some(Value::Length(n, _)) => Some(*n),
        _ => None,
    }
}

fn keyword_of(v: &Option<Value>) -> Option<String> {
    match v {
        Some(Value::Keyword(k)) => Some(k.clone()),
        _ => None,
    }
}

fn pixel(c: &Canvas, x: usize, y: usize) -> Color {
    c.pixels[x + y * c.width]
}

const WHITE: Color = Color { r: 255, g: 255, b: 255, a: 255 };
const RED: Color = Color { r: 255, g: 0, b: 0, a: 255 };
const BLUE: Color = Color { r: 0, g: 0, b: 255, a: 255 };

#[test]
fn specificity_counts_id_classes_and_tag() {
    assert_eq!(sel(Some("div"), Some("main"), &["a", "b"]).specificity(), (1, 2, 1));
    assert_eq!(sel(None, None, &[]).specificity(), (0, 0, 0));
}

#[test]
fn specificity_order_is_lexicographic() {
    let id = (1, 0, 0);
    let classes = (0, 5, 0);
    let tag = (0, 0, 1);
    let none = (0, 0, 0);
    assert!(specificity_lt(classes, id));
    assert!(specificity_lt(tag, classes));
    assert!(specificity_lt(none, tag));
    assert!(!specificity_lt(id, classes));
    assert!(!specificity_lt(id, id));
}

#[test]
fn class_attribute_is_a_whitespace_separated_set() {
    assert!(contains_word(&s("a  big\tbox"), &s("big")));
    assert!(contains_word(&s("a big box"), &s("a")));
    assert!(contains_word(&s("a big box"), &s("box")));
    assert!(!contains_word(&s("a big box"), &s("bi")));
    assert!(!contains_word(&s("a big box"), &s("big box")));
    assert!(!contains_word(&s("a big box"), &s("")));
    assert!(!contains_word(&s(""), &s("a")));
}

#[test]
fn selector_matches_tag_id_and_classes() {
    let e = element_data("div", &[("id", "main"), ("class", "x y")]);
    let sheet = Stylesheet {
        rules: vec![
            rule(vec![sel(Some("div"), None, &[])], vec![decl("a", px(1))]),
            rule(vec![sel(Some("p"), None, &[])], vec![decl("b", px(1))]),
            rule(vec![sel(None, Some("main"), &["y"])], vec![decl("c", px(1))]),
            rule(vec![sel(None, Some("other"), &[])], vec![decl("d", px(1))]),
            rule(vec![sel(None, None, &["x", "z"])], vec![decl("e", px(1))]),
            rule(vec![sel(Some("main"), None, &[])], vec![decl("f", px(1))]),
        ],
    };
    let m = specified_values(&e, &sheet);
    assert!(m.get(&s("a")).is_some());
    assert!(m.get(&s("b")).is_none());
    assert!(m.get(&s("c")).is_some());
    assert!(m.get(&s("d")).is_none());
    assert!(m.get(&s("e")).is_none());
    assert!(m.get(&s("f")).is_none());
}

#[test]
fn higher_specificity_wins_regardless_of_order() {
    let e = element_data("div", &[("id", "main")]);
    let sheet = Stylesheet {
        rules: vec![
            rule(vec![sel(None, Some("main"), &[])], vec![decl("width", px(10))]),
            rule(vec![sel(Some("div"), None, &[])], vec![decl("width", px(20))]),
        ],
    };
    let m = specified_values(&e, &sheet);
    assert_eq!(px_of(&m.get(&s("width"))), Some(10));
}

#[test]
fn equal_specificity_later_rule_wins() {
    let e = element_data("div", &[]);
    let sheet = Stylesheet {
        rules: vec![
            rule(vec![sel(Some("div"), None, &[])], vec![decl("width", px(10)), decl("height", px(5))]),
            rule(vec![sel(Some("div"), None, &[])], vec![decl("width", px(20))]),
        ],
    };
    let m = specified_values(&e, &sheet);
    assert_eq!(px_of(&m.get(&s("width"))), Some(20));
    assert_eq!(px_of(&m.get(&s("height"))), Some(5));
}

#[test]
fn later_declaration_in_one_rule_wins() {
    let e = element_data("p", &[]);
    let sheet = Stylesheet {
        rules: vec![rule(vec![sel(Some("p"), None, &[])], vec![decl("width", px(1)), decl("width", px(2))])],
    };
    let m = specified_values(&e, &sheet);
    assert_eq!(px_of(&m.get(&s("width"))), Some(2));
    assert_eq!(m.entries.len(), 1);
}

#[test]
fn rule_uses_first_matching_selector() {
    let e = element_data("div", &[("id", "main")]);
    let sheet = Stylesheet {
        rules: vec![
            rule(vec![sel(Some("div"), None, &[]), sel(None, Some("main"), &[])], vec![decl("width", px(1))]),
            rule(vec![sel(Some("div"), None, &[])], vec![decl("width", px(2))]),
        ],
    };
    let m = specified_values(&e, &sheet);
    assert_eq!(px_of(&m.get(&s("width"))), Some(2));
}

#[test]
fn style_tree_mirrors_document() {
    let doc = element("div", &[], vec![text(s("hi")), element("p", &[], vec![])]);
    let sheet = Stylesheet {
        rules: vec![rule(vec![sel(Some("p"), None, &[])], vec![decl("display", kw("block"))])],
    };
    let styled = style_tree(&doc, &sheet);
    assert_eq!(styled.children.len(), 2);
    assert_eq!(styled.specified_values.entries.len(), 0);
    assert_eq!(styled.children[0].specified_values.entries.len(), 0);
    assert_eq!(keyword_of(&styled.children[1].value("display")), Some(s("block")));
    assert_eq!(styled.display(), Display::Inline);
    assert_eq!(styled.children[1].display(), Display::Block);
}

#[test]
fn lookup_falls_back_to_shorthand_then_default() {
    let doc = element("div", &[], vec![]);
    let sheet = Stylesheet {
        rules: vec![rule(vec![sel(Some("div"), None, &[])], vec![decl("margin", px(7)), decl("margin-top", px(3))])],
    };
    let styled = style_tree(&doc, &sheet);
    let zero = px(0);
    assert_eq!(styled.lookup("margin-top", "margin", &zero).to_px(), 3);
    assert_eq!(styled.lookup("margin-left", "margin", &zero).to_px(), 7);
    assert_eq!(styled.lookup("padding-left", "padding", &zero).to_px(), 0);
}

#[test]
fn display_keywords() {
    let doc = element("div", &[], vec![element("a", &[], vec![]), element("b", &[], vec![]), element("c", &[], vec![])]);
    let sheet = Stylesheet {
        rules: vec![
            rule(vec![sel(Some("a"), None, &[])], vec![decl("display", kw("none"))]),
            rule(vec![sel(Some("b"), None, &[])], vec![decl("display", kw("flex"))]),
            rule(vec![sel(Some("c"), None, &[])], vec![decl("display", px(3))]),
        ],
    };
    let styled = style_tree(&doc, &sheet);
    assert_eq!(styled.children[0].display(), Display::DisplayNone);
    assert_eq!(styled.children[1].display(), Display::Inline);
    assert_eq!(styled.children[2].display(), Display::Inline);
}

fn kind(b: &LayoutBox) -> &'static str {
    match b.box_type {
        BoxType::BlockNode(_) => "block",
        BoxType::InlineNode(_) => "inline",
        BoxType::AnonymousBlock => "anonymous",
    }
}

fn block_inline_sheet() -> Stylesheet {
    Stylesheet {
        rules: vec![
            rule(vec![sel(Some("div"), None, &[])], vec![decl("display", kw("block"))]),
            rule(vec![sel(Some("none"), None, &[])], vec![decl("display", kw("none"))]),
        ],
    }
}

#[test]
fn root_with_display_none_is_an_error() {
    let doc = element("none", &[], vec![]);
    let sheet = block_inline_sheet();
    let styled = style_tree(&doc, &sheet);
    assert!(matches!(build_layout_tree(&styled), Err(LayoutError::RootDisplayNone)));
}

#[test]
fn inline_runs_are_grouped_in_anonymous_boxes() {
    let doc = element(
        "div",
        &[],
        vec![
            element("span", &[], vec![]),
            element("none", &[], vec![element("div", &[], vec![])]),
            element("span", &[], vec![]),
            element("div", &[], vec![]),
            element("span", &[], vec![]),
        ],
    );
    let sheet = block_inline_sheet();
    let styled = style_tree(&doc, &sheet);
    let root = build_layout_tree(&styled).ok().unwrap();
    let kinds: Vec<&str> = root.children.iter().map(kind).collect();
    assert_eq!(kinds, vec!["anonymous", "block", "anonymous"]);
    assert_eq!(root.children[0].children.len(), 2);
    assert_eq!(kind(&root.children[0].children[0]), "inline");
    assert_eq!(root.children[2].children.len(), 1);
}

#[test]
fn inline_parent_takes_inline_children_directly() {
    let doc = element("span", &[], vec![element("em", &[], vec![]), element("div", &[], vec![])]);
    let sheet = block_inline_sheet();
    let styled = style_tree(&doc, &sheet);
    let root = build_layout_tree(&styled).ok().unwrap();
    assert_eq!(kind(&root), "inline");
    let kinds: Vec<&str> = root.children.iter().map(kind).collect();
    assert_eq!(kinds, vec!["inline", "block"]);
}

fn laid_out_block(decls: Vec<Declaration>, cb_width: i64) -> Dimensions {
    let doc = element("div", &[], vec![]);
    let mut all = vec![decl("display", kw("block"))];
    all.extend(decls);
    let sheet = Stylesheet { rules: vec![rule(vec![sel(Some("div"), None, &[])], all)] };
    let styled = style_tree(&doc, &sheet);
    let mut root = build_layout_tree(&styled).ok().unwrap();
    root.layout(block_dims(cb_width));
    root.dimensions
}

#[test]
fn auto_width_fills_containing_block() {
    let d = laid_out_block(vec![], 200);
    assert_eq!(d.content.width, 200);
    assert_eq!(d.margin.left, 0);
    assert_eq!(d.margin.right, 0);
}

#[test]
fn over_wide_block_overflows_into_right_margin() {
    let d = laid_out_block(vec![decl("width", px(300))], 200);
    assert_eq!(d.content.width, 300);
    assert_eq!(d.margin.left, 0);
    assert_eq!(d.margin.right, -100);
}

#[test]
fn auto_margin_right_takes_underflow() {
    let d = laid_out_block(vec![decl("width", px(50)), decl("margin-left", px(10)), decl("margin-right", kw("auto"))], 200);
    assert_eq!((d.margin.left, d.content.width, d.margin.right), (10, 50, 140));
}

#[test]
fn auto_margin_left_takes_underflow() {
    let d = laid_out_block(vec![decl("width", px(50)), decl("margin-left", kw("auto")), decl("padding", px(5))], 200);
    assert_eq!((d.margin.left, d.padding.left, d.content.width, d.padding.right, d.margin.right), (140, 5, 50, 5, 0));
}

#[test]
fn both_auto_margins_center_the_block() {
    let d = laid_out_block(vec![decl("width", px(51)), decl("margin", kw("auto"))], 200);
    assert_eq!((d.margin.left, d.content.width, d.margin.right), (74, 51, 75));
}

#[test]
fn over_wide_block_drops_auto_margins() {
    let d = laid_out_block(vec![decl("width", px(250)), decl("margin", kw("auto"))], 200);
    assert_eq!((d.margin.left, d.content.width, d.margin.right), (0, 250, -50));
}

#[test]
fn auto_width_with_wide_edges_overflows_right_margin() {
    let d = laid_out_block(vec![decl("border-width", px(60)), decl("padding-left", px(100))], 200);
    assert_eq!(d.content.width, 0);
    assert_eq!(d.border.left, 60);
    assert_eq!(d.border.right, 60);
    assert_eq!(d.margin.right, -20);
}

#[test]
fn position_uses_top_and_left_edges() {
    let d = laid_out_block(
        vec![decl("margin", px(3)), decl("border-width", px(2)), decl("padding", px(1)), decl("margin-top", px(10))],
        200,
    );
    assert_eq!(d.content.x, 3 + 2 + 1);
    assert_eq!(d.content.y, 10 + 2 + 1);
    assert_eq!(d.content.width, 200 - 12);
    assert_eq!(d.margin.bottom, 3);
}

#[test]
fn explicit_height_overrides_content_height() {
    let d = laid_out_block(vec![decl("height", px(42))], 200);
    assert_eq!(d.content.height, 42);
}

#[test]
fn children_stack_vertically() {
    let doc = element(
        "div",
        &[],
        vec![element("div", &[("id", "a")], vec![]), element("div", &[("id", "b")], vec![]), element("div", &[("id", "c")], vec![])],
    );
    let sheet = Stylesheet {
        rules: vec![
            rule(vec![sel(Some("div"), None, &[])], vec![decl("display", kw("block"))]),
            rule(vec![sel(None, Some("a"), &[])], vec![decl("height", px(10))]),
            rule(vec![sel(None, Some("b"), &[])], vec![decl("height", px(20))]),
            rule(vec![sel(None, Some("c"), &[])], vec![decl("height", px(30))]),
        ],
    };
    let styled = style_tree(&doc, &sheet);
    let mut root = build_layout_tree(&styled).ok().unwrap();
    root.layout(block_dims(100));
    assert_eq!(root.dimensions.content.height, 60);
    let ys: Vec<i64> = root.children.iter().map(|c| c.dimensions.content.y).collect();
    assert_eq!(ys, vec![0, 10, 30]);
    let hs: Vec<i64> = root.children.iter().map(|c| c.dimensions.margin_box().height).collect();
    assert_eq!(hs, vec![10, 20, 30]);
}

#[test]
fn box_rectangles_grow_by_edges() {
    let d = Dimensions {
        content: Rect { x: 10, y: 10, width: 20, height: 5 },
        padding: EdgeSizes { left: 1, right: 2, top: 3, bottom: 4 },
        border: EdgeSizes { left: 1, right: 1, top: 1, bottom: 1 },
        margin: EdgeSizes { left: 5, right: 5, top: 0, bottom: 0 },
    };
    assert_eq!(d.padding_box(), Rect { x: 9, y: 7, width: 23, height: 12 });
    assert_eq!(d.border_box(), Rect { x: 8, y: 6, width: 25, height: 14 });
    assert_eq!(d.margin_box(), Rect { x: 3, y: 6, width: 35, height: 14 });
}

#[test]
fn saturating_arithmetic_and_halving() {
    assert_eq!(sat_add(i64::MAX, 1), i64::MAX);
    assert_eq!(sat_sub(i64::MIN, 1), i64::MIN);
    assert_eq!(sat_add(2, 3), 5);
    assert_eq!(half_down(7), 3);
    assert_eq!(half_down(-7), -4);
    assert_eq!(half_down(-8), -4);
}

fn two_box_doc() -> Node {
    element("div", &[("id", "parent")], vec![element("div", &[("id", "child")], vec![])])
}

fn two_box_sheet() -> Stylesheet {
    Stylesheet {
        rules: vec![
            rule(vec![sel(Some("div"), None, &[])], vec![decl("display", kw("block"))]),
            rule(vec![sel(None, Some("parent"), &[])], vec![decl("background", color(255, 0, 0)), decl("height", px(10))]),
            rule(vec![sel(None, Some("child"), &[])], vec![decl("background", color(0, 0, 255)), decl("height", px(4))]),
        ],
    }
}

fn render(doc: &Node, sheet: &Stylesheet, w: i64, h: i64) -> Canvas {
    let styled = style_tree(doc, sheet);
    let mut root = build_layout_tree(&styled).ok().unwrap();
    root.layout(block_dims(w));
    paint(&root, Rect { x: 0, y: 0, width: w, height: h })
}

#[test]
fn descendant_background_is_painted_last() {
    let canvas = render(&two_box_doc(), &two_box_sheet(), 8, 12);
    assert_eq!(pixel(&canvas, 3, 2), BLUE);
    assert_eq!(pixel(&canvas, 3, 7), RED);
    assert_eq!(pixel(&canvas, 3, 11), WHITE);
}

#[test]
fn rendering_twice_gives_identical_canvases() {
    let doc = two_box_doc();
    let sheet = two_box_sheet();
    let a = render(&doc, &sheet, 8, 12);
    let b = render(&doc, &sheet, 8, 12);
    assert_eq!(a.width, b.width);
    assert_eq!(a.height, b.height);
    assert_eq!(a.pixels, b.pixels);
}

#[test]
fn display_list_has_backgrounds_then_borders_in_preorder() {
    let doc = two_box_doc();
    let mut sheet = two_box_sheet();
    sheet.rules.push(rule(
        vec![sel(None, Some("parent"), &[])],
        vec![decl("border-color", color(0, 255, 0)), decl("border-width", px(1))],
    ));
    let styled = style_tree(&doc, &sheet);
    let mut root = build_layout_tree(&styled).ok().unwrap();
    root.layout(block_dims(10));
    let list = build_display_list(&root);
    assert_eq!(list.len(), 6);
    let green = Color { r: 0, g: 255, b: 0, a: 255 };
    assert_eq!(list[0], DisplayCommand::SolidColor(RED, Rect { x: 0, y: 0, width: 10, height: 12 }));
    assert_eq!(list[1], DisplayCommand::SolidColor(green, Rect { x: 0, y: 0, width: 1, height: 12 }));
    assert_eq!(list[2], DisplayCommand::SolidColor(green, Rect { x: 9, y: 0, width: 1, height: 12 }));
    assert_eq!(list[3], DisplayCommand::SolidColor(green, Rect { x: 0, y: 0, width: 10, height: 1 }));
    assert_eq!(list[4], DisplayCommand::SolidColor(green, Rect { x: 0, y: 11, width: 10, height: 1 }));
    assert_eq!(list[5], DisplayCommand::SolidColor(BLUE, Rect { x: 1, y: 1, width: 8, height: 4 }));
}

#[test]
fn new_canvas_is_white() {
    let c = Canvas::new(3, 2);
    assert_eq!(c.pixels.len(), 6);
    assert!(c.pixels.iter().all(|p| *p == WHITE));
}

#[test]
fn partly_outside_rect_paints_only_in_bounds_pixels() {
    let mut c = Canvas::new(4, 4);
    c.paint_item(&DisplayCommand::SolidColor(RED, Rect { x: -2, y: 2, width: 4, height: 10 }));
    for y in 0..4 {
        for x in 0..4 {
            let expected = if x < 2 && y >= 2 { RED } else { WHITE };
            assert_eq!(pixel(&c, x, y), expected);
        }
    }
}

#[test]
fn rect_outside_canvas_paints_nothing() {
    let mut c = Canvas::new(4, 4);
    c.paint_item(&DisplayCommand::SolidColor(RED, Rect { x: 10, y: 0, width: 5, height: 5 }));
    c.paint_item(&DisplayCommand::SolidColor(RED, Rect { x: -9, y: -9, width: 5, height: 5 }));
    c.paint_item(&DisplayCommand::SolidColor(RED, Rect { x: i64::MAX, y: i64::MAX, width: i64::MAX, height: 1 }));
    assert!(c.pixels.iter().all(|p| *p == WHITE));
}

#[test]
fn paint_with_negative_bounds_gives_empty_canvas() {
    let doc = two_box_doc();
    let sheet = two_box_sheet();
    let styled = style_tree(&doc, &sheet);
    let mut root = build_layout_tree(&styled).ok().unwrap();
    root.layout(block_dims(5));
    let c = paint(&root, Rect { x: 0, y: 0, width: -5, height: 3 });
    assert_eq!((c.width, c.height, c.pixels.len()), (0, 3, 0));
}

#[test]
fn styled_node_keeps_document_reference() {
    let doc = two_box_doc();
    let sheet = two_box_sheet();
    let styled: StyledNode = style_tree(&doc, &sheet);
    assert!(std::ptr::eq(styled.node, &doc));
}
