//! The block layout engine: building the box tree from the styled tree
//! (with anonymous-block insertion) and CSS 2.1 normal-flow block layout —
//! width resolution with auto margins, positioning, child stacking, and
//! height computation. All geometry is in whole pixels.

use vstd::prelude::*;
use crate::css::{to_px_spec, Unit, Value, ValueView};
use crate::style::{
    display_of, lemma_styled_views, lookup_of, styled_view, styled_views, value_of, Display,
    StyledNode, StyledView,
};
use crate::strutil::str_eq;

verus! {

/// A rectangle: position of its top-left corner, width and height.
#[derive(Clone, Copy, PartialEq, Eq, Structural, Debug)]
pub struct Rect {
    pub x: i64,
    pub y: i64,
    pub width: i64,
    pub height: i64,
}

/// Mathematical model of a `Rect`.
pub ghost struct RectV {
    pub x: int,
    pub y: int,
    pub width: int,
    pub height: int,
}

impl View for Rect {
    type V = RectV;

    open spec fn view(&self) -> RectV {
        RectV {
            x: self.x as int,
            y: self.y as int,
            width: self.width as int,
            height: self.height as int,
        }
    }
}

/// Sizes of the four edges of a box layer.
#[derive(Clone, Copy, PartialEq, Eq, Structural, Debug)]
pub struct EdgeSizes {
    pub left: i64,
    pub right: i64,
    pub top: i64,
    pub bottom: i64,
}

/// Mathematical model of an `EdgeSizes`.
pub ghost struct EdgeSizesV {
    pub left: int,
    pub right: int,
    pub top: int,
    pub bottom: int,
}

impl View for EdgeSizes {
    type V = EdgeSizesV;

    open spec fn view(&self) -> EdgeSizesV {
        EdgeSizesV {
            left: self.left as int,
            right: self.right as int,
            top: self.top as int,
            bottom: self.bottom as int,
        }
    }
}

/// A box's content rectangle and its padding, border and margin edges.
#[derive(Clone, Copy, PartialEq, Eq, Structural, Debug)]
pub struct Dimensions {
    pub content: Rect,
    pub padding: EdgeSizes,
    pub border: EdgeSizes,
    pub margin: EdgeSizes,
}

/// Mathematical model of a `Dimensions`.
pub ghost struct DimensionsV {
    pub content: RectV,
    pub padding: EdgeSizesV,
    pub border: EdgeSizesV,
    pub margin: EdgeSizesV,
}

impl View for Dimensions {
    type V = DimensionsV;

    open spec fn view(&self) -> DimensionsV {
        DimensionsV {
            content: self.content@,
            padding: self.padding@,
            border: self.border@,
            margin: self.margin@,
        }
    }
}

/// The all-zero edge sizes.
pub open spec fn edges_zero_v() -> EdgeSizesV {
    EdgeSizesV { left: 0, right: 0, top: 0, bottom: 0 }
}

/// The all-zero dimensions.
pub open spec fn dims_zero_v() -> DimensionsV {
    DimensionsV {
        content: RectV { x: 0, y: 0, width: 0, height: 0 },
        padding: edges_zero_v(),
        border: edges_zero_v(),
        margin: edges_zero_v(),
    }
}

impl Rect {
    /// The all-zero rectangle.
    pub fn zero() -> (r: Rect)
        ensures
            r@ == (RectV { x: 0, y: 0, width: 0, height: 0 }),
    {
        Rect { x: 0, y: 0, width: 0, height: 0 }
    }
}

impl EdgeSizes {
    /// All four edges zero.
    pub fn zero() -> (r: EdgeSizes)
        ensures
            r@ == edges_zero_v(),
    {
        EdgeSizes { left: 0, right: 0, top: 0, bottom: 0 }
    }
}

impl Dimensions {
    /// All-zero dimensions.
    pub fn zero() -> (r: Dimensions)
        ensures
            r@ == dims_zero_v(),
    {
        Dimensions {
            content: Rect::zero(),
            padding: EdgeSizes::zero(),
            border: EdgeSizes::zero(),
            margin: EdgeSizes::zero(),
        }
    }
}

/// A rectangle expanded outward on each side by the given edge sizes.
pub open spec fn expanded_by_spec(r: RectV, e: EdgeSizesV) -> RectV {
    RectV {
        x: r.x - e.left,
        y: r.y - e.top,
        width: r.width + e.left + e.right,
        height: r.height + e.top + e.bottom,
    }
}

/// Content plus padding.
pub open spec fn padding_box_spec(d: DimensionsV) -> RectV {
    expanded_by_spec(d.content, d.padding)
}

/// Content plus padding and border.
pub open spec fn border_box_spec(d: DimensionsV) -> RectV {
    expanded_by_spec(padding_box_spec(d), d.border)
}

/// Content plus padding, border and margin.
pub open spec fn margin_box_spec(d: DimensionsV) -> RectV {
    expanded_by_spec(border_box_spec(d), d.margin)
}

/// Whether a quantity is representable in pixels (as an `i64`).
pub open spec fn in_i64(x: int) -> bool {
    i64::MIN <= x <= i64::MAX
}

/// All four fields of a rectangle are representable.
pub open spec fn rect_fits(r: RectV) -> bool {
    in_i64(r.x) && in_i64(r.y) && in_i64(r.width) && in_i64(r.height)
}

/// The three derived boxes of `d` are representable.
pub open spec fn boxes_fit(d: DimensionsV) -> bool {
    rect_fits(padding_box_spec(d)) && rect_fits(border_box_spec(d)) && rect_fits(
        margin_box_spec(d),
    )
}

impl Rect {
    /// This rectangle expanded outward by `edge`.
    pub fn expanded_by(self, edge: EdgeSizes) -> (r: Rect)
        requires
            rect_fits(expanded_by_spec(self@, edge@)),
        ensures
            r@ == expanded_by_spec(self@, edge@),
    {
        Rect {
            x: (self.x as i128 - edge.left as i128) as i64,
            y: (self.y as i128 - edge.top as i128) as i64,
            width: (self.width as i128 + edge.left as i128 + edge.right as i128) as i64,
            height: (self.height as i128 + edge.top as i128 + edge.bottom as i128) as i64,
        }
    }
}

impl Dimensions {
    /// The area covered by the content area plus its padding.
    pub fn padding_box(self) -> (r: Rect)
        requires
            rect_fits(padding_box_spec(self@)),
        ensures
            r@ == padding_box_spec(self@),
    {
        self.content.expanded_by(self.padding)
    }

    /// The area covered by the content area plus padding and borders.
    pub fn border_box(self) -> (r: Rect)
        requires
            rect_fits(padding_box_spec(self@)),
            rect_fits(border_box_spec(self@)),
        ensures
            r@ == border_box_spec(self@),
    {
        self.padding_box().expanded_by(self.border)
    }

    /// The area covered by the content area plus padding, borders and margin.
    pub fn margin_box(self) -> (r: Rect)
        requires
            boxes_fit(self@),
        ensures
            r@ == margin_box_spec(self@),
    {
        self.border_box().expanded_by(self.margin)
    }
}

/// How a layout box relates to the styled tree: generated by a block-level
/// node, by an inline-level node, or inserted as an anonymous block.
#[derive(Clone, Copy)]
pub enum BoxType<'a> {
    BlockNode(&'a StyledNode<'a>),
    InlineNode(&'a StyledNode<'a>),
    AnonymousBlock,
}

/// Mathematical model of a `BoxType`.
pub ghost enum BoxTypeView {
    Block(StyledView),
    Inline(StyledView),
    Anonymous,
}

impl<'a> View for BoxType<'a> {
    type V = BoxTypeView;

    open spec fn view(&self) -> BoxTypeView {
        match self {
            BoxType::BlockNode(s) => BoxTypeView::Block(styled_view(**s)),
            BoxType::InlineNode(s) => BoxTypeView::Inline(styled_view(**s)),
            BoxType::AnonymousBlock => BoxTypeView::Anonymous,
        }
    }
}

/// The styled node behind a block or inline box.
pub open spec fn style_of(bt: BoxTypeView) -> StyledView
    recommends
        !(bt is Anonymous),
{
    match bt {
        BoxTypeView::Block(s) => s,
        BoxTypeView::Inline(s) => s,
        BoxTypeView::Anonymous => vstd::pervasive::arbitrary(),
    }
}

/// A node in the layout tree.
pub struct LayoutBox<'a> {
    pub dimensions: Dimensions,
    pub box_type: BoxType<'a>,
    pub children: Vec<LayoutBox<'a>>,
}

/// Mathematical model of a `LayoutBox`.
pub ghost struct LayoutBoxV {
    pub dimensions: DimensionsV,
    pub box_type: BoxTypeView,
    pub children: Seq<LayoutBoxV>,
}

/// The model of a layout box, recursively.
pub open spec fn box_view<'a>(b: LayoutBox<'a>) -> LayoutBoxV
    decreases b,
{
    LayoutBoxV {
        dimensions: b.dimensions@,
        box_type: b.box_type@,
        children: boxes_view(b.children@),
    }
}

/// The models of a sequence of layout boxes, in order.
pub open spec fn boxes_view<'a>(s: Seq<LayoutBox<'a>>) -> Seq<LayoutBoxV>
    decreases s,
{
    if s.len() == 0 {
        Seq::empty()
    } else {
        boxes_view(s.drop_last()).push(box_view(s.last()))
    }
}

/// `boxes_view` maps `box_view` over the sequence.
pub proof fn lemma_boxes_view<'a>(s: Seq<LayoutBox<'a>>)
    ensures
        boxes_view(s).len() == s.len(),
        forall|i: int| 0 <= i < s.len() ==> boxes_view(s)[i] == box_view(s[i]),
    decreases s,
{
    if s.len() > 0 {
        lemma_boxes_view(s.drop_last());
        assert(forall|i: int| 0 <= i < s.len() - 1 ==> s.drop_last()[i] == s[i]);
    }
}

impl<'a> View for LayoutBox<'a> {
    type V = LayoutBoxV;

    open spec fn view(&self) -> LayoutBoxV {
        box_view(*self)
    }
}

// ---------------------------------------------------------------------------
// Building the layout tree from the styled tree.
// ---------------------------------------------------------------------------

/// The box tree a styled node generates: a block or inline box whose
/// children are built by `build_children`. A `display: none` root is not
/// laid out at all; this function treats it as inline and the executable
/// entry point rejects it instead.
pub open spec fn build_box(s: StyledView) -> LayoutBoxV
    decreases s, 1int,
{
    LayoutBoxV {
        dimensions: dims_zero_v(),
        box_type: if display_of(s.specified_values) == Display::Block {
            BoxTypeView::Block(s)
        } else {
            BoxTypeView::Inline(s)
        },
        children: build_children(s.children, display_of(s.specified_values) == Display::Block,
            s.children.len() as int),
    }
}

/// The child boxes generated by the first `n` styled children. A block
/// child's box is appended directly; an inline child's box goes into the
/// trailing anonymous block when the parent is a block (starting one when
/// needed), and directly into the parent otherwise; a `display: none`
/// child generates nothing.
pub open spec fn build_children(cs: Seq<StyledView>, parent_is_block: bool, n: int) -> Seq<
    LayoutBoxV,
>
    decreases cs, n when 0 <= n <= cs.len()
{
    if n <= 0 {
        Seq::empty()
    } else {
        let acc = build_children(cs, parent_is_block, n - 1);
        let c = cs[n - 1];
        match display_of(c.specified_values) {
            Display::DisplayNone => acc,
            Display::Block => acc.push(build_box(c)),
            Display::Inline => if parent_is_block {
                if acc.len() > 0 && acc.last().box_type is Anonymous {
                    acc.update(
                        acc.len() - 1,
                        LayoutBoxV {
                            dimensions: acc.last().dimensions,
                            box_type: acc.last().box_type,
                            children: acc.last().children.push(build_box(c)),
                        },
                    )
                } else {
                    acc.push(
                        LayoutBoxV {
                            dimensions: dims_zero_v(),
                            box_type: BoxTypeView::Anonymous,
                            children: seq![build_box(c)],
                        },
                    )
                }
            } else {
                acc.push(build_box(c))
            },
        }
    }
}

// ---------------------------------------------------------------------------
// Block layout, phase 1: width.
// ---------------------------------------------------------------------------

/// The `auto` keyword.
pub open spec fn auto_v() -> ValueView {
    ValueView::Keyword("auto"@)
}

/// The zero length.
pub open spec fn zero_len_v() -> ValueView {
    ValueView::Length(0)
}

/// The used horizontal values of a block box.
pub ghost struct WidthCalc {
    pub width: int,
    pub margin_left: int,
    pub margin_right: int,
    pub border_left: int,
    pub border_right: int,
    pub padding_left: int,
    pub padding_right: int,
}

/// CSS 2.1 block width resolution against a containing block of width
/// `cbw`. `width` defaults to `auto`; margins, borders and paddings default
/// to zero through their shorthands. If the box is overconstrained the
/// right margin absorbs the slack; a single `auto` margin takes all of it;
/// two `auto` margins split it; an `auto` width takes the (non-negative)
/// slack itself, pushing any shortfall into the right margin.
pub open spec fn compute_width_spec(m: Map<Seq<char>, ValueView>, cbw: int) -> WidthCalc {
    let width0 = match value_of(m, "width"@) {
        Option::Some(v) => v,
        Option::None => auto_v(),
    };
    let ml0 = lookup_of(m, "margin-left"@, "margin"@, zero_len_v());
    let mr0 = lookup_of(m, "margin-right"@, "margin"@, zero_len_v());
    let bl = to_px_spec(lookup_of(m, "border-left-width"@, "border-width"@, zero_len_v()));
    let br = to_px_spec(lookup_of(m, "border-right-width"@, "border-width"@, zero_len_v()));
    let pl = to_px_spec(lookup_of(m, "padding-left"@, "padding"@, zero_len_v()));
    let pr = to_px_spec(lookup_of(m, "padding-right"@, "padding"@, zero_len_v()));
    let total = to_px_spec(ml0) + to_px_spec(mr0) + bl + br + pl + pr + to_px_spec(width0);
    let squeeze = width0 != auto_v() && total > cbw;
    let ml1 = if squeeze && ml0 == auto_v() {
        zero_len_v()
    } else {
        ml0
    };
    let mr1 = if squeeze && mr0 == auto_v() {
        zero_len_v()
    } else {
        mr0
    };
    let underflow = cbw - total;
    let w_auto = width0 == auto_v();
    let ml_auto = ml1 == auto_v();
    let mr_auto = mr1 == auto_v();
    if !w_auto && !ml_auto && !mr_auto {
        WidthCalc {
            width: to_px_spec(width0),
            margin_left: to_px_spec(ml1),
            margin_right: to_px_spec(mr1) + underflow,
            border_left: bl,
            border_right: br,
            padding_left: pl,
            padding_right: pr,
        }
    } else if !w_auto && !ml_auto && mr_auto {
        WidthCalc {
            width: to_px_spec(width0),
            margin_left: to_px_spec(ml1),
            margin_right: underflow,
            border_left: bl,
            border_right: br,
            padding_left: pl,
            padding_right: pr,
        }
    } else if !w_auto && ml_auto && !mr_auto {
        WidthCalc {
            width: to_px_spec(width0),
            margin_left: underflow,
            margin_right: to_px_spec(mr1),
            border_left: bl,
            border_right: br,
            padding_left: pl,
            padding_right: pr,
        }
    } else if !w_auto && ml_auto && mr_auto {
        WidthCalc {
            width: to_px_spec(width0),
            margin_left: underflow / 2,
            margin_right: underflow / 2,
            border_left: bl,
            border_right: br,
            padding_left: pl,
            padding_right: pr,
        }
    } else {
        let ml2 = if ml_auto {
            0
        } else {
            to_px_spec(ml1)
        };
        let mr2 = if mr_auto {
            0
        } else {
            to_px_spec(mr1)
        };
        if underflow >= 0 {
            WidthCalc {
                width: underflow,
                margin_left: ml2,
                margin_right: mr2,
                border_left: bl,
                border_right: br,
                padding_left: pl,
                padding_right: pr,
            }
        } else {
            WidthCalc {
                width: 0,
                margin_left: ml2,
                margin_right: mr2 + underflow,
                border_left: bl,
                border_right: br,
                padding_left: pl,
                padding_right: pr,
            }
        }
    }
}

/// The used horizontal values are representable in pixels.
pub open spec fn width_fits(m: Map<Seq<char>, ValueView>, cbw: int) -> bool {
    let w = compute_width_spec(m, cbw);
    in_i64(w.width) && in_i64(w.margin_left) && in_i64(w.margin_right)
}

/// `d` with the used horizontal values committed.
pub open spec fn apply_width_v(d: DimensionsV, w: WidthCalc) -> DimensionsV {
    DimensionsV {
        content: RectV {
            x: d.content.x,
            y: d.content.y,
            width: w.width,
            height: d.content.height,
        },
        padding: EdgeSizesV {
            left: w.padding_left,
            right: w.padding_right,
            top: d.padding.top,
            bottom: d.padding.bottom,
        },
        border: EdgeSizesV {
            left: w.border_left,
            right: w.border_right,
            top: d.border.top,
            bottom: d.border.bottom,
        },
        margin: EdgeSizesV {
            left: w.margin_left,
            right: w.margin_right,
            top: d.margin.top,
            bottom: d.margin.bottom,
        },
    }
}

// ---------------------------------------------------------------------------
// Block layout, phase 2: position.
// ---------------------------------------------------------------------------

/// The used vertical edges and the position of a block box.
pub ghost struct PosCalc {
    pub margin_top: int,
    pub margin_bottom: int,
    pub border_top: int,
    pub border_bottom: int,
    pub padding_top: int,
    pub padding_bottom: int,
    pub x: int,
    pub y: int,
}

/// Vertical edges from the style (margins, borders, paddings default to
/// zero through their shorthands), and the content position: just inside
/// the containing block's content origin, offset by this box's own left and
/// top edges, and below all earlier siblings (the containing block's
/// current content height).
pub open spec fn compute_position_spec(
    m: Map<Seq<char>, ValueView>,
    cb: DimensionsV,
    d: DimensionsV,
) -> PosCalc {
    let mt = to_px_spec(lookup_of(m, "margin-top"@, "margin"@, zero_len_v()));
    let mb = to_px_spec(lookup_of(m, "margin-bottom"@, "margin"@, zero_len_v()));
    let bt = to_px_spec(lookup_of(m, "border-top-width"@, "border-width"@, zero_len_v()));
    let bb = to_px_spec(lookup_of(m, "border-bottom-width"@, "border-width"@, zero_len_v()));
    let pt = to_px_spec(lookup_of(m, "padding-top"@, "padding"@, zero_len_v()));
    let pb = to_px_spec(lookup_of(m, "padding-bottom"@, "padding"@, zero_len_v()));
    PosCalc {
        margin_top: mt,
        margin_bottom: mb,
        border_top: bt,
        border_bottom: bb,
        padding_top: pt,
        padding_bottom: pb,
        x: cb.content.x + d.margin.left + d.border.left + d.padding.left,
        y: cb.content.height + cb.content.y + mt + bt + pt,
    }
}

/// The computed position is representable in pixels.
pub open spec fn position_fits(
    m: Map<Seq<char>, ValueView>,
    cb: DimensionsV,
    d: DimensionsV,
) -> bool {
    let p = compute_position_spec(m, cb, d);
    in_i64(p.x) && in_i64(p.y)
}

/// `d` with the used vertical edges and the position committed.
pub open spec fn apply_position_v(d: DimensionsV, p: PosCalc) -> DimensionsV {
    DimensionsV {
        content: RectV { x: p.x, y: p.y, width: d.content.width, height: d.content.height },
        padding: EdgeSizesV {
            left: d.padding.left,
            right: d.padding.right,
            top: p.padding_top,
            bottom: p.padding_bottom,
        },
        border: EdgeSizesV {
            left: d.border.left,
            right: d.border.right,
            top: p.border_top,
            bottom: p.border_bottom,
        },
        margin: EdgeSizesV {
            left: d.margin.left,
            right: d.margin.right,
            top: p.margin_top,
            bottom: p.margin_bottom,
        },
    }
}

// ---------------------------------------------------------------------------
// Block layout, phases 3 and 4: children and height.
// ---------------------------------------------------------------------------

/// `d` with its content height replaced.
pub open spec fn set_height_v(d: DimensionsV, h: int) -> DimensionsV {
    DimensionsV {
        content: RectV { x: d.content.x, y: d.content.y, width: d.content.width, height: h },
        padding: d.padding,
        border: d.border,
        margin: d.margin,
    }
}

/// Lay out the first `n` children against base dimensions `d`, stacking
/// them vertically: each child sees `d` with the content height the earlier
/// children accumulated, and adds its own margin-box height to it. Yields
/// the laid-out children and the accumulated content height.
pub open spec fn layout_children_spec(cs: Seq<LayoutBoxV>, d: DimensionsV, n: int) -> (
    Seq<LayoutBoxV>,
    int,
)
    decreases cs, n when 0 <= n <= cs.len()
{
    if n <= 0 {
        (Seq::empty(), d.content.height)
    } else {
        let (done, h) = layout_children_spec(cs, d, n - 1);
        let laid = layout_box_spec(cs[n - 1], set_height_v(d, h));
        (done.push(laid), h + margin_box_spec(laid.dimensions).height)
    }
}

/// Lay out a box against its containing block. Only block boxes are laid
/// out; inline boxes and anonymous blocks are left untouched. A block box
/// resolves its width, positions itself, lays out its children (stacking
/// them and accumulating their margin-box heights into its content height),
/// and finally lets an explicit `height` length override that accumulation.
pub open spec fn layout_box_spec(b: LayoutBoxV, cb: DimensionsV) -> LayoutBoxV
    decreases b, 0int,
{
    match b.box_type {
        BoxTypeView::Block(s) => {
            let m = s.specified_values;
            let w = compute_width_spec(m, cb.content.width);
            let d1 = apply_width_v(b.dimensions, w);
            let p = compute_position_spec(m, cb, d1);
            let d2 = apply_position_v(d1, p);
            let (laid, h) = layout_children_spec(b.children, d2, b.children.len() as int);
            let hfin = match value_of(m, "height"@) {
                Option::Some(ValueView::Length(hh)) => hh,
                _ => h,
            };
            LayoutBoxV {
                dimensions: set_height_v(d2, hfin),
                box_type: b.box_type,
                children: laid,
            }
        },
        _ => b,
    }
}

/// Every pixel quantity the layout of `b` against `cb` computes is
/// representable in an `i64`: the machine-forced precondition of the
/// executable layout.
pub open spec fn layout_fits(b: LayoutBoxV, cb: DimensionsV) -> bool
    decreases b, 0int,
{
    match b.box_type {
        BoxTypeView::Block(s) => {
            let m = s.specified_values;
            let w = compute_width_spec(m, cb.content.width);
            let d1 = apply_width_v(b.dimensions, w);
            let p = compute_position_spec(m, cb, d1);
            let d2 = apply_position_v(d1, p);
            width_fits(m, cb.content.width) && position_fits(m, cb, d1) && children_fit(
                b.children,
                d2,
                b.children.len() as int,
            )
        },
        _ => true,
    }
}

/// The layout of the first `n` children of a block against base dimensions
/// `d` stays representable: each child's own layout fits, its margin box
/// fits, and the accumulated content height fits.
pub open spec fn children_fit(cs: Seq<LayoutBoxV>, d: DimensionsV, n: int) -> bool
    decreases cs, n when 0 <= n <= cs.len()
{
    if n <= 0 {
        true
    } else {
        let (done, h) = layout_children_spec(cs, d, n - 1);
        let laid = layout_box_spec(cs[n - 1], set_height_v(d, h));
        children_fit(cs, d, n - 1) && layout_fits(cs[n - 1], set_height_v(d, h)) && boxes_fit(
            laid.dimensions,
        ) && in_i64(h + margin_box_spec(laid.dimensions).height)
    }
}

proof fn lemma_children_fit_mono(cs: Seq<LayoutBoxV>, d: DimensionsV, m: int, n: int)
    requires
        0 <= m <= n <= cs.len(),
        children_fit(cs, d, n),
    ensures
        children_fit(cs, d, m),
    decreases n,
{
    if m < n {
        lemma_children_fit_mono(cs, d, m, n - 1);
    }
}

// ---------------------------------------------------------------------------
// The executable layout engine.
// ---------------------------------------------------------------------------

/// Whether a value is the keyword `auto`.
fn is_auto(v: &Value) -> (r: bool)
    ensures
        r == (v@ == auto_v()),
{
    match v {
        Value::Keyword(s) => str_eq(s.as_str(), "auto"),
        _ => false,
    }
}

/// The floor of `u / 2`.
fn div2_floor(u: i128) -> (r: i128)
    requires
        -0x10000000000000000000 <= u <= 0x10000000000000000000,
    ensures
        r as int == (u as int) / 2,
{
    if u >= 0 {
        ((u as u128) / 2) as i128
    } else {
        let a = (-u) as u128;
        let q = ((a + 1) / 2) as i128;
        -q
    }
}

impl<'a> LayoutBox<'a> {
    /// A box of the given type with zero dimensions and no children.
    pub fn new(box_type: BoxType<'a>) -> (r: LayoutBox<'a>)
        ensures
            r@ == (LayoutBoxV {
                dimensions: dims_zero_v(),
                box_type: box_type@,
                children: Seq::empty(),
            }),
    {
        LayoutBox { box_type, dimensions: Dimensions::zero(), children: Vec::new() }
    }

    /// Whether this is an anonymous block.
    pub fn is_anonymous(&self) -> (r: bool)
        ensures
            r == (self@.box_type is Anonymous),
    {
        match self.box_type {
            BoxType::AnonymousBlock => true,
            _ => false,
        }
    }

    /// The styled node this box was generated from. Asking an anonymous
    /// block is a programmer error, which the precondition excludes.
    pub fn get_style_node(&self) -> (r: &'a StyledNode<'a>)
        requires
            !(self@.box_type is Anonymous),
        ensures
            styled_view(*r) == style_of(self@.box_type),
    {
        match self.box_type {
            BoxType::BlockNode(node) => node,
            BoxType::InlineNode(node) => node,
            BoxType::AnonymousBlock => vstd::pervasive::unreached(),
        }
    }

    /// Lay this box and its descendants out against `containing_block`.
    pub fn layout(&mut self, containing_block: Dimensions)
        requires
            layout_fits(old(self)@, containing_block@),
        ensures
            final(self)@ == layout_box_spec(old(self)@, containing_block@),
    {
        let mut tmp = LayoutBox::new(BoxType::AnonymousBlock);
        core::mem::swap(self, &mut tmp);
        let mut done = layout_box(tmp, containing_block);
        core::mem::swap(self, &mut done);
    }

    /// Phase 1: resolve the used width and horizontal edges.
    #[verifier::rlimit(80)]
    fn calculate_block_width(&mut self, containing_block: Dimensions)
        requires
            old(self)@.box_type is Block,
            width_fits(
                style_of(old(self)@.box_type).specified_values,
                containing_block@.content.width,
            ),
        ensures
            final(self).box_type == old(self).box_type,
            final(self).children == old(self).children,
            final(self).dimensions@ == apply_width_v(
                old(self)@.dimensions,
                compute_width_spec(
                    style_of(old(self)@.box_type).specified_values,
                    containing_block@.content.width,
                ),
            ),
    {
        let style = self.get_style_node();
        let ghost m = style_of(self@.box_type).specified_values;
        let ghost w = compute_width_spec(m, containing_block@.content.width);

        // `width` has initial value `auto`.
        let width = match style.value("width") {
            Option::Some(v) => v,
            Option::None => Value::Keyword("auto".to_owned()),
        };

        // margin, border, and padding have initial value 0.
        let zero = Value::Length(0, Unit::Px);

        let mut margin_left = style.lookup("margin-left", "margin", &zero);
        let mut margin_right = style.lookup("margin-right", "margin", &zero);

        let border_left = style.lookup("border-left-width", "border-width", &zero);
        let border_right = style.lookup("border-right-width", "border-width", &zero);

        let padding_left = style.lookup("padding-left", "padding", &zero);
        let padding_right = style.lookup("padding-right", "padding", &zero);

        let total: i128 = margin_left.to_px() as i128 + margin_right.to_px() as i128
            + border_left.to_px() as i128 + border_right.to_px() as i128
            + padding_left.to_px() as i128 + padding_right.to_px() as i128
            + width.to_px() as i128;

        let cbw = containing_block.content.width;
        let w_is_auto = is_auto(&width);

        // If width is not auto and the total is wider than the container,
        // treat auto margins as 0.
        if !w_is_auto && total > cbw as i128 {
            if is_auto(&margin_left) {
                margin_left = Value::Length(0, Unit::Px);
            }
            if is_auto(&margin_right) {
                margin_right = Value::Length(0, Unit::Px);
            }
        }

        let underflow: i128 = cbw as i128 - total;

        let ml_is_auto = is_auto(&margin_left);
        let mr_is_auto = is_auto(&margin_right);

        let used_width: i64;
        let used_ml: i64;
        let used_mr: i64;
        if !w_is_auto && !ml_is_auto && !mr_is_auto {
            // Overconstrained: the right margin absorbs the slack.
            used_width = width.to_px();
            used_ml = margin_left.to_px();
            let mr = margin_right.to_px() as i128 + underflow;
            used_mr = mr as i64;
        } else if !w_is_auto && !ml_is_auto && mr_is_auto {
            used_width = width.to_px();
            used_ml = margin_left.to_px();
            used_mr = underflow as i64;
        } else if !w_is_auto && ml_is_auto && !mr_is_auto {
            used_width = width.to_px();
            used_ml = underflow as i64;
            used_mr = margin_right.to_px();
        } else if !w_is_auto && ml_is_auto && mr_is_auto {
            // Both margins auto: center the box.
            used_width = width.to_px();
            let half = div2_floor(underflow);
            used_ml = half as i64;
            used_mr = half as i64;
        } else {
            // Width auto: any other auto values become 0, and the width
            // takes the (non-negative) slack.
            let ml2: i64 = if ml_is_auto {
                0
            } else {
                margin_left.to_px()
            };
            let mr2: i64 = if mr_is_auto {
                0
            } else {
                margin_right.to_px()
            };
            if underflow >= 0 {
                used_width = underflow as i64;
                used_ml = ml2;
                used_mr = mr2;
            } else {
                // Width can't be negative; adjust the right margin instead.
                used_width = 0;
                used_ml = ml2;
                let mr = mr2 as i128 + underflow;
                used_mr = mr as i64;
            }
        }

        self.dimensions.content.width = used_width;
        self.dimensions.padding.left = padding_left.to_px();
        self.dimensions.padding.right = padding_right.to_px();
        self.dimensions.border.left = border_left.to_px();
        self.dimensions.border.right = border_right.to_px();
        self.dimensions.margin.left = used_ml;
        self.dimensions.margin.right = used_mr;
    }

    /// Phase 2: vertical edges and the content position.
    fn calculate_block_position(&mut self, containing_block: Dimensions)
        requires
            old(self)@.box_type is Block,
            position_fits(
                style_of(old(self)@.box_type).specified_values,
                containing_block@,
                old(self)@.dimensions,
            ),
        ensures
            final(self).box_type == old(self).box_type,
            final(self).children == old(self).children,
            final(self).dimensions@ == apply_position_v(
                old(self)@.dimensions,
                compute_position_spec(
                    style_of(old(self)@.box_type).specified_values,
                    containing_block@,
                    old(self)@.dimensions,
                ),
            ),
    {
        let style = self.get_style_node();
        let zero = Value::Length(0, Unit::Px);

        // If margin-top or margin-bottom is `auto`, the used value is zero.
        self.dimensions.margin.top = style.lookup("margin-top", "margin", &zero).to_px();
        self.dimensions.margin.bottom = style.lookup("margin-bottom", "margin", &zero).to_px();

        self.dimensions.border.top = style.lookup(
            "border-top-width",
            "border-width",
            &zero,
        ).to_px();
        self.dimensions.border.bottom = style.lookup(
            "border-bottom-width",
            "border-width",
            &zero,
        ).to_px();

        self.dimensions.padding.top = style.lookup("padding-top", "padding", &zero).to_px();
        self.dimensions.padding.bottom = style.lookup("padding-bottom", "padding", &zero).to_px();

        let x: i128 = containing_block.content.x as i128 + self.dimensions.margin.left as i128
            + self.dimensions.border.left as i128 + self.dimensions.padding.left as i128;
        self.dimensions.content.x = x as i64;

        // Position the box below all the previous boxes in the container.
        let y: i128 = containing_block.content.height as i128 + containing_block.content.y as i128
            + self.dimensions.margin.top as i128 + self.dimensions.border.top as i128
            + self.dimensions.padding.top as i128;
        self.dimensions.content.y = y as i64;
    }

    /// Phase 4: an explicit `height` length overrides the accumulated one.
    fn calculate_block_height(&mut self)
        requires
            old(self)@.box_type is Block,
        ensures
            final(self).box_type == old(self).box_type,
            final(self).children == old(self).children,
            final(self).dimensions@ == set_height_v(
                old(self)@.dimensions,
                match value_of(style_of(old(self)@.box_type).specified_values, "height"@) {
                    Option::Some(ValueView::Length(hh)) => hh,
                    _ => old(self)@.dimensions.content.height,
                },
            ),
    {
        // If the height is set to an explicit length, use that exact length.
        // Otherwise, keep the value set by the child-stacking phase.
        if let Option::Some(Value::Length(h, _)) = self.get_style_node().value("height") {
            self.dimensions.content.height = h;
        }
    }
}

/// Lay out a box and its descendants against `containing_block`.
pub fn layout_box<'a>(b: LayoutBox<'a>, containing_block: Dimensions) -> (r: LayoutBox<'a>)
    requires
        layout_fits(b@, containing_block@),
    ensures
        r@ == layout_box_spec(b@, containing_block@),
    decreases b, 1int,
{
    match b.box_type {
        BoxType::BlockNode(_) => layout_block(b, containing_block),
        _ => b,
    }
}

/// Lay out a block box: width, position, children, height.
#[verifier::loop_isolation(false)]
fn layout_block<'a>(b: LayoutBox<'a>, containing_block: Dimensions) -> (r: LayoutBox<'a>)
    requires
        b@.box_type is Block,
        layout_fits(b@, containing_block@),
    ensures
        r@ == layout_box_spec(b@, containing_block@),
    decreases b, 0int,
{
    let ghost b0 = b;
    let ghost m = style_of(b@.box_type).specified_values;
    let mut b = b;

    // Child width can depend on parent width, so the width comes before
    // the children are laid out.
    b.calculate_block_width(containing_block);

    // Determine where the box is located within its container.
    b.calculate_block_position(containing_block);

    // Recursively lay out the children, stacking them vertically.
    let ghost d2 = b@.dimensions;
    let ghost cs0 = b0@.children;
    let mut rest: Vec<LayoutBox<'a>> = Vec::new();
    core::mem::swap(&mut b.children, &mut rest);
    let ghost rv0 = rest@;
    proof {
        lemma_boxes_view(rv0);
        assert(rest@ =~= rv0.subrange(0, rv0.len() as int));
    }
    let mut done: Vec<LayoutBox<'a>> = Vec::new();
    let n = rest.len();
    let mut i: usize = 0;
    while i < n
        invariant
            n == rv0.len(),
            cs0 == boxes_view(rv0),
            cs0.len() == n,
            i <= n,
            rest@ == rv0.subrange(i as int, n as int),
            rv0 == b0.children@,
            boxes_view(done@) == layout_children_spec(cs0, d2, i as int).0,
            done@.len() == i,
            b@.dimensions == set_height_v(d2, layout_children_spec(cs0, d2, i as int).1),
            b.box_type == b0.box_type,
            b@.box_type is Block,
            b@.children.len() == 0,
            children_fit(cs0, d2, n as int),
        decreases n - i,
    {
        proof {
            lemma_children_fit_mono(cs0, d2, i as int + 1, n as int);
            lemma_boxes_view(rv0);
            assert(rest@[0] == rv0[i as int]);
            assert(box_view(rest@[0]) == cs0[i as int]);
        }
        let c = rest.remove(0);
        proof {
            assert(rest@ =~= rv0.subrange(i as int + 1, n as int));
            assert(c == b0.children[i as int]);
            assert(decreases_to!(b0.children => b0.children[i as int]));
            assert(decreases_to!(b0 => c));
        }
        let c2 = layout_box(c, b.dimensions);
        let mb = c2.dimensions.margin_box();
        let h: i128 = b.dimensions.content.height as i128 + mb.height as i128;
        b.dimensions.content.height = h as i64;
        proof {
            assert(done@.push(c2).drop_last() =~= done@);
        }
        done.push(c2);
        i = i + 1;
    }
    b.children = done;

    // Parent height can depend on child height, so the height comes after
    // the children are laid out.
    b.calculate_block_height();
    b
}

/// The error of the layout stage.
#[derive(Clone, Copy, PartialEq, Eq, Structural, Debug)]
pub enum LayoutError {
    /// The root styled node has `display: none`: nothing can be laid out.
    InvalidRootDisplay,
}

/// Build the tree of layout boxes for a styled node, without any layout
/// calculations yet.
#[verifier::loop_isolation(false)]
pub fn build_layout_tree<'a>(styled_node: &'a StyledNode<'a>) -> (r: LayoutBox<'a>)
    requires
        display_of(styled_node@.specified_values) != Display::DisplayNone,
    ensures
        r@ == build_box(styled_node@),
    decreases *styled_node,
{
    // Create the root box.
    let mut root = LayoutBox::new(
        match styled_node.display() {
            Display::Block => BoxType::BlockNode(styled_node),
            Display::Inline => BoxType::InlineNode(styled_node),
            Display::DisplayNone => vstd::pervasive::unreached(),
        },
    );
    let ghost parent_is_block = display_of(styled_node@.specified_values) == Display::Block;
    let ghost csv = styled_node@.children;
    proof {
        lemma_styled_views(styled_node.children@);
    }

    // Create the descendant boxes.
    let n = styled_node.children.len();
    let mut i: usize = 0;
    while i < n
        invariant
            n == styled_node.children.len(),
            i <= n,
            csv == styled_views(styled_node.children@),
            csv.len() == n,
            forall|j: int| 0 <= j < n ==> csv[j] == styled_view(styled_node.children@[j]),
            root.box_type@ == (if parent_is_block {
                BoxTypeView::Block(styled_node@)
            } else {
                BoxTypeView::Inline(styled_node@)
            }),
            root.dimensions@ == dims_zero_v(),
            boxes_view(root.children@) == build_children(csv, parent_is_block, i as int),
        decreases n - i,
    {
        let child = &styled_node.children[i];
        proof {
            assert(child@ == csv[i as int]);
        }
        match child.display() {
            Display::Block => {
                let cb = build_layout_tree(child);
                proof {
                    assert(root.children@.push(cb).drop_last() =~= root.children@);
                }
                root.children.push(cb);
                proof {
                    assert(boxes_view(root.children@) == build_children(
                        csv,
                        parent_is_block,
                        i as int + 1,
                    ));
                }
            },
            Display::Inline => {
                let cb = build_layout_tree(child);
                match root.box_type {
                    BoxType::BlockNode(_) => {
                        // If we've just generated an anonymous block box,
                        // keep using it. Otherwise, create a new one.
                        let reuse = if root.children.len() > 0 {
                            proof {
                                lemma_boxes_view(root.children@);
                            }
                            root.children[root.children.len() - 1].is_anonymous()
                        } else {
                            false
                        };
                        if reuse {
                            let ghost rc0 = root.children@;
                            let ghost acc = build_children(csv, parent_is_block, i as int);
                            proof {
                                lemma_boxes_view(rc0);
                                assert(acc.len() > 0);
                                assert(acc.last() == box_view(rc0.last()));
                            }
                            let mut anon = match root.children.pop() {
                                Option::Some(a) => a,
                                Option::None => vstd::pervasive::unreached(),
                            };
                            proof {
                                assert(anon == rc0.last());
                                assert(root.children@ =~= rc0.drop_last());
                                assert(anon.children@.push(cb).drop_last() =~= anon.children@);
                            }
                            anon.children.push(cb);
                            proof {
                                let anon2 = LayoutBoxV {
                                    dimensions: acc.last().dimensions,
                                    box_type: acc.last().box_type,
                                    children: acc.last().children.push(build_box(csv[i as int])),
                                };
                                assert(box_view(anon) == anon2);
                                assert(root.children@.push(anon).drop_last() =~= root.children@);
                                assert(boxes_view(root.children@.push(anon))
                                    == boxes_view(rc0.drop_last()).push(anon2));
                                assert(boxes_view(rc0.drop_last()) == acc.drop_last());
                                assert(acc.drop_last().push(anon2) =~= acc.update(
                                    acc.len() - 1,
                                    anon2,
                                ));
                            }
                            root.children.push(anon);
                            proof {
                                assert(boxes_view(root.children@) == build_children(
                                    csv,
                                    parent_is_block,
                                    i as int + 1,
                                ));
                            }
                        } else {
                            let mut anon = LayoutBox::new(BoxType::AnonymousBlock);
                            proof {
                                assert(anon.children@.push(cb).drop_last() =~= anon.children@);
                            }
                            anon.children.push(cb);
                            proof {
                                assert(root.children@.push(anon).drop_last() =~= root.children@);
                                assert(boxes_view(anon.children@) =~= seq![
                                    build_box(csv[i as int]),
                                ]);
                                assert(box_view(anon) == (LayoutBoxV {
                                    dimensions: dims_zero_v(),
                                    box_type: BoxTypeView::Anonymous,
                                    children: seq![build_box(csv[i as int])],
                                }));
                            }
                            root.children.push(anon);
                            proof {
                                let acc0 = build_children(csv, parent_is_block, i as int);
                                let anon2 = LayoutBoxV {
                                    dimensions: dims_zero_v(),
                                    box_type: BoxTypeView::Anonymous,
                                    children: seq![build_box(csv[i as int])],
                                };
                                assert(!(acc0.len() > 0 && acc0.last().box_type is Anonymous));
                                assert(build_children(csv, parent_is_block, i as int + 1)
                                    == acc0.push(anon2));
                                assert(boxes_view(root.children@) == acc0.push(anon2));
                            }
                        }
                    },
                    _ => {
                        proof {
                            assert(root.children@.push(cb).drop_last() =~= root.children@);
                        }
                        root.children.push(cb);
                        proof {
                            assert(boxes_view(root.children@) == build_children(
                                csv,
                                parent_is_block,
                                i as int + 1,
                            ));
                        }
                    },
                }
            },
            Display::DisplayNone => {
                // Skip nodes with `display: none`.
            },
        }
        i = i + 1;
    }
    root
}

/// Transform a styled tree into a laid-out layout tree against `viewport`,
/// whose content height must be zero (the driver contract). A root with
/// `display: none` cannot be laid out and is rejected.
pub fn layout_tree<'a>(root: &'a StyledNode<'a>, viewport: Dimensions) -> (r: Result<
    LayoutBox<'a>,
    LayoutError,
>)
    requires
        viewport@.content.height == 0,
        display_of(root@.specified_values) != Display::DisplayNone ==> layout_fits(
            build_box(root@),
            viewport@,
        ),
    ensures
        match r {
            Result::Ok(b) => display_of(root@.specified_values) != Display::DisplayNone && b@
                == layout_box_spec(build_box(root@), viewport@),
            Result::Err(e) => display_of(root@.specified_values) == Display::DisplayNone && e
                == LayoutError::InvalidRootDisplay,
        },
{
    match root.display() {
        Display::DisplayNone => Result::Err(LayoutError::InvalidRootDisplay),
        _ => {
            let mut root_box = build_layout_tree(root);
            root_box.layout(viewport);
            Result::Ok(root_box)
        },
    }
}

// ---------------------------------------------------------------------------
// Laws of the layout engine.
// ---------------------------------------------------------------------------

/// Law: the derived boxes expand the content rectangle by exactly the edge
/// sizes. The padding box is the content box widened by the left and right
/// padding (and analogously for its height and origin); the border box
/// widens the padding box by the border, and the margin box widens the
/// border box by the margin.
pub proof fn lemma_box_geometry(d: DimensionsV)
    ensures
        padding_box_spec(d).width == d.content.width + d.padding.left + d.padding.right,
        padding_box_spec(d).height == d.content.height + d.padding.top + d.padding.bottom,
        padding_box_spec(d).x == d.content.x - d.padding.left,
        padding_box_spec(d).y == d.content.y - d.padding.top,
        border_box_spec(d).width == padding_box_spec(d).width + d.border.left + d.border.right,
        border_box_spec(d).height == padding_box_spec(d).height + d.border.top + d.border.bottom,
        margin_box_spec(d).width == border_box_spec(d).width + d.margin.left + d.margin.right,
        margin_box_spec(d).height == border_box_spec(d).height + d.margin.top + d.margin.bottom,
{
}

/// The sum of the margin-box heights of a sequence of boxes.
pub open spec fn margin_heights_sum(cs: Seq<LayoutBoxV>) -> int
    decreases cs,
{
    if cs.len() == 0 {
        0
    } else {
        margin_heights_sum(cs.drop_last()) + margin_box_spec(cs.last().dimensions).height
    }
}

proof fn lemma_children_heights(cs: Seq<LayoutBoxV>, d: DimensionsV, n: int)
    requires
        0 <= n <= cs.len(),
    ensures
        layout_children_spec(cs, d, n).0.len() == n,
        layout_children_spec(cs, d, n).1 == d.content.height + margin_heights_sum(
            layout_children_spec(cs, d, n).0,
        ),
    decreases n,
{
    if n > 0 {
        lemma_children_heights(cs, d, n - 1);
        let (done, h) = layout_children_spec(cs, d, n - 1);
        let laid = layout_box_spec(cs[n - 1], set_height_v(d, h));
        assert(done.push(laid).drop_last() =~= done);
    }
}

/// Every box of the tree obeys the stacking law: a block box whose style
/// has no explicit `height` length has a content height equal to the sum of
/// its children's margin-box heights.
pub open spec fn stacked(b: LayoutBoxV) -> bool
    decreases b,
{
    &&& ((b.box_type is Block && !(value_of(
        style_of(b.box_type).specified_values,
        "height"@,
    ) matches Option::Some(ValueView::Length(_)))) ==> b.dimensions.content.height
        == margin_heights_sum(b.children))
    &&& (forall|i: int| 0 <= i < b.children.len() ==> stacked(#[trigger] b.children[i]))
}

/// Every box of the tree has all-zero dimensions (as the boxes built by
/// `build_layout_tree` do).
pub open spec fn zero_dims_tree(b: LayoutBoxV) -> bool
    decreases b,
{
    &&& b.dimensions == dims_zero_v()
    &&& (forall|i: int| 0 <= i < b.children.len() ==> zero_dims_tree(#[trigger] b.children[i]))
}

proof fn lemma_layout_children_stack(cs: Seq<LayoutBoxV>, d: DimensionsV, n: int)
    requires
        0 <= n <= cs.len(),
        forall|i: int| 0 <= i < cs.len() ==> zero_dims_tree(#[trigger] cs[i]),
    ensures
        forall|i: int|
            0 <= i < n ==> stacked(#[trigger] layout_children_spec(cs, d, n).0[i]),
        layout_children_spec(cs, d, n).0.len() == n,
    decreases cs, n,
{
    if n > 0 {
        lemma_layout_children_stack(cs, d, n - 1);
        let (done, h) = layout_children_spec(cs, d, n - 1);
        let laid = layout_box_spec(cs[n - 1], set_height_v(d, h));
        lemma_layout_stacks(cs[n - 1], set_height_v(d, h));
        assert(forall|i: int| 0 <= i < n - 1 ==> done.push(laid)[i] == done[i]);
    }
}

/// Law: laying out a tree of boxes whose content heights start at zero
/// yields a tree in which every block box without an explicit `height`
/// length has a content height equal to the sum of its children's
/// margin-box heights. (With an explicit `height` the content height is
/// that length instead, however tall the children are.)
pub proof fn lemma_layout_stacks(b: LayoutBoxV, cb: DimensionsV)
    requires
        zero_dims_tree(b),
    ensures
        stacked(layout_box_spec(b, cb)),
    decreases b, 1int,
{
    match b.box_type {
        BoxTypeView::Block(s) => {
            let m = s.specified_values;
            let w = compute_width_spec(m, cb.content.width);
            let d1 = apply_width_v(b.dimensions, w);
            let p = compute_position_spec(m, cb, d1);
            let d2 = apply_position_v(d1, p);
            lemma_children_heights(b.children, d2, b.children.len() as int);
            lemma_layout_children_stack(b.children, d2, b.children.len() as int);
        },
        _ => {
            lemma_zero_dims_stacked(b);
        },
    }
}

proof fn lemma_zero_dims_stacked(b: LayoutBoxV)
    requires
        zero_dims_tree(b),
    ensures
        stacked(b),
    decreases b,
{
    assert forall|i: int|
        0 <= i < b.children.len() implies (#[trigger] b.children[i]).dimensions
        == dims_zero_v() by {
        assert(zero_dims_tree(b.children[i]));
    }
    lemma_margin_heights_zero(b.children);
    assert forall|i: int| 0 <= i < b.children.len() implies stacked(#[trigger] b.children[i]) by {
        lemma_zero_dims_stacked(b.children[i]);
    }
}

/// Law: `build_layout_tree` performs no layout: every box it builds has
/// all-zero dimensions, so the stacking law applies to the built tree.
pub proof fn lemma_build_zero_dims(s: StyledView)
    ensures
        zero_dims_tree(build_box(s)),
    decreases s, 1int,
{
    let pb = display_of(s.specified_values) == Display::Block;
    let n = s.children.len() as int;
    lemma_build_children_zero(s.children, pb, n);
    let b = build_box(s);
    assert forall|i: int| 0 <= i < b.children.len() implies zero_dims_tree(
        #[trigger] b.children[i],
    ) by {
        assert(zero_dims_tree(build_children(s.children, pb, n)[i]));
    }
}

proof fn lemma_build_children_zero(cs: Seq<StyledView>, parent_is_block: bool, n: int)
    requires
        0 <= n <= cs.len(),
    ensures
        forall|i: int|
            0 <= i < build_children(cs, parent_is_block, n).len() ==> zero_dims_tree(
                #[trigger] build_children(cs, parent_is_block, n)[i],
            ),
    decreases cs, n,
{
    if n > 0 {
        lemma_build_children_zero(cs, parent_is_block, n - 1);
        let acc = build_children(cs, parent_is_block, n - 1);
        let r = build_children(cs, parent_is_block, n);
        let c = cs[n - 1];
        match display_of(c.specified_values) {
            Display::DisplayNone => {
            },
            Display::Block => {
                lemma_build_zero_dims(c);
                assert(forall|i: int| 0 <= i < acc.len() ==> acc.push(build_box(c))[i] == acc[i]);
            },
            Display::Inline => {
                lemma_build_zero_dims(c);
                if !parent_is_block {
                    assert(forall|i: int|
                        0 <= i < acc.len() ==> acc.push(build_box(c))[i] == acc[i]);
                } else if acc.len() > 0 && acc.last().box_type is Anonymous {
                    let anon2 = LayoutBoxV {
                        dimensions: acc.last().dimensions,
                        box_type: acc.last().box_type,
                        children: acc.last().children.push(build_box(c)),
                    };
                    assert(zero_dims_tree(acc[acc.len() - 1]));
                    assert(forall|i: int|
                        0 <= i < anon2.children.len() - 1 ==> anon2.children[i]
                            == acc.last().children[i]);
                    assert(zero_dims_tree(anon2));
                    assert(forall|i: int|
                        0 <= i < acc.len() - 1 ==> acc.update(acc.len() - 1, anon2)[i] == acc[i]);
                } else {
                    let anon = LayoutBoxV {
                        dimensions: dims_zero_v(),
                        box_type: BoxTypeView::Anonymous,
                        children: seq![build_box(c)],
                    };
                    assert(zero_dims_tree(anon));
                    assert(forall|i: int| 0 <= i < acc.len() ==> acc.push(anon)[i] == acc[i]);
                    assert(forall|i: int| 0 <= i < acc.len() ==> r[i] == acc[i]);
                }
            },
        }
    }
}

proof fn lemma_margin_heights_zero(cs: Seq<LayoutBoxV>)
    requires
        forall|i: int| 0 <= i < cs.len() ==> (#[trigger] cs[i]).dimensions == dims_zero_v(),
    ensures
        margin_heights_sum(cs) == 0,
    decreases cs,
{
    if cs.len() > 0 {
        lemma_margin_heights_zero(cs.drop_last());
        assert(forall|i: int| 0 <= i < cs.len() - 1 ==> cs.drop_last()[i] == cs[i]);
    }
}

/// Law: the whole pipeline stacks. The tree `build_layout_tree` makes for
/// any styled node starts at zero dimensions, so laying it out gives every
/// block box without an explicit `height` a content height equal to the
/// sum of its children's margin-box heights.
pub proof fn lemma_layout_tree_stacks(s: StyledView, viewport: DimensionsV)
    ensures
        stacked(layout_box_spec(build_box(s), viewport)),
{
    lemma_build_zero_dims(s);
    lemma_layout_stacks(build_box(s), viewport);
}

/// A property map that asks for block display and sets none of the
/// geometry properties: no width, no height, and no margin, border or
/// padding on any side.
pub open spec fn plain_values(m: Map<Seq<char>, ValueView>) -> bool {
    &&& display_of(m) == Display::Block
    &&& !m.contains_key("width"@)
    &&& !m.contains_key("height"@)
    &&& !m.contains_key("margin"@)
    &&& !m.contains_key("margin-left"@)
    &&& !m.contains_key("margin-right"@)
    &&& !m.contains_key("margin-top"@)
    &&& !m.contains_key("margin-bottom"@)
    &&& !m.contains_key("border-width"@)
    &&& !m.contains_key("border-left-width"@)
    &&& !m.contains_key("border-right-width"@)
    &&& !m.contains_key("border-top-width"@)
    &&& !m.contains_key("border-bottom-width"@)
    &&& !m.contains_key("padding"@)
    &&& !m.contains_key("padding-left"@)
    &&& !m.contains_key("padding-right"@)
    &&& !m.contains_key("padding-top"@)
    &&& !m.contains_key("padding-bottom"@)
}

/// Every node of the styled tree is a plain block.
pub open spec fn plain_styled(s: StyledView) -> bool
    decreases s,
{
    &&& plain_values(s.specified_values)
    &&& (forall|i: int| 0 <= i < s.children.len() ==> plain_styled(#[trigger] s.children[i]))
}

/// Every box of the tree has content width `w`, content height zero, and
/// zero padding, border and margin.
pub open spec fn all_plain_boxes(b: LayoutBoxV, w: int) -> bool
    decreases b,
{
    &&& b.dimensions.content.width == w
    &&& b.dimensions.content.height == 0
    &&& b.dimensions.padding == edges_zero_v()
    &&& b.dimensions.border == edges_zero_v()
    &&& b.dimensions.margin == edges_zero_v()
    &&& (forall|i: int|
        0 <= i < b.children.len() ==> all_plain_boxes(#[trigger] b.children[i], w))
}

proof fn lemma_plain_children_build(cs: Seq<StyledView>, n: int)
    requires
        0 <= n <= cs.len(),
        forall|i: int| 0 <= i < cs.len() ==> plain_styled(#[trigger] cs[i]),
    ensures
        build_children(cs, true, n).len() == n,
        forall|i: int|
            0 <= i < n ==> #[trigger] build_children(cs, true, n)[i] == build_box(cs[i]),
    decreases n,
{
    if n > 0 {
        lemma_plain_children_build(cs, n - 1);
        let acc = build_children(cs, true, n - 1);
        assert(plain_styled(cs[n - 1]));
        assert(display_of(cs[n - 1].specified_values) == Display::Block);
        assert(forall|i: int| 0 <= i < n - 1 ==> acc.push(build_box(cs[n - 1]))[i] == acc[i]);
    }
}

proof fn lemma_plain_children_layout(cs: Seq<StyledView>, d: DimensionsV, n: int)
    requires
        0 <= n <= cs.len(),
        forall|i: int| 0 <= i < cs.len() ==> plain_styled(#[trigger] cs[i]),
        d.content.width >= 0,
    ensures
        layout_children_spec(build_children(cs, true, cs.len() as int), d, n).1
            == d.content.height,
        forall|i: int|
            0 <= i < n ==> all_plain_boxes(
                #[trigger] layout_children_spec(
                    build_children(cs, true, cs.len() as int),
                    d,
                    n,
                ).0[i],
                d.content.width,
            ),
    decreases cs, n,
{
    lemma_plain_children_build(cs, cs.len() as int);
    let bcs = build_children(cs, true, cs.len() as int);
    if n > 0 {
        lemma_plain_children_layout(cs, d, n - 1);
        lemma_children_heights(bcs, d, n - 1);
        let (done, h) = layout_children_spec(bcs, d, n - 1);
        let cbn = set_height_v(d, h);
        assert(bcs[n - 1] == build_box(cs[n - 1]));
        assert(plain_styled(cs[n - 1]));
        lemma_plain_box(cs[n - 1], cbn);
        let laid = layout_box_spec(bcs[n - 1], cbn);
        assert(all_plain_boxes(laid, cbn.content.width));
        assert(laid.dimensions.content.height == 0);
        assert(laid.dimensions.padding == edges_zero_v());
        assert(margin_box_spec(laid.dimensions).height == 0);
        assert(layout_children_spec(bcs, d, n).1 == h + margin_box_spec(laid.dimensions).height);
        assert(layout_children_spec(bcs, d, n).0 == done.push(laid));
        assert(forall|i: int| 0 <= i < n - 1 ==> done.push(laid)[i] == done[i]);
    }
}

/// Law: laying out a styled tree in which every node is a plain block —
/// `display: block`, and no width, height, margin, border or padding —
/// against a containing block of non-negative width `w` yields boxes whose
/// content widths all equal `w`, whose content heights are all zero, and
/// whose edges are all zero.
pub proof fn lemma_plain_box(s: StyledView, cb: DimensionsV)
    requires
        plain_styled(s),
        cb.content.width >= 0,
    ensures
        all_plain_boxes(layout_box_spec(build_box(s), cb), cb.content.width),
    decreases s, 1int,
{
    let b = build_box(s);
    let m = s.specified_values;
    assert(b.box_type == BoxTypeView::Block(s));
    let w = compute_width_spec(m, cb.content.width);
    assert(w.width == cb.content.width && w.margin_left == 0 && w.margin_right == 0
        && w.border_left == 0 && w.border_right == 0 && w.padding_left == 0 && w.padding_right
        == 0);
    let d1 = apply_width_v(b.dimensions, w);
    let p = compute_position_spec(m, cb, d1);
    let d2 = apply_position_v(d1, p);
    lemma_plain_children_build(s.children, s.children.len() as int);
    assert(d2.content.width == cb.content.width && d2.content.height == 0);
    assert forall|i: int| 0 <= i < s.children.len() implies plain_styled(
        #[trigger] s.children[i],
    ) by {
    }
    lemma_plain_children_layout(s.children, d2, s.children.len() as int);
    let bcs = build_children(s.children, true, s.children.len() as int);
    assert(b.children == bcs);
    let nn = s.children.len() as int;
    lemma_children_heights(bcs, d2, nn);
    let laid = layout_box_spec(b, cb);
    assert(layout_children_spec(bcs, d2, nn).1 == 0);
    assert(laid.children == layout_children_spec(bcs, d2, nn).0);
    assert(laid.dimensions == set_height_v(d2, 0));
    assert(laid.dimensions.content.height == 0);
    assert(laid.dimensions.padding == edges_zero_v());
    assert(laid.dimensions.border == edges_zero_v());
    assert(laid.dimensions.margin == edges_zero_v());
    assert forall|i: int| 0 <= i < laid.children.len() implies all_plain_boxes(
        #[trigger] laid.children[i],
        cb.content.width,
    ) by {
        assert(all_plain_boxes(layout_children_spec(bcs, d2, nn).0[i], d2.content.width));
    }
}

} // verus!
