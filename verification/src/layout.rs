//! The tree layout engine: every reachable board becomes a square tile, each
//! row of replies is composed left-to-right above its parent tile, bounding
//! boxes are tracked throughout, and a final pass centers the whole drawing
//! and produces the connector lines between parent and child tiles.

use vstd::prelude::*;
use crate::board::{Board, Square};
use crate::rules::{
    empty_count, next_boards_spec, next_boards, solved, terminal_spec, tied,
};
use crate::minimax::lemma_not_tied_has_empty;
use crate::rules::lemma_next_boards_shape;

verus! {

/// The fixed geometry the layout engine works with: tile side length, the
/// line width of the gutters inside a tile, the horizontal gap between
/// sibling subtrees, the base vertical gap between a tile and its row of
/// children, and the margins added around the finished drawing.
#[derive(Clone, Copy, PartialEq, Eq, Debug, Structural)]
pub struct LayoutConfig {
    pub side_len: i64,
    pub line_width: i64,
    pub x_gap: i64,
    pub y_gap: i64,
    pub h_margin: i64,
    pub top_margin: i64,
    pub bottom_margin: i64,
}

impl LayoutConfig {
    /// Every length is modest and non-negative, so no coordinate computed by
    /// the engine can leave the range of an `i64`.
    pub open spec fn wf(self) -> bool {
        &&& 0 < self.side_len <= 65536
        &&& 0 <= self.line_width
        &&& 3 * self.line_width <= self.side_len
        &&& 0 <= self.x_gap <= 65536
        &&& 0 <= self.y_gap <= 65536
        &&& 0 <= self.h_margin <= 65536
        &&& 0 <= self.top_margin <= 65536
        &&& 0 <= self.bottom_margin <= 65536
    }

    /// The standard geometry: 256-pixel tiles with 10-pixel gutters, a
    /// 256-pixel horizontal gap, a 1024-pixel base vertical gap, and margins
    /// of 100 pixels (150 below).
    pub fn standard() -> (c: LayoutConfig)
        ensures
            c.wf(),
            c.side_len == 256,
            c.line_width == 10,
            c.x_gap == 256,
            c.y_gap == 1024,
            c.h_margin == 100,
            c.top_margin == 100,
            c.bottom_margin == 150,
    {
        LayoutConfig {
            side_len: 256,
            line_width: 10,
            x_gap: 256,
            y_gap: 1024,
            h_margin: 100,
            top_margin: 100,
            bottom_margin: 150,
        }
    }
}

/// One node of the composed drawing: a board tile whose top-left corner sits
/// at the absolute position (x, y), together with the subtrees laid out for
/// each reply to this board. Every node owns its children outright: the
/// drawing is a strict tree.
pub struct LayoutNode {
    pub x: i64,
    pub y: i64,
    pub board: Board,
    pub children: Vec<LayoutNode>,
}

/// A bounding box in mathematical integers: the occupied rectangle of a
/// composed drawing.
pub ghost struct GBounds {
    pub left: int,
    pub right: int,
    pub top: int,
    pub bottom: int,
}

/// The smallest box holding both arguments.
pub open spec fn union_b(a: GBounds, b: GBounds) -> GBounds {
    GBounds {
        left: if a.left <= b.left {
            a.left
        } else {
            b.left
        },
        right: if a.right >= b.right {
            a.right
        } else {
            b.right
        },
        top: if a.top <= b.top {
            a.top
        } else {
            b.top
        },
        bottom: if a.bottom >= b.bottom {
            a.bottom
        } else {
            b.bottom
        },
    }
}

/// `inner` lies inside `outer`.
pub open spec fn contains_b(outer: GBounds, inner: GBounds) -> bool {
    outer.left <= inner.left && inner.right <= outer.right && outer.top <= inner.top
        && inner.bottom <= outer.bottom
}

/// The rectangle of a node's own tile.
pub open spec fn tile_bounds(n: LayoutNode, side: int) -> GBounds {
    GBounds { left: n.x as int, right: n.x + side, top: n.y as int, bottom: n.y + side }
}

/// Fold the bounding boxes of the subtrees `ns[i..]` into `acc`.
pub open spec fn bounds_acc(acc: GBounds, ns: Seq<LayoutNode>, i: int, side: int) -> GBounds
    decreases ns, ns.len() - i,
{
    if i < 0 || i >= ns.len() {
        acc
    } else {
        bounds_acc(union_b(acc, bounds_of(ns[i], side)), ns, i + 1, side)
    }
}

/// The minimal rectangle enclosing every tile of the subtree rooted at `n`:
/// the fold of the union over the node's own tile and all its descendants.
pub open spec fn bounds_of(n: LayoutNode, side: int) -> GBounds
    decreases n, 0int,
{
    bounds_acc(tile_bounds(n, side), n.children@, 0, side)
}

/// Every tile of the subtree rooted at `n` lies inside the box `b`.
pub open spec fn within(n: LayoutNode, side: int, b: GBounds) -> bool
    decreases n,
{
    &&& b.left <= n.x
    &&& n.x + side <= b.right
    &&& b.top <= n.y
    &&& n.y + side <= b.bottom
    &&& forall|i: int| 0 <= i < n.children@.len() ==> within(#[trigger] n.children@[i], side, b)
}

/// `b` is `a` with every tile moved by (dx, dy): same boards, same tree
/// shape, every absolute coordinate shifted alike.
pub open spec fn is_translated(a: LayoutNode, b: LayoutNode, dx: int, dy: int) -> bool
    decreases a,
{
    &&& b.x == a.x + dx
    &&& b.y == a.y + dy
    &&& b.board == a.board
    &&& b.children@.len() == a.children@.len()
    &&& forall|i: int| 0 <= i < a.children@.len() ==> is_translated(
        #[trigger] a.children@[i],
        b.children@[i],
        dx,
        dy,
    )
}

/// The box all coordinates stay in, tiles included: one quarter of the `i64`
/// range, so that translations can never overflow.
pub open spec fn world() -> GBounds {
    GBounds {
        left: -0x1000_0000_0000_0000,
        right: 0x1000_0000_0000_0000,
        top: -0x1000_0000_0000_0000,
        bottom: 0x1000_0000_0000_0000,
    }
}

/// Every tile of `n` lies inside the world box.
pub open spec fn in_world(n: LayoutNode, side: int) -> bool {
    within(n, side, world())
}

/// A bounding box with machine coordinates, as handed to callers.
#[derive(Clone, Copy, PartialEq, Eq, Debug, Structural)]
pub struct Bounds {
    pub left: i64,
    pub right: i64,
    pub top: i64,
    pub bottom: i64,
}

/// The machine box `b` holds the same rectangle as `g`.
pub open spec fn b_is(b: Bounds, g: GBounds) -> bool {
    b.left == g.left && b.right == g.right && b.top == g.top && b.bottom == g.bottom
}

/// A box inside a larger box contains only what the larger box contains.
pub proof fn lemma_within_mono(n: LayoutNode, side: int, b1: GBounds, b2: GBounds)
    requires
        within(n, side, b1),
        contains_b(b2, b1),
    ensures
        within(n, side, b2),
    decreases n,
{
    assert forall|i: int| 0 <= i < n.children@.len() implies within(
        #[trigger] n.children@[i],
        side,
        b2,
    ) by {
        lemma_within_mono(n.children@[i], side, b1, b2);
    }
}

/// The fold over subtrees only grows the accumulator, and the result holds
/// the box of every subtree folded in.
pub proof fn lemma_bounds_acc_grows(acc: GBounds, ns: Seq<LayoutNode>, i: int, side: int)
    requires
        0 <= i,
    ensures
        contains_b(bounds_acc(acc, ns, i, side), acc),
        forall|j: int| i <= j < ns.len() ==> contains_b(
            bounds_acc(acc, ns, i, side),
            bounds_of(#[trigger] ns[j], side),
        ),
    decreases ns.len() - i,
{
    if 0 <= i < ns.len() {
        lemma_bounds_acc_grows(union_b(acc, bounds_of(ns[i], side)), ns, i + 1, side);
    }
}

/// If every tile of `n` lies inside `b`, so does the computed bounding box.
pub proof fn lemma_bounds_within_box(n: LayoutNode, side: int, b: GBounds)
    requires
        within(n, side, b),
    ensures
        contains_b(b, bounds_of(n, side)),
    decreases n, 0int,
{
    lemma_bounds_acc_within(tile_bounds(n, side), n.children@, 0, side, b);
}

/// The fold stays inside `b` when the accumulator and all folded subtrees do.
pub proof fn lemma_bounds_acc_within(
    acc: GBounds,
    ns: Seq<LayoutNode>,
    i: int,
    side: int,
    b: GBounds,
)
    requires
        contains_b(b, acc),
        forall|j: int| i <= j < ns.len() ==> within(#[trigger] ns[j], side, b),
    ensures
        contains_b(b, bounds_acc(acc, ns, i, side)),
    decreases ns, ns.len() - i,
{
    if 0 <= i < ns.len() {
        lemma_bounds_within_box(ns[i], side, b);
        lemma_bounds_acc_within(union_b(acc, bounds_of(ns[i], side)), ns, i + 1, side, b);
    }
}

/// The subtree's own tile lies inside its computed bounding box, so the box
/// is well formed: left at most right, top at most bottom (for any
/// non-negative side).
pub proof fn lemma_bounds_has_tile(n: LayoutNode, side: int)
    ensures
        contains_b(bounds_of(n, side), tile_bounds(n, side)),
{
    lemma_bounds_acc_grows(tile_bounds(n, side), n.children@, 0, side);
}

/// Compute the bounding box of a composed drawing: the minimal rectangle
/// enclosing every tile, found by folding over all descendants.
pub fn get_bounds(n: &LayoutNode, cfg: &LayoutConfig) -> (b: Bounds)
    requires
        cfg.wf(),
        in_world(*n, cfg.side_len as int),
    ensures
        b_is(b, bounds_of(*n, cfg.side_len as int)),
        contains_b(world(), bounds_of(*n, cfg.side_len as int)),
    decreases *n,
{
    let ghost side: int = cfg.side_len as int;
    proof {
        lemma_bounds_within_box(*n, side, world());
    }
    let mut left = n.x;
    let mut right = n.x + cfg.side_len;
    let mut top = n.y;
    let mut bottom = n.y + cfg.side_len;
    let mut i: usize = 0;
    while i < n.children.len()
        invariant
            cfg.wf(),
            side == cfg.side_len as int,
            in_world(*n, side),
            i <= n.children@.len(),
            bounds_acc(
                GBounds { left: left as int, right: right as int, top: top as int, bottom: bottom as int },
                n.children@,
                i as int,
                side,
            ) == bounds_of(*n, side),
            contains_b(
                world(),
                GBounds { left: left as int, right: right as int, top: top as int, bottom: bottom as int },
            ),
        decreases n.children@.len() - i,
    {
        let c = get_bounds(&n.children[i], cfg);
        if c.left < left {
            left = c.left;
        }
        if c.right > right {
            right = c.right;
        }
        if c.top < top {
            top = c.top;
        }
        if c.bottom > bottom {
            bottom = c.bottom;
        }
        i += 1;
    }
    Bounds { left, right, top, bottom }
}

/// Move every tile of the drawing by (dx, dy): a flat translation of all
/// absolute positions, propagated into every descendant.
pub fn translate(n: &LayoutNode, dx: i64, dy: i64, cfg: &LayoutConfig) -> (r: LayoutNode)
    requires
        cfg.wf(),
        in_world(*n, cfg.side_len as int),
        -0x2100_0000_0000_0000 <= dx <= 0x2100_0000_0000_0000,
        -0x2100_0000_0000_0000 <= dy <= 0x2100_0000_0000_0000,
    ensures
        is_translated(*n, r, dx as int, dy as int),
    decreases *n,
{
    let mut kids: Vec<LayoutNode> = Vec::new();
    let mut i: usize = 0;
    while i < n.children.len()
        invariant
            cfg.wf(),
            in_world(*n, cfg.side_len as int),
            -0x2100_0000_0000_0000 <= dx <= 0x2100_0000_0000_0000,
            -0x2100_0000_0000_0000 <= dy <= 0x2100_0000_0000_0000,
            i <= n.children@.len(),
            kids@.len() == i,
            forall|j: int| 0 <= j < i ==> is_translated(
                #[trigger] n.children@[j],
                kids@[j],
                dx as int,
                dy as int,
            ),
        decreases n.children@.len() - i,
    {
        let t = translate(&n.children[i], dx, dy, cfg);
        kids.push(t);
        i += 1;
    }
    LayoutNode { x: n.x + dx, y: n.y + dy, board: n.board, children: kids }
}

/// A translated drawing's tiles lie in the translated box.
pub proof fn lemma_translated_within(
    a: LayoutNode,
    b: LayoutNode,
    dx: int,
    dy: int,
    side: int,
    bx: GBounds,
)
    requires
        is_translated(a, b, dx, dy),
        within(a, side, bx),
    ensures
        within(
            b,
            side,
            GBounds {
                left: bx.left + dx,
                right: bx.right + dx,
                top: bx.top + dy,
                bottom: bx.bottom + dy,
            },
        ),
    decreases a,
{
    assert forall|i: int| 0 <= i < b.children@.len() implies within(
        #[trigger] b.children@[i],
        side,
        GBounds {
            left: bx.left + dx,
            right: bx.right + dx,
            top: bx.top + dy,
            bottom: bx.bottom + dy,
        },
    ) by {
        lemma_translated_within(a.children@[i], b.children@[i], dx, dy, side, bx);
    }
}

/// Shift a box by (dx, dy).
pub open spec fn shift_b(b: GBounds, dx: int, dy: int) -> GBounds {
    GBounds { left: b.left + dx, right: b.right + dx, top: b.top + dy, bottom: b.bottom + dy }
}

/// A translated drawing's bounding box is the original box, shifted alike.
pub proof fn lemma_translated_bounds(a: LayoutNode, b: LayoutNode, dx: int, dy: int, side: int)
    requires
        is_translated(a, b, dx, dy),
    ensures
        bounds_of(b, side) == shift_b(bounds_of(a, side), dx, dy),
    decreases a, 0int,
{
    lemma_translated_bounds_acc(
        tile_bounds(a, side),
        a.children@,
        b.children@,
        0,
        dx,
        dy,
        side,
    );
}

/// Folding translated subtrees from a shifted accumulator shifts the fold.
pub proof fn lemma_translated_bounds_acc(
    acc: GBounds,
    xs: Seq<LayoutNode>,
    ys: Seq<LayoutNode>,
    i: int,
    dx: int,
    dy: int,
    side: int,
)
    requires
        xs.len() == ys.len(),
        forall|j: int| 0 <= j < xs.len() ==> is_translated(#[trigger] xs[j], ys[j], dx, dy),
    ensures
        bounds_acc(shift_b(acc, dx, dy), ys, i, side) == shift_b(
            bounds_acc(acc, xs, i, side),
            dx,
            dy,
        ),
    decreases xs, xs.len() - i,
{
    if 0 <= i < xs.len() {
        lemma_translated_bounds(xs[i], ys[i], dx, dy, side);
        assert(union_b(shift_b(acc, dx, dy), bounds_of(ys[i], side)) == shift_b(
            union_b(acc, bounds_of(xs[i], side)),
            dx,
            dy,
        ));
        lemma_translated_bounds_acc(
            union_b(acc, bounds_of(xs[i], side)),
            xs,
            ys,
            i + 1,
            dx,
            dy,
            side,
        );
    }
}

/// The horizontal shift that centers the drawing's bounding box in a canvas
/// of the given width.
pub open spec fn center_dx(d: LayoutNode, width: int, side: int) -> int {
    let b = bounds_of(d, side);
    (width - (b.right - b.left)) / 2 - b.left
}

/// The vertical shift that anchors the drawing's top edge at the baseline.
pub open spec fn center_dy(d: LayoutNode, baseline: int, side: int) -> int {
    baseline - bounds_of(d, side).top
}

/// Shift the whole composed drawing so that its bounding box is horizontally
/// centered within `width` and its top edge sits at `baseline`. The shift is
/// a flat translation propagated into every descendant.
pub fn center(d: LayoutNode, width: i64, height: i64, baseline: i64, cfg: &LayoutConfig) -> (r:
    LayoutNode)
    requires
        cfg.wf(),
        in_world(d, cfg.side_len as int),
        0 <= width <= 0x1000_0000_0000_0000,
        -0x1000_0000_0000_0000 <= baseline <= 0x1000_0000_0000_0000,
        bounds_of(d, cfg.side_len as int).right - bounds_of(d, cfg.side_len as int).left
            <= width,
    ensures
        is_translated(
            d,
            r,
            center_dx(d, width as int, cfg.side_len as int),
            center_dy(d, baseline as int, cfg.side_len as int),
        ),
        bounds_of(r, cfg.side_len as int) == shift_b(
            bounds_of(d, cfg.side_len as int),
            center_dx(d, width as int, cfg.side_len as int),
            center_dy(d, baseline as int, cfg.side_len as int),
        ),
        bounds_of(r, cfg.side_len as int).top == baseline,
        bounds_of(r, cfg.side_len as int).left == (width - (bounds_of(
            d,
            cfg.side_len as int,
        ).right - bounds_of(d, cfg.side_len as int).left)) / 2,
{
    let ghost side: int = cfg.side_len as int;
    let b = get_bounds(&d, cfg);
    proof {
        lemma_bounds_has_tile(d, side);
    }
    let bw = b.right - b.left;
    let diff = width - bw;
    let half = (diff as u64 / 2) as i64;
    let dx = half - b.left;
    let dy = baseline - b.top;
    let r = translate(&d, dx, dy, cfg);
    proof {
        lemma_translated_bounds(d, r, dx as int, dy as int, side);
    }
    r
}

/// Translating by (0, 0) relates every drawing to itself: the coordinates of
/// every tile are unchanged.
pub proof fn lemma_translated_self(a: LayoutNode)
    ensures
        is_translated(a, a, 0, 0),
    decreases a,
{
    assert forall|i: int| 0 <= i < a.children@.len() implies is_translated(
        #[trigger] a.children@[i],
        a.children@[i],
        0,
        0,
    ) by {
        lemma_translated_self(a.children@[i]);
    }
}

/// Centering is idempotent: after centering once, centering again at the same
/// canvas width and baseline shifts by exactly (0, 0), so no absolute
/// coordinate changes.
pub proof fn lemma_center_idempotent(
    d: LayoutNode,
    r: LayoutNode,
    width: int,
    baseline: int,
    side: int,
)
    requires
        is_translated(d, r, center_dx(d, width, side), center_dy(d, baseline, side)),
    ensures
        center_dx(r, width, side) == 0,
        center_dy(r, baseline, side) == 0,
{
    lemma_translated_bounds(
        d,
        r,
        center_dx(d, width, side),
        center_dy(d, baseline, side),
        side,
    );
}

/// A straight connector segment in machine coordinates.
#[derive(Clone, Copy, PartialEq, Eq, Debug, Structural)]
pub struct Line {
    pub x1: i64,
    pub y1: i64,
    pub x2: i64,
    pub y2: i64,
}

/// A straight connector segment in mathematical integers.
pub ghost struct GLine {
    pub x1: int,
    pub y1: int,
    pub x2: int,
    pub y2: int,
}

/// The machine segment `l` is the segment `g`.
pub open spec fn l_is(l: Line, g: GLine) -> bool {
    l.x1 == g.x1 && l.y1 == g.y1 && l.x2 == g.x2 && l.y2 == g.y2
}

/// The segment from the center of a parent's tile to the center of a child's
/// tile: the visual anchor points of the two boards.
pub open spec fn line_between(p: LayoutNode, c: LayoutNode, side: int) -> GLine {
    GLine {
        x1: p.x + side / 2,
        y1: p.y + side / 2,
        x2: c.x + side / 2,
        y2: c.y + side / 2,
    }
}

/// All connector segments of the subtree rooted at `n`: one per parent/child
/// pair, the node's own edges first, then each child's subtree in order.
pub open spec fn lines_of(n: LayoutNode, side: int) -> Seq<GLine>
    decreases n, 0int,
{
    Seq::new(n.children@.len(), |i: int| line_between(n, n.children@[i], side)) + lines_acc(
        n.children@,
        0,
        side,
    )
}

/// The concatenated connector segments of the subtrees `ns[i..]`.
pub open spec fn lines_acc(ns: Seq<LayoutNode>, i: int, side: int) -> Seq<GLine>
    decreases ns, ns.len() - i,
{
    if i < 0 || i >= ns.len() {
        Seq::empty()
    } else {
        lines_of(ns[i], side) + lines_acc(ns, i + 1, side)
    }
}

/// Produce the connector lines of the composed drawing: for every parent and
/// each of its children, one straight segment between their tile centers.
/// Drawn after centering, since it reads final absolute coordinates.
pub fn draw_lines(n: &LayoutNode, cfg: &LayoutConfig) -> (r: Vec<Line>)
    requires
        cfg.wf(),
        in_world(*n, cfg.side_len as int),
    ensures
        r@.len() == lines_of(*n, cfg.side_len as int).len(),
        forall|j: int| 0 <= j < r@.len() ==> l_is(r@[j], lines_of(*n, cfg.side_len as int)[j]),
    decreases *n,
{
    let ghost side: int = cfg.side_len as int;
    let half = (cfg.side_len as u64 / 2) as i64;
    let mut out: Vec<Line> = Vec::new();
    let ghost own: Seq<GLine> = Seq::new(
        n.children@.len(),
        |i: int| line_between(*n, n.children@[i], side),
    );
    let mut i: usize = 0;
    while i < n.children.len()
        invariant
            cfg.wf(),
            side == cfg.side_len as int,
            half == side / 2,
            in_world(*n, side),
            own == Seq::new(
                n.children@.len(),
                |k: int| line_between(*n, n.children@[k], side),
            ),
            i <= n.children@.len(),
            out@.len() == i,
            forall|j: int| 0 <= j < i ==> l_is(out@[j], own[j]),
        decreases n.children@.len() - i,
    {
        let c = &n.children[i];
        proof {
            assert(within(n.children@[i as int], side, world()));
        }
        out.push(Line { x1: n.x + half, y1: n.y + half, x2: c.x + half, y2: c.y + half });
        i += 1;
    }
    let ghost done: Seq<GLine> = own;
    let mut done = Ghost(done);
    let mut i: usize = 0;
    while i < n.children.len()
        invariant
            cfg.wf(),
            side == cfg.side_len as int,
            in_world(*n, side),
            i <= n.children@.len(),
            done@ + lines_acc(n.children@, i as int, side) == lines_of(*n, side),
            out@.len() == done@.len(),
            forall|j: int| 0 <= j < out@.len() ==> l_is(out@[j], done@[j]),
        decreases n.children@.len() - i,
    {
        let mut sub = draw_lines(&n.children[i], cfg);
        let ghost sub_lines: Seq<GLine> = lines_of(n.children@[i as int], side);
        proof {
            assert((done@ + sub_lines) + lines_acc(n.children@, i + 1, side)
                =~= done@ + lines_acc(n.children@, i as int, side));
        }
        out.append(&mut sub);
        done = Ghost(done@ + sub_lines);
        i += 1;
    }
    proof {
        assert(done@ + lines_acc(n.children@, n.children@.len() as int, side) =~= done@);
    }
    out
}

/// A width bound for the subtree laid out from a board with `e` empty cells:
/// at most `e` children, each at most as wide as a subtree with `e - 1`
/// empties, plus one gap each.
pub open spec fn wcap(cfg: LayoutConfig, e: nat) -> int
    decreases e,
{
    if e == 0 {
        cfg.side_len as int
    } else {
        e * (wcap(cfg, (e - 1) as nat) + cfg.x_gap)
    }
}

/// A height bound for the subtree laid out from a board with `e` empty cells:
/// the children's height, the scaled vertical gap, and the tile below.
pub open spec fn hcap(cfg: LayoutConfig, e: nat) -> int
    decreases e,
{
    if e == 0 {
        cfg.side_len as int
    } else {
        hcap(cfg, (e - 1) as nat) + e * (cfg.y_gap as int) + cfg.side_len
    }
}

/// Geometric series dominating the width caps.
pub open spec fn cap_series(e: nat) -> int
    decreases e,
{
    if e == 0 {
        2
    } else {
        18 * cap_series((e - 1) as nat)
    }
}

/// Both caps dominate a tile side and never shrink as the empty count grows.
pub proof fn lemma_caps_pos(cfg: LayoutConfig, e: nat)
    requires
        cfg.wf(),
    ensures
        cfg.side_len <= wcap(cfg, e),
        cfg.side_len <= hcap(cfg, e),
        e > 0 ==> wcap(cfg, (e - 1) as nat) <= wcap(cfg, e),
        e > 0 ==> hcap(cfg, (e - 1) as nat) <= hcap(cfg, e),
    decreases e,
{
    if e > 0 {
        lemma_caps_pos(cfg, (e - 1) as nat);
        let base = wcap(cfg, (e - 1) as nat) + cfg.x_gap;
        assert(e * base >= 1 * base) by (nonlinear_arith)
            requires
                e >= 1,
                base >= 0,
        ;
        assert(e * (cfg.y_gap as int) >= 0) by (nonlinear_arith)
            requires
                e >= 0,
                cfg.y_gap >= 0,
        ;
    }
}

/// The smaller cap is below the larger one.
pub proof fn lemma_caps_mono(cfg: LayoutConfig, e1: nat, e2: nat)
    requires
        cfg.wf(),
        e1 <= e2,
    ensures
        wcap(cfg, e1) <= wcap(cfg, e2),
        hcap(cfg, e1) <= hcap(cfg, e2),
    decreases e2,
{
    if e1 < e2 {
        lemma_caps_mono(cfg, e1, (e2 - 1) as nat);
        lemma_caps_pos(cfg, e2);
    }
}

/// With at most nine empty cells, both caps stay far below the world box.
pub proof fn lemma_caps_world(cfg: LayoutConfig, e: nat)
    requires
        cfg.wf(),
        e <= 9,
    ensures
        wcap(cfg, e) <= 65536 * cap_series(e),
        hcap(cfg, e) <= 65536 + 655360 * e,
        wcap(cfg, e) <= 0x100_0000_0000_0000,
        hcap(cfg, e) <= 0x100_0000_0000_0000,
    decreases e,
{
    assert(cap_series(9) == 396718580736) by {
        reveal_with_fuel(cap_series, 10);
    }
    lemma_caps_series_mono(e);
    if e == 0 {
    } else {
        lemma_caps_world(cfg, (e - 1) as nat);
        lemma_caps_pos(cfg, (e - 1) as nat);
        let w1 = wcap(cfg, (e - 1) as nat);
        let c1 = cap_series((e - 1) as nat);
        let base = w1 + cfg.x_gap;
        assert(e * base <= 9 * base) by (nonlinear_arith)
            requires
                e <= 9,
                base >= 0,
        ;
        assert(9 * base <= 9 * (65536 * c1 + 65536)) by (nonlinear_arith)
            requires
                base <= 65536 * c1 + 65536,
        ;
        assert(9 * (65536 * c1 + 65536) <= 65536 * (18 * c1)) by (nonlinear_arith)
            requires
                c1 >= 1,
        ;
        assert(e * (cfg.y_gap as int) <= 9 * 65536) by (nonlinear_arith)
            requires
                e <= 9,
                0 <= cfg.y_gap <= 65536,
        ;
    }
}

/// The dominating series grows and stays below its ninth value.
pub proof fn lemma_caps_series_mono(e: nat)
    requires
        e <= 9,
    ensures
        1 <= cap_series(e) <= cap_series(9),
    decreases 9 - e,
{
    lemma_caps_series_pos(e);
    if e < 9 {
        lemma_caps_series_mono(e + 1);
        assert(cap_series(e + 1) == 18 * cap_series(e));
        assert(cap_series(e) >= 1 ==> 18 * cap_series(e) >= cap_series(e)) by (nonlinear_arith);
    }
}

/// The dominating series is at least one everywhere.
pub proof fn lemma_caps_series_pos(e: nat)
    ensures
        cap_series(e) >= 1,
    decreases e,
{
    if e > 0 {
        lemma_caps_series_pos((e - 1) as nat);
        assert(cap_series(e) == 18 * cap_series((e - 1) as nat));
        assert(cap_series((e - 1) as nat) >= 1 ==> 18 * cap_series((e - 1) as nat) >= 1)
            by (nonlinear_arith);
    }
}

/// The mark whose replies are shown below a node laid out for `team`: the
/// layout always shows the other player's responses at each level.
pub open spec fn reply_mark(team: Square) -> Square {
    if team == Square::X {
        Square::O
    } else {
        Square::X
    }
}

/// The bounding box of a non-empty row of subtrees.
pub open spec fn row_bounds(ns: Seq<LayoutNode>, side: int) -> GBounds {
    bounds_acc(bounds_of(ns[0], side), ns, 1, side)
}

/// The laid-out tree below `n` is exactly the move tree of `n.board` for the
/// side `team` whose move produced that board. A terminal board is a bare
/// tile. Otherwise the children show, in move order, the other side's
/// replies; sibling subtrees sit left-to-right separated by the horizontal
/// gap with their tops aligned; and the node's own tile sits below the row,
/// at the row's left edge, offset by the base vertical gap scaled by the
/// sibling count less one.
pub open spec fn well_laid(n: LayoutNode, team: Square, cfg: LayoutConfig) -> bool
    decreases n,
{
    let side = cfg.side_len as int;
    let s = n.board@;
    let m = reply_mark(team);
    let ns = n.children@;
    if terminal_spec(s) {
        ns.len() == 0
    } else {
        &&& ns.len() == next_boards_spec(s, m).len()
        &&& forall|i: int| 0 <= i < ns.len() ==> (#[trigger] ns[i]).board@ == next_boards_spec(
            s,
            m,
        )[i]
        &&& forall|i: int| 0 <= i < ns.len() ==> well_laid(#[trigger] ns[i], m, cfg)
        &&& forall|i: int| 0 <= i < ns.len() - 1 ==> bounds_of(#[trigger] ns[i + 1], side).left
            == bounds_of(ns[i], side).right + cfg.x_gap
        &&& forall|i: int| 0 <= i < ns.len() ==> bounds_of(#[trigger] ns[i], side).top
            == bounds_of(ns[0], side).top
        &&& n.x == bounds_of(ns[0], side).left
        &&& n.y == row_bounds(ns, side).bottom + cfg.y_gap * (ns.len() - 1)
    }
}

/// A flat translation moves every tile alike, so it preserves the layout
/// relations: a well-laid drawing stays well laid wherever it is moved.
pub proof fn lemma_translate_well_laid(
    a: LayoutNode,
    b: LayoutNode,
    dx: int,
    dy: int,
    team: Square,
    cfg: LayoutConfig,
)
    requires
        well_laid(a, team, cfg),
        is_translated(a, b, dx, dy),
    ensures
        well_laid(b, team, cfg),
    decreases a,
{
    let side = cfg.side_len as int;
    let m = reply_mark(team);
    if !terminal_spec(a.board@) {
        assert forall|i: int| 0 <= i < b.children@.len() implies (#[trigger] b.children@[i]).board@
            == next_boards_spec(b.board@, m)[i] && well_laid(b.children@[i], m, cfg) && bounds_of(
            b.children@[i],
            side,
        ) == shift_b(bounds_of(a.children@[i], side), dx, dy) by {
            assert(is_translated(a.children@[i], b.children@[i], dx, dy));
            lemma_translate_well_laid(a.children@[i], b.children@[i], dx, dy, m, cfg);
            lemma_translated_bounds(a.children@[i], b.children@[i], dx, dy, side);
        }
        lemma_not_tied_has_empty(a.board@, 0);
        lemma_next_boards_shape(a.board@, m);
        crate::rules::lemma_next_from_count(a.board@, m, 0);
        assert(a.children@.len() >= 1);
        assert(is_translated(a.children@[0], b.children@[0], dx, dy));
        lemma_translated_bounds(a.children@[0], b.children@[0], dx, dy, side);
        lemma_translated_bounds_acc(
            bounds_of(a.children@[0], side),
            a.children@,
            b.children@,
            1,
            dx,
            dy,
            side,
        );
    }
}

/// Folding one more subtree equals taking the union with its box.
pub proof fn lemma_bounds_acc_push(
    acc: GBounds,
    ns: Seq<LayoutNode>,
    x: LayoutNode,
    i: int,
    side: int,
)
    requires
        0 <= i <= ns.len(),
    ensures
        bounds_acc(acc, ns.push(x), i, side) == union_b(
            bounds_acc(acc, ns, i, side),
            bounds_of(x, side),
        ),
    decreases ns.len() - i,
{
    if i < ns.len() {
        assert(ns.push(x)[i] == ns[i]);
        lemma_bounds_acc_push(union_b(acc, bounds_of(ns[i], side)), ns, x, i + 1, side);
    } else {
        assert(ns.push(x)[i] == x);
        assert(bounds_acc(union_b(acc, bounds_of(x, side)), ns.push(x), i + 1, side) == union_b(
            acc,
            bounds_of(x, side),
        ));
    }
}

/// A union in the accumulator can be taken out of the fold.
pub proof fn lemma_bounds_acc_union_out(
    a: GBounds,
    b: GBounds,
    ns: Seq<LayoutNode>,
    i: int,
    side: int,
)
    ensures
        bounds_acc(union_b(a, b), ns, i, side) == union_b(a, bounds_acc(b, ns, i, side)),
    decreases ns.len() - i,
{
    if 0 <= i < ns.len() {
        assert(union_b(union_b(a, b), bounds_of(ns[i], side)) == union_b(
            a,
            union_b(b, bounds_of(ns[i], side)),
        ));
        lemma_bounds_acc_union_out(a, union_b(b, bounds_of(ns[i], side)), ns, i + 1, side);
    }
}

/// There are never more empty cells than cells.
pub proof fn lemma_empties_le(s: Seq<Square>, i: int)
    requires
        0 <= i <= s.len(),
    ensures
        crate::rules::empties_from(s, i) <= s.len() - i,
    decreases s.len() - i,
{
    if i < s.len() {
        lemma_empties_le(s, i + 1);
    }
}

/// Lay out the move tree of `bd` as seen after a move by `team`: the board's
/// own tile, and, unless the board is terminal, one laid-out subtree per
/// reply of the other side, composed left-to-right with a fixed gap and
/// placed above the tile. The result is normalized: its bounding box has its
/// top-left corner at the origin, and it fits in the box the caps describe.
fn layout_board(bd: Board, team: Square, cfg: &LayoutConfig) -> (r: LayoutNode)
    requires
        cfg.wf(),
    ensures
        r.board == bd,
        well_laid(r, team, *cfg),
        bounds_of(r, cfg.side_len as int).left == 0,
        bounds_of(r, cfg.side_len as int).top == 0,
        within(
            r,
            cfg.side_len as int,
            GBounds {
                left: 0,
                right: wcap(*cfg, empty_count(bd@)),
                top: 0,
                bottom: hcap(*cfg, empty_count(bd@)),
            },
        ),
        terminal_spec(bd@) ==> r.children@.len() == 0 && bounds_of(r, cfg.side_len as int)
            == tile_bounds(r, cfg.side_len as int) && r.x == 0 && r.y == 0,
    decreases empty_count(bd@),
{
    let ghost side: int = cfg.side_len as int;
    let ghost ec: nat = empty_count(bd@);
    proof {
        lemma_empties_le(bd@, 0);
        lemma_caps_pos(*cfg, ec);
        lemma_caps_world(*cfg, ec);
    }
    if solved(bd, Square::X) || solved(bd, Square::O) || tied(bd) {
        let r = LayoutNode { x: 0, y: 0, board: bd, children: Vec::new() };
        proof {
            assert(r.children@.len() == 0);
            assert(bounds_of(r, side) == tile_bounds(r, side));
        }
        return r;
    }
    let m = if team == Square::X {
        Square::O
    } else {
        Square::X
    };
    let subs = next_boards(bd, m);
    proof {
        lemma_not_tied_has_empty(bd@, 0);
        lemma_next_boards_shape(bd@, m);
        crate::rules::lemma_next_from_count(bd@, m, 0);
        lemma_caps_pos(*cfg, (ec - 1) as nat);
        lemma_caps_world(*cfg, (ec - 1) as nat);
        lemma_caps_mono(*cfg, (ec - 1) as nat, ec);
        assert(subs@.len() == ec);
    }
    let ghost wc: int = wcap(*cfg, (ec - 1) as nat);
    let ghost hc: int = hcap(*cfg, (ec - 1) as nat);
    let mut row: Vec<LayoutNode> = Vec::new();
    let mut pos: i64 = 0;
    let mut max_bottom: i64 = 0;
    let mut k: usize = 0;
    while k < subs.len()
        invariant
            cfg.wf(),
            side == cfg.side_len as int,
            ec == empty_count(bd@),
            1 <= ec <= 9,
            wc == wcap(*cfg, (ec - 1) as nat),
            hc == hcap(*cfg, (ec - 1) as nat),
            cfg.side_len as int <= wc <= 0x100_0000_0000_0000,
            cfg.side_len as int <= hc <= 0x100_0000_0000_0000,
            m == reply_mark(team),
            m == Square::X || m == Square::O,
            bd@.len() == 9,
            !terminal_spec(bd@),
            subs@.len() == ec,
            subs@.len() == next_boards_spec(bd@, m).len(),
            forall|j: int| 0 <= j < subs@.len() ==> subs@[j]@ == next_boards_spec(bd@, m)[j],
            k <= subs@.len(),
            row@.len() == k,
            forall|i: int| 0 <= i < k ==> (#[trigger] row@[i]).board@ == next_boards_spec(
                bd@,
                m,
            )[i],
            forall|i: int| 0 <= i < k ==> well_laid(#[trigger] row@[i], m, *cfg),
            forall|i: int| 0 <= i < k ==> bounds_of(#[trigger] row@[i], side).top == 0,
            forall|i: int| 0 <= i < k - 1 ==> bounds_of(#[trigger] row@[i + 1], side).left
                == bounds_of(row@[i], side).right + cfg.x_gap,
            k >= 1 ==> bounds_of(row@[0], side).left == 0,
            0 <= pos as int <= k as int * (wc + cfg.x_gap),
            k >= 1 ==> pos as int == bounds_of(row@[k - 1], side).right + cfg.x_gap,
            k >= 1 ==> row_bounds(row@, side) == (GBounds {
                left: 0,
                right: pos as int - cfg.x_gap,
                top: 0,
                bottom: max_bottom as int,
            }),
            k >= 1 ==> cfg.side_len as int <= max_bottom as int <= hc,
            k == 0 ==> pos == 0 && max_bottom == 0,
            forall|i: int| 0 <= i < k ==> within(
                #[trigger] row@[i],
                side,
                GBounds { left: 0, right: pos as int, top: 0, bottom: hc },
            ),
        decreases subs@.len() - k,
    {
        proof {
            lemma_next_boards_shape(bd@, m);
            assert(next_boards_spec(bd@, m)[k as int] == subs@[k as int]@);
            let cell = choose|c: int|
                0 <= c < 9 && bd@[c] == Square::E && next_boards_spec(bd@, m)[k as int]
                    == crate::rules::place_spec(bd@, c, m);
            assert(crate::rules::place_spec(bd@, cell, m) == bd@.update(cell, m));
            crate::minimax::lemma_empties_from_update(bd@, cell, m, 0);
            assert(empty_count(subs@[k as int]@) == ec - 1);
        }
        let child = layout_board(subs[k], m, cfg);
        proof {
            lemma_within_mono(
                child,
                side,
                GBounds { left: 0, right: wc, top: 0, bottom: hc },
                world(),
            );
            assert(k as int * (wc + cfg.x_gap) <= 9 * (wc + cfg.x_gap)) by (nonlinear_arith)
                requires
                    k <= 9,
                    wc + cfg.x_gap >= 0,
            ;
            lemma_bounds_within_box(
                child,
                side,
                GBounds { left: 0, right: wc, top: 0, bottom: hc },
            );
            lemma_bounds_has_tile(child, side);
        }
        let placed = translate(&child, pos, 0, cfg);
        proof {
            lemma_translate_well_laid(child, placed, pos as int, 0, m, *cfg);
            lemma_translated_bounds(child, placed, pos as int, 0, side);
            lemma_translated_within(
                child,
                placed,
                pos as int,
                0,
                side,
                GBounds { left: 0, right: wc, top: 0, bottom: hc },
            );
        }
        let cb = get_bounds(&child, cfg);
        let placed_right = pos + cb.right;
        let placed_bottom = cb.bottom;
        proof {
            if k >= 1 {
                lemma_bounds_acc_push(bounds_of(row@[0], side), row@, placed, 1, side);
                assert(row@.push(placed)[0] == row@[0]);
            }
            assert((k + 1) as int * (wc + cfg.x_gap) == k as int * (wc + cfg.x_gap) + (wc
                + cfg.x_gap)) by (nonlinear_arith);
        }
        let ghost pos0: int = pos as int;
        row.push(placed);
        pos = placed_right + cfg.x_gap;
        if placed_bottom > max_bottom {
            max_bottom = placed_bottom;
        }
        proof {
            lemma_tiles_within_bounds(placed, side);
            assert forall|i: int| 0 <= i < row@.len() implies within(
                #[trigger] row@[i],
                side,
                GBounds { left: 0, right: pos as int, top: 0, bottom: hc },
            ) by {
                if i < row@.len() - 1 {
                    lemma_within_mono(
                        row@[i],
                        side,
                        GBounds { left: 0, right: pos0, top: 0, bottom: hc },
                        GBounds { left: 0, right: pos as int, top: 0, bottom: hc },
                    );
                } else {
                    assert(row@[i] == placed);
                    lemma_within_mono(
                        placed,
                        side,
                        bounds_of(placed, side),
                        GBounds { left: 0, right: pos as int, top: 0, bottom: hc },
                    );
                }
            }
        }
        k += 1;
    }
    let depth = subs.len() - 1;
    proof {
        assert(cfg.y_gap as int * (depth as int) <= 65536 * 8 && cfg.y_gap as int * (depth as int)
            >= 0) by (nonlinear_arith)
            requires
                0 <= cfg.y_gap <= 65536,
                0 <= depth <= 8,
        ;
    }
    let dy_off = cfg.y_gap * (depth as i64);
    let ty = max_bottom + dy_off;
    let node = LayoutNode { x: 0, y: ty, board: bd, children: row };
    proof {
        assert(node.children@.len() >= 1);
        assert(bounds_of(node, side) == bounds_acc(
            union_b(tile_bounds(node, side), bounds_of(node.children@[0], side)),
            node.children@,
            1,
            side,
        ));
        lemma_bounds_acc_union_out(
            tile_bounds(node, side),
            bounds_of(node.children@[0], side),
            node.children@,
            1,
            side,
        );
        assert((ec - 1) as int * (cfg.y_gap as int) <= ec as int * (cfg.y_gap as int))
            by (nonlinear_arith)
            requires
                cfg.y_gap >= 0,
                ec >= 1,
        ;
        assert(ec as int * (wc + cfg.x_gap) == wcap(*cfg, ec));
        assert forall|i: int| 0 <= i < node.children@.len() implies within(
            #[trigger] node.children@[i],
            side,
            GBounds { left: 0, right: wcap(*cfg, ec), top: 0, bottom: hcap(*cfg, ec) },
        ) by {
            lemma_within_mono(
                node.children@[i],
                side,
                GBounds { left: 0, right: pos as int, top: 0, bottom: hc },
                GBounds { left: 0, right: wcap(*cfg, ec), top: 0, bottom: hcap(*cfg, ec) },
            );
        }
    }
    node
}

/// Compose horizontally: move `right` so that its bounding box begins one
/// `gap` after `left`'s right edge, with the two boxes' top edges aligned.
/// `left` stays where it is; the caller keeps both, so the pair's bounding
/// box is the union of `left`'s and the result's.
pub fn beside_align_top(left: &LayoutNode, right: &LayoutNode, gap: i64, cfg: &LayoutConfig) -> (r:
    LayoutNode)
    requires
        cfg.wf(),
        in_world(*left, cfg.side_len as int),
        in_world(*right, cfg.side_len as int),
        0 <= gap <= 65536,
    ensures
        is_translated(
            *right,
            r,
            bounds_of(*left, cfg.side_len as int).right + gap - bounds_of(
                *right,
                cfg.side_len as int,
            ).left,
            bounds_of(*left, cfg.side_len as int).top - bounds_of(*right, cfg.side_len as int).top,
        ),
        bounds_of(r, cfg.side_len as int).left == bounds_of(*left, cfg.side_len as int).right
            + gap,
        bounds_of(r, cfg.side_len as int).top == bounds_of(*left, cfg.side_len as int).top,
{
    let ghost side: int = cfg.side_len as int;
    proof {
        lemma_bounds_has_tile(*left, side);
        lemma_bounds_has_tile(*right, side);
    }
    let lb = get_bounds(left, cfg);
    let rb = get_bounds(right, cfg);
    let dx = (lb.right + gap) - rb.left;
    let dy = lb.top - rb.top;
    let r = translate(right, dx, dy, cfg);
    proof {
        lemma_translated_bounds(*right, r, dx as int, dy as int, side);
    }
    r
}

/// Compose vertically: move `top` so that its bounding box ends one base
/// `gap`, scaled by `depth`, above `bottom`'s top edge. `bottom` stays where
/// it is, and neither drawing moves sideways.
pub fn above(top: &LayoutNode, bottom: &LayoutNode, gap: i64, depth: u8, cfg: &LayoutConfig) -> (r:
    LayoutNode)
    requires
        cfg.wf(),
        in_world(*top, cfg.side_len as int),
        in_world(*bottom, cfg.side_len as int),
        0 <= gap <= 65536,
    ensures
        is_translated(
            *top,
            r,
            0,
            bounds_of(*bottom, cfg.side_len as int).top - gap * (depth as int) - bounds_of(
                *top,
                cfg.side_len as int,
            ).bottom,
        ),
        bounds_of(r, cfg.side_len as int).bottom == bounds_of(*bottom, cfg.side_len as int).top
            - gap * (depth as int),
        bounds_of(r, cfg.side_len as int).left == bounds_of(*top, cfg.side_len as int).left,
{
    let ghost side: int = cfg.side_len as int;
    proof {
        lemma_bounds_has_tile(*top, side);
        lemma_bounds_has_tile(*bottom, side);
    }
    let tb = get_bounds(top, cfg);
    let bb = get_bounds(bottom, cfg);
    proof {
        assert(0 <= gap as int * (depth as int) <= 65536 * 255) by (nonlinear_arith)
            requires
                0 <= gap <= 65536,
                0 <= depth <= 255,
        ;
    }
    let dy = (bb.top - gap * (depth as i64)) - tb.bottom;
    let r = translate(top, 0, dy, cfg);
    proof {
        lemma_translated_bounds(*top, r, 0, dy as int, side);
    }
    r
}

/// Sibling subtrees of a well-laid node never overlap: any later sibling's
/// bounding box starts at least one gap to the right of any earlier
/// sibling's right edge.
pub proof fn lemma_siblings_disjoint(
    n: LayoutNode,
    team: Square,
    cfg: LayoutConfig,
    i: int,
    j: int,
)
    requires
        cfg.wf(),
        well_laid(n, team, cfg),
        !terminal_spec(n.board@),
        0 <= i < j < n.children@.len(),
    ensures
        bounds_of(n.children@[j], cfg.side_len as int).left >= bounds_of(
            n.children@[i],
            cfg.side_len as int,
        ).right + cfg.x_gap,
    decreases j - i,
{
    let side = cfg.side_len as int;
    assert(bounds_of(n.children@[(j - 1) + 1], side).left == bounds_of(
        n.children@[j - 1],
        side,
    ).right + cfg.x_gap);
    if i < j - 1 {
        lemma_siblings_disjoint(n, team, cfg, i, j - 1);
        lemma_bounds_has_tile(n.children@[j - 1], side);
        lemma_bounds_acc_grows(
            tile_bounds(n.children@[j - 1], side),
            n.children@[j - 1].children@,
            0,
            side,
        );
    }
}

/// Every tile of a drawing lies inside the drawing's own bounding box.
pub proof fn lemma_tiles_within_bounds(n: LayoutNode, side: int)
    ensures
        within(n, side, bounds_of(n, side)),
    decreases n,
{
    lemma_bounds_has_tile(n, side);
    lemma_bounds_acc_grows(tile_bounds(n, side), n.children@, 0, side);
    assert forall|i: int| 0 <= i < n.children@.len() implies within(
        #[trigger] n.children@[i],
        side,
        bounds_of(n, side),
    ) by {
        lemma_tiles_within_bounds(n.children@[i], side);
        lemma_within_mono(
            n.children@[i],
            side,
            bounds_of(n.children@[i], side),
            bounds_of(n, side),
        );
    }
}

/// Produce the composed drawing of the full move tree of `bd`, with X having
/// just moved at the root: a normalized well-laid tree whose bounding box has
/// its top-left corner at the origin. A terminal board yields a single tile
/// whose box is exactly the tile's own fixed dimensions.
pub fn draw_boards(bd: Board, cfg: &LayoutConfig) -> (r: LayoutNode)
    requires
        cfg.wf(),
    ensures
        r.board == bd,
        well_laid(r, Square::X, *cfg),
        bounds_of(r, cfg.side_len as int).left == 0,
        bounds_of(r, cfg.side_len as int).top == 0,
        within(
            r,
            cfg.side_len as int,
            GBounds {
                left: 0,
                right: wcap(*cfg, empty_count(bd@)),
                top: 0,
                bottom: hcap(*cfg, empty_count(bd@)),
            },
        ),
        in_world(r, cfg.side_len as int),
        terminal_spec(bd@) ==> r.children@.len() == 0 && bounds_of(r, cfg.side_len as int)
            == tile_bounds(r, cfg.side_len as int) && r.x == 0 && r.y == 0,
{
    let r = layout_board(bd, Square::X, cfg);
    proof {
        lemma_empties_le(bd@, 0);
        lemma_caps_world(*cfg, empty_count(bd@));
        lemma_within_mono(
            r,
            cfg.side_len as int,
            GBounds {
                left: 0,
                right: wcap(*cfg, empty_count(bd@)),
                top: 0,
                bottom: hcap(*cfg, empty_count(bd@)),
            },
            world(),
        );
    }
    r
}

/// The finished picture: the centered move tree, its connector lines, and the
/// canvas dimensions that contain both without clipping.
pub struct Scene {
    pub tree: LayoutNode,
    pub lines: Vec<Line>,
    pub width: i64,
    pub height: i64,
}

/// Produce the whole scene for the move tree of `bd`: lay the tree out,
/// size the canvas to the tree's bounding box plus the margins, center the
/// tree horizontally and anchor its top edge at the baseline 0, and then
/// draw the connector lines from the final absolute coordinates.
pub fn draw_tree(bd: Board, cfg: &LayoutConfig) -> (s: Scene)
    requires
        cfg.wf(),
    ensures
        s.tree.board == bd,
        well_laid(s.tree, Square::X, *cfg),
        s.width as int == bounds_of(s.tree, cfg.side_len as int).right - bounds_of(
            s.tree,
            cfg.side_len as int,
        ).left + 2 * cfg.h_margin,
        s.height as int == bounds_of(s.tree, cfg.side_len as int).bottom - bounds_of(
            s.tree,
            cfg.side_len as int,
        ).top + cfg.top_margin + cfg.bottom_margin,
        bounds_of(s.tree, cfg.side_len as int).top == 0,
        bounds_of(s.tree, cfg.side_len as int).left == (s.width as int - (bounds_of(
            s.tree,
            cfg.side_len as int,
        ).right - bounds_of(s.tree, cfg.side_len as int).left)) / 2,
        s.lines@.len() == lines_of(s.tree, cfg.side_len as int).len(),
        forall|j: int| 0 <= j < s.lines@.len() ==> l_is(
            s.lines@[j],
            lines_of(s.tree, cfg.side_len as int)[j],
        ),
{
    let ghost side: int = cfg.side_len as int;
    let boards0 = draw_boards(bd, cfg);
    let ghost ec: nat = empty_count(bd@);
    proof {
        lemma_empties_le(bd@, 0);
        lemma_caps_world(*cfg, ec);
        lemma_bounds_within_box(
            boards0,
            side,
            GBounds { left: 0, right: wcap(*cfg, ec), top: 0, bottom: hcap(*cfg, ec) },
        );
    }
    proof {
        lemma_bounds_has_tile(boards0, side);
    }
    let b = get_bounds(&boards0, cfg);
    let width = (b.right + cfg.h_margin) - (b.left - cfg.h_margin);
    let height = (b.bottom + cfg.bottom_margin) - (b.top - cfg.top_margin);
    let tree = center(boards0, width, height, 0, cfg);
    proof {
        lemma_translated_within(
            boards0,
            tree,
            center_dx(boards0, width as int, side),
            center_dy(boards0, 0, side),
            side,
            GBounds { left: 0, right: wcap(*cfg, ec), top: 0, bottom: hcap(*cfg, ec) },
        );
        lemma_within_mono(
            tree,
            side,
            GBounds {
                left: center_dx(boards0, width as int, side),
                right: wcap(*cfg, ec) + center_dx(boards0, width as int, side),
                top: center_dy(boards0, 0, side),
                bottom: hcap(*cfg, ec) + center_dy(boards0, 0, side),
            },
            world(),
        );
        lemma_translate_well_laid(
            boards0,
            tree,
            center_dx(boards0, width as int, side),
            center_dy(boards0, 0, side),
            Square::X,
            *cfg,
        );
    }
    let lines = draw_lines(&tree, cfg);
    Scene { tree, lines, width, height }
}

/// A fill color.
#[derive(Clone, Copy, PartialEq, Eq, Debug, Structural)]
pub struct Rgb {
    pub r: u8,
    pub g: u8,
    pub b: u8,
}

/// An axis-aligned filled rectangle of a tile: position relative to the
/// tile's top-left corner, dimensions, and fill color.
#[derive(Clone, Copy, PartialEq, Eq, Debug, Structural)]
pub struct CellRect {
    pub x: i64,
    pub y: i64,
    pub w: i64,
    pub h: i64,
    pub color: Rgb,
}

/// The fill of a square: green for O, red for X, white for an empty cell.
pub open spec fn square_color(s: Square) -> Rgb {
    if s == Square::O {
        Rgb { r: 0, g: 255, b: 0 }
    } else if s == Square::X {
        Rgb { r: 255, g: 0, b: 0 }
    } else {
        Rgb { r: 255, g: 255, b: 255 }
    }
}

/// The colored square of cell `i` inside a tile: a third of the tile on each
/// axis, inset by half the line width, leaving a gutter between cells.
pub open spec fn cell_rect(s: Seq<Square>, i: int, cfg: LayoutConfig) -> CellRect {
    let side = cfg.side_len as int;
    let lw = cfg.line_width as int;
    CellRect {
        x: ((side * (i % 3)) / 3 + lw / 2) as i64,
        y: ((side * (i / 3)) / 3 + lw / 2) as i64,
        w: (side / 3 - lw) as i64,
        h: (side / 3 - lw) as i64,
        color: square_color(s[i]),
    }
}

/// Produce the drawing of a single board as a list of filled rectangles: the
/// tile's background first, then the nine cell squares in cell order, each
/// colored for its mark.
pub fn draw_board(bd: &Board, bg: Rgb, cfg: &LayoutConfig) -> (r: Vec<CellRect>)
    requires
        cfg.wf(),
    ensures
        r@.len() == 10,
        r@[0] == (CellRect { x: 0, y: 0, w: cfg.side_len, h: cfg.side_len, color: bg }),
        forall|i: int| 0 <= i < 9 ==> r@[i + 1] == cell_rect(bd@, i, *cfg),
{
    let mut out: Vec<CellRect> = Vec::new();
    out.push(CellRect { x: 0, y: 0, w: cfg.side_len, h: cfg.side_len, color: bg });
    let third = ((cfg.side_len as u64) / 3) as i64;
    let half_lw = ((cfg.line_width as u64) / 2) as i64;
    proof {
        assert(3 * (cfg.side_len as int / 3) + cfg.side_len as int % 3 == cfg.side_len as int);
        assert(cfg.line_width as int <= cfg.side_len as int / 3);
    }
    let cell_side = third - cfg.line_width;
    let mut i: usize = 0;
    while i < 9
        invariant
            cfg.wf(),
            third == cfg.side_len as int / 3,
            half_lw == cfg.line_width as int / 2,
            cell_side as int == cfg.side_len as int / 3 - cfg.line_width,
            0 <= cell_side,
            i <= 9,
            out@.len() == i + 1,
            out@[0] == (CellRect { x: 0, y: 0, w: cfg.side_len, h: cfg.side_len, color: bg }),
            forall|j: int| 0 <= j < i ==> out@[j + 1] == cell_rect(bd@, j, *cfg),
        decreases 9 - i,
    {
        let sqr = bd[i];
        let color = if sqr == Square::O {
            Rgb { r: 0, g: 255, b: 0 }
        } else if sqr == Square::X {
            Rgb { r: 255, g: 0, b: 0 }
        } else {
            Rgb { r: 255, g: 255, b: 255 }
        };
        let p = crate::board::index_to_pos(i, 3);
        proof {
            assert(0 <= p.x <= 2 && 0 <= p.y <= 2);
            assert(cfg.side_len as int * (i as int % 3) <= 131072 && 0 <= cfg.side_len as int * (
            i as int % 3)) by (nonlinear_arith)
                requires
                    0 < cfg.side_len <= 65536,
                    0 <= i as int % 3 <= 2,
            ;
            assert(cfg.side_len as int * (i as int / 3) <= 131072 && 0 <= cfg.side_len as int * (
            i as int / 3)) by (nonlinear_arith)
                requires
                    0 < cfg.side_len <= 65536,
                    0 <= i as int / 3 <= 2,
            ;
        }
        let x = ((cfg.side_len as u64 * (p.x as u64)) / 3) as i64 + half_lw;
        let y = ((cfg.side_len as u64 * (p.y as u64)) / 3) as i64 + half_lw;
        out.push(CellRect { x, y, w: cell_side, h: cell_side, color });
        i += 1;
    }
    out
}

} // verus!
