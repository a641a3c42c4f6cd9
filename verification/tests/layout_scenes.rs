use tictactoe_tree::board::{Board, Square};
use tictactoe_tree::layout::{
    above, beside_align_top, center, draw_board, draw_boards, draw_lines, draw_tree, get_bounds,
    translate, CellRect, LayoutConfig, LayoutNode, Rgb,
};

const E: Square = Square::E;
const X: Square = Square::X;
const O: Square = Square::O;

fn same_drawing(a: &LayoutNode, b: &LayoutNode) -> bool {
    a.x == b.x && a.y == b.y && a.board == b.board && a.children.len() == b.children.len()
        && a.children.iter().zip(b.children.iter()).all(|(c, d)| same_drawing(c, d))
}

#[test]
fn test_layout_terminal_single_tile() {
    let cfg = LayoutConfig::standard();
    let won: Board = [X, X, X, X, X, X, X, X, X];
    let tree = draw_boards(won, &cfg);
    assert_eq!(tree.children.len(), 0);
    assert_eq!(tree.board, won);
    let b = get_bounds(&tree, &cfg);
    assert_eq!((b.left, b.right, b.top, b.bottom), (0, 256, 0, 256));
}

#[test]
fn test_layout_one_reply() {
    // One empty cell and no winner yet: the tree is the root tile with a
    // single terminal child laid out above it, touching it (zero siblings
    // beyond the first means a zero scaled gap).
    let cfg = LayoutConfig::standard();
    let bd: Board = [X, O, X, O, E, O, O, X, X];
    let tree = draw_boards(bd, &cfg);
    assert_eq!(tree.children.len(), 1);
    assert_eq!(tree.board, bd);
    assert_eq!((tree.x, tree.y), (0, 256));
    let child = &tree.children[0];
    assert_eq!(child.board, [X, O, X, O, O, O, O, X, X]);
    assert_eq!((child.x, child.y), (0, 0));
    let b = get_bounds(&tree, &cfg);
    assert_eq!((b.left, b.right, b.top, b.bottom), (0, 256, 0, 512));
}

#[test]
fn test_layout_row_spacing() {
    // Two empty cells: two children side by side, separated by the fixed
    // horizontal gap, tops aligned, and the parent tile pushed down by the
    // base vertical gap (two siblings: depth factor one).
    let cfg = LayoutConfig::standard();
    let bd: Board = [X, E, X, O, X, E, O, O, X];
    // X already won (main diagonal)? cells 0,4,8 are X,X,X: terminal. Use
    // a genuinely open board instead.
    let open: Board = [X, E, O, O, X, E, X, O, E];
    assert_eq!(draw_boards(bd, &cfg).children.len(), 0);
    let tree = draw_boards(open, &cfg);
    assert_eq!(tree.children.len(), 3);
    let c0 = get_bounds(&tree.children[0], &cfg);
    let c1 = get_bounds(&tree.children[1], &cfg);
    let c2 = get_bounds(&tree.children[2], &cfg);
    assert_eq!(c1.left, c0.right + cfg.x_gap);
    assert_eq!(c2.left, c1.right + cfg.x_gap);
    assert_eq!(c0.top, 0);
    assert_eq!(c1.top, 0);
    assert_eq!(c2.top, 0);
}

#[test]
fn test_center_is_idempotent() {
    let cfg = LayoutConfig::standard();
    let bd: Board = [X, O, X, O, E, O, O, X, E];
    let make_centered = || {
        let t = draw_boards(bd, &cfg);
        let b = get_bounds(&t, &cfg);
        let width = (b.right + 100) - (b.left - 100);
        let height = (b.bottom + 150) - (b.top - 100);
        (center(t, width, height, 0, &cfg), width, height)
    };
    let (once, width, height) = make_centered();
    let twice = center(make_centered().0, width, height, 0, &cfg);
    assert!(same_drawing(&once, &twice));
}

#[test]
fn test_translate_moves_every_tile() {
    let cfg = LayoutConfig::standard();
    let bd: Board = [X, O, X, O, E, O, O, X, E];
    let tree = draw_boards(bd, &cfg);
    let moved = translate(&tree, 40, -7, &cfg);
    assert_eq!(moved.x, tree.x + 40);
    assert_eq!(moved.y, tree.y - 7);
    assert_eq!(moved.children.len(), tree.children.len());
    for (a, b) in tree.children.iter().zip(moved.children.iter()) {
        assert_eq!(b.x, a.x + 40);
        assert_eq!(b.y, a.y - 7);
    }
}

#[test]
fn test_draw_tree_terminal_dimensions() {
    let cfg = LayoutConfig::standard();
    let won: Board = [X, X, X, X, X, X, X, X, X];
    let scene = draw_tree(won, &cfg);
    assert_eq!(scene.width, 456);
    assert_eq!(scene.height, 506);
    assert_eq!(scene.lines.len(), 0);
    assert_eq!((scene.tree.x, scene.tree.y), (100, 0));
}

#[test]
fn test_draw_tree_connector_line() {
    let cfg = LayoutConfig::standard();
    let bd: Board = [X, O, X, O, E, O, O, X, X];
    let scene = draw_tree(bd, &cfg);
    assert_eq!(scene.width, 456);
    assert_eq!(scene.height, 762);
    assert_eq!(scene.tree.children.len(), 1);
    assert_eq!((scene.tree.x, scene.tree.y), (100, 256));
    assert_eq!((scene.tree.children[0].x, scene.tree.children[0].y), (100, 0));
    assert_eq!(scene.lines.len(), 1);
    let l = scene.lines[0];
    assert_eq!((l.x1, l.y1), (228, 384));
    assert_eq!((l.x2, l.y2), (228, 128));
}

#[test]
fn test_beside_align_top_places_after_gap() {
    let cfg = LayoutConfig::standard();
    let won: Board = [X, X, X, X, X, X, X, X, X];
    let a = draw_boards(won, &cfg);
    let b = draw_boards(won, &cfg);
    let moved = beside_align_top(&a, &b, 256, &cfg);
    let mb = get_bounds(&moved, &cfg);
    let ab = get_bounds(&a, &cfg);
    assert_eq!(mb.left, ab.right + 256);
    assert_eq!(mb.top, ab.top);
}

#[test]
fn test_above_scales_gap_with_depth() {
    let cfg = LayoutConfig::standard();
    let won: Board = [X, X, X, X, X, X, X, X, X];
    let a = draw_boards(won, &cfg);
    let b = draw_boards(won, &cfg);
    let moved = above(&a, &b, 1024, 3, &cfg);
    let mb = get_bounds(&moved, &cfg);
    let bb = get_bounds(&b, &cfg);
    assert_eq!(mb.bottom, bb.top - 3 * 1024);
    assert_eq!(mb.left, 0);
}

fn count_edges(n: &LayoutNode) -> usize {
    n.children.len() + n.children.iter().map(count_edges).sum::<usize>()
}

#[test]
fn test_draw_lines_counts_edges() {
    let cfg = LayoutConfig::standard();
    let open: Board = [X, E, O, O, X, E, X, O, E];
    let tree = draw_boards(open, &cfg);
    let lines = draw_lines(&tree, &cfg);
    // One connector per parent and child pair, over the whole tree.
    assert_eq!(lines.len(), count_edges(&tree));
}

#[test]
fn test_draw_board_tiles() {
    let cfg = LayoutConfig::standard();
    let bd: Board = [E, O, X, E, X, E, X, O, E];
    let black = Rgb { r: 0, g: 0, b: 0 };
    let rects = draw_board(&bd, black, &cfg);
    assert_eq!(rects.len(), 10);
    assert_eq!(
        rects[0],
        CellRect { x: 0, y: 0, w: 256, h: 256, color: black },
    );
    // Cell 4 (middle) holds X: red square at one third of the tile, inset by
    // half the line width, sized a third of the tile less the line width.
    assert_eq!(
        rects[5],
        CellRect { x: 90, y: 90, w: 75, h: 75, color: Rgb { r: 255, g: 0, b: 0 } },
    );
    // Cell 1 holds O: green.
    assert_eq!(rects[2].color, Rgb { r: 0, g: 255, b: 0 });
    // Cell 0 is empty: white, at the tile's inset corner.
    assert_eq!(
        rects[1],
        CellRect { x: 5, y: 5, w: 75, h: 75, color: Rgb { r: 255, g: 255, b: 255 } },
    );
}
