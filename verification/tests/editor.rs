use space_qud::editor::{
    canvas_interact, edge_button_label, flood_fill_same_tile_type, grid_coord_to_canvas_index, grid_to_index, push_undo,
    selection_rect, undo_last, CanvasGridOrigin, Clipboard, ClipboardMode, ClipboardSource, EdgeAction, EdgeSide,
    EditorCanvas, EditorState, PointerInput, ToolMode, UndoStack, UNDO_LIMIT,
};
use space_qud::tile::Tile;

fn canvas(w: usize, h: usize) -> EditorCanvas {
    EditorCanvas { tiles: vec![vec![Tile::Grass; w]; h], objects: vec![vec![None; w]; h], markers: vec![vec![None; w]; h] }
}

fn state(tool: ToolMode) -> EditorState {
    EditorState {
        tool,
        selected_tile: Tile::Wall,
        selected_object: Some(3),
        drag_start: None,
        paste_drag_offset: None,
        clipboard: None,
        pattern_size: 5,
        output_mult: 1,
    }
}

fn click(pos: (usize, usize)) -> PointerInput {
    PointerInput { pressed: true, just_pressed: true, just_released: true, grid_pos: Some(pos) }
}

fn press(pos: (usize, usize)) -> PointerInput {
    PointerInput { pressed: true, just_pressed: true, just_released: false, grid_pos: Some(pos) }
}

fn release(pos: (usize, usize)) -> PointerInput {
    PointerInput { pressed: false, just_pressed: false, just_released: true, grid_pos: Some(pos) }
}

#[test]
fn canvas_size_and_ensure_size() {
    let mut c = canvas(3, 2);
    assert_eq!((c.width(), c.height()), (3, 2));
    c.tiles[1][2] = Tile::Wall;
    c.ensure_size(5, 1);
    assert_eq!((c.width(), c.height()), (5, 2));
    assert_eq!(c.tiles[1][2], Tile::Wall);
    assert_eq!(c.tiles[1][4], Tile::Grass);
    assert_eq!(c.markers[0].len(), 5);
    let mut empty = canvas(0, 0);
    empty.ensure_size(0, 0);
    assert_eq!((empty.width(), empty.height()), (1, 1));
}

#[test]
fn resize_exact_cuts_and_pads() {
    let mut c = canvas(4, 4);
    c.tiles[0][1] = Tile::Sand;
    c.tiles[3][3] = Tile::Wall;
    c.resize_exact(2, 6);
    assert_eq!((c.width(), c.height()), (2, 6));
    assert_eq!(c.tiles[0][1], Tile::Sand);
    assert_eq!(c.tiles[5], vec![Tile::Grass, Tile::Grass]);
    c.resize_exact(0, 0);
    assert_eq!((c.width(), c.height()), (1, 1));
}

#[test]
fn resize_edges_move_the_origin() {
    let mut c = canvas(2, 2);
    c.tiles[0][0] = Tile::Wall;
    let mut o = CanvasGridOrigin { x: 0, y: 0 };
    c.resize_edge(EdgeSide::Left, EdgeAction::Expand, &mut o);
    assert_eq!((c.width(), o), (3, CanvasGridOrigin { x: -1, y: 0 }));
    assert_eq!(c.tiles[0], vec![Tile::Grass, Tile::Wall, Tile::Grass]);
    c.resize_edge(EdgeSide::Top, EdgeAction::Expand, &mut o);
    assert_eq!((c.height(), o), (3, CanvasGridOrigin { x: -1, y: -1 }));
    c.resize_edge(EdgeSide::Bottom, EdgeAction::Contract, &mut o);
    c.resize_edge(EdgeSide::Right, EdgeAction::Contract, &mut o);
    assert_eq!((c.width(), c.height()), (2, 2));
    assert_eq!(c.tiles[1], vec![Tile::Grass, Tile::Wall]);
    let mut one = canvas(1, 1);
    one.resize_edge(EdgeSide::Left, EdgeAction::Contract, &mut o);
    one.resize_edge(EdgeSide::Top, EdgeAction::Contract, &mut o);
    assert_eq!((one.width(), one.height(), o), (1, 1, CanvasGridOrigin { x: -1, y: -1 }));
}

#[test]
fn expand_then_contract_restores() {
    for side in [EdgeSide::Left, EdgeSide::Right, EdgeSide::Top, EdgeSide::Bottom] {
        let mut c = canvas(3, 2);
        c.tiles[1][0] = Tile::Wall;
        c.markers[0][2] = Some("door".to_string());
        let mut o = CanvasGridOrigin { x: 4, y: -2 };
        c.resize_edge(side, EdgeAction::Expand, &mut o);
        c.resize_edge(side, EdgeAction::Contract, &mut o);
        assert_eq!(o, CanvasGridOrigin { x: 4, y: -2 });
        assert_eq!(c.tiles[1][0], Tile::Wall);
        assert_eq!(c.markers[0][2], Some("door".to_string()));
        assert_eq!((c.width(), c.height()), (3, 2));
    }
}

#[test]
fn bucket_fill_paints_the_connected_region() {
    let mut c = canvas(4, 3);
    for y in 0..3 {
        c.tiles[y][2] = Tile::Wall;
    }
    flood_fill_same_tile_type(&mut c, 0, 0, Tile::Grass, Tile::Sand, Some(1), Some("x".to_string()));
    for y in 0..3 {
        assert_eq!(c.tiles[y][0], Tile::Sand);
        assert_eq!(c.tiles[y][1], Tile::Sand);
        assert_eq!(c.tiles[y][2], Tile::Wall);
        assert_eq!(c.tiles[y][3], Tile::Grass);
        assert_eq!(c.objects[y][1], Some(1));
        assert_eq!(c.markers[y][0], Some("x".to_string()));
        assert_eq!(c.objects[y][3], None);
    }
    // Same paint as target, or a start of another tile: nothing happens.
    flood_fill_same_tile_type(&mut c, 3, 0, Tile::Grass, Tile::Grass, None, None);
    flood_fill_same_tile_type(&mut c, 2, 0, Tile::Grass, Tile::Road, None, None);
    assert_eq!(c.tiles[0][3], Tile::Grass);
    assert_eq!(c.tiles[0][2], Tile::Wall);
}

#[test]
fn rectangles_and_clipboard_sources() {
    assert_eq!(selection_rect((5, -1), (2, 3)), (2, -1, 5, 3));
    let s = ClipboardSource::from_points((5, -1), (2, 3));
    assert_eq!((s.x1, s.y1, s.x2, s.y2), (2, -1, 5, 3));
    assert_eq!(s.offset_from((4, 0)), Some((2, 1)));
    assert_eq!(s.offset_from((6, 0)), None);
    assert_eq!(s.top_left(), (2, -1));
}

#[test]
fn grid_indices_and_labels() {
    let o = CanvasGridOrigin { x: -2, y: 3 };
    assert_eq!(grid_to_index(0, 5, o), (2, 2));
    assert_eq!(grid_coord_to_canvas_index(0, 5, o, 3, 3), Some((2, 2)));
    assert_eq!(grid_coord_to_canvas_index(1, 5, o, 3, 3), None);
    assert_eq!(grid_coord_to_canvas_index(-3, 5, o, 3, 3), None);
    assert_eq!(edge_button_label(EdgeSide::Left, EdgeAction::Expand), "<");
    assert_eq!(edge_button_label(EdgeSide::Bottom, EdgeAction::Contract), "^");
    assert_eq!(ToolMode::RectOutline.name(), "Rect");
    assert_eq!(ToolMode::RectFill.name(), "Fill");
}

#[test]
fn undo_keeps_the_newest_fifty() {
    let mut c = canvas(2, 2);
    let mut undo = UndoStack(Vec::new());
    for i in 0..60 {
        c.objects[0][0] = Some(i as u8);
        push_undo(&c, CanvasGridOrigin { x: i, y: 0 }, &mut undo);
    }
    assert_eq!(undo.0.len(), UNDO_LIMIT);
    assert_eq!(undo.0[0].1[0][0], Some(10));
    assert_eq!(undo.0[49].3, CanvasGridOrigin { x: 59, y: 0 });
}

#[test]
fn undo_last_restores_and_grows() {
    let mut c = canvas(2, 1);
    c.tiles[0][1] = Tile::Wall;
    let mut undo = UndoStack(Vec::new());
    push_undo(&c, CanvasGridOrigin { x: 7, y: 8 }, &mut undo);
    c.tiles[0][1] = Tile::Sand;
    let mut o = CanvasGridOrigin { x: 0, y: 0 };
    assert!(undo_last(&mut c, &mut o, &mut undo, 3, 1));
    assert_eq!(c.tiles[0], vec![Tile::Grass, Tile::Wall, Tile::Grass]);
    assert_eq!(o, CanvasGridOrigin { x: 7, y: 8 });
    assert!(!undo_last(&mut c, &mut o, &mut undo, 3, 1));
}

#[test]
fn draw_tool_paints_and_records_once() {
    let mut st = state(ToolMode::Draw);
    let mut c = canvas(3, 3);
    let mut undo = UndoStack(Vec::new());
    let o = CanvasGridOrigin { x: 0, y: 0 };
    canvas_interact(&mut st, &mut c, o, &mut undo, press((1, 1)), &"m".to_string());
    let drag = PointerInput { pressed: true, just_pressed: false, just_released: false, grid_pos: Some((2, 1)) };
    canvas_interact(&mut st, &mut c, o, &mut undo, drag, &String::new());
    assert_eq!(undo.0.len(), 1);
    assert_eq!((c.tiles[1][1], c.objects[1][1]), (Tile::Wall, Some(3)));
    assert_eq!(c.markers[1][1], Some("m".to_string()));
    assert_eq!((c.tiles[1][2], c.markers[1][2].clone()), (Tile::Wall, None));
}

#[test]
fn bucket_tool_fills_region() {
    let mut st = state(ToolMode::Bucket);
    let mut c = canvas(3, 3);
    c.tiles[1] = vec![Tile::Road; 3];
    let mut undo = UndoStack(Vec::new());
    canvas_interact(&mut st, &mut c, CanvasGridOrigin { x: 0, y: 0 }, &mut undo, click((0, 0)), &String::new());
    assert_eq!(c.tiles[0], vec![Tile::Wall; 3]);
    assert_eq!(c.tiles[2], vec![Tile::Grass; 3]);
    assert_eq!(undo.0.len(), 1);
    // Clicking a cell already of the selected tile does nothing.
    canvas_interact(&mut st, &mut c, CanvasGridOrigin { x: 0, y: 0 }, &mut undo, click((0, 0)), &String::new());
    assert_eq!(undo.0.len(), 1);
}

#[test]
fn rect_tools_paint_outline_and_fill() {
    let o = CanvasGridOrigin { x: 10, y: 10 };
    let mut st = state(ToolMode::RectOutline);
    let mut c = canvas(4, 4);
    let mut undo = UndoStack(Vec::new());
    canvas_interact(&mut st, &mut c, o, &mut undo, press((0, 0)), &String::new());
    assert_eq!(st.drag_start, Some((10, 10)));
    canvas_interact(&mut st, &mut c, o, &mut undo, release((2, 2)), &String::new());
    assert_eq!(st.drag_start, None);
    assert_eq!(c.tiles[0][..3], [Tile::Wall; 3]);
    assert_eq!(c.tiles[1], vec![Tile::Wall, Tile::Grass, Tile::Wall, Tile::Grass]);
    let mut st = state(ToolMode::RectFill);
    let mut c = canvas(4, 4);
    canvas_interact(&mut st, &mut c, o, &mut undo, press((3, 3)), &String::new());
    canvas_interact(&mut st, &mut c, o, &mut undo, release((2, 2)), &String::new());
    assert_eq!(c.tiles[2][2..], [Tile::Wall; 2]);
    assert_eq!(c.tiles[3][2..], [Tile::Wall; 2]);
    assert_eq!(c.tiles[1][2], Tile::Grass);
}

#[test]
fn move_then_paste() {
    let o = CanvasGridOrigin { x: 0, y: 0 };
    let mut st = state(ToolMode::Move);
    let mut c = canvas(5, 5);
    c.tiles[0][0] = Tile::Sand;
    c.tiles[0][1] = Tile::Road;
    c.markers[0][1] = Some("r".to_string());
    let mut undo = UndoStack(Vec::new());
    canvas_interact(&mut st, &mut c, o, &mut undo, press((0, 0)), &String::new());
    canvas_interact(&mut st, &mut c, o, &mut undo, release((1, 0)), &String::new());
    assert_eq!(st.tool, ToolMode::Paste);
    let clip: &Clipboard = st.clipboard.as_ref().unwrap();
    assert_eq!(clip.tiles, vec![vec![Tile::Sand, Tile::Road]]);
    assert_eq!(clip.mode, ClipboardMode::Move);
    // Grab the clipboard by its second cell and drop it at (3, 2).
    canvas_interact(&mut st, &mut c, o, &mut undo, press((1, 0)), &String::new());
    assert_eq!(st.paste_drag_offset, Some((1, 0)));
    canvas_interact(&mut st, &mut c, o, &mut undo, release((3, 2)), &String::new());
    assert_eq!(st.tool, ToolMode::Draw);
    assert_eq!((c.tiles[0][0], c.tiles[0][1]), (Tile::Grass, Tile::Grass));
    assert_eq!(c.markers[0][1], None);
    assert_eq!((c.tiles[2][2], c.tiles[2][3]), (Tile::Sand, Tile::Road));
    assert_eq!(c.markers[2][3], Some("r".to_string()));
    assert_eq!(undo.0.len(), 1);
}

#[test]
fn paste_drops_cells_off_the_canvas() {
    let o = CanvasGridOrigin { x: 0, y: 0 };
    let mut c = canvas(3, 3);
    c.tiles[0][0] = Tile::Wall;
    let clip = c.copy_to_clipboard(o, ClipboardSource { x1: 0, y1: 0, x2: 1, y2: 1 }, ClipboardMode::Copy);
    c.paste_clipboard(o, &clip, (2, 2));
    assert_eq!(c.tiles[2][2], Tile::Wall);
    assert_eq!(c.tiles[0][0], Tile::Wall);
}
