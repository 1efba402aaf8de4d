//! The map editor's canvas: a grid of tiles with an optional object and marker on each cell,
//! placed on an unbounded grid at an origin, and the edits the editor makes to it.
use vstd::prelude::*;
use std::collections::VecDeque;
use crate::tile::Tile;
use crate::locations::cave_gen::dir4;
use crate::locations::planet_gen::{grid_shape, lemma_rect_bound, mark, nbr4, parents_ok, visited_at};

verus! {

/// The rows of a grid as sequences.
pub open spec fn rows_of<T>(rows: Seq<Vec<T>>) -> Seq<Seq<T>> {
    rows.map_values(|r: Vec<T>| r@)
}

/// `rows` has `h` rows of `w` cells.
pub open spec fn dims_ok<T>(rows: Seq<Vec<T>>, w: int, h: int) -> bool {
    &&& rows.len() == h
    &&& forall|y: int| 0 <= y < h ==> #[trigger] rows[y]@.len() == w
}

/// The grid `g` cut or padded to `h` rows of `w` cells, new cells holding `fill`.
pub open spec fn resized<T>(g: Seq<Seq<T>>, w: int, h: int, fill: T) -> Seq<Seq<T>> {
    Seq::new(h as nat, |y: int| Seq::new(w as nat, |x: int| if y < g.len() && x < g[y].len() { g[y][x] } else { fill }))
}

/// The editor's canvas: a tile, an optional object and an optional marker on every cell.
pub struct EditorCanvas {
    pub tiles: Vec<Vec<Tile>>,
    pub objects: Vec<Vec<Option<u8>>>,
    pub markers: Vec<Vec<Option<String>>>,
}

/// Where the canvas's top-left cell sits on the editor's grid.
#[derive(Clone, Copy, Debug, PartialEq, Eq, Structural)]
pub struct CanvasGridOrigin {
    pub x: i32,
    pub y: i32,
}

/// A grid of `h` rows of `w` copies of `fill`.
fn filled_rows<T: Copy>(w: usize, h: usize, fill: T) -> (r: Vec<Vec<T>>)
    ensures
        rows_of(r@) == Seq::new(h as nat, |y: int| Seq::new(w as nat, |x: int| fill)),
        dims_ok(r@, w as int, h as int),
{
    let mut r: Vec<Vec<T>> = Vec::new();
    let mut j: usize = 0;
    while j < h
        invariant
            j <= h,
            r@.len() == j,
            forall|y: int| 0 <= y < j ==> #[trigger] r@[y]@ == Seq::new(w as nat, |x: int| fill),
        decreases h - j,
    {
        let mut row: Vec<T> = Vec::new();
        let mut i: usize = 0;
        while i < w
            invariant
                i <= w,
                row@ == Seq::new(i as nat, |x: int| fill),
            decreases w - i,
        {
            row.push(fill);
            i = i + 1;
            assert(row@ =~= Seq::new(i as nat, |x: int| fill));
        }
        r.push(row);
        j = j + 1;
    }
    assert(rows_of(r@) =~= Seq::new(h as nat, |y: int| Seq::new(w as nat, |x: int| fill)));
    r
}

/// `rows` cut or padded to `h` rows of `w` cells, new cells holding `fill`.
fn resize_copy_rows<T: Copy>(rows: Vec<Vec<T>>, w: usize, h: usize, fill: T) -> (r: Vec<Vec<T>>)
    ensures
        rows_of(r@) == resized(rows_of(rows@), w as int, h as int, fill),
        dims_ok(r@, w as int, h as int),
{
    let ghost g = rows_of(rows@);
    let mut src = rows;
    let mut r: Vec<Vec<T>> = Vec::new();
    let mut j: usize = 0;
    while j < h
        invariant
            j <= h,
            r@.len() == j,
            src@.len() == rows_of(rows@).len(),
            g == rows_of(rows@),
            forall|y: int| j <= y < src@.len() ==> #[trigger] src@[y]@ == g[y],
            forall|y: int| 0 <= y < j ==> #[trigger] r@[y]@ == resized(g, w as int, h as int, fill)[y],
        decreases h - j,
    {
        let mut row: Vec<T> = Vec::new();
        if j < src.len() {
            let mut taken: Vec<T> = Vec::new();
            std::mem::swap(&mut taken, &mut src[j]);
            row = taken;
        }
        let ghost kept = row@;
        row.truncate(w);
        let mut i: usize = row.len();
        while i < w
            invariant
                i <= w,
                row@.len() == i,
                i >= (if kept.len() < w { kept.len() as int } else { w as int }),
                forall|x: int| 0 <= x < i ==> #[trigger] row@[x] == (if x < kept.len() { kept[x] } else { fill }),
            decreases w - i,
        {
            row.push(fill);
            i = i + 1;
        }
        assert(row@ =~= resized(g, w as int, h as int, fill)[j as int]);
        r.push(row);
        j = j + 1;
    }
    assert(rows_of(r@) =~= resized(g, w as int, h as int, fill));
    r
}

/// `rows` cut or padded to `h` rows of `w` cells, new cells empty.
fn resize_option_rows<U>(rows: Vec<Vec<Option<U>>>, w: usize, h: usize) -> (r: Vec<Vec<Option<U>>>)
    ensures
        rows_of(r@) == resized(rows_of(rows@), w as int, h as int, None),
        dims_ok(r@, w as int, h as int),
{
    let ghost g = rows_of(rows@);
    let mut src = rows;
    let mut r: Vec<Vec<Option<U>>> = Vec::new();
    let mut j: usize = 0;
    while j < h
        invariant
            j <= h,
            r@.len() == j,
            src@.len() == rows_of(rows@).len(),
            g == rows_of(rows@),
            forall|y: int| j <= y < src@.len() ==> #[trigger] src@[y]@ == g[y],
            forall|y: int| 0 <= y < j ==> #[trigger] r@[y]@ == resized(g, w as int, h as int, None)[y],
        decreases h - j,
    {
        let mut row: Vec<Option<U>> = Vec::new();
        if j < src.len() {
            let mut taken: Vec<Option<U>> = Vec::new();
            std::mem::swap(&mut taken, &mut src[j]);
            row = taken;
        }
        let ghost kept = row@;
        row.truncate(w);
        let mut i: usize = row.len();
        while i < w
            invariant
                i <= w,
                row@.len() == i,
                i >= (if kept.len() < w { kept.len() as int } else { w as int }),
                forall|x: int| 0 <= x < i ==> #[trigger] row@[x] == (if x < kept.len() { kept[x] } else { None }),
            decreases w - i,
        {
            row.push(None);
            i = i + 1;
        }
        assert(row@ =~= resized(g, w as int, h as int, None)[j as int]);
        r.push(row);
        j = j + 1;
    }
    assert(rows_of(r@) =~= resized(g, w as int, h as int, None));
    r
}

impl EditorCanvas {
    pub open spec fn spec_width(&self) -> int {
        if self.tiles@.len() > 0 { self.tiles@[0]@.len() as int } else { 0 }
    }

    pub open spec fn spec_height(&self) -> int {
        self.tiles@.len() as int
    }

    /// Every layer has the same rectangular shape.
    pub open spec fn wf(&self) -> bool {
        &&& dims_ok(self.tiles@, self.spec_width(), self.spec_height())
        &&& dims_ok(self.objects@, self.spec_width(), self.spec_height())
        &&& dims_ok(self.markers@, self.spec_width(), self.spec_height())
    }

    pub open spec fn tile_grid(&self) -> Seq<Seq<Tile>> {
        rows_of(self.tiles@)
    }

    pub open spec fn object_grid(&self) -> Seq<Seq<Option<u8>>> {
        rows_of(self.objects@)
    }

    pub open spec fn marker_grid(&self) -> Seq<Seq<Option<String>>> {
        rows_of(self.markers@)
    }

    /// The length of the first row (0 with no rows).
    pub fn width(&self) -> (w: usize)
        ensures
            w == self.spec_width(),
    {
        if self.tiles.len() > 0 { self.tiles[0].len() } else { 0 }
    }

    pub fn height(&self) -> (h: usize)
        ensures
            h == self.spec_height(),
    {
        self.tiles.len()
    }

    /// Every layer cut or padded to `h` rows of `w` cells; new cells are grass, empty of objects
    /// and markers.
    fn resize_layers(&mut self, w: usize, h: usize)
        ensures
            final(self).tile_grid() == resized(old(self).tile_grid(), w as int, h as int, Tile::Grass),
            final(self).object_grid() == resized(old(self).object_grid(), w as int, h as int, None),
            final(self).marker_grid() == resized(old(self).marker_grid(), w as int, h as int, None),
            dims_ok(final(self).tiles@, w as int, h as int),
            dims_ok(final(self).objects@, w as int, h as int),
            dims_ok(final(self).markers@, w as int, h as int),
    {
        let mut tiles: Vec<Vec<Tile>> = Vec::new();
        std::mem::swap(&mut tiles, &mut self.tiles);
        self.tiles = resize_copy_rows(tiles, w, h, Tile::Grass);
        let mut objects: Vec<Vec<Option<u8>>> = Vec::new();
        std::mem::swap(&mut objects, &mut self.objects);
        self.objects = resize_option_rows(objects, w, h);
        let mut markers: Vec<Vec<Option<String>>> = Vec::new();
        std::mem::swap(&mut markers, &mut self.markers);
        self.markers = resize_option_rows(markers, w, h);
    }

    /// Grows the canvas to at least `min_width` by `min_height` (and at least one cell), keeping
    /// every cell; new cells are grass, empty of objects and markers.
    pub fn ensure_size(&mut self, min_width: usize, min_height: usize)
        requires
            old(self).wf(),
        ensures
            final(self).wf(),
            ({
                let tw = vstd::math::max(vstd::math::max(old(self).spec_width(), min_width as int), 1);
                let th = vstd::math::max(vstd::math::max(old(self).spec_height(), min_height as int), 1);
                &&& final(self).spec_width() == tw
                &&& final(self).spec_height() == th
                &&& final(self).tile_grid() == resized(old(self).tile_grid(), tw, th, Tile::Grass)
                &&& final(self).object_grid() == resized(old(self).object_grid(), tw, th, None)
                &&& final(self).marker_grid() == resized(old(self).marker_grid(), tw, th, None)
            }),
    {
        let width = self.width();
        let height = self.height();
        let tw = if width > min_width { width } else { min_width };
        let tw = if tw > 1 { tw } else { 1 };
        let th = if height > min_height { height } else { min_height };
        let th = if th > 1 { th } else { 1 };
        self.resize_layers(tw, th);
    }

    /// Cuts or pads the canvas to exactly `width` by `height` cells (at least one each); new
    /// cells are grass, empty of objects and markers.
    pub fn resize_exact(&mut self, width: usize, height: usize)
        ensures
            final(self).wf(),
            ({
                let tw = vstd::math::max(width as int, 1);
                let th = vstd::math::max(height as int, 1);
                &&& final(self).spec_width() == tw
                &&& final(self).spec_height() == th
                &&& final(self).tile_grid() == resized(old(self).tile_grid(), tw, th, Tile::Grass)
                &&& final(self).object_grid() == resized(old(self).object_grid(), tw, th, None)
                &&& final(self).marker_grid() == resized(old(self).marker_grid(), tw, th, None)
            }),
    {
        let tw = if width > 1 { width } else { 1 };
        let th = if height > 1 { height } else { 1 };
        self.resize_layers(tw, th);
    }
}

/// A side of the canvas.
#[derive(Clone, Copy, Debug, PartialEq, Eq, Structural)]
pub enum EdgeSide {
    Left,
    Right,
    Top,
    Bottom,
}

/// Growing or shrinking the canvas by one row or column.
#[derive(Clone, Copy, Debug, PartialEq, Eq, Structural)]
pub enum EdgeAction {
    Expand,
    Contract,
}

/// An edit applied to each row.
#[derive(Clone, Copy, Debug, PartialEq, Eq, Structural)]
pub enum RowEdit {
    PushFront,
    PushBack,
    PopFront,
    PopBack,
}

pub open spec fn row_edited<T>(row: Seq<T>, edit: RowEdit, fill: T) -> Seq<T> {
    match edit {
        RowEdit::PushFront => seq![fill] + row,
        RowEdit::PushBack => row.push(fill),
        RowEdit::PopFront => row.drop_first(),
        RowEdit::PopBack => row.drop_last(),
    }
}

/// Applies `edit` to every row; pushes take their cells from `fills`, all equal to `fill`.
fn edit_rows<T>(rows: Vec<Vec<T>>, fills: Vec<T>, edit: RowEdit, Ghost(fill): Ghost<T>) -> (r: Vec<Vec<T>>)
    requires
        (edit == RowEdit::PushFront || edit == RowEdit::PushBack) ==> fills@.len() == rows@.len(),
        forall|i: int| 0 <= i < fills@.len() ==> #[trigger] fills@[i] == fill,
        (edit == RowEdit::PopFront || edit == RowEdit::PopBack) ==> forall|y: int| 0 <= y < rows@.len() ==> #[trigger] rows@[y]@.len() > 0,
    ensures
        rows_of(r@) == rows_of(rows@).map_values(|row: Seq<T>| row_edited(row, edit, fill)),
        r@.len() == rows@.len(),
{
    let ghost orig = rows@;
    let mut src = rows;
    let mut fills = fills;
    let mut r: Vec<Vec<T>> = Vec::new();
    let mut j: usize = 0;
    while j < src.len()
        invariant
            j <= src@.len(),
            src@.len() == orig.len(),
            (edit == RowEdit::PushFront || edit == RowEdit::PushBack) ==> fills@.len() == src@.len() - j,
            forall|i: int| 0 <= i < fills@.len() ==> #[trigger] fills@[i] == fill,
            (edit == RowEdit::PopFront || edit == RowEdit::PopBack) ==> forall|y: int| 0 <= y < orig.len() ==> #[trigger] orig[y]@.len() > 0,
            forall|y: int| j <= y < src@.len() ==> #[trigger] src@[y] == orig[y],
            r@.len() == j,
            forall|y: int| 0 <= y < j ==> #[trigger] r@[y]@ == row_edited(orig[y]@, edit, fill),
        decreases src@.len() - j,
    {
        let mut row: Vec<T> = Vec::new();
        std::mem::swap(&mut row, &mut src[j]);
        match edit {
            RowEdit::PushFront => {
                let v = fills.pop().unwrap();
                row.insert(0, v);
                assert(row@ =~= seq![fill] + orig[j as int]@);
            },
            RowEdit::PushBack => {
                let v = fills.pop().unwrap();
                row.push(v);
            },
            RowEdit::PopFront => {
                row.remove(0);
                assert(row@ =~= orig[j as int]@.drop_first());
            },
            RowEdit::PopBack => {
                row.pop();
            },
        }
        r.push(row);
        j = j + 1;
    }
    assert(rows_of(r@) =~= rows_of(orig).map_values(|row: Seq<T>| row_edited(row, edit, fill)));
    r
}

/// `n` copies of `v`.
fn copies<T: Copy>(n: usize, v: T) -> (r: Vec<T>)
    ensures
        r@ == Seq::new(n as nat, |i: int| v),
{
    let mut r: Vec<T> = Vec::new();
    let mut i: usize = 0;
    while i < n
        invariant
            i <= n,
            r@ == Seq::new(i as nat, |k: int| v),
        decreases n - i,
    {
        r.push(v);
        i = i + 1;
        assert(r@ =~= Seq::new(i as nat, |k: int| v));
    }
    r
}

/// `n` empty cells.
fn nones<U>(n: usize) -> (r: Vec<Option<U>>)
    ensures
        r@ == Seq::new(n as nat, |i: int| None::<U>),
{
    let mut r: Vec<Option<U>> = Vec::new();
    let mut i: usize = 0;
    while i < n
        invariant
            i <= n,
            r@ == Seq::new(i as nat, |k: int| None::<U>),
        decreases n - i,
    {
        r.push(None);
        i = i + 1;
        assert(r@ =~= Seq::new(i as nat, |k: int| None::<U>));
    }
    r
}

/// One layer of a `w` by `h` canvas after growing or shrinking it at `side`: a new column or
/// row of `fill`, or one taken away when more than one is left.
pub open spec fn edge_resized<T>(g: Seq<Seq<T>>, side: EdgeSide, action: EdgeAction, w: int, h: int, fill: T) -> Seq<Seq<T>> {
    match action {
        EdgeAction::Expand => match side {
            EdgeSide::Left => g.map_values(|r: Seq<T>| seq![fill] + r),
            EdgeSide::Right => g.map_values(|r: Seq<T>| r.push(fill)),
            EdgeSide::Top => seq![Seq::new(w as nat, |x: int| fill)] + g,
            EdgeSide::Bottom => g.push(Seq::new(w as nat, |x: int| fill)),
        },
        EdgeAction::Contract => match side {
            EdgeSide::Left => if w > 1 { g.map_values(|r: Seq<T>| r.drop_first()) } else { g },
            EdgeSide::Right => if w > 1 { g.map_values(|r: Seq<T>| r.drop_last()) } else { g },
            EdgeSide::Top => if h > 1 { g.drop_first() } else { g },
            EdgeSide::Bottom => if h > 1 { g.drop_last() } else { g },
        },
    }
}

/// The canvas's width and height after the resize (a column added to no rows adds no width).
pub open spec fn dims_after(side: EdgeSide, action: EdgeAction, w: int, h: int) -> (int, int) {
    match action {
        EdgeAction::Expand => match side {
            EdgeSide::Left | EdgeSide::Right => (if h > 0 { w + 1 } else { w }, h),
            EdgeSide::Top | EdgeSide::Bottom => (w, h + 1),
        },
        EdgeAction::Contract => match side {
            EdgeSide::Left | EdgeSide::Right => (if w > 1 { w - 1 } else { w }, h),
            EdgeSide::Top | EdgeSide::Bottom => (w, if h > 1 { h - 1 } else { h }),
        },
    }
}

/// The origin moves with the left and top edges.
pub open spec fn origin_after(o: CanvasGridOrigin, side: EdgeSide, action: EdgeAction, w: int, h: int) -> CanvasGridOrigin {
    match action {
        EdgeAction::Expand => match side {
            EdgeSide::Left => CanvasGridOrigin { x: (o.x - 1) as i32, y: o.y },
            EdgeSide::Top => CanvasGridOrigin { x: o.x, y: (o.y - 1) as i32 },
            _ => o,
        },
        EdgeAction::Contract => match side {
            EdgeSide::Left => if w > 1 { CanvasGridOrigin { x: (o.x + 1) as i32, y: o.y } } else { o },
            EdgeSide::Top => if h > 1 { CanvasGridOrigin { x: o.x, y: (o.y + 1) as i32 } } else { o },
            _ => o,
        },
    }
}

impl EditorCanvas {
    /// Applies `edit` to every row of every layer; pushed cells are grass, empty of objects and
    /// markers.
    fn edit_layers(&mut self, edit: RowEdit)
        requires
            old(self).wf(),
            (edit == RowEdit::PopFront || edit == RowEdit::PopBack) ==> old(self).spec_width() > 0,
        ensures
            final(self).tile_grid() == old(self).tile_grid().map_values(|row: Seq<Tile>| row_edited(row, edit, Tile::Grass)),
            final(self).object_grid() == old(self).object_grid().map_values(|row: Seq<Option<u8>>| row_edited(row, edit, None)),
            final(self).marker_grid() == old(self).marker_grid().map_values(|row: Seq<Option<String>>| row_edited(row, edit, None)),
            final(self).tiles@.len() == old(self).tiles@.len(),
            final(self).objects@.len() == old(self).objects@.len(),
            final(self).markers@.len() == old(self).markers@.len(),
    {
        let n = self.tiles.len();
        let push = match edit {
            RowEdit::PushFront | RowEdit::PushBack => true,
            _ => false,
        };
        let k = if push { n } else { 0 };
        let mut tiles: Vec<Vec<Tile>> = Vec::new();
        std::mem::swap(&mut tiles, &mut self.tiles);
        self.tiles = edit_rows(tiles, copies(k, Tile::Grass), edit, Ghost(Tile::Grass));
        let mut objects: Vec<Vec<Option<u8>>> = Vec::new();
        std::mem::swap(&mut objects, &mut self.objects);
        self.objects = edit_rows(objects, nones(k), edit, Ghost(None));
        let mut markers: Vec<Vec<Option<String>>> = Vec::new();
        std::mem::swap(&mut markers, &mut self.markers);
        self.markers = edit_rows(markers, nones(k), edit, Ghost(None));
    }

    /// Grows or shrinks the canvas by one column or row at `side`, moving the origin with the
    /// left and top edges. Grown cells are grass, empty of objects and markers; a canvas one cell
    /// wide (or high) does not shrink further.
    #[verifier::spinoff_prover]
    pub fn resize_edge(&mut self, side: EdgeSide, action: EdgeAction, origin: &mut CanvasGridOrigin)
        requires
            old(self).wf(),
            i32::MIN < old(origin).x < i32::MAX,
            i32::MIN < old(origin).y < i32::MAX,
        ensures
            final(self).wf(),
            ({
                let w = old(self).spec_width();
                let h = old(self).spec_height();
                &&& (final(self).spec_width(), final(self).spec_height()) == dims_after(side, action, w, h)
                &&& final(self).tile_grid() == edge_resized(old(self).tile_grid(), side, action, w, h, Tile::Grass)
                &&& final(self).object_grid() == edge_resized(old(self).object_grid(), side, action, w, h, None)
                &&& final(self).marker_grid() == edge_resized(old(self).marker_grid(), side, action, w, h, None)
                &&& *final(origin) == origin_after(*old(origin), side, action, w, h)
            }),
    {
        let width = self.width();
        let height = self.height();
        let ghost w = width as int;
        let ghost h = height as int;
        let ghost t0 = self.tile_grid();
        let ghost o0 = self.object_grid();
        let ghost m0 = self.marker_grid();
        match action {
            EdgeAction::Expand => match side {
                EdgeSide::Left => {
                    self.edit_layers(RowEdit::PushFront);
                    origin.x = origin.x - 1;
                },
                EdgeSide::Right => {
                    self.edit_layers(RowEdit::PushBack);
                },
                EdgeSide::Top => {
                    self.tiles.insert(0, copies(width, Tile::Grass));
                    self.objects.insert(0, nones(width));
                    self.markers.insert(0, nones(width));
                    origin.y = origin.y - 1;
                },
                EdgeSide::Bottom => {
                    self.tiles.push(copies(width, Tile::Grass));
                    self.objects.push(nones(width));
                    self.markers.push(nones(width));
                },
            },
            EdgeAction::Contract => match side {
                EdgeSide::Left => {
                    if width > 1 {
                        self.edit_layers(RowEdit::PopFront);
                        origin.x = origin.x + 1;
                    }
                },
                EdgeSide::Right => {
                    if width > 1 {
                        self.edit_layers(RowEdit::PopBack);
                    }
                },
                EdgeSide::Top => {
                    if height > 1 {
                        self.tiles.remove(0);
                        self.objects.remove(0);
                        self.markers.remove(0);
                        origin.y = origin.y + 1;
                    }
                },
                EdgeSide::Bottom => {
                    if height > 1 {
                        self.tiles.pop();
                        self.objects.pop();
                        self.markers.pop();
                    }
                },
            },
        }
        proof {
            assert(self.tile_grid() =~= edge_resized(t0, side, action, w, h, Tile::Grass));
            assert(self.object_grid() =~= edge_resized(o0, side, action, w, h, None));
            assert(self.marker_grid() =~= edge_resized(m0, side, action, w, h, None));
            lemma_rows_dims(old(self).tiles@, w, h);
            lemma_rows_dims(old(self).objects@, w, h);
            lemma_rows_dims(old(self).markers@, w, h);
            lemma_edge_dims(t0, side, action, w, h, Tile::Grass);
            lemma_edge_dims(o0, side, action, w, h, None);
            lemma_edge_dims(m0, side, action, w, h, None);
            let d = dims_after(side, action, w, h);
            lemma_rows_dims_back(self.tiles@, d.0, d.1);
            lemma_rows_dims_back(self.objects@, d.0, d.1);
            lemma_rows_dims_back(self.markers@, d.0, d.1);
            if d.1 > 0 {
                assert(self.tiles@[0]@.len() == d.0);
            }
        }
    }
}

/// A grid's rows have the lengths of the rows of its view.
proof fn lemma_rows_dims<T>(rows: Seq<Vec<T>>, w: int, h: int)
    requires
        dims_ok(rows, w, h),
    ensures
        rows_of(rows).len() == h,
        forall|y: int| 0 <= y < h ==> #[trigger] rows_of(rows)[y].len() == w,
{
}

proof fn lemma_rows_dims_back<T>(rows: Seq<Vec<T>>, w: int, h: int)
    requires
        rows_of(rows).len() == h,
        forall|y: int| 0 <= y < h ==> #[trigger] rows_of(rows)[y].len() == w,
    ensures
        dims_ok(rows, w, h),
{
    assert forall|y: int| 0 <= y < h implies #[trigger] rows[y]@.len() == w by {
        assert(rows_of(rows)[y] == rows[y]@);
    }
}

/// A resized layer has the dimensions `dims_after` gives.
proof fn lemma_edge_dims<T>(g: Seq<Seq<T>>, side: EdgeSide, action: EdgeAction, w: int, h: int, fill: T)
    requires
        g.len() == h,
        forall|y: int| 0 <= y < h ==> #[trigger] g[y].len() == w,
        h == 0 ==> w == 0,
        w >= 0,
    ensures
        edge_resized(g, side, action, w, h, fill).len() == dims_after(side, action, w, h).1,
        forall|y: int| 0 <= y < dims_after(side, action, w, h).1
            ==> #[trigger] edge_resized(g, side, action, w, h, fill)[y].len() == dims_after(side, action, w, h).0,
{
    let r = edge_resized(g, side, action, w, h, fill);
    let d = dims_after(side, action, w, h);
    assert forall|y: int| 0 <= y < d.1 implies #[trigger] r[y].len() == d.0 by {
        match action {
            EdgeAction::Expand => match side {
                EdgeSide::Top => {
                    if y > 0 {
                        assert(r[y] == g[y - 1]);
                    }
                },
                EdgeSide::Bottom => {
                    if y < h {
                        assert(r[y] == g[y]);
                    }
                },
                _ => {},
            },
            EdgeAction::Contract => match side {
                EdgeSide::Top => {
                    if h > 1 {
                        assert(r[y] == g[y + 1]);
                    }
                },
                EdgeSide::Bottom => {
                    if h > 1 {
                        assert(r[y] == g[y]);
                    }
                },
                _ => {},
            },
        }
    }
}

/// Growing a canvas of at least one cell at a side and then shrinking it at the same side gives
/// back every layer, the size and the origin.
pub proof fn law_expand_then_contract<T>(g: Seq<Seq<T>>, side: EdgeSide, w: int, h: int, fill: T, o: CanvasGridOrigin)
    requires
        g.len() == h,
        forall|y: int| 0 <= y < h ==> #[trigger] g[y].len() == w,
        w >= 1,
        h >= 1,
        i32::MIN < o.x < i32::MAX,
        i32::MIN < o.y < i32::MAX,
    ensures
        ({
            let d = dims_after(side, EdgeAction::Expand, w, h);
            &&& edge_resized(edge_resized(g, side, EdgeAction::Expand, w, h, fill), side, EdgeAction::Contract, d.0, d.1, fill) == g
            &&& dims_after(side, EdgeAction::Contract, d.0, d.1) == (w, h)
            &&& origin_after(origin_after(o, side, EdgeAction::Expand, w, h), side, EdgeAction::Contract, d.0, d.1) == o
        }),
{
    let d = dims_after(side, EdgeAction::Expand, w, h);
    let e = edge_resized(g, side, EdgeAction::Expand, w, h, fill);
    let c = edge_resized(e, side, EdgeAction::Contract, d.0, d.1, fill);
    match side {
        EdgeSide::Left => {
            assert forall|y: int| 0 <= y < h implies #[trigger] c[y] == g[y] by {
                assert((seq![fill] + g[y]).drop_first() =~= g[y]);
            }
        },
        EdgeSide::Right => {
            assert forall|y: int| 0 <= y < h implies #[trigger] c[y] == g[y] by {
                assert(g[y].push(fill).drop_last() =~= g[y]);
            }
        },
        EdgeSide::Top => {
            assert((seq![Seq::new(w as nat, |x: int| fill)] + g).drop_first() =~= g);
        },
        EdgeSide::Bottom => {
            assert(g.push(Seq::new(w as nat, |x: int| fill)).drop_last() =~= g);
        },
    }
    assert(c =~= g);
}

/// The cell `c` of `g` holds `target`.
pub open spec fn cell_is(g: Seq<Seq<Tile>>, target: Tile, c: (int, int)) -> bool {
    0 <= c.1 < g.len() && 0 <= c.0 < g[c.1].len() && g[c.1][c.0] == target
}

/// `lab` labels the whole 4-connected region of `target` cells around `root`: the root at 0,
/// every other cell one more than a neighbour's label, and every `target` neighbour of a labelled
/// cell labelled too.
pub open spec fn region_ok(g: Seq<Seq<Tile>>, target: Tile, lab: Map<(int, int), nat>, root: (int, int)) -> bool {
    &&& lab.dom().finite()
    &&& parents_ok(lab, root)
    &&& forall|c: (int, int)| #[trigger] lab.dom().contains(c) ==> cell_is(g, target, c)
    &&& forall|c: (int, int), k: int| lab.dom().contains(c) && 0 <= k < 4 && cell_is(g, target, #[trigger] nbr4(c, k))
        ==> lab.dom().contains(nbr4(c, k))
}

/// `g` with every cell of `region` set to `v`.
pub open spec fn painted<T>(g: Seq<Seq<T>>, region: Set<(int, int)>, v: T) -> Seq<Seq<T>> {
    Seq::new(g.len(), |y: int| Seq::new(g[y].len(), |x: int| if region.contains((x, y)) { v } else { g[y][x] }))
}

pub open spec fn queue_has(queue: Seq<(usize, usize)>, c: (int, int)) -> bool {
    exists|i: int| 0 <= i < queue.len() && #[trigger] queue[i] == (c.0 as usize, c.1 as usize)
}

/// Every `target` neighbour of `c` is labelled.
pub open spec fn fill_closed(g: Seq<Seq<Tile>>, target: Tile, lab: Map<(int, int), nat>, c: (int, int)) -> bool {
    forall|k: int| 0 <= k < 4 && #[trigger] cell_is(g, target, nbr4(c, k)) ==> lab.dom().contains(nbr4(c, k))
}

/// A bucket fill in progress over the `w` by `h` grid `g`: the marks are the labelled cells,
/// all of them `target` cells reached from `root`; each is queued or has its neighbours labelled
/// (but `except`, the cell being expanded).
pub closed spec fn fill_inv(g: Seq<Seq<Tile>>, target: Tile, w: int, h: int, seen: Seq<Vec<bool>>, lab: Map<(int, int), nat>,
    queue: Seq<(usize, usize)>, root: (int, int), except: Option<(int, int)>) -> bool {
    &&& w <= usize::MAX
    &&& h <= usize::MAX
    &&& g.len() == h
    &&& forall|y: int| 0 <= y < h ==> #[trigger] g[y].len() == w
    &&& grid_shape(seen, w, h)
    &&& forall|c: (int, int)| #[trigger] visited_at(seen, c) == lab.dom().contains(c)
    &&& lab.dom().finite()
    &&& forall|c: (int, int)| #[trigger] lab.dom().contains(c) ==> 0 <= c.0 < w && 0 <= c.1 < h && cell_is(g, target, c)
    &&& parents_ok(lab, root)
    &&& forall|i: int| 0 <= i < queue.len() ==> lab.dom().contains(((#[trigger] queue[i]).0 as int, queue[i].1 as int))
    &&& forall|c: (int, int)| #[trigger] lab.dom().contains(c) ==> Some(c) == except || queue_has(queue, c) || fill_closed(g, target, lab, c)
}

proof fn lemma_fill_facts(g: Seq<Seq<Tile>>, target: Tile, w: int, h: int, seen: Seq<Vec<bool>>, lab: Map<(int, int), nat>,
    queue: Seq<(usize, usize)>, root: (int, int), except: Option<(int, int)>)
    requires
        fill_inv(g, target, w, h, seen, lab, queue, root, except),
        w > 0,
    ensures
        grid_shape(seen, w, h),
        lab.dom().finite(),
        lab.dom().len() <= w * h,
        forall|c: (int, int)| #[trigger] visited_at(seen, c) == lab.dom().contains(c),
        forall|i: int| 0 <= i < queue.len() ==> lab.dom().contains(((#[trigger] queue[i]).0 as int, queue[i].1 as int)),
        forall|c: (int, int)| #[trigger] lab.dom().contains(c) ==> 0 <= c.0 < w && 0 <= c.1 < h && cell_is(g, target, c),
{
    reveal(fill_inv);
    lemma_rect_bound(w, h, lab.dom());
}

proof fn lemma_fill_start(g: Seq<Seq<Tile>>, target: Tile, w: int, h: int, seen0: Seq<Vec<bool>>, seen: Seq<Vec<bool>>, root: (int, int))
    requires
        g.len() == h,
        forall|y: int| 0 <= y < h ==> #[trigger] g[y].len() == w,
        grid_shape(seen, w, h),
        forall|c: (int, int)| !#[trigger] visited_at(seen0, c),
        forall|c: (int, int)| #[trigger] visited_at(seen, c) == (visited_at(seen0, c) || c == root),
        0 <= root.0 < w <= usize::MAX,
        0 <= root.1 < h <= usize::MAX,
        cell_is(g, target, root),
    ensures
        fill_inv(g, target, w, h, seen, map![root => 0nat], seq![(root.0 as usize, root.1 as usize)], root, None),
{
    reveal(fill_inv);
    let lab = map![root => 0nat];
    let queue = seq![(root.0 as usize, root.1 as usize)];
    assert(lab.dom() =~= set![root]);
    assert forall|c: (int, int)| #[trigger] lab.dom().contains(c) implies Some(c) == None::<(int, int)> || queue_has(queue, c) || fill_closed(g, target, lab, c) by {
        assert(queue[0] == (c.0 as usize, c.1 as usize));
    }
}

/// Taking the head of the queue leaves it to be expanded.
#[verifier::spinoff_prover]
proof fn lemma_fill_pop(g: Seq<Seq<Tile>>, target: Tile, w: int, h: int, seen: Seq<Vec<bool>>, lab: Map<(int, int), nat>,
    queue: Seq<(usize, usize)>, root: (int, int))
    requires
        fill_inv(g, target, w, h, seen, lab, queue, root, None),
        queue.len() > 0,
    ensures
        fill_inv(g, target, w, h, seen, lab, queue.drop_first(), root, Some((queue[0].0 as int, queue[0].1 as int))),
        lab.dom().contains((queue[0].0 as int, queue[0].1 as int)),
{
    reveal(fill_inv);
    let q2 = queue.drop_first();
    let c0 = (queue[0].0 as int, queue[0].1 as int);
    assert(lab.dom().contains(c0));
    assert forall|i: int| 0 <= i < q2.len() implies lab.dom().contains(((#[trigger] q2[i]).0 as int, q2[i].1 as int)) by {
        assert(q2[i] == queue[i + 1]);
    }
    assert forall|c: (int, int)| #[trigger] lab.dom().contains(c) implies Some(c) == Some(c0) || queue_has(q2, c) || fill_closed(g, target, lab, c) by {
        if queue_has(queue, c) && c != c0 {
            let i = choose|i: int| 0 <= i < queue.len() && #[trigger] queue[i] == (c.0 as usize, c.1 as usize);
            assert(0 <= c.0 < w && 0 <= c.1 < h);
            if i == 0 {
                assert(c == c0);
            } else {
                assert(q2[i - 1] == queue[i]);
            }
        }
    }
}

/// Labelling and queueing the unlabelled `target` neighbour `n` of the labelled cell `cur`.
#[verifier::spinoff_prover]
proof fn lemma_fill_visit(g: Seq<Seq<Tile>>, target: Tile, w: int, h: int, seen: Seq<Vec<bool>>, lab: Map<(int, int), nat>,
    queue: Seq<(usize, usize)>, root: (int, int), cur: (int, int), k: int, seen2: Seq<Vec<bool>>)
    requires
        fill_inv(g, target, w, h, seen, lab, queue, root, Some(cur)),
        lab.dom().contains(cur),
        0 <= k < 4,
        cell_is(g, target, nbr4(cur, k)),
        !visited_at(seen, nbr4(cur, k)),
        grid_shape(seen2, w, h),
        forall|c: (int, int)| #[trigger] visited_at(seen2, c) == (visited_at(seen, c) || c == nbr4(cur, k)),
    ensures
        fill_inv(g, target, w, h, seen2, lab.insert(nbr4(cur, k), lab[cur] + 1),
            queue.push((nbr4(cur, k).0 as usize, nbr4(cur, k).1 as usize)), root, Some(cur)),
        !lab.dom().contains(nbr4(cur, k)),
{
    reveal(fill_inv);
    let n = nbr4(cur, k);
    let lab2 = lab.insert(n, lab[cur] + 1);
    let q2 = queue.push((n.0 as usize, n.1 as usize));
    crate::locations::planet_gen::lemma_parents_insert(lab, root, cur, k);
    assert forall|i: int| 0 <= i < q2.len() implies lab2.dom().contains(((#[trigger] q2[i]).0 as int, q2[i].1 as int)) by {
        if i < queue.len() {
            assert(q2[i] == queue[i]);
        }
    }
    assert forall|c: (int, int)| #[trigger] lab2.dom().contains(c) implies Some(c) == Some(cur) || queue_has(q2, c) || fill_closed(g, target, lab2, c) by {
        if c == n {
            assert(q2[queue.len() as int] == (c.0 as usize, c.1 as usize));
        } else if queue_has(queue, c) {
            let i = choose|i: int| 0 <= i < queue.len() && #[trigger] queue[i] == (c.0 as usize, c.1 as usize);
            assert(q2[i] == queue[i]);
        } else if c != cur {
            assert(fill_closed(g, target, lab, c));
            assert forall|j: int| 0 <= j < 4 && #[trigger] cell_is(g, target, nbr4(c, j)) implies lab2.dom().contains(nbr4(c, j)) by {}
        }
    }
}

/// A cell whose `target` neighbours are all labelled stops being the exception.
proof fn lemma_fill_close(g: Seq<Seq<Tile>>, target: Tile, w: int, h: int, seen: Seq<Vec<bool>>, lab: Map<(int, int), nat>,
    queue: Seq<(usize, usize)>, root: (int, int), cur: (int, int))
    requires
        fill_inv(g, target, w, h, seen, lab, queue, root, Some(cur)),
        fill_closed(g, target, lab, cur),
    ensures
        fill_inv(g, target, w, h, seen, lab, queue, root, None),
{
    reveal(fill_inv);
}

/// With the queue empty, the labels cover the whole region.
proof fn lemma_fill_done(g: Seq<Seq<Tile>>, target: Tile, w: int, h: int, seen: Seq<Vec<bool>>, lab: Map<(int, int), nat>,
    queue: Seq<(usize, usize)>, root: (int, int))
    requires
        fill_inv(g, target, w, h, seen, lab, queue, root, None),
        queue.len() == 0,
    ensures
        region_ok(g, target, lab, root),
{
    reveal(fill_inv);
    assert forall|c: (int, int), k: int| lab.dom().contains(c) && 0 <= k < 4 && cell_is(g, target, #[trigger] nbr4(c, k))
        implies lab.dom().contains(nbr4(c, k)) by {
        assert(fill_closed(g, target, lab, c));
    }
}

proof fn lemma_painted_insert<T>(g: Seq<Seq<T>>, region: Set<(int, int)>, v: T, x: int, y: int)
    requires
        0 <= y < g.len(),
        0 <= x < g[y].len(),
    ensures
        painted(g, region.insert((x, y)), v) == painted(g, region, v).update(y, painted(g, region, v)[y].update(x, v)),
{
    let a = painted(g, region.insert((x, y)), v);
    let b = painted(g, region, v).update(y, painted(g, region, v)[y].update(x, v));
    assert forall|r: int| 0 <= r < g.len() implies #[trigger] a[r] == b[r] by {
        assert(a[r] =~= b[r]);
    }
    assert(a =~= b);
}

proof fn lemma_painted_empty<T>(g: Seq<Seq<T>>, v: T)
    ensures
        painted(g, Set::empty(), v) == g,
{
    let a = painted(g, Set::empty(), v);
    assert forall|r: int| 0 <= r < g.len() implies #[trigger] a[r] == g[r] by {
        assert(a[r] =~= g[r]);
    }
    assert(a =~= g);
}

/// A copy of the marker.
fn copy_marker(m: &Option<String>) -> (r: Option<String>)
    ensures
        r == *m,
{
    match m {
        Some(s) => Some(s.clone()),
        None => None,
    }
}

impl EditorCanvas {
    /// Paints the cell `(x, y)` on every layer.
    fn paint_cell(&mut self, x: usize, y: usize, tile: Tile, obj: Option<u8>, marker: &Option<String>)
        requires
            old(self).wf(),
            x < old(self).spec_width(),
            y < old(self).spec_height(),
        ensures
            final(self).wf(),
            final(self).spec_width() == old(self).spec_width(),
            final(self).spec_height() == old(self).spec_height(),
            final(self).tile_grid() == old(self).tile_grid().update(y as int, old(self).tile_grid()[y as int].update(x as int, tile)),
            final(self).object_grid() == old(self).object_grid().update(y as int, old(self).object_grid()[y as int].update(x as int, obj)),
            final(self).marker_grid() == old(self).marker_grid().update(y as int, old(self).marker_grid()[y as int].update(x as int, *marker)),
    {
        let ghost t0 = self.tile_grid();
        let ghost o0 = self.object_grid();
        let ghost m0 = self.marker_grid();
        self.tiles[y][x] = tile;
        self.objects[y][x] = obj;
        self.markers[y][x] = copy_marker(marker);
        assert(self.tile_grid() =~= t0.update(y as int, t0[y as int].update(x as int, tile)));
        assert(self.object_grid() =~= o0.update(y as int, o0[y as int].update(x as int, obj)));
        assert(self.marker_grid() =~= m0.update(y as int, m0[y as int].update(x as int, *marker)));
        assert(self.tiles@[0]@.len() == old(self).tiles@[0]@.len());
    }
}

/// Bucket fill: repaints the 4-connected region of `target` tiles around `(sx, sy)` with
/// `paint_tile`, `paint_obj` and `paint_marker`; nothing changes when the start is not a
/// `target` tile or `target` is the paint itself.
#[verifier::spinoff_prover]
pub fn flood_fill_same_tile_type(canvas: &mut EditorCanvas, sx: usize, sy: usize, target: Tile, paint_tile: Tile,
    paint_obj: Option<u8>, paint_marker: Option<String>)
    requires
        old(canvas).wf(),
        sx < old(canvas).spec_width(),
        sy < old(canvas).spec_height(),
    ensures
        final(canvas).wf(),
        final(canvas).spec_width() == old(canvas).spec_width(),
        final(canvas).spec_height() == old(canvas).spec_height(),
        (target == paint_tile || old(canvas).tile_grid()[sy as int][sx as int] != target) ==> {
            &&& final(canvas).tile_grid() == old(canvas).tile_grid()
            &&& final(canvas).object_grid() == old(canvas).object_grid()
            &&& final(canvas).marker_grid() == old(canvas).marker_grid()
        },
        (target != paint_tile && old(canvas).tile_grid()[sy as int][sx as int] == target) ==> exists|lab: Map<(int, int), nat>| {
            &&& #[trigger] region_ok(old(canvas).tile_grid(), target, lab, (sx as int, sy as int))
            &&& final(canvas).tile_grid() == painted(old(canvas).tile_grid(), lab.dom(), paint_tile)
            &&& final(canvas).object_grid() == painted(old(canvas).object_grid(), lab.dom(), paint_obj)
            &&& final(canvas).marker_grid() == painted(old(canvas).marker_grid(), lab.dom(), paint_marker)
        },
{
    if target == paint_tile {
        return;
    }
    if canvas.tiles[sy][sx] != target {
        return;
    }
    let width = canvas.width();
    let height = canvas.height();
    let ghost w = width as int;
    let ghost h = height as int;
    let ghost g = canvas.tile_grid();
    let ghost go = canvas.object_grid();
    let ghost gm = canvas.marker_grid();
    let ghost root = (sx as int, sy as int);
    proof {
        lemma_rows_dims(canvas.tiles@, w, h);
        lemma_rows_dims(canvas.objects@, w, h);
        lemma_rows_dims(canvas.markers@, w, h);
        lemma_painted_empty(g, paint_tile);
        lemma_painted_empty(go, paint_obj);
        lemma_painted_empty(gm, paint_marker);
        lemma_painted_insert(g, Set::empty(), paint_tile, sx as int, sy as int);
        lemma_painted_insert(go, Set::empty(), paint_obj, sx as int, sy as int);
        lemma_painted_insert(gm, Set::empty(), paint_marker, sx as int, sy as int);
    }
    let mut seen = crate::map::bool_rows(width, height, false);
    let ghost seen0 = seen@;
    mark(&mut seen, sx, sy, Ghost(w), Ghost(h));
    canvas.paint_cell(sx, sy, paint_tile, paint_obj, &paint_marker);
    let mut q: VecDeque<(usize, usize)> = VecDeque::new();
    q.push_back((sx, sy));
    let ghost mut lab: Map<(int, int), nat> = map![root => 0nat];
    proof {
        assert(Set::<(int, int)>::empty().insert(root) =~= lab.dom());
        lemma_fill_start(g, target, w, h, seen0, seen@, root);
        assert(q@ =~= seq![(sx, sy)]);
    }
    let ks: [usize; 4] = [1, 0, 3, 2];
    while q.len() > 0
        invariant
            w == width,
            h == height,
            w > 0,
            canvas.wf(),
            canvas.spec_width() == w,
            canvas.spec_height() == h,
            g.len() == h,
            forall|y: int| 0 <= y < h ==> #[trigger] g[y].len() == w,
            go.len() == h,
            forall|y: int| 0 <= y < h ==> #[trigger] go[y].len() == w,
            gm.len() == h,
            forall|y: int| 0 <= y < h ==> #[trigger] gm[y].len() == w,
            ks@ == seq![1usize, 0usize, 3usize, 2usize],
            fill_inv(g, target, w, h, seen@, lab, q@, root, None),
            canvas.tile_grid() == painted(g, lab.dom(), paint_tile),
            canvas.object_grid() == painted(go, lab.dom(), paint_obj),
            canvas.marker_grid() == painted(gm, lab.dom(), paint_marker),
        decreases w * h - lab.dom().len(), q@.len(),
    {
        proof {
            lemma_fill_pop(g, target, w, h, seen@, lab, q@, root);
        }
        let (x, y) = q.pop_front().unwrap();
        let ghost cur = (x as int, y as int);
        let ghost lab0 = lab;
        let ghost q1_len = q@.len();
        let mut j: usize = 0;
        while j < 4
            invariant
                w == width,
                h == height,
                w > 0,
                canvas.wf(),
                canvas.spec_width() == w,
                canvas.spec_height() == h,
                g.len() == h,
                forall|y: int| 0 <= y < h ==> #[trigger] g[y].len() == w,
                go.len() == h,
                forall|y: int| 0 <= y < h ==> #[trigger] go[y].len() == w,
                gm.len() == h,
                forall|y: int| 0 <= y < h ==> #[trigger] gm[y].len() == w,
                ks@ == seq![1usize, 0usize, 3usize, 2usize],
                j <= 4,
                cur == (x as int, y as int),
                lab.dom().contains(cur),
                lab0.dom().subset_of(lab.dom()),
                lab.dom().finite(),
                lab.dom().len() >= lab0.dom().len(),
                lab.dom().len() == lab0.dom().len() ==> q@.len() == q1_len,
                fill_inv(g, target, w, h, seen@, lab, q@, root, Some(cur)),
                canvas.tile_grid() == painted(g, lab.dom(), paint_tile),
                canvas.object_grid() == painted(go, lab.dom(), paint_obj),
                canvas.marker_grid() == painted(gm, lab.dom(), paint_marker),
                forall|i: int| 0 <= i < j && #[trigger] cell_is(g, target, nbr4(cur, ks@[i] as int)) ==> lab.dom().contains(nbr4(cur, ks@[i] as int)),
            decreases 4 - j,
        {
            let k = ks[j];
            proof {
                lemma_fill_facts(g, target, w, h, seen@, lab, q@, root, Some(cur));
            }
            // The neighbour in direction k, when it lies on the canvas.
            let (inside, nx, ny) = if k == 0 {
                (x + 1 < width, x + 1, y)
            } else if k == 1 {
                (x > 0, if x > 0 { x - 1 } else { 0 }, y)
            } else if k == 2 {
                (y + 1 < height, x, y + 1)
            } else {
                (y > 0, x, if y > 0 { y - 1 } else { 0 })
            };
            let ghost n = nbr4(cur, k as int);
            assert(inside ==> n == (nx as int, ny as int));
            assert(!inside ==> !cell_is(g, target, n));
            proof {
                lemma_rows_dims(canvas.tiles@, w, h);
                if inside {
                    assert(visited_at(seen@, n) == seen@[ny as int]@[nx as int]);
                    assert(canvas.tile_grid()[ny as int][nx as int] == canvas.tiles@[ny as int]@[nx as int]);
                }
            }
            if inside && canvas.tiles[ny][nx] == target && !seen[ny][nx] {
                proof {
                    lemma_rows_dims(canvas.tiles@, w, h);
                    assert(!lab.dom().contains(n));
                    assert(canvas.tile_grid()[ny as int][nx as int] == g[ny as int][nx as int]);
                    assert(cell_is(g, target, n));
                    lemma_painted_insert(g, lab.dom(), paint_tile, nx as int, ny as int);
                    lemma_painted_insert(go, lab.dom(), paint_obj, nx as int, ny as int);
                    lemma_painted_insert(gm, lab.dom(), paint_marker, nx as int, ny as int);
                }
                let ghost sb = seen@;
                let ghost qb = q@;
                mark(&mut seen, nx, ny, Ghost(w), Ghost(h));
                canvas.paint_cell(nx, ny, paint_tile, paint_obj, &paint_marker);
                q.push_back((nx, ny));
                proof {
                    lemma_fill_visit(g, target, w, h, sb, lab, qb, root, cur, k as int, seen@);
                    assert(qb.push((nx, ny)) =~= q@);
                    lab = lab.insert(n, lab[cur] + 1);
                }
            } else {
                proof {
                    if inside && cell_is(g, target, n) && !lab.dom().contains(n) {
                        assert(canvas.tile_grid()[ny as int][nx as int] == g[ny as int][nx as int]);
                        assert(!visited_at(seen@, n));
                    }
                }
            }
            j = j + 1;
        }
        proof {
            assert forall|k: int| 0 <= k < 4 && #[trigger] cell_is(g, target, nbr4(cur, k)) implies lab.dom().contains(nbr4(cur, k)) by {
                let i: int = if k == 1 { 0 } else if k == 0 { 1 } else if k == 3 { 2 } else { 3 };
                assert(ks@[i] as int == k);
            }
            lemma_fill_close(g, target, w, h, seen@, lab, q@, root, cur);
            lemma_fill_facts(g, target, w, h, seen@, lab, q@, root, None);
        }
    }
    proof {
        lemma_fill_done(g, target, w, h, seen@, lab, q@, root);
    }
}

/// The editor's painting tools.
#[derive(Clone, Copy, Debug, PartialEq, Eq, Structural)]
pub enum ToolMode {
    Draw,
    Bucket,
    RectOutline,
    RectFill,
    Copy,
    Move,
    Paste,
}

impl ToolMode {
    pub open spec fn spec_name(self) -> Seq<char> {
        match self {
            ToolMode::Draw => "Draw"@,
            ToolMode::Bucket => "Bucket"@,
            ToolMode::RectOutline => "Rect"@,
            ToolMode::RectFill => "Fill"@,
            ToolMode::Copy => "Copy"@,
            ToolMode::Move => "Move"@,
            ToolMode::Paste => "Paste"@,
        }
    }

    /// The tool's label in the mode bar.
    pub fn name(self) -> (s: &'static str)
        ensures
            s@ == self.spec_name(),
    {
        match self {
            ToolMode::Draw => "Draw",
            ToolMode::Bucket => "Bucket",
            ToolMode::RectOutline => "Rect",
            ToolMode::RectFill => "Fill",
            ToolMode::Copy => "Copy",
            ToolMode::Move => "Move",
            ToolMode::Paste => "Paste",
        }
    }
}

pub open spec fn spec_edge_button_label(side: EdgeSide, action: EdgeAction) -> Seq<char> {
    match side {
        EdgeSide::Left => if action == EdgeAction::Expand { "<"@ } else { ">"@ },
        EdgeSide::Right => if action == EdgeAction::Expand { ">"@ } else { "<"@ },
        EdgeSide::Top => if action == EdgeAction::Expand { "^"@ } else { "v"@ },
        EdgeSide::Bottom => if action == EdgeAction::Expand { "v"@ } else { "^"@ },
    }
}

/// The arrow on an edge button: pointing outward to grow, inward to shrink.
pub fn edge_button_label(side: EdgeSide, action: EdgeAction) -> (s: &'static str)
    ensures
        s@ == spec_edge_button_label(side, action),
{
    match side {
        EdgeSide::Left => if action == EdgeAction::Expand { "<" } else { ">" },
        EdgeSide::Right => if action == EdgeAction::Expand { ">" } else { "<" },
        EdgeSide::Top => if action == EdgeAction::Expand { "^" } else { "v" },
        EdgeSide::Bottom => if action == EdgeAction::Expand { "v" } else { "^" },
    }
}

pub open spec fn min_i(a: int, b: int) -> int {
    if a < b { a } else { b }
}

pub open spec fn max_i(a: int, b: int) -> int {
    if a > b { a } else { b }
}

/// The rectangle with corners `a` and `b`, as its least and greatest corners.
pub fn selection_rect(a: (i32, i32), b: (i32, i32)) -> (r: (i32, i32, i32, i32))
    ensures
        r.0 == min_i(a.0 as int, b.0 as int),
        r.1 == min_i(a.1 as int, b.1 as int),
        r.2 == max_i(a.0 as int, b.0 as int),
        r.3 == max_i(a.1 as int, b.1 as int),
{
    (if a.0 < b.0 { a.0 } else { b.0 }, if a.1 < b.1 { a.1 } else { b.1 }, if a.0 > b.0 { a.0 } else { b.0 },
        if a.1 > b.1 { a.1 } else { b.1 })
}

/// Whether a clipboard's cells are copied or moved.
#[derive(Clone, Copy, Debug, PartialEq, Eq, Structural)]
pub enum ClipboardMode {
    Copy,
    Move,
}

/// The grid rectangle a clipboard was taken from, by its least and greatest corners.
#[derive(Clone, Copy, Debug, PartialEq, Eq, Structural)]
pub struct ClipboardSource {
    pub x1: i32,
    pub y1: i32,
    pub x2: i32,
    pub y2: i32,
}

impl ClipboardSource {
    /// The rectangle with corners `a` and `b`.
    pub fn from_points(a: (i32, i32), b: (i32, i32)) -> (s: Self)
        ensures
            s.x1 == min_i(a.0 as int, b.0 as int),
            s.y1 == min_i(a.1 as int, b.1 as int),
            s.x2 == max_i(a.0 as int, b.0 as int),
            s.y2 == max_i(a.1 as int, b.1 as int),
    {
        let (x1, y1, x2, y2) = selection_rect(a, b);
        ClipboardSource { x1, y1, x2, y2 }
    }

    /// Where `point` lies inside the rectangle, from its top-left corner; `None` outside it.
    pub fn offset_from(self, point: (i32, i32)) -> (r: Option<(i32, i32)>)
        requires
            (self.x1 <= point.0 <= self.x2 && self.y1 <= point.1 <= self.y2) ==> point.0 - self.x1 <= i32::MAX
                && point.1 - self.y1 <= i32::MAX,
        ensures
            (self.x1 <= point.0 <= self.x2 && self.y1 <= point.1 <= self.y2) ==> r == Some(((point.0 - self.x1) as i32, (point.1 - self.y1) as i32)),
            !(self.x1 <= point.0 <= self.x2 && self.y1 <= point.1 <= self.y2) ==> r is None,
    {
        if self.x1 <= point.0 && point.0 <= self.x2 && self.y1 <= point.1 && point.1 <= self.y2 {
            Some((point.0 - self.x1, point.1 - self.y1))
        } else {
            None
        }
    }

    pub fn top_left(self) -> (r: (i32, i32))
        ensures
            r == (self.x1, self.y1),
    {
        (self.x1, self.y1)
    }
}

/// The canvas cell of grid position `(gx, gy)` (the caller knows it lies on the canvas).
pub fn grid_to_index(gx: i32, gy: i32, origin: CanvasGridOrigin) -> (r: (usize, usize))
    requires
        0 <= gx - origin.x <= usize::MAX,
        0 <= gy - origin.y <= usize::MAX,
    ensures
        r == ((gx - origin.x) as usize, (gy - origin.y) as usize),
{
    let dx: i64 = gx as i64 - origin.x as i64;
    let dy: i64 = gy as i64 - origin.y as i64;
    (dx as usize, dy as usize)
}

/// The canvas cell of grid position `(gx, gy)`, when it lies on a `width` by `height` canvas.
pub fn grid_coord_to_canvas_index(gx: i32, gy: i32, origin: CanvasGridOrigin, width: usize, height: usize) -> (r: Option<(usize, usize)>)
    requires
        i32::MIN <= gx - origin.x <= i32::MAX,
        i32::MIN <= gy - origin.y <= i32::MAX,
    ensures
        ({
            let ix = gx - origin.x;
            let iy = gy - origin.y;
            &&& (0 <= ix < width && 0 <= iy < height) ==> r == Some((ix as usize, iy as usize))
            &&& !(0 <= ix < width && 0 <= iy < height) ==> r is None
        }),
{
    let ix = gx - origin.x;
    let iy = gy - origin.y;
    if ix >= 0 && iy >= 0 && (ix as usize) < width && (iy as usize) < height {
        Some((ix as usize, iy as usize))
    } else {
        None
    }
}

/// How many snapshots the undo stack keeps.
pub const UNDO_LIMIT: usize = 50;

/// Earlier states of the canvas and its origin, the newest last.
pub struct UndoStack(pub Vec<(Vec<Vec<Tile>>, Vec<Vec<Option<u8>>>, Vec<Vec<Option<String>>>, CanvasGridOrigin)>);

/// A snapshot as grids.
pub open spec fn snapshot_view(s: (Vec<Vec<Tile>>, Vec<Vec<Option<u8>>>, Vec<Vec<Option<String>>>, CanvasGridOrigin))
    -> (Seq<Seq<Tile>>, Seq<Seq<Option<u8>>>, Seq<Seq<Option<String>>>, CanvasGridOrigin) {
    (rows_of(s.0@), rows_of(s.1@), rows_of(s.2@), s.3)
}

impl UndoStack {
    pub open spec fn view(&self) -> Seq<(Seq<Seq<Tile>>, Seq<Seq<Option<u8>>>, Seq<Seq<Option<String>>>, CanvasGridOrigin)> {
        self.0@.map_values(|s: (Vec<Vec<Tile>>, Vec<Vec<Option<u8>>>, Vec<Vec<Option<String>>>, CanvasGridOrigin)| snapshot_view(s))
    }
}

/// A copy of a grid of plain cells.
fn copy_rows<T: Copy>(rows: &Vec<Vec<T>>) -> (r: Vec<Vec<T>>)
    ensures
        rows_of(r@) == rows_of(rows@),
        r@.len() == rows@.len(),
        forall|y: int| 0 <= y < rows@.len() ==> #[trigger] r@[y]@ == rows@[y]@,
{
    let mut r: Vec<Vec<T>> = Vec::new();
    let mut j: usize = 0;
    while j < rows.len()
        invariant
            j <= rows@.len(),
            r@.len() == j,
            forall|y: int| 0 <= y < j ==> #[trigger] r@[y]@ == rows@[y]@,
        decreases rows@.len() - j,
    {
        let src = &rows[j];
        let mut row: Vec<T> = Vec::new();
        let mut i: usize = 0;
        while i < src.len()
            invariant
                i <= src@.len(),
                row@ == src@.subrange(0, i as int),
            decreases src@.len() - i,
        {
            row.push(src[i]);
            i = i + 1;
        }
        assert(row@ =~= src@);
        r.push(row);
        j = j + 1;
    }
    assert(rows_of(r@) =~= rows_of(rows@));
    r
}

/// A copy of a grid of markers.
fn copy_marker_rows(rows: &Vec<Vec<Option<String>>>) -> (r: Vec<Vec<Option<String>>>)
    ensures
        rows_of(r@) == rows_of(rows@),
        r@.len() == rows@.len(),
        forall|y: int| 0 <= y < rows@.len() ==> #[trigger] r@[y]@ == rows@[y]@,
{
    let mut r: Vec<Vec<Option<String>>> = Vec::new();
    let mut j: usize = 0;
    while j < rows.len()
        invariant
            j <= rows@.len(),
            r@.len() == j,
            forall|y: int| 0 <= y < j ==> #[trigger] r@[y]@ == rows@[y]@,
        decreases rows@.len() - j,
    {
        let src = &rows[j];
        let mut row: Vec<Option<String>> = Vec::new();
        let mut i: usize = 0;
        while i < src.len()
            invariant
                i <= src@.len(),
                row@ == src@.subrange(0, i as int),
            decreases src@.len() - i,
        {
            row.push(copy_marker(&src[i]));
            i = i + 1;
        }
        assert(row@ =~= src@);
        r.push(row);
        j = j + 1;
    }
    assert(rows_of(r@) =~= rows_of(rows@));
    r
}

/// Records the canvas and origin on the undo stack, dropping the oldest snapshot beyond
/// `UNDO_LIMIT`.
pub fn push_undo(canvas: &EditorCanvas, origin: CanvasGridOrigin, undo: &mut UndoStack)
    ensures
        ({
            let pushed = old(undo)@.push((canvas.tile_grid(), canvas.object_grid(), canvas.marker_grid(), origin));
            final(undo)@ == if pushed.len() > UNDO_LIMIT { pushed.drop_first() } else { pushed }
        }),
        old(undo).wf() && canvas.wf() ==> final(undo).wf(),
{
    let ghost before = undo@;
    let snap = (copy_rows(&canvas.tiles), copy_rows(&canvas.objects), copy_marker_rows(&canvas.markers), origin);
    undo.0.push(snap);
    proof {
        if old(undo).wf() && canvas.wf() {
            let n = undo.0@.len() - 1;
            lemma_rows_dims(canvas.tiles@, canvas.spec_width(), canvas.spec_height());
            lemma_rows_dims(canvas.objects@, canvas.spec_width(), canvas.spec_height());
            lemma_rows_dims(canvas.markers@, canvas.spec_width(), canvas.spec_height());
            let s = undo.0@[n];
            lemma_rows_dims_back(s.0@, canvas.spec_width(), canvas.spec_height());
            lemma_rows_dims_back(s.1@, canvas.spec_width(), canvas.spec_height());
            lemma_rows_dims_back(s.2@, canvas.spec_width(), canvas.spec_height());
            if canvas.spec_height() > 0 {
                assert(s.0@[0]@.len() == canvas.spec_width());
            }
            assert forall|i: int| 0 <= i < undo.0@.len() implies (EditorCanvas { tiles: (#[trigger] undo.0@[i]).0, objects: undo.0@[i].1, markers: undo.0@[i].2 }).wf() by {
                if i < n {
                    assert(undo.0@[i] == old(undo).0@[i]);
                }
            }
        }
    }
    let ghost pushed = before.push((canvas.tile_grid(), canvas.object_grid(), canvas.marker_grid(), origin));
    assert(undo@ =~= pushed);
    if undo.0.len() > UNDO_LIMIT {
        let ghost full = undo.0@;
        undo.0.remove(0);
        assert(undo@ =~= pushed.drop_first());
        assert forall|i: int| 0 <= i < undo.0@.len() implies #[trigger] undo.0@[i] == full[i + 1] by {}
    }
}

/// The undo stack never holds more than `UNDO_LIMIT` snapshots, and the newest is the canvas as
/// it was when recorded.
pub proof fn law_undo_bounded(before: Seq<(Seq<Seq<Tile>>, Seq<Seq<Option<u8>>>, Seq<Seq<Option<String>>>, CanvasGridOrigin)>,
    snap: (Seq<Seq<Tile>>, Seq<Seq<Option<u8>>>, Seq<Seq<Option<String>>>, CanvasGridOrigin))
    requires
        before.len() <= UNDO_LIMIT,
    ensures
        ({
            let pushed = before.push(snap);
            let after = if pushed.len() > UNDO_LIMIT { pushed.drop_first() } else { pushed };
            &&& after.len() <= UNDO_LIMIT
            &&& after.len() > 0
            &&& after.last() == snap
        }),
{
}

/// The canvas cells of the rectangle from `(a, c)` to `(b, d)` (inclusive): all of them when
/// `filled`, else its border.
pub open spec fn rect_region(a: int, c: int, b: int, d: int, filled: bool) -> Set<(int, int)> {
    Set::new(|p: (int, int)| a <= p.0 <= b && c <= p.1 <= d && (filled || p.0 == a || p.0 == b || p.1 == c || p.1 == d))
}

/// The cells of `rect_region` before `(col, row)` in row order.
pub open spec fn rect_done(a: int, c: int, b: int, d: int, filled: bool, col: int, row: int) -> Set<(int, int)> {
    Set::new(|p: (int, int)| rect_region(a, c, b, d, filled).contains(p) && (p.1 < row || (p.1 == row && p.0 < col)))
}

impl EditorCanvas {
    /// Paints the rectangle with grid corners `start` and `end` (whole, or its border), which
    /// lies on the canvas placed at `origin`.
    #[verifier::spinoff_prover]
    pub fn paint_rect(&mut self, origin: CanvasGridOrigin, start: (i32, i32), end: (i32, i32), filled: bool, tile: Tile,
        obj: Option<u8>, marker: &Option<String>)
        requires
            old(self).wf(),
            ({
                let r = (min_i(start.0 as int, end.0 as int), min_i(start.1 as int, end.1 as int),
                    max_i(start.0 as int, end.0 as int), max_i(start.1 as int, end.1 as int));
                &&& 0 <= r.0 - origin.x
                &&& r.2 - origin.x < old(self).spec_width()
                &&& 0 <= r.1 - origin.y
                &&& r.3 - origin.y < old(self).spec_height()
            }),
        ensures
            final(self).wf(),
            final(self).spec_width() == old(self).spec_width(),
            final(self).spec_height() == old(self).spec_height(),
            ({
                let region = rect_region(min_i(start.0 as int, end.0 as int) - origin.x, min_i(start.1 as int, end.1 as int) - origin.y,
                    max_i(start.0 as int, end.0 as int) - origin.x, max_i(start.1 as int, end.1 as int) - origin.y, filled);
                &&& final(self).tile_grid() == painted(old(self).tile_grid(), region, tile)
                &&& final(self).object_grid() == painted(old(self).object_grid(), region, obj)
                &&& final(self).marker_grid() == painted(old(self).marker_grid(), region, *marker)
            }),
    {
        let (x1, y1, x2, y2) = selection_rect(start, end);
        let ghost g = self.tile_grid();
        let ghost go = self.object_grid();
        let ghost gm = self.marker_grid();
        let ghost w = self.spec_width();
        let ghost h = self.spec_height();
        let ax: i64 = x1 as i64 - origin.x as i64;
        let bx: i64 = x2 as i64 - origin.x as i64;
        let cy: i64 = y1 as i64 - origin.y as i64;
        let dy: i64 = y2 as i64 - origin.y as i64;
        let ghost (a, b, c, d) = (ax as int, bx as int, cy as int, dy as int);
        proof {
            lemma_rows_dims(self.tiles@, w, h);
            lemma_rows_dims(self.objects@, w, h);
            lemma_rows_dims(self.markers@, w, h);
            assert(rect_done(a, c, b, d, filled, a, c) =~= Set::empty());
            lemma_painted_empty(g, tile);
            lemma_painted_empty(go, obj);
            lemma_painted_empty(gm, *marker);
        }
        let mut row: i64 = cy;
        while row <= dy
            invariant
                self.wf(),
                self.spec_width() == w,
                self.spec_height() == h,
                g.len() == h,
                forall|y: int| 0 <= y < h ==> #[trigger] g[y].len() == w,
                go.len() == h,
                forall|y: int| 0 <= y < h ==> #[trigger] go[y].len() == w,
                gm.len() == h,
                forall|y: int| 0 <= y < h ==> #[trigger] gm[y].len() == w,
                0 <= a <= b < w,
                0 <= c <= d < h,
                (a, b, c, d) == (ax as int, bx as int, cy as int, dy as int),
                b < 0x1_0000_0000,
                d < 0x1_0000_0000,
                c <= row <= d + 1,
                self.tile_grid() == painted(g, rect_done(a, c, b, d, filled, a, row as int), tile),
                self.object_grid() == painted(go, rect_done(a, c, b, d, filled, a, row as int), obj),
                self.marker_grid() == painted(gm, rect_done(a, c, b, d, filled, a, row as int), *marker),
            decreases d + 1 - row,
        {
            let mut col: i64 = ax;
            while col <= bx
                invariant
                    self.wf(),
                    self.spec_width() == w,
                    self.spec_height() == h,
                    g.len() == h,
                    forall|y: int| 0 <= y < h ==> #[trigger] g[y].len() == w,
                    go.len() == h,
                    forall|y: int| 0 <= y < h ==> #[trigger] go[y].len() == w,
                    gm.len() == h,
                    forall|y: int| 0 <= y < h ==> #[trigger] gm[y].len() == w,
                    0 <= a <= b < w,
                    0 <= c <= d < h,
                    (a, b, c, d) == (ax as int, bx as int, cy as int, dy as int),
                    b < 0x1_0000_0000,
                    d < 0x1_0000_0000,
                    c <= row <= d,
                    a <= col <= b + 1,
                    self.tile_grid() == painted(g, rect_done(a, c, b, d, filled, col as int, row as int), tile),
                    self.object_grid() == painted(go, rect_done(a, c, b, d, filled, col as int, row as int), obj),
                    self.marker_grid() == painted(gm, rect_done(a, c, b, d, filled, col as int, row as int), *marker),
                decreases b + 1 - col,
            {
                let ghost before = rect_done(a, c, b, d, filled, col as int, row as int);
                let ghost after = rect_done(a, c, b, d, filled, col as int + 1, row as int);
                if filled || col == ax || col == bx || row == cy || row == dy {
                    proof {
                        assert(after =~= before.insert((col as int, row as int)));
                        assert(!before.contains((col as int, row as int)));
                        lemma_painted_insert(g, before, tile, col as int, row as int);
                        lemma_painted_insert(go, before, obj, col as int, row as int);
                        lemma_painted_insert(gm, before, *marker, col as int, row as int);
                    }
                    self.paint_cell(col as usize, row as usize, tile, obj, marker);
                } else {
                    assert(after =~= before);
                }
                col = col + 1;
            }
            assert(rect_done(a, c, b, d, filled, b + 1, row as int) =~= rect_done(a, c, b, d, filled, a, row as int + 1));
            row = row + 1;
        }
        assert(rect_done(a, c, b, d, filled, a, d + 1) =~= rect_region(a, c, b, d, filled));
    }
}

/// The cells of `g` from `(a, c)` to `(b, d)` inclusive, row by row.
pub open spec fn subgrid<T>(g: Seq<Seq<T>>, a: int, c: int, b: int, d: int) -> Seq<Seq<T>> {
    Seq::new((d - c + 1) as nat, |j: int| Seq::new((b - a + 1) as nat, |i: int| g[c + j][a + i]))
}

/// Cells copied off the canvas, with the rectangle they came from and whether pasting moves them.
pub struct Clipboard {
    pub tiles: Vec<Vec<Tile>>,
    pub objects: Vec<Vec<Option<u8>>>,
    pub markers: Vec<Vec<Option<String>>>,
    pub source: ClipboardSource,
    pub mode: ClipboardMode,
}

impl Clipboard {
    pub open spec fn tile_grid(&self) -> Seq<Seq<Tile>> {
        rows_of(self.tiles@)
    }

    pub open spec fn object_grid(&self) -> Seq<Seq<Option<u8>>> {
        rows_of(self.objects@)
    }

    pub open spec fn marker_grid(&self) -> Seq<Seq<Option<String>>> {
        rows_of(self.markers@)
    }

    /// The length of the first row (0 with no rows).
    pub fn width(&self) -> (w: usize)
        ensures
            w == (if self.tiles@.len() > 0 { self.tiles@[0]@.len() as int } else { 0 }),
    {
        if self.tiles.len() > 0 { self.tiles[0].len() } else { 0 }
    }

    pub fn height(&self) -> (h: usize)
        ensures
            h == self.tiles@.len(),
    {
        self.tiles.len()
    }
}

/// The source rectangle lies on the canvas placed at `origin`.
pub open spec fn source_on_canvas(canvas: EditorCanvas, origin: CanvasGridOrigin, s: ClipboardSource) -> bool {
    &&& 0 <= s.x1 - origin.x
    &&& s.x1 <= s.x2
    &&& s.x2 - origin.x < canvas.spec_width()
    &&& 0 <= s.y1 - origin.y
    &&& s.y1 <= s.y2
    &&& s.y2 - origin.y < canvas.spec_height()
}

impl EditorCanvas {
    /// Copies the cells of the source rectangle (on the canvas placed at `origin`) to a clipboard.
    pub fn copy_to_clipboard(&self, origin: CanvasGridOrigin, source: ClipboardSource, mode: ClipboardMode) -> (clip: Clipboard)
        requires
            self.wf(),
            source_on_canvas(*self, origin, source),
        ensures
            clip.source == source,
            clip.mode == mode,
            clip.wf(),
            ({
                let (a, c, b, d) = (source.x1 - origin.x, source.y1 - origin.y, source.x2 - origin.x, source.y2 - origin.y);
                &&& clip.tile_grid() == subgrid(self.tile_grid(), a, c, b, d)
                &&& clip.object_grid() == subgrid(self.object_grid(), a, c, b, d)
                &&& clip.marker_grid() == subgrid(self.marker_grid(), a, c, b, d)
            }),
    {
        let ghost w = self.spec_width();
        let ghost h = self.spec_height();
        proof {
            lemma_rows_dims(self.tiles@, w, h);
            lemma_rows_dims(self.objects@, w, h);
            lemma_rows_dims(self.markers@, w, h);
        }
        // The canvas's size fits a `usize`, which bounds the indices below.
        let _wu = self.width();
        let _hu = self.height();
        let a: usize = (source.x1 as i64 - origin.x as i64) as usize;
        let b: usize = (source.x2 as i64 - origin.x as i64) as usize;
        let c: usize = (source.y1 as i64 - origin.y as i64) as usize;
        let d: usize = (source.y2 as i64 - origin.y as i64) as usize;
        let ghost st = subgrid(self.tile_grid(), a as int, c as int, b as int, d as int);
        let ghost so = subgrid(self.object_grid(), a as int, c as int, b as int, d as int);
        let ghost sm = subgrid(self.marker_grid(), a as int, c as int, b as int, d as int);
        let mut tiles: Vec<Vec<Tile>> = Vec::new();
        let mut objects: Vec<Vec<Option<u8>>> = Vec::new();
        let mut markers: Vec<Vec<Option<String>>> = Vec::new();
        let mut y = c;
        while y <= d
            invariant
                self.wf(),
                self.spec_width() == w,
                self.spec_height() == h,
                a <= b < w,
                c <= y <= d + 1,
                d < h,
                w <= usize::MAX,
                h <= usize::MAX,
                tiles@.len() == y - c,
                objects@.len() == y - c,
                markers@.len() == y - c,
                forall|j: int| 0 <= j < y - c ==> #[trigger] tiles@[j]@ == st[j],
                forall|j: int| 0 <= j < y - c ==> #[trigger] objects@[j]@ == so[j],
                forall|j: int| 0 <= j < y - c ==> #[trigger] markers@[j]@ == sm[j],
                st == subgrid(self.tile_grid(), a as int, c as int, b as int, d as int),
                so == subgrid(self.object_grid(), a as int, c as int, b as int, d as int),
                sm == subgrid(self.marker_grid(), a as int, c as int, b as int, d as int),
            decreases d + 1 - y,
        {
            proof {
                lemma_rows_dims(self.tiles@, w, h);
                lemma_rows_dims(self.objects@, w, h);
                lemma_rows_dims(self.markers@, w, h);
            }
            let mut rt: Vec<Tile> = Vec::new();
            let mut ro: Vec<Option<u8>> = Vec::new();
            let mut rm: Vec<Option<String>> = Vec::new();
            let mut x = a;
            while x <= b
                invariant
                    self.wf(),
                    self.spec_width() == w,
                    self.spec_height() == h,
                    a <= b < w,
                    c <= y <= d,
                    d < h,
                    w <= usize::MAX,
                    h <= usize::MAX,
                    a <= x <= b + 1,
                    rt@.len() == x - a,
                    ro@.len() == x - a,
                    rm@.len() == x - a,
                    forall|i: int| 0 <= i < x - a ==> #[trigger] rt@[i] == self.tile_grid()[y as int][a + i],
                    forall|i: int| 0 <= i < x - a ==> #[trigger] ro@[i] == self.object_grid()[y as int][a + i],
                    forall|i: int| 0 <= i < x - a ==> #[trigger] rm@[i] == self.marker_grid()[y as int][a + i],
                decreases b + 1 - x,
            {
                rt.push(self.tiles[y][x]);
                ro.push(self.objects[y][x]);
                rm.push(copy_marker(&self.markers[y][x]));
                x = x + 1;
            }
            assert(rt@ =~= st[y - c]);
            assert(ro@ =~= so[y - c]);
            assert(rm@ =~= sm[y - c]);
            tiles.push(rt);
            objects.push(ro);
            markers.push(rm);
            y = y + 1;
        }
        let clip = Clipboard { tiles, objects, markers, source, mode };
        assert(clip.tile_grid() =~= st);
        assert(clip.object_grid() =~= so);
        assert(clip.marker_grid() =~= sm);
        clip
    }
}

/// `g` with `clip` laid over it, its top-left cell at `place`; clip cells off `g` are dropped.
pub open spec fn overlay<T>(g: Seq<Seq<T>>, clip: Seq<Seq<T>>, place: (int, int)) -> Seq<Seq<T>> {
    Seq::new(g.len(), |y: int| Seq::new(g[y].len(), |x: int|
        if 0 <= y - place.1 < clip.len() && 0 <= x - place.0 < clip[y - place.1].len() { clip[y - place.1][x - place.0] } else { g[y][x] }))
}

/// The overlay of the clip cells before `(col, row)` in row order.
pub open spec fn overlay_upto<T>(g: Seq<Seq<T>>, clip: Seq<Seq<T>>, place: (int, int), col: int, row: int) -> Seq<Seq<T>> {
    Seq::new(g.len(), |y: int| Seq::new(g[y].len(), |x: int|
        if 0 <= y - place.1 < clip.len() && 0 <= x - place.0 < clip[y - place.1].len()
            && (y - place.1 < row || (y - place.1 == row && x - place.0 < col)) { clip[y - place.1][x - place.0] } else { g[y][x] }))
}

proof fn lemma_painted_outside<T>(g: Seq<Seq<T>>, region: Set<(int, int)>, v: T, x: int, y: int)
    requires
        !(0 <= y < g.len() && 0 <= x < g[y].len()),
    ensures
        painted(g, region.insert((x, y)), v) == painted(g, region, v),
{
    let a = painted(g, region.insert((x, y)), v);
    let b = painted(g, region, v);
    assert forall|r: int| 0 <= r < g.len() implies #[trigger] a[r] == b[r] by {
        assert(a[r] =~= b[r]);
    }
    assert(a =~= b);
}

proof fn lemma_overlay_step<T>(g: Seq<Seq<T>>, clip: Seq<Seq<T>>, place: (int, int), col: int, row: int)
    requires
        0 <= row < clip.len(),
        0 <= col < clip[row].len(),
    ensures
        ({
            let x = place.0 + col;
            let y = place.1 + row;
            let before = overlay_upto(g, clip, place, col, row);
            let after = overlay_upto(g, clip, place, col + 1, row);
            &&& (0 <= y < g.len() && 0 <= x < g[y].len()) ==> after == before.update(y, before[y].update(x, clip[row][col]))
            &&& !(0 <= y < g.len() && 0 <= x < g[y].len()) ==> after == before
        }),
{
    let x = place.0 + col;
    let y = place.1 + row;
    let before = overlay_upto(g, clip, place, col, row);
    let after = overlay_upto(g, clip, place, col + 1, row);
    if 0 <= y < g.len() && 0 <= x < g[y].len() {
        let c = before.update(y, before[y].update(x, clip[row][col]));
        assert forall|r: int| 0 <= r < g.len() implies #[trigger] after[r] == c[r] by {
            assert(after[r] =~= c[r]);
        }
        assert(after =~= c);
    } else {
        assert forall|r: int| 0 <= r < g.len() implies #[trigger] after[r] == before[r] by {
            assert(after[r] =~= before[r]);
        }
        assert(after =~= before);
    }
}

proof fn lemma_overlay_row<T>(g: Seq<Seq<T>>, clip: Seq<Seq<T>>, place: (int, int), row: int)
    requires
        0 <= row < clip.len(),
    ensures
        overlay_upto(g, clip, place, clip[row].len() as int, row) == overlay_upto(g, clip, place, 0, row + 1),
{
    let a = overlay_upto(g, clip, place, clip[row].len() as int, row);
    let b = overlay_upto(g, clip, place, 0, row + 1);
    assert forall|r: int| 0 <= r < g.len() implies #[trigger] a[r] == b[r] by {
        assert(a[r] =~= b[r]);
    }
    assert(a =~= b);
}

proof fn lemma_overlay_ends<T>(g: Seq<Seq<T>>, clip: Seq<Seq<T>>, place: (int, int))
    ensures
        overlay_upto(g, clip, place, 0, 0) == g,
        overlay_upto(g, clip, place, 0, clip.len() as int) == overlay(g, clip, place),
{
    let a = overlay_upto(g, clip, place, 0, 0);
    assert forall|r: int| 0 <= r < g.len() implies #[trigger] a[r] == g[r] by {
        assert(a[r] =~= g[r]);
    }
    assert(a =~= g);
    let b = overlay_upto(g, clip, place, 0, clip.len() as int);
    let c = overlay(g, clip, place);
    assert forall|r: int| 0 <= r < g.len() implies #[trigger] b[r] == c[r] by {
        assert(b[r] =~= c[r]);
    }
    assert(b =~= c);
}

impl Clipboard {
    /// Every layer has the shape of the tiles.
    pub open spec fn wf(&self) -> bool {
        &&& self.objects@.len() == self.tiles@.len()
        &&& self.markers@.len() == self.tiles@.len()
        &&& forall|j: int| 0 <= j < self.tiles@.len() ==> (#[trigger] self.objects@[j])@.len() == self.tiles@[j]@.len()
        &&& forall|j: int| 0 <= j < self.tiles@.len() ==> (#[trigger] self.markers@[j])@.len() == self.tiles@[j]@.len()
    }
}

/// A layer after pasting at `place`: the moved source (canvas cells `src`) emptied to `fill`
/// first when moving, then the clipboard laid over it.
pub open spec fn pasted<T>(g: Seq<Seq<T>>, clip: Seq<Seq<T>>, moving: bool, src: (int, int, int, int), place: (int, int), fill: T) -> Seq<Seq<T>> {
    overlay(if moving { painted(g, rect_region(src.0, src.1, src.2, src.3, true), fill) } else { g }, clip, place)
}

impl EditorCanvas {
    /// Pastes the clipboard with its top-left cell at grid position `top_left`: a moved
    /// clipboard first empties its source cells that lie on the canvas; clipboard cells falling
    /// off the canvas are dropped.
    #[verifier::spinoff_prover]
    pub fn paste_clipboard(&mut self, origin: CanvasGridOrigin, clip: &Clipboard, top_left: (i32, i32))
        requires
            old(self).wf(),
            clip.wf(),
        ensures
            final(self).wf(),
            final(self).spec_width() == old(self).spec_width(),
            final(self).spec_height() == old(self).spec_height(),
            ({
                let moving = clip.mode == ClipboardMode::Move;
                let src = (clip.source.x1 - origin.x, clip.source.y1 - origin.y, clip.source.x2 - origin.x, clip.source.y2 - origin.y);
                let place = (top_left.0 - origin.x, top_left.1 - origin.y);
                &&& final(self).tile_grid() == pasted(old(self).tile_grid(), clip.tile_grid(), moving, src, place, Tile::Grass)
                &&& final(self).object_grid() == pasted(old(self).object_grid(), clip.object_grid(), moving, src, place, None)
                &&& final(self).marker_grid() == pasted(old(self).marker_grid(), clip.marker_grid(), moving, src, place, None)
            }),
    {
        let width = self.width();
        let height = self.height();
        let ghost w = width as int;
        let ghost h = height as int;
        let ghost g = self.tile_grid();
        let ghost go = self.object_grid();
        let ghost gm = self.marker_grid();
        let moving = clip.mode == ClipboardMode::Move;
        let a: i64 = clip.source.x1 as i64 - origin.x as i64;
        let c: i64 = clip.source.y1 as i64 - origin.y as i64;
        let b: i64 = clip.source.x2 as i64 - origin.x as i64;
        let d: i64 = clip.source.y2 as i64 - origin.y as i64;
        let ghost (ai, ci, bi, di) = (a as int, c as int, b as int, d as int);
        proof {
            lemma_rows_dims(self.tiles@, w, h);
            lemma_rows_dims(self.objects@, w, h);
            lemma_rows_dims(self.markers@, w, h);
            lemma_painted_empty(g, Tile::Grass);
            lemma_painted_empty(go, None::<u8>);
            lemma_painted_empty(gm, None::<String>);
            assert(rect_done(ai, ci, bi, di, true, ai, ci) =~= Set::empty());
        }
        if moving {
            let mut row: i64 = c;
            while row <= d
                invariant
                    self.wf(),
                    self.spec_width() == w,
                    self.spec_height() == h,
                    w == width,
                    h == height,
                    g.len() == h,
                    forall|y: int| 0 <= y < h ==> #[trigger] g[y].len() == w,
                    go.len() == h,
                    forall|y: int| 0 <= y < h ==> #[trigger] go[y].len() == w,
                    gm.len() == h,
                    forall|y: int| 0 <= y < h ==> #[trigger] gm[y].len() == w,
                    (ai, bi, ci, di) == (a as int, b as int, c as int, d as int),
                    -0x1_0000_0000 <= a && b <= 0x1_0000_0000,
                    -0x1_0000_0000 <= c && d <= 0x1_0000_0000,
                    c <= row <= d + 1 || (row == c && c > d),
                    self.tile_grid() == painted(g, rect_done(ai, ci, bi, di, true, ai, row as int), Tile::Grass),
                    self.object_grid() == painted(go, rect_done(ai, ci, bi, di, true, ai, row as int), None),
                    self.marker_grid() == painted(gm, rect_done(ai, ci, bi, di, true, ai, row as int), None),
                decreases d + 1 - row,
            {
                let mut col: i64 = a;
                while col <= b
                    invariant
                        self.wf(),
                        self.spec_width() == w,
                        self.spec_height() == h,
                        w == width,
                        h == height,
                        g.len() == h,
                        forall|y: int| 0 <= y < h ==> #[trigger] g[y].len() == w,
                        go.len() == h,
                        forall|y: int| 0 <= y < h ==> #[trigger] go[y].len() == w,
                        gm.len() == h,
                        forall|y: int| 0 <= y < h ==> #[trigger] gm[y].len() == w,
                        (ai, bi, ci, di) == (a as int, b as int, c as int, d as int),
                        -0x1_0000_0000 <= a && b <= 0x1_0000_0000,
                        -0x1_0000_0000 <= c && d <= 0x1_0000_0000,
                        c <= row <= d,
                        a <= col <= b + 1 || (col == a && a > b),
                        self.tile_grid() == painted(g, rect_done(ai, ci, bi, di, true, col as int, row as int), Tile::Grass),
                        self.object_grid() == painted(go, rect_done(ai, ci, bi, di, true, col as int, row as int), None),
                        self.marker_grid() == painted(gm, rect_done(ai, ci, bi, di, true, col as int, row as int), None),
                    decreases b + 1 - col,
                {
                    let ghost before = rect_done(ai, ci, bi, di, true, col as int, row as int);
                    let ghost after = rect_done(ai, ci, bi, di, true, col as int + 1, row as int);
                    proof {
                        assert(after =~= before.insert((col as int, row as int)));
                    }
                    if col >= 0 && row >= 0 && (col as i128) < (width as i128) && (row as i128) < (height as i128) {
                        proof {
                            assert(!before.contains((col as int, row as int)));
                            lemma_painted_insert(g, before, Tile::Grass, col as int, row as int);
                            lemma_painted_insert(go, before, None, col as int, row as int);
                            lemma_painted_insert(gm, before, None, col as int, row as int);
                        }
                        self.paint_cell(col as usize, row as usize, Tile::Grass, None, &None);
                    } else {
                        proof {
                            if 0 <= row < h {
                                assert(go[row as int].len() == w);
                                assert(gm[row as int].len() == w);
                            }
                            lemma_painted_outside(g, before, Tile::Grass, col as int, row as int);
                            lemma_painted_outside(go, before, None, col as int, row as int);
                            lemma_painted_outside(gm, before, None, col as int, row as int);
                        }
                    }
                    col = col + 1;
                }
                assert(rect_done(ai, ci, bi, di, true, col as int, row as int) =~= rect_done(ai, ci, bi, di, true, ai, row as int + 1));
                row = row + 1;
            }
            assert(rect_done(ai, ci, bi, di, true, ai, row as int) =~= rect_region(ai, ci, bi, di, true));
        }
        let ghost g1 = self.tile_grid();
        let ghost go1 = self.object_grid();
        let ghost gm1 = self.marker_grid();
        let ghost ct = clip.tile_grid();
        let ghost co = clip.object_grid();
        let ghost cm = clip.marker_grid();
        let px: i64 = top_left.0 as i64 - origin.x as i64;
        let py: i64 = top_left.1 as i64 - origin.y as i64;
        let ghost place = (px as int, py as int);
        proof {
            lemma_rows_dims(self.tiles@, w, h);
            lemma_overlay_ends(g1, ct, place);
            lemma_overlay_ends(go1, co, place);
            lemma_overlay_ends(gm1, cm, place);
        }
        let mut dy: usize = 0;
        while dy < clip.tiles.len()
            invariant
                self.wf(),
                self.spec_width() == w,
                self.spec_height() == h,
                w == width,
                h == height,
                clip.wf(),
                ct == clip.tile_grid(),
                co == clip.object_grid(),
                cm == clip.marker_grid(),
                g1.len() == h,
                forall|y: int| 0 <= y < h ==> #[trigger] g1[y].len() == w,
                go1.len() == h,
                forall|y: int| 0 <= y < h ==> #[trigger] go1[y].len() == w,
                gm1.len() == h,
                forall|y: int| 0 <= y < h ==> #[trigger] gm1[y].len() == w,
                place == (px as int, py as int),
                dy <= clip.tiles@.len(),
                self.tile_grid() == overlay_upto(g1, ct, place, 0, dy as int),
                self.object_grid() == overlay_upto(go1, co, place, 0, dy as int),
                self.marker_grid() == overlay_upto(gm1, cm, place, 0, dy as int),
            decreases clip.tiles@.len() - dy,
        {
            let mut dx: usize = 0;
            while dx < clip.tiles[dy].len()
                invariant
                    self.wf(),
                    self.spec_width() == w,
                    self.spec_height() == h,
                    w == width,
                    h == height,
                    clip.wf(),
                    ct == clip.tile_grid(),
                    co == clip.object_grid(),
                    cm == clip.marker_grid(),
                    g1.len() == h,
                    forall|y: int| 0 <= y < h ==> #[trigger] g1[y].len() == w,
                    go1.len() == h,
                    forall|y: int| 0 <= y < h ==> #[trigger] go1[y].len() == w,
                    gm1.len() == h,
                    forall|y: int| 0 <= y < h ==> #[trigger] gm1[y].len() == w,
                    place == (px as int, py as int),
                    dy < clip.tiles@.len(),
                    dx <= clip.tiles@[dy as int]@.len(),
                    self.tile_grid() == overlay_upto(g1, ct, place, dx as int, dy as int),
                    self.object_grid() == overlay_upto(go1, co, place, dx as int, dy as int),
                    self.marker_grid() == overlay_upto(gm1, cm, place, dx as int, dy as int),
                decreases clip.tiles@[dy as int]@.len() - dx,
            {
                proof {
                    assert(ct[dy as int] == clip.tiles@[dy as int]@);
                    assert(co[dy as int] == clip.objects@[dy as int]@);
                    assert(cm[dy as int] == clip.markers@[dy as int]@);
                    lemma_overlay_step(g1, ct, place, dx as int, dy as int);
                    lemma_overlay_step(go1, co, place, dx as int, dy as int);
                    lemma_overlay_step(gm1, cm, place, dx as int, dy as int);
                }
                let x: i128 = px as i128 + dx as i128;
                let y: i128 = py as i128 + dy as i128;
                if x >= 0 && y >= 0 && x < width as i128 && y < height as i128 {
                    self.paint_cell(x as usize, y as usize, clip.tiles[dy][dx], clip.objects[dy][dx], &clip.markers[dy][dx]);
                }
                dx = dx + 1;
            }
            proof {
                assert(ct[dy as int] == clip.tiles@[dy as int]@);
                lemma_overlay_row(g1, ct, place, dy as int);
                lemma_overlay_row(go1, co, place, dy as int);
                lemma_overlay_row(gm1, cm, place, dy as int);
            }
            dy = dy + 1;
        }
    }
}

/// What the editor is doing: the tool, what it paints, a drag in progress and the clipboard.
pub struct EditorState {
    pub tool: ToolMode,
    pub selected_tile: Tile,
    pub selected_object: Option<u8>,
    pub drag_start: Option<(i32, i32)>,
    pub paste_drag_offset: Option<(i32, i32)>,
    pub clipboard: Option<Clipboard>,
    pub pattern_size: u32,
    pub output_mult: u32,
}

/// The left mouse button this frame, and the canvas cell under the cursor, if any.
#[derive(Clone, Copy, Debug, PartialEq, Eq)]
pub struct PointerInput {
    pub pressed: bool,
    pub just_pressed: bool,
    pub just_released: bool,
    pub grid_pos: Option<(usize, usize)>,
}

pub type UndoView = Seq<(Seq<Seq<Tile>>, Seq<Seq<Option<u8>>>, Seq<Seq<Option<String>>>, CanvasGridOrigin)>;

/// The undo stack after recording `canvas` at `origin`.
pub open spec fn with_undo(u: UndoView, canvas: EditorCanvas, origin: CanvasGridOrigin) -> UndoView {
    let pushed = u.push((canvas.tile_grid(), canvas.object_grid(), canvas.marker_grid(), origin));
    if pushed.len() > UNDO_LIMIT { pushed.drop_first() } else { pushed }
}

/// The marker painted with the marker text: none when the text is empty.
pub open spec fn marker_paint(text: String) -> Option<String> {
    if text@.len() == 0 { None } else { Some(text) }
}

pub open spec fn same_grids(a: EditorCanvas, b: EditorCanvas) -> bool {
    &&& a.tile_grid() == b.tile_grid()
    &&& a.object_grid() == b.object_grid()
    &&& a.marker_grid() == b.marker_grid()
}

/// The grid position of the canvas cell under the cursor.
pub open spec fn grid_coord(input: PointerInput, origin: CanvasGridOrigin) -> Option<(i32, i32)> {
    match input.grid_pos {
        Some(p) => Some(((origin.x + p.0) as i32, (origin.y + p.1) as i32)),
        None => None,
    }
}

/// The draw tool: while the button is held over the canvas, paint the cell under the cursor,
/// recording an undo step when the press begins.
pub open spec fn draw_effect(s0: EditorState, c0: EditorCanvas, u0: UndoView, origin: CanvasGridOrigin, input: PointerInput,
    text: String, s1: EditorState, c1: EditorCanvas, u1: UndoView) -> bool {
    &&& s1 == s0
    &&& if input.pressed && input.grid_pos is Some {
        let (gx, gy) = input.grid_pos->0;
        &&& u1 == (if input.just_pressed { with_undo(u0, c0, origin) } else { u0 })
        &&& c1.tile_grid() == c0.tile_grid().update(gy as int, c0.tile_grid()[gy as int].update(gx as int, s0.selected_tile))
        &&& c1.object_grid() == c0.object_grid().update(gy as int, c0.object_grid()[gy as int].update(gx as int, s0.selected_object))
        &&& c1.marker_grid() == c0.marker_grid().update(gy as int, c0.marker_grid()[gy as int].update(gx as int, marker_paint(text)))
    } else {
        u1 == u0 && same_grids(c0, c1)
    }
}

/// The bucket tool: a click on a cell of another tile than the selected one records an undo
/// step and fills the cell's region.
pub open spec fn bucket_effect(s0: EditorState, c0: EditorCanvas, u0: UndoView, origin: CanvasGridOrigin, input: PointerInput,
    text: String, s1: EditorState, c1: EditorCanvas, u1: UndoView) -> bool {
    &&& s1 == s0
    &&& if input.just_pressed && input.grid_pos is Some
        && c0.tile_grid()[(input.grid_pos->0).1 as int][(input.grid_pos->0).0 as int] != s0.selected_tile {
        let (gx, gy) = input.grid_pos->0;
        let target = c0.tile_grid()[gy as int][gx as int];
        &&& u1 == with_undo(u0, c0, origin)
        &&& exists|lab: Map<(int, int), nat>| {
            &&& #[trigger] region_ok(c0.tile_grid(), target, lab, (gx as int, gy as int))
            &&& c1.tile_grid() == painted(c0.tile_grid(), lab.dom(), s0.selected_tile)
            &&& c1.object_grid() == painted(c0.object_grid(), lab.dom(), s0.selected_object)
            &&& c1.marker_grid() == painted(c0.marker_grid(), lab.dom(), marker_paint(text))
        }
    } else {
        u1 == u0 && same_grids(c0, c1)
    }
}

/// The marker the tools paint with.
fn marker_from_text(text: &String) -> (m: Option<String>)
    ensures
        m == marker_paint(*text),
{
    if text.as_str().is_empty() {
        None
    } else {
        Some(text.clone())
    }
}

fn draw_step(state: &mut EditorState, canvas: &mut EditorCanvas, origin: CanvasGridOrigin, undo: &mut UndoStack,
    input: PointerInput, text: &String)
    requires
        old(canvas).wf(),
        old(state).tool == ToolMode::Draw,
        input.grid_pos matches Some(p) ==> p.0 < old(canvas).spec_width() && p.1 < old(canvas).spec_height(),
    ensures
        final(canvas).wf(),
        final(canvas).spec_width() == old(canvas).spec_width(),
        final(canvas).spec_height() == old(canvas).spec_height(),
        draw_effect(*old(state), *old(canvas), old(undo)@, origin, input, *text, *final(state), *final(canvas), final(undo)@),
{
    if input.pressed {
        match input.grid_pos {
            Some((gx, gy)) => {
                if input.just_pressed {
                    push_undo(canvas, origin, undo);
                }
                let marker = marker_from_text(text);
                canvas.paint_cell(gx, gy, state.selected_tile, state.selected_object, &marker);
            },
            None => {},
        }
    }
}

fn bucket_step(state: &mut EditorState, canvas: &mut EditorCanvas, origin: CanvasGridOrigin, undo: &mut UndoStack,
    input: PointerInput, text: &String)
    requires
        old(canvas).wf(),
        old(state).tool == ToolMode::Bucket,
        input.grid_pos matches Some(p) ==> p.0 < old(canvas).spec_width() && p.1 < old(canvas).spec_height(),
    ensures
        final(canvas).wf(),
        final(canvas).spec_width() == old(canvas).spec_width(),
        final(canvas).spec_height() == old(canvas).spec_height(),
        bucket_effect(*old(state), *old(canvas), old(undo)@, origin, input, *text, *final(state), *final(canvas), final(undo)@),
{
    if input.just_pressed {
        match input.grid_pos {
            Some((gx, gy)) => {
                proof {
                    lemma_rows_dims(canvas.tiles@, canvas.spec_width(), canvas.spec_height());
                }
                let target = canvas.tiles[gy][gx];
                if target != state.selected_tile {
                    push_undo(canvas, origin, undo);
                    let marker = marker_from_text(text);
                    let ghost c0 = *canvas;
                    flood_fill_same_tile_type(canvas, gx, gy, target, state.selected_tile, state.selected_object, marker);
                }
            },
            None => {},
        }
    }
}

/// The grid position `p` lies on the canvas placed at `origin`.
pub open spec fn on_canvas(c: EditorCanvas, origin: CanvasGridOrigin, p: (i32, i32)) -> bool {
    0 <= p.0 - origin.x < c.spec_width() && 0 <= p.1 - origin.y < c.spec_height()
}

/// The rectangle tools: a press starts a drag at the cell under the cursor; a release over the
/// canvas records an undo step and paints the dragged rectangle (whole for the fill tool, its
/// border for the outline tool), ending the drag.
pub open spec fn rect_effect(s0: EditorState, c0: EditorCanvas, u0: UndoView, origin: CanvasGridOrigin, input: PointerInput,
    text: String, s1: EditorState, c1: EditorCanvas, u1: UndoView) -> bool {
    let start = if input.just_pressed { grid_coord(input, origin) } else { s0.drag_start };
    if input.just_released && start is Some && input.grid_pos is Some {
        let st = start->0;
        let end = grid_coord(input, origin)->0;
        let region = rect_region(min_i(st.0 as int, end.0 as int) - origin.x, min_i(st.1 as int, end.1 as int) - origin.y,
            max_i(st.0 as int, end.0 as int) - origin.x, max_i(st.1 as int, end.1 as int) - origin.y, s0.tool == ToolMode::RectFill);
        &&& u1 == with_undo(u0, c0, origin)
        &&& c1.tile_grid() == painted(c0.tile_grid(), region, s0.selected_tile)
        &&& c1.object_grid() == painted(c0.object_grid(), region, s0.selected_object)
        &&& c1.marker_grid() == painted(c0.marker_grid(), region, marker_paint(text))
        &&& s1 == EditorState { drag_start: None, ..s0 }
    } else {
        &&& u1 == u0
        &&& same_grids(c0, c1)
        &&& s1 == EditorState { drag_start: start, ..s0 }
    }
}

/// The copy and move tools: a press over the canvas starts a selection; a release over the
/// canvas takes the selected cells to the clipboard (to be moved with the move tool) and
/// switches to pasting. The canvas is left as it is.
pub open spec fn copy_effect(s0: EditorState, c0: EditorCanvas, u0: UndoView, origin: CanvasGridOrigin, input: PointerInput,
    s1: EditorState, c1: EditorCanvas, u1: UndoView) -> bool {
    let starting = input.just_pressed && input.grid_pos is Some;
    let start = if starting { grid_coord(input, origin) } else { s0.drag_start };
    let offset = if starting { None } else { s0.paste_drag_offset };
    &&& u1 == u0
    &&& same_grids(c0, c1)
    &&& if input.just_released && start is Some && input.grid_pos is Some {
        let st = start->0;
        let end = grid_coord(input, origin)->0;
        let src = ClipboardSource { x1: min_i(st.0 as int, end.0 as int) as i32, y1: min_i(st.1 as int, end.1 as int) as i32,
            x2: max_i(st.0 as int, end.0 as int) as i32, y2: max_i(st.1 as int, end.1 as int) as i32 };
        let (a, c, b, d) = (src.x1 - origin.x, src.y1 - origin.y, src.x2 - origin.x, src.y2 - origin.y);
        &&& s1.tool == ToolMode::Paste
        &&& s1.drag_start is None
        &&& s1.paste_drag_offset is None
        &&& s1.selected_tile == s0.selected_tile
        &&& s1.selected_object == s0.selected_object
        &&& s1.pattern_size == s0.pattern_size
        &&& s1.output_mult == s0.output_mult
        &&& s1.clipboard is Some
        &&& s1.clipboard->0.source == src
        &&& s1.clipboard->0.mode == (if s0.tool == ToolMode::Move { ClipboardMode::Move } else { ClipboardMode::Copy })
        &&& s1.clipboard->0.wf()
        &&& s1.clipboard->0.tile_grid() == subgrid(c0.tile_grid(), a, c, b, d)
        &&& s1.clipboard->0.object_grid() == subgrid(c0.object_grid(), a, c, b, d)
        &&& s1.clipboard->0.marker_grid() == subgrid(c0.marker_grid(), a, c, b, d)
    } else {
        s1 == EditorState { drag_start: start, paste_drag_offset: offset, ..s0 }
    }
}

/// Where `point` lies in the clipboard's source rectangle, or `(0, 0)` outside it.
pub open spec fn grab_offset(src: ClipboardSource, point: (i32, i32)) -> (i32, i32) {
    if src.x1 <= point.0 <= src.x2 && src.y1 <= point.1 <= src.y2 {
        ((point.0 - src.x1) as i32, (point.1 - src.y1) as i32)
    } else {
        (0, 0)
    }
}

/// The paste tool: a press over the canvas grabs the clipboard at the cursor's place in its
/// source; a release over the canvas records an undo step, pastes the clipboard so the grabbed
/// cell lands under the cursor, and switches back to drawing. Any release ends the grab.
pub open spec fn paste_effect(s0: EditorState, c0: EditorCanvas, u0: UndoView, origin: CanvasGridOrigin, input: PointerInput,
    s1: EditorState, c1: EditorCanvas, u1: UndoView) -> bool {
    let coord = grid_coord(input, origin);
    let offset = if input.just_pressed && coord is Some && s0.clipboard is Some {
        Some(grab_offset(s0.clipboard->0.source, coord->0))
    } else {
        s0.paste_drag_offset
    };
    if input.just_released && coord is Some && offset is Some && s0.clipboard is Some {
        let clip = s0.clipboard->0;
        let point = coord->0;
        let off = offset->0;
        let place = (point.0 - off.0 - origin.x, point.1 - off.1 - origin.y);
        let src = (clip.source.x1 - origin.x, clip.source.y1 - origin.y, clip.source.x2 - origin.x, clip.source.y2 - origin.y);
        let moving = clip.mode == ClipboardMode::Move;
        &&& u1 == with_undo(u0, c0, origin)
        &&& c1.tile_grid() == pasted(c0.tile_grid(), clip.tile_grid(), moving, src, place, Tile::Grass)
        &&& c1.object_grid() == pasted(c0.object_grid(), clip.object_grid(), moving, src, place, None)
        &&& c1.marker_grid() == pasted(c0.marker_grid(), clip.marker_grid(), moving, src, place, None)
        &&& s1 == EditorState { tool: ToolMode::Draw, drag_start: None, paste_drag_offset: None, ..s0 }
    } else {
        &&& u1 == u0
        &&& same_grids(c0, c1)
        &&& s1 == EditorState { paste_drag_offset: if input.just_released { None } else { offset }, ..s0 }
    }
}

/// The cell under the cursor lies on the canvas, and its grid position within `i32`.
pub open spec fn pointer_fits(c: EditorCanvas, origin: CanvasGridOrigin, input: PointerInput) -> bool {
    input.grid_pos matches Some(p) ==> p.0 < c.spec_width() && p.1 < c.spec_height() && p.0 <= i32::MAX && p.1 <= i32::MAX
        && origin.x + p.0 <= i32::MAX && origin.y + p.1 <= i32::MAX
}

/// The grid position of the canvas cell under the cursor.
fn coord_of(input: PointerInput, origin: CanvasGridOrigin) -> (r: Option<(i32, i32)>)
    requires
        input.grid_pos matches Some(p) ==> p.0 <= i32::MAX && p.1 <= i32::MAX && origin.x + p.0 <= i32::MAX
            && origin.y + p.1 <= i32::MAX,
    ensures
        r == grid_coord(input, origin),
{
    match input.grid_pos {
        Some((x, y)) => Some((origin.x + x as i32, origin.y + y as i32)),
        None => None,
    }
}

fn rect_step(state: &mut EditorState, canvas: &mut EditorCanvas, origin: CanvasGridOrigin, undo: &mut UndoStack,
    input: PointerInput, text: &String)
    requires
        old(canvas).wf(),
        old(state).tool == ToolMode::RectOutline || old(state).tool == ToolMode::RectFill,
        pointer_fits(*old(canvas), origin, input),
        (input.just_released && !input.just_pressed && input.grid_pos is Some && old(state).drag_start is Some)
            ==> on_canvas(*old(canvas), origin, old(state).drag_start->0),
    ensures
        final(canvas).wf(),
        final(canvas).spec_width() == old(canvas).spec_width(),
        final(canvas).spec_height() == old(canvas).spec_height(),
        rect_effect(*old(state), *old(canvas), old(undo)@, origin, input, *text, *final(state), *final(canvas), final(undo)@),
{
    if input.just_pressed {
        state.drag_start = coord_of(input, origin);
    }
    if input.just_released {
        match (state.drag_start, coord_of(input, origin)) {
            (Some(start), Some(end)) => {
                push_undo(canvas, origin, undo);
                let filled = match state.tool {
                    ToolMode::RectFill => true,
                    _ => false,
                };
                let marker = marker_from_text(text);
                canvas.paint_rect(origin, start, end, filled, state.selected_tile, state.selected_object, &marker);
                state.drag_start = None;
            },
            _ => {},
        }
    }
}

fn copy_step(state: &mut EditorState, canvas: &mut EditorCanvas, origin: CanvasGridOrigin, undo: &mut UndoStack,
    input: PointerInput)
    requires
        old(canvas).wf(),
        old(state).tool == ToolMode::Copy || old(state).tool == ToolMode::Move,
        pointer_fits(*old(canvas), origin, input),
        (input.just_released && !input.just_pressed && input.grid_pos is Some && old(state).drag_start is Some)
            ==> on_canvas(*old(canvas), origin, old(state).drag_start->0),
    ensures
        final(canvas).wf(),
        final(canvas).spec_width() == old(canvas).spec_width(),
        final(canvas).spec_height() == old(canvas).spec_height(),
        copy_effect(*old(state), *old(canvas), old(undo)@, origin, input, *final(state), *final(canvas), final(undo)@),
{
    if input.just_pressed {
        match input.grid_pos {
            Some(_) => {
                state.drag_start = coord_of(input, origin);
                state.paste_drag_offset = None;
            },
            None => {},
        }
    }
    if input.just_released {
        match (state.drag_start, coord_of(input, origin)) {
            (Some(start), Some(end)) => {
                let source = ClipboardSource::from_points(start, end);
                let mode = match state.tool {
                    ToolMode::Move => ClipboardMode::Move,
                    _ => ClipboardMode::Copy,
                };
                let clip = canvas.copy_to_clipboard(origin, source, mode);
                state.clipboard = Some(clip);
                state.tool = ToolMode::Paste;
                state.drag_start = None;
                state.paste_drag_offset = None;
            },
            _ => {},
        }
    }
}

fn paste_step(state: &mut EditorState, canvas: &mut EditorCanvas, origin: CanvasGridOrigin, undo: &mut UndoStack,
    input: PointerInput)
    requires
        old(canvas).wf(),
        old(state).tool == ToolMode::Paste,
        old(state).clipboard matches Some(c) ==> c.wf(),
        pointer_fits(*old(canvas), origin, input),
        paste_fits(*old(state), origin, input),
    ensures
        final(canvas).wf(),
        final(canvas).spec_width() == old(canvas).spec_width(),
        final(canvas).spec_height() == old(canvas).spec_height(),
        paste_effect(*old(state), *old(canvas), old(undo)@, origin, input, *final(state), *final(canvas), final(undo)@),
{
    let coord = coord_of(input, origin);
    if input.just_pressed {
        match (coord, &state.clipboard) {
            (Some(point), Some(clip)) => {
                let off = match clip.source.offset_from(point) {
                    Some(o) => o,
                    None => (0, 0),
                };
                state.paste_drag_offset = Some(off);
            },
            _ => {},
        }
    }
    if input.just_released {
        match (coord, state.paste_drag_offset, &state.clipboard) {
            (Some(point), Some(offset), Some(clip)) => {
                let top_left = (point.0 - offset.0, point.1 - offset.1);
                push_undo(canvas, origin, undo);
                canvas.paste_clipboard(origin, clip, top_left);
                state.tool = ToolMode::Draw;
                state.drag_start = None;
                state.paste_drag_offset = None;
            },
            _ => {},
        }
        state.paste_drag_offset = None;
    }
}

/// The arithmetic of grabbing and placing the clipboard stays within `i32`.
pub open spec fn paste_fits(s0: EditorState, origin: CanvasGridOrigin, input: PointerInput) -> bool {
    let coord = grid_coord(input, origin);
    (coord is Some && s0.clipboard is Some) ==> {
        let point = coord->0;
        let src = s0.clipboard->0.source;
        let offset = if input.just_pressed { Some(grab_offset(src, point)) } else { s0.paste_drag_offset };
        &&& (src.x1 <= point.0 <= src.x2 && src.y1 <= point.1 <= src.y2) ==> point.0 - src.x1 <= i32::MAX && point.1 - src.y1 <= i32::MAX
        &&& offset matches Some(o) ==> i32::MIN <= point.0 - o.0 <= i32::MAX && i32::MIN <= point.1 - o.1 <= i32::MAX
    }
}

/// A release finishing a rectangle or a selection started on an earlier frame finds its start
/// still on the canvas.
pub open spec fn drag_fits(s0: EditorState, c0: EditorCanvas, origin: CanvasGridOrigin, input: PointerInput) -> bool {
    (s0.tool == ToolMode::RectOutline || s0.tool == ToolMode::RectFill || s0.tool == ToolMode::Copy || s0.tool == ToolMode::Move)
        && input.just_released && !input.just_pressed && input.grid_pos is Some && s0.drag_start is Some
        ==> on_canvas(c0, origin, s0.drag_start->0)
}

/// One frame of the left mouse button over the canvas, handled by the current tool: drawing,
/// bucket filling, rectangles, selecting to the clipboard, or pasting (each tool's effect states
/// what changes); `marker_text` is the marker painted with (none when empty).
#[verifier::spinoff_prover]
pub fn canvas_interact(state: &mut EditorState, canvas: &mut EditorCanvas, origin: CanvasGridOrigin, undo: &mut UndoStack,
    input: PointerInput, marker_text: &String)
    requires
        old(canvas).wf(),
        pointer_fits(*old(canvas), origin, input),
        old(state).clipboard matches Some(c) ==> c.wf(),
        drag_fits(*old(state), *old(canvas), origin, input),
        old(state).tool == ToolMode::Paste ==> paste_fits(*old(state), origin, input),
    ensures
        final(canvas).wf(),
        final(canvas).spec_width() == old(canvas).spec_width(),
        final(canvas).spec_height() == old(canvas).spec_height(),
        final(state).clipboard matches Some(c) ==> c.wf(),
        match old(state).tool {
            ToolMode::Draw => draw_effect(*old(state), *old(canvas), old(undo)@, origin, input, *marker_text, *final(state),
                *final(canvas), final(undo)@),
            ToolMode::Bucket => bucket_effect(*old(state), *old(canvas), old(undo)@, origin, input, *marker_text, *final(state),
                *final(canvas), final(undo)@),
            ToolMode::RectOutline | ToolMode::RectFill => rect_effect(*old(state), *old(canvas), old(undo)@, origin, input,
                *marker_text, *final(state), *final(canvas), final(undo)@),
            ToolMode::Copy | ToolMode::Move => copy_effect(*old(state), *old(canvas), old(undo)@, origin, input, *final(state),
                *final(canvas), final(undo)@),
            ToolMode::Paste => paste_effect(*old(state), *old(canvas), old(undo)@, origin, input, *final(state), *final(canvas),
                final(undo)@),
        },
{
    match state.tool {
        ToolMode::Draw => draw_step(state, canvas, origin, undo, input, marker_text),
        ToolMode::Bucket => bucket_step(state, canvas, origin, undo, input, marker_text),
        ToolMode::RectOutline | ToolMode::RectFill => rect_step(state, canvas, origin, undo, input, marker_text),
        ToolMode::Copy | ToolMode::Move => copy_step(state, canvas, origin, undo, input),
        ToolMode::Paste => paste_step(state, canvas, origin, undo, input),
    }
}

impl UndoStack {
    /// Every snapshot is a well-formed canvas.
    pub open spec fn wf(&self) -> bool {
        forall|i: int| 0 <= i < self.0@.len() ==> (EditorCanvas { tiles: (#[trigger] self.0@[i]).0, objects: self.0@[i].1, markers: self.0@[i].2 }).wf()
    }
}

/// Steps back to the newest snapshot: the canvas and origin it holds, the canvas grown to at
/// least `min_width` by `min_height`. Returns whether there was one.
pub fn undo_last(canvas: &mut EditorCanvas, origin: &mut CanvasGridOrigin, undo: &mut UndoStack, min_width: usize, min_height: usize)
    -> (stepped: bool)
    requires
        old(undo).wf(),
    ensures
        stepped == (old(undo)@.len() > 0),
        !stepped ==> *final(canvas) == *old(canvas) && *final(origin) == *old(origin) && final(undo)@ == old(undo)@,
        stepped ==> {
            let snap = old(undo)@.last();
            let w = if snap.0.len() > 0 { snap.0[0].len() as int } else { 0 };
            let h = snap.0.len() as int;
            let tw = vstd::math::max(vstd::math::max(w, min_width as int), 1);
            let th = vstd::math::max(vstd::math::max(h, min_height as int), 1);
            &&& final(canvas).wf()
            &&& final(canvas).tile_grid() == resized(snap.0, tw, th, Tile::Grass)
            &&& final(canvas).object_grid() == resized(snap.1, tw, th, None)
            &&& final(canvas).marker_grid() == resized(snap.2, tw, th, None)
            &&& *final(origin) == snap.3
            &&& final(undo)@ == old(undo)@.drop_last()
            &&& final(undo).wf()
        },
{
    let ghost before = undo@;
    match undo.0.pop() {
        Some((tiles, objects, markers, o)) => {
            let ghost raw = old(undo).0@[old(undo).0@.len() - 1];
            assert((EditorCanvas { tiles: raw.0, objects: raw.1, markers: raw.2 }).wf());
            canvas.tiles = tiles;
            canvas.objects = objects;
            canvas.markers = markers;
            canvas.ensure_size(min_width, min_height);
            *origin = o;
            assert(undo@ =~= before.drop_last());
            true
        },
        None => false,
    }
}

/// Undoing right after recording gives back the canvas and origin that were recorded, when the
/// canvas is at least the size it must keep.
pub proof fn law_undo_restores(u: UndoView, c: EditorCanvas, o: CanvasGridOrigin, min_width: int, min_height: int)
    requires
        c.wf(),
        1 <= c.spec_width(),
        1 <= c.spec_height(),
        min_width <= c.spec_width(),
        min_height <= c.spec_height(),
    ensures
        ({
            let snap = with_undo(u, c, o).last();
            let w = if snap.0.len() > 0 { snap.0[0].len() as int } else { 0 };
            let h = snap.0.len() as int;
            let tw = vstd::math::max(vstd::math::max(w, min_width), 1);
            let th = vstd::math::max(vstd::math::max(h, min_height), 1);
            &&& resized(snap.0, tw, th, Tile::Grass) == c.tile_grid()
            &&& resized(snap.1, tw, th, None) == c.object_grid()
            &&& resized(snap.2, tw, th, None) == c.marker_grid()
            &&& snap.3 == o
            &&& with_undo(u, c, o).drop_last() == (if u.len() + 1 > UNDO_LIMIT { u.drop_first() } else { u })
        }),
{
    let w = c.spec_width();
    let h = c.spec_height();
    lemma_rows_dims(c.tiles@, w, h);
    lemma_rows_dims(c.objects@, w, h);
    lemma_rows_dims(c.markers@, w, h);
    lemma_resized_same(c.tile_grid(), w, h, Tile::Grass);
    lemma_resized_same(c.object_grid(), w, h, None);
    lemma_resized_same(c.marker_grid(), w, h, None);
    let pushed = u.push((c.tile_grid(), c.object_grid(), c.marker_grid(), o));
    if pushed.len() > UNDO_LIMIT {
        assert(pushed.drop_first().drop_last() =~= u.drop_first());
    } else {
        assert(pushed.drop_last() =~= u);
    }
}

proof fn lemma_resized_same<T>(g: Seq<Seq<T>>, w: int, h: int, fill: T)
    requires
        g.len() == h,
        forall|y: int| 0 <= y < h ==> #[trigger] g[y].len() == w,
        w >= 0,
    ensures
        resized(g, w, h, fill) == g,
{
    let r = resized(g, w, h, fill);
    assert forall|y: int| 0 <= y < h implies #[trigger] r[y] == g[y] by {
        assert(r[y] =~= g[y]);
    }
    assert(r =~= g);
}

} // verus!
