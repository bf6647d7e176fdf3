//! Column layout of the growable flat texture atlas.
//!
//! Images are packed left to right into columns; each column remembers how far up it is
//! filled. A new image goes above the first column that has the height and width for it, widens
//! the last column when it does not fit, opens a new column to the right, or, failing all of
//! these, grows the atlas by its initial size in both directions and tries again.
use vstd::prelude::*;

verus! {

/// Columns in the layout are aligned on this many texels so that texture writes can happen
/// concurrently without stomping on each other.
pub const BLOCK_SIZE: u32 = 16;

/// Padding applied all the way around every image.
pub const DEFAULT_PADDING: u32 = 1;

/// `v` rounded up to a multiple of the block size.
pub open spec fn align_spec(v: int) -> int {
    ((v + 15) / 16) * 16
}

/// Rounding up moves a value by less than one block.
pub proof fn lemma_align_bounds(v: int)
    ensures
        v <= align_spec(v) < v + 16,
{
}

/// Round `v` up to a multiple of the block size.
pub fn align(v: u32) -> (r: u32)
    requires
        v <= u32::MAX - 15,
    ensures
        r == align_spec(v as int),
        v <= r < v + 16,
{
    let t = v + 15;
    let r = t & !15u32;
    assert((t & !15u32) == (t / 16) * 16) by (bit_vector)
        requires
            t <= 0xffff_ffffu32,
    ;
    r
}

/// Each column records the filled height up to its right edge.
#[derive(Copy, Clone, Debug)]
pub struct Column {
    pub fill_height: u32,
    pub x_end: u32,
}

impl Column {
    /// A column that ends at `x_offset` and is filled up to `fill_height`.
    pub fn new(fill_height: u32, x_offset: u32) -> (r: Self)
        ensures
            r.fill_height == fill_height,
            r.x_end == x_offset,
    {
        Self { fill_height, x_end: x_offset }
    }
}

/// Whether the texture has to be re-created (with the region to copy over) before the next upload.
#[derive(Copy, Clone, Debug, PartialEq, Eq)]
pub enum DirtyState {
    Clean,
    RecreateTexture((u32, u32)),
}

/// Where an image landed in the atlas: `s` runs along x, `t0` is the far edge in y and `t1` the
/// near one.
#[derive(Copy, Clone, Debug)]
pub struct Frame {
    pub s0: u32,
    pub s1: u32,
    pub t0: u32,
    pub t1: u32,
}

impl Frame {
    /// The frame of a `width` by `height` image whose near corner is at `x`, `y`.
    pub fn new(x: u32, y: u32, width: u32, height: u32) -> (r: Self)
        requires
            x + width <= u32::MAX,
            y + height <= u32::MAX,
        ensures
            r.s0 == x,
            r.s1 == x + width,
            r.t0 == y + height,
            r.t1 == y,
    {
        Self { s0: x, s1: x + width, t0: y + height, t1: y }
    }

    /// The raw texel coordinates of (s0, t0).
    pub fn raw_base(&self) -> (r: (u32, u32))
        ensures
            r == (self.s0, self.t0),
    {
        (self.s0, self.t0)
    }
}

/// Why a layout request was refused: the columns it would leave behind break the column
/// constraints (each column ends right of the previous one, inside the atlas, filled no higher
/// than the atlas).
#[derive(Copy, Clone, Debug, PartialEq, Eq, Structural)]
pub enum LayoutError {
    ColumnConstraint,
}

/// A column as (fill height, right edge).
pub type ColumnView = (int, int);

/// An image placed in the atlas: the near corner of its padded box, the image size, the padding
/// around it, and the column whose filled region holds it.
pub struct PlacedBox {
    pub x: int,
    pub y: int,
    pub w: int,
    pub h: int,
    pub p: int,
    pub column: int,
}

/// The abstract state of a layout: sizes, columns, the texture region to carry over when the
/// atlas grew since the last upload, and every image placed so far.
pub struct LayoutView {
    pub initial_width: int,
    pub initial_height: int,
    pub padding: int,
    pub width: int,
    pub height: int,
    pub columns: Seq<ColumnView>,
    pub dirty: Option<(int, int)>,
    pub boxes: Seq<PlacedBox>,
}

/// `v`, or `limit` where `v` exceeds it.
pub open spec fn capped(v: int, limit: int) -> int {
    if v <= limit {
        v
    } else {
        limit
    }
}

/// Left edge of column `i`: the right edge of the column before it.
pub open spec fn col_start(cols: Seq<ColumnView>, i: int) -> int {
    if i == 0 {
        0
    } else {
        cols[i - 1].1
    }
}

/// The column constraints: at least one column, right edges strictly increasing and inside the
/// atlas, fills inside the atlas.
pub open spec fn columns_ok(cols: Seq<ColumnView>, width: int, height: int) -> bool {
    &&& cols.len() >= 1
    &&& forall|i: int| 0 <= i < cols.len() ==> 0 <= #[trigger] cols[i].0 <= height
    &&& forall|i: int| 0 <= i < cols.len() ==> 0 <= #[trigger] cols[i].1 <= width
    &&& forall|i: int| 0 < i < cols.len() ==> col_start(cols, i) < #[trigger] cols[i].1
}

/// Column `i` has room above it for the padded image, within its own width.
pub open spec fn fits_above(v: LayoutView, i: int, w: int, h: int) -> bool {
    &&& h + 2 * v.padding <= v.height - v.columns[i].0
    &&& w + 2 * v.padding <= v.columns[i].1 - col_start(v.columns, i)
}

/// Column `i` is the last one, has height for the padded image, and the atlas is wide enough to
/// widen it to take the image.
pub open spec fn widens(v: LayoutView, i: int, w: int, h: int) -> bool {
    &&& h + 2 * v.padding <= v.height - v.columns[i].0
    &&& v.columns[i].1 == v.columns.last().1
    &&& col_start(v.columns, i) + w + 2 * v.padding <= v.width
}

/// Column `i` takes the image, by either rule.
pub open spec fn accepts(v: LayoutView, i: int, w: int, h: int) -> bool {
    fits_above(v, i, w, h) || widens(v, i, w, h)
}

/// The first column at or after `i` that takes the image.
pub open spec fn first_accepting(v: LayoutView, i: int, w: int, h: int) -> Option<int>
    decreases v.columns.len() - i,
{
    if i < 0 || i >= v.columns.len() {
        None
    } else if accepts(v, i, w, h) {
        Some(i)
    } else {
        first_accepting(v, i + 1, w, h)
    }
}

/// One placement attempt on the current atlas size.
pub enum Attempt {
    Placed { x: int, y: int, column: int, columns: Seq<ColumnView> },
    Grow,
}

/// The outcome of one placement attempt. The image goes above the first column that takes it,
/// which then fills up to the next block above the image; a widened last column ends at the next
/// block right of the image. Neither passes the edge of the atlas. A column that fits the image
/// keeps its right edge, so it never reaches into its neighbour. With no such column, a new
/// column opens right of the last one when there is room, else the atlas has to grow.
pub open spec fn attempt(v: LayoutView, w: int, h: int) -> Attempt {
    let p = v.padding;
    match first_accepting(v, 0, w, h) {
        Some(i) => {
            let c = v.columns[i];
            let x = col_start(v.columns, i);
            let new_end = if fits_above(v, i, w, h) {
                c.1
            } else {
                capped(align_spec(x + w + 2 * p), v.width)
            };
            Attempt::Placed {
                x,
                y: c.0,
                column: i,
                columns: v.columns.update(i, (capped(align_spec(c.0 + h + 2 * p), v.height), new_end)),
            }
        },
        None => {
            let x_last = v.columns.last().1;
            if v.width - x_last > w + 2 * p {
                Attempt::Placed {
                    x: x_last,
                    y: 0,
                    column: v.columns.len() as int,
                    columns: v.columns.push((capped(align_spec(h + 2 * p), v.height), x_last + w + 2 * p)),
                }
            } else {
                Attempt::Grow
            }
        },
    }
}

/// The atlas grown by its initial size; the first growth since the last upload records the
/// region that has to be carried over into the new texture.
pub open spec fn grown(v: LayoutView) -> LayoutView {
    LayoutView {
        width: v.width + v.initial_width,
        height: v.height + v.initial_height,
        dirty: if v.dirty is None {
            Some((v.width, v.height))
        } else {
            v.dirty
        },
        ..v
    }
}

/// The result of an attempt to place a `w` by `h` image on `v`: the placement is kept, and the
/// image recorded, when the columns it leaves behind meet the column constraints.
pub open spec fn settle(v: LayoutView, a: Attempt, w: int, h: int) -> (
    Result<(int, int), LayoutError>,
    LayoutView,
) {
    match a {
        Attempt::Placed { x, y, column, columns } => if columns_ok(columns, v.width, v.height) {
            (
                Ok((x, y)),
                LayoutView {
                    columns,
                    boxes: v.boxes.push(PlacedBox { x, y, w, h, p: v.padding, column }),
                    ..v
                },
            )
        } else {
            (Err(LayoutError::ColumnConstraint), v)
        },
        Attempt::Grow => (Err(LayoutError::ColumnConstraint), v),
    }
}

/// The full layout of a `w` by `h` image: try, and when there is no room, grow and try again.
pub open spec fn layout_spec(v: LayoutView, w: int, h: int) -> (
    Result<(int, int), LayoutError>,
    LayoutView,
) {
    if attempt(v, w, h) is Grow {
        settle(grown(v), attempt(grown(v), w, h), w, h)
    } else {
        settle(v, attempt(v, w, h), w, h)
    }
}

/// The half-open rectangles [x0, x1) x [y0, y1) and [a0, a1) x [b0, b1) share a point.
pub open spec fn rects_meet(
    x0: int,
    y0: int,
    x1: int,
    y1: int,
    a0: int,
    b0: int,
    a1: int,
    b1: int,
) -> bool {
    x0 < a1 && a0 < x1 && y0 < b1 && b0 < y1
}

/// The padded boxes of two placed images share a point.
pub open spec fn boxes_meet(a: PlacedBox, b: PlacedBox) -> bool {
    rects_meet(
        a.x,
        a.y,
        a.x + a.w + 2 * a.p,
        a.y + a.h + 2 * a.p,
        b.x,
        b.y,
        b.x + b.w + 2 * b.p,
        b.y + b.h + 2 * b.p,
    )
}

/// The frames of two placed images (the images without their padding) share a point.
pub open spec fn frames_meet(a: PlacedBox, b: PlacedBox) -> bool {
    rects_meet(
        a.x + a.p,
        a.y + a.p,
        a.x + a.p + a.w,
        a.y + a.p + a.h,
        b.x + b.p,
        b.y + b.p,
        b.x + b.p + b.w,
        b.y + b.p + b.h,
    )
}

/// A placed image lies, padding included, inside the filled region of its column.
pub open spec fn box_in_column(cols: Seq<ColumnView>, b: PlacedBox) -> bool {
    &&& 0 <= b.column < cols.len()
    &&& 0 <= b.y
    &&& 0 <= b.w
    &&& 0 <= b.h
    &&& 0 <= b.p
    &&& col_start(cols, b.column) <= b.x
    &&& b.x + b.w + 2 * b.p <= cols[b.column].1
    &&& b.y + b.h + 2 * b.p <= cols[b.column].0
}

/// Every placed image lies in its column, and no two placed images overlap.
pub open spec fn boxes_ok(cols: Seq<ColumnView>, boxes: Seq<PlacedBox>) -> bool {
    &&& forall|i: int| 0 <= i < boxes.len() ==> box_in_column(cols, #[trigger] boxes[i])
    &&& forall|i: int, j: int|
        0 <= i < boxes.len() && 0 <= j < boxes.len() && i != j ==> !boxes_meet(
            #[trigger] boxes[i],
            #[trigger] boxes[j],
        )
}

/// A consistent layout: a non-empty atlas at least its initial size, the column constraints,
/// and the placed images apart from each other inside their columns.
pub open spec fn layout_ok(v: LayoutView) -> bool {
    &&& v.initial_width >= 1
    &&& v.initial_height >= 1
    &&& v.initial_width <= v.width
    &&& v.initial_height <= v.height
    &&& v.padding >= 0
    &&& columns_ok(v.columns, v.width, v.height)
    &&& boxes_ok(v.columns, v.boxes)
}

/// Skipping columns that refuse the image does not change which column takes it.
pub proof fn lemma_first_accepting_skip(v: LayoutView, i: int, w: int, h: int)
    requires
        0 <= i <= v.columns.len(),
        forall|j: int| 0 <= j < i ==> !accepts(v, j, w, h),
    ensures
        first_accepting(v, 0, w, h) == first_accepting(v, i, w, h),
    decreases i,
{
    if i > 0 {
        lemma_first_accepting_skip(v, i - 1, w, h);
    }
}

/// `first_accepting` names a column that takes the image, and no earlier column does.
pub proof fn lemma_first_accepting_found(v: LayoutView, i: int, w: int, h: int)
    requires
        0 <= i,
    ensures
        first_accepting(v, i, w, h) matches Some(k) ==> i <= k < v.columns.len() && accepts(
            v,
            k,
            w,
            h,
        ) && forall|j: int| i <= j < k ==> !accepts(v, j, w, h),
        first_accepting(v, i, w, h) is None ==> forall|j: int|
            i <= j < v.columns.len() ==> !accepts(v, j, w, h),
    decreases v.columns.len() - i,
{
    if i < v.columns.len() && !accepts(v, i, w, h) {
        lemma_first_accepting_found(v, i + 1, w, h);
    }
}
/// Replacing one column of well-formed columns keeps them well-formed exactly when the new
/// column is inside the atlas and sits strictly between its neighbours.
pub proof fn lemma_update_ok(cols: Seq<ColumnView>, i: int, c: ColumnView, width: int, height: int)
    requires
        columns_ok(cols, width, height),
        0 <= i < cols.len(),
    ensures
        columns_ok(cols.update(i, c), width, height) <==> {
            &&& 0 <= c.0 <= height
            &&& 0 <= c.1 <= width
            &&& (i > 0 ==> col_start(cols, i) < c.1)
            &&& (i + 1 < cols.len() ==> c.1 < cols[i + 1].1)
        },
{
    let n = cols.update(i, c);
    if columns_ok(n, width, height) {
        assert(n[i] == c);
        if i + 1 < cols.len() {
            assert(n[i + 1] == cols[i + 1]);
            assert(col_start(n, i + 1) == c.1);
        }
        if i > 0 {
            assert(col_start(n, i) == col_start(cols, i));
        }
    }
    if 0 <= c.0 <= height && 0 <= c.1 <= width && (i > 0 ==> col_start(cols, i) < c.1) && (i + 1
        < cols.len() ==> c.1 < cols[i + 1].1) {
        assert forall|j: int| 0 < j < n.len() implies col_start(n, j) < #[trigger] n[j].1 by {
            if j == i {
            } else if j == i + 1 {
                assert(col_start(n, j) == c.1);
            } else {
                assert(col_start(n, j) == col_start(cols, j));
            }
        }
        assert forall|j: int| 0 <= j < n.len() implies 0 <= #[trigger] n[j].0 <= height by {
            if j != i {
                assert(n[j] == cols[j]);
            }
        }
        assert forall|j: int| 0 <= j < n.len() implies 0 <= #[trigger] n[j].1 <= width by {
            if j != i {
                assert(n[j] == cols[j]);
            }
        }
    }
}

/// Appending a column keeps well-formed columns well-formed exactly when it is inside the atlas
/// and ends right of the last column.
pub proof fn lemma_push_ok(cols: Seq<ColumnView>, c: ColumnView, width: int, height: int)
    requires
        columns_ok(cols, width, height),
    ensures
        columns_ok(cols.push(c), width, height) <==> {
            &&& 0 <= c.0 <= height
            &&& 0 <= c.1 <= width
            &&& cols.last().1 < c.1
        },
{
    let n = cols.push(c);
    let k = cols.len() as int;
    if columns_ok(n, width, height) {
        assert(n[k] == c);
        assert(col_start(n, k) == cols.last().1);
    }
    if 0 <= c.0 <= height && 0 <= c.1 <= width && cols.last().1 < c.1 {
        assert forall|j: int| 0 < j < n.len() implies col_start(n, j) < #[trigger] n[j].1 by {
            if j < k {
                assert(col_start(n, j) == col_start(cols, j));
            }
        }
        assert forall|j: int| 0 <= j < n.len() implies 0 <= #[trigger] n[j].0 <= height by {
            if j < k {
                assert(n[j] == cols[j]);
            }
        }
        assert forall|j: int| 0 <= j < n.len() implies 0 <= #[trigger] n[j].1 <= width by {
            if j < k {
                assert(n[j] == cols[j]);
            }
        }
    }
}

/// Well-formed columns stay well-formed in a larger atlas.
pub proof fn lemma_columns_ok_larger(cols: Seq<ColumnView>, w0: int, h0: int, w1: int, h1: int)
    requires
        columns_ok(cols, w0, h0),
        w0 <= w1,
        h0 <= h1,
    ensures
        columns_ok(cols, w1, h1),
{
}

/// Right edges of well-formed columns increase: a column's left edge is at most its right edge,
/// and every column ends no further right than the last.
pub proof fn lemma_columns_ordered(cols: Seq<ColumnView>, width: int, height: int, i: int, j: int)
    requires
        columns_ok(cols, width, height),
        0 <= i <= j < cols.len(),
    ensures
        cols[i].1 <= cols[j].1,
        col_start(cols, i) <= cols[i].1,
        i < j ==> cols[i].1 <= col_start(cols, j),
    decreases j - i,
{
    if i < j {
        lemma_columns_ordered(cols, width, height, i, j - 1);
        assert(col_start(cols, j) == cols[j - 1].1);
    }
    if i > 0 {
        assert(col_start(cols, i) < cols[i].1);
    }
}


/// Under the column constraints, only the last column ends at the last right edge.
pub proof fn lemma_last_column(cols: Seq<ColumnView>, width: int, height: int, i: int)
    requires
        columns_ok(cols, width, height),
        0 <= i < cols.len(),
        cols[i].1 == cols.last().1,
    ensures
        i == cols.len() - 1,
{
    let n = cols.len() as int;
    if i < n - 1 {
        lemma_columns_ordered(cols, width, height, i, n - 1);
        assert(col_start(cols, n - 1) < cols[n - 1].1);
    }
}

/// The columns an attempt leaves behind meet the column constraints, except when a new column
/// would open for an image that has no width even with its padding.
pub proof fn lemma_attempt_columns_ok(v: LayoutView, w: int, h: int)
    requires
        columns_ok(v.columns, v.width, v.height),
        v.padding >= 0,
        w >= 0,
        h >= 0,
        first_accepting(v, 0, w, h) is Some || w + 2 * v.padding >= 1,
    ensures
        attempt(v, w, h) matches Attempt::Placed { columns, .. } ==> columns_ok(
            columns,
            v.width,
            v.height,
        ),
{
    let cols = v.columns;
    let n = cols.len() as int;
    let p = v.padding;
    lemma_first_accepting_found(v, 0, w, h);
    lemma_columns_ordered(cols, v.width, v.height, n - 1, n - 1);
    match first_accepting(v, 0, w, h) {
        Some(i) => {
            let c = cols[i];
            let x = col_start(cols, i);
            lemma_columns_ordered(cols, v.width, v.height, i, i);
            assert(0 <= c.0 <= v.height);
            assert(0 <= c.1 <= v.width);
            lemma_align_bounds(c.0 + h + 2 * p);
            lemma_align_bounds(x + w + 2 * p);
            if !fits_above(v, i, w, h) {
                lemma_last_column(cols, v.width, v.height, i);
            }
            let new_end = if fits_above(v, i, w, h) {
                c.1
            } else {
                capped(align_spec(x + w + 2 * p), v.width)
            };
            let nc = (capped(align_spec(c.0 + h + 2 * p), v.height), new_end);
            lemma_update_ok(cols, i, nc, v.width, v.height);
            if i + 1 < n {
                assert(col_start(cols, i + 1) == c.1);
            }
        },
        None => {
            lemma_align_bounds(h + 2 * p);
            let nc = (capped(align_spec(h + 2 * p), v.height), cols.last().1 + w + 2 * p);
            lemma_push_ok(cols, nc, v.width, v.height);
        },
    }
}

/// A placement whose columns meet the column constraints keeps the layout consistent: the new
/// image lies in its column and overlaps no image placed before.
pub proof fn lemma_attempt_keeps_layout(v: LayoutView, w: int, h: int)
    requires
        layout_ok(v),
        w >= 0,
        h >= 0,
        w + 2 * v.padding <= v.initial_width,
        h + 2 * v.padding <= v.initial_height,
        attempt(v, w, h) matches Attempt::Placed { columns, .. } && columns_ok(
            columns,
            v.width,
            v.height,
        ),
    ensures
        settle(v, attempt(v, w, h), w, h).0 is Ok,
        layout_ok(settle(v, attempt(v, w, h), w, h).1),
{
    let cols = v.columns;
    let n = cols.len() as int;
    let p = v.padding;
    let (x, y, k, nc) = match attempt(v, w, h) {
        Attempt::Placed { x, y, column, columns } => (x, y, column, columns),
        Attempt::Grow => (0, 0, 0, cols),
    };
    let nb = PlacedBox { x, y, w, h, p, column: k };
    let old_boxes = v.boxes;
    let boxes = old_boxes.push(nb);
    lemma_first_accepting_found(v, 0, w, h);
    lemma_columns_ordered(cols, v.width, v.height, n - 1, n - 1);
    match first_accepting(v, 0, w, h) {
        Some(i) => {
            let c = cols[i];
            lemma_columns_ordered(cols, v.width, v.height, i, i);
            assert(0 <= c.0 <= v.height);
            assert(0 <= c.1 <= v.width);
            lemma_align_bounds(c.0 + h + 2 * p);
            lemma_align_bounds(x + w + 2 * p);
            if !fits_above(v, i, w, h) {
                lemma_last_column(cols, v.width, v.height, i);
            }
            assert(nc[i].0 >= c.0 + h + 2 * p);
            assert(nc[i].1 >= c.1);
            assert(nc[i].1 >= x + w + 2 * p);
            assert forall|j: int| 0 <= j < n implies col_start(nc, j) == col_start(cols, j)
                && #[trigger] nc[j].0 >= cols[j].0 && nc[j].1 >= cols[j].1 by {
                if j > 0 && j - 1 != i {
                    assert(nc[j - 1] == cols[j - 1]);
                }
                if j != i {
                    assert(nc[j] == cols[j]);
                }
            }
            assert forall|b: int| 0 <= b < old_boxes.len() implies !boxes_meet(
                nb,
                #[trigger] old_boxes[b],
            ) && !boxes_meet(old_boxes[b], nb) by {
                let ob = old_boxes[b];
                assert(box_in_column(cols, ob));
                if ob.column < i {
                    lemma_columns_ordered(cols, v.width, v.height, ob.column, i);
                } else if ob.column > i {
                    lemma_columns_ordered(cols, v.width, v.height, i, ob.column);
                }
            }
        },
        None => {
            lemma_align_bounds(h + 2 * p);
            assert(nc[n].0 >= h + 2 * p);
            assert forall|j: int| 0 <= j < n implies col_start(nc, j) == col_start(cols, j)
                && #[trigger] nc[j].0 >= cols[j].0 && nc[j].1 >= cols[j].1 by {
                assert(nc[j] == cols[j]);
                if j > 0 {
                    assert(nc[j - 1] == cols[j - 1]);
                }
            }
            assert(col_start(nc, n) == cols[n - 1].1);
            assert forall|b: int| 0 <= b < old_boxes.len() implies !boxes_meet(
                nb,
                #[trigger] old_boxes[b],
            ) && !boxes_meet(old_boxes[b], nb) by {
                let ob = old_boxes[b];
                assert(box_in_column(cols, ob));
                lemma_columns_ordered(cols, v.width, v.height, ob.column, n - 1);
            }
        },
    }
    assert(box_in_column(nc, nb));
    assert forall|i: int| 0 <= i < boxes.len() implies box_in_column(nc, #[trigger] boxes[i]) by {
        if i < old_boxes.len() {
            assert(boxes[i] == old_boxes[i]);
            assert(box_in_column(cols, old_boxes[i]));
            let cj = old_boxes[i].column;
            assert(nc[cj].0 >= cols[cj].0);
        }
    }
    assert forall|i: int, j: int|
        0 <= i < boxes.len() && 0 <= j < boxes.len() && i != j implies !boxes_meet(
        #[trigger] boxes[i],
        #[trigger] boxes[j],
    ) by {
        if i < old_boxes.len() {
            assert(boxes[i] == old_boxes[i]);
        }
        if j < old_boxes.len() {
            assert(boxes[j] == old_boxes[j]);
        }
        if i < old_boxes.len() && j < old_boxes.len() {
            assert(!boxes_meet(old_boxes[i], old_boxes[j]));
        } else if i < old_boxes.len() {
            assert(!boxes_meet(old_boxes[i], nb));
        } else {
            assert(!boxes_meet(nb, old_boxes[j]));
        }
    }
    assert(settle(v, attempt(v, w, h), w, h).1.boxes == boxes);
}

/// After one growth, the last column always takes an image that fits the initial size.
pub proof fn lemma_grown_accepts(v: LayoutView, w: int, h: int)
    requires
        layout_ok(v),
        w >= 0,
        h >= 0,
        w + 2 * v.padding <= v.initial_width,
        h + 2 * v.padding <= v.initial_height,
    ensures
        layout_ok(grown(v)),
        first_accepting(grown(v), 0, w, h) is Some,
        !(attempt(grown(v), w, h) is Grow),
{
    let g = grown(v);
    let n = v.columns.len() as int;
    lemma_columns_ok_larger(v.columns, v.width, v.height, g.width, g.height);
    lemma_columns_ordered(v.columns, v.width, v.height, n - 1, n - 1);
    assert(accepts(g, n - 1, w, h));
    lemma_first_accepting_found(g, 0, w, h);
}

/// Every image that fits the initial size of the atlas, padding included, is placed, growing
/// the atlas once when the current size has no room; an image without width even with its
/// padding is the one exception. A placement keeps the layout consistent, and a refusal
/// changes nothing.
pub proof fn lemma_layout_places(v: LayoutView, w: int, h: int)
    requires
        layout_ok(v),
        w >= 0,
        h >= 0,
        w + 2 * v.padding <= v.initial_width,
        h + 2 * v.padding <= v.initial_height,
    ensures
        w + 2 * v.padding >= 1 ==> layout_spec(v, w, h).0 is Ok,
        layout_spec(v, w, h).0 is Ok ==> layout_ok(layout_spec(v, w, h).1),
        layout_spec(v, w, h).0 is Err ==> layout_spec(v, w, h).1 == v,
{
    if attempt(v, w, h) is Grow {
        lemma_grown_accepts(v, w, h);
        lemma_attempt_columns_ok(grown(v), w, h);
        lemma_attempt_keeps_layout(grown(v), w, h);
    } else {
        if first_accepting(v, 0, w, h) is Some || w + 2 * v.padding >= 1 {
            lemma_attempt_columns_ok(v, w, h);
        }
        let a = attempt(v, w, h);
        if a matches Attempt::Placed { columns, .. } && columns_ok(columns, v.width, v.height) {
            lemma_attempt_keeps_layout(v, w, h);
        }
    }
}

/// A layout keeps the region to carry over into a re-created texture as the size of the texture
/// still bound: a placement leaves a pending region as it is, and with none pending records the
/// size before the placement exactly when the placement grew the atlas.
pub proof fn lemma_layout_keeps_dirty_region(v: LayoutView, w: int, h: int)
    requires
        layout_ok(v),
        w >= 0,
        h >= 0,
        w + 2 * v.padding <= v.initial_width,
        h + 2 * v.padding <= v.initial_height,
    ensures
        ({
            let after = layout_spec(v, w, h).1;
            &&& v.dirty is Some ==> after.dirty == v.dirty
            &&& v.dirty is None && after.width == v.width ==> after.dirty is None
            &&& v.dirty is None && after.width != v.width ==> after.dirty == Some((v.width, v.height))
            &&& after.width == v.width || after.width == v.width + v.initial_width
            &&& after.height == v.height || after.height == v.height + v.initial_height
        }),
{
}

/// No two images placed in a consistent layout overlap, and each image lies inside the atlas
/// with its padding all around it.
pub proof fn lemma_placed_frames_apart(v: LayoutView, i: int, j: int)
    requires
        layout_ok(v),
        0 <= i < v.boxes.len(),
        0 <= j < v.boxes.len(),
    ensures
        i != j ==> !frames_meet(v.boxes[i], v.boxes[j]),
        v.boxes[i].p <= v.boxes[i].x + v.boxes[i].p,
        v.boxes[i].x + v.boxes[i].p + v.boxes[i].w <= v.width - v.boxes[i].p,
        v.boxes[i].p <= v.boxes[i].y + v.boxes[i].p,
        v.boxes[i].y + v.boxes[i].p + v.boxes[i].h <= v.height - v.boxes[i].p,
{
    let a = v.boxes[i];
    let b = v.boxes[j];
    assert(box_in_column(v.columns, a));
    assert(box_in_column(v.columns, b));
    lemma_columns_ordered(v.columns, v.width, v.height, a.column, a.column);
    assert(0 <= v.columns[a.column].0 <= v.height);
    assert(0 <= v.columns[a.column].1 <= v.width);
    if i != j {
        assert(!boxes_meet(a, b));
    }
}

/// The packing state of a growable flat atlas.
pub struct FlatLayout {
    initial_width: u32,
    initial_height: u32,
    padding: u32,
    width: u32,
    height: u32,
    columns: Vec<Column>,
    dirty_region: DirtyState,
    placed: Ghost<Seq<PlacedBox>>,
}

impl View for FlatLayout {
    type V = LayoutView;

    closed spec fn view(&self) -> LayoutView {
        LayoutView {
            initial_width: self.initial_width as int,
            initial_height: self.initial_height as int,
            padding: self.padding as int,
            width: self.width as int,
            height: self.height as int,
            columns: self.columns@.map_values(|c: Column| (c.fill_height as int, c.x_end as int)),
            dirty: match self.dirty_region {
                DirtyState::Clean => None,
                DirtyState::RecreateTexture((x, y)) => Some((x as int, y as int)),
            },
            boxes: self.placed@,
        }
    }
}

/// Room left in `u32` for one growth of the atlas.
pub open spec fn has_headroom(v: LayoutView) -> bool {
    &&& v.width + v.initial_width + 16 <= u32::MAX
    &&& v.height + v.initial_height + 16 <= u32::MAX
}

impl FlatLayout {
    /// The layout is consistent (see `layout_ok`).
    pub open spec fn wf(&self) -> bool {
        layout_ok(self@)
    }

    /// An empty layout of the given initial size with the default padding.
    pub fn new(initial_width: u32, initial_height: u32) -> (r: Self)
        requires
            initial_width >= 1,
            initial_height >= 1,
        ensures
            r.wf(),
            r@.initial_width == initial_width,
            r@.initial_height == initial_height,
            r@.width == initial_width,
            r@.height == initial_height,
            r@.padding == DEFAULT_PADDING,
            r@.columns == seq![(0int, 0int)],
            r@.dirty is None,
            r@.boxes.len() == 0,
    {
        let mut columns = Vec::new();
        columns.push(Column::new(0, 0));
        let r = Self {
            initial_width,
            initial_height,
            padding: DEFAULT_PADDING,
            width: initial_width,
            height: initial_height,
            columns,
            dirty_region: DirtyState::Clean,
            placed: Ghost(Seq::empty()),
        };
        assert(r@.columns =~= seq![(0int, 0int)]);
        r
    }

    /// The current width of the atlas.
    pub fn width(&self) -> (r: u32)
        ensures
            r == self@.width,
    {
        self.width
    }

    /// The current height of the atlas.
    pub fn height(&self) -> (r: u32)
        ensures
            r == self@.height,
    {
        self.height
    }

    /// The padding around each image.
    pub fn padding(&self) -> (r: u32)
        ensures
            r == self@.padding,
    {
        self.padding
    }

    /// The region to carry over into a re-created texture, if the atlas grew since the last
    /// upload.
    pub fn dirty_region(&self) -> (r: DirtyState)
        ensures
            match r {
                DirtyState::Clean => self@.dirty is None,
                DirtyState::RecreateTexture((x, y)) => self@.dirty == Some((x as int, y as int)),
            },
    {
        self.dirty_region
    }

    /// Forget the pending re-creation once the texture has been replaced.
    pub fn mark_clean(&mut self)
        ensures
            final(self)@ == (LayoutView { dirty: None, ..old(self)@ }),
    {
        self.dirty_region = DirtyState::Clean;
    }

    /// Bytes of the whole atlas at `pixel_size` bytes per texel.
    pub fn atlas_size(&self, pixel_size: usize) -> (r: usize)
        requires
            self@.width * self@.height <= usize::MAX,
            self@.width * self@.height * pixel_size <= usize::MAX,
        ensures
            r == self@.width * self@.height * pixel_size,
    {
        let texels = self.width as usize * self.height as usize;
        texels * pixel_size
    }

    /// Grow the atlas by its initial size in both directions.
    fn grow(&mut self)
        requires
            old(self).wf(),
            old(self)@.width + old(self)@.initial_width <= u32::MAX,
            old(self)@.height + old(self)@.initial_height <= u32::MAX,
        ensures
            final(self)@ == grown(old(self)@),
    {
        let prior_width = self.width;
        let prior_height = self.height;
        self.width = self.width + self.initial_width;
        self.height = self.height + self.initial_height;
        match self.dirty_region {
            DirtyState::Clean => {
                self.dirty_region = DirtyState::RecreateTexture((prior_width, prior_height));
            },
            DirtyState::RecreateTexture(_) => {},
        }
        assert(self@ == grown(old(self)@));
    }

    /// Find the first column that takes a `w` by `h` image, and its left edge.
    fn find_column(&self, w: u32, h: u32) -> (r: (Option<(usize, bool)>, u32))
        requires
            self.wf(),
            self@.width + 16 <= u32::MAX,
            self@.height + 16 <= u32::MAX,
            w + 2 * self@.padding <= self@.initial_width,
            h + 2 * self@.padding <= self@.initial_height,
        ensures
            match r.0 {
                Some((k, fits)) => first_accepting(self@, 0, w as int, h as int) == Some(k as int)
                    && fits == fits_above(self@, k as int, w as int, h as int) && r.1
                    == col_start(self@.columns, k as int),
                None => first_accepting(self@, 0, w as int, h as int) is None,
            },
    {
        let ghost v = self@;
        let p = self.padding;
        let wp = w + 2 * p;
        let hp = h + 2 * p;
        let n = self.columns.len();
        let x_last = self.columns[n - 1].x_end;
        let mut x_column_start: u32 = 0;
        let mut i: usize = 0;
        while i < n
            invariant
                self@ == v,
                self.wf(),
                n == v.columns.len(),
                x_last == v.columns.last().1,
                wp == w + 2 * v.padding,
                hp == h + 2 * v.padding,
                0 <= i <= n,
                x_column_start == col_start(v.columns, i as int),
                x_column_start <= v.width,
                forall|j: int| 0 <= j < i ==> !accepts(v, j, w as int, h as int),
            decreases n - i,
        {
            let c = self.columns[i];
            proof {
                assert(v.columns[i as int] == (c.fill_height as int, c.x_end as int));
                lemma_columns_ordered(v.columns, v.width, v.height, i as int, i as int);
                assert(0 <= v.columns[i as int].0 <= v.height);
                assert(0 <= v.columns[i as int].1 <= v.width);
            }
            if hp <= self.height - c.fill_height {
                if wp <= c.x_end - x_column_start {
                    proof {
                        lemma_first_accepting_skip(v, i as int, w as int, h as int);
                    }
                    return (Some((i, true)), x_column_start);
                } else if c.x_end == x_last && wp <= self.width - x_column_start {
                    proof {
                        lemma_first_accepting_skip(v, i as int, w as int, h as int);
                    }
                    return (Some((i, false)), x_column_start);
                }
            }
            x_column_start = c.x_end;
            i = i + 1;
        }
        proof {
            lemma_first_accepting_skip(v, i as int, w as int, h as int);
        }
        (None, x_column_start)
    }

    /// Place the image above column `k`, whose left edge is `x`.
    fn place_in_column(&mut self, k: usize, fits: bool, x: u32, w: u32, h: u32) -> (r: (u32, u32))
        requires
            old(self).wf(),
            old(self)@.width + 16 <= u32::MAX,
            old(self)@.height + 16 <= u32::MAX,
            w + 2 * old(self)@.padding <= old(self)@.initial_width,
            h + 2 * old(self)@.padding <= old(self)@.initial_height,
            first_accepting(old(self)@, 0, w as int, h as int) == Some(k as int),
            fits == fits_above(old(self)@, k as int, w as int, h as int),
            x == col_start(old(self)@.columns, k as int),
        ensures
            final(self).wf(),
            settle(old(self)@, attempt(old(self)@, w as int, h as int), w as int, h as int) == (
            Ok::<(int, int), LayoutError>((r.0 as int, r.1 as int)), final(self)@),
    {
        let ghost v = self@;
        proof {
            lemma_first_accepting_found(v, 0, w as int, h as int);
            lemma_attempt_columns_ok(v, w as int, h as int);
            lemma_attempt_keeps_layout(v, w as int, h as int);
        }
        let p = self.padding;
        let c = self.columns[k];
        proof {
            assert(v.columns[k as int] == (c.fill_height as int, c.x_end as int));
            lemma_columns_ordered(v.columns, v.width, v.height, k as int, k as int);
            assert(0 <= v.columns[k as int].0 <= v.height);
            assert(0 <= v.columns[k as int].1 <= v.width);
        }
        let fill = align(c.fill_height + (h + 2 * p));
        let new_fill = if fill <= self.height {
            fill
        } else {
            self.height
        };
        let new_end = if fits {
            c.x_end
        } else {
            let e = align(x + (w + 2 * p));
            if e <= self.width {
                e
            } else {
                self.width
            }
        };
        let ghost nc = (new_fill as int, new_end as int);
        assert(attempt(v, w as int, h as int) == (Attempt::Placed {
            x: x as int,
            y: c.fill_height as int,
            column: k as int,
            columns: v.columns.update(k as int, nc),
        }));
        self.columns.set(k, Column::new(new_fill, new_end));
        self.placed = Ghost(
            self.placed@.push(
                PlacedBox {
                    x: x as int,
                    y: c.fill_height as int,
                    w: w as int,
                    h: h as int,
                    p: p as int,
                    column: k as int,
                },
            ),
        );
        assert(self@.columns =~= v.columns.update(k as int, nc));
        (x, c.fill_height)
    }

    /// Open a new column right of the last one for the image.
    fn place_new_column(&mut self, w: u32, h: u32) -> (r: Result<(u32, u32), LayoutError>)
        requires
            old(self).wf(),
            old(self)@.width + 16 <= u32::MAX,
            old(self)@.height + 16 <= u32::MAX,
            w + 2 * old(self)@.padding <= old(self)@.initial_width,
            h + 2 * old(self)@.padding <= old(self)@.initial_height,
            first_accepting(old(self)@, 0, w as int, h as int) is None,
            old(self)@.width - old(self)@.columns.last().1 > w + 2 * old(self)@.padding,
        ensures
            final(self).wf(),
            ({
                let (sr, sv) = settle(
                    old(self)@,
                    attempt(old(self)@, w as int, h as int),
                    w as int,
                    h as int,
                );
                &&& final(self)@ == sv
                &&& match r {
                    Ok((a, b)) => sr == Ok::<(int, int), LayoutError>((a as int, b as int)),
                    Err(e) => sr == Err::<(int, int), LayoutError>(e),
                }
            }),
    {
        let ghost v = self@;
        let n = self.columns.len();
        let x_last = self.columns[n - 1].x_end;
        let wp = w + 2 * self.padding;
        let hp = h + 2 * self.padding;
        let fill = align(hp);
        let new_fill = if fill <= self.height {
            fill
        } else {
            self.height
        };
        let new_end = x_last + wp;
        let ghost nc = (new_fill as int, new_end as int);
        proof {
            lemma_push_ok(v.columns, nc, v.width, v.height);
            lemma_align_bounds(hp as int);
        }
        if x_last < new_end {
            proof {
                lemma_attempt_keeps_layout(v, w as int, h as int);
            }
            self.columns.push(Column::new(new_fill, new_end));
            self.placed = Ghost(
                self.placed@.push(
                    PlacedBox {
                        x: x_last as int,
                        y: 0,
                        w: w as int,
                        h: h as int,
                        p: self.padding as int,
                        column: n as int,
                    },
                ),
            );
            assert(self@.columns =~= v.columns.push(nc));
            Ok((x_last, 0))
        } else {
            Err(LayoutError::ColumnConstraint)
        }
    }

    /// One placement attempt at the current size: `None` when the atlas has to grow first.
    fn attempt_exec(&mut self, w: u32, h: u32) -> (r: Option<Result<(u32, u32), LayoutError>>)
        requires
            old(self).wf(),
            old(self)@.width + 16 <= u32::MAX,
            old(self)@.height + 16 <= u32::MAX,
            w + 2 * old(self)@.padding <= old(self)@.initial_width,
            h + 2 * old(self)@.padding <= old(self)@.initial_height,
        ensures
            r is None <==> attempt(old(self)@, w as int, h as int) is Grow,
            r is None ==> final(self)@ == old(self)@,
            r matches Some(res) ==> ({
                let (sr, sv) = settle(
                    old(self)@,
                    attempt(old(self)@, w as int, h as int),
                    w as int,
                    h as int,
                );
                &&& final(self)@ == sv
                &&& match res {
                    Ok((x, y)) => sr == Ok::<(int, int), LayoutError>((x as int, y as int)),
                    Err(e) => sr == Err::<(int, int), LayoutError>(e),
                }
            }),
    {
        let (found, x) = self.find_column(w, h);
        match found {
            Some((k, fits)) => Some(Ok(self.place_in_column(k, fits, x, w, h))),
            None => {
                let n = self.columns.len();
                let x_last = self.columns[n - 1].x_end;
                proof {
                    lemma_columns_ordered(self@.columns, self@.width, self@.height, n - 1, n - 1);
                }
                if self.width - x_last > w + 2 * self.padding {
                    Some(self.place_new_column(w, h))
                } else {
                    None
                }
            },
        }
    }

    /// Lay out a `w` by `h` image and return the near corner of its padded box. The image goes
    /// above the first column with room, widens the last column, or opens a new column; when
    /// none of these works the atlas grows once, after which the last column always takes it.
    /// Only an image without width even with its padding can be refused, where its new column
    /// would break the column constraints.
    pub fn do_layout(&mut self, w: u32, h: u32) -> (r: Result<(u32, u32), LayoutError>)
        requires
            old(self).wf(),
            has_headroom(old(self)@),
            w + 2 * old(self)@.padding <= old(self)@.initial_width,
            h + 2 * old(self)@.padding <= old(self)@.initial_height,
        ensures
            final(self).wf(),
            ({
                let (sr, sv) = layout_spec(old(self)@, w as int, h as int);
                &&& final(self)@ == sv
                &&& match r {
                    Ok((x, y)) => sr == Ok::<(int, int), LayoutError>((x as int, y as int)),
                    Err(e) => sr == Err::<(int, int), LayoutError>(e),
                }
            }),
            w + 2 * old(self)@.padding >= 1 ==> r is Ok,
            r matches Ok((x, y)) ==> final(self)@.boxes == old(self)@.boxes.push(
                PlacedBox {
                    x: x as int,
                    y: y as int,
                    w: w as int,
                    h: h as int,
                    p: old(self)@.padding,
                    column: final(self)@.boxes.last().column,
                },
            ),
            final(self)@.initial_width == old(self)@.initial_width,
            final(self)@.initial_height == old(self)@.initial_height,
            final(self)@.padding == old(self)@.padding,
            old(self)@.width <= final(self)@.width <= old(self)@.width + old(self)@.initial_width,
            old(self)@.height <= final(self)@.height <= old(self)@.height + old(
                self,
            )@.initial_height,
    {
        let ghost v0 = self@;
        proof {
            lemma_layout_places(v0, w as int, h as int);
        }
        if let Some(res) = self.attempt_exec(w, h) {
            return res;
        }
        self.grow();
        proof {
            lemma_grown_accepts(v0, w as int, h as int);
        }
        match self.attempt_exec(w, h) {
            Some(res) => res,
            None => {
                assert(false);
                Err(LayoutError::ColumnConstraint)
            },
        }
    }

    /// Lay out a `width` by `height` image and return its frame, the padding excluded.
    pub fn place(&mut self, width: u32, height: u32) -> (r: Result<Frame, LayoutError>)
        requires
            old(self).wf(),
            has_headroom(old(self)@),
            width + 2 * old(self)@.padding <= old(self)@.initial_width,
            height + 2 * old(self)@.padding <= old(self)@.initial_height,
        ensures
            final(self).wf(),
            ({
                let (sr, sv) = layout_spec(old(self)@, width as int, height as int);
                &&& final(self)@ == sv
                &&& match r {
                    Ok(f) => {
                        let p = old(self)@.padding;
                        &&& sr matches Ok((x, y))
                        &&& f.s0 == x + p
                        &&& f.t1 == y + p
                        &&& f.s1 == f.s0 + width
                        &&& f.t0 == f.t1 + height
                    },
                    Err(e) => sr == Err::<(int, int), LayoutError>(e),
                }
            }),
            width + 2 * old(self)@.padding >= 1 ==> r is Ok,
            r matches Ok(f) ==> ({
                let b = final(self)@.boxes.last();
                &&& final(self)@.boxes.drop_last() == old(self)@.boxes
                &&& f.s0 == b.x + b.p
                &&& f.t1 == b.y + b.p
                &&& f.s1 == b.x + b.p + b.w
                &&& f.t0 == b.y + b.p + b.h
            }),
    {
        let p = self.padding;
        match self.do_layout(width, height) {
            Ok((x, y)) => {
                assert(self@.boxes.drop_last() =~= old(self)@.boxes);
                Ok(Frame::new(x + p, y + p, width, height))
            },
            Err(e) => Err(e),
        }
    }

    /// The same layout with another padding.
    pub fn with_padding(self, padding: u32) -> (r: Self)
        ensures
            r@ == (LayoutView { padding: padding as int, ..self@ }),
            self.wf() ==> r.wf(),
    {
        let mut s = self;
        s.padding = padding;
        s
    }
}

} // verus!
