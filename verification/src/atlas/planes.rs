//! Columns of fixed-size planes, shared by the plain atlas and the atlas kept as a texture
//! array.
//!
//! Each column records how far up it is filled. A new image goes above the first column, from
//! the left, that has the height and width for it, widens the last column when only the width
//! is missing, or opens a new column to the right; failing all of these it goes into a fresh
//! plane. While scanning, the left edge of the candidate column only advances past columns that
//! lack the height.
//!
//! The two atlases differ in one rule. Under the strict rule (the plain atlas) a column takes an
//! image only with room to spare in both directions, a column may not be filled to the top, and
//! a fresh plane starts with an empty column at its left edge; under the loose rule (the texture
//! array) exact fits are taken, and a fresh plane starts with a column one texel in from its
//! corner.
use vstd::prelude::*;

verus! {

/// Each column records the filled height up to its right edge.
#[derive(Copy, Clone, Debug)]
pub struct Column {
    pub fill_height: u32,
    pub x_end: u32,
}

impl Column {
    /// A column that ends at `x_offset` and is filled up to `fill_height`.
    pub fn new(fill_height: u32, x_offset: u32) -> (r: Self)
        ensures
            r.fill_height == fill_height,
            r.x_end == x_offset,
    {
        Self { fill_height, x_end: x_offset }
    }
}

/// A column as (fill height, right edge).
pub open spec fn col_view(c: Column) -> (int, int) {
    (c.fill_height as int, c.x_end as int)
}

/// The columns of a plane as (fill height, right edge) pairs.
pub open spec fn cols_view(cs: Seq<Column>) -> Seq<(int, int)> {
    cs.map_values(|c: Column| col_view(c))
}

/// Where an image landed: the corner of the image itself (inside its padding) and its plane.
#[derive(Copy, Clone, Debug, PartialEq, Eq, Structural)]
pub struct Placement {
    pub x: u32,
    pub y: u32,
    pub plane: usize,
}

/// Why an image could not be placed.
#[derive(Copy, Clone, Debug, PartialEq, Eq, Structural)]
pub enum LayoutError {
    /// The columns the placement would leave behind break the column constraints.
    ColumnConstraint,
}

/// Column `i` has room above it for a padded image `h` high: strictly more than it needs under
/// the strict rule.
pub open spec fn height_fits(cols: Seq<(int, int)>, i: int, h: int, height: int, strict: bool) -> bool {
    if strict {
        h < height - cols[i].0
    } else {
        h <= height - cols[i].0
    }
}

/// The left edge the scan assumes for column `i`: the right edge of the last earlier column
/// that lacked the height, or 0.
pub open spec fn start_at(cols: Seq<(int, int)>, i: int, h: int, height: int, strict: bool) -> int
    decreases i,
{
    if i <= 0 {
        0
    } else if !height_fits(cols, i - 1, h, height, strict) {
        cols[i - 1].1
    } else {
        start_at(cols, i - 1, h, height, strict)
    }
}

/// Column `i` takes the padded image above it, within its width (with width to spare under the
/// strict rule).
pub open spec fn fits_above(cols: Seq<(int, int)>, i: int, w: int, h: int, height: int, strict: bool) -> bool {
    &&& height_fits(cols, i, h, height, strict)
    &&& if strict {
        w < cols[i].1 - start_at(cols, i, h, height, strict)
    } else {
        w <= cols[i].1 - start_at(cols, i, h, height, strict)
    }
}

/// Column `i` is the last one, has the height, and can be widened to take the image.
pub open spec fn widens(cols: Seq<(int, int)>, i: int, w: int, h: int, width: int, height: int, strict: bool) -> bool {
    &&& height_fits(cols, i, h, height, strict)
    &&& cols[i].1 == cols.last().1
    &&& start_at(cols, i, h, height, strict) + w < width
}

/// Column `i` takes the image, by either rule.
pub open spec fn accepts(cols: Seq<(int, int)>, i: int, w: int, h: int, width: int, height: int, strict: bool) -> bool {
    fits_above(cols, i, w, h, height, strict) || widens(cols, i, w, h, width, height, strict)
}

/// The first column at or after `i` that takes the image.
pub open spec fn first_accepting(
    cols: Seq<(int, int)>,
    i: int,
    w: int,
    h: int,
    width: int,
    height: int, strict: bool
) -> Option<int>
    decreases cols.len() - i,
{
    if i < 0 || i >= cols.len() {
        None
    } else if accepts(cols, i, w, h, width, height, strict) {
        Some(i)
    } else {
        first_accepting(cols, i + 1, w, h, width, height, strict)
    }
}

/// Where a padded `w` by `h` image goes in a plane, as (x, y, columns after), if anywhere.
pub open spec fn attempt(cols: Seq<(int, int)>, w: int, h: int, width: int, height: int, strict: bool) -> Option<
    (int, int, Seq<(int, int)>),
> {
    match first_accepting(cols, 0, w, h, width, height, strict) {
        Some(i) => {
            let s = start_at(cols, i, h, height, strict);
            let c = cols[i];
            if fits_above(cols, i, w, h, height, strict) {
                Some((s, c.0, cols.update(i, (c.0 + h, c.1))))
            } else {
                Some((s, c.0, cols.update(i, (c.0 + h, s + w))))
            }
        },
        None => {
            let x_last = cols.last().1;
            if width - x_last > w {
                Some((x_last, 0, cols.push((h, x_last + w))))
            } else {
                None
            }
        },
    }
}

/// The column constraints: every column after the first ends right of the one before it,
/// inside the plane, and is filled no higher than the plane (to below its top under the strict
/// rule).
pub open spec fn constraints_ok(cols: Seq<(int, int)>, width: int, height: int, strict: bool) -> bool {
    forall|i: int|
        0 < i < cols.len() ==> cols[i].1 > cols[i - 1].1 && #[trigger] cols[i].1 < width && (if strict {
            cols[i].0 < height
        } else {
            cols[i].0 <= height
        })
}

/// A plane's columns: at least one, each inside the plane, and the constraints.
pub open spec fn plane_ok(cols: Seq<(int, int)>, width: int, height: int, strict: bool) -> bool {
    &&& cols.len() >= 1
    &&& forall|i: int| 0 <= i < cols.len() ==> 0 <= #[trigger] cols[i].0 <= height
    &&& forall|i: int| 0 <= i < cols.len() ==> 0 <= #[trigger] cols[i].1 <= width
    &&& constraints_ok(cols, width, height, strict)
}

/// The columns of a fresh plane: one empty column at the left edge, or, under the loose rule,
/// one texel in from the corner.
pub open spec fn fresh_plane(strict: bool) -> Seq<(int, int)> {
    if strict {
        seq![(0int, 0int)]
    } else {
        seq![(1int, 1int)]
    }
}

/// The abstract state of a plane layout.
pub struct PlaneLayoutView {
    pub width: int,
    pub height: int,
    pub padding: int,
    pub strict: bool,
    pub planes: Seq<Seq<(int, int)>>,
}

/// A placement outcome: the placement, or why there is none, and the state after.
pub open spec fn place_spec(v: PlaneLayoutView, img_w: int, img_h: int) -> (
    Result<(int, int, int), LayoutError>,
    PlaneLayoutView,
) {
    let w = img_w + v.padding;
    let h = img_h + v.padding;
    let last = v.planes.len() - 1;
    match attempt(v.planes[last], w, h, v.width, v.height, v.strict) {
        Some((x, y, cols)) => if constraints_ok(cols, v.width, v.height, v.strict) {
            (
                Ok((x + v.padding, y + v.padding, last)),
                PlaneLayoutView { planes: v.planes.update(last, cols), ..v },
            )
        } else {
            (Err(LayoutError::ColumnConstraint), v)
        },
        None => {
            let (x, y, cols) = attempt(fresh_plane(v.strict), w, h, v.width, v.height, v.strict)->Some_0;
            (
                Ok((x + v.padding, y + v.padding, last + 1)),
                PlaneLayoutView { planes: v.planes.push(cols), ..v },
            )
        },
    }
}

proof fn lemma_start_at_bounds(cols: Seq<(int, int)>, i: int, h: int, height: int, strict: bool)
    requires
        0 <= i < cols.len(),
        forall|j: int| 0 < j < cols.len() ==> #[trigger] cols[j].1 > cols[j - 1].1,
        forall|j: int| 0 <= j < cols.len() ==> 0 <= #[trigger] cols[j].1,
    ensures
        0 <= start_at(cols, i, h, height, strict),
        i > 0 ==> start_at(cols, i, h, height, strict) <= cols[i - 1].1,
        start_at(cols, i, h, height, strict) <= cols[i].1,
    decreases i,
{
    if i > 0 {
        lemma_start_at_bounds(cols, i - 1, h, height, strict);
    }
}

proof fn lemma_first_accepting_found(
    cols: Seq<(int, int)>,
    i: int,
    w: int,
    h: int,
    width: int,
    height: int, strict: bool
)
    requires
        0 <= i,
    ensures
        first_accepting(cols, i, w, h, width, height, strict) matches Some(k) ==> i <= k < cols.len()
            && accepts(cols, k, w, h, width, height, strict),
        first_accepting(cols, i, w, h, width, height, strict) is None ==> forall|j: int|
            i <= j < cols.len() ==> !accepts(cols, j, w, h, width, height, strict),
    decreases cols.len() - i,
{
    if i < cols.len() && !accepts(cols, i, w, h, width, height, strict) {
        lemma_first_accepting_found(cols, i + 1, w, h, width, height, strict);
    }
}

proof fn lemma_first_accepting_skip(
    cols: Seq<(int, int)>,
    i: int,
    w: int,
    h: int,
    width: int,
    height: int, strict: bool
)
    requires
        0 <= i <= cols.len(),
        forall|j: int| 0 <= j < i ==> !accepts(cols, j, w, h, width, height, strict),
    ensures
        first_accepting(cols, 0, w, h, width, height, strict) == first_accepting(cols, i, w, h, width, height, strict),
    decreases i,
{
    if i > 0 {
        lemma_first_accepting_skip(cols, i - 1, w, h, width, height, strict);
    }
}

/// A copy of a plane's columns.
fn copy_columns(cols: &Vec<Column>) -> (r: Vec<Column>)
    ensures
        r@ == cols@,
{
    let mut r: Vec<Column> = Vec::new();
    let mut i: usize = 0;
    while i < cols.len()
        invariant
            0 <= i <= cols@.len(),
            r@ == cols@.take(i as int),
        decreases cols.len() - i,
    {
        r.push(cols[i]);
        assert(cols@.take(i + 1) =~= cols@.take(i as int).push(cols@[i as int]));
        i = i + 1;
    }
    assert(cols@.take(i as int) =~= cols@);
    r
}

/// Run the placement scan over one plane's columns.
fn attempt_exec(cols: &Vec<Column>, w: u32, h: u32, width: u32, height: u32, strict: bool) -> (r: Option<
    (u32, u32, Vec<Column>),
>)
    requires
        plane_ok(cols_view(cols@), width as int, height as int, strict),
    ensures
        match attempt(cols_view(cols@), w as int, h as int, width as int, height as int, strict) {
            Some((x, y, nc)) => r matches Some((rx, ry, rc)) && rx == x && ry == y && cols_view(
                rc@,
            ) == nc,
            None => r is None,
        },
{
    let ghost cv = cols_view(cols@);
    let x_last = cols[cols.len() - 1].x_end;
    assert(x_last == cv.last().1);
    let mut x_column_start: u32 = 0;
    let mut i: usize = 0;
    while i < cols.len()
        invariant
            cv == cols_view(cols@),
            plane_ok(cv, width as int, height as int, strict),
            x_last == cv.last().1,
            0 <= i <= cols@.len(),
            x_column_start == start_at(cv, i as int, h as int, height as int, strict),
            i > 0 ==> x_column_start <= cv[i - 1].1,
            forall|j: int| 0 <= j < i ==> !accepts(cv, j, w as int, h as int, width as int, height as int, strict),
        decreases cols.len() - i,
    {
        let c = cols[i];
        assert(col_view(c) == cv[i as int]);
        assert(x_column_start <= c.x_end) by {
            if i > 0 {
                assert(cv[i as int].1 > cv[i - 1].1);
            }
        }
        if (strict && h < height - c.fill_height) || (!strict && h <= height - c.fill_height) {
            if (strict && w < c.x_end - x_column_start) || (!strict && w <= c.x_end
                - x_column_start) {
                proof {
                    lemma_first_accepting_skip(cv, i as int, w as int, h as int, width as int, height as int, strict);
                }
                let mut nc = copy_columns(cols);
                nc.set(i, Column::new(c.fill_height + h, c.x_end));
                assert(cols_view(nc@) =~= cv.update(i as int, (c.fill_height + h, c.x_end as int)));
                return Some((x_column_start, c.fill_height, nc));
            } else if c.x_end == x_last && (x_column_start as u64 + w as u64) < width as u64 {
                proof {
                    lemma_first_accepting_skip(cv, i as int, w as int, h as int, width as int, height as int, strict);
                }
                let mut nc = copy_columns(cols);
                nc.set(i, Column::new(c.fill_height + h, x_column_start + w));
                assert(cols_view(nc@) =~= cv.update(
                    i as int,
                    (c.fill_height + h, x_column_start + w),
                ));
                return Some((x_column_start, c.fill_height, nc));
            }
        } else {
            x_column_start = c.x_end;
        }
        i = i + 1;
    }
    proof {
        lemma_first_accepting_skip(cv, i as int, w as int, h as int, width as int, height as int, strict);
    }
    if width - x_last > w {
        let mut nc = copy_columns(cols);
        nc.push(Column::new(h, x_last + w));
        assert(cols_view(nc@) =~= cv.push((h as int, x_last + w)));
        Some((x_last, 0, nc))
    } else {
        None
    }
}

/// Check the column constraints of a plane.
fn check_constraints(cols: &Vec<Column>, width: u32, height: u32, strict: bool) -> (r: bool)
    ensures
        r == constraints_ok(cols_view(cols@), width as int, height as int, strict),
{
    let ghost cv = cols_view(cols@);
    let mut i: usize = 1;
    while i < cols.len()
        invariant
            cv == cols_view(cols@),
            1 <= i,
            i <= cols@.len() || cols@.len() == 0,
            forall|j: int|
                0 < j < i && j < cv.len() ==> cv[j].1 > cv[j - 1].1 && #[trigger] cv[j].1 < width
                    && (if strict {
                    cv[j].0 < height
                } else {
                    cv[j].0 <= height
                }),
        decreases cols.len() - i,
    {
        let c = cols[i];
        let prior = cols[i - 1];
        assert(col_view(c) == cv[i as int]);
        assert(col_view(prior) == cv[i - 1]);
        let fill_ok = if strict {
            c.fill_height < height
        } else {
            c.fill_height <= height
        };
        if !(c.x_end > prior.x_end && c.x_end < width && fill_ok) {
            assert(!(cv[i as int].1 > cv[i - 1].1 && cv[i as int].1 < width && (if strict {
                cv[i as int].0 < height
            } else {
                cv[i as int].0 <= height
            })));
            assert(!constraints_ok(cv, width as int, height as int, strict)) by {
                let j = i as int;
                assert(0 < j < cv.len());
                if constraints_ok(cv, width as int, height as int, strict) {
                    assert(cv[j].1 < width);
                }
            }
            return false;
        }
        i = i + 1;
    }
    true
}

/// The columns of a fresh plane, as `fresh_plane` has them.
fn fresh_columns(strict: bool) -> (r: Vec<Column>)
    ensures
        cols_view(r@) == fresh_plane(strict),
{
    let mut r: Vec<Column> = Vec::new();
    if strict {
        r.push(Column::new(0, 0));
    } else {
        r.push(Column::new(1, 1));
    }
    assert(cols_view(r@) =~= fresh_plane(strict));
    r
}

/// A consistent layout: at least one plane, and in planes of at least one texel every plane's
/// columns are consistent.
pub open spec fn layout_ok(v: PlaneLayoutView) -> bool {
    &&& v.planes.len() >= 1
    &&& v.width >= 1 && v.height >= 1 ==> forall|p: int|
        0 <= p < v.planes.len() ==> plane_ok(#[trigger] v.planes[p], v.width, v.height, v.strict)
}

/// The columns of the planes of an atlas made of `width` by `height` planes, under one rule.
pub struct PlaneColumns {
    width: u32,
    height: u32,
    padding: u32,
    strict: bool,
    column_sets: Vec<Vec<Column>>,
}

impl View for PlaneColumns {
    type V = PlaneLayoutView;

    closed spec fn view(&self) -> PlaneLayoutView {
        PlaneLayoutView {
            width: self.width as int,
            height: self.height as int,
            padding: self.padding as int,
            strict: self.strict,
            planes: self.column_sets@.map_values(|cs: Vec<Column>| cols_view(cs@)),
        }
    }
}

impl PlaneColumns {
    /// The layout is consistent (see `layout_ok`).
    pub open spec fn wf(&self) -> bool {
        layout_ok(self@)
    }

    /// A layout of one fresh plane under the given rule, with a padding of one texel.
    pub fn new(width: u32, height: u32, strict: bool) -> (r: Self)
        ensures
            r.wf(),
            r@.width == width,
            r@.height == height,
            r@.padding == 1,
            r@.strict == strict,
            r@.planes == seq![fresh_plane(strict)],
    {
        let first = fresh_columns(strict);
        let mut column_sets: Vec<Vec<Column>> = Vec::new();
        column_sets.push(first);
        let r = Self { width, height, padding: 1, strict, column_sets };
        assert(r@.planes =~= seq![fresh_plane(strict)]);
        r
    }

    /// The same layout with another padding.
    pub fn with_padding(self, padding: u32) -> (r: Self)
        requires
            self.wf(),
        ensures
            r.wf(),
            r@ == (PlaneLayoutView { padding: padding as int, ..self@ }),
    {
        Self { padding, ..self }
    }

    /// Width of a plane.
    pub fn width(&self) -> (r: u32)
        ensures
            r == self@.width,
    {
        self.width
    }

    /// Height of a plane.
    pub fn height(&self) -> (r: u32)
        ensures
            r == self@.height,
    {
        self.height
    }

    /// The padding added to each image.
    pub fn padding(&self) -> (r: u32)
        ensures
            r == self@.padding,
    {
        self.padding
    }

    /// The plane new images go into: the last one.
    pub fn buffer_offset(&self) -> (r: usize)
        requires
            self.wf(),
        ensures
            r == self@.planes.len() - 1,
    {
        self.column_sets.len() - 1
    }

    /// Place an `img_w` by `img_h` image: in the current plane if it has room, else in a fresh
    /// plane. The placement is the corner of the image itself, inside its padding.
    pub fn place(&mut self, img_w: u32, img_h: u32) -> (r: Result<Placement, LayoutError>)
        requires
            old(self).wf(),
            img_w + old(self)@.padding < old(self)@.width,
            img_h + old(self)@.padding < old(self)@.height,
        ensures
            final(self).wf(),
            r matches Ok(p) ==> old(self)@.padding <= p.x && p.x + img_w <= old(self)@.width
                && old(self)@.padding <= p.y && p.y + img_h <= old(self)@.height,
            ({
                let (res, after) = place_spec(old(self)@, img_w as int, img_h as int);
                &&& final(self)@ == after
                &&& match r {
                    Ok(p) => res == Ok::<(int, int, int), LayoutError>((p.x as int, p.y as int, p.plane as int)),
                    Err(e) => res == Err::<(int, int, int), LayoutError>(e),
                }
            }),
    {
        let ghost v = self@;
        let w = img_w + self.padding;
        let h = img_h + self.padding;
        let last = self.column_sets.len() - 1;
        assert(plane_ok(v.planes[last as int], v.width, v.height, v.strict));
        assert(cols_view(self.column_sets@[last as int]@) == v.planes[last as int]);
        match attempt_exec(&self.column_sets[last], w, h, self.width, self.height, self.strict) {
            Some((x, y, cols)) => {
                if check_constraints(&cols, self.width, self.height, self.strict) {
                    proof {
                        lemma_attempt_ok(v.planes[last as int], w as int, h as int, v.width, v.height, v.strict);
                    }
                    self.column_sets.set(last, cols);
                    proof {
                        assert(self@.planes =~= v.planes.update(last as int, cols_view(cols@)));
                        assert forall|p: int| 0 <= p < self@.planes.len() implies plane_ok(
                            #[trigger] self@.planes[p],
                            self@.width,
                            self@.height,
                            self@.strict,
                        ) by {
                            if p != last {
                                assert(self@.planes[p] == v.planes[p]);
                            }
                        }
                    }
                    assert(x + w <= v.width && y + h <= v.height);
                    return Ok(Placement { x: x + self.padding, y: y + self.padding, plane: last });
                } else {
                    return Err(LayoutError::ColumnConstraint);
                }
            },
            None => {},
        }
        let fresh = fresh_columns(self.strict);
        let fresh_try = attempt_exec(&fresh, w, h, self.width, self.height, self.strict);
        proof {
            lemma_fresh_plane_places(w as int, h as int, v.width, v.height, v.strict);
        }
        match fresh_try {
            Some((x, y, cols)) => {
                {
                    proof {
                        lemma_attempt_ok(fresh_plane(v.strict), w as int, h as int, v.width, v.height, v.strict);
                    }
                    self.column_sets.push(cols);
                    proof {
                        assert(self@.planes =~= v.planes.push(cols_view(cols@)));
                        assert forall|p: int| 0 <= p < self@.planes.len() implies plane_ok(
                            #[trigger] self@.planes[p],
                            self@.width,
                            self@.height,
                            self@.strict,
                        ) by {
                            if p <= last {
                                assert(self@.planes[p] == v.planes[p]);
                            }
                        }
                    }
                    assert(x + w <= v.width && y + h <= v.height);
                    Ok(Placement { x: x + self.padding, y: y + self.padding, plane: last + 1 })
                }
            },
            None => {
                assert(false);
                Err(LayoutError::ColumnConstraint)
            },
        }
    }
}

/// A placed image sits on top of the column that takes it, and that column then reaches over
/// it: in the plane the image went to, some column ends at or right of the image's right edge,
/// is filled at least to the top of the image, and was filled, before the placement, no higher
/// than the bottom of the image's padding (or is new). So the next image above that column lies
/// above this one.
pub proof fn lemma_placement_raises_column(v: PlaneLayoutView, img_w: int, img_h: int)
    requires
        layout_ok(v),
        v.width >= 1,
        v.height >= 1,
        v.padding >= 0,
        img_w >= 0,
        img_h >= 0,
        img_w + v.padding < v.width,
        img_h + v.padding < v.height,
    ensures
        place_spec(v, img_w, img_h).0 matches Ok((x, y, p)) ==> {
            let before = if p < v.planes.len() {
                v.planes[p]
            } else {
                fresh_plane(v.strict)
            };
            let cols = place_spec(v, img_w, img_h).1.planes[p];
            &&& 0 <= p < place_spec(v, img_w, img_h).1.planes.len()
            &&& exists|j: int|
                0 <= j < cols.len() && x + img_w <= #[trigger] cols[j].1 && y + img_h <= cols[j].0
                    && (j < before.len() ==> before[j].0 <= y - v.padding)
        },
{
    let w = img_w + v.padding;
    let h = img_h + v.padding;
    let last = v.planes.len() - 1;
    let pl = v.planes[last];
    assert(plane_ok(pl, v.width, v.height, v.strict));
    match attempt(pl, w, h, v.width, v.height, v.strict) {
        Some((x, y, cols)) => {
            if constraints_ok(cols, v.width, v.height, v.strict) {
                lemma_attempt_on_top(pl, w, h, v.width, v.height, v.strict);
                let after = place_spec(v, img_w, img_h).1;
                assert(after.planes[last] == cols);
                let j = choose|j: int|
                    0 <= j < cols.len() && x + w <= #[trigger] cols[j].1 && y + h <= cols[j].0 && (j
                        < pl.len() ==> pl[j].0 == y);
                assert(x + v.padding + img_w <= cols[j].1);
            }
        },
        None => {
            let f = fresh_plane(v.strict);
            lemma_fresh_plane_places(w, h, v.width, v.height, v.strict);
            lemma_attempt_on_top(f, w, h, v.width, v.height, v.strict);
            let after = place_spec(v, img_w, img_h).1;
            let (x, y, cols) = attempt(f, w, h, v.width, v.height, v.strict)->Some_0;
            assert(after.planes[last + 1] == cols);
            let j = choose|j: int|
                0 <= j < cols.len() && x + w <= #[trigger] cols[j].1 && y + h <= cols[j].0 && (j
                    < f.len() ==> f[j].0 == y);
            assert(x + v.padding + img_w <= cols[j].1);
        },
    }
}

/// Where an attempt puts a padded `w` by `h` image at (x, y), some column of the columns after
/// ends at or right of x + w and is filled at least to y + h, and that column was, before,
/// filled exactly to y (or is new).
proof fn lemma_attempt_on_top(cols: Seq<(int, int)>, w: int, h: int, width: int, height: int, strict: bool)
    requires
        plane_ok(cols, width, height, strict),
        0 <= w,
        0 <= h,
    ensures
        attempt(cols, w, h, width, height, strict) matches Some((x, y, nc)) ==> exists|j: int|
            0 <= j < nc.len() && x + w <= #[trigger] nc[j].1 && y + h <= nc[j].0 && (j < cols.len()
                ==> cols[j].0 == y),
{
    lemma_first_accepting_found(cols, 0, w, h, width, height, strict);
    match first_accepting(cols, 0, w, h, width, height, strict) {
        Some(i) => {
            let (x, y, nc) = attempt(cols, w, h, width, height, strict)->Some_0;
            assert(nc[i].1 >= x + w);
            assert(nc[i].0 >= y + h);
        },
        None => {
            if attempt(cols, w, h, width, height, strict) is Some {
                let (x, y, nc) = attempt(cols, w, h, width, height, strict)->Some_0;
                let n = cols.len() as int;
                assert(nc[n].1 >= x + w);
                assert(nc[n].0 >= y + h);
            }
        },
    }
}

/// A fresh plane takes any image narrower and lower than the plane, in its first column.
proof fn lemma_fresh_plane_places(w: int, h: int, width: int, height: int, strict: bool)
    requires
        0 <= w < width,
        0 <= h < height,
    ensures
        attempt(fresh_plane(strict), w, h, width, height, strict) matches Some((x, y, nc)) && x == 0 && nc.len()
            == 1 && constraints_ok(nc, width, height, strict),
{
    let f = fresh_plane(strict);
    assert(accepts(f, 0, w, h, width, height, strict));
    assert(first_accepting(f, 0, w, h, width, height, strict) == Some(0int));
}

/// A placement that meets the column constraints leaves a consistent plane, and its padded
/// image lies inside the plane, in the columns it claims.
proof fn lemma_attempt_ok(cols: Seq<(int, int)>, w: int, h: int, width: int, height: int, strict: bool)
    requires
        plane_ok(cols, width, height, strict),
        0 <= w,
        0 <= h,
        attempt(cols, w, h, width, height, strict) matches Some((x, y, nc)) && constraints_ok(nc, width, height, strict),
    ensures
        attempt(cols, w, h, width, height, strict) matches Some((x, y, nc)) && plane_ok(nc, width, height, strict)
            && 0 <= x && x + w <= width && 0 <= y && y + h <= height,
{
    lemma_first_accepting_found(cols, 0, w, h, width, height, strict);
    let (x, y, nc) = attempt(cols, w, h, width, height, strict)->Some_0;
    match first_accepting(cols, 0, w, h, width, height, strict) {
        Some(i) => {
            lemma_start_at_bounds(cols, i, h, height, strict);
            let s = start_at(cols, i, h, height, strict);
            assert(height_fits(cols, i, h, height, strict));
            assert(nc.len() == cols.len());
            assert forall|j: int| 0 <= j < nc.len() implies 0 <= #[trigger] nc[j].0 <= height by {
                if j != i {
                    assert(nc[j] == cols[j]);
                }
            }
            assert forall|j: int| 0 <= j < nc.len() implies 0 <= #[trigger] nc[j].1 <= width by {
                if j != i {
                    assert(nc[j] == cols[j]);
                }
            }
        },
        None => {
            let x_last = cols.last().1;
            assert(nc == cols.push((h, x_last + w)));
            let k = cols.len() as int;
            assert(0 < k < nc.len());
            assert(nc[k].1 < width);
            assert(nc[k].0 <= height);
            assert forall|j: int| 0 <= j < nc.len() implies 0 <= #[trigger] nc[j].0 <= height by {
                if j < cols.len() {
                    assert(nc[j] == cols[j]);
                }
            }
            assert forall|j: int| 0 <= j < nc.len() implies 0 <= #[trigger] nc[j].1 <= width by {
                if j < cols.len() {
                    assert(nc[j] == cols[j]);
                }
            }
        },
    }
}

} // verus!
