//! Texture atlases: a growable flat atlas, an atlas of planes kept as a texture array, and the
//! plain atlas of planes below.
//!
//! The plain atlas packs images into columns of fixed-size planes (see `planes`) under the
//! strict rule: a column takes an image only with room to spare.
pub mod flat;
pub mod array;
pub mod planes;

use vstd::prelude::*;
pub use self::planes::{Column, LayoutError, Placement, PlaneLayoutView};
use self::planes::{PlaneColumns, fresh_plane, layout_ok, place_spec};

verus! {

/// The column layout of a plain atlas made of `width` by `height` planes.
pub struct PlaneLayout {
    columns: PlaneColumns,
}

impl View for PlaneLayout {
    type V = PlaneLayoutView;

    closed spec fn view(&self) -> PlaneLayoutView {
        self.columns@
    }
}

impl PlaneLayout {
    /// The layout is consistent, under the strict rule.
    pub open spec fn wf(&self) -> bool {
        &&& layout_ok(self@)
        &&& self@.strict
    }

    /// A layout of one fresh plane, with a padding of one texel.
    pub fn new(width: u32, height: u32) -> (r: Self)
        ensures
            r.wf(),
            r@.width == width,
            r@.height == height,
            r@.padding == 1,
            r@.planes == seq![fresh_plane(true)],
    {
        Self { columns: PlaneColumns::new(width, height, true) }
    }

    /// The same layout with another padding.
    pub fn with_padding(self, padding: u32) -> (r: Self)
        requires
            self.wf(),
        ensures
            r.wf(),
            r@ == (PlaneLayoutView { padding: padding as int, ..self@ }),
    {
        Self { columns: self.columns.with_padding(padding) }
    }

    /// Width of a plane.
    pub fn width(&self) -> (r: u32)
        ensures
            r == self@.width,
    {
        self.columns.width()
    }

    /// Height of a plane.
    pub fn height(&self) -> (r: u32)
        ensures
            r == self@.height,
    {
        self.columns.height()
    }

    /// The padding added to each image.
    pub fn padding(&self) -> (r: u32)
        ensures
            r == self@.padding,
    {
        self.columns.padding()
    }

    /// The plane new images go into: the last one.
    pub fn buffer_offset(&self) -> (r: usize)
        requires
            self.wf(),
        ensures
            r == self@.planes.len() - 1,
    {
        self.columns.buffer_offset()
    }

    /// Place an `img_w` by `img_h` image: in the current plane if it has room, else in a fresh
    /// plane. The placement is the corner of the image itself, inside its padding.
    pub fn place(&mut self, img_w: u32, img_h: u32) -> (r: Result<Placement, LayoutError>)
        requires
            old(self).wf(),
            img_w + old(self)@.padding < old(self)@.width,
            img_h + old(self)@.padding < old(self)@.height,
        ensures
            final(self).wf(),
            r matches Ok(p) ==> old(self)@.padding <= p.x && p.x + img_w <= old(self)@.width
                && old(self)@.padding <= p.y && p.y + img_h <= old(self)@.height,
            ({
                let (res, after) = place_spec(old(self)@, img_w as int, img_h as int);
                &&& final(self)@ == after
                &&& match r {
                    Ok(p) => res == Ok::<(int, int, int), LayoutError>((p.x as int, p.y as int, p.plane as int)),
                    Err(e) => res == Err::<(int, int, int), LayoutError>(e),
                }
            }),
    {
        self.columns.place(img_w, img_h)
    }
}

} // verus!
