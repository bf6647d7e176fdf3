//! Column layout of the layered texture atlas: images are packed into columns of fixed-size
//! planes, and a new plane is opened when the current one is full.
//!
//! The columns (see `super::planes`) follow the loose rule: a column takes an image that fits
//! exactly. The upload plan below brings the GPU texture array up to date with the planes.
use vstd::prelude::*;
pub use super::planes::{Column, LayoutError, Placement, PlaneLayoutView};
use super::planes::{PlaneColumns, fresh_plane, layout_ok, place_spec};

verus! {

/// The column layout of an atlas made of `width` by `height` planes kept as layers of a texture
/// array.
pub struct PlaneLayout {
    columns: PlaneColumns,
}

impl View for PlaneLayout {
    type V = PlaneLayoutView;

    closed spec fn view(&self) -> PlaneLayoutView {
        self.columns@
    }
}

impl PlaneLayout {
    /// The layout is consistent, under the loose rule.
    pub open spec fn wf(&self) -> bool {
        &&& layout_ok(self@)
        &&& !self@.strict
    }

    /// A layout of one fresh plane, with a padding of one texel.
    pub fn new(width: u32, height: u32) -> (r: Self)
        ensures
            r.wf(),
            r@.width == width,
            r@.height == height,
            r@.padding == 1,
            r@.planes == seq![fresh_plane(false)],
    {
        Self { columns: PlaneColumns::new(width, height, false) }
    }

    /// The same layout with another padding.
    pub fn with_padding(self, padding: u32) -> (r: Self)
        requires
            self.wf(),
        ensures
            r.wf(),
            r@ == (PlaneLayoutView { padding: padding as int, ..self@ }),
    {
        Self { columns: self.columns.with_padding(padding) }
    }

    /// Width of a plane.
    pub fn width(&self) -> (r: u32)
        ensures
            r == self@.width,
    {
        self.columns.width()
    }

    /// Height of a plane.
    pub fn height(&self) -> (r: u32)
        ensures
            r == self@.height,
    {
        self.columns.height()
    }

    /// The padding added to each image.
    pub fn padding(&self) -> (r: u32)
        ensures
            r == self@.padding,
    {
        self.columns.padding()
    }

    /// The plane new images go into: the last one.
    pub fn buffer_offset(&self) -> (r: usize)
        requires
            self.wf(),
        ensures
            r == self@.planes.len() - 1,
    {
        self.columns.buffer_offset()
    }

    /// Place an `img_w` by `img_h` image: in the current plane if it has room, else in a fresh
    /// plane. The placement is the corner of the image itself, inside its padding.
    pub fn place(&mut self, img_w: u32, img_h: u32) -> (r: Result<Placement, LayoutError>)
        requires
            old(self).wf(),
            img_w + old(self)@.padding < old(self)@.width,
            img_h + old(self)@.padding < old(self)@.height,
        ensures
            final(self).wf(),
            r matches Ok(p) ==> old(self)@.padding <= p.x && p.x + img_w <= old(self)@.width
                && old(self)@.padding <= p.y && p.y + img_h <= old(self)@.height,
            ({
                let (res, after) = place_spec(old(self)@, img_w as int, img_h as int);
                &&& final(self)@ == after
                &&& match r {
                    Ok(p) => res == Ok::<(int, int, int), LayoutError>((p.x as int, p.y as int, p.plane as int)),
                    Err(e) => res == Err::<(int, int, int), LayoutError>(e),
                }
            }),
    {
        self.columns.place(img_w, img_h)
    }
}

/// One step of bringing the GPU texture up to date with the planes.
#[derive(Copy, Clone, Debug, PartialEq, Eq, Structural)]
pub enum UploadStep {
    /// Allocate a texture with this many layers; it becomes current at `Install`.
    Allocate(u32),
    /// Copy this layer of the current texture into the allocated one.
    CopyLayer(usize),
    /// Upload this plane's texels into the current texture, at the layer of the same index.
    UploadPlane(usize),
    /// The allocated texture becomes the current one.
    Install,
}

/// What the atlas knows of its GPU texture: whether images were added since the last upload,
/// whether a texture exists, the last plane uploaded and the texture's layer count.
#[derive(Copy, Clone, Debug, PartialEq, Eq, Structural)]
pub struct UploadState {
    pub dirty: bool,
    pub has_texture: bool,
    pub last_uploaded_offset: usize,
    pub texture_capacity: u32,
}

/// The upload state is consistent: no texture means nothing uploaded; a texture has a layer
/// for each plane up to the last one uploaded.
pub open spec fn upload_ok(s: UploadState) -> bool {
    if s.has_texture {
        s.texture_capacity == s.last_uploaded_offset + 1
    } else {
        s.texture_capacity == 0 && s.last_uploaded_offset == 0
    }
}

/// The steps `n` to `m`, exclusive, of one kind.
pub open spec fn plane_uploads(n: int, m: int) -> Seq<UploadStep>
    decreases m - n,
{
    if m <= n {
        seq![]
    } else {
        plane_uploads(n, m - 1).push(UploadStep::UploadPlane((m - 1) as usize))
    }
}

/// Layer copies `0` to `m`, exclusive.
pub open spec fn layer_copies(m: int) -> Seq<UploadStep>
    decreases m,
{
    if m <= 0 {
        seq![]
    } else {
        layer_copies(m - 1).push(UploadStep::CopyLayer((m - 1) as usize))
    }
}

/// The steps of an upload when the current plane is `offset`, and the state after.
pub open spec fn upload_plan(s: UploadState, offset: int) -> (Seq<UploadStep>, UploadState) {
    if !s.dirty && s.has_texture {
        (seq![], s)
    } else if !s.has_texture {
        (
            seq![UploadStep::Allocate((offset + 1) as u32), UploadStep::Install] + plane_uploads(
                0,
                offset + 1,
            ),
            UploadState {
                dirty: false,
                has_texture: true,
                last_uploaded_offset: offset as usize,
                texture_capacity: (offset + 1) as u32,
            },
        )
    } else if s.last_uploaded_offset == offset {
        (seq![UploadStep::UploadPlane(offset as usize)], UploadState { dirty: false, ..s })
    } else {
        (
            seq![UploadStep::Allocate((offset + 1) as u32)] + layer_copies(
                s.last_uploaded_offset as int,
            ) + seq![UploadStep::Install] + plane_uploads(s.last_uploaded_offset as int, offset + 1),
            UploadState {
                dirty: false,
                has_texture: true,
                last_uploaded_offset: offset as usize,
                texture_capacity: (offset + 1) as u32,
            },
        )
    }
}

/// Append the uploads of planes `n` to `m`, exclusive.
fn push_plane_uploads(steps: &mut Vec<UploadStep>, n: usize, m: usize)
    ensures
        final(steps)@ == old(steps)@ + plane_uploads(n as int, m as int),
{
    let ghost start = steps@;
    let mut i: usize = n;
    if m <= n {
        assert(plane_uploads(n as int, m as int) =~= Seq::<UploadStep>::empty());
        assert(steps@ =~= start + plane_uploads(n as int, m as int));
        return ;
    }
    assert(plane_uploads(n as int, n as int) =~= Seq::<UploadStep>::empty());
    while i < m
        invariant
            n <= i <= m,
            steps@ =~= start + plane_uploads(n as int, i as int),
        decreases m - i,
    {
        steps.push(UploadStep::UploadPlane(i));
        assert(plane_uploads(n as int, i + 1) == plane_uploads(n as int, i as int).push(
            UploadStep::UploadPlane(i),
        ));
        i = i + 1;
    }
}

impl UploadState {
    /// Nothing uploaded yet, no texture.
    pub fn new() -> (r: Self)
        ensures
            upload_ok(r),
            r == (UploadState {
                dirty: true,
                has_texture: false,
                last_uploaded_offset: 0,
                texture_capacity: 0,
            }),
    {
        UploadState { dirty: true, has_texture: false, last_uploaded_offset: 0, texture_capacity: 0 }
    }

    /// An image was added since the last upload.
    pub fn mark_dirty(&mut self)
        ensures
            *final(self) == (UploadState { dirty: true, ..*old(self) }),
    {
        self.dirty = true;
    }

    /// The steps that bring the texture up to date when the current plane is `buffer_offset`:
    /// nothing when clean; otherwise a first texture with every plane, the current plane
    /// again when no plane was opened since the last upload, or a larger texture with the
    /// layers before the last uploaded plane copied over, then installed, and the planes from
    /// the last uploaded one to the current one uploaded into it.
    pub fn plan(&mut self, buffer_offset: usize) -> (r: Vec<UploadStep>)
        requires
            upload_ok(*old(self)),
            old(self).last_uploaded_offset <= buffer_offset,
            buffer_offset < u32::MAX,
        ensures
            upload_ok(*final(self)),
            (r@, *final(self)) == upload_plan(*old(self), buffer_offset as int),
    {
        let ghost s = *self;
        let mut steps: Vec<UploadStep> = Vec::new();
        if !self.dirty && self.has_texture {
            assert(steps@ =~= Seq::<UploadStep>::empty());
            return steps;
        }
        if !self.has_texture {
            let capacity = buffer_offset as u32 + 1;
            steps.push(UploadStep::Allocate(capacity));
            steps.push(UploadStep::Install);
            push_plane_uploads(&mut steps, 0, buffer_offset + 1);
            assert(steps@ =~= seq![UploadStep::Allocate((buffer_offset + 1) as u32), UploadStep::Install]
                + plane_uploads(0, buffer_offset + 1));
            self.last_uploaded_offset = buffer_offset;
            self.texture_capacity = capacity;
            self.has_texture = true;
        } else if self.last_uploaded_offset == buffer_offset {
            steps.push(UploadStep::UploadPlane(buffer_offset));
            assert(steps@ =~= seq![UploadStep::UploadPlane(buffer_offset)]);
        } else {
            let next_capacity = buffer_offset as u32 + 1;
            steps.push(UploadStep::Allocate(next_capacity));
            let mut i: usize = 0;
            assert(layer_copies(0) =~= Seq::<UploadStep>::empty());
            while i < self.last_uploaded_offset
                invariant
                    0 <= i <= self.last_uploaded_offset,
                    *self == s,
                    steps@ =~= seq![UploadStep::Allocate(next_capacity)] + layer_copies(i as int),
                decreases self.last_uploaded_offset - i,
            {
                steps.push(UploadStep::CopyLayer(i));
                assert(layer_copies(i + 1) == layer_copies(i as int).push(UploadStep::CopyLayer(i)));
                i = i + 1;
            }
            steps.push(UploadStep::Install);
            push_plane_uploads(&mut steps, self.last_uploaded_offset, buffer_offset + 1);
            self.texture_capacity = next_capacity;
            self.last_uploaded_offset = buffer_offset;
        }
        self.dirty = false;
        steps
    }
}

/// The plan of an upload holds step `t`.
pub open spec fn plans_step(s: UploadState, offset: int, t: UploadStep) -> bool {
    upload_plan(s, offset).0.contains(t)
}

proof fn lemma_plane_uploads_hold(n: int, m: int, i: int)
    requires
        0 <= n <= i < m,
    ensures
        plane_uploads(n, m).contains(UploadStep::UploadPlane(i as usize)),
    decreases m - n,
{
    if i == m - 1 {
        assert(plane_uploads(n, m).last() == UploadStep::UploadPlane(i as usize));
    } else {
        lemma_plane_uploads_hold(n, m - 1, i);
        let pu = plane_uploads(n, m - 1);
        let k = choose|k: int| 0 <= k < pu.len() && pu[k] == UploadStep::UploadPlane(i as usize);
        assert(plane_uploads(n, m)[k] == UploadStep::UploadPlane(i as usize));
    }
}

/// An upload with something to do leaves a texture with a layer for every plane, and every
/// plane up to the current one is in it: uploaded by this plan, or already in the texture from
/// an earlier upload (copied over when the texture is replaced).
pub proof fn lemma_upload_covers_planes(s: UploadState, offset: int)
    requires
        upload_ok(s),
        s.last_uploaded_offset <= offset < u32::MAX,
        s.dirty || !s.has_texture,
    ensures
        upload_plan(s, offset).1.texture_capacity == offset + 1,
        upload_plan(s, offset).1.last_uploaded_offset == offset,
        forall|i: int|
            0 <= i <= offset ==> #[trigger] plans_step(s, offset, UploadStep::UploadPlane(i as usize))
                || (s.has_texture && i < s.last_uploaded_offset),
        s.has_texture && s.last_uploaded_offset < offset ==> forall|i: int|
            0 <= i < s.last_uploaded_offset ==> #[trigger] plans_step(
                s,
                offset,
                UploadStep::CopyLayer(i as usize),
            ),
{
    let steps = upload_plan(s, offset).0;
    let k = s.last_uploaded_offset as int;
    assert forall|i: int|
        0 <= i <= offset implies #[trigger] plans_step(s, offset, UploadStep::UploadPlane(i as usize))
        || (s.has_texture && i < k) by {
        if !s.has_texture {
            lemma_plane_uploads_hold(0, offset + 1, i);
            let pre = seq![UploadStep::Allocate((offset + 1) as u32), UploadStep::Install];
            let ups = plane_uploads(0, offset + 1);
            let j = choose|j: int| 0 <= j < ups.len() && ups[j] == UploadStep::UploadPlane(i as usize);
            assert(steps == pre + ups);
            assert(steps[j + 2] == UploadStep::UploadPlane(i as usize));
        } else if k == offset {
            if i == offset {
                assert(steps[0] == UploadStep::UploadPlane(i as usize));
            }
        } else if i >= k {
            lemma_plane_uploads_hold(k, offset + 1, i);
            let pre = seq![UploadStep::Allocate((offset + 1) as u32)] + layer_copies(k) + seq![
                UploadStep::Install,
            ];
            let ups = plane_uploads(k, offset + 1);
            let j = choose|j: int| 0 <= j < ups.len() && ups[j] == UploadStep::UploadPlane(i as usize);
            assert(steps == pre + ups);
            assert(steps[pre.len() + j] == UploadStep::UploadPlane(i as usize));
        }
    }
    if s.has_texture && k < offset {
        assert forall|i: int| 0 <= i < k implies #[trigger] plans_step(
            s,
            offset,
            UploadStep::CopyLayer(i as usize),
        ) by {
            lemma_layer_copies_hold(k, i);
            let cs = layer_copies(k);
            let j = choose|j: int| 0 <= j < cs.len() && cs[j] == UploadStep::CopyLayer(i as usize);
            let pre = seq![UploadStep::Allocate((offset + 1) as u32)];
            assert(steps == pre + cs + seq![UploadStep::Install] + plane_uploads(k, offset + 1));
            assert(steps[j + 1] == UploadStep::CopyLayer(i as usize));
        }
    }
}

proof fn lemma_layer_copies_hold(m: int, i: int)
    requires
        0 <= i < m,
    ensures
        layer_copies(m).contains(UploadStep::CopyLayer(i as usize)),
    decreases m,
{
    if i == m - 1 {
        assert(layer_copies(m).last() == UploadStep::CopyLayer(i as usize));
    } else {
        lemma_layer_copies_hold(m - 1, i);
        let lc = layer_copies(m - 1);
        let k = choose|k: int| 0 <= k < lc.len() && lc[k] == UploadStep::CopyLayer(i as usize);
        assert(layer_copies(m)[k] == UploadStep::CopyLayer(i as usize));
    }
}

/// Uploading again with no image added since does nothing.
pub proof fn lemma_upload_settles(s: UploadState, offset: int)
    requires
        upload_ok(s),
        s.last_uploaded_offset <= offset < u32::MAX,
    ensures
        upload_plan(upload_plan(s, offset).1, offset).0 == Seq::<UploadStep>::empty(),
        upload_plan(s, offset).1.has_texture,
        (s.dirty || !s.has_texture) ==> upload_plan(s, offset).1.texture_capacity == offset + 1,
{
}

} // verus!
