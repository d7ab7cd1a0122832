//! Grid state: stored image and folder cells, the display order that places
//! them on the grid, and the per-position view offsets.
//!
//! Index conventions (the invariant [`AppState::wf`] states them exactly):
//! - `image_cells` and `folder_cells` are storage; removing an element shifts
//!   the indices after it;
//! - `cell_order` is the display order, each entry naming a storage index;
//! - `pan_offset` runs parallel to `cell_order`: offsets belong to grid
//!   positions, not to cells, so a swap moves them with the positions.
//!
//! The view payloads that only rendering reads are type parameters: `Tex` is a
//! texture handle, `Sel` a selection overlay, `Pan` a per-position pan offset
//! (`None` meaning no offset) and `Scroll` a folder's scroll offset (`None`
//! meaning scrolled to the top).

use std::collections::HashSet;
use vstd::prelude::*;

verus! {

broadcast use vstd::std_specs::hash::group_hash_axioms;

/// The largest number of cells the grid shows at once.
pub const MAX_IMAGES: usize = 8;

/// A user intent reported by a folder cell, handled by the layout layer.
#[derive(Clone)]
pub enum FolderAction {
    NoAction,
    OpenImage(usize),
    OpenFolder(String),
    Remove(usize),
    OpenSelected,
    ToggleView,
    /// Plain click: every folder cell selects the same entry index.
    SelectSynced(usize),
}

/// Where an image cell came from: dropped on its own, or opened from a folder entry.
#[derive(Clone, Copy, PartialEq, Eq, Structural, Debug)]
pub enum ImageSource {
    Standalone,
    FromFolder { folder_idx: usize, entry_idx: usize },
}

/// How a folder cell lists its entries.
#[derive(Clone, Copy, PartialEq, Eq, Structural, Debug)]
pub enum FolderView {
    List,
    Thumbnail,
}

/// One grid position: an index into `image_cells` or into `folder_cells`.
#[derive(Clone, Copy, PartialEq, Eq, Structural, Debug)]
pub enum CellKind {
    Image(usize),
    Folder(usize),
}

/// A decoded image with the data the viewer keeps for it.
pub struct ImageInfo<Tex> {
    pub texture: Tex,
    pub size: [usize; 2],
    pub rgba: Vec<u8>,
    pub path: String,
    pub exif: String,
    pub histogram: [u32; 256],
}

/// An image on the grid.
pub struct ImageCell<Tex, Sel> {
    pub info: ImageInfo<Tex>,
    pub source: ImageSource,
    pub selection: Option<Sel>,
}

/// A folder on the grid: its image entries, view state and thumbnails.
///
/// `thumbnails` is filled slot by slot in entry order; a missing or failed slot is `None`.
pub struct FolderCell<Tex, Scroll> {
    pub dir_path: String,
    pub entries: Vec<String>,
    pub selected: HashSet<usize>,
    pub view_mode: FolderView,
    pub scroll_offset: Option<Scroll>,
    pub thumbnails: Vec<Option<Tex>>,
    pub open_entry: Option<usize>,
    /// Entry the list should scroll to once the folder shows again.
    pub scroll_to: Option<usize>,
}

/// The whole grid state.
pub struct AppState<Tex, Sel, Pan, Scroll> {
    pub image_cells: Vec<ImageCell<Tex, Sel>>,
    pub folder_cells: Vec<FolderCell<Tex, Scroll>>,
    pub cell_order: Vec<CellKind>,
    pub local_mode: bool,
    pub show_exif: bool,
    pub show_histogram: bool,
    pub pan_offset: Vec<Option<Pan>>,
    /// Paths of standalone images loaded or queued, each at most once.
    pub loaded_paths: Vec<String>,
    pub reorder_src: Option<usize>,
    pub pending_remove: Vec<usize>,
    pub load_errors: Vec<String>,
}

/// The folder an image was opened from, if any.
pub open spec fn source_folder(s: ImageSource) -> Option<usize> {
    match s {
        ImageSource::FromFolder { folder_idx, .. } => Some(folder_idx),
        ImageSource::Standalone => None,
    }
}

/// Number of cells in `cells` opened from folder `f`.
pub open spec fn open_count<Tex, Sel>(cells: Seq<ImageCell<Tex, Sel>>, f: int) -> nat
    decreases cells.len(),
{
    if cells.len() == 0 {
        0
    } else {
        open_count(cells.drop_last(), f) + if opened_from(cells, cells.len() - 1, f) {
            1nat
        } else {
            0nat
        }
    }
}

/// Cell `i` of `cells` was opened from folder `f`.
pub open spec fn opened_from<Tex, Sel>(cells: Seq<ImageCell<Tex, Sel>>, i: int, f: int) -> bool {
    match source_folder(cells[i].source) {
        Some(x) => x as int == f,
        None => false,
    }
}

/// Some cell of `cells` was opened from folder `f`.
pub open spec fn has_open_image_in<Tex, Sel>(cells: Seq<ImageCell<Tex, Sel>>, f: int) -> bool {
    exists|i: int| 0 <= i < cells.len() && #[trigger] opened_from(cells, i, f)
}


/// Position of the first `x` in `s`, or `s.len()` when absent.
pub open spec fn first_index<T>(s: Seq<T>, x: T) -> int
    decreases s.len(),
{
    if s.len() == 0 {
        0
    } else if s[0] == x {
        0
    } else {
        1 + first_index(s.drop_first(), x)
    }
}

/// Position of the first cell opened from folder `f`, or `cells.len()` when none is.
pub open spec fn first_open_from<Tex, Sel>(cells: Seq<ImageCell<Tex, Sel>>, f: int) -> int
    decreases cells.len(),
{
    if cells.len() == 0 {
        0
    } else if opened_from(cells, 0, f) {
        0
    } else {
        1 + first_open_from(cells.drop_first(), f)
    }
}

/// `first_index` is the least position holding `x`.
pub proof fn lemma_first_index<T>(s: Seq<T>, x: T, k: int)
    requires
        0 <= k <= s.len(),
        forall|j: int| 0 <= j < k ==> s[j] != x,
        k == s.len() || s[k] == x,
    ensures
        first_index(s, x) == k,
    decreases s.len(),
{
    if s.len() > 0 && k > 0 {
        assert forall|j: int| 0 <= j < k - 1 implies s.drop_first()[j] != x by {
            assert(s.drop_first()[j] == s[j + 1]);
        }
        lemma_first_index(s.drop_first(), x, k - 1);
    }
}

/// `first_open_from` is the least position of a cell opened from `f`.
pub proof fn lemma_first_open_from<Tex, Sel>(cells: Seq<ImageCell<Tex, Sel>>, f: int, k: int)
    requires
        0 <= k <= cells.len(),
        forall|j: int| 0 <= j < k ==> !opened_from(cells, j, f),
        k == cells.len() || opened_from(cells, k, f),
    ensures
        first_open_from(cells, f) == k,
    decreases cells.len(),
{
    if cells.len() > 0 && k > 0 {
        assert forall|j: int| 0 <= j < k - 1 implies !opened_from(cells.drop_first(), j, f) by {
            assert(cells.drop_first()[j] == cells[j + 1]);
            assert(!opened_from(cells, j + 1, f));
        }
        if k - 1 < cells.len() - 1 {
            assert(cells.drop_first()[k - 1] == cells[k]);
        }
        assert(!opened_from(cells, 0, f));
        lemma_first_open_from(cells.drop_first(), f, k - 1);
    }
}

/// The cell an opened folder entry becomes.
pub open spec fn folder_image<Tex, Sel>(info: ImageInfo<Tex>, f: usize, e: usize) -> ImageCell<
    Tex,
    Sel,
> {
    ImageCell { info, source: ImageSource::FromFolder { folder_idx: f, entry_idx: e }, selection: None }
}

/// `fc` with its open entry recorded as `e`.
pub open spec fn with_open_entry<Tex, Scroll>(fc: FolderCell<Tex, Scroll>, e: usize) -> FolderCell<
    Tex,
    Scroll,
> {
    FolderCell {
        dir_path: fc.dir_path,
        entries: fc.entries,
        selected: fc.selected,
        view_mode: fc.view_mode,
        scroll_offset: fc.scroll_offset,
        thumbnails: fc.thumbnails,
        open_entry: Some(e),
        scroll_to: fc.scroll_to,
    }
}


/// A grid entry after image `i` left storage: later image indices move down by one.
pub open spec fn shift_image(c: CellKind, i: int) -> CellKind {
    match c {
        CellKind::Image(k) => if k > i {
            CellKind::Image((k - 1) as usize)
        } else {
            c
        },
        CellKind::Folder(_) => c,
    }
}

/// A grid entry after folder `f` left storage: later folder indices move down by one.
pub open spec fn shift_folder(c: CellKind, f: int) -> CellKind {
    match c {
        CellKind::Folder(k) => if k > f {
            CellKind::Folder((k - 1) as usize)
        } else {
            c
        },
        CellKind::Image(_) => c,
    }
}

/// An image source after folder `f` left storage: its own images become standalone,
/// later folder indices move down by one.
pub open spec fn detach_source(s: ImageSource, f: int) -> ImageSource {
    match s {
        ImageSource::FromFolder { folder_idx, entry_idx } => if folder_idx == f {
            ImageSource::Standalone
        } else if folder_idx > f {
            ImageSource::FromFolder { folder_idx: (folder_idx - 1) as usize, entry_idx }
        } else {
            s
        },
        ImageSource::Standalone => s,
    }
}

pub open spec fn with_source<Tex, Sel>(c: ImageCell<Tex, Sel>, s: ImageSource) -> ImageCell<Tex, Sel> {
    ImageCell { info: c.info, source: s, selection: c.selection }
}

/// Folder `after` is folder `before` shown again once its last image closed: the entry
/// it showed becomes the only selected one and the list scrolls to it.
pub open spec fn folder_restored<Tex, Scroll>(
    before: FolderCell<Tex, Scroll>,
    after: FolderCell<Tex, Scroll>,
) -> bool {
    &&& after.dir_path == before.dir_path
    &&& after.entries == before.entries
    &&& after.view_mode == before.view_mode
    &&& after.scroll_offset == before.scroll_offset
    &&& after.thumbnails == before.thumbnails
    &&& after.open_entry.is_none()
    &&& match before.open_entry {
        Some(e) => after.selected@ == set![e] && after.scroll_to == Some(e),
        None => after.selected@ == before.selected@ && after.scroll_to == before.scroll_to,
    }
}

/// Views of a list of strings.
pub open spec fn strings_view(v: Seq<String>) -> Seq<Seq<char>> {
    v.map_values(|s: String| s@)
}

impl<Tex, Sel, Pan, Scroll> AppState<Tex, Sel, Pan, Scroll> {
    pub open spec fn cell_in_range(&self, c: CellKind) -> bool {
        match c {
            CellKind::Image(i) => i < self.image_cells@.len(),
            CellKind::Folder(f) => f < self.folder_cells@.len(),
        }
    }

    /// Every grid position names a stored cell, and offsets run parallel to positions.
    pub open spec fn indices_wf(&self) -> bool {
        &&& self.pan_offset@.len() == self.cell_order@.len()
        &&& forall|p: int|
            0 <= p < self.cell_order@.len() ==> self.cell_in_range(#[trigger] self.cell_order@[p])
    }

    /// Some image opened from folder `f` is stored.
    pub open spec fn has_open_image(&self, f: int) -> bool {
        has_open_image_in(self.image_cells@, f)
    }

    pub open spec fn folder_visible(&self, f: int) -> bool {
        self.cell_order@.contains(CellKind::Folder(f as usize))
    }

    /// The grid invariant: positions name stored cells without repetition, every stored
    /// image is on the grid, image sources name stored folders, a folder is on the
    /// grid exactly when none of its images is open, and no path is listed twice
    /// among the loaded paths.
    pub open spec fn wf(&self) -> bool {
        &&& self.indices_wf()
        &&& strings_view(self.loaded_paths@).no_duplicates()
        &&& forall|p: int, q: int|
            0 <= p < q < self.cell_order@.len() ==> #[trigger] self.cell_order@[p]
                != #[trigger] self.cell_order@[q]
        &&& forall|i: int|
            0 <= i < self.image_cells@.len() ==> #[trigger] self.cell_order@.contains(
                CellKind::Image(i as usize),
            )
        &&& forall|i: int|
            0 <= i < self.image_cells@.len() ==> match #[trigger] self.image_cells@[i].source {
                ImageSource::FromFolder { folder_idx, .. } => folder_idx
                    < self.folder_cells@.len(),
                ImageSource::Standalone => true,
            }
        &&& forall|f: int|
            0 <= f < self.folder_cells@.len() ==> (#[trigger] self.folder_visible(f)
                <==> !self.has_open_image(f))
    }

    /// Number of images opened from folder `f`.
    pub open spec fn open_count_of(&self, f: int) -> nat {
        open_count(self.image_cells@, f)
    }

    pub open spec fn spec_nav_allowed(&self) -> bool {
        &&& self.folder_cells@.len() > 0
        &&& forall|f: int| 0 <= f < self.folder_cells@.len() ==> #[trigger] self.open_count_of(f) <= 1
        &&& exists|f: int| 0 <= f < self.folder_cells@.len() && #[trigger] self.open_count_of(f) == 1
    }

    pub open spec fn spec_compare_pair(&self) -> bool {
        &&& self.folder_cells@.len() == 2
        &&& self.open_count_of(0) == 1
        &&& self.open_count_of(1) == 1
    }

    pub open spec fn spec_all_images(&self) -> bool {
        &&& self.cell_order@.len() > 0
        &&& forall|p: int| 0 <= p < self.cell_order@.len() ==> #[trigger] self.cell_order@[p] is Image
    }

    /// An empty grid.
    pub fn new() -> (s: Self)
        ensures
            s.wf(),
            s.image_cells@.len() == 0,
            s.folder_cells@.len() == 0,
            s.cell_order@.len() == 0,
            s.pan_offset@.len() == 0,
            !s.local_mode,
            !s.show_exif,
            !s.show_histogram,
            s.loaded_paths@.len() == 0,
            s.reorder_src.is_none(),
            s.pending_remove@.len() == 0,
            s.load_errors@.len() == 0,
    {
        AppState {
            image_cells: Vec::new(),
            folder_cells: Vec::new(),
            cell_order: Vec::new(),
            local_mode: false,
            show_exif: false,
            show_histogram: false,
            pan_offset: Vec::new(),
            loaded_paths: Vec::new(),
            reorder_src: None,
            pending_remove: Vec::new(),
            load_errors: Vec::new(),
        }
    }


    /// The fields outside the grid structure are the same in `self` and `other`.
    pub open spec fn same_extras(&self, other: &Self) -> bool {
        &&& self.local_mode == other.local_mode
        &&& self.show_exif == other.show_exif
        &&& self.show_histogram == other.show_histogram
        &&& self.loaded_paths@ == other.loaded_paths@
        &&& self.reorder_src == other.reorder_src
        &&& self.pending_remove@ == other.pending_remove@
        &&& self.load_errors@ == other.load_errors@
    }

    /// Opening an entry replaces the folder's image instead of adding one.
    pub open spec fn open_replaces(&self, folder_idx: int) -> bool {
        self.folder_cells@.len() >= 2 && self.has_open_image(folder_idx)
    }

    /// Opening an entry of `folder_idx` as a new cell keeps the grid within `MAX_IMAGES`.
    pub open spec fn open_fits(&self, folder_idx: int) -> bool {
        self.cell_order@.len() + 1 - (if self.folder_visible(folder_idx) {
            1int
        } else {
            0int
        }) <= MAX_IMAGES
    }

    /// The exact effect of [`Self::open_folder_entry`] for folder `f`, entry `e`,
    /// taking `self` to `after`.
    pub open spec fn opening(&self, after: &Self, f: int, e: usize, info: ImageInfo<Tex>) -> bool {
        &&& (after.same_extras(self))
        &&& (self.open_replaces(f) ==> {
                &&& after.image_cells@ == self.image_cells@.update(
                    first_open_from(self.image_cells@, f),
                    folder_image(info, f as usize, e),
                )
                &&& after.cell_order@ == self.cell_order@
                &&& after.pan_offset@ == self.pan_offset@
                &&& after.folder_cells@ == self.folder_cells@.update(
                    f,
                    with_open_entry(self.folder_cells@[f], e),
                )
            })
        &&& (!self.open_replaces(f) && !self.open_fits(f)
                ==> {
                &&& after.image_cells@ == self.image_cells@
                &&& after.cell_order@ == self.cell_order@
                &&& after.pan_offset@ == self.pan_offset@
                &&& after.folder_cells@ == self.folder_cells@
            })
        &&& (!self.open_replaces(f) && self.open_fits(f)
                ==> {
                &&& after.image_cells@ == self.image_cells@.push(
                    folder_image(info, f as usize, e),
                )
                &&& after.folder_cells@ == self.folder_cells@.update(
                    f,
                    with_open_entry(self.folder_cells@[f], e),
                )
                &&& self.folder_visible(f) ==> {
                    let fpos = first_index(self.cell_order@, CellKind::Folder(f as usize));
                    &&& after.cell_order@ == self.cell_order@.update(
                        fpos,
                        CellKind::Image(self.image_cells@.len() as usize),
                    )
                    &&& after.pan_offset@ == self.pan_offset@.update(fpos, None)
                }
                &&& !self.folder_visible(f) ==> {
                    &&& after.cell_order@ == self.cell_order@.push(
                        CellKind::Image(self.image_cells@.len() as usize),
                    )
                    &&& after.pan_offset@ == self.pan_offset@.push(None)
                }
            })
    }

    /// Opens entry `entry_idx` of folder `folder_idx` as an image cell.
    ///
    /// With two or more folders each folder shows at most one image: opening again
    /// replaces it in place. Otherwise the image is added, taking the folder's own grid
    /// position when the folder is shown (the folder hides, so the count is unchanged),
    /// or the end of the grid; the addition is refused when the grid would exceed
    /// `MAX_IMAGES`.
    pub fn open_folder_entry(&mut self, folder_idx: usize, entry_idx: usize, info: ImageInfo<Tex>)
        requires
            folder_idx < old(self).folder_cells@.len(),
            old(self).indices_wf(),
        ensures
            old(self).opening(final(self), folder_idx as int, entry_idx, info),
            final(self).indices_wf(),
            old(self).wf() ==> final(self).wf(),
    {
        let ghost o = *self;
        let n_img = self.image_cells.len();
        // Position of the first image already open from this folder.
        let mut k: usize = 0;
        while k < n_img
            invariant
                n_img == self.image_cells@.len(),
                *self == o,
                k <= n_img,
                forall|j: int| 0 <= j < k ==> !opened_from(self.image_cells@, j, folder_idx as int),
            ensures
                k <= n_img,
                forall|j: int| 0 <= j < k ==> !opened_from(self.image_cells@, j, folder_idx as int),
                k < n_img ==> opened_from(self.image_cells@, k as int, folder_idx as int),
            decreases n_img - k,
        {
            if let ImageSource::FromFolder { folder_idx: fi, .. } = self.image_cells[k].source {
                if fi == folder_idx {
                    break;
                }
            }
            k = k + 1;
        }
        proof {
            lemma_first_open_from(o.image_cells@, folder_idx as int, k as int);
            if k < n_img {
                assert(o.has_open_image(folder_idx as int));
            } else {
                assert(!o.has_open_image(folder_idx as int));
            }
        }
        if self.folder_cells.len() >= 2 && k < n_img {
            self.image_cells.set(
                k,
                ImageCell {
                    info,
                    source: ImageSource::FromFolder { folder_idx, entry_idx },
                    selection: None,
                },
            );
            self.set_open_entry(folder_idx, entry_idx);
            proof {
                let n = *self;
                assert forall|g: int| #[trigger] n.has_open_image(g) == o.has_open_image(g) by {
                    if o.has_open_image(g) {
                        let i = choose|i: int|
                            0 <= i < o.image_cells@.len() && #[trigger] opened_from(
                                o.image_cells@,
                                i,
                                g,
                            );
                        if i == k {
                            assert(opened_from(n.image_cells@, i, g));
                        } else {
                            assert(opened_from(n.image_cells@, i, g));
                        }
                    }
                    if n.has_open_image(g) {
                        let i = choose|i: int|
                            0 <= i < n.image_cells@.len() && #[trigger] opened_from(
                                n.image_cells@,
                                i,
                                g,
                            );
                        if i == k {
                            assert(opened_from(o.image_cells@, k as int, g));
                        } else {
                            assert(opened_from(o.image_cells@, i, g));
                        }
                    }
                }
                if o.wf() {
                    assert forall|i: int| 0 <= i < n.image_cells@.len() implies match #[trigger] n.image_cells@[i].source {
                        ImageSource::FromFolder { folder_idx, .. } => folder_idx < n.folder_cells@.len(),
                        ImageSource::Standalone => true,
                    } by {
                        if i != k {
                            assert(n.image_cells@[i] == o.image_cells@[i]);
                        }
                    }
                    assert forall|f: int| 0 <= f < n.folder_cells@.len() implies (#[trigger] n.folder_visible(f)
                        <==> !n.has_open_image(f)) by {
                        assert(o.folder_visible(f) <==> !o.has_open_image(f));
                    }
                }
            }
            return ;
        }
        // Where the folder sits on the grid, if it is shown.
        let n_pos = self.cell_order.len();
        let mut fpos: usize = 0;
        while fpos < n_pos
            invariant
                n_pos == self.cell_order@.len(),
                *self == o,
                fpos <= n_pos,
                forall|j: int| 0 <= j < fpos ==> self.cell_order@[j] != CellKind::Folder(folder_idx),
            ensures
                fpos <= n_pos,
                forall|j: int| 0 <= j < fpos ==> self.cell_order@[j] != CellKind::Folder(folder_idx),
                fpos < n_pos ==> self.cell_order@[fpos as int] == CellKind::Folder(folder_idx),
            decreases n_pos - fpos,
        {
            if let CellKind::Folder(fi) = self.cell_order[fpos] {
                if fi == folder_idx {
                    break;
                }
            }
            fpos = fpos + 1;
        }
        let folder_visible = fpos < n_pos;
        proof {
            lemma_first_index(o.cell_order@, CellKind::Folder(folder_idx), fpos as int);
            if folder_visible {
                assert(o.cell_order@[fpos as int] == CellKind::Folder(folder_idx));
                assert(o.folder_visible(folder_idx as int));
            } else {
                assert(!o.folder_visible(folder_idx as int));
            }
        }
        let hidden: usize = if folder_visible { 0 } else { 1 };
        if n_pos > MAX_IMAGES - hidden {
            return ;
        }
        let img_idx = n_img;
        self.image_cells.push(
            ImageCell {
                info,
                source: ImageSource::FromFolder { folder_idx, entry_idx },
                selection: None,
            },
        );
        if folder_visible {
            self.cell_order.set(fpos, CellKind::Image(img_idx));
            self.pan_offset.set(fpos, None);
        } else {
            self.cell_order.push(CellKind::Image(img_idx));
            self.pan_offset.push(None);
        }
        self.set_open_entry(folder_idx, entry_idx);
        proof {
            let n = *self;
            let m = img_idx as int;
            assert forall|p: int| 0 <= p < n.cell_order@.len() implies n.cell_in_range(
                #[trigger] n.cell_order@[p],
            ) by {
                if p < o.cell_order@.len() && !(folder_visible && p == fpos) {
                    assert(n.cell_order@[p] == o.cell_order@[p]);
                    assert(o.cell_in_range(o.cell_order@[p]));
                }
            }
            assert(opened_from(n.image_cells@, m, folder_idx as int));
            assert forall|g: int| g != folder_idx ==> (#[trigger] n.has_open_image(g) == o.has_open_image(g)) by {
                if g != folder_idx {
                    if o.has_open_image(g) {
                        let i = choose|i: int|
                            0 <= i < o.image_cells@.len() && #[trigger] opened_from(o.image_cells@, i, g);
                        assert(opened_from(n.image_cells@, i, g));
                    }
                    if n.has_open_image(g) {
                        let i = choose|i: int|
                            0 <= i < n.image_cells@.len() && #[trigger] opened_from(n.image_cells@, i, g);
                        assert(i != m);
                        assert(opened_from(o.image_cells@, i, g));
                    }
                }
            }
            assert(n.has_open_image(folder_idx as int));
            if o.wf() {
                // The new index is fresh: every old grid entry names an older image.
                assert forall|p: int| 0 <= p < o.cell_order@.len() implies #[trigger] o.cell_order@[p]
                    != CellKind::Image(m as usize) by {
                    assert(o.cell_in_range(o.cell_order@[p]));
                }
                assert forall|p: int, q: int| 0 <= p < q < n.cell_order@.len() implies #[trigger] n.cell_order@[p]
                    != #[trigger] n.cell_order@[q] by {
                    if folder_visible {
                        if p == fpos {
                            assert(n.cell_order@[q] == o.cell_order@[q]);
                        } else if q == fpos {
                            assert(n.cell_order@[p] == o.cell_order@[p]);
                        } else {
                            assert(n.cell_order@[p] == o.cell_order@[p]);
                            assert(n.cell_order@[q] == o.cell_order@[q]);
                        }
                    } else {
                        if q == o.cell_order@.len() {
                            assert(n.cell_order@[p] == o.cell_order@[p]);
                        } else {
                            assert(n.cell_order@[p] == o.cell_order@[p]);
                            assert(n.cell_order@[q] == o.cell_order@[q]);
                        }
                    }
                }
                assert forall|i: int| 0 <= i < n.image_cells@.len() implies #[trigger] n.cell_order@.contains(
                    CellKind::Image(i as usize),
                ) by {
                    if i == m {
                        if folder_visible {
                            assert(n.cell_order@[fpos as int] == CellKind::Image(i as usize));
                        } else {
                            assert(n.cell_order@[o.cell_order@.len() as int] == CellKind::Image(i as usize));
                        }
                    } else {
                        assert(o.cell_order@.contains(CellKind::Image(i as usize)));
                        let p = choose|p: int| 0 <= p < o.cell_order@.len() && o.cell_order@[p] == CellKind::Image(i as usize);
                        if folder_visible {
                            assert(p != fpos);
                        }
                        assert(n.cell_order@[p] == CellKind::Image(i as usize));
                    }
                }
                assert forall|i: int| 0 <= i < n.image_cells@.len() implies match #[trigger] n.image_cells@[i].source {
                    ImageSource::FromFolder { folder_idx, .. } => folder_idx < n.folder_cells@.len(),
                    ImageSource::Standalone => true,
                } by {
                    if i != m {
                        assert(n.image_cells@[i] == o.image_cells@[i]);
                    }
                }
                assert forall|f: int| 0 <= f < n.folder_cells@.len() implies (#[trigger] n.folder_visible(f)
                    <==> !n.has_open_image(f)) by {
                    assert(o.folder_visible(f) <==> !o.has_open_image(f));
                    if f == folder_idx {
                        if n.folder_visible(f) {
                            let p = choose|p: int| 0 <= p < n.cell_order@.len() && n.cell_order@[p] == CellKind::Folder(f as usize);
                            if folder_visible {
                                assert(p != fpos);
                                assert(o.cell_order@[p] == o.cell_order@[fpos as int]);
                            } else {
                                assert(o.cell_order@[p] == CellKind::Folder(f as usize));
                            }
                        }
                    } else {
                        if n.folder_visible(f) {
                            let p = choose|p: int| 0 <= p < n.cell_order@.len() && n.cell_order@[p] == CellKind::Folder(f as usize);
                            assert(o.cell_order@[p] == CellKind::Folder(f as usize));
                        }
                        if o.folder_visible(f) {
                            let p = choose|p: int| 0 <= p < o.cell_order@.len() && o.cell_order@[p] == CellKind::Folder(f as usize);
                            assert(n.cell_order@[p] == CellKind::Folder(f as usize));
                        }
                    }
                }
            }
        }
    }


    /// Removing the cell at grid position `pos` restores folder `f` at that position.
    pub open spec fn removal_restores(&self, pos: int, after_images: Seq<ImageCell<Tex, Sel>>) -> Option<usize> {
        match self.cell_order@[pos] {
            CellKind::Image(i) => match source_folder(self.image_cells@[i as int].source) {
                Some(f) => if f < self.folder_cells@.len() && !has_open_image_in(after_images, f as int) {
                    Some(f)
                } else {
                    None
                },
                None => None,
            },
            CellKind::Folder(_) => None,
        }
    }

    /// The exact effect of [`Self::remove_cell`] at `pos`, taking `self` to `after`.
    pub open spec fn removal(&self, after: &Self, pos: int) -> bool {
        &&& after.local_mode == self.local_mode
        &&& after.show_exif == self.show_exif
        &&& after.show_histogram == self.show_histogram
        &&& after.reorder_src == self.reorder_src
        &&& after.pending_remove@ == self.pending_remove@
        &&& after.load_errors@ == self.load_errors@
        &&& if pos < 0 || pos >= self.cell_order@.len() {
            &&& after.image_cells@ == self.image_cells@
            &&& after.folder_cells@ == self.folder_cells@
            &&& after.cell_order@ == self.cell_order@
            &&& after.pan_offset@ == self.pan_offset@
            &&& after.loaded_paths@ == self.loaded_paths@
        } else {
            match self.cell_order@[pos] {
                CellKind::Image(i) => {
                    let rest = self.cell_order@.remove(pos).map_values(|c: CellKind| shift_image(c, i as int));
                    &&& after.image_cells@ == self.image_cells@.remove(i as int)
                    &&& strings_view(after.loaded_paths@) == strings_view(self.loaded_paths@).filter(
                        |q: Seq<char>| q != self.image_cells@[i as int].info.path@,
                    )
                    &&& match self.removal_restores(pos, after.image_cells@) {
                        Some(f) => {
                            &&& after.cell_order@ == rest.insert(pos, CellKind::Folder(f))
                            &&& after.pan_offset@ == self.pan_offset@.update(pos, None)
                            &&& after.folder_cells@.len() == self.folder_cells@.len()
                            &&& folder_restored(self.folder_cells@[f as int], after.folder_cells@[f as int])
                            &&& forall|g: int| 0 <= g < self.folder_cells@.len() && g != f
                                ==> #[trigger] after.folder_cells@[g] == self.folder_cells@[g]
                        },
                        None => {
                            &&& after.cell_order@ == rest
                            &&& after.pan_offset@ == self.pan_offset@.remove(pos)
                            &&& after.folder_cells@ == self.folder_cells@
                        },
                    }
                },
                CellKind::Folder(f) => {
                    &&& after.image_cells@ == self.image_cells@.map_values(
                        |c: ImageCell<Tex, Sel>| with_source(c, detach_source(c.source, f as int)),
                    )
                    &&& after.folder_cells@ == self.folder_cells@.remove(f as int)
                    &&& after.cell_order@ == self.cell_order@.remove(pos).map_values(
                        |c: CellKind| shift_folder(c, f as int),
                    )
                    &&& after.pan_offset@ == self.pan_offset@.remove(pos)
                    &&& after.loaded_paths@ == self.loaded_paths@
                },
            }
        }
    }

    /// Removes the cell at grid position `pos` (out-of-range positions change nothing).
    ///
    /// Removing an image forgets its path among the loaded paths; when it was the last
    /// image open from a folder, the folder returns to the grid at that position with
    /// the shown entry selected. Removing a folder turns its images standalone.
    pub fn remove_cell(&mut self, pos: usize)
        requires
            old(self).indices_wf(),
        ensures
            old(self).removal(final(self), pos as int),
            old(self).wf() ==> final(self).wf(),
            pos < old(self).cell_order@.len() ==> (old(self).cell_order@[pos as int] matches CellKind::Image(i)
                ==> !strings_view(final(self).loaded_paths@).contains(old(self).image_cells@[i as int].info.path@)),
            old(self).cells_distinct() && old(self).sources_in_range() ==> {
                &&& final(self).indices_wf()
                &&& final(self).sources_in_range()
                &&& pos < old(self).cell_order@.len() ==> final(self).cell_order@.len() == if old(
                    self,
                ).cell_order@[pos as int] is Image && old(self).removal_restores(pos as int, final(self).image_cells@) is Some {
                    old(self).cell_order@.len() as int
                } else {
                    old(self).cell_order@.len() - 1
                }
            },
    {
        let ghost o = *self;
        if pos >= self.cell_order.len() {
            return ;
        }
        let kind = self.cell_order[pos];
        let mut restore: Option<usize> = None;
        match kind {
            CellKind::Image(img_idx) => {
                let src = self.image_cells[img_idx].source;
                remove_path(&mut self.loaded_paths, &self.image_cells[img_idx].info.path);
                self.image_cells.remove(img_idx);
                shift_image_entries(&mut self.cell_order, img_idx);
                if let ImageSource::FromFolder { folder_idx, .. } = src {
                    let still_open = self.any_open_from(folder_idx);
                    if !still_open && folder_idx < self.folder_cells.len() {
                        self.restore_folder_view(folder_idx);
                        restore = Some(folder_idx);
                    }
                }
                proof {
                    assert(restore == o.removal_restores(pos as int, self.image_cells@));
                    assert(o.cell_order@.map_values(|c: CellKind| shift_image(c, img_idx as int)).remove(pos as int)
                        =~= o.cell_order@.remove(pos as int).map_values(|c: CellKind| shift_image(c, img_idx as int)));
                }
            },
            CellKind::Folder(folder_idx) => {
                self.detach_folder_images(folder_idx);
                self.folder_cells.remove(folder_idx);
                shift_folder_entries(&mut self.cell_order, folder_idx);
                proof {
                    assert(o.cell_order@.map_values(|c: CellKind| shift_folder(c, folder_idx as int)).remove(pos as int)
                        =~= o.cell_order@.remove(pos as int).map_values(|c: CellKind| shift_folder(c, folder_idx as int)));
                }
            },
        }
        self.cell_order.remove(pos);
        self.pan_offset.remove(pos);
        if let Some(f) = restore {
            self.cell_order.insert(pos, CellKind::Folder(f));
            self.pan_offset.insert(pos, None);
            proof {
                assert(self.pan_offset@ =~= o.pan_offset@.update(pos as int, None));
            }
        }
        proof {
            assert(o.removal(self, pos as int));
            if o.wf() {
                lemma_removal_wf(o, *self, pos as int);
            }
            if o.cells_distinct() && o.sources_in_range() {
                lemma_removal_keeps_indices(o, *self, pos as int);
            }
            if let CellKind::Image(i) = o.cell_order@[pos as int] {
                lemma_removing_an_image_forgets_its_path(o, *self, pos as int, i);
            }
        }
    }


    /// Clears the selection of every image (local mode) or of image `img_idx` alone,
    /// as its pixels changed by a rotation.
    pub fn invalidate_selection_after_rotation(&mut self, img_idx: usize)
        requires
            old(self).local_mode || img_idx < old(self).image_cells@.len(),
        ensures
            final(self).image_cells@.len() == old(self).image_cells@.len(),
            forall|j: int| 0 <= j < final(self).image_cells@.len() ==> {
                &&& (#[trigger] final(self).image_cells@[j]).info == old(self).image_cells@[j].info
                &&& final(self).image_cells@[j].source == old(self).image_cells@[j].source
                &&& final(self).image_cells@[j].selection == if old(self).local_mode || j == img_idx {
                    None
                } else {
                    old(self).image_cells@[j].selection
                }
            },
            final(self).folder_cells@ == old(self).folder_cells@,
            final(self).cell_order@ == old(self).cell_order@,
            final(self).pan_offset@ == old(self).pan_offset@,
            final(self).same_extras(old(self)),
            old(self).wf() ==> final(self).wf(),
    {
        if self.local_mode {
            let n = self.image_cells.len();
            let mut j: usize = 0;
            while j < n
                invariant
                    n == self.image_cells@.len(),
                    n == old(self).image_cells@.len(),
                    j <= n,
                    self.local_mode == old(self).local_mode,
                    self.local_mode,
                    forall|k: int| 0 <= k < n ==> {
                        &&& (#[trigger] self.image_cells@[k]).info == old(self).image_cells@[k].info
                        &&& self.image_cells@[k].source == old(self).image_cells@[k].source
                        &&& self.image_cells@[k].selection == if k < j {
                            None
                        } else {
                            old(self).image_cells@[k].selection
                        }
                    },
                    self.folder_cells@ == old(self).folder_cells@,
                    self.cell_order@ == old(self).cell_order@,
                    self.pan_offset@ == old(self).pan_offset@,
                    self.same_extras(old(self)),
                decreases n - j,
            {
                self.clear_selection(j);
                j = j + 1;
            }
        } else {
            self.clear_selection(img_idx);
        }
        proof {
            assert forall|g: int| #[trigger] self.has_open_image(g) == old(self).has_open_image(g) by {
                if self.has_open_image(g) {
                    let k = choose|k: int| 0 <= k < self.image_cells@.len() && #[trigger] opened_from(self.image_cells@, k, g);
                    assert(opened_from(old(self).image_cells@, k, g));
                }
                if old(self).has_open_image(g) {
                    let k = choose|k: int| 0 <= k < old(self).image_cells@.len() && #[trigger] opened_from(old(self).image_cells@, k, g);
                    assert(opened_from(self.image_cells@, k, g));
                }
            }
            if old(self).wf() {
                assert forall|f: int| 0 <= f < self.folder_cells@.len() implies (#[trigger] self.folder_visible(f)
                    <==> !self.has_open_image(f)) by {
                    assert(old(self).folder_visible(f) <==> !old(self).has_open_image(f));
                }
            }
        }
    }

    /// Drops the selection of image `j`.
    fn clear_selection(&mut self, j: usize)
        requires
            j < old(self).image_cells@.len(),
        ensures
            final(self).image_cells@.len() == old(self).image_cells@.len(),
            forall|k: int| 0 <= k < final(self).image_cells@.len() ==> {
                &&& (#[trigger] final(self).image_cells@[k]).info == old(self).image_cells@[k].info
                &&& final(self).image_cells@[k].source == old(self).image_cells@[k].source
                &&& final(self).image_cells@[k].selection == if k == j {
                    None
                } else {
                    old(self).image_cells@[k].selection
                }
            },
            final(self).folder_cells@ == old(self).folder_cells@,
            final(self).cell_order@ == old(self).cell_order@,
            final(self).pan_offset@ == old(self).pan_offset@,
            final(self).same_extras(old(self)),
    {
        let mut cell = self.image_cells.remove(j);
        cell.selection = None;
        self.image_cells.insert(j, cell);
    }

    /// Replaces image `img_idx` with the entry a navigation loaded and drops its
    /// selection (its pixels changed).
    pub fn apply_navigated_image(
        &mut self,
        img_idx: usize,
        folder_idx: usize,
        entry_idx: usize,
        info: ImageInfo<Tex>,
    )
        requires
            img_idx < old(self).image_cells@.len(),
            folder_idx < old(self).folder_cells@.len(),
        ensures
            final(self).image_cells@ == old(self).image_cells@.update(
                img_idx as int,
                folder_image(info, folder_idx, entry_idx),
            ),
            final(self).folder_cells@ == old(self).folder_cells@.update(
                folder_idx as int,
                with_open_entry(old(self).folder_cells@[folder_idx as int], entry_idx),
            ),
            final(self).cell_order@ == old(self).cell_order@,
            final(self).pan_offset@ == old(self).pan_offset@,
            final(self).same_extras(old(self)),
            old(self).wf() && opened_from(old(self).image_cells@, img_idx as int, folder_idx as int)
                ==> final(self).wf(),
    {
        self.image_cells.set(
            img_idx,
            ImageCell {
                info,
                source: ImageSource::FromFolder { folder_idx, entry_idx },
                selection: None,
            },
        );
        self.set_open_entry(folder_idx, entry_idx);
        proof {
            let o = old(self);
            if opened_from(o.image_cells@, img_idx as int, folder_idx as int) {
                assert forall|g: int| #[trigger] self.has_open_image(g) == o.has_open_image(g) by {
                    if self.has_open_image(g) {
                        let k = choose|k: int| 0 <= k < self.image_cells@.len() && #[trigger] opened_from(self.image_cells@, k, g);
                        assert(opened_from(o.image_cells@, k, g));
                    }
                    if o.has_open_image(g) {
                        let k = choose|k: int| 0 <= k < o.image_cells@.len() && #[trigger] opened_from(o.image_cells@, k, g);
                        assert(opened_from(self.image_cells@, k, g));
                    }
                }
                if o.wf() {
                    assert forall|i: int| 0 <= i < self.image_cells@.len() implies match #[trigger] self.image_cells@[i].source {
                        ImageSource::FromFolder { folder_idx, .. } => folder_idx < self.folder_cells@.len(),
                        ImageSource::Standalone => true,
                    } by {
                        if i != img_idx {
                            assert(self.image_cells@[i] == o.image_cells@[i]);
                        }
                    }
                    assert forall|f: int| 0 <= f < self.folder_cells@.len() implies (#[trigger] self.folder_visible(f)
                        <==> !self.has_open_image(f)) by {
                        assert(o.folder_visible(f) <==> !o.has_open_image(f));
                    }
                }
            }
        }
    }

    /// Closes the folder image at grid position `cell_pos` (standalone images and
    /// folders stay); its folder returns to the grid when it was the last one open.
    pub fn close_folder_at_pos(&mut self, cell_pos: usize)
        requires
            old(self).indices_wf(),
        ensures
            old(self).closes_at(cell_pos as int) ==> old(self).removal(final(self), cell_pos as int),
            !old(self).closes_at(cell_pos as int) ==> *final(self) == *old(self),
            old(self).wf() ==> final(self).wf(),
    {
        if cell_pos >= self.cell_order.len() {
            return ;
        }
        if let CellKind::Image(img_idx) = self.cell_order[cell_pos] {
            if let ImageSource::FromFolder { .. } = self.image_cells[img_idx].source {
                self.remove_cell(cell_pos);
            }
        }
    }

    /// Grid position `pos` shows an image opened from a folder.
    pub open spec fn closes_at(&self, pos: int) -> bool {
        &&& 0 <= pos < self.cell_order@.len()
        &&& match self.cell_order@[pos] {
            CellKind::Image(i) => self.image_cells@[i as int].source is FromFolder,
            CellKind::Folder(_) => false,
        }
    }

    /// Appends standalone images at the end of the grid, in order.
    pub fn append_standalone_images(&mut self, infos: Vec<ImageInfo<Tex>>)
        requires
            old(self).indices_wf(),
        ensures
            final(self).image_cells@ == old(self).image_cells@ + infos@.map_values(
                |info: ImageInfo<Tex>| standalone_image::<Tex, Sel>(info),
            ),
            final(self).cell_order@ == old(self).cell_order@ + Seq::new(
                infos@.len(),
                |k: int| CellKind::Image((old(self).image_cells@.len() + k) as usize),
            ),
            final(self).pan_offset@ == old(self).pan_offset@ + Seq::new(
                infos@.len(),
                |k: int| None::<Pan>,
            ),
            final(self).folder_cells@ == old(self).folder_cells@,
            final(self).same_extras(old(self)),
            final(self).indices_wf(),
            old(self).wf() ==> final(self).wf(),
    {
        let ghost o = *self;
        let ghost all = infos@;
        let n_all = infos.len();
        let mut rest = infos;
        let mut k: usize = 0;
        while rest.len() > 0
            invariant
                0 <= k <= all.len(),
                all.len() == n_all,
                rest@ == all.skip(k as int),
                self.image_cells@ == o.image_cells@ + all.take(k as int).map_values(
                    |info: ImageInfo<Tex>| standalone_image::<Tex, Sel>(info),
                ),
                self.cell_order@ == o.cell_order@ + Seq::new(
                    k as nat,
                    |j: int| CellKind::Image((o.image_cells@.len() + j) as usize),
                ),
                self.pan_offset@ == o.pan_offset@ + Seq::new(k as nat, |j: int| None::<Pan>),
                self.folder_cells@ == o.folder_cells@,
                self.same_extras(&o),
                o.indices_wf(),
                self.indices_wf(),
                o.wf() ==> self.wf(),
            decreases rest.len(),
        {
            let info = rest.remove(0);
            let idx = self.image_cells.len();
            let ghost before = *self;
            self.image_cells.push(ImageCell { info, source: ImageSource::Standalone, selection: None });
            self.cell_order.push(CellKind::Image(idx));
            self.pan_offset.push(None);
            proof {
                assert(all.skip(k as int)[0] == all[k as int]);
                assert(all.skip(k + 1) =~= all.skip(k as int).drop_first());
                assert(all.take(k + 1).map_values(|info: ImageInfo<Tex>| standalone_image::<Tex, Sel>(info))
                    =~= all.take(k as int).map_values(|info: ImageInfo<Tex>| standalone_image::<Tex, Sel>(info)).push(
                        standalone_image::<Tex, Sel>(all[k as int])));
                assert(self.cell_order@ =~= o.cell_order@ + Seq::new(
                    (k + 1) as nat,
                    |j: int| CellKind::Image((o.image_cells@.len() + j) as usize),
                ));
                assert(self.pan_offset@ =~= o.pan_offset@ + Seq::new((k + 1) as nat, |j: int| None::<Pan>));
                assert forall|p: int| 0 <= p < self.cell_order@.len() implies self.cell_in_range(
                    #[trigger] self.cell_order@[p],
                ) by {
                    if p < before.cell_order@.len() {
                        assert(before.cell_in_range(before.cell_order@[p]));
                    }
                }
                lemma_push_standalone_wf(before, *self);
            }
            k = k + 1;
        }
        proof {
            assert(all.take(all.len() as int) =~= all);
        }
    }


    /// Where navigating by `delta` takes image `i`: the folder entry `delta` steps away,
    /// clamped to the folder, when that differs from the entry shown.
    pub open spec fn nav_target_of(&self, i: int, delta: int) -> Option<(usize, usize, usize, Seq<char>)> {
        match self.image_cells@[i].source {
            ImageSource::FromFolder { folder_idx, entry_idx } => {
                if folder_idx < self.folder_cells@.len() && self.folder_cells@[folder_idx as int].entries@.len() > 0 {
                    let last = self.folder_cells@[folder_idx as int].entries@.len() - 1;
                    let moved = entry_idx + delta;
                    let t = if moved < 0 { 0 } else if moved > last { last } else { moved };
                    if t != entry_idx {
                        Some((i as usize, folder_idx, t as usize, self.folder_cells@[folder_idx as int].entries@[t]@))
                    } else {
                        None
                    }
                } else {
                    None
                }
            },
            ImageSource::Standalone => None,
        }
    }

    /// Navigation targets of the first `n` images, in image order.
    pub open spec fn nav_targets_upto(&self, n: nat, delta: int) -> Seq<(usize, usize, usize, Seq<char>)>
        decreases n,
    {
        if n == 0 {
            seq![]
        } else {
            let prev = self.nav_targets_upto((n - 1) as nat, delta);
            match self.nav_target_of(n - 1, delta) {
                Some(t) => prev.push(t),
                None => prev,
            }
        }
    }

    /// Entry indices and folder sizes stay within the 32-bit range the step is computed in.
    pub open spec fn nav_in_range(&self, delta: i32) -> bool {
        forall|i: int| 0 <= i < self.image_cells@.len() ==> match #[trigger] self.image_cells@[i].source {
            ImageSource::FromFolder { folder_idx, entry_idx } => folder_idx < self.folder_cells@.len()
                ==> {
                &&& self.folder_cells@[folder_idx as int].entries@.len() <= i32::MAX
                &&& entry_idx <= i32::MAX
                &&& entry_idx + delta <= i32::MAX
            },
            ImageSource::Standalone => true,
        }
    }

    /// Navigation targets (Space/B): for every image opened from a folder, the entry
    /// `delta` steps away, as (image index, folder index, entry index, path).
    pub fn folder_nav_targets(&self, delta: i32) -> (targets: Vec<(usize, usize, usize, String)>)
        requires
            self.nav_in_range(delta),
        ensures
            targets@.map_values(|t: (usize, usize, usize, String)| (t.0, t.1, t.2, t.3@))
                == self.nav_targets_upto(self.image_cells@.len(), delta as int),
            open_entries_in_range(*self) ==> forall|k: int| 0 <= k < targets@.len() ==> nav_step_ok(
                *self,
                (#[trigger] targets@[k].0, targets@[k].1, targets@[k].2, targets@[k].3@),
                delta as int,
            ),
    {
        let mut targets: Vec<(usize, usize, usize, String)> = Vec::new();
        let n = self.image_cells.len();
        let mut i: usize = 0;
        while i < n
            invariant
                n == self.image_cells@.len(),
                i <= n,
                self.nav_in_range(delta),
                targets@.map_values(|t: (usize, usize, usize, String)| (t.0, t.1, t.2, t.3@))
                    == self.nav_targets_upto(i as nat, delta as int),
            decreases n - i,
        {
            let ghost before = targets@;
            if let ImageSource::FromFolder { folder_idx, entry_idx } = self.image_cells[i].source {
                if folder_idx < self.folder_cells.len() {
                    let len = self.folder_cells[folder_idx].entries.len();
                    if len > 0 {
                        assert(self.image_cells@[i as int].source == ImageSource::FromFolder { folder_idx, entry_idx });
                        let moved: i64 = entry_idx as i64 + delta as i64;
                        let last: i64 = len as i64 - 1;
                        let t: i64 = if moved < 0 { 0 } else if moved > last { last } else { moved };
                        let new_idx = t as usize;
                        if new_idx != entry_idx {
                            let path = self.folder_cells[folder_idx].entries[new_idx].clone();
                            targets.push((i, folder_idx, new_idx, path));
                            proof {
                                assert(targets@.map_values(|t: (usize, usize, usize, String)| (t.0, t.1, t.2, t.3@))
                                    =~= before.map_values(|t: (usize, usize, usize, String)| (t.0, t.1, t.2, t.3@)).push(
                                        (i, folder_idx, new_idx, path@)));
                            }
                        }
                    }
                }
            }
            i = i + 1;
        }
        proof {
            if open_entries_in_range(*self) {
                lemma_nav_targets_clamped(*self, self.image_cells@.len(), delta as int);
                let tv = targets@.map_values(|t: (usize, usize, usize, String)| (t.0, t.1, t.2, t.3@));
                assert forall|k: int| 0 <= k < targets@.len() implies nav_step_ok(
                    *self,
                    (#[trigger] targets@[k].0, targets@[k].1, targets@[k].2, targets@[k].3@),
                    delta as int,
                ) by {
                    assert(tv[k] == (targets@[k].0, targets@[k].1, targets@[k].2, targets@[k].3@));
                    assert(tv[k].0 < self.image_cells@.len());
                }
            }
        }
        targets
    }

    /// Whether any stored image was opened from folder `f`.
    fn any_open_from(&self, f: usize) -> (res: bool)
        ensures
            res == self.has_open_image(f as int),
    {
        let n = self.image_cells.len();
        let mut i: usize = 0;
        while i < n
            invariant
                n == self.image_cells@.len(),
                i <= n,
                forall|j: int| 0 <= j < i ==> !#[trigger] opened_from(self.image_cells@, j, f as int),
            decreases n - i,
        {
            if let ImageSource::FromFolder { folder_idx, .. } = self.image_cells[i].source {
                if folder_idx == f {
                    assert(opened_from(self.image_cells@, i as int, f as int));
                    return true;
                }
            }
            i = i + 1;
        }
        false
    }

    /// Shows folder `f` again after its last image closed.
    fn restore_folder_view(&mut self, f: usize)
        requires
            f < old(self).folder_cells@.len(),
        ensures
            final(self).folder_cells@.len() == old(self).folder_cells@.len(),
            folder_restored(old(self).folder_cells@[f as int], final(self).folder_cells@[f as int]),
            forall|g: int| 0 <= g < old(self).folder_cells@.len() && g != f
                ==> #[trigger] final(self).folder_cells@[g] == old(self).folder_cells@[g],
            final(self).image_cells@ == old(self).image_cells@,
            final(self).cell_order@ == old(self).cell_order@,
            final(self).pan_offset@ == old(self).pan_offset@,
            final(self).same_extras(old(self)),
    {
        let mut fc = self.folder_cells.remove(f);
        if let Some(entry) = fc.open_entry {
            fc.selected.clear();
            fc.selected.insert(entry);
            fc.scroll_to = Some(entry);
        }
        fc.open_entry = None;
        self.folder_cells.insert(f, fc);
        proof {
            assert forall|g: int| 0 <= g < old(self).folder_cells@.len() && g != f
                implies #[trigger] self.folder_cells@[g] == old(self).folder_cells@[g] by {
            }
            assert(fc.selected@ =~= set![fc.open_entry.unwrap()] || true);
        }
    }

    /// Turns the images of folder `f` standalone and renumbers later folders.
    fn detach_folder_images(&mut self, f: usize)
        ensures
            final(self).image_cells@ == old(self).image_cells@.map_values(
                |c: ImageCell<Tex, Sel>| with_source(c, detach_source(c.source, f as int)),
            ),
            final(self).folder_cells@ == old(self).folder_cells@,
            final(self).cell_order@ == old(self).cell_order@,
            final(self).pan_offset@ == old(self).pan_offset@,
            final(self).same_extras(old(self)),
    {
        let n = self.image_cells.len();
        let mut i: usize = 0;
        while i < n
            invariant
                n == self.image_cells@.len(),
                n == old(self).image_cells@.len(),
                i <= n,
                forall|j: int| 0 <= j < i ==> #[trigger] self.image_cells@[j] == with_source(
                    old(self).image_cells@[j],
                    detach_source(old(self).image_cells@[j].source, f as int),
                ),
                forall|j: int| i <= j < n ==> #[trigger] self.image_cells@[j] == old(self).image_cells@[j],
                self.folder_cells@ == old(self).folder_cells@,
                self.cell_order@ == old(self).cell_order@,
                self.pan_offset@ == old(self).pan_offset@,
                self.same_extras(old(self)),
            decreases n - i,
        {
            let mut cell = self.image_cells.remove(i);
            cell.source = match cell.source {
                ImageSource::FromFolder { folder_idx, entry_idx } => if folder_idx == f {
                    ImageSource::Standalone
                } else if folder_idx > f {
                    ImageSource::FromFolder { folder_idx: folder_idx - 1, entry_idx }
                } else {
                    cell.source
                },
                ImageSource::Standalone => ImageSource::Standalone,
            };
            self.image_cells.insert(i, cell);
            i = i + 1;
        }
        proof {
            assert(self.image_cells@ =~= old(self).image_cells@.map_values(
                |c: ImageCell<Tex, Sel>| with_source(c, detach_source(c.source, f as int)),
            ));
        }
    }

    /// Records `entry_idx` as the open entry of folder `folder_idx`.
    fn set_open_entry(&mut self, folder_idx: usize, entry_idx: usize)
        requires
            folder_idx < old(self).folder_cells@.len(),
        ensures
            final(self).folder_cells@ == old(self).folder_cells@.update(
                folder_idx as int,
                with_open_entry(old(self).folder_cells@[folder_idx as int], entry_idx),
            ),
            final(self).image_cells@ == old(self).image_cells@,
            final(self).cell_order@ == old(self).cell_order@,
            final(self).pan_offset@ == old(self).pan_offset@,
            final(self).same_extras(old(self)),
    {
        let mut fc = self.folder_cells.remove(folder_idx);
        fc.open_entry = Some(entry_idx);
        self.folder_cells.insert(folder_idx, fc);
        proof {
            assert(self.folder_cells@ =~= old(self).folder_cells@.update(
                folder_idx as int,
                with_open_entry(old(self).folder_cells@[folder_idx as int], entry_idx),
            ));
        }
    }

    /// How many images are open from each folder.
    pub fn folder_open_counts(&self) -> (counts: Vec<usize>)
        ensures
            counts@.len() == self.folder_cells@.len(),
            forall|f: int|
                0 <= f < counts@.len() ==> #[trigger] counts@[f] == self.open_count_of(f),
    {
        let nf = self.folder_cells.len();
        let mut counts: Vec<usize> = Vec::new();
        let mut k: usize = 0;
        while k < nf
            invariant
                nf == self.folder_cells@.len(),
                k <= nf,
                counts@.len() == k,
                forall|f: int| 0 <= f < k ==> #[trigger] counts@[f] == 0,
            decreases nf - k,
        {
            counts.push(0);
            k = k + 1;
        }
        let n = self.image_cells.len();
        let mut i: usize = 0;
        while i < n
            invariant
                nf == self.folder_cells@.len(),
                n == self.image_cells@.len(),
                i <= n,
                counts@.len() == nf,
                forall|f: int|
                    0 <= f < nf ==> #[trigger] counts@[f] == open_count(
                        self.image_cells@.take(i as int),
                        f,
                    ),
            decreases n - i,
        {
            proof {
                assert(self.image_cells@.take(i + 1).drop_last() =~= self.image_cells@.take(
                    i as int,
                ));
                assert forall|f: int| 0 <= f < nf implies #[trigger] open_count(
                    self.image_cells@.take(i as int),
                    f,
                ) <= i by {
                    lemma_open_count_bounded(self.image_cells@.take(i as int), f);
                }
            }
            if let ImageSource::FromFolder { folder_idx, .. } = self.image_cells[i].source {
                if folder_idx < nf {
                    counts.set(folder_idx, counts[folder_idx] + 1);
                }
            }
            i = i + 1;
        }
        proof {
            assert(self.image_cells@.take(n as int) =~= self.image_cells@);
        }
        counts
    }

    /// Navigation answers when some folder image is open and no folder has more than one.
    pub fn folder_nav_allowed(&self) -> (res: bool)
        ensures
            res == self.spec_nav_allowed(),
    {
        let counts = self.folder_open_counts();
        let n = counts.len();
        if n == 0 {
            return false;
        }
        let mut all_le_one = true;
        let mut any_one = false;
        let mut k: usize = 0;
        while k < n
            invariant
                n == counts@.len(),
                n == self.folder_cells@.len(),
                k <= n,
                forall|f: int|
                    0 <= f < counts@.len() ==> #[trigger] counts@[f] == self.open_count_of(f),
                all_le_one == (forall|f: int| 0 <= f < k ==> #[trigger] self.open_count_of(f) <= 1),
                any_one == (exists|f: int| 0 <= f < k && #[trigger] self.open_count_of(f) == 1),
            decreases n - k,
        {
            if counts[k] > 1 {
                all_le_one = false;
            }
            if counts[k] == 1 {
                any_one = true;
            }
            proof {
                if counts[k as int] == 1 {
                    assert(self.open_count_of(k as int) == 1);
                }
                if !all_le_one {
                    if counts[k as int] > 1 {
                        assert(!(self.open_count_of(k as int) <= 1));
                    }
                }
            }
            k = k + 1;
        }
        all_le_one && any_one
    }

    /// Exactly two folders, each with exactly one open image.
    pub fn is_compare_pair(&self) -> (res: bool)
        ensures
            res == self.spec_compare_pair(),
    {
        if self.folder_cells.len() != 2 {
            return false;
        }
        let counts = self.folder_open_counts();
        counts[0] == 1 && counts[1] == 1
    }

    /// The grid is non-empty and shows only images.
    pub fn is_all_images(&self) -> (res: bool)
        ensures
            res == self.spec_all_images(),
    {
        let n = self.cell_order.len();
        let mut k: usize = 0;
        while k < n
            invariant
                n == self.cell_order@.len(),
                k <= n,
                forall|p: int| 0 <= p < k ==> #[trigger] self.cell_order@[p] is Image,
            decreases n - k,
        {
            if let CellKind::Folder(_) = self.cell_order[k] {
                return false;
            }
            k = k + 1;
        }
        n > 0
    }

    /// Exchanges two grid positions together with their pan offsets.
    pub fn swap_cells(&mut self, a: usize, b: usize)
        requires
            a < old(self).cell_order@.len(),
            b < old(self).cell_order@.len(),
            old(self).indices_wf(),
        ensures
            final(self).cell_order@ == old(self).cell_order@.update(a as int, old(
                self,
            ).cell_order@[b as int]).update(b as int, old(self).cell_order@[a as int]),
            final(self).pan_offset@ == old(self).pan_offset@.update(a as int, old(
                self,
            ).pan_offset@[b as int]).update(b as int, old(self).pan_offset@[a as int]),
            final(self).image_cells@ == old(self).image_cells@,
            final(self).folder_cells@ == old(self).folder_cells@,
            old(self).wf() ==> final(self).wf(),
    {
        swap_entries(&mut self.cell_order, a, b);
        swap_entries(&mut self.pan_offset, a, b);
        proof {
            let o = old(self).cell_order@;
            let n = self.cell_order@;
            assert forall|c: CellKind| #[trigger] n.contains(c) <==> o.contains(c) by {
                if o.contains(c) {
                    let p = choose|p: int| 0 <= p < o.len() && o[p] == c;
                    if p == a {
                        assert(n[b as int] == c);
                    } else if p == b {
                        assert(n[a as int] == c);
                    } else {
                        assert(n[p] == c);
                    }
                }
                if n.contains(c) {
                    let p = choose|p: int| 0 <= p < n.len() && n[p] == c;
                    if p == a {
                        assert(o[b as int] == c);
                    } else if p == b {
                        assert(o[a as int] == c);
                    } else {
                        assert(o[p] == c);
                    }
                }
            }
            if old(self).wf() {
                assert forall|p: int, q: int| 0 <= p < q < n.len() implies #[trigger] n[p]
                    != #[trigger] n[q] by {
                    let pp = if p == a { b as int } else if p == b { a as int } else { p };
                    let qq = if q == a { b as int } else if q == b { a as int } else { q };
                    assert(n[p] == o[pp]);
                    assert(n[q] == o[qq]);
                    if pp < qq {
                        assert(o[pp] != o[qq]);
                    } else {
                        assert(o[qq] != o[pp]);
                    }
                }
                assert forall|f: int| 0 <= f < self.folder_cells@.len() implies (
                #[trigger] self.folder_visible(f) <==> !self.has_open_image(f)) by {
                    assert(old(self).folder_visible(f) <==> !old(self).has_open_image(f));
                    assert(self.has_open_image(f) == old(self).has_open_image(f));
                }
            }
        }
    }
}


/// Drops every copy of `path` from `paths`.
pub fn remove_path(paths: &mut Vec<String>, path: &String)
    ensures
        strings_view(final(paths)@) == strings_view(old(paths)@).filter(|q: Seq<char>| q != path@),
        strings_view(old(paths)@).no_duplicates() ==> strings_view(final(paths)@).no_duplicates(),
{
    let mut kept: Vec<String> = Vec::new();
    let n = paths.len();
    let mut i: usize = 0;
    while i < n
        invariant
            n == paths@.len(),
            paths@ == old(paths)@,
            i <= n,
            strings_view(kept@) == strings_view(paths@.take(i as int)).filter(|q: Seq<char>| q != path@),
        decreases n - i,
    {
        proof {
            reveal_with_fuel(Seq::<_>::filter, 1);
            assert(strings_view(paths@.take(i + 1)).drop_last() =~= strings_view(paths@.take(i as int)));
        }
        if paths[i] != *path {
            kept.push(paths[i].clone());
            proof {
                assert(strings_view(kept@) =~= strings_view(paths@.take(i as int)).filter(|q: Seq<char>| q != path@).push(paths@[i as int]@));
            }
        }
        i = i + 1;
    }
    proof {
        assert(paths@.take(n as int) =~= paths@);
        if strings_view(paths@).no_duplicates() {
            lemma_filter_keeps_distinct(strings_view(paths@), |q: Seq<char>| q != path@);
        }
    }
    *paths = kept;
}

/// Moves down by one every image index above `i` in `order`.
pub fn shift_image_entries(order: &mut Vec<CellKind>, i: usize)
    ensures
        final(order)@ == old(order)@.map_values(|c: CellKind| shift_image(c, i as int)),
{
    let n = order.len();
    let mut p: usize = 0;
    while p < n
        invariant
            n == order@.len(),
            n == old(order)@.len(),
            p <= n,
            forall|q: int| 0 <= q < p ==> #[trigger] order@[q] == shift_image(old(order)@[q], i as int),
            forall|q: int| p <= q < n ==> #[trigger] order@[q] == old(order)@[q],
        decreases n - p,
    {
        if let CellKind::Image(k) = order[p] {
            if k > i {
                order.set(p, CellKind::Image(k - 1));
            }
        }
        p = p + 1;
    }
    proof {
        assert(order@ =~= old(order)@.map_values(|c: CellKind| shift_image(c, i as int)));
    }
}

/// Moves down by one every folder index above `f` in `order`.
pub fn shift_folder_entries(order: &mut Vec<CellKind>, f: usize)
    ensures
        final(order)@ == old(order)@.map_values(|c: CellKind| shift_folder(c, f as int)),
{
    let n = order.len();
    let mut p: usize = 0;
    while p < n
        invariant
            n == order@.len(),
            n == old(order)@.len(),
            p <= n,
            forall|q: int| 0 <= q < p ==> #[trigger] order@[q] == shift_folder(old(order)@[q], f as int),
            forall|q: int| p <= q < n ==> #[trigger] order@[q] == old(order)@[q],
        decreases n - p,
    {
        if let CellKind::Folder(k) = order[p] {
            if k > f {
                order.set(p, CellKind::Folder(k - 1));
            }
        }
        p = p + 1;
    }
    proof {
        assert(order@ =~= old(order)@.map_values(|c: CellKind| shift_folder(c, f as int)));
    }
}

/// Exchanges two entries of a vector.
pub fn swap_entries<T>(v: &mut Vec<T>, a: usize, b: usize)
    requires
        a < old(v)@.len(),
        b < old(v)@.len(),
    ensures
        final(v)@ == old(v)@.update(a as int, old(v)@[b as int]).update(b as int, old(v)@[a as int]),
{
    if a == b {
        proof {
            assert(v@ =~= old(v)@.update(a as int, old(v)@[b as int]).update(b as int, old(v)@[a as int]));
        }
        return ;
    }
    let (lo, hi) = if a < b { (a, b) } else { (b, a) };
    let x_hi = v.remove(hi);
    let x_lo = v.remove(lo);
    v.insert(lo, x_hi);
    v.insert(hi, x_lo);
    proof {
        assert(v@ =~= old(v)@.update(a as int, old(v)@[b as int]).update(b as int, old(v)@[a as int]));
    }
}



/// The cell a standalone image becomes.
pub open spec fn standalone_image<Tex, Sel>(info: ImageInfo<Tex>) -> ImageCell<Tex, Sel> {
    ImageCell { info, source: ImageSource::Standalone, selection: None }
}

/// Appending one standalone image at the end of the grid keeps the invariant.
proof fn lemma_push_standalone_wf<Tex, Sel, Pan, Scroll>(
    o: AppState<Tex, Sel, Pan, Scroll>,
    n: AppState<Tex, Sel, Pan, Scroll>,
)
    requires
        o.indices_wf(),
        n.image_cells@.len() == o.image_cells@.len() + 1,
        forall|i: int| 0 <= i < o.image_cells@.len() ==> #[trigger] n.image_cells@[i] == o.image_cells@[i],
        n.image_cells@.last().source == ImageSource::Standalone,
        n.cell_order@ == o.cell_order@.push(CellKind::Image(o.image_cells@.len() as usize)),
        n.pan_offset@.len() == n.cell_order@.len(),
        n.folder_cells@ == o.folder_cells@,
        n.loaded_paths@ == o.loaded_paths@,
    ensures
        o.wf() ==> n.wf(),
{
    if o.wf() {
        let m = o.image_cells@.len() as int;
        assert(o.image_cells.len() == o.image_cells@.len());
        assert forall|g: int| #[trigger] n.has_open_image(g) == o.has_open_image(g) by {
            if n.has_open_image(g) {
                let k = choose|k: int| 0 <= k < n.image_cells@.len() && #[trigger] opened_from(n.image_cells@, k, g);
                assert(k != m);
                assert(opened_from(o.image_cells@, k, g));
            }
            if o.has_open_image(g) {
                let k = choose|k: int| 0 <= k < o.image_cells@.len() && #[trigger] opened_from(o.image_cells@, k, g);
                assert(opened_from(n.image_cells@, k, g));
            }
        }
        assert forall|p: int| 0 <= p < o.cell_order@.len() implies #[trigger] o.cell_order@[p]
            != CellKind::Image(m as usize) by {
            assert(o.cell_in_range(o.cell_order@[p]));
        }
        assert forall|p: int, q: int| 0 <= p < q < n.cell_order@.len() implies #[trigger] n.cell_order@[p]
            != #[trigger] n.cell_order@[q] by {
            assert(n.cell_order@[p] == o.cell_order@[p]);
        }
        assert forall|i: int| 0 <= i < n.image_cells@.len() implies #[trigger] n.cell_order@.contains(
            CellKind::Image(i as usize),
        ) by {
            if i == m {
                assert(n.cell_order@[o.cell_order@.len() as int] == CellKind::Image(i as usize));
            } else {
                assert(o.cell_order@.contains(CellKind::Image(i as usize)));
                let p = choose|p: int| 0 <= p < o.cell_order@.len() && o.cell_order@[p] == CellKind::Image(i as usize);
                assert(n.cell_order@[p] == CellKind::Image(i as usize));
            }
        }
        assert forall|i: int| 0 <= i < n.image_cells@.len() implies match #[trigger] n.image_cells@[i].source {
            ImageSource::FromFolder { folder_idx, .. } => folder_idx < n.folder_cells@.len(),
            ImageSource::Standalone => true,
        } by {
            if i < m {
                assert(n.image_cells@[i] == o.image_cells@[i]);
            }
        }
        assert forall|f: int| 0 <= f < n.folder_cells@.len() implies (#[trigger] n.folder_visible(f)
            <==> !n.has_open_image(f)) by {
            assert(o.folder_visible(f) <==> !o.has_open_image(f));
            if n.folder_visible(f) {
                let p = choose|p: int| 0 <= p < n.cell_order@.len() && n.cell_order@[p] == CellKind::Folder(f as usize);
                assert(p < o.cell_order@.len());
                assert(o.cell_order@[p] == CellKind::Folder(f as usize));
            }
            if o.folder_visible(f) {
                let p = choose|p: int| 0 <= p < o.cell_order@.len() && o.cell_order@[p] == CellKind::Folder(f as usize);
                assert(n.cell_order@[p] == CellKind::Folder(f as usize));
            }
        }
    }
}

/// Removing a cell keeps the grid invariant.
pub proof fn lemma_removal_wf<Tex, Sel, Pan, Scroll>(
    o: AppState<Tex, Sel, Pan, Scroll>,
    n: AppState<Tex, Sel, Pan, Scroll>,
    pos: int,
)
    requires
        o.wf(),
        o.removal(&n, pos),
    ensures
        n.wf(),
{
    if 0 <= pos < o.cell_order@.len() {
        match o.cell_order@[pos] {
            CellKind::Image(i) => lemma_removal_image_wf(o, n, pos, i),
            CellKind::Folder(f) => lemma_removal_folder_wf(o, n, pos, f),
        }
    } else {
        assert forall|f: int| 0 <= f < n.folder_cells@.len() implies (#[trigger] n.folder_visible(f)
            <==> !n.has_open_image(f)) by {
            assert(o.folder_visible(f) <==> !o.has_open_image(f));
        }
    }
}

/// The position in `s` that lands at `q` of `s.remove(pos)`.
pub open spec fn unremoved(q: int, pos: int) -> int {
    if q < pos {
        q
    } else {
        q + 1
    }
}

proof fn lemma_removal_image_wf<Tex, Sel, Pan, Scroll>(
    o: AppState<Tex, Sel, Pan, Scroll>,
    n: AppState<Tex, Sel, Pan, Scroll>,
    pos: int,
    iu: usize,
)
    requires
        o.wf(),
        o.removal(&n, pos),
        0 <= pos < o.cell_order@.len(),
        o.cell_order@[pos] == CellKind::Image(iu),
    ensures
        n.wf(),
{
    lemma_filter_keeps_distinct(
        strings_view(o.loaded_paths@),
        |q: Seq<char>| q != o.image_cells@[iu as int].info.path@,
    );
    let i = iu as int;
    assert(o.image_cells.len() == o.image_cells@.len());
    assert(o.folder_cells.len() == o.folder_cells@.len());
    let O = o.cell_order@;
    let I = o.image_cells@;
    let rest = O.remove(pos).map_values(|c: CellKind| shift_image(c, i));
    let restore = o.removal_restores(pos, n.image_cells@);
    assert(o.cell_in_range(O[pos]));
    assert(0 <= i < I.len());
    // Old positions other than `pos` never hold `Image(i)`.
    assert forall|q: int| 0 <= q < O.len() && q != pos implies #[trigger] O[q] != CellKind::Image(iu) by {
        if q < pos {
            assert(O[q] != O[pos]);
        } else {
            assert(O[pos] != O[q]);
        }
    }
    assert forall|q: int| 0 <= q < rest.len() implies #[trigger] rest[q] == shift_image(O[unremoved(q, pos)], i) by {
    }
    // Image membership transfers between old and new storage.
    assert forall|k: int, g: int| 0 <= k < n.image_cells@.len() implies #[trigger] opened_from(n.image_cells@, k, g)
        == opened_from(I, unremoved(k, i), g) by {
        assert(n.image_cells@[k] == I[unremoved(k, i)]);
    }
    let src_folder = source_folder(I[i].source);
    assert forall|g: int| (src_folder != Some(g as usize) || g < 0) ==> (#[trigger] has_open_image_in(n.image_cells@, g)
        == has_open_image_in(I, g)) by {
        if src_folder != Some(g as usize) || g < 0 {
            if has_open_image_in(I, g) {
                let k = choose|k: int| 0 <= k < I.len() && #[trigger] opened_from(I, k, g);
                assert(k != i);
                let k2 = if k < i { k } else { k - 1 };
                assert(unremoved(k2, i) == k);
                assert(opened_from(n.image_cells@, k2, g));
            }
            if has_open_image_in(n.image_cells@, g) {
                let k = choose|k: int| 0 <= k < n.image_cells@.len() && #[trigger] opened_from(n.image_cells@, k, g);
                assert(opened_from(I, unremoved(k, i), g));
            }
        }
    }
    // Folder entries of the rest are the old ones away from `pos`.
    assert forall|g: int| 0 <= g < o.folder_cells@.len() implies (#[trigger] rest.contains(CellKind::Folder(g as usize))
        == o.folder_visible(g)) by {
        if rest.contains(CellKind::Folder(g as usize)) {
            let q = choose|q: int| 0 <= q < rest.len() && rest[q] == CellKind::Folder(g as usize);
            assert(O[unremoved(q, pos)] == CellKind::Folder(g as usize));
        }
        if o.folder_visible(g) {
            let q = choose|q: int| 0 <= q < O.len() && O[q] == CellKind::Folder(g as usize);
            assert(q != pos);
            let q2 = if q < pos { q } else { q - 1 };
            assert(rest[q2] == CellKind::Folder(g as usize));
        }
    }
    // Entries of the rest are in range and distinct.
    assert forall|q: int| 0 <= q < rest.len() implies n.cell_in_range(#[trigger] rest[q]) by {
        let qq = unremoved(q, pos);
        assert(o.cell_in_range(O[qq]));
    }
    assert forall|p: int, q: int| 0 <= p < q < rest.len() implies #[trigger] rest[p] != #[trigger] rest[q] by {
        let pp = unremoved(p, pos);
        let qq = unremoved(q, pos);
        assert(O[pp] != O[qq]);
        assert(O[pp] != CellKind::Image(iu));
        assert(O[qq] != CellKind::Image(iu));
    }
    assert forall|k: int| 0 <= k < n.image_cells@.len() implies #[trigger] rest.contains(CellKind::Image(k as usize)) by {
        let kk = unremoved(k, i);
        assert(kk != i);
        assert(0 <= kk < I.len());
        assert(CellKind::Image(kk as usize) != CellKind::Image(iu));
        assert(O.contains(CellKind::Image(kk as usize)));
        let q = choose|q: int| 0 <= q < O.len() && O[q] == CellKind::Image(kk as usize);
        assert(q != pos);
        let q2 = if q < pos { q } else { q - 1 };
        assert(unremoved(q2, pos) == q);
        assert(rest[q2] == shift_image(O[q], i));
        assert(rest[q2] == CellKind::Image(k as usize));
    }
    assert forall|k: int| 0 <= k < n.image_cells@.len() implies match #[trigger] n.image_cells@[k].source {
        ImageSource::FromFolder { folder_idx, .. } => folder_idx < n.folder_cells@.len(),
        ImageSource::Standalone => true,
    } by {
        assert(n.image_cells@[k] == I[unremoved(k, i)]);
        match I[unremoved(k, i)].source {
            ImageSource::FromFolder { .. } => {},
            ImageSource::Standalone => {},
        }
    }
    match restore {
        Some(f0) => {
            let N = n.cell_order@;
            assert(opened_from(I, i, f0 as int));
            assert(o.has_open_image(f0 as int));
            assert(!o.folder_visible(f0 as int));
            assert(!rest.contains(CellKind::Folder(f0)));
            assert forall|q: int| 0 <= q < N.len() implies n.cell_in_range(#[trigger] N[q]) by {
                if q < pos {
                    assert(N[q] == rest[q]);
                } else if q > pos {
                    assert(N[q] == rest[q - 1]);
                }
            }
            assert forall|p: int, q: int| 0 <= p < q < N.len() implies #[trigger] N[p] != #[trigger] N[q] by {
                if p == pos {
                    assert(N[q] == rest[q - 1]);
                } else if q == pos {
                    assert(N[p] == rest[p]);
                } else {
                    let pp = if p < pos { p } else { p - 1 };
                    let qq = if q < pos { q } else { q - 1 };
                    assert(N[p] == rest[pp]);
                    assert(N[q] == rest[qq]);
                }
            }
            assert forall|c: CellKind| rest.contains(c) implies #[trigger] N.contains(c) by {
                let q = choose|q: int| 0 <= q < rest.len() && rest[q] == c;
                if q < pos {
                    assert(N[q] == c);
                } else {
                    assert(N[q + 1] == c);
                }
            }
            assert forall|k: int| 0 <= k < n.image_cells@.len() implies #[trigger] N.contains(CellKind::Image(k as usize)) by {
                assert(rest.contains(CellKind::Image(k as usize)));
            }
            assert forall|g: int| 0 <= g < n.folder_cells@.len() implies (#[trigger] n.folder_visible(g)
                <==> !n.has_open_image(g)) by {
                if g == f0 {
                    assert(N[pos] == CellKind::Folder(f0));
                } else {
                    assert(o.folder_visible(g) <==> !o.has_open_image(g));
                    if n.folder_visible(g) {
                        let q = choose|q: int| 0 <= q < N.len() && N[q] == CellKind::Folder(g as usize);
                        assert(q != pos);
                        let qq = if q < pos { q } else { q - 1 };
                        assert(rest[qq] == CellKind::Folder(g as usize));
                    }
                    if rest.contains(CellKind::Folder(g as usize)) {
                        assert(N.contains(CellKind::Folder(g as usize)));
                    }
                }
            }
        },
        None => {
            assert forall|g: int| 0 <= g < n.folder_cells@.len() implies (#[trigger] n.folder_visible(g)
                <==> !n.has_open_image(g)) by {
                assert(o.folder_visible(g) <==> !o.has_open_image(g));
                if src_folder == Some(g as usize) {
                    assert(opened_from(I, i, g));
                    assert(o.has_open_image(g));
                    assert(n.has_open_image(g));
                }
            }
        },
    }
}

proof fn lemma_removal_folder_wf<Tex, Sel, Pan, Scroll>(
    o: AppState<Tex, Sel, Pan, Scroll>,
    n: AppState<Tex, Sel, Pan, Scroll>,
    pos: int,
    fu: usize,
)
    requires
        o.wf(),
        o.removal(&n, pos),
        0 <= pos < o.cell_order@.len(),
        o.cell_order@[pos] == CellKind::Folder(fu),
    ensures
        n.wf(),
{
    let f = fu as int;
    assert(o.image_cells.len() == o.image_cells@.len());
    assert(o.folder_cells.len() == o.folder_cells@.len());
    let O = o.cell_order@;
    let I = o.image_cells@;
    let N = n.cell_order@;
    assert(o.cell_in_range(O[pos]));
    assert(0 <= f < o.folder_cells@.len());
    assert(o.folder_visible(f));
    assert(!o.has_open_image(f));
    assert forall|q: int| 0 <= q < O.len() && q != pos implies #[trigger] O[q] != CellKind::Folder(fu) by {
        if q < pos {
            assert(O[q] != O[pos]);
        } else {
            assert(O[pos] != O[q]);
        }
    }
    assert forall|q: int| 0 <= q < N.len() implies #[trigger] N[q] == shift_folder(O[unremoved(q, pos)], f) by {
        assert(O.remove(pos)[q] == O[unremoved(q, pos)]);
    }
    assert forall|q: int| 0 <= q < N.len() implies n.cell_in_range(#[trigger] N[q]) by {
        assert(o.cell_in_range(O[unremoved(q, pos)]));
    }
    assert forall|p: int, q: int| 0 <= p < q < N.len() implies #[trigger] N[p] != #[trigger] N[q] by {
        let pp = unremoved(p, pos);
        let qq = unremoved(q, pos);
        assert(O[pp] != O[qq]);
        assert(O[pp] != CellKind::Folder(fu));
        assert(O[qq] != CellKind::Folder(fu));
    }
    assert forall|k: int| 0 <= k < n.image_cells@.len() implies #[trigger] N.contains(CellKind::Image(k as usize)) by {
        assert(O.contains(CellKind::Image(k as usize)));
        let q = choose|q: int| 0 <= q < O.len() && O[q] == CellKind::Image(k as usize);
        assert(q != pos);
        let q2 = if q < pos { q } else { q - 1 };
        assert(N[q2] == CellKind::Image(k as usize));
    }
    assert forall|k: int| 0 <= k < n.image_cells@.len() implies match #[trigger] n.image_cells@[k].source {
        ImageSource::FromFolder { folder_idx, .. } => folder_idx < n.folder_cells@.len(),
        ImageSource::Standalone => true,
    } by {
        assert(n.image_cells@[k].source == detach_source(I[k].source, f));
        match I[k].source {
            ImageSource::FromFolder { folder_idx, .. } => {
                if folder_idx as int == f {
                    assert(opened_from(I, k, f));
                }
            },
            ImageSource::Standalone => {},
        }
    }
    assert forall|g: int| 0 <= g < n.folder_cells@.len() implies (#[trigger] n.folder_visible(g)
        <==> !n.has_open_image(g)) by {
        let og = if g < f { g } else { g + 1 };
        assert(0 <= og < o.folder_cells@.len());
        assert(og != f);
        assert(CellKind::Folder(og as usize) != CellKind::Folder(fu));
        assert(o.folder_visible(og) <==> !o.has_open_image(og));
        // Visibility moves from `og` to `g`.
        if n.folder_visible(g) {
            let q = choose|q: int| 0 <= q < N.len() && N[q] == CellKind::Folder(g as usize);
            let uq = unremoved(q, pos);
            assert(uq != pos);
            assert(N[q] == shift_folder(O[uq], f));
            match O[uq] {
                CellKind::Folder(x) => {
                    assert(x as int != f);
                    if x as int > f {
                        assert(x as int - 1 == g);
                        assert(og == x as int);
                    } else {
                        assert(x as int == g);
                        assert(og == x as int);
                    }
                },
                CellKind::Image(_) => {
                    assert(false);
                },
            }
            assert(O[uq] == CellKind::Folder(og as usize));
        }
        if o.folder_visible(og) {
            let q = choose|q: int| 0 <= q < O.len() && O[q] == CellKind::Folder(og as usize);
            assert(q != pos);
            let q2 = if q < pos { q } else { q - 1 };
            assert(N[q2] == CellKind::Folder(g as usize));
        }
        // Open images move from `og` to `g`.
        if n.has_open_image(g) {
            let k = choose|k: int| 0 <= k < n.image_cells@.len() && #[trigger] opened_from(n.image_cells@, k, g);
            assert(n.image_cells@[k].source == detach_source(I[k].source, f));
            assert(opened_from(I, k, og));
        }
        if o.has_open_image(og) {
            let k = choose|k: int| 0 <= k < I.len() && #[trigger] opened_from(I, k, og);
            assert(n.image_cells@[k].source == detach_source(I[k].source, f));
            assert(opened_from(n.image_cells@, k, g));
        }
    }
}


/// Opening an entry of a folder shown on the grid and then removing the image it became
/// gives back the grid exactly: the same cells, in the same positions, the folder in its
/// own position again (its pan offset reset), and the folder's other state as before
/// except that the entry that was shown is now the selected one.
pub proof fn lemma_open_then_close_restores_grid<Tex, Sel, Pan, Scroll>(
    o: AppState<Tex, Sel, Pan, Scroll>,
    opened: AppState<Tex, Sel, Pan, Scroll>,
    closed: AppState<Tex, Sel, Pan, Scroll>,
    f: usize,
    e: usize,
    info: ImageInfo<Tex>,
)
    requires
        o.wf(),
        f < o.folder_cells@.len(),
        o.folder_visible(f as int),
        o.cell_order@.len() <= MAX_IMAGES,
        o.opening(&opened, f as int, e, info),
        opened.removal(&closed, first_index(o.cell_order@, CellKind::Folder(f))),
    ensures
        closed.image_cells@ == o.image_cells@,
        closed.cell_order@ == o.cell_order@,
        closed.pan_offset@ == o.pan_offset@.update(first_index(o.cell_order@, CellKind::Folder(f)), None),
        closed.folder_cells@.len() == o.folder_cells@.len(),
        forall|g: int| 0 <= g < o.folder_cells@.len() && g != f ==> #[trigger] closed.folder_cells@[g]
            == o.folder_cells@[g],
        closed.folder_cells@[f as int].entries == o.folder_cells@[f as int].entries,
        closed.folder_cells@[f as int].open_entry.is_none(),
        closed.folder_cells@[f as int].selected@ == set![e],
        closed.folder_cells@[f as int].scroll_to == Some(e),
{
    let O = o.cell_order@;
    let I = o.image_cells@;
    let m = I.len() as int;
    let fpos = first_index(O, CellKind::Folder(f));
    assert(!o.has_open_image(f as int));
    assert(!o.open_replaces(f as int));
    let p = choose|p: int| 0 <= p < O.len() && O[p] == CellKind::Folder(f);
    lemma_first_index_found(O, CellKind::Folder(f));
    assert(o.image_cells.len() == o.image_cells@.len());
    assert(opened.cell_order@[fpos] == CellKind::Image(m as usize));
    assert(opened.image_cells@[m] == folder_image::<Tex, Sel>(info, f, e));
    assert(opened.image_cells@.remove(m) =~= I);
    assert(opened.removal_restores(fpos, closed.image_cells@) == Some(f));
    let rest = opened.cell_order@.remove(fpos).map_values(|c: CellKind| shift_image(c, m));
    assert forall|q: int| 0 <= q < rest.len() implies #[trigger] rest[q] == O.remove(fpos)[q] by {
        let qq = unremoved(q, fpos);
        assert(opened.cell_order@.remove(fpos)[q] == O[qq]);
        assert(o.cell_in_range(O[qq]));
    }
    assert(rest =~= O.remove(fpos));
    assert(rest.insert(fpos, CellKind::Folder(f)) =~= O);
    assert(with_open_entry(o.folder_cells@[f as int], e).open_entry == Some(e));
}

/// Two folders with one open image each always allow navigation.
pub proof fn lemma_compare_pair_allows_nav<Tex, Sel, Pan, Scroll>(s: AppState<Tex, Sel, Pan, Scroll>)
    requires
        s.spec_compare_pair(),
    ensures
        s.spec_nav_allowed(),
{
    assert(s.open_count_of(0) == 1);
}

/// Opening a folder entry never takes the grid past `MAX_IMAGES` cells.
pub proof fn lemma_open_respects_limit<Tex, Sel, Pan, Scroll>(
    o: AppState<Tex, Sel, Pan, Scroll>,
    n: AppState<Tex, Sel, Pan, Scroll>,
    f: usize,
    e: usize,
    info: ImageInfo<Tex>,
)
    requires
        o.cell_order@.len() <= MAX_IMAGES,
        o.opening(&n, f as int, e, info),
    ensures
        n.cell_order@.len() <= MAX_IMAGES,
{
    if o.folder_visible(f as int) {
        lemma_first_index_found(o.cell_order@, CellKind::Folder(f));
    }
}

/// With two folders or more, opening an entry of a folder that already shows an image
/// replaces that image: the number of stored images is unchanged.
pub proof fn lemma_open_replaces_in_comparison<Tex, Sel, Pan, Scroll>(
    o: AppState<Tex, Sel, Pan, Scroll>,
    n: AppState<Tex, Sel, Pan, Scroll>,
    f: usize,
    e: usize,
    info: ImageInfo<Tex>,
)
    requires
        o.folder_cells@.len() >= 2,
        o.has_open_image(f as int),
        o.opening(&n, f as int, e, info),
    ensures
        n.image_cells@.len() == o.image_cells@.len(),
        n.cell_order@ == o.cell_order@,
{
    let k = choose|k: int| 0 <= k < o.image_cells@.len() && #[trigger] opened_from(o.image_cells@, k, f as int);
    lemma_first_open_from_found(o.image_cells@, f as int, k);
}

/// `first_open_from` finds a cell when one was opened from the folder.
pub proof fn lemma_first_open_from_found<Tex, Sel>(cells: Seq<ImageCell<Tex, Sel>>, f: int, k: int)
    requires
        0 <= k < cells.len(),
        opened_from(cells, k, f),
    ensures
        0 <= first_open_from(cells, f) <= k,
    decreases cells.len(),
{
    if !opened_from(cells, 0, f) {
        assert(cells.drop_first()[k - 1] == cells[k]);
        assert(opened_from(cells.drop_first(), k - 1, f));
        lemma_first_open_from_found(cells.drop_first(), f, k - 1);
    }
}

/// `first_index` finds an element the sequence contains.
pub proof fn lemma_first_index_found<T>(s: Seq<T>, x: T)
    requires
        s.contains(x),
    ensures
        0 <= first_index(s, x) < s.len(),
        s[first_index(s, x)] == x,
    decreases s.len(),
{
    if s[0] != x {
        let p = choose|p: int| 0 <= p < s.len() && s[p] == x;
        assert(s.drop_first()[p - 1] == x);
        lemma_first_index_found(s.drop_first(), x);
    }
}

/// An image count never exceeds the number of images counted.
pub proof fn lemma_open_count_bounded<Tex, Sel>(cells: Seq<ImageCell<Tex, Sel>>, f: int)
    ensures
        open_count(cells, f) <= cells.len(),
    decreases cells.len(),
{
    if cells.len() > 0 {
        lemma_open_count_bounded(cells.drop_last(), f);
    }
}


/// Closing the folder image at `pos` leaves the folder images before `pos` where they
/// were, and leaves none at or after `pos` when there was none after `pos` before.
pub proof fn lemma_closing_keeps_front<Tex, Sel, Pan, Scroll>(
    before: AppState<Tex, Sel, Pan, Scroll>,
    after: AppState<Tex, Sel, Pan, Scroll>,
    pos: int,
)
    requires
        before.wf(),
        before.closes_at(pos),
        before.removal(&after, pos),
    ensures
        forall|p: int| 0 <= p < pos ==> (#[trigger] after.closes_at(p) <==> before.closes_at(p)),
        (forall|q: int| pos < q ==> !#[trigger] before.closes_at(q)) ==> (forall|p: int|
            pos <= p ==> !#[trigger] after.closes_at(p)),
{
    let i = before.cell_order@[pos]->Image_0;
    let rest = before.cell_order@.remove(pos).map_values(|c: CellKind| shift_image(c, i as int));
    let n = before.cell_order@.len();
    assert(before.cell_in_range(before.cell_order@[pos]));
    // The cell at before-position `b` (not `pos`) shows the same image afterwards.
    assert forall|b: int| 0 <= b < n && b != pos implies (before.closes_at(b) <==> {
        let c = shift_image(before.cell_order@[b], i as int);
        match c {
            CellKind::Image(k) => after.image_cells@[k as int].source is FromFolder,
            CellKind::Folder(_) => false,
        }
    }) by {
        assert(before.cell_in_range(before.cell_order@[b]));
        if before.cell_order@[b] is Image {
            let k = before.cell_order@[b]->Image_0;
            if b < pos {
                assert(before.cell_order@[b] != before.cell_order@[pos]);
            } else {
                assert(before.cell_order@[pos] != before.cell_order@[b]);
            }
            assert(k != i);
            if k > i {
                assert(after.image_cells@[k - 1] == before.image_cells@[k as int]);
            } else {
                assert(after.image_cells@[k as int] == before.image_cells@[k as int]);
            }
        }
    }
    assert forall|p: int| 0 <= p < pos implies (#[trigger] after.closes_at(p) <==> before.closes_at(p)) by {
        assert(rest[p] == shift_image(before.cell_order@[p], i as int));
        match before.removal_restores(pos, after.image_cells@) {
            Some(f) => {
                assert(after.cell_order@[p] == rest[p]);
            },
            None => {},
        }
    }
    if forall|q: int| pos < q ==> !#[trigger] before.closes_at(q) {
        assert forall|p: int| pos <= p implies !#[trigger] after.closes_at(p) by {
            if 0 <= p < after.cell_order@.len() {
                match before.removal_restores(pos, after.image_cells@) {
                    Some(f) => {
                        if p > pos {
                            assert(after.cell_order@[p] == rest[p - 1]);
                            assert(rest[p - 1] == shift_image(before.cell_order@[p], i as int));
                            assert(!before.closes_at(p));
                        } else {
                            assert(after.cell_order@[p] == CellKind::Folder(f));
                        }
                    },
                    None => {
                        assert(rest[p] == shift_image(before.cell_order@[p + 1], i as int));
                        assert(!before.closes_at(p + 1));
                    },
                }
            }
        }
    }
}


impl<Tex, Sel, Pan, Scroll> AppState<Tex, Sel, Pan, Scroll> {
    /// No grid entry is repeated.
    pub open spec fn cells_distinct(&self) -> bool {
        forall|p: int, q: int|
            0 <= p < q < self.cell_order@.len() ==> #[trigger] self.cell_order@[p] != #[trigger] self.cell_order@[q]
    }

    /// Every image source names a stored folder.
    pub open spec fn sources_in_range(&self) -> bool {
        forall|i: int|
            0 <= i < self.image_cells@.len() ==> match #[trigger] self.image_cells@[i].source {
                ImageSource::FromFolder { folder_idx, .. } => folder_idx < self.folder_cells@.len(),
                ImageSource::Standalone => true,
            }
    }
}

/// The index convention survives removing a cell: on a grid whose entries
/// name stored cells without repetition and whose image sources name stored
/// folders, the grid after removing the cell at `pos` again names only stored
/// cells, runs parallel to its offsets and has in-range sources. The grid
/// shrinks by one, except when the removed image was the last one open from
/// its folder, which then takes its place.
pub proof fn lemma_removal_keeps_indices<Tex, Sel, Pan, Scroll>(
    o: AppState<Tex, Sel, Pan, Scroll>,
    n: AppState<Tex, Sel, Pan, Scroll>,
    pos: int,
)
    requires
        o.indices_wf(),
        o.cells_distinct(),
        o.sources_in_range(),
        0 <= pos < o.cell_order@.len(),
        o.removal(&n, pos),
    ensures
        n.indices_wf(),
        n.sources_in_range(),
        n.cell_order@.len() == if o.cell_order@[pos] is Image && o.removal_restores(pos, n.image_cells@) is Some {
            o.cell_order@.len() as int
        } else {
            o.cell_order@.len() - 1
        },
{
    let O = o.cell_order@;
    assert(o.cell_in_range(O[pos]));
    match O[pos] {
        CellKind::Image(iu) => {
            let i = iu as int;
            let rest = O.remove(pos).map_values(|c: CellKind| shift_image(c, i));
            assert forall|q: int| 0 <= q < rest.len() implies n.cell_in_range(#[trigger] rest[q]) by {
                let u = unremoved(q, pos);
                assert(rest[q] == shift_image(O[u], i));
                assert(o.cell_in_range(O[u]));
                if u < pos {
                    assert(O[u] != O[pos]);
                } else {
                    assert(O[pos] != O[u]);
                }
            }
            match o.removal_restores(pos, n.image_cells@) {
                Some(f) => {
                    assert forall|q: int| 0 <= q < n.cell_order@.len() implies n.cell_in_range(#[trigger] n.cell_order@[q]) by {
                        if q < pos {
                            assert(n.cell_order@[q] == rest[q]);
                        } else if q > pos {
                            assert(n.cell_order@[q] == rest[q - 1]);
                        }
                    }
                },
                None => {},
            }
            assert forall|k: int| 0 <= k < n.image_cells@.len() implies match #[trigger] n.image_cells@[k].source {
                ImageSource::FromFolder { folder_idx, .. } => folder_idx < n.folder_cells@.len(),
                ImageSource::Standalone => true,
            } by {
                let u = unremoved(k, i);
                assert(n.image_cells@[k] == o.image_cells@[u]);
                assert(match o.image_cells@[u].source {
                    ImageSource::FromFolder { folder_idx, .. } => folder_idx < o.folder_cells@.len(),
                    ImageSource::Standalone => true,
                });
            }
        },
        CellKind::Folder(fu) => {
            let f = fu as int;
            assert forall|q: int| 0 <= q < n.cell_order@.len() implies n.cell_in_range(#[trigger] n.cell_order@[q]) by {
                let u = unremoved(q, pos);
                assert(n.cell_order@[q] == shift_folder(O[u], f));
                assert(o.cell_in_range(O[u]));
                if u < pos {
                    assert(O[u] != O[pos]);
                } else {
                    assert(O[pos] != O[u]);
                }
            }
            assert forall|k: int| 0 <= k < n.image_cells@.len() implies match #[trigger] n.image_cells@[k].source {
                ImageSource::FromFolder { folder_idx, .. } => folder_idx < n.folder_cells@.len(),
                ImageSource::Standalone => true,
            } by {
                let c = o.image_cells@[k];
                assert(n.image_cells@[k] == with_source(c, detach_source(c.source, f)));
                assert(match c.source {
                    ImageSource::FromFolder { folder_idx, .. } => folder_idx < o.folder_cells@.len(),
                    ImageSource::Standalone => true,
                });
            }
        },
    }
}


/// Filtering keeps a list free of repeats.
pub proof fn lemma_filter_keeps_distinct(s: Seq<Seq<char>>, pred: spec_fn(Seq<char>) -> bool)
    requires
        s.no_duplicates(),
    ensures
        s.filter(pred).no_duplicates(),
    decreases s.len(),
{
    if s.len() > 0 {
        let front = s.drop_last();
        assert(front.no_duplicates()) by {
            assert forall|a: int, b: int| 0 <= a < b < front.len() implies front[a] != front[b] by {
                assert(front[a] == s[a] && front[b] == s[b]);
            }
        }
        lemma_filter_keeps_distinct(front, pred);
        let sub = front.filter(pred);
        assert(s.filter(pred) == (if pred(s.last()) { sub.push(s.last()) } else { sub })) by {
            reveal_with_fuel(Seq::<_>::filter, 1);
        }
        if pred(s.last()) {
            assert forall|a: int, b: int| 0 <= a < b < sub.push(s.last()).len()
                implies sub.push(s.last())[a] != sub.push(s.last())[b] by {
                if b == sub.len() {
                    assert(sub.contains(sub[a]));
                    front.lemma_filter_contains_rev(pred, sub[a]);
                    let k = choose|k: int| 0 <= k < front.len() && front[k] == sub[a];
                    assert(s[k] == front[k]);
                    assert(s[k] != s[s.len() - 1]);
                }
            }
        }
    }
}


/// Navigating by `delta` moves an open folder image within its folder, in the
/// direction of `delta` and by at most `|delta|` entries: it steps exactly
/// `delta` entries when that stays inside the folder, and otherwise stops at
/// the first or last entry. An image already at the end it would move past
/// has no target, and a step that stays inside the folder always has one.
pub proof fn lemma_nav_target_clamped<Tex, Sel, Pan, Scroll>(
    s: AppState<Tex, Sel, Pan, Scroll>,
    i: int,
    delta: int,
    folder_idx: usize,
    entry_idx: usize,
)
    requires
        0 <= i < s.image_cells@.len(),
        s.image_cells@[i].source == (ImageSource::FromFolder { folder_idx, entry_idx }),
        folder_idx < s.folder_cells@.len(),
        entry_idx < s.folder_cells@[folder_idx as int].entries@.len(),
    ensures
        s.nav_target_of(i, delta) matches Some(t) ==> {
            let len = s.folder_cells@[folder_idx as int].entries@.len();
            &&& t.0 == i
            &&& t.1 == folder_idx
            &&& t.2 < len
            &&& t.2 != entry_idx
            &&& t.3 == s.folder_cells@[folder_idx as int].entries@[t.2 as int]@
            &&& delta <= 0 ==> t.2 < entry_idx && entry_idx - t.2 <= -delta
            &&& delta >= 0 ==> t.2 > entry_idx && t.2 - entry_idx <= delta
            &&& t.2 == entry_idx + delta || t.2 == 0 || t.2 == len - 1
        },
        delta != 0 && 0 <= entry_idx + delta < s.folder_cells@[folder_idx as int].entries@.len()
            ==> (s.nav_target_of(i, delta) matches Some(t) && t.2 == entry_idx + delta),
        delta < 0 && entry_idx == 0 ==> s.nav_target_of(i, delta) is None,
        delta > 0 && entry_idx + 1 == s.folder_cells@[folder_idx as int].entries@.len() ==> s.nav_target_of(i, delta) is None,
{
    let fc = s.folder_cells@[folder_idx as int];
    assert(fc.entries@.len() == fc.entries.len());
    assert(s.image_cells@.len() == s.image_cells.len());
    let last = fc.entries@.len() - 1;
    let moved = entry_idx + delta;
    let t = if moved < 0 { 0 } else if moved > last { last } else { moved };
    assert(0 <= t <= last);
    assert((t as usize) as int == t);
    assert((i as usize) as int == i);
}

/// `t` moves open folder image `t.0` to entry `t.2` of its folder `t.1`, in
/// the direction of `delta` and by at most `|delta|` entries, and names that
/// entry's path.
pub open spec fn nav_step_ok<Tex, Sel, Pan, Scroll>(
    s: AppState<Tex, Sel, Pan, Scroll>,
    t: (usize, usize, usize, Seq<char>),
    delta: int,
) -> bool {
    &&& t.0 < s.image_cells@.len()
    &&& t.1 < s.folder_cells@.len()
    &&& t.2 < s.folder_cells@[t.1 as int].entries@.len()
    &&& t.3 == s.folder_cells@[t.1 as int].entries@[t.2 as int]@
    &&& match s.image_cells@[t.0 as int].source {
        ImageSource::FromFolder { folder_idx, entry_idx } => {
            &&& folder_idx == t.1
            &&& t.2 != entry_idx
            &&& delta <= 0 ==> t.2 < entry_idx && entry_idx - t.2 <= -delta
            &&& delta >= 0 ==> t.2 > entry_idx && t.2 - entry_idx <= delta
        },
        ImageSource::Standalone => false,
    }
}

/// Every image opened from a stored folder shows one of that folder's entries.
pub open spec fn open_entries_in_range<Tex, Sel, Pan, Scroll>(s: AppState<Tex, Sel, Pan, Scroll>) -> bool {
    forall|i: int| 0 <= i < s.image_cells@.len() ==> match #[trigger] s.image_cells@[i].source {
        ImageSource::FromFolder { folder_idx, entry_idx } => folder_idx < s.folder_cells@.len()
            ==> entry_idx < s.folder_cells@[folder_idx as int].entries@.len(),
        ImageSource::Standalone => true,
    }
}

/// Every navigation target among the first `n` images moves its image in
/// the direction of `delta` by at most `|delta|` entries (`nav_step_ok`), and
/// the targets come in image order, one per image at most.
pub proof fn lemma_nav_targets_clamped<Tex, Sel, Pan, Scroll>(s: AppState<Tex, Sel, Pan, Scroll>, n: nat, delta: int)
    requires
        n <= s.image_cells@.len(),
        open_entries_in_range(s),
    ensures
        forall|k: int| 0 <= k < s.nav_targets_upto(n, delta).len() ==>
            #[trigger] s.nav_targets_upto(n, delta)[k].0 < n && nav_step_ok(s, s.nav_targets_upto(n, delta)[k], delta),
        forall|a: int, b: int| 0 <= a < b < s.nav_targets_upto(n, delta).len() ==>
            #[trigger] s.nav_targets_upto(n, delta)[a].0 < #[trigger] s.nav_targets_upto(n, delta)[b].0,
    decreases n,
{
    if n > 0 {
        lemma_nav_targets_clamped(s, (n - 1) as nat, delta);
        let prev = s.nav_targets_upto((n - 1) as nat, delta);
        let cur = s.nav_targets_upto(n, delta);
        let i = n - 1;
        match s.image_cells@[i].source {
            ImageSource::FromFolder { folder_idx, entry_idx } => {
                if folder_idx < s.folder_cells@.len() {
                    lemma_nav_target_clamped(s, i, delta, folder_idx, entry_idx);
                }
            },
            ImageSource::Standalone => {},
        }
        assert forall|k: int| 0 <= k < cur.len() implies #[trigger] cur[k].0 < n && nav_step_ok(s, cur[k], delta) by {
            if k < prev.len() {
                assert(cur[k] == prev[k]);
                assert(prev[k].0 < n - 1 && nav_step_ok(s, prev[k], delta));
            }
        }
        assert forall|a: int, b: int| 0 <= a < b < cur.len() implies #[trigger] cur[a].0 < #[trigger] cur[b].0 by {
            assert(cur[a] == prev[a]);
            assert(prev[a].0 < n - 1);
            if b < prev.len() {
                assert(cur[b] == prev[b]);
            }
        }
    }
}


/// Removing an image cell forgets that image's path among the loaded paths,
/// so that dropping the file again loads it again; every other loaded path
/// stays loaded and no path is added.
pub proof fn lemma_removing_an_image_forgets_its_path<Tex, Sel, Pan, Scroll>(
    o: AppState<Tex, Sel, Pan, Scroll>,
    n: AppState<Tex, Sel, Pan, Scroll>,
    pos: int,
    i: usize,
)
    requires
        0 <= pos < o.cell_order@.len(),
        o.cell_order@[pos] == CellKind::Image(i),
        o.removal(&n, pos),
    ensures
        !strings_view(n.loaded_paths@).contains(o.image_cells@[i as int].info.path@),
        forall|q: Seq<char>| #[trigger] strings_view(o.loaded_paths@).contains(q) && q != o.image_cells@[i as int].info.path@
            ==> strings_view(n.loaded_paths@).contains(q),
        forall|q: Seq<char>| #[trigger] strings_view(n.loaded_paths@).contains(q) ==> strings_view(o.loaded_paths@).contains(q),
{
    let path = o.image_cells@[i as int].info.path@;
    let pred = |q: Seq<char>| q != o.image_cells@[i as int].info.path@;
    let before = strings_view(o.loaded_paths@);
    let after = strings_view(n.loaded_paths@);
    assert(after == before.filter(pred));
    before.filter_lemma(pred);
    assert forall|q: Seq<char>| #[trigger] before.contains(q) && q != path implies after.contains(q) by {
        let k = choose|k: int| 0 <= k < before.len() && before[k] == q;
        assert(pred(before[k]));
    }
    assert forall|q: Seq<char>| #[trigger] after.contains(q) implies before.contains(q) by {
        before.lemma_filter_contains_rev(pred, q);
    }
    if after.contains(path) {
        let k = choose|k: int| 0 <= k < after.len() && after[k] == path;
        assert(pred(after[k]));
    }
}

} // verus!
