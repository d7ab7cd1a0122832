//! Folder cells: the scan and load batches that fill them, thumbnail
//! scheduling, opening and navigating entries, and the user actions a folder
//! cell reports.
//!
//! The decoding and directory reading run elsewhere; this module decides. A
//! decision that starts work returns it as a request (the paths to read and
//! how), and the results come back through [`FolderManager::poll_scan`] and
//! [`FolderManager::poll_loading`].
//!
//! Thumbnail scheduling: a newly registered folder goes to the front of the
//! queue (the folder dropped last is previewed first); each batch takes at
//! most `THUMB_BATCH` entries of the folder at the front, and a folder with
//! entries left goes to the back, so several folders take turns. Only the
//! first `THUMB_LIMIT` entries of a folder get thumbnails.

use std::collections::HashSet;
use std::collections::VecDeque;
use vstd::prelude::*;
use vstd::std_specs::iter::IteratorSpec;
use crate::state::{AppState, CellKind, FolderAction, FolderCell, FolderView, ImageInfo, MAX_IMAGES};

verus! {

broadcast use vstd::std_specs::hash::group_hash_axioms;

/// Most entries decoded at once for thumbnails.
pub const THUMB_BATCH: usize = 8;

/// Most entries of one folder that get a thumbnail.
pub const THUMB_LIMIT: usize = 200;

/// Edge of the square a thumbnail is shrunk to fit.
pub const THUMB_SIZE: u32 = 64;

/// Where the results of a load batch go once all have arrived.
pub enum LoadTarget {
    Thumbnails { folder_idx: usize, start: usize },
    OpenEntry(usize, usize),
    OpenEntries { folder_idx: usize, entry_idxs: Vec<usize> },
    NavigateMany(Vec<(usize, usize, usize)>),
}

/// Files to read and decode, in order: thumbnails (no EXIF, no histogram)
/// or full images.
pub struct LoadRequest {
    pub paths: Vec<String>,
    pub thumbnails: bool,
}

/// What a folder action asks of the application beyond the state changes.
pub enum FolderEffect {
    Nothing,
    Load(LoadRequest),
    /// Show this file in the system file manager.
    Reveal(String),
}

/// The scan, load and thumbnail state of the folder cells.
pub struct FolderManager<Tex> {
    /// A load batch is in flight.
    pub loading: bool,
    pub loading_total: usize,
    pub loading_received: usize,
    pub loading_buf: Vec<Option<ImageInfo<Tex>>>,
    pub load_target: Option<LoadTarget>,
    /// A scan batch is in flight.
    pub scanning: bool,
    pub scan_total: usize,
    pub scan_received: usize,
    pub scan_buf: Vec<Option<(String, Vec<String>)>>,
    /// Scan batches waiting for the current one to finish.
    pub pending_scan: VecDeque<Vec<String>>,
    /// Folders waiting for thumbnails, with the next entry to decode.
    pub pending_thumbnails: VecDeque<(usize, usize)>,
}

/// `n` empty thumbnail slots.
pub open spec fn empty_slots<Tex>(n: nat) -> Seq<Option<Tex>> {
    Seq::new(n, |i: int| None)
}

/// The smaller of two integers.
pub open spec fn min(a: int, b: int) -> int {
    if a <= b { a } else { b }
}

/// `fc` is a freshly registered folder cell for `dir` listing `entries`.
pub open spec fn fresh_folder<Tex, Scroll>(fc: FolderCell<Tex, Scroll>, dir: Seq<char>, entries: Seq<String>) -> bool {
    &&& fc.dir_path@ == dir
    &&& fc.entries@ == entries
    &&& fc.selected@ == Set::<usize>::empty()
    &&& fc.view_mode == FolderView::List
    &&& fc.scroll_offset is None
    &&& fc.thumbnails@ == empty_slots::<Tex>(min(entries.len() as int, THUMB_LIMIT as int) as nat)
    &&& fc.open_entry is None
    &&& fc.scroll_to is None
}

impl<Tex> FolderManager<Tex> {
    /// No scan, no load, nothing queued.
    pub fn new() -> (m: Self)
        ensures
            m.wf(),
            !m.loading,
            !m.scanning,
            m.pending_scan@.len() == 0,
            m.pending_thumbnails@.len() == 0,
    {
        FolderManager {
            loading: false,
            loading_total: 0,
            loading_received: 0,
            loading_buf: Vec::new(),
            load_target: None,
            scanning: false,
            scan_total: 0,
            scan_received: 0,
            scan_buf: Vec::new(),
            pending_scan: VecDeque::new(),
            pending_thumbnails: VecDeque::new(),
        }
    }

    /// The buffers of the batches in flight match their announced sizes.
    pub open spec fn wf(&self) -> bool {
        &&& self.loading_buf@.len() == self.loading_total
        &&& self.loading_received <= self.loading_total
        &&& self.scan_buf@.len() == self.scan_total
        &&& self.scan_received <= self.scan_total
    }

    /// The batch fields of `self` and `other` agree (the thumbnail queue may differ).
    pub open spec fn same_batches(&self, other: &Self) -> bool {
        &&& self.loading == other.loading
        &&& self.loading_total == other.loading_total
        &&& self.loading_received == other.loading_received
        &&& self.loading_buf@ == other.loading_buf@
        &&& self.load_target == other.load_target
        &&& self.scanning == other.scanning
        &&& self.scan_total == other.scan_total
        &&& self.scan_received == other.scan_received
        &&& self.scan_buf@ == other.scan_buf@
        &&& self.pending_scan@ == other.pending_scan@
    }

    /// A scan or a load batch is in flight.
    pub fn is_busy(&self) -> (r: bool)
        ensures
            r == (self.loading || self.scanning),
    {
        self.loading || self.scanning
    }

    /// A load batch is in flight.
    pub fn is_loading(&self) -> (r: bool)
        ensures
            r == self.loading,
    {
        self.loading
    }

    /// Registers a scanned folder as a new grid cell, unless the grid is full:
    /// the folder shows as a list with nothing selected, its first
    /// `THUMB_LIMIT` thumbnail slots are prepared empty, and it goes to the
    /// front of the thumbnail queue.
    pub fn register_folder_cell<Sel, Pan, Scroll>(
        &mut self,
        state: &mut AppState<Tex, Sel, Pan, Scroll>,
        dir: String,
        entries: Vec<String>,
    )
        requires
            old(state).indices_wf(),
        ensures
            final(state).indices_wf(),
            old(state).wf() ==> final(state).wf(),
            final(self).same_batches(old(self)),
            final(self).wf() == old(self).wf(),
            final(state).same_extras(old(state)),
            final(state).image_cells@ == old(state).image_cells@,
            old(state).cell_order@.len() >= MAX_IMAGES ==> {
                &&& final(state).folder_cells@ == old(state).folder_cells@
                &&& final(state).cell_order@ == old(state).cell_order@
                &&& final(state).pan_offset@ == old(state).pan_offset@
                &&& final(self).pending_thumbnails@ == old(self).pending_thumbnails@
            },
            old(state).cell_order@.len() < MAX_IMAGES ==> {
                let f = old(state).folder_cells@.len();
                &&& final(state).folder_cells@.len() == f + 1
                &&& final(state).folder_cells@.take(f as int) == old(state).folder_cells@
                &&& fresh_folder(final(state).folder_cells@[f as int], dir@, entries@)
                &&& final(state).cell_order@ == old(state).cell_order@.push(CellKind::Folder(f as usize))
                &&& final(state).pan_offset@ == old(state).pan_offset@.push(None)
                &&& final(self).pending_thumbnails@ == seq![(f as usize, 0usize)] + old(self).pending_thumbnails@
            },
    {
        if state.cell_order.len() >= MAX_IMAGES {
            return;
        }
        let idx = state.folder_cells.len();
        let n = entries.len();
        let slots: usize = if n < THUMB_LIMIT { n } else { THUMB_LIMIT };
        let mut thumbnails: Vec<Option<Tex>> = Vec::new();
        let mut k: usize = 0;
        while k < slots
            invariant
                k <= slots,
                thumbnails@ == empty_slots::<Tex>(k as nat),
            decreases slots - k,
        {
            thumbnails.push(None);
            k = k + 1;
            assert(thumbnails@ =~= empty_slots::<Tex>(k as nat));
        }
        let ghost o = *state;
        state.folder_cells.push(FolderCell {
            dir_path: dir,
            entries,
            selected: HashSet::new(),
            view_mode: FolderView::List,
            scroll_offset: None,
            thumbnails,
            open_entry: None,
            scroll_to: None,
        });
        state.cell_order.push(CellKind::Folder(idx));
        state.pan_offset.push(None);
        self.pending_thumbnails.push_front((idx, 0));
        proof {
            let s = *state;
            assert(s.folder_cells@.take(idx as int) =~= o.folder_cells@);
            assert forall|p: int| 0 <= p < s.cell_order@.len() implies s.cell_in_range(#[trigger] s.cell_order@[p]) by {
                if p < o.cell_order@.len() {
                    assert(s.cell_order@[p] == o.cell_order@[p]);
                    assert(o.cell_in_range(o.cell_order@[p]));
                }
            }
            assert forall|g: int| #[trigger] s.has_open_image(g) == o.has_open_image(g) by {}
            if o.wf() {
                assert(!o.cell_order@.contains(CellKind::Folder(idx))) by {
                    if o.cell_order@.contains(CellKind::Folder(idx)) {
                        let p = choose|p: int| 0 <= p < o.cell_order@.len() && o.cell_order@[p] == CellKind::Folder(idx);
                        assert(o.cell_in_range(o.cell_order@[p]));
                    }
                }
                assert forall|p: int, q: int| 0 <= p < q < s.cell_order@.len() implies #[trigger] s.cell_order@[p]
                    != #[trigger] s.cell_order@[q] by {
                    if q == o.cell_order@.len() {
                        assert(s.cell_order@[p] == o.cell_order@[p]);
                    } else {
                        assert(s.cell_order@[p] == o.cell_order@[p]);
                        assert(s.cell_order@[q] == o.cell_order@[q]);
                    }
                }
                assert forall|i: int| 0 <= i < s.image_cells@.len() implies #[trigger] s.cell_order@.contains(
                    CellKind::Image(i as usize),
                ) by {
                    assert(o.cell_order@.contains(CellKind::Image(i as usize)));
                    let p = choose|p: int| 0 <= p < o.cell_order@.len() && o.cell_order@[p] == CellKind::Image(i as usize);
                    assert(s.cell_order@[p] == CellKind::Image(i as usize));
                }
                assert forall|f: int| 0 <= f < s.folder_cells@.len() implies (#[trigger] s.folder_visible(f)
                    <==> !s.has_open_image(f)) by {
                    if f < idx {
                        assert(o.folder_visible(f) <==> !o.has_open_image(f));
                        if o.folder_visible(f) {
                            let p = choose|p: int| 0 <= p < o.cell_order@.len() && o.cell_order@[p] == CellKind::Folder(f as usize);
                            assert(s.cell_order@[p] == CellKind::Folder(f as usize));
                        }
                        if s.folder_visible(f) {
                            let p = choose|p: int| 0 <= p < s.cell_order@.len() && s.cell_order@[p] == CellKind::Folder(f as usize);
                            if p < o.cell_order@.len() {
                                assert(o.cell_order@[p] == CellKind::Folder(f as usize));
                            }
                        }
                    } else {
                        assert(s.cell_order@[o.cell_order@.len() as int] == CellKind::Folder(idx));
                        if s.has_open_image(f) {
                            let k = choose|k: int| 0 <= k < s.image_cells@.len() && #[trigger] crate::state::opened_from(s.image_cells@, k, f);
                            assert(match o.image_cells@[k].source {
                                crate::state::ImageSource::FromFolder { folder_idx, .. } => folder_idx < o.folder_cells@.len(),
                                crate::state::ImageSource::Standalone => true,
                            });
                        }
                    }
                }
            }
        }
    }

    /// The manager after `begin_load` of `n` paths for `target`: a batch is
    /// in flight with `n` empty slots; scans and queues are untouched.
    pub open spec fn load_started(&self, after: &Self, n: nat, target: LoadTarget) -> bool {
        &&& after.loading
        &&& after.loading_total == n
        &&& after.loading_received == 0
        &&& after.loading_buf@ == Seq::new(n, |i: int| None::<ImageInfo<Tex>>)
        &&& after.load_target == Some(target)
        &&& after.scanning == self.scanning
        &&& after.scan_total == self.scan_total
        &&& after.scan_received == self.scan_received
        &&& after.scan_buf@ == self.scan_buf@
        &&& after.pending_scan@ == self.pending_scan@
    }

    /// Starts a load batch of `paths` for `target`.
    fn begin_load(&mut self, paths: Vec<String>, target: LoadTarget) -> (r: LoadRequest)
        requires
            old(self).wf(),
        ensures
            final(self).wf(),
            old(self).load_started(final(self), paths@.len(), target),
            final(self).pending_thumbnails@ == old(self).pending_thumbnails@,
            r.paths@ == paths@,
            r.thumbnails == (target is Thumbnails),
    {
        let n = paths.len();
        let mut buf: Vec<Option<ImageInfo<Tex>>> = Vec::new();
        let mut k: usize = 0;
        while k < n
            invariant
                k <= n,
                buf@ == Seq::new(k as nat, |i: int| None::<ImageInfo<Tex>>),
            decreases n - k,
        {
            buf.push(None);
            k = k + 1;
            assert(buf@ =~= Seq::new(k as nat, |i: int| None::<ImageInfo<Tex>>));
        }
        let thumbnails = match target {
            LoadTarget::Thumbnails { .. } => true,
            _ => false,
        };
        self.loading_total = n;
        self.loading_received = 0;
        self.loading_buf = buf;
        self.load_target = Some(target);
        self.loading = true;
        LoadRequest { paths, thumbnails }
    }

    /// Schedules the next thumbnail batch: the folder at the front of the
    /// queue gets its next (at most `THUMB_BATCH`) entries below
    /// `THUMB_LIMIT` decoded, and goes to the back if entries remain. A
    /// folder that no longer exists or has nothing left leaves the queue.
    /// Nothing happens while a load batch is in flight.
    pub fn drain_thumbnails<Sel, Pan, Scroll>(&mut self, state: &AppState<Tex, Sel, Pan, Scroll>) -> (r: Option<LoadRequest>)
        requires
            old(self).wf(),
        ensures
            final(self).wf(),
            old(self).loading || old(self).pending_thumbnails@.len() == 0 ==> r is None && *final(self) == *old(self),
            !old(self).loading && old(self).pending_thumbnails@.len() > 0 ==> {
                let (fi, offset) = old(self).pending_thumbnails@[0];
                let rest = old(self).pending_thumbnails@.drop_first();
                if fi >= state.folder_cells@.len() || offset >= thumb_cap(state.folder_cells@[fi as int].entries@.len()) {
                    &&& r is None
                    &&& final(self).pending_thumbnails@ == rest
                    &&& old(self).same_batches(final(self))
                } else {
                    let entries = state.folder_cells@[fi as int].entries@;
                    let end = thumb_batch_end(offset as int, entries.len() as int);
                    &&& r matches Some(req) && req.thumbnails
                        && strings_of(req.paths@) == strings_of(entries.subrange(offset as int, end))
                        && 0 < req.paths@.len() <= THUMB_BATCH
                        && end <= THUMB_LIMIT
                    &&& old(self).load_started(final(self), (end - offset) as nat, LoadTarget::Thumbnails { folder_idx: fi, start: offset })
                    &&& final(self).pending_thumbnails@ == if end >= entries.len() {
                        rest
                    } else {
                        rest.push((fi, end as usize))
                    }
                }
            },
    {
        if self.loading || self.pending_thumbnails.len() == 0 {
            return None;
        }
        let (fi, offset) = self.pending_thumbnails[0];
        if fi >= state.folder_cells.len() {
            self.pending_thumbnails.pop_front();
            return None;
        }
        let entries = &state.folder_cells[fi].entries;
        let n = entries.len();
        let cap: usize = if n < THUMB_LIMIT { n } else { THUMB_LIMIT };
        if offset >= cap {
            self.pending_thumbnails.pop_front();
            return None;
        }
        let batch_end: usize = offset + THUMB_BATCH;
        let end: usize = if batch_end < cap { batch_end } else { cap };
        let mut batch: Vec<String> = Vec::new();
        let mut k: usize = offset;
        while k < end
            invariant
                offset <= k <= end,
                end <= entries@.len(),
                batch@.len() == k - offset,
                forall|j: int| 0 <= j < batch@.len() ==> #[trigger] batch@[j]@ == entries@[offset + j]@,
            decreases end - k,
        {
            batch.push(entries[k].clone());
            k = k + 1;
        }
        assert(strings_of(batch@) =~= strings_of(entries@.subrange(offset as int, end as int)));
        let req = self.begin_load(batch, LoadTarget::Thumbnails { folder_idx: fi, start: offset });
        let done = end >= n;
        self.pending_thumbnails.pop_front();
        if !done {
            self.pending_thumbnails.push_back((fi, end));
        }
        Some(req)
    }

    /// The outcome of [`Self::navigate`] for targets `t` (by view) taking `self` to `after`.
    pub open spec fn navigation_load(&self, after: &Self, t: Seq<(usize, usize, usize, Seq<char>)>, r: Option<LoadRequest>) -> bool {
        &&& after.pending_thumbnails@ == self.pending_thumbnails@
        &&& r is Some <==> !self.loading && t.len() > 0
        &&& r is None ==> *after == *self
        &&& r matches Some(req) ==> {
            &&& !req.thumbnails
            &&& strings_of(req.paths@) == t.map_values(|x: (usize, usize, usize, Seq<char>)| x.3)
            &&& exists|index: Vec<(usize, usize, usize)>|
                index@ == t.map_values(|x: (usize, usize, usize, Seq<char>)| (x.0, x.1, x.2))
                && #[trigger] self.load_started(after, t.len(), LoadTarget::NavigateMany(index))
        }
    }

    /// The outcome of [`Self::open_entry`] taking `self` to `after` with request `r`.
    pub open spec fn entry_load<Sel, Pan, Scroll>(
        &self,
        after: &Self,
        state: &AppState<Tex, Sel, Pan, Scroll>,
        folder_idx: usize,
        entry_idx: usize,
        r: Option<LoadRequest>,
    ) -> bool {
        &&& r is Some <==> !self.loading && folder_idx < state.folder_cells@.len()
            && entry_idx < state.folder_cells@[folder_idx as int].entries@.len()
        &&& r is None ==> *after == *self
        &&& r matches Some(req) ==> {
            &&& !req.thumbnails
            &&& strings_of(req.paths@) == seq![state.folder_cells@[folder_idx as int].entries@[entry_idx as int]@]
            &&& self.load_started(after, 1, LoadTarget::OpenEntry(folder_idx, entry_idx))
        }
    }

    /// The outcome of [`Self::open_selected`] taking `self` to `after` with request `r`.
    pub open spec fn selection_load<Sel, Pan, Scroll>(
        &self,
        after: &Self,
        state: &AppState<Tex, Sel, Pan, Scroll>,
        folder_idx: usize,
        r: Option<LoadRequest>,
    ) -> bool {
        &&& r is Some <==> !self.loading && folder_idx < state.folder_cells@.len()
            && state.folder_cells@[folder_idx as int].selected@.len() > 0
        &&& r is None ==> *after == *self
        &&& r matches Some(req) ==> {
            let fc = state.folder_cells@[folder_idx as int];
            &&& !req.thumbnails
            &&& exists|idxs: Vec<usize>| {
                &&& #[trigger] self.load_started(
                    after,
                    idxs@.len(),
                    LoadTarget::OpenEntries { folder_idx, entry_idxs: idxs },
                )
                &&& idxs@.len() == min(fc.selected@.len() as int, open_room(state.cell_order@.len() as int))
                &&& idxs@.no_duplicates()
                &&& forall|j: int| 0 <= j < idxs@.len() ==> fc.selected@.contains(#[trigger] idxs@[j])
                &&& strings_of(req.paths@) == idxs@.map_values(|i: usize| fc.entries@[i as int]@)
            }
        }
    }

    /// Loads entry `entry_idx` of folder `folder_idx` to open it, unless a
    /// load batch is in flight or the entry does not exist.
    pub fn open_entry<Sel, Pan, Scroll>(
        &mut self,
        state: &AppState<Tex, Sel, Pan, Scroll>,
        folder_idx: usize,
        entry_idx: usize,
    ) -> (r: Option<LoadRequest>)
        requires
            old(self).wf(),
        ensures
            final(self).wf(),
            final(self).pending_thumbnails@ == old(self).pending_thumbnails@,
            old(self).entry_load(final(self), state, folder_idx, entry_idx, r),
    {
        if self.loading || folder_idx >= state.folder_cells.len() {
            return None;
        }
        if entry_idx >= state.folder_cells[folder_idx].entries.len() {
            return None;
        }
        let path = state.folder_cells[folder_idx].entries[entry_idx].clone();
        let mut paths: Vec<String> = Vec::new();
        paths.push(path);
        assert(strings_of(paths@) =~= seq![state.folder_cells@[folder_idx as int].entries@[entry_idx as int]@]);
        Some(self.begin_load(paths, LoadTarget::OpenEntry(folder_idx, entry_idx)))
    }

    /// Loads the navigation targets `(image, folder, entry, path)` so that
    /// every open folder image moves on together, unless a load batch is in
    /// flight or there is nothing to load.
    pub fn navigate(&mut self, targets: Vec<(usize, usize, usize, String)>) -> (r: Option<LoadRequest>)
        requires
            old(self).wf(),
        ensures
            final(self).wf(),
            final(self).pending_thumbnails@ == old(self).pending_thumbnails@,
            old(self).navigation_load(final(self), target_views(targets@), r),
    {
        if self.loading || targets.len() == 0 {
            return None;
        }
        let ghost t0 = targets@;
        let mut paths: Vec<String> = Vec::new();
        let mut index: Vec<(usize, usize, usize)> = Vec::new();
        let mut targets = targets;
        let n = targets.len();
        let mut k: usize = 0;
        while k < n
            invariant
                n == t0.len(),
                k <= n,
                targets@ == t0.subrange(k as int, n as int),
                paths@.len() == k,
                index@.len() == k,
                forall|j: int| 0 <= j < k ==> #[trigger] paths@[j]@ == t0[j].3@,
                forall|j: int| 0 <= j < k ==> #[trigger] index@[j] == (t0[j].0, t0[j].1, t0[j].2),
            decreases n - k,
        {
            assert(targets@[0] == t0[k as int]);
            let (img, folder, entry, path) = targets.remove(0);
            paths.push(path);
            index.push((img, folder, entry));
            k = k + 1;
        }
        assert(strings_of(paths@) =~= target_views(t0).map_values(|t: (usize, usize, usize, Seq<char>)| t.3));
        assert(index@ =~= target_views(t0).map_values(|t: (usize, usize, usize, Seq<char>)| (t.0, t.1, t.2)));
        assert(t0.take(n as int) =~= t0);
        let ghost idx = index;
        let req = self.begin_load(paths, LoadTarget::NavigateMany(index));
        assert(old(self).load_started(final(self), t0.len(), LoadTarget::NavigateMany(idx)));
        Some(req)
    }

    /// Loads the selected entries of folder `folder_idx` to open them, as
    /// many as the grid has room for (opening hides the folder, which frees
    /// its own position). Nothing happens while a load batch is in flight,
    /// for a folder that does not exist, or when nothing is selected. Which
    /// selected entries are taken when not all fit follows the set's own
    /// iteration order.
    pub fn open_selected<Sel, Pan, Scroll>(
        &mut self,
        state: &AppState<Tex, Sel, Pan, Scroll>,
        folder_idx: usize,
    ) -> (r: Option<LoadRequest>)
        requires
            old(self).wf(),
            folder_idx < state.folder_cells@.len() ==> selection_in_range(state.folder_cells@[folder_idx as int]),
        ensures
            final(self).wf(),
            final(self).pending_thumbnails@ == old(self).pending_thumbnails@,
            old(self).selection_load(final(self), state, folder_idx, r),
    {
        if self.loading || folder_idx >= state.folder_cells.len() {
            return None;
        }
        let fc = &state.folder_cells[folder_idx];
        let mut sel = set_members(&fc.selected);
        if sel.len() == 0 {
            return None;
        }
        let order_len = state.cell_order.len();
        let room: usize = if order_len < MAX_IMAGES { MAX_IMAGES - order_len + 1 } else { 1 };
        if sel.len() > room {
            sel.truncate(room);
        }
        let ghost chosen = sel@;
        proof {
            assert forall|j: int| 0 <= j < chosen.len() implies fc.selected@.contains(#[trigger] chosen[j]) by {
                assert(sel@.to_set().contains(chosen[j]));
            }
        }
        let mut paths: Vec<String> = Vec::new();
        let mut k: usize = 0;
        while k < sel.len()
            invariant
                sel@ == chosen,
                k <= chosen.len(),
                selection_in_range(*fc),
                forall|j: int| 0 <= j < chosen.len() ==> fc.selected@.contains(#[trigger] chosen[j]),
                paths@.len() == k,
                forall|j: int| 0 <= j < k ==> #[trigger] paths@[j]@ == fc.entries@[chosen[j] as int]@,
            decreases chosen.len() - k,
        {
            assert(fc.selected@.contains(chosen[k as int]));
            paths.push(fc.entries[sel[k]].clone());
            k = k + 1;
        }
        assert(strings_of(paths@) =~= chosen.map_values(|i: usize| fc.entries@[i as int]@));
        let ghost idxs = sel;
        let req = self.begin_load(paths, LoadTarget::OpenEntries { folder_idx, entry_idxs: sel });
        assert(old(self).load_started(final(self), idxs@.len(), LoadTarget::OpenEntries { folder_idx, entry_idxs: idxs }));
        Some(req)
    }

    /// The manager after `begin_scan` of `n` directories.
    pub open spec fn scan_started(&self, after: &Self, n: nat) -> bool {
        &&& after.scanning
        &&& after.scan_total == n
        &&& after.scan_received == 0
        &&& after.scan_buf@ == Seq::new(n, |i: int| None::<(String, Vec<String>)>)
        &&& after.loading == self.loading
        &&& after.loading_total == self.loading_total
        &&& after.loading_received == self.loading_received
        &&& after.loading_buf@ == self.loading_buf@
        &&& after.load_target == self.load_target
        &&& after.pending_thumbnails@ == self.pending_thumbnails@
    }

    /// Starts a scan batch of `dirs`, handing them back to be read.
    fn begin_scan(&mut self, dirs: Vec<String>) -> (r: Vec<String>)
        requires
            old(self).wf(),
        ensures
            final(self).wf(),
            old(self).scan_started(final(self), dirs@.len()),
            final(self).pending_scan@ == old(self).pending_scan@,
            r@ == dirs@,
    {
        let n = dirs.len();
        let mut buf: Vec<Option<(String, Vec<String>)>> = Vec::new();
        let mut k: usize = 0;
        while k < n
            invariant
                k <= n,
                buf@ == Seq::new(k as nat, |i: int| None::<(String, Vec<String>)>),
            decreases n - k,
        {
            buf.push(None);
            k = k + 1;
            assert(buf@ =~= Seq::new(k as nat, |i: int| None::<(String, Vec<String>)>));
        }
        self.scan_total = n;
        self.scan_received = 0;
        self.scan_buf = buf;
        self.scanning = true;
        dirs
    }

    /// Asks for `dirs` to be scanned: at once when no scan is in flight (the
    /// directories to read are handed back), else after the scans queued
    /// before. An empty list is ignored.
    pub fn queue_scan(&mut self, dirs: Vec<String>) -> (r: Option<Vec<String>>)
        requires
            old(self).wf(),
        ensures
            final(self).wf(),
            dirs@.len() == 0 ==> r is None && *final(self) == *old(self),
            dirs@.len() > 0 && !old(self).scanning ==> {
                &&& r matches Some(d) && d@ == dirs@
                &&& old(self).scan_started(final(self), dirs@.len())
                &&& final(self).pending_scan@ == old(self).pending_scan@
            },
            dirs@.len() > 0 && old(self).scanning ==> {
                &&& r is None
                &&& final(self).pending_scan@ == old(self).pending_scan@.push(dirs)
                &&& final(self).scanning && final(self).scan_buf@ == old(self).scan_buf@
                &&& final(self).scan_total == old(self).scan_total
                &&& final(self).scan_received == old(self).scan_received
                &&& final(self).loading == old(self).loading
                &&& final(self).load_target == old(self).load_target
                &&& final(self).pending_thumbnails@ == old(self).pending_thumbnails@
            },
    {
        if dirs.len() == 0 {
            return None;
        }
        if !self.scanning {
            Some(self.begin_scan(dirs))
        } else {
            self.pending_scan.push_back(dirs);
            None
        }
    }

    /// Finishes the scan batch once every directory has reported: the
    /// directories that could be read become folder cells, in batch order,
    /// while the grid has room; then the next queued scan starts (its
    /// directories are handed back to be read). Does nothing while no scan is
    /// in flight or results are still missing.
    pub fn finish_scan<Sel, Pan, Scroll>(&mut self, state: &mut AppState<Tex, Sel, Pan, Scroll>) -> (r: Option<Vec<String>>)
        requires
            old(self).wf(),
            old(state).indices_wf(),
        ensures
            final(self).wf(),
            final(state).indices_wf(),
            old(state).wf() ==> final(state).wf(),
            !old(self).scanning || old(self).scan_received < old(self).scan_total ==> {
                &&& r is None
                &&& *final(self) == *old(self)
                &&& *final(state) == *old(state)
            },
            old(self).scanning && old(self).scan_received >= old(self).scan_total ==> {
                let found = somes(old(self).scan_buf@);
                let f0 = old(state).folder_cells@.len();
                let k = min(found.len() as int, grid_room(old(state).cell_order@.len() as int));
                &&& final(state).image_cells@ == old(state).image_cells@
                &&& final(state).same_extras(old(state))
                &&& final(state).folder_cells@.len() == f0 + k
                &&& final(state).folder_cells@.take(f0 as int) == old(state).folder_cells@
                &&& forall|j: int| 0 <= j < k ==> fresh_folder(
                    #[trigger] final(state).folder_cells@[f0 + j],
                    found[j].0@,
                    found[j].1@,
                )
                &&& final(state).cell_order@ == old(state).cell_order@ + Seq::new(k as nat, |j: int| CellKind::Folder((f0 + j) as usize))
                &&& final(state).pan_offset@ == old(state).pan_offset@ + Seq::new(k as nat, |j: int| None::<Pan>)
                &&& final(self).pending_thumbnails@ == Seq::new(k as nat, |j: int| ((f0 + k - 1 - j) as usize, 0usize))
                    + old(self).pending_thumbnails@
                &&& final(self).loading == old(self).loading
                &&& final(self).load_target == old(self).load_target
                &&& old(self).pending_scan@.len() == 0 ==> {
                    &&& r is None
                    &&& !final(self).scanning
                    &&& final(self).pending_scan@.len() == 0
                }
                &&& old(self).pending_scan@.len() > 0 ==> {
                    &&& r matches Some(d) && d@ == old(self).pending_scan@[0]@
                    &&& final(self).scanning
                    &&& final(self).scan_total == old(self).pending_scan@[0]@.len()
                    &&& final(self).scan_received == 0
                    &&& final(self).pending_scan@ == old(self).pending_scan@.drop_first()
                }
            },
    {
        if !self.scanning || self.scan_received < self.scan_total {
            return None;
        }
        let ghost s0 = *state;
        let ghost q0 = self.pending_thumbnails@;
        let ghost f0 = s0.folder_cells@.len();
        let ghost room = grid_room(s0.cell_order@.len() as int);
        let mut dirs: Vec<Option<(String, Vec<String>)>> = Vec::new();
        std::mem::swap(&mut dirs, &mut self.scan_buf);
        let ghost all = dirs@;
        let n = dirs.len();
        let mut i: usize = 0;
        let ghost mut reg: int = 0;
        while i < n
            invariant
                n == all.len(),
                i <= n,
                dirs@ == all.subrange(i as int, n as int),
                reg == min(somes(all.take(i as int)).len() as int, room),
                room == grid_room(s0.cell_order@.len() as int),
                state.indices_wf(),
                s0.wf() ==> state.wf(),
                state.image_cells@ == s0.image_cells@,
                state.same_extras(&s0),
                state.folder_cells@.len() == f0 + reg,
                state.folder_cells@.take(f0 as int) == s0.folder_cells@,
                forall|j: int| 0 <= j < reg ==> fresh_folder(
                    #[trigger] state.folder_cells@[f0 + j],
                    somes(all.take(i as int))[j].0@,
                    somes(all.take(i as int))[j].1@,
                ),
                state.cell_order@ == s0.cell_order@ + Seq::new(reg as nat, |j: int| CellKind::Folder((f0 + j) as usize)),
                state.pan_offset@ == s0.pan_offset@ + Seq::new(reg as nat, |j: int| None::<Pan>),
                self.pending_thumbnails@ == Seq::new(reg as nat, |j: int| ((f0 + reg - 1 - j) as usize, 0usize)) + q0,
                self.loading == old(self).loading,
                self.load_target == old(self).load_target,
                self.loading_total == old(self).loading_total,
                self.loading_buf@ == old(self).loading_buf@,
                self.loading_received == old(self).loading_received,
                self.scan_total == old(self).scan_total,
                self.scan_received == old(self).scan_received,
                self.scanning == old(self).scanning,
                self.pending_scan@ == old(self).pending_scan@,
                self.scan_buf@.len() == 0,
                old(self).wf(),
            decreases n - i,
        {
            let item = dirs.remove(0);
            let ghost before_found = somes(all.take(i as int));
            let ghost st = *state;
            let ghost q = self.pending_thumbnails@;
            proof {
                assert(item == all[i as int]);
                assert(all.take(i + 1).drop_last() =~= all.take(i as int));
                assert(all.take(i + 1).last() == all[i as int]);
            }
            if let Some((dir, entries)) = item {
                self.register_folder_cell(state, dir, entries);
                proof {
                    let found = somes(all.take(i + 1));
                    assert(found == before_found.push((dir, entries)));
                    if st.cell_order@.len() < MAX_IMAGES {
                        assert(reg < room);
                        assert(state.folder_cells@.take(f0 as int) =~= s0.folder_cells@) by {
                            assert(state.folder_cells@.take(f0 + reg) == st.folder_cells@);
                        }
                        assert forall|j: int| 0 <= j < reg + 1 implies fresh_folder(
                            #[trigger] state.folder_cells@[f0 + j],
                            found[j].0@,
                            found[j].1@,
                        ) by {
                            if j < reg {
                                assert(state.folder_cells@[f0 + j] == st.folder_cells@[f0 + j]);
                            }
                        }
                        assert(state.cell_order@ =~= s0.cell_order@ + Seq::new((reg + 1) as nat, |j: int| CellKind::Folder((f0 + j) as usize)));
                        assert(state.pan_offset@ =~= s0.pan_offset@ + Seq::new((reg + 1) as nat, |j: int| None::<Pan>));
                        assert(self.pending_thumbnails@ =~= Seq::new((reg + 1) as nat, |j: int| ((f0 + reg + 1 - 1 - j) as usize, 0usize)) + q0);
                        reg = reg + 1;
                    } else {
                        assert(reg == room);
                    }
                }
            } else {
                proof {
                    assert(somes(all.take(i + 1)) == before_found);
                }
            }
            i = i + 1;
        }
        proof {
            assert(all.take(n as int) =~= all);
        }
        self.scan_total = 0;
        self.scan_received = 0;
        self.scanning = false;
        match self.pending_scan.pop_front() {
            Some(next) => Some(self.begin_scan(next)),
            None => None,
        }
    }

    /// Records the outcome for file `i` of the load batch in flight: the
    /// decoded image goes to its slot. A failed thumbnail is skipped silently:
    /// its slot stays empty and nothing reaches the load errors. Any other
    /// failed path leaves the loaded paths and joins the load errors.
    pub fn receive_loaded<Sel, Pan, Scroll>(
        &mut self,
        state: &mut AppState<Tex, Sel, Pan, Scroll>,
        i: usize,
        result: Result<ImageInfo<Tex>, String>,
    )
        requires
            old(self).wf(),
            i < old(self).loading_buf@.len(),
            old(self).loading_received < old(self).loading_total,
        ensures
            old(state).wf() ==> final(state).wf(),
            final(self).wf(),
            final(self).loading_received == old(self).loading_received + 1,
            final(self).loading_total == old(self).loading_total,
            final(self).loading == old(self).loading,
            final(self).load_target == old(self).load_target,
            final(self).scanning == old(self).scanning,
            final(self).scan_total == old(self).scan_total,
            final(self).scan_received == old(self).scan_received,
            final(self).scan_buf@ == old(self).scan_buf@,
            final(self).pending_scan@ == old(self).pending_scan@,
            final(self).pending_thumbnails@ == old(self).pending_thumbnails@,
            final(state).image_cells@ == old(state).image_cells@,
            final(state).folder_cells@ == old(state).folder_cells@,
            final(state).cell_order@ == old(state).cell_order@,
            final(state).pan_offset@ == old(state).pan_offset@,
            final(state).local_mode == old(state).local_mode,
            final(state).show_exif == old(state).show_exif,
            final(state).show_histogram == old(state).show_histogram,
            final(state).reorder_src == old(state).reorder_src,
            final(state).pending_remove@ == old(state).pending_remove@,
            match result {
                Ok(info) => {
                    &&& final(self).loading_buf@ == old(self).loading_buf@.update(i as int, Some(info))
                    &&& final(state).loaded_paths@ == old(state).loaded_paths@
                    &&& final(state).load_errors@ == old(state).load_errors@
                },
                Err(path) => if old(self).load_target matches Some(LoadTarget::Thumbnails { .. }) {
                    &&& final(self).loading_buf@ == old(self).loading_buf@.update(i as int, None)
                    &&& final(state).loaded_paths@ == old(state).loaded_paths@
                    &&& final(state).load_errors@ == old(state).load_errors@
                } else {
                    &&& final(self).loading_buf@ == old(self).loading_buf@
                    &&& crate::state::strings_view(final(state).loaded_paths@)
                        == crate::state::strings_view(old(state).loaded_paths@).filter(|q: Seq<char>| q != path@)
                    &&& final(state).load_errors@ == old(state).load_errors@.push(path)
                },
            },
    {
        match result {
            Ok(info) => {
                self.loading_buf.set(i, Some(info));
            },
            Err(path) => {
                let thumbnails = match &self.load_target {
                    Some(LoadTarget::Thumbnails { .. }) => true,
                    _ => false,
                };
                if thumbnails {
                    self.loading_buf.set(i, None);
                } else {
                    crate::state::remove_path(&mut state.loaded_paths, &path);
                    state.load_errors.push(path);
                }
            },
        }
        self.loading_received = self.loading_received + 1;
        proof {
            assert forall|g: int| #[trigger] state.has_open_image(g) == old(state).has_open_image(g) by {}
            assert forall|g: int| #[trigger] state.folder_visible(g) == old(state).folder_visible(g) by {}
        }
    }

    /// Finishes the load batch once every file has reported, handing each
    /// decoded image to the batch's target: thumbnails fill their slots,
    /// opened entries become image cells, navigated images replace theirs.
    /// Returns whether a batch finished. Does nothing while no batch is in
    /// flight or results are still missing.
    pub fn finish_loading<Sel, Pan, Scroll>(&mut self, state: &mut AppState<Tex, Sel, Pan, Scroll>) -> (done: bool)
        requires
            old(self).wf(),
            old(state).indices_wf(),
        ensures
            final(self).wf(),
            final(state).indices_wf(),
            done == (old(self).loading && old(self).loading_received >= old(self).loading_total),
            !done ==> *final(self) == *old(self) && *final(state) == *old(state),
            done ==> {
                &&& !final(self).loading
                &&& final(self).load_target is None
                &&& final(self).loading_total == 0
                &&& final(self).loading_received == 0
                &&& final(self).pending_thumbnails@ == old(self).pending_thumbnails@
                &&& final(self).scanning == old(self).scanning
                &&& final(self).scan_buf@ == old(self).scan_buf@
                &&& final(self).pending_scan@ == old(self).pending_scan@
                &&& dispatched(*old(state), *final(state), old(self).load_target, old(self).loading_buf@)
                &&& (!(old(self).load_target matches Some(LoadTarget::NavigateMany(_))) && old(state).wf()
                    ==> final(state).wf())
            },
    {
        if !self.loading || self.loading_received < self.loading_total {
            return false;
        }
        let mut buf: Vec<Option<ImageInfo<Tex>>> = Vec::new();
        std::mem::swap(&mut buf, &mut self.loading_buf);
        let mut target: Option<LoadTarget> = None;
        std::mem::swap(&mut target, &mut self.load_target);
        match target {
            Some(LoadTarget::Thumbnails { folder_idx, start }) => {
                fill_thumbnails(state, folder_idx, start, buf);
            },
            Some(LoadTarget::OpenEntry(folder_idx, entry_idx)) => {
                let mut buf = buf;
                if buf.len() > 0 && folder_idx < state.folder_cells.len() {
                    if let Some(info) = buf.remove(0) {
                        state.open_folder_entry(folder_idx, entry_idx, info);
                    }
                }
            },
            Some(LoadTarget::OpenEntries { folder_idx, entry_idxs }) => {
                if folder_idx < state.folder_cells.len() {
                    open_in_turn(state, folder_idx, &entry_idxs, buf);
                }
            },
            Some(LoadTarget::NavigateMany(targets)) => {
                navigate_in_turn(state, &targets, buf);
            },
            None => {},
        }
        self.loading = false;
        self.loading_total = 0;
        self.loading_received = 0;
        true
    }

    /// Handles a user action reported by a folder cell. Entry actions go to
    /// the first folder on the grid (for opening an entry: the first that
    /// has it); `SelectSynced(i)` selects entry `i` alone in every folder
    /// that has it; revealing a file is left to the caller.
    pub fn handle_action<Sel, Pan, Scroll>(
        &mut self,
        state: &mut AppState<Tex, Sel, Pan, Scroll>,
        action: FolderAction,
    ) -> (effect: FolderEffect)
        requires
            old(self).wf(),
            old(state).indices_wf(),
            action is OpenSelected ==> (first_folder(old(state).cell_order@) matches Some(f)
                ==> selection_in_range(old(state).folder_cells@[f as int])),
        ensures
            final(self).wf(),
            final(state).indices_wf(),
            old(state).wf() ==> final(state).wf(),
            acted(*old(self), *final(self), *old(state), *final(state), action, effect),
    {
        match action {
            FolderAction::NoAction => FolderEffect::Nothing,
            FolderAction::OpenFolder(path) => FolderEffect::Reveal(path),
            FolderAction::OpenImage(idx) => {
                match first_folder_having(state, idx) {
                    Some(f) => match self.open_entry(state, f, idx) {
                        Some(req) => FolderEffect::Load(req),
                        None => FolderEffect::Nothing,
                    },
                    None => FolderEffect::Nothing,
                }
            },
            FolderAction::OpenSelected => {
                match first_folder_at(&state.cell_order) {
                    Some(f) => match self.open_selected(state, f) {
                        Some(req) => FolderEffect::Load(req),
                        None => FolderEffect::Nothing,
                    },
                    None => FolderEffect::Nothing,
                }
            },
            FolderAction::Remove(idx) => {
                if let Some(f) = first_folder_at(&state.cell_order) {
                    proof { lemma_first_folder_in_range(*state); }
                    let ghost o = *state;
                    let mut fc = state.folder_cells.remove(f);
                    if idx < fc.entries.len() {
                        remove_entry(&mut fc, idx);
                    }
                    state.folder_cells.insert(f, fc);
                    proof { lemma_folder_replaced(o, *state); }
                }
                FolderEffect::Nothing
            },
            FolderAction::ToggleView => {
                if let Some(f) = first_folder_at(&state.cell_order) {
                    proof { lemma_first_folder_in_range(*state); }
                    let ghost o = *state;
                    let mut fc = state.folder_cells.remove(f);
                    fc.view_mode = match fc.view_mode {
                        FolderView::List => FolderView::Thumbnail,
                        FolderView::Thumbnail => FolderView::List,
                    };
                    state.folder_cells.insert(f, fc);
                    proof { lemma_folder_replaced(o, *state); }
                }
                FolderEffect::Nothing
            },
            FolderAction::SelectSynced(i) => {
                select_in_every_folder(state, i);
                FolderEffect::Nothing
            },
        }
    }

    /// Records the scan result for directory `i` of the batch in flight:
    /// its path and image entries, or `None` when it could not be read.
    pub fn receive_scan(&mut self, i: usize, result: Option<(String, Vec<String>)>)
        requires
            old(self).wf(),
            i < old(self).scan_buf@.len(),
            old(self).scan_received < old(self).scan_total,
        ensures
            final(self).wf(),
            final(self).scan_buf@ == old(self).scan_buf@.update(i as int, result),
            final(self).scan_received == old(self).scan_received + 1,
            final(self).scan_total == old(self).scan_total,
            final(self).scanning == old(self).scanning,
            final(self).pending_scan@ == old(self).pending_scan@,
            final(self).loading == old(self).loading,
            final(self).loading_total == old(self).loading_total,
            final(self).loading_received == old(self).loading_received,
            final(self).loading_buf@ == old(self).loading_buf@,
            final(self).load_target == old(self).load_target,
            final(self).pending_thumbnails@ == old(self).pending_thumbnails@,
    {
        self.scan_buf.set(i, result);
        self.scan_received = self.scan_received + 1;
    }
}

/// The members of `set`, each once, in the set's own iteration order.
pub fn set_members(set: &HashSet<usize>) -> (r: Vec<usize>)
    ensures
        r@.to_set() == set@,
        r@.no_duplicates(),
        r@.len() == set@.len(),
{
    let mut out: Vec<usize> = Vec::new();
    let ghost rem = vstd::std_specs::hash::spec_hash_keys_iter(set).remaining();
    for x in it: set.iter()
        invariant
            it.seq() == rem,
            out@ == rem.take(it.index()).unref(),
    {
        out.push(*x);
        assert(out@ =~= rem.take(it.index() + 1).unref());
    }
    proof {
        assert(out@.len() == rem.len());
        assert(out@ =~= rem.unref());
        assert forall|i: int, j: int| 0 <= i < j < out@.len() implies out@[i] != out@[j] by {
            assert(rem[i] != rem[j]);
        }
    }
    out
}

/// Navigation targets by view.
pub open spec fn target_views(t: Seq<(usize, usize, usize, String)>) -> Seq<(usize, usize, usize, Seq<char>)> {
    t.map_values(|x: (usize, usize, usize, String)| (x.0, x.1, x.2, x.3@))
}

/// The strings' contents.
pub open spec fn strings_of(v: Seq<String>) -> Seq<Seq<char>> {
    v.map_values(|s: String| s@)
}

/// Every selected entry of `fc` exists.
pub open spec fn selection_in_range<Tex, Scroll>(fc: FolderCell<Tex, Scroll>) -> bool {
    forall|i: usize| fc.selected@.contains(i) ==> i < fc.entries@.len()
}

/// How many folder entries can be opened at once on a grid of `n` cells:
/// the free cells plus the one the folder itself gives up.
pub open spec fn open_room(n: int) -> int {
    if n < MAX_IMAGES { MAX_IMAGES - n + 1 } else { 1 }
}

/// The results of the directories that could be read, in order.
pub open spec fn somes(buf: Seq<Option<(String, Vec<String>)>>) -> Seq<(String, Vec<String>)>
    decreases buf.len(),
{
    if buf.len() == 0 {
        Seq::empty()
    } else {
        let rest = somes(buf.drop_last());
        match buf.last() {
            Some(x) => rest.push(x),
            None => rest,
        }
    }
}

/// Free cells on a grid of `n` cells.
pub open spec fn grid_room(n: int) -> int {
    if n < MAX_IMAGES { MAX_IMAGES - n } else { 0 }
}

/// Thumbnail slots after a batch that started at `start`: each slot the
/// batch covered holds the texture decoded for it, or nothing if that failed.
pub open spec fn filled<Tex>(slots: Seq<Option<Tex>>, start: int, buf: Seq<Option<ImageInfo<Tex>>>) -> Seq<Option<Tex>> {
    Seq::new(slots.len(), |j: int|
        if start <= j < start + buf.len() {
            match buf[j - start] {
                Some(info) => Some(info.texture),
                None => None,
            }
        } else {
            slots[j]
        })
}

/// After a thumbnail batch that started at `start`, slot `start + i` holds
/// the texture decoded for batch item `i` (nothing where it failed), and every
/// slot outside `start .. start + batch length` keeps what it held; the
/// number of slots does not change.
pub proof fn lemma_batch_fills_its_own_slots<Tex>(
    slots: Seq<Option<Tex>>,
    start: int,
    buf: Seq<Option<ImageInfo<Tex>>>,
)
    requires
        0 <= start,
    ensures
        filled(slots, start, buf).len() == slots.len(),
        forall|i: int| 0 <= i < buf.len() && start + i < slots.len() ==>
            #[trigger] filled(slots, start, buf)[start + i] == match buf[i] {
                Some(info) => Some(info.texture),
                None => None,
            },
        forall|j: int| 0 <= j < slots.len() && !(start <= j < start + buf.len()) ==>
            #[trigger] filled(slots, start, buf)[j] == slots[j],
{
    assert forall|i: int| 0 <= i < buf.len() && start + i < slots.len() implies
        #[trigger] filled(slots, start, buf)[start + i] == match buf[i] {
            Some(info) => Some(info.texture),
            None => None,
        } by {
        assert(start + i - start == i);
    }
}

/// `fc` with its thumbnails replaced by `t`.
pub open spec fn with_thumbnails<Tex, Scroll>(fc: FolderCell<Tex, Scroll>, t: Seq<Option<Tex>>, after: FolderCell<Tex, Scroll>) -> bool {
    &&& after.dir_path == fc.dir_path
    &&& after.entries == fc.entries
    &&& after.selected == fc.selected
    &&& after.view_mode == fc.view_mode
    &&& after.scroll_offset == fc.scroll_offset
    &&& after.thumbnails@ == t
    &&& after.open_entry == fc.open_entry
    &&& after.scroll_to == fc.scroll_to
}

/// The entries to open from a batch: each decoded slot `i` with its entry index `idxs[i]`.
pub open spec fn entries_to_open<Tex>(buf: Seq<Option<ImageInfo<Tex>>>, idxs: Seq<usize>) -> Seq<(usize, ImageInfo<Tex>)>
    decreases buf.len(),
{
    if buf.len() == 0 {
        Seq::empty()
    } else {
        let rest = entries_to_open(buf.drop_last(), idxs);
        let i = buf.len() - 1;
        match buf.last() {
            Some(info) => if i < idxs.len() { rest.push((idxs[i], info)) } else { rest },
            None => rest,
        }
    }
}

/// The navigations to apply from a batch: each decoded slot `i` with its
/// target `targets[i]` = (image, folder, entry), when that image and folder
/// exist on a grid of `n_img` images and `n_fold` folders.
pub open spec fn navigations<Tex>(
    buf: Seq<Option<ImageInfo<Tex>>>,
    targets: Seq<(usize, usize, usize)>,
    n_img: int,
    n_fold: int,
) -> Seq<((usize, usize, usize), ImageInfo<Tex>)>
    decreases buf.len(),
{
    if buf.len() == 0 {
        Seq::empty()
    } else {
        let rest = navigations(buf.drop_last(), targets, n_img, n_fold);
        let i = buf.len() - 1;
        match buf.last() {
            Some(info) => if i < targets.len() && targets[i].0 < n_img && targets[i].1 < n_fold {
                rest.push((targets[i], info))
            } else {
                rest
            },
            None => rest,
        }
    }
}

/// `after` is `before` with image `img` replaced by entry `e` of folder `f`,
/// that folder recording `e` as its open entry.
pub open spec fn navigated<Tex, Sel, Pan, Scroll>(
    before: AppState<Tex, Sel, Pan, Scroll>,
    after: AppState<Tex, Sel, Pan, Scroll>,
    t: (usize, usize, usize),
    info: ImageInfo<Tex>,
) -> bool {
    &&& after.image_cells@ == before.image_cells@.update(t.0 as int, crate::state::folder_image(info, t.1, t.2))
    &&& after.folder_cells@ == before.folder_cells@.update(
        t.1 as int,
        crate::state::with_open_entry(before.folder_cells@[t.1 as int], t.2),
    )
    &&& after.cell_order@ == before.cell_order@
    &&& after.pan_offset@ == before.pan_offset@
    &&& after.same_extras(&before)
}

/// The states of a run of openings of entries of folder `f`.
pub open spec fn opened_in_turn<Tex, Sel, Pan, Scroll>(
    states: Seq<AppState<Tex, Sel, Pan, Scroll>>,
    f: int,
    items: Seq<(usize, ImageInfo<Tex>)>,
) -> bool {
    &&& states.len() == items.len() + 1
    &&& forall|j: int| 0 <= j < items.len() ==> #[trigger] states[j].opening(&states[j + 1], f, items[j].0, items[j].1)
}

/// The states of a run of navigations.
pub open spec fn navigated_in_turn<Tex, Sel, Pan, Scroll>(
    states: Seq<AppState<Tex, Sel, Pan, Scroll>>,
    items: Seq<((usize, usize, usize), ImageInfo<Tex>)>,
) -> bool {
    &&& states.len() == items.len() + 1
    &&& forall|j: int| 0 <= j < items.len() ==> #[trigger] navigated(states[j], states[j + 1], items[j].0, items[j].1)
}

/// What handing the results `buf` of a finished batch to `target` does to the grid.
pub open spec fn dispatched<Tex, Sel, Pan, Scroll>(
    before: AppState<Tex, Sel, Pan, Scroll>,
    after: AppState<Tex, Sel, Pan, Scroll>,
    target: Option<LoadTarget>,
    buf: Seq<Option<ImageInfo<Tex>>>,
) -> bool {
    match target {
        Some(LoadTarget::Thumbnails { folder_idx, start }) => if folder_idx < before.folder_cells@.len() {
            &&& after.folder_cells@.len() == before.folder_cells@.len()
            &&& forall|g: int| 0 <= g < before.folder_cells@.len() && g != folder_idx
                ==> after.folder_cells@[g] == #[trigger] before.folder_cells@[g]
            &&& with_thumbnails(
                before.folder_cells@[folder_idx as int],
                filled(before.folder_cells@[folder_idx as int].thumbnails@, start as int, buf),
                after.folder_cells@[folder_idx as int],
            )
            &&& after.image_cells@ == before.image_cells@
            &&& after.cell_order@ == before.cell_order@
            &&& after.pan_offset@ == before.pan_offset@
            &&& after.same_extras(&before)
        } else {
            after == before
        },
        Some(LoadTarget::OpenEntry(f, e)) => if buf.len() > 0 && buf[0] is Some && f < before.folder_cells@.len() {
            before.opening(&after, f as int, e, buf[0]->0)
        } else {
            after == before
        },
        Some(LoadTarget::OpenEntries { folder_idx, entry_idxs }) => if folder_idx < before.folder_cells@.len() {
            exists|states: Seq<AppState<Tex, Sel, Pan, Scroll>>| {
                &&& #[trigger] opened_in_turn(states, folder_idx as int, entries_to_open(buf, entry_idxs@))
                &&& states[0] == before
                &&& states.last() == after
            }
        } else {
            after == before
        },
        Some(LoadTarget::NavigateMany(targets)) => exists|states: Seq<AppState<Tex, Sel, Pan, Scroll>>| {
            &&& #[trigger] navigated_in_turn(
                states,
                navigations(buf, targets@, before.image_cells@.len() as int, before.folder_cells@.len() as int),
            )
            &&& states[0] == before
            &&& states.last() == after
        },
        None => after == before,
    }
}

/// Puts the thumbnails of a finished batch into their slots of folder `folder_idx`.
fn fill_thumbnails<Tex, Sel, Pan, Scroll>(
    state: &mut AppState<Tex, Sel, Pan, Scroll>,
    folder_idx: usize,
    start: usize,
    buf: Vec<Option<ImageInfo<Tex>>>,
)
    requires
        old(state).indices_wf(),
    ensures
        final(state).indices_wf(),
        old(state).wf() ==> final(state).wf(),
        dispatched(*old(state), *final(state), Some(LoadTarget::Thumbnails { folder_idx, start }), buf@),
{
    if folder_idx >= state.folder_cells.len() {
        return;
    }
    let ghost o = *state;
    let ghost all = buf@;
    let mut fc = state.folder_cells.remove(folder_idx);
    let ghost fc0 = fc;
    let n = fc.thumbnails.len();
    let total = buf.len();
    assert(fc.thumbnails@ =~= filled(fc0.thumbnails@, start as int, all.take(0)));
    let mut rest = buf;
    let mut i: usize = 0;
    while rest.len() > 0
        invariant
            i <= all.len(),
            all.len() == total,
            rest@ == all.skip(i as int),
            n == fc0.thumbnails@.len(),
            with_thumbnails(fc0, filled(fc0.thumbnails@, start as int, all.take(i as int)), fc),
        decreases rest@.len(),
    {
        let slot = rest.remove(0);
        proof {
            assert(slot == all[i as int]);
        }
        let ghost before = fc.thumbnails@;
        if start < n && i < n - start {
            let tex = match slot {
                Some(info) => Some(info.texture),
                None => None,
            };
            fc.thumbnails.set(start + i, tex);
        }
        i = i + 1;
        proof {
            assert(fc.thumbnails@ =~= filled(fc0.thumbnails@, start as int, all.take(i as int)));
        }
    }
    proof {
        assert(all.take(i as int) =~= all);
    }
    state.folder_cells.insert(folder_idx, fc);
    proof {
        let s = *state;
        assert forall|p: int| 0 <= p < s.cell_order@.len() implies s.cell_in_range(#[trigger] s.cell_order@[p]) by {
            assert(o.cell_in_range(o.cell_order@[p]));
        }
        assert forall|g: int| 0 <= g < o.folder_cells@.len() && g != folder_idx
            implies s.folder_cells@[g] == #[trigger] o.folder_cells@[g] by {}
        assert forall|g: int| #[trigger] s.has_open_image(g) == o.has_open_image(g) by {}
        assert forall|g: int| #[trigger] s.folder_visible(g) == o.folder_visible(g) by {}
    }
}

/// Opens entry `entry_idxs[i]` of folder `folder_idx` for each decoded slot `i`, in turn.
fn open_in_turn<Tex, Sel, Pan, Scroll>(
    state: &mut AppState<Tex, Sel, Pan, Scroll>,
    folder_idx: usize,
    entry_idxs: &Vec<usize>,
    buf: Vec<Option<ImageInfo<Tex>>>,
)
    requires
        old(state).indices_wf(),
        folder_idx < old(state).folder_cells@.len(),
    ensures
        final(state).indices_wf(),
        old(state).wf() ==> final(state).wf(),
        exists|states: Seq<AppState<Tex, Sel, Pan, Scroll>>| {
            &&& #[trigger] opened_in_turn(states, folder_idx as int, entries_to_open(buf@, entry_idxs@))
            &&& states[0] == *old(state)
            &&& states.last() == *final(state)
        },
{
    let ghost o = *state;
    let ghost all = buf@;
    let ghost mut states: Seq<AppState<Tex, Sel, Pan, Scroll>> = seq![o];
    let total = buf.len();
    let mut rest = buf;
    let mut i: usize = 0;
    while rest.len() > 0
        invariant
            i <= all.len(),
            all.len() == total,
            rest@ == all.skip(i as int),
            state.indices_wf(),
            o.wf() ==> state.wf(),
            state.folder_cells@.len() == o.folder_cells@.len(),
            folder_idx < o.folder_cells@.len(),
            opened_in_turn(states, folder_idx as int, entries_to_open(all.take(i as int), entry_idxs@)),
            states[0] == o,
            states.last() == *state,
        decreases rest@.len(),
    {
        let slot = rest.remove(0);
        proof {
            assert(slot == all[i as int]);
            assert(all.take(i + 1).drop_last() =~= all.take(i as int));
        }
        let ghost items = entries_to_open(all.take(i as int), entry_idxs@);
        if let Some(info) = slot {
            if i < entry_idxs.len() {
                let ghost before = *state;
                state.open_folder_entry(folder_idx, entry_idxs[i], info);
                proof {
                    let new_items = entries_to_open(all.take(i + 1), entry_idxs@);
                    assert(new_items == items.push((entry_idxs@[i as int], info)));
                    let new_states = states.push(*state);
                    assert forall|j: int| 0 <= j < new_items.len() implies #[trigger] new_states[j].opening(
                        &new_states[j + 1], folder_idx as int, new_items[j].0, new_items[j].1) by {
                        if j < items.len() {
                            assert(new_states[j] == states[j] && new_states[j + 1] == states[j + 1]);
                            assert(new_items[j] == items[j]);
                        } else {
                            assert(new_states[j] == before);
                        }
                    }
                    states = new_states;
                }
            }
        }
        i = i + 1;
    }
    proof {
        assert(all.take(i as int) =~= all);
    }
}

/// Applies the navigation target `targets[i]` for each decoded slot `i`, in
/// turn, where that image and folder exist.
fn navigate_in_turn<Tex, Sel, Pan, Scroll>(
    state: &mut AppState<Tex, Sel, Pan, Scroll>,
    targets: &Vec<(usize, usize, usize)>,
    buf: Vec<Option<ImageInfo<Tex>>>,
)
    requires
        old(state).indices_wf(),
    ensures
        final(state).indices_wf(),
        exists|states: Seq<AppState<Tex, Sel, Pan, Scroll>>| {
            &&& #[trigger] navigated_in_turn(
                states,
                navigations(buf@, targets@, old(state).image_cells@.len() as int, old(state).folder_cells@.len() as int),
            )
            &&& states[0] == *old(state)
            &&& states.last() == *final(state)
        },
{
    let ghost o = *state;
    let ghost all = buf@;
    let ghost n_img = o.image_cells@.len() as int;
    let ghost n_fold = o.folder_cells@.len() as int;
    let ghost mut states: Seq<AppState<Tex, Sel, Pan, Scroll>> = seq![o];
    let total = buf.len();
    let mut rest = buf;
    let mut i: usize = 0;
    while rest.len() > 0
        invariant
            i <= all.len(),
            all.len() == total,
            rest@ == all.skip(i as int),
            state.indices_wf(),
            state.image_cells@.len() == n_img,
            state.folder_cells@.len() == n_fold,
            navigated_in_turn(states, navigations(all.take(i as int), targets@, n_img, n_fold)),
            states[0] == o,
            states.last() == *state,
        decreases rest@.len(),
    {
        let slot = rest.remove(0);
        proof {
            assert(slot == all[i as int]);
            assert(all.take(i + 1).drop_last() =~= all.take(i as int));
        }
        let ghost items = navigations(all.take(i as int), targets@, n_img, n_fold);
        if let Some(info) = slot {
            if i < targets.len() {
                let (img, folder, entry) = targets[i];
                if img < state.image_cells.len() && folder < state.folder_cells.len() {
                    let ghost before = *state;
                    state.apply_navigated_image(img, folder, entry, info);
                    proof {
                        let new_items = navigations(all.take(i + 1), targets@, n_img, n_fold);
                        assert(new_items == items.push(((img, folder, entry), info)));
                        let new_states = states.push(*state);
                        assert forall|j: int| 0 <= j < new_items.len() implies #[trigger] navigated(
                            new_states[j], new_states[j + 1], new_items[j].0, new_items[j].1) by {
                            if j < items.len() {
                                assert(new_states[j] == states[j] && new_states[j + 1] == states[j + 1]);
                                assert(new_items[j] == items[j]);
                            } else {
                                assert(new_states[j] == before);
                            }
                        }
                        assert forall|p: int| 0 <= p < state.cell_order@.len() implies state.cell_in_range(#[trigger] state.cell_order@[p]) by {
                            assert(before.cell_in_range(before.cell_order@[p]));
                        }
                        states = new_states;
                    }
                }
            }
        }
        i = i + 1;
    }
    proof {
        assert(all.take(i as int) =~= all);
    }
}

/// How many entries of a folder with `n` entries get thumbnails.
pub open spec fn thumb_cap(n: nat) -> int {
    min(n as int, THUMB_LIMIT as int)
}

/// End of the thumbnail batch that starts at `offset` in a folder of `n` entries.
pub open spec fn thumb_batch_end(offset: int, n: int) -> int {
    min(offset + THUMB_BATCH, min(n, THUMB_LIMIT as int))
}

/// The folder index at the first folder position of `order`.
pub open spec fn first_folder(order: Seq<CellKind>) -> Option<usize>
    decreases order.len(),
{
    if order.len() == 0 {
        None
    } else {
        match order[0] {
            CellKind::Folder(f) => Some(f),
            CellKind::Image(_) => first_folder(order.drop_first()),
        }
    }
}

/// The folder index at the first folder position of `order` whose folder
/// (in `folders`) has an entry `idx`.
pub open spec fn first_folder_with<Tex, Scroll>(order: Seq<CellKind>, folders: Seq<FolderCell<Tex, Scroll>>, idx: usize) -> Option<usize>
    decreases order.len(),
{
    if order.len() == 0 {
        None
    } else {
        match order[0] {
            CellKind::Folder(f) => if f < folders.len() && idx < folders[f as int].entries@.len() {
                Some(f)
            } else {
                first_folder_with(order.drop_first(), folders, idx)
            },
            CellKind::Image(_) => first_folder_with(order.drop_first(), folders, idx),
        }
    }
}

/// The selection after removing entry `idx`: it leaves, later entries move up one.
pub open spec fn selection_after_removal(sel: Set<usize>, idx: usize) -> Set<usize> {
    Set::new(|t: usize| (t < idx && sel.contains(t)) || (idx <= t < usize::MAX && sel.contains((t + 1) as usize)))
}

/// Selected entry `m` becomes `t` once entry `idx` is gone.
pub open spec fn shifts_to(m: usize, idx: usize, t: usize) -> bool {
    (m < idx && t == m) || (m > idx && t == m - 1)
}

/// `after` is folder cell `before` without entry `idx` (and its thumbnail slot).
pub open spec fn entry_removed<Tex, Scroll>(before: FolderCell<Tex, Scroll>, after: FolderCell<Tex, Scroll>, idx: usize) -> bool {
    &&& after.dir_path == before.dir_path
    &&& after.entries@ == before.entries@.remove(idx as int)
    &&& after.selected@ == selection_after_removal(before.selected@, idx)
    &&& after.view_mode == before.view_mode
    &&& after.scroll_offset == before.scroll_offset
    &&& after.thumbnails@ == if idx < before.thumbnails@.len() {
        before.thumbnails@.remove(idx as int)
    } else {
        before.thumbnails@
    }
    &&& after.open_entry == before.open_entry
    &&& after.scroll_to == before.scroll_to
}

/// `after` is folder cell `before` with only its selection changed, to `sel`.
pub open spec fn reselected<Tex, Scroll>(before: FolderCell<Tex, Scroll>, after: FolderCell<Tex, Scroll>, sel: Set<usize>) -> bool {
    &&& after.dir_path == before.dir_path
    &&& after.entries == before.entries
    &&& after.selected@ == sel
    &&& after.view_mode == before.view_mode
    &&& after.scroll_offset == before.scroll_offset
    &&& after.thumbnails == before.thumbnails
    &&& after.open_entry == before.open_entry
    &&& after.scroll_to == before.scroll_to
}

/// The other of the two folder views.
pub open spec fn toggled(v: FolderView) -> FolderView {
    match v {
        FolderView::List => FolderView::Thumbnail,
        FolderView::Thumbnail => FolderView::List,
    }
}

/// The integers from `lo` to `hi`, both included.
pub open spec fn span(lo: usize, hi: usize) -> Set<usize> {
    Set::new(|t: usize| lo <= t <= hi)
}

/// The selection after a click on entry `i`: Ctrl toggles it; Shift adds
/// the whole run between it and the largest selected entry (just `i` when
/// nothing is selected); a plain click selects `i` alone.
pub open spec fn clicked_selection(sel: Set<usize>, i: usize, ctrl: bool, shift: bool) -> Set<usize> {
    if ctrl {
        if sel.contains(i) { sel.remove(i) } else { sel.insert(i) }
    } else if shift {
        if sel.len() == 0 {
            sel.insert(i)
        } else {
            let last = max_of(sel);
            if i < last { sel.union(span(i, last)) } else { sel.union(span(last, i)) }
        }
    } else {
        set![i]
    }
}

/// The largest member of a non-empty finite set of indices.
pub open spec fn max_of(sel: Set<usize>) -> usize {
    choose|m: usize| sel.contains(m) && forall|x: usize| sel.contains(x) ==> x <= m
}

/// The largest member of a non-empty set, found by a walk over its members.
pub fn largest_member(set: &HashSet<usize>) -> (r: usize)
    requires
        set@.len() > 0,
    ensures
        r == max_of(set@),
        set@.contains(r),
        forall|x: usize| set@.contains(x) ==> x <= r,
{
    let members = set_members(set);
    let mut best: usize = members[0];
    let mut k: usize = 1;
    assert(set@.contains(members@[0])) by {
        assert(members@.to_set().contains(members@[0]));
    }
    while k < members.len()
        invariant
            1 <= k <= members@.len(),
            members@.to_set() == set@,
            set@.contains(best),
            forall|j: int| 0 <= j < k ==> #[trigger] members@[j] <= best,
        decreases members@.len() - k,
    {
        assert(members@.to_set().contains(members@[k as int]));
        if members[k] > best {
            best = members[k];
        }
        k = k + 1;
    }
    proof {
        assert forall|x: usize| set@.contains(x) implies x <= best by {
            assert(members@.to_set().contains(x));
            let j = choose|j: int| 0 <= j < members@.len() && members@[j] == x;
        }
        let m = max_of(set@);
        assert(set@.contains(m) && forall|x: usize| set@.contains(x) ==> x <= m);
        assert(best <= m && m <= best);
    }
    best
}

/// Applies a click on entry `i` to the selection of `fc` (see `clicked_selection`).
pub fn select_on_click<Tex, Scroll>(fc: &mut FolderCell<Tex, Scroll>, i: usize, ctrl: bool, shift: bool)
    ensures
        reselected(*old(fc), *final(fc), clicked_selection(old(fc).selected@, i, ctrl, shift)),
{
    if ctrl {
        if fc.selected.contains(&i) {
            fc.selected.remove(&i);
        } else {
            fc.selected.insert(i);
        }
    } else if shift {
        let last: usize = if fc.selected.len() == 0 { i } else { largest_member(&fc.selected) };
        let (lo, hi) = if i < last { (i, last) } else { (last, i) };
        let ghost before = fc.selected@;
        let mut j: usize = lo;
        while j < hi
            invariant
                lo <= j <= hi,
                fc.selected@ == before.union(Set::new(|t: usize| lo <= t < j)),
                reselected(*old(fc), *fc, fc.selected@),
            decreases hi - j,
        {
            fc.selected.insert(j);
            j = j + 1;
            assert(fc.selected@ =~= before.union(Set::new(|t: usize| lo <= t < j)));
        }
        fc.selected.insert(hi);
        proof {
            assert(fc.selected@ =~= before.union(span(lo, hi)));
            if before.len() == 0 {
                assert(before.union(span(i, i)) =~= before.insert(i));
            }
        }
    } else {
        fc.selected.clear();
        fc.selected.insert(i);
        assert(fc.selected@ =~= set![i]);
    }

}

/// Removes entry `idx` from `fc`, with its thumbnail slot; the selection
/// drops it and follows the entries that move up.
pub fn remove_entry<Tex, Scroll>(fc: &mut FolderCell<Tex, Scroll>, idx: usize)
    requires
        idx < old(fc).entries@.len(),
    ensures
        entry_removed(*old(fc), *final(fc), idx),
{
    fc.entries.remove(idx);
    let members = set_members(&fc.selected);
    let ghost before = fc.selected@;
    let mut kept: HashSet<usize> = HashSet::new();
    let mut k: usize = 0;
    while k < members.len()
        invariant
            k <= members@.len(),
            members@.to_set() == before,
            forall|t: usize| #[trigger] kept@.contains(t) <==> exists|j: int| 0 <= j < k && #[trigger] shifts_to(members@[j], idx, t),
        decreases members@.len() - k,
    {
        let s = members[k];
        let ghost old_kept = kept@;
        if s < idx {
            kept.insert(s);
        } else if s > idx {
            kept.insert(s - 1);
        }
        assert forall|t: usize| #[trigger] kept@.contains(t) <==> exists|j: int| 0 <= j < k + 1 && #[trigger] shifts_to(members@[j], idx, t) by {
            if kept@.contains(t) && !old_kept.contains(t) {
                assert(shifts_to(members@[k as int], idx, t));
            }
            if exists|j: int| 0 <= j < k + 1 && #[trigger] shifts_to(members@[j], idx, t) {
                let j = choose|j: int| 0 <= j < k + 1 && #[trigger] shifts_to(members@[j], idx, t);
                if j < k {
                    assert(old_kept.contains(t));
                }
            }
        }
        k = k + 1;
    }
    proof {
        assert forall|t: usize| #[trigger] kept@.contains(t) == selection_after_removal(before, idx).contains(t) by {
            if t < idx && before.contains(t) {
                assert(members@.to_set().contains(t));
                assert(members@.contains(t));
                let j = choose|j: int| 0 <= j < members@.len() && members@[j] == t;
                assert(shifts_to(members@[j], idx, t));
            }
            if idx <= t < usize::MAX && before.contains((t + 1) as usize) {
                assert(members@.to_set().contains((t + 1) as usize));
                assert(members@.contains((t + 1) as usize));
                let j = choose|j: int| 0 <= j < members@.len() && members@[j] == (t + 1) as usize;
                assert(shifts_to(members@[j], idx, t));
            }
            if kept@.contains(t) {
                let j = choose|j: int| 0 <= j < k && #[trigger] shifts_to(members@[j], idx, t);
                assert(members@.contains(members@[j]));
                assert(members@.to_set().contains(members@[j]));
            }
        }
        assert(kept@ =~= selection_after_removal(before, idx));
    }
    fc.selected = kept;
    if idx < fc.thumbnails.len() {
        fc.thumbnails.remove(idx);
    }
}

/// The effect a finished open request has.
pub open spec fn load_effect(r: Option<LoadRequest>, effect: FolderEffect) -> bool {
    match r {
        Some(req) => effect == FolderEffect::Load(req),
        None => effect is Nothing,
    }
}

/// `after` is `before` with folder `f` replaced by one that `related` accepts.
pub open spec fn folder_changed<Tex, Sel, Pan, Scroll>(
    before: AppState<Tex, Sel, Pan, Scroll>,
    after: AppState<Tex, Sel, Pan, Scroll>,
    f: int,
) -> bool {
    &&& grid_kept(before, after)
    &&& forall|g: int| 0 <= g < before.folder_cells@.len() && g != f ==> after.folder_cells@[g] == #[trigger] before.folder_cells@[g]
}

/// `after` has the grid of `before`: the same images, positions and offsets,
/// as many folders, and the same other fields; folder contents may differ.
pub open spec fn grid_kept<Tex, Sel, Pan, Scroll>(
    before: AppState<Tex, Sel, Pan, Scroll>,
    after: AppState<Tex, Sel, Pan, Scroll>,
) -> bool {
    &&& after.folder_cells@.len() == before.folder_cells@.len()
    &&& after.image_cells@ == before.image_cells@
    &&& after.cell_order@ == before.cell_order@
    &&& after.pan_offset@ == before.pan_offset@
    &&& after.same_extras(&before)
}

/// The exact effect of [`FolderManager::handle_action`].
pub open spec fn acted<Tex, Sel, Pan, Scroll>(
    m0: FolderManager<Tex>,
    m1: FolderManager<Tex>,
    s0: AppState<Tex, Sel, Pan, Scroll>,
    s1: AppState<Tex, Sel, Pan, Scroll>,
    action: FolderAction,
    effect: FolderEffect,
) -> bool {
    match action {
        FolderAction::NoAction => m1 == m0 && s1 == s0 && effect is Nothing,
        FolderAction::OpenFolder(path) => m1 == m0 && s1 == s0 && effect == FolderEffect::Reveal(path),
        FolderAction::OpenImage(idx) => s1 == s0 && match first_folder_with(s0.cell_order@, s0.folder_cells@, idx) {
            Some(f) => exists|r: Option<LoadRequest>| #[trigger] m0.entry_load(&m1, &s0, f, idx, r) && load_effect(r, effect),
            None => m1 == m0 && effect is Nothing,
        },
        FolderAction::OpenSelected => s1 == s0 && match first_folder(s0.cell_order@) {
            Some(f) => exists|r: Option<LoadRequest>| #[trigger] m0.selection_load(&m1, &s0, f, r) && load_effect(r, effect),
            None => m1 == m0 && effect is Nothing,
        },
        FolderAction::Remove(idx) => m1 == m0 && effect is Nothing && match first_folder(s0.cell_order@) {
            Some(f) => {
                &&& folder_changed(s0, s1, f as int)
                &&& if idx < s0.folder_cells@[f as int].entries@.len() {
                    entry_removed(s0.folder_cells@[f as int], s1.folder_cells@[f as int], idx)
                } else {
                    s1.folder_cells@[f as int] == s0.folder_cells@[f as int]
                }
            },
            None => s1 == s0,
        },
        FolderAction::ToggleView => m1 == m0 && effect is Nothing && match first_folder(s0.cell_order@) {
            Some(f) => {
                let fc = s0.folder_cells@[f as int];
                &&& folder_changed(s0, s1, f as int)
                &&& s1.folder_cells@[f as int] == FolderCell {
                    view_mode: toggled(fc.view_mode),
                    ..fc
                }
            },
            None => s1 == s0,
        },
        FolderAction::SelectSynced(i) => m1 == m0 && effect is Nothing && synced(s0, s1, i),
    }
}

/// `after` is `before` with entry `i` selected alone in every folder that has it.
pub open spec fn synced<Tex, Sel, Pan, Scroll>(
    before: AppState<Tex, Sel, Pan, Scroll>,
    after: AppState<Tex, Sel, Pan, Scroll>,
    i: usize,
) -> bool {
    &&& after.folder_cells@.len() == before.folder_cells@.len()
    &&& forall|g: int| 0 <= g < before.folder_cells@.len() ==> if i < before.folder_cells@[g].entries@.len() {
        reselected(before.folder_cells@[g], #[trigger] after.folder_cells@[g], set![i])
    } else {
        after.folder_cells@[g] == before.folder_cells@[g]
    }
    &&& after.image_cells@ == before.image_cells@
    &&& after.cell_order@ == before.cell_order@
    &&& after.pan_offset@ == before.pan_offset@
    &&& after.same_extras(&before)
}

/// The folder at the first folder position names a stored folder.
pub proof fn lemma_first_folder_in_range<Tex, Sel, Pan, Scroll>(s: AppState<Tex, Sel, Pan, Scroll>)
    requires
        s.indices_wf(),
    ensures
        first_folder(s.cell_order@) matches Some(f) ==> f < s.folder_cells@.len(),
{
    lemma_first_folder_found(s.cell_order@);
    if let Some(f) = first_folder(s.cell_order@) {
        let p = choose|p: int| 0 <= p < s.cell_order@.len() && s.cell_order@[p] == CellKind::Folder(f);
        assert(s.cell_in_range(s.cell_order@[p]));
    }
}

/// A folder index that `first_folder` gives sits in `order`.
proof fn lemma_first_folder_found(order: Seq<CellKind>)
    ensures
        first_folder(order) matches Some(f) ==> exists|p: int| 0 <= p < order.len() && order[p] == CellKind::Folder(f),
    decreases order.len(),
{
    if order.len() > 0 {
        lemma_first_folder_found(order.drop_first());
        if let CellKind::Image(_) = order[0] {
            if let Some(f) = first_folder(order.drop_first()) {
                let p = choose|p: int| 0 <= p < order.drop_first().len() && order.drop_first()[p] == CellKind::Folder(f);
                assert(order[p + 1] == CellKind::Folder(f));
            }
        }
    }
}

/// Changing stored folders in place keeps the grid structure and its invariant.
proof fn lemma_folder_replaced<Tex, Sel, Pan, Scroll>(
    o: AppState<Tex, Sel, Pan, Scroll>,
    s: AppState<Tex, Sel, Pan, Scroll>,
)
    requires
        o.indices_wf(),
        grid_kept(o, s),
    ensures
        s.indices_wf(),
        o.wf() ==> s.wf(),
{
    assert forall|p: int| 0 <= p < s.cell_order@.len() implies s.cell_in_range(#[trigger] s.cell_order@[p]) by {
        assert(o.cell_in_range(o.cell_order@[p]));
    }
    assert forall|g: int| #[trigger] s.has_open_image(g) == o.has_open_image(g) by {}
    assert forall|g: int| #[trigger] s.folder_visible(g) == o.folder_visible(g) by {}
}

/// The folder index at the first folder position of `order`.
pub fn first_folder_at(order: &Vec<CellKind>) -> (r: Option<usize>)
    ensures
        r == first_folder(order@),
{
    let mut p: usize = 0;
    assert(order@.subrange(0, order@.len() as int) =~= order@);
    while p < order.len()
        invariant
            p <= order@.len(),
            first_folder(order@) == first_folder(order@.subrange(p as int, order@.len() as int)),
        decreases order@.len() - p,
    {
        let ghost rest = order@.subrange(p as int, order@.len() as int);
        assert(rest[0] == order@[p as int]);
        if let CellKind::Folder(f) = order[p] {
            return Some(f);
        }
        assert(rest.drop_first() =~= order@.subrange(p + 1, order@.len() as int));
        p = p + 1;
    }
    None
}

/// The folder index at the first folder position whose folder has entry `idx`.
pub fn first_folder_having<Tex, Sel, Pan, Scroll>(state: &AppState<Tex, Sel, Pan, Scroll>, idx: usize) -> (r: Option<usize>)
    ensures
        r == first_folder_with(state.cell_order@, state.folder_cells@, idx),
        r matches Some(f) ==> f < state.folder_cells@.len(),
{
    let order = &state.cell_order;
    let mut p: usize = 0;
    assert(order@.subrange(0, order@.len() as int) =~= order@);
    while p < order.len()
        invariant
            p <= order@.len(),
            order@ == state.cell_order@,
            first_folder_with(order@, state.folder_cells@, idx)
                == first_folder_with(order@.subrange(p as int, order@.len() as int), state.folder_cells@, idx),
        decreases order@.len() - p,
    {
        let ghost rest = order@.subrange(p as int, order@.len() as int);
        assert(rest[0] == order@[p as int]);
        if let CellKind::Folder(f) = order[p] {
            if f < state.folder_cells.len() && idx < state.folder_cells[f].entries.len() {
                assert(first_folder_with(rest, state.folder_cells@, idx) == Some(f));
                return Some(f);
            }
        }
        assert(rest.drop_first() =~= order@.subrange(p + 1, order@.len() as int));
        p = p + 1;
    }
    None
}

/// Selects entry `i` alone in every folder that has it.
fn select_in_every_folder<Tex, Sel, Pan, Scroll>(state: &mut AppState<Tex, Sel, Pan, Scroll>, i: usize)
    requires
        old(state).indices_wf(),
    ensures
        final(state).indices_wf(),
        old(state).wf() ==> final(state).wf(),
        synced(*old(state), *final(state), i),
{
    let ghost o = *state;
    let n = state.folder_cells.len();
    let mut g: usize = 0;
    while g < n
        invariant
            g <= n,
            n == o.folder_cells@.len(),
            o.indices_wf(),
            grid_kept(o, *state),
            forall|h: int| 0 <= h < n ==> if h < g && i < o.folder_cells@[h].entries@.len() {
                reselected(o.folder_cells@[h], #[trigger] state.folder_cells@[h], set![i])
            } else {
                state.folder_cells@[h] == o.folder_cells@[h]
            },
        decreases n - g,
    {
        let ghost before = *state;
        let mut fc = state.folder_cells.remove(g);
        if i < fc.entries.len() {
            fc.selected.clear();
            fc.selected.insert(i);
            assert(fc.selected@ =~= set![i]);
        }
        state.folder_cells.insert(g, fc);
        proof {
            assert forall|h: int| 0 <= h < n && h != g implies state.folder_cells@[h] == before.folder_cells@[h] by {}
        }
        g = g + 1;
    }
    proof {
        lemma_folder_replaced(o, *state);
    }
}


/// Thumbnail batches: a batch starting inside the first 200 entries of a
/// folder of `n` covers between one and eight entries, stops at the 200th
/// entry or the folder's end at the latest, and is short of eight entries
/// only when it reaches that end.
pub proof fn lemma_thumbnail_batches(offset: int, n: int)
    requires
        0 <= offset,
        offset < n,
        offset < 200,
    ensures
        1 <= thumb_batch_end(offset, n) - offset <= 8,
        thumb_batch_end(offset, n) <= n,
        thumb_batch_end(offset, n) <= 200,
        thumb_batch_end(offset, n) - offset == 8 || thumb_batch_end(offset, n) == n || thumb_batch_end(offset, n) == 200,
{
}

/// Clicks on entry `i`: a plain click selects `i` alone; Ctrl flips `i` and
/// leaves every other entry as it was; Shift keeps the selection and adds
/// every entry between `i` and the largest selected entry, both included,
/// and nothing else (only `i` when nothing was selected).
pub proof fn lemma_click_selection(sel: Set<usize>, i: usize, ctrl: bool, shift: bool)
    requires
        sel.finite(),
    ensures
        !ctrl && !shift ==> forall|j: usize| #[trigger] clicked_selection(sel, i, ctrl, shift).contains(j) <==> j == i,
        ctrl ==> (clicked_selection(sel, i, ctrl, shift).contains(i) <==> !sel.contains(i)),
        ctrl ==> forall|j: usize| j != i ==> (#[trigger] clicked_selection(sel, i, ctrl, shift).contains(j) <==> sel.contains(j)),
        !ctrl && shift && sel.len() == 0 ==> forall|j: usize| #[trigger] clicked_selection(sel, i, ctrl, shift).contains(j) <==> j == i,
        !ctrl && shift && sel.len() > 0 ==> {
            let last = max_of(sel);
            &&& sel.contains(last)
            &&& forall|x: usize| sel.contains(x) ==> x <= last
            &&& forall|j: usize| #[trigger] clicked_selection(sel, i, ctrl, shift).contains(j) <==> (sel.contains(j)
                || (i <= j <= last) || (last <= j <= i))
        },
{
    if !ctrl && shift && sel.len() > 0 {
        let x = sel.choose();
        assert(sel.contains(x)) by {
            vstd::set::axiom_set_choose_len(sel);
        }
        lemma_max_of(sel);
    }
}

/// A finite non-empty set of indices has a largest member.
proof fn lemma_max_of(sel: Set<usize>)
    requires
        sel.finite(),
        sel.len() > 0,
    ensures
        sel.contains(max_of(sel)),
        forall|x: usize| sel.contains(x) ==> x <= max_of(sel),
    decreases sel.len(),
{
    let x = sel.choose();
    vstd::set::axiom_set_choose_len(sel);
    let rest = sel.remove(x);
    if rest.len() == 0 {
        assert forall|y: usize| sel.contains(y) implies y <= x by {
            if y != x {
                assert(rest.contains(y));
            }
        }
        assert(sel.contains(x) && forall|y: usize| sel.contains(y) ==> y <= x);
    } else {
        lemma_max_of(rest);
        let m = max_of(rest);
        let best = if x > m { x } else { m };
        assert forall|y: usize| sel.contains(y) implies y <= best by {
            if y != x {
                assert(rest.contains(y));
            }
        }
        assert(sel.contains(best) && forall|y: usize| sel.contains(y) ==> y <= best);
    }
}

/// Removing entry `idx` of a folder: selected entries before it keep their
/// index, selected entries after it move down by one, and the removed entry
/// itself is no longer selected.
pub proof fn lemma_removal_shifts_selection(sel: Set<usize>, idx: usize)
    ensures
        forall|t: usize| t < idx ==> (#[trigger] selection_after_removal(sel, idx).contains(t) <==> sel.contains(t)),
        forall|m: usize| idx < m ==> (#[trigger] sel.contains(m) <==> selection_after_removal(sel, idx).contains((m - 1) as usize)),
{
    assert forall|m: usize| idx < m implies (#[trigger] sel.contains(m) <==> selection_after_removal(sel, idx).contains((m - 1) as usize)) by {
        let t = (m - 1) as usize;
        assert(idx <= t < usize::MAX);
        assert((t + 1) as usize == m);
    }
}

} // verus!
