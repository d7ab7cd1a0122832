//! The batch of dropped image files being decoded: one slot per file, filled
//! as results arrive in any order, handed to the grid in drop order once
//! every file has reported.

use vstd::prelude::*;
use crate::state::{remove_path, standalone_image, strings_view, AppState, CellKind, ImageInfo};

verus! {

/// The images present in `buf`, in slot order.
pub open spec fn present<T>(buf: Seq<Option<T>>) -> Seq<T>
    decreases buf.len(),
{
    if buf.len() == 0 {
        Seq::empty()
    } else {
        let rest = present(buf.drop_last());
        match buf.last() {
            Some(x) => rest.push(x),
            None => rest,
        }
    }
}

/// A batch of standalone image loads.
pub struct ImageBatch<Tex> {
    /// A batch is in flight.
    pub active: bool,
    pub total: usize,
    pub received: usize,
    pub slots: Vec<Option<ImageInfo<Tex>>>,
}

impl<Tex> ImageBatch<Tex> {
    /// One slot per file of the batch, and no more reports than files.
    pub open spec fn wf(&self) -> bool {
        &&& self.slots@.len() == self.total
        &&& self.received <= self.total
    }

    /// Files of the batch that have not reported yet.
    pub open spec fn spec_pending(&self) -> nat {
        (self.total - self.received) as nat
    }

    /// No batch in flight.
    pub fn new() -> (b: Self)
        ensures
            b.wf(),
            !b.active,
            b.total == 0,
            b.received == 0,
    {
        ImageBatch { active: false, total: 0, received: 0, slots: Vec::new() }
    }

    /// Files of the batch that have not reported yet.
    pub fn pending(&self) -> (n: usize)
        requires
            self.wf(),
        ensures
            n == self.spec_pending(),
    {
        self.total - self.received
    }

    /// Starts a batch of `n` files with empty slots; the load errors of the
    /// previous batch are forgotten.
    pub fn start<Sel, Pan, Scroll>(&mut self, state: &mut AppState<Tex, Sel, Pan, Scroll>, n: usize)
        ensures
            final(self).wf(),
            final(self).active,
            final(self).total == n,
            final(self).received == 0,
            final(self).slots@ == Seq::new(n as nat, |k: int| None::<ImageInfo<Tex>>),
            final(state).load_errors@.len() == 0,
            final(state).image_cells == old(state).image_cells,
            final(state).folder_cells == old(state).folder_cells,
            final(state).cell_order == old(state).cell_order,
            final(state).pan_offset == old(state).pan_offset,
            final(state).loaded_paths == old(state).loaded_paths,
            final(state).local_mode == old(state).local_mode,
            final(state).show_exif == old(state).show_exif,
            final(state).show_histogram == old(state).show_histogram,
            final(state).reorder_src == old(state).reorder_src,
            final(state).pending_remove == old(state).pending_remove,
    {
        let mut slots: Vec<Option<ImageInfo<Tex>>> = Vec::new();
        let mut k: usize = 0;
        while k < n
            invariant
                k <= n,
                slots@ == Seq::new(k as nat, |j: int| None::<ImageInfo<Tex>>),
            decreases n - k,
        {
            slots.push(None);
            k = k + 1;
            proof {
                assert(slots@ =~= Seq::new(k as nat, |j: int| None::<ImageInfo<Tex>>));
            }
        }
        self.active = true;
        self.total = n;
        self.received = 0;
        self.slots = slots;
        state.load_errors = Vec::new();
    }

    /// Records the outcome for file `i`: a decoded image goes to its slot; a
    /// failed path leaves the loaded paths, so that dropping it again retries
    /// it, and joins the load errors.
    pub fn receive<Sel, Pan, Scroll>(
        &mut self,
        state: &mut AppState<Tex, Sel, Pan, Scroll>,
        i: usize,
        result: Result<ImageInfo<Tex>, String>,
    )
        requires
            old(self).wf(),
            i < old(self).slots@.len(),
            old(self).received < old(self).total,
        ensures
            final(self).wf(),
            final(self).active == old(self).active,
            final(self).total == old(self).total,
            final(self).received == old(self).received + 1,
            old(state).wf() ==> final(state).wf(),
            final(state).image_cells == old(state).image_cells,
            final(state).folder_cells == old(state).folder_cells,
            final(state).cell_order == old(state).cell_order,
            final(state).pan_offset == old(state).pan_offset,
            final(state).local_mode == old(state).local_mode,
            final(state).show_exif == old(state).show_exif,
            final(state).show_histogram == old(state).show_histogram,
            final(state).reorder_src == old(state).reorder_src,
            final(state).pending_remove == old(state).pending_remove,
            match result {
                Ok(info) => {
                    &&& final(self).slots@ == old(self).slots@.update(i as int, Some(info))
                    &&& final(state).loaded_paths == old(state).loaded_paths
                    &&& final(state).load_errors == old(state).load_errors
                },
                Err(path) => {
                    &&& final(self).slots@ == old(self).slots@
                    &&& strings_view(final(state).loaded_paths@) == strings_view(old(state).loaded_paths@).filter(
                        |q: Seq<char>| q != path@,
                    )
                    &&& final(state).load_errors@ == old(state).load_errors@.push(path)
                },
            },
    {
        match result {
            Ok(info) => {
                self.slots.set(i, Some(info));
            },
            Err(path) => {
                remove_path(&mut state.loaded_paths, &path);
                state.load_errors.push(path);
            },
        }
        self.received = self.received + 1;
        proof {
            assert forall|g: int| #[trigger] state.has_open_image(g) == old(state).has_open_image(g) by {}
            assert forall|g: int| #[trigger] state.folder_visible(g) == old(state).folder_visible(g) by {}
        }
    }

    /// Once every file of the batch in flight has reported, appends the
    /// decoded images to the grid as standalone images, in slot order, and
    /// ends the batch. Returns whether it did; otherwise nothing changes.
    pub fn finish<Sel, Pan, Scroll>(&mut self, state: &mut AppState<Tex, Sel, Pan, Scroll>) -> (done: bool)
        requires
            old(self).wf(),
            old(state).indices_wf(),
        ensures
            final(self).wf(),
            final(state).indices_wf(),
            old(state).wf() ==> final(state).wf(),
            done == (old(self).active && old(self).received >= old(self).total),
            !done ==> *final(self) == *old(self) && *final(state) == *old(state),
            done ==> {
                let infos = present(old(self).slots@);
                &&& !final(self).active
                &&& final(self).total == 0
                &&& final(self).received == 0
                &&& final(state).image_cells@ == old(state).image_cells@ + infos.map_values(
                    |info: ImageInfo<Tex>| standalone_image::<Tex, Sel>(info),
                )
                &&& final(state).cell_order@ == old(state).cell_order@ + Seq::new(
                    infos.len(),
                    |k: int| CellKind::Image((old(state).image_cells@.len() + k) as usize),
                )
                &&& final(state).pan_offset@ == old(state).pan_offset@ + Seq::new(
                    infos.len(),
                    |k: int| None::<Pan>,
                )
                &&& final(state).folder_cells@ == old(state).folder_cells@
                &&& final(state).same_extras(old(state))
                &&& final(state).cell_order@.len() <= old(state).cell_order@.len() + old(self).total
            },
    {
        if !self.active || self.received < self.total {
            return false;
        }
        let mut slots: Vec<Option<ImageInfo<Tex>>> = Vec::new();
        std::mem::swap(&mut slots, &mut self.slots);
        let ghost all = slots@;
        let mut infos: Vec<ImageInfo<Tex>> = Vec::new();
        let mut rest = slots;
        // Taken from the back, so the kept images are reversed once more below.
        while rest.len() > 0
            invariant
                rest@.len() <= all.len(),
                rest@ == all.take(rest@.len() as int),
                infos@ == present(all.skip(rest@.len() as int)).reverse(),
            decreases rest@.len(),
        {
            let ghost before = rest@;
            let slot = rest.pop().unwrap();
            proof {
                let m = before.len() as int;
                lemma_present_cons(all.skip(m - 1));
                assert(all.skip(m - 1).drop_first() =~= all.skip(m));
                assert(all.skip(m - 1)[0] == all[m - 1]);
                assert(rest@ =~= all.take(m - 1));
            }
            match slot {
                Some(info) => {
                    infos.push(info);
                    proof {
                        let m = before.len() as int;
                        assert(present(all.skip(m - 1)).reverse() =~= present(all.skip(m)).reverse().push(all[m - 1]->Some_0));
                    }
                },
                None => {},
            }
        }
        proof {
            assert(all.skip(0) =~= all);
        }
        let mut ordered: Vec<ImageInfo<Tex>> = Vec::new();
        while infos.len() > 0
            invariant
                ordered@ + infos@.reverse() == present(all),
            decreases infos@.len(),
        {
            let ghost before = infos@;
            let info = infos.pop().unwrap();
            proof {
                assert(before.reverse() =~= seq![info] + infos@.reverse());
                assert(ordered@.push(info) + infos@.reverse() =~= ordered@ + before.reverse());
            }
            ordered.push(info);
        }
        proof {
            assert(ordered@ =~= present(all));
            lemma_present_len(all);
        }
        state.append_standalone_images(ordered);
        self.active = false;
        self.total = 0;
        self.received = 0;
        true
    }
}

/// There are no more images than slots.
pub proof fn lemma_present_len<T>(buf: Seq<Option<T>>)
    ensures
        present(buf).len() <= buf.len(),
    decreases buf.len(),
{
    if buf.len() > 0 {
        lemma_present_len(buf.drop_last());
    }
}

/// `present` read from the front: the first slot, if full, comes first.
pub proof fn lemma_present_cons<T>(buf: Seq<Option<T>>)
    requires
        buf.len() > 0,
    ensures
        present(buf) == match buf[0] {
            Some(x) => seq![x] + present(buf.drop_first()),
            None => present(buf.drop_first()),
        },
    decreases buf.len(),
{
    if buf.len() == 1 {
        assert(buf.drop_last() =~= Seq::<Option<T>>::empty());
        assert(buf.drop_first() =~= Seq::<Option<T>>::empty());
        assert(present(buf.drop_first()) =~= Seq::<T>::empty());
        match buf[0] {
            Some(x) => {
                assert(present(buf) =~= seq![x]);
            },
            None => {},
        }
    } else {
        lemma_present_cons(buf.drop_last());
        assert(buf.drop_last().drop_first() =~= buf.drop_first().drop_last());
        assert(buf.drop_last()[0] == buf[0]);
        assert(buf.drop_first().last() == buf.last());
        match buf[0] {
            Some(x) => {
                match buf.last() {
                    Some(y) => {
                        assert(present(buf) =~= seq![x] + present(buf.drop_first()));
                    },
                    None => {},
                }
            },
            None => {},
        }
    }
}

} // verus!
