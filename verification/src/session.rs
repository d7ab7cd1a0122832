//! The viewer's decisions around the grid: which dropped paths are taken and
//! as what, how cells are split into rows, the window title, keyboard
//! commands, and removals requested while drawing.

use vstd::prelude::*;
use crate::state::{AppState, CellKind, ImageInfo, ImageSource, MAX_IMAGES};
use crate::folders::{FolderManager, LoadRequest, first_folder, selection_in_range};
use crate::pixels::{rotate_rgba_90_cw, compute_y_histogram, rotation_of, luma_count, pixel_count};
use crate::paths::{
    follows_dot, insertion_point, is_image_ext, is_image_extension_spec, is_image_path, keyed, keys_of,
    lemma_insertion_point, lemma_sorted_by_key_ascending, name_keys, plain_path, sort_name, sort_paths,
    sorted_by_key, strings_of, values_of,
};

verus! {

/// The cells of each grid row, top to bottom: up to four cells share one
/// row; more are split over two rows, the upper one taking the odd cell.
pub open spec fn rows_for(n: nat) -> Seq<nat> {
    if 1 <= n <= 4 {
        seq![n]
    } else {
        seq![((n + 1) / 2) as nat, (n / 2) as nat]
    }
}

/// How `n` grid cells are split into rows.
pub fn row_layout(n: usize) -> (rows: Vec<usize>)
    ensures
        rows@.len() == rows_for(n as nat).len(),
        forall|i: int| 0 <= i < rows@.len() ==> rows@[i] == #[trigger] rows_for(n as nat)[i],
        1 <= n <= 4 ==> rows@ == seq![n],
        n >= 5 ==> rows@.len() == 2 && rows@[0] + rows@[1] == n && rows@[1] <= rows@[0] <= rows@[1] + 1,
{
    let mut rows: Vec<usize> = Vec::new();
    if 1 <= n && n <= 4 {
        rows.push(n);
    } else {
        rows.push(n / 2 + n % 2);
        rows.push(n / 2);
    }
    rows
}

/// One to four cells share a single row holding all of them; five or more
/// are split over two rows.
pub proof fn lemma_few_cells_one_row(n: nat)
    ensures
        1 <= n <= 4 ==> rows_for(n) == seq![n],
        n >= 5 ==> rows_for(n).len() == 2,
{
}

/// The rows hold every cell: their sizes add up to `n`.
pub proof fn lemma_rows_cover_cells(n: nat)
    ensures
        rows_for(n).len() == 1 ==> rows_for(n)[0] == n,
        rows_for(n).len() == 2 ==> rows_for(n)[0] + rows_for(n)[1] == n,
        1 <= rows_for(n).len() <= 2,
{
}

/// Two rows differ by at most one cell, the upper row never the shorter, and
/// on a full grid no row holds more than four cells.
pub proof fn lemma_rows_balanced(n: nat)
    ensures
        rows_for(n).len() == 2 ==> rows_for(n)[1] <= rows_for(n)[0] <= rows_for(n)[1] + 1,
        n <= MAX_IMAGES ==> forall|i: int| 0 <= i < rows_for(n).len() ==> #[trigger] rows_for(n)[i] <= 4,
{
}

/// The window title: the application name, then the letters of the active
/// display modes (E: EXIF, H: histogram, P: local mode) after a dash.
pub open spec fn title_text(show_exif: bool, show_histogram: bool, local_mode: bool) -> Seq<char> {
    let flags = (if show_exif { seq!['E'] } else { Seq::<char>::empty() })
        + (if show_histogram { seq!['H'] } else { Seq::<char>::empty() })
        + (if local_mode { seq!['P'] } else { Seq::<char>::empty() });
    if flags.len() == 0 {
        app_name()
    } else {
        app_name() + seq![' ', '-', ' '] + flags
    }
}

/// The window title names the application alone when no display mode is on;
/// otherwise it is the name, a dash, and one letter per active mode, `E`
/// for EXIF, `H` for the histogram and `P` for local mode, in that order.
pub proof fn lemma_title_lists_active_modes(show_exif: bool, show_histogram: bool, local_mode: bool)
    ensures
        !show_exif && !show_histogram && !local_mode ==> title_text(show_exif, show_histogram, local_mode) == app_name(),
        show_exif || show_histogram || local_mode ==> {
            let t = title_text(show_exif, show_histogram, local_mode);
            let flags = t.subrange(app_name().len() as int + 3, t.len() as int);
            &&& t.subrange(0, app_name().len() as int) == app_name()
            &&& t.subrange(app_name().len() as int, app_name().len() as int + 3) == seq![' ', '-', ' ']
            &&& flags.len() == (if show_exif { 1int } else { 0 }) + (if show_histogram { 1int } else { 0 }) + (if local_mode { 1int } else { 0 })
            &&& (flags.contains('E') <==> show_exif)
            &&& (flags.contains('H') <==> show_histogram)
            &&& (flags.contains('P') <==> local_mode)
            &&& show_exif ==> flags[0] == 'E'
            &&& local_mode ==> flags.last() == 'P'
        },
{
    if show_exif || show_histogram || local_mode {
        let t = title_text(show_exif, show_histogram, local_mode);
        let flags = (if show_exif { seq!['E'] } else { Seq::<char>::empty() })
            + (if show_histogram { seq!['H'] } else { Seq::<char>::empty() })
            + (if local_mode { seq!['P'] } else { Seq::<char>::empty() });
        assert(t.subrange(app_name().len() as int + 3, t.len() as int) =~= flags);
        assert(t.subrange(0, app_name().len() as int) =~= app_name());
        assert(t.subrange(app_name().len() as int, app_name().len() as int + 3) =~= seq![' ', '-', ' ']);
        if flags.contains('E') {
            let k = choose|k: int| 0 <= k < flags.len() && flags[k] == 'E';
        }
        if flags.contains('H') {
            let k = choose|k: int| 0 <= k < flags.len() && flags[k] == 'H';
        }
        if flags.contains('P') {
            let k = choose|k: int| 0 <= k < flags.len() && flags[k] == 'P';
        }
        if show_exif {
            assert(flags[0] == 'E');
        }
        if show_histogram {
            assert(flags[if show_exif { 1int } else { 0 }] == 'H');
        }
        if local_mode {
            assert(flags[flags.len() - 1] == 'P');
        }
    }
}

/// The application name.
pub open spec fn app_name() -> Seq<char> {
    seq!['M', 'M', 'C', 'o', 'm', 'p', 'a', 'r', 'e']
}

/// The window title for the given display modes.
pub fn window_title(show_exif: bool, show_histogram: bool, local_mode: bool) -> (r: String)
    ensures
        r@ == title_text(show_exif, show_histogram, local_mode),
{
    let mut title = String::from_str("MMCompare");
    proof {
        reveal_strlit("MMCompare");
        reveal_strlit(" - ");
        reveal_strlit("E");
        reveal_strlit("H");
        reveal_strlit("P");
    }
    assert(title@ =~= app_name());
    if show_exif || show_histogram || local_mode {
        title.append(" - ");
        if show_exif {
            title.append("E");
        }
        if show_histogram {
            title.append("H");
        }
        if local_mode {
            title.append("P");
        }
        assert(title@ =~= title_text(show_exif, show_histogram, local_mode));
    } else {
        assert(title@ =~= title_text(show_exif, show_histogram, local_mode));
    }
    title
}

/// How many more paths a drop may add: the free grid cells less the images
/// already being loaded.
pub open spec fn drop_room(cells: int, loading: int) -> int {
    let free = if cells < MAX_IMAGES { MAX_IMAGES - cells } else { 0 };
    if free > loading { free - loading } else { 0 }
}

/// A drop may add as many paths as keep the grid's cells plus the images
/// being loaded within the eight-image limit, and none once that is reached.
pub proof fn lemma_drop_room_fills_the_grid(cells: int, loading: int)
    requires
        0 <= cells,
        0 <= loading,
    ensures
        drop_room(cells, loading) >= 0,
        cells + loading <= 8 ==> cells + loading + drop_room(cells, loading) == 8,
        cells + loading >= 8 ==> drop_room(cells, loading) == 0,
{
}

/// `strings` holds `s`.
pub open spec fn holds(strings: Seq<Seq<char>>, s: Seq<char>) -> bool {
    strings.contains(s)
}

/// The folders of a drop: its directories that are not shown as folder cells
/// yet, each once, in drop order.
pub open spec fn dropped_folders(paths: Seq<(Seq<char>, bool)>, shown: Seq<Seq<char>>) -> Seq<Seq<char>>
    decreases paths.len(),
{
    if paths.len() == 0 {
        Seq::empty()
    } else {
        let rest = dropped_folders(paths.drop_last(), shown);
        let p = paths.last();
        if p.1 && !holds(shown, p.0) && !holds(rest, p.0) { rest.push(p.0) } else { rest }
    }
}

/// The image files of a drop before ordering: its non-directories that
/// `image[i]` marks as images and that are not loaded yet, each once, in drop
/// order.
pub open spec fn dropped_files(paths: Seq<(Seq<char>, bool)>, image: Seq<bool>, loaded: Seq<Seq<char>>) -> Seq<Seq<char>>
    decreases paths.len(),
{
    if paths.len() == 0 {
        Seq::empty()
    } else {
        let rest = dropped_files(paths.drop_last(), image, loaded);
        let i = paths.len() - 1;
        let p = paths.last();
        if !p.1 && image[i] && !holds(loaded, p.0) && !holds(rest, p.0) { rest.push(p.0) } else { rest }
    }
}

/// The first `k` of `s`, or all of `s` when it is shorter.
pub open spec fn first_n<T>(s: Seq<T>, k: int) -> Seq<T> {
    if 0 <= k < s.len() { s.take(k) } else { s }
}

/// `b` is what the image test gives for path `p`: for a plain path exactly
/// whether its extension names an image format; for any path, true only
/// when an image extension follows a dot.
pub open spec fn image_flag(p: Seq<char>, b: bool) -> bool {
    &&& b ==> exists|e: Seq<char>| #[trigger] follows_dot(e, p) && !e.contains('.') && is_image_extension_spec(e)
    &&& !p.contains('.') ==> !b
    &&& plain_path(p) ==> (b == is_image_path(p))
}

/// `image` holds the image test of every dropped path that is not a directory.
pub open spec fn image_flags_ok(paths: Seq<(Seq<char>, bool)>, image: Seq<bool>) -> bool {
    &&& image.len() == paths.len()
    &&& forall|i: int| 0 <= i < paths.len() && !paths[i].1 ==> image_flag(paths[i].0, #[trigger] image[i])
}

/// True when `strings` holds a string equal to `s`.
pub fn holds_string(strings: &Vec<String>, s: &String) -> (r: bool)
    ensures
        r == holds(strings_of(strings@), s@),
{
    let mut i: usize = 0;
    while i < strings.len()
        invariant
            i <= strings@.len(),
            forall|j: int| 0 <= j < i ==> strings@[j]@ != s@,
        decreases strings@.len() - i,
    {
        if strings[i] == *s {
            assert(strings_of(strings@)[i as int] == s@);
            return true;
        }
        i = i + 1;
    }
    proof {
        if holds(strings_of(strings@), s@) {
            let j = choose|j: int| 0 <= j < strings_of(strings@).len() && strings_of(strings@)[j] == s@;
            assert(strings@[j]@ == s@);
        }
    }
    false
}

/// Sorts dropped paths into image files to load and folders to scan, and
/// marks the files as loaded so that a later drop does not queue them again.
/// Files are the dropped image paths not loaded yet, each taken once, sorted
/// by file name, then cut to the room the grid has beyond the images being
/// loaded (`loading`). Folders are the dropped directories not on the grid
/// yet, each taken once, in drop order, cut to the room the files leave, so
/// that files and folders together never pass it. `is_dir` tells for each
/// path whether it names a directory.
pub fn classify_paths<Tex, Sel, Pan, Scroll>(
    state: &mut AppState<Tex, Sel, Pan, Scroll>,
    paths: Vec<(String, bool)>,
    loading: usize,
) -> (r: (Vec<String>, Vec<String>))
    ensures
        final(state).image_cells@ == old(state).image_cells@,
        final(state).folder_cells@ == old(state).folder_cells@,
        final(state).cell_order@ == old(state).cell_order@,
        final(state).pan_offset@ == old(state).pan_offset@,
        final(state).load_errors@ == old(state).load_errors@,
        final(state).local_mode == old(state).local_mode,
        final(state).show_exif == old(state).show_exif,
        final(state).show_histogram == old(state).show_histogram,
        final(state).reorder_src == old(state).reorder_src,
        final(state).pending_remove@ == old(state).pending_remove@,
        strings_of(r.1@) == first_n(
            dropped_folders(pair_views(paths@), folder_dirs(*old(state))),
            drop_room(old(state).cell_order@.len() as int, loading as int) - r.0@.len(),
        ),
        r.0@.len() + r.1@.len() <= drop_room(old(state).cell_order@.len() as int, loading as int),
        r.0@.len() + r.1@.len() == 0
            || old(state).cell_order@.len() + loading + r.0@.len() + r.1@.len() <= MAX_IMAGES,
        exists|image: Seq<bool>, names: Seq<Seq<char>>|
            #![trigger image_flags_ok(pair_views(paths@), image), name_keys(names)]
        {
            let files = dropped_files(pair_views(paths@), image, strings_of(old(state).loaded_paths@));
            &&& image_flags_ok(pair_views(paths@), image)
            &&& names.len() == files.len()
            &&& forall|j: int| 0 <= j < names.len() ==> sort_name(#[trigger] names[j], files[j])
            &&& strings_of(r.0@) == first_n(
                values_of(sorted_by_key(keyed(name_keys(names), files))),
                drop_room(old(state).cell_order@.len() as int, loading as int),
            )
        },
        strings_of(final(state).loaded_paths@) == strings_of(old(state).loaded_paths@) + strings_of(r.0@),
        strings_of(r.0@).no_duplicates(),
        strings_of(r.1@).no_duplicates(),
        forall|j: int| 0 <= j < r.0@.len() ==> !holds(strings_of(old(state).loaded_paths@), #[trigger] r.0@[j]@),
        old(state).wf() ==> final(state).wf(),
{
    let order_len = state.cell_order.len();
    let free: usize = if order_len < MAX_IMAGES { MAX_IMAGES - order_len } else { 0 };
    let room: usize = if free > loading { free - loading } else { 0 };
    let ghost all = pair_views(paths@);
    let ghost shown = folder_dirs(*state);
    let ghost loaded0 = strings_of(state.loaded_paths@);
    let n = paths.len();
    let mut files: Vec<String> = Vec::new();
    let mut folders: Vec<String> = Vec::new();
    let ghost mut image: Seq<bool> = Seq::empty();
    let mut rest = paths;
    let mut i: usize = 0;
    while i < n
        invariant
            n == all.len(),
            i <= n,
            pair_views(rest@) == all.skip(i as int),
            image.len() == i,
            image_flags_ok(all.take(i as int), image),
            shown == folder_dirs(*state),
            loaded0 == strings_of(state.loaded_paths@),
            strings_of(folders@) == dropped_folders(all.take(i as int), shown),
            strings_of(files@) == dropped_files(all.take(i as int), image, loaded0),
            strings_of(files@).no_duplicates(),
            strings_of(folders@).no_duplicates(),
            forall|j: int| 0 <= j < files@.len() ==> !holds(loaded0, #[trigger] files@[j]@),
        decreases n - i,
    {
        assert(pair_views(rest@).len() == rest@.len());
        assert(pair_views(rest@)[0] == (rest@[0].0@, rest@[0].1));
        let ghost rest0 = rest@;
        let (p, is_dir) = rest.remove(0);
        proof {
            assert(all.skip(i as int)[0] == all[i as int]);
            assert((p@, is_dir) == all[i as int]);
            assert(pair_views(rest@) =~= all.skip(i + 1)) by {
                assert(rest@ == rest0.drop_first());
                assert forall|j: int| 0 <= j < rest@.len() implies pair_views(rest@)[j] == all.skip(i + 1)[j] by {
                    assert(rest@[j] == rest0[j + 1]);
                    assert(pair_views(rest0)[j + 1] == all.skip(i as int)[j + 1]);
                }
            }
            assert(all.take(i + 1).drop_last() =~= all.take(i as int));
        }
        let ghost files0 = files@;
        let ghost folders0 = folders@;
        let mut flag = false;
        if is_dir {
            if !holds_folder(state, &p) && !holds_string(&folders, &p) {
                folders.push(p);
            }
        } else {
            flag = is_image_ext(p.as_str());
            if flag && !holds_string(&state.loaded_paths, &p) && !holds_string(&files, &p) {
                files.push(p);
            }
        }
        proof {
            let old_image = image;
            image = image.push(flag);
            let t = all.take(i + 1);
            assert(t.drop_last() =~= all.take(i as int));
            assert(t.last() == all[i as int]);
            assert(dropped_files(all.take(i as int), image, loaded0)
                == dropped_files(all.take(i as int), old_image, loaded0)) by {
                lemma_dropped_files_prefix_flags(all.take(i as int), old_image, image, loaded0);
            }
            assert(image_flags_ok(t, image)) by {
                assert forall|j: int| 0 <= j < t.len() && !t[j].1 implies image_flag(t[j].0, #[trigger] image[j]) by {
                    if j < i {
                        assert(all.take(i as int)[j] == t[j]);
                        assert(image[j] == old_image[j]);
                    } else {
                        assert(t[j] == all[i as int]);
                    }
                }
            }
            assert(strings_of(folders@) =~= dropped_folders(t, shown));
            assert(strings_of(files@) =~= dropped_files(t, image, loaded0));
            lemma_push_keeps_distinct(strings_of(files0), p@);
            lemma_push_keeps_distinct(strings_of(folders0), p@);
            assert forall|j: int| 0 <= j < files@.len() implies !holds(loaded0, #[trigger] files@[j]@) by {
                if j < files0.len() {
                    assert(files@[j] == files0[j]);
                }
            }
        }
        i = i + 1;
    }
    proof {
        assert(all.take(n as int) =~= all);
    }
    let ghost unsorted = strings_of(files@);
    let ghost unsorted_files = files@;
    sort_paths(&mut files);
    let ghost names = choose|names: Seq<Seq<char>>|
        names.len() == unsorted_files.len()
            && (forall|i: int| 0 <= i < names.len() ==> sort_name(#[trigger] names[i], unsorted_files[i]@))
            && strings_of(files@) == values_of(sorted_by_key(keyed(name_keys(names), strings_of(unsorted_files))));
    assert(strings_of(unsorted_files) == unsorted);
    let ghost items = keyed(name_keys(names), unsorted);
    proof {
        assert(values_of(items) =~= unsorted);
        lemma_sorted_values(items);
    }
    let ghost sorted_all = strings_of(files@);
    files.truncate(room);
    let left: usize = room - files.len();
    folders.truncate(left);
    proof {
        assert(strings_of(files@) =~= first_n(sorted_all, room as int));
        let fs = dropped_folders(all, shown);
        assert(strings_of(folders@) =~= first_n(fs, left as int));
        assert(strings_of(files@).no_duplicates()) by {
            assert forall|a: int, b: int| 0 <= a < b < strings_of(files@).len()
                implies strings_of(files@)[a] != strings_of(files@)[b] by {
                assert(strings_of(files@)[a] == sorted_all[a] && strings_of(files@)[b] == sorted_all[b]);
            }
        }
        assert(strings_of(folders@).no_duplicates()) by {
            assert forall|a: int, b: int| 0 <= a < b < strings_of(folders@).len()
                implies strings_of(folders@)[a] != strings_of(folders@)[b] by {
                assert(strings_of(folders@)[a] == fs[a] && strings_of(folders@)[b] == fs[b]);
            }
        }
        assert(sorted_all == values_of(sorted_by_key(items)));
        assert forall|j: int| 0 <= j < files@.len() implies !holds(loaded0, #[trigger] files@[j]@) by {
            assert(files@[j]@ == sorted_all[j]);
            assert(values_of(sorted_by_key(items)).contains(sorted_all[j]));
            assert(unsorted.contains(sorted_all[j]));
            let k = choose|k: int| 0 <= k < unsorted.len() && unsorted[k] == sorted_all[j];
            assert(unsorted_files[k]@ == unsorted[k]);
        }
    }
    let mut k: usize = 0;
    while k < files.len()
        invariant
            k <= files@.len(),
            strings_of(state.loaded_paths@) == loaded0 + strings_of(files@).take(k as int),
            state.image_cells@ == old(state).image_cells@,
            state.folder_cells@ == old(state).folder_cells@,
            state.cell_order@ == old(state).cell_order@,
            state.pan_offset@ == old(state).pan_offset@,
            state.load_errors@ == old(state).load_errors@,
            state.local_mode == old(state).local_mode,
            state.show_exif == old(state).show_exif,
            state.show_histogram == old(state).show_histogram,
            state.reorder_src == old(state).reorder_src,
            state.pending_remove@ == old(state).pending_remove@,
        decreases files@.len() - k,
    {
        let ghost before = state.loaded_paths@;
        state.loaded_paths.push(files[k].clone());
        proof {
            assert(strings_of(files@).take(k + 1) =~= strings_of(files@).take(k as int).push(files@[k as int]@));
            assert(strings_of(state.loaded_paths@) =~= strings_of(before).push(files@[k as int]@));
        }
        assert(strings_of(state.loaded_paths@) =~= loaded0 + strings_of(files@).take(k + 1));
        k = k + 1;
    }
    proof {
        assert(strings_of(files@).take(files@.len() as int) =~= strings_of(files@));
        let fs = dropped_files(all, image, loaded0);
        assert(unsorted == fs);
        assert forall|j: int| 0 <= j < names.len() implies sort_name(#[trigger] names[j], fs[j]) by {
            assert(fs[j] == unsorted_files[j]@);
        }
        assert(image_flags_ok(pair_views(paths@), image));
        assert(name_keys(names) == name_keys(names));
        let before = strings_of(old(state).loaded_paths@);
        let added = strings_of(files@);
        assert(crate::state::strings_view(old(state).loaded_paths@) =~= before);
        assert(crate::state::strings_view(state.loaded_paths@) =~= strings_of(state.loaded_paths@));
        if old(state).wf() {
            assert forall|a: int, b: int| 0 <= a < before.len() && 0 <= b < added.len() implies before[a] != added[b] by {
                assert(added[b] == files@[b]@);
                assert(!holds(before, files@[b]@));
            }
            vstd::seq_lib::lemma_no_dup_in_concat(before, added);
            assert forall|g: int| #[trigger] state.has_open_image(g) == old(state).has_open_image(g) by {}
            assert forall|g: int| #[trigger] state.folder_visible(g) == old(state).folder_visible(g) by {}
        }
    }
    (files, folders)
}

/// Appending a string the sequence does not hold keeps it free of repeats;
/// a sequence that already held it is left alone by the callers.
proof fn lemma_push_keeps_distinct(s: Seq<Seq<char>>, x: Seq<char>)
    ensures
        s.no_duplicates() && !holds(s, x) ==> s.push(x).no_duplicates(),
{
    if s.no_duplicates() && !holds(s, x) {
        assert forall|a: int, b: int| 0 <= a < b < s.push(x).len() implies s.push(x)[a] != s.push(x)[b] by {
            if b == s.len() {
                assert(s.push(x)[a] == s[a]);
            }
        }
    }
}

/// Sorting keyed items keeps exactly the values they had, and keeps them
/// free of repeats.
pub proof fn lemma_sorted_values(items: Seq<(Seq<char>, Seq<char>)>)
    ensures
        forall|v: Seq<char>| values_of(sorted_by_key(items)).contains(v) <==> values_of(items).contains(v),
        values_of(items).no_duplicates() ==> values_of(sorted_by_key(items)).no_duplicates(),
        values_of(sorted_by_key(items)).len() == items.len(),
    decreases items.len(),
{
    if items.len() == 0 {
        assert(values_of(sorted_by_key(items)) =~= Seq::<Seq<char>>::empty());
    } else {
        let front = items.drop_last();
        let rest = sorted_by_key(front);
        let x = items.last();
        lemma_sorted_values(front);
        lemma_insertion_point(keys_of(rest), x.0);
        lemma_sorted_by_key_ascending(front);
        let p = insertion_point(keys_of(rest), x.0);
        assert(keys_of(rest).len() == rest.len());
        let out = rest.insert(p, x);
        assert(sorted_by_key(items) == out);
        let vr = values_of(rest);
        assert(values_of(out) =~= vr.insert(p, x.1));
        assert(values_of(items) =~= values_of(front).push(x.1));
        let vf = values_of(front);
        let vi = values_of(items);
        let vo = values_of(out);
        assert forall|v: Seq<char>| vo.contains(v) <==> vi.contains(v) by {
            if vo.contains(v) {
                let k = choose|k: int| 0 <= k < vo.len() && vo[k] == v;
                if v != x.1 {
                    if k < p {
                        assert(vr[k] == v);
                    } else if k == p {
                        assert(vo[p] == x.1);
                    } else {
                        assert(vr[k - 1] == v);
                    }
                    assert(vr.contains(v));
                    assert(vf.contains(v));
                    let m = choose|m: int| 0 <= m < vf.len() && vf[m] == v;
                    assert(vi[m] == vf[m]);
                    assert(vi.contains(v));
                } else {
                    assert(vi[front.len() as int] == x.1);
                    assert(vi.contains(v));
                }
            }
            if vi.contains(v) {
                let k = choose|k: int| 0 <= k < vi.len() && vi[k] == v;
                if k == front.len() {
                    assert(vo[p] == v);
                } else {
                    assert(vf[k] == v);
                    assert(vf.contains(v));
                    assert(vr.contains(v));
                    let m = choose|m: int| 0 <= m < vr.len() && vr[m] == v;
                    if m < p {
                        assert(vo[m] == v);
                    } else {
                        assert(vo[m + 1] == v);
                    }
                }
                assert(vo.contains(v));
            }
        }
        if values_of(items).no_duplicates() {
            assert(values_of(front).no_duplicates()) by {
                assert forall|a: int, b: int| 0 <= a < b < values_of(front).len()
                    implies values_of(front)[a] != values_of(front)[b] by {
                    assert(values_of(items)[a] == values_of(front)[a] && values_of(items)[b] == values_of(front)[b]);
                }
            }
            assert(!vr.contains(x.1)) by {
                if vr.contains(x.1) {
                    assert(values_of(front).contains(x.1));
                    let m = choose|m: int| 0 <= m < values_of(front).len() && values_of(front)[m] == x.1;
                    assert(values_of(items)[m] == values_of(items)[front.len() as int]);
                }
            }
            assert forall|a: int, b: int| 0 <= a < b < values_of(out).len() implies values_of(out)[a] != values_of(out)[b] by {
                if a == p {
                    assert(vr[b - 1] == values_of(out)[b]);
                } else if b == p {
                    assert(vr[a] == values_of(out)[a]);
                } else {
                    let a2 = if a < p { a } else { a - 1 };
                    let b2 = if b < p { b } else { b - 1 };
                    assert(vr[a2] == values_of(out)[a]);
                    assert(vr[b2] == values_of(out)[b]);
                }
            }
        }
    }
}

/// Changing the image flags past the end of the paths changes nothing.
proof fn lemma_dropped_files_prefix_flags(
    paths: Seq<(Seq<char>, bool)>,
    a: Seq<bool>,
    b: Seq<bool>,
    loaded: Seq<Seq<char>>,
)
    requires
        a.len() >= paths.len(),
        b.len() >= paths.len(),
        forall|j: int| 0 <= j < paths.len() ==> a[j] == b[j],
    ensures
        dropped_files(paths, a, loaded) == dropped_files(paths, b, loaded),
    decreases paths.len(),
{
    if paths.len() > 0 {
        lemma_dropped_files_prefix_flags(paths.drop_last(), a, b, loaded);
    }
}

/// Paths paired with their directory flags, by view.
pub open spec fn pair_views(v: Seq<(String, bool)>) -> Seq<(Seq<char>, bool)> {
    v.map_values(|p: (String, bool)| (p.0@, p.1))
}

/// The directories of the folder cells.
pub open spec fn folder_dirs<Tex, Sel, Pan, Scroll>(s: AppState<Tex, Sel, Pan, Scroll>) -> Seq<Seq<char>> {
    s.folder_cells@.map_values(|fc: crate::state::FolderCell<Tex, Scroll>| fc.dir_path@)
}

/// True when some folder cell shows directory `dir`.
fn holds_folder<Tex, Sel, Pan, Scroll>(state: &AppState<Tex, Sel, Pan, Scroll>, dir: &String) -> (r: bool)
    ensures
        r == holds(folder_dirs(*state), dir@),
{
    let mut i: usize = 0;
    while i < state.folder_cells.len()
        invariant
            i <= state.folder_cells@.len(),
            forall|j: int| 0 <= j < i ==> state.folder_cells@[j].dir_path@ != dir@,
        decreases state.folder_cells@.len() - i,
    {
        if state.folder_cells[i].dir_path == *dir {
            assert(folder_dirs(*state)[i as int] == dir@);
            return true;
        }
        i = i + 1;
    }
    proof {
        if holds(folder_dirs(*state), dir@) {
            let j = choose|j: int| 0 <= j < folder_dirs(*state).len() && folder_dirs(*state)[j] == dir@;
            assert(state.folder_cells@[j].dir_path@ == dir@);
        }
    }
    false
}

/// `v` never increases along the sequence.
pub open spec fn descending(v: Seq<usize>) -> bool {
    forall|i: int, j: int| 0 <= i < j < v.len() ==> v[j] <= v[i]
}

/// `v` sorted from largest to smallest.
pub fn sort_descending(v: Vec<usize>) -> (r: Vec<usize>)
    ensures
        descending(r@),
        r@.to_multiset() == v@.to_multiset(),
{
    let mut out: Vec<usize> = Vec::new();
    let ghost all = v@;
    let n = v.len();
    let mut i: usize = 0;
    assert(out@ =~= all.take(0));
    while i < n
        invariant
            n == all.len(),
            all == v@,
            i <= n,
            descending(out@),
            out@.to_multiset() == all.take(i as int).to_multiset(),
        decreases n - i,
    {
        let x = v[i];
        let mut j: usize = 0;
        while j < out.len() && out[j] >= x
            invariant
                j <= out@.len(),
                forall|k: int| 0 <= k < j ==> out@[k] >= x,
            decreases out@.len() - j,
        {
            j = j + 1;
        }
        let ghost before = out@;
        out.insert(j, x);
        proof {
            vstd::seq_lib::to_multiset_insert(before, j as int, x);
            assert(all.take(i + 1) =~= all.take(i as int).push(x));
            vstd::seq_lib::to_multiset_build(all.take(i as int), x);
            assert forall|a: int, b: int| 0 <= a < b < out@.len() implies out@[b] <= out@[a] by {
                if b < j {
                } else if b == j {
                    assert(out@[a] == before[a]);
                } else if a < j {
                    assert(out@[a] == before[a] && out@[b] == before[b - 1]);
                    if j < before.len() {
                        assert(before[j as int] < x);
                    }
                } else if a == j {
                    assert(out@[b] == before[b - 1]);
                    assert(before[j as int] < x);
                    assert(before[b - 1] <= before[j as int]);
                } else {
                    assert(out@[a] == before[a - 1] && out@[b] == before[b - 1]);
                }
            }
        }
        i = i + 1;
    }
    proof {
        assert(all.take(n as int) =~= all);
    }
    out
}

/// The states of a run of cell removals at `positions`, in order.
pub open spec fn removed_in_turn<Tex, Sel, Pan, Scroll>(
    states: Seq<AppState<Tex, Sel, Pan, Scroll>>,
    positions: Seq<usize>,
) -> bool {
    &&& states.len() == positions.len() + 1
    &&& forall|j: int| 0 <= j < positions.len() ==> #[trigger] states[j].removal(&states[j + 1], positions[j] as int)
}

/// `after` is `before` once the folder image at `pos`, if there is one, is closed.
pub open spec fn closed_at<Tex, Sel, Pan, Scroll>(
    before: AppState<Tex, Sel, Pan, Scroll>,
    after: AppState<Tex, Sel, Pan, Scroll>,
    pos: int,
) -> bool {
    if before.closes_at(pos) { before.removal(&after, pos) } else { after == before }
}

/// The states of a run of closings at `positions`, in order.
pub open spec fn closed_in_turn<Tex, Sel, Pan, Scroll>(
    states: Seq<AppState<Tex, Sel, Pan, Scroll>>,
    positions: Seq<usize>,
) -> bool {
    &&& states.len() == positions.len() + 1
    &&& forall|j: int| 0 <= j < positions.len() ==> #[trigger] closed_at(states[j], states[j + 1], positions[j] as int)
}

/// `after` is `before` after closing, from the last grid position to the
/// first, every image opened from a folder.
pub open spec fn folder_images_closed<Tex, Sel, Pan, Scroll>(
    before: AppState<Tex, Sel, Pan, Scroll>,
    after: AppState<Tex, Sel, Pan, Scroll>,
) -> bool {
    exists|states: Seq<AppState<Tex, Sel, Pan, Scroll>>, positions: Seq<usize>| {
        &&& #[trigger] closed_in_turn(states, positions)
        &&& states[0] == before
        &&& states.last() == after
        &&& descending(positions)
        &&& positions.no_duplicates()
        &&& forall|p: int| 0 <= p < before.cell_order@.len() ==> (before.closes_at(p) <==> positions.contains(p as usize))
    } && no_folder_images(after)
}

/// No grid position of `s` shows an image opened from a folder.
#[verifier::opaque]
pub open spec fn no_folder_images<Tex, Sel, Pan, Scroll>(s: AppState<Tex, Sel, Pan, Scroll>) -> bool {
    forall|p: int| !#[trigger] s.closes_at(p)
}

/// Closes every image opened from a folder (Esc), from the last grid
/// position to the first; each folder whose last image closes returns to
/// the grid in its place.
pub fn close_folder_images<Tex, Sel, Pan, Scroll>(state: &mut AppState<Tex, Sel, Pan, Scroll>)
    requires
        old(state).wf(),
    ensures
        final(state).wf(),
        folder_images_closed(*old(state), *final(state)),
        final(state).local_mode == old(state).local_mode,
        final(state).show_exif == old(state).show_exif,
        final(state).show_histogram == old(state).show_histogram,
{
    let ghost s0 = *state;
    let n = state.cell_order.len();
    let mut positions: Vec<usize> = Vec::new();
    let mut q: usize = n;
    while q > 0
        invariant
            q <= n,
            n == s0.cell_order@.len(),
            *state == s0,
            s0.indices_wf(),
            descending(positions@),
            positions@.no_duplicates(),
            forall|k: int| 0 <= k < positions@.len() ==> q <= #[trigger] positions@[k] < n,
            forall|p: int| q <= p < n ==> (s0.closes_at(p) <==> positions@.contains(p as usize)),
        decreases q,
    {
        q = q - 1;
        let is_folder_image = match state.cell_order[q] {
            CellKind::Image(i) => {
                assert(s0.cell_in_range(s0.cell_order@[q as int]));
                match state.image_cells[i].source {
                    ImageSource::FromFolder { .. } => true,
                    ImageSource::Standalone => false,
                }
            },
            CellKind::Folder(_) => false,
        };
        if is_folder_image {
            let ghost before = positions@;
            positions.push(q);
            proof {
                assert forall|p: int| q <= p < n implies (s0.closes_at(p) <==> positions@.contains(p as usize)) by {
                    if p > q && before.contains(p as usize) {
                        let k = choose|k: int| 0 <= k < before.len() && before[k] == p as usize;
                        assert(positions@[k] == p as usize);
                    }
                    if positions@.contains(p as usize) && p > q {
                        let k = choose|k: int| 0 <= k < positions@.len() && positions@[k] == p as usize;
                        if k < before.len() {
                            assert(before[k] == p as usize);
                        }
                    }
                    if p == q {
                        assert(positions@[before.len() as int] == q);
                    }
                }
            }
        } else {
            proof {
                assert forall|p: int| q <= p < n implies (s0.closes_at(p) <==> positions@.contains(p as usize)) by {
                    if p == q && positions@.contains(p as usize) {
                        let k = choose|k: int| 0 <= k < positions@.len() && positions@[k] == p as usize;
                    }
                }
            }
        }
    }
    let ghost ps = positions@;
    let ghost mut states: Seq<AppState<Tex, Sel, Pan, Scroll>> = seq![s0];
    let mut k: usize = 0;
    while k < positions.len()
        invariant
            k <= ps.len(),
            positions@ == ps,
            state.wf(),
            closed_in_turn(states, ps.take(k as int)),
            states[0] == s0,
            states.last() == *state,
            state.local_mode == s0.local_mode,
            state.show_exif == s0.show_exif,
            state.show_histogram == s0.show_histogram,
            n == s0.cell_order@.len(),
            descending(ps),
            ps.no_duplicates(),
            forall|j: int| 0 <= j < ps.len() ==> #[trigger] ps[j] < n,
            forall|p: int| 0 <= p < n ==> (s0.closes_at(p) <==> ps.contains(p as usize)),
            forall|p: int| 0 <= p < front_end(ps, k as int, n as int) ==> (#[trigger] state.closes_at(p) <==> s0.closes_at(p)),
            forall|p: int| front_end(ps, k as int, n as int) <= p ==> !#[trigger] state.closes_at(p),
        decreases ps.len() - k,
    {
        let ghost before = *state;
        let ghost pos = ps[k as int] as int;
        let ghost m = front_end(ps, k as int, n as int);
        proof {
            if k > 0 {
                assert(ps[k - 1] != ps[k as int]);
            }
            assert(pos < m);
            assert(ps.contains(ps[k as int]));
            assert(before.closes_at(pos));
            assert forall|q: int| pos < q implies !#[trigger] before.closes_at(q) by {
                if q < m && before.closes_at(q) {
                    assert(ps.contains(q as usize));
                    let j = choose|j: int| 0 <= j < ps.len() && ps[j] == q as usize;
                    if j < k {
                        assert(ps[k - 1] <= ps[j]);
                    } else {
                        assert(ps[j] <= ps[k as int]);
                    }
                }
            }
        }
        state.close_folder_at_pos(positions[k]);
        proof {
            crate::state::lemma_closing_keeps_front(before, *state, pos);
            assert(front_end(ps, k + 1, n as int) == pos);
            let new_states = states.push(*state);
            assert(ps.take(k + 1).drop_last() =~= ps.take(k as int));
            assert forall|j: int| 0 <= j < k + 1 implies #[trigger] closed_at(new_states[j], new_states[j + 1], ps.take(k + 1)[j] as int) by {
                if j < k {
                    assert(new_states[j] == states[j] && new_states[j + 1] == states[j + 1]);
                    assert(ps.take(k + 1)[j] == ps.take(k as int)[j]);
                } else {
                    assert(new_states[j] == before);
                }
            }
            states = new_states;
        }
        k = k + 1;
    }
    proof {
        assert(ps.take(ps.len() as int) =~= ps);
        assert(closed_in_turn(states, ps));
        let m = front_end(ps, ps.len() as int, n as int);
        assert forall|p: int| !#[trigger] state.closes_at(p) by {
            if 0 <= p < m && state.closes_at(p) {
                assert(ps.contains(p as usize));
                let j = choose|j: int| 0 <= j < ps.len() && ps[j] == p as usize;
                assert(ps[ps.len() - 1] <= ps[j]);
            }
        }
        reveal(no_folder_images);
    }
}

/// Where the front of the grid that no closing has reached yet ends, after `k` of the
/// closings at `positions` on a grid of `n` cells.
pub open spec fn front_end(positions: Seq<usize>, k: int, n: int) -> int {
    if k == 0 { n } else { positions[k - 1] as int }
}

/// `after` is `before` with every image's selection cleared.
pub open spec fn selections_cleared<Tex, Sel, Pan, Scroll>(
    before: AppState<Tex, Sel, Pan, Scroll>,
    after: AppState<Tex, Sel, Pan, Scroll>,
) -> bool {
    &&& after.image_cells@.len() == before.image_cells@.len()
    &&& forall|j: int| 0 <= j < after.image_cells@.len() ==> {
        &&& (#[trigger] after.image_cells@[j]).info == before.image_cells@[j].info
        &&& after.image_cells@[j].source == before.image_cells@[j].source
        &&& after.image_cells@[j].selection is None
    }
}

/// Clears every image's selection.
fn clear_all_selections<Tex, Sel, Pan, Scroll>(state: &mut AppState<Tex, Sel, Pan, Scroll>)
    ensures
        selections_cleared(*old(state), *final(state)),
        final(state).folder_cells@ == old(state).folder_cells@,
        final(state).cell_order@ == old(state).cell_order@,
        final(state).pan_offset@ == old(state).pan_offset@,
        final(state).same_extras(old(state)),
{
    let n = state.image_cells.len();
    let mut j: usize = 0;
    while j < n
        invariant
            j <= n,
            n == state.image_cells@.len(),
            n == old(state).image_cells@.len(),
            forall|k: int| 0 <= k < n ==> {
                &&& (#[trigger] state.image_cells@[k]).info == old(state).image_cells@[k].info
                &&& state.image_cells@[k].source == old(state).image_cells@[k].source
                &&& if k < j { state.image_cells@[k].selection is None } else {
                    state.image_cells@[k].selection == old(state).image_cells@[k].selection
                }
            },
            state.folder_cells@ == old(state).folder_cells@,
            state.cell_order@ == old(state).cell_order@,
            state.pan_offset@ == old(state).pan_offset@,
            state.same_extras(old(state)),
        decreases n - j,
    {
        let mut cell = state.image_cells.remove(j);
        cell.selection = None;
        state.image_cells.insert(j, cell);
        j = j + 1;
    }
}

/// Turns local (region) mode on or off; turning it off clears every selection.
pub fn toggle_local_mode<Tex, Sel, Pan, Scroll>(state: &mut AppState<Tex, Sel, Pan, Scroll>)
    requires
        old(state).indices_wf(),
    ensures
        final(state).local_mode == !old(state).local_mode,
        old(state).local_mode ==> selections_cleared(*old(state), *final(state)),
        !old(state).local_mode ==> final(state).image_cells@ == old(state).image_cells@,
        final(state).folder_cells@ == old(state).folder_cells@,
        final(state).cell_order@ == old(state).cell_order@,
        final(state).pan_offset@ == old(state).pan_offset@,
        final(state).show_exif == old(state).show_exif,
        final(state).show_histogram == old(state).show_histogram,
        final(state).loaded_paths@ == old(state).loaded_paths@,
        final(state).reorder_src == old(state).reorder_src,
        final(state).pending_remove@ == old(state).pending_remove@,
        final(state).load_errors@ == old(state).load_errors@,
        final(state).indices_wf(),
        old(state).wf() ==> final(state).wf(),
{
    let ghost o = *state;
    state.local_mode = !state.local_mode;
    if !state.local_mode {
        clear_all_selections(state);
    }
    proof { lemma_images_kept_wf(o, *state); }
}

/// Changing image selections and display modes keeps the grid invariant.
proof fn lemma_images_kept_wf<Tex, Sel, Pan, Scroll>(o: AppState<Tex, Sel, Pan, Scroll>, s: AppState<Tex, Sel, Pan, Scroll>)
    requires
        o.indices_wf(),
        s.image_cells@.len() == o.image_cells@.len(),
        forall|j: int| 0 <= j < s.image_cells@.len() ==> (#[trigger] s.image_cells@[j]).source == o.image_cells@[j].source,
        s.folder_cells@.len() == o.folder_cells@.len(),
        s.cell_order@ == o.cell_order@,
        s.pan_offset@.len() == o.pan_offset@.len(),
        s.loaded_paths@ == o.loaded_paths@,
    ensures
        s.indices_wf(),
        o.wf() ==> s.wf(),
{
    assert forall|p: int| 0 <= p < s.cell_order@.len() implies s.cell_in_range(#[trigger] s.cell_order@[p]) by {
        assert(o.cell_in_range(o.cell_order@[p]));
    }
    assert forall|g: int| #[trigger] s.has_open_image(g) == o.has_open_image(g) by {
        if s.has_open_image(g) {
            let k = choose|k: int| 0 <= k < s.image_cells@.len() && #[trigger] crate::state::opened_from(s.image_cells@, k, g);
            assert(crate::state::opened_from(o.image_cells@, k, g));
        }
        if o.has_open_image(g) {
            let k = choose|k: int| 0 <= k < o.image_cells@.len() && #[trigger] crate::state::opened_from(o.image_cells@, k, g);
            assert(crate::state::opened_from(s.image_cells@, k, g));
        }
    }
    assert forall|g: int| #[trigger] s.folder_visible(g) == o.folder_visible(g) by {}
    if o.wf() {
        assert forall|i: int| 0 <= i < s.image_cells@.len() implies match #[trigger] s.image_cells@[i].source {
            ImageSource::FromFolder { folder_idx, .. } => folder_idx < s.folder_cells@.len(),
            ImageSource::Standalone => true,
        } by {
            assert(s.image_cells@[i].source == o.image_cells@[i].source);
        }
    }
}

/// `after` is `before` reset for an empty grid: display modes off, no
/// offsets, no selections.
pub open spec fn view_reset<Tex, Sel, Pan, Scroll>(
    before: AppState<Tex, Sel, Pan, Scroll>,
    after: AppState<Tex, Sel, Pan, Scroll>,
) -> bool {
    &&& !after.local_mode
    &&& !after.show_exif
    &&& !after.show_histogram
    &&& after.pan_offset@.len() == 0
    &&& selections_cleared(before, after)
    &&& after.folder_cells@ == before.folder_cells@
    &&& after.cell_order@ == before.cell_order@
    &&& after.loaded_paths@ == before.loaded_paths@
    &&& after.reorder_src == before.reorder_src
    &&& after.pending_remove@ == before.pending_remove@
    &&& after.load_errors@ == before.load_errors@
}

/// `before` with its removal queue emptied.
pub open spec fn queue_taken<Tex, Sel, Pan, Scroll>(
    before: AppState<Tex, Sel, Pan, Scroll>,
    after: AppState<Tex, Sel, Pan, Scroll>,
) -> bool {
    &&& after.pending_remove@.len() == 0
    &&& after.image_cells == before.image_cells
    &&& after.folder_cells == before.folder_cells
    &&& after.cell_order == before.cell_order
    &&& after.pan_offset == before.pan_offset
    &&& after.local_mode == before.local_mode
    &&& after.show_exif == before.show_exif
    &&& after.show_histogram == before.show_histogram
    &&& after.loaded_paths == before.loaded_paths
    &&& after.reorder_src == before.reorder_src
    &&& after.load_errors == before.load_errors
}

/// Removes the cells at the grid positions queued for removal while drawing,
/// from the last position to the first (positions past the end are
/// skipped). While two folders each show exactly one image (a comparison
/// pair), nothing is removed: the queue is only emptied, and Esc is the way
/// out. When the removals leave the grid empty, the display modes switch off
/// and offsets and selections clear; the result tells whether they did.
pub fn apply_pending_removals<Tex, Sel, Pan, Scroll>(state: &mut AppState<Tex, Sel, Pan, Scroll>) -> (emptied: bool)
    requires
        old(state).wf(),
    ensures
        final(state).wf(),
        old(state).pending_remove@.len() == 0 ==> !emptied && *final(state) == *old(state),
        old(state).pending_remove@.len() > 0 && old(state).spec_compare_pair() ==> !emptied && queue_taken(
            *old(state),
            *final(state),
        ),
        old(state).pending_remove@.len() > 0 && !old(state).spec_compare_pair() ==> exists|states: Seq<AppState<Tex, Sel, Pan, Scroll>>, positions: Seq<usize>| {
            &&& #[trigger] removed_in_turn(states, positions)
            &&& queue_taken(*old(state), states[0])
            &&& descending(positions)
            &&& positions.to_multiset() == old(state).pending_remove@.to_multiset()
            &&& emptied == (states.last().cell_order@.len() == 0)
            &&& emptied ==> view_reset(states.last(), *final(state))
            &&& !emptied ==> *final(state) == states.last()
        },
{
    if state.pending_remove.len() == 0 {
        return false;
    }
    let mut queued: Vec<usize> = Vec::new();
    std::mem::swap(&mut queued, &mut state.pending_remove);
    let ghost s0 = *state;
    proof {
        assert forall|g: int| #[trigger] s0.has_open_image(g) == old(state).has_open_image(g) by {}
        assert forall|g: int| #[trigger] s0.folder_visible(g) == old(state).folder_visible(g) by {}
    }
    if state.is_compare_pair() {
        return false;
    }
    let positions = sort_descending(queued);
    let ghost ps = positions@;
    let ghost mut states: Seq<AppState<Tex, Sel, Pan, Scroll>> = seq![s0];
    let mut k: usize = 0;
    while k < positions.len()
        invariant
            k <= ps.len(),
            positions@ == ps,
            state.wf(),
            removed_in_turn(states, ps.take(k as int)),
            states[0] == s0,
            states.last() == *state,
        decreases ps.len() - k,
    {
        let ghost before = *state;
        let pos = positions[k];
        if pos < state.cell_order.len() {
            state.remove_cell(pos);
        }
        proof {
            let new_states = states.push(*state);
            assert(ps.take(k + 1).drop_last() =~= ps.take(k as int));
            assert forall|j: int| 0 <= j < k + 1 implies #[trigger] new_states[j].removal(&new_states[j + 1], ps.take(k + 1)[j] as int) by {
                if j < k {
                    assert(new_states[j] == states[j] && new_states[j + 1] == states[j + 1]);
                    assert(ps.take(k + 1)[j] == ps.take(k as int)[j]);
                } else {
                    assert(new_states[j] == before);
                }
            }
            states = new_states;
        }
        k = k + 1;
    }
    proof {
        assert(ps.take(ps.len() as int) =~= ps);
    }
    let ghost last = *state;
    let emptied = state.cell_order.len() == 0;
    if emptied {
        state.local_mode = false;
        state.show_exif = false;
        state.show_histogram = false;
        state.pan_offset.clear();
        clear_all_selections(state);
        proof {
            assert(state.pan_offset@.len() == 0);
            assert forall|p: int| 0 <= p < state.cell_order@.len() implies state.cell_in_range(#[trigger] state.cell_order@[p]) by {}
            assert(last.image_cells@.len() == 0) by {
                if last.image_cells@.len() > 0 {
                    let i: int = 0;
                    assert(last.cell_order@.contains(CellKind::Image(i as usize)));
                }
            }
            assert forall|g: int| #[trigger] state.has_open_image(g) == last.has_open_image(g) by {}
            assert forall|g: int| #[trigger] state.folder_visible(g) == last.folder_visible(g) by {}
        }
    }
    emptied
}

/// An image whose pixels can be rotated and counted: its buffer holds the
/// `width`×`height` pixels, whose byte count fits in memory and whose pixel
/// count fits the histogram's counters.
pub open spec fn rotatable<Tex>(info: ImageInfo<Tex>) -> bool {
    &&& info.size[0] * info.size[1] * 4 <= usize::MAX
    &&& info.size[0] * info.size[1] <= u32::MAX
    &&& info.rgba@.len() >= info.size[0] * info.size[1] * 4
}

/// `after` is image data `before` turned a quarter clockwise, with its histogram recounted.
pub open spec fn rotated_info<Tex>(before: ImageInfo<Tex>, after: ImageInfo<Tex>) -> bool {
    &&& after.size == [before.size[1], before.size[0]]
    &&& rotation_of(before.rgba@, before.size[0] as int, before.size[1] as int, after.rgba@)
    &&& forall|b: int| 0 <= b < 256 ==> #[trigger] after.histogram@[b] == luma_count(after.rgba@, pixel_count(after.rgba@.len()), b as nat)
    &&& after.texture == before.texture
    &&& after.path == before.path
    &&& after.exif == before.exif
}

/// True when image `info` can be rotated (see `rotatable`).
pub fn is_rotatable<Tex>(info: &ImageInfo<Tex>) -> (r: bool)
    ensures
        r == rotatable(*info),
{
    let w = info.size[0];
    let h = info.size[1];
    match w.checked_mul(h) {
        Some(area) => match area.checked_mul(4) {
            Some(bytes) => area as u64 <= 0xffff_ffffu64 && info.rgba.len() >= bytes,
            None => false,
        },
        None => {
            assert(w * h * 4 > usize::MAX) by (nonlinear_arith)
                requires
                    w * h > usize::MAX,
            ;
            false
        },
    }
}

/// Turns image `img_idx` a quarter clockwise and recounts its histogram
/// (its texture is left for the caller to rebuild); the selection of that
/// image, or of every image in local mode, is dropped.
pub fn rotate_image_cell<Tex, Sel, Pan, Scroll>(state: &mut AppState<Tex, Sel, Pan, Scroll>, img_idx: usize)
    requires
        img_idx < old(state).image_cells@.len(),
        rotatable(old(state).image_cells@[img_idx as int].info),
    ensures
        rotation_step(*old(state), *final(state), img_idx as int),
        old(state).wf() ==> final(state).wf(),
{
    let ghost o = *state;
    let cell = state.image_cells.remove(img_idx);
    let w = cell.info.size[0];
    let h = cell.info.size[1];
    let (rgba, size) = rotate_rgba_90_cw(&cell.info.rgba, w, h);
    assert(pixel_count(rgba@.len()) == w * h);
    let histogram = compute_y_histogram(&rgba);
    let info = ImageInfo {
        texture: cell.info.texture,
        size,
        rgba,
        path: cell.info.path,
        exif: cell.info.exif,
        histogram,
    };
    state.image_cells.insert(img_idx, crate::state::ImageCell { info, source: cell.source, selection: cell.selection });
    let ghost mid = *state;
    proof {
        assert forall|j: int| 0 <= j < mid.image_cells@.len() implies (#[trigger] mid.image_cells@[j]).source == o.image_cells@[j].source by {
            if j != img_idx {
                assert(mid.image_cells@[j] == o.image_cells@[j]);
            }
        }
        if o.wf() {
            lemma_images_kept_wf(o, mid);
        }
    }
    state.invalidate_selection_after_rotation(img_idx);
    proof {
        assert forall|j: int| 0 <= j < state.image_cells@.len() && j != img_idx implies (#[trigger] state.image_cells@[j]).info == o.image_cells@[j].info by {
            assert(mid.image_cells@[j] == o.image_cells@[j]);
        }
    }
}

/// `after` is `before` with image `i` turned (see `rotate_image_cell`).
pub open spec fn rotation_step<Tex, Sel, Pan, Scroll>(
    before: AppState<Tex, Sel, Pan, Scroll>,
    after: AppState<Tex, Sel, Pan, Scroll>,
    i: int,
) -> bool {
    &&& after.image_cells@.len() == before.image_cells@.len()
    &&& rotated_info(before.image_cells@[i].info, after.image_cells@[i].info)
    &&& forall|j: int| 0 <= j < after.image_cells@.len() ==> {
        &&& j != i ==> (#[trigger] after.image_cells@[j]).info == before.image_cells@[j].info
        &&& after.image_cells@[j].source == before.image_cells@[j].source
        &&& after.image_cells@[j].selection == if before.local_mode || j == i {
            None
        } else {
            before.image_cells@[j].selection
        }
    }
    &&& after.folder_cells@ == before.folder_cells@
    &&& after.cell_order@ == before.cell_order@
    &&& after.pan_offset@ == before.pan_offset@
    &&& after.same_extras(&before)
}

/// The keys pressed in one frame: P, E, H, the digits 1 to 8 (as grid
/// positions 0 to 7, in key order), Space, B and Esc.
pub struct KeyPresses {
    pub p: bool,
    pub e: bool,
    pub h: bool,
    pub digits: Vec<usize>,
    pub space: bool,
    pub b: bool,
    pub esc: bool,
}

/// What the keys of a frame asked for beyond the state changes: a new window
/// title, the images rotated (whose textures need rebuilding), and files to load.
pub struct KeyOutcome {
    pub title: Option<String>,
    pub rotated: Vec<usize>,
    pub load: Option<LoadRequest>,
}

/// The images the digit keys rotate: for each digit, the image at that grid
/// position, if it is one that can be rotated.
pub open spec fn rotation_targets<Tex, Sel, Pan, Scroll>(s: AppState<Tex, Sel, Pan, Scroll>, digits: Seq<usize>) -> Seq<usize>
    decreases digits.len(),
{
    if digits.len() == 0 {
        Seq::empty()
    } else {
        let rest = rotation_targets(s, digits.drop_last());
        let d = digits.last();
        if d < s.cell_order@.len() {
            match s.cell_order@[d as int] {
                CellKind::Image(i) => if rotatable(s.image_cells@[i as int].info) { rest.push(i) } else { rest },
                CellKind::Folder(_) => rest,
            }
        } else {
            rest
        }
    }
}

/// The states of a run of image rotations.
pub open spec fn rotated_in_turn<Tex, Sel, Pan, Scroll>(states: Seq<AppState<Tex, Sel, Pan, Scroll>>, images: Seq<usize>) -> bool {
    &&& states.len() == images.len() + 1
    &&& forall|j: int| 0 <= j < images.len() ==> #[trigger] rotation_step(states[j], states[j + 1], images[j] as int)
}

/// `after` is `before` with the display-mode keys applied: P toggles local
/// mode (clearing selections when it turns off), E the EXIF panel, H the histogram.
pub open spec fn modes_toggled<Tex, Sel, Pan, Scroll>(
    before: AppState<Tex, Sel, Pan, Scroll>,
    after: AppState<Tex, Sel, Pan, Scroll>,
    all: bool,
    p_key: bool,
    e_key: bool,
    h_key: bool,
) -> bool {
    let p = all && p_key;
    let e = all && e_key;
    let h = all && h_key;
    &&& after.local_mode == (before.local_mode != p)
    &&& after.show_exif == (before.show_exif != e)
    &&& after.show_histogram == (before.show_histogram != h)
    &&& if p && before.local_mode {
        selections_cleared(before, after)
    } else {
        after.image_cells@ == before.image_cells@
    }
    &&& after.folder_cells@ == before.folder_cells@
    &&& after.cell_order@ == before.cell_order@
    &&& after.pan_offset@ == before.pan_offset@
    &&& after.loaded_paths@ == before.loaded_paths@
    &&& after.reorder_src == before.reorder_src
    &&& after.pending_remove@ == before.pending_remove@
    &&& after.load_errors@ == before.load_errors@
}

/// The mode keys on an all-image grid: P flips local mode, E flips the EXIF
/// display and H the histogram display, each only its own; on any other grid
/// they change nothing.
pub proof fn lemma_mode_keys_flip_their_own_mode<Tex, Sel, Pan, Scroll>(
    before: AppState<Tex, Sel, Pan, Scroll>,
    after: AppState<Tex, Sel, Pan, Scroll>,
    all: bool,
    p: bool,
    e: bool,
    h: bool,
)
    requires
        modes_toggled(before, after, all, p, e, h),
    ensures
        all && p ==> after.local_mode != before.local_mode,
        all && e ==> after.show_exif != before.show_exif,
        all && h ==> after.show_histogram != before.show_histogram,
        !(all && p) ==> after.local_mode == before.local_mode,
        !(all && e) ==> after.show_exif == before.show_exif,
        !(all && h) ==> after.show_histogram == before.show_histogram,
{
}

/// Some folder has a selected entry.
pub open spec fn some_selection<Tex, Sel, Pan, Scroll>(s: AppState<Tex, Sel, Pan, Scroll>) -> bool {
    exists|f: int| 0 <= f < s.folder_cells@.len() && #[trigger] s.folder_cells@[f].selected@.len() > 0
}

/// What Space, B and Esc did, from `before` to `after` (grid) and `m0` to
/// `m1` (loads): Esc closes the folder images; otherwise, unless a load is
/// in flight, Space steps every open folder image forward and B backward;
/// with nothing to step, Space opens the selected entries of the first
/// folder on the grid.
pub open spec fn nav_keys_handled<Tex, Sel, Pan, Scroll>(
    before: AppState<Tex, Sel, Pan, Scroll>,
    after: AppState<Tex, Sel, Pan, Scroll>,
    m0: FolderManager<Tex>,
    m1: FolderManager<Tex>,
    space: bool,
    b: bool,
    esc: bool,
    load: Option<LoadRequest>,
) -> bool {
    if !(space || b || esc) {
        after == before && m1 == m0 && load is None
    } else if esc {
        folder_images_closed(before, after) && m1 == m0 && load is None
    } else if m0.loading {
        after == before && m1 == m0 && load is None
    } else {
        let delta: int = if space { 1 } else { -1 };
        let targets = if before.nav_in_range(delta as i32) {
            before.nav_targets_upto(before.image_cells@.len(), delta)
        } else {
            Seq::empty()
        };
        if targets.len() > 0 {
            after == before && m0.navigation_load(&m1, targets, load)
        } else if space && some_selection(before) {
            match first_folder(before.cell_order@) {
                Some(f) => if selection_in_range(before.folder_cells@[f as int]) {
                    after == before && m0.selection_load(&m1, &before, f, load)
                } else {
                    after == before && m1 == m0 && load is None
                },
                None => after == before && m1 == m0 && load is None,
            }
        } else {
            after == before && m1 == m0 && load is None
        }
    }
}

/// True when navigating by `delta` stays within the 32-bit step range.
pub fn nav_range_ok<Tex, Sel, Pan, Scroll>(state: &AppState<Tex, Sel, Pan, Scroll>, delta: i32) -> (r: bool)
    ensures
        r == state.nav_in_range(delta),
{
    let n = state.image_cells.len();
    let mut i: usize = 0;
    while i < n
        invariant
            i <= n,
            n == state.image_cells@.len(),
            forall|k: int| 0 <= k < i ==> match #[trigger] state.image_cells@[k].source {
                ImageSource::FromFolder { folder_idx, entry_idx } => folder_idx < state.folder_cells@.len()
                    ==> {
                    &&& state.folder_cells@[folder_idx as int].entries@.len() <= i32::MAX
                    &&& entry_idx <= i32::MAX
                    &&& entry_idx + delta <= i32::MAX
                },
                ImageSource::Standalone => true,
            },
        decreases n - i,
    {
        if let ImageSource::FromFolder { folder_idx, entry_idx } = state.image_cells[i].source {
            if folder_idx < state.folder_cells.len() {
                let len = state.folder_cells[folder_idx].entries.len();
                if len > 0x7fff_ffff || entry_idx > 0x7fff_ffff {
                    return false;
                }
                if delta > 0 && entry_idx as i64 + delta as i64 > 0x7fff_ffffi64 {
                    return false;
                }
            }
        }
        i = i + 1;
    }
    true
}

/// True when every selected entry of folder `f` exists.
pub fn selection_fits<Tex, Sel, Pan, Scroll>(state: &AppState<Tex, Sel, Pan, Scroll>, f: usize) -> (r: bool)
    requires
        f < state.folder_cells@.len(),
    ensures
        r == selection_in_range(state.folder_cells@[f as int]),
{
    let fc = &state.folder_cells[f];
    let members = crate::folders::set_members(&fc.selected);
    let mut k: usize = 0;
    while k < members.len()
        invariant
            k <= members@.len(),
            *fc == state.folder_cells@[f as int],
            members@.to_set() == fc.selected@,
            forall|j: int| 0 <= j < k ==> #[trigger] members@[j] < fc.entries@.len(),
        decreases members@.len() - k,
    {
        if members[k] >= fc.entries.len() {
            assert(members@.to_set().contains(members@[k as int]));
            assert(fc.selected@.contains(members@[k as int]));
            return false;
        }
        k = k + 1;
    }
    proof {
        assert forall|i: usize| fc.selected@.contains(i) implies i < fc.entries@.len() by {
            assert(members@.to_set().contains(i));
            let j = choose|j: int| 0 <= j < members@.len() && members@[j] == i;
        }
    }
    true
}

/// True when some folder has a selected entry.
fn any_selection<Tex, Sel, Pan, Scroll>(state: &AppState<Tex, Sel, Pan, Scroll>) -> (r: bool)
    ensures
        r == some_selection(*state),
{
    let mut f: usize = 0;
    while f < state.folder_cells.len()
        invariant
            f <= state.folder_cells@.len(),
            forall|g: int| 0 <= g < f ==> #[trigger] state.folder_cells@[g].selected@.len() == 0,
        decreases state.folder_cells@.len() - f,
    {
        if state.folder_cells[f].selected.len() > 0 {
            return true;
        }
        f = f + 1;
    }
    false
}

/// Applies the keys of one frame. With only images on the grid, P, E and H
/// switch display modes and each digit rotates the image at that grid
/// position. Then Esc closes every folder image; otherwise, unless a load is
/// in flight, Space and B step the open folder images forward and backward,
/// and Space with nothing to step opens the selected folder entries. A
/// changed mode yields the new window title.
#[verifier::spinoff_prover]
#[verifier::rlimit(40)]
pub fn handle_keys<Tex, Sel, Pan, Scroll>(
    state: &mut AppState<Tex, Sel, Pan, Scroll>,
    manager: &mut FolderManager<Tex>,
    keys: &KeyPresses,
) -> (out: KeyOutcome)
    requires
        old(state).wf(),
        old(manager).wf(),
    ensures
        final(state).wf(),
        final(manager).wf(),
        exists|s1: AppState<Tex, Sel, Pan, Scroll>, states: Seq<AppState<Tex, Sel, Pan, Scroll>>|
            #![trigger modes_toggled(*old(state), s1, old(state).spec_all_images(), keys.p, keys.e, keys.h), rotated_in_turn(states, out.rotated@)]
        {
            let all = old(state).spec_all_images();
            &&& modes_toggled(*old(state), s1, all, keys.p, keys.e, keys.h)
            &&& out.rotated@ == if all { rotation_targets(s1, keys.digits@) } else { Seq::empty() }
            &&& rotated_in_turn(states, out.rotated@)
            &&& states[0] == s1
            &&& nav_keys_handled(states.last(), *final(state), *old(manager), *final(manager), keys.space, keys.b, keys.esc, out.load)
        },
        final(state).local_mode == (old(state).local_mode != (old(state).spec_all_images() && keys.p)),
        final(state).show_exif == (old(state).show_exif != (old(state).spec_all_images() && keys.e)),
        final(state).show_histogram == (old(state).show_histogram != (old(state).spec_all_images() && keys.h)),
        out.title is Some <==> (old(state).spec_all_images() && (keys.p || keys.e || keys.h)) || keys.esc,
        out.title matches Some(t) ==> t@ == title_text(final(state).show_exif, final(state).show_histogram, final(state).local_mode),
{
    let all = state.is_all_images();
    let mut changed = false;
    let ghost s0 = *state;
    if all && keys.p {
        toggle_local_mode(state);
        changed = true;
    }
    if all && keys.e {
        state.show_exif = !state.show_exif;
        changed = true;
    }
    if all && keys.h {
        state.show_histogram = !state.show_histogram;
        changed = true;
    }
    let ghost s1 = *state;
    proof {
        lemma_images_kept_wf(s0, s1);
        assert(modes_toggled(s0, s1, all, keys.p, keys.e, keys.h));
    }
    let mut rotated: Vec<usize> = Vec::new();
    let ghost mut states: Seq<AppState<Tex, Sel, Pan, Scroll>> = seq![s1];
    if all {
        let n = keys.digits.len();
        let mut k: usize = 0;
        while k < n
            invariant
                k <= n,
                n == keys.digits@.len(),
                state.wf(),
                state.cell_order@ == s1.cell_order@,
                state.image_cells@.len() == s1.image_cells@.len(),
                forall|i: int| 0 <= i < s1.image_cells@.len() ==>
                    (rotatable(#[trigger] state.image_cells@[i].info) == rotatable(s1.image_cells@[i].info)),
                rotated@ == rotation_targets(s1, keys.digits@.take(k as int)),
                rotated_in_turn(states, rotated@),
                states[0] == s1,
                states.last() == *state,
                state.local_mode == s1.local_mode,
                state.show_exif == s1.show_exif,
                state.show_histogram == s1.show_histogram,
            decreases n - k,
        {
            let d = keys.digits[k];
            proof {
                assert(keys.digits@.take(k + 1).drop_last() =~= keys.digits@.take(k as int));
            }
            if d < state.cell_order.len() {
                if let CellKind::Image(i) = state.cell_order[d] {
                    proof {
                        assert(state.cell_in_range(state.cell_order@[d as int]));
                    }
                    if is_rotatable(&state.image_cells[i].info) {
                        let ghost before = *state;
                        rotate_image_cell(state, i);
                        proof {
                            let new_states = states.push(*state);
                            let ghost old_rot = rotated@;
                            assert forall|j: int| 0 <= j < old_rot.len() + 1 implies #[trigger] rotation_step(
                                new_states[j], new_states[j + 1], old_rot.push(i)[j] as int) by {
                                if j < old_rot.len() {
                                    assert(new_states[j] == states[j] && new_states[j + 1] == states[j + 1]);
                                } else {
                                    assert(new_states[j] == before);
                                }
                            }
                            assert forall|m: int| 0 <= m < s1.image_cells@.len() implies
                                (rotatable(#[trigger] state.image_cells@[m].info) == rotatable(s1.image_cells@[m].info)) by {
                                if m == i {
                                    let bi = before.image_cells@[m].info;
                                    let ai = state.image_cells@[m].info;
                                    assert(ai.size[0] * ai.size[1] == bi.size[1] * bi.size[0]) by (nonlinear_arith)
                                        requires
                                            ai.size[0] == bi.size[1],
                                            ai.size[1] == bi.size[0],
                                    ;
                                    assert(ai.size[0] * ai.size[1] * 4 == bi.size[0] * bi.size[1] * 4) by (nonlinear_arith)
                                        requires
                                            ai.size[0] * ai.size[1] == bi.size[1] * bi.size[0],
                                    ;
                                }
                            }
                            states = new_states;
                        }
                        rotated.push(i);
                    }
                }
            }
            k = k + 1;
        }
        proof {
            assert(keys.digits@.take(n as int) =~= keys.digits@);
        }
    } else {
        proof {
            assert(rotated@ =~= Seq::<usize>::empty());
        }
    }
    let ghost s2 = *state;
    let ghost m0 = *manager;
    let mut load: Option<LoadRequest> = None;
    if keys.space || keys.b || keys.esc {
        if keys.esc {
            close_folder_images(state);
            changed = true;
        } else if !manager.is_loading() {
            let delta: i32 = if keys.space { 1 } else { -1 };
            let targets = if nav_range_ok(state, delta) {
                state.folder_nav_targets(delta)
            } else {
                Vec::new()
            };
            proof {
                assert(crate::folders::target_views(targets@) =~= if s2.nav_in_range(delta) {
                    s2.nav_targets_upto(s2.image_cells@.len(), delta as int)
                } else {
                    Seq::empty()
                });
            }
            if targets.len() > 0 {
                load = manager.navigate(targets);
            } else if keys.space && any_selection(state) {
                match crate::folders::first_folder_at(&state.cell_order) {
                    Some(f) => {
                        proof { lemma_first_folder_stored(*state); }
                        if selection_fits(state, f) {
                            load = manager.open_selected(state, f);
                        }
                    },
                    None => {},
                }
            }
        }
    }
    assert(nav_keys_handled(s2, *state, m0, *manager, keys.space, keys.b, keys.esc, load));
    let title = if changed {
        Some(window_title(state.show_exif, state.show_histogram, state.local_mode))
    } else {
        None
    };
    proof {
        assert(modes_toggled(s0, s1, s0.spec_all_images(), keys.p, keys.e, keys.h));
        assert(rotated_in_turn(states, rotated@));
        assert(rotated@ == if all { rotation_targets(s1, keys.digits@) } else { Seq::<usize>::empty() });
        assert(states[0] == s1);
        assert(states.last() == s2);
    }
    let out = KeyOutcome { title, rotated, load };
    proof {
        assert(modes_toggled(*old(state), s1, old(state).spec_all_images(), keys.p, keys.e, keys.h));
        assert(rotated_in_turn(states, out.rotated@));
        assert(nav_keys_handled(states.last(), *state, *old(manager), *manager, keys.space, keys.b, keys.esc, out.load));
    }
    out
}

/// The first folder position of a well-formed grid names a stored folder.
proof fn lemma_first_folder_stored<Tex, Sel, Pan, Scroll>(s: AppState<Tex, Sel, Pan, Scroll>)
    requires
        s.indices_wf(),
    ensures
        first_folder(s.cell_order@) matches Some(f) ==> f < s.folder_cells@.len(),
{
    crate::folders::lemma_first_folder_in_range(s);
}


/// Which stored image the grid cell at `cell_pos` draws: while Q is held on
/// a grid of exactly two images, the first cell shows the second image, so
/// that the two can be flicked between in place; otherwise each cell shows
/// its own image `img_idx`.
pub fn draw_index(all_images: bool, n_images: usize, q_held: bool, cell_pos: usize, img_idx: usize) -> (r: usize)
    ensures
        r == (if all_images && n_images == 2 && q_held && cell_pos == 0 { 1 } else { img_idx }),
{
    if all_images && n_images == 2 && q_held && cell_pos == 0 {
        1
    } else {
        img_idx
    }
}

} // verus!
