use std::collections::HashSet;

use mmcompare::folders::FolderManager;
use mmcompare::session::{
    apply_pending_removals, classify_paths, close_folder_images, draw_index, handle_keys, row_layout,
    sort_descending, toggle_local_mode, window_title, KeyPresses,
};
use mmcompare::state::{AppState, CellKind, FolderCell, FolderView, ImageInfo, ImageSource};

type State = AppState<u8, u8, (), ()>;

fn info(name: &str, w: usize, h: usize) -> ImageInfo<u8> {
    ImageInfo {
        texture: 0,
        size: [w, h],
        rgba: (0..w * h * 4).map(|v| v as u8).collect(),
        path: name.to_string(),
        exif: String::new(),
        histogram: [0; 256],
    }
}

fn add_folder(state: &mut State, n: usize) -> usize {
    let idx = state.folder_cells.len();
    state.folder_cells.push(FolderCell {
        dir_path: format!("dir{idx}"),
        entries: (0..n).map(|i| format!("dir{idx}/img{i}.png")).collect(),
        selected: HashSet::new(),
        view_mode: FolderView::List,
        scroll_offset: None,
        thumbnails: vec![None; n],
        open_entry: None,
        scroll_to: None,
    });
    state.cell_order.push(CellKind::Folder(idx));
    state.pan_offset.push(None);
    idx
}

fn no_keys() -> KeyPresses {
    KeyPresses { p: false, e: false, h: false, digits: vec![], space: false, b: false, esc: false }
}

#[test]
fn rows_follow_the_layout_table() {
    assert_eq!(row_layout(1), vec![1]);
    assert_eq!(row_layout(3), vec![3]);
    assert_eq!(row_layout(4), vec![4]);
    assert_eq!(row_layout(5), vec![3, 2]);
    assert_eq!(row_layout(6), vec![3, 3]);
    assert_eq!(row_layout(7), vec![4, 3]);
    assert_eq!(row_layout(8), vec![4, 4]);
    for n in 1..=8 {
        assert_eq!(row_layout(n).iter().sum::<usize>(), n);
    }
}

#[test]
fn titles_list_active_modes() {
    assert_eq!(window_title(false, false, false), "MMCompare");
    assert_eq!(window_title(true, true, true), "MMCompare - EHP");
    assert_eq!(window_title(false, true, false), "MMCompare - H");
    assert_eq!(window_title(true, false, true), "MMCompare - EP");
}

#[test]
fn classify_splits_files_and_folders() {
    let mut s = State::new();
    let paths = vec![
        ("b.png".to_string(), false),
        ("notes.txt".to_string(), false),
        ("photos".to_string(), true),
        ("A.JPG".to_string(), false),
    ];
    let (files, folders) = classify_paths(&mut s, paths, 0);
    assert_eq!(files, vec!["A.JPG".to_string(), "b.png".to_string()]);
    assert_eq!(folders, vec!["photos".to_string()]);
    assert_eq!(s.loaded_paths.len(), 2);
    let (again, _) = classify_paths(&mut s, vec![("b.png".to_string(), false)], 0);
    assert!(again.is_empty(), "already loaded");
}

#[test]
fn classify_takes_only_what_fits() {
    let mut s = State::new();
    s.append_standalone_images((0..6).map(|i| info(&format!("s{i}"), 1, 1)).collect());
    let paths: Vec<(String, bool)> = (0..5).map(|i| (format!("n{i}.png"), false)).collect();
    let (files, _) = classify_paths(&mut s, paths, 1);
    assert_eq!(files, vec!["n0.png".to_string()]);
}

#[test]
fn classify_filters_and_sorts_before_cutting_to_room() {
    let mut s = State::new();
    let paths: Vec<(String, bool)> =
        ["i", "h", "g", "f", "e", "d", "c", "b", "a"].iter().map(|n| (format!("{n}.png"), false)).collect();
    let (files, _) = classify_paths(&mut s, paths, 0);
    let expected: Vec<String> = ["a", "b", "c", "d", "e", "f", "g", "h"].iter().map(|n| format!("{n}.png")).collect();
    assert_eq!(files, expected);
    assert_eq!(s.loaded_paths, expected);
}

#[test]
fn classify_queues_a_repeated_path_once() {
    let mut s = State::new();
    let paths = vec![
        ("a.png".to_string(), false),
        ("a.png".to_string(), false),
        ("d".to_string(), true),
        ("d".to_string(), true),
    ];
    let (files, folders) = classify_paths(&mut s, paths, 0);
    assert_eq!(files, vec!["a.png".to_string()]);
    assert_eq!(folders, vec!["d".to_string()]);
    assert_eq!(s.loaded_paths, vec!["a.png".to_string()]);
}

#[test]
fn classify_orders_by_file_name_across_directories() {
    let mut s = State::new();
    let paths = vec![
        ("b/B.png".to_string(), false),
        ("a/c.png".to_string(), false),
        ("z/a.png".to_string(), false),
        ("z/notes.txt".to_string(), false),
    ];
    let (files, _) = classify_paths(&mut s, paths, 0);
    assert_eq!(files, vec!["z/a.png".to_string(), "b/B.png".to_string(), "a/c.png".to_string()]);
}

#[test]
fn classify_skips_shown_folders() {
    let mut s = State::new();
    add_folder(&mut s, 1);
    let (_, folders) = classify_paths(&mut s, vec![("dir0".to_string(), true), ("other".to_string(), true)], 0);
    assert_eq!(folders, vec!["other".to_string()]);
}

#[test]
fn descending_sort_keeps_duplicates() {
    assert_eq!(sort_descending(vec![2, 7, 2, 0, 9]), vec![9, 7, 2, 2, 0]);
    assert!(sort_descending(vec![]).is_empty());
}

#[test]
fn pending_removals_run_back_to_front_and_reset_on_empty() {
    let mut s = State::new();
    s.append_standalone_images(vec![info("a", 1, 1), info("b", 1, 1), info("c", 1, 1)]);
    s.show_exif = true;
    s.local_mode = true;
    s.pending_remove = vec![0, 2];
    assert!(!apply_pending_removals(&mut s));
    assert_eq!(s.image_cells.len(), 1);
    assert_eq!(s.image_cells[0].info.path, "b");
    assert!(s.show_exif, "grid not empty");
    s.pending_remove = vec![0, 5];
    assert!(apply_pending_removals(&mut s));
    assert!(s.cell_order.is_empty());
    assert!(!s.show_exif && !s.local_mode && !s.show_histogram);
    assert!(!apply_pending_removals(&mut s), "nothing queued");
}

#[test]
fn comparison_pair_keeps_its_images_on_remove_clicks() {
    let mut s = State::new();
    let fa = add_folder(&mut s, 3);
    let fb = add_folder(&mut s, 3);
    s.open_folder_entry(fa, 0, info("a0", 1, 1));
    s.open_folder_entry(fb, 1, info("b1", 1, 1));
    assert!(s.is_compare_pair());
    let before = s.cell_order.clone();
    s.pending_remove = vec![0];
    assert!(!apply_pending_removals(&mut s));
    assert!(s.pending_remove.is_empty(), "queue emptied");
    assert_eq!(s.cell_order, before, "no image removed");
    assert_eq!(s.image_cells.len(), 2);
    // Esc leaves the comparison; then a folder can be removed again
    close_folder_images(&mut s);
    assert!(!s.is_compare_pair());
    s.pending_remove = vec![0];
    assert!(!apply_pending_removals(&mut s));
    assert_eq!(s.folder_cells.len(), 1);
}

#[test]
fn esc_closes_every_folder_image() {
    let mut s = State::new();
    let fa = add_folder(&mut s, 4);
    let fb = add_folder(&mut s, 4);
    s.open_folder_entry(fa, 1, info("a1", 1, 1));
    s.open_folder_entry(fb, 2, info("b2", 1, 1));
    s.append_standalone_images(vec![info("x", 1, 1)]);
    close_folder_images(&mut s);
    assert_eq!(s.cell_order, vec![CellKind::Folder(0), CellKind::Folder(1), CellKind::Image(0)]);
    assert!(matches!(s.image_cells[0].source, ImageSource::Standalone));
    assert!(s.folder_cells[fa].selected.contains(&1));
}

#[test]
fn local_mode_off_clears_selections() {
    let mut s = State::new();
    s.append_standalone_images(vec![info("a", 1, 1)]);
    toggle_local_mode(&mut s);
    assert!(s.local_mode);
    s.image_cells[0].selection = Some(3);
    toggle_local_mode(&mut s);
    assert!(!s.local_mode);
    assert!(s.image_cells[0].selection.is_none());
}

#[test]
fn keys_toggle_modes_only_on_image_grids() {
    let mut s = State::new();
    let mut m: FolderManager<u8> = FolderManager::new();
    add_folder(&mut s, 2);
    let mut keys = no_keys();
    keys.e = true;
    let out = handle_keys(&mut s, &mut m, &keys);
    assert!(out.title.is_none());
    assert!(!s.show_exif);
    let mut t = State::new();
    t.append_standalone_images(vec![info("a", 2, 1)]);
    let out = handle_keys(&mut t, &mut m, &keys);
    assert_eq!(out.title.as_deref(), Some("MMCompare - E"));
    assert!(t.show_exif);
}

#[test]
fn digit_keys_rotate_images() {
    let mut s = State::new();
    let mut m: FolderManager<u8> = FolderManager::new();
    s.append_standalone_images(vec![info("a", 2, 1)]);
    let mut keys = no_keys();
    keys.digits = vec![0, 5];
    let out = handle_keys(&mut s, &mut m, &keys);
    assert_eq!(out.rotated, vec![0]);
    assert_eq!(s.image_cells[0].info.size, [1, 2]);
    assert_eq!(s.image_cells[0].info.histogram.iter().sum::<u32>(), 2);
    assert!(out.title.is_none());
}

#[test]
fn space_steps_open_folder_images() {
    let mut s = State::new();
    let mut m: FolderManager<u8> = FolderManager::new();
    let fa = add_folder(&mut s, 4);
    s.open_folder_entry(fa, 1, info("a1", 1, 1));
    let mut keys = no_keys();
    keys.space = true;
    let out = handle_keys(&mut s, &mut m, &keys);
    let req = out.load.expect("navigation load");
    assert_eq!(req.paths, vec!["dir0/img2.png".to_string()]);
    let out2 = handle_keys(&mut s, &mut m, &keys);
    assert!(out2.load.is_none(), "busy while loading");
}

#[test]
fn space_opens_selection_when_nothing_to_step() {
    let mut s = State::new();
    let mut m: FolderManager<u8> = FolderManager::new();
    add_folder(&mut s, 4);
    s.folder_cells[0].selected.insert(3);
    let mut keys = no_keys();
    keys.space = true;
    let out = handle_keys(&mut s, &mut m, &keys);
    let req = out.load.expect("open selection");
    assert_eq!(req.paths, vec!["dir0/img3.png".to_string()]);
}

#[test]
fn esc_key_sets_title_and_closes() {
    let mut s = State::new();
    let mut m: FolderManager<u8> = FolderManager::new();
    let fa = add_folder(&mut s, 4);
    s.open_folder_entry(fa, 0, info("a0", 1, 1));
    let mut keys = no_keys();
    keys.esc = true;
    let out = handle_keys(&mut s, &mut m, &keys);
    assert_eq!(out.title.as_deref(), Some("MMCompare"));
    assert_eq!(s.cell_order, vec![CellKind::Folder(0)]);
}

#[test]
fn files_and_folders_share_the_room() {
    let mut s = State::new();
    let paths = vec![("a.png".to_string(), false), ("d".to_string(), true)];
    let (files, folders) = classify_paths(&mut s, paths, 7);
    assert_eq!(files, vec!["a.png".to_string()]);
    assert!(folders.is_empty(), "no room left for the folder");
    let mut s = State::new();
    let paths = vec![("d".to_string(), true), ("e".to_string(), true), ("b.png".to_string(), false)];
    let (files, folders) = classify_paths(&mut s, paths, 6);
    assert_eq!(files, vec!["b.png".to_string()]);
    assert_eq!(folders, vec!["d".to_string()]);
}

#[test]
fn q_shows_the_second_image_in_the_first_cell() {
    assert_eq!(draw_index(true, 2, true, 0, 0), 1);
    assert_eq!(draw_index(true, 2, true, 1, 1), 1);
    assert_eq!(draw_index(true, 2, false, 0, 0), 0);
    assert_eq!(draw_index(true, 3, true, 0, 0), 0);
    assert_eq!(draw_index(false, 2, true, 0, 0), 0);
}
