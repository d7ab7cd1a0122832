use std::collections::HashSet;

use mmcompare::folders::{
    remove_entry, select_on_click, FolderEffect, FolderManager, THUMB_LIMIT,
};
use mmcompare::state::{AppState, CellKind, FolderAction, FolderCell, FolderView, ImageInfo};

type State = AppState<u32, (), (), ()>;

fn entries(n: usize) -> Vec<String> {
    (0..n).map(|i| format!("img{i}.png")).collect()
}

fn info(name: &str, tex: u32) -> ImageInfo<u32> {
    ImageInfo { texture: tex, size: [1, 1], rgba: vec![0; 4], path: name.to_string(), exif: String::new(), histogram: [0; 256] }
}

#[test]
fn new_folder_jumps_thumb_queue_front() {
    let mut m: FolderManager<u32> = FolderManager::new();
    let mut s = State::new();
    m.register_folder_cell(&mut s, "a".to_string(), entries(20));
    m.register_folder_cell(&mut s, "b".to_string(), entries(20));
    assert_eq!(m.pending_thumbnails.len(), 2);
    assert_eq!(m.pending_thumbnails[0].0, 1, "后拖入的 B 插队到队首");
    assert_eq!(m.pending_thumbnails[1].0, 0);
}

#[test]
fn thumb_round_robin_rotates_unfinished_to_back() {
    let mut m: FolderManager<u32> = FolderManager::new();
    let mut s = State::new();
    m.register_folder_cell(&mut s, "a".to_string(), entries(20));
    m.register_folder_cell(&mut s, "b".to_string(), entries(20));
    m.pending_thumbnails.pop_front();
    m.pending_thumbnails.push_back((1, 8));
    assert_eq!(m.pending_thumbnails[0].0, 0, "A 回到队首，下一批加载 A");
    assert_eq!(m.pending_thumbnails[1], (1, 8), "B 保留进度在队尾");
}

#[test]
fn thumb_limit_caps_prealloc_and_queue() {
    let mut m: FolderManager<u32> = FolderManager::new();
    let mut s = State::new();
    m.register_folder_cell(&mut s, "big".to_string(), entries(300));
    assert_eq!(s.folder_cells[0].thumbnails.len(), THUMB_LIMIT, "只预填上限个槽位");
    assert_eq!(m.pending_thumbnails[0], (0, 0));
    m.pending_thumbnails[0].1 = THUMB_LIMIT;
    let before = m.is_loading();
    let req = m.drain_thumbnails(&s);
    assert!(req.is_none());
    assert!(!m.is_loading() || before, "超限后不再启动新批次");
    assert!(m.pending_thumbnails.is_empty(), "队列清空");
}

#[test]
fn drain_takes_a_batch_and_rotates() {
    let mut m: FolderManager<u32> = FolderManager::new();
    let mut s = State::new();
    m.register_folder_cell(&mut s, "a".to_string(), entries(10));
    m.register_folder_cell(&mut s, "b".to_string(), entries(3));
    let req = m.drain_thumbnails(&s).expect("batch for b");
    assert!(req.thumbnails);
    assert_eq!(req.paths, entries(3));
    assert_eq!(m.pending_thumbnails.len(), 1, "b is done");
    assert!(m.drain_thumbnails(&s).is_none(), "one batch at a time");
    for i in 0..3 {
        m.receive_loaded(&mut s, i, Ok(info("t", 10 + i as u32)));
    }
    assert!(m.finish_loading(&mut s));
    assert_eq!(s.folder_cells[1].thumbnails, vec![Some(10), Some(11), Some(12)]);
    let req = m.drain_thumbnails(&s).expect("batch for a");
    assert_eq!(req.paths, entries(8));
    assert_eq!(m.pending_thumbnails.iter().copied().collect::<Vec<_>>(), vec![(0, 8)]);
}

#[test]
fn failed_thumbnail_is_skipped_silently() {
    let mut m: FolderManager<u32> = FolderManager::new();
    let mut s = State::new();
    m.register_folder_cell(&mut s, "a".to_string(), entries(2));
    let _ = m.drain_thumbnails(&s).expect("batch");
    m.receive_loaded(&mut s, 1, Ok(info("t", 7)));
    assert!(!m.finish_loading(&mut s), "still waiting for slot 0");
    m.receive_loaded(&mut s, 0, Err("img0.png".to_string()));
    assert!(m.finish_loading(&mut s));
    assert_eq!(s.folder_cells[0].thumbnails, vec![None, Some(7)]);
    assert!(s.load_errors.is_empty(), "no banner for thumbnails");
    assert!(!m.is_loading());
}

#[test]
fn failed_open_is_reported() {
    let mut m: FolderManager<u32> = FolderManager::new();
    let mut s = State::new();
    m.register_folder_cell(&mut s, "a".to_string(), entries(3));
    m.pending_thumbnails.clear();
    let _ = m.open_entry(&s, 0, 2).expect("load");
    m.receive_loaded(&mut s, 0, Err("img2.png".to_string()));
    assert!(m.finish_loading(&mut s));
    assert_eq!(s.load_errors, vec!["img2.png".to_string()]);
    assert_eq!(s.cell_order.len(), 1, "nothing opened");
}

#[test]
fn scans_queue_behind_each_other() {
    let mut m: FolderManager<u32> = FolderManager::new();
    let mut s = State::new();
    assert!(m.queue_scan(vec![]).is_none());
    let first = m.queue_scan(vec!["a".to_string(), "b".to_string()]).expect("scan starts");
    assert_eq!(first, vec!["a".to_string(), "b".to_string()]);
    assert!(m.queue_scan(vec!["c".to_string()]).is_none(), "queued");
    assert!(m.finish_scan(&mut s).is_none(), "nothing received yet");
    m.receive_scan(1, Some(("b".to_string(), entries(2))));
    m.receive_scan(0, None);
    let next = m.finish_scan(&mut s).expect("next scan");
    assert_eq!(next, vec!["c".to_string()]);
    assert_eq!(s.folder_cells.len(), 1);
    assert_eq!(s.folder_cells[0].dir_path, "b");
    assert_eq!(s.cell_order, vec![CellKind::Folder(0)]);
    assert!(m.is_busy());
}

#[test]
fn open_entry_loads_and_opens() {
    let mut m: FolderManager<u32> = FolderManager::new();
    let mut s = State::new();
    m.register_folder_cell(&mut s, "a".to_string(), entries(4));
    m.pending_thumbnails.clear();
    assert!(m.open_entry(&s, 0, 9).is_none(), "no such entry");
    let req = m.open_entry(&s, 0, 2).expect("load");
    assert!(!req.thumbnails);
    assert_eq!(req.paths, vec!["img2.png".to_string()]);
    assert!(m.open_entry(&s, 0, 1).is_none(), "busy");
    m.receive_loaded(&mut s, 0, Ok(info("img2.png", 1)));
    assert!(m.finish_loading(&mut s));
    assert_eq!(s.cell_order, vec![CellKind::Image(0)]);
    assert_eq!(s.folder_cells[0].open_entry, Some(2));
}

#[test]
fn open_selected_is_capped_by_room() {
    let mut m: FolderManager<u32> = FolderManager::new();
    let mut s = State::new();
    m.register_folder_cell(&mut s, "a".to_string(), entries(20));
    m.pending_thumbnails.clear();
    for i in 0..12 {
        s.folder_cells[0].selected.insert(i);
    }
    let req = m.open_selected(&s, 0).expect("load");
    assert_eq!(req.paths.len(), 8, "7 free cells plus the folder's own");
    let distinct: HashSet<&String> = req.paths.iter().collect();
    assert_eq!(distinct.len(), 8);
}

#[test]
fn remove_action_reindexes_selection() {
    let mut m: FolderManager<u32> = FolderManager::new();
    let mut s = State::new();
    m.register_folder_cell(&mut s, "a".to_string(), entries(5));
    s.folder_cells[0].selected.extend([1, 2, 4]);
    let effect = m.handle_action(&mut s, FolderAction::Remove(2));
    assert!(matches!(effect, FolderEffect::Nothing));
    assert_eq!(s.folder_cells[0].entries, vec!["img0.png", "img1.png", "img3.png", "img4.png"]);
    let sel: HashSet<usize> = [1, 3].into_iter().collect();
    assert_eq!(s.folder_cells[0].selected, sel);
    assert_eq!(s.folder_cells[0].thumbnails.len(), 4);
}

#[test]
fn toggle_view_and_reveal() {
    let mut m: FolderManager<u32> = FolderManager::new();
    let mut s = State::new();
    m.register_folder_cell(&mut s, "a".to_string(), entries(1));
    let _ = m.handle_action(&mut s, FolderAction::ToggleView);
    assert!(s.folder_cells[0].view_mode == FolderView::Thumbnail);
    let _ = m.handle_action(&mut s, FolderAction::ToggleView);
    assert!(s.folder_cells[0].view_mode == FolderView::List);
    match m.handle_action(&mut s, FolderAction::OpenFolder("x/y.png".to_string())) {
        FolderEffect::Reveal(p) => assert_eq!(p, "x/y.png"),
        _ => panic!("expected reveal"),
    }
}

#[test]
fn select_synced_selects_everywhere_it_exists() {
    let mut m: FolderManager<u32> = FolderManager::new();
    let mut s = State::new();
    m.register_folder_cell(&mut s, "a".to_string(), entries(5));
    m.register_folder_cell(&mut s, "b".to_string(), entries(2));
    s.folder_cells[1].selected.insert(0);
    let _ = m.handle_action(&mut s, FolderAction::SelectSynced(3));
    assert_eq!(s.folder_cells[0].selected, [3].into_iter().collect::<HashSet<usize>>());
    assert_eq!(s.folder_cells[1].selected, [0].into_iter().collect::<HashSet<usize>>());
}

fn folder(n: usize) -> FolderCell<u32, ()> {
    FolderCell {
        dir_path: "d".to_string(),
        entries: entries(n),
        selected: HashSet::new(),
        view_mode: FolderView::List,
        scroll_offset: None,
        thumbnails: vec![None; n],
        open_entry: None,
        scroll_to: None,
    }
}

#[test]
fn click_selection_rules() {
    let mut fc = folder(10);
    select_on_click(&mut fc, 3, false, false);
    assert_eq!(fc.selected, [3].into_iter().collect::<HashSet<usize>>());
    select_on_click(&mut fc, 6, false, true);
    assert_eq!(fc.selected, [3, 4, 5, 6].into_iter().collect::<HashSet<usize>>());
    select_on_click(&mut fc, 1, false, true);
    assert_eq!(fc.selected, (1..=6).collect::<HashSet<usize>>());
    select_on_click(&mut fc, 4, true, false);
    assert!(!fc.selected.contains(&4));
    select_on_click(&mut fc, 9, true, false);
    assert!(fc.selected.contains(&9));
    let mut empty = folder(3);
    select_on_click(&mut empty, 2, false, true);
    assert_eq!(empty.selected, [2].into_iter().collect::<HashSet<usize>>());
}

#[test]
fn remove_entry_drops_slot_and_shifts_selection() {
    let mut fc = folder(4);
    fc.selected.extend([0, 3]);
    remove_entry(&mut fc, 0);
    assert_eq!(fc.entries, vec!["img1.png", "img2.png", "img3.png"]);
    assert_eq!(fc.selected, [2].into_iter().collect::<HashSet<usize>>());
    assert_eq!(fc.thumbnails.len(), 3);
}

#[test]
fn full_grid_skips_registration() {
    let mut m: FolderManager<u32> = FolderManager::new();
    let mut s = State::new();
    for i in 0..8 {
        m.register_folder_cell(&mut s, format!("d{i}"), entries(1));
    }
    m.register_folder_cell(&mut s, "extra".to_string(), entries(1));
    assert_eq!(s.folder_cells.len(), 8);
    assert_eq!(m.pending_thumbnails.len(), 8);
}

#[test]
fn navigate_loads_every_target() {
    let mut m: FolderManager<u32> = FolderManager::new();
    assert!(m.navigate(vec![]).is_none());
    let req = m.navigate(vec![(0, 0, 1, "a/1.png".to_string()), (1, 1, 3, "b/3.png".to_string())]).expect("load");
    assert_eq!(req.paths, vec!["a/1.png".to_string(), "b/3.png".to_string()]);
    assert!(m.is_loading());
}
