use std::collections::HashSet;

use mmcompare::state::{AppState, CellKind, FolderCell, FolderView, ImageInfo, ImageSource};

type State = AppState<(), (), (), ()>;

fn make_info(name: &str) -> ImageInfo<()> {
    ImageInfo {
        texture: (),
        size: [4, 4],
        rgba: vec![255; 64],
        path: name.to_string(),
        exif: String::new(),
        histogram: [0; 256],
    }
}

fn add_folder(state: &mut State, n: usize) -> usize {
    let idx = state.folder_cells.len();
    state.folder_cells.push(FolderCell {
        dir_path: format!("dir{idx}"),
        entries: (0..n).map(|i| format!("dir{idx}/img{i}.png")).collect(),
        selected: HashSet::new(),
        view_mode: FolderView::List,
        scroll_offset: None,
        thumbnails: vec![None; n],
        open_entry: None,
        scroll_to: None,
    });
    state.cell_order.push(CellKind::Folder(idx));
    state.pan_offset.push(None);
    idx
}

fn image_pos(state: &State, img_idx: usize) -> usize {
    state
        .cell_order
        .iter()
        .position(|c| matches!(c, CellKind::Image(i) if *i == img_idx))
        .expect("image cell in order")
}

#[test]
fn single_folder_allows_multi_open_but_no_nav() {
    let mut s = State::new();
    let fi = add_folder(&mut s, 5);
    s.open_folder_entry(fi, 0, make_info("a0"));
    s.open_folder_entry(fi, 1, make_info("a1"));
    assert_eq!(s.image_cells.len(), 2, "单文件夹可开多张");
    assert_eq!(s.folder_open_counts(), [2]);
    assert!(!s.folder_nav_allowed(), "同文件夹多图不响应导航");
    assert!(!s.is_compare_pair());
}

#[test]
fn single_folder_one_image_nav_allowed() {
    let mut s = State::new();
    let fi = add_folder(&mut s, 5);
    s.open_folder_entry(fi, 0, make_info("a0"));
    assert!(s.folder_nav_allowed(), "单文件夹 1 张可导航");
    assert_eq!(s.folder_nav_targets(1).len(), 1);
}

#[test]
fn multi_folder_limits_one_per_folder() {
    let mut s = State::new();
    let fa = add_folder(&mut s, 5);
    let fb = add_folder(&mut s, 5);
    s.open_folder_entry(fa, 0, make_info("a0"));
    s.open_folder_entry(fa, 1, make_info("a1"));
    assert_eq!(s.image_cells.len(), 1, "多文件夹时重复打开自动替换");
    assert!(s.folder_nav_allowed());
    assert!(!s.is_compare_pair(), "单侧开图不是对比对");
    s.open_folder_entry(fb, 0, make_info("b0"));
    assert!(s.is_compare_pair(), "2 文件夹各 1 张构成对比对");
    assert!(s.folder_nav_allowed());
    assert_eq!(s.folder_nav_targets(1).len(), 2, "对比对同步索引两张");
}

#[test]
fn delete_down_to_one_restores_nav() {
    let mut s = State::new();
    let fi = add_folder(&mut s, 5);
    s.open_folder_entry(fi, 0, make_info("a0"));
    s.open_folder_entry(fi, 1, make_info("a1"));
    s.remove_cell(image_pos(&s, 0));
    assert_eq!(s.image_cells.len(), 1);
    assert!(s.folder_nav_allowed(), "删到 1 张恢复导航");
}

#[test]
fn delete_all_restores_folder_cell() {
    let mut s = State::new();
    let fi = add_folder(&mut s, 5);
    s.open_folder_entry(fi, 0, make_info("a0"));
    s.open_folder_entry(fi, 1, make_info("a1"));
    s.remove_cell(image_pos(&s, 0));
    assert!(
        !s.cell_order.iter().any(|c| matches!(c, CellKind::Folder(f) if *f == fi)),
        "还有打开图时文件夹保持隐藏"
    );
    s.remove_cell(image_pos(&s, 0));
    assert!(
        s.cell_order.iter().any(|c| matches!(c, CellKind::Folder(f) if *f == fi)),
        "最后一张被删后文件夹恢复"
    );
}

#[test]
fn compare_pair_remove_forbidden_by_ui_rule() {
    let mut s = State::new();
    let fa = add_folder(&mut s, 5);
    let fb = add_folder(&mut s, 5);
    s.open_folder_entry(fa, 0, make_info("a0"));
    s.open_folder_entry(fb, 0, make_info("b0"));
    assert!(s.is_compare_pair());
    s.remove_cell(image_pos(&s, 0));
    assert!(!s.is_compare_pair());
}

#[test]
fn open_at_full_grid_when_folder_visible() {
    let mut s = State::new();
    let fi = add_folder(&mut s, 5);
    let infos: Vec<ImageInfo<()>> = (0..7).map(|i| make_info(&format!("s{i}"))).collect();
    s.append_standalone_images(infos);
    assert_eq!(s.cell_order.len(), 8, "1 folder + 7 standalone 满格");
    s.open_folder_entry(fi, 0, make_info("f0"));
    assert_eq!(s.image_cells.len(), 8, "打开成功");
    assert_eq!(s.cell_order.len(), 8, "folder 隐藏，格数不变");
}

#[test]
fn open_rejected_when_folder_hidden_at_full_grid() {
    let mut s = State::new();
    let fi = add_folder(&mut s, 20);
    for i in 0..8 {
        s.open_folder_entry(fi, i, make_info(&format!("f{i}")));
    }
    assert_eq!(s.image_cells.len(), 8);
    assert!(
        !s.cell_order.iter().any(|c| matches!(c, CellKind::Folder(f) if *f == fi)),
        "folder 已隐藏"
    );
    s.open_folder_entry(fi, 8, make_info("f8"));
    assert_eq!(s.image_cells.len(), 8, "第 9 张被拒");
}

#[test]
fn open_image_keeps_folder_position() {
    let mut s = State::new();
    let fa = add_folder(&mut s, 5);
    let fb = add_folder(&mut s, 5);
    s.open_folder_entry(fa, 0, make_info("a0"));
    assert!(matches!(s.cell_order[0], CellKind::Image(_)), "A 的图占据 A 的原位置（左 cell）");
    assert!(matches!(s.cell_order[1], CellKind::Folder(f) if f == fb), "B 的文件夹仍在右 cell");
    s.open_folder_entry(fb, 0, make_info("b0"));
    assert_eq!(s.cell_order.len(), 2);
    let CellKind::Image(a_img) = s.cell_order[0] else {
        panic!("left cell is image");
    };
    assert!(
        matches!(s.image_cells[a_img].source, ImageSource::FromFolder { folder_idx, .. } if folder_idx == fa),
        "左 cell = 左文件夹的图"
    );
}

#[test]
fn remove_restores_folder_to_original_position() {
    let mut s = State::new();
    let fa = add_folder(&mut s, 5);
    let fb = add_folder(&mut s, 5);
    s.open_folder_entry(fa, 0, make_info("a0"));
    s.open_folder_entry(fb, 0, make_info("b0"));
    s.remove_cell(0);
    assert!(matches!(s.cell_order[0], CellKind::Folder(f) if f == fa), "A 恢复原位");
    assert!(matches!(s.cell_order[1], CellKind::Image(_)), "B 图仍在右");
}

#[test]
fn esc_restores_selection_to_navigated_position() {
    let mut s = State::new();
    let fa = add_folder(&mut s, 10);
    s.open_folder_entry(fa, 2, make_info("a2"));
    s.apply_navigated_image(0, fa, 5, make_info("a5"));
    assert_eq!(s.folder_cells[fa].open_entry, Some(5));
    let pos = s.cell_order.iter().position(|c| matches!(c, CellKind::Image(_))).unwrap();
    s.close_folder_at_pos(pos);
    assert!(s.folder_cells[fa].selected.contains(&5), "选中回到退出时的图片位置");
    assert_eq!(s.folder_cells[fa].scroll_to, Some(5), "请求滚动到退出位置（渲染层据此定位到第二条）");
    assert_eq!(s.folder_cells[fa].open_entry, None, "open_entry 已清空");
    assert!(
        s.cell_order.iter().any(|c| matches!(c, CellKind::Folder(f) if *f == fa)),
        "文件夹恢复"
    );
}

#[test]
fn open_then_close_gives_back_the_grid() {
    let mut s = State::new();
    let fa = add_folder(&mut s, 3);
    let before = s.cell_order.clone();
    s.open_folder_entry(fa, 1, make_info("a1"));
    assert!(matches!(s.cell_order[0], CellKind::Image(0)));
    s.close_folder_at_pos(0);
    assert_eq!(s.cell_order, before);
    assert!(s.image_cells.is_empty());
}

#[test]
fn standalone_images_append_in_order() {
    let mut s = State::new();
    s.append_standalone_images(vec![make_info("x"), make_info("y")]);
    assert_eq!(s.cell_order, vec![CellKind::Image(0), CellKind::Image(1)]);
    assert_eq!(s.image_cells[1].info.path, "y");
    assert!(s.is_all_images());
    s.swap_cells(0, 1);
    assert_eq!(s.cell_order, vec![CellKind::Image(1), CellKind::Image(0)]);
}

#[test]
fn removing_a_folder_detaches_its_images() {
    let mut s = State::new();
    let fa = add_folder(&mut s, 3);
    let fb = add_folder(&mut s, 3);
    s.open_folder_entry(fb, 0, make_info("b0"));
    let pos_a = s.cell_order.iter().position(|c| matches!(c, CellKind::Folder(f) if *f == fa)).unwrap();
    s.remove_cell(pos_a);
    assert_eq!(s.folder_cells.len(), 1);
    assert!(matches!(s.image_cells[0].source, ImageSource::FromFolder { folder_idx: 0, entry_idx: 0 }));
    let pos_b = s.cell_order.iter().position(|c| matches!(c, CellKind::Image(_))).unwrap();
    s.remove_cell(pos_b);
    assert!(s.cell_order.iter().any(|c| matches!(c, CellKind::Folder(0))));
}

#[test]
fn nav_targets_clamp_at_the_ends() {
    let mut s = State::new();
    let fa = add_folder(&mut s, 3);
    s.open_folder_entry(fa, 2, make_info("a2"));
    assert!(s.folder_nav_targets(1).is_empty());
    let back = s.folder_nav_targets(-1);
    assert_eq!(back, vec![(0, fa, 1, "dir0/img1.png".to_string())]);
}

#[test]
fn removal_shrinks_the_grid_unless_a_folder_returns() {
    let mut s = State::new();
    let fi = add_folder(&mut s, 5);
    s.open_folder_entry(fi, 0, make_info("a0"));
    s.open_folder_entry(fi, 1, make_info("a1"));
    s.append_standalone_images(vec![make_info("x")]);
    let n = s.cell_order.len();
    s.remove_cell(image_pos(&s, 2));
    assert_eq!(s.cell_order.len(), n - 1, "standalone image removed");
    s.remove_cell(image_pos(&s, 0));
    assert_eq!(s.cell_order.len(), n - 2, "folder still has an open image");
    s.remove_cell(image_pos(&s, 0));
    assert_eq!(s.cell_order.len(), n - 2, "the folder takes the last image's place");
    assert_eq!(s.pan_offset.len(), s.cell_order.len());
    assert!(s.cell_order.iter().all(|c| match c {
        CellKind::Image(i) => *i < s.image_cells.len(),
        CellKind::Folder(f) => *f < s.folder_cells.len(),
    }));
}
