use mmcompare::loading::ImageBatch;
use mmcompare::state::{AppState, CellKind, ImageInfo, ImageSource};

type State = AppState<u8, (), (), ()>;

fn info(name: &str) -> ImageInfo<u8> {
    ImageInfo {
        texture: 0,
        size: [1, 1],
        rgba: vec![1, 2, 3, 255],
        path: name.to_string(),
        exif: String::new(),
        histogram: [0; 256],
    }
}

#[test]
fn batch_appends_in_drop_order_once_complete() {
    let mut s = State::new();
    s.load_errors.push("old failure".to_string());
    s.loaded_paths = vec!["a".to_string(), "b".to_string(), "c".to_string()];
    let mut batch: ImageBatch<u8> = ImageBatch::new();
    assert!(!batch.finish(&mut s), "nothing in flight");
    batch.start(&mut s, 3);
    assert!(s.load_errors.is_empty(), "errors of the last batch forgotten");
    assert_eq!(batch.pending(), 3);
    batch.receive(&mut s, 2, Ok(info("c")));
    assert!(!batch.finish(&mut s), "two files outstanding");
    batch.receive(&mut s, 1, Err("b".to_string()));
    batch.receive(&mut s, 0, Ok(info("a")));
    assert_eq!(batch.pending(), 0);
    assert!(batch.finish(&mut s));
    assert_eq!(s.cell_order, vec![CellKind::Image(0), CellKind::Image(1)]);
    assert_eq!(s.image_cells[0].info.path, "a");
    assert_eq!(s.image_cells[1].info.path, "c");
    assert!(matches!(s.image_cells[1].source, ImageSource::Standalone));
    assert_eq!(s.load_errors, vec!["b".to_string()]);
    assert_eq!(s.loaded_paths, vec!["a".to_string(), "c".to_string()], "failed path can be dropped again");
    assert!(!batch.active);
    assert!(!batch.finish(&mut s));
}

#[test]
fn empty_batch_finishes_at_once() {
    let mut s = State::new();
    let mut batch: ImageBatch<u8> = ImageBatch::new();
    batch.start(&mut s, 0);
    assert!(batch.finish(&mut s));
    assert!(s.cell_order.is_empty());
}
