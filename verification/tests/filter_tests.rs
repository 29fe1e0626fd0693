use ni_watcher::filter::{
    bytes_eq, contains_bytes, extension_of, is_image_file, norm_marker_bytes, tmp_marker_bytes,
    IgnoreFilter, RECENT_WINDOW_MS,
};

#[test]
fn tmp_marker_name_always_ignored() {
    let mut f = IgnoreFilter::new(RECENT_WINDOW_MS);
    let p = b"C:/watch/picture_tmp.png".to_vec();
    assert!(f.should_ignore(&p, 0));
    // still ignored on any later check: the marker alone decides
    assert!(f.should_ignore(&p, 10_000));
}

#[test]
fn normalized_marker_name_always_ignored() {
    let mut f = IgnoreFilter::new(RECENT_WINDOW_MS);
    let p = b"/watch/picture.normalized.jpg".to_vec();
    assert!(f.should_ignore(&p, 0));
    assert!(f.should_ignore(&p, 999_999));
}

#[test]
fn plain_name_accepted_once() {
    let mut f = IgnoreFilter::new(RECENT_WINDOW_MS);
    let p = b"/watch/picture.png".to_vec();
    assert!(!f.should_ignore(&p, 1_000));
}

#[test]
fn recent_membership_is_transient() {
    let mut f = IgnoreFilter::new(2_000);
    let p = b"/watch/a.png".to_vec();
    // accepted, which arms the short-term memory
    assert!(!f.should_ignore(&p, 1_000));
    // a repeat check within the window is ignored
    assert!(f.should_ignore(&p, 2_500));
    // after the window elapses, the path is accepted again
    assert!(!f.should_ignore(&p, 3_001));
}

#[test]
fn scheduled_removal_clears_membership() {
    let mut f = IgnoreFilter::new(2_000);
    let p = b"/watch/a.png".to_vec();
    assert!(!f.should_ignore(&p, 1_000));
    f.remove(&p);
    // even within the window, the path is accepted again after removal
    assert!(!f.should_ignore(&p, 1_500));
}

#[test]
fn membership_is_per_path() {
    let mut f = IgnoreFilter::new(2_000);
    let a = b"/watch/a.png".to_vec();
    let b = b"/watch/b.png".to_vec();
    assert!(!f.should_ignore(&a, 1_000));
    assert!(!f.should_ignore(&b, 1_100));
    assert!(f.should_ignore(&a, 1_200));
    assert!(f.should_ignore(&b, 1_200));
}

#[test]
fn image_extensions_case_insensitive() {
    assert!(is_image_file(&b"photo.JPG".to_vec()));
    assert!(is_image_file(&b"photo.jpeg".to_vec()));
    assert!(is_image_file(&b"photo.Png".to_vec()));
    assert!(is_image_file(&b"photo.bmp".to_vec()));
    assert!(is_image_file(&b"photo.GIF".to_vec()));
    assert!(is_image_file(&b"photo.tiff".to_vec()));
    assert!(is_image_file(&b"photo.webp".to_vec()));
}

#[test]
fn non_image_names_rejected() {
    assert!(!is_image_file(&b"notes.txt".to_vec()));
    assert!(!is_image_file(&b"archive".to_vec()));
    assert!(!is_image_file(&b".png".to_vec()));
    assert!(!is_image_file(&b"dir/.png".to_vec()));
    assert!(!is_image_file(&b"a.png/c".to_vec()));
}

#[test]
fn extension_extraction() {
    assert_eq!(extension_of(&b"a.png".to_vec()), Some(b"png".to_vec()));
    assert_eq!(extension_of(&b"a.b.png".to_vec()), Some(b"png".to_vec()));
    assert_eq!(extension_of(&b"noext".to_vec()), None);
    assert_eq!(extension_of(&b".hidden".to_vec()), None);
    assert_eq!(extension_of(&b"d/.hidden".to_vec()), None);
}

#[test]
fn substring_search() {
    assert!(contains_bytes(&b"photo_tmp.png".to_vec(), &tmp_marker_bytes()));
    assert!(contains_bytes(
        &b"x.normalized.png".to_vec(),
        &norm_marker_bytes()
    ));
    assert!(!contains_bytes(&b"photo.png".to_vec(), &tmp_marker_bytes()));
    assert!(contains_bytes(&b"abc".to_vec(), &b"".to_vec()));
    assert!(!contains_bytes(&b"ab".to_vec(), &b"abc".to_vec()));
}

#[test]
fn byte_equality() {
    assert!(bytes_eq(&b"abc".to_vec(), &b"abc".to_vec()));
    assert!(!bytes_eq(&b"abc".to_vec(), &b"abd".to_vec()));
    assert!(!bytes_eq(&b"abc".to_vec(), &b"ab".to_vec()));
}
