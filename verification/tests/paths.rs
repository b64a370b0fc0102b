use scratchgen::extension::{extension_start, has_image_ext, is_image_ext};
use scratchgen::path_order::{compare_bytes, compare_keys, sorted_unique, Rel};

fn normal(name: &str) -> Vec<u8> {
    let mut v = vec![4u8];
    v.extend_from_slice(name.as_bytes());
    v
}

fn key(parts: &[&str]) -> Vec<Vec<u8>> {
    parts.iter().map(|p| normal(p)).collect()
}

#[test]
fn known_extensions_in_any_case() {
    assert!(has_image_ext(b"photo.JPG"));
    assert!(has_image_ext(b"x.JpEg"));
    assert!(has_image_ext(b"scan.tiff"));
    assert!(is_image_ext(b"WEBP"));
    assert!(!is_image_ext(b"tif"));
}

#[test]
fn names_without_an_image_extension() {
    assert!(!has_image_ext(b"archive.tar.gz"));
    assert!(!has_image_ext(b"noext"));
    assert!(!has_image_ext(b".png"));
    assert!(!has_image_ext(b".."));
    assert!(!has_image_ext(b"a."));
    assert!(!has_image_ext(b"a.png.txt"));
}

#[test]
fn extension_starts_after_last_dot() {
    assert_eq!(extension_start(b"a.b.png"), Some(4));
    assert_eq!(extension_start(b"a."), Some(2));
    assert_eq!(extension_start(b".hidden"), None);
    assert_eq!(extension_start(b"plain"), None);
    assert_eq!(extension_start(b".."), None);
}

#[test]
fn bytes_compare_lexicographically() {
    assert_eq!(compare_bytes(&b"ab".to_vec(), &b"b".to_vec()), Rel::Less);
    assert_eq!(compare_bytes(&b"ab".to_vec(), &b"a".to_vec()), Rel::Greater);
    assert_eq!(compare_bytes(&b"ab".to_vec(), &b"ab".to_vec()), Rel::Equal);
}

#[test]
fn paths_compare_by_components() {
    // "a/b" comes before "a-b": the component "a" is a prefix of "a-b"
    assert_eq!(compare_keys(&key(&["a", "b"]), &key(&["a-b"])), Rel::Less);
    assert_eq!(compare_keys(&key(&["a"]), &key(&["a", "b"])), Rel::Less);
    assert_eq!(compare_keys(&key(&["x", "y"]), &key(&["x", "y"])), Rel::Equal);
}

#[test]
fn sorted_unique_keeps_first_of_equal_paths() {
    let keys = vec![key(&["b"]), key(&["a"]), key(&["b"]), key(&["a", "c"])];
    assert_eq!(sorted_unique(&keys), vec![1, 3, 0]);
}

#[test]
fn sorted_unique_of_nothing() {
    let keys: Vec<Vec<Vec<u8>>> = Vec::new();
    assert!(sorted_unique(&keys).is_empty());
}

#[test]
fn root_sorts_before_names() {
    let rooted = vec![vec![1u8], normal("z")];
    let relative = vec![normal("a")];
    assert_eq!(compare_keys(&rooted, &relative), Rel::Less);
}

#[test]
fn kept_paths_ignore_order_and_repeats() {
    let a = vec![key(&["img", "b.png"]), key(&["img", "a.png"]), key(&["c.png"])];
    let b = vec![key(&["c.png"]), key(&["img", "a.png"]), key(&["img", "b.png"]), key(&["c.png"]), key(&["img", "a.png"])];
    let kept_a: Vec<Vec<Vec<u8>>> = sorted_unique(&a).into_iter().map(|i| a[i].clone()).collect();
    let kept_b: Vec<Vec<Vec<u8>>> = sorted_unique(&b).into_iter().map(|i| b[i].clone()).collect();
    assert_eq!(kept_a, kept_b);
    assert_eq!(kept_a, vec![key(&["c.png"]), key(&["img", "a.png"]), key(&["img", "b.png"])]);
}
