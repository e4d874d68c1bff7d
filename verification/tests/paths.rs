use memstapler::paths::{names, PathSet};
use memstapler::text::{chars_of, same_text};

#[test]
fn set_holds_each_path_once() {
    let mut set = PathSet::new();
    assert_eq!(set.len(), 0);
    assert!(set.insert("/usr/bin/a"));
    assert!(set.insert("/usr/bin/b"));
    assert!(!set.insert("/usr/bin/a"));
    assert_eq!(set.len(), 2);
    assert!(set.contains("/usr/bin/a"));
    assert!(!set.contains("/usr/bin/c"));
    assert_eq!(set.list(), &vec!["/usr/bin/a".to_string(), "/usr/bin/b".to_string()]);
}

#[test]
fn list_names_what_it_holds() {
    let list = vec!["/a".to_string(), "/b".to_string()];
    assert!(names(&list, &"/b".to_string()));
    assert!(!names(&list, &"/c".to_string()));
    assert!(!names(&Vec::new(), &"/a".to_string()));
}

#[test]
fn text_is_compared_by_characters() {
    assert!(same_text("", ""));
    assert!(same_text("mnt:[1]", "mnt:[1]"));
    assert!(!same_text("mnt:[1]", "mnt:[10]"));
    assert!(!same_text("a", "A"));
    assert_eq!(chars_of("/λ x"), vec!['/', 'λ', ' ', 'x']);
    assert!(chars_of("").is_empty());
}
