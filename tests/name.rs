use mkdisk::name::{components, short_name};

#[test]
fn components_skip_empty_parts() {
    let parts = components(b"/a//bc/d.txt/");
    assert_eq!(parts, vec![b"a".to_vec(), b"bc".to_vec(), b"d.txt".to_vec()]);
    assert!(components(b"///").is_empty());
    assert_eq!(components(b"x"), vec![b"x".to_vec()]);
}

#[test]
fn short_names() {
    assert_eq!(short_name(b"file1.bin"), Some(*b"FILE1   BIN"));
    assert_eq!(short_name(b"dir2"), Some(*b"DIR2       "));
    assert_eq!(short_name(b"toolongname"), None);
    assert_eq!(short_name(b"a.b.c"), None);
    assert_eq!(short_name(b".x"), None);
    assert_eq!(short_name(b"a.abcd"), None);
}
