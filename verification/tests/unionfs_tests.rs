use rcore_fs::unionfs::{merge_entries, whiteout, NameSet, Path};

#[test]
fn path_append_and_lastn() {
    let mut p = Path::new();
    p.append("a");
    p.append("b");
    p.append(".");
    p.append("c");
    p.append("..");
    assert_eq!(p.lastn(2), &[b"a".to_vec(), b"b".to_vec()][..]);
    assert_eq!(p.lastn(0).len(), 0);
    let q = p.with_next("d");
    assert_eq!(q.lastn(3), &[b"a".to_vec(), b"b".to_vec(), b"d".to_vec()][..]);
    assert_eq!(p.lastn(2), &[b"a".to_vec(), b"b".to_vec()][..]);
    let mut r = Path::new();
    r.append("..");
    assert_eq!(r.lastn(0).len(), 0);
    assert_eq!(r.hash(), 0);
}

#[test]
fn path_hash_times33() {
    let mut p = Path::new();
    p.append("ab");
    // ((0 * 33 + 'a') * 33 + 'b')
    assert_eq!(p.hash(), 97 * 33 + 98);
    p.append("c");
    assert_eq!(p.hash(), (97 * 33 + 98) * 33 + 99);
    let mut q = Path::new();
    q.append("abc");
    assert_eq!(q.hash(), p.hash());
    let mut long = Path::new();
    for _ in 0..20 {
        long.append("zzzzzzzz");
    }
    let mut h: usize = 0;
    for _ in 0..160 {
        h = h.wrapping_mul(33).wrapping_add(b'z' as usize);
    }
    assert_eq!(long.hash(), h);
}

#[test]
fn whiteout_name() {
    assert_eq!(whiteout("file1"), b".wh.file1".to_vec());
    assert_eq!(whiteout(""), b".wh.".to_vec());
}

#[test]
fn name_set_sorted() {
    let mut s = NameSet::new();
    s.insert(b"file2");
    s.insert(b"dir");
    s.insert(b"file1");
    s.insert(b"file2");
    assert_eq!(s.len(), 3);
    assert_eq!(s.nth(0), Some(b"dir".to_vec()));
    assert_eq!(s.nth(1), Some(b"file1".to_vec()));
    assert_eq!(s.nth(2), Some(b"file2".to_vec()));
    assert_eq!(s.nth(3), None);
    assert!(s.contains(b"file1"));
    assert!(!s.contains(b"file"));
    s.remove(b"file1");
    s.remove(b"nothing");
    assert_eq!(s.len(), 2);
    assert!(!s.contains(b"file1"));
    assert_eq!(s.nth(1), Some(b"file2".to_vec()));
}

#[test]
fn merge_with_whiteouts() {
    let image = vec![b".".to_vec(), b"..".to_vec(), b"file1".to_vec(), b"file2".to_vec(), b"dir".to_vec()];
    let container = vec![b".".to_vec(), b"..".to_vec(), b".wh.file1".to_vec(), b"file3".to_vec()];
    let images = vec![image];
    let s = merge_entries(&images, Some(&container[..]));
    assert_eq!(s.len(), 5);
    assert_eq!(s.nth(0), Some(b".".to_vec()));
    assert_eq!(s.nth(1), Some(b"..".to_vec()));
    assert_eq!(s.nth(2), Some(b"dir".to_vec()));
    assert_eq!(s.nth(3), Some(b"file2".to_vec()));
    assert_eq!(s.nth(4), Some(b"file3".to_vec()));
    let only_images = merge_entries(&images, None);
    assert_eq!(only_images.len(), 5);
    assert!(only_images.contains(b"file1"));
}
