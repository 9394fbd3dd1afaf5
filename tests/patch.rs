use rsdiff::patch::Patch;
use rsdiff::{diff_with_block_size, Operation};

#[test]
fn patch_rebuilds_simple_edit() {
    let ops = diff_with_block_size(4, b"i saw a red fox", b"i saw a red box");
    let mut patch = Patch::new(ops);
    assert!(!patch.apply(b"i saw a red fox"));
    assert_eq!(patch.buffer(), b"i saw a red box");
    assert_eq!(patch.buffer_utf8().unwrap(), "i saw a red box");
}

#[test]
fn patch_without_ops_does_nothing() {
    let mut patch = Patch::new(Vec::new());
    assert!(!patch.apply(b"anything"));
    assert!(patch.buffer().is_empty());
}

#[test]
fn patch_appends_and_truncates() {
    let mut patch = Patch::new(vec![Operation::Insert { offset: 9, buffer: b" and friends".to_vec() }]);
    patch.apply(b"hello fox");
    assert_eq!(patch.buffer(), b"hello fox and friends");
    let mut patch = Patch::new(vec![Operation::Remove { offset: 9, len: 12 }]);
    patch.apply(b"hello fox and friends");
    assert_eq!(patch.buffer(), b"hello fox");
}

#[test]
fn patch_to_empty_reports_it() {
    let mut patch = Patch::new(vec![Operation::Remove { offset: 0, len: 3 }]);
    assert!(patch.apply(b"abc"));
    assert!(patch.buffer().is_empty());
}

#[test]
fn patch_rejects_invalid_utf8() {
    let mut patch = Patch::new(vec![Operation::Insert { offset: 0, buffer: vec![0xff, 0xfe] }]);
    patch.apply(b"");
    assert_eq!(patch.buffer(), &[0xff, 0xfe]);
    assert!(patch.buffer_utf8().is_err());
}
