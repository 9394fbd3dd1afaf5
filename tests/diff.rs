use rsdiff::hash::calculate_block_size;
use rsdiff::{diff, diff_with_block_size, Delta, Operation, Signature};

fn sorted(mut ops: Vec<Operation>) -> Vec<Operation> {
    ops.sort_by_key(|op| op.is_insert());
    ops
}

fn check(v1: &str, v2: &str, bs: usize, inserts: &[(usize, &str)], removes: &[(usize, usize)]) {
    let ops = sorted(diff_with_block_size(bs, v1.as_bytes(), v2.as_bytes()));
    let mut expected_ops: Vec<Operation> = Vec::new();
    for (offset, buf) in inserts {
        expected_ops.push(Operation::Insert { offset: *offset, buffer: buf.bytes().collect() });
    }
    for (offset, len) in removes {
        expected_ops.push(Operation::Remove { offset: *offset, len: *len });
    }
    assert_eq!(ops, sorted(expected_ops));
}

#[test]
fn test_simple() {
    check("i saw a red fox", "i saw a red box", 4, &[(12, "box")], &[(15, 3)]);
    check("i saw a red fox", "i saw a green fox", 8, &[(8, "green fox")], &[(17, 7)]);
}

#[test]
fn test_inserts() {
    check(
        "my name is shady khalifa and this a test",
        "my name is shady khalifa and this a new test",
        4,
        &[(36, "new ")],
        &[],
    );
    check("hello fox", "hello fox and friends", 3, &[(9, " and friends")], &[]);
}

#[test]
fn test_removes() {
    check(
        "my name is shady khalifa and this a new test",
        "my name is shady khalifa and this a test",
        4,
        &[],
        &[(36, 4)],
    );
    check("hello fox and friends", "hello fox", 3, &[], &[(9, 12)]);
}

#[test]
fn test_no_changes() {
    check("wow there is no updates", "wow there is no updates", 4, &[], &[]);
}

#[test]
fn test_more_changes() {
    check(
        "hello there, do you know rust?",
        "hi, do you know about rustlang?",
        5,
        &[(0, "hi, do"), (16, "about rustlang?")],
        &[(6, 15), (31, 5)],
    );
}

#[test]
fn test_dynamic_block_size() {
    check(
        "hello there, do you know rust?",
        "hi, do you know about rustlang?",
        calculate_block_size(32),
        &[(0, "hi, do you know about rustlang?")],
        &[(31, 30)],
    );
}

#[test]
fn emission_order_is_kept() {
    let ops = diff_with_block_size(5, b"hello there, do you know rust?", b"hi, do you know about rustlang?");
    assert_eq!(
        ops,
        vec![
            Operation::Insert { offset: 0, buffer: b"hi, do".to_vec() },
            Operation::Remove { offset: 6, len: 15 },
            Operation::Insert { offset: 16, buffer: b"about rustlang?".to_vec() },
            Operation::Remove { offset: 31, len: 5 },
        ]
    );
}

#[test]
fn offsets_never_decrease_per_kind() {
    let ops = diff_with_block_size(3, b"abcdefghijklmnop", b"xxabcyyghizzmnopqq");
    let mut last_insert = 0;
    let mut last_remove = 0;
    for op in &ops {
        if op.is_insert() {
            assert!(op.offset() >= last_insert);
            last_insert = op.offset();
        } else {
            assert!(op.offset() >= last_remove);
            last_remove = op.offset();
        }
    }
    assert!(!ops.is_empty());
}

#[test]
fn same_buffer_gives_no_ops() {
    let a = b"abcdefghijklmnopqrstuvwxyz0123456789";
    assert!(diff_with_block_size(4, a, a).is_empty());
    assert!(diff_with_block_size(7, a, a).is_empty());
    assert!(diff(a, a).is_empty());
}

#[test]
fn repeated_blocks_miss_their_match() {
    let ops = diff_with_block_size(4, b"aaaaaaaa", b"aaaaaaaa");
    assert_eq!(
        ops,
        vec![
            Operation::Remove { offset: 0, len: 4 },
            Operation::Insert { offset: 4, buffer: b"aaaa".to_vec() },
        ]
    );
}

#[test]
fn appended_tail_is_one_insert() {
    let ops = diff_with_block_size(4, b"abcdefgh", b"abcdefghXYZ");
    assert_eq!(ops, vec![Operation::Insert { offset: 8, buffer: b"XYZ".to_vec() }]);
}

#[test]
fn block_prefix_is_one_remove() {
    let ops = diff_with_block_size(4, b"abcdefghij", b"abcd");
    assert_eq!(ops, vec![Operation::Remove { offset: 4, len: 6 }]);
    let ops = diff_with_block_size(4, b"abcdefghij", b"");
    assert_eq!(ops, vec![Operation::Remove { offset: 0, len: 10 }]);
}

#[test]
fn empty_buffers() {
    assert!(diff_with_block_size(4, b"", b"").is_empty());
    assert_eq!(
        diff_with_block_size(4, b"", b"new"),
        vec![Operation::Insert { offset: 0, buffer: b"new".to_vec() }]
    );
}

#[test]
fn weak_collision_is_caught_by_strong_hash() {
    // "bab" and "aca" share a weak hash; only the strong hash tells them apart.
    assert_eq!(rsdiff::weak_hash(b"bab"), rsdiff::weak_hash(b"aca"));
    let ops = diff_with_block_size(3, b"bab", b"aca");
    assert_eq!(
        ops,
        vec![
            Operation::Insert { offset: 0, buffer: b"aca".to_vec() },
            Operation::Remove { offset: 3, len: 3 },
        ]
    );
}

#[test]
fn delta_accumulates_over_calls() {
    let original = b"i saw a red fox";
    let mut signature = Signature::with_block_size(4, original);
    signature.calculate();
    let mut delta = Delta::new(signature.to_indexed());
    assert!(delta.operations().is_empty());
    delta.diff(b"i saw a red box");
    assert_eq!(delta.operations().len(), 2);
    delta.diff(b"i saw a red box");
    let ops = delta.into_operations();
    assert_eq!(ops.len(), 4);
    assert_eq!(ops[0], Operation::Insert { offset: 12, buffer: b"box".to_vec() });
    assert_eq!(ops[3], Operation::Remove { offset: 15, len: 3 });
}

#[test]
fn operation_accessors() {
    let ins = Operation::Insert { offset: 3, buffer: b"abc".to_vec() };
    let rem = Operation::Remove { offset: 5, len: 0 };
    assert!(ins.is_insert() && !ins.is_remove());
    assert!(rem.is_remove() && !rem.is_insert());
    assert_eq!(ins.offset(), 3);
    assert_eq!(rem.offset(), 5);
    assert_eq!(ins.len(), 3);
    assert_eq!(rem.len(), 0);
    assert!(!ins.is_empty());
    assert!(rem.is_empty());
    assert_eq!(ins.buffer(), Some(&b"abc"[..]));
    assert_eq!(rem.buffer(), None);
    assert_ne!(ins, Operation::Insert { offset: 3, buffer: b"abd".to_vec() });
    assert_ne!(rem, Operation::Remove { offset: 5, len: 1 });
}
