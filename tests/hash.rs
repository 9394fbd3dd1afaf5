use rsdiff::hash::calculate_block_size;
use rsdiff::{weak_hash, RollingHasher, Signature};

#[test]
fn simple() {
    assert_eq!(weak_hash(&[]), 0);
    assert_eq!(weak_hash(&[0]), 0xDEADC0DEu32 << 16 | 0xDEADC0DE);
    assert_eq!(weak_hash(&[1]), (0xDEADC0DFu32) << 16 | 0xDEADC0DF);
}

#[test]
fn wikipedia() {
    assert_eq!(weak_hash("Wikipedia".as_bytes()), 0xFCFBCB65);
}

#[test]
fn rolling() {
    let buf = b"shekohex";
    let mut hasher = RollingHasher::new();
    hasher.update(buf);
    hasher.remove(b"s"[0]);
    assert_eq!(hasher.digest(), weak_hash("hekohex".as_bytes()));
    hasher.remove(b"h"[0]);
    assert_eq!(hasher.digest(), weak_hash("ekohex".as_bytes()));
    hasher.remove(b"e"[0]);
    assert_eq!(hasher.digest(), weak_hash("kohex".as_bytes()));
}

#[test]
fn signature() {
    let buf = b"my name is shady khalifa";
    let mut signature = Signature::with_block_size(8, buf);
    signature.calculate();
    let indexed = signature.to_indexed();
    println!("{:#?}", indexed);
    assert_eq!(indexed.block_size(), 8);
    assert_eq!(indexed.original_len(), 24);
}

#[test]
fn hasher_counts_and_resets() {
    let mut hasher = RollingHasher::default();
    assert_eq!(hasher.count(), 0);
    hasher.update(b"abc");
    assert_eq!(hasher.count(), 3);
    assert_eq!(hasher.digest(), weak_hash(b"abc"));
    hasher.reset();
    assert_eq!(hasher.count(), 0);
    assert_eq!(hasher.digest(), 0);
}

#[test]
fn insert_then_remove_restores_digest() {
    let mut hasher = RollingHasher::new();
    hasher.update(b"window");
    let before = hasher.digest();
    let mut other = RollingHasher::new();
    other.insert(b'x');
    other.update(b"window");
    other.remove(b'x');
    assert_eq!(other.digest(), before);
    assert_eq!(other.count(), 6);
}

#[test]
fn sliding_window_digest_matches_fresh_hash() {
    let buf = b"the quick brown fox jumps";
    let k = 5;
    let mut hasher = RollingHasher::new();
    hasher.update(&buf[..k]);
    for i in 0..buf.len() - k {
        hasher.insert(buf[i + k]);
        hasher.remove(buf[i]);
        assert_eq!(hasher.digest(), weak_hash(&buf[i + 1..i + 1 + k]));
    }
}

#[test]
fn weak_hash_two_bytes_exact() {
    // a = x0 + x1, b = 2 * x0 + x1, with x = byte + 0xDEADC0DE (mod 2^32)
    let x0 = 1u32.wrapping_add(0xDEADC0DE);
    let x1 = 2u32.wrapping_add(0xDEADC0DE);
    let a = x0.wrapping_add(x1);
    let b = x0.wrapping_mul(2).wrapping_add(x1);
    assert_eq!(weak_hash(&[1, 2]), (b << 16) | a);
}

#[test]
fn block_size_small_buffers() {
    assert_eq!(calculate_block_size(0), 32);
    assert_eq!(calculate_block_size(32), 32);
    assert_eq!(calculate_block_size(1024), 32);
}

#[test]
fn block_size_large_buffers() {
    assert_eq!(calculate_block_size(1025), 0);
    assert_eq!(calculate_block_size(16383), 0);
    assert_eq!(calculate_block_size(16384), 128);
    assert_eq!(calculate_block_size(1_000_000), 896);
    assert_eq!(calculate_block_size(65536), 256);
    assert_eq!(calculate_block_size(usize::MAX), 4294967168);
}

#[test]
fn signature_new_picks_block_size() {
    let buf = vec![7u8; 100];
    let signature = Signature::new(&buf);
    assert_eq!(signature.block_size(), 32);
}

#[test]
fn indexed_signature_clone_keeps_shape() {
    let buf = b"abcdefghij";
    let mut signature = Signature::with_block_size(4, buf);
    signature.calculate();
    let indexed = signature.to_indexed();
    let copy = indexed.clone();
    assert_eq!(copy.block_size(), 4);
    assert_eq!(copy.original_len(), 10);
}
