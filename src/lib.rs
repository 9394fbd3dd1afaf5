//! Content differencing in the style of rsync / rdiff.
//!
//! A [`Signature`] of an original buffer cuts it in fixed-size blocks, each
//! summarised by a rolling checksum and a truncated Blake2b digest. A [`Delta`]
//! scans a new buffer against the indexed signature and emits the
//! [`Operation`]s that turn the original into the new buffer.
use vstd::prelude::*;

pub mod delta;
pub mod hash;
pub mod patch;
pub mod window;

pub use delta::{Delta, Operation};
pub use hash::{calculate_block_size, weak_hash, IndexedSignature, RollingHasher, Signature};

use delta::{
    delta_of, finish, lemma_scan_matched_blocks, lemma_scan_offsets, lemma_scan_past_blocks,
    offsets_ordered, ops_view, signature_of, block_found, frame_at, OpView,
};
use hash::{
    block_count, block_of, block_size_for, distinct_weak_hashes, lemma_block_bounds,
    lemma_block_count_prefix, lemma_index_ordinals, block_hashes,
};
use window::min_nat;

verus! {

/// The operations that turn `a` into `b`, for blocks of `bs` bytes.
pub open spec fn script(bs: nat, a: Seq<u8>, b: Seq<u8>) -> Seq<OpView> {
    delta_of(signature_of(a, bs), b)
}

/// The larger of two lengths.
pub open spec fn max_len(x: nat, y: nat) -> nat {
    if x < y {
        y
    } else {
        x
    }
}

/// The operations that turn `a` into `b`, with a block size picked from the
/// longer of the two.
pub fn diff(a: &[u8], b: &[u8]) -> (r: Vec<Operation>)
    requires
        block_size_for(max_len(a@.len(), b@.len())) > 0,
    ensures
        ops_view(r@) == script(block_size_for(max_len(a@.len(), b@.len())), a@, b@),
{
    let len = if a.len() < b.len() { b.len() } else { a.len() };
    let block_size = calculate_block_size(len);
    diff_with_block_size(block_size, a, b)
}

/// The operations that turn `a` into `b`, for blocks of `block_size` bytes.
pub fn diff_with_block_size(block_size: usize, a: &[u8], b: &[u8]) -> (r: Vec<Operation>)
    requires
        block_size > 0,
    ensures
        ops_view(r@) == script(block_size as nat, a@, b@),
{
    let mut signature = Signature::with_block_size(block_size, a);
    signature.calculate();
    let mut delta = Delta::new(signature.to_indexed());
    delta.diff(b);
    delta.into_operations()
}

/// Every block ordinal of the index of `a` is below its block count.
proof fn lemma_signature_ordinals(a: Seq<u8>, bs: nat)
    ensures
        forall|w: u32| #[trigger] signature_of(a, bs).blocks.contains_key(w)
            ==> signature_of(a, bs).blocks[w].0 < block_count(a.len(), bs),
{
    lemma_index_ordinals(block_hashes(a, bs));
}

/// Diffing a buffer against itself gives no operation at all, provided no
/// two of its blocks share a weak hash.
pub proof fn lemma_same_buffer_no_ops(bs: nat, a: Seq<u8>)
    requires
        bs > 0,
        distinct_weak_hashes(a, bs),
    ensures
        script(bs, a, a) == Seq::<OpView>::empty(),
{
    let count = block_count(a.len(), bs);
    assert forall|j: nat| 0 <= j < count implies #[trigger] block_found(a, a, bs, j) by {
        lemma_block_bounds(a.len(), bs, j as int);
    }
    lemma_scan_matched_blocks(a, a, bs, 0, count, Seq::empty());
    lemma_block_count_prefix(a.len(), bs, 0);
    lemma_signature_ordinals(a, bs);
    let n = a.len();
    assert(min_nat(count * bs, n) == n);
    lemma_scan_past_blocks(signature_of(a, bs), a, n, count, n, Seq::empty());
}

/// Where `b` is `a` followed by `t` and `a` ends on a block boundary, the
/// operations are the single insertion of `t` at the end of `a` (none when
/// `t` is empty), provided no two blocks of `a` share a weak hash.
pub proof fn lemma_append_only_inserts(bs: nat, a: Seq<u8>, t: Seq<u8>)
    requires
        bs > 0,
        a.len() % bs == 0,
        distinct_weak_hashes(a, bs),
    ensures
        script(bs, a, a + t) == if t.len() == 0 {
            Seq::<OpView>::empty()
        } else {
            seq![OpView::Insert { offset: a.len(), buffer: t }]
        },
{
    let b = a + t;
    let count = block_count(a.len(), bs);
    vstd::arithmetic::div_mod::lemma_fundamental_div_mod(a.len() as int, bs as int);
    let q: int = (a.len() as int) / (bs as int);
    assert(a.len() == q * bs) by (nonlinear_arith)
        requires
            a.len() == bs * q + a.len() % bs,
            a.len() % bs == 0,
    ;
    lemma_block_count_prefix(a.len(), bs, q as nat);
    assert(count == q);
    assert forall|j: nat| 0 <= j < count implies #[trigger] block_found(a, b, bs, j) by {
        lemma_block_bounds(a.len(), bs, j as int);
        assert((j + 1) * bs <= q * bs) by (nonlinear_arith)
            requires
                j < q,
                bs > 0,
        ;
        assert(frame_at(b, bs, j * bs) =~= block_of(a, bs, j as int));
    }
    lemma_scan_matched_blocks(a, b, bs, 0, count, Seq::empty());
    lemma_signature_ordinals(a, bs);
    let n = a.len();
    assert(min_nat(count * bs, b.len()) == n);
    assert(min_nat(0 * bs, b.len()) == 0);
    lemma_scan_past_blocks(signature_of(a, bs), b, n, count, n, Seq::empty());
    assert(b.subrange(n as int, b.len() as int) =~= t);
    if t.len() == 0 {
        assert(finish(signature_of(a, bs), b, count, n, Seq::empty()) =~= Seq::<OpView>::empty());
    } else {
        assert(finish(signature_of(a, bs), b, count, n, Seq::empty()) =~= seq![OpView::Insert { offset: a.len(), buffer: t }]);
    }
}

/// Where `b` is the first `k` blocks of `a`, the operations are the single
/// removal of the rest of `a` at the end of `b` (none when nothing is left),
/// provided no two blocks of `a` share a weak hash.
pub proof fn lemma_prefix_only_removes(bs: nat, a: Seq<u8>, k: nat)
    requires
        bs > 0,
        k * bs <= a.len(),
        distinct_weak_hashes(a, bs),
    ensures
        script(bs, a, a.take(k * bs as int)) == if k * bs == a.len() {
            Seq::<OpView>::empty()
        } else {
            seq![OpView::Remove { offset: k * bs, len: (a.len() - k * bs) as nat }]
        },
{
    let b = a.take(k * bs as int);
    lemma_block_count_prefix(a.len(), bs, k);
    assert forall|j: nat| 0 <= j < k implies #[trigger] block_found(a, b, bs, j) by {
        assert((j + 1) * bs <= k * bs) by (nonlinear_arith)
            requires
                j < k,
                bs > 0,
        ;
        assert((j + 1) * bs == j * bs + bs) by (nonlinear_arith);
        assert(frame_at(b, bs, j * bs) =~= block_of(a, bs, j as int));
    }
    lemma_scan_matched_blocks(a, b, bs, 0, k, Seq::empty());
    lemma_signature_ordinals(a, bs);
    let n = b.len();
    assert(min_nat(k * bs, n) == n);
    assert(min_nat(0 * bs, n) == 0);
    let sig = signature_of(a, bs);
    assert forall|w: u32| #[trigger] sig.blocks.contains_key(w) implies sig.blocks[w].0 < block_count(a.len(), bs) by {}
    if k < block_count(a.len(), bs) {
        assert(finish(sig, b, k, n, Seq::empty()) =~= seq![OpView::Remove { offset: k * bs, len: (a.len() - k * bs) as nat }]);
    } else {
        assert(finish(sig, b, k, n, Seq::empty()) =~= Seq::<OpView>::empty());
    }
    lemma_scan_done(sig, b, k, n);
}

/// At the end of `b` a scan is over.
proof fn lemma_scan_done(sig: hash::IndexView, b: Seq<u8>, next: nat, pend: nat)
    requires
        sig.block_size > 0,
        pend == b.len(),
    ensures
        delta::scan(sig, b, b.len(), next, pend, Seq::empty()) == finish(sig, b, next, pend, Seq::empty()),
{
}

/// Along the operations of any diff, the offsets of the insertions never
/// decrease, nor do those of the removals.
pub proof fn lemma_offsets_in_order(bs: nat, a: Seq<u8>, b: Seq<u8>)
    requires
        bs > 0,
    ensures
        offsets_ordered(script(bs, a, b)),
{
    lemma_scan_offsets(signature_of(a, bs), b, 0, 0, 0, Seq::empty());
}

} // verus!
