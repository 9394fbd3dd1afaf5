//! The delta between a signed buffer and a new one.
use vstd::prelude::*;

use crate::hash::{
    block_count, block_hashes, block_of, distinct_weak_hashes, index_of, lemma_block_bounds,
    lemma_block_count, lemma_index_distinct, lemma_update_count, lemma_insert_last, lemma_remove_first, strong_hash_of,
    weak_hash_of, CryptoHash, HasherView, IndexView, IndexedSignature, RollingHasher,
};
use crate::window::{min_nat, Window, WindowView};

verus! {

/// One step of turning the original buffer into the new one.
#[derive(Debug, Clone, Eq)]
pub enum Operation {
    /// Insert `buffer` at `offset` of the new buffer.
    Insert { buffer: Vec<u8>, offset: usize },
    /// At `offset` of the new buffer, skip `len` bytes of the original.
    Remove { offset: usize, len: usize },
}

/// The abstract value of an [`Operation`].
pub enum OpView {
    Insert { offset: nat, buffer: Seq<u8> },
    Remove { offset: nat, len: nat },
}

impl OpView {
    pub open spec fn offset(self) -> nat {
        match self {
            OpView::Insert { offset, .. } => offset,
            OpView::Remove { offset, .. } => offset,
        }
    }

    pub open spec fn len(self) -> nat {
        match self {
            OpView::Insert { buffer, .. } => buffer.len(),
            OpView::Remove { len, .. } => len,
        }
    }
}

impl View for Operation {
    type V = OpView;

    open spec fn view(&self) -> OpView {
        match self {
            Operation::Insert { buffer, offset } => OpView::Insert { offset: *offset as nat, buffer: buffer@ },
            Operation::Remove { offset, len } => OpView::Remove { offset: *offset as nat, len: *len as nat },
        }
    }
}

/// The abstract values of a list of operations.
pub open spec fn ops_view(ops: Seq<Operation>) -> Seq<OpView> {
    ops.map_values(|op: Operation| op@)
}

/// Whether two byte slices hold the same bytes.
fn same_bytes(x: &[u8], y: &[u8]) -> (r: bool)
    ensures
        r == (x@ == y@),
{
    if x.len() != y.len() {
        return false;
    }
    let mut i: usize = 0;
    while i < x.len()
        invariant
            x@.len() == y@.len(),
            i <= x@.len(),
            forall|j: int| 0 <= j < i ==> x@[j] == y@[j],
        decreases x@.len() - i,
    {
        if x[i] != y[i] {
            return false;
        }
        i = i + 1;
    }
    assert(x@ =~= y@);
    true
}

impl PartialEq for Operation {
    fn eq(&self, other: &Operation) -> (r: bool) {
        match self {
            Operation::Insert { buffer, offset } => match other {
                Operation::Insert { buffer: other_buffer, offset: other_offset } => {
                    *offset == *other_offset && same_bytes(buffer.as_slice(), other_buffer.as_slice())
                },
                Operation::Remove { .. } => false,
            },
            Operation::Remove { offset, len } => match other {
                Operation::Insert { .. } => false,
                Operation::Remove { offset: other_offset, len: other_len } => {
                    *offset == *other_offset && *len == *other_len
                },
            },
        }
    }
}

impl vstd::std_specs::cmp::PartialEqSpecImpl for Operation {
    open spec fn obeys_eq_spec() -> bool {
        true
    }

    open spec fn eq_spec(&self, other: &Operation) -> bool {
        self@ == other@
    }
}

impl Operation {
    /// Whether this is an [`Operation::Insert`].
    pub fn is_insert(&self) -> (r: bool)
        ensures
            r == (self@ is Insert),
    {
        match self {
            Operation::Insert { .. } => true,
            Operation::Remove { .. } => false,
        }
    }

    /// Whether this is an [`Operation::Remove`].
    pub fn is_remove(&self) -> (r: bool)
        ensures
            r == (self@ is Remove),
    {
        match self {
            Operation::Insert { .. } => false,
            Operation::Remove { .. } => true,
        }
    }

    /// Where in the new buffer the operation applies.
    pub fn offset(&self) -> (r: usize)
        ensures
            r == self@.offset(),
    {
        match self {
            Operation::Insert { offset, .. } => *offset,
            Operation::Remove { offset, .. } => *offset,
        }
    }

    /// How many bytes the operation inserts or skips.
    pub fn len(&self) -> (r: usize)
        ensures
            r == self@.len(),
    {
        match self {
            Operation::Insert { buffer, .. } => buffer.len(),
            Operation::Remove { len, .. } => *len,
        }
    }

    /// Whether the operation inserts or skips nothing.
    pub fn is_empty(&self) -> (r: bool)
        ensures
            r == (self@.len() == 0),
    {
        self.len() == 0
    }

    /// The inserted bytes, or `None` for a removal.
    pub fn buffer(&self) -> (r: Option<&[u8]>)
        ensures
            match self@ {
                OpView::Insert { buffer, .. } => r is Some && r->0@ == buffer,
                OpView::Remove { .. } => r is None,
            },
    {
        match self {
            Operation::Insert { buffer, .. } => Some(buffer.as_slice()),
            Operation::Remove { .. } => None,
        }
    }
}

/// The frame of `b` at `pos`: one block of `bs` bytes, cut at the end of `b`.
pub open spec fn frame_at(b: Seq<u8>, bs: nat, pos: nat) -> Seq<u8> {
    b.subrange(pos as int, min_nat(pos + bs, b.len()) as int)
}

/// The ordinal of the block of the signature that the frame of `b` at `pos`
/// matches, provided it is at least `next`: the block indexed under the
/// frame's weak hash, whose strong hash is the frame's too.
pub open spec fn probe(sig: IndexView, b: Seq<u8>, pos: nat, next: nat) -> Option<nat> {
    let frame = frame_at(b, sig.block_size, pos);
    let weak = weak_hash_of(frame);
    if sig.blocks.contains_key(weak) && sig.blocks[weak].1 == strong_hash_of(frame)
        && sig.blocks[weak].0 >= next {
        Some(sig.blocks[weak].0)
    } else {
        None
    }
}

/// `ops` followed by the insertion of the pending bytes `b[pend..pos]`, if any.
pub open spec fn flush(b: Seq<u8>, pend: nat, pos: nat, ops: Seq<OpView>) -> Seq<OpView> {
    if pend < pos {
        ops.push(OpView::Insert { offset: pend, buffer: b.subrange(pend as int, pos as int) })
    } else {
        ops
    }
}

/// The end of a scan: the pending bytes are inserted, and the blocks of the
/// original from ordinal `next` on are removed.
pub open spec fn finish(sig: IndexView, b: Seq<u8>, next: nat, pend: nat, ops: Seq<OpView>) -> Seq<OpView> {
    let ops = flush(b, pend, b.len(), ops);
    if next < block_count(sig.original_len, sig.block_size) {
        ops.push(
            OpView::Remove { offset: b.len(), len: (sig.original_len - next * sig.block_size) as nat },
        )
    } else {
        ops
    }
}

/// The operations that a scan of `b` appends to `ops` from position `pos` on,
/// where `next` is the ordinal one past the last matched block and the bytes
/// from `pend` to `pos` wait to be inserted.
///
/// A frame that matches a block flushes the pending bytes, removes the
/// blocks skipped since the last match, and moves the scan one block on;
/// a frame that does not moves it one byte on, and that byte waits to be
/// inserted.
pub open spec fn scan(sig: IndexView, b: Seq<u8>, pos: nat, next: nat, pend: nat, ops: Seq<OpView>) -> Seq<OpView>
    decreases b.len() - pos,
    when sig.block_size > 0
{
    if pos >= b.len() {
        finish(sig, b, next, pend, ops)
    } else {
        match probe(sig, b, pos, next) {
            Some(m) => {
                let flushed = flush(b, pend, pos, ops);
                let ops2 = if m > next {
                    flushed.push(OpView::Remove { offset: pos, len: ((m - next) * sig.block_size) as nat })
                } else {
                    flushed
                };
                let to = min_nat(pos + sig.block_size, b.len());
                scan(sig, b, to, m + 1, to, ops2)
            },
            None => scan(sig, b, pos + 1, next, pend, ops),
        }
    }
}

/// The operations that turn the signed buffer into `b`.
pub open spec fn delta_of(sig: IndexView, b: Seq<u8>) -> Seq<OpView> {
    scan(sig, b, 0, 0, 0, Seq::empty())
}

/// Sliding the window one byte on rolls its first byte out of the frame and
/// the entering byte, if any, in.
proof fn lemma_slide(w: WindowView)
    requires
        w.wf(),
        w.pos < w.buffer.len(),
    ensures
        w.frame().len() > 0,
        w.tail() == Some(w.frame()[0]),
        w.head() is Some ==> w.frame().drop_first().push(w.head()->0) == w.advanced().frame(),
        w.head() is None ==> w.frame().drop_first() == w.advanced().frame(),
        w.advanced().wf(),
        w.advanced().buffer == w.buffer,
        w.advanced().block_size == w.block_size,
        w.advanced().pos == w.pos + 1,
{
    let v = w.advanced();
    if w.head() is Some {
        assert(w.frame().drop_first().push(w.head()->0) =~= v.frame());
    } else {
        assert(w.frame().drop_first() =~= v.frame());
    }
    let bs = w.block_size as int;
    if w.pos == w.front_start + w.block_size {
        vstd::arithmetic::div_mod::lemma_add_mod_noop(w.front_start as int, bs, bs);
        vstd::arithmetic::div_mod::lemma_mod_self_0(bs);
        vstd::arithmetic::div_mod::lemma_small_mod(0, bs as nat);
    }
}

/// The abstract contents of a [`Delta`].
pub struct DeltaView {
    pub sig: IndexView,
    pub ops: Seq<OpView>,
}

/// The delta of a new buffer against the signature of an original one.
#[derive(Debug, Clone)]
pub struct Delta {
    /// The signature of the original buffer.
    sig: IndexedSignature,
    /// The operations found so far.
    ops: Vec<Operation>,
}

impl View for Delta {
    type V = DeltaView;

    closed spec fn view(&self) -> DeltaView {
        DeltaView { sig: self.sig@, ops: ops_view(self.ops@) }
    }
}

impl Delta {
    /// A delta against `signature`, with no operations yet.
    pub fn new(signature: IndexedSignature) -> (r: Self)
        ensures
            r@ == (DeltaView { sig: signature@, ops: Seq::empty() }),
    {
        let r = Delta { sig: signature, ops: Vec::new() };
        assert(r@.ops =~= Seq::empty());
        r
    }

    /// The operations found so far.
    pub fn operations(&self) -> (r: &[Operation])
        ensures
            ops_view(r@) == self@.ops,
    {
        self.ops.as_slice()
    }

    /// Consumes the delta and hands out its operations.
    pub fn into_operations(self) -> (r: Vec<Operation>)
        ensures
            ops_view(r@) == self@.ops,
    {
        self.ops
    }

    /// Appends the operations that turn the signed buffer into `buf`.
    pub fn diff(&mut self, buf: &[u8])
        ensures
            final(self)@ == (DeltaView { ops: scan(old(self)@.sig, buf@, 0, 0, 0, old(self)@.ops), ..old(self)@ }),
    {
        let block_size = self.sig.block_size();
        let original_buf_len = self.sig.original_len();
        let ghost sig = self@.sig;
        let ghost b = buf@;
        let ghost target = scan(sig, b, 0, 0, 0, self@.ops);
        let mut window = Window::new(buf, block_size);
        let mut hasher = RollingHasher::new();
        let mut ins_buffer: Vec<u8> = Vec::new();
        let mut next: usize = 0;
        let ghost mut pend: nat = 0;
        let (front, _back) = window.frame();
        proof {
            lemma_update_count(HasherView::empty(), front@);
        }
        hasher.update(front);
        assert(ins_buffer@ =~= b.subrange(0, 0));
        while window.has_frame()
            invariant
                sig == self@.sig,
                sig.wf(),
                block_size == sig.block_size,
                original_buf_len == sig.original_len,
                window@.wf(),
                window@.buffer == b,
                window@.block_size == block_size,
                hasher@ == HasherView::of(window@.frame()),
                pend <= window@.pos,
                ins_buffer@ == b.subrange(pend as int, window@.pos as int),
                next <= block_count(sig.original_len, sig.block_size),
                scan(sig, b, window@.pos, next as nat, pend, self@.ops) == target,
            decreases b.len() - window@.pos,
        {
            let ghost w0 = window@;
            proof {
                lemma_update_count(HasherView::empty(), w0.frame());
            }
            let found = self.find_match(hasher.digest(), &window, next);
            match found {
                Some(m) => {
                    if ins_buffer.len() > 0 {
                        self.add_insert_op(window.bytes_read() - ins_buffer.len(), ins_buffer);
                        ins_buffer = Vec::new();
                    }
                    if m > next {
                        proof {
                            lemma_block_bounds(sig.original_len, sig.block_size, m as int);
                            assert((m - next) * block_size <= m * block_size) by (nonlinear_arith)
                                requires
                                    next < m,
                            ;
                        }
                        self.add_remove_op(window.bytes_read(), (m - next) * block_size);
                    }
                    proof {
                        lemma_block_count(sig.original_len, sig.block_size);
                        let weak = weak_hash_of(frame_at(b, sig.block_size, window@.pos));
                        assert(sig.blocks.contains_key(weak));
                    }
                    next = m + 1;
                    let ghost p0 = window@.pos;
                    let mut j: usize = 0;
                    while j < block_size && !(window.on_boundry() && window.frame_size() == 0)
                        invariant
                            sig == self@.sig,
                            window@.wf(),
                            window@.buffer == b,
                            window@.block_size == block_size,
                            hasher@ == HasherView::of(window@.frame()),
                            j <= block_size,
                            window@.pos == p0 + j,
                        decreases block_size - j,
                    {
                        proof {
                            window@.lemma_end();
                            lemma_slide(window@);
                            lemma_remove_first(window@.frame());
                            lemma_update_count(HasherView::empty(), window@.frame());
                        }
                        let ghost w = window@;
                        let (tail, head) = window.move_forword();
                        if let Some(t) = tail {
                            hasher.remove(t);
                        }
                        if let Some(h) = head {
                            proof {
                                lemma_insert_last(w.frame().drop_first(), h);
                                lemma_update_count(HasherView::empty(), w.frame().drop_first());
                            }
                            hasher.insert(h);
                        }
                        j = j + 1;
                    }
                    proof {
                        window@.lemma_end();
                        pend = window@.pos;
                        assert(ins_buffer@ =~= b.subrange(pend as int, pend as int));
                    }
                },
                None => {
                    proof {
                        window@.lemma_end();
                        lemma_slide(window@);
                        lemma_remove_first(window@.frame());
                    }
                    let ghost w = window@;
                    let (tail, head) = window.move_forword();
                    if let Some(t) = tail {
                        hasher.remove(t);
                        ins_buffer.push(t);
                    }
                    if let Some(h) = head {
                        proof {
                            lemma_insert_last(w.frame().drop_first(), h);
                            lemma_update_count(HasherView::empty(), w.frame().drop_first());
                        }
                        hasher.insert(h);
                    }
                    assert(ins_buffer@ =~= b.subrange(pend as int, window@.pos as int));
                },
            }
        }
        proof {
            window@.lemma_end();
        }
        if ins_buffer.len() > 0 {
            self.add_insert_op(window.bytes_read() - ins_buffer.len(), ins_buffer);
        }
        proof {
            lemma_block_count(original_buf_len as nat, block_size as nat);
        }
        let original_block_count = original_buf_len / block_size + if original_buf_len % block_size != 0 {
            1
        } else {
            0
        };
        if next < original_block_count {
            proof {
                lemma_block_bounds(sig.original_len, sig.block_size, next as int);
            }
            self.add_remove_op(window.bytes_read(), original_buf_len - next * block_size);
        }
    }

    /// Records the insertion of `buffer` at `offset`.
    fn add_insert_op(&mut self, offset: usize, buffer: Vec<u8>)
        ensures
            final(self)@ == (DeltaView {
                ops: old(self)@.ops.push(OpView::Insert { offset: offset as nat, buffer: buffer@ }),
                ..old(self)@
            }),
    {
        let op = Operation::Insert { offset, buffer };
        self.ops.push(op);
        assert(ops_view(self.ops@) =~= ops_view(old(self).ops@).push(op@));
    }

    /// Records the removal of `len` bytes at `offset`.
    fn add_remove_op(&mut self, offset: usize, len: usize)
        ensures
            final(self)@ == (DeltaView {
                ops: old(self)@.ops.push(OpView::Remove { offset: offset as nat, len: len as nat }),
                ..old(self)@
            }),
    {
        let op = Operation::Remove { offset, len };
        self.ops.push(op);
        assert(ops_view(self.ops@) =~= ops_view(old(self).ops@).push(op@));
    }

    /// The ordinal of the block, at least `next`, that the window's frame matches.
    fn find_match(&self, weak_hash: u32, window: &Window, next: usize) -> (r: Option<usize>)
        requires
            window@.wf(),
            window@.block_size == self@.sig.block_size,
            weak_hash == weak_hash_of(window@.frame()),
        ensures
            match r {
                Some(m) => probe(self@.sig, window@.buffer, window@.pos, next as nat) == Some(m as nat),
                None => probe(self@.sig, window@.buffer, window@.pos, next as nat) is None,
            },
    {
        match self.sig.lookup(weak_hash) {
            Some((idx, crypto_hash)) => {
                let (front, back) = window.frame();
                let frame_hash = CryptoHash::of_parts(front, back);
                let crypto_match = crypto_hash == frame_hash;
                let new_idx = idx >= next;
                if crypto_match && new_idx {
                    Some(idx)
                } else {
                    None
                }
            },
            None => None,
        }
    }
}

/// The index of the blocks of `a`, cut in blocks of `bs` bytes.
pub open spec fn signature_of(a: Seq<u8>, bs: nat) -> IndexView {
    IndexView { original_len: a.len(), block_size: bs, blocks: index_of(block_hashes(a, bs)) }
}

/// The frame of `b` at the start of block `j` is block `j` of `a`.
pub open spec fn block_found(a: Seq<u8>, b: Seq<u8>, bs: nat, j: nat) -> bool {
    &&& j * bs < b.len()
    &&& frame_at(b, bs, j * bs) == block_of(a, bs, j as int)
}

/// Where the frames of `b` at the starts of blocks `k` to `kk` are those
/// blocks of `a`, and no two blocks of `a` share a weak hash, the scan of `b`
/// matches each of them in turn and emits nothing for them.
pub proof fn lemma_scan_matched_blocks(a: Seq<u8>, b: Seq<u8>, bs: nat, k: nat, kk: nat, ops: Seq<OpView>)
    requires
        bs > 0,
        distinct_weak_hashes(a, bs),
        k <= kk <= block_count(a.len(), bs),
        forall|j: nat| k <= j < kk ==> #[trigger] block_found(a, b, bs, j),
    ensures
        scan(signature_of(a, bs), b, min_nat(k * bs, b.len()), k, min_nat(k * bs, b.len()), ops)
            == scan(signature_of(a, bs), b, min_nat(kk * bs, b.len()), kk, min_nat(kk * bs, b.len()), ops),
    decreases kk - k,
{
    if k < kk {
        let sig = signature_of(a, bs);
        let list = block_hashes(a, bs);
        let pos = k * bs;
        assert(block_found(a, b, bs, k));
        let blk = block_of(a, bs, k as int);
        assert(list[k as int] == (weak_hash_of(blk), strong_hash_of(blk)));
        assert forall|i: int, j: int| 0 <= i < j < list.len() implies (#[trigger] list[i]).0
            != (#[trigger] list[j]).0 by {
            assert(list[i].0 == weak_hash_of(block_of(a, bs, i)));
            assert(list[j].0 == weak_hash_of(block_of(a, bs, j)));
        }
        lemma_index_distinct(list, k as int);
        assert(probe(sig, b, pos, k) == Some(k));
        assert((k + 1) * bs == k * bs + bs) by (nonlinear_arith);
        lemma_scan_matched_blocks(a, b, bs, k + 1, kk, ops);
    }
}

/// Once every block of the signature lies before `next`, nothing matches any
/// more and the scan ends as it would at the end of `b`.
pub proof fn lemma_scan_past_blocks(sig: IndexView, b: Seq<u8>, pos: nat, next: nat, pend: nat, ops: Seq<OpView>)
    requires
        sig.block_size > 0,
        pend <= pos <= b.len(),
        forall|w: u32| #[trigger] sig.blocks.contains_key(w) ==> sig.blocks[w].0 < next,
    ensures
        scan(sig, b, pos, next, pend, ops) == finish(sig, b, next, pend, ops),
    decreases b.len() - pos,
{
    if pos < b.len() {
        lemma_scan_past_blocks(sig, b, pos + 1, next, pend, ops);
    }
}

/// The offsets of the insertions never decrease along `ops`, nor do those of
/// the removals.
pub open spec fn offsets_ordered(ops: Seq<OpView>) -> bool {
    &&& forall|i: int, j: int|
        0 <= i < j < ops.len() && ops[i] is Insert && ops[j] is Insert ==> (#[trigger] ops[i]).offset()
            <= (#[trigger] ops[j]).offset()
    &&& forall|i: int, j: int|
        0 <= i < j < ops.len() && ops[i] is Remove && ops[j] is Remove ==> (#[trigger] ops[i]).offset()
            <= (#[trigger] ops[j]).offset()
}

/// No insertion of `ops` lies past `ins`, no removal past `rem`.
pub open spec fn offsets_below(ops: Seq<OpView>, ins: nat, rem: nat) -> bool {
    forall|i: int|
        0 <= i < ops.len() ==> (#[trigger] ops[i] is Insert ==> ops[i].offset() <= ins) && (ops[i] is Remove
            ==> ops[i].offset() <= rem)
}

/// Appending an operation that lies at or past all of its kind keeps the order.
proof fn lemma_push_ordered(ops: Seq<OpView>, op: OpView, ins: nat, rem: nat)
    requires
        offsets_ordered(ops),
        offsets_below(ops, ins, rem),
        op is Insert ==> op.offset() >= ins,
        op is Remove ==> op.offset() >= rem,
    ensures
        offsets_ordered(ops.push(op)),
{
    let s = ops.push(op);
    assert forall|i: int| 0 <= i < ops.len() implies #[trigger] s[i] == ops[i] by {}
}

/// A scan keeps the offsets of each kind in order.
pub proof fn lemma_scan_offsets(sig: IndexView, b: Seq<u8>, pos: nat, next: nat, pend: nat, ops: Seq<OpView>)
    requires
        sig.block_size > 0,
        pend <= pos <= b.len(),
        offsets_ordered(ops),
        offsets_below(ops, pend, pos),
    ensures
        offsets_ordered(scan(sig, b, pos, next, pend, ops)),
    decreases b.len() - pos,
{
    if pos >= b.len() {
        let flushed = flush(b, pend, b.len(), ops);
        if pend < b.len() {
            lemma_push_ordered(ops, OpView::Insert { offset: pend, buffer: b.subrange(pend as int, b.len() as int) }, pend, pos);
        }
        assert(offsets_below(flushed, pend, pos)) by {
            assert forall|i: int| 0 <= i < ops.len() implies #[trigger] flushed[i] == ops[i] by {}
        }
        if next < block_count(sig.original_len, sig.block_size) {
            lemma_push_ordered(flushed, OpView::Remove { offset: b.len(), len: (sig.original_len - next * sig.block_size) as nat }, pend, pos);
        }
    } else {
        match probe(sig, b, pos, next) {
            Some(m) => {
                let flushed = flush(b, pend, pos, ops);
                if pend < pos {
                    lemma_push_ordered(ops, OpView::Insert { offset: pend, buffer: b.subrange(pend as int, pos as int) }, pend, pos);
                }
                assert(offsets_below(flushed, pend, pos)) by {
                    assert forall|i: int| 0 <= i < ops.len() implies #[trigger] flushed[i] == ops[i] by {}
                }
                let removal = OpView::Remove { offset: pos, len: ((m - next) * sig.block_size) as nat };
                let ops2 = if m > next { flushed.push(removal) } else { flushed };
                if m > next {
                    lemma_push_ordered(flushed, removal, pend, pos);
                    assert forall|i: int| 0 <= i < flushed.len() implies #[trigger] ops2[i] == flushed[i] by {}
                }
                let to = min_nat(pos + sig.block_size, b.len());
                assert(offsets_below(ops2, to, to));
                lemma_scan_offsets(sig, b, to, m + 1, to, ops2);
            },
            None => {
                lemma_scan_offsets(sig, b, pos + 1, next, pend, ops);
            },
        }
    }
}

} // verus!
