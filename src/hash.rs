//! Rolling checksum and cryptographic block hashes.
use blake2::Digest;
use std::collections::HashMap;
use vstd::prelude::*;

verus! {

/// The bias added to every byte before it enters the checksum.
pub const BIAS: u32 = 0xDEAD_C0DE;

/// Reduces an integer into the 32-bit range.
pub open spec fn wrap(x: int) -> u32 {
    (x % 0x1_0000_0000) as u32
}

/// The value a byte contributes to the checksum.
pub open spec fn weight(byte: u8) -> int {
    byte as int + BIAS as int
}

/// The unreduced first accumulator over `s`: the sum of all weights.
pub open spec fn sum_a(s: Seq<u8>) -> int
    decreases s.len(),
{
    if s.len() == 0 {
        0
    } else {
        sum_a(s.drop_last()) + weight(s.last())
    }
}

/// The unreduced second accumulator over `s`: the sum of all prefix sums.
pub open spec fn sum_b(s: Seq<u8>) -> int
    decreases s.len(),
{
    if s.len() == 0 {
        0
    } else {
        sum_b(s.drop_last()) + sum_a(s)
    }
}

/// The abstract state of a [`RollingHasher`].
pub struct HasherView {
    pub a: u32,
    pub b: u32,
    pub count: nat,
}

impl HasherView {
    pub open spec fn empty() -> HasherView {
        HasherView { a: 0, b: 0, count: 0 }
    }

    /// The checksum of the state: `b` in the upper half, `a` or-ed in.
    pub open spec fn digest(self) -> u32 {
        (self.b << 16u32) | self.a
    }

    /// The state after rolling `byte` in at the end.
    pub open spec fn insert(self, byte: u8) -> HasherView {
        let a = wrap(self.a + weight(byte));
        HasherView { a, b: wrap(self.b + a), count: self.count + 1 }
    }

    /// The state after rolling out `byte`, taken to be the byte inserted
    /// `count` positions ago.
    pub open spec fn remove(self, byte: u8) -> HasherView {
        HasherView {
            a: wrap(self.a - weight(byte)),
            b: wrap(self.b - self.count * weight(byte)),
            count: (self.count - 1) as nat,
        }
    }

    /// The state after inserting every byte of `s` in order.
    pub open spec fn update(self, s: Seq<u8>) -> HasherView
        decreases s.len(),
    {
        if s.len() == 0 {
            self
        } else {
            self.update(s.drop_last()).insert(s.last())
        }
    }

    /// The state after removing every byte of `p` in order.
    pub open spec fn remove_all(self, p: Seq<u8>) -> HasherView
        decreases p.len(),
    {
        if p.len() == 0 {
            self
        } else {
            self.remove(p[0]).remove_all(p.drop_first())
        }
    }

    /// The state of a fresh hasher fed with `s`.
    pub open spec fn of(s: Seq<u8>) -> HasherView {
        HasherView::empty().update(s)
    }
}

/// The rolling checksum of `s`, computed from scratch.
pub open spec fn weak_hash_of(s: Seq<u8>) -> u32 {
    HasherView::of(s).digest()
}

/// The hasher fed with `s` holds both accumulators reduced, and the length.
pub proof fn lemma_of_sums(s: Seq<u8>)
    ensures
        HasherView::of(s) == (HasherView { a: wrap(sum_a(s)), b: wrap(sum_b(s)), count: s.len() }),
    decreases s.len(),
{
    if s.len() > 0 {
        lemma_of_sums(s.drop_last());
        let p = s.drop_last();
        let a = wrap(sum_a(p) + weight(s.last()));
        vstd::arithmetic::div_mod::lemma_add_mod_noop(sum_a(p), weight(s.last()), 0x1_0000_0000);
        vstd::arithmetic::div_mod::lemma_add_mod_noop(sum_b(p), sum_a(s), 0x1_0000_0000);
        vstd::arithmetic::div_mod::lemma_mod_twice(sum_a(s), 0x1_0000_0000);
        vstd::arithmetic::div_mod::lemma_mod_twice(weight(s.last()), 0x1_0000_0000);
        vstd::arithmetic::div_mod::lemma_mod_twice(sum_a(p), 0x1_0000_0000);
        vstd::arithmetic::div_mod::lemma_mod_twice(sum_b(p), 0x1_0000_0000);
        assert(a == wrap(sum_a(s)));
    }
}

/// Splitting the first byte off the accumulators.
pub proof fn lemma_sums_front(c: u8, t: Seq<u8>)
    ensures
        sum_a(seq![c] + t) == weight(c) + sum_a(t),
        sum_b(seq![c] + t) == (t.len() + 1) * weight(c) + sum_b(t),
    decreases t.len(),
{
    let s = seq![c] + t;
    if t.len() == 0 {
        assert(s.drop_last() =~= Seq::<u8>::empty());
        assert(t =~= Seq::<u8>::empty());
    } else {
        let u = t.drop_last();
        lemma_sums_front(c, u);
        assert(s.drop_last() =~= seq![c] + u);
        assert(s.last() == t.last());
        assert(sum_a(s) == sum_a(seq![c] + u) + weight(t.last()));
        assert(sum_a(t) == sum_a(u) + weight(t.last()));
        assert(sum_a(s) == weight(c) + sum_a(t));
        assert(sum_b(s) == sum_b(seq![c] + u) + sum_a(s));
        assert(sum_b(t) == sum_b(u) + sum_a(t));
        assert((u.len() + 1) * weight(c) + weight(c) == (t.len() + 1) * weight(c)) by (nonlinear_arith)
            requires
                t.len() == u.len() + 1,
        ;
    }
}

/// Reducing before subtracting reduces the same.
proof fn lemma_wrap_sub(x: int, y: int)
    ensures
        wrap(wrap(x) - y) == wrap(x - y),
{
    let md: int = 0x1_0000_0000;
    assert(wrap(x) as int == x % md);
    vstd::arithmetic::div_mod::lemma_sub_mod_noop(x, y, md);
    vstd::arithmetic::div_mod::lemma_sub_mod_noop(x % md, y, md);
    vstd::arithmetic::div_mod::lemma_mod_twice(x, md);
}

/// Rolling out the first byte of what a hasher holds leaves the hasher of the rest.
pub proof fn lemma_remove_first(s: Seq<u8>)
    requires
        s.len() > 0,
    ensures
        HasherView::of(s).remove(s[0]) == HasherView::of(s.drop_first()),
{
    let t = s.drop_first();
    assert(s =~= seq![s[0]] + t);
    lemma_sums_front(s[0], t);
    lemma_of_sums(s);
    lemma_of_sums(t);
    let w = weight(s[0]);
    lemma_wrap_sub(sum_a(s), w);
    lemma_wrap_sub(sum_b(s), s.len() * w);
    assert(sum_a(s) - w == sum_a(t));
    assert(sum_b(s) - s.len() * w == sum_b(t));
}

/// Rolling a byte in appends it to what the hasher holds.
pub proof fn lemma_insert_last(s: Seq<u8>, c: u8)
    ensures
        HasherView::of(s).insert(c) == HasherView::of(s.push(c)),
{
    assert(s.push(c).drop_last() =~= s);
}

/// Rolling out, in order, the bytes of a prefix of `s` from a hasher fed with
/// `s` gives the hasher, and so the checksum, of the remaining suffix.
pub proof fn lemma_roll_out_prefix(s: Seq<u8>, k: nat)
    requires
        k <= s.len(),
    ensures
        HasherView::of(s).remove_all(s.take(k as int)) == HasherView::of(s.skip(k as int)),
        HasherView::of(s).remove_all(s.take(k as int)).digest() == weak_hash_of(s.skip(k as int)),
    decreases k,
{
    if k == 0 {
        assert(s.skip(0) =~= s);
    } else {
        let p = s.take(k as int);
        lemma_remove_first(s);
        let t = s.drop_first();
        lemma_roll_out_prefix(t, (k - 1) as nat);
        assert(p.drop_first() =~= t.take(k - 1));
        assert(t.skip(k - 1) =~= s.skip(k as int));
        assert(p[0] == s[0]);
    }
}

/// An Adler-32 like checksum that can slide over a buffer one byte at a time.
#[derive(Debug, Copy, Clone)]
pub struct RollingHasher {
    a: u32,
    b: u32,
    count: usize,
}

impl View for RollingHasher {
    type V = HasherView;

    closed spec fn view(&self) -> HasherView {
        HasherView { a: self.a, b: self.b, count: self.count as nat }
    }
}

impl RollingHasher {
    /// A hasher with nothing rolled in.
    pub fn new() -> (r: Self)
        ensures
            r@ == HasherView::empty(),
    {
        RollingHasher { a: 0, b: 0, count: 0 }
    }

    /// The checksum of the bytes rolled in so far.
    pub fn digest(&self) -> (r: u32)
        ensures
            r == self@.digest(),
    {
        (self.b << 16u32) | self.a
    }

    /// How many bytes are rolled in.
    pub fn count(&self) -> (r: usize)
        ensures
            r == self@.count,
    {
        self.count
    }

    /// Rolls `byte` in at the end.
    pub fn insert(&mut self, byte: u8)
        requires
            old(self)@.count < usize::MAX,
        ensures
            final(self)@ == old(self)@.insert(byte),
    {
        let x = (byte as u32).wrapping_add(BIAS);
        assert(x == weight(byte)) by (bit_vector)
            requires x == vstd::wrapping::u32_specs::wrapping_add(byte as u32, BIAS);
        let a = self.a.wrapping_add(x);
        let b = self.b.wrapping_add(a);
        self.a = a;
        self.b = b;
        self.count = self.count + 1;
    }

    /// Rolls out `byte`, the byte rolled in `count` positions ago.
    pub fn remove(&mut self, byte: u8)
        requires
            old(self)@.count > 0,
        ensures
            final(self)@ == old(self)@.remove(byte),
    {
        let x = (byte as u32).wrapping_add(BIAS);
        assert(x == weight(byte)) by (bit_vector)
            requires x == vstd::wrapping::u32_specs::wrapping_add(byte as u32, BIAS);
        let c = ((self.count as u64) % 0x1_0000_0000u64) as u32;
        let m = c.wrapping_mul(x);
        let a = self.a.wrapping_sub(x);
        let b = self.b.wrapping_sub(m);
        proof {
            let md: int = 0x1_0000_0000;
            let n = self.count as int;
            assert(c as int == n % md);
            assert(m as int == (c as int * x as int) % md);
            vstd::arithmetic::div_mod::lemma_mul_mod_noop_left(n, x as int, md);
            vstd::arithmetic::div_mod::lemma_sub_mod_noop(self.b as int, n * x as int, md);
            vstd::arithmetic::div_mod::lemma_small_mod(self.b as nat, md as nat);
            vstd::arithmetic::div_mod::lemma_mod_twice(n * x as int, md);
            assert(b as int == (self.b - m) % md);
        }
        self.a = a;
        self.b = b;
        self.count = self.count - 1;
    }

    /// Rolls in every byte of `bytes`, in order.
    pub fn update(&mut self, bytes: &[u8])
        requires
            old(self)@.count + bytes@.len() <= usize::MAX,
        ensures
            final(self)@ == old(self)@.update(bytes@),
    {
        let ghost start = self@;
        let mut i: usize = 0;
        while i < bytes.len()
            invariant
                i <= bytes@.len(),
                start.count + bytes@.len() <= usize::MAX,
                self@ == start.update(bytes@.take(i as int)),
            decreases bytes@.len() - i,
        {
            proof {
                lemma_update_count(start, bytes@.take(i as int));
                assert(bytes@.take(i as int + 1).drop_last() == bytes@.take(i as int));
            }
            self.insert(bytes[i]);
            i = i + 1;
        }
        assert(bytes@.take(i as int) == bytes@);
    }

    /// Clears the hasher back to its initial state.
    pub fn reset(&mut self)
        ensures
            final(self)@ == HasherView::empty(),
    {
        self.a = 0;
        self.b = 0;
        self.count = 0;
    }
}

impl Default for RollingHasher {
    fn default() -> (r: Self)
        ensures
            r@ == HasherView::empty(),
    {
        RollingHasher::new()
    }
}

/// Feeding `s` adds its length to the count.
pub proof fn lemma_update_count(h: HasherView, s: Seq<u8>)
    ensures
        h.update(s).count == h.count + s.len(),
    decreases s.len(),
{
    if s.len() > 0 {
        lemma_update_count(h, s.drop_last());
    }
}

/// The rolling checksum of `bytes`.
pub fn weak_hash(bytes: &[u8]) -> (r: u32)
    ensures
        r == weak_hash_of(bytes@),
{
    let mut hasher = RollingHasher::new();
    let _n = bytes.len();
    hasher.update(bytes);
    hasher.digest()
}


/// The Blake2b-512 digest of `data`.
pub uninterp spec fn blake2b_512(data: Seq<u8>) -> Seq<u8>;

/// The strong hash of a block: the first 32 bytes of its Blake2b-512 digest.
pub open spec fn strong_hash_of(s: Seq<u8>) -> Seq<u8> {
    blake2b_512(s).take(32)
}

/// Relies on blake2's `Blake2b512` through the `Digest` trait: feeding `front`
/// and then `back` digests their concatenation, and the digest is 64 bytes.
#[verifier::external_body]
fn blake2b_digest(front: &[u8], back: &[u8]) -> (r: Vec<u8>)
    ensures
        r@ == blake2b_512(front@ + back@),
        r@.len() == 64,
{
    let mut hasher = blake2::Blake2b512::new();
    hasher.update(front);
    hasher.update(back);
    hasher.finalize().to_vec()
}

/// A Blake2b digest cut down to its first 32 bytes.
#[derive(Debug, Clone, Copy, Eq, Hash)]
pub struct CryptoHash([u8; 32]);

impl View for CryptoHash {
    type V = Seq<u8>;

    closed spec fn view(&self) -> Seq<u8> {
        self.0@
    }
}

impl CryptoHash {
    /// Keeps the first 32 bytes of `hash`.
    pub(crate) fn new(hash: &[u8]) -> (r: Self)
        requires
            hash@.len() >= 32,
        ensures
            r@ == hash@.take(32),
    {
        let mut bytes = [0u8; 32];
        let mut i: usize = 0;
        while i < 32
            invariant
                i <= 32,
                hash@.len() >= 32,
                forall|j: int| 0 <= j < i ==> bytes@[j] == hash@[j],
            decreases 32 - i,
        {
            bytes[i] = hash[i];
            i = i + 1;
        }
        assert(bytes@ =~= hash@.take(32));
        CryptoHash(bytes)
    }

    /// The strong hash of the bytes of `front` followed by those of `back`.
    pub(crate) fn of_parts(front: &[u8], back: &[u8]) -> (r: Self)
        ensures
            r@ == strong_hash_of(front@ + back@),
    {
        let digest = blake2b_digest(front, back);
        CryptoHash::new(digest.as_slice())
    }

    /// The 32 bytes of the hash.
    pub fn as_bytes(&self) -> (r: &[u8; 32])
        ensures
            r@ == self@,
    {
        &self.0
    }
}

impl PartialEq for CryptoHash {
    fn eq(&self, other: &CryptoHash) -> (r: bool) {
        let mut i: usize = 0;
        while i < 32
            invariant
                i <= 32,
                forall|j: int| 0 <= j < i ==> self.0@[j] == other.0@[j],
            decreases 32 - i,
        {
            if self.0[i] != other.0[i] {
                return false;
            }
            i = i + 1;
        }
        assert(self.0@ =~= other.0@);
        true
    }
}

impl vstd::std_specs::cmp::PartialEqSpecImpl for CryptoHash {
    open spec fn obeys_eq_spec() -> bool {
        true
    }

    open spec fn eq_spec(&self, other: &CryptoHash) -> bool {
        self@ == other@
    }
}

/// The two hashes of one block of the original buffer.
#[derive(Debug, Clone, Copy)]
pub(crate) struct BlockHash {
    pub(crate) weak_hash: u32,
    pub(crate) crypto_hash: CryptoHash,
}

/// Number of blocks of size `bs` that cover `len` bytes.
pub open spec fn block_count(len: nat, bs: nat) -> nat {
    if bs == 0 {
        0
    } else {
        ((len + bs - 1) / (bs as int)) as nat
    }
}

/// Block `i` of `buf`: the bytes `[i * bs, (i + 1) * bs)`, cut at the end of `buf`.
pub open spec fn block_of(buf: Seq<u8>, bs: nat, i: int) -> Seq<u8> {
    let end = (i + 1) * bs;
    buf.subrange(i * bs, if end < buf.len() { end } else { buf.len() as int })
}

/// The (weak hash, strong hash) pair of every block of `buf`, in order.
pub open spec fn block_hashes(buf: Seq<u8>, bs: nat) -> Seq<(u32, Seq<u8>)> {
    Seq::new(
        block_count(buf.len(), bs),
        |i: int| (weak_hash_of(block_of(buf, bs, i)), strong_hash_of(block_of(buf, bs, i))),
    )
}

/// The index of a block list: weak hash to (ordinal, strong hash), where a
/// later block replaces an earlier one with the same weak hash.
pub open spec fn index_of(blocks: Seq<(u32, Seq<u8>)>) -> Map<u32, (nat, Seq<u8>)>
    decreases blocks.len(),
{
    if blocks.len() == 0 {
        Map::empty()
    } else {
        let last = blocks.last();
        index_of(blocks.drop_last()).insert(last.0, ((blocks.len() - 1) as nat, last.1))
    }
}

/// The abstract contents of a [`Signature`].
pub struct SignatureView {
    pub block_size: nat,
    pub buffer: Seq<u8>,
    pub blocks: Seq<(u32, Seq<u8>)>,
}

impl SignatureView {
    pub open spec fn wf(self) -> bool {
        &&& self.block_size > 0
        &&& (self.blocks.len() == 0 || self.blocks == block_hashes(self.buffer, self.block_size))
    }
}

/// The block hashes of a buffer.
pub struct Signature<'a> {
    block_size: usize,
    blocks: Vec<BlockHash>,
    buffer: &'a [u8],
    original_buffer_len: usize,
}

impl<'a> View for Signature<'a> {
    type V = SignatureView;

    closed spec fn view(&self) -> SignatureView {
        SignatureView {
            block_size: self.block_size as nat,
            buffer: self.buffer@,
            blocks: self.blocks@.map_values(|b: BlockHash| (b.weak_hash, b.crypto_hash@)),
        }
    }
}

/// `count` computed without overflow is the number of blocks.
pub proof fn lemma_block_count(n: nat, bs: nat)
    requires
        bs > 0,
    ensures
        block_count(n, bs) == n / bs + if n % bs != 0 { 1nat } else { 0nat },
        block_count(n, bs) <= n,
{
    let q: int = (n as int) / (bs as int);
    let r: int = (n as int) % (bs as int);
    vstd::arithmetic::div_mod::lemma_fundamental_div_mod(n as int, bs as int);
    if r == 0 {
        vstd::arithmetic::div_mod::lemma_fundamental_div_mod_converse(
            n + bs - 1,
            bs as int,
            q,
            bs - 1,
        );
    } else {
        assert((q + 1) * bs == q * bs + bs) by (nonlinear_arith);
        vstd::arithmetic::div_mod::lemma_fundamental_div_mod_converse(
            n + bs - 1,
            bs as int,
            q + 1,
            r - 1,
        );
    }
    vstd::arithmetic::div_mod::lemma_mod_pos_bound(n as int, bs as int);
    assert(q <= n && (r != 0 ==> q < n)) by (nonlinear_arith)
        requires
            n == bs * q + r,
            bs >= 1,
            0 <= r,
            q >= 0,
    ;
}

/// Every block starts inside the buffer, and ends no later than its end.
pub proof fn lemma_block_bounds(n: nat, bs: nat, i: int)
    requires
        bs > 0,
        0 <= i < block_count(n, bs),
    ensures
        0 <= i * bs < n,
        i * bs + bs <= n + bs - 1,
        (i + 1) * bs == i * bs + bs,
{
    lemma_block_count(n, bs);
    let q: int = (n as int) / (bs as int);
    let r: int = (n as int) % (bs as int);
    vstd::arithmetic::div_mod::lemma_fundamental_div_mod(n as int, bs as int);
    vstd::arithmetic::div_mod::lemma_mod_pos_bound(n as int, bs as int);
    if r == 0 {
        assert(0 <= i * bs && i * bs + bs <= n) by (nonlinear_arith)
            requires
                n == bs * q + r,
                r == 0,
                bs > 0,
                0 <= i < q,
        ;
    } else {
        assert(0 <= i * bs && i * bs <= n - r) by (nonlinear_arith)
            requires
                n == bs * q + r,
                bs > 0,
                0 <= i <= q,
        ;
    }
    assert((i + 1) * bs == i * bs + bs) by (nonlinear_arith);
}

impl<'a> Signature<'a> {
    #[verifier::type_invariant]
    closed spec fn inv(&self) -> bool {
        &&& self@.wf()
        &&& self.original_buffer_len == self.buffer@.len()
    }

    /// A signature of `buffer` whose block size depends on the buffer's length.
    pub fn new(buffer: &'a [u8]) -> (r: Self)
        requires
            block_size_for(buffer@.len()) > 0,
        ensures
            r@ == (SignatureView {
                block_size: block_size_for(buffer@.len()),
                buffer: buffer@,
                blocks: Seq::empty(),
            }),
    {
        let block_size = calculate_block_size(buffer.len());
        Self::with_block_size(block_size, buffer)
    }

    /// A signature of `buffer` cut in blocks of `block_size` bytes.
    pub fn with_block_size(block_size: usize, buffer: &'a [u8]) -> (r: Self)
        requires
            block_size > 0,
        ensures
            r@ == (SignatureView {
                block_size: block_size as nat,
                buffer: buffer@,
                blocks: Seq::empty(),
            }),
    {
        let r = Signature {
            block_size,
            blocks: Vec::new(),
            original_buffer_len: buffer.len(),
            buffer,
        };
        assert(r@.blocks =~= Seq::empty());
        r
    }

    /// The block size of this signature.
    pub fn block_size(&self) -> (r: usize)
        ensures
            r == self@.block_size,
    {
        self.block_size
    }

    /// Hashes every block of the buffer: its rolling checksum and its strong hash.
    pub fn calculate(&mut self)
        ensures
            final(self)@ == (SignatureView { blocks: block_hashes(old(self)@.buffer, old(self)@.block_size), ..old(self)@ }),
    {
        proof {
            use_type_invariant(&*self);
        }
        let n = self.buffer.len();
        let bs = self.block_size;
        proof {
            lemma_block_count(n as nat, bs as nat);
        }
        let count = n / bs + if n % bs != 0 { 1 } else { 0 };
        let ghost target = block_hashes(self.buffer@, bs as nat);
        let none: [u8; 0] = [];
        let mut blocks: Vec<BlockHash> = Vec::new();
        let mut i: usize = 0;
        while i < count
            invariant
                bs > 0,
                n == self.buffer@.len(),
                count == block_count(n as nat, bs as nat),
                target == block_hashes(self.buffer@, bs as nat),
                i <= count,
                none@.len() == 0,
                blocks@.map_values(|b: BlockHash| (b.weak_hash, b.crypto_hash@)) == target.take(i as int),
            decreases count - i,
        {
            proof {
                lemma_block_bounds(n as nat, bs as nat, i as int);
            }
            let start = i * bs;
            let end = if n - start < bs { n } else { start + bs };
            let chunk = vstd::slice::slice_subrange(self.buffer, start, end);
            assert(chunk@ == block_of(self.buffer@, bs as nat, i as int));
            assert(target[i as int] == (weak_hash_of(chunk@), strong_hash_of(chunk@)));
            let weak_hash = weak_hash(chunk);
            let crypto_hash = CryptoHash::of_parts(chunk, &none);
            assert(chunk@ + none@ =~= chunk@);
            let ghost prev = blocks@;
            let block = BlockHash { weak_hash, crypto_hash };
            blocks.push(block);
            proof {
                let f = |b: BlockHash| (b.weak_hash, b.crypto_hash@);
                assert(blocks@ == prev.push(block));
                assert(prev.push(block).map_values(f) =~= prev.map_values(f).push(f(block)));
                assert(target.take(i + 1) =~= target.take(i as int).push(target[i as int]));
            }
            i = i + 1;
        }
        assert(target.take(count as int) =~= target);
        self.blocks = blocks;
    }

    /// The index of the block hashes, keyed by weak hash.
    pub fn to_indexed(&self) -> (r: IndexedSignature)
        ensures
            r@ == (IndexView {
                original_len: self@.buffer.len(),
                block_size: self@.block_size,
                blocks: index_of(self@.blocks),
            }),
    {
        proof {
            use_type_invariant(self);
        }
        let ghost list = self@.blocks;
        let len = self.blocks.len();
        let mut blocks: HashMap<u32, (usize, BlockHash)> = HashMap::with_capacity(len);
        let mut i: usize = 0;
        while i < len
            invariant
                len == self.blocks@.len(),
                list == self@.blocks,
                i <= len,
                entries_view(blocks@) == index_of(list.take(i as int)),
            decreases len - i,
        {
            let block = self.blocks[i];
            blocks.insert(block.weak_hash, (i, block));
            proof {
                assert(list.take(i as int + 1).drop_last() =~= list.take(i as int));
                assert(entries_view(blocks@) =~= index_of(list.take(i as int + 1)));
            }
            i = i + 1;
        }
        assert(list.take(len as int) =~= list);
        proof {
            lemma_index_bound(list, self@.buffer, self@.block_size);
        }
        IndexedSignature { original_buffer_len: self.original_buffer_len, block_size: self.block_size, blocks }
    }
}

/// Every ordinal in the index of a signature names one of its blocks.
proof fn lemma_index_bound(list: Seq<(u32, Seq<u8>)>, buf: Seq<u8>, bs: nat)
    requires
        list.len() == 0 || list == block_hashes(buf, bs),
    ensures
        forall|k: u32| #[trigger] index_of(list).contains_key(k) ==> index_of(list)[k].0 < list.len(),
        list.len() <= block_count(buf.len(), bs),
{
    lemma_index_ordinals(list);
}

/// The ordinals of an index are positions of its list.
pub proof fn lemma_index_ordinals(list: Seq<(u32, Seq<u8>)>)
    ensures
        forall|k: u32| #[trigger] index_of(list).contains_key(k) ==> index_of(list)[k].0 < list.len(),
    decreases list.len(),
{
    if list.len() > 0 {
        lemma_index_ordinals(list.drop_last());
        assert forall|k: u32| #[trigger] index_of(list).contains_key(k) implies index_of(list)[k].0
            < list.len() by {
            if k != list.last().0 {
                assert(index_of(list.drop_last()).contains_key(k));
            }
        }
    }
}

/// The abstract view of the map of an [`IndexedSignature`].
pub(crate) open spec fn entries_view(m: Map<u32, (usize, BlockHash)>) -> Map<u32, (nat, Seq<u8>)> {
    Map::new(|k: u32| m.contains_key(k), |k: u32| (m[k].0 as nat, m[k].1.crypto_hash@))
}

/// The abstract contents of an [`IndexedSignature`].
pub struct IndexView {
    pub original_len: nat,
    pub block_size: nat,
    pub blocks: Map<u32, (nat, Seq<u8>)>,
}

impl IndexView {
    pub open spec fn wf(self) -> bool {
        &&& self.block_size > 0
        &&& self.original_len <= usize::MAX
        &&& forall|k: u32| #[trigger] self.blocks.contains_key(k)
                ==> self.blocks[k].0 < block_count(self.original_len, self.block_size)
    }
}

/// The block hashes of a buffer, keyed by weak hash, ready for matching.
#[derive(Debug)]
pub struct IndexedSignature {
    original_buffer_len: usize,
    block_size: usize,
    blocks: HashMap<u32, (usize, BlockHash)>,
}

impl View for IndexedSignature {
    type V = IndexView;

    closed spec fn view(&self) -> IndexView {
        IndexView {
            original_len: self.original_buffer_len as nat,
            block_size: self.block_size as nat,
            blocks: entries_view(self.blocks@),
        }
    }
}

impl Clone for IndexedSignature {
    fn clone(&self) -> (r: Self)
        ensures
            r@ == self@,
    {
        proof {
            use_type_invariant(self);
        }
        IndexedSignature {
            original_buffer_len: self.original_buffer_len,
            block_size: self.block_size,
            blocks: self.blocks.clone(),
        }
    }
}

impl IndexedSignature {
    #[verifier::type_invariant]
    closed spec fn inv(&self) -> bool {
        self@.wf()
    }

    /// The block size of the signed buffer.
    pub fn block_size(&self) -> (r: usize)
        ensures
            r == self@.block_size,
            self@.wf(),
    {
        proof {
            use_type_invariant(self);
        }
        self.block_size
    }

    /// The length of the signed buffer.
    pub fn original_len(&self) -> (r: usize)
        ensures
            r == self@.original_len,
    {
        self.original_buffer_len
    }

    /// The ordinal and strong hash of the block indexed under `weak_hash`.
    pub(crate) fn lookup(&self, weak_hash: u32) -> (r: Option<(usize, CryptoHash)>)
        ensures
            match r {
                Some((i, h)) => self@.blocks.contains_key(weak_hash) && self@.blocks[weak_hash] == (i as nat, h@),
                None => !self@.blocks.contains_key(weak_hash),
            },
    {
        match self.blocks.get(&weak_hash) {
            Some(entry) => Some((entry.0, entry.1.crypto_hash)),
            None => None,
        }
    }
}

/// The block size picked for a buffer of `len` bytes: 32 up to 1024 bytes,
/// above that the integer square root rounded down to a multiple of 128.
pub open spec fn block_size_for(len: nat) -> nat {
    if len <= 1024 {
        32
    } else {
        let s = floor_sqrt(len);
        (s - s % 128) as nat
    }
}

/// The largest `r` with `r * r <= n`.
pub open spec fn floor_sqrt(n: nat) -> nat {
    choose|r: nat| #[trigger] (r * r) <= n && n < (r + 1) * (r + 1)
}

/// Picks the block size for a buffer of `len` bytes.
pub fn calculate_block_size(len: usize) -> (r: usize)
    ensures
        r == block_size_for(len as nat),
{
    if len <= 1024 {
        32
    } else {
        let s = isqrt(len);
        proof {
            lemma_floor_sqrt_unique(len as nat, s as nat);
        }
        let r = s & !127usize;
        assert(r == s - s % 128) by (bit_vector)
            requires
                r == s & !127usize,
        ;
        r
    }
}

/// The floor square root is the only `r` that fits.
proof fn lemma_floor_sqrt_unique(n: nat, r: nat)
    requires
        r * r <= n < (r + 1) * (r + 1),
    ensures
        floor_sqrt(n) == r,
{
    let s = floor_sqrt(n);
    assert(s * s <= n && n < (s + 1) * (s + 1));
    assert(s == r) by (nonlinear_arith)
        requires
            s * s <= n < (s + 1) * (s + 1),
            r * r <= n < (r + 1) * (r + 1),
    ;
}

/// The integer square root of `n`, by bisection.
fn isqrt(n: usize) -> (r: usize)
    ensures
        r * r <= n < (r + 1) * (r + 1),
{
    let mut lo: u64 = 0;
    let mut hi: u64 = 0x1_0000_0000;
    let n64 = n as u64;
    assert(hi * hi > n64) by (nonlinear_arith)
        requires
            hi == 0x1_0000_0000,
    ;
    while lo + 1 < hi
        invariant
            lo < hi <= 0x1_0000_0000,
            lo * lo <= n64,
            n64 < hi * hi,
            n64 == n,
        decreases hi - lo,
    {
        let mid = lo + (hi - lo) / 2;
        assert((mid as u128) * (mid as u128) <= 0x1_0000_0000u128 * 0x1_0000_0000u128) by (nonlinear_arith)
            requires
                mid <= 0x1_0000_0000,
        ;
        if (mid as u128) * (mid as u128) <= n64 as u128 {
            lo = mid;
        } else {
            hi = mid;
        }
    }
    assert(lo <= 0xFFFF_FFFF);
    assert(lo * lo <= usize::MAX);
    lo as usize
}

/// Whether the blocks of `buf` have pairwise different weak hashes.
pub open spec fn distinct_weak_hashes(buf: Seq<u8>, bs: nat) -> bool {
    forall|i: int, j: int|
        0 <= i < j < block_count(buf.len(), bs) ==> weak_hash_of(#[trigger] block_of(buf, bs, i))
            != weak_hash_of(#[trigger] block_of(buf, bs, j))
}

/// Where no two blocks share a weak hash, each block is indexed under its own.
pub proof fn lemma_index_distinct(list: Seq<(u32, Seq<u8>)>, k: int)
    requires
        0 <= k < list.len(),
        forall|i: int, j: int| 0 <= i < j < list.len() ==> (#[trigger] list[i]).0 != (#[trigger] list[j]).0,
    ensures
        index_of(list).contains_key(list[k].0),
        index_of(list)[list[k].0] == (k as nat, list[k].1),
    decreases list.len(),
{
    if k < list.len() - 1 {
        let prefix = list.drop_last();
        assert forall|i: int, j: int| 0 <= i < j < prefix.len() implies (#[trigger] prefix[i]).0
            != (#[trigger] prefix[j]).0 by {
            assert(prefix[i] == list[i] && prefix[j] == list[j]);
        }
        lemma_index_distinct(prefix, k);
        assert(list[k].0 != list[list.len() - 1].0);
    }
}

/// A block count below the count of the whole buffer means a block start
/// inside the buffer.
pub proof fn lemma_block_count_prefix(n: nat, bs: nat, k: nat)
    requires
        bs > 0,
        k * bs <= n,
    ensures
        k <= block_count(n, bs),
        (k < block_count(n, bs)) == (k * bs < n),
        block_count(n, bs) * bs >= n,
{
    lemma_block_count(n, bs);
    let q: int = (n as int) / (bs as int);
    let r: int = (n as int) % (bs as int);
    vstd::arithmetic::div_mod::lemma_fundamental_div_mod(n as int, bs as int);
    vstd::arithmetic::div_mod::lemma_mod_pos_bound(n as int, bs as int);
    if r == 0 {
        assert(k <= q && (k < q) == (k * bs < n)) by (nonlinear_arith)
            requires
                n == bs * q,
                bs > 0,
                k * bs <= n,
                k >= 0,
        ;
        assert(q * bs >= n) by (nonlinear_arith)
            requires
                n == bs * q,
        ;
    } else {
        assert(k <= q && k * bs < n) by (nonlinear_arith)
            requires
                n == bs * q + r,
                0 < r < bs,
                k * bs <= n,
                k >= 0,
        ;
        assert((q + 1) * bs >= n) by (nonlinear_arith)
            requires
                n == bs * q + r,
                0 < r < bs,
        ;
    }
}

} // verus!
