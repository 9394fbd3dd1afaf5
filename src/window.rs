//! A sliding window over an immutable buffer.
use vstd::prelude::*;

verus! {

/// The abstract state of a [`Window`]: the buffer, the block size, how many
/// bytes the window has slid past, and where its front frame starts.
pub struct WindowView {
    pub buffer: Seq<u8>,
    pub block_size: nat,
    pub pos: nat,
    pub front_start: nat,
}

/// The smaller of two numbers.
pub open spec fn min_nat(x: nat, y: nat) -> nat {
    if x < y {
        x
    } else {
        y
    }
}

impl WindowView {
    pub open spec fn wf(self) -> bool {
        &&& self.block_size > 0
        &&& self.buffer.len() <= usize::MAX
        &&& self.front_start % self.block_size == 0
        &&& self.front_start <= self.pos <= self.front_end()
    }

    /// Where the front frame ends.
    pub open spec fn front_end(self) -> nat {
        min_nat(self.front_start + self.block_size, self.buffer.len())
    }

    /// Where the back frame ends: how far the buffer has been read.
    pub open spec fn back_end(self) -> nat {
        min_nat(self.front_start + 2 * self.block_size, self.buffer.len())
    }

    /// Where the current frame ends: one block past `pos`, cut at the end of the buffer.
    pub open spec fn frame_end(self) -> nat {
        min_nat(self.pos + self.block_size, self.buffer.len())
    }

    /// The bytes under the window.
    pub open spec fn frame(self) -> Seq<u8> {
        self.buffer.subrange(self.pos as int, self.frame_end() as int)
    }

    /// At the end of the buffer, and only there, nothing is left to read
    /// and the window sits on a boundary.
    pub proof fn lemma_end(self)
        requires
            self.wf(),
        ensures
            (self.back_end() == self.pos) == (self.pos == self.buffer.len()),
            self.pos == self.buffer.len() ==> self.pos == self.front_end(),
            self.pos <= self.buffer.len(),
    {
    }

    /// The window one byte further on, unless it has already passed the end;
    /// the back frame becomes the front one when the front is used up.
    pub open spec fn advanced(self) -> WindowView {
        if self.pos < self.buffer.len() {
            WindowView {
                pos: self.pos + 1,
                front_start: if self.pos == self.front_start + self.block_size {
                    self.pos
                } else {
                    self.front_start
                },
                ..self
            }
        } else {
            self
        }
    }

    /// The byte that leaves the window on the next step.
    pub open spec fn tail(self) -> Option<u8> {
        if self.pos < self.buffer.len() {
            Some(self.buffer[self.pos as int])
        } else {
            None
        }
    }

    /// The byte that enters the window on the next step.
    pub open spec fn head(self) -> Option<u8> {
        if self.pos + self.block_size < self.buffer.len() {
            Some(self.buffer[(self.pos + self.block_size) as int])
        } else {
            None
        }
    }
}

/// A window of one block that slides byte by byte over a buffer.
///
/// The buffer is read a block at a time into two adjacent frames, `front`
/// and `back`; the window is the end of `front` from `offset` on, followed
/// by the first `offset` bytes of `back`.
pub struct Window<'a> {
    /// The whole buffer the window slides over.
    buffer: &'a [u8],
    /// Where `front` starts in the buffer.
    front_start: usize,
    /// The length of `front`; `back` follows it directly.
    front_len: usize,
    /// The length of `back`.
    back_len: usize,
    /// The block size of the signature the buffer is compared against.
    block_size: usize,
    /// The read position inside `front`.
    offset: usize,
    /// How many bytes the window has slid past.
    bytes_read: usize,
}

/// The number of bytes a read of at most `bs` bytes from `at` returns.
pub open spec fn read_len(n: nat, at: nat, bs: nat) -> nat {
    if at + bs <= n {
        bs
    } else if at <= n {
        (n - at) as nat
    } else {
        0
    }
}

impl<'a> View for Window<'a> {
    type V = WindowView;

    closed spec fn view(&self) -> WindowView {
        WindowView {
            buffer: self.buffer@,
            block_size: self.block_size as nat,
            pos: self.bytes_read as nat,
            front_start: self.front_start as nat,
        }
    }
}

impl<'a> Window<'a> {
    #[verifier::type_invariant]
    closed spec fn inv(&self) -> bool {
        let n = self.buffer@.len();
        &&& n <= usize::MAX
        &&& self.block_size > 0
        &&& self.front_start % self.block_size == 0
        &&& self.front_len == read_len(n, self.front_start as nat, self.block_size as nat)
        &&& self.back_len == read_len(n, (self.front_start + self.front_len) as nat, self.block_size as nat)
        &&& self.front_start + self.front_len + self.back_len <= n
        &&& self.offset <= self.front_len
        &&& self.bytes_read == self.front_start + self.offset
    }

    /// A window over the first block of `buffer`, with the block after it read ahead.
    pub fn new(buffer: &'a [u8], block_size: usize) -> (r: Self)
        requires
            block_size > 0,
        ensures
            r@ == (WindowView { buffer: buffer@, block_size: block_size as nat, pos: 0, front_start: 0 }),
            r@.wf(),
    {
        let n = buffer.len();
        let front_len = if n < block_size { n } else { block_size };
        let rest = n - front_len;
        let back_len = if rest < block_size { rest } else { block_size };
        assert(0nat % (block_size as nat) == 0) by (nonlinear_arith)
            requires
                block_size > 0,
        ;
        Window { buffer, front_start: 0, front_len, back_len, block_size, offset: 0, bytes_read: 0 }
    }

    /// Slides the window one byte on; returns the byte that left it and the
    /// byte that entered it, if any.
    pub fn move_forword(&mut self) -> (r: (Option<u8>, Option<u8>))
        ensures
            r == (old(self)@.tail(), old(self)@.head()),
            final(self)@ == old(self)@.advanced(),
            final(self)@.wf(),
    {
        proof {
            use_type_invariant(&*self);
        }
        if self.front_len == 0 {
            return (None, None);
        }
        if self.offset >= self.front_len {
            if self.back_len == 0 {
                return (None, None);
            }
            self.read_next();
        }
        proof {
            use_type_invariant(&*self);
        }
        let tail = self.tail();
        let head = self.head();
        proof {
            self.lemma_frame_end();
        }
        *self = Window { offset: self.offset + 1, bytes_read: self.bytes_read + 1, ..*self };
        (tail, head)
    }

    /// The bytes under the window: the part in `front`, then the part in `back`.
    pub fn frame(&self) -> (r: (&'a [u8], &'a [u8]))
        ensures
            r.0@ == self@.buffer.subrange(self@.pos as int, self@.front_end() as int),
            r.1@ == self@.buffer.subrange(self@.front_end() as int, self@.frame_end() as int),
            r.0@ + r.1@ == self@.frame(),
    {
        proof {
            use_type_invariant(self);
            self.lemma_frame_end();
        }
        let front_end = self.front_start + self.front_len;
        let back_take = if self.offset < self.back_len { self.offset } else { self.back_len };
        let front = vstd::slice::slice_subrange(self.buffer, self.front_start + self.offset, front_end);
        let back = vstd::slice::slice_subrange(self.buffer, front_end, front_end + back_take);
        assert(front@ + back@ =~= self@.frame());
        (front, back)
    }

    /// The number of bytes under the window.
    pub fn frame_size(&self) -> (r: usize)
        ensures
            r == self@.back_end() - self@.pos,
    {
        proof {
            use_type_invariant(self);
            self.lemma_frame_end();
        }
        self.front_len + self.back_len - self.offset
    }

    /// Whether any byte is under the window.
    pub fn has_frame(&self) -> (r: bool)
        ensures
            r == (self@.pos < self@.buffer.len()),
    {
        proof {
            use_type_invariant(self);
        }
        self.frame_size() > 0
    }

    /// Whether the window sits on a block boundary of the buffer, or at its end.
    pub fn on_boundry(&self) -> (r: bool)
        ensures
            r == (self@.pos == self@.front_start || self@.pos == self@.front_end()),
    {
        proof {
            use_type_invariant(self);
        }
        self.offset == 0 || self.offset == self.front_len
    }

    /// How many bytes the window has slid past.
    pub fn bytes_read(&self) -> (r: usize)
        ensures
            r == self@.pos,
    {
        self.bytes_read
    }

    /// How the frames sit in the buffer.
    proof fn lemma_frame_end(&self)
        requires
            self.inv(),
        ensures
            self@.wf(),
            self.front_start + self.front_len == self@.front_end(),
            self.front_start + self.front_len + self.back_len == self@.back_end(),
            self.front_start + self.front_len + (if self.offset < self.back_len { self.offset } else { self.back_len }) == self@.frame_end(),
            self@.pos <= self@.buffer.len(),
            self@.pos == self@.buffer.len() <==> (self.offset == self.front_len && self.back_len == 0),
    {
    }

    /// The byte one block ahead of the read position, in `back`.
    fn head(&self) -> (r: Option<u8>)
        requires
            self.offset < self.front_len,
        ensures
            r == self@.head(),
    {
        proof {
            use_type_invariant(self);
        }
        let head_idx = self.offset + (self.block_size - self.front_len);
        if head_idx >= self.back_len {
            return None;
        }
        Some(self.buffer[self.front_start + self.front_len + head_idx])
    }

    /// The byte at the read position, in `front`.
    fn tail(&self) -> (r: Option<u8>)
        requires
            self.offset < self.front_len,
        ensures
            r == self@.tail(),
    {
        proof {
            use_type_invariant(self);
        }
        Some(self.buffer[self.front_start + self.offset])
    }

    /// Makes `back` the new `front` and reads the next block into `back`.
    fn read_next(&mut self)
        requires
            old(self).offset == old(self).front_len,
            old(self).back_len > 0,
        ensures
            final(self)@ == (WindowView { front_start: old(self)@.pos, ..old(self)@ }),
            final(self).offset == 0,
            final(self).front_len > 0,
    {
        proof {
            use_type_invariant(&*self);
            let bs = self.block_size as int;
            vstd::arithmetic::div_mod::lemma_add_mod_noop(self.front_start as int, bs, bs);
            vstd::arithmetic::div_mod::lemma_mod_self_0(bs);
        }
        let n = self.buffer.len();
        let front_start = self.front_start + self.front_len;
        let front_len = self.back_len;
        let rest = n - front_start - front_len;
        let back_len = if rest < self.block_size { rest } else { self.block_size };
        *self = Window { front_start, front_len, back_len, offset: 0, ..*self };
    }
}

} // verus!
