//! Applying operations to an original buffer, in two passes: first every
//! insertion, then every removal on the result.
use vstd::prelude::*;
use vstd::string::StringSliceAdditionalSpecFns;
use vstd::utf8::valid_utf8;

use crate::delta::{ops_view, OpView, Operation};

verus! {

#[verifier::external_type_specification]
#[verifier::external_body]
pub struct ExUtf8Error(std::str::Utf8Error);

/// Relies on std's `str::from_utf8`: it accepts exactly the byte strings
/// that are valid UTF-8, and the string it returns holds those bytes.
#[verifier::external_body]
fn str_from_utf8(bytes: &[u8]) -> (r: Result<&str, std::str::Utf8Error>)
    ensures
        match r {
            Ok(s) => valid_utf8(bytes@) && s.spec_bytes() == bytes@,
            Err(_) => !valid_utf8(bytes@),
        },
{
    std::str::from_utf8(bytes)
}

/// Where a pass stands: the next byte of the source to copy, and what it
/// has written so far.
pub struct PassState {
    pub cur: nat,
    pub out: Seq<u8>,
}

/// How many bytes of `src` a pass copies from `st` on so that its output
/// reaches `offset`: as many as it takes, as many as are left.
pub open spec fn copy_len(src: Seq<u8>, st: PassState, offset: nat) -> nat {
    if offset > st.out.len() {
        let want = (offset - st.out.len()) as nat;
        let left = (src.len() - st.cur) as nat;
        if want < left {
            want
        } else {
            left
        }
    } else {
        0
    }
}

/// The pass state once the output reaches `offset`, as far as `src` allows.
pub open spec fn copy_upto(src: Seq<u8>, st: PassState, offset: nat) -> PassState {
    let k = copy_len(src, st, offset);
    PassState { cur: st.cur + k, out: st.out + src.subrange(st.cur as int, (st.cur + k) as int) }
}

/// The state of the insertion pass over `src` after the operations `ops`:
/// each insertion copies up to its offset, then writes its bytes.
pub open spec fn insert_pass(src: Seq<u8>, ops: Seq<OpView>) -> PassState
    decreases ops.len(),
{
    if ops.len() == 0 {
        PassState { cur: 0, out: Seq::empty() }
    } else {
        let st = insert_pass(src, ops.drop_last());
        match ops.last() {
            OpView::Insert { offset, buffer } => {
                let c = copy_upto(src, st, offset);
                PassState { cur: c.cur, out: c.out + buffer }
            },
            OpView::Remove { .. } => st,
        }
    }
}

/// The state of the removal pass over `src` after the operations `ops`:
/// each removal copies up to its offset, then skips `len` bytes of `src`.
pub open spec fn remove_pass(src: Seq<u8>, ops: Seq<OpView>) -> PassState
    decreases ops.len(),
{
    if ops.len() == 0 {
        PassState { cur: 0, out: Seq::empty() }
    } else {
        let st = remove_pass(src, ops.drop_last());
        match ops.last() {
            OpView::Insert { .. } => st,
            OpView::Remove { offset, len } => {
                let c = copy_upto(src, st, offset);
                let skipped = c.cur + len;
                PassState { cur: if skipped < src.len() { skipped } else { src.len() }, out: c.out }
            },
        }
    }
}

/// What a pass writes in the end: its output, then the rest of `src`.
pub open spec fn pass_result(src: Seq<u8>, st: PassState) -> Seq<u8> {
    st.out + src.subrange(st.cur as int, src.len() as int)
}

/// The buffer that applying `ops` to `original` gives.
pub open spec fn patched(original: Seq<u8>, ops: Seq<OpView>) -> Seq<u8> {
    let inserted = pass_result(original, insert_pass(original, ops));
    pass_result(inserted, remove_pass(inserted, ops))
}

/// Operations to apply to an original buffer, and the buffer they gave.
#[derive(Debug, Clone)]
pub struct Patch {
    buffer: Vec<u8>,
    ops: Vec<Operation>,
}

/// The abstract contents of a [`Patch`].
pub struct PatchView {
    pub buffer: Seq<u8>,
    pub ops: Seq<OpView>,
}

impl View for Patch {
    type V = PatchView;

    closed spec fn view(&self) -> PatchView {
        PatchView { buffer: self.buffer@, ops: ops_view(self.ops@) }
    }
}

impl Patch {
    /// A patch of `ops`, not applied yet.
    pub fn new(ops: Vec<Operation>) -> (r: Self)
        ensures
            r@ == (PatchView { buffer: Seq::empty(), ops: ops_view(ops@) }),
    {
        Patch { buffer: Vec::new(), ops }
    }

    /// Applies the operations to `original` and keeps the result; returns
    /// whether the result is empty. Without operations it returns `false`
    /// and keeps the buffer it had.
    pub fn apply(&mut self, original: &[u8]) -> (r: bool)
        ensures
            old(self)@.ops.len() == 0 ==> !r && final(self)@ == old(self)@,
            old(self)@.ops.len() > 0 ==> final(self)@ == (PatchView { buffer: patched(original@, old(self)@.ops), ..old(self)@ })
                && r == (final(self)@.buffer.len() == 0),
    {
        if self.ops.len() == 0 {
            return false;
        }
        let inserted = run_pass(original, self.ops.as_slice(), true);
        let result = run_pass(inserted.as_slice(), self.ops.as_slice(), false);
        self.buffer = result;
        self.buffer.len() == 0
    }

    /// The buffer the last application gave.
    pub fn buffer(&self) -> (r: &[u8])
        ensures
            r@ == self@.buffer,
    {
        self.buffer.as_slice()
    }

    /// The buffer the last application gave, as text, if it is valid UTF-8.
    pub fn buffer_utf8(&self) -> (r: Result<&str, std::str::Utf8Error>)
        ensures
            match r {
                Ok(s) => valid_utf8(self@.buffer) && s.spec_bytes() == self@.buffer,
                Err(_) => !valid_utf8(self@.buffer),
            },
    {
        str_from_utf8(self.buffer.as_slice())
    }
}

/// Runs the insertion pass (`inserting`) or the removal pass of `ops` over `src`.
fn run_pass(src: &[u8], ops: &[Operation], inserting: bool) -> (r: Vec<u8>)
    ensures
        r@ == pass_result(
            src@,
            if inserting {
                insert_pass(src@, ops_view(ops@))
            } else {
                remove_pass(src@, ops_view(ops@))
            },
        ),
{
    let ghost view = ops_view(ops@);
    let n = src.len();
    let mut out: Vec<u8> = Vec::new();
    let mut cur: usize = 0;
    let mut i: usize = 0;
    while i < ops.len()
        invariant
            n == src@.len(),
            view == ops_view(ops@),
            i <= ops@.len(),
            cur <= n,
            (PassState { cur: cur as nat, out: out@ }) == if inserting {
                insert_pass(src@, view.take(i as int))
            } else {
                remove_pass(src@, view.take(i as int))
            },
        decreases ops@.len() - i,
    {
        let op = &ops[i];
        proof {
            assert(view.take(i + 1).drop_last() =~= view.take(i as int));
            assert(view.take(i + 1).last() == op@);
        }
        match op {
            Operation::Insert { buffer, offset } => {
                if inserting {
                    copy_to(src, &mut cur, &mut out, *offset);
                    append(&mut out, buffer.as_slice());
                }
            },
            Operation::Remove { offset, len } => {
                if !inserting {
                    copy_to(src, &mut cur, &mut out, *offset);
                    cur = if *len < n - cur { cur + *len } else { n };
                }
            },
        }
        i = i + 1;
    }
    assert(view.take(i as int) =~= view);
    let rest = vstd::slice::slice_subrange(src, cur, n);
    append(&mut out, rest);
    out
}

/// Appends the bytes of `bytes` to `out`.
fn append(out: &mut Vec<u8>, bytes: &[u8])
    ensures
        final(out)@ == old(out)@ + bytes@,
{
    let mut i: usize = 0;
    while i < bytes.len()
        invariant
            i <= bytes@.len(),
            out@ == old(out)@ + bytes@.take(i as int),
        decreases bytes@.len() - i,
    {
        out.push(bytes[i]);
        i = i + 1;
        assert(out@ =~= old(out)@ + bytes@.take(i as int));
    }
    assert(bytes@.take(i as int) =~= bytes@);
}

/// Copies bytes of `src` from `cur` on to `out` until `out` reaches `offset`
/// or `src` runs out.
fn copy_to(src: &[u8], cur: &mut usize, out: &mut Vec<u8>, offset: usize)
    requires
        *old(cur) <= src@.len(),
    ensures
        (PassState { cur: *final(cur) as nat, out: final(out)@ }) == copy_upto(
            src@,
            PassState { cur: *old(cur) as nat, out: old(out)@ },
            offset as nat,
        ),
        *final(cur) <= src@.len(),
{
    let ghost st = PassState { cur: *cur as nat, out: out@ };
    let ghost k = copy_len(src@, st, offset as nat);
    while out.len() < offset && *cur < src.len()
        invariant
            st.cur <= *cur <= src@.len(),
            out@ == st.out + src@.subrange(st.cur as int, *cur as int),
            *cur - st.cur <= k,
            k == copy_len(src@, st, offset as nat),
        decreases src@.len() - *cur,
    {
        out.push(src[*cur]);
        *cur = *cur + 1;
        assert(out@ =~= st.out + src@.subrange(st.cur as int, *cur as int));
    }
    assert(*cur - st.cur == k);
}

} // verus!
