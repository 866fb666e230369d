//! The editing engine: stance, graft and stitch on byte buffers.

use crate::buffer::{
    buf_extend, buf_from_vec, buf_len, buf_new, buf_slice, buf_split_off, buf_truncate, bytes_of,
};
use crate::fill::{fill_ok, pad_to, FillPattern};
use crate::offset::ByteOffset;
use bytes::BytesMut;
use vstd::prelude::*;

verus! {

/// Why an edit failed.
#[derive(Debug, Clone, Copy, PartialEq, Eq)]
pub enum EditError {
    /// A fragment starts before the end of the fragment placed before it.
    Overlap,
    /// The replacement is longer than the window it should fill.
    DoesNotFit,
    /// The random source could not produce padding.
    FillFailed,
}

/// A byte buffer, loaded from a file or assembled from others.
#[derive(Debug)]
pub struct AnnotatedBytes {
    pub bytes: BytesMut,
}

impl View for AnnotatedBytes {
    type V = Seq<u8>;

    open spec fn view(&self) -> Seq<u8> {
        bytes_of(self.bytes)
    }
}

/// The bytes of `s` in `[start, start + size)`, as far as `s` reaches.
pub open spec fn stance_of(s: Seq<u8>, start: nat, size: nat) -> Seq<u8> {
    let rest = if start <= s.len() { s.skip(start as int) } else { Seq::empty() };
    if size < rest.len() { rest.take(size as int) } else { rest }
}

/// The length of `old` after a window of `size` bytes at `start` is written.
pub open spec fn grafted_len(old_len: nat, start: nat, size: nat) -> nat {
    if start + size <= old_len { old_len } else { start + size }
}

/// `new` is `old` with `[start, start + size)` holding `repl` and then pad
/// bytes of `p`; bytes of `old` outside the window stay where they were, and
/// a gap between the end of `old` and `start` is padded with `p` too.
pub open spec fn grafted(old: Seq<u8>, repl: Seq<u8>, start: nat, size: nat, p: FillPattern, new: Seq<u8>) -> bool {
    &&& new.len() == grafted_len(old.len(), start, size)
    &&& forall|i: int| 0 <= i < start && i < old.len() ==> #[trigger] new[i] == old[i]
    &&& forall|i: int| old.len() <= i < start ==> fill_ok(p, #[trigger] new[i])
    &&& forall|j: int| 0 <= j < repl.len() ==> #[trigger] new[start + j] == repl[j]
    &&& forall|i: int| start + repl.len() <= i < start + size ==> fill_ok(p, #[trigger] new[i])
    &&& forall|i: int| start + size <= i < old.len() ==> #[trigger] new[i] == old[i]
}

impl AnnotatedBytes {
    /// An empty buffer.
    pub fn new() -> (r: AnnotatedBytes)
        ensures
            r@ == Seq::<u8>::empty(),
    {
        AnnotatedBytes { bytes: buf_new() }
    }

    /// A buffer holding the bytes of `v`.
    pub fn from_vec(v: Vec<u8>) -> (r: AnnotatedBytes)
        ensures
            r@ == v@,
    {
        AnnotatedBytes { bytes: buf_from_vec(v) }
    }

    /// Keeps the `size` bytes that start at index `start` (the byte at `start`
    /// is the first one kept) and drops the rest. Whatever lies past the end
    /// of the buffer is simply absent.
    pub fn stance(&mut self, start: ByteOffset, size: ByteOffset)
        ensures
            final(self)@ == stance_of(old(self)@, start@, size@),
    {
        let len = buf_len(&self.bytes);
        if start.as_u64() > 0 {
            if start.as_u64() <= len as u64 {
                self.bytes = buf_split_off(&mut self.bytes, start.as_u64() as usize);
            } else {
                self.bytes = buf_new();
            }
        }
        let rest = buf_len(&self.bytes);
        if size.as_u64() < rest as u64 {
            buf_truncate(&mut self.bytes, size.as_u64() as usize);
        }
        proof {
            let s = old(self)@;
            if start@ == 0 {
                assert(s.skip(0) =~= s);
            }
        }
    }

    /// Writes `replace` into the window of `size` bytes at `start`, padding
    /// the rest of the window with `fill_pattern`. Bytes past the window are
    /// kept; the buffer grows where the window reaches past its end.
    pub fn graft(
        &mut self,
        replace: AnnotatedBytes,
        start: ByteOffset,
        size: ByteOffset,
        fill_pattern: FillPattern,
    ) -> (r: Result<(), EditError>)
        requires
            replace@.len() <= size@ ==> start@ + size@ <= usize::MAX,
        ensures
            r == Err::<(), EditError>(EditError::DoesNotFit) <==> replace@.len() > size@,
            r == Err::<(), EditError>(EditError::DoesNotFit) ==> final(self)@ == old(self)@,
            r is Ok ==> grafted(old(self)@, replace@, start@, size@, fill_pattern, final(self)@),
            r == Err::<(), EditError>(EditError::FillFailed) ==> fill_pattern == FillPattern::Random
                && (start@ > old(self)@.len() || replace@.len() < size@),
            r != Err::<(), EditError>(EditError::Overlap),
            replace@.len() <= size@ && (fill_pattern != FillPattern::Random || (start@ <= old(self)@.len()
                && replace@.len() == size@)) ==> r is Ok,
    {
        let ghost s = self@;
        let ghost repl = replace@;
        let rlen = buf_len(&replace.bytes);
        if rlen as u64 > size.as_u64() {
            return Err(EditError::DoesNotFit);
        }
        let start_u = start.as_usize();
        let size_u = size.as_usize();
        let len = buf_len(&self.bytes);
        let mut tail = if start_u <= len {
            buf_split_off(&mut self.bytes, start_u)
        } else {
            match pad_to(&mut self.bytes, start_u, fill_pattern) {
                Ok(()) => {},
                Err(()) => {
                    return Err(EditError::FillFailed);
                },
            }
            buf_new()
        };
        let ghost prefix = self@;
        assert(prefix.len() == start_u);
        buf_extend(&mut self.bytes, buf_slice(&replace.bytes));
        let ghost with_repl = self@;
        match pad_to(&mut self.bytes, start_u + size_u, fill_pattern) {
            Ok(()) => {},
            Err(()) => {
                return Err(EditError::FillFailed);
            },
        }
        let ghost window = self@;
        let tlen = buf_len(&tail);
        if size_u < tlen {
            let rest = buf_split_off(&mut tail, size_u);
            buf_extend(&mut self.bytes, buf_slice(&rest));
        }
        proof {
            let new = self@;
            assert(window.take(with_repl.len() as int) == with_repl);
            assert(with_repl == prefix + repl);
            assert forall|i: int| 0 <= i < start@ && i < s.len() implies #[trigger] new[i] == s[i] by {
                assert(new[i] == window[i]);
                assert(window[i] == with_repl[i]);
                assert(with_repl[i] == prefix[i]);
            }
            assert forall|i: int| s.len() <= i < start@ implies fill_ok(fill_pattern, #[trigger] new[i]) by {
                assert(new[i] == window[i]);
                assert(window[i] == with_repl[i]);
                assert(with_repl[i] == prefix[i]);
            }
            assert forall|j: int| 0 <= j < repl.len() implies #[trigger] new[start@ + j] == repl[j] by {
                assert(new[start@ + j] == window[start@ + j]);
                assert(window[start@ + j] == with_repl[start@ + j]);
            }
            assert forall|i: int| start@ + repl.len() <= i < start@ + size@ implies fill_ok(fill_pattern, #[trigger] new[i]) by {
                assert(new[i] == window[i]);
            }
            assert forall|i: int| start@ + size@ <= i < s.len() implies #[trigger] new[i] == s[i] by {
                assert(start@ <= s.len());
            }
        }
        Ok(())
    }
}

/// Cutting from the start keeps the first `n` bytes, or all of them when
/// there are no more than `n`.
pub proof fn lemma_stance_from_start(s: Seq<u8>, n: nat)
    ensures
        stance_of(s, 0, n) == if n < s.len() { s.take(n as int) } else { s },
{
    assert(s.skip(0) =~= s);
}

} // verus!
