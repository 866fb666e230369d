//! Stitching buffers together, each at its own offset.

use crate::buffer::{buf_extend, buf_len, buf_slice};
use crate::edit::{AnnotatedBytes, EditError};
use crate::fill::{fill_ok, pad_to, FillPattern};
use crate::offset::ByteOffset;
use vstd::prelude::*;

verus! {

/// A fragment and the offset it is to be placed at.
pub type Placed = (AnnotatedBytes, ByteOffset);

/// `s`, sorted by offset, with `x` placed after every fragment whose offset
/// is not greater than its own.
pub open spec fn insert_by_offset(s: Seq<Placed>, x: Placed) -> Seq<Placed>
    decreases s.len(),
{
    if s.len() == 0 {
        seq![x]
    } else if x.1@ < s[0].1@ {
        seq![x] + s
    } else {
        seq![s[0]] + insert_by_offset(s.drop_first(), x)
    }
}

/// `s` sorted by ascending offset; fragments with equal offsets keep their
/// order.
pub open spec fn sort_by_offset(s: Seq<Placed>) -> Seq<Placed>
    decreases s.len(),
{
    if s.len() == 0 {
        s
    } else {
        insert_by_offset(sort_by_offset(s.drop_last()), s.last())
    }
}

/// The index just past fragment `j`.
pub open spec fn frag_end(s: Seq<Placed>, j: int) -> nat {
    s[j].1@ + s[j].0@.len()
}

/// Some fragment starts before the end of the one before it.
pub open spec fn overlaps(s: Seq<Placed>) -> bool {
    exists|j: int| 0 < j < s.len() && #[trigger] s[j].1@ < frag_end(s, j - 1)
}

/// Fragment `j` starts after the end of the one before it (after 0 for the
/// first), so padding goes before it.
pub open spec fn gap_before(s: Seq<Placed>, j: int) -> bool {
    s[j].1@ > (if j == 0 { 0 } else { frag_end(s, j - 1) })
}

/// Some fragment needs padding before it.
pub open spec fn has_gap(s: Seq<Placed>) -> bool {
    exists|j: int| 0 <= j < s.len() && #[trigger] gap_before(s, j)
}

/// The length of the stitched buffer: the end of the last fragment.
pub open spec fn stitched_len(s: Seq<Placed>) -> nat {
    if s.len() == 0 { 0 } else { frag_end(s, s.len() - 1) }
}

/// Index `p` lies inside one of the first `k` fragments of `s`.
pub open spec fn covered(s: Seq<Placed>, k: int, p: int) -> bool {
    exists|j: int| 0 <= j < k && #[trigger] s[j].1@ <= p < frag_end(s, j)
}

/// `out` holds the fragments of `s` (already in order) at their offsets,
/// and pad bytes of `fill` everywhere else.
pub open spec fn stitched(s: Seq<Placed>, fill: FillPattern, out: Seq<u8>) -> bool {
    &&& out.len() == stitched_len(s)
    &&& forall|j: int, t: int|
        0 <= j < s.len() && 0 <= t < s[j].0@.len() ==> #[trigger] out[s[j].1@ + t] == #[trigger] s[j].0@[t]
    &&& forall|p: int| 0 <= p < out.len() && !covered(s, s.len() as int, p) ==> fill_ok(fill, #[trigger] out[p])
}

/// A fragment that ends within the addressable range.
pub open spec fn fits(x: Placed) -> bool {
    x.1@ + x.0@.len() <= usize::MAX
}

proof fn lemma_insert_at(s: Seq<Placed>, x: Placed, p: int)
    requires
        0 <= p <= s.len(),
        forall|i: int| 0 <= i < p ==> #[trigger] s[i].1@ <= x.1@,
        p < s.len() ==> x.1@ < s[p].1@,
    ensures
        insert_by_offset(s, x) == s.insert(p, x),
    decreases p,
{
    if s.len() == 0 {
        assert(seq![x] =~= s.insert(p, x));
    } else if p == 0 {
        assert(seq![x] + s =~= s.insert(p, x));
    } else {
        let t = s.drop_first();
        assert forall|i: int| 0 <= i < p - 1 implies #[trigger] t[i].1@ <= x.1@ by {
            assert(t[i] == s[i + 1]);
        }
        lemma_insert_at(t, x, p - 1);
        assert(seq![s[0]] + t.insert(p - 1, x) =~= s.insert(p, x));
    }
}

/// Sorts `files` by ascending offset, keeping the order of equal offsets.
pub fn sort_files(files: Vec<Placed>) -> (r: Vec<Placed>)
    requires
        forall|i: int| 0 <= i < files@.len() ==> fits(#[trigger] files@[i]),
    ensures
        r@ == sort_by_offset(files@),
        forall|i: int| 0 <= i < r@.len() ==> fits(#[trigger] r@[i]),
{
    let ghost orig = files@;
    let mut rest = files;
    let mut out: Vec<Placed> = Vec::new();
    let ghost mut k: int = 0;
    assert(orig.take(0) =~= Seq::<Placed>::empty());
    assert(orig.skip(0) =~= orig);
    while rest.len() > 0
        invariant
            0 <= k <= orig.len(),
            rest@ == orig.skip(k),
            out@ == sort_by_offset(orig.take(k)),
            forall|i: int| 0 <= i < orig.len() ==> fits(#[trigger] orig[i]),
            forall|i: int| 0 <= i < out@.len() ==> fits(#[trigger] out@[i]),
        decreases rest.len(),
    {
        let x = rest.remove(0);
        assert(x == orig[k]);
        let mut p: usize = 0;
        while p < out.len() && out[p].1.as_u64() <= x.1.as_u64()
            invariant
                p <= out@.len(),
                forall|i: int| 0 <= i < p ==> #[trigger] out@[i].1@ <= x.1@,
            decreases out@.len() - p,
        {
            p = p + 1;
        }
        proof {
            lemma_insert_at(out@, x, p as int);
            let t = orig.take(k + 1);
            assert(t.drop_last() =~= orig.take(k));
            assert(t.last() == x);
        }
        out.insert(p, x);
        proof {
            k = k + 1;
            assert(rest@ =~= orig.skip(k));
        }
    }
    assert(orig.take(k) =~= orig);
    out
}

proof fn lemma_overlap_found(s: Seq<Placed>, k: int)
    requires
        0 <= k < s.len(),
        stitched_len(s.take(k)) > s[k].1@,
    ensures
        overlaps(s),
{
    assert(k > 0);
    assert(s.take(k)[k - 1] == s[k - 1]);
    assert(s[k].1@ < frag_end(s, k - 1));
}

proof fn lemma_gap_found(s: Seq<Placed>, k: int)
    requires
        0 <= k < s.len(),
        stitched_len(s.take(k)) < s[k].1@,
    ensures
        has_gap(s),
{
    if k > 0 {
        assert(s.take(k)[k - 1] == s[k - 1]);
    }
    assert(gap_before(s, k));
}

/// One fragment more: what holds of the first `k` fragments and the buffer
/// `before` holds of the first `k + 1` and `now`, the buffer padded to the
/// fragment's offset and extended by its bytes.
proof fn lemma_stitch_step(s: Seq<Placed>, k: int, fill: FillPattern, before: Seq<u8>, padded: Seq<u8>, now: Seq<u8>)
    requires
        0 <= k < s.len(),
        !overlaps(s.take(k)),
        before.len() == stitched_len(s.take(k)),
        before.len() <= s[k].1@,
        forall|j: int, t: int|
            0 <= j < k && 0 <= t < s[j].0@.len() ==> #[trigger] before[s[j].1@ + t] == #[trigger] s[j].0@[t],
        forall|p: int| 0 <= p < before.len() && !covered(s, k, p) ==> fill_ok(fill, #[trigger] before[p]),
        padded.len() == s[k].1@,
        padded.take(before.len() as int) == before,
        forall|i: int| before.len() <= i < padded.len() ==> fill_ok(fill, #[trigger] padded[i]),
        now == padded + s[k].0@,
    ensures
        !overlaps(s.take(k + 1)),
        now.len() == stitched_len(s.take(k + 1)),
        forall|j: int, t: int|
            0 <= j < k + 1 && 0 <= t < s[j].0@.len() ==> #[trigger] now[s[j].1@ + t] == #[trigger] s[j].0@[t],
        forall|p: int| 0 <= p < now.len() && !covered(s, k + 1, p) ==> fill_ok(fill, #[trigger] now[p]),
{
    let t1 = s.take(k + 1);
    let t0 = s.take(k);
    assert forall|j: int| 0 < j < t1.len() implies !(#[trigger] t1[j].1@ < frag_end(t1, j - 1)) by {
        if j < k {
            assert(t0[j] == t1[j]);
            assert(t0[j - 1] == t1[j - 1]);
            if t1[j].1@ < frag_end(t1, j - 1) {
                assert(t0[j].1@ < frag_end(t0, j - 1));
            }
        } else if k > 0 {
            assert(t0[k - 1] == s[k - 1]);
        }
    }
    assert(now.len() == stitched_len(t1));
    assert forall|j: int, t: int|
        0 <= j < k + 1 && 0 <= t < s[j].0@.len() implies #[trigger] now[s[j].1@ + t] == #[trigger] s[j].0@[t] by {
        if j < k {
            if k > 0 {
                assert(t0[k - 1] == s[k - 1]);
            }
            lemma_frag_before_end(s, k, j);
            assert(now[s[j].1@ + t] == padded[s[j].1@ + t]);
            assert(padded[s[j].1@ + t] == before[s[j].1@ + t]);
        } else {
            assert(now[s[j].1@ + t] == s[k].0@[t]);
        }
    }
    assert forall|p: int| 0 <= p < now.len() && !covered(s, k + 1, p) implies fill_ok(fill, #[trigger] now[p]) by {
        if p < before.len() {
            assert(now[p] == padded[p]);
            assert(padded[p] == before[p]);
            if covered(s, k, p) {
                let j = choose|j: int| 0 <= j < k && #[trigger] s[j].1@ <= p < frag_end(s, j);
                assert(s[j].1@ <= p < frag_end(s, j));
            }
        } else if p < s[k].1@ {
            assert(now[p] == padded[p]);
        } else {
            assert(s[k].1@ <= p < frag_end(s, k));
        }
    }
}

/// Among fragments that do not overlap, each ends no later than the end of
/// the last one.
proof fn lemma_frag_before_end(s: Seq<Placed>, k: int, j: int)
    requires
        0 <= j < k <= s.len(),
        !overlaps(s.take(k)),
    ensures
        frag_end(s, j) <= stitched_len(s.take(k)),
    decreases k - j,
{
    let t0 = s.take(k);
    assert(t0[k - 1] == s[k - 1]);
    if j < k - 1 {
        lemma_frag_before_end(s, k - 1, j);
        let t1 = s.take(k - 1);
        assert(t1[k - 2] == s[k - 2]);
        assert(t0[k - 2] == s[k - 2]);
        assert forall|i: int| 0 < i < t1.len() implies !(#[trigger] t1[i].1@ < frag_end(t1, i - 1)) by {
            assert(t0[i] == t1[i]);
            assert(t0[i - 1] == t1[i - 1]);
            if t1[i].1@ < frag_end(t1, i - 1) {
                assert(t0[i].1@ < frag_end(t0, i - 1));
            }
        }
        assert(!(t0[k - 1].1@ < frag_end(t0, k - 2)));
    }
}

impl AnnotatedBytes {
    /// Places each fragment at its offset, in ascending order of offsets
    /// (equal offsets in the order given), padding the gaps with
    /// `fill_pattern`. Fails when a fragment starts before the end of the
    /// one placed before it.
    pub fn stitch(files: Vec<Placed>, fill_pattern: FillPattern) -> (r: Result<AnnotatedBytes, EditError>)
        requires
            forall|i: int| 0 <= i < files@.len() ==> fits(#[trigger] files@[i]),
        ensures
            r is Ok ==> !overlaps(sort_by_offset(files@))
                && stitched(sort_by_offset(files@), fill_pattern, r->Ok_0@),
            r == Err::<AnnotatedBytes, EditError>(EditError::Overlap) ==> overlaps(sort_by_offset(files@)),
            r == Err::<AnnotatedBytes, EditError>(EditError::FillFailed) ==> fill_pattern == FillPattern::Random
                && has_gap(sort_by_offset(files@)),
            r != Err::<AnnotatedBytes, EditError>(EditError::DoesNotFit),
            fill_pattern != FillPattern::Random ==> (r is Ok <==> !overlaps(sort_by_offset(files@))),
            !overlaps(sort_by_offset(files@)) && !has_gap(sort_by_offset(files@)) ==> r is Ok,
    {
        let ghost input = files@;
        let sorted = sort_files(files);
        let ghost s = sorted@;
        let mut out = AnnotatedBytes::new();
        let mut k: usize = 0;
        while k < sorted.len()
            invariant
                s == sorted@,
                s == sort_by_offset(input),
                input == files@,
                0 <= k <= s.len(),
                forall|i: int| 0 <= i < s.len() ==> fits(#[trigger] s[i]),
                !overlaps(s.take(k as int)),
                out@.len() == stitched_len(s.take(k as int)),
                forall|j: int, t: int|
                    0 <= j < k && 0 <= t < s[j].0@.len() ==> #[trigger] out@[s[j].1@ + t] == #[trigger] s[j].0@[t],
                forall|p: int| 0 <= p < out@.len() && !covered(s, k as int, p) ==> fill_ok(fill_pattern, #[trigger] out@[p]),
            decreases s.len() - k,
        {
            let cursor = buf_len(&out.bytes);
            let offset = sorted[k].1.as_usize();
            proof {
                assert(fits(s[k as int]));
            }
            if cursor > offset {
                proof {
                    lemma_overlap_found(s, k as int);
                }
                return Err(EditError::Overlap);
            }
            let ghost before = out@;
            match pad_to(&mut out.bytes, offset, fill_pattern) {
                Ok(()) => {},
                Err(()) => {
                    proof {
                        lemma_gap_found(s, k as int);
                    }
                    return Err(EditError::FillFailed);
                },
            }
            let ghost padded = out@;
            buf_extend(&mut out.bytes, buf_slice(&sorted[k].0.bytes));
            proof {
                lemma_stitch_step(s, k as int, fill_pattern, before, padded, out@);
            }
            k = k + 1;
        }
        assert(s.take(k as int) =~= s);
        Ok(out)
    }
}

/// A fragment of more than one byte at offset 0 and another at offset 1
/// overlap once sorted, in whichever order they are given.
pub proof fn lemma_stitch_rejects_overlap(f1: Placed, f2: Placed)
    requires
        f1.1@ == 0,
        f2.1@ == 1,
        f1.0@.len() > 1,
    ensures
        overlaps(sort_by_offset(seq![f1, f2])),
        overlaps(sort_by_offset(seq![f2, f1])),
{
    let e = Seq::<Placed>::empty();
    assert(sort_by_offset(e) == e);
    assert(seq![f1].last() == f1);
    assert(seq![f2].last() == f2);
    assert(insert_by_offset(e, f1) == seq![f1]);
    assert(insert_by_offset(e, f2) == seq![f2]);
    let a = seq![f1, f2];
    assert(a.drop_last() =~= seq![f1]);
    assert(seq![f1].drop_last() =~= Seq::<Placed>::empty());
    assert(sort_by_offset(seq![f1]) == insert_by_offset(Seq::<Placed>::empty(), f1));
    assert(sort_by_offset(seq![f1]) =~= seq![f1]);
    assert(seq![f1].drop_first() =~= Seq::<Placed>::empty());
    assert(seq![f1] + seq![f2] =~= seq![f1, f2]);
    assert(insert_by_offset(seq![f1], f2) =~= seq![f1, f2]);
    assert(sort_by_offset(a) =~= seq![f1, f2]);
    assert(sort_by_offset(a)[1].1@ < frag_end(sort_by_offset(a), 0));

    let b = seq![f2, f1];
    assert(b.drop_last() =~= seq![f2]);
    assert(seq![f2].drop_last() =~= Seq::<Placed>::empty());
    assert(sort_by_offset(seq![f2]) == insert_by_offset(Seq::<Placed>::empty(), f2));
    assert(sort_by_offset(seq![f2]) =~= seq![f2]);
    assert(seq![f1] + seq![f2] =~= seq![f1, f2]);
    assert(insert_by_offset(seq![f2], f1) =~= seq![f1, f2]);
    assert(sort_by_offset(b) =~= seq![f1, f2]);
    assert(sort_by_offset(b)[1].1@ < frag_end(sort_by_offset(b), 0));
}

} // verus!
