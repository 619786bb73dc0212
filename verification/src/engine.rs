use vstd::prelude::*;
use crate::caption::{Caption, SpecCaption, Timestamp, caps_view};
use crate::matcher::{ExclusionSet, spec_matches};

verus! {

/// How many captions of the collection match the exclusion list.
pub open spec fn spec_removed_count(cs: Seq<SpecCaption>, ex: Seq<Seq<u8>>) -> int
    decreases cs.len(),
{
    if cs.len() == 0 {
        0
    } else {
        spec_removed_count(cs.drop_last(), ex) + if spec_matches(ex, cs.last().text) {
            1int
        } else {
            0int
        }
    }
}

/// A surviving caption keeps its number when that number is at most 1;
/// otherwise the count of captions removed before it is subtracted.
pub open spec fn spec_adjust(c: SpecCaption, removed: int) -> SpecCaption {
    if c.num > 1 {
        SpecCaption { num: (c.num - removed) as usize, ..c }
    } else {
        c
    }
}

/// The filter-and-renumber pass: captions whose text matches the exclusion
/// list are dropped; every other caption is kept, in input order, with its
/// number adjusted by the count of drops before it.
pub open spec fn spec_apply(cs: Seq<SpecCaption>, ex: Seq<Seq<u8>>) -> Seq<SpecCaption>
    decreases cs.len(),
{
    if cs.len() == 0 {
        Seq::empty()
    } else {
        let pre = spec_apply(cs.drop_last(), ex);
        if spec_matches(ex, cs.last().text) {
            pre
        } else {
            pre.push(spec_adjust(cs.last(), spec_removed_count(cs.drop_last(), ex)))
        }
    }
}

/// The renumbering subtraction stays within the machine integers: every
/// surviving caption with a number above 1 has at least as large a number
/// as the count of removed captions before it.
pub open spec fn renumber_safe(cs: Seq<SpecCaption>, ex: Seq<Seq<u8>>) -> bool {
    forall|i: int|
        0 <= i < cs.len() && !spec_matches(ex, #[trigger] cs[i].text) && cs[i].num > 1
            ==> spec_removed_count(cs.take(i), ex) <= cs[i].num
}

/// Copies a byte vector.
pub fn clone_bytes(v: &Vec<u8>) -> (r: Vec<u8>)
    ensures
        r@ == v@,
{
    let mut out: Vec<u8> = Vec::new();
    let mut i: usize = 0;
    while i < v.len()
        invariant
            i <= v.len(),
            out@ == v@.take(i as int),
        decreases v.len() - i,
    {
        out.push(v[i]);
        proof {
            assert(out@ =~= v@.take(i as int + 1));
        }
        i += 1;
    }
    proof {
        assert(v@.take(v@.len() as int) =~= v@);
    }
    out
}

impl Caption {
    /// Copies a caption.
    pub fn duplicate(&self) -> (r: Caption)
        ensures
            r@ == self@,
    {
        Caption {
            num: self.num,
            start: self.start,
            end: self.end,
            text: clone_bytes(&self.text),
        }
    }
}

/// Runs the filter-and-renumber pass over a caption collection.
pub fn apply(caps: &Vec<Caption>, ex: &ExclusionSet) -> (r: Vec<Caption>)
    requires
        renumber_safe(caps_view(caps@), ex@),
    ensures
        caps_view(r@) == spec_apply(caps_view(caps@), ex@),
{
    let ghost model = caps_view(caps@);
    let mut out: Vec<Caption> = Vec::new();
    let mut removed: usize = 0;
    let mut i: usize = 0;
    proof {
        assert(model.take(0int) =~= Seq::<SpecCaption>::empty());
        assert(caps_view(out@) =~= Seq::<SpecCaption>::empty());
    }
    while i < caps.len()
        invariant
            i <= caps.len(),
            model == caps_view(caps@),
            model.len() == caps@.len(),
            renumber_safe(model, ex@),
            removed <= i,
            removed == spec_removed_count(model.take(i as int), ex@),
            caps_view(out@) == spec_apply(model.take(i as int), ex@),
        decreases caps.len() - i,
    {
        let ghost pre_take = model.take(i as int);
        proof {
            assert(model.take(i as int + 1).drop_last() =~= pre_take);
            assert(model.take(i as int + 1).last() == model[i as int]);
            assert(model[i as int] == caps@[i as int]@);
        }
        let c = &caps[i];
        if ex.matches(&c.text) {
            removed += 1;
        } else {
            proof {
                assert(model[i as int].text == c.text@);
                assert(!spec_matches(ex@, model[i as int].text));
            }
            let kept = if c.num > 1 {
                proof {
                    assert(model[i as int].num == c.num);
                    assert(spec_removed_count(pre_take, ex@) <= model[i as int].num);
                }
                Caption {
                    num: c.num - removed,
                    start: c.start,
                    end: c.end,
                    text: clone_bytes(&c.text),
                }
            } else {
                c.duplicate()
            };
            proof {
                assert(kept@ == spec_adjust(model[i as int], removed as int));
            }
            out.push(kept);
            proof {
                assert(caps_view(out@) =~= spec_apply(model.take(i as int + 1), ex@));
            }
        }
        i += 1;
    }
    proof {
        assert(model.take(model.len() as int) =~= model);
    }
    out
}

/// Tests the renumbering-stays-in-range condition on a collection, and runs
/// the filter-and-renumber pass exactly when it holds; an input on which a
/// surviving number would fall below the count of earlier drops is returned
/// as `None`, untouched.
pub fn apply_checked(caps: &Vec<Caption>, ex: &ExclusionSet) -> (r: Option<Vec<Caption>>)
    ensures
        r is Some <==> renumber_safe(caps_view(caps@), ex@),
        r is Some ==> caps_view(r.unwrap()@) == spec_apply(caps_view(caps@), ex@),
{
    let ghost model = caps_view(caps@);
    let mut removed: usize = 0;
    let mut i: usize = 0;
    proof {
        assert(model.take(0int) =~= Seq::<SpecCaption>::empty());
    }
    while i < caps.len()
        invariant
            i <= caps.len(),
            model == caps_view(caps@),
            model.len() == caps@.len(),
            removed <= i,
            removed == spec_removed_count(model.take(i as int), ex@),
            forall|k: int|
                0 <= k < i && !spec_matches(ex@, #[trigger] model[k].text) && model[k].num > 1
                    ==> spec_removed_count(model.take(k), ex@) <= model[k].num,
        decreases caps.len() - i,
    {
        let ghost pre_take = model.take(i as int);
        proof {
            assert(model.take(i as int + 1).drop_last() =~= pre_take);
            assert(model.take(i as int + 1).last() == model[i as int]);
            assert(model[i as int] == caps@[i as int]@);
        }
        let c = &caps[i];
        if ex.matches(&c.text) {
            removed += 1;
        } else {
            proof {
                assert(model[i as int].text == c.text@);
                assert(model[i as int].num == c.num);
                assert(!spec_matches(ex@, model[i as int].text));
            }
            if c.num > 1 && c.num < removed {
                proof {
                    assert(spec_removed_count(model.take(i as int), ex@) > model[i as int].num);
                    assert(!renumber_safe(model, ex@));
                }
                return None;
            }
        }
        i += 1;
    }
    proof {
        assert(model.take(model.len() as int) =~= model);
        assert(renumber_safe(model, ex@));
    }
    Some(apply(caps, ex))
}

/// The count of matching captions lies between 0 and the input length, and
/// the output of the pass is exactly the input length minus that count: the
/// output holds one caption for each input caption whose text does not
/// match the exclusion list.
pub proof fn lemma_apply_len(cs: Seq<SpecCaption>, ex: Seq<Seq<u8>>)
    ensures
        0 <= spec_removed_count(cs, ex) <= cs.len(),
        spec_apply(cs, ex).len() == cs.len() - spec_removed_count(cs, ex),
    decreases cs.len(),
{
    if cs.len() > 0 {
        lemma_apply_len(cs.drop_last(), ex);
    }
}

/// The captions that survive the exclusion list: their text matches no
/// entry.
pub open spec fn kept_by(ex: Seq<Seq<u8>>) -> spec_fn(SpecCaption) -> bool {
    |c: SpecCaption| !spec_matches(ex, c.text)
}

/// The output is exactly as long as the count of input captions whose text
/// does not match the exclusion list.
pub proof fn lemma_apply_len_is_kept_count(cs: Seq<SpecCaption>, ex: Seq<Seq<u8>>)
    ensures
        spec_apply(cs, ex).len() == cs.filter(kept_by(ex)).len(),
    decreases cs.len(),
{
    reveal(Seq::filter);
    if cs.len() > 0 {
        lemma_apply_len_is_kept_count(cs.drop_last(), ex);
        assert(kept_by(ex)(cs.last()) == !spec_matches(ex, cs.last().text));
        assert(cs.filter(kept_by(ex)) == if kept_by(ex)(cs.last()) {
            cs.drop_last().filter(kept_by(ex)).push(cs.last())
        } else {
            cs.drop_last().filter(kept_by(ex))
        });
    }
}

/// No caption of the output matches the exclusion list: the pass removes
/// every match, and renumbering never changes a text.
pub proof fn lemma_apply_unmatched(cs: Seq<SpecCaption>, ex: Seq<Seq<u8>>)
    ensures
        forall|k: int|
            0 <= k < spec_apply(cs, ex).len()
                ==> !spec_matches(ex, (#[trigger] spec_apply(cs, ex)[k]).text),
    decreases cs.len(),
{
    if cs.len() > 0 {
        lemma_apply_unmatched(cs.drop_last(), ex);
        let pre = spec_apply(cs.drop_last(), ex);
        if !spec_matches(ex, cs.last().text) {
            let kept = spec_adjust(cs.last(), spec_removed_count(cs.drop_last(), ex));
            assert(kept.text == cs.last().text);
            assert forall|k: int| 0 <= k < spec_apply(cs, ex).len() implies !spec_matches(
                ex,
                (#[trigger] spec_apply(cs, ex)[k]).text,
            ) by {
                if k < pre.len() {
                    assert(spec_apply(cs, ex)[k] == pre[k]);
                } else {
                    assert(spec_apply(cs, ex)[k] == kept);
                }
            }
        }
    }
}

/// On a collection in which no caption matches, the pass is the identity:
/// nothing is removed and every number is left as it was.
pub proof fn lemma_apply_clean_identity(cs: Seq<SpecCaption>, ex: Seq<Seq<u8>>)
    requires
        forall|k: int| 0 <= k < cs.len() ==> !spec_matches(ex, (#[trigger] cs[k]).text),
    ensures
        spec_removed_count(cs, ex) == 0,
        spec_apply(cs, ex) == cs,
    decreases cs.len(),
{
    if cs.len() > 0 {
        assert(cs.last() == cs[cs.len() - 1]);
        lemma_apply_clean_identity(cs.drop_last(), ex);
        assert(spec_adjust(cs.last(), 0) =~= cs.last());
        assert(cs.drop_last().push(cs.last()) =~= cs);
    }
}

/// Applying the pass a second time with the same exclusion list changes
/// nothing: the first pass leaves no match behind, so the second removes
/// nothing and keeps every number.
pub proof fn lemma_apply_idempotent(cs: Seq<SpecCaption>, ex: Seq<Seq<u8>>)
    ensures
        spec_apply(spec_apply(cs, ex), ex) == spec_apply(cs, ex),
{
    lemma_apply_unmatched(cs, ex);
    lemma_apply_clean_identity(spec_apply(cs, ex), ex);
}

/// The pass keeps canonical captions canonical: it only removes captions
/// and changes numbers, never a time range or a text.
pub proof fn lemma_apply_preserves_wf(cs: Seq<SpecCaption>, ex: Seq<Seq<u8>>)
    requires
        crate::caption::wf_caps(cs),
    ensures
        crate::caption::wf_caps(spec_apply(cs, ex)),
    decreases cs.len(),
{
    if cs.len() > 0 {
        assert(forall|i: int|
            0 <= i < cs.drop_last().len() ==> (#[trigger] cs.drop_last()[i]).wf());
        lemma_apply_preserves_wf(cs.drop_last(), ex);
        let pre = spec_apply(cs.drop_last(), ex);
        assert(cs.last() == cs[cs.len() - 1]);
        if !spec_matches(ex, cs.last().text) {
            let kept = spec_adjust(cs.last(), spec_removed_count(cs.drop_last(), ex));
            assert(cs[cs.len() - 1].wf());
            assert(kept.start == cs.last().start && kept.end == cs.last().end && kept.text
                == cs.last().text);
            assert(kept.wf());
            assert forall|k: int| 0 <= k < spec_apply(cs, ex).len() implies (
            #[trigger] spec_apply(cs, ex)[k]).wf() by {
                if k < pre.len() {
                    assert(spec_apply(cs, ex)[k] == pre[k]);
                } else {
                    assert(spec_apply(cs, ex)[k] == kept);
                }
            }
        }
    }
}

/// What identifies a caption apart from its number: its time range and its
/// text.
pub open spec fn spec_content(c: SpecCaption) -> (Timestamp, Timestamp, Seq<u8>) {
    (c.start, c.end, c.text)
}

/// The time ranges and texts of a caption collection, in order.
pub open spec fn contents_of(cs: Seq<SpecCaption>) -> Seq<(Timestamp, Timestamp, Seq<u8>)> {
    cs.map_values(|c: SpecCaption| spec_content(c))
}

/// An index mapping witnessing `a` as a strict order-preserving
/// subsequence of `b`: one strictly increasing position in `b` per element
/// of `a`, with equal elements at the mapped positions.
pub open spec fn subseq_map_ok<A>(m: Seq<int>, a: Seq<A>, b: Seq<A>) -> bool {
    &&& m.len() == a.len()
    &&& forall|i: int| 0 <= i < m.len() ==> 0 <= #[trigger] m[i] < b.len() && a[i] == b[m[i]]
    &&& forall|i: int| 0 < i < m.len() ==> m[i - 1] < #[trigger] m[i]
}

/// `a` is a strict order-preserving subsequence of `b`.
pub open spec fn is_subsequence<A>(a: Seq<A>, b: Seq<A>) -> bool {
    exists|m: Seq<int>| subseq_map_ok(m, a, b)
}

/// Output order preserves input order: the time ranges and texts of the
/// output form a strict order-preserving subsequence of those of the
/// input.
#[verifier::rlimit(60)]
pub proof fn lemma_apply_subsequence(cs: Seq<SpecCaption>, ex: Seq<Seq<u8>>)
    ensures
        is_subsequence(contents_of(spec_apply(cs, ex)), contents_of(cs)),
    decreases cs.len(),
{
    if cs.len() == 0 {
        let m0 = Seq::<int>::empty();
        assert(subseq_map_ok(m0, contents_of(spec_apply(cs, ex)), contents_of(cs)));
    } else {
        lemma_apply_subsequence(cs.drop_last(), ex);
        let a0 = contents_of(spec_apply(cs.drop_last(), ex));
        let b0 = contents_of(cs.drop_last());
        let b1 = contents_of(cs);
        let m0 = choose|m: Seq<int>| subseq_map_ok(m, a0, b0);
        assert(b0.len() == cs.len() - 1 && b1.len() == cs.len());
        assert(forall|j: int| 0 <= j < b0.len() ==> #[trigger] b0[j] == b1[j]);
        if spec_matches(ex, cs.last().text) {
            assert(contents_of(spec_apply(cs, ex)) =~= a0);
            assert(subseq_map_ok(m0, contents_of(spec_apply(cs, ex)), b1));
        } else {
            let kept = spec_adjust(cs.last(), spec_removed_count(cs.drop_last(), ex));
            let m1 = m0.push(cs.len() - 1);
            assert(spec_content(kept) == spec_content(cs.last()));
            assert(contents_of(spec_apply(cs, ex)) =~= a0.push(spec_content(cs.last())));
            assert(b1[cs.len() - 1] == spec_content(cs.last()));
            assert(subseq_map_ok(m1, contents_of(spec_apply(cs, ex)), b1));
        }
    }
}

/// On input whose numbers are contiguous from 1 — the assumption the
/// on-disk format makes — the output numbers are contiguous from 1 as
/// well, rising by 1 per caption; the first-entry passthrough for numbers
/// at most 1 coincides with this numbering.
pub proof fn lemma_apply_renumbers_contiguously(cs: Seq<SpecCaption>, ex: Seq<Seq<u8>>)
    requires
        forall|i: int| 0 <= i < cs.len() ==> (#[trigger] cs[i]).num == i + 1,
    ensures
        forall|k: int|
            0 <= k < spec_apply(cs, ex).len() ==> (#[trigger] spec_apply(cs, ex)[k]).num == k + 1,
    decreases cs.len(),
{
    if cs.len() > 0 {
        assert(forall|i: int|
            0 <= i < cs.drop_last().len() ==> (#[trigger] cs.drop_last()[i]).num == i + 1);
        lemma_apply_renumbers_contiguously(cs.drop_last(), ex);
        lemma_apply_len(cs.drop_last(), ex);
        let pre = spec_apply(cs.drop_last(), ex);
        assert(cs.last() == cs[cs.len() - 1]);
        assert(cs.last().num == cs.len());
        if !spec_matches(ex, cs.last().text) {
            let removed = spec_removed_count(cs.drop_last(), ex);
            let kept = spec_adjust(cs.last(), removed);
            assert(kept.num == pre.len() + 1);
            assert forall|k: int| 0 <= k < spec_apply(cs, ex).len() implies (
            #[trigger] spec_apply(cs, ex)[k]).num == k + 1 by {
                if k < pre.len() {
                    assert(spec_apply(cs, ex)[k] == pre[k]);
                } else {
                    assert(spec_apply(cs, ex)[k] == kept);
                }
            }
        }
    }
}

} // verus!
