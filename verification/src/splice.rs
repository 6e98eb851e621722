//! Text splicing: offset-preserving insertions (used by the anchor injector)
//! and span replacements (used by the asset path rewriter).
//!
//! Insertions are collected as `(offset, text)` pairs, sorted ascending, and
//! applied in descending offset order so that earlier insertions do not
//! invalidate later offsets.

use vstd::multiset::Multiset;
use vstd::prelude::*;

verus! {

broadcast use vstd::seq_lib::group_to_multiset_ensures;

/// One pending insertion: `text` goes in front of the byte at `offset`.
pub struct Ins {
    pub offset: usize,
    pub text: Vec<u8>,
}

/// `s` with `t` inserted in front of position `i`.
pub open spec fn insert_at(s: Seq<u8>, i: int, t: Seq<u8>) -> Seq<u8> {
    s.subrange(0, i) + t + s.subrange(i, s.len() as int)
}

/// The result of applying `ins[k..]` to `md` in descending order: the last
/// element first, element `k` last.
pub open spec fn apply_from(md: Seq<u8>, ins: Seq<Ins>, k: int) -> Seq<u8>
    decreases ins.len() - k,
{
    if k < 0 || k >= ins.len() {
        md
    } else {
        insert_at(apply_from(md, ins, k + 1), ins[k].offset as int, ins[k].text@)
    }
}

/// All the insertions applied, in descending offset order.
pub open spec fn apply_all(md: Seq<u8>, ins: Seq<Ins>) -> Seq<u8> {
    apply_from(md, ins, 0)
}

/// Offsets never decrease along the list.
pub open spec fn sorted_asc(ins: Seq<Ins>) -> bool {
    forall|i: int, j: int| 0 <= i < j < ins.len() ==> ins[i].offset <= ins[j].offset
}

/// No two insertions share an offset.
pub open spec fn unique_offsets(ins: Seq<Ins>) -> bool {
    forall|i: int, j: int| 0 <= i < j < ins.len() ==> ins[i].offset != ins[j].offset
}

/// Every offset points into a text of length `n` (the end included).
pub open spec fn offsets_within(ins: Seq<Ins>, n: int) -> bool {
    forall|i: int| 0 <= i < ins.len() ==> ins[i].offset <= n
}

proof fn lemma_apply_from_len(md: Seq<u8>, ins: Seq<Ins>, k: int)
    requires
        offsets_within(ins, md.len() as int),
    ensures
        apply_from(md, ins, k).len() >= md.len(),
    decreases ins.len() - k,
{
    if 0 <= k < ins.len() {
        lemma_apply_from_len(md, ins, k + 1);
    }
}

/// `base` with `text` inserted in front of position `off`.
pub fn splice(base: &Vec<u8>, off: usize, text: &Vec<u8>) -> (r: Vec<u8>)
    requires
        off <= base@.len(),
    ensures
        r@ == insert_at(base@, off as int, text@),
{
    let mut out: Vec<u8> = Vec::new();
    let mut i: usize = 0;
    while i < off
        invariant
            0 <= i <= off,
            off <= base@.len(),
            out@ =~= base@.subrange(0, i as int),
        decreases off - i,
    {
        out.push(base[i]);
        i += 1;
        assert(out@ =~= base@.subrange(0, i as int));
    }
    let tn = text.len();
    let mut j: usize = 0;
    while j < tn
        invariant
            0 <= j <= tn,
            tn == text@.len(),
            out@ =~= base@.subrange(0, off as int) + text@.subrange(0, j as int),
        decreases tn - j,
    {
        out.push(text[j]);
        j += 1;
        assert(out@ =~= base@.subrange(0, off as int) + text@.subrange(0, j as int));
    }
    assert(text@.subrange(0, tn as int) =~= text@);
    let bn = base.len();
    let mut k: usize = off;
    while k < bn
        invariant
            off <= k <= bn,
            bn == base@.len(),
            out@ =~= base@.subrange(0, off as int) + text@ + base@.subrange(off as int, k as int),
        decreases bn - k,
    {
        out.push(base[k]);
        k += 1;
        assert(out@ =~= base@.subrange(0, off as int) + text@ + base@.subrange(
            off as int,
            k as int,
        ));
    }
    assert(out@ =~= insert_at(base@, off as int, text@));
    out
}

/// Applies the insertions to `md` in descending order, last element first, as
/// the preprocessor does after sorting its collected insertions.
pub fn apply_insertions(md: &Vec<u8>, ins: &Vec<Ins>) -> (r: Vec<u8>)
    requires
        offsets_within(ins@, md@.len() as int),
    ensures
        r@ == apply_all(md@, ins@),
{
    let mut out: Vec<u8> = Vec::new();
    let mut i: usize = 0;
    let n = md.len();
    while i < n
        invariant
            0 <= i <= n,
            n == md@.len(),
            out@ =~= md@.subrange(0, i as int),
        decreases n - i,
    {
        out.push(md[i]);
        i += 1;
        assert(out@ =~= md@.subrange(0, i as int));
    }
    assert(out@ =~= md@);
    let mut j: usize = ins.len();
    while j > 0
        invariant
            0 <= j <= ins@.len(),
            offsets_within(ins@, md@.len() as int),
            out@ == apply_from(md@, ins@, j as int),
        decreases j,
    {
        j -= 1;
        proof {
            lemma_apply_from_len(md@, ins@, j + 1);
        }
        out = splice(&out, ins[j].offset, &ins[j].text);
    }
    out
}

/// Selection sort by ascending offset; the list's multiset of elements is
/// kept.
pub fn sort_insertions(v: Vec<Ins>) -> (r: Vec<Ins>)
    ensures
        sorted_asc(r@),
        r@.to_multiset() == v@.to_multiset(),
        r@.len() == v@.len(),
{
    let ghost vm = v@.to_multiset();
    let mut out: Vec<Ins> = Vec::new();
    let mut rest = v;
    while rest.len() > 0
        invariant
            sorted_asc(out@),
            out@.to_multiset().add(rest@.to_multiset()) == vm,
            out@.len() + rest@.len() == vm.len(),
            forall|i: int, j: int|
                0 <= i < out@.len() && 0 <= j < rest@.len() ==> out@[i].offset
                    <= rest@[j].offset,
        decreases rest@.len(),
    {
        let rlen = rest.len();
        let mut min_i: usize = 0;
        let mut t: usize = 1;
        while t < rlen
            invariant
                0 <= min_i < t <= rlen,
                rlen == rest@.len(),
                forall|k: int| 0 <= k < t ==> rest@[min_i as int].offset <= rest@[k].offset,
            decreases rlen - t,
        {
            if rest[t].offset < rest[min_i].offset {
                min_i = t;
            }
            t += 1;
        }
        let ghost old_rest = rest@;
        let picked = rest.remove(min_i);
        proof {
            assert(old_rest.remove(min_i as int).to_multiset() =~= old_rest.to_multiset().remove(
                picked,
            ));
            assert(out@.push(picked).to_multiset() =~= out@.to_multiset().insert(picked));
            assert(old_rest.to_multiset().count(picked) > 0);
            assert(out@.to_multiset().insert(picked).add(
                old_rest.to_multiset().remove(picked),
            ) =~= out@.to_multiset().add(old_rest.to_multiset()));
            assert(forall|j: int|
                0 <= j < rest@.len() ==> old_rest.to_multiset().count(#[trigger] rest@[j]) > 0);
            assert(forall|j: int|
                0 <= j < rest@.len() ==> picked.offset <= #[trigger] rest@[j].offset) by {
                assert(forall|j: int|
                    0 <= j < rest@.len() ==> #[trigger] rest@[j] == if j < min_i {
                        old_rest[j]
                    } else {
                        old_rest[j + 1]
                    });
            }
        }
        out.push(picked);
        assert(sorted_asc(out@)) by {
            assert(forall|i: int|
                0 <= i < out@.len() - 1 ==> #[trigger] out@[i].offset <= picked.offset);
        }
    }
    assert(rest@.to_multiset() =~= Multiset::empty());
    assert(out@.to_multiset().add(Multiset::empty()) =~= out@.to_multiset());
    out
}

/// Two ascending arrangements of the same insertions are the same list, when
/// no two insertions share an offset.
pub proof fn lemma_sorted_perm_equal(s1: Seq<Ins>, s2: Seq<Ins>)
    requires
        s1.to_multiset() == s2.to_multiset(),
        sorted_asc(s1),
        sorted_asc(s2),
        unique_offsets(s1),
        unique_offsets(s2),
    ensures
        s1 == s2,
    decreases s1.len(),
{
    assert(s1.len() == s1.to_multiset().len());
    assert(s2.len() == s2.to_multiset().len());
    if s1.len() == 0 {
        assert(s1 =~= s2);
    } else {
        let f1 = s1[0];
        let f2 = s2[0];
        assert(s1.to_multiset().count(f1) > 0) by {
            assert(s1.contains(f1));
        }
        assert(s2.contains(f1));
        let i1 = choose|i: int| 0 <= i < s2.len() && s2[i] == f1;
        assert(f1.offset >= f2.offset);
        assert(s2.to_multiset().count(f2) > 0) by {
            assert(s2.contains(f2));
        }
        assert(s1.contains(f2));
        let i2 = choose|i: int| 0 <= i < s1.len() && s1[i] == f2;
        assert(f2.offset >= f1.offset);
        assert(f1.offset == f2.offset);
        assert(i1 == 0) by {
            if i1 > 0 {
                assert(s2[0].offset != s2[i1].offset);
            }
        }
        assert(f1 == f2);
        let t1 = s1.drop_first();
        let t2 = s2.drop_first();
        assert(s1.remove(0) =~= t1);
        assert(s2.remove(0) =~= t2);
        assert(t1.to_multiset() =~= s1.to_multiset().remove(f1));
        assert(t2.to_multiset() =~= s2.to_multiset().remove(f1));
        assert(sorted_asc(t1) && unique_offsets(t1)) by {
            assert(forall|i: int| 0 <= i < t1.len() ==> t1[i] == s1[i + 1]);
        }
        assert(sorted_asc(t2) && unique_offsets(t2)) by {
            assert(forall|i: int| 0 <= i < t2.len() ==> t2[i] == s2[i + 1]);
        }
        lemma_sorted_perm_equal(t1, t2);
        assert forall|i: int| 0 <= i < s1.len() implies s1[i] == s2[i] by {
            if i > 0 {
                assert(t1[i - 1] == s1[i]);
                assert(t2[i - 1] == s2[i]);
                assert(t1[i - 1] == t2[i - 1]);
            }
        }
        assert(s1 =~= s2);
    }
}

/// Distinct offsets carry over to any rearrangement of the same insertions.
pub proof fn lemma_unique_offsets_perm(s1: Seq<Ins>, s2: Seq<Ins>)
    requires
        s1.to_multiset() == s2.to_multiset(),
        unique_offsets(s1),
    ensures
        unique_offsets(s2),
{
    assert forall|i: int, j: int| 0 <= i < j < s2.len() implies s2[i].offset != s2[j].offset by {
        let e1 = s2[i];
        let e2 = s2[j];
        if e1.offset == e2.offset {
            if e1 == e2 {
                // the element would be counted twice, yet each count is one
                assert(s2.remove(i).to_multiset() =~= s2.to_multiset().remove(e1));
                assert(s2.remove(i)[j - 1] == e1);
                assert(s2.remove(i).contains(e1));
                assert(s2.remove(i).to_multiset().count(e1) > 0);
                assert(s1.to_multiset().count(e1) >= 2);
                assert(s1.contains(e1));
                let k = choose|k: int| 0 <= k < s1.len() && s1[k] == e1;
                assert(s1.remove(k).to_multiset() =~= s1.to_multiset().remove(e1));
                assert(s1.remove(k).to_multiset().count(e1) > 0);
                assert(s1.remove(k).contains(e1));
                let l = choose|l: int| 0 <= l < s1.remove(k).len() && s1.remove(k)[l] == e1;
                if l < k {
                    assert(s1[l] == e1);
                } else {
                    assert(s1[l + 1] == e1);
                }
                assert(false);
            } else {
                assert(s2.contains(e1) && s2.contains(e2));
                assert(s1.to_multiset().count(e1) > 0 && s1.to_multiset().count(e2) > 0);
                assert(s1.contains(e1) && s1.contains(e2));
                let k = choose|k: int| 0 <= k < s1.len() && s1[k] == e1;
                let l = choose|l: int| 0 <= l < s1.len() && s1[l] == e2;
                assert(k != l);
                assert(false);
            }
        }
    }
}

/// Applying the sorted-descending insertion algorithm to any ordering of the
/// same set of insertions yields identical output: the sorted arrangement is
/// unique when offsets are pairwise distinct, so the spliced text is too.
pub proof fn lemma_insertion_order_independence(md: Seq<u8>, s1: Seq<Ins>, s2: Seq<Ins>)
    requires
        s1.to_multiset() == s2.to_multiset(),
        sorted_asc(s1),
        sorted_asc(s2),
        unique_offsets(s1),
    ensures
        apply_all(md, s1) == apply_all(md, s2),
{
    lemma_unique_offsets_perm(s1, s2);
    lemma_sorted_perm_equal(s1, s2);
}

} // verus!
