//! The powerset of an integer list, subsets enumerated by size and, within
//! one size, lexicographically by position.

use vstd::prelude::*;

verus! {

/// The subset sequences a vector of subset vectors stands for.
pub open spec fn subsets_of(v: Seq<Vec<i32>>) -> Seq<Seq<i32>> {
    v.map_values(|c: Vec<i32>| c@)
}

/// The size-`k` subsequences of the list, in lexicographic order of the
/// positions chosen: first everything containing the head, then the rest.
pub open spec fn spec_combinations(s: Seq<i32>, k: nat) -> Seq<Seq<i32>>
    decreases s.len(), k,
{
    if k == 0 {
        seq![Seq::empty()]
    } else if s.len() == 0 {
        Seq::empty()
    } else {
        spec_combinations(s.drop_first(), (k - 1) as nat).map_values(
            |c: Seq<i32>| seq![s.first()] + c,
        ) + spec_combinations(s.drop_first(), k)
    }
}

/// All subsets up to size `bound`: the empty subset, the single elements,
/// and so on, each size block in lexicographic order.
pub open spec fn spec_powerset_upto(s: Seq<i32>, bound: nat) -> Seq<Seq<i32>>
    decreases bound,
{
    if bound == 0 {
        Seq::empty()
    } else {
        spec_powerset_upto(s, (bound - 1) as nat) + spec_combinations(s, (bound - 1) as nat)
    }
}

/// Every subset of the list, enumerated by ascending size and, within one
/// size, lexicographically by position.
pub open spec fn spec_powerset(s: Seq<i32>) -> Seq<Seq<i32>> {
    spec_powerset_upto(s, s.len() + 1)
}

/// Builds the size-`k` subsequences of `set[start..]`.
fn combinations_from(set: &Vec<i32>, start: usize, k: usize) -> (r: Vec<Vec<i32>>)
    requires
        start <= set@.len(),
    ensures
        subsets_of(r@) == spec_combinations(
            set@.subrange(start as int, set@.len() as int),
            k as nat,
        ),
    decreases set@.len() - start,
{
    let ghost tail = set@.subrange(start as int, set@.len() as int);
    if k == 0 {
        let empty_subset: Vec<i32> = Vec::new();
        let r = vec![empty_subset];
        proof {
            assert(subsets_of(r@) =~= spec_combinations(tail, 0));
        }
        return r;
    }
    if start == set.len() {
        let r: Vec<Vec<i32>> = Vec::new();
        proof {
            assert(subsets_of(r@) =~= spec_combinations(tail, k as nat));
        }
        return r;
    }
    let first = set[start];
    let ghost rest_tail = set@.subrange(start + 1, set@.len() as int);
    proof {
        assert(tail.drop_first() =~= rest_tail);
        assert(tail.first() == first);
    }
    let with_first = combinations_from(set, start + 1, k - 1);
    let without_first = combinations_from(set, start + 1, k);
    let ghost head_part = spec_combinations(rest_tail, (k - 1) as nat).map_values(
        |c: Seq<i32>| seq![first] + c,
    );
    let mut out: Vec<Vec<i32>> = Vec::new();
    let mut i: usize = 0;
    proof {
        assert(subsets_of(out@) =~= head_part.subrange(0, 0));
    }
    while i < with_first.len()
        invariant
            0 <= i <= with_first@.len(),
            subsets_of(with_first@) == spec_combinations(rest_tail, (k - 1) as nat),
            k >= 1,
            subsets_of(out@) == head_part.subrange(0, i as int),
            head_part == spec_combinations(rest_tail, (k - 1) as nat).map_values(
                |c: Seq<i32>| seq![first] + c,
            ),
        decreases with_first@.len() - i,
    {
        let mut subset: Vec<i32> = Vec::new();
        subset.push(first);
        append_values(&mut subset, &with_first[i]);
        let ghost sv = subset@;
        let ghost before = subsets_of(out@);
        proof {
            assert(sv =~= seq![first] + with_first@[i as int]@);
            assert(with_first@[i as int]@ == subsets_of(with_first@)[i as int]);
            assert(head_part[i as int] == seq![first] + subsets_of(with_first@)[i as int]);
        }
        out.push(subset);
        proof {
            assert(subsets_of(out@) =~= before.push(sv));
            assert(before.push(sv) =~= head_part.subrange(0, i + 1));
        }
        i = i + 1;
    }
    proof {
        assert(head_part.subrange(0, head_part.len() as int) =~= head_part);
    }
    let mut i: usize = 0;
    while i < without_first.len()
        invariant
            0 <= i <= without_first@.len(),
            subsets_of(without_first@) == spec_combinations(rest_tail, k as nat),
            subsets_of(out@) == head_part + spec_combinations(rest_tail, k as nat).subrange(
                0,
                i as int,
            ),
        decreases without_first@.len() - i,
    {
        let copy = clone_values(&without_first[i]);
        let ghost sv = copy@;
        let ghost before = subsets_of(out@);
        proof {
            assert(sv == subsets_of(without_first@)[i as int]);
        }
        out.push(copy);
        proof {
            assert(subsets_of(out@) =~= before.push(sv));
            assert(before.push(sv) =~= head_part + spec_combinations(rest_tail, k as nat).subrange(
                0,
                i + 1,
            ));
        }
        i = i + 1;
    }
    proof {
        let whole = spec_combinations(rest_tail, k as nat);
        assert(whole.subrange(0, whole.len() as int) =~= whole);
        assert(subsets_of(out@) =~= spec_combinations(tail, k as nat));
    }
    out
}

/// Appends a copy of every entry of `src` to `dst`.
fn append_values(dst: &mut Vec<i32>, src: &Vec<i32>)
    ensures
        final(dst)@ == old(dst)@ + src@,
{
    let mut i: usize = 0;
    proof {
        assert(old(dst)@ + src@.subrange(0, 0) =~= old(dst)@);
    }
    while i < src.len()
        invariant
            0 <= i <= src@.len(),
            dst@ == old(dst)@ + src@.subrange(0, i as int),
        decreases src@.len() - i,
    {
        dst.push(src[i]);
        proof {
            assert(old(dst)@ + src@.subrange(0, i + 1) =~= (old(dst)@ + src@.subrange(
                0,
                i as int,
            )).push(src@[i as int]));
        }
        i = i + 1;
    }
    proof {
        assert(src@.subrange(0, src@.len() as int) =~= src@);
    }
}

/// Copies a list of values.
fn clone_values(v: &Vec<i32>) -> (r: Vec<i32>)
    ensures
        r@ == v@,
{
    let mut out: Vec<i32> = Vec::new();
    append_values(&mut out, v);
    proof {
        assert(Seq::<i32>::empty() + v@ =~= v@);
    }
    out
}

/// Every subset of the list, by ascending size and then lexicographically
/// by position.
pub fn powerset(set: Vec<i32>) -> (r: Vec<Vec<i32>>)
    requires
        set@.len() < usize::MAX,
    ensures
        subsets_of(r@) == spec_powerset(set@),
{
    let mut result: Vec<Vec<i32>> = Vec::new();
    let mut k: usize = 0;
    proof {
        assert(subsets_of(result@) =~= spec_powerset_upto(set@, 0));
    }
    while k < set.len() + 1
        invariant
            set@.len() < usize::MAX,
            0 <= k <= set@.len() + 1,
            subsets_of(result@) == spec_powerset_upto(set@, k as nat),
        decreases set@.len() + 1 - k,
    {
        let mut block = combinations_from(&set, 0, k);
        let ghost before = subsets_of(result@);
        let ghost block_seq = subsets_of(block@);
        proof {
            assert(set@.subrange(0, set@.len() as int) =~= set@);
        }
        let mut i: usize = 0;
        while i < block.len()
            invariant
                0 <= i <= block@.len(),
                subsets_of(block@) == block_seq,
                subsets_of(result@) == before + block_seq.subrange(0, i as int),
            decreases block@.len() - i,
        {
            let copy = clone_values(&block[i]);
            let ghost sv = copy@;
            let ghost cur = subsets_of(result@);
            proof {
                assert(sv == subsets_of(block@)[i as int]);
            }
            result.push(copy);
            proof {
                assert(subsets_of(result@) =~= cur.push(sv));
                assert(cur.push(sv) =~= before + block_seq.subrange(0, i + 1));
            }
            i = i + 1;
        }
        proof {
            assert(block_seq.subrange(0, block_seq.len() as int) =~= block_seq);
            assert(subsets_of(result@) == before + block_seq);
        }
        k = k + 1;
    }
    result
}

} // verus!
