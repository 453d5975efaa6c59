use vstd::prelude::*;

verus! {

/// Largest tile value a move accepts: doubling a value this size still fits
/// in a `u64`, so a merge can never overflow.
pub const MAX_MERGE_VALUE: u64 = 0x4000_0000_0000_0000;

/// Whether `v` is a power of two.
pub open spec fn is_pow2(v: int) -> bool
    decreases v,
{
    if v <= 0 {
        false
    } else if v == 1 {
        true
    } else {
        v % 2 == 0 && is_pow2(v / 2)
    }
}

/// The values of a `u64` sequence as mathematical integers.
pub open spec fn int_seq(s: Seq<u64>) -> Seq<int> {
    Seq::new(s.len(), |i: int| s[i] as int)
}

/// One line of tile values, ordered from the target edge, after sliding and
/// merging: equal adjacent values combine pairwise, nearest the edge first,
/// and a combined value never combines again within the same move.
pub open spec fn merge_line(vs: Seq<int>) -> Seq<int>
    decreases vs.len(),
{
    if vs.len() == 0 {
        Seq::empty()
    } else if vs.len() >= 2 && vs[0] == vs[1] {
        seq![vs[0] + vs[1]] + merge_line(vs.skip(2))
    } else {
        seq![vs[0]] + merge_line(vs.skip(1))
    }
}

/// Whether no two adjacent values of the line are equal.
pub open spec fn no_adjacent_equal(vs: Seq<int>) -> bool {
    forall|i: int| 0 <= i && i + 1 < vs.len() ==> #[trigger] vs[i] != vs[i + 1]
}

/// A merged line is never longer than its input, and its values stay powers
/// of two within the given bounds: each output value is an input value or
/// the sum of two equal input values.
pub proof fn lemma_merge_line_bounds(vs: Seq<int>, cap: int)
    requires
        forall|i: int| 0 <= i < vs.len() ==> 2 <= #[trigger] vs[i] <= cap && is_pow2(vs[i]),
    ensures
        merge_line(vs).len() <= vs.len(),
        forall|j: int|
            0 <= j < merge_line(vs).len()
                ==> 2 <= #[trigger] merge_line(vs)[j] <= 2 * cap && is_pow2(merge_line(vs)[j]),
    decreases vs.len(),
{
    if vs.len() == 0 {
    } else if vs.len() >= 2 && vs[0] == vs[1] {
        assert(forall|i: int| 0 <= i < vs.skip(2).len() ==> #[trigger] vs.skip(2)[i] == vs[i + 2]);
        lemma_merge_line_bounds(vs.skip(2), cap);
        lemma_pow2_double(vs[0]);
        assert(merge_line(vs) == seq![vs[0] + vs[1]] + merge_line(vs.skip(2)));
    } else {
        assert(forall|i: int| 0 <= i < vs.skip(1).len() ==> #[trigger] vs.skip(1)[i] == vs[i + 1]);
        lemma_merge_line_bounds(vs.skip(1), cap);
        assert(merge_line(vs) == seq![vs[0]] + merge_line(vs.skip(1)));
    }
}

/// Doubling a positive power of two gives a power of two.
pub proof fn lemma_pow2_double(v: int)
    requires
        is_pow2(v),
    ensures
        is_pow2(v + v),
{
    assert((v + v) / 2 == v);
}

/// The merge law: two equal values at the head of a line combine into their
/// sum (one tile of double the value), and merging continues on the rest of
/// the line beyond the pair, so the combined value takes no further part.
pub proof fn lemma_merge_equal_pair(vs: Seq<int>)
    requires
        vs.len() >= 2,
        vs[0] == vs[1],
    ensures
        merge_line(vs) == seq![2 * vs[0]] + merge_line(vs.skip(2)),
{
    assert(seq![vs[0] + vs[1]] =~= seq![2 * vs[0]]);
}

/// A value that has merged once never merges again in the same move: three
/// equal adjacent values yield the doubled value followed by the single one,
/// not a single quadrupled value.
pub proof fn lemma_merge_once(v: int)
    ensures
        merge_line(seq![v, v, v]) == seq![2 * v, v],
{
    let vs = seq![v, v, v];
    lemma_merge_equal_pair(vs);
    assert(vs.skip(2) =~= seq![v]);
    assert(seq![v].skip(1) =~= Seq::<int>::empty());
    assert(merge_line(seq![v]) == seq![v] + merge_line(Seq::<int>::empty()));
    assert(seq![v] + Seq::<int>::empty() =~= seq![v]);
    assert(seq![2 * v] + seq![v] =~= seq![2 * v, v]);
}

/// A line with no equal adjacent values merges to itself.
pub proof fn lemma_merge_line_fixed(vs: Seq<int>)
    requires
        no_adjacent_equal(vs),
    ensures
        merge_line(vs) == vs,
    decreases vs.len(),
{
    if vs.len() == 0 {
        assert(merge_line(vs) =~= vs);
    } else {
        assert(forall|i: int| 0 <= i < vs.skip(1).len() ==> #[trigger] vs.skip(1)[i] == vs[i + 1]);
        lemma_merge_line_fixed(vs.skip(1));
        assert(merge_line(vs) =~= seq![vs[0]] + vs.skip(1));
        assert(seq![vs[0]] + vs.skip(1) =~= vs);
    }
}

/// Slide and merge one line of values, given ordered from the target edge.
pub fn merge_line_vec(vals: &Vec<u64>) -> (out: Vec<u64>)
    requires
        forall|i: int| 0 <= i < vals@.len() ==> 2 <= #[trigger] vals@[i] <= MAX_MERGE_VALUE,
    ensures
        int_seq(out@) == merge_line(int_seq(vals@)),
{
    let ghost full = int_seq(vals@);
    let mut out: Vec<u64> = Vec::new();
    let mut i: usize = 0;
    proof {
        assert(full.skip(0) =~= full);
        assert(int_seq(out@) =~= Seq::<int>::empty());
        assert(Seq::<int>::empty() + merge_line(full) =~= merge_line(full));
    }
    while i < vals.len()
        invariant
            i <= vals@.len(),
            forall|k: int| 0 <= k < vals@.len() ==> 2 <= #[trigger] vals@[k] <= MAX_MERGE_VALUE,
            full == int_seq(vals@),
            int_seq(out@) + merge_line(full.skip(i as int)) == merge_line(full),
        decreases vals@.len() - i,
    {
        let ghost rest = full.skip(i as int);
        if i + 1 < vals.len() && vals[i] == vals[i + 1] {
            let merged: u64 = vals[i] + vals[i + 1];
            proof {
                assert(rest.len() >= 2 && rest[0] == full[i as int] && rest[1] == full[i + 1]);
                assert(merge_line(rest) == seq![rest[0] + rest[1]] + merge_line(rest.skip(2)));
                assert(rest.skip(2) =~= full.skip(i + 2));
                assert(int_seq(out@.push(merged)) =~= int_seq(out@) + seq![merged as int]);
                assert(int_seq(out@) + (seq![rest[0] + rest[1]] + merge_line(full.skip(i + 2)))
                    =~= (int_seq(out@) + seq![merged as int]) + merge_line(full.skip(i + 2)));
            }
            out.push(merged);
            i = i + 2;
        } else {
            let kept: u64 = vals[i];
            proof {
                assert(rest.len() >= 1 && rest[0] == full[i as int]);
                if rest.len() >= 2 {
                    assert(rest[1] == full[i + 1]);
                }
                assert(merge_line(rest) == seq![rest[0]] + merge_line(rest.skip(1)));
                assert(rest.skip(1) =~= full.skip(i + 1));
                assert(int_seq(out@.push(kept)) =~= int_seq(out@) + seq![kept as int]);
                assert(int_seq(out@) + (seq![rest[0]] + merge_line(full.skip(i + 1)))
                    =~= (int_seq(out@) + seq![kept as int]) + merge_line(full.skip(i + 1)));
            }
            out.push(kept);
            i = i + 1;
        }
    }
    proof {
        assert(full.skip(i as int) =~= Seq::<int>::empty());
        assert(merge_line(Seq::<int>::empty()) =~= Seq::<int>::empty());
        assert(int_seq(out@) + Seq::<int>::empty() =~= int_seq(out@));
    }
    out
}

} // verus!
