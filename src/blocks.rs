//! Byte ranges inside an arena, and what pairwise disjointness gives.
use vstd::prelude::*;
use vstd::set_lib::*;

verus! {

/// A block of an arena: its offset from the arena's base, and its length.
pub type Block = (usize, usize);

pub open spec fn block_end(b: Block) -> int {
    b.0 + b.1
}

/// Two blocks share no byte. An empty block shares a byte with nothing.
pub open spec fn blocks_disjoint(a: Block, b: Block) -> bool {
    a.1 == 0 || b.1 == 0 || block_end(a) <= b.0 || block_end(b) <= a.0
}

pub open spec fn pairwise_disjoint(s: Seq<Block>) -> bool {
    forall|i: int, j: int|
        0 <= i < s.len() && 0 <= j < s.len() && i != j ==> blocks_disjoint(#[trigger] s[i], #[trigger] s[j])
}

/// Every block of `s` ends at or before `limit`.
pub open spec fn all_within(s: Seq<Block>, limit: int) -> bool {
    forall|i: int| 0 <= i < s.len() ==> block_end(#[trigger] s[i]) <= limit
}

/// The sum of the lengths of the blocks of `s`.
pub open spec fn total_size(s: Seq<Block>) -> int
    decreases s.len(),
{
    if s.len() == 0 {
        0
    } else {
        total_size(s.drop_last()) + s.last().1
    }
}

spec fn block_bytes(b: Block) -> Set<int> {
    set_int_range(b.0 as int, block_end(b))
}

spec fn covered(s: Seq<Block>) -> Set<int>
    decreases s.len(),
{
    if s.len() == 0 {
        Set::empty()
    } else {
        covered(s.drop_last()) + block_bytes(s.last())
    }
}

proof fn lemma_covered_members(s: Seq<Block>, x: int)
    requires
        covered(s).contains(x),
    ensures
        exists|i: int| 0 <= i < s.len() && #[trigger] block_bytes(s[i]).contains(x),
    decreases s.len(),
{
    if s.len() > 0 {
        if !block_bytes(s.last()).contains(x) {
            lemma_covered_members(s.drop_last(), x);
            let i = choose|i: int| 0 <= i < s.drop_last().len() && #[trigger] block_bytes(s.drop_last()[i]).contains(x);
            assert(block_bytes(s[i]).contains(x));
        } else {
            assert(block_bytes(s[s.len() - 1]).contains(x));
        }
    }
}

proof fn lemma_covered(s: Seq<Block>, limit: int)
    requires
        pairwise_disjoint(s),
        all_within(s, limit),
    ensures
        covered(s).finite(),
        covered(s).len() == total_size(s),
        covered(s).subset_of(set_int_range(0, limit)),
    decreases s.len(),
{
    if s.len() > 0 {
        let p = s.drop_last();
        let b = s.last();
        assert forall|i: int, j: int|
            0 <= i < p.len() && 0 <= j < p.len() && i != j implies blocks_disjoint(#[trigger] p[i], #[trigger] p[j]) by {
            assert(p[i] == s[i] && p[j] == s[j]);
        }
        assert forall|i: int| 0 <= i < p.len() implies block_end(#[trigger] p[i]) <= limit by {
            assert(p[i] == s[i]);
        }
        lemma_covered(p, limit);
        lemma_int_range(b.0 as int, block_end(b));
        assert forall|x: int| covered(p).contains(x) implies !block_bytes(b).contains(x) by {
            lemma_covered_members(p, x);
            let i = choose|i: int| 0 <= i < p.len() && #[trigger] block_bytes(p[i]).contains(x);
            assert(p[i] == s[i]);
            assert(blocks_disjoint(s[i], s[s.len() - 1]));
        }
        assert(covered(p).disjoint(block_bytes(b)));
        lemma_set_disjoint_lens(covered(p), block_bytes(b));
        assert(block_end(s[s.len() - 1]) <= limit);
    }
}

/// Pairwise disjoint blocks that all end by `limit` add up to at most `limit` bytes.
pub proof fn lemma_disjoint_total(s: Seq<Block>, limit: int)
    requires
        pairwise_disjoint(s),
        all_within(s, limit),
        0 <= limit,
    ensures
        total_size(s) <= limit,
{
    lemma_covered(s, limit);
    lemma_int_range(0, limit);
    lemma_len_subset(covered(s), set_int_range(0, limit));
}

/// Adding a block adds its length.
pub proof fn lemma_total_push(s: Seq<Block>, b: Block)
    ensures
        total_size(s.push(b)) == total_size(s) + b.1,
{
    assert(s.push(b).drop_last() =~= s);
}

/// Taking a block out takes its length away.
pub proof fn lemma_total_remove(s: Seq<Block>, i: int)
    requires
        0 <= i < s.len(),
    ensures
        total_size(s.remove(i)) == total_size(s) - s[i].1,
    decreases s.len(),
{
    if i == s.len() - 1 {
        assert(s.remove(i) =~= s.drop_last());
    } else {
        lemma_total_remove(s.drop_last(), i);
        assert(s.remove(i).drop_last() =~= s.drop_last().remove(i));
        assert(s.remove(i).last() == s.last());
    }
}

/// Blocks that end by `limit`.
pub open spec fn ends_by(limit: int) -> spec_fn(Block) -> bool {
    |b: Block| block_end(b) <= limit
}

/// Keeping some of the blocks keeps them pairwise disjoint.
pub proof fn lemma_filter_disjoint(s: Seq<Block>, keep: spec_fn(Block) -> bool)
    requires
        pairwise_disjoint(s),
    ensures
        pairwise_disjoint(s.filter(keep)),
        forall|k: int| 0 <= k < s.filter(keep).len() ==> keep(#[trigger] s.filter(keep)[k]),
    decreases s.len(),
{
    reveal(Seq::filter);
    assert forall|k: int| 0 <= k < s.filter(keep).len() implies keep(#[trigger] s.filter(keep)[k]) by {
        s.lemma_filter_pred(keep, k);
    }
    if s.len() > 0 {
        let p = s.drop_last();
        assert forall|i: int, j: int|
            0 <= i < p.len() && 0 <= j < p.len() && i != j implies blocks_disjoint(#[trigger] p[i], #[trigger] p[j]) by {
            assert(p[i] == s[i] && p[j] == s[j]);
        }
        lemma_filter_disjoint(p, keep);
        let f = p.filter(keep);
        if keep(s.last()) {
            let g = f.push(s.last());
            assert(s.filter(keep) == g);
            assert forall|i: int, j: int|
                0 <= i < g.len() && 0 <= j < g.len() && i != j implies blocks_disjoint(#[trigger] g[i], #[trigger] g[j]) by {
                if i < f.len() && j < f.len() {
                } else if i < f.len() {
                    assert(f.contains(f[i]));
                    p.lemma_filter_contains_rev(keep, f[i]);
                    let m = choose|m: int| 0 <= m < p.len() && p[m] == f[i];
                    assert(blocks_disjoint(s[m], s[s.len() - 1]));
                } else {
                    assert(f.contains(f[j]));
                    p.lemma_filter_contains_rev(keep, f[j]);
                    let m = choose|m: int| 0 <= m < p.len() && p[m] == f[j];
                    assert(blocks_disjoint(s[m], s[s.len() - 1]));
                }
            }
        }
    }
}

/// The sum over one more block of a sequence.
pub proof fn lemma_total_prefix(s: Seq<Block>, j: int)
    requires
        0 <= j < s.len(),
    ensures
        total_size(s.subrange(0, j + 1)) == total_size(s.subrange(0, j)) + s[j].1,
        total_size(s.subrange(0, j + 1)) <= total_size(s),
    decreases s.len() - j,
{
    assert(s.subrange(0, j + 1).drop_last() =~= s.subrange(0, j));
    if j + 1 < s.len() {
        lemma_total_prefix(s, j + 1);
    } else {
        assert(s.subrange(0, j + 1) =~= s);
    }
}

/// The furthest end of any block of `s`, or 0 when there is none.
pub open spec fn max_end(s: Seq<Block>) -> int
    decreases s.len(),
{
    if s.len() == 0 {
        0
    } else if block_end(s.last()) > max_end(s.drop_last()) {
        block_end(s.last())
    } else {
        max_end(s.drop_last())
    }
}

/// Every block ends by the furthest end, which is no further than any common limit.
pub proof fn lemma_max_end(s: Seq<Block>, limit: int)
    requires
        all_within(s, limit),
        0 <= limit,
    ensures
        all_within(s, max_end(s)),
        0 <= max_end(s) <= limit,
    decreases s.len(),
{
    if s.len() > 0 {
        let p = s.drop_last();
        assert forall|i: int| 0 <= i < p.len() implies block_end(#[trigger] p[i]) <= limit by {
            assert(p[i] == s[i]);
        }
        lemma_max_end(p, limit);
        assert forall|i: int| 0 <= i < s.len() implies block_end(#[trigger] s[i]) <= max_end(s) by {
            if i < p.len() {
                assert(p[i] == s[i]);
            }
        }
        assert(block_end(s[s.len() - 1]) <= limit);
    }
}

/// Every block ends by the furthest end.
pub proof fn lemma_max_end_bounds(s: Seq<Block>)
    ensures
        all_within(s, max_end(s)),
        0 <= max_end(s),
    decreases s.len(),
{
    if s.len() > 0 {
        let p = s.drop_last();
        lemma_max_end_bounds(p);
        assert forall|i: int| 0 <= i < s.len() implies block_end(#[trigger] s[i]) <= max_end(s) by {
            if i < p.len() {
                assert(p[i] == s[i]);
            }
        }
    }
}

/// Keeping the blocks that end by a limit they all end by keeps them all.
pub proof fn lemma_filter_all_within(s: Seq<Block>, limit: int)
    requires
        all_within(s, limit),
    ensures
        s.filter(ends_by(limit)) == s,
    decreases s.len(),
{
    reveal(Seq::filter);
    if s.len() > 0 {
        let p = s.drop_last();
        assert forall|i: int| 0 <= i < p.len() implies block_end(#[trigger] p[i]) <= limit by {
            assert(p[i] == s[i]);
        }
        lemma_filter_all_within(p, limit);
        assert(block_end(s[s.len() - 1]) <= limit);
        assert(p.push(s.last()) =~= s);
    }
}

/// A sum of block lengths is never negative.
pub proof fn lemma_total_nonneg(s: Seq<Block>)
    ensures
        0 <= total_size(s),
    decreases s.len(),
{
    if s.len() > 0 {
        lemma_total_nonneg(s.drop_last());
    }
}

/// Keeping some of the blocks never adds bytes.
pub proof fn lemma_total_filter(s: Seq<Block>, keep: spec_fn(Block) -> bool)
    ensures
        total_size(s.filter(keep)) <= total_size(s),
        0 <= total_size(s.filter(keep)),
    decreases s.len(),
{
    reveal(Seq::filter);
    if s.len() > 0 {
        lemma_total_filter(s.drop_last(), keep);
        let f = s.drop_last().filter(keep);
        if keep(s.last()) {
            lemma_total_push(f, s.last());
        }
    }
}

} // verus!
