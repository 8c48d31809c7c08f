use vstd::prelude::*;
use crate::letters::popcount;
use crate::search::{Search, combos, ids_of, is_combo, search_spec, union_mask, lemma_union_disjoint};

verus! {

proof fn lemma_popcount_or(a: u32, b: u32)
    requires
        a & b == 0,
    ensures
        popcount(a | b) == popcount(a) + popcount(b),
    decreases a,
{
    if a == 0 {
        assert(0u32 | b == b) by (bit_vector);
    } else {
        assert(a | b != 0) by (bit_vector)
            requires a != 0;
        assert((a | b) / 2 == (a / 2) | (b / 2)) by (bit_vector);
        assert((a | b) % 2 == a % 2 + b % 2) by (bit_vector)
            requires a & b == 0;
        assert((a / 2) & (b / 2) == 0) by (bit_vector)
            requires a & b == 0;
        lemma_popcount_or(a / 2, b / 2);
        assert(b == 0 ==> b / 2 == 0 && b % 2 == 0);
    }
}

proof fn lemma_popcount_union(m: Seq<u32>, c: Seq<usize>, k: nat)
    requires
        is_combo(m, c, k),
        forall|i: int| 0 <= i < m.len() ==> popcount(#[trigger] m[i]) == 5,
    ensures
        popcount(union_mask(m, c)) == 5 * k,
    decreases c.len(),
{
    if c.len() > 0 {
        let d = c.drop_last();
        assert forall|i: int, j: int| 0 <= i < j < d.len() implies m[d[i] as int] & m[d[j] as int] == 0 by {
            assert(d[i] == c[i] && d[j] == c[j]);
        }
        lemma_popcount_union(m, d, (k - 1) as nat);
        let x = m[c.last() as int];
        lemma_union_disjoint(m, d, x);
        assert forall|i: int| 0 <= i < d.len() implies m[d[i] as int] & x == 0 by {
            assert(d[i] == c[i]);
        }
        lemma_popcount_or(union_mask(m, d), x);
    }
}

/// Every reported combination uses twenty-five distinct letters: the masks of
/// its five words are pairwise disjoint, and, when every word has five
/// distinct letters, their union has twenty-five bits set.
pub proof fn lemma_reported_sets_are_disjoint(m: Seq<u32>, s: Search, i: int)
    requires
        search_spec(m, s),
        forall|w: int| 0 <= w < m.len() ==> popcount(#[trigger] m[w]) == 5,
        0 <= i < s.combos@.len(),
    ensures
        forall|a: int, b: int| 0 <= a < b < 5 ==>
            m[ids_of(s.combos@)[i][a] as int] & m[ids_of(s.combos@)[i][b] as int] == 0,
        popcount(union_mask(m, ids_of(s.combos@)[i])) == 25,
{
    let c = ids_of(s.combos@)[i];
    assert(ids_of(s.combos@).to_set().contains(c));
    assert(combos(m, 5).contains(c));
    lemma_popcount_union(m, c, 5);
}

/// No combination is reported twice or as a permutation: the ids of each
/// reported combination strictly increase, and no two reported
/// combinations are equal.
pub proof fn lemma_reported_sets_are_ordered(m: Seq<u32>, s: Search)
    requires
        search_spec(m, s),
    ensures
        forall|i: int, a: int, b: int| 0 <= i < s.combos@.len() && 0 <= a < b < 5 ==>
            #[trigger] ids_of(s.combos@)[i][a] < #[trigger] ids_of(s.combos@)[i][b],
        forall|i: int, j: int| 0 <= i < j < s.combos@.len() ==>
            #[trigger] ids_of(s.combos@)[i] != #[trigger] ids_of(s.combos@)[j],
{
    assert forall|i: int, a: int, b: int| 0 <= i < s.combos@.len() && 0 <= a < b < 5 implies
        #[trigger] ids_of(s.combos@)[i][a] < #[trigger] ids_of(s.combos@)[i][b] by {
        let c = ids_of(s.combos@)[i];
        assert(ids_of(s.combos@).to_set().contains(c));
        assert(combos(m, 5).contains(c));
    }
}

/// Two searches over the same words report the same combinations and the
/// same counts.
pub proof fn lemma_search_is_idempotent(m: Seq<u32>, s1: Search, s2: Search)
    requires
        search_spec(m, s1),
        search_spec(m, s2),
    ensures
        ids_of(s1.combos@).to_set() == ids_of(s2.combos@).to_set(),
        s1.combos@.len() == s2.combos@.len(),
        s1.level_counts@ == s2.level_counts@,
{
    ids_of(s1.combos@).unique_seq_to_set();
    ids_of(s2.combos@).unique_seq_to_set();
    assert forall|k: int| 0 <= k < 5 implies s1.level_counts@[k] == s2.level_counts@[k] by {
        assert(s1.level_counts@[(k + 1) - 1] == s2.level_counts@[(k + 1) - 1]);
    }
    assert(s1.level_counts@ =~= s2.level_counts@);
}

/// The depth-first search and the level-order tree search agree: over the
/// same words, their results hold the same combinations of five words and
/// the same count for every size.
pub proof fn lemma_naive_and_tree_agree(m: Seq<u32>, naive: Search, tree: Search)
    requires
        search_spec(m, naive),
        search_spec(m, tree),
    ensures
        ids_of(naive.combos@).to_set() == ids_of(tree.combos@).to_set(),
        naive.combos@.len() == tree.combos@.len(),
        naive.level_counts@ == tree.level_counts@,
{
    lemma_search_is_idempotent(m, naive, tree);
}

} // verus!
