use vstd::prelude::*;
use crate::letters::{Word, masks_of};
use crate::range::Range;

verus! {

/// The union of the masks of the words with ids `c`.
pub open spec fn union_mask(m: Seq<u32>, c: Seq<usize>) -> u32
    decreases c.len(),
{
    if c.len() == 0 {
        0
    } else {
        union_mask(m, c.drop_last()) | m[c.last() as int]
    }
}

/// `c` lists `k` word ids in strictly increasing order whose masks are
/// pairwise disjoint.
pub open spec fn is_combo(m: Seq<u32>, c: Seq<usize>, k: nat) -> bool {
    &&& c.len() == k
    &&& forall|i: int| 0 <= i < c.len() ==> c[i] < m.len()
    &&& forall|i: int, j: int| 0 <= i < j < c.len() ==> c[i] < c[j]
    &&& forall|i: int, j: int| 0 <= i < j < c.len() ==> m[c[i] as int] & m[c[j] as int] == 0
}

/// Every valid combination of `k` words.
pub open spec fn combos(m: Seq<u32>, k: nat) -> Set<Seq<usize>> {
    Set::new(|c: Seq<usize>| is_combo(m, c, k))
}

/// More than `u32::MAX` distinct valid combinations of `k` words exist.
pub open spec fn too_many(m: Seq<u32>, k: nat) -> bool {
    exists|s: Seq<Seq<usize>>|
        #![trigger s.no_duplicates(), s.len()]
        s.len() > u32::MAX && s.no_duplicates() && forall|i: int|
            0 <= i < s.len() ==> is_combo(m, #[trigger] s[i], k)
}

/// One partial combination: the node of the combination without its last
/// word, that last word, the union of the masks, and the range of this
/// node's children in the next level.
#[derive(Clone, Copy, Debug)]
pub struct WordSet {
    pub parent: usize,
    pub new_word: usize,
    pub letters: u32,
    pub range: Range,
}

/// Errors of the search.
#[derive(Clone, Copy, Debug, PartialEq, Eq, Structural)]
pub enum SearchError {
    /// A level holds more partial combinations than a `u32` index can reach.
    TooManyCombinations,
}

/// `n` is the node of combination `c` of size `k`, whose parent level has
/// combinations `gp`.
pub open spec fn node_wf(m: Seq<u32>, gp: Seq<Seq<usize>>, n: WordSet, c: Seq<usize>, k: nat) -> bool {
    &&& k >= 1
    &&& is_combo(m, c, k)
    &&& n.letters == union_mask(m, c)
    &&& n.new_word == c.last()
    &&& n.parent < gp.len()
    &&& gp[n.parent as int] == c.drop_last()
}

/// `level` holds, in `g`, each valid combination of size `k` exactly once;
/// its nodes point into `parents` (combinations `gp`), each parent's range
/// covers exactly its children, and siblings are ordered by word id.
pub open spec fn level_wf(
    m: Seq<u32>,
    parents: Seq<WordSet>,
    gp: Seq<Seq<usize>>,
    level: Seq<WordSet>,
    g: Seq<Seq<usize>>,
    k: nat,
) -> bool {
    &&& k >= 1
    &&& parents.len() == gp.len()
    &&& gp.no_duplicates()
    &&& forall|p: int| 0 <= p < gp.len() ==> is_combo(m, #[trigger] gp[p], (k - 1) as nat)
    &&& level.len() == g.len()
    &&& forall|i: int| 0 <= i < g.len() ==> node_wf(m, gp, #[trigger] level[i], g[i], k)
    &&& g.no_duplicates()
    &&& forall|c: Seq<usize>| is_combo(m, c, k) ==> #[trigger] g.contains(c)
    &&& forall|p: int| 0 <= p < parents.len() ==>
        (#[trigger] parents[p]).range.start <= parents[p].range.end <= level.len()
    &&& forall|p: int, i: int| 0 <= p < parents.len() && 0 <= i < level.len() ==>
        ((#[trigger] level[i]).parent == p <==> (#[trigger] parents[p]).range.start <= i < parents[p].range.end)
    &&& forall|i: int, j: int| 0 <= i < j < level.len() && (#[trigger] level[i]).parent == (#[trigger] level[j]).parent ==>
        level[i].new_word < level[j].new_word
}

/// `a` and `b` agree on everything but their ranges.
pub open spec fn same_node(a: WordSet, b: WordSet) -> bool {
    a.parent == b.parent && a.new_word == b.new_word && a.letters == b.letters
}

proof fn lemma_or_disjoint(a: u32, b: u32, x: u32)
    ensures
        ((a | b) & x == 0) <==> (a & x == 0 && b & x == 0),
{
    assert(((a | b) & x == 0) <==> (a & x == 0 && b & x == 0)) by (bit_vector);
}

proof fn lemma_and_comm(a: u32, b: u32)
    ensures
        (a & b == 0) <==> (b & a == 0),
{
    assert((a & b == 0) <==> (b & a == 0)) by (bit_vector);
}

/// The union of a combination's masks misses `x` exactly when each mask does.
pub proof fn lemma_union_disjoint(m: Seq<u32>, c: Seq<usize>, x: u32)
    requires
        forall|i: int| 0 <= i < c.len() ==> c[i] < m.len(),
    ensures
        (union_mask(m, c) & x == 0) <==> (forall|i: int| 0 <= i < c.len() ==> m[c[i] as int] & x == 0),
    decreases c.len(),
{
    if c.len() == 0 {
        assert(0u32 & x == 0) by (bit_vector);
    } else {
        let d = c.drop_last();
        lemma_union_disjoint(m, d, x);
        lemma_or_disjoint(union_mask(m, d), m[c.last() as int], x);
        if union_mask(m, c) & x == 0 {
            assert forall|i: int| 0 <= i < c.len() implies m[c[i] as int] & x == 0 by {
                if i < c.len() - 1 {
                    assert(d[i] == c[i]);
                }
            }
        }
        if forall|i: int| 0 <= i < c.len() ==> m[c[i] as int] & x == 0 {
            assert forall|i: int| 0 <= i < d.len() implies m[d[i] as int] & x == 0 by {
                assert(d[i] == c[i]);
            }
            assert(m[c[c.len() - 1] as int] & x == 0);
        }
    }
}

/// Dropping the last word of a combination leaves a combination.
proof fn lemma_prefix_combo(m: Seq<u32>, c: Seq<usize>, k: nat)
    requires
        k >= 1,
        is_combo(m, c, k),
    ensures
        is_combo(m, c.drop_last(), (k - 1) as nat),
{
    let d = c.drop_last();
    assert forall|i: int, j: int| 0 <= i < j < d.len() implies m[d[i] as int] & m[d[j] as int] == 0 by {
        assert(d[i] == c[i] && d[j] == c[j]);
    }
}

/// Dropping the second-to-last word of a combination leaves a combination.
proof fn lemma_skip_combo(m: Seq<u32>, c: Seq<usize>, k: nat)
    requires
        k >= 2,
        is_combo(m, c, k),
    ensures
        is_combo(m, c.drop_last().drop_last().push(c.last()), (k - 1) as nat),
{
    let r = c.drop_last().drop_last().push(c.last());
    assert forall|i: int| 0 <= i < r.len() - 1 implies r[i] == c[i] by {}
    assert(r[r.len() - 1] == c[c.len() - 1]);
    assert forall|i: int| 0 <= i < r.len() implies r[i] < m.len() by {
        if i < r.len() - 1 {
            assert(r[i] == c[i]);
        }
    }
    assert forall|i: int, j: int| 0 <= i < j < r.len() implies r[i] < r[j] by {
        if j < r.len() - 1 {
            assert(r[i] == c[i] && r[j] == c[j]);
        } else {
            assert(r[i] == c[i]);
            assert(r[j] == c[k - 1]);
        }
    }
    assert forall|i: int, j: int| 0 <= i < j < r.len() implies m[r[i] as int] & m[r[j] as int] == 0 by {
        if j < r.len() - 1 {
            assert(r[i] == c[i] && r[j] == c[j]);
        } else {
            assert(r[i] == c[i]);
            assert(r[j] == c[k - 1]);
        }
    }
}

/// Appending a later word whose letters the combination does not use gives
/// a combination one larger.
pub(crate) proof fn lemma_extend_combo(m: Seq<u32>, q: Seq<usize>, k: nat, w: usize)
    requires
        is_combo(m, q, k),
        w < m.len(),
        k > 0 ==> q.last() < w,
        union_mask(m, q) & m[w as int] == 0,
    ensures
        is_combo(m, q.push(w), k + 1),
        union_mask(m, q.push(w)) == union_mask(m, q) | m[w as int],
        q.push(w).drop_last() == q,
        q.push(w).last() == w,
{
    let c = q.push(w);
    assert(c.drop_last() =~= q);
    lemma_union_disjoint(m, q, m[w as int]);
    assert forall|i: int| 0 <= i < c.len() implies c[i] < m.len() by {
        if i < q.len() {
            assert(c[i] == q[i]);
        }
    }
    assert forall|i: int, j: int| 0 <= i < j < c.len() implies c[i] < c[j] by {
        assert(c[i] == q[i]);
        if j == q.len() {
            if i < q.len() - 1 {
                assert(q[i] < q[q.len() - 1]);
            }
        } else {
            assert(c[j] == q[j]);
        }
    }
    assert forall|i: int, j: int| 0 <= i < j < c.len() implies m[c[i] as int] & m[c[j] as int] == 0 by {
        assert(c[i] == q[i]);
        if j < q.len() {
            assert(c[j] == q[j]);
        }
    }
}

/// Replacing the nodes of a level by ones that agree on all but their
/// ranges keeps the level well formed.
proof fn lemma_level_wf_same(
    m: Seq<u32>,
    parents: Seq<WordSet>,
    gp: Seq<Seq<usize>>,
    l1: Seq<WordSet>,
    l2: Seq<WordSet>,
    g: Seq<Seq<usize>>,
    k: nat,
)
    requires
        level_wf(m, parents, gp, l1, g, k),
        l1.len() == l2.len(),
        forall|i: int| 0 <= i < l1.len() ==> same_node(#[trigger] l2[i], l1[i]),
    ensures
        level_wf(m, parents, gp, l2, g, k),
{
    assert forall|i: int| 0 <= i < g.len() implies node_wf(m, gp, #[trigger] l2[i], g[i], k) by {
        assert(same_node(l2[i], l1[i]));
    }
    assert forall|p: int, i: int| 0 <= p < parents.len() && 0 <= i < l2.len() implies
        ((#[trigger] l2[i]).parent == p <==> (#[trigger] parents[p]).range.start <= i < parents[p].range.end) by {
        assert(same_node(l2[i], l1[i]));
    }
    assert forall|i: int, j: int| 0 <= i < j < l2.len() && (#[trigger] l2[i]).parent == (#[trigger] l2[j]).parent implies
        l2[i].new_word < l2[j].new_word by {
        assert(same_node(l2[i], l1[i]));
        assert(same_node(l2[j], l1[j]));
    }
}

/// Grows the next level from `level`, whose own parents are `parents`.
/// Each node is extended by the word of every later sibling whose letters
/// it does not use: siblings are the only words that can still follow it,
/// so no level rescans the whole word list. Each node's range is set to the
/// children it gets.
fn expand(
    words: &Vec<Word>,
    parents: &Vec<WordSet>,
    level: &mut Vec<WordSet>,
    Ghost(gp): Ghost<Seq<Seq<usize>>>,
    Ghost(g): Ghost<Seq<Seq<usize>>>,
    Ghost(k): Ghost<nat>,
) -> (r: (Result<Vec<WordSet>, SearchError>, Ghost<Seq<Seq<usize>>>))
    requires
        1 <= k <= 4,
        level_wf(masks_of(words@), parents@, gp, old(level)@, g, k),
    ensures
        final(level)@.len() == old(level)@.len(),
        forall|i: int| 0 <= i < old(level)@.len() ==> same_node(#[trigger] final(level)@[i], old(level)@[i]),
        level_wf(masks_of(words@), parents@, gp, final(level)@, g, k),
        match r.0 {
            Ok(next) => next@.len() <= u32::MAX && level_wf(masks_of(words@), final(level)@, g, next@, r.1@, k + 1),
            Err(_) => too_many(masks_of(words@), k + 1),
        },
{
    let ghost m = masks_of(words@);
    let ghost old_level = level@;
    let n = level.len();
    let mut next: Vec<WordSet> = Vec::new();
    let ghost mut g2: Seq<Seq<usize>> = Seq::empty();
    let mut i: usize = 0;
    while i < n
        invariant
            i <= n,
            n == level@.len(),
            n == old_level.len(),
            old_level == old(level)@,
            1 <= k <= 4,
            m == masks_of(words@),
            m.len() == words@.len(),
            level_wf(m, parents@, gp, old_level, g, k),
            forall|x: int| 0 <= x < n ==> same_node(#[trigger] level@[x], old_level[x]),
            next@.len() == g2.len(),
            next@.len() <= u32::MAX,
            forall|y: int| 0 <= y < next@.len() ==> node_wf(m, g, #[trigger] next@[y], g2[y], k + 1),
            forall|y: int| 0 <= y < next@.len() ==> (#[trigger] next@[y]).parent < i,
            g2.no_duplicates(),
            forall|c: Seq<usize>, x: int|
                0 <= x < i && is_combo(m, c, k + 1) && #[trigger] g[x] == c.drop_last() ==> #[trigger] g2.contains(c),
            forall|x: int| 0 <= x < i ==> (#[trigger] level@[x]).range.start <= level@[x].range.end <= next@.len(),
            forall|x: int, y: int| 0 <= x < i && 0 <= y < next@.len() ==>
                ((#[trigger] next@[y]).parent == x <==> (#[trigger] level@[x]).range.start <= y < level@[x].range.end),
            forall|x: int, y: int| 0 <= x < y < next@.len() && (#[trigger] next@[x]).parent == (#[trigger] next@[y]).parent ==>
                next@[x].new_word < next@[y].new_word,
        decreases n - i,
    {
        let li = level[i];
        assert(same_node(li, old_level[i as int]));
        assert(node_wf(m, gp, old_level[i as int], g[i as int], k));
        let pi = li.parent;
        assert(parents@[pi as int].range.start <= i < parents@[pi as int].range.end);
        let end = parents[pi].range.end as usize;
        let start = next.len();
        let ghost lw: int = li.new_word as int;
        let mut j: usize = i + 1;
        while j < end
            invariant
                i < j <= end <= n,
                i < n,
                n == level@.len(),
                n == old_level.len(),
                old_level == old(level)@,
                1 <= k <= 4,
                m == masks_of(words@),
                m.len() == words@.len(),
                level_wf(m, parents@, gp, old_level, g, k),
                forall|x: int| 0 <= x < n ==> same_node(#[trigger] level@[x], old_level[x]),
                same_node(li, old_level[i as int]),
                node_wf(m, gp, li, g[i as int], k),
                pi == li.parent,
                pi < parents@.len(),
                end == parents@[pi as int].range.end,
                parents@[pi as int].range.start <= i,
                start <= next@.len(),
                next@.len() == g2.len(),
                next@.len() <= u32::MAX,
                forall|y: int| 0 <= y < next@.len() ==> node_wf(m, g, #[trigger] next@[y], g2[y], k + 1),
                forall|y: int| 0 <= y < start ==> (#[trigger] next@[y]).parent < i,
                forall|y: int| start <= y < next@.len() ==> (#[trigger] next@[y]).parent == i && next@[y].new_word <= lw,
                li.new_word <= lw,
                j < end ==> lw < old_level[j as int].new_word,
                g2.no_duplicates(),
                forall|c: Seq<usize>, x: int|
                    0 <= x < i && is_combo(m, c, k + 1) && #[trigger] g[x] == c.drop_last() ==> #[trigger] g2.contains(c),
                forall|jj: int| i < jj < j && li.letters & m[old_level[jj].new_word as int] == 0 ==>
                    #[trigger] g2.contains(g[i as int].push(old_level[jj].new_word)),
                forall|x: int| 0 <= x < i ==> (#[trigger] level@[x]).range.start <= level@[x].range.end <= start,
                forall|x: int, y: int| 0 <= x < i && 0 <= y < start ==>
                    ((#[trigger] next@[y]).parent == x <==> (#[trigger] level@[x]).range.start <= y < level@[x].range.end),
                forall|x: int, y: int| 0 <= x < y < next@.len() && (#[trigger] next@[x]).parent == (#[trigger] next@[y]).parent ==>
                    next@[x].new_word < next@[y].new_word,
            decreases end - j,
        {
            let lj = level[j];
            assert(same_node(lj, old_level[j as int]));
            assert(node_wf(m, gp, old_level[j as int], g[j as int], k));
            assert(lj.parent == pi);
            let w = lj.new_word;
            let ghost g_before = g2;
            if li.letters & words[w].letters == 0 {
                let ghost c = g[i as int].push(w);
                proof {
                    lemma_extend_combo(m, g[i as int], k, w);
                    assert forall|y: int| 0 <= y < g2.len() implies g2[y] != c by {
                        assert(node_wf(m, g, next@[y], g2[y], k + 1));
                        if y < start {
                            assert(g2[y].drop_last() != c.drop_last());
                        } else {
                            assert(g2[y].last() != c.last());
                        }
                    }
                }
                if next.len() >= u32::MAX as usize {
                    proof {
                        let s = g2.push(c);
                        assert forall|y: int| 0 <= y < s.len() implies is_combo(m, #[trigger] s[y], k + 1) by {
                            if y < g2.len() {
                                assert(node_wf(m, g, next@[y], g2[y], k + 1));
                            }
                        }
                        assert(s.no_duplicates()) by {
                            assert forall|a: int, b: int| 0 <= a < b < s.len() implies s[a] != s[b] by {
                                if b < g2.len() {
                                    assert(g2[a] != g2[b]);
                                }
                            }
                        }
                        assert(s.len() > u32::MAX);
                        assert(s.no_duplicates() && s.len() > u32::MAX && forall|y: int|
                            0 <= y < s.len() ==> is_combo(m, #[trigger] s[y], k + 1));
                        assert(too_many(m, k + 1));
                        lemma_level_wf_same(m, parents@, gp, old_level, level@, g, k);
                    }
                    return (Err(SearchError::TooManyCombinations), Ghost(g2));
                }
                next.push(WordSet { parent: i, new_word: w, letters: li.letters | words[w].letters, range: Range::empty() });
                proof {
                    g2 = g2.push(c);
                    lw = w as int;
                    assert(g2[g2.len() - 1] == c);
                    assert forall|a: int, b: int| 0 <= a < b < g2.len() implies g2[a] != g2[b] by {
                        if b < g2.len() - 1 {
                            assert(g_before[a] != g_before[b]);
                        }
                    }
                    assert forall|y: int| 0 <= y < next@.len() implies node_wf(m, g, #[trigger] next@[y], g2[y], k + 1) by {
                        if y < next@.len() - 1 {
                            assert(g2[y] == g_before[y]);
                        }
                    }
                }
            }
            proof {
                assert forall|c: Seq<usize>| #[trigger] g_before.contains(c) implies g2.contains(c) by {
                    let y = choose|y: int| 0 <= y < g_before.len() && g_before[y] == c;
                    assert(g2[y] == c);
                }
                assert forall|c: Seq<usize>, x: int|
                    0 <= x < i && is_combo(m, c, k + 1) && #[trigger] g[x] == c.drop_last() implies #[trigger] g2.contains(c) by {
                    assert(g_before.contains(c));
                }
                if j + 1 < end {
                    assert(parents@[pi as int].range.start <= j + 1 < parents@[pi as int].range.end);
                    assert(old_level[j + 1].parent == pi);
                    assert(old_level[j as int].new_word < old_level[j + 1].new_word);
                }
                assert forall|jj: int| i < jj < j + 1 && li.letters & m[old_level[jj].new_word as int] == 0 implies
                    #[trigger] g2.contains(g[i as int].push(old_level[jj].new_word)) by {
                    if jj < j {
                        assert(g_before.contains(g[i as int].push(old_level[jj].new_word)));
                    } else {
                        assert(g2[g2.len() - 1] == g[i as int].push(old_level[jj].new_word));
                    }
                }
            }
            j = j + 1;
        }
        level.set(i, WordSet { parent: li.parent, new_word: li.new_word, letters: li.letters, range: Range::from_usize(start, next.len()) });
        proof {
            assert forall|c: Seq<usize>, x: int|
                0 <= x < i + 1 && is_combo(m, c, k + 1) && #[trigger] g[x] == c.drop_last() implies #[trigger] g2.contains(c) by {
                if x == i {
                    let t = c.last();
                    lemma_prefix_combo(m, c, k + 1);
                    lemma_skip_combo(m, c, k + 1);
                    let r = c.drop_last().drop_last().push(t);
                    assert(g.contains(r));
                    let jr = choose|jr: int| 0 <= jr < g.len() && g[jr] == r;
                    assert(node_wf(m, gp, old_level[jr], g[jr], k));
                    assert(r.drop_last() =~= c.drop_last().drop_last());
                    assert(gp[old_level[jr].parent as int] == gp[pi as int]);
                    assert(old_level[jr].parent == pi);
                    assert(jr < end);
                    assert(old_level[jr].new_word == t);
                    assert(c[k - 1] < c[k as int]);
                    assert(li.new_word == c[k - 1]);
                    if jr < i {
                        assert(old_level[jr].new_word < old_level[i as int].new_word);
                    }
                    assert(jr != i);
                    lemma_union_disjoint(m, g[i as int], m[t as int]);
                    assert forall|q: int| 0 <= q < g[i as int].len() implies m[g[i as int][q] as int] & m[t as int] == 0 by {
                        assert(g[i as int][q] == c[q]);
                        assert(m[c[q] as int] & m[c[k as int] as int] == 0);
                    }
                    assert(g[i as int].push(t) =~= c);
                }
            }
        }
        i = i + 1;
    }
    proof {
        let nl = level@;
        lemma_level_wf_same(m, parents@, gp, old_level, nl, g, k);
        assert forall|c: Seq<usize>| is_combo(m, c, k + 1) implies #[trigger] g2.contains(c) by {
            lemma_prefix_combo(m, c, k + 1);
            assert(g.contains(c.drop_last()));
            let x = choose|x: int| 0 <= x < g.len() && g[x] == c.drop_last();
        }
        assert forall|p: int| 0 <= p < g.len() implies is_combo(m, #[trigger] g[p], k) by {
            assert(node_wf(m, gp, old_level[p], g[p], k));
        }
    }
    (Ok(next), Ghost(g2))
}

/// The outcome of a search: every valid combination of five words, as
/// increasing word ids, and how many valid combinations there are of each
/// size (`level_counts[k - 1]` for size `k`, from one to five).
pub struct Search {
    pub combos: Vec<Vec<usize>>,
    pub level_counts: Vec<usize>,
}

/// The id sequences held by a list of id vectors.
pub open spec fn ids_of(s: Seq<Vec<usize>>) -> Seq<Seq<usize>> {
    s.map_values(|v: Vec<usize>| v@)
}

/// `s` reports each valid combination of five words for masks `m` exactly
/// once, and the exact number of valid combinations of each size.
pub open spec fn search_spec(m: Seq<u32>, s: Search) -> bool {
    &&& ids_of(s.combos@).no_duplicates()
    &&& ids_of(s.combos@).to_set() == combos(m, 5)
    &&& s.level_counts@.len() == 5
    &&& forall|k: nat| 1 <= k <= 5 ==> #[trigger] combos(m, k).finite()
    &&& forall|k: int| 1 <= k <= 5 ==> #[trigger] s.level_counts@[k - 1] == combos(m, k as nat).len()
}

/// Some level from one to five holds more than `u32::MAX` combinations.
pub open spec fn search_overflows(m: Seq<u32>) -> bool {
    exists|k: nat| 1 <= k <= 5 && #[trigger] too_many(m, k)
}

/// A sequence without duplicates that holds exactly the valid combinations
/// of size `k` has as many elements as there are such combinations.
proof fn lemma_level_exact(m: Seq<u32>, g: Seq<Seq<usize>>, k: nat)
    requires
        g.no_duplicates(),
        forall|i: int| 0 <= i < g.len() ==> is_combo(m, #[trigger] g[i], k),
        forall|c: Seq<usize>| is_combo(m, c, k) ==> #[trigger] g.contains(c),
    ensures
        g.to_set() == combos(m, k),
        combos(m, k).finite(),
        combos(m, k).len() == g.len(),
{
    vstd::seq_lib::seq_to_set_is_finite(g);
    assert forall|c: Seq<usize>| g.to_set().contains(c) <==> combos(m, k).contains(c) by {
        if g.to_set().contains(c) {
            let i = choose|i: int| 0 <= i < g.len() && g[i] == c;
        }
        if is_combo(m, c, k) {
            assert(g.contains(c));
        }
    }
    assert(g.to_set() =~= combos(m, k));
    g.unique_seq_to_set();
}

/// The facts of a well-formed level that the driver needs: its model is
/// exactly the valid combinations of its size.
proof fn lemma_level_count(
    m: Seq<u32>,
    parents: Seq<WordSet>,
    gp: Seq<Seq<usize>>,
    level: Seq<WordSet>,
    g: Seq<Seq<usize>>,
    k: nat,
)
    requires
        level_wf(m, parents, gp, level, g, k),
    ensures
        g.to_set() == combos(m, k),
        combos(m, k).finite(),
        combos(m, k).len() == level.len(),
{
    assert forall|i: int| 0 <= i < g.len() implies is_combo(m, #[trigger] g[i], k) by {
        assert(node_wf(m, gp, level[i], g[i], k));
    }
    lemma_level_exact(m, g, k);
}

/// A search whose counts all fit in `u32` found no level that overflows.
pub proof fn lemma_fitting_counts_do_not_overflow(m: Seq<u32>, s: Search)
    requires
        search_spec(m, s),
        forall|k: int| 0 <= k < 5 ==> #[trigger] s.level_counts@[k] <= u32::MAX,
    ensures
        !search_overflows(m),
{
    if search_overflows(m) {
        let k = choose|k: nat| 1 <= k <= 5 && #[trigger] too_many(m, k);
        let w = choose|w: Seq<Seq<usize>>|
            #![trigger w.no_duplicates(), w.len()]
            w.len() > u32::MAX && w.no_duplicates() && forall|i: int|
                0 <= i < w.len() ==> is_combo(m, #[trigger] w[i], k);
        let ki = k as int;
        assert(s.level_counts@[ki - 1] == combos(m, k).len());
        assert(w.to_set().subset_of(combos(m, k))) by {
            assert forall|c: Seq<usize>| w.to_set().contains(c) implies combos(m, k).contains(c) by {
                let i = choose|i: int| 0 <= i < w.len() && w[i] == c;
            }
        }
        vstd::set_lib::lemma_len_subset(w.to_set(), combos(m, k));
        w.unique_seq_to_set();
    }
}

/// Finds every set of five words with pairwise disjoint letters.
///
/// Partial combinations are grown level by level from single words; each
/// node's candidates are its later siblings, and a child is made only for a
/// word whose letters the node does not use yet. Fails only when a level
/// holds more nodes than a `u32` index can reach.
pub fn find_sets_of_5_dynamic(words: &Vec<Word>) -> (r: Result<Search, SearchError>)
    ensures
        r is Err <==> search_overflows(masks_of(words@)),
        r matches Ok(s) ==> search_spec(masks_of(words@), s),
{
    let ghost m = masks_of(words@);
    let n = words.len();
    if n > u32::MAX as usize {
        proof {
            let s = Seq::new(n as nat, |i: int| seq![i as usize]);
            assert forall|y: int| 0 <= y < s.len() implies is_combo(m, #[trigger] s[y], 1) by {}
            assert forall|a: int, b: int| 0 <= a < b < s.len() implies s[a] != s[b] by {
                assert(s[a][0] != s[b][0]);
            }
            assert(s.no_duplicates() && s.len() > u32::MAX && forall|y: int|
                0 <= y < s.len() ==> is_combo(m, #[trigger] s[y], 1));
            assert(too_many(m, 1));
        }
        return Err(SearchError::TooManyCombinations);
    }
    let root = WordSet { parent: 0, new_word: 0, letters: 0, range: Range::from_usize(0, n) };
    let l0: Vec<WordSet> = vec![root];
    let ghost g0: Seq<Seq<usize>> = seq![Seq::empty()];
    let mut l1: Vec<WordSet> = Vec::new();
    for w in 0..n
        invariant
            n == words@.len(),
            m == masks_of(words@),
            l1@.len() == w,
            forall|y: int| 0 <= y < w ==> (#[trigger] l1@[y]).parent == 0 && l1@[y].new_word == y && l1@[y].letters == m[y],
    {
        l1.push(WordSet { parent: 0, new_word: w, letters: words[w].letters, range: Range::empty() });
    }
    let ghost g1 = Seq::new(n as nat, |i: int| seq![i as usize]);
    proof {
        assert forall|i: int| 0 <= i < g1.len() implies node_wf(m, g0, #[trigger] l1@[i], g1[i], 1) by {
            let a = m[i];
            assert(0u32 | a == a) by (bit_vector);
            assert(g1[i].drop_last() =~= g0[0]);
            assert(union_mask(m, g1[i].drop_last()) == 0);
            assert(g1[i].last() == i);
            assert(union_mask(m, g1[i]) == a);
            assert(is_combo(m, g1[i], 1));
        }
        assert forall|a: int, b: int| 0 <= a < b < g1.len() implies g1[a] != g1[b] by {
            assert(g1[a][0] != g1[b][0]);
        }
        assert forall|c: Seq<usize>| is_combo(m, c, 1) implies #[trigger] g1.contains(c) by {
            assert(g1[c[0] as int] =~= c);
        }
    }
    let (r2, Ghost(g2)) = expand(words, &l0, &mut l1, Ghost(g0), Ghost(g1), Ghost(1));
    let mut l2 = match r2 {
        Ok(v) => v,
        Err(e) => return Err(e),
    };
    let (r3, Ghost(g3)) = expand(words, &l1, &mut l2, Ghost(g1), Ghost(g2), Ghost(2));
    let mut l3 = match r3 {
        Ok(v) => v,
        Err(e) => return Err(e),
    };
    let (r4, Ghost(g4)) = expand(words, &l2, &mut l3, Ghost(g2), Ghost(g3), Ghost(3));
    let mut l4 = match r4 {
        Ok(v) => v,
        Err(e) => return Err(e),
    };
    let (r5, Ghost(g5)) = expand(words, &l3, &mut l4, Ghost(g3), Ghost(g4), Ghost(4));
    let l5 = match r5 {
        Ok(v) => v,
        Err(e) => return Err(e),
    };
    let mut out: Vec<Vec<usize>> = Vec::new();
    for x in 0..l5.len()
        invariant
            level_wf(m, l0@, g0, l1@, g1, 1),
            level_wf(m, l1@, g1, l2@, g2, 2),
            level_wf(m, l2@, g2, l3@, g3, 3),
            level_wf(m, l3@, g3, l4@, g4, 4),
            level_wf(m, l4@, g4, l5@, g5, 5),
            out@.len() == x,
            forall|y: int| 0 <= y < x ==> (#[trigger] out@[y])@ == g5[y],
    {
        let n5 = l5[x];
        assert(node_wf(m, g4, l5@[x as int], g5[x as int], 5));
        let n4 = l4[n5.parent];
        assert(node_wf(m, g3, l4@[n5.parent as int], g4[n5.parent as int], 4));
        let n3 = l3[n4.parent];
        assert(node_wf(m, g2, l3@[n4.parent as int], g3[n4.parent as int], 3));
        let n2 = l2[n3.parent];
        assert(node_wf(m, g1, l2@[n3.parent as int], g2[n3.parent as int], 2));
        let n1 = l1[n2.parent];
        assert(node_wf(m, g0, l1@[n2.parent as int], g1[n2.parent as int], 1));
        let ids = vec![n1.new_word, n2.new_word, n3.new_word, n4.new_word, n5.new_word];
        proof {
            let c5 = g5[x as int];
            let c4 = c5.drop_last();
            let c3 = c4.drop_last();
            let c2 = c3.drop_last();
            let c1 = c2.drop_last();
            assert(c1.last() == c5[0]);
            assert(c2.last() == c5[1]);
            assert(c3.last() == c5[2]);
            assert(c4.last() == c5[3]);
            assert(ids@ =~= c5);
        }
        out.push(ids);
    }
    let counts = vec![l1.len(), l2.len(), l3.len(), l4.len(), l5.len()];
    proof {
        lemma_level_count(m, l0@, g0, l1@, g1, 1);
        lemma_level_count(m, l1@, g1, l2@, g2, 2);
        lemma_level_count(m, l2@, g2, l3@, g3, 3);
        lemma_level_count(m, l3@, g3, l4@, g4, 4);
        lemma_level_count(m, l4@, g4, l5@, g5, 5);
        assert(ids_of(out@) =~= g5);
        assert forall|k: nat| 1 <= k <= 5 implies #[trigger] combos(m, k).finite() by {
            // one case per level, so that each level's facts apply
            if k == 1 {
            } else if k == 2 {
            } else if k == 3 {
            } else if k == 4 {
            } else {
            }
        }
        assert forall|k: int| 1 <= k <= 5 implies #[trigger] counts@[k - 1] == combos(m, k as nat).len() by {
            // one case per level, so that each level's facts apply
            if k == 1 {
            } else if k == 2 {
            } else if k == 3 {
            } else if k == 4 {
            } else {
            }
        }
    }
    let s = Search { combos: out, level_counts: counts };
    proof {
        lemma_fitting_counts_do_not_overflow(m, s);
    }
    Ok(s)
}

} // verus!
