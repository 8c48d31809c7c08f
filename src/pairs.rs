use vstd::prelude::*;
use crate::letters::{Word, masks_of};
use crate::range::Range;
use crate::search::{SearchError, is_combo, too_many};

verus! {

/// Two words with disjoint letters, the first with the smaller id.
#[derive(Clone, Copy, Debug)]
pub struct WordPair {
    pub words: [usize; 2],
}

/// For each word, the later words whose letters it does not share: the
/// pairs that start with word `a` stand, by increasing second word, in
/// `pairs[ranges[a].start .. ranges[a].end]`.
pub struct PairGraph {
    pub pairs: Vec<WordPair>,
    pub ranges: Vec<Range>,
}

/// `pairs` and `ranges` list, for each word `a`, exactly the later words
/// disjoint from it, in increasing order.
pub open spec fn pairs_wf(m: Seq<u32>, pairs: Seq<WordPair>, ranges: Seq<Range>) -> bool {
    &&& ranges.len() == m.len()
    &&& forall|a: int| 0 <= a < m.len() ==> (#[trigger] ranges[a]).start <= ranges[a].end <= pairs.len()
    &&& forall|a: int, i: int| 0 <= a < m.len() && (#[trigger] ranges[a]).start <= i < ranges[a].end ==>
        (#[trigger] pairs[i]).words[0] == a && a < pairs[i].words[1] < m.len() && m[a] & m[pairs[i].words[1] as int] == 0
    &&& forall|a: int, i: int, i2: int| 0 <= a < m.len() && (#[trigger] ranges[a]).start <= i < i2 < ranges[a].end ==>
        (#[trigger] pairs[i]).words[1] < (#[trigger] pairs[i2]).words[1]
    &&& forall|a: int, y: int| 0 <= a < y < m.len() && m[a] & m[y] == 0 ==> #[trigger] listed(pairs, ranges, a, y)
}

/// Word `y` is listed among the pairs of word `a`.
pub open spec fn listed(pairs: Seq<WordPair>, ranges: Seq<Range>, a: int, y: int) -> bool {
    exists|i: int| ranges[a].start <= i < ranges[a].end && (#[trigger] pairs[i]).words[1] == y
}

/// Word `y` is the second word of a pair from index `start` on.
pub open spec fn listed_from(pairs: Seq<WordPair>, start: int, y: int) -> bool {
    exists|i: int| start <= i < pairs.len() && (#[trigger] pairs[i]).words[1] == y
}

/// Lists, for each word, the later words whose letters it does not share.
/// Fails when there are more such pairs than a `u32` index can reach.
pub fn build_pair_graph(words: &Vec<Word>) -> (r: Result<PairGraph, SearchError>)
    ensures
        match r {
            Ok(g) => pairs_wf(masks_of(words@), g.pairs@, g.ranges@),
            Err(_) => too_many(masks_of(words@), 2),
        },
{
    let ghost m = masks_of(words@);
    let n = words.len();
    let mut pairs: Vec<WordPair> = Vec::new();
    let mut ranges: Vec<Range> = Vec::new();
    for a in 0..n
        invariant
            n == words@.len(),
            m == masks_of(words@),
            ranges@.len() == a,
            pairs@.len() <= u32::MAX,
            forall|t: int| 0 <= t < a ==> (#[trigger] ranges@[t]).start <= ranges@[t].end <= pairs@.len(),
            forall|t: int, i: int| 0 <= t < a && (#[trigger] ranges@[t]).start <= i < ranges@[t].end ==>
                (#[trigger] pairs@[i]).words[0] == t && t < pairs@[i].words[1] < m.len() && m[t] & m[pairs@[i].words[1] as int] == 0,
            forall|t: int, i: int, i2: int| 0 <= t < a && (#[trigger] ranges@[t]).start <= i < i2 < ranges@[t].end ==>
                (#[trigger] pairs@[i]).words[1] < (#[trigger] pairs@[i2]).words[1],
            forall|t: int, y: int| 0 <= t < a && t < y < m.len() && m[t] & m[y] == 0 ==> #[trigger] listed(pairs@, ranges@, t, y),
            forall|i: int| 0 <= i < pairs@.len() ==> is_combo(m, #[trigger] pair_ids(pairs@[i]), 2),
            forall|i: int, i2: int| 0 <= i < i2 < pairs@.len() ==> pair_before(#[trigger] pairs@[i], #[trigger] pairs@[i2]),
            forall|i: int| 0 <= i < pairs@.len() ==> (#[trigger] pairs@[i]).words[0] < a,
    {
        let start = pairs.len();
        let la = words[a].letters;
        for b in a + 1..n
            invariant
                n == words@.len(),
                m == masks_of(words@),
                a < n,
                la == m[a as int],
                ranges@.len() == a,
                start <= pairs@.len() <= u32::MAX,
                forall|t: int| 0 <= t < a ==> (#[trigger] ranges@[t]).start <= ranges@[t].end <= start,
                forall|t: int, i: int| 0 <= t < a && (#[trigger] ranges@[t]).start <= i < ranges@[t].end ==>
                    (#[trigger] pairs@[i]).words[0] == t && t < pairs@[i].words[1] < m.len() && m[t] & m[pairs@[i].words[1] as int] == 0,
                forall|t: int, i: int, i2: int| 0 <= t < a && (#[trigger] ranges@[t]).start <= i < i2 < ranges@[t].end ==>
                    (#[trigger] pairs@[i]).words[1] < (#[trigger] pairs@[i2]).words[1],
                forall|t: int, y: int| 0 <= t < a && t < y < m.len() && m[t] & m[y] == 0 ==> #[trigger] listed(pairs@, ranges@, t, y),
                forall|i: int| start <= i < pairs@.len() ==> (#[trigger] pairs@[i]).words[0] == a && a < pairs@[i].words[1] < b
                    && m[a as int] & m[pairs@[i].words[1] as int] == 0,
                forall|y: int| a < y < b && m[a as int] & m[y] == 0 ==> #[trigger] listed_from(pairs@, start as int, y),
                forall|i: int| 0 <= i < pairs@.len() ==> is_combo(m, #[trigger] pair_ids(pairs@[i]), 2),
                forall|i: int, i2: int| 0 <= i < i2 < pairs@.len() ==> pair_before(#[trigger] pairs@[i], #[trigger] pairs@[i2]),
                forall|i: int| 0 <= i < start ==> (#[trigger] pairs@[i]).words[0] < a,
        {
            if la & words[b].letters == 0 {
                let np = WordPair { words: [a, b] };
                proof {
                    assert(m[a as int] & m[b as int] == 0);
                    assert(pair_ids(np) =~= seq![a, b]);
                }
                if pairs.len() >= u32::MAX as usize {
                    proof {
                        let s = pairs@.push(np).map_values(|p: WordPair| pair_ids(p));
                        assert forall|i: int| 0 <= i < s.len() implies is_combo(m, #[trigger] s[i], 2) by {
                            if i < pairs@.len() {
                                assert(s[i] == pair_ids(pairs@[i]));
                            }
                        }
                        assert forall|i: int, i2: int| 0 <= i < i2 < s.len() implies s[i] != s[i2] by {
                            let pi = pairs@.push(np)[i];
                            let pi2 = pairs@.push(np)[i2];
                            if i2 < pairs@.len() {
                                assert(pair_before(pairs@[i], pairs@[i2]));
                            } else if i < start {
                                assert(pi.words[0] < a);
                            }
                            assert(s[i][0] == pi.words[0] && s[i][1] == pi.words[1]);
                            assert(s[i2][0] == pi2.words[0] && s[i2][1] == pi2.words[1]);
                        }
                        assert(s.no_duplicates() && s.len() > u32::MAX && forall|i: int|
                            0 <= i < s.len() ==> is_combo(m, #[trigger] s[i], 2));
                    }
                    return Err(SearchError::TooManyCombinations);
                }
                let ghost old_pairs = pairs@;
                pairs.push(np);
                proof {
                    assert forall|t: int, y: int| 0 <= t < a && t < y < m.len() && m[t] & m[y] == 0 implies
                        #[trigger] listed(pairs@, ranges@, t, y) by {
                        assert(listed(old_pairs, ranges@, t, y));
                        let i = choose|i: int| ranges@[t].start <= i < ranges@[t].end && (#[trigger] old_pairs[i]).words[1] == y;
                        assert(pairs@[i] == old_pairs[i]);
                    }
                    assert forall|y: int| a < y < b + 1 && m[a as int] & m[y] == 0 implies
                        #[trigger] listed_from(pairs@, start as int, y) by {
                        if y < b {
                            assert(listed_from(old_pairs, start as int, y));
                            let i = choose|i: int| start <= i < old_pairs.len() && (#[trigger] old_pairs[i]).words[1] == y;
                            assert(pairs@[i] == old_pairs[i]);
                        } else {
                            assert(pairs@[old_pairs.len() as int] == np);
                        }
                    }
                }
            }
        }
        let ghost old_ranges = ranges@;
        ranges.push(Range::from_usize(start, pairs.len()));
        proof {
            assert forall|t: int, y: int| 0 <= t < a + 1 && t < y < m.len() && m[t] & m[y] == 0 implies
                #[trigger] listed(pairs@, ranges@, t, y) by {
                if t < a {
                    assert(ranges@[t] == old_ranges[t]);
                    assert(listed(pairs@, old_ranges, t, y));
                    let i = choose|i: int| old_ranges[t].start <= i < old_ranges[t].end && (#[trigger] pairs@[i]).words[1] == y;
                } else {
                    assert(listed_from(pairs@, start as int, y));
                    let i = choose|i: int| start <= i < pairs@.len() && (#[trigger] pairs@[i]).words[1] == y;
                }
            }
        }
    }
    Ok(PairGraph { pairs, ranges })
}

/// The ids of a pair, as a sequence.
pub open spec fn pair_ids(p: WordPair) -> Seq<usize> {
    seq![p.words[0], p.words[1]]
}

/// `p` comes before `q` in the order in which pairs are listed.
pub open spec fn pair_before(p: WordPair, q: WordPair) -> bool {
    p.words[0] < q.words[0] || (p.words[0] == q.words[0] && p.words[1] < q.words[1])
}

} // verus!
