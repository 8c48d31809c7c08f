use vstd::prelude::*;
use crate::letters::{Word, masks_of};
use crate::pairs::{PairGraph, WordPair, build_pair_graph, pairs_wf, listed};
use crate::range::Range;
use crate::search::{
    Search, SearchError, combos, lemma_fitting_counts_do_not_overflow, ids_of, is_combo, search_overflows, search_spec, too_many, union_mask,
    lemma_union_disjoint, lemma_extend_combo,
};

verus! {

/// The valid combinations of `j` words that start with the words `p`.
pub open spec fn ext(m: Seq<u32>, p: Seq<usize>, j: nat) -> Set<Seq<usize>> {
    Set::new(|c: Seq<usize>| is_combo(m, c, j) && c.take(p.len() as int) == p)
}

/// Those of `ext(m, p, j)` whose word after `p` has an id below `x`.
pub open spec fn ext_below(m: Seq<u32>, p: Seq<usize>, j: nat, x: int) -> Set<Seq<usize>> {
    Set::new(|c: Seq<usize>| is_combo(m, c, j) && c.take(p.len() as int) == p && c[p.len() as int] < x)
}

/// The bookkeeping of the depth-first search: `seen[j]` lists, without
/// duplicates, the valid combinations of size `j` met so far; `counts` and
/// `out` agree with it.
pub open spec fn seen_wf(m: Seq<u32>, seen: Seq<Seq<Seq<usize>>>, counts: Seq<usize>, out: Seq<Vec<usize>>) -> bool {
    &&& seen.len() == 6
    &&& counts.len() == 5
    &&& forall|j: int| 1 <= j <= 5 ==> (#[trigger] seen[j]).no_duplicates()
    &&& forall|j: int, i: int| 1 <= j <= 5 && 0 <= i < seen[j].len() ==> is_combo(m, #[trigger] seen[j][i], j as nat)
    &&& forall|j: int| 1 <= j <= 5 ==> #[trigger] counts[j - 1] == seen[j].len()
    &&& forall|j: int| 1 <= j <= 5 ==> (#[trigger] seen[j]).len() <= u32::MAX
    &&& ids_of(out) == seen[5]
}

/// Moving the bound past `x` adds the combinations whose word after `p`
/// is `x`.
proof fn lemma_ext_split(m: Seq<u32>, p: Seq<usize>, j: nat, x: usize)
    requires
        p.len() < j,
    ensures
        forall|c: Seq<usize>| #[trigger] ext_below(m, p, j, x + 1).contains(c) <==>
            ext_below(m, p, j, x as int).contains(c) || (is_combo(m, c, j) && c.take(p.len() as int + 1) == p.push(x)),
{
    assert forall|c: Seq<usize>| #[trigger] ext_below(m, p, j, x + 1).contains(c) <==>
        ext_below(m, p, j, x as int).contains(c) || (is_combo(m, c, j) && c.take(p.len() as int + 1) == p.push(x)) by {
        if is_combo(m, c, j) {
            assert(c.take(p.len() as int + 1) =~= c.take(p.len() as int).push(c[p.len() as int]));
            if c.take(p.len() as int + 1) == p.push(x) {
                assert(c.take(p.len() as int + 1).drop_last() =~= c.take(p.len() as int));
                assert(p.push(x).drop_last() =~= p);
                assert(c.take(p.len() as int + 1).last() == c[p.len() as int]);
            }
        }
    }
}

/// A combination whose word after `p` is `x` exists only when the letters
/// of `x` are not in `p`.
proof fn lemma_ext_needs_disjoint(m: Seq<u32>, p: Seq<usize>, c: Seq<usize>, j: nat, x: usize)
    requires
        p.len() < j,
        is_combo(m, p, p.len()),
        is_combo(m, c, j),
        c.take(p.len() as int + 1) == p.push(x),
    ensures
        union_mask(m, p) & m[x as int] == 0,
{
    let l = p.len() as int;
    assert(c.take(l + 1)[l] == p.push(x)[l]);
    assert(c[l] == x);
    lemma_union_disjoint(m, p, m[x as int]);
    assert forall|i: int| 0 <= i < p.len() implies m[p[i] as int] & m[x as int] == 0 by {
        assert(c.take(l + 1)[i] == p.push(x)[i]);
        assert(c[i] == p[i]);
    }
}

/// Words whose letters all meet those of the prefix's last word start no
/// combination after it, so skipping them changes nothing.
proof fn lemma_gap(m: Seq<u32>, p: Seq<usize>, j: nat, lo: int, hi: int)
    requires
        p.len() >= 1,
        p.len() < j,
        lo <= hi,
        forall|y: int| lo <= y < hi ==> m[p.last() as int] & #[trigger] m[y] != 0,
    ensures
        ext_below(m, p, j, lo) == ext_below(m, p, j, hi),
{
    let l = p.len() as int;
    assert forall|c: Seq<usize>| #[trigger] ext_below(m, p, j, hi).contains(c) implies ext_below(m, p, j, lo).contains(c) by {
        if !(c[l] < lo) {
            assert(c.take(l)[l - 1] == c[l - 1]);
            assert(m[c[l - 1] as int] & m[c[l] as int] == 0);
        }
    }
    assert(ext_below(m, p, j, lo) =~= ext_below(m, p, j, hi));
}

/// A word strictly between two neighbouring entries of word `a`'s pairs
/// (or before the first, or after the last) shares a letter with `a`.
proof fn lemma_no_pair_between(m: Seq<u32>, pairs: Seq<WordPair>, ranges: Seq<Range>, a: int, idx: int, y: int)
    requires
        pairs_wf(m, pairs, ranges),
        0 <= a < y < m.len(),
        ranges[a].start <= idx <= ranges[a].end,
        idx > ranges[a].start ==> pairs[idx - 1].words[1] < y,
        idx < ranges[a].end ==> y < pairs[idx].words[1],
    ensures
        m[a] & m[y] != 0,
{
    if m[a] & m[y] == 0 {
        assert(listed(pairs, ranges, a, y));
        let i = choose|i: int| ranges[a].start <= i < ranges[a].end && (#[trigger] pairs[i]).words[1] == y;
        assert(ranges[a].start <= i < ranges[a].end);
        if i < idx {
            if i < idx - 1 {
                assert(pairs[i].words[1] < pairs[idx - 1].words[1]);
            }
        } else {
            if i > idx {
                assert(pairs[idx].words[1] < pairs[i].words[1]);
            }
        }
    }
}

/// A copy of `v`.
fn copy_ids(v: &Vec<usize>) -> (r: Vec<usize>)
    ensures
        r@ == v@,
{
    let mut r: Vec<usize> = Vec::new();
    for i in 0..v.len()
        invariant
            r@ == v@.take(i as int),
    {
        r.push(v[i]);
        assert(r@ =~= v@.take(i + 1));
    }
    assert(v@.take(v@.len() as int) =~= v@);
    r
}

/// Counts and lists every valid combination that extends `prefix`, trying
/// each later word in turn and descending whenever its letters are unused.
fn extend(
    words: &Vec<Word>,
    graph: Option<&PairGraph>,
    prefix: &mut Vec<usize>,
    acc: u32,
    from: usize,
    counts: &mut Vec<usize>,
    out: &mut Vec<Vec<usize>>,
    Ghost(seen): Ghost<Seq<Seq<Seq<usize>>>>,
) -> (r: (Result<(), SearchError>, Ghost<Seq<Seq<Seq<usize>>>>))
    requires
        old(prefix)@.len() <= 4,
        graph matches Some(g) ==> pairs_wf(masks_of(words@), g.pairs@, g.ranges@),
        is_combo(masks_of(words@), old(prefix)@, old(prefix)@.len()),
        acc == union_mask(masks_of(words@), old(prefix)@),
        from == (if old(prefix)@.len() == 0 { 0 } else { old(prefix)@.last() + 1 }),
        seen_wf(masks_of(words@), seen, old(counts)@, old(out)@),
        forall|j: int, i: int| old(prefix)@.len() < j <= 5 && 0 <= i < seen[j].len() ==>
            !ext(masks_of(words@), old(prefix)@, j as nat).contains(#[trigger] seen[j][i]),
    ensures
        match r.0 {
            Ok(_) => {
                &&& final(prefix)@ == old(prefix)@
                &&& seen_wf(masks_of(words@), r.1@, final(counts)@, final(out)@)
                &&& forall|j: int| 1 <= j <= old(prefix)@.len() ==> #[trigger] r.1@[j] == seen[j]
                &&& forall|j: int| old(prefix)@.len() < j <= 5 ==>
                    (#[trigger] r.1@[j]).to_set() == seen[j].to_set().union(ext(masks_of(words@), old(prefix)@, j as nat))
            },
            Err(_) => search_overflows(masks_of(words@)),
        },
    decreases 5 - old(prefix)@.len(),
{
    let ghost m = masks_of(words@);
    let ghost p = prefix@;
    let ghost l: int = p.len() as int;
    let ghost mut sn = seen;
    let n = words.len();
    let depth = prefix.len();
    let mut x = from;
    proof {
        assert forall|j: int| l < j <= 5 implies (#[trigger] sn[j]).to_set() == seen[j].to_set().union(
            ext_below(m, p, j as nat, x as int)) by {
            assert forall|c: Seq<usize>| !(#[trigger] ext_below(m, p, j as nat, x as int).contains(c)) by {
                if is_combo(m, c, j as nat) && c.take(l as int) == p && l > 0 {
                    assert(c[l - 1] == c.take(l as int)[l - 1]);
                    assert(c[l - 1] < c[l as int]);
                }
            }
            assert(seen[j].to_set().union(ext_below(m, p, j as nat, x as int)) =~= seen[j].to_set());
        }
    }
    let mut idx: usize = 0;
    let mut hi: usize = 0;
    let use_pairs = depth > 0 && graph.is_some();
    if use_pairs {
        let g = graph.unwrap();
        let last = prefix[depth - 1];
        idx = g.ranges[last].start as usize;
        hi = g.ranges[last].end as usize;
        let x0 = if idx < hi { g.pairs[idx].words[1] } else { n };
        proof {
            assert(last == p.last());
            assert forall|y: int| from <= y < x0 implies m[p.last() as int] & #[trigger] m[y] != 0 by {
                lemma_no_pair_between(m, g.pairs@, g.ranges@, last as int, idx as int, y);
            }
            assert forall|j: int| l < j <= 5 implies (#[trigger] sn[j]).to_set() == seen[j].to_set().union(
                ext_below(m, p, j as nat, x0 as int)) by {
                lemma_gap(m, p, j as nat, x as int, x0 as int);
            }
        }
        x = x0;
    }
    while x < n
        invariant
            from <= x <= n,
            use_pairs ==> depth > 0 && graph is Some,
            graph matches Some(g) ==> pairs_wf(m, g.pairs@, g.ranges@),
            use_pairs ==> ({
                let g = graph->Some_0;
                let r = g.ranges@[p.last() as int];
                &&& pairs_wf(m, g.pairs@, g.ranges@)
                &&& r.start <= idx <= hi
                &&& hi == r.end
                &&& (idx < hi ==> x == g.pairs@[idx as int].words[1])
                &&& (idx == hi ==> x == n)
            }),
            n == words@.len(),
            m == masks_of(words@),
            m.len() == n,
            prefix@ == p,
            p == old(prefix)@,
            depth == l,
            l <= 4,
            is_combo(m, p, l as nat),
            acc == union_mask(m, p),
            from == (if l == 0 { 0 } else { p.last() + 1 }),
            seen_wf(m, sn, counts@, out@),
            forall|j: int| 1 <= j <= l ==> #[trigger] sn[j] == seen[j],
            forall|j: int| l < j <= 5 ==>
                (#[trigger] sn[j]).to_set() == seen[j].to_set().union(ext_below(m, p, j as nat, x as int)),
            forall|j: int, i: int| l < j <= 5 && 0 <= i < seen[j].len() ==>
                !ext(m, p, j as nat).contains(#[trigger] seen[j][i]),
            seen.len() == 6,
        decreases n - x,
    {
        let wx = words[x].letters;
        if acc & wx == 0 {
            let ghost q = p.push(x);
            proof {
                if l > 0 {
                    assert(p.last() < x);
                }
                lemma_extend_combo(m, p, l as nat, x);
                // q was not met before
                assert(!sn[l + 1].contains(q)) by {
                    if sn[l + 1].contains(q) {
                        assert(sn[l + 1].to_set().contains(q));
                        if seen[l + 1].to_set().contains(q) {
                            let i = choose|i: int| 0 <= i < seen[l + 1].len() && #[trigger] seen[l + 1][i] == q;
                            assert(q.take(l as int) =~= p);
                            assert(ext(m, p, (l + 1) as nat).contains(q));
                        } else {
                            assert(ext_below(m, p, (l + 1) as nat, x as int).contains(q));
                            assert(q[l as int] == x);
                        }
                    }
                }
            }
            let ghost s1 = sn[l + 1].push(q);
            proof {
                assert forall|a: int, b: int| 0 <= a < b < s1.len() implies s1[a] != s1[b] by {
                    if b < s1.len() - 1 {
                        assert(sn[l + 1][a] != sn[l + 1][b]);
                    } else {
                        assert(sn[l + 1][a] != q);
                    }
                }
                assert forall|i: int| 0 <= i < s1.len() implies is_combo(m, #[trigger] s1[i], (l + 1) as nat) by {
                    if i < s1.len() - 1 {
                        assert(s1[i] == sn[l + 1][i]);
                    }
                }
            }
            if counts[depth] >= u32::MAX as usize {
                proof {
                    assert(s1.no_duplicates() && s1.len() > u32::MAX && forall|i: int|
                        0 <= i < s1.len() ==> is_combo(m, #[trigger] s1[i], (l + 1) as nat));
                    assert(too_many(m, (l + 1) as nat));
                }
                return (Err(SearchError::TooManyCombinations), Ghost(sn));
            }
            let cnt = counts[depth] + 1;
            counts.set(depth, cnt);
            prefix.push(x);
            let ghost sn_before = sn;
            let ghost out_before = out@;
            proof {
                sn = sn.update(l + 1, s1);
                if depth < 4 {
                    assert(sn[5] == sn_before[5]);
                }
            }
            let ghost sn_mid = sn;
            if depth == 4 {
                let ids = copy_ids(prefix);
                out.push(ids);
                proof {
                    assert(ids_of(out@) =~= ids_of(out_before).push(q));
                    assert(seen_wf(m, sn, counts@, out@));
                }
            } else {
                proof {
                    assert forall|j: int, i: int| l + 1 < j <= 5 && 0 <= i < sn[j].len() implies
                        !ext(m, q, j as nat).contains(#[trigger] sn[j][i]) by {
                        let c = sn[j][i];
                        if ext(m, q, j as nat).contains(c) {
                            assert(c.take(l as int + 1) == q);
                            assert(c.take(l as int) =~= c.take(l as int + 1).take(l as int));
                            assert(q.take(l as int) =~= p);
                            assert(ext(m, p, j as nat).contains(c));
                            assert(sn[j].to_set().contains(c));
                            if seen[j].to_set().contains(c) {
                                let i2 = choose|i2: int| 0 <= i2 < seen[j].len() && #[trigger] seen[j][i2] == c;
                            } else {
                                assert(ext_below(m, p, j as nat, x as int).contains(c));
                                assert(c.take(l as int + 1)[l as int] == c[l as int]);
                            }
                        }
                    }
                }
                let (rr, Ghost(sn2)) = extend(words, graph, prefix, acc | wx, x + 1, counts, out, Ghost(sn));
                match rr {
                    Ok(_) => {},
                    Err(e) => {
                        return (Err(e), Ghost(sn2));
                    },
                }
                proof {
                    sn = sn2;
                }
            }
            prefix.pop();
            proof {
                assert(prefix@ =~= p);
                sn_before[l + 1].lemma_push_to_set_commute(q);
                assert forall|j: int| l < j <= 5 implies (#[trigger] sn[j]).to_set() == seen[j].to_set().union(
                    ext_below(m, p, j as nat, x + 1)) by {
                    lemma_ext_split(m, p, j as nat, x);
                    if j == l + 1 {
                        assert forall|c: Seq<usize>| is_combo(m, c, j as nat) && #[trigger] c.take(l + 1) == q implies c == q by {
                            assert(c.take(l + 1) =~= c);
                        }
                        assert(q.take(l) =~= p);
                        assert(ext_below(m, p, j as nat, x + 1) =~= ext_below(m, p, j as nat, x as int).insert(q));
                        assert(sn[j] == s1);
                        assert(sn[j].to_set() =~= seen[j].to_set().union(ext_below(m, p, j as nat, x + 1)));
                    } else {
                        assert(sn_mid[j] == sn_before[j]);
                        assert(ext_below(m, p, j as nat, x + 1) =~= ext_below(m, p, j as nat, x as int).union(ext(m, q, j as nat)));
                        assert(sn[j].to_set() =~= seen[j].to_set().union(ext_below(m, p, j as nat, x + 1)));
                    }
                }
                assert forall|j: int| 1 <= j <= l implies #[trigger] sn[j] == seen[j] by {
                    assert(sn_mid[j] == sn_before[j]);
                }
            }
        } else {
            proof {
                assert forall|j: int, c: Seq<usize>| l < j <= 5 && #[trigger] is_combo(m, c, j as nat) implies
                    c.take(l as int + 1) != p.push(x) by {
                    if c.take(l as int + 1) == p.push(x) {
                        lemma_ext_needs_disjoint(m, p, c, j as nat, x);
                    }
                }
                assert forall|j: int| l < j <= 5 implies (#[trigger] sn[j]).to_set() == seen[j].to_set().union(
                    ext_below(m, p, j as nat, x + 1)) by {
                    lemma_ext_split(m, p, j as nat, x);
                    assert(ext_below(m, p, j as nat, x + 1) =~= ext_below(m, p, j as nat, x as int));
                }
            }
        }
        if use_pairs {
            let g = graph.unwrap();
            idx = idx + 1;
            let nx = if idx < hi { g.pairs[idx].words[1] } else { n };
            proof {
                let a = p.last() as int;
                let r = g.ranges@[a];
                assert(r.start <= idx - 1 < r.end);
                assert(g.pairs@[idx - 1].words[0] == a);
                if idx < hi {
                    assert(g.pairs@[idx - 1].words[1] < g.pairs@[idx as int].words[1]);
                }
                assert forall|y: int| x + 1 <= y < nx implies m[p.last() as int] & #[trigger] m[y] != 0 by {
                    assert(l >= 1);
                    assert(p[l - 1] < m.len());
                    lemma_no_pair_between(m, g.pairs@, g.ranges@, a, idx as int, y);
                }
                assert forall|j: int| l < j <= 5 implies (#[trigger] sn[j]).to_set() == seen[j].to_set().union(
                    ext_below(m, p, j as nat, nx as int)) by {
                    lemma_gap(m, p, j as nat, x + 1, nx as int);
                }
            }
            x = nx;
        } else {
            x = x + 1;
        }
    }
    proof {
        assert forall|j: int| l < j <= 5 implies (#[trigger] sn[j]).to_set() == seen[j].to_set().union(
            ext(m, p, j as nat)) by {
            assert(ext_below(m, p, j as nat, n as int) =~= ext(m, p, j as nat));
        }
    }
    (Ok(()), Ghost(sn))
}

/// Starting from nothing, a level that met every combination extending the
/// empty prefix met every valid combination of its size.
proof fn lemma_all_met(m: Seq<u32>, seen: Seq<Seq<Seq<usize>>>, sn: Seq<Seq<Seq<usize>>>, k: nat)
    requires
        1 <= k <= 5,
        seen.len() == 6,
        seen[k as int] == Seq::<Seq<usize>>::empty(),
        sn[k as int].no_duplicates(),
        sn[k as int].to_set() == seen[k as int].to_set().union(ext(m, Seq::empty(), k)),
    ensures
        sn[k as int].to_set() == combos(m, k),
        combos(m, k).finite(),
        sn[k as int].len() == combos(m, k).len(),
{
    vstd::seq_lib::seq_to_set_is_finite(sn[k as int]);
    assert forall|c: Seq<usize>| #[trigger] ext(m, Seq::empty(), k).contains(c) <==> combos(m, k).contains(c) by {
        assert(c.take(0) =~= Seq::<usize>::empty());
    }
    assert(ext(m, Seq::empty(), k) =~= combos(m, k));
    assert(seen[k as int].to_set() =~= Set::empty());
    assert(sn[k as int].to_set() =~= combos(m, k));
    sn[k as int].unique_seq_to_set();
}

/// Finds every set of five words with pairwise disjoint letters by trying
/// each word after each partial combination, depth first. Slower than the
/// level-order search, it is the plain statement of the same result.
pub fn find_sets_of_5_dumb_loop(words: &Vec<Word>) -> (r: Result<Search, SearchError>)
    ensures
        r is Err <==> search_overflows(masks_of(words@)),
        r matches Ok(s) ==> search_spec(masks_of(words@), s),
{
    run_depth_first(words, None)
}

/// Finds every set of five words with pairwise disjoint letters, depth
/// first, taking the candidates after a word from the precomputed list of
/// later words disjoint from it instead of from the whole word list.
pub fn find_sets_of_5_pair_graph(words: &Vec<Word>) -> (r: Result<Search, SearchError>)
    ensures
        r is Err <==> search_overflows(masks_of(words@)),
        r matches Ok(s) ==> search_spec(masks_of(words@), s),
{
    let g = match build_pair_graph(words) {
        Ok(g) => g,
        Err(e) => {
            proof {
                assert(too_many(masks_of(words@), 2));
            }
            return Err(e);
        },
    };
    run_depth_first(words, Some(&g))
}

/// The depth-first search from the empty combination, with candidates from
/// `graph` where one is given.
fn run_depth_first(words: &Vec<Word>, graph: Option<&PairGraph>) -> (r: Result<Search, SearchError>)
    requires
        graph matches Some(g) ==> pairs_wf(masks_of(words@), g.pairs@, g.ranges@),
    ensures
        r is Err <==> search_overflows(masks_of(words@)),
        r matches Ok(s) ==> search_spec(masks_of(words@), s),
{
    let ghost m = masks_of(words@);
    let mut prefix: Vec<usize> = Vec::new();
    let mut counts: Vec<usize> = vec![0, 0, 0, 0, 0];
    let mut out: Vec<Vec<usize>> = Vec::new();
    let ghost seen: Seq<Seq<Seq<usize>>> = Seq::new(6, |j: int| Seq::<Seq<usize>>::empty());
    proof {
        assert(ids_of(out@) =~= seen[5]);
        assert(union_mask(m, prefix@) == 0);
    }
    let (r, Ghost(sn)) = extend(words, graph, &mut prefix, 0, 0, &mut counts, &mut out, Ghost(seen));
    match r {
        Ok(_) => {},
        Err(e) => {
            return Err(e);
        },
    }
    proof {
        assert forall|k: int| 1 <= k <= 5 implies #[trigger] counts@[k - 1] == combos(m, k as nat).len() by {
            lemma_all_met(m, seen, sn, k as nat);
        }
        assert forall|k: nat| 1 <= k <= 5 implies #[trigger] combos(m, k).finite() by {
            lemma_all_met(m, seen, sn, k);
        }
        lemma_all_met(m, seen, sn, 5);
    }
    let s = Search { combos: out, level_counts: counts };
    proof {
        assert forall|k: int| 0 <= k < 5 implies #[trigger] s.level_counts@[k] <= u32::MAX by {
            assert(sn[k + 1].len() <= u32::MAX);
            assert(s.level_counts@[(k + 1) - 1] == sn[k + 1].len());
        }
        lemma_fitting_counts_do_not_overflow(m, s);
    }
    Ok(s)
}

} // verus!
