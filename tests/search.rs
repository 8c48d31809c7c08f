use five_words::dedup::{dedup_anagrams, prepare_words};
use five_words::emit::combo_words;
use five_words::depth_first::{find_sets_of_5_dumb_loop, find_sets_of_5_pair_graph};
use five_words::letters::{count_ones, encode_word, letter_mask, Word, WordError};
use five_words::pairs::build_pair_graph;
use five_words::range::Range;
use five_words::search::{find_sets_of_5_dynamic, SearchError};

fn texts(ws: &[&str]) -> Vec<[u8; 5]> {
    ws.iter()
        .map(|w| {
            let b = w.as_bytes();
            [b[0], b[1], b[2], b[3], b[4]]
        })
        .collect()
}

fn words(ws: &[&str]) -> Vec<Word> {
    prepare_words(&texts(ws)).unwrap()
}

#[test]
fn five_disjoint_words_give_one_set() {
    let ws = words(&["ABCDE", "FGHIJ", "KLMNO", "PQRST", "UVWXY"]);
    assert_eq!(ws.len(), 5);
    let s = find_sets_of_5_dynamic(&ws).unwrap();
    assert_eq!(s.combos, vec![vec![0, 1, 2, 3, 4]]);
    assert_eq!(s.level_counts, vec![5, 10, 10, 5, 1]);
    let t = combo_words(&ws, &s.combos[0]);
    assert_eq!(t, texts(&["ABCDE", "FGHIJ", "KLMNO", "PQRST", "UVWXY"]));
}

#[test]
fn overlapping_words_give_no_pairs() {
    let ws = words(&["ABCDE", "ABCDF"]);
    let s = find_sets_of_5_dynamic(&ws).unwrap();
    assert_eq!(s.level_counts, vec![2, 0, 0, 0, 0]);
    assert!(s.combos.is_empty());
}

#[test]
fn anagrams_collapse_to_first() {
    let ws = words(&["ABCDE", "EDCBA"]);
    assert_eq!(ws.len(), 1);
    assert_eq!(&ws[0].text, b"ABCDE");
    let ws = words(&["EDCBA", "ABCDE", "BCDEA"]);
    assert_eq!(ws.len(), 1);
    assert_eq!(&ws[0].text, b"EDCBA");
}

#[test]
fn dedup_keeps_input_order() {
    let enc: Vec<Word> = texts(&["FGHIJ", "ABCDE", "JIHGF", "KLMNO", "EDCBA"])
        .into_iter()
        .map(|t| encode_word(t).unwrap().unwrap())
        .collect();
    let d = dedup_anagrams(&enc);
    let kept: Vec<[u8; 5]> = d.iter().map(|w| w.text).collect();
    assert_eq!(kept, texts(&["FGHIJ", "ABCDE", "KLMNO"]));
}

#[test]
fn six_words_two_sets() {
    // ZABCD can replace ABCDE.
    let ws = words(&["ABCDE", "FGHIJ", "KLMNO", "PQRST", "UVWXY", "ZABCD"]);
    let s = find_sets_of_5_dynamic(&ws).unwrap();
    assert_eq!(s.combos, vec![vec![0, 1, 2, 3, 4], vec![1, 2, 3, 4, 5]]);
    // sizes: 6 words; pairs: 15 minus the one overlapping pair
    assert_eq!(s.level_counts, vec![6, 14, 16, 9, 2]);
}

#[test]
fn search_twice_gives_same_result() {
    let ws = words(&["ABCDE", "FGHIJ", "KLMNO", "PQRST", "UVWXY", "ZABCD", "EFGHK"]);
    let a = find_sets_of_5_dynamic(&ws).unwrap();
    let b = find_sets_of_5_dynamic(&ws).unwrap();
    assert_eq!(a.combos, b.combos);
    assert_eq!(a.level_counts, b.level_counts);
}

#[test]
fn reported_sets_use_25_letters() {
    let ws = words(&["ABCDE", "FGHIJ", "KLMNO", "PQRST", "UVWXY", "ZABCD", "VWXYZ"]);
    let s = find_sets_of_5_dynamic(&ws).unwrap();
    assert!(!s.combos.is_empty());
    for c in &s.combos {
        let mut all = 0u32;
        for a in 0..5 {
            for b in (a + 1)..5 {
                assert!(c[a] < c[b]);
                assert_eq!(ws[c[a]].letters & ws[c[b]].letters, 0);
            }
            all |= ws[c[a]].letters;
        }
        assert_eq!(all.count_ones(), 25);
    }
}

#[test]
fn empty_input_gives_nothing() {
    let s = find_sets_of_5_dynamic(&Vec::new()).unwrap();
    assert!(s.combos.is_empty());
    assert_eq!(s.level_counts, vec![0, 0, 0, 0, 0]);
    assert_ne!(Err::<(), SearchError>(SearchError::TooManyCombinations), Ok(()));
}

#[test]
fn letter_mask_ignores_case() {
    assert_eq!(letter_mask(b"abcde"), Ok(0b11111));
    assert_eq!(letter_mask(b"ABCDE"), Ok(0b11111));
    assert_eq!(letter_mask(b"zZyYa"), Ok((1 << 25) | (1 << 24) | 1));
}

#[test]
fn invalid_character_is_an_error() {
    assert_eq!(letter_mask(b"ab1de"), Err(WordError::InvalidCharacter));
    assert!(matches!(encode_word(*b"ab de"), Err(WordError::InvalidCharacter)));
    assert!(matches!(prepare_words(&texts(&["ABCDE", "AB-DE"])), Err(WordError::InvalidCharacter)));
}

#[test]
fn repeated_letter_is_dropped() {
    assert!(matches!(encode_word(*b"APPLE"), Ok(None)));
    let w = encode_word(*b"Crane").unwrap().unwrap();
    assert_eq!(w.letters, (1 << 2) | (1 << 17) | (1 << 0) | (1 << 13) | (1 << 4));
    assert_eq!(words(&["APPLE", "CRANE", "LLAMA"]).len(), 1);
}

#[test]
fn count_ones_counts_bits() {
    assert_eq!(count_ones(0), 0);
    assert_eq!(count_ones(0b1011), 3);
    assert_eq!(count_ones(u32::MAX), 32);
}

#[test]
fn range_bounds() {
    let r = Range::from_usize(3, 10);
    assert_eq!((r.start, r.end), (3, 10));
    assert_eq!(r.len(), 7);
    let e = Range::empty();
    assert_eq!((e.start, e.end, e.len()), (0, 0, 0));
}

fn sorted(mut v: Vec<Vec<usize>>) -> Vec<Vec<usize>> {
    v.sort();
    v
}

#[test]
fn naive_search_matches_tree_search() {
    let lists: Vec<Vec<&str>> = vec![
        vec![],
        vec!["ABCDE", "ABCDF"],
        vec!["ABCDE", "FGHIJ", "KLMNO", "PQRST", "UVWXY"],
        vec!["ABCDE", "FGHIJ", "KLMNO", "PQRST", "UVWXY", "ZABCD", "VWXYZ", "EFGHK", "LMNOP", "QRSTU"],
        vec!["fjord", "gucks", "nymph", "vibex", "waltz", "glent", "brick", "jumpy", "vozhd", "waqfs", "crane"],
    ];
    for l in lists {
        let ws = words(&l);
        let a = find_sets_of_5_dumb_loop(&ws).unwrap();
        let b = find_sets_of_5_dynamic(&ws).unwrap();
        let c = find_sets_of_5_pair_graph(&ws).unwrap();
        assert_eq!(sorted(a.combos.clone()), sorted(b.combos.clone()));
        assert_eq!(a.level_counts, b.level_counts);
        assert_eq!(sorted(c.combos.clone()), sorted(b.combos.clone()));
        assert_eq!(c.level_counts, b.level_counts);
    }
}

#[test]
fn naive_search_finds_known_sets() {
    let ws = words(&["fjord", "gucks", "nymph", "vibex", "waltz", "glent", "brick", "jumpy", "vozhd", "waqfs"]);
    let s = find_sets_of_5_dumb_loop(&ws).unwrap();
    let mut found: Vec<Vec<[u8; 5]>> = s.combos.iter().map(|c| combo_words(&ws, c)).collect();
    found.sort();
    assert_eq!(
        found,
        vec![
            texts(&["fjord", "gucks", "nymph", "vibex", "waltz"]),
            texts(&["glent", "brick", "jumpy", "vozhd", "waqfs"]),
        ]
    );
    assert_eq!(s.level_counts[0], 10);
}

#[test]
fn naive_search_on_five_disjoint_words() {
    let ws = words(&["ABCDE", "FGHIJ", "KLMNO", "PQRST", "UVWXY"]);
    let s = find_sets_of_5_dumb_loop(&ws).unwrap();
    assert_eq!(s.combos, vec![vec![0, 1, 2, 3, 4]]);
    assert_eq!(s.level_counts, vec![5, 10, 10, 5, 1]);
}

#[test]
fn pair_graph_lists_later_disjoint_words() {
    let ws = words(&["ABCDE", "FGHIJ", "ABCDF", "KLMNO"]);
    let g = build_pair_graph(&ws).unwrap();
    let pairs: Vec<[usize; 2]> = g.pairs.iter().map(|p| p.words).collect();
    // FGHIJ and ABCDF share F.
    assert_eq!(pairs, vec![[0, 1], [0, 3], [1, 3], [2, 3]]);
    let ranges: Vec<(u32, u32)> = g.ranges.iter().map(|r| (r.start, r.end)).collect();
    assert_eq!(ranges, vec![(0, 2), (2, 3), (3, 4), (4, 4)]);
}

#[test]
fn pair_graph_search_on_five_disjoint_words() {
    let ws = words(&["ABCDE", "FGHIJ", "KLMNO", "PQRST", "UVWXY"]);
    let s = find_sets_of_5_pair_graph(&ws).unwrap();
    assert_eq!(s.combos, vec![vec![0, 1, 2, 3, 4]]);
    assert_eq!(s.level_counts, vec![5, 10, 10, 5, 1]);
}
