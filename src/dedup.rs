use vstd::prelude::*;
use crate::letters::{Word, WordError, masks_of, mask_of, admitted, all_alpha, encode_word, popcount};

verus! {

/// The words of `ws` whose letter set no earlier word of `ws` has, in input
/// order: of each group of anagrams, the first.
pub open spec fn dedup_spec(ws: Seq<Word>) -> Seq<Word>
    decreases ws.len(),
{
    if ws.len() == 0 {
        Seq::empty()
    } else {
        let d = dedup_spec(ws.drop_last());
        if masks_of(ws.drop_last()).contains(ws.last().letters) {
            d
        } else {
            d.push(ws.last())
        }
    }
}

/// Keeps the first word of each group of words with the same letter set.
pub fn dedup_anagrams(words: &Vec<Word>) -> (r: Vec<Word>)
    ensures
        r@ == dedup_spec(words@),
{
    let mut out: Vec<Word> = Vec::new();
    for i in 0..words.len()
        invariant
            out@ == dedup_spec(words@.take(i as int)),
    {
        let w = words[i];
        let mut seen = false;
        let mut j: usize = 0;
        while j < i && !seen
            invariant
                j <= i < words@.len(),
                w == words@[i as int],
                seen <==> exists|t: int| 0 <= t < j && (#[trigger] words@[t]).letters == w.letters,
            decreases i - j,
        {
            if words[j].letters == w.letters {
                seen = true;
            }
            j = j + 1;
        }
        proof {
            let p = words@.take(i as int);
            assert(words@.take(i + 1).drop_last() =~= p);
            assert(words@.take(i + 1).last() == w);
            if seen {
                let t = choose|t: int| 0 <= t < j && (#[trigger] words@[t]).letters == w.letters;
                assert(masks_of(p)[t] == w.letters);
            } else {
                assert forall|t: int| 0 <= t < p.len() implies masks_of(p)[t] != w.letters by {
                    assert(words@[t].letters != w.letters);
                }
            }
        }
        if !seen {
            out.push(w);
        }
    }
    assert(words@.take(words@.len() as int) =~= words@);
    out
}

/// The admitted words among `texts`, encoded, in input order.
pub open spec fn admitted_words(texts: Seq<[u8; 5]>) -> Seq<Word>
    decreases texts.len(),
{
    if texts.len() == 0 {
        Seq::empty()
    } else {
        let d = admitted_words(texts.drop_last());
        let t = texts.last();
        if admitted(t@) {
            d.push(Word { text: t, letters: mask_of(t@) })
        } else {
            d
        }
    }
}

/// Encodes `texts`, drops the words that repeat a letter, and keeps the
/// first word of each group of anagrams. Fails if any text holds a byte
/// that is not an ASCII letter.
pub fn prepare_words(texts: &Vec<[u8; 5]>) -> (r: Result<Vec<Word>, WordError>)
    ensures
        r is Err <==> exists|i: int| 0 <= i < texts@.len() && !all_alpha((#[trigger] texts@[i])@),
        r matches Ok(ws) ==> ws@ == dedup_spec(admitted_words(texts@)),
{
    let mut enc: Vec<Word> = Vec::new();
    for i in 0..texts.len()
        invariant
            forall|t: int| 0 <= t < i ==> all_alpha((#[trigger] texts@[t])@),
            enc@ == admitted_words(texts@.take(i as int)),
    {
        let t = texts[i];
        assert(texts@.take(i + 1).drop_last() =~= texts@.take(i as int));
        assert(texts@.take(i + 1).last() == t);
        match encode_word(t) {
            Err(e) => {
                return Err(e);
            },
            Ok(Some(w)) => {
                enc.push(w);
            },
            Ok(None) => {},
        }
    }
    assert(texts@.take(texts@.len() as int) =~= texts@);
    Ok(dedup_anagrams(&enc))
}

/// Anagram collapse keeps one word per letter set: the letter sets of the
/// kept words are pairwise different, each kept word is the first word of
/// the input with its letter set, and every letter set of the input is kept.
pub proof fn lemma_dedup_keeps_first(ws: Seq<Word>)
    ensures
        masks_of(dedup_spec(ws)).no_duplicates(),
        forall|i: int| 0 <= i < dedup_spec(ws).len() ==> exists|t: int|
            0 <= t < ws.len() && ws[t] == #[trigger] dedup_spec(ws)[i] && forall|u: int|
                0 <= u < t ==> (#[trigger] ws[u]).letters != ws[t].letters,
        forall|t: int| 0 <= t < ws.len() ==> masks_of(dedup_spec(ws)).contains((#[trigger] ws[t]).letters),
    decreases ws.len(),
{
    if ws.len() > 0 {
        let p = ws.drop_last();
        let d = dedup_spec(p);
        let w = ws.last();
        lemma_dedup_keeps_first(p);
        assert forall|t: int| 0 <= t < p.len() implies p[t] == ws[t] by {}
        if masks_of(p).contains(w.letters) {
            assert forall|t: int| 0 <= t < ws.len() implies masks_of(dedup_spec(ws)).contains((#[trigger] ws[t]).letters) by {
                if t == ws.len() - 1 {
                    let u = choose|u: int| 0 <= u < p.len() && masks_of(p)[u] == w.letters;
                    assert(masks_of(d).contains(p[u].letters));
                } else {
                    assert(masks_of(d).contains(p[t].letters));
                }
            }
            assert forall|i: int| 0 <= i < dedup_spec(ws).len() implies exists|t: int|
                0 <= t < ws.len() && ws[t] == #[trigger] dedup_spec(ws)[i] && forall|u: int|
                    0 <= u < t ==> (#[trigger] ws[u]).letters != ws[t].letters by {
                let t = choose|t: int| 0 <= t < p.len() && p[t] == #[trigger] d[i] && forall|u: int|
                    0 <= u < t ==> (#[trigger] p[u]).letters != p[t].letters;
                assert forall|u: int| 0 <= u < t implies (#[trigger] ws[u]).letters != ws[t].letters by {
                    assert(p[u] == ws[u]);
                }
            }
        } else {
            let e = d.push(w);
            assert(dedup_spec(ws) == e);
            assert forall|i: int| 0 <= i < d.len() implies masks_of(d)[i] != w.letters by {
                let t = choose|t: int| 0 <= t < p.len() && p[t] == #[trigger] d[i] && forall|u: int|
                    0 <= u < t ==> (#[trigger] p[u]).letters != p[t].letters;
                assert(masks_of(p)[t] == p[t].letters);
            }
            assert(masks_of(e) =~= masks_of(d).push(w.letters));
            assert forall|a: int, b: int| 0 <= a < b < masks_of(e).len() implies masks_of(e)[a] != masks_of(e)[b] by {
                if b < d.len() {
                    assert(masks_of(d)[a] != masks_of(d)[b]);
                } else {
                    assert(masks_of(d)[a] != w.letters);
                }
            }
            assert forall|t: int| 0 <= t < ws.len() implies masks_of(e).contains((#[trigger] ws[t]).letters) by {
                if t == ws.len() - 1 {
                    assert(masks_of(e)[d.len() as int] == w.letters);
                } else {
                    assert(masks_of(d).contains(p[t].letters));
                    let y = choose|y: int| 0 <= y < d.len() && masks_of(d)[y] == p[t].letters;
                    assert(masks_of(e)[y] == p[t].letters);
                }
            }
            assert forall|i: int| 0 <= i < e.len() implies exists|t: int|
                0 <= t < ws.len() && ws[t] == #[trigger] e[i] && forall|u: int|
                    0 <= u < t ==> (#[trigger] ws[u]).letters != ws[t].letters by {
                if i == d.len() {
                    let t = ws.len() - 1;
                    assert forall|u: int| 0 <= u < t implies (#[trigger] ws[u]).letters != ws[t].letters by {
                        assert(masks_of(p)[u] == p[u].letters);
                    }
                    assert(ws[t] == e[i]);
                } else {
                    assert(e[i] == d[i]);
                    let t = choose|t: int| 0 <= t < p.len() && p[t] == #[trigger] d[i] && forall|u: int|
                        0 <= u < t ==> (#[trigger] p[u]).letters != p[t].letters;
                    assert forall|u: int| 0 <= u < t implies (#[trigger] ws[u]).letters != ws[t].letters by {
                        assert(p[u] == ws[u]);
                    }
                    assert(ws[t] == e[i]);
                }
            }
        }
    }
}

/// Every word that reaches the search uses exactly five distinct letters.
pub proof fn lemma_prepared_words_have_five_letters(texts: Seq<[u8; 5]>)
    ensures
        forall|i: int| 0 <= i < dedup_spec(admitted_words(texts)).len() ==>
            popcount((#[trigger] dedup_spec(admitted_words(texts))[i]).letters) == 5,
{
    let ws = admitted_words(texts);
    lemma_admitted_have_five_letters(texts);
    lemma_dedup_keeps_first(ws);
    assert forall|i: int| 0 <= i < dedup_spec(ws).len() implies popcount((#[trigger] dedup_spec(ws)[i]).letters) == 5 by {
        let t = choose|t: int| 0 <= t < ws.len() && ws[t] == #[trigger] dedup_spec(ws)[i] && forall|u: int|
            0 <= u < t ==> (#[trigger] ws[u]).letters != ws[t].letters;
    }
}

proof fn lemma_admitted_have_five_letters(texts: Seq<[u8; 5]>)
    ensures
        forall|i: int| 0 <= i < admitted_words(texts).len() ==> popcount((#[trigger] admitted_words(texts)[i]).letters) == 5,
    decreases texts.len(),
{
    if texts.len() > 0 {
        let d = admitted_words(texts.drop_last());
        lemma_admitted_have_five_letters(texts.drop_last());
        let t = texts.last();
        if admitted(t@) {
            let e = d.push(Word { text: t, letters: mask_of(t@) });
            assert forall|i: int| 0 <= i < e.len() implies popcount((#[trigger] e[i]).letters) == 5 by {
                if i < d.len() {
                    assert(e[i] == d[i]);
                }
            }
        }
    }
}

} // verus!
