use vstd::prelude::*;

verus! {

/// The number of set bits of a mask.
pub open spec fn popcount(m: u32) -> nat
    decreases m,
{
    if m == 0 {
        0
    } else {
        (m % 2) as nat + popcount(m / 2)
    }
}

proof fn lemma_popcount_le(m: u32)
    ensures
        popcount(m) <= m,
    decreases m,
{
    if m != 0 {
        lemma_popcount_le(m / 2);
    }
}

/// Counts the set bits of `m`.
pub fn count_ones(m: u32) -> (r: u32)
    ensures
        r == popcount(m),
{
    proof {
        lemma_popcount_le(m);
    }
    let mut x: u32 = m;
    let mut c: u32 = 0;
    while x != 0
        invariant
            c + popcount(x) == popcount(m),
            popcount(m) <= u32::MAX,
        decreases x,
    {
        proof {
            lemma_popcount_le(x / 2);
        }
        c = c + x % 2;
        x = x / 2;
    }
    c
}

} // verus!

verus! {

/// A five-letter word together with the set of letters it uses.
#[derive(Clone, Copy, Debug)]
pub struct Word {
    pub text: [u8; 5],
    pub letters: u32,
}

/// The letter masks of a sequence of words.
pub open spec fn masks_of(ws: Seq<Word>) -> Seq<u32> {
    ws.map_values(|w: Word| w.letters)
}

/// Errors of word encoding.
#[derive(Clone, Copy, Debug, PartialEq, Eq, Structural)]
pub enum WordError {
    /// A byte of the word is not an ASCII letter.
    InvalidCharacter,
}

/// `c` is an ASCII letter of either case.
pub open spec fn is_alpha(c: u8) -> bool {
    (65 <= c <= 90) || (97 <= c <= 122)
}

/// The alphabet position of an ASCII letter, ignoring case.
pub open spec fn letter_index(c: u8) -> u32 {
    if c >= 97 {
        (c - 97) as u32
    } else {
        (c - 65) as u32
    }
}

/// The set of letters used by `s`, one bit per alphabet position.
pub open spec fn mask_of(s: Seq<u8>) -> u32
    decreases s.len(),
{
    if s.len() == 0 {
        0
    } else {
        mask_of(s.drop_last()) | (1u32 << letter_index(s.last()))
    }
}

/// Every byte of `s` is an ASCII letter.
pub open spec fn all_alpha(s: Seq<u8>) -> bool {
    forall|i: int| 0 <= i < s.len() ==> is_alpha(#[trigger] s[i])
}

/// Folds the letters of `text`, case-insensitively, into a mask.
pub fn letter_mask(text: &[u8; 5]) -> (r: Result<u32, WordError>)
    ensures
        r is Ok <==> all_alpha(text@),
        r matches Ok(m) ==> m == mask_of(text@),
{
    let mut acc: u32 = 0;
    let mut i: usize = 0;
    while i < 5
        invariant
            i <= 5,
            text@.len() == 5,
            all_alpha(text@.take(i as int)),
            acc == mask_of(text@.take(i as int)),
        decreases 5 - i,
    {
        let c = text[i];
        if !((65 <= c && c <= 90) || (97 <= c && c <= 122)) {
            assert(!is_alpha(text@[i as int]));
            return Err(WordError::InvalidCharacter);
        }
        let idx: u32 = if c >= 97 { (c - 97) as u32 } else { (c - 65) as u32 };
        acc = acc | (1u32 << idx);
        assert(text@.take(i + 1).drop_last() =~= text@.take(i as int));
        assert forall|t: int| 0 <= t < i + 1 implies is_alpha(#[trigger] text@.take(i + 1)[t]) by {
            if t < i {
                assert(text@.take(i + 1)[t] == text@.take(i as int)[t]);
            }
        }
        i = i + 1;
    }
    assert(text@.take(5) =~= text@);
    Ok(acc)
}

/// `text` is admitted to the search: its letters are five distinct ones.
pub open spec fn admitted(text: Seq<u8>) -> bool {
    all_alpha(text) && popcount(mask_of(text)) == 5
}

/// Encodes a word, or gives `None` for one that repeats a letter.
pub fn encode_word(text: [u8; 5]) -> (r: Result<Option<Word>, WordError>)
    ensures
        r is Err <==> !all_alpha(text@),
        r matches Ok(Some(w)) ==> w.text == text && w.letters == mask_of(text@) && popcount(w.letters) == 5,
        r matches Ok(o) ==> (o is Some <==> admitted(text@)),
{
    let m = match letter_mask(&text) {
        Ok(m) => m,
        Err(e) => return Err(e),
    };
    if count_ones(m) != 5 {
        return Ok(None);
    }
    Ok(Some(Word { text, letters: m }))
}

} // verus!
