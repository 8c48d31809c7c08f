use vstd::prelude::*;
use crate::letters::Word;

verus! {

/// The texts of the words with ids `ids`, in the same order.
pub fn combo_words(words: &Vec<Word>, ids: &Vec<usize>) -> (r: Vec<[u8; 5]>)
    requires
        forall|i: int| 0 <= i < ids@.len() ==> #[trigger] ids@[i] < words@.len(),
    ensures
        r@.len() == ids@.len(),
        forall|i: int| 0 <= i < ids@.len() ==> #[trigger] r@[i] == words@[ids@[i] as int].text,
{
    let mut r: Vec<[u8; 5]> = Vec::new();
    for i in 0..ids.len()
        invariant
            forall|t: int| 0 <= t < ids@.len() ==> #[trigger] ids@[t] < words@.len(),
            r@.len() == i,
            forall|t: int| 0 <= t < i ==> #[trigger] r@[t] == words@[ids@[t] as int].text,
    {
        r.push(words[ids[i]].text);
    }
    r
}

} // verus!
