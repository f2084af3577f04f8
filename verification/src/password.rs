//! Passphrases made of words picked at random from a word list.

use vstd::prelude::*;

use rand::rngs::ThreadRng;
use rand::seq::IndexedRandom;

use crate::text::{joined, push_joined};

verus! {

#[verifier::external_type_specification]
#[verifier::external_body]
pub struct ExThreadRng(ThreadRng);

/// How many words a passphrase has.
pub const WORD_COUNT: usize = 6;

/// `IndexedRandom::choose` of `rand` on a non-empty slice of words: one of the
/// words. Which one is left to chance, so only that it is one of them is
/// stated.
#[verifier::external_body]
fn choose_word<'a>(words: &[&'a str], rng: &mut ThreadRng) -> (word: &'a str)
    requires
        words.len() > 0,
    ensures
        words@.map_values(|w: &str| w@).contains(word@),
{
    *words.choose(rng).expect("the word list is not empty")
}

/// Whether `phrase` is `n` of `words`, each picked from the list, joined by
/// hyphens.
pub open spec fn is_passphrase(phrase: Seq<char>, words: Seq<&str>, n: nat) -> bool {
    exists|picks: Seq<int>|
        picks.len() == n && (forall|k: int| 0 <= k < n ==> 0 <= #[trigger] picks[k] < words.len())
            && phrase == joined(picks.map_values(|p: int| words[p]@), "-"@)
}

/// A passphrase of `n` words picked at random from `words`, joined by
/// hyphens. The list may be empty only when no word is wanted.
pub fn generate(words: &[&str], n: usize, rng: &mut ThreadRng) -> (phrase: String)
    requires
        n > 0 ==> words.len() > 0,
    ensures
        is_passphrase(phrase@, words@, n as nat),
{
    let mut picked: Vec<String> = Vec::new();
    let ghost mut picks: Seq<int> = Seq::empty();
    let mut k: usize = 0;
    while k < n
        invariant
            k <= n,
            n > 0 ==> words.len() > 0,
            picks.len() == k,
            picked.len() == k,
            forall|j: int| 0 <= j < k ==> 0 <= #[trigger] picks[j] < words.len(),
            picked@.map_values(|word: String| word@) == picks.map_values(|p: int| words@[p]@),
        decreases n - k,
    {
        let word = choose_word(words, rng);
        let ghost views = words@.map_values(|w: &str| w@);
        let ghost i = choose|i: int| 0 <= i < views.len() && #[trigger] views[i] == word@;
        let owned = word.to_owned();
        proof {
            assert(views[i] == words@[i]@);
            let before = picks.map_values(|p: int| words@[p]@);
            picks = picks.push(i);
            assert(picks.map_values(|p: int| words@[p]@) =~= before.push(owned@));
            assert(picked@.push(owned).map_values(|word: String| word@) =~= picks.map_values(
                |p: int| words@[p]@,
            ));
        }
        picked.push(owned);
        k = k + 1;
    }
    let mut phrase = String::new();
    push_joined(&mut phrase, &picked, "-");
    proof {
        assert(phrase@ =~= joined(picks.map_values(|p: int| words@[p]@), "-"@));
    }
    phrase
}

} // verus!
