//! The candidate-pool engine: a fixed width and the words still
//! consistent with every hint applied so far.

use vstd::prelude::*;

use crate::{
    apply_hints, check_all_hints, hint_in_bounds, hints_in_bounds, lemma_apply_hints_len,
    lemma_apply_hints_push, lemma_shrunk_within_push, lemma_width_filtered_push, pool_after_guess,
    remove_guess, shrunk, shrunk_within, str_equal, superseded, views, width_filtered, Hint, Spot,
};

verus! {

/// A candidate pool of fixed-width words, narrowed by hints.
#[derive(Debug)]
pub struct SimpleSolver {
    pub width: usize,
    pub dict_words: Vec<String>,
}

impl SimpleSolver {
    /// Every word in the pool has exactly `width` characters.
    pub open spec fn wf(self) -> bool {
        forall|i: int|
            0 <= i < self.dict_words@.len() ==> (#[trigger] self.dict_words@[i])@.len()
                == self.width
    }

    /// Builds a pool from the dictionary, keeping exactly the words of
    /// `width` characters, in their dictionary order.
    pub fn new(width: usize, dict_words: &Vec<String>) -> (s: SimpleSolver)
        ensures
            s.width == width,
            views(s.dict_words@) == width_filtered(views(dict_words@), width as nat),
            s.wf(),
    {
        let mut kept: Vec<String> = Vec::new();
        let n: usize = dict_words.len();
        let mut i: usize = 0;
        proof {
            assert(views(dict_words@).take(0) =~= Seq::<Seq<char>>::empty());
            crate::lemma_width_filtered_empty(width as nat);
            assert(views(kept@) =~= Seq::<Seq<char>>::empty());
        }
        while i < n
            invariant
                i <= n,
                n == dict_words@.len(),
                views(kept@) == width_filtered(views(dict_words@).take(i as int), width as nat),
                forall|j: int| 0 <= j < kept@.len() ==> (#[trigger] kept@[j])@.len() == width,
            decreases n - i,
        {
            let word: &String = &dict_words[i];
            proof {
                lemma_width_filtered_push(
                    views(dict_words@).take(i as int),
                    word@,
                    width as nat,
                );
                assert(views(dict_words@).take(i as int).push(word@) =~= views(
                    dict_words@,
                ).take(i + 1));
            }
            if word.as_str().unicode_len() == width {
                let ghost prev = kept@;
                kept.push(word.clone());
                proof {
                    assert(views(kept@) =~= views(prev).push(word@));
                }
            }
            i = i + 1;
        }
        proof {
            assert(views(dict_words@).take(n as int) =~= views(dict_words@));
        }
        SimpleSolver { width, dict_words: kept }
    }

    /// Normalizes a hint batch: drops every `Absent` hint whose letter an
    /// `At` hint of the same batch pins to a position, keeps everything
    /// else in order.
    pub fn shrink_hints(hints: &[Hint]) -> (results: Vec<Hint>)
        ensures
            results@ == shrunk(hints@),
            forall|k: int| 0 <= k < results@.len() ==> hints@.contains(#[trigger] results@[k]),
    {
        let mut results: Vec<Hint> = Vec::new();
        let n: usize = hints.len();
        let mut i: usize = 0;
        proof {
            assert(hints@.take(0) =~= Seq::<Hint>::empty());
            crate::lemma_shrunk_within_empty(hints@);
        }
        while i < n
            invariant
                i <= n,
                n == hints@.len(),
                results@ == shrunk_within(hints@.take(i as int), hints@),
                forall|k: int| 0 <= k < results@.len() ==> hints@.contains(#[trigger] results@[k]),
            decreases n - i,
        {
            let hint: Hint = hints[i];
            proof {
                lemma_shrunk_within_push(hints@.take(i as int), hint, hints@);
                assert(hints@.take(i as int).push(hint) =~= hints@.take(i + 1));
            }
            let dropped: bool = match hint.spot {
                Spot::Absent => Self::has_at_hint(hints, hint.letter),
                _ => false,
            };
            proof {
                assert(dropped == superseded(hint, hints@));
            }
            if !dropped {
                results.push(hint);
                proof {
                    assert(hints@.contains(hint));
                }
            }
            i = i + 1;
        }
        proof {
            assert(hints@.take(n as int) =~= hints@);
        }
        results
    }

    /// Narrows the pool to the words consistent with every hint of the
    /// normalized batch, keeping their order.
    pub fn update_with_hints(&mut self, hints: &[Hint])
        requires
            old(self).wf(),
            hints_in_bounds(hints@, old(self).width as nat),
        ensures
            final(self).width == old(self).width,
            final(self).wf(),
            views(final(self).dict_words@) == apply_hints(
                views(old(self).dict_words@),
                shrunk(hints@),
            ),
    {
        let shrunk_hints: Vec<Hint> = Self::shrink_hints(hints);
        proof {
            assert forall|k: int|
                0 <= k < shrunk_hints@.len() implies hint_in_bounds(
                #[trigger] shrunk_hints@[k],
                old(self).width as nat,
            ) by {
                assert(hints@.contains(shrunk_hints@[k]));
                let j = choose|j: int|
                    0 <= j < hints@.len() && hints@[j] == shrunk_hints@[k];
                assert(hint_in_bounds(hints@[j], old(self).width as nat));
            }
        }
        let mut kept: Vec<String> = Vec::new();
        let n: usize = self.dict_words.len();
        let mut i: usize = 0;
        proof {
            assert(views(self.dict_words@).take(0) =~= Seq::<Seq<char>>::empty());
            crate::lemma_apply_hints_empty(shrunk(hints@));
            assert(views(kept@) =~= Seq::<Seq<char>>::empty());
        }
        while i < n
            invariant
                i <= n,
                n == self.dict_words@.len(),
                self.dict_words == old(self).dict_words,
                self.width == old(self).width,
                self.wf(),
                shrunk_hints@ == shrunk(hints@),
                hints_in_bounds(shrunk_hints@, self.width as nat),
                views(kept@) == apply_hints(
                    views(self.dict_words@).take(i as int),
                    shrunk(hints@),
                ),
                forall|j: int| 0 <= j < kept@.len() ==> (#[trigger] kept@[j])@.len() == self.width,
            decreases n - i,
        {
            let word: &String = &self.dict_words[i];
            proof {
                lemma_apply_hints_push(
                    views(self.dict_words@).take(i as int),
                    word@,
                    shrunk(hints@),
                );
                assert(views(self.dict_words@).take(i as int).push(word@) =~= views(
                    self.dict_words@,
                ).take(i + 1));
            }
            if check_all_hints(word.as_str(), &shrunk_hints) {
                let ghost prev = kept@;
                kept.push(word.clone());
                proof {
                    assert(views(kept@) =~= views(prev).push(word@));
                }
            }
            i = i + 1;
        }
        proof {
            assert(views(self.dict_words@).take(n as int) =~= views(self.dict_words@));
        }
        self.dict_words = kept;
    }

    /// Removes the guessed word itself from the pool, if its width fits
    /// and it is present: its first occurrence is swapped out for the
    /// last word, so the remaining words may be reordered.
    pub fn remove_word(&mut self, word: &str)
        requires
            old(self).wf(),
        ensures
            final(self).width == old(self).width,
            final(self).wf(),
            views(final(self).dict_words@) == remove_guess(
                views(old(self).dict_words@),
                word@,
                old(self).width as nat,
            ),
    {
        let wlen: usize = word.unicode_len();
        if wlen != self.width {
            return;
        }
        match Self::position_of(&self.dict_words, word) {
            Some(i) => {
                let ghost prev = self.dict_words@;
                self.dict_words.swap_remove(i);
                proof {
                    assert(views(self.dict_words@) =~= views(prev).update(
                        i as int,
                        views(prev).last(),
                    ).drop_last());
                }
            },
            None => {},
        }
    }

    /// The central operation: removes the guessed word from the pool,
    /// then keeps exactly the words consistent with every hint of the
    /// normalized batch.  The pool never grows.
    pub fn add_hint(&mut self, word: &str, hints: &[Hint])
        requires
            old(self).wf(),
            hints_in_bounds(hints@, old(self).width as nat),
        ensures
            final(self).width == old(self).width,
            final(self).wf(),
            views(final(self).dict_words@) == pool_after_guess(
                views(old(self).dict_words@),
                word@,
                old(self).width as nat,
                hints@,
            ),
            final(self).dict_words@.len() <= old(self).dict_words@.len(),
    {
        self.remove_word(word);
        self.update_with_hints(hints);
        proof {
            let pool = views(old(self).dict_words@);
            let removed = remove_guess(pool, word@, old(self).width as nat);
            pool.index_of_first_ensures(word@);
            assert(removed.len() <= pool.len());
            lemma_apply_hints_len(removed, shrunk(hints@));
        }
    }

    /// The current candidate pool, read-only.
    pub fn suggest(&self) -> (words: &Vec<String>)
        ensures
            words@ == self.dict_words@,
    {
        &self.dict_words
    }

    /// How many candidate words remain.
    pub fn remained_words_length(&self) -> (n: usize)
        ensures
            n == self.dict_words@.len(),
    {
        self.dict_words.len()
    }

    /// The position of the first word of the pool equal to `word`, if
    /// any.
    fn position_of(words: &Vec<String>, word: &str) -> (r: Option<usize>)
        ensures
            match r {
                Some(i) => i < words@.len() && views(words@).index_of_first(word@) == Some(
                    i as int,
                ),
                None => views(words@).index_of_first(word@) is None,
            },
    {
        let n: usize = words.len();
        let mut i: usize = 0;
        while i < n
            invariant
                i <= n,
                n == words@.len(),
                forall|j: int| 0 <= j < i ==> views(words@)[j] != word@,
            decreases n - i,
        {
            if str_equal(words[i].as_str(), word) {
                proof {
                    assert(views(words@)[i as int] == word@);
                    assert(views(words@).contains(word@));
                    views(words@).index_of_first_ensures(word@);
                }
                return Some(i);
            }
            i = i + 1;
        }
        proof {
            views(words@).index_of_first_ensures(word@);
            if views(words@).contains(word@) {
                let j = choose|j: int|
                    0 <= j < views(words@).len() && views(words@)[j] == word@;
                assert(views(words@)[j] != word@);
            }
        }
        None
    }

    /// Whether some hint of the batch pins `letter` to a position with
    /// an `At` spot.
    fn has_at_hint(hints: &[Hint], letter: char) -> (r: bool)
        ensures
            r == exists|j: int|
                0 <= j < hints@.len() && (#[trigger] hints@[j]).letter == letter
                    && hints@[j].spot is At,
    {
        let n: usize = hints.len();
        let mut i: usize = 0;
        while i < n
            invariant
                i <= n,
                n == hints@.len(),
                forall|j: int|
                    0 <= j < i ==> !((#[trigger] hints@[j]).letter == letter
                        && hints@[j].spot is At),
            decreases n - i,
        {
            let hint: Hint = hints[i];
            let is_at: bool = match hint.spot {
                Spot::At(_) => true,
                _ => false,
            };
            if is_at && hint.letter == letter {
                return true;
            }
            i = i + 1;
        }
        false
    }
}

} // verus!
