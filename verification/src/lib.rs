//! A constraint-based candidate filter for word-guessing games of the
//! Wordle family: given a fixed word width and letter/position hints
//! gathered from prior guesses, it maintains the set of dictionary words
//! still consistent with every hint.

use vstd::prelude::*;

pub mod simple;

verus! {

/// Where a hinted letter may stand in the hidden word.
#[derive(Clone, Copy, Debug, PartialEq, Eq)]
pub enum Spot {
    /// The letter occupies exactly this zero-based position.
    At(usize),
    /// The letter occurs somewhere, but not at this position.
    InWithout(usize),
    /// The letter does not occur at all (unless superseded by an `At`
    /// hint for the same letter in the same batch).
    Absent,
}

/// One letter/position constraint derived from comparing a guess
/// against the hidden word.
#[derive(Clone, Copy, Debug, PartialEq, Eq)]
pub struct Hint {
    pub letter: char,
    pub spot: Spot,
}

impl Hint {
    pub fn new(letter: char, spot: Spot) -> (h: Hint)
        ensures
            h.letter == letter,
            h.spot == spot,
    {
        Hint { letter, spot }
    }
}

/// The character sequences of a list of owned words.
pub open spec fn views(words: Seq<String>) -> Seq<Seq<char>> {
    words.map_values(|w: String| w@)
}

/// The character sequences of a list of borrowed words.
pub open spec fn str_views(words: Seq<&str>) -> Seq<Seq<char>> {
    words.map_values(|w: &str| w@)
}

/// Whether a single word is consistent with a single hint.
pub open spec fn word_matches_hint(w: Seq<char>, h: Hint) -> bool {
    match h.spot {
        Spot::At(i) => w[i as int] == h.letter,
        Spot::InWithout(i) => w.contains(h.letter) && w[i as int] != h.letter,
        Spot::Absent => !w.contains(h.letter),
    }
}

/// Whether a word is consistent with every hint of a batch.
pub open spec fn word_matches_all(w: Seq<char>, hints: Seq<Hint>) -> bool {
    forall|i: int| 0 <= i < hints.len() ==> word_matches_hint(w, #[trigger] hints[i])
}

/// Whether a hint's position (if it has one) falls inside a word of the
/// given width.
pub open spec fn hint_in_bounds(h: Hint, width: nat) -> bool {
    match h.spot {
        Spot::At(i) => i < width,
        Spot::InWithout(i) => i < width,
        Spot::Absent => true,
    }
}

/// Whether every hint of a batch stays inside the given width.
pub open spec fn hints_in_bounds(hints: Seq<Hint>, width: nat) -> bool {
    forall|i: int| 0 <= i < hints.len() ==> hint_in_bounds(#[trigger] hints[i], width)
}

/// An `Absent` hint is contradicted — and must be dropped — when the same
/// batch also pins its letter to a position with an `At` hint.  This is
/// the one-guess situation where a repeated letter is marked absent at
/// one slot while correct at another.
pub open spec fn superseded(h: Hint, hints: Seq<Hint>) -> bool {
    &&& h.spot is Absent
    &&& exists|j: int|
        0 <= j < hints.len() && (#[trigger] hints[j]).letter == h.letter && hints[j].spot is At
}

/// The hints of `part` that are not superseded within the whole batch
/// `whole`, in order.
pub open spec fn shrunk_within(part: Seq<Hint>, whole: Seq<Hint>) -> Seq<Hint> {
    part.filter(|h: Hint| !superseded(h, whole))
}

/// A hint batch normalized: contradicted `Absent` hints dropped, all
/// others kept in order.
pub open spec fn shrunk(hints: Seq<Hint>) -> Seq<Hint> {
    shrunk_within(hints, hints)
}

/// The words of a pool that are consistent with every hint of a batch,
/// in order.
pub open spec fn apply_hints(pool: Seq<Seq<char>>, hints: Seq<Hint>) -> Seq<Seq<char>> {
    pool.filter(|w: Seq<char>| word_matches_all(w, hints))
}

/// The words of a pool whose length is exactly `width`, in order.
pub open spec fn width_filtered(pool: Seq<Seq<char>>, width: nat) -> Seq<Seq<char>> {
    pool.filter(|w: Seq<char>| w.len() == width)
}

/// How `width_filtered` grows when one word is appended to the pool.
pub proof fn lemma_width_filtered_push(pool: Seq<Seq<char>>, w: Seq<char>, width: nat)
    ensures
        w.len() == width ==> width_filtered(pool.push(w), width) == width_filtered(
            pool,
            width,
        ).push(w),
        w.len() != width ==> width_filtered(pool.push(w), width) == width_filtered(pool, width),
{
    reveal(Seq::filter);
    assert(pool.push(w).drop_last() =~= pool);
}

/// `width_filtered` of an empty pool is empty.
pub proof fn lemma_width_filtered_empty(width: nat)
    ensures
        width_filtered(Seq::<Seq<char>>::empty(), width) == Seq::<Seq<char>>::empty(),
{
    reveal(Seq::filter);
}

/// How `shrunk_within` grows when one hint is appended to `part`.
pub proof fn lemma_shrunk_within_push(part: Seq<Hint>, h: Hint, whole: Seq<Hint>)
    ensures
        !superseded(h, whole) ==> shrunk_within(part.push(h), whole) == shrunk_within(
            part,
            whole,
        ).push(h),
        superseded(h, whole) ==> shrunk_within(part.push(h), whole) == shrunk_within(part, whole),
{
    reveal(Seq::filter);
    assert(part.push(h).drop_last() =~= part);
}

/// `shrunk_within` of an empty prefix is empty.
pub proof fn lemma_shrunk_within_empty(whole: Seq<Hint>)
    ensures
        shrunk_within(Seq::<Hint>::empty(), whole) == Seq::<Hint>::empty(),
{
    reveal(Seq::filter);
}

/// How `apply_hints` grows when one word is appended to the pool.
pub proof fn lemma_apply_hints_push(pool: Seq<Seq<char>>, w: Seq<char>, hints: Seq<Hint>)
    ensures
        word_matches_all(w, hints) ==> apply_hints(pool.push(w), hints) == apply_hints(
            pool,
            hints,
        ).push(w),
        !word_matches_all(w, hints) ==> apply_hints(pool.push(w), hints) == apply_hints(
            pool,
            hints,
        ),
{
    reveal(Seq::filter);
    assert(pool.push(w).drop_last() =~= pool);
}

/// `apply_hints` of an empty pool is empty.
pub proof fn lemma_apply_hints_empty(hints: Seq<Hint>)
    ensures
        apply_hints(Seq::<Seq<char>>::empty(), hints) == Seq::<Seq<char>>::empty(),
{
    reveal(Seq::filter);
}

/// Hint filtering never grows the pool.
pub proof fn lemma_apply_hints_len(pool: Seq<Seq<char>>, hints: Seq<Hint>)
    ensures
        apply_hints(pool, hints).len() <= pool.len(),
    decreases pool.len(),
{
    if pool.len() == 0 {
        lemma_apply_hints_empty(hints);
    } else {
        lemma_apply_hints_len(pool.drop_last(), hints);
        lemma_apply_hints_push(pool.drop_last(), pool.last(), hints);
        assert(pool.drop_last().push(pool.last()) =~= pool);
    }
}

/// Every word that hint filtering keeps is consistent with every hint.
pub proof fn lemma_apply_hints_pred(pool: Seq<Seq<char>>, hints: Seq<Hint>)
    ensures
        forall|i: int|
            0 <= i < apply_hints(pool, hints).len() ==> word_matches_all(
                #[trigger] apply_hints(pool, hints)[i],
                hints,
            ),
    decreases pool.len(),
{
    if pool.len() == 0 {
        lemma_apply_hints_empty(hints);
    } else {
        lemma_apply_hints_pred(pool.drop_last(), hints);
        lemma_apply_hints_push(pool.drop_last(), pool.last(), hints);
        assert(pool.drop_last().push(pool.last()) =~= pool);
    }
}

/// A pool whose words all satisfy every hint passes hint filtering
/// unchanged.
pub proof fn lemma_apply_hints_all_match(pool: Seq<Seq<char>>, hints: Seq<Hint>)
    requires
        forall|i: int| 0 <= i < pool.len() ==> word_matches_all(#[trigger] pool[i], hints),
    ensures
        apply_hints(pool, hints) == pool,
    decreases pool.len(),
{
    if pool.len() == 0 {
        lemma_apply_hints_empty(hints);
        assert(apply_hints(pool, hints) =~= pool);
    } else {
        lemma_apply_hints_all_match(pool.drop_last(), hints);
        lemma_apply_hints_push(pool.drop_last(), pool.last(), hints);
        assert(pool.drop_last().push(pool.last()) =~= pool);
        assert(apply_hints(pool, hints) =~= pool);
    }
}

/// The pool after the guessed word itself is removed: a guess of the
/// wrong width changes nothing; otherwise the first occurrence, if any,
/// is swapped out for the last word and the tail dropped.
pub open spec fn remove_guess(pool: Seq<Seq<char>>, word: Seq<char>, width: nat) -> Seq<
    Seq<char>,
> {
    if word.len() != width {
        pool
    } else {
        match pool.index_of_first(word) {
            Some(i) => pool.update(i, pool.last()).drop_last(),
            None => pool,
        }
    }
}

/// The pool after one full `add_hint` call: the guessed word removed,
/// then the words inconsistent with the normalized hint batch dropped.
pub open spec fn pool_after_guess(
    pool: Seq<Seq<char>>,
    word: Seq<char>,
    width: nat,
    hints: Seq<Hint>,
) -> Seq<Seq<char>> {
    apply_hints(remove_guess(pool, word, width), shrunk(hints))
}

/// Whether `word` contains `letter` anywhere.
pub fn word_contains_letter(word: &str, letter: char) -> (r: bool)
    ensures
        r == word@.contains(letter),
{
    let len: usize = word.unicode_len();
    let mut i: usize = 0;
    while i < len
        invariant
            i <= len,
            len == word@.len(),
            forall|j: int| 0 <= j < i ==> word@[j] != letter,
        decreases len - i,
    {
        if word.get_char(i) == letter {
            proof {
                assert(word@.contains(letter));
            }
            return true;
        }
        i = i + 1;
    }
    false
}

/// Whether two words hold the same characters.
pub fn str_equal(a: &str, b: &str) -> (r: bool)
    ensures
        r == (a@ == b@),
{
    let alen: usize = a.unicode_len();
    let blen: usize = b.unicode_len();
    if alen != blen {
        return false;
    }
    let mut i: usize = 0;
    while i < alen
        invariant
            i <= alen,
            alen == a@.len(),
            alen == b@.len(),
            forall|j: int| 0 <= j < i ==> a@[j] == b@[j],
        decreases alen - i,
    {
        if a.get_char(i) != b.get_char(i) {
            return false;
        }
        i = i + 1;
    }
    proof {
        assert(a@ =~= b@);
    }
    true
}

/// Whether `word` is consistent with one hint, decided exactly as
/// `word_matches_hint` says.
pub fn check_hint(word: &str, hint: &Hint) -> (r: bool)
    requires
        hint_in_bounds(*hint, word@.len()),
    ensures
        r == word_matches_hint(word@, *hint),
{
    match hint.spot {
        Spot::At(i) => word.get_char(i) == hint.letter,
        Spot::InWithout(i) => {
            if !word_contains_letter(word, hint.letter) {
                false
            } else {
                word.get_char(i) != hint.letter
            }
        },
        Spot::Absent => !word_contains_letter(word, hint.letter),
    }
}

/// Whether `word` is consistent with every hint of the batch.
pub fn check_all_hints(word: &str, hints: &Vec<Hint>) -> (r: bool)
    requires
        hints_in_bounds(hints@, word@.len()),
    ensures
        r == word_matches_all(word@, hints@),
{
    let n: usize = hints.len();
    let mut i: usize = 0;
    while i < n
        invariant
            i <= n,
            n == hints@.len(),
            hints_in_bounds(hints@, word@.len()),
            forall|j: int| 0 <= j < i ==> word_matches_hint(word@, #[trigger] hints@[j]),
        decreases n - i,
    {
        if !check_hint(word, &hints[i]) {
            proof {
                assert(!word_matches_hint(word@, hints@[i as int]));
            }
            return false;
        }
        i = i + 1;
    }
    true
}

/// Filtering a pool by a hint batch a second time removes nothing more:
/// a consistent pool is a fixed point of the same hints.
pub proof fn lemma_apply_hints_idempotent(pool: Seq<Seq<char>>, hints: Seq<Hint>)
    ensures
        apply_hints(apply_hints(pool, hints), hints) == apply_hints(pool, hints),
{
    lemma_apply_hints_pred(pool, hints);
    lemma_apply_hints_all_match(apply_hints(pool, hints), hints);
}

/// Every word that hint filtering keeps was in the pool.
pub proof fn lemma_apply_hints_subset(pool: Seq<Seq<char>>, hints: Seq<Hint>)
    ensures
        forall|i: int|
            0 <= i < apply_hints(pool, hints).len() ==> pool.contains(
                #[trigger] apply_hints(pool, hints)[i],
            ),
    decreases pool.len(),
{
    if pool.len() == 0 {
        lemma_apply_hints_empty(hints);
    } else {
        let rest = pool.drop_last();
        lemma_apply_hints_subset(rest, hints);
        lemma_apply_hints_push(rest, pool.last(), hints);
        assert(rest.push(pool.last()) =~= pool);
        assert forall|i: int|
            0 <= i < apply_hints(pool, hints).len() implies pool.contains(
            #[trigger] apply_hints(pool, hints)[i],
        ) by {
            if i < apply_hints(rest, hints).len() {
                assert(rest.contains(apply_hints(rest, hints)[i]));
                let k = choose|k: int| 0 <= k < rest.len() && rest[k] == apply_hints(rest, hints)[i];
                assert(pool[k] == apply_hints(pool, hints)[i]);
            } else {
                assert(pool[pool.len() - 1] == apply_hints(pool, hints)[i]);
            }
        }
    }
}

/// Repeating one full `add_hint` call — same guessed word, same hint
/// batch — leaves the pool exactly as the first call left it, provided
/// the guessed word occurs at most once in the pool.
pub proof fn lemma_pool_after_guess_idempotent(
    pool: Seq<Seq<char>>,
    word: Seq<char>,
    width: nat,
    hints: Seq<Hint>,
)
    requires
        forall|j: int, k: int|
            0 <= j < k < pool.len() ==> !(#[trigger] pool[j] == word && #[trigger] pool[k] == word),
    ensures
        pool_after_guess(pool_after_guess(pool, word, width, hints), word, width, hints)
            == pool_after_guess(pool, word, width, hints),
{
    let s = shrunk(hints);
    let removed = remove_guess(pool, word, width);
    let out = pool_after_guess(pool, word, width, hints);
    lemma_apply_hints_idempotent(removed, s);
    if word.len() == width {
        pool.index_of_first_ensures(word);
        assert forall|m: int| 0 <= m < removed.len() implies removed[m] != word by {
            match pool.index_of_first(word) {
                Some(i) => {
                    if m == i {
                        assert(removed[m] == pool[pool.len() - 1]);
                        if removed[m] == word && i < pool.len() - 1 {
                            assert(pool[i] == word && pool[pool.len() - 1] == word);
                        }
                    } else {
                        assert(removed[m] == pool[m]);
                        if removed[m] == word {
                            if m < i {
                                assert(pool[m] != word);
                            } else {
                                assert(pool[i] == word && pool[m] == word);
                            }
                        }
                    }
                },
                None => {
                    assert(!pool.contains(word));
                    if removed[m] == word {
                        assert(pool.contains(word));
                    }
                },
            }
        }
        lemma_apply_hints_subset(removed, s);
        assert forall|m: int| 0 <= m < out.len() implies out[m] != word by {
            assert(removed.contains(out[m]));
            let k = choose|k: int| 0 <= k < removed.len() && removed[k] == out[m];
            assert(removed[k] != word);
        }
        out.index_of_first_ensures(word);
        if out.contains(word) {
            let m = choose|m: int| 0 <= m < out.len() && out[m] == word;
            assert(out[m] != word);
        }
        assert(remove_guess(out, word, width) == out);
    } else {
        assert(remove_guess(out, word, width) == out);
    }
}

/// Whether a word avoids the letter of every `Absent` hint of a batch;
/// hints of the other kinds are not consulted.
pub open spec fn word_clears_absents(w: Seq<char>, hints: Seq<Hint>) -> bool {
    forall|i: int|
        0 <= i < hints.len() ==> ((#[trigger] hints[i]).spot is Absent ==> !w.contains(
            hints[i].letter,
        ))
}

/// The words of a pool that avoid the letter of every `Absent` hint, in
/// order.
pub open spec fn absent_filtered(pool: Seq<Seq<char>>, hints: Seq<Hint>) -> Seq<Seq<char>> {
    pool.filter(|w: Seq<char>| word_clears_absents(w, hints))
}

/// How `absent_filtered` grows when one word is appended to the pool.
pub proof fn lemma_absent_filtered_push(pool: Seq<Seq<char>>, w: Seq<char>, hints: Seq<Hint>)
    ensures
        word_clears_absents(w, hints) ==> absent_filtered(pool.push(w), hints) == absent_filtered(
            pool,
            hints,
        ).push(w),
        !word_clears_absents(w, hints) ==> absent_filtered(pool.push(w), hints) == absent_filtered(
            pool,
            hints,
        ),
{
    reveal(Seq::filter);
    assert(pool.push(w).drop_last() =~= pool);
}

/// `absent_filtered` of an empty pool is empty.
pub proof fn lemma_absent_filtered_empty(hints: Seq<Hint>)
    ensures
        absent_filtered(Seq::<Seq<char>>::empty(), hints) == Seq::<Seq<char>>::empty(),
{
    reveal(Seq::filter);
}

/// Whether `word` avoids the letter of every `Absent` hint of the batch.
pub fn check_absents(word: &str, hints: &Vec<Hint>) -> (r: bool)
    ensures
        r == word_clears_absents(word@, hints@),
{
    let n: usize = hints.len();
    let mut i: usize = 0;
    while i < n
        invariant
            i <= n,
            n == hints@.len(),
            forall|j: int|
                0 <= j < i ==> ((#[trigger] hints@[j]).spot is Absent ==> !word@.contains(
                    hints@[j].letter,
                )),
        decreases n - i,
    {
        let hint: Hint = hints[i];
        let absent: bool = match hint.spot {
            Spot::Absent => true,
            _ => false,
        };
        if absent && word_contains_letter(word, hint.letter) {
            proof {
                assert(!((hints@[i as int].spot is Absent) ==> !word@.contains(
                    hints@[i as int].letter,
                )));
            }
            return false;
        }
        i = i + 1;
    }
    true
}

/// A dictionary of words and the hints gathered so far, kept verbatim:
/// guessing filters the dictionary by the `Absent` hints alone.
pub struct SimpleResolver {
    pub dict_words: Vec<String>,
    pub hints: Vec<Hint>,
}

impl SimpleResolver {
    /// Takes over the dictionary as given, with no hints yet.
    pub fn new(dict_words: Vec<&str>) -> (r: SimpleResolver)
        ensures
            views(r.dict_words@) == str_views(dict_words@),
            r.hints@ == Seq::<Hint>::empty(),
    {
        let mut words: Vec<String> = Vec::new();
        let n: usize = dict_words.len();
        let mut i: usize = 0;
        while i < n
            invariant
                i <= n,
                n == dict_words@.len(),
                views(words@) == str_views(dict_words@.take(i as int)),
            decreases n - i,
        {
            let word: &str = dict_words[i];
            let ghost prev = words@;
            words.push(word.to_owned());
            proof {
                assert(views(words@) =~= views(prev).push(word@));
                assert(str_views(dict_words@.take(i + 1)) =~= str_views(
                    dict_words@.take(i as int),
                ).push(word@));
            }
            i = i + 1;
        }
        proof {
            assert(dict_words@.take(n as int) =~= dict_words@);
        }
        SimpleResolver { dict_words: words, hints: Vec::new() }
    }

    /// Appends the batch to the hint history; the dictionary is
    /// untouched.
    pub fn add_hint(&mut self, results: &[Hint])
        ensures
            final(self).dict_words@ == old(self).dict_words@,
            final(self).hints@ == old(self).hints@ + results@,
    {
        let n: usize = results.len();
        let mut i: usize = 0;
        while i < n
            invariant
                i <= n,
                n == results@.len(),
                self.dict_words@ == old(self).dict_words@,
                self.hints@ == old(self).hints@ + results@.take(i as int),
            decreases n - i,
        {
            let hint: Hint = results[i];
            self.hints.push(hint);
            proof {
                assert(old(self).hints@ + results@.take(i + 1) =~= (old(self).hints@
                    + results@.take(i as int)).push(hint));
            }
            i = i + 1;
        }
        proof {
            assert(old(self).hints@ + results@.take(n as int) =~= old(self).hints@ + results@);
        }
    }

    /// The dictionary words that avoid the letter of every `Absent`
    /// hint gathered so far, in dictionary order.
    pub fn guess(&self) -> (r: Vec<String>)
        ensures
            views(r@) == absent_filtered(views(self.dict_words@), self.hints@),
    {
        let mut kept: Vec<String> = Vec::new();
        let n: usize = self.dict_words.len();
        let mut i: usize = 0;
        proof {
            assert(views(self.dict_words@).take(0) =~= Seq::<Seq<char>>::empty());
            lemma_absent_filtered_empty(self.hints@);
            assert(views(kept@) =~= Seq::<Seq<char>>::empty());
        }
        while i < n
            invariant
                i <= n,
                n == self.dict_words@.len(),
                views(kept@) == absent_filtered(
                    views(self.dict_words@).take(i as int),
                    self.hints@,
                ),
            decreases n - i,
        {
            let word: &String = &self.dict_words[i];
            proof {
                lemma_absent_filtered_push(
                    views(self.dict_words@).take(i as int),
                    word@,
                    self.hints@,
                );
                assert(views(self.dict_words@).take(i as int).push(word@) =~= views(
                    self.dict_words@,
                ).take(i + 1));
            }
            if check_absents(word.as_str(), &self.hints) {
                let ghost prev = kept@;
                kept.push(word.clone());
                proof {
                    assert(views(kept@) =~= views(prev).push(word@));
                }
            }
            i = i + 1;
        }
        proof {
            assert(views(self.dict_words@).take(n as int) =~= views(self.dict_words@));
        }
        kept
    }
}

} // verus!
