//! The search for the candidate with the least total transition cost against
//! a reference set.
use vstd::prelude::*;
use rayon::prelude::{IndexedParallelIterator, IntoParallelRefIterator, ParallelIterator};
use crate::edit::{
    edit_distance, lemma_lev_bound, lemma_lev_self, lemma_multiset_distance_bound, letter_difference, lev,
    max_nat, multiset_distance,
};
use crate::generate::{
    alphabet, longest, power_len, unique_letters, all_words, candidate_pool, lemma_max_len_covers, lemma_pool_empty_iff, lemma_pool_lengths, max_len,
};
use crate::text::{chars_of, copy_word, words_view};

verus! {

/// How a candidate is charged against one reference word.
#[derive(Debug, Clone, Copy, PartialEq, Eq, Structural)]
pub enum PairwiseCost {
    /// Levenshtein distance with substitution: the default.
    EditDistance,
    /// Multiset difference of the letters, order ignored.
    LetterDifference,
}

/// The cost of `a` against `b` under a strategy.
pub open spec fn pair_cost(cost: PairwiseCost, a: Seq<char>, b: Seq<char>) -> nat {
    match cost {
        PairwiseCost::EditDistance => lev(a, b),
        PairwiseCost::LetterDifference => multiset_distance(a, b),
    }
}

/// The sum of the costs of `w` against each reference word.
pub open spec fn cost_with(cost: PairwiseCost, w: Seq<char>, refs: Seq<Seq<char>>) -> nat
    decreases refs.len(),
{
    if refs.len() == 0 {
        0
    } else {
        cost_with(cost, w, refs.drop_last()) + pair_cost(cost, w, refs.last())
    }
}

/// The sum of the edit distances from `w` to each reference word.
pub open spec fn transition_cost(w: Seq<char>, refs: Seq<Seq<char>>) -> nat {
    cost_with(PairwiseCost::EditDistance, w, refs)
}

/// The most that one pair of words of at most `m` characters can cost.
pub open spec fn cost_ceiling(cost: PairwiseCost, m: nat) -> nat {
    match cost {
        PairwiseCost::EditDistance => m,
        PairwiseCost::LetterDifference => 2 * m,
    }
}

/// Position `k` holds a word of least cost, and the first such word.
pub open spec fn is_best(
    cost: PairwiseCost,
    pool: Seq<Seq<char>>,
    refs: Seq<Seq<char>>,
    k: int,
) -> bool {
    &&& 0 <= k < pool.len()
    &&& forall|j: int|
        0 <= j < pool.len() ==> cost_with(cost, pool[k], refs) <= #[trigger] cost_with(
            cost,
            pool[j],
            refs,
        )
    &&& forall|j: int|
        0 <= j < k ==> cost_with(cost, pool[k], refs) < #[trigger] cost_with(cost, pool[j], refs)
}

/// The total cost of a word stays within the word count times the ceiling
/// of one pair.
pub proof fn lemma_cost_bound(cost: PairwiseCost, w: Seq<char>, refs: Seq<Seq<char>>, m: nat)
    requires
        w.len() <= m,
        max_len(refs) <= m,
    ensures
        cost_with(cost, w, refs) <= refs.len() * cost_ceiling(cost, m),
    decreases refs.len(),
{
    if refs.len() > 0 {
        let c = cost_ceiling(cost, m);
        lemma_cost_bound(cost, w, refs.drop_last(), m);
        lemma_lev_bound(w, refs.last());
        lemma_multiset_distance_bound(w, refs.last());
        assert(refs.last() == refs[refs.len() - 1]);
        lemma_max_len_covers(refs, refs.len() - 1);
        assert((refs.len() - 1) * c + c == refs.len() * c) by (nonlinear_arith);
    }
}

/// A word costs nothing against a reference set made of itself alone.
pub proof fn lemma_cost_against_itself(w: Seq<char>)
    ensures
        transition_cost(w, seq![w]) == 0,
{
    lemma_lev_self(w);
    assert(seq![w].drop_last() =~= Seq::<Seq<char>>::empty());
    assert(seq![w].last() == w);
    assert(cost_with(PairwiseCost::EditDistance, w, seq![w].drop_last()) == 0);
}

/// The cost of one pair of words under a strategy.
pub fn pair_distance(cost: PairwiseCost, a: &Vec<char>, b: &Vec<char>) -> (r: usize)
    requires
        cost == PairwiseCost::LetterDifference ==> a@.len() + b@.len() <= usize::MAX,
    ensures
        r == pair_cost(cost, a@, b@),
{
    match cost {
        PairwiseCost::EditDistance => edit_distance(a, b),
        PairwiseCost::LetterDifference => letter_difference(a, b),
    }
}

/// The sum of the costs of `word` against each of `words` under a strategy.
pub fn total_cost_with(cost: PairwiseCost, word: &Vec<char>, words: &Vec<Vec<char>>) -> (r: usize)
    requires
        words@.len() * cost_ceiling(cost, max_nat(word@.len(), max_len(words_view(words@))))
            <= usize::MAX,
    ensures
        r == cost_with(cost, word@, words_view(words@)),
{
    let ghost refs = words_view(words@);
    let ghost m = max_nat(word@.len(), max_len(refs));
    let ghost c = cost_ceiling(cost, m);
    let mut sum: usize = 0;
    let mut i: usize = 0;
    assert(refs.take(0) =~= Seq::<Seq<char>>::empty());
    proof {
        lemma_cost_bound(cost, word@, refs, m);
    }
    while i < words.len()
        invariant
            refs == words_view(words@),
            i <= words@.len(),
            cost_with(cost, word@, refs) <= words@.len() * c,
            words@.len() * c <= usize::MAX,
            m == max_nat(word@.len(), max_len(refs)),
            c == cost_ceiling(cost, m),
            sum == cost_with(cost, word@, refs.take(i as int)),
        decreases words@.len() - i,
    {
        proof {
            assert(refs[i as int] == words@[i as int]@);
            lemma_max_len_covers(refs, i as int);
            let n = words@.len() as int;
            assert(n * c >= c) by (nonlinear_arith)
                requires
                    n >= 1,
            ;
        }
        let d = pair_distance(cost, word, &words[i]);
        proof {
            assert(refs.take(i + 1).drop_last() =~= refs.take(i as int));
            assert(refs.take(i + 1).last() == words@[i as int]@);
            lemma_cost_prefix(cost, word@, refs, i + 1);
        }
        sum = sum + d;
        i = i + 1;
    }
    assert(refs.take(words@.len() as int) =~= refs);
    sum
}

/// The sum of the edit distances with substitution from `word` to each of
/// `words`.
pub fn total_cost(word: &Vec<char>, words: &Vec<Vec<char>>) -> (r: usize)
    requires
        words@.len() * max_nat(word@.len(), max_len(words_view(words@))) <= usize::MAX,
    ensures
        r == transition_cost(word@, words_view(words@)),
{
    total_cost_with(PairwiseCost::EditDistance, word, words)
}

proof fn lemma_cost_prefix(cost: PairwiseCost, w: Seq<char>, refs: Seq<Seq<char>>, i: int)
    requires
        0 <= i <= refs.len(),
    ensures
        cost_with(cost, w, refs.take(i)) <= cost_with(cost, w, refs),
    decreases refs.len(),
{
    if i < refs.len() {
        assert(refs.drop_last().take(i) =~= refs.take(i));
        lemma_cost_prefix(cost, w, refs.drop_last(), i);
    } else {
        assert(refs.take(i) =~= refs);
    }
}

/// The words of a list of strings, each as its sequence of characters.
pub open spec fn strings_view(v: Seq<String>) -> Seq<Seq<char>> {
    v.map_values(|s: String| s@)
}

/// The characters of each string of `v`.
pub fn words_of(v: &Vec<String>) -> (r: Vec<Vec<char>>)
    ensures
        words_view(r@) == strings_view(v@),
{
    let mut r: Vec<Vec<char>> = Vec::new();
    let mut i: usize = 0;
    while i < v.len()
        invariant
            i <= v@.len(),
            r@.len() == i,
            words_view(r@) == strings_view(v@).take(i as int),
        decreases v@.len() - i,
    {
        let w = chars_of(v[i].as_str());
        r.push(w);
        i = i + 1;
        assert(words_view(r@) =~= strings_view(v@).take(i as int));
    }
    assert(strings_view(v@).take(v@.len() as int) =~= strings_view(v@));
    r
}

/// The total transition cost of `word` against `words`: the sum of the edit
/// distances with substitution from it to each of them.
pub fn total_distance(word: &str, words: &Vec<String>) -> (r: usize)
    requires
        words@.len() * max_nat(word@.len(), max_len(strings_view(words@))) <= usize::MAX,
    ensures
        r == transition_cost(word@, strings_view(words@)),
{
    let w = chars_of(word);
    let refs = words_of(words);
    total_cost(&w, &refs)
}

/// Why a search returned no word.
#[derive(Debug, Clone, Copy, PartialEq, Eq, Structural)]
pub enum SearchError {
    /// No reference word was supplied.
    EmptyInput,
    /// The candidate pool was empty: every reference word is empty.
    NoCandidates,
    /// More words would have to be enumerated than the ceiling allows.
    TooLarge,
}

/// Relies on rayon's `par_iter().map(..).collect_into_vec(..)` over a `Vec`:
/// an indexed parallel iterator, whose collected vector holds the mapped
/// item of each input at that input's position. The closure only calls
/// `total_cost_with`.
#[verifier::external_body]
fn score_all(cost: PairwiseCost, candidates: &Vec<Vec<char>>, words: &Vec<Vec<char>>) -> (r: Vec<
    usize,
>)
    requires
        forall|k: int|
            0 <= k < candidates@.len() ==> words@.len() * cost_ceiling(
                cost,
                max_nat(#[trigger] candidates@[k]@.len(), max_len(words_view(words@))),
            ) <= usize::MAX,
    ensures
        r@.len() == candidates@.len(),
        forall|k: int|
            0 <= k < candidates@.len() ==> #[trigger] r@[k] == cost_with(
                cost,
                candidates@[k]@,
                words_view(words@),
            ),
{
    let mut r: Vec<usize> = Vec::new();
    candidates.par_iter().map(|c| total_cost_with(cost, c, words)).collect_into_vec(&mut r);
    r
}

/// The position of the least score, the first one where several are equal.
pub fn pick_best(scores: &Vec<usize>) -> (r: usize)
    requires
        scores@.len() > 0,
    ensures
        r < scores@.len(),
        forall|j: int| 0 <= j < scores@.len() ==> scores@[r as int] <= #[trigger] scores@[j],
        forall|j: int| 0 <= j < r ==> scores@[r as int] < #[trigger] scores@[j],
{
    let mut best: usize = 0;
    let mut k: usize = 1;
    while k < scores.len()
        invariant
            scores@.len() > 0,
            best < k <= scores@.len(),
            forall|j: int| 0 <= j < k ==> scores@[best as int] <= #[trigger] scores@[j],
            forall|j: int| 0 <= j < best ==> scores@[best as int] < #[trigger] scores@[j],
        decreases scores@.len() - k,
    {
        if scores[k] < scores[best] {
            best = k;
        }
        k = k + 1;
    }
    best
}

/// What a search on the reference words `refs` owes under a strategy: an
/// error exactly when there are no words, or when all of them are empty and
/// so no candidate exists; else the first candidate of least total cost.
pub open spec fn search_result(
    cost: PairwiseCost,
    refs: Seq<Seq<char>>,
    r: Result<Seq<char>, SearchError>,
) -> bool {
    &&& (refs.len() == 0 <==> r == Err::<Seq<char>, SearchError>(SearchError::EmptyInput))
    &&& (refs.len() > 0 && max_len(refs) == 0 <==> r == Err::<
        Seq<char>,
        SearchError,
    >(SearchError::NoCandidates))
    &&& (refs.len() > 0 && max_len(refs) > 0 ==> r is Ok)
    &&& (r is Ok ==> exists|k: int|
        is_best(cost, candidate_pool(refs), refs, k) && r->Ok_0 == #[trigger] candidate_pool(
            refs,
        )[k])
}

/// The candidate of least total cost under `cost` against the reference
/// words, the first in generation order among equals. The candidates are
/// scored in parallel.
pub fn minimize_with(words: &Vec<Vec<char>>, cost: PairwiseCost) -> (r: Result<
    Vec<char>,
    SearchError,
>)
    requires
        words@.len() * cost_ceiling(cost, max_len(words_view(words@))) <= usize::MAX,
    ensures
        search_result(
            cost,
            words_view(words@),
            match r {
                Ok(w) => Ok(w@),
                Err(e) => Err(e),
            },
        ),
{
    let ghost refs = words_view(words@);
    if words.len() == 0 {
        return Err(SearchError::EmptyInput);
    }
    let pool = all_words(words);
    let ghost pv = words_view(pool@);
    proof {
        lemma_pool_empty_iff(refs);
    }
    if pool.len() == 0 {
        return Err(SearchError::NoCandidates);
    }
    proof {
        lemma_pool_lengths(refs, max_len(refs));
        assert forall|k: int| 0 <= k < pool@.len() implies words@.len() * cost_ceiling(
            cost,
            max_nat(#[trigger] pool@[k]@.len(), max_len(refs)),
        ) <= usize::MAX by {
            assert(pv[k] == pool@[k]@);
        }
    }
    let scores = score_all(cost, &pool, words);
    let best = pick_best(&scores);
    proof {
        assert forall|j: int| 0 <= j < pv.len() implies #[trigger] cost_with(cost, pv[j], refs)
            == scores@[j] by {
            assert(pv[j] == pool@[j]@);
        }
        assert(is_best(cost, pv, refs, best as int));
    }
    let w = copy_word(&pool[best]);
    assert(w@ == pv[best as int]);
    Ok(w)
}

/// The candidate of least total edit distance against the reference words,
/// the first in generation order among equals.
pub fn minimize(words: &Vec<Vec<char>>) -> (r: Result<Vec<char>, SearchError>)
    requires
        words@.len() * max_len(words_view(words@)) <= usize::MAX,
    ensures
        search_result(
            PairwiseCost::EditDistance,
            words_view(words@),
            match r {
                Ok(w) => Ok(w@),
                Err(e) => Err(e),
            },
        ),
{
    minimize_with(words, PairwiseCost::EditDistance)
}

/// Relies on `String: FromIterator<char>`: the string holds the characters
/// in their order.
#[verifier::external_body]
fn string_of(cs: &Vec<char>) -> (r: String)
    ensures
        r@ == cs@,
{
    cs.iter().collect()
}

/// The reconstructed word of a reference set: the candidate of least total
/// transition cost against the reference words, the first in generation
/// order among equals.
pub fn minimize_trans_cost(words: &Vec<String>) -> (r: Result<String, SearchError>)
    requires
        words@.len() * max_len(strings_view(words@)) <= usize::MAX,
    ensures
        search_result(
            PairwiseCost::EditDistance,
            strings_view(words@),
            match r {
                Ok(w) => Ok(w@),
                Err(e) => Err(e),
            },
        ),
{
    let refs = words_of(words);
    match minimize(&refs) {
        Ok(w) => Ok(string_of(&w)),
        Err(e) => Err(e),
    }
}

/// A search has one outcome: two results that both meet what a search on
/// the same reference words owes are the same.
pub proof fn lemma_search_deterministic(
    cost: PairwiseCost,
    refs: Seq<Seq<char>>,
    r1: Result<Seq<char>, SearchError>,
    r2: Result<Seq<char>, SearchError>,
)
    requires
        search_result(cost, refs, r1),
        search_result(cost, refs, r2),
    ensures
        r1 == r2,
{
    let pool = candidate_pool(refs);
    lemma_pool_empty_iff(refs);
    if r1 is Ok && r2 is Ok {
        let k1 = choose|k: int| is_best(cost, pool, refs, k) && r1->Ok_0 == #[trigger] pool[k];
        let k2 = choose|k: int| is_best(cost, pool, refs, k) && r2->Ok_0 == #[trigger] pool[k];
        if k1 < k2 {
            assert(cost_with(cost, pool[k2], refs) < cost_with(cost, pool[k1], refs));
        } else if k2 < k1 {
            assert(cost_with(cost, pool[k1], refs) < cost_with(cost, pool[k2], refs));
        }
        assert(k1 == k2);
    }
}

/// How many words are enumerated, before filtering, for lengths one to
/// `n` over an alphabet of `base` letters.
pub open spec fn words_considered(base: nat, n: nat) -> nat
    decreases n,
{
    if n == 0 {
        0
    } else {
        words_considered(base, (n - 1) as nat) + power_len(base, n)
    }
}

proof fn lemma_considered_grows(base: nat, n: nat, m: nat)
    requires
        n <= m,
    ensures
        words_considered(base, n) <= words_considered(base, m),
    decreases m,
{
    if n < m {
        lemma_considered_grows(base, n, (m - 1) as nat);
    }
}

/// The number of words enumerated, before filtering, for lengths one to
/// `max_len` over `base` letters, where it is at most `limit`.
pub fn search_size(base: usize, max_len: usize, limit: usize) -> (r: Option<usize>)
    ensures
        r == (if words_considered(base as nat, max_len as nat) <= limit {
            Some(words_considered(base as nat, max_len as nat) as usize)
        } else {
            None::<usize>
        }),
{
    let mut total: usize = 0;
    let mut term: usize = 1;
    let mut n: usize = 0;
    while n < max_len
        invariant
            n <= max_len,
            total == words_considered(base as nat, n as nat),
            term == power_len(base as nat, n as nat),
            total <= limit,
        decreases max_len - n,
    {
        proof {
            lemma_considered_grows(base as nat, (n + 1) as nat, max_len as nat);
        }
        term = match term.checked_mul(base) {
            Some(t) => t,
            None => {
                return None;
            },
        };
        total = match total.checked_add(term) {
            Some(t) => t,
            None => {
                return None;
            },
        };
        if total > limit {
            return None;
        }
        n = n + 1;
    }
    Some(total)
}

/// A search that first checks its size: `TooLarge` when more than `limit`
/// words would be enumerated, else what `minimize_with` returns.
pub fn minimize_within(words: &Vec<Vec<char>>, cost: PairwiseCost, limit: usize) -> (r: Result<
    Vec<char>,
    SearchError,
>)
    requires
        words@.len() * cost_ceiling(cost, max_len(words_view(words@))) <= usize::MAX,
    ensures
        ({
            let refs = words_view(words@);
            let view = match r {
                Ok(w) => Ok(w@),
                Err(e) => Err(e),
            };
            if refs.len() > 0 && words_considered(alphabet(refs).len(), max_len(refs)) > limit {
                r == Err::<Vec<char>, SearchError>(SearchError::TooLarge)
            } else {
                search_result(cost, refs, view)
            }
        }),
{
    if words.len() > 0 {
        let letters_in_use = unique_letters(words);
        let max_len = longest(words);
        if search_size(letters_in_use.len(), max_len, limit).is_none() {
            return Err(SearchError::TooLarge);
        }
    }
    minimize_with(words, cost)
}

} // verus!
