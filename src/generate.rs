//! Enumeration of candidate words over an alphabet, in a fixed order, and
//! their filtering by the letter caps of a reference set.
use vstd::prelude::*;
use vstd::arithmetic::div_mod::lemma_fundamental_div_mod_converse;
use crate::edit::{find_char, letters};
use crate::text::{copy_word, words_view};
use rayon::prelude::{IndexedParallelIterator, IntoParallelRefIterator, ParallelIterator};

verus! {

/// `base` to the power `n`: how many words of length `n` an alphabet of
/// `base` letters has.
pub open spec fn power_len(base: nat, n: nat) -> nat
    decreases n,
{
    if n == 0 {
        1
    } else {
        power_len(base, (n - 1) as nat) * base
    }
}

/// The word at position `k` among the words of length `n` over `alpha`:
/// position `k` read in base `alpha.len()`, the first character varying
/// slowest.
pub open spec fn word_at(alpha: Seq<char>, n: nat, k: int) -> Seq<char>
    decreases n,
{
    if n == 0 {
        Seq::empty()
    } else {
        word_at(alpha, (n - 1) as nat, k / (alpha.len() as int)).push(
            alpha[k % (alpha.len() as int)],
        )
    }
}

/// Every word of length `n` over `alpha`, in generation order.
pub open spec fn words_of_len(alpha: Seq<char>, n: nat) -> Seq<Seq<char>> {
    Seq::new(power_len(alpha.len(), n), |k: int| word_at(alpha, n, k))
}

/// Every word of exactly `length` characters over `letters`, in generation
/// order: `aa, ab, ba, bb` over `a, b`. Length zero gives the empty word alone.
pub fn create_words(letters: &Vec<char>, length: usize) -> (r: Vec<Vec<char>>)
    ensures
        words_view(r@) == words_of_len(letters@, length as nat),
{
    let ghost alpha = letters@;
    let ghost base = alpha.len();
    let mut cur: Vec<Vec<char>> = Vec::new();
    cur.push(Vec::new());
    assert(words_view(cur@) =~= words_of_len(alpha, 0));
    let mut step: usize = 0;
    while step < length
        invariant
            alpha == letters@,
            base == alpha.len(),
            step <= length,
            words_view(cur@) == words_of_len(alpha, step as nat),
        decreases length - step,
    {
        let ghost n = (step + 1) as nat;
        let mut next: Vec<Vec<char>> = Vec::new();
        let mut w: usize = 0;
        while w < cur.len()
            invariant
                alpha == letters@,
                base == alpha.len(),
                n == step + 1,
                w <= cur@.len(),
                words_view(cur@) == words_of_len(alpha, step as nat),
                next@.len() == w * base,
                forall|m: int| 0 <= m < next@.len() ==> #[trigger] next@[m]@ == word_at(alpha, n, m),
            decreases cur@.len() - w,
        {
            let mut c: usize = 0;
            while c < letters.len()
                invariant
                    alpha == letters@,
                    base == alpha.len(),
                    n == step + 1,
                    w < cur@.len(),
                    c <= base,
                    words_view(cur@) == words_of_len(alpha, step as nat),
                    next@.len() == w * base + c,
                    forall|m: int| 0 <= m < next@.len() ==> #[trigger] next@[m]@ == word_at(alpha, n, m),
                decreases base - c,
            {
                let mut nw = copy_word(&cur[w]);
                nw.push(letters[c]);
                proof {
                    let m = w * base + c;
                    lemma_fundamental_div_mod_converse(m, base as int, w as int, c as int);
                    assert(words_view(cur@).len() == cur@.len());
                    assert(words_view(cur@)[w as int] == cur@[w as int]@);
                    assert(words_of_len(alpha, step as nat)[w as int] == word_at(
                        alpha,
                        step as nat,
                        w as int,
                    ));
                    assert(cur@[w as int]@ == word_at(alpha, step as nat, w as int));
                    assert(word_at(alpha, n, m) == word_at(alpha, step as nat, w as int).push(
                        alpha[c as int],
                    ));
                }
                next.push(nw);
                c = c + 1;
            }
            proof {
                assert((w + 1) * base == w * base + base) by (nonlinear_arith);
            }
            w = w + 1;
        }
        assert(words_view(cur@).len() == cur@.len());
        assert(next@.len() == power_len(base, n));
        cur = next;
        step = step + 1;
        assert(words_view(cur@) =~= words_of_len(alpha, step as nat));
    }
    cur
}

/// The characters of `s` with repeats dropped, each kept where it first
/// occurs.
pub open spec fn dedup(s: Seq<char>) -> Seq<char>
    decreases s.len(),
{
    if s.len() == 0 {
        Seq::empty()
    } else {
        let d = dedup(s.drop_last());
        if d.contains(s.last()) {
            d
        } else {
            d.push(s.last())
        }
    }
}

/// The words of a list written one after another.
pub open spec fn concat(words: Seq<Seq<char>>) -> Seq<char>
    decreases words.len(),
{
    if words.len() == 0 {
        Seq::empty()
    } else {
        concat(words.drop_last()) + words.last()
    }
}

/// The distinct characters of the reference words, in order of first
/// occurrence.
pub open spec fn alphabet(refs: Seq<Seq<char>>) -> Seq<char> {
    dedup(concat(refs))
}

/// The most times `c` occurs in any one reference word; zero where it
/// occurs in none.
pub open spec fn cap(refs: Seq<Seq<char>>, c: char) -> nat
    decreases refs.len(),
{
    if refs.len() == 0 {
        0
    } else {
        let rest = cap(refs.drop_last(), c);
        let here = letters(refs.last()).count(c);
        if rest >= here {
            rest
        } else {
            here
        }
    }
}

/// A word respects the letter caps of the reference set: no character occurs
/// in it more often than in the reference word that holds it most.
pub open spec fn valid(w: Seq<char>, refs: Seq<Seq<char>>) -> bool {
    forall|i: int| 0 <= i < w.len() ==> #[trigger] letters(w).count(w[i]) <= cap(refs, w[i])
}

pub open spec fn valid_for(refs: Seq<Seq<char>>) -> spec_fn(Seq<char>) -> bool {
    |w: Seq<char>| valid(w, refs)
}

/// The length of the longest reference word.
pub open spec fn max_len(refs: Seq<Seq<char>>) -> nat
    decreases refs.len(),
{
    if refs.len() == 0 {
        0
    } else {
        let rest = max_len(refs.drop_last());
        if rest >= refs.last().len() {
            rest
        } else {
            refs.last().len()
        }
    }
}

/// The valid words of lengths one to `n`, length ascending, then in
/// generation order.
pub open spec fn pool_upto(refs: Seq<Seq<char>>, n: nat) -> Seq<Seq<char>>
    decreases n,
{
    if n == 0 {
        Seq::empty()
    } else {
        pool_upto(refs, (n - 1) as nat) + words_of_len(alphabet(refs), n).filter(valid_for(refs))
    }
}

/// The candidate pool of a reference set: every valid word over its alphabet
/// whose length is between one and that of its longest word.
pub open spec fn candidate_pool(refs: Seq<Seq<char>>) -> Seq<Seq<char>> {
    pool_upto(refs, max_len(refs))
}

/// How many times `c` occurs in `w`.
pub fn count_char(w: &Vec<char>, c: char) -> (r: usize)
    ensures
        r == letters(w@).count(c),
{
    broadcast use vstd::multiset::group_multiset_axioms;

    let mut r: usize = 0;
    let mut k: usize = 0;
    assert(w@.take(0) =~= Seq::<char>::empty());
    proof {
        w@.take(0).to_multiset_ensures();
    }
    while k < w.len()
        invariant
            k <= w@.len(),
            r <= k,
            r == letters(w@.take(k as int)).count(c),
        decreases w@.len() - k,
    {
        proof {
            assert(w@.take(k as int).push(w@[k as int]) =~= w@.take(k + 1));
            w@.take(k as int).to_multiset_ensures();
        }
        if w[k] == c {
            r = r + 1;
        }
        k = k + 1;
    }
    assert(w@.take(w@.len() as int) =~= w@);
    r
}

/// The distinct characters of the reference words, in order of first
/// occurrence.
pub fn unique_letters(words: &Vec<Vec<char>>) -> (r: Vec<char>)
    ensures
        r@ == alphabet(words_view(words@)),
{
    let ghost refs = words_view(words@);
    let mut out: Vec<char> = Vec::new();
    let mut i: usize = 0;
    assert(refs.take(0) =~= Seq::<Seq<char>>::empty());
    while i < words.len()
        invariant
            refs == words_view(words@),
            i <= words@.len(),
            out@ == dedup(concat(refs.take(i as int))),
        decreases words@.len() - i,
    {
        let w = &words[i];
        let ghost before = concat(refs.take(i as int));
        let mut j: usize = 0;
        assert(before + w@.take(0) =~= before);
        while j < w.len()
            invariant
                refs == words_view(words@),
                i < words@.len(),
                w@ == refs[i as int],
                before == concat(refs.take(i as int)),
                j <= w@.len(),
                out@ == dedup(before + w@.take(j as int)),
            decreases w@.len() - j,
        {
            let x = w[j];
            proof {
                let s = before + w@.take(j + 1);
                assert(s.drop_last() =~= before + w@.take(j as int));
                assert(s.last() == x);
            }
            let seen = match find_char(&out, x) {
                Some(p) => {
                    assert(out@.contains(x));
                    true
                },
                None => false,
            };
            if !seen {
                out.push(x);
            }
            j = j + 1;
        }
        proof {
            assert(refs.take(i + 1).drop_last() =~= refs.take(i as int));
            assert(w@.take(w@.len() as int) =~= w@);
        }
        i = i + 1;
    }
    assert(refs.take(words@.len() as int) =~= refs);
    out
}

/// The letter cap of `c`: the most times it occurs in any one reference
/// word.
pub fn letter_cap(words: &Vec<Vec<char>>, c: char) -> (r: usize)
    ensures
        r == cap(words_view(words@), c),
{
    let ghost refs = words_view(words@);
    let mut best: usize = 0;
    let mut i: usize = 0;
    assert(refs.take(0) =~= Seq::<Seq<char>>::empty());
    while i < words.len()
        invariant
            refs == words_view(words@),
            i <= words@.len(),
            best == cap(refs.take(i as int), c),
        decreases words@.len() - i,
    {
        let n = count_char(&words[i], c);
        proof {
            assert(refs.take(i + 1).drop_last() =~= refs.take(i as int));
            assert(refs.take(i + 1).last() == words@[i as int]@);
        }
        if n > best {
            best = n;
        }
        i = i + 1;
    }
    assert(refs.take(words@.len() as int) =~= refs);
    best
}

/// Whether `w` respects the letter caps of the reference words.
pub fn within_caps(w: &Vec<char>, words: &Vec<Vec<char>>) -> (r: bool)
    ensures
        r == valid(w@, words_view(words@)),
{
    let ghost refs = words_view(words@);
    let mut k: usize = 0;
    while k < w.len()
        invariant
            refs == words_view(words@),
            k <= w@.len(),
            forall|i: int| 0 <= i < k ==> #[trigger] letters(w@).count(w@[i]) <= cap(refs, w@[i]),
        decreases w@.len() - k,
    {
        let c = w[k];
        if count_char(w, c) > letter_cap(words, c) {
            return false;
        }
        k = k + 1;
    }
    true
}

/// The length of the longest reference word.
pub fn longest(words: &Vec<Vec<char>>) -> (r: usize)
    ensures
        r == max_len(words_view(words@)),
{
    let ghost refs = words_view(words@);
    let mut best: usize = 0;
    let mut i: usize = 0;
    assert(refs.take(0) =~= Seq::<Seq<char>>::empty());
    while i < words.len()
        invariant
            refs == words_view(words@),
            i <= words@.len(),
            best == max_len(refs.take(i as int)),
        decreases words@.len() - i,
    {
        proof {
            assert(refs.take(i + 1).drop_last() =~= refs.take(i as int));
            assert(refs.take(i + 1).last() == words@[i as int]@);
        }
        if words[i].len() > best {
            best = words[i].len();
        }
        i = i + 1;
    }
    assert(refs.take(words@.len() as int) =~= refs);
    best
}

/// The words of exactly `length` characters over `letters` that respect the
/// letter caps of the reference words, in generation order.
pub fn filtered_words(letters: &Vec<char>, words: &Vec<Vec<char>>, length: usize) -> (r: Vec<
    Vec<char>,
>)
    ensures
        words_view(r@) == words_of_len(letters@, length as nat).filter(
            valid_for(words_view(words@)),
        ),
{
    let ghost refs = words_view(words@);
    let candidates = create_words(letters, length);
    let ghost gen = words_of_len(letters@, length as nat);
    let mut out: Vec<Vec<char>> = Vec::new();
    let mut k: usize = 0;
    assert(gen.take(0).filter(valid_for(refs)) =~= Seq::<Seq<char>>::empty());
    while k < candidates.len()
        invariant
            refs == words_view(words@),
            words_view(candidates@) == gen,
            k <= candidates@.len(),
            words_view(out@) == gen.take(k as int).filter(valid_for(refs)),
        decreases candidates@.len() - k,
    {
        let ghost before = words_view(out@);
        proof {
            assert(gen.take(k + 1) =~= gen.take(k as int).push(gen[k as int]));
            gen.take(k as int).lemma_filter_push(gen[k as int], valid_for(refs));
            assert(gen[k as int] == candidates@[k as int]@);
        }
        if within_caps(&candidates[k], words) {
            let w = copy_word(&candidates[k]);
            out.push(w);
            assert(words_view(out@) =~= before.push(gen[k as int]));
        } else {
            assert(words_view(out@) =~= before);
        }
        k = k + 1;
    }
    assert(gen.take(candidates@.len() as int) =~= gen);
    out
}

/// Relies on rayon's `par_iter().map(..).collect_into_vec(..)` over a `Vec`:
/// an indexed parallel iterator, whose collected vector holds the mapped
/// item of each input at that input's position. The closure only calls
/// `filtered_words`.
#[verifier::external_body]
fn filtered_by_length(letters: &Vec<char>, words: &Vec<Vec<char>>, lengths: &Vec<usize>) -> (r: Vec<
    Vec<Vec<char>>,
>)
    ensures
        r@.len() == lengths@.len(),
        forall|k: int|
            0 <= k < lengths@.len() ==> words_view(#[trigger] r@[k]@) == words_of_len(
                letters@,
                lengths@[k] as nat,
            ).filter(valid_for(words_view(words@))),
{
    let mut r: Vec<Vec<Vec<char>>> = Vec::new();
    lengths.par_iter().map(|n| filtered_words(letters, words, *n)).collect_into_vec(&mut r);
    r
}

/// The candidate pool of the reference words: for each length from one to
/// that of the longest word, every word over their alphabet that respects
/// their letter caps, in generation order. The lengths are enumerated in
/// parallel.
pub fn all_words(words: &Vec<Vec<char>>) -> (r: Vec<Vec<char>>)
    ensures
        words_view(r@) == candidate_pool(words_view(words@)),
{
    let ghost refs = words_view(words@);
    let max_len = longest(words);
    let letters_in_use = unique_letters(words);
    let ghost alpha = letters_in_use@;
    let mut lengths: Vec<usize> = Vec::new();
    let mut n: usize = 0;
    while n < max_len
        invariant
            n <= max_len,
            lengths@.len() == n,
            forall|k: int| 0 <= k < n ==> lengths@[k] == k + 1,
        decreases max_len - n,
    {
        lengths.push(n + 1);
        n = n + 1;
    }
    let buckets = filtered_by_length(&letters_in_use, words, &lengths);
    let mut out: Vec<Vec<char>> = Vec::new();
    assert(words_view(out@) =~= pool_upto(refs, 0));
    let mut len: usize = 0;
    while len < max_len
        invariant
            refs == words_view(words@),
            alpha == letters_in_use@,
            alpha == alphabet(refs),
            max_len == crate::generate::max_len(refs),
            buckets@.len() == max_len,
            forall|k: int|
                0 <= k < max_len ==> words_view(#[trigger] buckets@[k]@) == words_of_len(
                    alpha,
                    (k + 1) as nat,
                ).filter(valid_for(refs)),
            len <= max_len,
            words_view(out@) == pool_upto(refs, len as nat),
        decreases max_len - len,
    {
        let bucket = &buckets[len];
        let ghost fresh = words_view(bucket@);
        let ghost start = words_view(out@);
        assert(fresh == words_of_len(alpha, (len + 1) as nat).filter(valid_for(refs)));
        let mut k: usize = 0;
        assert(start + fresh.take(0) =~= start);
        while k < bucket.len()
            invariant
                fresh == words_view(bucket@),
                start == pool_upto(refs, len as nat),
                k <= bucket@.len(),
                words_view(out@) == start + fresh.take(k as int),
            decreases bucket@.len() - k,
        {
            let ghost before = words_view(out@);
            let w = copy_word(&bucket[k]);
            out.push(w);
            proof {
                assert(fresh[k as int] == bucket@[k as int]@);
                assert(words_view(out@) =~= before.push(fresh[k as int]));
                assert(start + fresh.take(k + 1) =~= (start + fresh.take(k as int)).push(
                    fresh[k as int],
                ));
            }
            k = k + 1;
        }
        assert(fresh.take(bucket@.len() as int) =~= fresh);
        len = len + 1;
    }
    out
}

proof fn lemma_word_at_len(alpha: Seq<char>, n: nat, k: int)
    ensures
        word_at(alpha, n, k).len() == n,
    decreases n,
{
    if n > 0 {
        lemma_word_at_len(alpha, (n - 1) as nat, k / (alpha.len() as int));
    }
}

/// Every word of the pool up to length `n` has between one and `n`
/// characters.
pub proof fn lemma_pool_lengths(refs: Seq<Seq<char>>, n: nat)
    ensures
        forall|j: int|
            0 <= j < pool_upto(refs, n).len() ==> 1 <= #[trigger] pool_upto(refs, n)[j].len() <= n,
    decreases n,
{
    if n > 0 {
        let prev = pool_upto(refs, (n - 1) as nat);
        let gen = words_of_len(alphabet(refs), n);
        let fresh = gen.filter(valid_for(refs));
        lemma_pool_lengths(refs, (n - 1) as nat);
        assert forall|j: int| 0 <= j < fresh.len() implies #[trigger] fresh[j].len() == n by {
            assert(fresh.contains(fresh[j]));
            gen.lemma_filter_contains_rev(valid_for(refs), fresh[j]);
            let k = choose|k: int| 0 <= k < gen.len() && gen[k] == fresh[j];
            lemma_word_at_len(alphabet(refs), n, k);
        }
        assert forall|j: int| 0 <= j < pool_upto(refs, n).len() implies 1 <= #[trigger] pool_upto(
            refs,
            n,
        )[j].len() <= n by {
            if j >= prev.len() {
                assert(pool_upto(refs, n)[j] == fresh[j - prev.len()]);
            } else {
                assert(pool_upto(refs, n)[j] == prev[j]);
            }
        }
    }
}

/// Raising the length bound only appends to the pool: the pool up to `n`
/// is a prefix of the pool up to any `m >= n`, so its size never shrinks.
pub proof fn lemma_pool_grows(refs: Seq<Seq<char>>, n: nat, m: nat)
    requires
        n <= m,
    ensures
        pool_upto(refs, n).len() <= pool_upto(refs, m).len(),
        pool_upto(refs, n) == pool_upto(refs, m).take(pool_upto(refs, n).len() as int),
    decreases m,
{
    if n < m {
        lemma_pool_grows(refs, n, (m - 1) as nat);
        let prev = pool_upto(refs, (m - 1) as nat);
        assert(pool_upto(refs, m).take(prev.len() as int) =~= prev);
        assert(pool_upto(refs, m).take(pool_upto(refs, n).len() as int) =~= prev.take(
            pool_upto(refs, n).len() as int,
        ));
    } else {
        assert(pool_upto(refs, m).take(pool_upto(refs, m).len() as int) =~= pool_upto(refs, m));
    }
}

proof fn lemma_cap_covers(refs: Seq<Seq<char>>, i: int, c: char)
    requires
        0 <= i < refs.len(),
    ensures
        letters(refs[i]).count(c) <= cap(refs, c),
    decreases refs.len(),
{
    if i < refs.len() - 1 {
        lemma_cap_covers(refs.drop_last(), i, c);
    }
}

/// No reference word is longer than the longest.
pub proof fn lemma_max_len_covers(refs: Seq<Seq<char>>, i: int)
    requires
        0 <= i < refs.len(),
    ensures
        refs[i].len() <= max_len(refs),
    decreases refs.len(),
{
    if i < refs.len() - 1 {
        lemma_max_len_covers(refs.drop_last(), i);
    }
}

proof fn lemma_dedup_contains(s: Seq<char>, x: char)
    ensures
        dedup(s).contains(x) <==> s.contains(x),
    decreases s.len(),
{
    if s.len() > 0 {
        lemma_dedup_contains(s.drop_last(), x);
        let d = dedup(s.drop_last());
        if s.contains(x) && x != s.last() {
            let p = choose|p: int| 0 <= p < s.len() && s[p] == x;
            assert(s.drop_last()[p] == x);
        }
        if s.drop_last().contains(x) {
            let p = choose|p: int| 0 <= p < s.drop_last().len() && s.drop_last()[p] == x;
            assert(s[p] == x);
        }
        if !d.contains(s.last()) {
            assert(d.push(s.last())[d.len() as int] == s.last());
            if d.contains(x) {
                let p = choose|p: int| 0 <= p < d.len() && d[p] == x;
                assert(d.push(s.last())[p] == x);
            }
            if d.push(s.last()).contains(x) && x != s.last() {
                let p = choose|p: int| 0 <= p < d.len() + 1 && d.push(s.last())[p] == x;
                assert(d[p] == x);
            }
        }
        assert(s[s.len() - 1] == s.last());
    }
}

proof fn lemma_concat_contains(refs: Seq<Seq<char>>, i: int, p: int)
    requires
        0 <= i < refs.len(),
        0 <= p < refs[i].len(),
    ensures
        concat(refs).contains(refs[i][p]),
    decreases refs.len(),
{
    let front = concat(refs.drop_last());
    if i < refs.len() - 1 {
        lemma_concat_contains(refs.drop_last(), i, p);
        let q = choose|q: int| 0 <= q < front.len() && front[q] == refs[i][p];
        assert(concat(refs)[q] == refs[i][p]);
    } else {
        assert(concat(refs)[front.len() + p] == refs[i][p]);
    }
}

proof fn lemma_word_encoded(alpha: Seq<char>, w: Seq<char>)
    requires
        alpha.len() > 0,
        forall|p: int| 0 <= p < w.len() ==> alpha.contains(#[trigger] w[p]),
    ensures
        exists|k: int|
            0 <= k < power_len(alpha.len(), w.len()) && #[trigger] word_at(alpha, w.len(), k) == w,
    decreases w.len(),
{
    let base = alpha.len() as int;
    if w.len() == 0 {
        assert(word_at(alpha, 0, 0) =~= w);
    } else {
        let n = (w.len() - 1) as nat;
        let front = w.drop_last();
        assert forall|p: int| 0 <= p < front.len() implies alpha.contains(#[trigger] front[p]) by {
            assert(front[p] == w[p]);
        }
        lemma_word_encoded(alpha, front);
        let k1 = choose|k: int| 0 <= k < power_len(alpha.len(), n) && #[trigger] word_at(alpha, n, k) == front;
        assert(alpha.contains(w[w.len() - 1]));
        let d = choose|d: int| 0 <= d < alpha.len() && alpha[d] == w[w.len() - 1];
        let k = k1 * base + d;
        let pl = power_len(alpha.len(), n) as int;
        lemma_fundamental_div_mod_converse(k, base, k1, d);
        assert(k < pl * base) by (nonlinear_arith)
            requires
                0 <= k1 < pl,
                0 <= d < base,
                k == k1 * base + d,
        ;
        assert(k >= 0) by (nonlinear_arith)
            requires
                0 <= k1,
                0 <= d,
                base > 0,
                k == k1 * base + d,
        ;
        assert(word_at(alpha, w.len(), k) == front.push(w.last()));
        assert(front.push(w.last()) =~= w);
    }
}

/// Every non-empty reference word belongs to the candidate pool of its
/// reference set.
pub proof fn lemma_reference_in_pool(refs: Seq<Seq<char>>, i: int)
    requires
        0 <= i < refs.len(),
        refs[i].len() > 0,
    ensures
        candidate_pool(refs).contains(refs[i]),
{
    let w = refs[i];
    let alpha = alphabet(refs);
    assert forall|p: int| 0 <= p < w.len() implies alpha.contains(#[trigger] w[p]) by {
        lemma_concat_contains(refs, i, p);
        lemma_dedup_contains(concat(refs), w[p]);
    }
    assert(alpha.contains(w[0]));
    lemma_word_encoded(alpha, w);
    let n = w.len();
    let k = choose|k: int| 0 <= k < power_len(alpha.len(), n) && #[trigger] word_at(alpha, n, k) == w;
    let gen = words_of_len(alpha, n);
    assert(gen[k] == w);
    assert forall|p: int| 0 <= p < w.len() implies #[trigger] letters(w).count(w[p]) <= cap(refs, w[p]) by {
        lemma_cap_covers(refs, i, w[p]);
    }
    assert(valid_for(refs)(gen[k]));
    gen.lemma_filter_contains(valid_for(refs), k);
    let fresh = gen.filter(valid_for(refs));
    let q = choose|q: int| 0 <= q < fresh.len() && fresh[q] == w;
    let prev = pool_upto(refs, (n - 1) as nat);
    assert(pool_upto(refs, n)[prev.len() + q] == w);
    lemma_max_len_covers(refs, i);
    lemma_pool_grows(refs, n, max_len(refs));
    let big = candidate_pool(refs);
    assert(big[prev.len() + q] == pool_upto(refs, n)[prev.len() + q]);
}

/// The candidate pool is empty exactly when every reference word is.
pub proof fn lemma_pool_empty_iff(refs: Seq<Seq<char>>)
    ensures
        candidate_pool(refs).len() == 0 <==> max_len(refs) == 0,
{
    if max_len(refs) > 0 {
        let i = lemma_longest_exists(refs);
        lemma_reference_in_pool(refs, i);
    }
}

proof fn lemma_longest_exists(refs: Seq<Seq<char>>) -> (i: int)
    requires
        max_len(refs) > 0,
    ensures
        0 <= i < refs.len(),
        refs[i].len() == max_len(refs),
    decreases refs.len(),
{
    if max_len(refs.drop_last()) >= refs.last().len() {
        let j = lemma_longest_exists(refs.drop_last());
        j
    } else {
        (refs.len() - 1) as int
    }
}

} // verus!
