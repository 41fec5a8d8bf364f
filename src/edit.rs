//! Pairwise costs between two words: a multiset difference and two edit
//! distances computed by dynamic programming.
use vstd::prelude::*;
use vstd::multiset::Multiset;
use crate::text::{chars_of, copy_word};

verus! {

pub open spec fn min3(x: nat, y: nat, z: nat) -> nat {
    if x <= y && x <= z {
        x
    } else if y <= z {
        y
    } else {
        z
    }
}

/// Levenshtein distance: unit cost for each insertion, deletion and
/// substitution, nothing for a matching character.
pub open spec fn lev(a: Seq<char>, b: Seq<char>) -> nat
    decreases a.len() + b.len(),
{
    if a.len() == 0 {
        b.len()
    } else if b.len() == 0 {
        a.len()
    } else if a.last() == b.last() {
        lev(a.drop_last(), b.drop_last())
    } else {
        1 + min3(lev(a.drop_last(), b.drop_last()), lev(a, b.drop_last()), lev(a.drop_last(), b))
    }
}

pub open spec fn max_nat(x: nat, y: nat) -> nat {
    if x >= y {
        x
    } else {
        y
    }
}

/// The distance never exceeds the longer of the two lengths.
pub proof fn lemma_lev_bound(a: Seq<char>, b: Seq<char>)
    ensures
        lev(a, b) <= max_nat(a.len(), b.len()),
    decreases a.len() + b.len(),
{
    if a.len() > 0 && b.len() > 0 {
        lemma_lev_bound(a.drop_last(), b.drop_last());
        lemma_lev_bound(a, b.drop_last());
        lemma_lev_bound(a.drop_last(), b);
    }
}

proof fn lemma_lev_step(a: Seq<char>, b: Seq<char>, i: int, j: int)
    requires
        0 < i <= a.len(),
        0 < j <= b.len(),
    ensures
        lev(a.take(i), b.take(j)) == if a[i - 1] == b[j - 1] {
            lev(a.take(i - 1), b.take(j - 1))
        } else {
            1 + min3(
                lev(a.take(i - 1), b.take(j - 1)),
                lev(a.take(i), b.take(j - 1)),
                lev(a.take(i - 1), b.take(j)),
            )
        },
{
    assert(a.take(i).drop_last() =~= a.take(i - 1));
    assert(b.take(j).drop_last() =~= b.take(j - 1));
}

/// Levenshtein distance with substitution between the characters of two
/// words, computed with two rolling rows of the table.
pub fn levenshtein_distance_sub(word1: &str, word2: &str) -> (r: usize)
    ensures
        r == lev(word1@, word2@),
{
    let chars1 = chars_of(word1);
    let chars2 = chars_of(word2);
    edit_distance(&chars1, &chars2)
}

/// Levenshtein distance with substitution between two character sequences,
/// keeping one row of the table plus two scalars.
pub fn edit_distance(chars1: &Vec<char>, chars2: &Vec<char>) -> (r: usize)
    ensures
        r == lev(chars1@, chars2@),
{
    let len1 = chars1.len();
    let len2 = chars2.len();
    let ghost a = chars1@;
    let ghost b = chars2@;
    if len1 == 0 {
        return len2;
    }
    if len2 == 0 {
        return len1;
    }
    // row[k] holds the distance from the current prefix of word1 to the
    // first k + 1 characters of word2; the empty prefix of word2 is implicit.
    let mut row: Vec<usize> = Vec::new();
    let mut k: usize = 0;
    while k < len2
        invariant
            k <= len2,
            len2 == b.len(),
            row@.len() == k,
            forall|m: int| 0 <= m < k ==> row@[m] == m + 1,
        decreases len2 - k,
    {
        row.push(k + 1);
        k = k + 1;
    }
    assert forall|m: int| 0 <= m < len2 implies row@[m] == lev(a.take(0), b.take(m + 1)) by {
        assert(a.take(0).len() == 0);
    }
    let mut i: usize = 0;
    while i < len1
        invariant
            a == chars1@,
            b == chars2@,
            len1 == a.len(),
            len2 == b.len(),
            i <= len1,
            row@.len() == len2,
            forall|m: int| 0 <= m < len2 ==> row@[m] == lev(a.take(i as int), b.take(m + 1)),
        decreases len1 - i,
    {
        let ii: usize = i + 1;
        let mut diag: usize = i;
        let mut left: usize = ii;
        proof {
            assert(b.take(0).len() == 0);
            assert(a.take(i as int).len() == i);
            assert(a.take(ii as int).len() == ii);
        }
        let mut j: usize = 0;
        while j < len2
            invariant
                a == chars1@,
                b == chars2@,
                len1 == a.len(),
                len2 == b.len(),
                ii == i + 1,
                ii <= len1,
                j <= len2,
                row@.len() == len2,
                diag == lev(a.take(i as int), b.take(j as int)),
                left == lev(a.take(ii as int), b.take(j as int)),
                forall|m: int| j <= m < len2 ==> row@[m] == lev(a.take(i as int), b.take(m + 1)),
                forall|m: int| 0 <= m < j ==> row@[m] == lev(a.take(ii as int), b.take(m + 1)),
            decreases len2 - j,
        {
            proof {
                lemma_lev_step(a, b, ii as int, j + 1);
                lemma_lev_bound(a.take(i as int), b.take(j as int));
            }
            let up = row[j];
            let cur: usize;
            if chars1[i] == chars2[j] {
                cur = diag;
            } else {
                let mut best = diag;
                if left < best {
                    best = left;
                }
                if up < best {
                    best = up;
                }
                cur = best + 1;
            }
            row.set(j, cur);
            diag = up;
            left = cur;
            j = j + 1;
        }
        i = ii;
    }
    assert(a.take(len1 as int) =~= a);
    assert(b.take(len2 as int) =~= b);
    row[len2 - 1]
}

/// Every word is at distance zero from itself.
pub proof fn lemma_lev_self(a: Seq<char>)
    ensures
        lev(a, a) == 0,
    decreases a.len(),
{
    if a.len() > 0 {
        lemma_lev_self(a.drop_last());
    }
}

/// The distance does not depend on the order of its operands.
pub proof fn lemma_lev_symmetric(a: Seq<char>, b: Seq<char>)
    ensures
        lev(a, b) == lev(b, a),
    decreases a.len() + b.len(),
{
    if a.len() > 0 && b.len() > 0 {
        lemma_lev_symmetric(a.drop_last(), b.drop_last());
        lemma_lev_symmetric(a, b.drop_last());
        lemma_lev_symmetric(a.drop_last(), b);
    }
}

/// From the empty word, the distance is the other word's length.
pub proof fn lemma_lev_from_empty(b: Seq<char>)
    ensures
        lev(Seq::empty(), b) == b.len(),
{
}

pub open spec fn min2(x: nat, y: nat) -> nat {
    if x <= y {
        x
    } else {
        y
    }
}

/// Edit distance counting insertions and deletions only.
pub open spec fn lev_indel(a: Seq<char>, b: Seq<char>) -> nat
    decreases a.len() + b.len(),
{
    if a.len() == 0 {
        b.len()
    } else if b.len() == 0 {
        a.len()
    } else if a.last() == b.last() {
        lev_indel(a.drop_last(), b.drop_last())
    } else {
        1 + min2(lev_indel(a, b.drop_last()), lev_indel(a.drop_last(), b))
    }
}

proof fn lemma_lev_indel_bound(a: Seq<char>, b: Seq<char>)
    ensures
        lev_indel(a, b) <= a.len() + b.len(),
    decreases a.len() + b.len(),
{
    if a.len() > 0 && b.len() > 0 {
        lemma_lev_indel_bound(a.drop_last(), b.drop_last());
        lemma_lev_indel_bound(a, b.drop_last());
        lemma_lev_indel_bound(a.drop_last(), b);
    }
}

proof fn lemma_lev_indel_step(a: Seq<char>, b: Seq<char>, i: int, j: int)
    requires
        0 < i <= a.len(),
        0 < j <= b.len(),
    ensures
        lev_indel(a.take(i), b.take(j)) == if a[i - 1] == b[j - 1] {
            lev_indel(a.take(i - 1), b.take(j - 1))
        } else {
            1 + min2(lev_indel(a.take(i), b.take(j - 1)), lev_indel(a.take(i - 1), b.take(j)))
        },
{
    assert(a.take(i).drop_last() =~= a.take(i - 1));
    assert(b.take(j).drop_last() =~= b.take(j - 1));
}

/// Edit distance without substitution: the fewest single-character
/// insertions and deletions that turn one word into the other.
pub fn levenshtein_distance(word1: &str, word2: &str) -> (r: usize)
    requires
        word1@.len() + word2@.len() <= usize::MAX,
    ensures
        r == lev_indel(word1@, word2@),
{
    let chars1 = chars_of(word1);
    let chars2 = chars_of(word2);
    let len1 = chars1.len();
    let len2 = chars2.len();
    let ghost a = chars1@;
    let ghost b = chars2@;
    if len1 == 0 {
        return len2;
    }
    if len2 == 0 {
        return len1;
    }
    // row[k] holds the distance from the current prefix of word1 to the
    // first k + 1 characters of word2.
    let mut row: Vec<usize> = Vec::new();
    let mut k: usize = 0;
    while k < len2
        invariant
            k <= len2,
            len2 == b.len(),
            row@.len() == k,
            forall|m: int| 0 <= m < k ==> row@[m] == m + 1,
        decreases len2 - k,
    {
        row.push(k + 1);
        k = k + 1;
    }
    assert forall|m: int| 0 <= m < len2 implies row@[m] == lev_indel(a.take(0), b.take(m + 1)) by {
        assert(a.take(0).len() == 0);
    }
    let mut i: usize = 0;
    while i < len1
        invariant
            a == chars1@,
            b == chars2@,
            len1 == a.len(),
            len2 == b.len(),
            len1 + len2 <= usize::MAX,
            i <= len1,
            row@.len() == len2,
            forall|m: int| 0 <= m < len2 ==> row@[m] == lev_indel(a.take(i as int), b.take(m + 1)),
        decreases len1 - i,
    {
        let ii: usize = i + 1;
        let mut diag: usize = i;
        let mut left: usize = ii;
        proof {
            assert(b.take(0).len() == 0);
            assert(a.take(i as int).len() == i);
            assert(a.take(ii as int).len() == ii);
        }
        let mut j: usize = 0;
        while j < len2
            invariant
                a == chars1@,
                b == chars2@,
                len1 == a.len(),
                len2 == b.len(),
                len1 + len2 <= usize::MAX,
                ii == i + 1,
                ii <= len1,
                j <= len2,
                row@.len() == len2,
                diag == lev_indel(a.take(i as int), b.take(j as int)),
                left == lev_indel(a.take(ii as int), b.take(j as int)),
                forall|m: int| j <= m < len2 ==> row@[m] == lev_indel(a.take(i as int), b.take(m + 1)),
                forall|m: int| 0 <= m < j ==> row@[m] == lev_indel(a.take(ii as int), b.take(m + 1)),
            decreases len2 - j,
        {
            proof {
                lemma_lev_indel_step(a, b, ii as int, j + 1);
                lemma_lev_indel_bound(a.take(i as int), b.take(j + 1));
            }
            let up = row[j];
            let cur: usize;
            if chars1[i] == chars2[j] {
                cur = diag;
            } else {
                let mut best = left;
                if up < best {
                    best = up;
                }
                cur = best + 1;
            }
            row.set(j, cur);
            diag = up;
            left = cur;
            j = j + 1;
        }
        i = ii;
    }
    assert(a.take(len1 as int) =~= a);
    assert(b.take(len2 as int) =~= b);
    row[len2 - 1]
}

/// The multiset of characters of a word.
pub open spec fn letters(w: Seq<char>) -> Multiset<char> {
    w.to_multiset()
}

/// Characters to remove from `a` and to add to it, ignoring order, so that it
/// holds the same letters as `b`.
pub open spec fn multiset_distance(a: Seq<char>, b: Seq<char>) -> nat {
    letters(a).sub(letters(b)).len() + letters(b).sub(letters(a)).len()
}

/// Position of `x` in `v`, if it occurs there.
pub fn find_char(v: &Vec<char>, x: char) -> (r: Option<usize>)
    ensures
        match r {
            Some(p) => p < v@.len() && v@[p as int] == x,
            None => !v@.contains(x),
        },
{
    let mut k: usize = 0;
    while k < v.len()
        invariant
            k <= v@.len(),
            forall|m: int| 0 <= m < k ==> v@[m] != x,
        decreases v@.len() - k,
    {
        if v[k] == x {
            return Some(k);
        }
        k = k + 1;
    }
    None
}

/// The multiset difference between the letters of two words: how many
/// characters must be removed and added, order ignored. Two anagrams are at
/// distance zero.
pub fn distance(word1: &str, word2: &str) -> (r: usize)
    requires
        word1@.len() + word2@.len() <= usize::MAX,
    ensures
        r == multiset_distance(word1@, word2@),
{
    let chars1 = chars_of(word1);
    let chars2 = chars_of(word2);
    letter_difference(&chars1, &chars2)
}

/// The multiset difference between two character sequences: the characters
/// of the first not matched in the second, plus those of the second not
/// matched in the first.
pub fn letter_difference(chars1: &Vec<char>, chars2: &Vec<char>) -> (r: usize)
    requires
        chars1@.len() + chars2@.len() <= usize::MAX,
    ensures
        r == multiset_distance(chars1@, chars2@),
{
    broadcast use vstd::multiset::group_multiset_axioms, vstd::seq_lib::group_to_multiset_ensures;

    let ghost word1 = chars1@;
    let ghost word2 = chars2@;
    let mut rest = copy_word(chars2);
    let ghost a = chars1@;
    let ghost bm = letters(word2);
    let mut removals: usize = 0;
    let mut i: usize = 0;
    assert(a.take(0) =~= Seq::<char>::empty());
    assert(letters(a.take(0)).sub(bm) =~= letters(a.take(0)));
    assert(bm.sub(letters(a.take(0))) =~= bm);
    while i < chars1.len()
        invariant
            a == chars1@,
            a == word1,
            bm == letters(word2),
            a.len() + word2.len() <= usize::MAX,
            i <= a.len(),
            removals <= i,
            rest@.len() <= word2.len(),
            letters(rest@) == bm.sub(letters(a.take(i as int))),
            removals == letters(a.take(i as int)).sub(bm).len(),
        decreases a.len() - i,
    {
        let x = chars1[i];
        let ghost ai = letters(a.take(i as int));
        proof {
            assert(a.take(i as int).push(x) =~= a.take(i + 1));
            a.take(i as int).to_multiset_ensures();
        }
        assert(letters(a.take(i + 1)) =~= ai.insert(x));
        match find_char(&rest, x) {
            Some(p) => {
                let ghost before = rest@;
                rest.remove(p);
                proof {
                    assert(before.contains(x));
                    before.to_multiset_ensures();
                    assert(before.to_multiset().count(x) > 0);
                    assert(letters(rest@) =~= bm.sub(ai.insert(x)));
                    assert(ai.insert(x).sub(bm) =~= ai.sub(bm));
                }
            },
            None => {
                proof {
                    rest@.to_multiset_ensures();
                    assert(letters(rest@).count(x) == 0);
                    assert(bm.sub(ai.insert(x)) =~= bm.sub(ai));
                    assert(ai.insert(x).sub(bm) =~= ai.sub(bm).insert(x));
                }
                removals = removals + 1;
            },
        }
        i = i + 1;
    }
    assert(a.take(a.len() as int) =~= a);
    proof {
        rest@.to_multiset_ensures();
    }
    removals + rest.len()
}

proof fn lemma_sub_len(m1: Multiset<char>, m2: Multiset<char>)
    ensures
        m1.sub(m2).len() <= m1.len(),
{
    broadcast use vstd::multiset::group_multiset_axioms;

    let d = m1.sub(m2);
    assert(d.subset_of(m1));
    assert(m1.sub(d).len() == m1.len() - d.len());
}

/// The multiset distance never exceeds the two lengths together.
pub proof fn lemma_multiset_distance_bound(a: Seq<char>, b: Seq<char>)
    ensures
        multiset_distance(a, b) <= a.len() + b.len(),
{
    broadcast use vstd::seq_lib::group_to_multiset_ensures;

    lemma_sub_len(letters(a), letters(b));
    lemma_sub_len(letters(b), letters(a));
    a.to_multiset_ensures();
    b.to_multiset_ensures();
}

} // verus!
