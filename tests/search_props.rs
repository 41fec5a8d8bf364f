use protoword::edit::{
    distance, edit_distance, letter_difference, levenshtein_distance, levenshtein_distance_sub,
};
use protoword::generate::{
    all_words, count_char, create_words, filtered_words, letter_cap, longest, unique_letters,
    within_caps,
};
use protoword::record::{find_record_by_word, get_fields, parse_csv_line, parse_u32, Record};
use protoword::search::{
    minimize, minimize_trans_cost, minimize_with, minimize_within, pair_distance, pick_best,
    search_size, total_cost,
    total_cost_with, total_distance, PairwiseCost, SearchError,
};
use protoword::text::chars_of;

fn w(s: &str) -> Vec<char> {
    s.chars().collect()
}

fn ws(items: &[&str]) -> Vec<Vec<char>> {
    items.iter().map(|s| w(s)).collect()
}

fn strings(items: &[&str]) -> Vec<String> {
    items.iter().map(|s| s.to_string()).collect()
}

#[test]
fn lev_of_word_with_itself_is_zero() {
    for s in ["", "a", "hello", "straße", "aaaa"] {
        assert_eq!(levenshtein_distance_sub(s, s), 0);
    }
}

#[test]
fn lev_is_symmetric() {
    let pairs = [("kitten", "sitting"), ("", "abc"), ("flaw", "lawn"), ("abc", "cab"), ("père", "pater")];
    for (a, b) in pairs {
        assert_eq!(levenshtein_distance_sub(a, b), levenshtein_distance_sub(b, a));
    }
}

#[test]
fn lev_from_empty_is_length() {
    assert_eq!(levenshtein_distance_sub("", "abc"), 3);
    assert_eq!(levenshtein_distance_sub("abcd", ""), 4);
    assert_eq!(levenshtein_distance_sub("", ""), 0);
    assert_eq!(levenshtein_distance_sub("", "ñé"), 2);
}

#[test]
fn lev_hello_hallo() {
    assert_eq!(levenshtein_distance_sub("hello", "hallo"), 1);
}

#[test]
fn lev_known_values() {
    assert_eq!(levenshtein_distance_sub("kitten", "sitting"), 3);
    assert_eq!(levenshtein_distance_sub("ab", "ba"), 2);
    assert_eq!(edit_distance(&w("flaw"), &w("lawn")), 2);
}

#[test]
fn indel_distance_known_values() {
    assert_eq!(levenshtein_distance("kitten", "sitting"), 5);
    assert_eq!(levenshtein_distance("hello", "hallo"), 2);
    assert_eq!(levenshtein_distance("", "abc"), 3);
    assert_eq!(levenshtein_distance("abc", "abc"), 0);
}

#[test]
fn multiset_distance_ignores_order() {
    assert_eq!(distance("abc", "cab"), 0);
    assert_eq!(distance("aab", "abb"), 2);
    assert_eq!(distance("", "xyz"), 3);
    assert_eq!(distance("hello", "world"), 6);
}

#[test]
fn total_cost_against_itself_is_zero() {
    for s in ["a", "word", "père", ""] {
        assert_eq!(total_distance(s, &strings(&[s])), 0);
    }
}

#[test]
fn total_cost_sums_distances() {
    assert_eq!(total_distance("cat", &strings(&["cat", "car", "cart"])), 0 + 1 + 1);
    assert_eq!(total_cost(&w("a"), &ws(&["ab", "ba"])), 2);
    assert_eq!(total_distance("x", &Vec::new()), 0);
}

#[test]
fn cat_car_alphabet_caps_and_pool() {
    let refs = ws(&["cat", "car"]);
    assert_eq!(unique_letters(&refs), vec!['c', 'a', 't', 'r']);
    for c in ['c', 'a', 't', 'r'] {
        assert_eq!(letter_cap(&refs, c), 1);
    }
    assert_eq!(letter_cap(&refs, 'z'), 0);
    assert_eq!(longest(&refs), 3);
    let pool = all_words(&refs);
    assert!(pool.contains(&w("cat")));
    assert!(pool.contains(&w("car")));
    assert!(!pool.contains(&w("att")));
    assert!(!within_caps(&w("att"), &refs));
    assert!(within_caps(&w("tar"), &refs));
    // 4 + 4*3 + 4*3*2 words without a repeated letter
    assert_eq!(pool.len(), 40);
}

#[test]
fn generate_two_letters_length_two() {
    let words = create_words(&vec!['a', 'b'], 2);
    assert_eq!(words, ws(&["aa", "ab", "ba", "bb"]));
}

#[test]
fn generate_length_zero_is_empty_word() {
    assert_eq!(create_words(&vec!['a', 'b'], 0), vec![Vec::<char>::new()]);
    assert_eq!(create_words(&vec![], 2), Vec::<Vec<char>>::new());
    assert_eq!(create_words(&vec!['x', 'y', 'z'], 3).len(), 27);
}

#[test]
fn pool_is_length_ascending() {
    let pool = all_words(&ws(&["ab"]));
    assert_eq!(pool, ws(&["a", "b", "ab", "ba"]));
}

#[test]
fn minimize_is_deterministic() {
    let first = minimize_trans_cost(&strings(&["ab", "ba", "abc"]));
    let second = minimize_trans_cost(&strings(&["ab", "ba", "abc"]));
    assert_eq!(first, second);
    let small = strings(&["pa", "ap"]);
    assert_eq!(minimize_trans_cost(&small), minimize_trans_cost(&small));
    let refs = ws(&["ab", "ba", "abc"]);
    for cost in [PairwiseCost::EditDistance, PairwiseCost::LetterDifference] {
        assert_eq!(minimize_with(&refs, cost), minimize_with(&refs, cost));
    }
}

#[test]
fn minimize_breaks_ties_by_generation_order() {
    // a, b, ab and ba all cost 2: the first one generated wins
    assert_eq!(minimize(&ws(&["ab", "ba"])), Ok(w("a")));
}

#[test]
fn minimize_finds_least_cost() {
    assert_eq!(minimize_trans_cost(&strings(&["cat", "car", "cat"])), Ok("cat".to_string()));
}

#[test]
fn pool_grows_with_longest_word() {
    let short = all_words(&ws(&["aa", "bb"]));
    let long = all_words(&ws(&["aabb"]));
    assert_eq!(short.len(), 6);
    assert!(long.len() > short.len());
    assert_eq!(&long[..short.len()], &short[..]);
}

#[test]
fn single_letter_reference_set() {
    let refs = strings(&["a"]);
    assert_eq!(minimize_trans_cost(&refs), Ok("a".to_string()));
    assert_eq!(total_distance("a", &refs), 0);
}

#[test]
fn search_errors() {
    assert_eq!(minimize_trans_cost(&Vec::new()), Err(SearchError::EmptyInput));
    assert_eq!(minimize_trans_cost(&strings(&["", ""])), Err(SearchError::NoCandidates));
    assert_eq!(minimize(&ws(&[""])), Err(SearchError::NoCandidates));
}

#[test]
fn pick_best_takes_first_minimum() {
    assert_eq!(pick_best(&vec![3, 1, 1, 2]), 1);
    assert_eq!(pick_best(&vec![5]), 0);
    assert_eq!(pick_best(&vec![2, 2, 2]), 0);
}

#[test]
fn chars_are_code_points() {
    assert_eq!(chars_of("père"), vec!['p', 'è', 'r', 'e']);
    assert_eq!(chars_of(""), Vec::<char>::new());
}

#[test]
fn parse_u32_cases() {
    assert_eq!(parse_u32("42"), Some(42));
    assert_eq!(parse_u32("+7"), Some(7));
    assert_eq!(parse_u32("007"), Some(7));
    assert_eq!(parse_u32("4294967295"), Some(4294967295));
    assert_eq!(parse_u32("4294967296"), None);
    assert_eq!(parse_u32(""), None);
    assert_eq!(parse_u32("+"), None);
    assert_eq!(parse_u32("12a"), None);
    assert_eq!(parse_u32("-1"), None);
    for s in ["0", "123", "99999", "+15"] {
        assert_eq!(parse_u32(s), s.parse::<u32>().ok());
    }
}

fn row(id: &str, word: &str) -> Vec<String> {
    let mut fields = vec![id.to_string()];
    for k in 1..16 {
        fields.push(format!("{}{}", word, k));
    }
    fields
}

#[test]
fn parse_row() {
    let rec: Record = parse_csv_line(row("12", "w")).unwrap();
    assert_eq!(rec.id, 12);
    assert_eq!(rec.sw, "w1");
    assert_eq!(rec.pl, "w2");
    assert_eq!(rec.en, "w3");
    assert_eq!(rec.de, "w15");
    assert_eq!(get_fields(&rec), strings(&["w15", "w3", "w9", "w4", "w13", "w6", "w2", "w11"]));
}

#[test]
fn parse_row_rejects_bad_rows() {
    let mut short = row("1", "x");
    short.pop();
    assert!(parse_csv_line(short).is_none());
    assert!(parse_csv_line(row("one", "x")).is_none());
    let mut long = row("1", "x");
    long.push("extra".to_string());
    assert!(parse_csv_line(long).is_none());
}

#[test]
fn find_record_ignores_case() {
    let mut first = row("1", "a");
    first[15] = "Vater".to_string();
    let mut second = row("2", "b");
    second[3] = "father".to_string();
    let records = vec![parse_csv_line(first).unwrap(), parse_csv_line(second).unwrap()];
    assert_eq!(find_record_by_word(&records, "FATHER").map(|r| r.id), Some(2));
    assert_eq!(find_record_by_word(&records, "vater").map(|r| r.id), Some(1));
    assert!(find_record_by_word(&records, "mother").is_none());
    // the Swahili column is not searched
    assert!(find_record_by_word(&records, "a1").is_none());
}

#[test]
fn strategies_price_pairs_differently() {
    assert_eq!(pair_distance(PairwiseCost::EditDistance, &w("ab"), &w("ba")), 2);
    assert_eq!(pair_distance(PairwiseCost::LetterDifference, &w("ab"), &w("ba")), 0);
    assert_eq!(letter_difference(&w("aab"), &w("b")), 2);
    assert_eq!(total_cost_with(PairwiseCost::LetterDifference, &w("ab"), &ws(&["ba", "abc"])), 1);
}

#[test]
fn letter_difference_search_prefers_anagrams() {
    // a and b cost 2, ab and ba cost 0 when order is ignored
    assert_eq!(minimize_with(&ws(&["ab", "ba"]), PairwiseCost::LetterDifference), Ok(w("ab")));
    assert_eq!(minimize_with(&ws(&["ab", "ba"]), PairwiseCost::EditDistance), Ok(w("a")));
    assert_eq!(minimize_with(&Vec::new(), PairwiseCost::LetterDifference), Err(SearchError::EmptyInput));
}

#[test]
fn filtered_words_keep_caps_and_order() {
    let refs = ws(&["aab", "b"]);
    let letters = unique_letters(&refs);
    assert_eq!(letters, vec!['a', 'b']);
    assert_eq!(filtered_words(&letters, &refs, 2), ws(&["aa", "ab", "ba"]));
    assert_eq!(filtered_words(&letters, &refs, 3), ws(&["aab", "aba", "baa"]));
    assert_eq!(count_char(&w("banana"), 'a'), 3);
    assert_eq!(letter_cap(&refs, 'a'), 2);
}

#[test]
fn search_size_counts_enumerated_words() {
    assert_eq!(search_size(2, 2, 100), Some(6));
    assert_eq!(search_size(2, 2, 6), Some(6));
    assert_eq!(search_size(2, 2, 5), None);
    assert_eq!(search_size(4, 3, 1000), Some(84));
    assert_eq!(search_size(0, 3, 10), Some(0));
    assert_eq!(search_size(3, 0, 0), Some(0));
    assert_eq!(search_size(usize::MAX, 2, usize::MAX), None);
}

#[test]
fn bounded_search_fails_fast() {
    let refs = ws(&["cat", "car"]);
    assert_eq!(minimize_within(&refs, PairwiseCost::EditDistance, 83), Err(SearchError::TooLarge));
    assert_eq!(
        minimize_within(&refs, PairwiseCost::EditDistance, 84),
        minimize_with(&refs, PairwiseCost::EditDistance)
    );
    assert_eq!(minimize_within(&Vec::new(), PairwiseCost::EditDistance, 0), Err(SearchError::EmptyInput));
    assert_eq!(minimize_within(&ws(&["a"]), PairwiseCost::EditDistance, 1), Ok(w("a")));
}
