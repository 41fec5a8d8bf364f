//! One row of the word list: a concept's id and its word in each
//! language, and the lookup of a row by one of its words.
use vstd::prelude::*;
use crate::text::chars_of;

verus! {

/// A concept: its numeric id and its word in each language column.
pub struct Record {
    pub id: u32,
    pub sw: String,
    pub pl: String,
    pub en: String,
    pub fr: String,
    pub la: String,
    pub nl: String,
    pub bs: String,
    pub ca: String,
    pub es: String,
    pub sk: String,
    pub pt: String,
    pub hr: String,
    pub it: String,
    pub sl: String,
    pub de: String,
}

/// How many columns a row of the word list has: the id, then fifteen
/// languages.
pub const ROW_WIDTH: usize = 16;

pub open spec fn is_digit(c: char) -> bool {
    '0' <= c && c <= '9'
}

pub open spec fn all_digits(s: Seq<char>) -> bool {
    forall|i: int| 0 <= i < s.len() ==> is_digit(#[trigger] s[i])
}

/// The number that a string of decimal digits spells.
pub open spec fn decimal_value(s: Seq<char>) -> nat
    decreases s.len(),
{
    if s.len() == 0 {
        0
    } else {
        decimal_value(s.drop_last()) * 10 + (s.last() as nat - '0' as nat) as nat
    }
}

/// The digits of a number as written: an optional leading `+`, then the
/// rest.
pub open spec fn unsigned_body(s: Seq<char>) -> Seq<char> {
    if s.len() > 0 && s[0] == '+' {
        s.drop_first()
    } else {
        s
    }
}

/// The value of a decimal `u32` as written, if `s` is one: an optional `+`,
/// at least one digit and nothing else, with a value that fits.
pub open spec fn parse_u32_spec(s: Seq<char>) -> Option<u32> {
    let body = unsigned_body(s);
    if body.len() > 0 && all_digits(body) && decimal_value(body) <= u32::MAX {
        Some(decimal_value(body) as u32)
    } else {
        None
    }
}

proof fn lemma_decimal_prefix_grows(s: Seq<char>, k: int)
    requires
        0 <= k <= s.len(),
        all_digits(s),
    ensures
        decimal_value(s.take(k)) <= decimal_value(s),
    decreases s.len() - k,
{
    if k < s.len() {
        lemma_decimal_prefix_grows(s, k + 1);
        assert(s.take(k + 1).drop_last() =~= s.take(k));
    } else {
        assert(s.take(k) =~= s);
    }
}

/// Reads a decimal `u32`: an optional `+`, then digits only.
pub fn parse_u32(text: &str) -> (r: Option<u32>)
    ensures
        r == parse_u32_spec(text@),
{
    let s = chars_of(text);
    let ghost body = unsigned_body(s@);
    let mut k: usize = 0;
    if s.len() > 0 && s[0] == '+' {
        k = 1;
    }
    let start = k;
    assert(body =~= s@.skip(start as int));
    if start == s.len() {
        return None;
    }
    let mut acc: u64 = 0;
    assert(body.take(0) =~= Seq::<char>::empty());
    while k < s.len()
        invariant
            start <= k <= s@.len(),
            start < s@.len(),
            body == s@.skip(start as int),
            body == unsigned_body(text@),
            acc <= u32::MAX,
            acc == decimal_value(body.take(k - start)),
            all_digits(body.take(k - start)),
        decreases s@.len() - k,
    {
        let c = s[k];
        let ghost i = k - start;
        proof {
            assert(body[i] == c);
            assert(body.take(i + 1).drop_last() =~= body.take(i));
        }
        if !('0' <= c && c <= '9') {
            proof {
                assert(!is_digit(body[i]));
                assert(!all_digits(body));
            }
            return None;
        }
        acc = acc * 10 + ((c as u32) - ('0' as u32)) as u64;
        if acc > 4294967295u64 {
            proof {
                assert forall|j: int| 0 <= j < body.take(i + 1).len() implies is_digit(
                    #[trigger] body.take(i + 1)[j],
                ) by {
                    if j < i {
                        assert(body.take(i + 1)[j] == body.take(i)[j]);
                    }
                }
                if all_digits(body) {
                    lemma_decimal_prefix_grows(body, i + 1);
                }
            }
            return None;
        }
        k = k + 1;
        proof {
            assert forall|j: int| 0 <= j < body.take(i + 1).len() implies is_digit(
                #[trigger] body.take(i + 1)[j],
            ) by {
                if j < i {
                    assert(body.take(i + 1)[j] == body.take(i)[j]);
                }
            }
        }
    }
    assert(body.take(s@.len() - start) =~= body);
    Some(acc as u32)
}

/// A record read from the columns of a row: `None` unless the row has
/// exactly sixteen columns and the first is a decimal `u32`.
pub fn parse_csv_line(line: Vec<String>) -> (r: Option<Record>)
    ensures
        r is Some <==> line@.len() == ROW_WIDTH && parse_u32_spec(line@[0]@) is Some,
        r matches Some(rec) ==> {
            &&& Some(rec.id) == parse_u32_spec(line@[0]@)
            &&& rec.sw == line@[1]
            &&& rec.pl == line@[2]
            &&& rec.en == line@[3]
            &&& rec.fr == line@[4]
            &&& rec.la == line@[5]
            &&& rec.nl == line@[6]
            &&& rec.bs == line@[7]
            &&& rec.ca == line@[8]
            &&& rec.es == line@[9]
            &&& rec.sk == line@[10]
            &&& rec.pt == line@[11]
            &&& rec.hr == line@[12]
            &&& rec.it == line@[13]
            &&& rec.sl == line@[14]
            &&& rec.de == line@[15]
        },
{
    if line.len() != ROW_WIDTH {
        return None;
    }
    let id = match parse_u32(line[0].as_str()) {
        Some(v) => v,
        None => {
            return None;
        },
    };
    Some(
        Record {
            id,
            sw: line[1].clone(),
            pl: line[2].clone(),
            en: line[3].clone(),
            fr: line[4].clone(),
            la: line[5].clone(),
            nl: line[6].clone(),
            bs: line[7].clone(),
            ca: line[8].clone(),
            es: line[9].clone(),
            sk: line[10].clone(),
            pt: line[11].clone(),
            hr: line[12].clone(),
            it: line[13].clone(),
            sl: line[14].clone(),
            de: line[15].clone(),
        },
    )
}

/// The words that a search reconciles, in a fixed language order.
pub open spec fn selected_fields(rec: Record) -> Seq<String> {
    seq![rec.de, rec.en, rec.es, rec.fr, rec.it, rec.nl, rec.pl, rec.pt]
}

/// The words of a record that a search reconciles: German, English,
/// Spanish, French, Italian, Dutch, Polish and Portuguese.
pub fn get_fields(record: &Record) -> (r: Vec<String>)
    ensures
        r@ == selected_fields(*record),
{
    let r = vec![
        record.de.clone(),
        record.en.clone(),
        record.es.clone(),
        record.fr.clone(),
        record.it.clone(),
        record.nl.clone(),
        record.pl.clone(),
        record.pt.clone(),
    ];
    assert(r@ =~= selected_fields(*record));
    r
}

/// What `str::to_lowercase` makes of a string.
pub uninterp spec fn lower_of(s: Seq<char>) -> Seq<char>;

/// Relies on `str::to_lowercase`: its result depends on the characters of
/// the string alone.
#[verifier::external_body]
fn lowercase(s: &str) -> (r: String)
    ensures
        r@ == lower_of(s@),
{
    s.to_lowercase()
}

/// Whether one of the words equals the target word.
pub fn contains_word(words: &Vec<String>, target: &String) -> (r: bool)
    ensures
        r == exists|i: int| 0 <= i < words@.len() && #[trigger] words@[i]@ == target@,
{
    let mut k: usize = 0;
    while k < words.len()
        invariant
            k <= words@.len(),
            forall|i: int| 0 <= i < k ==> #[trigger] words@[i]@ != target@,
        decreases words@.len() - k,
    {
        if words[k] == *target {
            return true;
        }
        k = k + 1;
    }
    false
}

/// A record holds the target word when one of its selected words
/// equals it once both are lowercased.
pub open spec fn record_matches(rec: Record, target: Seq<char>) -> bool {
    exists|i: int|
        0 <= i < selected_fields(rec).len() && lower_of(#[trigger] selected_fields(rec)[i]@)
            == lower_of(target)
}

/// The first record among whose selected words the target word
/// stands, letter case ignored.
pub fn find_record_by_word<'a>(records: &'a [Record], target_word: &str) -> (r: Option<&'a Record>)
    ensures
        r is None ==> forall|i: int| 0 <= i < records@.len() ==> !record_matches(#[trigger] records@[i], target_word@),
        r matches Some(rec) ==> exists|i: int|
            0 <= i < records@.len() && #[trigger] records@[i] == *rec
                && record_matches(*rec, target_word@)
                && forall|j: int| 0 <= j < i ==> !record_matches(#[trigger] records@[j], target_word@),
{
    let target = lowercase(target_word);
    let mut k: usize = 0;
    while k < records.len()
        invariant
            k <= records@.len(),
            target@ == lower_of(target_word@),
            forall|j: int| 0 <= j < k ==> !record_matches(#[trigger] records@[j], target_word@),
        decreases records@.len() - k,
    {
        let fields = get_fields(&records[k]);
        let mut folded: Vec<String> = Vec::new();
        let mut m: usize = 0;
        while m < fields.len()
            invariant
                m <= fields@.len(),
                folded@.len() == m,
                forall|i: int| 0 <= i < m ==> #[trigger] folded@[i]@ == lower_of(fields@[i]@),
            decreases fields@.len() - m,
        {
            folded.push(lowercase(fields[m].as_str()));
            m = m + 1;
        }
        let found = contains_word(&folded, &target);
        proof {
            let rec = records@[k as int];
            assert(fields@ == selected_fields(rec));
            if record_matches(rec, target_word@) {
                let i = choose|i: int|
                    0 <= i < selected_fields(rec).len() && lower_of(
                        #[trigger] selected_fields(rec)[i]@,
                    ) == lower_of(target_word@);
                assert(folded@[i]@ == target@);
            }
            if found {
                let i = choose|i: int| 0 <= i < folded@.len() && #[trigger] folded@[i]@ == target@;
                assert(lower_of(selected_fields(rec)[i]@) == lower_of(target_word@));
            }
        }
        if found {
            return Some(&records[k]);
        }
        k = k + 1;
    }
    None
}

} // verus!
