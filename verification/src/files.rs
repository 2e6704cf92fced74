use std::collections::HashMap;
use vstd::prelude::*;

use crate::exercise::table_wf;
use crate::text::{push_char, to_chars, trim, trimmed};
use rand::Rng;
use crate::word::Word;

verus! {

broadcast use vstd::std_specs::hash::group_hash_axioms;

/// How often `c` occurs in `s`.
pub open spec fn count_char(s: Seq<char>, c: char) -> nat
    decreases s.len(),
{
    if s.len() == 0 {
        0
    } else {
        count_char(s.drop_last(), c) + if s.last() == c {
            1nat
        } else {
            0nat
        }
    }
}

/// Counting a character in two joined pieces adds up.
proof fn lemma_count_char_add(a: Seq<char>, b: Seq<char>, c: char)
    ensures
        count_char(a + b, c) == count_char(a, c) + count_char(b, c),
    decreases b.len(),
{
    if b.len() == 0 {
        assert(a + b =~= a);
    } else {
        lemma_count_char_add(a, b.drop_last(), c);
        assert((a + b).drop_last() =~= a + b.drop_last());
    }
}

/// A character that does not occur is counted zero times, and conversely.
proof fn lemma_count_char_zero(s: Seq<char>, c: char)
    ensures
        count_char(s, c) == 0 <==> !s.contains(c),
    decreases s.len(),
{
    if s.len() > 0 {
        lemma_count_char_zero(s.drop_last(), c);
        if s.drop_last().contains(c) {
            let i = choose|i: int| 0 <= i < s.drop_last().len() && s.drop_last()[i] == c;
            assert(s[i] == c);
        }
        if s.contains(c) && s.last() != c {
            let i = choose|i: int| 0 <= i < s.len() && s[i] == c;
            assert(s.drop_last()[i] == c);
        }
    }
}

/// The two fields of a line of a unit's csv file: the line is trimmed, split
/// at its commas, and each of the two pieces is trimmed. `None` where the line
/// does not split into exactly two pieces.
pub open spec fn csv_fields(line: Seq<char>) -> Option<(Seq<char>, Seq<char>)> {
    let t = trimmed(line);
    if count_char(t, ',') == 1 {
        let k = choose|k: int| 0 <= k < t.len() && t[k] == ',';
        Some((trimmed(t.take(k)), trimmed(t.skip(k + 1))))
    } else {
        None
    }
}

/// A line that reads, once trimmed, as `a`, a comma and `b`, where neither
/// `a` nor `b` holds a comma, has the two fields `a` and `b`, each trimmed.
pub proof fn lemma_csv_fields_of_pair(line: Seq<char>, a: Seq<char>, b: Seq<char>)
    requires
        trimmed(line) == a + seq![','] + b,
        !a.contains(','),
        !b.contains(','),
    ensures
        csv_fields(line) == Some((trimmed(a), trimmed(b))),
{
    let t = trimmed(line);
    lemma_count_char_add(a + seq![','], b, ',');
    lemma_count_char_add(a, seq![','], ',');
    assert(seq![','].drop_last() =~= Seq::<char>::empty());
    assert(count_char(Seq::<char>::empty(), ',') == 0);
    assert(count_char(seq![','], ',') == 1);
    lemma_count_char_zero(a, ',');
    lemma_count_char_zero(b, ',');
    assert(count_char(t, ',') == 1);
    assert(t[a.len() as int] == ',');
    let k = choose|k: int| 0 <= k < t.len() && t[k] == ',';
    if k < a.len() {
        assert(a[k] == ',');
    } else if k > a.len() {
        assert(b[k - a.len() - 1] == ',');
    }
    assert(k == a.len());
    assert(t.take(k) =~= a);
    assert(t.skip(k + 1) =~= b);
}

/// How many commas a line of a unit's csv file holds once trimmed; it splits
/// into one piece more.
pub open spec fn csv_comma_count(line: Seq<char>) -> nat {
    count_char(trimmed(line), ',')
}

/// Splits a line of a unit's csv file into its two fields; where the line
/// does not have exactly two, the error is the number of its commas (it
/// splits into one piece more).
pub fn parse_csv_line(line: &str) -> (r: Result<(String, String), usize>)
    ensures
        match r {
            Ok((a, b)) => csv_fields(line@) == Some((a@, b@)),
            Err(n) => csv_fields(line@) is None && n == csv_comma_count(line@),
        },
{
    let t = trim(line);
    let chars = to_chars(t);
    let len = chars.len();
    let mut count: usize = 0;
    let mut first: usize = 0;
    for i in 0..len
        invariant
            len == chars@.len(),
            chars@ == t@,
            count == count_char(t@.take(i as int), ','),
            count <= i,
            count > 0 ==> first < i && t@[first as int] == ',' && !t@.take(first as int).contains(
                ',',
            ),
    {
        let ghost before = t@.take(i as int);
        assert(t@.take(i + 1).drop_last() =~= before);
        if chars[i] == ',' {
            if count == 0 {
                first = i;
                proof {
                    lemma_count_char_zero(before, ',');
                    assert(t@.take(first as int) == before);
                }
            }
            count = count + 1;
        }
    }
    assert(t@.take(len as int) =~= t@);
    if count != 1 {
        return Err(count);
    }
    let ghost s = t@;
    proof {
        let k = first as int;
        assert(s =~= s.take(k) + seq![','] + s.skip(k + 1));
        lemma_count_char_add(s.take(k) + seq![','], s.skip(k + 1), ',');
        lemma_count_char_add(s.take(k), seq![','], ',');
        assert(seq![','].drop_last() =~= Seq::<char>::empty());
        lemma_count_char_zero(s.skip(k + 1), ',');
        let j = choose|j: int| 0 <= j < s.len() && s[j] == ',';
        if j < k {
            assert(s.take(k)[j] == ',');
        } else if j > k {
            assert(s.skip(k + 1)[j - k - 1] == ',');
        }
        assert(j == k);
    }
    let a = trim(t.substring_char(0, first)).to_owned();
    let b = trim(t.substring_char(first + 1, len)).to_owned();
    assert(s.skip(first + 1) =~= s.subrange(first + 1, len as int));
    Ok((a, b))
}

/// A line of a unit's csv file that could not be split into two fields.
#[derive(Debug, Clone, Copy, PartialEq, Eq, Structural)]
pub struct CsvError {
    /// The index of the line (counting from 0).
    pub line: usize,
    /// How many commas it holds (it splits into one piece more).
    pub commas: usize,
}

/// A line that was read, and splits into two fields, or one that could not be read.
pub open spec fn csv_line_ok(line: Option<String>) -> bool {
    line matches Some(s) ==> csv_fields(s@) is Some
}

/// `w` is the new, never asked word made of the two fields of `line`.
pub open spec fn word_from_line(line: Seq<char>, w: Word) -> bool {
    &&& csv_fields(line) matches Some((a, b))
    &&& w.lang_a@ == a
    &&& w.lang_b@ == b
    &&& w.success == 0
    &&& w.failed == 0
}

/// Turns the lines of a unit's csv file into its words, keyed by line index.
/// Lines that could not be read (`None`) are skipped; the first line that does
/// not split into two fields is an error.
pub fn csv_to_words(lines: &Vec<Option<String>>) -> (r: Result<HashMap<usize, Word>, CsvError>)
    ensures
        match r {
            Ok(m) => {
                &&& forall|i: int| 0 <= i < lines@.len() ==> csv_line_ok(#[trigger] lines@[i])
                &&& forall|k: usize|
                    #[trigger] m@.contains_key(k) <==> (k < lines@.len() && lines@[k as int] is Some)
                &&& forall|k: usize| #[trigger]
                    m@.contains_key(k) ==> word_from_line(lines@[k as int]->0@, m@[k])
                &&& table_wf(m@)
            },
            Err(e) => {
                &&& e.line < lines@.len()
                &&& forall|i: int| 0 <= i < e.line ==> csv_line_ok(#[trigger] lines@[i])
                &&& lines@[e.line as int] matches Some(s)
                &&& csv_fields(s@) is None
                &&& e.commas == csv_comma_count(s@)
            },
        },
{
    let mut words: HashMap<usize, Word> = HashMap::new();
    let n = lines.len();
    for ci in 0..n
        invariant
            n == lines@.len(),
            forall|i: int| 0 <= i < ci ==> csv_line_ok(#[trigger] lines@[i]),
            forall|k: usize|
                #[trigger] words@.contains_key(k) <==> (k < ci && lines@[k as int] is Some),
            forall|k: usize| #[trigger]
                words@.contains_key(k) ==> word_from_line(lines@[k as int]->0@, words@[k]),
    {
        match &lines[ci] {
            None => {},
            Some(line) => {
                assert(lines@[ci as int] matches Some(s) && s@ == line@);
                match parse_csv_line(line.as_str()) {
                    Err(commas) => {
                        return Err(CsvError { line: ci, commas });
                    },
                    Ok((a, b)) => {
                        let w = Word { lang_a: a, lang_b: b, success: 0, failed: 0 };
                        words.insert(ci, w);
                    },
                }
            },
        }
    }
    proof {
        assert forall|k: usize| #[trigger] words@.contains_key(k) implies words@[k].wf() by {
            assert(word_from_line(lines@[k as int]->0@, words@[k]));
        }
    }
    Ok(words)
}

/// The characters of which the random part of a temporary file's name is made.
pub const CHARSET: &'static str = "ABCDEFGHIJKLMNOPQRSTUVWXYZabcdefghijklmnopqrstuvwxyz123456789";

/// How many random characters the name of a temporary file has.
pub const TMP_RANDOM_LEN: usize = 16;

/// `rand::thread_rng().gen_range(0..n)`: a random number below `n`. Which one
/// it is depends on chance, so only the range is stated.
#[verifier::external_body]
fn random_below(n: usize) -> (r: usize)
    requires
        n > 0,
    ensures
        r < n,
{
    rand::thread_rng().gen_range(0..n)
}

/// `name` is the name of a temporary copy of a unit's file: `tmp_`, then
/// `TMP_RANDOM_LEN` characters of `CHARSET`, then `.cbor`.
pub open spec fn is_tmp_name(name: Seq<char>) -> bool {
    &&& name.len() == 4 + TMP_RANDOM_LEN + 5
    &&& name.take(4) == "tmp_"@
    &&& name.skip(4 + TMP_RANDOM_LEN as int) == ".cbor"@
    &&& forall|i: int| 4 <= i < 4 + TMP_RANDOM_LEN ==> CHARSET@.contains(#[trigger] name[i])
}

/// The name of a temporary copy of a unit's file made from the given draws:
/// `tmp_`, then the characters of `CHARSET` at the drawn positions, then `.cbor`.
pub open spec fn tmp_name_of(draws: Seq<usize>) -> Seq<char> {
    "tmp_"@ + draws.map_values(|d: usize| CHARSET@[d as int]) + ".cbor"@
}

/// The name of a temporary copy of a unit's file made from `TMP_RANDOM_LEN`
/// positions in `CHARSET`.
pub fn tmp_name_from_draws(draws: &Vec<usize>) -> (name: String)
    requires
        draws@.len() == TMP_RANDOM_LEN,
        forall|i: int| 0 <= i < draws@.len() ==> #[trigger] draws@[i] < CHARSET@.len(),
    ensures
        name@ == tmp_name_of(draws@),
        is_tmp_name(name@),
{
    proof {
        reveal_strlit("tmp_");
        reveal_strlit(".cbor");
    }
    let mut name = "tmp_".to_owned();
    let n = draws.len();
    for i in 0..n
        invariant
            n == draws@.len(),
            forall|j: int| 0 <= j < draws@.len() ==> #[trigger] draws@[j] < CHARSET@.len(),
            name@ == "tmp_"@ + draws@.take(i as int).map_values(|d: usize| CHARSET@[d as int]),
    {
        let c = CHARSET.get_char(draws[i]);
        push_char(&mut name, c);
        assert(draws@.take(i + 1).map_values(|d: usize| CHARSET@[d as int]) =~= draws@.take(
            i as int,
        ).map_values(|d: usize| CHARSET@[d as int]).push(c));
    }
    assert(draws@.take(n as int) =~= draws@);
    name.append(".cbor");
    proof {
        let mid = draws@.map_values(|d: usize| CHARSET@[d as int]);
        assert(name@ =~= "tmp_"@ + mid + ".cbor"@);
        assert(name@.take(4) =~= "tmp_"@);
        assert(name@.skip(4 + TMP_RANDOM_LEN as int) =~= ".cbor"@);
        assert forall|i: int| 4 <= i < 4 + TMP_RANDOM_LEN implies CHARSET@.contains(
            #[trigger] name@[i],
        ) by {
            assert(name@[i] == mid[i - 4]);
            assert(CHARSET@[draws@[i - 4] as int] == mid[i - 4]);
        }
    }
    name
}

/// A fresh random name for the temporary copy of a unit's file, which is kept
/// while the unit's file is rewritten: `TMP_RANDOM_LEN` positions in `CHARSET`
/// are drawn at random and `tmp_name_from_draws` makes the name of them.
pub fn tmp_file_name() -> (name: String)
    ensures
        exists|draws: Seq<usize>|
            #![trigger tmp_name_of(draws)]
            draws.len() == TMP_RANDOM_LEN && (forall|i: int|
                0 <= i < draws.len() ==> #[trigger] draws[i] < CHARSET@.len()) && name@
                == tmp_name_of(draws),
        is_tmp_name(name@),
{
    proof {
        reveal_strlit("ABCDEFGHIJKLMNOPQRSTUVWXYZabcdefghijklmnopqrstuvwxyz123456789");
    }
    let n = CHARSET.unicode_len();
    let mut draws: Vec<usize> = Vec::new();
    for i in 0..TMP_RANDOM_LEN
        invariant
            n == CHARSET@.len(),
            n == 61,
            draws@.len() == i,
            forall|j: int| 0 <= j < draws@.len() ==> #[trigger] draws@[j] < CHARSET@.len(),
    {
        draws.push(random_below(n));
    }
    tmp_name_from_draws(&draws)
}

} // verus!
