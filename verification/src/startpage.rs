use vstd::prelude::*;

use crate::text::{
    decimal, ends_with, is_digit, is_whitespace, lemma_decimal_digits, lemma_parse_decimal,
    lemma_remove_absent_char, parse_usize, parsed_usize, remove_char, str_ends_with, str_eq,
    trim, trim_end, trim_start, trimmed, without_char,
};

verus! {

/// The names among `names` that end with `.cbor`, in their order.
pub open spec fn cbor_names(names: Seq<Seq<char>>) -> Seq<Seq<char>>
    decreases names.len(),
{
    if names.len() == 0 {
        seq![]
    } else if ends_with(names.last(), ".cbor"@) {
        cbor_names(names.drop_last()).push(names.last())
    } else {
        cbor_names(names.drop_last())
    }
}

/// The units are the names that end with `.cbor`, kept in their order and
/// nothing else: every one of them ends with `.cbor`, every such name is among
/// them, and there are no more of them than names.
pub proof fn lemma_cbor_names_filter(names: Seq<Seq<char>>)
    ensures
        cbor_names(names) == names.filter(|x: Seq<char>| ends_with(x, ".cbor"@)),
        forall|i: int|
            0 <= i < cbor_names(names).len() ==> ends_with(#[trigger] cbor_names(names)[i], ".cbor"@),
        forall|i: int|
            0 <= i < names.len() && ends_with(names[i], ".cbor"@) ==> #[trigger] cbor_names(
                names,
            ).contains(names[i]),
        cbor_names(names).len() <= names.len(),
    decreases names.len(),
{
    let pred = |x: Seq<char>| ends_with(x, ".cbor"@);
    reveal(Seq::filter);
    if names.len() > 0 {
        lemma_cbor_names_filter(names.drop_last());
    } else {
        assert(names.filter(pred) =~= cbor_names(names));
    }
    assert(cbor_names(names) == names.filter(pred));
    broadcast use vstd::seq_lib::group_filter_ensures;
    assert forall|i: int| 0 <= i < names.len() && ends_with(names[i], ".cbor"@) implies #[trigger] cbor_names(
        names,
    ).contains(names[i]) by {
        names.lemma_filter_contains(pred, i);
    }
}

/// The views of a list of strings.
pub open spec fn string_views(v: Seq<String>) -> Seq<Seq<char>> {
    v.map_values(|s: String| s@)
}

/// The units among the file names of the vocabulary directory: the names
/// that end with `.cbor`, in the order in which they were listed.
pub fn vocab_units(names: Vec<String>) -> (units: Vec<String>)
    ensures
        string_views(units@) == cbor_names(string_views(names@)),
{
    proof {
        reveal_strlit(".cbor");
    }
    let mut units: Vec<String> = Vec::new();
    let n = names.len();
    for i in 0..n
        invariant
            n == names@.len(),
            string_views(units@) == cbor_names(string_views(names@).take(i as int)),
    {
        let ghost before = units@;
        assert(string_views(names@).take(i + 1).drop_last() =~= string_views(names@).take(
            i as int,
        ));
        if str_ends_with(names[i].as_str(), ".cbor") {
            units.push(names[i].clone());
            assert(string_views(units@) =~= string_views(before).push(names@[i as int]@));
        }
    }
    assert(string_views(names@).take(n as int) =~= string_views(names@));
    units
}

/// What the learner chose on the start page.
#[derive(Clone, Copy, Debug, PartialEq, Eq, Structural)]
pub enum Selection {
    /// `:qa` or `:qa!`: leave the program.
    QuitAll,
    /// The unit at `index`; `ab` is false where the input ended with `r`
    /// (the pairs are then asked the other way round).
    Unit { index: usize, ab: bool },
    /// A number, but no unit has it.
    OutOfRange,
    /// Anything else: the choice is asked again.
    Invalid,
}

/// The choice that an input line on the start page stands for, with `n_units`
/// units on offer.
pub open spec fn selection_of(inp: Seq<char>, n_units: nat) -> Selection {
    let w = trimmed(inp);
    if w == ":qa"@ || w == ":qa!"@ {
        Selection::QuitAll
    } else {
        match parsed_usize(remove_char(w, 'r')) {
            Some(x) => if x < n_units {
                Selection::Unit { index: x, ab: !ends_with(w, "r"@) }
            } else {
                Selection::OutOfRange
            },
            None => Selection::Invalid,
        }
    }
}

/// The number of a unit, written in decimal, selects that unit with its
/// pairs asked as stored, and the same number followed by `r` selects it with
/// them asked the other way round; either is out of range exactly when no
/// unit has that number, so the `r` changes nothing but the direction.
pub proof fn lemma_selection_of_number(x: usize, n_units: nat)
    ensures
        selection_of(decimal(x as nat), n_units) == if x < n_units {
            Selection::Unit { index: x, ab: true }
        } else {
            Selection::OutOfRange
        },
        selection_of(decimal(x as nat) + "r"@, n_units) == if x < n_units {
            Selection::Unit { index: x, ab: false }
        } else {
            Selection::OutOfRange
        },
{
    reveal_strlit("r");
    reveal_strlit(":qa");
    reveal_strlit(":qa!");
    let d = decimal(x as nat);
    let dr = d + "r"@;
    lemma_decimal_digits(x as nat);
    lemma_parse_decimal(x);
    assert(is_digit(d[0]));
    assert(is_digit(d[d.len() - 1]));
    assert(!d.contains('r')) by {
        if d.contains('r') {
            let i = choose|i: int| 0 <= i < d.len() && d[i] == 'r';
            assert(is_digit(d[i]));
        }
    }
    lemma_remove_absent_char(d, 'r');
    // Neither string starts or ends with whitespace, so trimming keeps both.
    assert(!is_whitespace(d[0]));
    assert(!is_whitespace(d.last()));
    assert(trim_start(d) == d);
    assert(trim_end(d) == d);
    assert(dr[0] == d[0]);
    assert(dr.last() == 'r');
    assert(trim_start(dr) == dr);
    assert(trim_end(dr) == dr);
    // Neither is a quit command: those start with `:`.
    assert(d != ":qa"@ && d != ":qa!"@) by {
        assert(":qa"@[0] == ':' && ":qa!"@[0] == ':');
    }
    assert(dr != ":qa"@ && dr != ":qa!"@) by {
        assert(":qa"@[0] == ':' && ":qa!"@[0] == ':');
    }
    // The `r` is the last character and the only one.
    assert(dr.drop_last() =~= d);
    assert(remove_char(dr, 'r') == d);
    assert(dr.subrange(dr.len() - 1, dr.len() as int) =~= "r"@);
    assert(ends_with(dr, "r"@));
    assert(!ends_with(d, "r"@)) by {
        assert(d.subrange(d.len() - 1, d.len() as int)[0] == d.last());
    }
}

/// Reads the learner's choice on the start page: the number of a unit, with
/// an `r` to ask its pairs the other way round, or `:qa` to leave.
pub fn parse_selection(inp: &str, n_units: usize) -> (sel: Selection)
    ensures
        sel == selection_of(inp@, n_units as nat),
{
    let whole = trim(inp);
    let ab = !str_ends_with(whole, "r");
    if str_eq(whole, ":qa") || str_eq(whole, ":qa!") {
        return Selection::QuitAll;
    }
    let no_r = without_char(whole, 'r');
    match parse_usize(no_r.as_str()) {
        Some(x) => if x < n_units {
            Selection::Unit { index: x, ab }
        } else {
            Selection::OutOfRange
        },
        None => Selection::Invalid,
    }
}

} // verus!
