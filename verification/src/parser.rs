//! From a row of text to a record.
//!
//! A row has five fields: identifier, name, behaviour, measure, and one
//! that is not used. Quotes are dropped wherever they stand. The first
//! separator ends the identifier and the last three separators part the
//! name, the behaviour, the measure and the unused field, so a name may
//! hold separators of its own. A row with fewer than four separators is
//! not taken apart and comes back as a single field.
use vstd::prelude::*;
use crate::measure::Measure;
use crate::record::{Behavior, GameData};
use crate::text::{lowercase_of, parse_unsigned, remove_char, unsigned_of, without};

verus! {

/// The character between fields.
pub const SEPARATOR: char = ',';

/// The character that is dropped from every row.
pub const QUOTE: char = '"';

/// The places of the separators in a text, ascending.
pub open spec fn separator_places(text: Seq<char>) -> Seq<int>
    decreases text.len(),
{
    if text.len() == 0 {
        Seq::empty()
    } else if text.last() == SEPARATOR {
        separator_places(text.drop_last()).push(text.len() - 1)
    } else {
        separator_places(text.drop_last())
    }
}

/// The fields of a row.
pub open spec fn line_fields(line: Seq<char>) -> Seq<Seq<char>> {
    let text = without(line, QUOTE);
    let places = separator_places(text);
    let n = places.len() as int;
    if n < 4 {
        seq![text]
    } else {
        seq![
            text.subrange(0, places[0]),
            text.subrange(places[0] + 1, places[n - 3]),
            text.subrange(places[n - 3] + 1, places[n - 2]),
            text.subrange(places[n - 2] + 1, places[n - 1]),
            text.subrange(places[n - 1] + 1, text.len() as int),
        ]
    }
}

/// The texts of a list of strings.
pub open spec fn texts(columns: Seq<String>) -> Seq<Seq<char>> {
    columns.map_values(|column: String| column@)
}

/// The places that [`separator_places`] lists are those of the text's
/// separators, all of them, each once and in ascending order.
pub proof fn lemma_separator_places(text: Seq<char>)
    ensures
        forall|k: int|
            0 <= k < separator_places(text).len() ==> 0 <= #[trigger] separator_places(text)[k]
                < text.len() && text[separator_places(text)[k]] == SEPARATOR,
        forall|j: int, k: int|
            0 <= j < k < separator_places(text).len() ==> #[trigger] separator_places(text)[j]
                < #[trigger] separator_places(text)[k],
        forall|i: int|
            0 <= i < text.len() && #[trigger] text[i] == SEPARATOR ==> separator_places(
                text,
            ).contains(i),
    decreases text.len(),
{
    if text.len() > 0 {
        let shorter = text.drop_last();
        let earlier = separator_places(shorter);
        let places = separator_places(text);
        lemma_separator_places(shorter);
        assert forall|i: int| 0 <= i < text.len() && #[trigger] text[i] == SEPARATOR implies places.contains(
            i,
        ) by {
            if i < text.len() - 1 {
                assert(shorter[i] == SEPARATOR);
                let k = choose|k: int| 0 <= k < earlier.len() && earlier[k] == i;
                assert(places[k] == i);
            } else {
                assert(places[places.len() - 1] == i);
            }
        }
    }
}

/// The places of the separators in a text, found in one pass.
fn find_separators(text: &str) -> (places: Vec<usize>)
    ensures
        places@.map_values(|place: usize| place as int) == separator_places(text@),
{
    let length: usize = text.unicode_len();
    let mut places: Vec<usize> = Vec::new();
    let mut at: usize = 0;
    for c in chars: text.chars()
        invariant
            chars.seq() == text@,
            at == chars.index(),
            length == text@.len(),
            places@.map_values(|place: usize| place as int) == separator_places(text@.take(at as int)),
    {
        proof {
            let upto = text@.take(at + 1);
            assert(upto.drop_last() =~= text@.take(at as int));
            assert(upto.last() == c);
        }
        if c == SEPARATOR {
            places.push(at);
            assert(places@.map_values(|place: usize| place as int) =~= separator_places(
                text@.take(at as int),
            ).push(at as int));
        }
        at += 1;
    }
    assert(text@.take(at as int) =~= text@);
    places
}

/// Takes a row apart. Quotes are dropped first. With four separators or
/// more the result has five fields; with fewer it has one, the row without
/// its quotes.
pub fn parse_csv_line(line: &str) -> (columns: Vec<String>)
    ensures
        texts(columns@) == line_fields(line@),
{
    let mut columns: Vec<String> = Vec::new();
    let stripped = remove_char(line, QUOTE);
    let places = find_separators(stripped.as_str());
    let n: usize = places.len();
    proof {
        lemma_separator_places(stripped@);
    }
    let ghost marks = separator_places(stripped@);
    assert(forall|k: int| 0 <= k < n ==> marks[k] == (#[trigger] places@[k]) as int) by {
        assert(places@.map_values(|place: usize| place as int) == marks);
        assert forall|k: int| 0 <= k < n implies marks[k] == (#[trigger] places@[k]) as int by {
            assert(places@.map_values(|place: usize| place as int)[k] == places@[k] as int);
        }
    }
    if n < 4 {
        columns.push(stripped);
        assert(texts(columns@) =~= line_fields(line@));
        return columns;
    }
    let text = stripped.as_str();
    let length: usize = text.unicode_len();
    let id_end: usize = places[0];
    let name_end: usize = places[n - 3];
    let behaviour_end: usize = places[n - 2];
    let measure_end: usize = places[n - 1];
    columns.push(text.substring_char(0, id_end).to_owned());
    columns.push(text.substring_char(id_end + 1, name_end).to_owned());
    columns.push(text.substring_char(name_end + 1, behaviour_end).to_owned());
    columns.push(text.substring_char(behaviour_end + 1, measure_end).to_owned());
    columns.push(text.substring_char(measure_end + 1, length).to_owned());
    assert(texts(columns@) =~= line_fields(line@));
    columns
}

/// A stretch of the text in which none of the listed places lies holds no
/// separator.
pub proof fn lemma_clean_stretch(text: Seq<char>, from: int, to: int)
    requires
        0 <= from <= to <= text.len(),
        forall|k: int|
            0 <= k < separator_places(text).len() ==> !(from <= #[trigger] separator_places(text)[k]
                < to),
    ensures
        !text.subrange(from, to).contains(SEPARATOR),
{
    let places = separator_places(text);
    let stretch = text.subrange(from, to);
    lemma_separator_places(text);
    if stretch.contains(SEPARATOR) {
        let i = choose|i: int| 0 <= i < stretch.len() && stretch[i] == SEPARATOR;
        assert(text[from + i] == SEPARATOR);
        assert(places.contains(from + i));
        let k = choose|k: int| 0 <= k < places.len() && places[k] == from + i;
        assert(from <= places[k] < to);
    }
}

/// The five fields of a row with four separators or more, put together
/// again with a separator between each two, are the row without its
/// quotes. Only the name can hold a separator.
pub proof fn lemma_fields_rejoin(line: Seq<char>)
    requires
        separator_places(without(line, QUOTE)).len() >= 4,
    ensures
        line_fields(line).len() == 5,
        line_fields(line)[0] + seq![SEPARATOR] + line_fields(line)[1] + seq![SEPARATOR]
            + line_fields(line)[2] + seq![SEPARATOR] + line_fields(line)[3] + seq![SEPARATOR]
            + line_fields(line)[4] == without(line, QUOTE),
        !line_fields(line)[0].contains(SEPARATOR),
        !line_fields(line)[2].contains(SEPARATOR),
        !line_fields(line)[3].contains(SEPARATOR),
        !line_fields(line)[4].contains(SEPARATOR),
{
    let text = without(line, QUOTE);
    let places = separator_places(text);
    let n = places.len() as int;
    let fields = line_fields(line);
    lemma_separator_places(text);
    assert(places[0] < places[n - 3] < places[n - 2] < places[n - 1]);
    assert(fields[0] + seq![SEPARATOR] + fields[1] + seq![SEPARATOR] + fields[2] + seq![SEPARATOR]
        + fields[3] + seq![SEPARATOR] + fields[4] =~= text);
    assert forall|k: int| 0 <= k < n implies !(0 <= #[trigger] places[k] < places[0]) by {
        assert(k == 0 || places[0] < places[k]);
    }
    lemma_clean_stretch(text, 0, places[0]);
    assert forall|k: int| 0 <= k < n implies !(places[n - 3] + 1 <= #[trigger] places[k] < places[n
        - 2]) by {
        assert(k == n - 3 || k == n - 2 || places[k] < places[n - 3] || places[n - 2] < places[k]);
    }
    lemma_clean_stretch(text, places[n - 3] + 1, places[n - 2]);
    assert forall|k: int| 0 <= k < n implies !(places[n - 2] + 1 <= #[trigger] places[k] < places[n
        - 1]) by {
        assert(k == n - 2 || k == n - 1 || places[k] < places[n - 2] || places[n - 1] < places[k]);
    }
    lemma_clean_stretch(text, places[n - 2] + 1, places[n - 1]);
    assert forall|k: int| 0 <= k < n implies !(places[n - 1] + 1 <= #[trigger] places[k]
        < text.len()) by {
        assert(k == n - 1 || places[k] < places[n - 1]);
    }
    lemma_clean_stretch(text, places[n - 1] + 1, text.len() as int);
}

/// What went wrong with a row. None of them stops the row from becoming a
/// record.
#[derive(Clone, Copy, Debug, PartialEq, Eq, Structural)]
pub enum Diagnostic {
    /// The row did not have five fields; the sentinel record stands for it.
    FieldCount,
    /// The behaviour was neither `play` nor `purchase`; it became `Error`.
    UnknownBehavior,
    /// The measure did not read as a number; it became zero.
    MeasureDefaulted,
}

/// The diagnostics of a row with five fields: one for a behaviour that was
/// not recognised, and after it one for a measure that was not read.
pub open spec fn field_diagnostics(behaviour: Behavior, measure: Option<Measure>) -> Seq<Diagnostic> {
    let first = if behaviour == Behavior::Error {
        seq![Diagnostic::UnknownBehavior]
    } else {
        Seq::empty()
    };
    if measure is None {
        first.push(Diagnostic::MeasureDefaulted)
    } else {
        first
    }
}

/// Dropping the quotes a second time drops nothing.
pub proof fn lemma_without_twice(text: Seq<char>, unwanted: char)
    ensures
        without(without(text, unwanted), unwanted) == without(text, unwanted),
    decreases text.len(),
{
    reveal(Seq::filter);
    if text.len() > 0 {
        lemma_without_twice(text.drop_last(), unwanted);
        let shorter = without(text.drop_last(), unwanted);
        if text.last() != unwanted {
            let longer = shorter.push(text.last());
            assert(without(text, unwanted) == longer);
            assert(longer.drop_last() =~= shorter);
            assert(without(longer, unwanted) == without(longer.drop_last(), unwanted).push(
                longer.last(),
            ));
        } else {
            assert(without(text, unwanted) == shorter);
        }
    }
}

/// A row that has lost its quotes already is taken apart into the same
/// fields as the row with its quotes.
pub proof fn lemma_fields_ignore_quotes(line: Seq<char>)
    ensures
        line_fields(without(line, QUOTE)) == line_fields(line),
{
    lemma_without_twice(line, QUOTE);
}

/// The measure field of a row that was taken apart into five.
pub fn measure_column(columns: &Vec<String>) -> (field: Option<&str>)
    ensures
        columns@.len() != 5 ==> field is None,
        columns@.len() == 5 ==> field is Some && field->0@ == columns@[3]@,
{
    if columns.len() == 5 {
        Some(columns[3].as_str())
    } else {
        None
    }
}

/// Makes the record of a row from its fields. `measure` is the number that
/// the measure field reads as, or `None` if it reads as none.
///
/// Without exactly five fields the result is the sentinel record. With
/// five, the identifier is the first field read as a number, or 0; the name
/// is the second field as it stands; the behaviour is the third field read
/// without regard to case; the measure is the number given, or zero. The
/// diagnostics say which of these fell back.
pub fn parse_game_data(columns: Vec<String>, measure: Option<Measure>) -> (parsed: (
    GameData,
    Vec<Diagnostic>,
))
    ensures
        columns@.len() != 5 ==> {
            &&& parsed.0.id == 0
            &&& parsed.0.game_name@ == "Unknown"@
            &&& parsed.0.behaviour == Behavior::Error
            &&& parsed.0.play_purchase.bits == 0
            &&& parsed.1@ == seq![Diagnostic::FieldCount]
        },
        columns@.len() == 5 ==> {
            &&& parsed.0.id == match unsigned_of(columns@[0]@) {
                Some(id) => id,
                None => 0,
            }
            &&& parsed.0.game_name@ == columns@[1]@
            &&& parsed.0.behaviour == Behavior::of_lowered(lowercase_of(columns@[2]@))
            &&& parsed.0.play_purchase == match measure {
                Some(number) => number,
                None => (Measure { bits: 0 }),
            }
            &&& parsed.1@ == field_diagnostics(parsed.0.behaviour, measure)
        },
{
    let mut diagnostics: Vec<Diagnostic> = Vec::new();
    if columns.len() != 5 {
        diagnostics.push(Diagnostic::FieldCount);
        return (GameData::sentinel(), diagnostics);
    }
    let id: u32 = match parse_unsigned(columns[0].as_str()) {
        Some(id) => id,
        None => 0,
    };
    let game_name = columns[1].clone();
    let behaviour = Behavior::from_label(columns[2].as_str());
    if behaviour == Behavior::Error {
        diagnostics.push(Diagnostic::UnknownBehavior);
    }
    let play_purchase = match measure {
        Some(number) => number,
        None => {
            diagnostics.push(Diagnostic::MeasureDefaulted);
            Measure::zero()
        },
    };
    let record = GameData { id, game_name, behaviour, play_purchase };
    assert(diagnostics@ =~= field_diagnostics(behaviour, measure));
    (record, diagnostics)
}

} // verus!
