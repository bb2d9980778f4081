//! The numbers of a file.
//!
//! The library does not read numbers out of text. Whoever hands it the lines of
//! a file hands it a table beside them, which holds for each line and each of
//! its fields the number that the field denotes, or nothing where it denotes
//! none. A table that is too short reads as nothing from there on.

use crate::scalar::Scalar;
use crate::text::{chars_of, fields, lines_of, split, string_of, texts, trim, trimmed};
use vstd::prelude::*;

verus! {

/// The number that stands at place `at` of a line's numbers; none where the
/// list is too short.
pub open spec fn number_at(numbers: Seq<Option<Scalar>>, at: int) -> Option<Scalar> {
    if 0 <= at < numbers.len() {
        numbers[at]
    } else {
        None
    }
}

/// The numbers of line `at`; none at all where the table is too short.
pub open spec fn row_at(numbers: Seq<Seq<Option<Scalar>>>, at: int) -> Seq<Option<Scalar>> {
    if 0 <= at < numbers.len() {
        numbers[at]
    } else {
        Seq::empty()
    }
}

/// The numbers of a table as values.
pub open spec fn number_rows(numbers: Seq<Vec<Option<Scalar>>>) -> Seq<Seq<Option<Scalar>>> {
    numbers.map_values(|row: Vec<Option<Scalar>>| row@)
}

/// The number at place `at` of a line's numbers.
pub fn number(numbers: &Vec<Option<Scalar>>, at: usize) -> (r: Option<Scalar>)
    ensures
        r == number_at(numbers@, at as int),
{
    if at < numbers.len() {
        numbers[at]
    } else {
        None
    }
}

/// Whether `value` is what the kernel `decode` made of a text.
pub open spec fn decoded<D: Fn(&str) -> Option<Scalar>>(
    decode: D,
    text: Seq<char>,
    value: Option<Scalar>,
) -> bool {
    exists|s: &str| s@ == text && decode.ensures((s,), value)
}

/// The text of a line as its fields are cut from it: the line itself, or the
/// line without the white space around it.
pub open spec fn cut_text(line: Seq<char>, trim_first: bool) -> Seq<char> {
    if trim_first {
        trimmed(line)
    } else {
        line
    }
}

/// Whether `numbers` holds, field by field, what the kernel `decode` made of
/// the fields of a line.
pub open spec fn row_decoded<D: Fn(&str) -> Option<Scalar>>(
    decode: D,
    line: Seq<char>,
    sep: char,
    trim_first: bool,
    numbers: Seq<Option<Scalar>>,
) -> bool {
    let f = split(cut_text(line, trim_first), sep);
    &&& numbers.len() == f.len()
    &&& forall|j: int| 0 <= j < f.len() ==> decoded(decode, f[j], #[trigger] numbers[j])
}

/// Whether `numbers` holds, line by line and field by field, what the kernel
/// `decode` made of the fields of a file.
pub open spec fn table_decoded<D: Fn(&str) -> Option<Scalar>>(
    decode: D,
    lines: Seq<Seq<char>>,
    sep: char,
    trim_first: bool,
    numbers: Seq<Seq<Option<Scalar>>>,
) -> bool {
    &&& numbers.len() == lines.len()
    &&& forall|i: int|
        0 <= i < lines.len() ==> row_decoded(decode, lines[i], sep, trim_first, #[trigger] numbers[i])
}

/// The numbers of one line: the kernel `decode` is asked once for every
/// field, in order. The fields are the pieces between one `sep` and the next,
/// cut from the line as it is or, with `trim_first`, from the line without the
/// white space around it.
pub fn decode_fields<D: Fn(&str) -> Option<Scalar>>(
    line: &str,
    sep: char,
    trim_first: bool,
    decode: &D,
) -> (r: Vec<Option<Scalar>>)
    requires
        forall|s: &str| decode.requires((s,)),
    ensures
        row_decoded(*decode, line@, sep, trim_first, r@),
{
    let chars = chars_of(line);
    let text = if trim_first {
        trim(&chars)
    } else {
        chars
    };
    let f = fields(&text, sep);
    let mut numbers: Vec<Option<Scalar>> = Vec::new();
    let mut j: usize = 0;
    assert(texts(f@).len() == f.len());
    while j < f.len()
        invariant
            0 <= j <= f.len(),
            forall|s: &str| decode.requires((s,)),
            texts(f@) == split(cut_text(line@, trim_first), sep),
            numbers.len() == j,
            forall|k: int| 0 <= k < j ==> decoded(*decode, texts(f@)[k], #[trigger] numbers@[k]),
        decreases f.len() - j,
    {
        let field = string_of(&f[j]);
        let value = decode(field.as_str());
        proof {
            assert(texts(f@)[j as int] == f@[j as int]@);
            assert(decoded(*decode, texts(f@)[j as int], value));
        }
        numbers.push(value);
        j += 1;
    }
    numbers
}

/// The numbers of a file: [`decode_fields`] for every line.
pub fn decode_lines<D: Fn(&str) -> Option<Scalar>>(
    lines: &Vec<String>,
    sep: char,
    trim_first: bool,
    decode: &D,
) -> (r: Vec<Vec<Option<Scalar>>>)
    requires
        forall|s: &str| decode.requires((s,)),
    ensures
        table_decoded(*decode, lines_of(lines@), sep, trim_first, number_rows(r@)),
{
    let mut table: Vec<Vec<Option<Scalar>>> = Vec::new();
    let mut i: usize = 0;
    while i < lines.len()
        invariant
            0 <= i <= lines.len(),
            forall|s: &str| decode.requires((s,)),
            table.len() == i,
            forall|k: int|
                0 <= k < i ==> row_decoded(
                    *decode,
                    lines_of(lines@)[k],
                    sep,
                    trim_first,
                    #[trigger] number_rows(table@)[k],
                ),
        decreases lines.len() - i,
    {
        let row = decode_fields(lines[i].as_str(), sep, trim_first, decode);
        proof {
            assert(lines_of(lines@)[i as int] == lines@[i as int]@);
            let grown = table@.push(row);
            assert forall|k: int| 0 <= k < i + 1 implies row_decoded(
                *decode,
                lines_of(lines@)[k],
                sep,
                trim_first,
                #[trigger] number_rows(grown)[k],
            ) by {
                if k < i {
                    assert(number_rows(grown)[k] == number_rows(table@)[k]);
                } else {
                    assert(number_rows(grown)[k] == row@);
                }
            }
        }
        table.push(row);
        i += 1;
    }
    table
}

} // verus!
