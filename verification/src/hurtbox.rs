//! Hurtboxes: capsule-shaped regions that hang on bones, and the parser of
//! hurtbox files.

use crate::numbers::{decode_lines, number, number_at, number_rows, row_at, table_decoded};
use crate::scalar::Scalar;
use crate::text::{chars_of, fields, integer_of, is_text, lines_of, parse_integer, split, texts};
use vstd::prelude::*;

verus! {

/// The height class of a hurtbox.
#[derive(Debug, PartialEq, Eq, Clone, Copy, Structural)]
pub enum HurtboxType {
    Low,
    Mid,
    High,
}

/// A capsule around the axis from `(x1, y1, z1)` to `(x2, y2, z2)`, given in
/// the frame of the bone that owns it.
#[derive(Debug, Clone, Copy)]
pub struct Hurtbox {
    pub bone_index: i32,
    pub x1: Scalar,
    pub y1: Scalar,
    pub z1: Scalar,
    pub x2: Scalar,
    pub y2: Scalar,
    pub z2: Scalar,
    pub size: Scalar,
    pub kind: HurtboxType,
    pub grabable: bool,
}

/// A line that should describe a hurtbox does not.
#[derive(Debug, Clone, Copy)]
pub struct ParseHurtboxError;

/// The height class that a tag names.
pub open spec fn hurtbox_type_of(s: Seq<char>) -> Option<HurtboxType> {
    if s == "Low"@ {
        Some(HurtboxType::Low)
    } else if s == "Mid"@ {
        Some(HurtboxType::Mid)
    } else if s == "High"@ {
        Some(HurtboxType::High)
    } else {
        None
    }
}

/// The hurtbox that ten fields describe: the index of the bone, the two ends
/// of the axis, the radius, the height class and the grab flag, which is set
/// by any integer but 0. `numbers` holds, field by field, the number that each
/// field denotes.
pub open spec fn hurtbox_of_fields(f: Seq<Seq<char>>, numbers: Seq<Option<Scalar>>) -> Option<
    Hurtbox,
> {
    if f.len() == 10 && integer_of(f[0]) is Some && (forall|k: int|
        1 <= k < 8 ==> number_at(numbers, k) is Some) && hurtbox_type_of(f[8]) is Some
        && integer_of(f[9]) is Some {
        Some(
            Hurtbox {
                bone_index: integer_of(f[0])->0,
                x1: number_at(numbers, 1)->0,
                y1: number_at(numbers, 2)->0,
                z1: number_at(numbers, 3)->0,
                x2: number_at(numbers, 4)->0,
                y2: number_at(numbers, 5)->0,
                z2: number_at(numbers, 6)->0,
                size: number_at(numbers, 7)->0,
                kind: hurtbox_type_of(f[8])->0,
                grabable: integer_of(f[9])->0 != 0,
            },
        )
    } else {
        None
    }
}

/// The hurtbox that a line describes: its fields are the pieces between
/// commas.
pub open spec fn hurtbox_of(text: Seq<char>, numbers: Seq<Option<Scalar>>) -> Option<Hurtbox> {
    hurtbox_of_fields(split(text, ','), numbers)
}

/// The hurtboxes that the first `n` lines describe, in line order. A line that
/// describes none is left out.
pub open spec fn hurtboxes_of(
    lines: Seq<Seq<char>>,
    numbers: Seq<Seq<Option<Scalar>>>,
    n: int,
) -> Seq<Hurtbox>
    decreases n,
{
    if n <= 0 {
        Seq::empty()
    } else {
        match hurtbox_of(lines[n - 1], row_at(numbers, n - 1)) {
            Some(hurtbox) => hurtboxes_of(lines, numbers, n - 1).push(hurtbox),
            None => hurtboxes_of(lines, numbers, n - 1),
        }
    }
}

impl Hurtbox {
    /// Reads the tag of a height class.
    pub fn parse_type(s: &str) -> (r: Result<HurtboxType, ParseHurtboxError>)
        ensures
            r == match hurtbox_type_of(s@) {
                Some(kind) => Ok::<HurtboxType, ParseHurtboxError>(kind),
                None => Err(ParseHurtboxError),
            },
    {
        match Hurtbox::type_of(&chars_of(s)) {
            Some(kind) => Ok(kind),
            None => Err(ParseHurtboxError),
        }
    }

    fn type_of(tag: &Vec<char>) -> (r: Option<HurtboxType>)
        ensures
            r == hurtbox_type_of(tag@),
    {
        if is_text(tag, &chars_of("Low")) {
            Some(HurtboxType::Low)
        } else if is_text(tag, &chars_of("Mid")) {
            Some(HurtboxType::Mid)
        } else if is_text(tag, &chars_of("High")) {
            Some(HurtboxType::High)
        } else {
            None
        }
    }

    /// The first end of the axis.
    pub fn p1(&self) -> (r: (Scalar, Scalar, Scalar))
        ensures
            r == (self.x1, self.y1, self.z1),
    {
        (self.x1, self.y1, self.z1)
    }

    /// The second end of the axis.
    pub fn p2(&self) -> (r: (Scalar, Scalar, Scalar))
        ensures
            r == (self.x2, self.y2, self.z2),
    {
        (self.x2, self.y2, self.z2)
    }

    /// Reads a hurtbox line. `numbers` holds, field by field, the number that
    /// each field of the line denotes.
    pub fn from_str(s: &str, numbers: &Vec<Option<Scalar>>) -> (r: Result<
        Hurtbox,
        ParseHurtboxError,
    >)
        ensures
            r == match hurtbox_of(s@, numbers@) {
                Some(hurtbox) => Ok::<Hurtbox, ParseHurtboxError>(hurtbox),
                None => Err(ParseHurtboxError),
            },
    {
        let chars = chars_of(s);
        let f = fields(&chars, ',');
        assert(texts(f@).len() == f.len());
        if f.len() != 10 {
            return Err(ParseHurtboxError);
        }
        assert(texts(f@)[0] == f@[0]@);
        assert(texts(f@)[8] == f@[8]@);
        assert(texts(f@)[9] == f@[9]@);
        let bone_index = parse_integer(&f[0]);
        let x1 = number(numbers, 1);
        let y1 = number(numbers, 2);
        let z1 = number(numbers, 3);
        let x2 = number(numbers, 4);
        let y2 = number(numbers, 5);
        let z2 = number(numbers, 6);
        let size = number(numbers, 7);
        let kind = Hurtbox::type_of(&f[8]);
        let grab = parse_integer(&f[9]);
        match (bone_index, x1, y1, z1, x2, y2, z2, size, kind, grab) {
            (
                Some(bone_index),
                Some(x1),
                Some(y1),
                Some(z1),
                Some(x2),
                Some(y2),
                Some(z2),
                Some(size),
                Some(kind),
                Some(grab),
            ) => Ok(
                Hurtbox { bone_index, x1, y1, z1, x2, y2, z2, size, kind, grabable: grab != 0 },
            ),
            _ => Err(ParseHurtboxError),
        }
    }
}

/// Reads a hurtbox file, one hurtbox to a line. `numbers` holds, line by line
/// and field by field, the number that each field between commas denotes. A
/// line that describes no hurtbox is passed over, and the others are returned
/// in their order.
pub fn parse_hurtboxes(lines: &Vec<String>, numbers: &Vec<Vec<Option<Scalar>>>) -> (r: Vec<Hurtbox>)
    ensures
        r@ == hurtboxes_of(lines_of(lines@), number_rows(numbers@), lines.len() as int),
{
    let no_numbers: Vec<Option<Scalar>> = Vec::new();
    let mut hurtboxes: Vec<Hurtbox> = Vec::new();
    let mut i: usize = 0;
    while i < lines.len()
        invariant
            0 <= i <= lines.len(),
            no_numbers@ == Seq::<Option<Scalar>>::empty(),
            hurtboxes@ == hurtboxes_of(lines_of(lines@), number_rows(numbers@), i as int),
        decreases lines.len() - i,
    {
        let row: &Vec<Option<Scalar>> = if i < numbers.len() {
            &numbers[i]
        } else {
            &no_numbers
        };
        assert(lines_of(lines@)[i as int] == lines@[i as int]@);
        assert(row@ == row_at(number_rows(numbers@), i as int));
        match Hurtbox::from_str(lines[i].as_str(), row) {
            Ok(hurtbox) => {
                hurtboxes.push(hurtbox);
            },
            Err(_) => {},
        }
        i += 1;
    }
    hurtboxes
}

/// The numbers of a hurtbox file, as [`parse_hurtboxes`] takes them: the kernel
/// `decode` is asked for every field between commas of every line.
pub fn hurtbox_numbers<D: Fn(&str) -> Option<Scalar>>(lines: &Vec<String>, decode: &D) -> (r: Vec<
    Vec<Option<Scalar>>,
>)
    requires
        forall|s: &str| decode.requires((s,)),
    ensures
        table_decoded(*decode, lines_of(lines@), ',', false, number_rows(r@)),
{
    decode_lines(lines, ',', false, decode)
}

} // verus!
