//! The two ways of writing a point: the two letters of a game record, and
//! the column letter and row number that an engine reads.

use vstd::prelude::*;
use vstd::string::StrSliceExecFns;
use vstd::string::StringExecFns;
use crate::rules::{on_board, Point};
use crate::text::{decimal, decimal_text};

verus! {

/// The largest side length whose points can all be written in a game
/// record: a coordinate is written as one character, counted on from the
/// letter `a`, and there is no character from U+D800 on up to U+DFFF.
pub const MAX_GAME_SIZE: u32 = 55199;

/// The letter that writes a coordinate in a game record: `a` for 0, `b` for
/// 1, and so on.
pub open spec fn coord_letter(v: int) -> char {
    (97 + v) as char
}

/// The two letters that write a point in a game record: column, then row.
pub open spec fn point_text(p: Point) -> Seq<char> {
    seq![coord_letter(p.0), coord_letter(p.1)]
}

/// The point that a value of a game record names: the value has exactly two
/// characters, neither before the letter `a`. Any other value names no
/// point.
pub open spec fn point_of(value: Seq<char>) -> Option<Point> {
    if value.len() == 2 && value[0] as int >= 97 && value[1] as int >= 97 {
        Some((value[0] as int - 97, value[1] as int - 97))
    } else {
        None
    }
}

/// The letter of a column as an engine reads it: `A` for 0, in order,
/// without the letter `I`.
pub open spec fn column_letter(x: int) -> char {
    if x < 8 {
        (65 + x) as char
    } else {
        (66 + x) as char
    }
}

/// A point of a game record as an engine reads it: the column letter, then
/// the row number counted from the far edge. A value that names no point of
/// the board reads `pass`.
pub open spec fn engine_vertex(value: Seq<char>, size: int) -> Seq<char> {
    match point_of(value) {
        Some(p) => if on_board(size, p) {
            seq![column_letter(p.0)] + decimal((size - p.1) as nat)
        } else {
            "pass"@
        },
        None => "pass"@,
    }
}

/// Writing a point and reading it back gives the point.
pub proof fn lemma_point_text_reads_back(p: Point)
    requires
        0 <= p.0 < MAX_GAME_SIZE,
        0 <= p.1 < MAX_GAME_SIZE,
    ensures
        point_of(point_text(p)) == Some(p),
{
}

/// `char::from_u32` of the standard library gives the character with the
/// given code. There is one for every code but those from U+D800 to U+DFFF
/// and those above U+10FFFF.
#[verifier::external_body]
fn char_of(code: u32) -> (c: Option<char>)
    ensures
        c matches Some(letter) ==> letter as int == code,
        c is None ==> (0xD800 <= code <= 0xDFFF || code > 0x10FFFF),
{
    char::from_u32(code)
}

/// Returns the character with the given code, which is below U+D800.
fn letter_of(code: u32) -> (letter: char)
    requires
        code < 0xD800,
    ensures
        letter as int == code,
{
    match char_of(code) {
        Some(letter) => letter,
        None => 'a',
    }
}

/// Returns the two letters that write `(x, y)` in a game record.
pub fn write_point(x: u32, y: u32) -> (text: String)
    requires
        x < MAX_GAME_SIZE,
        y < MAX_GAME_SIZE,
    ensures
        text@ == point_text((x as int, y as int)),
{
    let mut text = String::new();
    text.push(letter_of(97 + x));
    text.push(letter_of(97 + y));
    text
}

/// Reads the point that a value of a game record names, if it names one.
pub fn read_point(value: &str) -> (point: Option<(u32, u32)>)
    ensures
        match point {
            Some(c) => point_of(value@) == Some((c.0 as int, c.1 as int)),
            None => point_of(value@) is None,
        },
{
    if value.unicode_len() != 2 {
        return None;
    }
    let a: u32 = value.get_char(0) as u32;
    let b: u32 = value.get_char(1) as u32;
    if a < 97 || b < 97 {
        return None;
    }
    Some((a - 97, b - 97))
}

/// Returns a point of a game record in the form an engine reads.
pub fn sgf_to_gtp(sgf_coord: &str, size: u32) -> (vertex: String)
    requires
        size <= MAX_GAME_SIZE,
    ensures
        vertex@ == engine_vertex(sgf_coord@, size as int),
{
    match read_point(sgf_coord) {
        Some(c) => {
            let x = c.0;
            let y = c.1;
            if x >= size || y >= size {
                return String::from_str("pass");
            }
            let col_char = if x < 8 {
                letter_of(65 + x)
            } else {
                letter_of(66 + x)
            };
            let mut vertex = String::new();
            vertex.push(col_char);
            let row = decimal_text((size - y) as u64);
            vertex.append(row.as_str());
            vertex
        },
        None => String::from_str("pass"),
    }
}

} // verus!
