//! Serialization of a grid to and from its fixed 81-character byte string:
//! one symbol per cell in row-major order, a digit for a committed value and
//! `'.'` for an empty cell (`'0'` is also accepted when parsing).  Candidate
//! sets are not serialized; a parsed grid starts with cleared notes.

use vstd::prelude::*;
use crate::board::{grid_wf, Cell, Grid, GridError};

verus! {

/// The character that stands for the committed value `v`.
pub open spec fn symbol_of(v: u8) -> char {
    if v == 0 {
        '.'
    } else {
        ((48 + v) as u8) as char
    }
}

/// A character the parser accepts.
pub open spec fn valid_symbol(c: char) -> bool {
    c == '.' || ('0' <= c && c <= '9')
}

/// The committed value a symbol stands for.
pub open spec fn value_of_symbol(c: char) -> u8 {
    if c == '.' || c == '0' {
        0
    } else {
        ((c as u32) - 48) as u8
    }
}

/// The 81 characters that serialize a grid.
pub open spec fn format_chars(s: Seq<Cell>) -> Seq<char> {
    Seq::new(81, |i: int| symbol_of(s[i].value))
}

/// A string the parser accepts whole: 81 valid symbols.
pub open spec fn valid_byte_string(t: Seq<char>) -> bool {
    t.len() == 81 && forall|i: int| 0 <= i < 81 ==> valid_symbol(#[trigger] t[i])
}

/// The cells a valid string parses to: its values, with cleared notes.
pub open spec fn parse_cells(t: Seq<char>) -> Seq<Cell> {
    Seq::new(81, |i: int| Cell { value: value_of_symbol(t[i]), possible: 0, denied: 0 })
}

/// Relies on `String::from_utf8`: a sequence of bytes below 128 decodes one
/// to one, each byte to the character with its code point.
#[verifier::external_body]
fn ascii_to_string(bytes: &Vec<u8>) -> (r: String)
    requires
        forall|i: int| 0 <= i < bytes@.len() ==> bytes@[i] < 128,
    ensures
        r@ == bytes@.map_values(|b: u8| b as char),
{
    match String::from_utf8(bytes.clone()) {
        Ok(s) => s,
        Err(_) => String::new(),
    }
}

/// Serialize the grid: always succeeds, one symbol per cell.
pub fn to_byte_string(grid: &Grid) -> (r: String)
    requires
        grid.wf(),
    ensures
        r@ == format_chars(grid@),
        r@.len() == 81,
{
    let mut bytes: Vec<u8> = Vec::new();
    let mut i: usize = 0;
    while i < 81
        invariant
            grid.wf(),
            i <= 81,
            bytes@.len() == i,
            forall|j: int|
                0 <= j < i ==> (#[trigger] bytes@[j]) < 128 && bytes@[j] as char == symbol_of(
                    grid@[j].value,
                ),
        decreases 81 - i,
    {
        let v = grid.cell_at((i / 9, i % 9)).value;
        proof {
            assert(crate::groups::idx_of((i / 9, i % 9)) == i as int);
        }
        if v == 0 {
            bytes.push(46);
            proof {
                assert(46u8 as char == '.');
            }
        } else {
            bytes.push(48 + v);
        }
        i = i + 1;
    }
    let r = ascii_to_string(&bytes);
    proof {
        assert(r@ =~= format_chars(grid@));
    }
    r
}

/// Parse an 81-character byte string; `MalformedInput` on any other length or
/// any symbol that is neither a digit nor `'.'`, and exactly then.
pub fn from_byte_string(s: &str) -> (r: Result<Grid, GridError>)
    ensures
        r is Ok <==> valid_byte_string(s@),
        r matches Ok(g) ==> g.wf() && g@ == parse_cells(s@),
        r matches Err(e) ==> e == GridError::MalformedInput,
{
    let n = s.unicode_len();
    if n != 81 {
        return Err(GridError::MalformedInput);
    }
    let mut g = Grid::new();
    let mut i: usize = 0;
    while i < 81
        invariant
            s@.len() == 81,
            i <= 81,
            g.wf(),
            g@.len() == 81,
            forall|j: int| 0 <= j < i ==> valid_symbol(#[trigger] s@[j]),
            forall|j: int|
                0 <= j < i ==> (#[trigger] g@[j]) == (Cell {
                    value: value_of_symbol(s@[j]),
                    possible: 0,
                    denied: 0,
                }),
        decreases 81 - i,
    {
        let c = s.get_char(i);
        let v: u8;
        if c == '.' || c == '0' {
            v = 0;
        } else if '1' <= c && c <= '9' {
            v = ((c as u32) - 48) as u8;
        } else {
            return Err(GridError::MalformedInput);
        }
        g.put_value(i, v);
        i = i + 1;
    }
    proof {
        assert(g@ =~= parse_cells(s@));
    }
    Ok(g)
}

/// Two grids with the same committed values serialize to the same byte
/// string: candidate notes never show in it.
pub proof fn lemma_format_same_values(s1: Seq<Cell>, s2: Seq<Cell>)
    requires
        crate::board::same_values(s1, s2),
    ensures
        format_chars(s1) == format_chars(s2),
{
    assert(format_chars(s1) =~= format_chars(s2));
}

/// Serialization is round-trip safe: a grid with cleared candidate notes
/// parses back from its own byte string unchanged.  (Candidate sets are not
/// serialized, so a grid with notes round-trips in its committed values but
/// comes back with cleared notes.)
pub proof fn lemma_byte_string_round_trip(s: Seq<Cell>)
    requires
        grid_wf(s),
        forall|i: int| 0 <= i < 81 ==> (#[trigger] s[i]).possible == 0 && s[i].denied == 0,
    ensures
        valid_byte_string(format_chars(s)),
        parse_cells(format_chars(s)) == s,
{
    assert forall|i: int| 0 <= i < 81 implies valid_symbol(#[trigger] format_chars(s)[i]) by {
        let v = s[i].value;
        if v != 0 {
            assert(1 <= v <= 9);
            assert(((48 + v) as u8) as char >= '0' && ((48 + v) as u8) as char <= '9');
        }
    }
    assert forall|i: int| 0 <= i < 81 implies #[trigger] parse_cells(format_chars(s))[i] == s[i] by {
        let v = s[i].value;
        if v != 0 {
            let c = ((48 + v) as u8) as char;
            assert(c != '.' && c != '0');
            assert((c as u32) == 48 + v);
            assert(value_of_symbol(c) == v);
        }
    }
    assert(parse_cells(format_chars(s)) =~= s);
}

} // verus!
