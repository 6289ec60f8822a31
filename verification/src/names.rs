//! Cell naming: record streams on disk are named after their cell in
//! algebraic notation, a column letter 'a'..'h' followed by a row digit
//! '1'..'8', prefixed by the piece family letter.

use vstd::prelude::*;

verus! {

/// The two-byte algebraic name of a cell.
pub open spec fn square_name_spec(sq: int) -> Seq<u8> {
    seq![(97 + sq % 8) as u8, (49 + sq / 8) as u8]
}

/// Appends the cell's algebraic name to `name`.
pub fn push_square_name(name: &mut Vec<u8>, square: u8)
    requires
        square <= 63,
    ensures
        final(name)@ == old(name)@ + square_name_spec(square as int),
{
    name.push(97 + square % 8);
    name.push(49 + square / 8);
    proof {
        assert(name@ =~= old(name)@ + square_name_spec(square as int));
    }
}

/// The cell's algebraic name.
pub fn get_square_name(square: u8) -> (name: Vec<u8>)
    requires
        square <= 63,
    ensures
        name@ == square_name_spec(square as int),
{
    let mut name: Vec<u8> = Vec::new();
    push_square_name(&mut name, square);
    proof {
        assert(name@ =~= square_name_spec(square as int));
    }
    name
}

/// The cell a well-formed algebraic name denotes; naming that cell gives
/// the same two characters back.
pub fn square_from_name(name: &Vec<u8>) -> (square: u8)
    requires
        name@.len() >= 2,
        97 <= name@[0] <= 104,
        49 <= name@[1] <= 56,
    ensures
        square <= 63,
        square_name_spec(square as int) == seq![name@[0], name@[1]],
{
    let letter: u8 = name[0] - 97;
    let digit: u8 = name[1] - 49;
    let square: u8 = 8 * digit + letter;
    proof {
        assert(square_name_spec(square as int) =~= seq![name@[0], name@[1]]);
    }
    square
}

/// File name of the record stream of a cell and family: the family
/// letter, an underscore, the cell name, and the `.csv` extension.
pub open spec fn stream_name_spec(sq: int, bishop: bool) -> Seq<u8> {
    seq![
        if bishop {
            98u8
        } else {
            114u8
        },
        95u8,
    ] + square_name_spec(sq) + seq![46u8, 99u8, 115u8, 118u8]
}

/// File name of the record stream of a cell and family.
pub fn stream_file_name(square: u8, bishop: bool) -> (name: Vec<u8>)
    requires
        square <= 63,
    ensures
        name@ == stream_name_spec(square as int, bishop),
{
    let mut name: Vec<u8> = Vec::new();
    name.push(if bishop {
        98
    } else {
        114
    });
    name.push(95);
    push_square_name(&mut name, square);
    name.push(46);
    name.push(99);
    name.push(115);
    name.push(118);
    proof {
        assert(name@ =~= stream_name_spec(square as int, bishop));
    }
    name
}

/// The eight rows of a board rendered as '0'/'1' characters, top row
/// first, least significant column first within a row.
pub open spec fn board_row_spec(u: u64, t: int) -> Seq<u8> {
    Seq::new(8, |j: int| if (u >> ((8 * (7 - t) + j) as u64)) & 1 == 1 {
        49u8
    } else {
        48u8
    })
}

/// Renders a board for display, one row of eight '0'/'1' bytes per line.
pub fn bitboard_rows(u: u64) -> (rows: Vec<Vec<u8>>)
    ensures
        rows@.len() == 8,
        forall|t: int| 0 <= t < 8 ==> (#[trigger] rows@[t])@ == board_row_spec(u, t),
{
    let mut rows: Vec<Vec<u8>> = Vec::new();
    let mut t: u8 = 0;
    while t < 8
        invariant
            t <= 8,
            rows@.len() == t as int,
            forall|t0: int| 0 <= t0 < t as int ==> (#[trigger] rows@[t0])@ == board_row_spec(u, t0),
        decreases 8 - t,
    {
        let mut row: Vec<u8> = Vec::new();
        let mut j: u8 = 0;
        while j < 8
            invariant
                t < 8,
                j <= 8,
                row@.len() == j as int,
                forall|j0: int|
                    0 <= j0 < j as int ==> #[trigger] row@[j0] == board_row_spec(u, t as int)[j0],
            decreases 8 - j,
        {
            let sh: u64 = (8 * (7 - t as u64)) + j as u64;
            let bit: u64 = (u >> sh) & 1;
            row.push(if bit == 1 {
                49
            } else {
                48
            });
            j = j + 1;
        }
        proof {
            assert(row@ =~= board_row_spec(u, t as int));
        }
        rows.push(row);
        t = t + 1;
    }
    rows
}

} // verus!
