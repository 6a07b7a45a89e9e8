//! The blocking topology of the 28-cell triangle.
//!
//! The triangle has seven rows; row `r` (0-indexed, apex is row 0) holds
//! `r + 1` cells, and cells are numbered row by row, so cell 0 is the apex
//! and cells 21..=27 are the bottom row. Cell `(r, k)` rests on cells
//! `(r + 1, k)` and `(r + 1, k + 1)`, so it cannot be played until the whole
//! cone of cells below it is gone. The tables here are derived from that
//! geometry rather than written out by hand.

use vstd::prelude::*;

verus! {

/// The number of the row that cell `c` lies in (clamped for out-of-range
/// values; real cells are `0..28`).
pub open spec fn row_of(c: int) -> int {
    if c < 1 {
        0
    } else if c < 3 {
        1
    } else if c < 6 {
        2
    } else if c < 10 {
        3
    } else if c < 15 {
        4
    } else if c < 21 {
        5
    } else {
        6
    }
}

/// The cell number of the first (leftmost) cell of row `r`.
pub open spec fn row_first(r: int) -> int {
    if r <= 0 {
        0
    } else if r == 1 {
        1
    } else if r == 2 {
        3
    } else if r == 3 {
        6
    } else if r == 4 {
        10
    } else if r == 5 {
        15
    } else {
        21
    }
}

/// The position of cell `c` within its row, 0-indexed from the left.
pub open spec fn col_of(c: int) -> int {
    c - row_first(row_of(c))
}

/// Whether `c` is the number of a real triangle cell.
pub open spec fn is_cell(c: int) -> bool {
    0 <= c < 28
}

/// Whether cell `b` lies strictly below cell `a`, inside the cone of cells
/// that must all be removed before `a` is exposed.
pub open spec fn covers(a: int, b: int) -> bool {
    &&& is_cell(a)
    &&& is_cell(b)
    &&& row_of(b) > row_of(a)
    &&& col_of(a) <= col_of(b) <= col_of(a) + (row_of(b) - row_of(a))
}

/// All cells below `c` that must be removed before `c` is exposed.
pub open spec fn blocked_by_set(c: int) -> Set<int> {
    Set::new(|b: int| covers(c, b))
}

/// All cells above `c` whose exposure depends on `c` being removed.
pub open spec fn blocks_set(c: int) -> Set<int> {
    Set::new(|a: int| covers(a, c))
}

/// The leftmost cell of the row above `c` that `c` directly holds up.
pub open spec fn spec_directly_blocks_low(c: int) -> int {
    if is_cell(c) && row_of(c) >= 1 {
        let r = row_of(c);
        let k = col_of(c);
        row_first(r - 1) + (if k >= 1 {
            k - 1
        } else {
            0
        })
    } else {
        0
    }
}

/// How many cells of the row above `c` directly rest on `c`: 2 for an
/// interior cell, 1 at either edge of a row, 0 for the apex.
pub open spec fn spec_directly_blocks_count(c: int) -> int {
    if is_cell(c) && row_of(c) >= 1 {
        let r = row_of(c);
        let k = col_of(c);
        let lo = if k >= 1 {
            k - 1
        } else {
            0
        };
        let hi = if k <= r - 1 {
            k
        } else {
            r - 1
        };
        hi - lo + 1
    } else {
        0
    }
}

/// The covering relation is transitive: anything below `b` is also below `a`
/// whenever `b` is below `a`.
pub proof fn lemma_covers_trans(a: int, b: int, c: int)
    requires
        covers(a, b),
        covers(b, c),
    ensures
        covers(a, c),
{
}

/// A cell is directly covered exactly by the two cells under it, and the
/// rest of its cone is reached through one of those two.
pub proof fn lemma_cone_step(a: int, b: int)
    requires
        covers(a, b),
    ensures
        row_of(a) < 6,
        b == row_first(row_of(a) + 1) + col_of(a) || b == row_first(row_of(a) + 1) + col_of(a) + 1
            || covers(row_first(row_of(a) + 1) + col_of(a), b) || covers(
            row_first(row_of(a) + 1) + col_of(a) + 1,
            b,
        ),
{
}

/// The two cells directly under `a` are themselves covered by `a`.
pub proof fn lemma_direct_below_covered(a: int)
    requires
        is_cell(a),
        row_of(a) < 6,
    ensures
        covers(a, row_first(row_of(a) + 1) + col_of(a)),
        covers(a, row_first(row_of(a) + 1) + col_of(a) + 1),
{
}

/// A bottom-row cell covers nothing; every other cell covers something.
pub proof fn lemma_bottom_row_uncovered(c: int)
    requires
        is_cell(c),
    ensures
        (row_of(c) == 6) <==> blocked_by_set(c).is_empty(),
{
    if row_of(c) < 6 {
        lemma_direct_below_covered(c);
        assert(blocked_by_set(c).contains(row_first(row_of(c) + 1) + col_of(c)));
    } else {
        assert forall|b: int| !(#[trigger] blocked_by_set(c).contains(b)) by {}
        assert(blocked_by_set(c) =~= Set::empty());
    }
}

/// The cells `c` directly blocks are exactly the cells of the previous row
/// that cover `c`.
pub proof fn lemma_directly_blocks_covers(c: int, a: int)
    requires
        is_cell(c),
    ensures
        (covers(a, c) && row_of(a) == row_of(c) - 1) <==> (row_of(c) >= 1
            && spec_directly_blocks_low(c) <= a < spec_directly_blocks_low(c)
            + spec_directly_blocks_count(c)),
{
}

/// Pushing a cell onto a list of cells adds exactly that cell to the set the
/// list stands for.
proof fn lemma_mapped_set_push(s: Seq<usize>, x: usize)
    ensures
        s.push(x).map_values(|v: usize| v as int).to_set() =~= s.map_values(
            |v: usize| v as int,
        ).to_set().insert(x as int),
{
    let f = |v: usize| v as int;
    let m0 = s.map_values(f);
    let m1 = s.push(x).map_values(f);
    assert(m1 =~= m0.push(x as int));
    assert forall|y: int| m0.push(x as int).to_set().contains(y) implies m0.to_set().insert(
        x as int,
    ).contains(y) by {
        let i = choose|i: int| 0 <= i < m0.push(x as int).len() && m0.push(x as int)[i] == y;
        if i < m0.len() {
            assert(m0[i] == y);
        }
    }
    assert forall|y: int| m0.to_set().insert(x as int).contains(y) implies m0.push(
        x as int,
    ).to_set().contains(y) by {
        if y == x as int {
            assert(m0.push(x as int)[m0.len() as int] == y);
        } else {
            let i = choose|i: int| 0 <= i < m0.len() && m0[i] == y;
            assert(m0.push(x as int)[i] == y);
        }
    }
}

/// The exec counterpart of `covers`: whether cell `b` lies in the cone below
/// cell `a`.
pub fn covers_cell(a: usize, b: usize) -> (r: bool)
    ensures
        r == covers(a as int, b as int),
{
    if a >= 28 || b >= 28 {
        return false;
    }
    let (ra, ka) = cell_row_col(a);
    let (rb, kb) = cell_row_col(b);
    rb > ra && ka <= kb && kb <= ka + (rb - ra)
}

/// The row and column of a triangle cell.
pub fn cell_row_col(card: usize) -> (rc: (usize, usize))
    requires
        card < 28,
    ensures
        rc.0 == row_of(card as int),
        rc.1 == col_of(card as int),
{
    if card < 1 {
        (0, card)
    } else if card < 3 {
        (1, card - 1)
    } else if card < 6 {
        (2, card - 3)
    } else if card < 10 {
        (3, card - 6)
    } else if card < 15 {
        (4, card - 10)
    } else if card < 21 {
        (5, card - 15)
    } else {
        (6, card - 21)
    }
}

/// Which card indexes the card directly blocks.
/// Returns a tuple of the lowest index blocked and how many cards are
/// blocked: `(3, 1)` means that index 3 is blocked, while `(3, 2)` means
/// indexes 3 and 4 are blocked. The apex and out-of-range values block
/// nothing and give `(0, 0)`.
pub fn card_directly_blocks(card: usize) -> (r: (usize, usize))
    ensures
        r.0 == spec_directly_blocks_low(card as int),
        r.1 == spec_directly_blocks_count(card as int),
{
    if card == 0 || card >= 28 {
        return (0, 0);
    }
    let (row, col) = cell_row_col(card);
    let lo = if col >= 1 {
        col - 1
    } else {
        0
    };
    let hi = if col <= row - 1 {
        col
    } else {
        row - 1
    };
    let first = row_first_cell(row - 1);
    (first + lo, hi - lo + 1)
}

/// The number of the leftmost cell of a row.
pub fn row_first_cell(row: usize) -> (r: usize)
    requires
        row < 7,
    ensures
        r == row_first(row as int),
{
    match row {
        0 => 0,
        1 => 1,
        2 => 3,
        3 => 6,
        4 => 10,
        5 => 15,
        _ => 21,
    }
}

/// All the cells above `card` that depend on its removal, listed row by row
/// from the row just above down to the apex, left to right within a row.
pub fn card_blocks(card: usize) -> (r: Vec<usize>)
    ensures
        r@.map_values(|x: usize| x as int).to_set() == blocks_set(card as int),
        forall|i: int, j: int|
            0 <= i < j < r@.len() ==> (row_of(r@[i] as int) > row_of(r@[j] as int) || (row_of(
                r@[i] as int,
            ) == row_of(r@[j] as int) && r@[i] < r@[j])),
        forall|i: int| 0 <= i < r@.len() ==> r@[i] < 28,
{
    let mut out: Vec<usize> = Vec::new();
    if card >= 28 {
        assert(out@.map_values(|x: usize| x as int).to_set() =~= blocks_set(card as int));
        return out;
    }
    let (row, _col) = cell_row_col(card);
    let mut steps: usize = 0;
    while steps < row
        invariant
            card < 28,
            row == row_of(card as int),
            steps <= row,
            forall|i: int| 0 <= i < out@.len() ==> out@[i] < 28,
            out@.map_values(|x: usize| x as int).to_set() =~= Set::new(
                |a: int| covers(a, card as int) && row_of(a) > row_of(card as int) - 1 - steps,
            ),
            forall|i: int, j: int|
                0 <= i < j < out@.len() ==> (row_of(out@[i] as int) > row_of(out@[j] as int) || (
                row_of(out@[i] as int) == row_of(out@[j] as int) && out@[i] < out@[j])),
            forall|i: int|
                0 <= i < out@.len() ==> row_of(out@[i] as int) > row_of(card as int) - 1 - steps,
        decreases row - steps,
    {
        let ar = row - 1 - steps;
        let first = row_first_cell(ar);
        let mut k: usize = 0;
        while k <= ar
            invariant
                card < 28,
                row == row_of(card as int),
                steps < row <= 6,
                ar == row - 1 - steps,
                first == row_first(ar as int),
                k <= ar + 1,
                forall|i: int| 0 <= i < out@.len() ==> out@[i] < 28,
                out@.map_values(|x: usize| x as int).to_set() =~= Set::new(
                    |a: int|
                        covers(a, card as int) && (row_of(a) > ar as int || (row_of(a) == ar as int
                            && col_of(a) < k as int)),
                ),
                forall|i: int, j: int|
                    0 <= i < j < out@.len() ==> (row_of(out@[i] as int) > row_of(out@[j] as int) || (
                    row_of(out@[i] as int) == row_of(out@[j] as int) && out@[i] < out@[j])),
                forall|i: int|
                    0 <= i < out@.len() ==> (row_of(out@[i] as int) > ar as int || (row_of(
                        out@[i] as int,
                    ) == ar as int && col_of(out@[i] as int) < k as int)),
            decreases ar + 1 - k,
        {
            let cell = first + k;
            if covers_cell(cell, card) {
                proof {
                    lemma_mapped_set_push(out@, cell);
                }
                out.push(cell);
                assert(out@.map_values(|x: usize| x as int).to_set() =~= Set::new(
                    |a: int|
                        covers(a, card as int) && (row_of(a) > ar as int || (row_of(a) == ar as int
                            && col_of(a) < k as int + 1)),
                ));
            } else {
                assert(out@.map_values(|x: usize| x as int).to_set() =~= Set::new(
                    |a: int|
                        covers(a, card as int) && (row_of(a) > ar as int || (row_of(a) == ar as int
                            && col_of(a) < k as int + 1)),
                ));
            }
            k += 1;
        }
        assert(out@.map_values(|x: usize| x as int).to_set() =~= Set::new(
            |a: int| covers(a, card as int) && row_of(a) > row_of(card as int) - 2 - steps as int,
        ));
        steps += 1;
    }
    assert(out@.map_values(|x: usize| x as int).to_set() =~= blocks_set(card as int));
    out
}

/// All the cells below `card` that must be gone before `card` is exposed, in
/// increasing cell order.
pub fn card_blocked_by(card: usize) -> (r: Vec<usize>)
    ensures
        r@.map_values(|x: usize| x as int).to_set() == blocked_by_set(card as int),
        forall|i: int, j: int| 0 <= i < j < r@.len() ==> r@[i] < r@[j],
        forall|i: int| 0 <= i < r@.len() ==> r@[i] < 28,
{
    let mut out: Vec<usize> = Vec::new();
    let mut b: usize = 0;
    while b < 28
        invariant
            b <= 28,
            forall|i: int| 0 <= i < out@.len() ==> out@[i] < b,
            out@.map_values(|x: usize| x as int).to_set() =~= Set::new(
                |x: int| covers(card as int, x) && x < b as int,
            ),
            forall|i: int, j: int| 0 <= i < j < out@.len() ==> out@[i] < out@[j],
        decreases 28 - b,
    {
        if covers_cell(card, b) {
            proof {
                lemma_mapped_set_push(out@, b);
            }
            out.push(b);
            assert(out@.map_values(|x: usize| x as int).to_set() =~= Set::new(
                |x: int| covers(card as int, x) && x < b as int + 1,
            ));
        } else {
            assert(out@.map_values(|x: usize| x as int).to_set() =~= Set::new(
                |x: int| covers(card as int, x) && x < b as int + 1,
            ));
        }
        b += 1;
    }
    assert(out@.map_values(|x: usize| x as int).to_set() =~= blocked_by_set(card as int));
    out
}

} // verus!
