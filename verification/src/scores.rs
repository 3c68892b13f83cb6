//! Per-cell tables for the search, and the two sums over a table of path
//! lengths that bound the search: the sum of all entries, which falls whenever
//! a shorter way to a cell is found, and the number of cells reached so far.

use vstd::prelude::*;

verus! {

/// Path length recorded for a cell that the search has not reached.
pub const UNREACHED: i32 = 0x3fff_ffff;

/// A table with `rows` rows of `cols` entries each.
pub open spec fn shaped<T>(table: Seq<Vec<T>>, rows: int, cols: int) -> bool {
    &&& table.len() == rows
    &&& forall|r: int| 0 <= r < rows ==> (#[trigger] table[r])@.len() == cols
}

/// `cell`, given as (column, row), indexes a table of `rows` by `cols`.
pub open spec fn in_box(cell: (i32, i32), rows: int, cols: int) -> bool {
    0 <= cell.1 < rows && 0 <= cell.0 < cols
}

/// The entry of `table` at `cell`, given as (column, row).
pub open spec fn entry<T>(table: Seq<Vec<T>>, cell: (i32, i32)) -> T {
    table[cell.1 as int]@[cell.0 as int]
}

/// `after` is `before` with the entry at `cell` replaced by `value`.
pub open spec fn replaced<T>(before: Seq<Vec<T>>, after: Seq<Vec<T>>, cell: (i32, i32), value: T) -> bool {
    &&& after.len() == before.len()
    &&& after[cell.1 as int]@ == before[cell.1 as int]@.update(cell.0 as int, value)
    &&& forall|r: int| 0 <= r < before.len() && r != cell.1 ==> (#[trigger] after[r])@ == before[r]@
}

/// What one entry adds to a sum: one for each reached cell when `counting`,
/// the recorded length otherwise.
pub open spec fn entry_weight(length: i32, counting: bool) -> int {
    if counting {
        if length < UNREACHED { 1 } else { 0 }
    } else {
        length as int
    }
}

/// Sum of the weights of one row.
pub open spec fn row_weight(row: Seq<i32>, counting: bool) -> int
    decreases row.len(),
{
    if row.len() == 0 {
        0
    } else {
        row_weight(row.drop_last(), counting) + entry_weight(row.last(), counting)
    }
}

/// Sum of the weights of a whole table.
pub open spec fn table_weight(table: Seq<Vec<i32>>, counting: bool) -> int
    decreases table.len(),
{
    if table.len() == 0 {
        0
    } else {
        table_weight(table.drop_last(), counting) + row_weight(table.last()@, counting)
    }
}

/// Sum of all recorded lengths, unreached cells included.
pub open spec fn total(table: Seq<Vec<i32>>) -> int {
    table_weight(table, false)
}

/// Number of cells with a recorded length.
pub open spec fn reached(table: Seq<Vec<i32>>) -> int {
    table_weight(table, true)
}

/// Replacing one entry of a row changes its sum by the difference of the two
/// weights.
proof fn row_weight_update(row: Seq<i32>, i: int, value: i32, counting: bool)
    requires
        0 <= i < row.len(),
    ensures
        row_weight(row.update(i, value), counting) == row_weight(row, counting) - entry_weight(row[i], counting)
            + entry_weight(value, counting),
    decreases row.len(),
{
    let changed = row.update(i, value);
    if i == row.len() - 1 {
        assert(changed.drop_last() =~= row.drop_last());
    } else {
        assert(changed.drop_last() =~= row.drop_last().update(i, value));
        row_weight_update(row.drop_last(), i, value, counting);
    }
}

/// Replacing one entry of a table changes its sum by the difference of the
/// two weights.
pub(crate) proof fn table_weight_update(
    before: Seq<Vec<i32>>,
    after: Seq<Vec<i32>>,
    cell: (i32, i32),
    value: i32,
    counting: bool,
)
    requires
        0 <= cell.1 < before.len(),
        0 <= cell.0 < before[cell.1 as int]@.len(),
        replaced(before, after, cell, value),
    ensures
        table_weight(after, counting) == table_weight(before, counting) - entry_weight(
            entry(before, cell),
            counting,
        ) + entry_weight(value, counting),
    decreases before.len(),
{
    let last = before.len() - 1;
    if cell.1 == last {
        row_weight_update(before[last]@, cell.0 as int, value, counting);
        table_weight_same(before.drop_last(), after.drop_last(), counting);
    } else {
        assert(after.last()@ == before.last()@);
        assert forall|r: int| 0 <= r < before.drop_last().len() && r != cell.1 implies (#[trigger] after.drop_last()[r])@
            == before.drop_last()[r]@ by {
            assert(after[r]@ == before[r]@);
        }
        table_weight_update(before.drop_last(), after.drop_last(), cell, value, counting);
    }
}

/// Tables with the same rows have the same sum.
proof fn table_weight_same(a: Seq<Vec<i32>>, b: Seq<Vec<i32>>, counting: bool)
    requires
        a.len() == b.len(),
        forall|r: int| 0 <= r < a.len() ==> (#[trigger] b[r])@ == a[r]@,
    ensures
        table_weight(a, counting) == table_weight(b, counting),
    decreases a.len(),
{
    if a.len() > 0 {
        assert(b.last()@ == a.last()@);
        assert forall|r: int| 0 <= r < a.drop_last().len() implies (#[trigger] b.drop_last()[r])@ == a.drop_last()[r]@ by {
            assert(b[r]@ == a[r]@);
        }
        table_weight_same(a.drop_last(), b.drop_last(), counting);
    }
}

/// A row without negative entries has a sum of at least zero, and holds no
/// more reached cells than it has entries.
proof fn row_weight_bounds(row: Seq<i32>, counting: bool)
    requires
        forall|i: int| 0 <= i < row.len() ==> 0 <= #[trigger] row[i],
    ensures
        0 <= row_weight(row, counting),
        counting ==> row_weight(row, counting) <= row.len(),
    decreases row.len(),
{
    if row.len() > 0 {
        assert forall|i: int| 0 <= i < row.drop_last().len() implies 0 <= #[trigger] row.drop_last()[i] by {
            assert(row.drop_last()[i] == row[i]);
        }
        row_weight_bounds(row.drop_last(), counting);
    }
}

/// A table without negative entries has a sum of at least zero, and no more
/// reached cells than it has cells.
pub(crate) proof fn table_weight_bounds(table: Seq<Vec<i32>>, cols: int, counting: bool)
    requires
        shaped(table, table.len() as int, cols),
        forall|r: int, c: int| 0 <= r < table.len() && 0 <= c < cols ==> 0 <= #[trigger] table[r]@[c],
    ensures
        0 <= table_weight(table, counting),
        counting ==> table_weight(table, counting) <= table.len() * cols,
    decreases table.len(),
{
    if table.len() > 0 {
        let rest = table.drop_last();
        assert forall|r: int| 0 <= r < rest.len() implies (#[trigger] rest[r])@.len() == cols by {
            assert(rest[r] == table[r]);
        }
        assert forall|r: int, c: int| 0 <= r < rest.len() && 0 <= c < cols implies 0 <= #[trigger] rest[r]@[c] by {
            assert(rest[r] == table[r]);
        }
        table_weight_bounds(rest, cols, counting);
        let last = table.last()@;
        assert(last.len() == cols);
        assert forall|i: int| 0 <= i < last.len() implies 0 <= #[trigger] last[i] by {
            assert(last[i] == table[table.len() - 1]@[i]);
        }
        row_weight_bounds(last, counting);
        assert(table.len() * cols == rest.len() * cols + cols) by (nonlinear_arith)
            requires
                table.len() == rest.len() + 1,
        ;
    }
}

/// A fresh table of `rows` by `cols` entries, each equal to `value`.
pub fn filled<T: Copy>(rows: usize, cols: usize, value: T) -> (table: Vec<Vec<T>>)
    ensures
        shaped(table@, rows as int, cols as int),
        forall|r: int, c: int| 0 <= r < rows && 0 <= c < cols ==> #[trigger] table@[r]@[c] == value,
{
    let mut table: Vec<Vec<T>> = Vec::new();
    let mut r: usize = 0;
    while r < rows
        invariant
            r <= rows,
            shaped(table@, r as int, cols as int),
            forall|i: int, c: int| 0 <= i < r && 0 <= c < cols ==> #[trigger] table@[i]@[c] == value,
        decreases rows - r,
    {
        let mut line: Vec<T> = Vec::new();
        let mut c: usize = 0;
        while c < cols
            invariant
                c <= cols,
                line@.len() == c,
                forall|j: int| 0 <= j < c ==> #[trigger] line@[j] == value,
            decreases cols - c,
        {
            line.push(value);
            c = c + 1;
        }
        table.push(line);
        r = r + 1;
    }
    table
}

/// Reads the entry at `cell`.
pub fn get<T: Copy>(table: &Vec<Vec<T>>, cell: (i32, i32)) -> (value: T)
    requires
        0 <= cell.1 < table@.len(),
        0 <= cell.0 < table@[cell.1 as int]@.len(),
    ensures
        value == entry(table@, cell),
{
    table[cell.1 as usize][cell.0 as usize]
}

/// Replaces the entry at `cell` and leaves every other entry as it was.
pub fn put<T>(table: &mut Vec<Vec<T>>, cell: (i32, i32), value: T)
    requires
        0 <= cell.1 < old(table)@.len(),
        0 <= cell.0 < old(table)@[cell.1 as int]@.len(),
    ensures
        replaced(old(table)@, final(table)@, cell, value),
{
    table[cell.1 as usize][cell.0 as usize] = value;
}

} // verus!
