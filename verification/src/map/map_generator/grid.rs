//! Square grids stored as rows.
use vstd::prelude::*;

verus! {

/// Whether (x, z) lies in an `n` by `n` grid.
pub open spec fn in_grid(n: int, x: int, z: int) -> bool {
    0 <= x < n && 0 <= z < n
}

/// Whether the grid has `n` rows of `n` values.
pub open spec fn is_square<T>(grid: Vec<Vec<T>>, n: int) -> bool {
    grid@.len() == n && forall|z: int| 0 <= z < n ==> #[trigger] grid@[z]@.len() == n
}

/// The value at (x, z).
pub open spec fn value_at<T>(grid: Vec<Vec<T>>, x: int, z: int) -> T {
    grid@[z]@[x]
}

/// An `n` by `n` grid that holds `value` everywhere.
pub fn new_grid<T: Copy>(n: usize, value: T) -> (grid: Vec<Vec<T>>)
    ensures
        is_square(grid, n as int),
        forall|x: int, z: int| in_grid(n as int, x, z) ==> #[trigger] value_at(grid, x, z) == value,
{
    let mut grid: Vec<Vec<T>> = Vec::with_capacity(n);
    while grid.len() < n
        invariant
            grid@.len() <= n,
            forall|z: int| 0 <= z < grid@.len() ==> #[trigger] grid@[z]@.len() == n,
            forall|x: int, z: int|
                0 <= x < n && 0 <= z < grid@.len() ==> #[trigger] value_at(grid, x, z) == value,
        decreases n - grid@.len(),
    {
        let mut row: Vec<T> = Vec::with_capacity(n);
        while row.len() < n
            invariant
                row@.len() <= n,
                forall|x: int| 0 <= x < row@.len() ==> #[trigger] row@[x] == value,
            decreases n - row@.len(),
        {
            row.push(value);
        }
        let ghost before = grid;
        grid.push(row);
        assert forall|x: int, z: int| 0 <= x < n && 0 <= z < grid@.len() implies #[trigger] value_at(
            grid,
            x,
            z,
        ) == value by {
            if z < before@.len() {
                assert(value_at(before, x, z) == value);
            }
        }
    }
    grid
}

/// The value at (x, z).
pub fn read<T: Copy>(grid: &Vec<Vec<T>>, x: i32, z: i32) -> (value: T)
    requires
        is_square(*grid, grid@.len() as int),
        in_grid(grid@.len() as int, x as int, z as int),
    ensures
        value == value_at(*grid, x as int, z as int),
{
    grid[z as usize][x as usize]
}

/// Writes the value at (x, z).
pub fn put<T: Copy>(grid: &mut Vec<Vec<T>>, x: i32, z: i32, value: T)
    requires
        is_square(*old(grid), old(grid)@.len() as int),
        in_grid(old(grid)@.len() as int, x as int, z as int),
    ensures
        final(grid)@.len() == old(grid)@.len(),
        is_square(*final(grid), final(grid)@.len() as int),
        forall|u: int, w: int|
            in_grid(final(grid)@.len() as int, u, w) ==> #[trigger] value_at(*final(grid), u, w)
                == if u == x && w == z {
                value
            } else {
                value_at(*old(grid), u, w)
            },
{
    grid[z as usize][x as usize] = value;
}

} // verus!
