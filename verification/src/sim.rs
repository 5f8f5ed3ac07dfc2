//! The grid: a dense vector of cells with frozen dimension, axis size and
//! thresholds, plus read/write access by flat index.

use vstd::prelude::*;
use vstd::arithmetic::power::{
    pow, lemma_pow0, lemma_pow1, lemma_pow_adds, lemma_pow_positive, lemma_pow_increases,
};
use vstd::arithmetic::div_mod::lemma_div_denominator;
use crate::codec::{
    index_of, coords_of, coords_in_range, lemma_index_of_bounds, tagged_coords_to_index,
    tagged_index_to_coords, pow3_u32, pow_usize,
};
use crate::rules::{
    LifeRules, full_neighbor_count, spec_min_neighbors, spec_min_breed_neighbors,
    spec_max_neighbors, lemma_thresholds_ordered,
};
use crate::neighbors::{
    tern_digit, shifted_coord, shifted_coords, candidate_ok, neighbor_index, neighbors_from,
    neighbor_indices_spec, lemma_shifted_in_range, lemma_neighbors_from_len_le,
};

verus! {

/// A single cell of the grid.
#[derive(Clone, Copy, PartialEq, Eq, Structural, Debug)]
pub enum Cell {
    Dead,
    Alive,
}

impl core::convert::From<bool> for Cell {
    /// `true` maps to `Alive`, `false` to `Dead`.
    fn from(val: bool) -> (r: Cell) {
        if val {
            Cell::Alive
        } else {
            Cell::Dead
        }
    }
}

impl vstd::std_specs::convert::FromSpecImpl<bool> for Cell {
    open spec fn obeys_from_spec() -> bool {
        true
    }

    open spec fn from_spec(val: bool) -> Cell {
        if val {
            Cell::Alive
        } else {
            Cell::Dead
        }
    }
}

/// The mathematical content of a grid: its cells and frozen parameters.
#[verifier::ext_equal]
pub ghost struct GridView {
    pub cells: Seq<Cell>,
    pub dim: nat,
    pub size: nat,
    pub min_neighbors: nat,
    pub min_breed_neighbors: nat,
    pub max_neighbors: nat,
}

/// Well-formedness of a grid: positive dimension and size, cell storage
/// of exactly size^dim entries that fits the machine, a neighborhood
/// count that fits a u32, and ordered thresholds.
pub open spec fn grid_wf(v: GridView) -> bool {
    &&& 1 <= v.dim
    &&& 1 <= v.size
    &&& v.size <= u32::MAX as nat + 1
    &&& v.cells.len() == pow(v.size as int, v.dim)
    &&& pow(v.size as int, v.dim) <= usize::MAX as int
    &&& pow(3, v.dim) <= u32::MAX as int
    &&& v.min_neighbors <= v.max_neighbors
    &&& v.max_neighbors <= pow(3, v.dim) - 1
}

/// Number of Alive entries of `cells` at the positions listed in
/// `inds`.
pub open spec fn count_alive(cells: Seq<Cell>, inds: Seq<int>) -> int
    decreases inds.len(),
{
    if inds.len() == 0 {
        0
    } else {
        (if cells[inds[0]] == Cell::Alive {
            1int
        } else {
            0int
        }) + count_alive(cells, inds.drop_first())
    }
}

/// Appending one position adds its cell's contribution to the count.
pub proof fn lemma_count_alive_push(cells: Seq<Cell>, inds: Seq<int>, x: int)
    ensures
        count_alive(cells, inds.push(x)) == count_alive(cells, inds) + (
        if cells[x] == Cell::Alive {
            1int
        } else {
            0int
        }),
    decreases inds.len(),
{
    if inds.len() == 0 {
        assert(inds.push(x)[0] == x);
        assert(inds.push(x).drop_first() =~= Seq::<int>::empty());
        assert(count_alive(cells, inds.push(x)) == (if cells[x] == Cell::Alive {
            1int
        } else {
            0int
        }) + count_alive(cells, inds.push(x).drop_first()));
    } else {
        assert(inds.push(x)[0] == inds[0]);
        assert(inds.push(x).drop_first() =~= inds.drop_first().push(x));
        lemma_count_alive_push(cells, inds.drop_first(), x);
        assert(count_alive(cells, inds.push(x)) == (if cells[inds[0]] == Cell::Alive {
            1int
        } else {
            0int
        }) + count_alive(cells, inds.drop_first().push(x)));
    }
}

/// The transition rule for one cell: death outside `[min_n, max_n]`
/// alive neighbors, birth inside `[min_b, max_n]`, and otherwise the
/// prior state is kept — the survive-but-not-breed zone
/// `min_n <= alive < min_b` leaves a cell as it was.
pub open spec fn next_cell(prior: Cell, alive: int, min_n: int, min_b: int, max_n: int) -> Cell {
    if alive < min_n || alive > max_n {
        Cell::Dead
    } else if min_b <= alive && alive <= max_n {
        Cell::Alive
    } else {
        prior
    }
}

/// The next state of cell `i` of the grid `v`: its alive neighbors are
/// counted in the same snapshot `v` and the threshold rule is applied.
pub open spec fn spec_next_cell(v: GridView, i: int) -> Cell {
    next_cell(
        v.cells[i],
        count_alive(
            v.cells,
            neighbor_indices_spec(v.size as int, coords_of(v.size as int, v.dim, i)),
        ),
        v.min_neighbors as int,
        v.min_breed_neighbors as int,
        v.max_neighbors as int,
    )
}

/// One synchronous generation: every cell transitions from the same
/// prior snapshot, and no cell sees a sibling's updated state.
pub open spec fn next_gen(v: GridView) -> Seq<Cell> {
    Seq::new(v.cells.len(), |i: int| spec_next_cell(v, i))
}

/// Stepping is deterministic: the next generation is a function of the
/// grid's mathematical content alone, so two grids with equal content —
/// a grid and its clone, say — step to equal cell arrays.
pub proof fn lemma_step_deterministic(a: GridView, b: GridView)
    requires
        a == b,
    ensures
        next_gen(a) == next_gen(b),
{
}

/// A simulation of Conway's Game of Life, generalized to N dimensions.
pub struct LifeSimulator {
    cells: Vec<Cell>,
    dim: u32,
    size: usize,
    min_neighbors: u32,
    min_breed_neighbors: u32,
    max_neighbors: u32,
}

impl View for LifeSimulator {
    type V = GridView;

    closed spec fn view(&self) -> GridView {
        GridView {
            cells: self.cells@,
            dim: self.dim as nat,
            size: self.size as nat,
            min_neighbors: self.min_neighbors as nat,
            min_breed_neighbors: self.min_breed_neighbors as nat,
            max_neighbors: self.max_neighbors as nat,
        }
    }
}

impl Clone for LifeSimulator {
    /// The clone carries the same cells and the same frozen parameters.
    fn clone(&self) -> (r: LifeSimulator)
        ensures
            r@ == self@,
    {
        let len: usize = self.cells.len();
        let mut cells: Vec<Cell> = Vec::new();
        let mut i: usize = 0;
        while i < len
            invariant
                i <= len,
                len == self.cells@.len(),
                cells@.len() == i,
                forall|j: int| 0 <= j < i ==> cells@[j] == self.cells@[j],
            decreases len - i,
        {
            let c: Cell = self.cells[i];
            cells.push(c);
            i = i + 1;
        }
        proof {
            assert(cells@ =~= self.cells@);
        }
        let r = LifeSimulator {
            cells,
            dim: self.dim,
            size: self.size,
            min_neighbors: self.min_neighbors,
            min_breed_neighbors: self.min_breed_neighbors,
            max_neighbors: self.max_neighbors,
        };
        proof {
            assert(r@ =~= self@);
        }
        r
    }
}

impl LifeSimulator {
    /// The grid's invariant; every constructor establishes it and every
    /// method preserves it.
    pub open spec fn wf(&self) -> bool {
        grid_wf(self@)
    }

    /// Creates a simulation with the given rules, dimension count and
    /// per-axis size. The grid has size^dim cells, all Dead, and the
    /// three thresholds are derived once from `3^dimensions - 1`.
    pub fn new(rules: LifeRules, dimensions: u32, size: usize) -> (r: LifeSimulator)
        requires
            1 <= dimensions,
            1 <= size,
            size <= u32::MAX as usize + 1,
            pow(3, dimensions as nat) <= u32::MAX,
            pow(size as int, dimensions as nat) <= usize::MAX,
        ensures
            r.wf(),
            r@.dim == dimensions,
            r@.size == size,
            r@.cells.len() == pow(size as int, dimensions as nat),
            forall|i: int| 0 <= i < r@.cells.len() ==> r@.cells[i] == Cell::Dead,
            r@.min_neighbors == spec_min_neighbors(rules, full_neighbor_count(dimensions as nat)),
            r@.min_breed_neighbors == spec_min_breed_neighbors(
                rules,
                full_neighbor_count(dimensions as nat),
            ),
            r@.max_neighbors == spec_max_neighbors(rules, full_neighbor_count(dimensions as nat)),
    {
        let ghost n_spec: int = full_neighbor_count(dimensions as nat);
        proof {
            vstd::arithmetic::power::lemma_pow_positive(3, dimensions as nat);
            lemma_thresholds_ordered(rules, n_spec);
        }
        let num_neighbors: u32 = pow3_u32(dimensions) - 1;
        let min_neighbors: u32 = match rules {
            LifeRules::BasicRules => num_neighbors / 4,
            LifeRules::PercentageRules => num_neighbors / 4,
        };
        let min_breed_neighbors: u32 = match rules {
            LifeRules::BasicRules => (num_neighbors + 1) / 3,
            LifeRules::PercentageRules => ((11u64 * (num_neighbors as u64) + 31) / 32) as u32,
        };
        let max_neighbors: u32 = match rules {
            LifeRules::BasicRules => (num_neighbors + 1) / 3,
            LifeRules::PercentageRules => ((13u64 * (num_neighbors as u64)) / 32) as u32,
        };
        let total: usize = pow_usize(size, dimensions);
        let mut cells: Vec<Cell> = Vec::new();
        let mut i: usize = 0;
        while i < total
            invariant
                i <= total,
                cells@.len() == i,
                forall|j: int| 0 <= j < i ==> cells@[j] == Cell::Dead,
            decreases total - i,
        {
            cells.push(Cell::Dead);
            i = i + 1;
        }
        LifeSimulator {
            cells,
            dim: dimensions,
            size,
            min_neighbors,
            min_breed_neighbors,
            max_neighbors,
        }
    }

    /// Encodes a coordinate vector as a flat index using the grid's own
    /// size and dimension count.
    pub fn coords_to_index(&self, coords: &Vec<u32>) -> (index: usize)
        requires
            self.wf(),
            coords@.len() == self@.dim,
            coords_in_range(self@.size as int, coords@),
        ensures
            index as int == index_of(self@.size as int, coords@),
            index < self@.cells.len(),
    {
        proof {
            lemma_index_of_bounds(self.size as int, coords@);
        }
        tagged_coords_to_index(self.size, self.dim, coords)
    }

    /// Decodes a flat index into a coordinate vector using the grid's
    /// own size and dimension count.
    pub fn index_to_coords(&self, index: usize) -> (coords: Vec<u32>)
        requires
            self.wf(),
            index < self@.cells.len(),
        ensures
            coords@ == coords_of(self@.size as int, self@.dim, index as int),
            coords@.len() == self@.dim,
            coords_in_range(self@.size as int, coords@),
    {
        tagged_index_to_coords(self.size, self.dim, index)
    }

    /// Reads the cell at `index`.
    pub fn get_cell(&self, index: usize) -> (r: Cell)
        requires
            index < self@.cells.len(),
        ensures
            r == self@.cells[index as int],
    {
        self.cells[index]
    }

    /// Gives mutable access to the cell at `index`; every other part of
    /// the grid stays as it was.
    pub fn mut_cell(&mut self, index: usize) -> (r: &mut Cell)
        requires
            index < old(self)@.cells.len(),
        ensures
            *r == old(self)@.cells[index as int],
            final(self)@.cells == old(self)@.cells.update(index as int, *final(r)),
            final(self)@.dim == old(self)@.dim,
            final(self)@.size == old(self)@.size,
            final(self)@.min_neighbors == old(self)@.min_neighbors,
            final(self)@.min_breed_neighbors == old(self)@.min_breed_neighbors,
            final(self)@.max_neighbors == old(self)@.max_neighbors,
            old(self).wf() ==> final(self).wf(),
    {
        &mut self.cells[index]
    }

    /// The survival threshold frozen at construction.
    pub fn min_neighbors(&self) -> (r: u32)
        ensures
            r as nat == self@.min_neighbors,
    {
        self.min_neighbors
    }

    /// The breed threshold frozen at construction.
    pub fn min_breed_neighbors(&self) -> (r: u32)
        ensures
            r as nat == self@.min_breed_neighbors,
    {
        self.min_breed_neighbors
    }

    /// The overcrowding threshold frozen at construction.
    pub fn max_neighbors(&self) -> (r: u32)
        ensures
            r as nat == self@.max_neighbors,
    {
        self.max_neighbors
    }

    /// Lists the flat indices of all existing neighbors of the cell at
    /// `index`: every candidate of the full Moore neighborhood that
    /// stays inside the grid on all axes, in ascending candidate order.
    /// A cell on the boundary simply gets fewer entries — nothing wraps
    /// around.
    pub fn get_neighbor_indices(&self, index: usize) -> (r: Vec<usize>)
        requires
            self.wf(),
            index < self@.cells.len(),
        ensures
            r@.map_values(|x: usize| x as int) == neighbor_indices_spec(
                self@.size as int,
                coords_of(self@.size as int, self@.dim, index as int),
            ),
            forall|k: int| 0 <= k < r@.len() ==> (#[trigger] r@[k]) < self@.cells.len(),
    {
        let ghost sz: int = self@.size as int;
        let coords: Vec<u32> = self.index_to_coords(index);
        let ghost cs: Seq<u32> = coords@;
        let neighborhood_u32: u32 = pow3_u32(self.dim);
        let neighborhood: usize = neighborhood_u32 as usize;
        let dim_us: usize = self.dim as usize;
        let size: usize = self.size;
        let mut n_inds: Vec<usize> = Vec::new();
        let mut n: usize = 1;
        proof {
            lemma_pow1(3);
            lemma_pow_increases(3, 1, self@.dim);
        }
        while n < neighborhood
            invariant
                self.wf(),
                sz == self@.size as int,
                size == self@.size,
                dim_us == self@.dim,
                cs.len() == self@.dim,
                coords_in_range(sz, cs),
                cs == coords_of(sz, self@.dim, index as int),
                coords@ == cs,
                neighborhood as int == pow(3, self@.dim),
                1 <= n <= neighborhood,
                n_inds@.map_values(|x: usize| x as int) + neighbors_from(sz, cs, n as int)
                    == neighbor_indices_spec(sz, cs),
                forall|k: int|
                    0 <= k < n_inds@.len() ==> (#[trigger] n_inds@[k]) < self@.cells.len(),
            decreases neighborhood - n,
        {
            let mut n_coords: Vec<u32> = Vec::new();
            let mut rem: usize = n;
            let mut ok: bool = true;
            let mut d: usize = 0;
            proof {
                lemma_pow0(3);
            }
            while d < dim_us
                invariant
                    d <= dim_us,
                    dim_us == cs.len(),
                    coords@ == cs,
                    1 <= size,
                    size as int == sz,
                    sz <= u32::MAX as int + 1,
                    coords_in_range(sz, cs),
                    rem as int == n as int / pow(3, d as nat),
                    ok ==> n_coords@.len() == d,
                    ok ==> forall|j: int|
                        0 <= j < d ==> (#[trigger] n_coords@[j]) as int == shifted_coord(
                            cs,
                            n as int,
                            j,
                        ),
                    ok ==> forall|j: int|
                        0 <= j < d ==> 0 <= #[trigger] shifted_coord(cs, n as int, j) < sz,
                    !ok ==> !candidate_ok(sz, cs, n as int),
                decreases dim_us - d,
            {
                let t: usize = rem % 3;
                proof {
                    lemma_pow_positive(3, d as nat);
                    lemma_div_denominator(n as int, pow(3, d as nat), 3);
                    assert(pow(3, (d + 1) as nat) == pow(3, d as nat) * 3) by {
                        lemma_pow1(3);
                        lemma_pow_adds(3, d as nat, 1);
                    }
                    assert(t as int == tern_digit(n as int, d as int));
                }
                if ok {
                    let c: u32 = coords[d];
                    if t == 1 {
                        if c == 0 {
                            ok = false;
                            proof {
                                assert(shifted_coord(cs, n as int, d as int) == -1);
                                if candidate_ok(sz, cs, n as int) {
                                    assert(0 <= shifted_coord(cs, n as int, d as int));
                                    assert(false);
                                }
                            }
                        } else {
                            n_coords.push(c - 1);
                        }
                    } else if t == 2 {
                        if c as usize + 1 == size {
                            ok = false;
                            proof {
                                assert(shifted_coord(cs, n as int, d as int) == sz);
                                if candidate_ok(sz, cs, n as int) {
                                    assert(shifted_coord(cs, n as int, d as int) < sz);
                                    assert(false);
                                }
                            }
                        } else {
                            n_coords.push(c + 1);
                        }
                    } else {
                        n_coords.push(c);
                    }
                }
                rem = rem / 3;
                d = d + 1;
            }
            let ghost prev: Seq<usize> = n_inds@;
            if ok {
                proof {
                    assert(candidate_ok(sz, cs, n as int));
                    lemma_shifted_in_range(sz, cs, n as int);
                    assert forall|j: int| 0 <= j < dim_us implies n_coords@[j] == shifted_coords(
                        cs,
                        n as int,
                    )[j] by {
                        assert(n_coords@[j] as int == shifted_coord(cs, n as int, j));
                        assert(shifted_coords(cs, n as int)[j] as int == shifted_coord(
                            cs,
                            n as int,
                            j,
                        ));
                    }
                    assert(n_coords@ =~= shifted_coords(cs, n as int));
                    lemma_index_of_bounds(sz, n_coords@);
                }
                let n_ind: usize = tagged_coords_to_index(size, self.dim, &n_coords);
                n_inds.push(n_ind);
                proof {
                    assert(n_ind as int == neighbor_index(sz, cs, n as int));
                    assert(neighbors_from(sz, cs, n as int) == seq![
                        neighbor_index(sz, cs, n as int),
                    ] + neighbors_from(sz, cs, n as int + 1));
                    assert(n_inds@.map_values(|x: usize| x as int) + neighbors_from(
                        sz,
                        cs,
                        n as int + 1,
                    ) =~= prev.map_values(|x: usize| x as int) + neighbors_from(sz, cs, n as int));
                }
            } else {
                proof {
                    assert(neighbors_from(sz, cs, n as int) == neighbors_from(sz, cs, n as int + 1));
                }
            }
            n = n + 1;
        }
        proof {
            assert(neighbors_from(sz, cs, n as int) =~= Seq::<int>::empty());
            assert(n_inds@.map_values(|x: usize| x as int) =~= n_inds@.map_values(
                |x: usize| x as int,
            ) + neighbors_from(sz, cs, n as int));
        }
        n_inds
    }

    /// Advances the grid by exactly one generation: every cell's alive
    /// neighbors are counted against the prior snapshot, then the
    /// threshold rule rewrites every cell in place.
    pub fn step(&mut self)
        requires
            old(self).wf(),
        ensures
            final(self).wf(),
            final(self)@.cells == next_gen(old(self)@),
            final(self)@.dim == old(self)@.dim,
            final(self)@.size == old(self)@.size,
            final(self)@.min_neighbors == old(self)@.min_neighbors,
            final(self)@.min_breed_neighbors == old(self)@.min_breed_neighbors,
            final(self)@.max_neighbors == old(self)@.max_neighbors,
    {
        let last: LifeSimulator = self.clone();
        let len: usize = self.cells.len();
        let min_n: u32 = self.min_neighbors;
        let min_b: u32 = self.min_breed_neighbors;
        let max_n: u32 = self.max_neighbors;
        let mut index: usize = 0;
        while index < len
            invariant
                last@ == old(self)@,
                last.wf(),
                len == old(self)@.cells.len(),
                self@.cells.len() == len,
                index <= len,
                min_n == old(self)@.min_neighbors,
                min_b == old(self)@.min_breed_neighbors,
                max_n == old(self)@.max_neighbors,
                self@.dim == old(self)@.dim,
                self@.size == old(self)@.size,
                self@.min_neighbors == old(self)@.min_neighbors,
                self@.min_breed_neighbors == old(self)@.min_breed_neighbors,
                self@.max_neighbors == old(self)@.max_neighbors,
                forall|j: int|
                    0 <= j < index ==> #[trigger] self@.cells[j] == next_gen(old(self)@)[j],
            decreases len - index,
        {
            let n_inds: Vec<usize> = last.get_neighbor_indices(index);
            let ghost mapped: Seq<int> = n_inds@.map_values(|x: usize| x as int);
            proof {
                vstd::arithmetic::power::lemma_pow_positive(3, last@.dim);
                lemma_neighbors_from_len_le(
                    last@.size as int,
                    coords_of(last@.size as int, last@.dim, index as int),
                    1,
                );
            }
            let n_count: usize = n_inds.len();
            let mut alive: u32 = 0;
            let mut k: usize = 0;
            while k < n_count
                invariant
                    k <= n_count,
                    n_count == n_inds@.len(),
                    n_count < pow(3, last@.dim),
                    pow(3, last@.dim) <= u32::MAX as int,
                    mapped == n_inds@.map_values(|x: usize| x as int),
                    last.wf(),
                    forall|j: int|
                        0 <= j < n_inds@.len() ==> (#[trigger] n_inds@[j]) < last@.cells.len(),
                    alive as int == count_alive(last@.cells, mapped.take(k as int)),
                    alive <= k,
                decreases n_count - k,
            {
                let n_ind: usize = n_inds[k];
                let c: Cell = last.get_cell(n_ind);
                proof {
                    assert(mapped.take(k as int + 1) =~= mapped.take(k as int).push(
                        mapped[k as int],
                    ));
                    lemma_count_alive_push(last@.cells, mapped.take(k as int), mapped[k as int]);
                    assert(mapped[k as int] == n_inds@[k as int] as int);
                }
                if c == Cell::Alive {
                    alive = alive + 1;
                }
                k = k + 1;
            }
            proof {
                assert(mapped.take(n_count as int) =~= mapped);
            }
            let prior: Cell = last.get_cell(index);
            let new_cell: Cell = if alive < min_n || alive > max_n {
                Cell::Dead
            } else if alive >= min_b && alive <= max_n {
                Cell::Alive
            } else {
                prior
            };
            self.cells[index] = new_cell;
            index = index + 1;
            proof {
                assert(new_cell == spec_next_cell(old(self)@, index - 1));
            }
        }
        proof {
            assert(self@.cells =~= next_gen(old(self)@));
        }
    }

    /// Sets every cell to a fresh random draw; the grid's shape and
    /// thresholds stay as they were.
    pub fn randomize_grid(&mut self)
        requires
            old(self).wf(),
        ensures
            final(self).wf(),
            final(self)@.cells.len() == old(self)@.cells.len(),
            final(self)@.dim == old(self)@.dim,
            final(self)@.size == old(self)@.size,
            final(self)@.min_neighbors == old(self)@.min_neighbors,
            final(self)@.min_breed_neighbors == old(self)@.min_breed_neighbors,
            final(self)@.max_neighbors == old(self)@.max_neighbors,
    {
        let len: usize = self.cells.len();
        let mut i: usize = 0;
        while i < len
            invariant
                i <= len,
                self.cells@.len() == len,
                self@.dim == old(self)@.dim,
                self@.size == old(self)@.size,
                self@.min_neighbors == old(self)@.min_neighbors,
                self@.min_breed_neighbors == old(self)@.min_breed_neighbors,
                self@.max_neighbors == old(self)@.max_neighbors,
                old(self).wf(),
            decreases len - i,
        {
            let b: bool = random_bool();
            self.cells[i] = Cell::from(b);
            i = i + 1;
        }
    }
}

/// Relies on rand::random: draws one boolean from the thread-local
/// generator. Nothing is promised of the outcome.
#[verifier::external_body]
fn random_bool() -> bool {
    rand::random::<bool>()
}

} // verus!
