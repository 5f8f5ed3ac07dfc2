//! The Moore neighborhood of a cell, for any dimension count.
//!
//! Candidate neighbors are numbered 1 through 3^dim - 1. Reading a
//! candidate identifier as `dim` base-3 digits gives one shift per axis:
//! digit 0 keeps the coordinate, digit 1 moves one step down, digit 2 one
//! step up. A candidate whose shifted position leaves the grid on any
//! axis is dropped entirely — there is no wraparound and no clamping —
//! and the rest are listed in ascending identifier order.

use vstd::prelude::*;
use vstd::arithmetic::power::{
    pow, lemma_pow0, lemma_pow1, lemma_pow_adds, lemma_pow_positive, lemma_pow_increases,
};
use vstd::arithmetic::div_mod::{
    lemma_fundamental_div_mod, lemma_div_denominator, lemma_div_pos_is_pos,
    lemma_multiply_divide_lt, lemma_mod_bound, lemma_div_by_self, lemma_div_multiples_vanish,
};
use crate::codec::{index_of, coords_of, coords_in_range, lemma_index_of_bounds,
    lemma_decode_encode};

verus! {

/// Base-3 digit `d` of the candidate identifier `n`.
pub open spec fn tern_digit(n: int, d: int) -> int {
    (n / pow(3, d as nat)) % 3
}

/// The axis shift encoded by one ternary digit: 0 keeps the coordinate,
/// 1 moves one step down, 2 moves one step up.
pub open spec fn digit_offset(t: int) -> int {
    if t == 1 {
        -1
    } else if t == 2 {
        1
    } else {
        0
    }
}

/// Candidate `n`'s position on axis `d`, relative to the cell at
/// `coords`, as an unbounded integer.
pub open spec fn shifted_coord(coords: Seq<u32>, n: int, d: int) -> int {
    coords[d] + digit_offset(tern_digit(n, d))
}

/// Candidate `n` stays inside the grid on every axis.
pub open spec fn candidate_ok(size: int, coords: Seq<u32>, n: int) -> bool {
    forall|d: int|
        0 <= d < coords.len() ==> 0 <= #[trigger] shifted_coord(coords, n, d) < size
}

/// The coordinate vector of candidate `n`.
pub open spec fn shifted_coords(coords: Seq<u32>, n: int) -> Seq<u32> {
    Seq::new(coords.len(), |d: int| shifted_coord(coords, n, d) as u32)
}

/// The flat index of candidate `n`.
pub open spec fn neighbor_index(size: int, coords: Seq<u32>, n: int) -> int {
    index_of(size, shifted_coords(coords, n))
}

/// The indices of the in-bounds candidates with identifiers in
/// `[n, 3^dim)`, in ascending identifier order.
pub open spec fn neighbors_from(size: int, coords: Seq<u32>, n: int) -> Seq<int>
    decreases pow(3, coords.len()) - n,
{
    if n < pow(3, coords.len()) {
        let rest = neighbors_from(size, coords, n + 1);
        if candidate_ok(size, coords, n) {
            seq![neighbor_index(size, coords, n)] + rest
        } else {
            rest
        }
    } else {
        Seq::empty()
    }
}

/// The neighbor list of the cell at `coords`: all in-bounds candidates
/// 1 through 3^dim - 1.
pub open spec fn neighbor_indices_spec(size: int, coords: Seq<u32>) -> Seq<int> {
    neighbors_from(size, coords, 1)
}

/// The cell at `coords` touches no grid boundary: every axis has room
/// on both sides.
pub open spec fn interior(size: int, coords: Seq<u32>) -> bool {
    forall|d: int| 0 <= d < coords.len() ==> 1 <= #[trigger] coords[d] && coords[d] + 1 < size
}

/// A ternary digit of a non-negative identifier is 0, 1 or 2.
pub proof fn lemma_tern_digit_bounds(n: int, d: int)
    requires
        0 <= n,
        0 <= d,
    ensures
        0 <= tern_digit(n, d) <= 2,
{
    lemma_pow_positive(3, d as nat);
    lemma_div_pos_is_pos(n, pow(3, d as nat));
    lemma_mod_bound(n / pow(3, d as nat), 3);
}

/// An in-bounds candidate's coordinate vector is in range, one
/// component per axis.
pub proof fn lemma_shifted_in_range(size: int, coords: Seq<u32>, n: int)
    requires
        1 <= size,
        size <= u32::MAX as int + 1,
        candidate_ok(size, coords, n),
    ensures
        shifted_coords(coords, n).len() == coords.len(),
        coords_in_range(size, shifted_coords(coords, n)),
        forall|d: int|
            0 <= d < coords.len() ==> (#[trigger] shifted_coords(coords, n)[d]) as int
                == shifted_coord(coords, n, d),
{
    assert forall|d: int|
        0 <= d < coords.len() implies (#[trigger] shifted_coords(coords, n)[d]) as int
        == shifted_coord(coords, n, d) by {
        assert(0 <= shifted_coord(coords, n, d) < size);
    }
}

/// Two distinct identifiers below 3^len differ in some base-3 digit.
pub proof fn lemma_digits_differ(len: nat, m1: int, m2: int)
    requires
        0 <= m1 < pow(3, len),
        0 <= m2 < pow(3, len),
        m1 != m2,
    ensures
        exists|d: int| 0 <= d < len && (#[trigger] tern_digit(m1, d)) != tern_digit(m2, d),
    decreases len,
{
    lemma_pow0(3);
    if len == 0 {
        assert(false);
    } else if m1 % 3 != m2 % 3 {
        assert(tern_digit(m1, 0) == m1 % 3);
        assert(tern_digit(m2, 0) == m2 % 3);
        assert(0 <= 0 < len && tern_digit(m1, 0) != tern_digit(m2, 0));
    } else {
        lemma_fundamental_div_mod(m1, 3);
        lemma_fundamental_div_mod(m2, 3);
        assert(m1 / 3 != m2 / 3);
        assert(pow(3, len) == 3 * pow(3, (len - 1) as nat)) by {
            lemma_pow1(3);
            lemma_pow_adds(3, 1, (len - 1) as nat);
        }
        lemma_multiply_divide_lt(m1, 3, pow(3, (len - 1) as nat));
        lemma_multiply_divide_lt(m2, 3, pow(3, (len - 1) as nat));
        lemma_div_pos_is_pos(m1, 3);
        lemma_div_pos_is_pos(m2, 3);
        lemma_digits_differ((len - 1) as nat, m1 / 3, m2 / 3);
        let dd: int = choose|d: int|
            0 <= d < len - 1 && (#[trigger] tern_digit(m1 / 3, d)) != tern_digit(m2 / 3, d);
        lemma_pow_positive(3, dd as nat);
        lemma_div_denominator(m1, 3, pow(3, dd as nat));
        lemma_div_denominator(m2, 3, pow(3, dd as nat));
        assert(pow(3, (dd + 1) as nat) == 3 * pow(3, dd as nat)) by {
            lemma_pow1(3);
            lemma_pow_adds(3, 1, dd as nat);
        }
        assert(tern_digit(m1, dd + 1) == tern_digit(m1 / 3, dd));
        assert(tern_digit(m2, dd + 1) == tern_digit(m2 / 3, dd));
        assert(0 <= dd + 1 < len && tern_digit(m1, dd + 1) != tern_digit(m2, dd + 1));
    }
}

/// Distinct in-bounds candidates have distinct flat indices.
pub proof fn lemma_candidate_injective(size: int, coords: Seq<u32>, m1: int, m2: int)
    requires
        1 <= size,
        size <= u32::MAX as int + 1,
        0 <= m1 < pow(3, coords.len()),
        0 <= m2 < pow(3, coords.len()),
        m1 != m2,
        candidate_ok(size, coords, m1),
        candidate_ok(size, coords, m2),
    ensures
        neighbor_index(size, coords, m1) != neighbor_index(size, coords, m2),
{
    lemma_digits_differ(coords.len(), m1, m2);
    let d: int = choose|d: int|
        0 <= d < coords.len() && (#[trigger] tern_digit(m1, d)) != tern_digit(m2, d);
    lemma_tern_digit_bounds(m1, d);
    lemma_tern_digit_bounds(m2, d);
    assert(shifted_coord(coords, m1, d) != shifted_coord(coords, m2, d));
    let s1 = shifted_coords(coords, m1);
    let s2 = shifted_coords(coords, m2);
    lemma_shifted_in_range(size, coords, m1);
    lemma_shifted_in_range(size, coords, m2);
    assert(s1[d] != s2[d]);
    if neighbor_index(size, coords, m1) == neighbor_index(size, coords, m2) {
        lemma_decode_encode(size, s1);
        lemma_decode_encode(size, s2);
        assert(s1 == s2);
        assert(false);
    }
}

/// Every entry of the candidate list from `n` is the index of some
/// in-bounds candidate with identifier at least `n`.
pub proof fn lemma_neighbors_from_elem(size: int, coords: Seq<u32>, n: int, k: int)
    requires
        0 <= k < neighbors_from(size, coords, n).len(),
    ensures
        exists|m: int|
            n <= m < pow(3, coords.len()) && #[trigger] candidate_ok(size, coords, m)
                && neighbors_from(size, coords, n)[k] == neighbor_index(size, coords, m),
    decreases pow(3, coords.len()) - n,
{
    if n < pow(3, coords.len()) {
        if candidate_ok(size, coords, n) {
            if k == 0 {
                assert(neighbors_from(size, coords, n)[0] == neighbor_index(size, coords, n));
            } else {
                lemma_neighbors_from_elem(size, coords, n + 1, k - 1);
                let m: int = choose|m: int|
                    n + 1 <= m < pow(3, coords.len()) && #[trigger] candidate_ok(size, coords, m)
                        && neighbors_from(size, coords, n + 1)[k - 1] == neighbor_index(
                        size,
                        coords,
                        m,
                    );
                assert(neighbors_from(size, coords, n)[k] == neighbors_from(
                    size,
                    coords,
                    n + 1,
                )[k - 1]);
                assert(n <= m < pow(3, coords.len()) && candidate_ok(size, coords, m)
                    && neighbors_from(size, coords, n)[k] == neighbor_index(size, coords, m));
            }
        } else {
            lemma_neighbors_from_elem(size, coords, n + 1, k);
            let m: int = choose|m: int|
                n + 1 <= m < pow(3, coords.len()) && #[trigger] candidate_ok(size, coords, m)
                    && neighbors_from(size, coords, n + 1)[k] == neighbor_index(size, coords, m);
            assert(n <= m < pow(3, coords.len()) && candidate_ok(size, coords, m)
                && neighbors_from(size, coords, n)[k] == neighbor_index(size, coords, m));
        }
    } else {
        assert(false);
    }
}

/// Every listed neighbor index is a valid cell index of the grid.
pub proof fn lemma_neighbor_indices_in_bounds(size: int, coords: Seq<u32>)
    requires
        1 <= size,
        size <= u32::MAX as int + 1,
    ensures
        forall|k: int|
            0 <= k < neighbor_indices_spec(size, coords).len() ==> 0 <= (
            #[trigger] neighbor_indices_spec(size, coords)[k]) < pow(size, coords.len()),
{
    assert forall|k: int| 0 <= k < neighbor_indices_spec(size, coords).len() implies 0 <= (
    #[trigger] neighbor_indices_spec(size, coords)[k]) < pow(size, coords.len()) by {
        lemma_neighbors_from_elem(size, coords, 1, k);
        let m: int = choose|m: int|
            1 <= m < pow(3, coords.len()) && #[trigger] candidate_ok(size, coords, m)
                && neighbors_from(size, coords, 1)[k] == neighbor_index(size, coords, m);
        lemma_shifted_in_range(size, coords, m);
        lemma_index_of_bounds(size, shifted_coords(coords, m));
    }
}

/// The candidate list from `n` never repeats an index.
pub proof fn lemma_neighbors_from_no_dup(size: int, coords: Seq<u32>, n: int)
    requires
        1 <= size,
        size <= u32::MAX as int + 1,
        0 <= n,
    ensures
        neighbors_from(size, coords, n).no_duplicates(),
    decreases pow(3, coords.len()) - n,
{
    let s = neighbors_from(size, coords, n);
    if n < pow(3, coords.len()) {
        lemma_neighbors_from_no_dup(size, coords, n + 1);
        let rest = neighbors_from(size, coords, n + 1);
        if candidate_ok(size, coords, n) {
            assert forall|k: int| 0 <= k < rest.len() implies rest[k] != neighbor_index(
                size,
                coords,
                n,
            ) by {
                lemma_neighbors_from_elem(size, coords, n + 1, k);
                let m: int = choose|m: int|
                    n + 1 <= m < pow(3, coords.len()) && #[trigger] candidate_ok(size, coords, m)
                        && neighbors_from(size, coords, n + 1)[k] == neighbor_index(
                        size,
                        coords,
                        m,
                    );
                lemma_candidate_injective(size, coords, n, m);
            }
            assert(s == seq![neighbor_index(size, coords, n)] + rest);
            assert forall|i: int, j: int|
                0 <= i < s.len() && 0 <= j < s.len() && i != j implies s[i] != s[j] by {
                if i == 0 {
                    assert(s[j] == rest[j - 1]);
                } else if j == 0 {
                    assert(s[i] == rest[i - 1]);
                } else {
                    assert(s[i] == rest[i - 1] && s[j] == rest[j - 1]);
                }
            }
        }
    }
}

/// The neighbor list never repeats an index.
pub proof fn lemma_neighbor_indices_distinct(size: int, coords: Seq<u32>)
    requires
        1 <= size,
        size <= u32::MAX as int + 1,
    ensures
        neighbor_indices_spec(size, coords).no_duplicates(),
{
    lemma_neighbors_from_no_dup(size, coords, 1);
}

/// The candidate list from `n` has at most `3^dim - n` entries, and is
/// empty once `n` passes the last identifier.
pub proof fn lemma_neighbors_from_len_le(size: int, coords: Seq<u32>, n: int)
    ensures
        n <= pow(3, coords.len()) ==> neighbors_from(size, coords, n).len() <= pow(
            3,
            coords.len(),
        ) - n,
        pow(3, coords.len()) <= n ==> neighbors_from(size, coords, n).len() == 0,
    decreases pow(3, coords.len()) - n,
{
    if n < pow(3, coords.len()) {
        lemma_neighbors_from_len_le(size, coords, n + 1);
    }
}

/// Every candidate of an interior cell stays in bounds.
pub proof fn lemma_interior_candidate_ok(size: int, coords: Seq<u32>, m: int)
    requires
        interior(size, coords),
        0 <= m,
    ensures
        candidate_ok(size, coords, m),
{
    assert forall|d: int|
        0 <= d < coords.len() implies 0 <= #[trigger] shifted_coord(coords, m, d) < size by {
        lemma_tern_digit_bounds(m, d);
    }
}

/// For an interior cell the candidate list from `n` keeps every
/// remaining identifier.
pub proof fn lemma_neighbors_from_len_interior(size: int, coords: Seq<u32>, n: int)
    requires
        interior(size, coords),
        0 <= n <= pow(3, coords.len()),
    ensures
        neighbors_from(size, coords, n).len() == pow(3, coords.len()) - n,
    decreases pow(3, coords.len()) - n,
{
    if n < pow(3, coords.len()) {
        lemma_interior_candidate_ok(size, coords, n);
        lemma_neighbors_from_len_interior(size, coords, n + 1);
    }
}

/// Dropping one candidate makes the list from `n` strictly shorter than
/// the identifier range.
pub proof fn lemma_neighbors_from_len_missing(size: int, coords: Seq<u32>, n: int, m: int)
    requires
        0 <= n <= m < pow(3, coords.len()),
        !candidate_ok(size, coords, m),
    ensures
        neighbors_from(size, coords, n).len() < pow(3, coords.len()) - n,
    decreases pow(3, coords.len()) - n,
{
    if n == m {
        lemma_neighbors_from_len_le(size, coords, n + 1);
    } else {
        lemma_neighbors_from_len_missing(size, coords, n + 1, m);
    }
}

/// An interior cell — no axis at 0 or size-1 — has exactly 3^dim - 1
/// neighbors.
pub proof fn lemma_neighbor_count_interior(size: int, coords: Seq<u32>)
    requires
        interior(size, coords),
    ensures
        neighbor_indices_spec(size, coords).len() == pow(3, coords.len()) - 1,
{
    lemma_pow_positive(3, coords.len());
    lemma_neighbors_from_len_interior(size, coords, 1);
}

/// A cell with some axis at 0 or size-1 has strictly fewer than
/// 3^dim - 1 neighbors.
pub proof fn lemma_neighbor_count_boundary(size: int, coords: Seq<u32>, d0: int)
    requires
        1 <= size,
        coords_in_range(size, coords),
        0 <= d0 < coords.len(),
        coords[d0] == 0 || coords[d0] + 1 == size,
    ensures
        neighbor_indices_spec(size, coords).len() < pow(3, coords.len()) - 1,
{
    let p: int = pow(3, d0 as nat);
    lemma_pow_positive(3, d0 as nat);
    assert(pow(3, (d0 + 1) as nat) == 3 * p) by {
        lemma_pow1(3);
        lemma_pow_adds(3, 1, d0 as nat);
    }
    lemma_pow_increases(3, (d0 + 1) as nat, coords.len());
    if coords[d0] == 0 {
        let m: int = p;
        lemma_div_by_self(p);
        assert(tern_digit(m, d0) == 1);
        assert(shifted_coord(coords, m, d0) == -1);
        if candidate_ok(size, coords, m) {
            assert(0 <= shifted_coord(coords, m, d0));
            assert(false);
        }
        lemma_neighbors_from_len_missing(size, coords, 1, m);
    } else {
        let m: int = 2 * p;
        assert(m / p == 2) by {
            lemma_div_multiples_vanish(2, p);
        }
        assert(tern_digit(m, d0) == 2);
        assert(shifted_coord(coords, m, d0) == size);
        if candidate_ok(size, coords, m) {
            assert(shifted_coord(coords, m, d0) < size);
            assert(false);
        }
        lemma_neighbors_from_len_missing(size, coords, 1, m);
    }
}

/// The origin corner (0, 0) of a two-axis grid.
pub open spec fn origin2() -> Seq<u32> {
    seq![0u32, 0u32]
}

/// The far corner (size-1, size-1) of a two-axis grid.
pub open spec fn far_corner2(size: int) -> Seq<u32> {
    seq![(size - 1) as u32, (size - 1) as u32]
}

/// From the origin corner of a two-axis grid no listed neighbor leaves
/// the unit box: every listed index decodes to coordinates 0 or 1, so
/// for size at least 3 the far corner (size-1, size-1) never appears.
/// (At size 2 that corner is a true neighbor, one step away on each
/// axis.)
pub proof fn lemma_origin_corner_no_wraparound(size: int)
    requires
        3 <= size,
        size <= u32::MAX as int + 1,
    ensures
        forall|k: int|
            0 <= k < neighbor_indices_spec(size, origin2()).len() ==> {
                let x = #[trigger] neighbor_indices_spec(size, origin2())[k];
                &&& 0 <= x < pow(size, 2)
                &&& coords_of(size, 2, x)[0] <= 1
                &&& coords_of(size, 2, x)[1] <= 1
                &&& x != index_of(size, far_corner2(size))
            },
{
    let origin: Seq<u32> = origin2();
    let far: Seq<u32> = far_corner2(size);
    lemma_neighbor_indices_in_bounds(size, origin);
    assert forall|k: int| 0 <= k < neighbor_indices_spec(size, origin).len() implies {
        let x = #[trigger] neighbor_indices_spec(size, origin)[k];
        &&& 0 <= x < pow(size, 2)
        &&& coords_of(size, 2, x)[0] <= 1
        &&& coords_of(size, 2, x)[1] <= 1
        &&& x != index_of(size, far)
    } by {
        let x = neighbor_indices_spec(size, origin)[k];
        lemma_neighbors_from_elem(size, origin, 1, k);
        let m: int = choose|m: int|
            1 <= m < pow(3, origin.len()) && #[trigger] candidate_ok(size, origin, m)
                && neighbors_from(size, origin, 1)[k] == neighbor_index(size, origin, m);
        let s = shifted_coords(origin, m);
        lemma_shifted_in_range(size, origin, m);
        lemma_tern_digit_bounds(m, 0);
        lemma_tern_digit_bounds(m, 1);
        assert(shifted_coord(origin, m, 0) <= 1);
        assert(shifted_coord(origin, m, 1) <= 1);
        lemma_decode_encode(size, s);
        assert(coords_of(size, 2, x) == s);
        assert(coords_in_range(size, far)) by {
            assert(far[0] == (size - 1) as u32);
            assert(far[1] == (size - 1) as u32);
        }
        if x == index_of(size, far) {
            lemma_decode_encode(size, far);
            assert(s == far);
            assert(s[0] as int == size - 1);
            assert(false);
        }
    }
}

} // verus!
