//! Mixed-radix codec between a flat storage index and a coordinate vector.
//!
//! A coordinate vector of `dim` components, each in `[0, size)`, encodes to
//! the flat index `sum over d of size^d * coords[d]`, with axis 0 as the
//! least significant digit; decoding recovers the digits in the same order.

use vstd::prelude::*;
use vstd::arithmetic::power::{
    pow, lemma_pow0, lemma_pow1, lemma_pow_adds, lemma_pow_positive, lemma_pow_increases,
};
use vstd::arithmetic::div_mod::{
    lemma_fundamental_div_mod, lemma_fundamental_div_mod_converse, lemma_div_denominator,
    lemma_div_pos_is_pos, lemma_multiply_divide_lt, lemma_mod_bound,
};
use vstd::assert_seqs_equal;

verus! {

/// The flat index encoded by `coords` in base `size`, axis 0 least
/// significant.
pub open spec fn index_of(size: int, coords: Seq<u32>) -> int
    decreases coords.len(),
{
    if coords.len() == 0 {
        0
    } else {
        coords[0] + size * index_of(size, coords.drop_first())
    }
}

/// The `dim` base-`size` digits of `index`, least significant first.
pub open spec fn coords_of(size: int, dim: nat, index: int) -> Seq<u32> {
    Seq::new(dim, |d: int| (((index / pow(size, d as nat)) % size) as u32))
}

/// Every component of `coords` lies below `size`.
pub open spec fn coords_in_range(size: int, coords: Seq<u32>) -> bool {
    forall|d: int| 0 <= d < coords.len() ==> (#[trigger] coords[d]) < size
}

/// The encoded index of an in-range coordinate vector lies in
/// `[0, size^dim)`.
pub proof fn lemma_index_of_bounds(size: int, coords: Seq<u32>)
    requires
        1 <= size,
        coords_in_range(size, coords),
    ensures
        0 <= index_of(size, coords) < pow(size, coords.len()),
    decreases coords.len(),
{
    if coords.len() == 0 {
        lemma_pow0(size);
    } else {
        lemma_index_of_bounds(size, coords.drop_first());
        let c0: int = coords[0] as int;
        let rest: int = index_of(size, coords.drop_first());
        let pow_sub: int = pow(size, (coords.len() - 1) as nat);
        assert(pow(size, coords.len()) == size * pow_sub) by {
            lemma_pow1(size);
            lemma_pow_adds(size, 1, (coords.len() - 1) as nat);
        }
        assert(0 <= c0 + size * rest < size * pow_sub) by (nonlinear_arith)
            requires
                0 <= c0 < size,
                0 <= rest < pow_sub,
                1 <= size,
        ;
    }
}

/// Appending one more digit adds its scaled value to the encoding.
pub proof fn lemma_index_of_push(size: int, coords: Seq<u32>, c: u32)
    ensures
        index_of(size, coords.push(c)) == index_of(size, coords) + pow(size, coords.len()) * c,
    decreases coords.len(),
{
    let ci: int = c as int;
    if coords.len() == 0 {
        lemma_pow0(size);
        assert(coords.push(c).drop_first() =~= Seq::<u32>::empty());
        assert(index_of(size, coords.push(c)) == ci + size * index_of(
            size,
            coords.push(c).drop_first(),
        ));
        assert(index_of(size, Seq::<u32>::empty()) == 0);
    } else {
        assert(coords.push(c).drop_first() =~= coords.drop_first().push(c));
        lemma_index_of_push(size, coords.drop_first(), c);
        let a: int = index_of(size, coords.drop_first());
        let pow_sub: int = pow(size, (coords.len() - 1) as nat);
        assert(pow(size, coords.len()) == size * pow_sub) by {
            lemma_pow1(size);
            lemma_pow_adds(size, 1, (coords.len() - 1) as nat);
        }
        assert(index_of(size, coords.push(c)) == coords[0] + size * (a + pow_sub * ci));
        assert(size * (a + pow_sub * ci) == size * a + (size * pow_sub) * ci) by (nonlinear_arith);
    }
}

/// Decoding the encoding of an in-range coordinate vector gives the
/// vector back.
pub proof fn lemma_decode_encode(size: int, coords: Seq<u32>)
    requires
        1 <= size,
        size <= u32::MAX as int + 1,
        coords_in_range(size, coords),
    ensures
        coords_of(size, coords.len(), index_of(size, coords)) == coords,
    decreases coords.len(),
{
    let i: int = index_of(size, coords);
    if coords.len() == 0 {
        assert_seqs_equal!(coords_of(size, 0, i), coords);
    } else {
        let c0: int = coords[0] as int;
        let rest: int = index_of(size, coords.drop_first());
        lemma_index_of_bounds(size, coords.drop_first());
        assert(i == c0 + size * rest);
        assert(i == rest * size + c0) by (nonlinear_arith)
            requires
                i == c0 + size * rest,
        ;
        lemma_fundamental_div_mod_converse(i, size, rest, c0);
        lemma_decode_encode(size, coords.drop_first());
        assert forall|d: int| 0 <= d < coords.len() implies coords_of(
            size,
            coords.len(),
            i,
        )[d] == coords[d] by {
            if d == 0 {
                lemma_pow0(size);
            } else {
                lemma_pow_positive(size, (d - 1) as nat);
                lemma_div_denominator(i, size, pow(size, (d - 1) as nat));
                assert(pow(size, d as nat) == size * pow(size, (d - 1) as nat)) by {
                    lemma_pow1(size);
                    lemma_pow_adds(size, 1, (d - 1) as nat);
                }
                assert((i / pow(size, d as nat)) % size == (rest / pow(
                    size,
                    (d - 1) as nat,
                )) % size);
                assert(coords_of(size, (coords.len() - 1) as nat, rest)[d - 1]
                    == coords.drop_first()[d - 1]);
            }
        }
        assert_seqs_equal!(coords_of(size, coords.len(), i), coords);
    }
}

/// The digits produced by decoding are in range and there are `dim` of
/// them.
pub proof fn lemma_coords_of_in_range(size: int, dim: nat, index: int)
    requires
        1 <= size,
        0 <= index,
    ensures
        coords_of(size, dim, index).len() == dim,
        coords_in_range(size, coords_of(size, dim, index)),
{
    assert forall|d: int| 0 <= d < dim implies (#[trigger] coords_of(size, dim, index)[d])
        < size by {
        lemma_pow_positive(size, d as nat);
        lemma_div_pos_is_pos(index, pow(size, d as nat));
        lemma_mod_bound(index / pow(size, d as nat), size);
    }
}

/// Encoding the decoding of an in-range index gives the index back.
pub proof fn lemma_encode_decode(size: int, dim: nat, index: int)
    requires
        1 <= size,
        size <= u32::MAX as int + 1,
        0 <= index < pow(size, dim),
    ensures
        index_of(size, coords_of(size, dim, index)) == index,
    decreases dim,
{
    let c: Seq<u32> = coords_of(size, dim, index);
    if dim == 0 {
        lemma_pow0(size);
    } else {
        lemma_pow0(size);
        lemma_pow_positive(size, (dim - 1) as nat);
        assert(pow(size, dim) == size * pow(size, (dim - 1) as nat)) by {
            lemma_pow1(size);
            lemma_pow_adds(size, 1, (dim - 1) as nat);
        }
        lemma_multiply_divide_lt(index, size, pow(size, (dim - 1) as nat));
        lemma_div_pos_is_pos(index, size);
        assert(c.drop_first() =~= coords_of(size, (dim - 1) as nat, index / size)) by {
            assert forall|d: int| 0 <= d < dim - 1 implies c.drop_first()[d] == coords_of(
                size,
                (dim - 1) as nat,
                index / size,
            )[d] by {
                lemma_pow_positive(size, d as nat);
                lemma_div_denominator(index, size, pow(size, d as nat));
                assert(pow(size, (d + 1) as nat) == size * pow(size, d as nat)) by {
                    lemma_pow1(size);
                    lemma_pow_adds(size, 1, d as nat);
                }
            }
        }
        lemma_encode_decode(size, (dim - 1) as nat, index / size);
        lemma_mod_bound(index, size);
        lemma_fundamental_div_mod(index, size);
    }
}

/// Computes 3^dim without overflow.
pub fn pow3_u32(dim: u32) -> (r: u32)
    requires
        pow(3, dim as nat) <= u32::MAX,
    ensures
        r as int == pow(3, dim as nat),
{
    let mut r: u32 = 1;
    let mut i: u32 = 0;
    proof {
        lemma_pow0(3);
    }
    while i < dim
        invariant
            i <= dim,
            r as int == pow(3, i as nat),
            pow(3, dim as nat) <= u32::MAX,
        decreases dim - i,
    {
        proof {
            assert(pow(3, (i + 1) as nat) == pow(3, i as nat) * 3) by {
                lemma_pow1(3);
                lemma_pow_adds(3, i as nat, 1);
            }
            lemma_pow_increases(3, (i + 1) as nat, dim as nat);
            lemma_pow_positive(3, i as nat);
        }
        r = r * 3;
        i = i + 1;
    }
    r
}

/// Computes base^exp without overflow.
pub fn pow_usize(base: usize, exp: u32) -> (r: usize)
    requires
        1 <= base,
        pow(base as int, exp as nat) <= usize::MAX,
    ensures
        r as int == pow(base as int, exp as nat),
{
    let mut r: usize = 1;
    let mut i: u32 = 0;
    proof {
        lemma_pow0(base as int);
    }
    while i < exp
        invariant
            i <= exp,
            1 <= base,
            r as int == pow(base as int, i as nat),
            pow(base as int, exp as nat) <= usize::MAX,
        decreases exp - i,
    {
        proof {
            assert(pow(base as int, (i + 1) as nat) == pow(base as int, i as nat) * base) by {
                lemma_pow1(base as int);
                lemma_pow_adds(base as int, i as nat, 1);
            }
            lemma_pow_increases(base as nat, (i + 1) as nat, exp as nat);
            lemma_pow_positive(base as int, i as nat);
        }
        r = r * base;
        i = i + 1;
    }
    r
}

/// Encodes `coords` as a flat index; the grid's own methods pass their
/// frozen `size` and `dim` here.
pub fn tagged_coords_to_index(size: usize, dim: u32, coords: &Vec<u32>) -> (index: usize)
    requires
        1 <= size,
        coords@.len() == dim,
        coords_in_range(size as int, coords@),
        pow(size as int, dim as nat) <= usize::MAX,
    ensures
        index as int == index_of(size as int, coords@),
{
    let dim_us: usize = dim as usize;
    let mut index: usize = 0;
    let mut scale: usize = 1;
    let mut d: usize = 0;
    proof {
        lemma_pow0(size as int);
    }
    while d < dim_us
        invariant
            d <= dim_us,
            dim_us == dim,
            coords@.len() == dim,
            1 <= size,
            coords_in_range(size as int, coords@),
            pow(size as int, dim as nat) <= usize::MAX,
            scale as int == pow(size as int, d as nat),
            index as int == index_of(size as int, coords@.take(d as int)),
        decreases dim_us - d,
    {
        proof {
            assert(coords@.take(d as int + 1) =~= coords@.take(d as int).push(coords@[d as int]));
            lemma_index_of_push(size as int, coords@.take(d as int), coords@[d as int]);
            assert(coords_in_range(size as int, coords@.take(d as int + 1)));
            lemma_index_of_bounds(size as int, coords@.take(d as int + 1));
            lemma_pow_increases(size as nat, (d + 1) as nat, dim as nat);
            assert(pow(size as int, (d + 1) as nat) == size * pow(size as int, d as nat)) by {
                lemma_pow1(size as int);
                lemma_pow_adds(size as int, 1, d as nat);
            }
            lemma_index_of_bounds(size as int, coords@.take(d as int));
        }
        index = index + scale * (coords[d] as usize);
        scale = scale * size;
        d = d + 1;
    }
    proof {
        assert(coords@.take(dim as int) =~= coords@);
    }
    index
}

/// Decodes a flat index into its `dim` coordinates; the grid's own
/// methods pass their frozen `size` and `dim` here.
pub fn tagged_index_to_coords(size: usize, dim: u32, index: usize) -> (coords: Vec<u32>)
    requires
        1 <= size,
        size <= u32::MAX as usize + 1,
        (index as int) < pow(size as int, dim as nat),
    ensures
        coords@ == coords_of(size as int, dim as nat, index as int),
        coords@.len() == dim,
        coords_in_range(size as int, coords@),
{
    let dim_us: usize = dim as usize;
    let mut coords: Vec<u32> = Vec::new();
    let mut rem: usize = index;
    let mut d: usize = 0;
    proof {
        lemma_pow0(size as int);
    }
    while d < dim_us
        invariant
            d <= dim_us,
            dim_us == dim,
            1 <= size,
            size <= u32::MAX as usize + 1,
            rem as int == index as int / pow(size as int, d as nat),
            coords@.len() == d,
            forall|j: int| 0 <= j < d ==> coords@[j] == coords_of(
                size as int,
                dim as nat,
                index as int,
            )[j],
        decreases dim_us - d,
    {
        let c: usize = rem % size;
        proof {
            lemma_pow_positive(size as int, d as nat);
            lemma_div_denominator(index as int, pow(size as int, d as nat), size as int);
            assert(pow(size as int, (d + 1) as nat) == pow(size as int, d as nat) * size) by {
                lemma_pow1(size as int);
                lemma_pow_adds(size as int, d as nat, 1);
            }
        }
        coords.push(c as u32);
        rem = rem / size;
        d = d + 1;
    }
    proof {
        lemma_coords_of_in_range(size as int, dim as nat, index as int);
        assert(coords@ =~= coords_of(size as int, dim as nat, index as int));
    }
    coords
}

} // verus!
