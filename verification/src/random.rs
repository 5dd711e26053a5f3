use vstd::prelude::*;
use rand::distributions::{Distribution, Standard};
use rand::rngs::StdRng;
use rand::{Rng, SeedableRng};
use crate::matrix::Matrix;

verus! {

/// rand's standard generator, carried through as an opaque value.
#[verifier::external_type_specification]
#[verifier::external_body]
pub struct ExStdRng(StdRng);

/// `StdRng::seed_from_u64`: a generator whose whole output is fixed by
/// `seed`. Nothing is claimed of the generator beyond its existence.
#[verifier::external_body]
fn seeded_generator(seed: u64) -> StdRng {
    StdRng::seed_from_u64(seed)
}

/// `Rng::gen`: the generator's next value of type `T`, drawn from rand's
/// standard distribution for `T`. Nothing is claimed of the value.
#[verifier::external_body]
fn next_value<T>(rng: &mut StdRng) -> T where Standard: Distribution<T> {
    rng.gen::<T>()
}

impl<T> Matrix<T> {
    /// A `rows` by `cols` matrix filled row by row with consecutive draws
    /// from a generator seeded with `seed`.
    pub fn random(rows: usize, cols: usize, seed: u64) -> (m: Self) where Standard: Distribution<T>
        requires
            rows * cols <= usize::MAX,
        ensures
            m.wf(),
            m.rows == rows,
            m.cols == cols,
    {
        let total: usize = rows * cols;
        let mut rng = seeded_generator(seed);
        let mut data: Vec<T> = Vec::with_capacity(total);
        let mut p: usize = 0;
        while p < total
            invariant
                p <= total,
                data@.len() == p,
            decreases total - p,
        {
            data.push(next_value(&mut rng));
            p += 1;
        }
        Matrix { rows, cols, data }
    }
}

} // verus!
