//! The random source of the generators and uniform sampling from a slice.
use rand::rngs::ThreadRng;
use rand::Rng;
use vstd::prelude::*;

verus! {

#[verifier::external_type_specification]
#[verifier::external_body]
pub struct ExThreadRng(ThreadRng);

/// Relies on `rand::thread_rng`: hands out the thread-local generator.
pub assume_specification[ rand::thread_rng ]() -> ThreadRng;

/// Relies on `Rng::gen_range` of rand 0.7: a value in `[low, high)`, which
/// panics when `low >= high` (left out by `requires`).
#[verifier::external_body]
pub(crate) fn gen_below(rng: &mut ThreadRng, high: usize) -> (r: usize)
    requires
        0 < high,
    ensures
        r < high,
{
    rng.gen_range(0, high)
}

/// Relies on `Rng::gen::<bool>` of rand 0.7: a fair coin.
#[verifier::external_body]
pub(crate) fn coin(rng: &mut ThreadRng) -> bool {
    rng.gen::<bool>()
}

/// The element of `vs` at position `drawn` reduced modulo the length;
/// `None` when `vs` is empty.
pub fn pick<'a, V>(vs: &'a [V], drawn: usize) -> (r: Option<&'a V>)
    ensures
        vs@.len() == 0 ==> r is None,
        vs@.len() > 0 ==> r == Some(&vs@[drawn as int % vs@.len() as int]),
{
    if vs.len() == 0 {
        None
    } else {
        Some(&vs[drawn % vs.len()])
    }
}

/// Picks one element of `vs` uniformly at random; `None` exactly when `vs` is empty.
pub fn sample<'a, V>(rng: &mut ThreadRng, vs: &'a [V]) -> (r: Option<&'a V>)
    ensures
        r is None <==> vs@.len() == 0,
        r matches Some(v) ==> exists|i: int| 0 <= i < vs@.len() && vs@[i] == *v,
{
    if vs.len() == 0 {
        None
    } else {
        let i = gen_below(rng, vs.len());
        pick(vs, i)
    }
}

/// `n` draws below `bound`.
pub fn draws_below(rng: &mut ThreadRng, n: usize, bound: usize) -> (r: Vec<usize>)
    requires
        0 < bound,
    ensures
        r@.len() == n,
        forall|i: int| 0 <= i < n ==> #[trigger] r@[i] < bound,
{
    let mut r: Vec<usize> = Vec::new();
    let mut i: usize = 0;
    while i < n
        invariant
            0 < bound,
            i <= n,
            r@.len() == i,
            forall|j: int| 0 <= j < i ==> #[trigger] r@[j] < bound,
        decreases n - i,
    {
        r.push(gen_below(rng, bound));
        i = i + 1;
    }
    r
}

} // verus!
