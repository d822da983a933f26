//! Choosing the public exponent: random draws from `[1, n)` until one is
//! coprime to `n` and different from one.
//!
//! The draws come from `rand`'s thread-local generator. What is assumed of it
//! is stated on the first items of this module and is not proved. The rule
//! of the search, by which a draw is accepted, another one is made or the
//! search is given up, is `search_step`; `select_exponent` runs the same
//! rule over draws that are handed to it, and `draw_bounds` says from which
//! range a draw is asked.

use vstd::prelude::*;
use rand::rngs::ThreadRng;
use rand::Rng;
use crate::divisibility::{lemma_divides_combination, lemma_divisor_bounds};
use crate::euclid::{gcd, gcd_nat, lemma_gcd_divides};
use crate::keys::RsaError;

verus! {

/// `rand::rngs::ThreadRng`, a handle to the thread-local generator; opaque.
#[verifier::external_type_specification]
#[verifier::external_body]
pub struct ExThreadRng(rand::rngs::ThreadRng);

/// `rand::thread_rng`: a handle to the lazily seeded thread-local generator.
/// Nothing is claimed of its state. No argument decides whether the outside
/// call panics: it does where the operating system has no entropy to seed
/// the generator with.
pub assume_specification[ rand::thread_rng ]() -> (rng: ThreadRng)
;

/// `Rng::gen_range(low..high)`: some value of the half-open range
/// `[low, high)`. Which value is drawn is not specified.
///
/// The outside call panics on an empty range, which is excluded here. It
/// also panics where the operating system fails the generator, which no
/// precondition can exclude: when one of the reseeds from the system's
/// entropy, made after every 64 KiB of output, fails, and when the handler
/// that watches for a fork of the process cannot be registered.
#[verifier::external_body]
fn draw_in_range(rng: &mut ThreadRng, low: u32, high: u32) -> (value: u32)
    requires
        low < high,
    ensures
        low <= value < high,
{
    rng.gen_range(low..high)
}

/// How many draws `random_coprime` makes before it gives up.
pub const DRAW_LIMIT: u32 = 1_000_000;

/// `e` can serve as an exponent for the totient `n`: it lies strictly
/// between one and `n` and is coprime to `n`.
pub open spec fn is_usable_exponent(e: nat, n: nat) -> bool {
    1 < e < n && gcd_nat(e, n) == 1
}

/// A usable exponent exists exactly for `n` of three or more; `n - 1` is one.
pub proof fn lemma_usable_exponent_exists(n: nat)
    ensures
        (exists|e: nat| #[trigger] is_usable_exponent(e, n)) <==> n >= 3,
        n >= 3 ==> is_usable_exponent((n - 1) as nat, n),
{
    if n >= 3 {
        let e = (n - 1) as nat;
        let g = gcd_nat(e, n);
        lemma_gcd_divides(e, n);
        lemma_divides_combination(g, e, n, -1, 1, 1);
        lemma_divisor_bounds(g, 1);
        assert(is_usable_exponent(e, n));
    }
}

/// Tests one candidate: it is kept exactly when it is usable.
pub fn usable_exponent(candidate: u32, n: u32) -> (r: Option<u32>)
    ensures
        r == if is_usable_exponent(candidate as nat, n as nat) {
            Some(candidate)
        } else {
            None
        },
{
    if 1 < candidate && candidate < n && gcd(candidate, n) == 1 {
        Some(candidate)
    } else {
        None
    }
}

/// The range that every draw is asked from: the half-open range `[1, n)`,
/// given as its two bounds. For `n` of two or less there is none, because no
/// value of that range could be accepted; the search then fails before any
/// draw.
pub fn draw_bounds(n: u32) -> (r: Option<(u32, u32)>)
    ensures
        r == if n <= 2 {
            None::<(u32, u32)>
        } else {
            Some((1u32, n))
        },
{
    if n <= 2 {
        None
    } else {
        Some((1, n))
    }
}

/// What the search does after a draw.
#[derive(Clone, Copy, Debug, PartialEq, Eq, Structural)]
pub enum SearchStep {
    /// The draw is usable: the search ends with it.
    Accept(u32),
    /// The draw is not usable and draws are left: another one is made.
    Retry,
    /// The draw is not usable and it was the last one allowed.
    GiveUp,
}

/// The rule of the search. After `draws_made` draws, the last of which gave
/// `candidate`: a usable candidate is accepted; otherwise the search goes
/// on while fewer than `DRAW_LIMIT` draws have been made, and is given up
/// at the limit.
pub open spec fn search_step(draws_made: nat, candidate: u32, n: nat) -> SearchStep {
    if is_usable_exponent(candidate as nat, n) {
        SearchStep::Accept(candidate)
    } else if draws_made >= DRAW_LIMIT {
        SearchStep::GiveUp
    } else {
        SearchStep::Retry
    }
}

/// Decides what follows a draw, by the rule of the search.
pub fn judge_draw(draws_made: u32, candidate: u32, n: u32) -> (step: SearchStep)
    ensures
        step == search_step(draws_made as nat, candidate, n as nat),
{
    match usable_exponent(candidate, n) {
        Some(e) => SearchStep::Accept(e),
        None => if draws_made >= DRAW_LIMIT {
            SearchStep::GiveUp
        } else {
            SearchStep::Retry
        },
    }
}

/// `k` is the place of the first usable exponent among `draws`.
pub open spec fn is_first_usable(draws: Seq<u32>, n: nat, k: int) -> bool {
    &&& 0 <= k < draws.len()
    &&& is_usable_exponent(draws[k] as nat, n)
    &&& forall|j: int| 0 <= j < k ==> !is_usable_exponent(#[trigger] draws[j] as nat, n)
}

/// The search over draws that are given: the first usable one among the
/// first `DRAW_LIMIT` of `draws` is the exponent. Where there is none, the
/// search has no candidate left and is reported as failed.
pub fn select_exponent(draws: &Vec<u32>, n: u32) -> (r: Result<u32, RsaError>)
    ensures
        match r {
            Ok(e) => exists|k: int|
                is_first_usable(draws@, n as nat, k) && k < DRAW_LIMIT && e == draws@[k],
            Err(err) => err == RsaError::NonTerminatingSearch && forall|k: int|
                0 <= k < draws@.len() && k < DRAW_LIMIT ==> !is_usable_exponent(
                    #[trigger] draws@[k] as nat,
                    n as nat,
                ),
        },
{
    let mut made: usize = 0;
    while made < draws.len()
        invariant
            made <= draws@.len(),
            made < DRAW_LIMIT,
            forall|j: int|
                0 <= j < made ==> !is_usable_exponent(#[trigger] draws@[j] as nat, n as nat),
        decreases draws@.len() - made,
    {
        let candidate = draws[made];
        made += 1;
        match judge_draw(made as u32, candidate, n) {
            SearchStep::Accept(e) => {
                assert(is_first_usable(draws@, n as nat, made - 1));
                return Ok(e);
            },
            SearchStep::GiveUp => {
                return Err(RsaError::NonTerminatingSearch);
            },
            SearchStep::Retry => {},
        }
    }
    Err(RsaError::NonTerminatingSearch)
}

/// Draws candidates from `[1, n)` until one is coprime to `n` and not one.
///
/// The range of the draws is what `draw_bounds` gives. For `n` of two or
/// less it gives none: no candidate can ever be accepted, and the failure is
/// reported without a draw. Otherwise every draw is asked from `[1, n)` and
/// judged by `judge_draw`: the first usable one is returned, and after
/// `DRAW_LIMIT` draws without one the search is reported as failed rather
/// than continued for ever.
///
/// Which values the generator hands out is beyond any contract, so this one
/// states what holds of every outcome. What the search does with given
/// draws is stated exactly, by `search_step` and by `select_exponent`.
pub fn random_coprime(n: u32) -> (r: Result<u32, RsaError>)
    ensures
        match r {
            Ok(e) => is_usable_exponent(e as nat, n as nat),
            Err(err) => err == RsaError::NonTerminatingSearch,
        },
        n <= 2 ==> r is Err,
{
    let (low, high) = match draw_bounds(n) {
        Some(bounds) => bounds,
        None => {
            return Err(RsaError::NonTerminatingSearch);
        },
    };
    let mut rng = rand::thread_rng();
    let mut draws: u32 = 0;
    loop
        invariant
            low < high,
            draws < DRAW_LIMIT,
        decreases DRAW_LIMIT - draws,
    {
        let candidate = draw_in_range(&mut rng, low, high);
        draws += 1;
        match judge_draw(draws, candidate, n) {
            SearchStep::Accept(e) => {
                return Ok(e);
            },
            SearchStep::GiveUp => {
                return Err(RsaError::NonTerminatingSearch);
            },
            SearchStep::Retry => {},
        }
    }
}

} // verus!
