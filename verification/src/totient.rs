//! Euler's totient by exhaustive scan: the residues below `n` that are
//! coprime to `n`, listed in ascending order and counted.

use vstd::prelude::*;
use crate::euclid::{gcd, gcd_nat};

verus! {

/// `k` lies in `[1, n)` and is coprime to `n`.
pub open spec fn is_coprime_residue(k: nat, n: nat) -> bool {
    1 <= k < n && gcd_nat(k, n) == 1
}

/// The coprime residues of `n` that lie below `bound`.
pub open spec fn coprime_residues_below(n: nat, bound: nat) -> Set<nat> {
    Set::new(|k: nat| k < bound && is_coprime_residue(k, n))
}

/// The set of residues in `[1, n)` coprime to `n`.
pub open spec fn coprime_residues(n: nat) -> Set<nat> {
    Set::new(|k: nat| is_coprime_residue(k, n))
}

/// Euler's totient: how many residues in `[1, n)` are coprime to `n`.
pub open spec fn totient(n: nat) -> nat {
    coprime_residues(n).len()
}

/// Each element of `list` is smaller than the next.
pub open spec fn is_ascending(list: Seq<u32>) -> bool {
    forall|i: int, j: int| 0 <= i < j < list.len() ==> list[i] < list[j]
}

/// `list` holds exactly the coprime residues of `n`, each once, in
/// ascending order.
pub open spec fn is_coprime_listing(n: nat, list: Seq<u32>) -> bool {
    &&& is_ascending(list)
    &&& forall|i: int| 0 <= i < list.len() ==> is_coprime_residue(#[trigger] list[i] as nat, n)
    &&& forall|k: nat| #[trigger]
        is_coprime_residue(k, n) ==> exists|i: int| 0 <= i < list.len() && list[i] == k
}

/// Extending the bound by one adds the old bound to the set exactly when it
/// is a coprime residue.
pub proof fn lemma_coprime_residues_step(n: nat, bound: nat)
    ensures
        coprime_residues_below(n, bound + 1) == if is_coprime_residue(bound, n) {
            coprime_residues_below(n, bound).insert(bound)
        } else {
            coprime_residues_below(n, bound)
        },
{
    if is_coprime_residue(bound, n) {
        assert(coprime_residues_below(n, bound + 1) =~= coprime_residues_below(n, bound).insert(
            bound,
        ));
    } else {
        assert(coprime_residues_below(n, bound + 1) =~= coprime_residues_below(n, bound));
    }
}

/// The coprime residues below any bound are finitely many, fewer than the
/// bound allows, and from `n` on the bound no longer matters.
pub proof fn lemma_coprime_residues_finite(n: nat, bound: nat)
    ensures
        coprime_residues_below(n, bound).finite(),
        coprime_residues_below(n, bound).len() <= bound,
        bound >= n ==> coprime_residues_below(n, bound) == coprime_residues(n),
    decreases bound,
{
    if bound == 0 {
        assert(coprime_residues_below(n, 0) =~= Set::<nat>::empty());
    } else {
        lemma_coprime_residues_finite(n, (bound - 1) as nat);
        lemma_coprime_residues_step(n, (bound - 1) as nat);
    }
    if bound >= n {
        assert(coprime_residues_below(n, bound) =~= coprime_residues(n));
    }
}

/// Two ascending sequences with the same elements are equal.
pub proof fn lemma_ascending_unique(x: Seq<u32>, y: Seq<u32>)
    requires
        is_ascending(x),
        is_ascending(y),
        forall|i: int| 0 <= i < x.len() ==> y.contains(#[trigger] x[i]),
        forall|i: int| 0 <= i < y.len() ==> x.contains(#[trigger] y[i]),
    ensures
        x == y,
    decreases x.len(),
{
    if x.len() == 0 {
        if y.len() > 0 {
            assert(x.contains(y[0]));
        }
        assert(x =~= y);
    } else {
        let a = x.last();
        assert(y.contains(a));
        let b = y.last();
        assert(x.contains(b));
        assert(a == b);
        let front_x = x.drop_last();
        let front_y = y.drop_last();
        assert forall|i: int| 0 <= i < front_x.len() implies front_y.contains(
            #[trigger] front_x[i],
        ) by {
            assert(y.contains(x[i]));
            let j = choose|j: int| 0 <= j < y.len() && y[j] == x[i];
            assert(front_y[j] == x[i]);
        }
        assert forall|i: int| 0 <= i < front_y.len() implies front_x.contains(
            #[trigger] front_y[i],
        ) by {
            assert(x.contains(y[i]));
            let j = choose|j: int| 0 <= j < x.len() && x[j] == y[i];
            assert(front_x[j] == y[i]);
        }
        lemma_ascending_unique(front_x, front_y);
        assert(x =~= front_x.push(a));
        assert(y =~= front_y.push(b));
    }
}

/// The coprime listing of `n` is unique: whatever lists the coprime residues
/// of the same `n` in ascending order lists the same values in the same
/// places, so repeated counts of one `n` agree.
pub proof fn lemma_coprime_listing_unique(n: nat, first: Seq<u32>, second: Seq<u32>)
    requires
        is_coprime_listing(n, first),
        is_coprime_listing(n, second),
    ensures
        first == second,
{
    assert forall|i: int| 0 <= i < first.len() implies second.contains(#[trigger] first[i]) by {
        assert(is_coprime_residue(first[i] as nat, n));
        let j = choose|j: int| 0 <= j < second.len() && second[j] == first[i] as nat;
        assert(second[j] == first[i]);
    }
    assert forall|i: int| 0 <= i < second.len() implies first.contains(#[trigger] second[i]) by {
        assert(is_coprime_residue(second[i] as nat, n));
        let j = choose|j: int| 0 <= j < first.len() && first[j] == second[i] as nat;
        assert(first[j] == second[i]);
    }
    lemma_ascending_unique(first, second);
}

/// Counts and lists the residues in `[1, n)` that are coprime to `n`, by
/// testing every candidate in turn.
pub fn phi(n: u32) -> (r: (u32, Vec<u32>))
    ensures
        r.0 == r.1@.len(),
        r.0 == totient(n as nat),
        is_coprime_listing(n as nat, r.1@),
{
    let mut num_coprimes: u32 = 0;
    let mut coprimes: Vec<u32> = Vec::new();
    let mut i: u32 = 1;
    proof {
        lemma_coprime_residues_finite(n as nat, 1);
        lemma_coprime_residues_step(n as nat, 0);
        lemma_coprime_residues_finite(n as nat, 0);
    }
    while i < n
        invariant
            1 <= i,
            i <= n || n == 0,
            num_coprimes == coprimes@.len(),
            num_coprimes < i,
            num_coprimes == coprime_residues_below(n as nat, i as nat).len(),
            coprime_residues_below(n as nat, i as nat).finite(),
            is_ascending(coprimes@),
            forall|a: int|
                0 <= a < coprimes@.len() ==> coprimes@[a] < i && is_coprime_residue(
                    #[trigger] coprimes@[a] as nat,
                    n as nat,
                ),
            forall|k: nat| #[trigger]
                is_coprime_residue(k, n as nat) && k < i ==> exists|a: int|
                    0 <= a < coprimes@.len() && coprimes@[a] == k,
        decreases n - i,
    {
        proof {
            lemma_coprime_residues_step(n as nat, i as nat);
        }
        if gcd(i, n) == 1 {
            let ghost before = coprimes@;
            num_coprimes += 1;
            coprimes.push(i);
            proof {
                assert forall|k: nat| #[trigger]
                    is_coprime_residue(k, n as nat) && k < i + 1 implies exists|a: int|
                    0 <= a < coprimes@.len() && coprimes@[a] == k by {
                    if k < i {
                        let a = choose|a: int| 0 <= a < before.len() && before[a] == k;
                        assert(coprimes@[a] == k);
                    } else {
                        assert(coprimes@[before.len() as int] == k);
                    }
                }
            }
        }
        i += 1;
    }
    proof {
        lemma_coprime_residues_finite(n as nat, i as nat);
    }
    (num_coprimes, coprimes)
}

} // verus!
