use rand::Rng;
use vstd::prelude::*;

verus! {

broadcast use vstd::seq_lib::group_to_multiset_ensures;

/// Relies on rand's `thread_rng` and `Rng::gen_range(low, high)`: a value in
/// `[low, high)`, drawn from the thread's generator.
#[verifier::external_body]
fn random_below(bound: usize) -> (r: usize)
    requires
        bound > 0,
    ensures
        r < bound,
{
    rand::thread_rng().gen_range(0, bound)
}

/// `s` with the entries at `i` and `j` exchanged.
pub open spec fn swapped(s: Seq<usize>, i: int, j: int) -> Seq<usize> {
    s.update(i, s[j]).update(j, s[i])
}

/// Fisher-Yates from the back over the first `k` entries: for `i` from `k - 1` down
/// to `0`, exchange the entries at `i` and `targets[i]`.
pub open spec fn shuffled(s: Seq<usize>, targets: Seq<usize>, k: nat) -> Seq<usize>
    decreases k,
{
    if k == 0 {
        s
    } else {
        shuffled(swapped(s, k - 1, targets[k - 1] as int), targets, (k - 1) as nat)
    }
}

/// Shuffles the first `n` entries of `p` with the given draws: for `i` from `n - 1`
/// down to `0`, exchanges the entries at `i` and `targets[i]` (each at most `i`).
pub fn permute_with(p: &mut Vec<usize>, n: usize, targets: &Vec<usize>)
    requires
        n <= old(p)@.len(),
        targets@.len() == n,
        forall|i: int| 0 <= i < n ==> #[trigger] targets@[i] <= i,
    ensures
        final(p)@ == shuffled(old(p)@, targets@, n as nat),
        final(p)@.len() == old(p)@.len(),
        final(p)@.to_multiset() == old(p)@.to_multiset(),
{
    let ghost orig = p@;
    let mut i = n;
    while i > 0
        invariant
            i <= n <= p@.len(),
            targets@.len() == n,
            forall|j: int| 0 <= j < n ==> #[trigger] targets@[j] <= j,
            p@.len() == orig.len(),
            p@.to_multiset() == orig.to_multiset(),
            shuffled(p@, targets@, i as nat) == shuffled(orig, targets@, n as nat),
        decreases i,
    {
        i -= 1;
        let target = targets[i];
        assert(targets@[i as int] <= i);
        let a = p[i];
        let b = p[target];
        let ghost s0 = p@;
        p.set(i, b);
        let ghost s1 = p@;
        p.set(target, a);
        proof {
            assert(p@ == swapped(s0, i as int, target as int));
            assert(s1.to_multiset() == s0.to_multiset().insert(b).remove(a));
            assert(p@.to_multiset() == s1.to_multiset().insert(a).remove(s1[target as int]));
            assert(s1[target as int] == b);
            assert(p@.to_multiset() =~= s0.to_multiset());
        }
    }
}

/// Shuffles the first `n` entries of `p` (Fisher-Yates, from the back), each draw
/// uniform from the thread's generator; the entries are only moved, never changed.
pub fn permute(p: &mut Vec<usize>, n: usize)
    requires
        n <= old(p)@.len(),
    ensures
        final(p)@.len() == old(p)@.len(),
        final(p)@.to_multiset() == old(p)@.to_multiset(),
        forall|j: int| n <= j < old(p)@.len() ==> #[trigger] final(p)@[j] == old(p)@[j],
{
    let mut targets: Vec<usize> = Vec::new();
    let mut i: usize = 0;
    while i < n
        invariant
            i <= n,
            targets@.len() == i,
            forall|j: int| 0 <= j < i ==> #[trigger] targets@[j] <= j,
        decreases n - i,
    {
        targets.push(random_below(i + 1));
        i += 1;
    }
    let ghost orig = p@;
    permute_with(p, n, &targets);
    proof {
        lemma_shuffled_keeps_tail(orig, targets@, n as nat);
    }
}

/// Swaps below `k` leave the entries from `k` on as they were.
proof fn lemma_shuffled_keeps_tail(s: Seq<usize>, targets: Seq<usize>, k: nat)
    requires
        k <= s.len(),
        targets.len() >= k,
        forall|i: int| 0 <= i < k ==> #[trigger] targets[i] <= i,
    ensures
        shuffled(s, targets, k).len() == s.len(),
        forall|j: int| k <= j < s.len() ==> #[trigger] shuffled(s, targets, k)[j] == s[j],
    decreases k,
{
    if k > 0 {
        let s2 = swapped(s, k - 1, targets[k - 1] as int);
        assert(targets[k - 1] <= k - 1);
        lemma_shuffled_keeps_tail(s2, targets, (k - 1) as nat);
        assert forall|j: int| k <= j < s.len() implies #[trigger] shuffled(s, targets, k)[j] == s[j] by {
            assert(s2[j] == s[j]);
        }
    }
}

/// The numbers `0..n` in order.
pub open spec fn identity(n: nat) -> Seq<usize> {
    Seq::new(n, |i: int| i as usize)
}

/// A random permutation of `0..256`.
pub fn perlin_generate_perm() -> (p: Vec<usize>)
    ensures
        p@.len() == 256,
        p@.to_multiset() == identity(256).to_multiset(),
{
    let mut p: Vec<usize> = Vec::with_capacity(256);
    let mut i: usize = 0;
    while i < 256
        invariant
            i <= 256,
            p@ == identity(i as nat),
        decreases 256 - i,
    {
        p.push(i);
        i += 1;
        assert(p@ =~= identity(i as nat));
    }
    permute(&mut p, 256);
    p
}

} // verus!
