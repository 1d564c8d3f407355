//! Picking the next token: a repeatable xorshift64 random number generator
//! and the ranking of the k best-scored tokens.

use vstd::prelude::*;

verus! {

/// The state a generator starts from when it is seeded with 0
/// (xorshift never leaves 0, so that seed is replaced).
pub const ZERO_SEED_STATE: u64 = 0x9E3779B97F4A7C15;

/// The state a generator created from `seed` starts in.
pub open spec fn seeded_state(seed: u64) -> u64 {
    if seed == 0 { ZERO_SEED_STATE } else { seed }
}

/// One xorshift64 step (shifts 13, 7, 17).
pub open spec fn xorshift(x: u64) -> u64 {
    let a = x ^ (x << 13u64);
    let b = a ^ (a >> 7u64);
    b ^ (b << 17u64)
}

/// A tiny random number generator (xorshift64): the same seed always gives
/// the same sequence of numbers.
pub struct Rng {
    state: u64,
}

impl View for Rng {
    type V = u64;

    closed spec fn view(&self) -> u64 {
        self.state
    }
}

impl Rng {
    /// The generator can always make progress: its state is never 0.
    #[verifier::type_invariant]
    closed spec fn state_is_nonzero(&self) -> bool {
        self.state != 0
    }

    /// A generator seeded with `seed`; a seed of 0 is replaced by a fixed
    /// non-zero constant.
    pub fn new(seed: u64) -> (r: Rng)
        ensures
            r@ == seeded_state(seed),
            r@ != 0,
    {
        Rng { state: if seed == 0 { ZERO_SEED_STATE } else { seed } }
    }

    /// Advances the state by one xorshift64 step and returns the new state.
    pub fn next_u64(&mut self) -> (r: u64)
        ensures
            r == xorshift(old(self)@),
            final(self)@ == r,
            r != 0,
    {
        proof {
            use_type_invariant(&*self);
        }
        let mut x = self.state;
        x = x ^ (x << 13u64);
        x = x ^ (x >> 7u64);
        x = x ^ (x << 17u64);
        proof {
            lemma_xorshift_nonzero(self.state);
        }
        self.state = x;
        x
    }

    /// The top 24 bits of the next number: divided by 2^24 it is a
    /// uniformly spread number in [0, 1).
    pub fn next_u24(&mut self) -> (r: u32)
        ensures
            r == xorshift(old(self)@) >> 40u64,
            r < 0x100_0000,
            final(self)@ == xorshift(old(self)@),
    {
        let x = self.next_u64();
        let top = x >> 40u64;
        assert(top < 0x100_0000) by (bit_vector)
            requires top == x >> 40u64;
        top as u32
    }
}

/// xorshift64 maps every non-zero state to a non-zero state: each of its
/// three steps is invertible.
pub proof fn lemma_xorshift_nonzero(x: u64)
    requires
        x != 0,
    ensures
        xorshift(x) != 0,
{
    let a = x ^ (x << 13u64);
    let b = a ^ (a >> 7u64);
    let c = b ^ (b << 17u64);
    assert(a != 0) by (bit_vector)
        requires x != 0, a == x ^ (x << 13u64);
    assert(b != 0) by (bit_vector)
        requires a != 0, b == a ^ (a >> 7u64);
    assert(c != 0) by (bit_vector)
        requires b != 0, c == b ^ (b << 17u64);
}


/// The state of a generator seeded with `seed` after `n` numbers.
pub open spec fn nth_state(seed: u64, n: nat) -> u64
    decreases n,
{
    if n == 0 {
        seeded_state(seed)
    } else {
        xorshift(nth_state(seed, (n - 1) as nat))
    }
}

/// A seeded generator never reaches the state 0, where xorshift would stay
/// forever.
pub proof fn lemma_never_stuck(seed: u64, n: nat)
    ensures
        nth_state(seed, n) != 0,
    decreases n,
{
    if n > 0 {
        lemma_never_stuck(seed, (n - 1) as nat);
        lemma_xorshift_nonzero(nth_state(seed, (n - 1) as nat));
    }
}

/// `a` is ranked ahead of `b`: a higher score, or an equal score and a
/// smaller index (the order of a stable sort by descending score).
pub open spec fn ranks_before(keys: Seq<u32>, a: int, b: int) -> bool {
    keys[a] > keys[b] || (keys[a] == keys[b] && a < b)
}

/// `order` holds the `k` best-ranked indices of `keys`, best first.
pub open spec fn is_top_k(keys: Seq<u32>, k: int, order: Seq<usize>) -> bool {
    &&& order.len() == k
    &&& forall|i: int| 0 <= i < k ==> #[trigger] order[i] < keys.len()
    &&& forall|i: int, j: int|
        0 <= i < j < k ==> ranks_before(keys, #[trigger] order[i] as int, #[trigger] order[j] as int)
    &&& forall|x: int, i: int|
        #![trigger order.contains(x as usize), order[i]]
        0 <= x < keys.len() && !order.contains(x as usize) && 0 <= i < k ==> ranks_before(
            keys,
            order[i] as int,
            x,
        )
}

/// The top `k` come as a stable sort by descending key would give them:
/// keys never rise along the list, equal keys keep their index order, and
/// every index left out has a lower key than each one chosen, or an equal
/// key and a larger index.
pub proof fn lemma_top_k_is_stable_descending(keys: Seq<u32>, k: int, order: Seq<usize>)
    requires
        is_top_k(keys, k, order),
    ensures
        forall|i: int, j: int|
            0 <= i < j < k ==> keys[#[trigger] order[i] as int] >= keys[#[trigger] order[j] as int] && (
            keys[order[i] as int] == keys[order[j] as int] ==> order[i] < order[j]),
        forall|x: int, i: int|
            0 <= x < keys.len() && !order.contains(x as usize) && 0 <= i < k ==> #[trigger] keys[x] <= keys[#[trigger] order[i] as int]
                && (keys[x] == keys[order[i] as int] ==> x > order[i]),
{
    assert forall|i: int, j: int| 0 <= i < j < k implies keys[#[trigger] order[i] as int] >= keys[#[trigger] order[j] as int] && (
        keys[order[i] as int] == keys[order[j] as int] ==> order[i] < order[j]) by {
        assert(ranks_before(keys, order[i] as int, order[j] as int));
    }
    assert forall|x: int, i: int|
        0 <= x < keys.len() && !order.contains(x as usize) && 0 <= i < k implies #[trigger] keys[x] <= keys[#[trigger] order[i] as int]
            && (keys[x] == keys[order[i] as int] ==> x > order[i]) by {
        assert(ranks_before(keys, order[i] as int, x));
    }
}

/// With `k = 1` the pick is greedy: the first index with the highest key.
pub proof fn lemma_top_one_is_greedy(keys: Seq<u32>, order: Seq<usize>)
    requires
        is_top_k(keys, 1, order),
        keys.len() <= usize::MAX,
    ensures
        forall|y: int| 0 <= y < keys.len() ==> #[trigger] keys[y] <= keys[order[0] as int],
        forall|y: int| 0 <= y < order[0] ==> #[trigger] keys[y] < keys[order[0] as int],
{
    assert forall|y: int| 0 <= y < keys.len() && y != order[0] implies ranks_before(
        keys,
        order[0] as int,
        y,
    ) by {
        if order.contains(y as usize) {
            let i = choose|i: int| 0 <= i < order.len() && order[i] == y as usize;
            assert(i == 0);
        } else {
            assert(!order.contains(y as usize) && 0 <= 0 < 1);
            assert(ranks_before(keys, order[0] as int, y));
        }
    }
    assert forall|y: int| 0 <= y < keys.len() implies #[trigger] keys[y] <= keys[order[0] as int] by {
        if y != order[0] {
            assert(ranks_before(keys, order[0] as int, y));
        }
    }
    assert forall|y: int| 0 <= y < order[0] implies #[trigger] keys[y] < keys[order[0] as int] by {
        assert(ranks_before(keys, order[0] as int, y));
    }
}

/// A duplicate-free sequence that holds every index below `n` has at least
/// `n` elements.
proof fn lemma_covering_len(s: Seq<usize>, n: usize)
    requires
        s.no_duplicates(),
        forall|x: usize| x < n ==> s.contains(x),
    ensures
        s.len() >= n,
    decreases n,
{
    if n > 0 {
        let top: usize = (n - 1) as usize;
        assert(s.contains(top));
        let j = choose|j: int| 0 <= j < s.len() && s[j] == top;
        let t = s.remove(j);
        assert forall|x: usize| x < n - 1 implies t.contains(x) by {
            assert(s.contains(x));
            let i = choose|i: int| 0 <= i < s.len() && s[i] == x;
            if i < j {
                assert(t[i] == x);
            } else {
                assert(i != j);
                assert(t[i - 1] == x);
            }
        }
        assert(t.no_duplicates()) by {
            assert forall|a: int, b: int| 0 <= a < t.len() && 0 <= b < t.len() && a != b implies t[a]
                != t[b] by {
                let sa = if a < j { a } else { a + 1 };
                let sb = if b < j { b } else { b + 1 };
                assert(t[a] == s[sa]);
                assert(t[b] == s[sb]);
            }
        }
        lemma_covering_len(t, top);
    }
}

/// The indices of the `k` highest keys, best first; equal keys keep their
/// index order, as a stable sort by descending key would.
///
/// A key stands for a score: callers map each score to a `u32` that orders
/// as the scores do.
pub fn top_k(keys: &[u32], k: usize) -> (order: Vec<usize>)
    requires
        1 <= k <= keys@.len(),
    ensures
        is_top_k(keys@, k as int, order@),
{
    let n = keys.len();
    let mut taken: Vec<bool> = Vec::new();
    while taken.len() < n
        invariant
            taken.len() <= n,
            forall|x: int| 0 <= x < taken.len() ==> !taken[x],
        decreases n - taken.len(),
    {
        taken.push(false);
    }
    let mut order: Vec<usize> = Vec::new();
    while order.len() < k
        invariant
            n == keys@.len(),
            k <= n,
            taken.len() == n,
            order.len() <= k,
            order@.no_duplicates(),
            forall|i: int| 0 <= i < order.len() ==> #[trigger] order[i] < n,
            forall|x: int| 0 <= x < n ==> (#[trigger] taken[x] <==> order@.contains(x as usize)),
            forall|i: int, j: int|
                0 <= i < j < order.len() ==> ranks_before(
                    keys@,
                    #[trigger] order[i] as int,
                    #[trigger] order[j] as int,
                ),
            forall|x: int, i: int|
                #![trigger taken[x], order[i]]
                0 <= x < n && !taken[x] && 0 <= i < order.len() ==> ranks_before(
                    keys@,
                    order[i] as int,
                    x,
                ),
        decreases k - order.len(),
    {
        let mut best: usize = n;
        let mut x: usize = 0;
        while x < n
            invariant
                n == keys@.len(),
                taken.len() == n,
                x <= n,
                best == n || (best < x && !taken[best as int]),
                best == n ==> forall|y: int| 0 <= y < x ==> #[trigger] taken[y],
                best < n ==> forall|y: int|
                    0 <= y < x && !#[trigger] taken[y] && y != best ==> ranks_before(
                        keys@,
                        best as int,
                        y,
                    ),
            decreases n - x,
        {
            if !taken[x] && (best == n || keys[x] > keys[best]) {
                best = x;
            }
            x = x + 1;
        }
        if best == n {
            proof {
                assert forall|y: usize| y < n implies order@.contains(y) by {
                    assert(taken[y as int]);
                }
                lemma_covering_len(order@, n);
            }
            assert(false);
        }
        let ghost old_order = order@;
        let ghost old_taken = taken@;
        proof {
            assert(!taken[best as int]);
            assert(!order@.contains(best));
        }
        order.push(best);
        taken.set(best, true);
        proof {
            assert(order@ == old_order.push(best));
            assert forall|y: int| 0 <= y < n implies (#[trigger] taken[y] <==> order@.contains(
                y as usize,
            )) by {
                if y == best {
                    assert(order@[order.len() - 1] == best);
                } else {
                    assert(taken[y] == old_taken[y]);
                    assert(old_taken[y] <==> old_order.contains(y as usize));
                    if order@.contains(y as usize) {
                        let i = choose|i: int| 0 <= i < order.len() && order@[i] == y as usize;
                        assert(i != order.len() - 1);
                        assert(old_order[i] == y as usize);
                    }
                    if old_order.contains(y as usize) {
                        let i = choose|i: int| 0 <= i < old_order.len() && old_order[i] == y as usize;
                        assert(order@[i] == y as usize);
                    }
                }
            }
        }
    }
    proof {
        assert forall|x: int, i: int|
            #![trigger order@.contains(x as usize), order@[i]]
            0 <= x < keys@.len() && !order@.contains(x as usize) && 0 <= i < k implies ranks_before(
                keys@,
                order@[i] as int,
                x,
            ) by {
            assert(!taken[x]);
        }
    }
    order
}

} // verus!
