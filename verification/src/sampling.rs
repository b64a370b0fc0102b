//! Drawing tiles one at a time, by weight, from a pool of `n` images.
//!
//! The weighted choice itself is made by the caller; this module decides
//! which images are candidates for each draw and records the outcome.
//!
//! * Independent draws: every draw chooses among all `n` images.
//! * Draws without replacement: a drawn image leaves the pool. When repeats
//!   are allowed and the pool runs out, it is refilled with all `n` images,
//!   so each consecutive block of `n` draws shows `n` different images. When
//!   repeats are not allowed, asking for more draws than there are images is
//!   refused.
//!
//! A caller runs: `while sampler.prepare() { pick a position p in
//! sampler.candidates(); sampler.record(p); }`, then `sampler.into_picks()`.
use vstd::prelude::*;

verus! {

/// Why draws without replacement were refused.
#[derive(Debug, Clone, Copy, PartialEq, Eq, Structural)]
pub enum SampleError {
    /// More draws were asked for than there are images, and repeats are not
    /// allowed.
    PoolTooSmall,
}

/// `0, 1, ..., n - 1`.
pub open spec fn all_images(n: nat) -> Seq<usize> {
    Seq::new(n, |i: int| i as usize)
}

/// Draws `a` and `b` fall in the same block of `n` consecutive draws.
pub open spec fn same_round(a: int, b: int, n: int) -> bool {
    a / n == b / n
}

/// The state of a sequence of draws.
pub struct Sampler {
    n: usize,
    wanted: usize,
    allow_repeat: bool,
    replacing: bool,
    pool: Vec<usize>,
    picked: Vec<usize>,
    rounds: Ghost<nat>,
}

proof fn lemma_round_index(a: int, n: int, rounds: int)
    requires
        n > 0,
        rounds >= 0,
        0 <= a,
    ensures
        a < rounds * n ==> a / n < rounds,
        rounds * n <= a < rounds * n + n ==> a / n == rounds,
{
    vstd::arithmetic::div_mod::lemma_fundamental_div_mod(a, n);
    if a < rounds * n && a / n >= rounds {
        assert(n * (a / n) >= n * rounds) by (nonlinear_arith)
            requires
                a / n >= rounds,
                n > 0,
        ;
    }
    if rounds * n <= a < rounds * n + n {
        vstd::arithmetic::div_mod::lemma_fundamental_div_mod_converse(a, n, rounds, a - rounds * n);
    }
}

fn all_image_indices(n: usize) -> (r: Vec<usize>)
    ensures
        r@ == all_images(n as nat),
{
    let mut r: Vec<usize> = Vec::new();
    let mut i: usize = 0;
    while i < n
        invariant
            i <= n,
            r@ =~= all_images(i as nat),
        decreases n - i,
    {
        r.push(i);
        i += 1;
    }
    r
}

impl Sampler {
    /// Number of images in the pool.
    pub closed spec fn size(&self) -> nat {
        self.n as nat
    }

    /// Number of draws asked for.
    pub closed spec fn wanted(&self) -> nat {
        self.wanted as nat
    }

    /// Whether the pool is refilled once it runs out.
    pub closed spec fn repeats_allowed(&self) -> bool {
        self.allow_repeat
    }

    /// Whether every draw chooses among all images.
    pub closed spec fn independent(&self) -> bool {
        self.replacing
    }

    /// The images drawn so far, in order.
    pub closed spec fn picks(&self) -> Seq<usize> {
        self.picked@
    }

    /// The candidates for the next draw.
    pub closed spec fn pool(&self) -> Seq<usize> {
        self.pool@
    }

    /// The internal invariant of the draws.
    pub closed spec fn wf(&self) -> bool {
        &&& self.picked@.len() <= self.wanted
        &&& (self.n == 0 ==> self.wanted == 0)
        &&& forall|k: int| 0 <= k < self.picked@.len() ==> #[trigger] self.picked@[k] < self.n
        &&& forall|k: int| 0 <= k < self.pool@.len() ==> #[trigger] self.pool@[k] < self.n
        &&& self.replacing ==> self.pool@ == all_images(self.n as nat)
        &&& !self.replacing ==> {
            let start = self.rounds@ * self.n;
            &&& start <= self.picked@.len()
            &&& self.picked@.len() - start + self.pool@.len() == self.n
            &&& self.pool@.no_duplicates()
            &&& forall|p: int|
                start <= p < self.picked@.len() ==> !self.pool@.contains(
                    #[trigger] self.picked@[p],
                )
            &&& forall|a: int, b: int|
                0 <= a < b < self.picked@.len() && same_round(a, b, self.n as int) ==> #[trigger] self.picked@[a]
                    != #[trigger] self.picked@[b]
            &&& !self.allow_repeat ==> self.rounds@ == 0 && self.wanted <= self.n
            &&& self.wanted <= self.n ==> self.rounds@ == 0
        }
    }

    /// A draw is due: fewer than the wanted number were made and there are
    /// candidates.
    pub closed spec fn ready(&self) -> bool {
        self.picked@.len() < self.wanted && self.pool@.len() > 0
    }

    /// Draws without replacement: `wanted` draws from `n` images, refilling
    /// the pool when `allow_repeat` holds. Refused with `PoolTooSmall` exactly
    /// when more draws than images are asked for and repeats are not allowed.
    pub fn without_replacement(n: usize, wanted: usize, allow_repeat: bool) -> (res: Result<
        Sampler,
        SampleError,
    >)
        requires
            !(n == 0 && wanted > 0 && allow_repeat),
        ensures
            (wanted > n && !allow_repeat) <==> res is Err,
            res is Err ==> res == Err::<Sampler, SampleError>(SampleError::PoolTooSmall),
            res matches Ok(s) ==> {
                &&& s.wf()
                &&& s.size() == n
                &&& s.wanted() == wanted
                &&& s.repeats_allowed() == allow_repeat
                &&& !s.independent()
                &&& s.picks() == Seq::<usize>::empty()
            },
    {
        if wanted > n && !allow_repeat {
            return Err(SampleError::PoolTooSmall);
        }
        let pool = all_image_indices(n);
        let s = Sampler {
            n,
            wanted,
            allow_repeat,
            replacing: false,
            pool,
            picked: Vec::new(),
            rounds: Ghost(0),
        };
        assert(s.pool@.no_duplicates());
        Ok(s)
    }

    /// Independent draws: `wanted` draws, each among all `n` images.
    pub fn independent_draws(n: usize, wanted: usize) -> (s: Sampler)
        requires
            n > 0 || wanted == 0,
        ensures
            s.wf(),
            s.size() == n,
            s.wanted() == wanted,
            s.independent(),
            s.picks() == Seq::<usize>::empty(),
    {
        let pool = all_image_indices(n);
        Sampler {
            n,
            wanted,
            allow_repeat: true,
            replacing: true,
            pool,
            picked: Vec::new(),
            rounds: Ghost(0),
        }
    }

    /// Prepares the next draw, refilling the pool where it ran out and
    /// repeats are allowed. Returns whether a draw is due; it is due exactly
    /// while fewer than the wanted number were made.
    pub fn prepare(&mut self) -> (due: bool)
        requires
            old(self).wf(),
        ensures
            final(self).wf(),
            final(self).size() == old(self).size(),
            final(self).wanted() == old(self).wanted(),
            final(self).repeats_allowed() == old(self).repeats_allowed(),
            final(self).independent() == old(self).independent(),
            final(self).picks() == old(self).picks(),
            due == (old(self).picks().len() < old(self).wanted()),
            due ==> final(self).ready(),
            final(self).pool() == (if due && !old(self).independent() && old(self).pool().len()
                == 0 {
                all_images(old(self).size())
            } else {
                old(self).pool()
            }),
            !old(self).independent() && old(self).wanted() <= old(self).size()
                ==> final(self).pool() == old(self).pool(),
            final(self).independent() ==> final(self).pool() == all_images(final(self).size()),
            due && !final(self).independent() ==> forall|v: usize|
                v < final(self).size() ==> (final(self).pool().contains(v) <==> forall|p: int|
                    #![trigger final(self).picks()[p]]
                    0 <= p < final(self).picks().len() && same_round(
                        p,
                        final(self).picks().len() as int,
                        final(self).size() as int,
                    ) ==> final(self).picks()[p] != v),
    {
        if self.picked.len() >= self.wanted {
            return false;
        }
        if !self.replacing && self.pool.len() == 0 {
            if self.allow_repeat {
                self.pool = all_image_indices(self.n);
                proof {
                    self.rounds@ = self.rounds@ + 1;
                    let r = self.rounds@;
                    let n = self.n;
                    assert(r * n == (r - 1) * n + n) by (nonlinear_arith);
                    assert(self.pool@.no_duplicates());
                }
            } else {
                proof {
                    assert(false);
                }
                return false;
            }
        }
        proof {
            self.lemma_pool_is_unpicked();
        }
        true
    }

    /// In draws without replacement, the pool holds exactly the images not
    /// drawn in the current round.
    proof fn lemma_pool_is_unpicked(&self)
        requires
            self.wf(),
            self.pool@.len() > 0,
        ensures
            !self.independent() ==> forall|v: usize|
                v < self.size() ==> (self.pool().contains(v) <==> forall|p: int|
                    #![trigger self.picks()[p]]
                    0 <= p < self.picks().len() && same_round(
                        p,
                        self.picks().len() as int,
                        self.size() as int,
                    ) ==> self.picks()[p] != v),
    {
        if !self.replacing && self.n > 0 {
            let n = self.n as int;
            let start = self.rounds@ * n;
            let m = self.picked@.len() as int;
            let current = self.picked@.subrange(start, m);
            assert forall|p: int| 0 <= p < m implies (same_round(p, m, n) <==> start <= p) by {
                lemma_round_index(p, n, self.rounds@ as int);
                lemma_round_index(m, n, self.rounds@ as int);
            }
            // the current round and the pool together hold n distinct images below n
            assert forall|v: usize| v < self.n implies (self.pool@.contains(v) <==> !current.contains(
                v,
            )) by {
                self.lemma_round_covers(v);
            }
            assert forall|v: usize| v < self.n implies (self.pool@.contains(v) <==> forall|p: int|
                #![trigger self.picks()[p]]
                0 <= p < self.picks().len() && same_round(p, m, n) ==> self.picks()[p] != v) by {
                if self.pool@.contains(v) {
                    assert forall|p: int|
                        #![trigger self.picks()[p]]
                        0 <= p < self.picks().len() && same_round(p, m, n) implies self.picks()[p]
                            != v by {
                        if self.picks()[p] == v {
                            assert(current[p - start] == v);
                        }
                    }
                } else {
                    assert(current.contains(v));
                    let q = choose|q: int| 0 <= q < current.len() && current[q] == v;
                    assert(current[q] == self.picked@[start + q]);
                    assert(0 <= start + q < m);
                    assert(self.picks()[start + q] == v);
                    assert(same_round(start + q, m, n));
                }
            }
        }
    }

    /// Every image below `n` is in the pool or was drawn in the current round.
    proof fn lemma_round_covers(&self, v: usize)
        requires
            self.wf(),
            !self.replacing,
            v < self.n,
        ensures
            self.pool@.contains(v) <==> !self.picked@.subrange(
                self.rounds@ * self.n,
                self.picked@.len() as int,
            ).contains(v),
    {
        let n = self.n as int;
        let start = self.rounds@ * n;
        let m = self.picked@.len() as int;
        let current = self.picked@.subrange(start, m);
        assert forall|p: int, q: int| 0 <= p < q < current.len() implies current[p]
            != current[q] by {
            lemma_round_index(start + p, n, self.rounds@ as int);
            lemma_round_index(start + q, n, self.rounds@ as int);
            assert(self.picked@[start + p] != self.picked@[start + q]);
        }
        let all = self.pool@ + current;
        assert(all.len() == n);
        assert forall|p: int, q: int| 0 <= p < q < all.len() implies all[p] != all[q] by {
            if q >= self.pool@.len() && p < self.pool@.len() {
                assert(current[q - self.pool@.len()] == self.picked@[start + q
                    - self.pool@.len()]);
            }
        }
        assert(all.no_duplicates());
        // n distinct values below n: every value below n occurs
        let values = Set::new(|x: usize| x < self.n);
        assert forall|x: usize| all.contains(x) implies values.contains(x) by {
            let k = choose|k: int| 0 <= k < all.len() && all[k] == x;
            if k >= self.pool@.len() {
                assert(current[k - self.pool@.len()] == self.picked@[start + k
                    - self.pool@.len()]);
            }
        }
        all.unique_seq_to_set();
        assert(values =~= Set::new(|x: usize| 0 <= x < self.n));
        vstd::set_lib::lemma_int_range(0, self.n as int);
        lemma_usize_range_len(self.n);
        vstd::set_lib::lemma_len_subset(all.to_set(), values);
        if !all.contains(v) {
            assert(all.to_set().subset_of(values.remove(v)));
            vstd::set_lib::lemma_len_subset(all.to_set(), values.remove(v));
        }
        if self.pool@.contains(v) && current.contains(v) {
            let p = choose|p: int| 0 <= p < self.pool@.len() && self.pool@[p] == v;
            let q = choose|q: int| 0 <= q < current.len() && current[q] == v;
            assert(all[p] == all[self.pool@.len() + q]);
        }
        if !self.pool@.contains(v) && !current.contains(v) {
            assert(all.contains(v));
            let k = choose|k: int| 0 <= k < all.len() && all[k] == v;
            if k < self.pool@.len() {
                assert(self.pool@[k] == v);
            } else {
                assert(current[k - self.pool@.len()] == v);
            }
        }
    }

    /// Every draw names one of the `n` images.
    pub proof fn lemma_picks_are_images(&self)
        requires
            self.wf(),
        ensures
            forall|k: int| 0 <= k < self.picks().len() ==> #[trigger] self.picks()[k] < self.size(),
            self.picks().len() <= self.wanted(),
    {
    }

    /// Draws without replacement never repeat an image within a block of `n`
    /// consecutive draws.
    pub proof fn lemma_no_repeat_within_round(&self, a: int, b: int)
        requires
            self.wf(),
            !self.independent(),
            0 <= a < b < self.picks().len(),
            same_round(a, b, self.size() as int),
        ensures
            self.picks()[a] != self.picks()[b],
    {
    }

    /// Draws without replacement, with repeats not allowed, never repeat an
    /// image at all.
    pub proof fn lemma_no_repeat_at_all(&self, a: int, b: int)
        requires
            self.wf(),
            !self.independent(),
            !self.repeats_allowed(),
            0 <= a < b < self.picks().len(),
        ensures
            self.picks()[a] != self.picks()[b],
    {
        let n = self.n as int;
        lemma_round_index(a, n, 0);
        lemma_round_index(b, n, 0);
    }

    /// In draws without replacement of at most as many tiles as there are
    /// images, the pool never runs out while a draw is due, so it is never
    /// refilled and allowing repeats changes nothing.
    pub proof fn lemma_no_refill_within_pool(&self)
        requires
            self.wf(),
            !self.independent(),
            self.wanted() <= self.size(),
            self.picks().len() < self.wanted(),
        ensures
            self.pool().len() > 0,
            self.picks().len() + self.pool().len() == self.size(),
    {
    }

    /// Once no draw is due, exactly the wanted number of draws were made.
    pub proof fn lemma_finished_draws(&self)
        requires
            self.wf(),
            !(self.picks().len() < self.wanted()),
        ensures
            self.picks().len() == self.wanted(),
    {
    }

    /// The candidates for the next draw.
    pub fn candidates(&self) -> (r: &Vec<usize>)
        ensures
            r@ == self.pool(),
    {
        &self.pool
    }

    /// Records the draw of the candidate at `pos`: it is appended to the
    /// picks and, in draws without replacement, leaves the pool.
    pub fn record(&mut self, pos: usize)
        requires
            old(self).wf(),
            old(self).ready(),
            pos < old(self).pool().len(),
        ensures
            final(self).wf(),
            final(self).size() == old(self).size(),
            final(self).wanted() == old(self).wanted(),
            final(self).repeats_allowed() == old(self).repeats_allowed(),
            final(self).independent() == old(self).independent(),
            final(self).picks() == old(self).picks().push(old(self).pool()[pos as int]),
            final(self).independent() ==> final(self).pool() == old(self).pool(),
            !final(self).independent() ==> final(self).pool() == old(self).pool().remove(
                pos as int,
            ),
    {
        let v = self.pool[pos];
        let ghost old_picked = self.picked@;
        let ghost old_pool = self.pool@;
        self.picked.push(v);
        if !self.replacing {
            self.pool.remove(pos);
            proof {
                let n = self.n as int;
                let start = self.rounds@ * n;
                let m = old_picked.len() as int;
                assert forall|p: int|
                    start <= p < self.picked@.len() implies !self.pool@.contains(
                    #[trigger] self.picked@[p],
                ) by {
                    if p < m {
                        assert(self.picked@[p] == old_picked[p]);
                        if self.pool@.contains(self.picked@[p]) {
                            let k = choose|k: int|
                                0 <= k < self.pool@.len() && self.pool@[k] == self.picked@[p];
                            if k < pos {
                                assert(old_pool[k] == self.picked@[p]);
                            } else {
                                assert(old_pool[k + 1] == self.picked@[p]);
                            }
                        }
                    } else {
                        if self.pool@.contains(v) {
                            let k = choose|k: int| 0 <= k < self.pool@.len() && self.pool@[k] == v;
                            if k < pos {
                                assert(old_pool[k] == old_pool[pos as int]);
                            } else {
                                assert(old_pool[k + 1] == old_pool[pos as int]);
                            }
                        }
                    }
                }
                assert forall|a: int, b: int|
                    0 <= a < b < self.picked@.len() && same_round(
                        a,
                        b,
                        n,
                    ) implies #[trigger] self.picked@[a] != #[trigger] self.picked@[b] by {
                    if b == m {
                        lemma_round_index(a, n, self.rounds@ as int);
                        lemma_round_index(m, n, self.rounds@ as int);
                        assert(start <= a);
                        assert(old_pool.contains(v));
                        assert(self.picked@[a] == old_picked[a]);
                    } else {
                        assert(self.picked@[a] == old_picked[a]);
                        assert(self.picked@[b] == old_picked[b]);
                    }
                }
                assert forall|p: int, q: int|
                    0 <= p < q < self.pool@.len() implies self.pool@[p] != self.pool@[q] by {
                    let op = if p < pos {
                        p
                    } else {
                        p + 1
                    };
                    let oq = if q < pos {
                        q
                    } else {
                        q + 1
                    };
                    assert(old_pool[op] != old_pool[oq]);
                }
            }
        } else {
            proof {
                assert forall|k: int|
                    0 <= k < self.picked@.len() implies #[trigger] self.picked@[k] < self.n by {
                    if k < old_picked.len() {
                        assert(self.picked@[k] == old_picked[k]);
                    }
                }
            }
        }
    }

    /// The images drawn, in order.
    pub fn into_picks(self) -> (r: Vec<usize>)
        ensures
            r@ == self.picks(),
    {
        self.picked
    }
}

proof fn lemma_usize_range_len(n: usize)
    ensures
        Set::new(|x: usize| 0 <= x < n).len() == n,
        Set::new(|x: usize| 0 <= x < n).finite(),
    decreases n,
{
    if n == 0 {
        assert(Set::new(|x: usize| 0 <= x < n) =~= Set::<usize>::empty());
    } else {
        lemma_usize_range_len((n - 1) as usize);
        assert(Set::new(|x: usize| 0 <= x < n) =~= Set::new(|x: usize| 0 <= x < (n - 1) as usize).insert(
            (n - 1) as usize,
        ));
    }
}

} // verus!
