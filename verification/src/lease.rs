//! The hierarchical exclusive-lease protocol.
//!
//! A [`LeaseStack`] is an ordered stack of *generations*. Each generation
//! carries an outstanding reference count and, for every generation above the
//! base, a one-shot release callback. Only the topmost generation — the
//! *current* one — may operate on the guarded stream; [`LeaseStack::try_use`]
//! is the single gate every stream operation passes through.
//!
//! Acquiring a lease pushes a fresh generation with count 1 on top; retaining
//! (cloning a handle) increments its generation's count; releasing decrements
//! it and, when the count at the top reaches zero, pops the stack repeatedly,
//! handing back the popped callbacks in pop order — innermost generation
//! first — so the caller can run them once the guarding lock is gone.

use vstd::prelude::*;

verus! {

/// The error taxonomy of the block-level interface.
#[derive(Clone, Copy, Debug, PartialEq, Eq, Structural)]
pub enum RandError {
    /// The operation came from a handle whose generation is not current.
    GenerationMismatch,
    /// The protecting lock could not be acquired; unrecoverable for the
    /// shared state it guards. Never produced by the in-memory core itself.
    LockFailure,
    /// A seek, read or write of the backing stream failed.
    BackendIo,
    /// The platform's memory-mapping facility rejected a request.
    Mapping,
}

/// The counts after a release request on generation `t`: decremented when
/// positive, left at zero otherwise.
pub open spec fn dec_at(counts: Seq<u32>, t: int) -> Seq<u32> {
    if counts[t] > 0 {
        counts.update(t, (counts[t] - 1) as u32)
    } else {
        counts
    }
}

/// The length the stack settles at once every drained generation on top has
/// been popped: trailing zero counts are removed, but the base entry stays.
pub open spec fn settled_len(counts: Seq<u32>) -> int
    decreases counts.len(),
{
    if counts.len() > 1 && counts.last() == 0 {
        settled_len(counts.drop_last())
    } else {
        counts.len() as int
    }
}

/// The stack length after releasing one reference to generation `t`.
pub open spec fn release_len(counts: Seq<u32>, t: int) -> int {
    settled_len(dec_at(counts, t))
}

/// The generation stack: reference counts per generation, a release callback
/// for every generation above the base, and the index of the current
/// (topmost) generation.
pub struct LeaseStack<C> {
    current: u32,
    counts: Vec<u32>,
    callbacks: Vec<C>,
}

impl<C> LeaseStack<C> {
    /// Index of the only generation currently permitted to operate.
    pub closed spec fn current_gen(&self) -> int {
        self.current as int
    }

    /// Outstanding reference count of each generation, base first.
    pub closed spec fn counts(&self) -> Seq<u32> {
        self.counts@
    }

    /// Release callbacks of the generations above the base: `callbacks()[i]`
    /// belongs to generation `i + 1`.
    pub closed spec fn callbacks(&self) -> Seq<C> {
        self.callbacks@
    }

    /// Number of generations on the stack.
    pub open spec fn depth(&self) -> int {
        self.counts().len() as int
    }

    /// Structural invariant: the current generation is the topmost entry,
    /// every non-base generation has its callback, and a non-base top entry
    /// always has at least one outstanding reference (a drained top is popped
    /// before any operation returns).
    pub open spec fn wf(&self) -> bool {
        &&& self.counts().len() == self.current_gen() + 1
        &&& self.callbacks().len() == self.current_gen()
        &&& (self.counts().len() > 1 ==> self.counts().last() >= 1)
    }

    /// A fresh stack: only the base generation, held once, with no callback.
    pub fn new() -> (r: Self)
        ensures
            r.wf(),
            r.current_gen() == 0,
            r.counts() == seq![1u32],
            r.callbacks() == Seq::<C>::empty(),
    {
        let counts: Vec<u32> = vec![1u32];
        let r = LeaseStack { current: 0, counts, callbacks: Vec::new() };
        proof {
            assert(r.counts() =~= seq![1u32]);
        }
        r
    }

    /// Number of generations on the stack.
    pub fn generation_count(&self) -> (n: usize)
        ensures
            n as int == self.depth(),
    {
        self.counts.len()
    }

    /// Outstanding reference count of generation `token`.
    pub fn count_of(&self, token: u32) -> (c: u32)
        requires
            (token as int) < self.depth(),
        ensures
            c == self.counts()[token as int],
    {
        self.counts[token as usize]
    }

    /// The serialization gate: succeeds exactly when `token` names the
    /// current generation.
    pub fn try_use(&self, token: u32) -> (r: Result<(), RandError>)
        ensures
            r is Ok <==> token as int == self.current_gen(),
            r is Err ==> r->Err_0 == RandError::GenerationMismatch,
    {
        if token == self.current {
            Ok(())
        } else {
            Err(RandError::GenerationMismatch)
        }
    }

    /// Acquire a lease: push a fresh generation holding `on_release`, with
    /// one outstanding reference, and make it current. Returns the new
    /// generation's token. The new generation sits on top of whatever was
    /// current, not of the caller's own generation.
    pub fn acquire(&mut self, on_release: C) -> (token: u32)
        requires
            old(self).wf(),
            old(self).current_gen() < u32::MAX,
        ensures
            final(self).wf(),
            final(self).current_gen() == old(self).current_gen() + 1,
            final(self).counts() == old(self).counts().push(1u32),
            final(self).callbacks() == old(self).callbacks().push(on_release),
            token as int == final(self).current_gen(),
    {
        self.current = self.current + 1;
        self.counts.push(1);
        self.callbacks.push(on_release);
        self.current
    }

    /// Add one outstanding reference to generation `token` (a handle bound
    /// to it was cloned).
    pub fn retain(&mut self, token: u32)
        requires
            old(self).wf(),
            (token as int) < old(self).depth(),
            old(self).counts()[token as int] < u32::MAX,
        ensures
            final(self).wf(),
            final(self).current_gen() == old(self).current_gen(),
            final(self).counts() == old(self).counts().update(
                token as int,
                (old(self).counts()[token as int] + 1) as u32,
            ),
            final(self).callbacks() == old(self).callbacks(),
    {
        let t = token as usize;
        let c = self.counts[t];
        self.counts.set(t, c + 1);
    }

    /// Drop one outstanding reference to generation `token` (a handle bound
    /// to it was released). If the count at the top of the stack reaches
    /// zero, pop drained generations until a held one — or the base — is on
    /// top again, and return the popped callbacks in pop order: the innermost
    /// generation's callback first. The caller must invoke them, after it has
    /// let go of whatever lock guards this stack.
    pub fn release(&mut self, token: u32) -> (fired: Vec<C>)
        requires
            old(self).wf(),
            (token as int) < old(self).depth(),
        ensures
            final(self).wf(),
            final(self).counts() == dec_at(old(self).counts(), token as int).take(
                release_len(old(self).counts(), token as int),
            ),
            final(self).current_gen() == release_len(old(self).counts(), token as int) - 1,
            final(self).callbacks() == old(self).callbacks().take(
                release_len(old(self).counts(), token as int) - 1,
            ),
            fired@ == old(self).callbacks().skip(
                release_len(old(self).counts(), token as int) - 1,
            ).reverse(),
    {
        let t = token as usize;
        let c = self.counts[t];
        if c > 0 {
            self.counts.set(t, c - 1);
        }
        let ghost c1 = dec_at(old(self).counts(), token as int);
        proof {
            assert(self.counts@ =~= c1);
            assert(c1.take(c1.len() as int) =~= c1);
            assert(old(self).callbacks().take(c1.len() - 1) =~= old(self).callbacks());
            assert(old(self).callbacks().skip(c1.len() - 1).reverse() =~= Seq::<C>::empty());
        }
        let mut fired: Vec<C> = Vec::new();
        while self.current > 0 && self.counts[self.current as usize] == 0
            invariant
                self.counts@.len() == self.current as int + 1,
                self.callbacks@.len() == self.current as int,
                1 <= self.counts@.len() <= c1.len(),
                c1.len() == old(self).counts().len(),
                old(self).callbacks().len() == c1.len() - 1,
                self.counts@ == c1.take(self.counts@.len() as int),
                self.callbacks@ == old(self).callbacks().take(self.counts@.len() - 1),
                fired@ == old(self).callbacks().skip(self.counts@.len() - 1).reverse(),
                settled_len(self.counts@) == settled_len(c1),
            decreases self.current,
        {
            let ghost prev_counts = self.counts@;
            let ghost m = self.counts@.len() as int;
            self.current = self.current - 1;
            let _drained = self.counts.pop();
            let cb_opt = self.callbacks.pop();
            let cb = cb_opt.unwrap();
            fired.push(cb);
            proof {
                assert(self.counts@ =~= c1.take(m - 1));
                assert(self.callbacks@ =~= old(self).callbacks().take(m - 2));
                assert(cb == old(self).callbacks()[m - 2]);
                assert(fired@ =~= old(self).callbacks().skip(m - 2).reverse());
                assert(prev_counts.drop_last() =~= self.counts@);
                assert(settled_len(prev_counts) == settled_len(self.counts@));
            }
        }
        proof {
            assert(settled_len(self.counts@) == self.counts@.len() as int);
        }
        fired
    }
}

/// The settled length of a non-empty count stack lies between 1 (only the
/// base left) and the stack's own length (nothing popped).
pub proof fn lemma_settled_len_bounds(counts: Seq<u32>)
    requires
        counts.len() >= 1,
    ensures
        1 <= settled_len(counts) <= counts.len(),
    decreases counts.len(),
{
    if counts.len() > 1 && counts.last() == 0 {
        lemma_settled_len_bounds(counts.drop_last());
    }
}

/// Acquiring a lease and then fully releasing it restores the stack exactly
/// as it was and hands back the registered callback exactly once — provided
/// some handle of the previously current generation stays alive, so the
/// cascade stops there.
pub proof fn lemma_acquire_release_round_trip<C>(counts: Seq<u32>, callbacks: Seq<C>, cb: C)
    requires
        counts.len() == callbacks.len() + 1,
        counts.last() >= 1,
    ensures
        ({
            let c1 = counts.push(1u32);
            let k1 = callbacks.push(cb);
            let t = counts.len() as int;
            &&& release_len(c1, t) == counts.len()
            &&& dec_at(c1, t).take(release_len(c1, t)) == counts
            &&& k1.take(release_len(c1, t) - 1) == callbacks
            &&& k1.skip(release_len(c1, t) - 1).reverse() == seq![cb]
        }),
{
    let c1 = counts.push(1u32);
    let k1 = callbacks.push(cb);
    let t = counts.len() as int;
    assert(dec_at(c1, t) =~= counts.push(0u32));
    let d = counts.push(0u32);
    assert(d.drop_last() =~= counts);
    assert(settled_len(d) == settled_len(counts));
    assert(settled_len(counts) == counts.len() as int);
    assert(dec_at(c1, t).take(release_len(c1, t)) =~= counts);
    assert(k1.take(release_len(c1, t) - 1) =~= callbacks);
    assert(k1.skip(release_len(c1, t) - 1).reverse() =~= seq![cb]);
}

/// The stack settles back at the base generation exactly when every
/// generation above the base has been drained of references — no level can
/// be skipped.
pub proof fn lemma_base_settles_iff_all_drained(counts: Seq<u32>)
    requires
        counts.len() >= 1,
    ensures
        settled_len(counts) == 1 <==> (forall|i: int| 1 <= i < counts.len() ==> counts[i] == 0),
    decreases counts.len(),
{
    if counts.len() > 1 && counts.last() == 0 {
        lemma_base_settles_iff_all_drained(counts.drop_last());
        assert(forall|i: int|
            1 <= i < counts.len() - 1 ==> counts.drop_last()[i] == counts[i]);
        if settled_len(counts) == 1 {
            assert forall|i: int| 1 <= i < counts.len() implies counts[i] == 0 by {
                if i < counts.len() - 1 {
                    assert(counts.drop_last()[i] == 0);
                }
            }
        }
    } else if counts.len() > 1 {
        assert(counts[counts.len() - 1] != 0);
    }
}

/// One release hands the popped callbacks back innermost-first: the `i`-th
/// returned callback belongs to the `i`-th generation counted down from the
/// old top of the stack.
pub proof fn lemma_release_innermost_first<C>(counts: Seq<u32>, callbacks: Seq<C>, t: int)
    requires
        counts.len() == callbacks.len() + 1,
        0 <= t < counts.len(),
    ensures
        ({
            let n = release_len(counts, t);
            let fired = callbacks.skip(n - 1).reverse();
            &&& 1 <= n <= counts.len()
            &&& fired.len() == counts.len() - n
            &&& forall|i: int|
                0 <= i < fired.len() ==> fired[i] == callbacks[callbacks.len() - 1 - i]
        }),
{
    let d = dec_at(counts, t);
    assert(d.len() == counts.len());
    lemma_settled_len_bounds(d);
}

/// Retaining a held generation (a handle clone) and then releasing it again
/// (the clone's drop) leaves the stack exactly as it was: the surviving
/// references keep the lease alive and no callback fires.
pub proof fn lemma_retain_then_release_restores(counts: Seq<u32>, t: int)
    requires
        counts.len() >= 1,
        counts.len() > 1 ==> counts.last() >= 1,
        0 <= t < counts.len(),
        counts[t] >= 1,
        counts[t] < u32::MAX,
    ensures
        ({
            let c1 = counts.update(t, (counts[t] + 1) as u32);
            &&& release_len(c1, t) == counts.len()
            &&& dec_at(c1, t).take(release_len(c1, t)) == counts
        }),
{
    let c1 = counts.update(t, (counts[t] + 1) as u32);
    assert(dec_at(c1, t) =~= counts);
    assert(settled_len(counts) == counts.len() as int);
    assert(dec_at(c1, t).take(release_len(c1, t)) =~= counts);
}

} // verus!
