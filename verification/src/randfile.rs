//! The random-access file core: offset-addressed block reads and writes over
//! a byte stream, guarded by the lease protocol of [`crate::lease`].
//!
//! A [`RandFile`] owns the stream — here an in-memory byte buffer, the
//! model of anything seekable — together with its generation stack. A
//! caller's claim on the file is a plain generation token: every block
//! operation names the token it acts for, and succeeds exactly when that
//! token is the current generation. Handle clones and drops of the
//! surrounding shared front end map to [`RandFile::retain`] and
//! [`RandFile::release`].
//!
//! The capability tag `Mode` gates, at compile time, which operations exist:
//! read-side ones need [`CanRead`], write-side ones [`CanWrite`].

use crate::lease::{dec_at, release_len, LeaseStack, RandError};
use crate::mode::{AccessMode, CanRead, CanWrite, ReadOnly, ReadWrite};
use core::marker::PhantomData;
use vstd::prelude::*;

verus! {

/// The stream after writing `b` at offset `off`: bytes of `b` replace the
/// range they cover, a gap between the old end and `off` is zero-filled, and
/// the stream grows when the write reaches past its end. Writing nothing
/// leaves the stream untouched, wherever the offset points.
pub open spec fn write_at(s: Seq<u8>, off: int, b: Seq<u8>) -> Seq<u8> {
    if b.len() == 0 {
        s
    } else {
        let end = if off + b.len() > s.len() {
            off + b.len()
        } else {
            s.len() as int
        };
        Seq::new(
            end as nat,
            |i: int|
                if off <= i && i < off + b.len() {
                    b[i - off]
                } else if i < s.len() {
                    s[i]
                } else {
                    0u8
                },
        )
    }
}

/// How many bytes a read of `l` bytes at `addr` yields from a stream `s`:
/// all `l` when they are there, the remainder when the stream is shorter,
/// nothing when `addr` is at or past the end.
pub open spec fn read_len(s: Seq<u8>, addr: int, l: int) -> int {
    if addr >= s.len() {
        0
    } else if addr + l <= s.len() {
        l
    } else {
        s.len() - addr
    }
}

/// `n` zero bytes.
pub open spec fn zero_bytes(n: nat) -> Seq<u8> {
    Seq::new(n, |i: int| 0u8)
}

/// The synchronized random-access file: the backing byte stream and the
/// stack of lease generations that serializes access to it.
pub struct RandFile<Mode: AccessMode, C> {
    data: Vec<u8>,
    stack: LeaseStack<C>,
    _phantom: PhantomData<Mode>,
}

impl<Mode: AccessMode, C> RandFile<Mode, C> {
    /// The bytes of the backing stream.
    pub closed spec fn stream(&self) -> Seq<u8> {
        self.data@
    }

    /// Index of the generation currently permitted to operate.
    pub closed spec fn current_gen(&self) -> int {
        self.stack.current_gen()
    }

    /// Outstanding reference count of each generation, base first.
    pub closed spec fn counts(&self) -> Seq<u32> {
        self.stack.counts()
    }

    /// Release callbacks of the generations above the base.
    pub closed spec fn callbacks(&self) -> Seq<C> {
        self.stack.callbacks()
    }

    /// Number of generations on the stack.
    pub open spec fn depth(&self) -> int {
        self.counts().len() as int
    }

    /// Structural invariant, inherited from the lease stack.
    pub open spec fn wf(&self) -> bool {
        &&& self.counts().len() == self.current_gen() + 1
        &&& self.callbacks().len() == self.current_gen()
        &&& (self.counts().len() > 1 ==> self.counts().last() >= 1)
    }

    /// Wrap a backing stream: generation 0 becomes current, held once.
    fn new(inner: Vec<u8>) -> (r: Self)
        ensures
            r.wf(),
            r.stream() == inner@,
            r.current_gen() == 0,
            r.counts() == seq![1u32],
            r.callbacks() == Seq::<C>::empty(),
    {
        RandFile { data: inner, stack: LeaseStack::new(), _phantom: PhantomData }
    }

    /// Acquire an exclusive lease: push a fresh generation holding
    /// `update_fn` on top of whatever generation was current, and hand back
    /// its token. Until that generation is fully released, operations named
    /// for any older token fail with `GenerationMismatch`.
    pub fn lock(&mut self, update_fn: C) -> (r: Result<u32, RandError>)
        requires
            old(self).wf(),
            old(self).current_gen() < u32::MAX,
        ensures
            final(self).wf(),
            final(self).stream() == old(self).stream(),
            final(self).current_gen() == old(self).current_gen() + 1,
            final(self).counts() == old(self).counts().push(1u32),
            final(self).callbacks() == old(self).callbacks().push(update_fn),
            r is Ok && r->Ok_0 as int == final(self).current_gen(),
    {
        let token = self.stack.acquire(update_fn);
        Ok(token)
    }

    /// One more handle references generation `token` (a handle clone).
    pub fn retain(&mut self, token: u32)
        requires
            old(self).wf(),
            (token as int) < old(self).depth(),
            old(self).counts()[token as int] < u32::MAX,
        ensures
            final(self).wf(),
            final(self).stream() == old(self).stream(),
            final(self).current_gen() == old(self).current_gen(),
            final(self).counts() == old(self).counts().update(
                token as int,
                (old(self).counts()[token as int] + 1) as u32,
            ),
            final(self).callbacks() == old(self).callbacks(),
    {
        self.stack.retain(token)
    }

    /// A handle referencing generation `token` went away (a handle drop).
    /// Drives the release cascade and returns the callbacks of every
    /// generation it popped, innermost first; the caller runs them.
    pub fn release(&mut self, token: u32) -> (fired: Vec<C>)
        requires
            old(self).wf(),
            (token as int) < old(self).depth(),
        ensures
            final(self).wf(),
            final(self).stream() == old(self).stream(),
            final(self).counts() == dec_at(old(self).counts(), token as int).take(
                release_len(old(self).counts(), token as int),
            ),
            final(self).current_gen() == release_len(old(self).counts(), token as int) - 1,
            final(self).callbacks() == old(self).callbacks().take(
                release_len(old(self).counts(), token as int) - 1,
            ),
            fired@ == old(self).callbacks().skip(
                release_len(old(self).counts(), token as int) - 1,
            ).reverse(),
    {
        self.stack.release(token)
    }
}

impl<C> RandFile<ReadOnly, C> {
    /// Wrap a backing stream in a read-only random access file.
    pub fn for_read_only(inner: Vec<u8>) -> (r: Self)
        ensures
            r.wf(),
            r.stream() == inner@,
            r.current_gen() == 0,
            r.counts() == seq![1u32],
            r.callbacks() == Seq::<C>::empty(),
    {
        Self::new(inner)
    }
}

impl<C> RandFile<ReadWrite, C> {
    /// Wrap a backing stream in a read-write random access file.
    pub fn for_read_write(inner: Vec<u8>) -> (r: Self)
        ensures
            r.wf(),
            r.stream() == inner@,
            r.current_gen() == 0,
            r.counts() == seq![1u32],
            r.callbacks() == Seq::<C>::empty(),
    {
        Self::new(inner)
    }
}

impl<Mode: CanWrite, C> RandFile<Mode, C> {
    /// Append `buf` at the end of the stream on behalf of generation
    /// `token`; the returned address is where the block begins.
    pub fn append_block(&mut self, token: u32, buf: &[u8]) -> (r: Result<u64, RandError>)
        requires
            old(self).wf(),
        ensures
            final(self).wf(),
            final(self).current_gen() == old(self).current_gen(),
            final(self).counts() == old(self).counts(),
            final(self).callbacks() == old(self).callbacks(),
            (r is Ok) <==> token as int == old(self).current_gen(),
            r is Err ==> r->Err_0 == RandError::GenerationMismatch && final(self).stream()
                == old(self).stream(),
            r is Ok ==> r->Ok_0 as int == old(self).stream().len() && final(self).stream() == old(
                self,
            ).stream() + buf@,
    {
        match self.stack.try_use(token) {
            Err(e) => Err(e),
            Ok(()) => {
                let addr = self.data.len() as u64;
                let mut i: usize = 0;
                while i < buf.len()
                    invariant
                        i <= buf@.len(),
                        self.data@ == old(self).data@ + buf@.take(i as int),
                        self.stack == old(self).stack,
                    decreases buf@.len() - i,
                {
                    let byte = buf[i];
                    self.data.push(byte);
                    proof {
                        assert(old(self).data@ + buf@.take(i + 1) =~= (old(self).data@
                            + buf@.take(i as int)).push(buf@[i as int]));
                    }
                    i = i + 1;
                }
                proof {
                    assert(buf@.take(buf@.len() as int) =~= buf@);
                }
                Ok(addr)
            },
        }
    }

    /// Overwrite the stream at `offset` with `buf` on behalf of generation
    /// `token`. A write reaching past the end extends the stream; a gap
    /// between the old end and `offset` is zero-filled. No bounds or overlap
    /// check is made: the offsets written to are the caller's business.
    pub fn update_block(&mut self, token: u32, offset: u64, buf: &[u8]) -> (r: Result<
        (),
        RandError,
    >)
        requires
            old(self).wf(),
            offset + buf@.len() <= usize::MAX,
        ensures
            final(self).wf(),
            final(self).current_gen() == old(self).current_gen(),
            final(self).counts() == old(self).counts(),
            final(self).callbacks() == old(self).callbacks(),
            (r is Ok) <==> token as int == old(self).current_gen(),
            r is Err ==> r->Err_0 == RandError::GenerationMismatch && final(self).stream()
                == old(self).stream(),
            r is Ok ==> final(self).stream() == write_at(
                old(self).stream(),
                offset as int,
                buf@,
            ),
    {
        match self.stack.try_use(token) {
            Err(e) => Err(e),
            Ok(()) => {
                if buf.len() == 0 {
                    return Ok(());
                }
                let off = offset as usize;
                let ghost old_len = old(self).data@.len() as int;
                let ghost padded = if off as int > old_len {
                    off as int
                } else {
                    old_len
                };
                while self.data.len() < off
                    invariant
                        self.stack == old(self).stack,
                        old_len == old(self).data@.len() as int,
                        padded == if off as int > old_len {
                            off as int
                        } else {
                            old_len
                        },
                        old_len <= self.data@.len() <= padded,
                        self.data@ == old(self).data@ + zero_bytes(
                            (self.data@.len() - old_len) as nat,
                        ),
                    decreases off as int - self.data@.len(),
                {
                    self.data.push(0u8);
                    proof {
                        let k = (self.data@.len() - old_len) as nat;
                        assert(old(self).data@ + zero_bytes(k) =~= (old(self).data@ + zero_bytes(
                            (k - 1) as nat,
                        )).push(0u8));
                    }
                }
                proof {
                    assert(self.data@.len() == padded);
                    assert forall|j: int| 0 <= j < self.data@.len() implies self.data@[j] == (
                    if j < old_len {
                        old(self).data@[j]
                    } else {
                        0u8
                    }) by {
                        if j >= old_len {
                            assert(self.data@[j] == zero_bytes((padded - old_len) as nat)[j
                                - old_len]);
                        }
                    }
                }
                let mut i: usize = 0;
                while i < buf.len()
                    invariant
                        self.stack == old(self).stack,
                        i <= buf@.len(),
                        buf@.len() >= 1,
                        off + buf@.len() <= usize::MAX,
                        padded == if off as int > old_len {
                            off as int
                        } else {
                            old_len
                        },
                        old_len == old(self).data@.len() as int,
                        self.data@.len() == if padded >= off + i {
                            padded
                        } else {
                            off + i
                        },
                        forall|j: int|
                            0 <= j < self.data@.len() ==> self.data@[j] == (if off <= j < off + i {
                                buf@[j - off]
                            } else if j < old_len {
                                old(self).data@[j]
                            } else {
                                0u8
                            }),
                    decreases buf@.len() - i,
                {
                    let ghost prev = self.data@;
                    let byte = buf[i];
                    if off + i < self.data.len() {
                        self.data.set(off + i, byte);
                    } else {
                        self.data.push(byte);
                    }
                    proof {
                        assert forall|j: int| 0 <= j < self.data@.len() implies self.data@[j] == (
                        if off <= j < off + (i + 1) {
                            buf@[j - off]
                        } else if j < old_len {
                            old(self).data@[j]
                        } else {
                            0u8
                        }) by {
                            if j != off + i {
                                assert(self.data@[j] == prev[j]);
                            }
                        }
                    }
                    i = i + 1;
                }
                proof {
                    assert(self.data@ =~= write_at(old(self).data@, offset as int, buf@));
                }
                Ok(())
            },
        }
    }

    /// Extend the stream by `size` zero bytes on behalf of generation
    /// `token`, establishing room for a later `update_block`; the returned
    /// address is where the reserved region begins.
    pub fn reserve_block(&mut self, token: u32, size: usize) -> (r: Result<u64, RandError>)
        requires
            old(self).wf(),
        ensures
            final(self).wf(),
            final(self).current_gen() == old(self).current_gen(),
            final(self).counts() == old(self).counts(),
            final(self).callbacks() == old(self).callbacks(),
            (r is Ok) <==> token as int == old(self).current_gen(),
            r is Err ==> r->Err_0 == RandError::GenerationMismatch && final(self).stream()
                == old(self).stream(),
            r is Ok ==> r->Ok_0 as int == old(self).stream().len() && final(self).stream() == old(
                self,
            ).stream() + zero_bytes(size as nat),
    {
        match self.stack.try_use(token) {
            Err(e) => Err(e),
            Ok(()) => {
                let addr = self.data.len() as u64;
                let mut i: usize = 0;
                while i < size
                    invariant
                        i <= size,
                        self.data@ == old(self).data@ + zero_bytes(i as nat),
                        self.stack == old(self).stack,
                    decreases size - i,
                {
                    self.data.push(0u8);
                    proof {
                        assert(old(self).data@ + zero_bytes((i + 1) as nat) =~= (old(self).data@
                            + zero_bytes(i as nat)).push(0u8));
                    }
                    i = i + 1;
                }
                Ok(addr)
            },
        }
    }
}

impl<Mode: CanRead, C> RandFile<Mode, C> {
    /// The stream's length in bytes, on behalf of generation `token`.
    pub fn size(&mut self, token: u32) -> (r: Result<u64, RandError>)
        requires
            old(self).wf(),
        ensures
            final(self).wf(),
            final(self).stream() == old(self).stream(),
            final(self).current_gen() == old(self).current_gen(),
            final(self).counts() == old(self).counts(),
            final(self).callbacks() == old(self).callbacks(),
            (r is Ok) <==> token as int == old(self).current_gen(),
            r is Err ==> r->Err_0 == RandError::GenerationMismatch,
            r is Ok ==> r->Ok_0 as int == old(self).stream().len(),
    {
        match self.stack.try_use(token) {
            Err(e) => Err(e),
            Ok(()) => Ok(self.data.len() as u64),
        }
    }

    /// Read from address `addr` into the front of `buf` on behalf of
    /// generation `token`. Fills `buf` as far as the stream reaches and
    /// returns the number of bytes placed; a stream shorter than the buffer
    /// is not an error.
    pub fn read_block(&mut self, token: u32, addr: u64, buf: &mut Vec<u8>) -> (r: Result<
        usize,
        RandError,
    >)
        requires
            old(self).wf(),
        ensures
            final(self).wf(),
            final(self).stream() == old(self).stream(),
            final(self).current_gen() == old(self).current_gen(),
            final(self).counts() == old(self).counts(),
            final(self).callbacks() == old(self).callbacks(),
            final(buf)@.len() == old(buf)@.len(),
            (r is Ok) <==> token as int == old(self).current_gen(),
            r is Err ==> r->Err_0 == RandError::GenerationMismatch && final(buf)@ == old(buf)@,
            r is Ok ==> ({
                let cnt = read_len(old(self).stream(), addr as int, old(buf)@.len() as int);
                &&& r->Ok_0 as int == cnt
                &&& forall|i: int|
                    0 <= i < cnt ==> final(buf)@[i] == old(self).stream()[addr + i]
                &&& forall|i: int|
                    cnt <= i < old(buf)@.len() ==> final(buf)@[i] == old(buf)@[i]
            }),
    {
        match self.stack.try_use(token) {
            Err(e) => Err(e),
            Ok(()) => {
                let n = self.data.len();
                if addr >= n as u64 {
                    return Ok(0);
                }
                let off = addr as usize;
                let avail = n - off;
                let cnt = if buf.len() < avail {
                    buf.len()
                } else {
                    avail
                };
                let mut i: usize = 0;
                while i < cnt
                    invariant
                        i <= cnt,
                        cnt <= buf@.len(),
                        off + cnt <= self.data@.len(),
                        off + cnt <= usize::MAX,
                        buf@.len() == old(buf)@.len(),
                        self.data@ == old(self).data@,
                        self.stack == old(self).stack,
                        forall|j: int| 0 <= j < i ==> buf@[j] == self.data@[off + j],
                        forall|j: int| i <= j < buf@.len() ==> buf@[j] == old(buf)@[j],
                    decreases cnt - i,
                {
                    let byte = self.data[off + i];
                    buf.set(i, byte);
                    i = i + 1;
                }
                Ok(cnt)
            },
        }
    }
}

/// The stream after appending each block of `blocks` in order.
pub open spec fn stream_after_appends(s: Seq<u8>, blocks: Seq<Seq<u8>>) -> Seq<u8>
    decreases blocks.len(),
{
    if blocks.len() == 0 {
        s
    } else {
        stream_after_appends(s + blocks.first(), blocks.drop_first())
    }
}

/// The summed length of a sequence of blocks.
pub open spec fn total_len(blocks: Seq<Seq<u8>>) -> int
    decreases blocks.len(),
{
    if blocks.len() == 0 {
        0
    } else {
        blocks.first().len() + total_len(blocks.drop_first())
    }
}

/// Appending never disturbs what is already in the stream: every byte of `s`
/// keeps its place, and the stream only grows.
pub proof fn lemma_appends_preserve_prefix(s: Seq<u8>, blocks: Seq<Seq<u8>>, j: int)
    requires
        0 <= j < s.len(),
    ensures
        stream_after_appends(s, blocks).len() >= s.len(),
        stream_after_appends(s, blocks)[j] == s[j],
    decreases blocks.len(),
{
    if blocks.len() > 0 {
        lemma_appends_preserve_prefix(s + blocks.first(), blocks.drop_first(), j);
    }
}

/// A run of appends grows the stream by exactly the blocks' summed length.
pub proof fn lemma_appends_length(s: Seq<u8>, blocks: Seq<Seq<u8>>)
    ensures
        stream_after_appends(s, blocks).len() == s.len() + total_len(blocks),
    decreases blocks.len(),
{
    if blocks.len() > 0 {
        lemma_appends_length(s + blocks.first(), blocks.drop_first());
    }
}

/// For a run of appends on an otherwise-idle stream, the `k`-th append lands
/// at the summed length of everything before it — the start of the stream
/// plus all earlier blocks — and reading that block's range back from the
/// final stream returns exactly the bytes that were written.
pub proof fn lemma_append_block_addresses(s: Seq<u8>, blocks: Seq<Seq<u8>>, k: int)
    requires
        0 <= k < blocks.len(),
    ensures
        ({
            let addr = s.len() + total_len(blocks.take(k));
            let full = stream_after_appends(s, blocks);
            &&& stream_after_appends(s, blocks.take(k)).len() == addr
            &&& addr + blocks[k].len() <= full.len()
            &&& read_len(full, addr, blocks[k].len() as int) == blocks[k].len()
            &&& full.subrange(addr, addr + blocks[k].len()) == blocks[k]
        }),
    decreases k,
{
    let addr = s.len() + total_len(blocks.take(k));
    let full = stream_after_appends(s, blocks);
    if k == 0 {
        assert(blocks.take(0) =~= Seq::<Seq<u8>>::empty());
        assert(addr == s.len());
        let s1 = s + blocks.first();
        assert(full == stream_after_appends(s1, blocks.drop_first()));
        lemma_appends_length(s1, blocks.drop_first());
        assert(total_len(blocks.drop_first()) >= 0) by {
            lemma_total_len_nonneg(blocks.drop_first());
        }
        assert(blocks[0].len() == blocks.first().len());
        assert forall|j: int| 0 <= j < blocks[0].len() implies full[addr + j] == blocks[0][j] by {
            lemma_appends_preserve_prefix(s1, blocks.drop_first(), addr + j);
            assert(s1[addr + j] == blocks.first()[j]);
        }
        assert(full.subrange(addr, addr + blocks[k].len()) =~= blocks[k]);
    } else {
        let s1 = s + blocks.first();
        let rest = blocks.drop_first();
        lemma_append_block_addresses(s1, rest, k - 1);
        assert(blocks.take(k).drop_first() =~= rest.take(k - 1));
        assert(total_len(blocks.take(k)) == blocks.first().len() + total_len(rest.take(k - 1)));
        assert(stream_after_appends(s, blocks.take(k)) == stream_after_appends(
            s + blocks.take(k).first(),
            blocks.take(k).drop_first(),
        ));
        assert(blocks.take(k).first() == blocks.first());
        assert(rest[k - 1] == blocks[k]);
    }
}

/// The summed length of blocks is never negative.
pub proof fn lemma_total_len_nonneg(blocks: Seq<Seq<u8>>)
    ensures
        total_len(blocks) >= 0,
    decreases blocks.len(),
{
    if blocks.len() > 0 {
        lemma_total_len_nonneg(blocks.drop_first());
    }
}

/// A read at an address inside the stream yields the smaller of the buffer
/// length and the bytes remaining past the address — running off the end of
/// the stream is not an error, just a short read.
pub proof fn lemma_read_len_is_min(s: Seq<u8>, addr: int, l: int)
    requires
        0 <= addr <= s.len(),
        0 <= l,
    ensures
        read_len(s, addr, l) == if l <= s.len() - addr {
            l
        } else {
            s.len() - addr
        },
{
}

} // verus!
