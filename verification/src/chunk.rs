//! Byte-exact rechunking: variably-sized input buffers in, fixed-size
//! output blocks out.
//!
//! The queue keeps at most one partial block of pending bytes.  Pushing a
//! buffer emits every full output block that can be sliced off the front
//! of pending-plus-buffer and retains the tail; finalizing emits the tail
//! once as the final, possibly short, block.  The ordered concatenation of
//! everything emitted equals the ordered concatenation of everything
//! pushed — no byte is lost, duplicated or reordered.
use vstd::arithmetic::div_mod::lemma_fundamental_div_mod;
use vstd::arithmetic::div_mod::lemma_mod_bound;
use vstd::arithmetic::mul::lemma_mul_inequality;
use vstd::arithmetic::mul::lemma_mul_is_commutative;
use vstd::arithmetic::mul::lemma_mul_is_distributive_add_other_way;
use vstd::prelude::*;

use crate::paths::lemma_comps_deep_push;

verus! {

/// The ordered concatenation of a sequence of byte sequences.
pub open spec fn concat_seqs(xs: Seq<Seq<u8>>) -> Seq<u8>
    decreases xs.len(),
{
    if xs.len() == 0 {
        Seq::empty()
    } else {
        concat_seqs(xs.drop_last()) + xs.last()
    }
}

/// The full blocks of size `bs` at the front of `s`, in order.
pub open spec fn full_chunks(s: Seq<u8>, bs: int) -> Seq<Seq<u8>> {
    Seq::new((s.len() as int / bs) as nat, |i: int| s.subrange(i * bs, (i + 1) * bs))
}

/// What is left of `s` after its full blocks of size `bs`.
pub open spec fn chunk_rem(s: Seq<u8>, bs: int) -> Seq<u8> {
    s.skip(s.len() as int / bs * bs)
}

/// Division facts the slicing proofs lean on.
proof fn lemma_div_mul_le(len: int, bs: int)
    requires
        len >= 0,
        bs >= 1,
    ensures
        0 <= len / bs * bs <= len,
        len < len / bs * bs + bs,
{
    lemma_fundamental_div_mod(len, bs);
    lemma_mod_bound(len, bs);
    lemma_mul_is_commutative(bs, len / bs);
}

/// Concatenating the first `k` chunks gives the first `k * bs` bytes.
proof fn lemma_concat_take(s: Seq<u8>, bs: int, k: int)
    requires
        bs >= 1,
        0 <= k <= s.len() as int / bs,
    ensures
        concat_seqs(full_chunks(s, bs).take(k)) == s.take(k * bs),
    decreases k,
{
    lemma_div_mul_le(s.len() as int, bs);
    if k == 0 {
        assert(0 * bs == 0);
        assert(full_chunks(s, bs).take(0) =~= Seq::<Seq<u8>>::empty());
        assert(s.take(0) =~= Seq::<u8>::empty());
    } else {
        lemma_concat_take(s, bs, k - 1);
        lemma_mul_inequality(k, s.len() as int / bs, bs);
        lemma_mul_is_distributive_add_other_way(bs, k - 1, 1);
        assert(k * bs == (k - 1) * bs + bs);
        lemma_mul_inequality(k - 1, k, bs);
        let chunks = full_chunks(s, bs);
        assert(chunks.take(k).drop_last() =~= chunks.take(k - 1));
        assert(chunks.take(k).last() == s.subrange((k - 1) * bs, k * bs));
        assert(concat_seqs(chunks.take(k)) == concat_seqs(chunks.take(k - 1)) + s.subrange(
            (k - 1) * bs,
            k * bs,
        ));
        assert(s.take((k - 1) * bs) + s.subrange((k - 1) * bs, k * bs) =~= s.take(k * bs));
    }
}

/// The full chunks of `s` concatenated, followed by the remainder, are
/// exactly `s`.
pub proof fn lemma_chunks_concat(s: Seq<u8>, bs: int)
    requires
        bs >= 1,
    ensures
        concat_seqs(full_chunks(s, bs)) + chunk_rem(s, bs) == s,
{
    let n = s.len() as int / bs;
    lemma_div_mul_le(s.len() as int, bs);
    lemma_concat_take(s, bs, n);
    assert(full_chunks(s, bs).take(n) =~= full_chunks(s, bs));
    assert(s.take(n * bs) + s.skip(n * bs) =~= s);
}

/// Chunking a buffer appended to a block-aligned prefix chunks each part
/// on its own.
proof fn lemma_aligned_extend(m: Seq<u8>, x: Seq<u8>, bs: int)
    requires
        bs >= 1,
        m.len() as int % bs == 0,
    ensures
        full_chunks(m + x, bs) == full_chunks(m, bs) + full_chunks(x, bs),
        chunk_rem(m + x, bs) == chunk_rem(x, bs),
{
    let q = m.len() as int / bs;
    let t = x.len() as int;
    lemma_fundamental_div_mod(m.len() as int, bs);
    assert(m.len() as int == bs * q);
    lemma_fundamental_div_mod(t, bs);
    lemma_mod_bound(t, bs);
    assert(t == bs * (t / bs) + t % bs);
    assert((m + x).len() as int == bs * q + t);
    assert(bs * q + t == bs * (q + t / bs) + t % bs) by {
        vstd::arithmetic::mul::lemma_mul_is_distributive_add(bs, q, t / bs);
    }
    assert(((m + x).len() as int) / bs == q + t / bs) by {
        vstd::arithmetic::div_mod::lemma_div_multiples_vanish_fancy(q + t / bs, t % bs, bs);
    }
    lemma_div_mul_le(m.len() as int, bs);
    lemma_div_mul_le(t, bs);
    lemma_mul_is_commutative(bs, q);
    assert(q * bs == m.len() as int);
    assert forall|i: int| 0 <= i < q + t / bs implies full_chunks(m + x, bs)[i] == (full_chunks(
        m,
        bs,
    ) + full_chunks(x, bs))[i] by {
        lemma_mul_is_distributive_add_other_way(bs, i, 1);
        assert((i + 1) * bs == i * bs + bs);
        if i < q {
            lemma_mul_inequality(i + 1, q, bs);
            assert((i + 1) * bs <= q * bs);
            lemma_mul_nonneg_local(i, bs);
            assert((m + x).subrange(i * bs, (i + 1) * bs) =~= m.subrange(i * bs, (i + 1) * bs));
        } else {
            let j = i - q;
            lemma_mul_is_distributive_add_other_way(bs, j, 1);
            assert((j + 1) * bs == j * bs + bs);
            vstd::arithmetic::mul::lemma_mul_is_distributive_sub_other_way(bs, i, q);
            assert((i - q) * bs == i * bs - q * bs);
            lemma_mul_inequality(j + 1, t / bs, bs);
            assert((j + 1) * bs <= t / bs * bs);
            lemma_mul_nonneg_local(j, bs);
            assert((m + x).subrange(i * bs, (i + 1) * bs) =~= x.subrange(j * bs, (j + 1) * bs));
            assert(full_chunks(x, bs)[j] == x.subrange(j * bs, (j + 1) * bs));
        }
    }
    assert(full_chunks(m + x, bs) =~= full_chunks(m, bs) + full_chunks(x, bs));
    assert((q + t / bs) * bs == q * bs + t / bs * bs) by {
        lemma_mul_is_distributive_add_other_way(bs, q, t / bs);
    }
    assert((m + x).skip((q + t / bs) * bs) =~= x.skip(t / bs * bs));
}

/// A product of non-negative factors is non-negative.
proof fn lemma_mul_nonneg_local(a: int, b: int)
    requires
        a >= 0,
        b >= 0,
    ensures
        a * b >= 0,
{
    vstd::arithmetic::mul::lemma_mul_nonnegative(a, b);
}

/// How one push extends the stream: chunking the whole stream equals the
/// chunks already emitted plus the chunks of the retained tail and the new
/// buffer, and the retained tail advances likewise.
pub proof fn lemma_push_total(prev: Seq<u8>, buff: Seq<u8>, bs: int)
    requires
        bs >= 1,
    ensures
        full_chunks(prev + buff, bs) == full_chunks(prev, bs) + full_chunks(
            chunk_rem(prev, bs) + buff,
            bs,
        ),
        chunk_rem(prev + buff, bs) == chunk_rem(chunk_rem(prev, bs) + buff, bs),
{
    let n = prev.len() as int / bs;
    lemma_div_mul_le(prev.len() as int, bs);
    let a = prev.take(n * bs);
    let r = chunk_rem(prev, bs);
    assert(prev =~= a + r);
    assert(prev + buff =~= a + (r + buff));
    assert(a.len() as int % bs == 0) by {
        lemma_mod_multiples_basic_local(n, bs);
    }
    lemma_aligned_extend(a, r + buff, bs);
    lemma_aligned_extend(a, r, bs);
    assert(full_chunks(r, bs) =~= Seq::<Seq<u8>>::empty()) by {
        assert(r.len() < bs);
        assert(r.len() as int / bs == 0) by {
            vstd::arithmetic::div_mod::lemma_basic_div(r.len() as int, bs);
        }
    }
    assert(full_chunks(prev, bs) =~= full_chunks(a, bs) + full_chunks(r, bs));
    assert(full_chunks(prev, bs) =~= full_chunks(a, bs));
    assert(full_chunks(prev + buff, bs) =~= full_chunks(prev, bs) + full_chunks(r + buff, bs));
    assert(chunk_rem(prev + buff, bs) == chunk_rem(r + buff, bs));
}

/// `(x * m) % m == 0`.
proof fn lemma_mod_multiples_basic_local(x: int, m: int)
    requires
        m > 0,
    ensures
        (x * m) % m == 0,
{
    vstd::arithmetic::div_mod::lemma_mod_multiples_basic(x, m);
}

/// Every full chunk is exactly one block long, and there is one chunk per
/// whole block of input.
pub proof fn lemma_full_chunks_len(s: Seq<u8>, bs: int)
    requires
        bs >= 1,
    ensures
        full_chunks(s, bs).len() == s.len() as int / bs,
        forall|i: int|
            0 <= i < full_chunks(s, bs).len() ==> (#[trigger] full_chunks(s, bs)[i]).len() == bs,
        chunk_rem(s, bs).len() == s.len() as int % bs,
{
    lemma_div_mul_le(s.len() as int, bs);
    lemma_fundamental_div_mod(s.len() as int, bs);
    lemma_mul_is_commutative(bs, s.len() as int / bs);
    assert forall|i: int| 0 <= i < full_chunks(s, bs).len() implies (#[trigger] full_chunks(
        s,
        bs,
    )[i]).len() == bs by {
        lemma_mul_is_distributive_add_other_way(bs, i, 1);
        lemma_mul_nonneg_local(i, bs);
        lemma_mul_inequality(i + 1, s.len() as int / bs, bs);
    }
}

/// The blocks emitted after pushing `bufs`, in order, into a fresh queue
/// of block size `bs`.
pub open spec fn pushed_blocks(bufs: Seq<Seq<u8>>, bs: int) -> Seq<Seq<u8>>
    decreases bufs.len(),
{
    if bufs.len() == 0 {
        Seq::empty()
    } else {
        pushed_blocks(bufs.drop_last(), bs) + full_chunks(
            pushed_rem(bufs.drop_last(), bs) + bufs.last(),
            bs,
        )
    }
}

/// The bytes pending after pushing `bufs`, in order, into a fresh queue.
pub open spec fn pushed_rem(bufs: Seq<Seq<u8>>, bs: int) -> Seq<u8>
    decreases bufs.len(),
{
    if bufs.len() == 0 {
        Seq::empty()
    } else {
        chunk_rem(pushed_rem(bufs.drop_last(), bs) + bufs.last(), bs)
    }
}

/// Pushing buffers one by one emits exactly the chunks of their
/// concatenation and retains exactly its remainder.
proof fn lemma_pushes_are_chunks(bufs: Seq<Seq<u8>>, bs: int)
    requires
        bs >= 1,
    ensures
        pushed_blocks(bufs, bs) == full_chunks(concat_seqs(bufs), bs),
        pushed_rem(bufs, bs) == chunk_rem(concat_seqs(bufs), bs),
    decreases bufs.len(),
{
    if bufs.len() == 0 {
        assert(concat_seqs(bufs).len() as int / bs == 0) by {
            vstd::arithmetic::div_mod::lemma_basic_div(concat_seqs(bufs).len() as int, bs);
        }
        assert(pushed_blocks(bufs, bs) =~= full_chunks(concat_seqs(bufs), bs));
        assert(0 * bs == 0);
        assert(pushed_rem(bufs, bs) =~= chunk_rem(concat_seqs(bufs), bs));
    } else {
        let dl = bufs.drop_last();
        lemma_pushes_are_chunks(dl, bs);
        lemma_push_total(concat_seqs(dl), bufs.last(), bs);
        assert(concat_seqs(bufs) == concat_seqs(dl) + bufs.last());
    }
}

/// Rechunking fidelity: for any sequence of pushed buffers, the ordered
/// concatenation of every emitted block plus the final flush equals the
/// ordered concatenation of all pushed bytes, every emitted block is
/// exactly one block long, and the flush is shorter than a block.
pub proof fn lemma_rechunk_fidelity(bufs: Seq<Seq<u8>>, bs: int)
    requires
        bs >= 1,
    ensures
        concat_seqs(pushed_blocks(bufs, bs)) + pushed_rem(bufs, bs) == concat_seqs(bufs),
        forall|i: int|
            0 <= i < pushed_blocks(bufs, bs).len() ==> (#[trigger] pushed_blocks(bufs, bs)[i]).len()
                == bs,
        pushed_rem(bufs, bs).len() < bs,
{
    lemma_pushes_are_chunks(bufs, bs);
    lemma_chunks_concat(concat_seqs(bufs), bs);
    let s = concat_seqs(bufs);
    lemma_div_mul_le(s.len() as int, bs);
    assert forall|i: int| 0 <= i < full_chunks(s, bs).len() implies (#[trigger] full_chunks(
        s,
        bs,
    )[i]).len() == bs by {
        lemma_mul_is_distributive_add_other_way(bs, i, 1);
        lemma_mul_nonneg_local(i, bs);
        lemma_mul_inequality(i + 1, s.len() as int / bs, bs);
    }
}

/// The rechunking queue: a fixed output block size and the pending tail.
pub struct IoQueue {
    pending: Vec<u8>,
    bs: usize,
}

impl IoQueue {
    /// The bytes pushed but not yet emitted.
    pub closed spec fn pending_view(&self) -> Seq<u8> {
        self.pending@
    }

    /// The configured output block size.
    pub closed spec fn bs_spec(&self) -> int {
        self.bs as int
    }

    /// The queue's invariant: a positive block size, and strictly less
    /// than one block pending.
    pub open spec fn wf(&self) -> bool {
        self.bs_spec() >= 1 && self.pending_view().len() < self.bs_spec()
    }

    /// A queue emitting blocks of `obs` bytes.
    pub fn new(obs: usize) -> (r: IoQueue)
        requires
            obs >= 1,
        ensures
            r.wf(),
            r.bs_spec() == obs,
            r.pending_view() == Seq::<u8>::empty(),
    {
        let r = IoQueue { pending: Vec::new(), bs: obs };
        proof {
            assert(r.pending_view() =~= Seq::<u8>::empty());
        }
        r
    }

    /// Push one input buffer; the returned blocks are every full output
    /// block of the pending bytes followed by the buffer, in byte order.
    /// A buffer of exactly one block with nothing pending is passed
    /// through without copying.
    pub fn push(&mut self, buff: Vec<u8>) -> (out: Vec<Vec<u8>>)
        requires
            old(self).wf(),
        ensures
            final(self).wf(),
            final(self).bs_spec() == old(self).bs_spec(),
            out.deep_view() == full_chunks(
                old(self).pending_view() + buff@,
                old(self).bs_spec(),
            ),
            final(self).pending_view() == chunk_rem(
                old(self).pending_view() + buff@,
                old(self).bs_spec(),
            ),
    {
        let ghost total = self.pending@ + buff@;
        let ghost bs0 = self.bs as int;
        if buff.len() == self.bs && self.pending.len() == 0 {
            proof {
                assert(total =~= buff@);
                assert(buff@.len() == bs0);
                assert(total.len() as int == bs0);
                assert(bs0 / bs0 == 1) by {
                    vstd::arithmetic::div_mod::lemma_div_by_self(bs0);
                }
                assert(total.len() as int / bs0 == 1);
            }
            let ghost moved = buff;
            let mut out: Vec<Vec<u8>> = Vec::new();
            let ghost out0 = out;
            out.push(buff);
            proof {
                lemma_comps_deep_push(out0, out, moved);
                assert(out0.deep_view() =~= Seq::<Seq<u8>>::empty());
                assert(0 * bs0 == 0);
                assert((0 + 1) * bs0 == bs0);
                assert(1 * bs0 == bs0);
                assert(full_chunks(total, bs0).len() == 1);
                assert(full_chunks(total, bs0)[0] == total.subrange(0 * bs0, (0 + 1) * bs0));
                assert(total.subrange(0 * bs0, (0 + 1) * bs0) =~= total);
                assert(out.deep_view() =~= full_chunks(total, bs0));
                assert(total.len() as int / bs0 * bs0 == bs0);
                assert(self.pending@ =~= chunk_rem(total, bs0));
            }
            return out;
        }
        let mut incoming = buff;
        self.pending.append(&mut incoming);
        proof {
            assert(self.pending@ == total);
        }
        let total_len = self.pending.len();
        let n = total_len / self.bs;
        proof {
            lemma_div_mul_le(total.len() as int, bs0);
            assert(total.len() <= usize::MAX);
        }
        let mut out: Vec<Vec<u8>> = Vec::new();
        proof {
            assert(out.deep_view() =~= full_chunks(total, bs0).take(0));
        }
        let mut k: usize = 0;
        while k < n
            invariant
                k <= n,
                self.bs as int == bs0,
                bs0 >= 1,
                self.pending@ == total,
                total.len() <= usize::MAX,
                n as int == total.len() as int / bs0,
                n as int * bs0 <= total.len(),
                out.deep_view() == full_chunks(total, bs0).take(k as int),
            decreases n - k,
        {
            proof {
                lemma_mul_inequality(k as int + 1, n as int, bs0);
                lemma_mul_is_distributive_add_other_way(bs0, k as int, 1);
                assert((k as int + 1) * bs0 == k as int * bs0 + bs0);
            }
            let start = k * self.bs;
            let mut block: Vec<u8> = Vec::new();
            let mut j: usize = 0;
            while j < self.bs
                invariant
                    j <= self.bs,
                    self.bs as int == bs0,
                    self.pending@ == total,
                    total.len() <= usize::MAX,
                    start as int == k as int * bs0,
                    start as int + bs0 <= total.len(),
                    block@ == total.subrange(start as int, start as int + j as int),
                decreases self.bs - j,
            {
                block.push(self.pending[start + j]);
                j = j + 1;
                proof {
                    assert(block@ =~= total.subrange(start as int, start as int + j as int));
                }
            }
            let ghost blk = block;
            let ghost out_before = out;
            out.push(block);
            proof {
                lemma_comps_deep_push(out_before, out, blk);
                assert(out_before.deep_view().len() == k as int);
                assert(blk@ == total.subrange(k as int * bs0, (k as int + 1) * bs0));
                assert(full_chunks(total, bs0)[k as int] == total.subrange(
                    k as int * bs0,
                    (k as int + 1) * bs0,
                ));
                assert(out.deep_view() =~= full_chunks(total, bs0).take(k as int + 1));
            }
            k = k + 1;
        }
        let start = n * self.bs;
        let mut rem: Vec<u8> = Vec::new();
        let mut j: usize = start;
        while j < self.pending.len()
            invariant
                start <= j <= self.pending@.len(),
                self.pending@ == total,
                start as int == total.len() as int / bs0 * bs0,
                rem@ == total.subrange(start as int, j as int),
            decreases self.pending.len() - j,
        {
            rem.push(self.pending[j]);
            j = j + 1;
            proof {
                assert(rem@ =~= total.subrange(start as int, j as int));
            }
        }
        proof {
            assert(rem@ =~= chunk_rem(total, bs0));
            assert(full_chunks(total, bs0).take(n as int) =~= full_chunks(total, bs0));
            assert(chunk_rem(total, bs0).len() < bs0);
        }
        self.pending = rem;
        out
    }

    /// Emit the pending tail as the final, possibly short, block.  After
    /// this the queue is empty; calling it on an empty queue emits
    /// nothing.
    pub fn finalize(&mut self) -> (out: Option<Vec<u8>>)
        requires
            old(self).wf(),
        ensures
            final(self).wf(),
            final(self).bs_spec() == old(self).bs_spec(),
            final(self).pending_view() == Seq::<u8>::empty(),
            match out {
                Some(b) => b@ == old(self).pending_view() && 0 < b@.len() < old(self).bs_spec(),
                None => old(self).pending_view().len() == 0,
            },
    {
        if self.pending.len() == 0 {
            proof {
                assert(self.pending@ =~= Seq::<u8>::empty());
            }
            None
        } else {
            let b = crate::paths::copy_bytes(&self.pending);
            self.pending.clear();
            proof {
                assert(self.pending@ =~= Seq::<u8>::empty());
            }
            Some(b)
        }
    }
}

} // verus!
