//! A forward-only read position over a borrowed byte buffer, with the
//! fixed-width reads that the decoders share.

use vstd::prelude::*;
use vstd::slice::slice_subrange;
use vstd::slice::slice_to_vec;

verus! {

/// `n` bytes taken from `pos` onward, with the position after them.
pub open spec fn take_at(data: Seq<u8>, pos: int, n: int) -> Option<(Seq<u8>, int)> {
    if 0 <= pos && 0 <= n && pos + n <= data.len() {
        Some((data.subrange(pos, pos + n), pos + n))
    } else {
        None
    }
}

/// The unsigned big-endian number that the bytes spell.
pub open spec fn be_nat(b: Seq<u8>) -> nat
    decreases b.len(),
{
    if b.len() == 0 {
        0
    } else {
        be_nat(b.drop_last()) * 256 + b.last() as nat
    }
}

/// `256` to the power `n`.
pub open spec fn pow256(n: nat) -> nat
    decreases n,
{
    if n == 0 {
        1
    } else {
        256 * pow256((n - 1) as nat)
    }
}

/// A big-endian number of `n` bytes read from `pos`, with the position after it.
pub open spec fn be_at(data: Seq<u8>, pos: int, n: int) -> Option<(nat, int)> {
    match take_at(data, pos, n) {
        Some((b, p)) => Some((be_nat(b), p)),
        None => None,
    }
}

pub proof fn lemma_be_nat_bound(b: Seq<u8>)
    ensures
        be_nat(b) < pow256(b.len()),
    decreases b.len(),
{
    if b.len() > 0 {
        lemma_be_nat_bound(b.drop_last());
        let a = be_nat(b.drop_last());
        let p = pow256(b.drop_last().len());
        let l = b.last() as nat;
        assert(a * 256 + l < 256 * p) by (nonlinear_arith)
            requires
                a < p,
                l < 256,
        ;
    }
}

/// A read position over `data`. The position only moves forward.
pub struct ByteCursor<'a> {
    data: &'a [u8],
    pos: usize,
}

impl<'a> ByteCursor<'a> {
    /// The bytes being read.
    pub closed spec fn bytes(&self) -> Seq<u8> {
        self.data@
    }

    /// The index of the next byte to read.
    pub closed spec fn at(&self) -> int {
        self.pos as int
    }

    /// The cursor's position lies within its buffer.
    pub open spec fn wf(&self) -> bool {
        0 <= self.at() <= self.bytes().len()
    }

    pub fn new(data: &'a [u8]) -> (r: ByteCursor<'a>)
        ensures
            r.bytes() == data@,
            r.at() == 0,
            r.wf(),
    {
        ByteCursor { data, pos: 0 }
    }

    pub fn position(&self) -> (r: usize)
        ensures
            r as int == self.at(),
    {
        self.pos
    }

    /// The number of unread bytes.
    pub fn remaining(&self) -> (r: usize)
        requires
            self.wf(),
        ensures
            r as int == self.bytes().len() - self.at(),
    {
        self.data.len() - self.pos
    }

    /// Takes the next `n` bytes, or fails when fewer remain.
    pub fn take(&mut self, n: usize) -> (r: Option<&'a [u8]>)
        requires
            old(self).wf(),
        ensures
            final(self).wf(),
            final(self).bytes() == old(self).bytes(),
            match r {
                Some(s) => take_at(old(self).bytes(), old(self).at(), n as int) == Some(
                    (s@, final(self).at()),
                ),
                None => take_at(old(self).bytes(), old(self).at(), n as int) is None
                    && final(self).at() == old(self).at(),
            },
    {
        if n <= self.data.len() - self.pos {
            let s = slice_subrange(self.data, self.pos, self.pos + n);
            self.pos = self.pos + n;
            Some(s)
        } else {
            None
        }
    }

    /// Reads one byte.
    pub fn read_u8(&mut self) -> (r: Option<u8>)
        requires
            old(self).wf(),
        ensures
            final(self).wf(),
            final(self).bytes() == old(self).bytes(),
            match r {
                Some(b) => take_at(old(self).bytes(), old(self).at(), 1) == Some(
                    (seq![b], final(self).at()),
                ),
                None => take_at(old(self).bytes(), old(self).at(), 1) is None
                    && final(self).at() == old(self).at(),
            },
    {
        if self.pos < self.data.len() {
            let b = self.data[self.pos];
            self.pos = self.pos + 1;
            proof {
                assert(self.data@.subrange(self.pos - 1, self.pos as int) =~= seq![b]);
            }
            Some(b)
        } else {
            None
        }
    }

    /// Reads an unsigned big-endian number of `n` bytes.
    pub fn read_be(&mut self, n: usize) -> (r: Option<u64>)
        requires
            old(self).wf(),
            n <= 8,
        ensures
            final(self).wf(),
            final(self).bytes() == old(self).bytes(),
            match r {
                Some(v) => be_at(old(self).bytes(), old(self).at(), n as int) == Some(
                    (v as nat, final(self).at()),
                ) && (v as nat) < pow256(n as nat),
                None => be_at(old(self).bytes(), old(self).at(), n as int) is None
                    && final(self).at() == old(self).at(),
            },
    {
        let bytes = match self.take(n) {
            Some(b) => b,
            None => return None,
        };
        let mut v: u64 = 0;
        let mut i: usize = 0;
        while i < n
            invariant
                i <= n <= 8,
                bytes@.len() == n,
                v as nat == be_nat(bytes@.subrange(0, i as int)),
            decreases n - i,
        {
            proof {
                let pre = bytes@.subrange(0, i as int);
                lemma_be_nat_bound(pre);
                assert(pow256(i as nat) <= pow256(7)) by {
                    lemma_pow256_mono(i as nat, 7);
                }
                reveal_with_fuel(pow256, 8);
                assert(pow256(7) == 72057594037927936);
                assert(bytes@.subrange(0, i + 1).drop_last() =~= pre);
            }
            v = v * 256 + bytes[i] as u64;
            i = i + 1;
        }
        proof {
            assert(bytes@.subrange(0, n as int) =~= bytes@);
            lemma_be_nat_bound(bytes@);
        }
        Some(v)
    }
}

/// Two bytes spell the first times 256 plus the second.
pub proof fn lemma_be_nat_two(b: Seq<u8>)
    requires
        b.len() == 2,
    ensures
        be_nat(b) == b[0] * 256 + b[1],
{
    reveal_with_fuel(be_nat, 3);
    assert(b.drop_last().drop_last() =~= Seq::<u8>::empty());
}

pub proof fn lemma_pow256_mono(a: nat, b: nat)
    requires
        a <= b,
    ensures
        pow256(a) <= pow256(b),
    decreases b,
{
    if a < b {
        lemma_pow256_mono(a, (b - 1) as nat);
    }
}

} // verus!
