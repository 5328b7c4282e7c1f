//! The reverse line source: yields the physical lines of a byte stream in
//! last-to-first order, reading backward from the end of the data in
//! fixed-size blocks and carrying partial lines across block boundaries.

use vstd::prelude::*;
use crate::blocks::RevLineBuffer;
use crate::blocks::effective_block;

verus! {

/// The line delimiter byte.
pub const NL: u8 = 0x0a;

/// Index of the last delimiter in `s`, or -1 when `s` holds none.
pub open spec fn rfind_nl(s: Seq<u8>) -> int
    decreases s.len(),
{
    if s.len() == 0 {
        -1
    } else if s.last() == NL {
        s.len() - 1
    } else {
        rfind_nl(s.drop_last())
    }
}

/// Where the last delimiter stands: `rfind_nl` points at a delimiter inside
/// `s`, with none after it, or at -1 when `s` holds none at all.
pub proof fn lemma_rfind_nl_bounds(s: Seq<u8>)
    ensures
        -1 <= rfind_nl(s) < s.len(),
        rfind_nl(s) >= 0 ==> s[rfind_nl(s)] == NL,
        forall|k: int| rfind_nl(s) < k < s.len() ==> s[k] != NL,
    decreases s.len(),
{
    if s.len() == 0 {
    } else if s.last() == NL {
    } else {
        lemma_rfind_nl_bounds(s.drop_last());
        assert(forall|k: int| 0 <= k < s.len() - 1 ==> s.drop_last()[k] == s[k]);
    }
}

/// A delimiter at `j` with none after it pins `rfind_nl` to `j`.
pub proof fn lemma_rfind_nl_at(s: Seq<u8>, j: int)
    requires
        0 <= j < s.len(),
        s[j] == NL,
        forall|k: int| j < k < s.len() ==> s[k] != NL,
    ensures
        rfind_nl(s) == j,
    decreases s.len(),
{
    if j == s.len() - 1 {
    } else {
        assert(s.last() != NL);
        assert(forall|k: int| 0 <= k < s.len() - 1 ==> s.drop_last()[k] == s[k]);
        lemma_rfind_nl_at(s.drop_last(), j);
    }
}

/// With no delimiter anywhere, `rfind_nl` is -1.
pub proof fn lemma_rfind_nl_none(s: Seq<u8>)
    requires
        forall|k: int| 0 <= k < s.len() ==> s[k] != NL,
    ensures
        rfind_nl(s) == -1,
    decreases s.len(),
{
    if s.len() > 0 {
        assert(forall|k: int| 0 <= k < s.len() - 1 ==> s.drop_last()[k] == s[k]);
        lemma_rfind_nl_none(s.drop_last());
    }
}

/// The pieces of `s` between delimiters, in last-to-first order; the bytes
/// before the first delimiter are the final piece. `s` carries no
/// trailing-delimiter convention here: an empty `s` yields one empty piece.
pub open spec fn rev_split(s: Seq<u8>) -> Seq<Seq<u8>>
    decreases s.len(),
    via rev_split_decreases
{
    let j = rfind_nl(s);
    if j < 0 {
        seq![s]
    } else {
        seq![s.subrange(j + 1, s.len() as int)] + rev_split(s.subrange(0, j))
    }
}

#[via_fn]
proof fn rev_split_decreases(s: Seq<u8>) {
    lemma_rfind_nl_bounds(s);
}

/// A reverse split always yields at least one piece.
pub proof fn lemma_rev_split_nonempty(s: Seq<u8>)
    ensures
        rev_split(s).len() >= 1,
{
    lemma_rfind_nl_bounds(s);
}

/// `s` holds no line delimiter.
pub open spec fn nl_free(s: Seq<u8>) -> bool {
    forall|k: int| 0 <= k < s.len() ==> s[k] != NL
}

/// The final piece of a reverse split, the bytes before the first delimiter,
/// holds no delimiter itself.
pub proof fn lemma_rev_split_last_nl_free(s: Seq<u8>)
    ensures
        nl_free(rev_split(s).last()),
    decreases s.len(),
{
    lemma_rfind_nl_bounds(s);
    let j = rfind_nl(s);
    if j < 0 {
        assert(rev_split(s).last() == s);
    } else {
        lemma_rev_split_last_nl_free(s.subrange(0, j));
        lemma_rev_split_nonempty(s.subrange(0, j));
        assert(rev_split(s).last() == rev_split(s.subrange(0, j)).last());
    }
}

/// Splitting a concatenation: the later part's complete pieces come first,
/// and its head piece merges into the earlier part's split.
pub proof fn lemma_rev_split_concat(p: Seq<u8>, b: Seq<u8>)
    ensures
        rev_split(p + b) == rev_split(b).drop_last() + rev_split(p + rev_split(b).last()),
    decreases b.len(),
{
    lemma_rfind_nl_bounds(b);
    let j = rfind_nl(b);
    if j < 0 {
        assert(rev_split(b) == seq![b]);
        assert(rev_split(b).last() == b);
        assert(rev_split(b).drop_last() =~= Seq::<Seq<u8>>::empty());
        assert(Seq::<Seq<u8>>::empty() + rev_split(p + b) =~= rev_split(p + b));
    } else {
        let z = p + b;
        let zj = p.len() + j;
        assert(z[zj] == NL);
        assert(forall|k: int| zj < k < z.len() ==> z[k] == b[k - p.len()]);
        lemma_rfind_nl_at(z, zj);
        assert(rev_split(z) == seq![z.subrange(zj + 1, z.len() as int)] + rev_split(
            z.subrange(0, zj),
        ));
        let front = b.subrange(0, j);
        assert(z.subrange(zj + 1, z.len() as int) =~= b.subrange(j + 1, b.len() as int));
        assert(z.subrange(0, zj) =~= p + front);
        lemma_rev_split_concat(p, front);
        lemma_rev_split_nonempty(front);
        assert(rev_split(b) == seq![b.subrange(j + 1, b.len() as int)] + rev_split(front));
        assert(rev_split(b).last() == rev_split(front).last());
        assert(rev_split(b).drop_last() =~= seq![b.subrange(j + 1, b.len() as int)] + rev_split(
            front,
        ).drop_last());
        assert(rev_split(z) =~= rev_split(b).drop_last() + rev_split(p + rev_split(b).last()));
    }
}

/// `s` with one trailing delimiter removed, if it ends with one.
pub open spec fn strip_trailing_nl(s: Seq<u8>) -> Seq<u8> {
    if s.len() > 0 && s.last() == NL {
        s.drop_last()
    } else {
        s
    }
}

/// The physical lines of a history file's bytes, in last-to-first order.
/// One trailing delimiter at end-of-data yields no spurious empty final
/// line, and empty data has no lines at all.
pub open spec fn rev_lines_of(data: Seq<u8>) -> Seq<Seq<u8>> {
    if data.len() == 0 {
        seq![]
    } else {
        rev_split(strip_trailing_nl(data))
    }
}

/// Size of the blocks handed backward to the splitter, an internal tuning
/// constant rather than a correctness requirement.
pub const BLOCK_SIZE: usize = 4096;

/// Produces the physical lines of a byte stream from the last line to the
/// first, handing fixed-size blocks backward to a [`RevLineBuffer`] and
/// never buffering more than one block plus the carried partial line.
pub struct RevLineSource {
    data: Vec<u8>,
    /// Bytes `data[..pos]` have not been handed to the splitter yet.
    pos: usize,
    splitter: RevLineBuffer,
}

impl View for RevLineSource {
    type V = Seq<Seq<u8>>;

    /// The lines still to be produced, in production (last-to-first) order.
    closed spec fn view(&self) -> Seq<Seq<u8>> {
        if self.splitter.finished() {
            self.splitter.pending()
        } else if !self.splitter.seen() {
            rev_lines_of(self.data@.subrange(0, self.pos as int))
        } else {
            self.splitter.pending() + rev_split(
                self.data@.subrange(0, self.pos as int) + self.splitter.carry_bytes(),
            )
        }
    }
}

impl RevLineSource {
    /// The splitter's state fits where the backward pass stands in the data.
    pub closed spec fn wf(self) -> bool {
        &&& self.pos <= self.data@.len()
        &&& (!self.splitter.seen() ==> self.splitter.pending() == Seq::<Seq<u8>>::empty()
            && self.splitter.carry_bytes() == Seq::<u8>::empty() && self.pos == self.data@.len())
        &&& (self.splitter.finished() ==> self.pos == 0)
        &&& (self.splitter.seen() && !self.splitter.finished() ==> nl_free(
            self.splitter.carry_bytes(),
        ))
    }

    /// Starts a reverse pass over `data`, positioned at end-of-data.
    pub fn new(data: Vec<u8>) -> (src: RevLineSource)
        ensures
            src.wf(),
            src@ == rev_lines_of(data@),
    {
        let n = data.len();
        let src = RevLineSource { data, pos: n, splitter: RevLineBuffer::new() };
        proof {
            assert(src.data@.subrange(0, n as int) =~= src.data@);
        }
        src
    }

    /// Produces the next line moving toward the beginning of the data, or
    /// `None` once the beginning has been passed.
    pub fn next(&mut self) -> (r: Option<Vec<u8>>)
        requires
            old(self).wf(),
        ensures
            final(self).wf(),
            old(self)@.len() == 0 ==> r is None && final(self)@ == old(self)@,
            old(self)@.len() > 0 ==> (r matches Some(l) && l@ == old(self)@[0] && final(self)@
                == old(self)@.drop_first()),
    {
        while !self.splitter.has_line() && self.pos > 0
            invariant
                self.wf(),
                self@ == old(self)@,
            decreases self.pos,
        {
            let take: usize = if self.pos >= BLOCK_SIZE {
                BLOCK_SIZE
            } else {
                self.pos
            };
            let start = self.pos - take;
            let ghost pos0: int = self.pos as int;
            let mut block: Vec<u8> = Vec::new();
            let mut k: usize = start;
            while k < self.pos
                invariant
                    start <= k <= self.pos,
                    self.pos <= self.data@.len(),
                    block@ == self.data@.subrange(start as int, k as int),
                decreases self.pos - k,
            {
                block.push(self.data[k]);
                proof {
                    assert(block@ =~= self.data@.subrange(start as int, k + 1));
                }
                k = k + 1;
            }
            let ghost seen0 = self.splitter.seen();
            let ghost carry0 = self.splitter.carry_bytes();
            let ghost pend0 = self.splitter.pending();
            self.splitter.push_block(block);
            self.pos = start;
            proof {
                let d = self.data@;
                let p = d.subrange(0, start as int);
                let blk = d.subrange(start as int, pos0);
                let b = effective_block(blk, seen0);
                let whole = b + carry0;
                lemma_rev_split_concat(p, whole);
                lemma_rev_split_last_nl_free(whole);
                assert(self.splitter.pending() == pend0 + rev_split(whole).drop_last());
                assert(self.splitter.carry_bytes() == rev_split(whole).last());
                assert(self@ =~= pend0 + (rev_split(whole).drop_last() + rev_split(
                    p + rev_split(whole).last(),
                )));
                if seen0 {
                    assert(p + whole =~= d.subrange(0, pos0) + carry0);
                    assert(self@ =~= pend0 + rev_split(p + whole));
                } else {
                    assert(pend0 =~= Seq::<Seq<u8>>::empty());
                    assert(carry0 =~= Seq::<u8>::empty());
                    assert(pos0 == d.len());
                    assert(blk.len() > 0);
                    assert(whole =~= b);
                    assert(d.subrange(0, pos0) =~= p + blk);
                    assert(d.subrange(0, pos0).last() == blk.last());
                    assert(strip_trailing_nl(d.subrange(0, pos0)) =~= p + b);
                    assert(self@ =~= rev_split(p + whole));
                    assert(rev_lines_of(d.subrange(0, pos0)) == rev_split(p + b));
                }
            }
        }
        if !self.splitter.has_line() && !self.splitter.is_finished() {
            let ghost seenf = self.splitter.seen();
            let ghost carryf = self.splitter.carry_bytes();
            let ghost pendf = self.splitter.pending();
            self.splitter.finish();
            proof {
                if seenf {
                    assert(self.data@.subrange(0, 0) + carryf =~= carryf);
                    lemma_rfind_nl_none(carryf);
                    assert(rev_split(carryf) == seq![carryf]);
                    assert(self@ =~= pendf + seq![carryf]);
                } else {
                    assert(self.data@.subrange(0, 0).len() == 0);
                    assert(self@ =~= pendf);
                }
            }
        }
        let ghost pend = self.splitter.pending();
        let ghost fin = self.splitter.finished();
        let ghost pref = self.data@.subrange(0, self.pos as int);
        let ghost car = self.splitter.carry_bytes();
        proof {
            if !fin {
                lemma_rev_split_nonempty(pref + car);
                assert(pend.len() > 0);
                assert(self@ == pend + rev_split(pref + car));
                assert(self@[0] == pend[0]);
            }
        }
        let r = self.splitter.pop_line();
        proof {
            if !fin {
                assert(self@ =~= pend.drop_first() + rev_split(pref + car));
                assert(self@ =~= old(self)@.drop_first());
            } else {
                if pend.len() > 0 {
                    assert(self@ =~= old(self)@.drop_first());
                }
            }
        }
        r
    }
}

} // verus!
