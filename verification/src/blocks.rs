//! Bounded backward buffering: a machine that is fed the blocks of a byte
//! stream from the last block to the first, splits them on the line
//! delimiter, and carries each block's head partial line across the block
//! boundary. The machine makes every splitting decision; whoever owns the
//! stream only hands blocks in and takes lines out.

use vstd::prelude::*;
use crate::lines::NL;
use crate::lines::lemma_rfind_nl_at;
use crate::lines::lemma_rfind_nl_none;
use crate::lines::rev_split;
use crate::lines::strip_trailing_nl;

verus! {

/// What a pushed block contributes: the first nonempty block holds the
/// stream's end, where one trailing delimiter is dropped; every later block
/// counts whole.
pub open spec fn effective_block(block: Seq<u8>, seen: bool) -> Seq<u8> {
    if seen {
        block
    } else {
        strip_trailing_nl(block)
    }
}

/// Splits backward-fed blocks into lines, buffering only the current block
/// and the partial line carried over its boundary.
pub struct RevLineBuffer {
    /// Complete lines ready to hand out, most recent first.
    ready: Vec<Vec<u8>>,
    /// The partial line carried across block boundaries: the bytes before
    /// the first delimiter of everything received so far.
    carry: Vec<u8>,
    /// Whether a nonempty block has been received.
    seen: bool,
    /// Whether the beginning of the stream has been declared.
    finished: bool,
}

impl RevLineBuffer {
    /// The complete lines ready to hand out, most recent first.
    pub closed spec fn pending(self) -> Seq<Seq<u8>> {
        self.ready@.map_values(|v: Vec<u8>| v@)
    }

    /// The carried partial line.
    pub closed spec fn carry_bytes(self) -> Seq<u8> {
        self.carry@
    }

    /// Whether a nonempty block has been received.
    pub closed spec fn seen(self) -> bool {
        self.seen
    }

    /// Whether the beginning of the stream has been declared.
    pub closed spec fn finished(self) -> bool {
        self.finished
    }

    /// A machine that has received nothing.
    pub fn new() -> (m: RevLineBuffer)
        ensures
            m.pending() == Seq::<Seq<u8>>::empty(),
            m.carry_bytes() == Seq::<u8>::empty(),
            !m.seen(),
            !m.finished(),
    {
        let m = RevLineBuffer { ready: Vec::new(), carry: Vec::new(), seen: false, finished: false };
        proof {
            assert(m.pending() =~= Seq::<Seq<u8>>::empty());
            assert(m.carry_bytes() =~= Seq::<u8>::empty());
        }
        m
    }

    /// Takes the block that stands just before everything received so far.
    /// Its complete lines queue up behind the pending ones; the bytes before
    /// its first delimiter become the new carried remainder.
    pub fn push_block(&mut self, block: Vec<u8>)
        requires
            !old(self).finished(),
        ensures
            !final(self).finished(),
            final(self).seen() == (old(self).seen() || block@.len() > 0),
            ({
                let whole = effective_block(block@, old(self).seen()) + old(self).carry_bytes();
                final(self).pending() == old(self).pending() + rev_split(whole).drop_last()
                    && final(self).carry_bytes() == rev_split(whole).last()
            }),
    {
        let mut work = block;
        if !self.seen {
            if work.len() > 0 {
                self.seen = true;
                if work[work.len() - 1] == NL {
                    let _ = work.pop();
                }
            }
        }
        proof {
            assert(work@ =~= effective_block(block@, old(self).seen()));
        }
        work.append(&mut self.carry);
        let ghost whole = work@;
        let ghost opending = self.pending();
        proof {
            assert(self.pending() + rev_split(work@) =~= opending + rev_split(whole));
        }
        loop
            invariant
                self.seen == (old(self).seen() || block@.len() > 0),
                !self.finished,
                self.carry@ == Seq::<u8>::empty(),
                self.pending() + rev_split(work@) == opending + rev_split(whole),
            ensures
                self.seen == (old(self).seen() || block@.len() > 0),
                !self.finished,
                self.carry@ == Seq::<u8>::empty(),
                self.pending() + seq![work@] == opending + rev_split(whole),
            decreases work@.len(),
        {
            // Find the last delimiter of the working buffer.
            let mut j: usize = work.len();
            while j > 0 && work[j - 1] != NL
                invariant
                    j <= work@.len(),
                    forall|k: int| j <= k < work@.len() ==> work@[k] != NL,
                decreases j,
            {
                j = j - 1;
            }
            if j == 0 {
                proof {
                    lemma_rfind_nl_none(work@);
                    assert(rev_split(work@) == seq![work@]);
                }
                break;
            }
            // The bytes after that delimiter are the next complete line.
            let mut piece: Vec<u8> = Vec::new();
            let mut k: usize = j;
            while k < work.len()
                invariant
                    j <= k <= work@.len(),
                    piece@ == work@.subrange(j as int, k as int),
                decreases work@.len() - k,
            {
                piece.push(work[k]);
                proof {
                    assert(piece@ =~= work@.subrange(j as int, k + 1));
                }
                k = k + 1;
            }
            proof {
                lemma_rfind_nl_at(work@, j - 1);
                assert(piece@ =~= work@.subrange(j as int, work@.len() as int));
                assert(rev_split(work@) == seq![piece@] + rev_split(work@.subrange(0, j - 1)));
            }
            let ghost before = self.pending();
            let ghost wbefore = work@;
            self.ready.push(piece);
            work.truncate(j - 1);
            proof {
                assert(self.pending() =~= before.push(wbefore.subrange(j as int,
                    wbefore.len() as int)));
                assert(work@ =~= wbefore.subrange(0, j - 1));
                assert(self.pending() + rev_split(work@) =~= before + rev_split(wbefore));
            }
        }
        self.carry = work;
        proof {
            assert(self.pending() + seq![self.carry@] =~= opending + rev_split(whole));
            assert(rev_split(whole).len() >= 1);
            assert(self.pending() =~= (opending + rev_split(whole)).drop_last());
            assert(self.carry@ == (opending + rev_split(whole)).last());
            assert((opending + rev_split(whole)).drop_last() =~= opending + rev_split(
                whole,
            ).drop_last());
        }
    }

    /// Whether a complete line is ready to hand out.
    pub fn has_line(&self) -> (r: bool)
        ensures
            r == (self.pending().len() > 0),
    {
        self.ready.len() > 0
    }

    /// Whether the beginning of the stream has been declared.
    pub fn is_finished(&self) -> (r: bool)
        ensures
            r == self.finished(),
    {
        self.finished
    }

    /// Declares the beginning of the stream reached: the carried remainder
    /// becomes the stream's first line, unless nothing was ever received.
    pub fn finish(&mut self)
        requires
            !old(self).finished(),
        ensures
            final(self).finished(),
            final(self).seen() == old(self).seen(),
            final(self).carry_bytes() == Seq::<u8>::empty(),
            old(self).seen() ==> final(self).pending() == old(self).pending() + seq![
                old(self).carry_bytes(),
            ],
            !old(self).seen() ==> final(self).pending() == old(self).pending(),
    {
        self.finished = true;
        if self.seen {
            let mut last: Vec<u8> = Vec::new();
            core::mem::swap(&mut last, &mut self.carry);
            let ghost before = self.pending();
            self.ready.push(last);
            proof {
                assert(self.pending() =~= before.push(old(self).carry_bytes()));
                assert(before.push(old(self).carry_bytes()) =~= before + seq![
                    old(self).carry_bytes(),
                ]);
                assert(self.carry@ =~= Seq::<u8>::empty());
            }
        } else {
            self.carry.clear();
        }
    }

    /// Hands out the next pending line, most recent first.
    pub fn pop_line(&mut self) -> (r: Option<Vec<u8>>)
        ensures
            final(self).carry_bytes() == old(self).carry_bytes(),
            final(self).seen() == old(self).seen(),
            final(self).finished() == old(self).finished(),
            old(self).pending().len() == 0 ==> r is None && final(self).pending() == old(
                self,
            ).pending(),
            old(self).pending().len() > 0 ==> (r matches Some(l) && l@ == old(self).pending()[0]
                && final(self).pending() == old(self).pending().drop_first()),
    {
        if self.ready.len() == 0 {
            None
        } else {
            let v = self.ready.remove(0);
            proof {
                assert(self.pending() =~= old(self).pending().drop_first());
            }
            Some(v)
        }
    }
}

} // verus!
