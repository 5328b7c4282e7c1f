//! The command reassembler for the annotated history layout: entries of the
//! form `: <timestamp>:<duration>;<command>`, possibly continued over
//! several physical lines, read back most recent entry first.

use vstd::prelude::*;
use crate::Error;
use crate::decode::decode_meta;
use crate::decode::spec_decode;
use crate::lines::NL;
use crate::lines::RevLineSource;
use crate::lines::rev_lines_of;
use crate::text::lossy_of;
use crate::text::lossy_string;

verus! {

/// An ASCII decimal digit.
pub open spec fn is_digit(b: u8) -> bool {
    48 <= b <= 57
}

/// `i` and `j` witness the command-start pattern in `s`: a colon and a
/// space, digits up to a colon at `i`, digits up to a semicolon at `j`.
pub open spec fn start_witness(s: Seq<u8>, i: int, j: int) -> bool {
    &&& 3 <= i
    &&& i + 1 < j
    &&& j < s.len()
    &&& s[0] == 58u8
    &&& s[1] == 32u8
    &&& (forall|k: int| 2 <= k < i ==> is_digit(s[k]))
    &&& s[i] == 58u8
    &&& (forall|k: int| i + 1 <= k < j ==> is_digit(s[k]))
    &&& s[j] == 59u8
}

/// Whether a decoded line begins a history entry in the annotated layout:
/// a colon and a space, one or more digits (the timestamp), a colon, one or
/// more digits (the duration), then a semicolon, then anything.
pub open spec fn is_cmd_start(s: Seq<u8>) -> bool {
    exists|i: int, j: int| start_witness(s, i, j)
}

/// Tests a decoded line against the command-start pattern.
pub fn is_command_start(line: &Vec<u8>) -> (r: bool)
    ensures
        r == is_cmd_start(line@),
{
    let ghost s = line@;
    let n = line.len();
    if n < 6 {
        proof {
            assert forall|i: int, j: int| !start_witness(s, i, j) by {}
        }
        return false;
    }
    if line[0] != 58 || line[1] != 32 {
        proof {
            assert forall|i: int, j: int| !start_witness(s, i, j) by {}
        }
        return false;
    }
    // Scan the timestamp digits.
    let mut p: usize = 2;
    while p < n && line[p] >= 48 && line[p] <= 57
        invariant
            2 <= p <= n,
            n == line@.len(),
            s == line@,
            forall|k: int| 2 <= k < p ==> is_digit(s[k]),
        decreases n - p,
    {
        p = p + 1;
    }
    if p == 2 {
        proof {
            assert(!is_digit(s[2]));
            assert forall|i: int, j: int| !start_witness(s, i, j) by {
                if start_witness(s, i, j) {
                    assert(is_digit(s[2]));
                }
            }
        }
        return false;
    }
    if p == n {
        proof {
            assert forall|i: int, j: int| !start_witness(s, i, j) by {
                if start_witness(s, i, j) {
                    assert(2 <= i < p);
                    assert(is_digit(s[i]));
                }
            }
        }
        return false;
    }
    if line[p] != 58 {
        proof {
            assert(!is_digit(s[p as int]));
            assert forall|i: int, j: int| !start_witness(s, i, j) by {
                if start_witness(s, i, j) {
                    if i < p {
                        assert(is_digit(s[i]));
                    } else if i > p {
                        assert(is_digit(s[p as int]));
                    }
                }
            }
        }
        return false;
    }
    // Scan the duration digits.
    let mut q: usize = p + 1;
    while q < n && line[q] >= 48 && line[q] <= 57
        invariant
            p + 1 <= q <= n,
            n == line@.len(),
            s == line@,
            forall|k: int| p + 1 <= k < q ==> is_digit(s[k]),
        decreases n - q,
    {
        q = q + 1;
    }
    proof {
        // Any witness pair must put its first colon exactly at `p`.
        assert forall|i: int, j: int| start_witness(s, i, j) implies i == p by {
            if i < p {
                assert(is_digit(s[i]));
            } else if i > p {
                assert(is_digit(s[p as int]));
            }
        }
    }
    if q == p + 1 {
        proof {
            assert forall|i: int, j: int| !start_witness(s, i, j) by {
                if start_witness(s, i, j) {
                    assert(i == p);
                    assert(is_digit(s[p + 1]));
                    if q < n {
                        assert(!is_digit(s[q as int]));
                    }
                }
            }
        }
        return false;
    }
    if q == n {
        proof {
            assert forall|i: int, j: int| !start_witness(s, i, j) by {
                if start_witness(s, i, j) {
                    assert(i == p);
                    assert(p + 1 <= j < q);
                    assert(is_digit(s[j]));
                }
            }
        }
        return false;
    }
    if line[q] != 59 {
        proof {
            assert(!is_digit(s[q as int]));
            assert forall|i: int, j: int| !start_witness(s, i, j) by {
                if start_witness(s, i, j) {
                    assert(i == p);
                    if j < q {
                        assert(is_digit(s[j]));
                    } else if j > q {
                        assert(is_digit(s[q as int]));
                    }
                }
            }
        }
        return false;
    }
    proof {
        assert(start_witness(s, p as int, q as int));
    }
    true
}

/// A newer decoded line joined above already-accumulated text, the two
/// separated by one delimiter: continuation order is the file's own order.
pub open spec fn join_above(upper: Seq<u8>, lower: Seq<u8>) -> Seq<u8> {
    upper + seq![NL] + lower
}

/// Each raw line unescaped.
pub open spec fn decode_each(ls: Seq<Seq<u8>>) -> Seq<Seq<u8>> {
    ls.map_values(|l: Seq<u8>| spec_decode(l))
}

/// The commands that reassembly emits, in emission (most recent first)
/// order, for decoded lines `ls` given in last-to-first order, starting
/// with `buf` already accumulated; `has` says whether anything is
/// accumulated yet (an empty accumulated line counts). A command-start line
/// completes the entry it begins; lines left at the beginning of the file
/// with no start line of their own are emitted as one final entry.
pub open spec fn regroup(ls: Seq<Seq<u8>>, buf: Seq<u8>, has: bool) -> Seq<Seq<u8>>
    decreases ls.len(),
{
    if ls.len() == 0 {
        if has {
            seq![buf]
        } else {
            seq![]
        }
    } else {
        let joined = if has {
            join_above(ls[0], buf)
        } else {
            ls[0]
        };
        if is_cmd_start(ls[0]) {
            seq![joined] + regroup(ls.drop_first(), Seq::empty(), false)
        } else {
            regroup(ls.drop_first(), joined, true)
        }
    }
}

/// The command history carried by the raw bytes of an annotated-layout
/// file: its physical lines, each unescaped, grouped into entries at
/// command-start lines, most recent entry first.
pub open spec fn zsh_commands(data: Seq<u8>) -> Seq<Seq<u8>> {
    regroup(decode_each(rev_lines_of(data)), Seq::empty(), false)
}

/// Joins a newer decoded line above the accumulated text.
fn join_exec(upper: &Vec<u8>, lower: &Vec<u8>) -> (r: Vec<u8>)
    ensures
        r@ == join_above(upper@, lower@),
{
    let mut r: Vec<u8> = Vec::new();
    let mut k: usize = 0;
    while k < upper.len()
        invariant
            k <= upper.len(),
            r@ == upper@.subrange(0, k as int),
        decreases upper.len() - k,
    {
        r.push(upper[k]);
        proof {
            assert(r@ =~= upper@.subrange(0, k + 1));
        }
        k = k + 1;
    }
    proof {
        assert(r@ =~= upper@);
    }
    r.push(NL);
    let mut m: usize = 0;
    proof {
        assert(r@ =~= upper@ + seq![NL] + lower@.subrange(0, 0));
    }
    while m < lower.len()
        invariant
            m <= lower.len(),
            r@ == upper@ + seq![NL] + lower@.subrange(0, m as int),
        decreases lower.len() - m,
    {
        r.push(lower[m]);
        proof {
            assert(r@ =~= upper@ + seq![NL] + lower@.subrange(0, m + 1));
        }
        m = m + 1;
    }
    proof {
        assert(r@ =~= join_above(upper@, lower@));
    }
    r
}

/// Reassembles commands from raw physical lines handed to it one at a time
/// in last-to-first order: it decodes each line, recognizes entry starts,
/// and joins continuation lines. The machine makes every joining decision;
/// whoever owns the line source only hands lines in.
pub struct ZshReassembler {
    /// The in-progress entry: decoded lines already seen, in file order.
    buf: Vec<u8>,
    /// Whether `buf` holds accumulated lines (an empty line counts too).
    has: bool,
}

impl ZshReassembler {
    /// The accumulated text of the in-progress entry.
    pub closed spec fn acc(self) -> Seq<u8> {
        self.buf@
    }

    /// Whether any line has been accumulated (an empty line counts too).
    pub closed spec fn has_acc(self) -> bool {
        self.has
    }

    /// A reassembler with nothing accumulated.
    pub fn new() -> (m: ZshReassembler)
        ensures
            m.acc() == Seq::<u8>::empty(),
            !m.has_acc(),
    {
        let m = ZshReassembler { buf: Vec::new(), has: false };
        proof {
            assert(m.acc() =~= Seq::<u8>::empty());
        }
        m
    }

    /// Takes the next raw physical line, moving toward the beginning of the
    /// history, decodes it, and joins it above whatever is accumulated. A
    /// line that begins an entry completes it: the joined entry is emitted
    /// and the accumulator is reset.
    pub fn feed_line(&mut self, raw: Vec<u8>) -> (r: Option<String>)
        ensures
            ({
                let d = spec_decode(raw@);
                let joined = if old(self).has_acc() {
                    join_above(d, old(self).acc())
                } else {
                    d
                };
                if is_cmd_start(d) {
                    r matches Some(c) && c@ == lossy_of(joined) && !final(self).has_acc()
                        && final(self).acc() == Seq::<u8>::empty()
                } else {
                    (r is None) && final(self).has_acc() && final(self).acc() == joined
                }
            }),
    {
        let d = decode_meta(&raw);
        let start = is_command_start(&d);
        let mut held: Vec<u8> = Vec::new();
        core::mem::swap(&mut held, &mut self.buf);
        let was_held = self.has;
        let joined = if was_held {
            join_exec(&d, &held)
        } else {
            d
        };
        proof {
            assert(self.buf@ =~= Seq::<u8>::empty());
        }
        if start {
            self.has = false;
            Some(lossy_string(&joined))
        } else {
            self.buf = joined;
            self.has = true;
            None
        }
    }

    /// Declares the line source exhausted: whatever is accumulated is the
    /// oldest entry, emitted as it stands.
    pub fn finish(&mut self) -> (r: Option<String>)
        ensures
            !final(self).has_acc(),
            final(self).acc() == Seq::<u8>::empty(),
            old(self).has_acc() ==> (r matches Some(c) && c@ == lossy_of(old(self).acc())),
            !old(self).has_acc() ==> r is None,
    {
        let mut held: Vec<u8> = Vec::new();
        core::mem::swap(&mut held, &mut self.buf);
        proof {
            assert(self.buf@ =~= Seq::<u8>::empty());
        }
        if self.has {
            self.has = false;
            Some(lossy_string(&held))
        } else {
            None
        }
    }
}

/// Reassembles whole history entries from an annotated-layout history file,
/// most recent entry first. Joining policy: an entry is emitted as soon as
/// its command-start line is reached during the backward scan.
pub struct ZshHistoryReader {
    src: RevLineSource,
    stitcher: ZshReassembler,
}

impl View for ZshHistoryReader {
    type V = Seq<Seq<u8>>;

    /// The byte texts of the commands still to be emitted, most recent
    /// entry first.
    closed spec fn view(&self) -> Seq<Seq<u8>> {
        regroup(decode_each(self.src@), self.stitcher.acc(), self.stitcher.has_acc())
    }
}

impl ZshHistoryReader {
    /// The underlying line source is in a usable state.
    pub closed spec fn wf(self) -> bool {
        self.src.wf()
    }

    /// Starts reading the history held in `data`, most recent entry first.
    pub fn from_bytes(data: Vec<u8>) -> (r: ZshHistoryReader)
        ensures
            r.wf(),
            r@ == zsh_commands(data@),
    {
        ZshHistoryReader { src: RevLineSource::new(data), stitcher: ZshReassembler::new() }
    }

    /// Emits the next command, most recent first; once the history is
    /// exhausted, fails with `EOF` on this and every later call.
    pub fn read_command(&mut self) -> (r: Result<String, Error>)
        requires
            old(self).wf(),
        ensures
            final(self).wf(),
            old(self)@.len() > 0 ==> (r matches Ok(c) && c@ == lossy_of(old(self)@[0])
                && final(self)@ == old(self)@.drop_first()),
            old(self)@.len() == 0 ==> r == Err::<String, Error>(Error::EOF)
                && final(self)@ == old(self)@,
    {
        loop
            invariant
                self.wf(),
                self@ == old(self)@,
            decreases self.src@.len(),
        {
            let ghost src_prev = self.src@;
            let ghost acc_prev = self.stitcher.acc();
            let ghost has_prev = self.stitcher.has_acc();
            let line_opt = self.src.next();
            match line_opt {
                Some(line) => {
                    proof {
                        assert(src_prev.len() > 0);
                        assert(decode_each(src_prev)[0] == spec_decode(line@));
                        assert(decode_each(src_prev).drop_first() =~= decode_each(self.src@));
                    }
                    match self.stitcher.feed_line(line) {
                        Some(cmd) => {
                            proof {
                                assert(old(self)@ == seq![old(self)@[0]] + regroup(
                                    decode_each(self.src@),
                                    Seq::empty(),
                                    false,
                                ));
                                assert(final(self)@ =~= old(self)@.drop_first());
                            }
                            return Ok(cmd);
                        },
                        None => {
                            proof {
                                assert(regroup(
                                    decode_each(self.src@),
                                    self.stitcher.acc(),
                                    self.stitcher.has_acc(),
                                ) == regroup(decode_each(src_prev), acc_prev, has_prev));
                            }
                        },
                    }
                }
                None => {
                    proof {
                        assert(src_prev.len() == 0);
                        assert(decode_each(src_prev).len() == 0);
                    }
                    match self.stitcher.finish() {
                        Some(cmd) => {
                            proof {
                                assert(old(self)@ =~= seq![acc_prev]);
                                assert(final(self)@ =~= old(self)@.drop_first());
                            }
                            return Ok(cmd);
                        },
                        None => {
                            proof {
                                assert(old(self)@.len() == 0);
                            }
                            return Err(Error::EOF);
                        },
                    }
                }
            }
        }
    }
}

} // verus!
