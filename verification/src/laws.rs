//! Laws that relate the pieces of the pipeline: how whole files map to the
//! command sequences the readers emit.

use vstd::prelude::*;
use crate::decode::META;
use crate::decode::lemma_decode_no_marker;
use crate::lines::NL;
use crate::lines::lemma_rev_split_nonempty;
use crate::lines::nl_free;
use crate::lines::lemma_rfind_nl_at;
use crate::lines::lemma_rfind_nl_bounds;
use crate::lines::lemma_rfind_nl_none;
use crate::lines::rev_lines_of;
use crate::lines::rev_split;
use crate::lines::rfind_nl;
use crate::lines::strip_trailing_nl;
use crate::zsh::decode_each;
use crate::zsh::is_cmd_start;
use crate::zsh::join_above;
use crate::zsh::regroup;
use crate::zsh::zsh_commands;

verus! {

/// A file ending with a single trailing delimiter carries the same lines,
/// and the same command history, as the file without that byte. (A file
/// whose last line is itself empty ends with two delimiters and keeps that
/// empty line; it is not covered here.)
pub proof fn lemma_trailing_delimiter(data: Seq<u8>)
    requires
        data.len() >= 2,
        data.last() == NL,
        data[data.len() - 2] != NL,
    ensures
        rev_lines_of(data) == rev_lines_of(data.drop_last()),
        zsh_commands(data) == zsh_commands(data.drop_last()),
{
    assert(strip_trailing_nl(data) == data.drop_last());
    assert(data.drop_last().last() == data[data.len() - 2]);
    assert(strip_trailing_nl(data.drop_last()) == data.drop_last());
}

/// The bytes of a simple-layout file: each command followed by one
/// delimiter, in their original order.
pub open spec fn simple_layout(cmds: Seq<Seq<u8>>) -> Seq<u8>
    decreases cmds.len(),
{
    if cmds.len() == 0 {
        seq![]
    } else {
        simple_layout(cmds.drop_last()) + cmds.last() + seq![NL]
    }
}

/// For every well-formed simple-layout file, the lines read back are
/// exactly the original commands in reverse order of appearance, each equal
/// to its original line.
pub proof fn lemma_simple_layout_reversed(cmds: Seq<Seq<u8>>)
    requires
        forall|i: int| 0 <= i < cmds.len() ==> nl_free(#[trigger] cmds[i]),
    ensures
        rev_lines_of(simple_layout(cmds)) == cmds.reverse(),
    decreases cmds.len(),
{
    if cmds.len() == 0 {
        assert(rev_lines_of(simple_layout(cmds)) =~= cmds.reverse());
    } else {
        let front = simple_layout(cmds.drop_last());
        let last = cmds.last();
        let data = simple_layout(cmds);
        assert(data == front + last + seq![NL]);
        assert(data.last() == NL);
        assert(data.len() > 0);
        let s = strip_trailing_nl(data);
        assert(s =~= front + last);
        if cmds.len() == 1 {
            assert(front =~= Seq::<u8>::empty());
            assert(s =~= last);
            assert(nl_free(cmds[0]));
            lemma_rfind_nl_none(s);
            assert(rev_split(s) == seq![s]);
            assert(rev_lines_of(data) =~= cmds.reverse());
        } else {
            // The delimiter written after the next-to-last command is the
            // last delimiter of the stripped data.
            assert(cmds.drop_last().len() > 0);
            assert(front.last() == NL);
            let j = front.len() - 1;
            assert(s[j] == NL);
            assert(forall|k: int| j < k < s.len() ==> s[k] == last[k - j - 1]);
            assert(nl_free(last));
            lemma_rfind_nl_at(s, j);
            assert(rev_split(s) == seq![s.subrange(j + 1, s.len() as int)] + rev_split(
                s.subrange(0, j),
            ));
            assert(s.subrange(j + 1, s.len() as int) =~= last);
            assert(s.subrange(0, j) =~= strip_trailing_nl(front));
            assert(front.len() > 0);
            lemma_simple_layout_reversed(cmds.drop_last());
            assert(rev_split(strip_trailing_nl(front)) == cmds.drop_last().reverse());
            assert(rev_lines_of(data) == seq![last] + cmds.drop_last().reverse());
            assert(seq![last] + cmds.drop_last().reverse() =~= cmds.reverse());
        }
    }
}

/// `s` holds no marker byte.
pub open spec fn meta_free(s: Seq<u8>) -> bool {
    forall|k: int| 0 <= k < s.len() ==> s[k] != META
}

/// Commands rejoined into one text, oldest first, one delimiter between
/// consecutive commands.
pub open spec fn rejoin(cmds: Seq<Seq<u8>>) -> Seq<u8>
    decreases cmds.len(),
{
    if cmds.len() == 0 {
        seq![]
    } else if cmds.len() == 1 {
        cmds[0]
    } else {
        rejoin(cmds.drop_last()) + seq![NL] + cmds.last()
    }
}

/// Rejoining one more command appends one delimiter and its text.
pub proof fn lemma_rejoin_append(x: Seq<Seq<u8>>, y: Seq<u8>)
    requires
        x.len() >= 1,
    ensures
        rejoin(x + seq![y]) == rejoin(x) + seq![NL] + y,
{
    let z = x + seq![y];
    assert(z.len() >= 2);
    assert(z.drop_last() =~= x);
    assert(z.last() == y);
}

/// Splitting a text into lines and rejoining them, oldest first,
/// reconstructs the text.
pub proof fn lemma_rev_split_rejoin(s: Seq<u8>)
    ensures
        rejoin(rev_split(s).reverse()) == s,
    decreases s.len(),
{
    lemma_rfind_nl_bounds(s);
    let j = rfind_nl(s);
    if j < 0 {
        assert(rev_split(s) == seq![s]);
        assert(rev_split(s).reverse() =~= seq![s]);
    } else {
        let piece = s.subrange(j + 1, s.len() as int);
        let front = s.subrange(0, j);
        assert(rev_split(s) == seq![piece] + rev_split(front));
        lemma_rev_split_rejoin(front);
        lemma_rev_split_nonempty(front);
        let x = rev_split(front).reverse();
        assert(rev_split(s).reverse() =~= x + seq![piece]);
        lemma_rejoin_append(x, piece);
        assert(rejoin(x + seq![piece]) == rejoin(x) + seq![NL] + piece);
        assert(s[j] == NL);
        assert(front + seq![NL] + piece =~= s);
    }
}

/// Reassembly always has something to emit while lines or accumulated text
/// remain.
pub proof fn lemma_regroup_len(ls: Seq<Seq<u8>>, buf: Seq<u8>, has: bool)
    requires
        ls.len() > 0 || has,
    ensures
        regroup(ls, buf, has).len() >= 1,
    decreases ls.len(),
{
    if ls.len() == 0 {
    } else if is_cmd_start(ls[0]) {
    } else {
        let joined = if has {
            join_above(ls[0], buf)
        } else {
            ls[0]
        };
        lemma_regroup_len(ls.drop_first(), joined, true);
    }
}

/// Reassembly loses no byte and invents none: the emitted commands,
/// rejoined oldest first, are the decoded lines rejoined oldest first, with
/// any accumulated text at their tail.
pub proof fn lemma_regroup_rejoin(ls: Seq<Seq<u8>>, buf: Seq<u8>, has: bool)
    ensures
        rejoin(regroup(ls, buf, has).reverse()) == (if has && ls.len() == 0 {
            buf
        } else if has {
            rejoin(ls.reverse()) + seq![NL] + buf
        } else {
            rejoin(ls.reverse())
        }),
    decreases ls.len(),
{
    if ls.len() == 0 {
        if has {
            assert(regroup(ls, buf, true) == seq![buf]);
            assert(seq![buf].reverse() =~= seq![buf]);
        } else {
            assert(regroup(ls, buf, false) =~= Seq::<Seq<u8>>::empty());
            assert(Seq::<Seq<u8>>::empty().reverse() =~= Seq::<Seq<u8>>::empty());
        }
    } else {
        let l = ls[0];
        let t = ls.drop_first();
        let joined = if has {
            join_above(l, buf)
        } else {
            l
        };
        assert(ls.reverse() =~= t.reverse() + seq![l]);
        if t.len() > 0 {
            lemma_rejoin_append(t.reverse(), l);
            assert(rejoin(ls.reverse()) == rejoin(t.reverse()) + seq![NL] + l);
        } else {
            assert(ls.reverse() =~= seq![l]);
            assert(rejoin(ls.reverse()) == l);
        }
        if is_cmd_start(l) {
            let g = regroup(t, Seq::empty(), false);
            assert(regroup(ls, buf, has) == seq![joined] + g);
            lemma_regroup_rejoin(t, Seq::empty(), false);
            if t.len() == 0 {
                assert(g =~= Seq::<Seq<u8>>::empty());
                assert((seq![joined] + g).reverse() =~= seq![joined]);
                assert(rejoin(seq![joined]) == joined);
            } else {
                lemma_regroup_len(t, Seq::empty(), false);
                assert((seq![joined] + g).reverse() =~= g.reverse() + seq![joined]);
                lemma_rejoin_append(g.reverse(), joined);
                assert(rejoin(g.reverse()) == rejoin(t.reverse()));
                if has {
                    assert(rejoin(t.reverse()) + seq![NL] + joined =~= (rejoin(t.reverse())
                        + seq![NL] + l) + seq![NL] + buf);
                }
            }
        } else {
            assert(regroup(ls, buf, has) == regroup(t, joined, true));
            lemma_regroup_rejoin(t, joined, true);
            if t.len() > 0 && has {
                assert(rejoin(t.reverse()) + seq![NL] + join_above(l, buf) =~= (rejoin(t.reverse())
                    + seq![NL] + l) + seq![NL] + buf);
            }
        }
    }
}

/// Every line split out of a marker-free text is marker-free.
pub proof fn lemma_rev_split_meta_free(s: Seq<u8>)
    requires
        meta_free(s),
    ensures
        forall|i: int| 0 <= i < rev_split(s).len() ==> meta_free(#[trigger] rev_split(s)[i]),
    decreases s.len(),
{
    lemma_rfind_nl_bounds(s);
    let j = rfind_nl(s);
    if j < 0 {
    } else {
        let front = s.subrange(0, j);
        assert(meta_free(s.subrange(j + 1, s.len() as int)));
        assert(meta_free(front));
        lemma_rev_split_meta_free(front);
        assert forall|i: int| 0 <= i < rev_split(s).len() implies meta_free(
            #[trigger] rev_split(s)[i],
        ) by {
            if i > 0 {
                assert(rev_split(s)[i] == rev_split(front)[i - 1]);
            }
        }
    }
}

/// Decoding marker-free lines changes nothing.
pub proof fn lemma_decode_each_meta_free(ls: Seq<Seq<u8>>)
    requires
        forall|i: int| 0 <= i < ls.len() ==> meta_free(#[trigger] ls[i]),
    ensures
        decode_each(ls) == ls,
{
    assert forall|i: int| 0 <= i < ls.len() implies decode_each(ls)[i] == ls[i] by {
        lemma_decode_no_marker(ls[i]);
    }
    assert(decode_each(ls) =~= ls);
}

/// Round trip for the annotated layout: reading all commands and rejoining
/// them oldest first reconstructs the input bytes (one trailing delimiter
/// excepted), for inputs that use no escaping.
pub proof fn lemma_round_trip(data: Seq<u8>)
    requires
        data.len() > 0,
        meta_free(data),
    ensures
        rejoin(zsh_commands(data).reverse()) == strip_trailing_nl(data),
{
    let s = strip_trailing_nl(data);
    assert(meta_free(s));
    lemma_rev_split_meta_free(s);
    lemma_decode_each_meta_free(rev_split(s));
    assert(rev_lines_of(data) == rev_split(s));
    lemma_regroup_rejoin(rev_split(s), Seq::empty(), false);
    lemma_rev_split_rejoin(s);
}

/// Number of delimiter bytes embedded in `s`.
pub open spec fn nl_count(s: Seq<u8>) -> int
    decreases s.len(),
{
    if s.len() == 0 {
        0
    } else {
        nl_count(s.drop_last()) + (if s.last() == NL {
            1int
        } else {
            0int
        })
    }
}

/// A delimiter-free text embeds no delimiter.
pub proof fn lemma_nl_count_free(s: Seq<u8>)
    requires
        nl_free(s),
    ensures
        nl_count(s) == 0,
    decreases s.len(),
{
    if s.len() > 0 {
        assert(forall|k: int| 0 <= k < s.len() - 1 ==> s.drop_last()[k] == s[k]);
        lemma_nl_count_free(s.drop_last());
    }
}

/// Delimiter counts add over concatenation.
pub proof fn lemma_nl_count_concat(a: Seq<u8>, b: Seq<u8>)
    ensures
        nl_count(a + b) == nl_count(a) + nl_count(b),
    decreases b.len(),
{
    if b.len() == 0 {
        assert(a + b =~= a);
    } else {
        assert((a + b).drop_last() =~= a + b.drop_last());
        assert((a + b).last() == b.last());
        lemma_nl_count_concat(a, b.drop_last());
    }
}

/// One delimiter alone counts as one.
proof fn lemma_nl_count_single()
    ensures
        nl_count(seq![NL]) == 1,
{
    let s = seq![NL];
    assert(s.last() == NL);
    assert(s.drop_last() =~= Seq::<u8>::empty());
    assert(nl_count(Seq::<u8>::empty()) == 0);
    assert(nl_count(s) == nl_count(s.drop_last()) + 1);
}

proof fn lemma_regroup_first_newlines(
    conts: Seq<Seq<u8>>,
    start: Seq<u8>,
    rest: Seq<Seq<u8>>,
    buf: Seq<u8>,
    has: bool,
)
    requires
        is_cmd_start(start),
        nl_free(start),
        forall|i: int|
            0 <= i < conts.len() ==> nl_free(#[trigger] conts[i]) && !is_cmd_start(conts[i]),
    ensures
        ({
            let g = regroup(conts.reverse() + seq![start] + rest, buf, has);
            g.len() >= 1 && nl_count(g[0]) == conts.len() + (if has {
                1 + nl_count(buf)
            } else {
                0int
            })
        }),
    decreases conts.len(),
{
    let ls = conts.reverse() + seq![start] + rest;
    if conts.len() == 0 {
        assert(ls =~= seq![start] + rest);
        assert(ls[0] == start);
        let joined = if has {
            join_above(start, buf)
        } else {
            start
        };
        assert(regroup(ls, buf, has) == seq![joined] + regroup(
            ls.drop_first(),
            Seq::empty(),
            false,
        ));
        assert(regroup(ls, buf, has)[0] == joined);
        lemma_nl_count_free(start);
        if has {
            lemma_nl_count_concat(start + seq![NL], buf);
            lemma_nl_count_concat(start, seq![NL]);
            lemma_nl_count_single();
        }
    } else {
        let c = conts.last();
        assert(ls[0] == c);
        assert(!is_cmd_start(c));
        let joined = if has {
            join_above(c, buf)
        } else {
            c
        };
        assert(regroup(ls, buf, has) == regroup(ls.drop_first(), joined, true));
        assert(ls.drop_first() =~= conts.drop_last().reverse() + seq![start] + rest);
        assert(forall|i: int| 0 <= i < conts.len() - 1 ==> conts.drop_last()[i] == conts[i]);
        lemma_regroup_first_newlines(conts.drop_last(), start, rest, joined, true);
        assert(nl_free(c));
        lemma_nl_count_free(c);
        if has {
            lemma_nl_count_concat(c + seq![NL], buf);
            lemma_nl_count_concat(c, seq![NL]);
            lemma_nl_count_single();
        }
    }
}

/// A continuation-joined entry comes back as one command whose embedded
/// delimiters are exactly as many as its physical continuation lines: the
/// entry's start line, then each continuation, rejoined in file order.
pub proof fn lemma_continuation_newlines(conts: Seq<Seq<u8>>, start: Seq<u8>, rest: Seq<Seq<u8>>)
    requires
        is_cmd_start(start),
        nl_free(start),
        forall|i: int|
            0 <= i < conts.len() ==> nl_free(#[trigger] conts[i]) && !is_cmd_start(conts[i]),
    ensures
        regroup(conts.reverse() + seq![start] + rest, Seq::empty(), false).len() >= 1,
        nl_count(regroup(conts.reverse() + seq![start] + rest, Seq::empty(), false)[0])
            == conts.len(),
{
    lemma_regroup_first_newlines(conts, start, rest, Seq::empty(), false);
}

} // verus!
