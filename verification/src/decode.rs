//! The meta-byte decoder: undoes the single-byte escaping scheme that the
//! history file uses to store byte values colliding with its marker byte.

use vstd::prelude::*;

verus! {

/// The marker byte that introduces an escaped byte in a raw history line.
pub const META: u8 = 0x83;

/// The mask undone on the byte that follows a marker.
pub const META_MASK: u8 = 32;

/// What decoding yields for the remaining bytes `s`, given whether the byte
/// just before them was a marker (`armed`). A marker is dropped and arms the
/// next byte; an armed byte has the mask undone; any other byte is kept.
pub open spec fn decode_from(s: Seq<u8>, armed: bool) -> Seq<u8>
    decreases s.len(),
{
    if s.len() == 0 {
        seq![]
    } else if s[0] == META {
        decode_from(s.drop_first(), true)
    } else if armed {
        seq![s[0] ^ META_MASK] + decode_from(s.drop_first(), false)
    } else {
        seq![s[0]] + decode_from(s.drop_first(), false)
    }
}

/// The unescaped form of a raw line. A marker that ends the line with no byte
/// after it is dropped silently.
pub open spec fn spec_decode(s: Seq<u8>) -> Seq<u8> {
    decode_from(s, false)
}

/// Undoes the marker escaping on one raw line of bytes.
pub fn decode_meta(raw: &Vec<u8>) -> (out: Vec<u8>)
    ensures
        out@ == spec_decode(raw@),
{
    let mut out: Vec<u8> = Vec::new();
    let mut armed = false;
    let mut i: usize = 0;
    proof {
        assert(raw@.skip(0) =~= raw@);
        assert(out@ + decode_from(raw@, false) =~= decode_from(raw@, false));
    }
    while i < raw.len()
        invariant
            i <= raw.len(),
            spec_decode(raw@) == out@ + decode_from(raw@.skip(i as int), armed),
        decreases raw.len() - i,
    {
        let b = raw[i];
        proof {
            assert(raw@.skip(i as int)[0] == b);
            assert(raw@.skip(i as int).drop_first() =~= raw@.skip(i + 1));
        }
        if b == META {
            armed = true;
        } else if armed {
            out.push(b ^ META_MASK);
            proof {
                assert(out@ =~= out@.drop_last() + seq![b ^ META_MASK]);
                assert(out@.drop_last() + (seq![b ^ META_MASK] + decode_from(
                    raw@.skip(i + 1),
                    false,
                )) =~= out@ + decode_from(raw@.skip(i + 1), false));
            }
            armed = false;
        } else {
            out.push(b);
            proof {
                assert(out@ =~= out@.drop_last() + seq![b]);
                assert(out@.drop_last() + (seq![b] + decode_from(raw@.skip(i + 1), false))
                    =~= out@ + decode_from(raw@.skip(i + 1), false));
            }
        }
        i += 1;
    }
    proof {
        assert(raw@.skip(i as int) =~= Seq::<u8>::empty());
        assert(out@ + decode_from(raw@.skip(i as int), armed) =~= out@);
    }
    out
}

/// A line holding no marker byte comes back unchanged, whatever the armed
/// flag carried into it.
proof fn lemma_decode_no_marker_from(s: Seq<u8>, armed: bool)
    requires
        forall|k: int| 0 <= k < s.len() ==> s[k] != META,
    ensures
        !armed ==> decode_from(s, armed) == s,
        armed && s.len() > 0 ==> decode_from(s, armed) == seq![s[0] ^ META_MASK]
            + s.drop_first(),
    decreases s.len(),
{
    if s.len() == 0 {
        assert(decode_from(s, armed) =~= s);
    } else {
        lemma_decode_no_marker_from(s.drop_first(), false);
        if !armed {
            assert(decode_from(s, armed) =~= s);
        }
    }
}

/// Decoding is idempotent on already-decoded text: a line holding no marker
/// byte decodes to itself.
pub proof fn lemma_decode_no_marker(s: Seq<u8>)
    requires
        forall|k: int| 0 <= k < s.len() ==> s[k] != META,
    ensures
        spec_decode(s) == s,
{
    lemma_decode_no_marker_from(s, false);
}

/// A marker byte followed by byte `x` decodes to `x` with the mask undone,
/// and decoding goes on past the pair unaffected.
pub proof fn lemma_marker_unmasks(x: u8, rest: Seq<u8>)
    requires
        x != META,
    ensures
        spec_decode(seq![META, x] + rest) == seq![x ^ META_MASK] + spec_decode(rest),
{
    let s = seq![META, x] + rest;
    let t = seq![x] + rest;
    assert(s[0] == META);
    assert(s.drop_first() =~= t);
    assert(spec_decode(s) == decode_from(t, true));
    assert(t[0] == x);
    assert(t.drop_first() =~= rest);
    assert(decode_from(t, true) == seq![x ^ META_MASK] + decode_from(rest, false));
}

} // verus!
