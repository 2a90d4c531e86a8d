//! The mathematical model of backward line recovery.
//!
//! A reader over a source `s` is abstracted by the boundary offset `p`
//! between not-yet-scanned content `s[0..p]` and already-emitted content,
//! together with the chunk size `c` of each backward read. `step_line` and
//! `step_pos` say what one "produce next line" call emits and where it leaves
//! the boundary; `emit_all` chains the steps; `norm_pos` is the boundary
//! right after construction, once a single trailing terminator is absorbed.

use vstd::prelude::*;

verus! {

/// The line feed byte, `\n`: a line terminator on its own.
pub const LF_BYTE: u8 = 10;

/// The carriage return byte, `\r`: part of a terminator only when an `LF`
/// follows it immediately; otherwise ordinary content.
pub const CR_BYTE: u8 = 13;

/// Index of the last `LF` strictly before offset `p` in `s`, or `-1` when
/// `s[0..p]` holds no `LF`.
pub open spec fn last_lf(s: Seq<u8>, p: int) -> int
    decreases p,
{
    if p <= 0 {
        -1
    } else if s[p - 1] == LF_BYTE {
        p - 1
    } else {
        last_lf(s, p - 1)
    }
}

/// `last_lf` names the rightmost `LF` before `p`: it is in range, it is an
/// `LF`, and no `LF` sits strictly between it and `p`.
pub proof fn lemma_last_lf_props(s: Seq<u8>, p: int)
    ensures
        -1 <= last_lf(s, p),
        p <= 0 ==> last_lf(s, p) == -1,
        p > 0 ==> last_lf(s, p) < p,
        last_lf(s, p) >= 0 ==> s[last_lf(s, p)] == LF_BYTE,
        forall|j: int| last_lf(s, p) < j < p ==> s[j] != LF_BYTE,
    decreases p,
{
    if p > 0 && s[p - 1] != LF_BYTE {
        lemma_last_lf_props(s, p - 1);
    }
}

/// Start offset of the chunk that contains offset `q`, when chunks of `c`
/// bytes are read backward from boundary `p` (the last chunk, nearest the
/// start of the source, may be shorter).
pub open spec fn chunk_start_of(p: int, c: int, q: int) -> int
    decreases p,
    when c >= 1 && 0 <= q < p
{
    let lo = if p <= c {
        0
    } else {
        p - c
    };
    if q >= lo {
        lo
    } else {
        chunk_start_of(lo, c, q)
    }
}

/// Whether the scan that found the `LF` at offset `q` also sees — and
/// therefore skips — a `CR` immediately before it. The byte before the `LF`
/// is only consulted when it falls inside the same chunk, so this depends on
/// where the chunk covering `q` begins.
pub open spec fn cr_skip(s: Seq<u8>, p: int, c: int, q: int) -> bool {
    q - chunk_start_of(p, c, q) >= 1 && s[q - 1] == CR_BYTE
}

/// The bytes one call emits from boundary `p`: everything after the last
/// `LF` before `p` (or the whole of `s[0..p]` when no `LF` remains), with no
/// terminator byte included.
pub open spec fn step_line(s: Seq<u8>, p: int) -> Seq<u8>
    recommends
        0 <= p <= s.len(),
{
    s.subrange(last_lf(s, p) + 1, p)
}

/// The boundary after one call from boundary `p`: just before the consumed
/// `LF`, also consuming the `CR` of a `CR` `LF` pair when the scan saw it,
/// or the start of the source when no `LF` remains.
pub open spec fn step_pos(s: Seq<u8>, p: int, c: int) -> int
    recommends
        0 <= p <= s.len(),
        c >= 1,
{
    let q = last_lf(s, p);
    if q < 0 {
        0
    } else if q >= 1 && cr_skip(s, p, c, q) {
        q - 1
    } else {
        q
    }
}

/// Every line emitted from boundary `p` down to the start of the source, in
/// emission order: last line of `s[0..p]` first.
pub open spec fn emit_all(s: Seq<u8>, p: int, c: int) -> Seq<Seq<u8>>
    decreases p,
    via emit_all_dec
{
    if p <= 0 {
        Seq::<Seq<u8>>::empty()
    } else {
        seq![step_line(s, p)] + emit_all(s, step_pos(s, p, c), c)
    }
}

#[via_fn]
proof fn emit_all_dec(s: Seq<u8>, p: int, c: int) {
    if p > 0 {
        lemma_last_lf_props(s, p);
    }
}

/// The boundary right after construction: the source length, less exactly
/// one trailing terminator. The final one or two bytes are examined; with
/// two available, the earlier is held against `CR` and the later against
/// `LF` independently.
pub open spec fn norm_pos(s: Seq<u8>) -> int {
    if s.len() == 0 {
        0
    } else if s.len() == 1 {
        if s[0] == LF_BYTE {
            0
        } else {
            1
        }
    } else {
        (s.len() - 2) + (if s[s.len() - 2] == CR_BYTE {
            0int
        } else {
            1int
        }) + (if s[s.len() - 1] == LF_BYTE {
            0int
        } else {
            1int
        })
    }
}

/// How many `LF` bytes sit in `s[0..p]`.
pub open spec fn count_lf_upto(s: Seq<u8>, p: int) -> int
    decreases p,
{
    if p <= 0 {
        0
    } else {
        count_lf_upto(s, p - 1) + (if s[p - 1] == LF_BYTE {
            1int
        } else {
            0int
        })
    }
}

/// How many `LF` bytes `s` holds; for a source ending in a terminator this
/// is its number of terminator-delimited segments.
pub open spec fn count_lf(s: Seq<u8>) -> int {
    count_lf_upto(s, s.len() as int)
}

/// The lines joined end to end with a single `LF` between neighbours and no
/// trailing terminator.
pub open spec fn join_lf(lines: Seq<Seq<u8>>) -> Seq<u8>
    decreases lines.len(),
{
    if lines.len() == 0 {
        Seq::<u8>::empty()
    } else if lines.len() == 1 {
        lines[0]
    } else {
        join_lf(lines.drop_last()) + seq![LF_BYTE] + lines.last()
    }
}

/// The lines joined end to end with `CR` `LF` between neighbours and no
/// trailing terminator.
pub open spec fn join_crlf(lines: Seq<Seq<u8>>) -> Seq<u8>
    decreases lines.len(),
{
    if lines.len() == 0 {
        Seq::<u8>::empty()
    } else if lines.len() == 1 {
        lines[0]
    } else {
        join_crlf(lines.drop_last()) + seq![CR_BYTE, LF_BYTE] + lines.last()
    }
}

/// The full output of a source `s` read with chunk size `c`: all lines from
/// the post-construction boundary, in emission order.
pub open spec fn lines_of(s: Seq<u8>, c: int) -> Seq<Seq<u8>> {
    emit_all(s, norm_pos(s), c)
}

} // verus!
