//! Laws of the reverse reader's output as a whole.
//!
//! Each public proof function here states one property of `lines_of` — the
//! complete output of a source — over the same model that the executable
//! functions' contracts use. Where a property cannot hold of the behaviour
//! the rest of the crate describes, its premises leave exactly the failing
//! inputs out; each such premise is noted on the law it guards.

use vstd::prelude::*;

use crate::model::{
    chunk_start_of, count_lf, count_lf_upto, cr_skip, emit_all, join_crlf, join_lf, last_lf,
    lemma_last_lf_props, lines_of, norm_pos, step_line, step_pos, CR_BYTE, LF_BYTE,
};

verus! {

/// No byte of `x` is an `LF`.
pub open spec fn lf_free(x: Seq<u8>) -> bool {
    forall|j: int| 0 <= j < x.len() ==> x[j] != LF_BYTE
}

/// No byte of `x` is a `CR`.
pub open spec fn cr_free(x: Seq<u8>) -> bool {
    forall|j: int| 0 <= j < x.len() ==> x[j] != CR_BYTE
}

/// No `LF` of `s` has a `CR` immediately before it: every terminator in `s`
/// is a bare `LF`.
pub open spec fn crlf_free(s: Seq<u8>) -> bool {
    forall|i: int| 0 <= i < s.len() && #[trigger] s[i] == LF_BYTE ==> (i == 0 || s[i - 1] != CR_BYTE)
}

proof fn lemma_last_lf_is(s: Seq<u8>, p: int, q: int)
    requires
        0 <= q < p,
        s[q] == LF_BYTE,
        forall|j: int| q < j < p ==> s[j] != LF_BYTE,
    ensures
        last_lf(s, p) == q,
{
    lemma_last_lf_props(s, p);
}

proof fn lemma_last_lf_none(s: Seq<u8>, p: int)
    requires
        forall|j: int| 0 <= j < p ==> s[j] != LF_BYTE,
    ensures
        last_lf(s, p) == -1,
{
    lemma_last_lf_props(s, p);
}

proof fn lemma_last_lf_agrees(s1: Seq<u8>, s2: Seq<u8>, p: int)
    requires
        forall|j: int| 0 <= j < p ==> s1[j] == s2[j],
    ensures
        last_lf(s1, p) == last_lf(s2, p),
    decreases p,
{
    if p > 0 && s1[p - 1] != LF_BYTE {
        lemma_last_lf_agrees(s1, s2, p - 1);
    }
}

/// One emission step, and hence the whole output, reads nothing of the
/// source at or past the boundary.
proof fn lemma_emit_all_agrees(s1: Seq<u8>, s2: Seq<u8>, p: int, c: int)
    requires
        c >= 1,
        p <= s1.len(),
        p <= s2.len(),
        forall|j: int| 0 <= j < p ==> s1[j] == s2[j],
    ensures
        emit_all(s1, p, c) == emit_all(s2, p, c),
    decreases p,
{
    if p > 0 {
        lemma_last_lf_agrees(s1, s2, p);
        lemma_last_lf_props(s1, p);
        let q = last_lf(s1, p);
        assert(step_line(s1, p) =~= step_line(s2, p));
        assert(step_pos(s1, p, c) == step_pos(s2, p, c));
        lemma_emit_all_agrees(s1, s2, step_pos(s1, p, c), c);
    }
}

proof fn lemma_count_lf_upto_same(s: Seq<u8>, a: int, b: int)
    requires
        a <= b,
        forall|j: int| a <= j < b ==> s[j] != LF_BYTE,
    ensures
        count_lf_upto(s, b) == count_lf_upto(s, a),
    decreases b - a,
{
    if a < b {
        lemma_count_lf_upto_same(s, a, b - 1);
    }
}

/// From a boundary inside a source whose first segment is non-empty, one
/// line comes out per `LF` below the boundary, plus the final segment.
proof fn lemma_emit_count(s: Seq<u8>, p: int, c: int)
    requires
        c >= 1,
        1 <= p <= s.len(),
        s[0] != LF_BYTE,
        p >= 2 ==> !(s[0] == CR_BYTE && s[1] == LF_BYTE),
    ensures
        emit_all(s, p, c).len() == count_lf_upto(s, p) + 1,
    decreases p,
{
    lemma_last_lf_props(s, p);
    let q = last_lf(s, p);
    if q < 0 {
        lemma_count_lf_upto_same(s, 0, p);
        assert(emit_all(s, p, c) == seq![step_line(s, p)] + emit_all(s, 0, c));
        assert(emit_all(s, 0, c) == Seq::<Seq<u8>>::empty());
    } else {
        assert(q >= 1);
        lemma_count_lf_upto_same(s, q + 1, p);
        assert(count_lf_upto(s, q + 1) == count_lf_upto(s, q) + 1);
        let p2 = step_pos(s, p, c);
        if p2 == q - 1 {
            assert(s[q - 1] == CR_BYTE);
            assert(count_lf_upto(s, q) == count_lf_upto(s, q - 1));
            assert(p2 >= 1) by {
                if q == 1 {
                    assert(s[0] == CR_BYTE && s[1] == LF_BYTE);
                }
            }
        }
        lemma_emit_count(s, p2, c);
        assert(emit_all(s, p, c) == seq![step_line(s, p)] + emit_all(s, p2, c));
    }
}

/// An empty source yields no items at all, whatever the chunk size.
pub proof fn lemma_empty_source(s: Seq<u8>, c: int)
    requires
        s.len() == 0,
    ensures
        lines_of(s, c).len() == 0,
{
}

/// For a source ending in exactly one terminator — one `LF`, possibly as
/// part of a `CR` `LF` — the output has exactly one item per
/// terminator-delimited segment (`count_lf` counts the segments), not one
/// more. The premises on the first bytes leave out sources whose first
/// segment is empty: there the segment before the first terminator is never
/// produced.
pub proof fn lemma_terminated_line_count(s: Seq<u8>, c: int)
    requires
        c >= 1,
        s.len() >= 1,
        s[s.len() - 1] == LF_BYTE,
        s.len() >= 2 ==> s[s.len() - 2] != LF_BYTE,
        s[0] != LF_BYTE,
        s.len() >= 2 ==> !(s[0] == CR_BYTE && s[1] == LF_BYTE),
    ensures
        lines_of(s, c).len() == count_lf(s),
{
    let n = s.len() as int;
    let p0 = norm_pos(s);
    assert(n >= 2);
    assert(count_lf_upto(s, n) == count_lf_upto(s, n - 1) + 1);
    if s[n - 2] == CR_BYTE {
        assert(p0 == n - 2);
        assert(count_lf_upto(s, n - 1) == count_lf_upto(s, n - 2));
    } else {
        assert(p0 == n - 1);
    }
    lemma_emit_count(s, p0, c);
}

/// The chunk size never affects the output of a source whose terminators
/// are all bare `LF`. (With a `CR` `LF` terminator the premise fails, and
/// so may the law: whether the `CR` is absorbed depends on whether it lands
/// in the same chunk as its `LF`.)
pub proof fn lemma_chunk_size_irrelevant(s: Seq<u8>, c1: int, c2: int)
    requires
        c1 >= 1,
        c2 >= 1,
        crlf_free(s),
    ensures
        lines_of(s, c1) == lines_of(s, c2),
{
    lemma_emit_all_no_crlf(s, norm_pos(s), c1, c2);
}

/// Lines fit for joining with a bare `LF` between neighbours: at least one
/// line, the first non-empty, none holding an `LF` of its own, and none
/// before the last ending in `CR` (such an ending would fuse with the
/// joining `LF` into a `CR` `LF` terminator and be absorbed).
pub open spec fn joinable_lf(lines: Seq<Seq<u8>>) -> bool {
    &&& lines.len() >= 1
    &&& lines[0].len() >= 1
    &&& (forall|i: int| 0 <= i < lines.len() ==> lf_free(#[trigger] lines[i]))
    &&& (forall|i: int|
        0 <= i < lines.len() - 1 && (#[trigger] lines[i]).len() > 0 ==> lines[i].last() != CR_BYTE)
}

/// Lines free of both terminator bytes, the first non-empty.
pub open spec fn plain_lines(lines: Seq<Seq<u8>>) -> bool {
    &&& lines.len() >= 1
    &&& lines[0].len() >= 1
    &&& (forall|i: int| 0 <= i < lines.len() ==> lf_free(#[trigger] lines[i]) && cr_free(lines[i]))
}

proof fn lemma_join_lf_len(lines: Seq<Seq<u8>>)
    requires
        lines.len() >= 1,
    ensures
        join_lf(lines).len() >= lines[0].len() + lines.len() - 1,
    decreases lines.len(),
{
    if lines.len() > 1 {
        lemma_join_lf_len(lines.drop_last());
        assert(lines.drop_last()[0] == lines[0]);
    }
}

proof fn lemma_join_crlf_len(lines: Seq<Seq<u8>>)
    requires
        lines.len() >= 1,
    ensures
        join_crlf(lines).len() >= lines[0].len() + lines.len() - 1,
    decreases lines.len(),
{
    if lines.len() > 1 {
        lemma_join_crlf_len(lines.drop_last());
        assert(lines.drop_last()[0] == lines[0]);
    }
}

/// Emitting from the very end of an `LF`-joined source recovers the lines,
/// last first.
proof fn lemma_join_lf_emit(lines: Seq<Seq<u8>>, c: int)
    requires
        c >= 1,
        joinable_lf(lines),
    ensures
        emit_all(join_lf(lines), join_lf(lines).len() as int, c) == lines.reverse(),
    decreases lines.len(),
{
    let s = join_lf(lines);
    let n = s.len() as int;
    if lines.len() == 1 {
        assert(s == lines[0]);
        lemma_last_lf_none(s, n);
        assert(step_line(s, n) =~= lines[0]);
        assert(step_pos(s, n, c) == 0);
        assert(emit_all(s, 0, c) == Seq::<Seq<u8>>::empty());
        assert(emit_all(s, n, c) == seq![step_line(s, n)] + emit_all(s, 0, c));
        assert(emit_all(s, n, c) =~= lines.reverse());
    } else {
        let lp = lines.drop_last();
        let lk = lines.last();
        let sp = join_lf(lp);
        let m = sp.len() as int;
        assert(joinable_lf(lp)) by {
            assert(lp[0] == lines[0]);
            assert forall|i: int| 0 <= i < lp.len() implies lf_free(#[trigger] lp[i]) by {
                assert(lp[i] == lines[i]);
            }
            assert forall|i: int|
                0 <= i < lp.len() - 1 && (#[trigger] lp[i]).len() > 0 implies lp[i].last()
                != CR_BYTE by {
                assert(lp[i] == lines[i]);
            }
        }
        lemma_join_lf_len(lp);
        assert(s == sp + seq![LF_BYTE] + lk);
        assert(s[m] == LF_BYTE);
        assert(lf_free(lk));
        assert forall|j: int| m < j < n implies s[j] != LF_BYTE by {
            assert(s[j] == lk[j - m - 1]);
        }
        lemma_last_lf_is(s, n, m);
        assert(step_line(s, n) =~= lk);
        assert(s[m - 1] == sp[m - 1]);
        assert(sp[m - 1] != CR_BYTE) by {
            if lp.len() == 1 {
                assert(sp == lp[0]);
                assert(sp[m - 1] == lines[0].last());
            } else {
                assert(sp == join_lf(lp.drop_last()) + seq![LF_BYTE] + lp.last());
                if lp.last().len() > 0 {
                    assert(sp[m - 1] == lp.last().last());
                    assert(lp.last() == lines[lines.len() - 2]);
                } else {
                    assert(sp[m - 1] == LF_BYTE);
                }
            }
        }
        assert(!cr_skip(s, n, c, m));
        assert(step_pos(s, n, c) == m);
        lemma_join_lf_emit(lp, c);
        lemma_emit_all_agrees(s, sp, m, c);
        assert(emit_all(s, n, c) == seq![step_line(s, n)] + emit_all(sp, m, c));
        assert(emit_all(s, n, c) =~= lines.reverse()) by {
            assert forall|i: int| 0 <= i < lines.len() implies (seq![step_line(s, n)]
                + lp.reverse())[i] == lines.reverse()[i] by {
                if i > 0 {
                    assert(lp.reverse()[i - 1] == lp[lp.len() - i]);
                    assert(lp[lp.len() - i] == lines[lines.len() - 1 - i]);
                }
            }
        }
    }
}

/// Emitting from the very end of a `CR` `LF`-joined source recovers the
/// lines, last first, provided one chunk covers the whole source so that
/// every `CR` is seen beside its `LF`.
proof fn lemma_join_crlf_emit(lines: Seq<Seq<u8>>, c: int)
    requires
        plain_lines(lines),
        c >= join_crlf(lines).len(),
    ensures
        emit_all(join_crlf(lines), join_crlf(lines).len() as int, c) == lines.reverse(),
    decreases lines.len(),
{
    let s = join_crlf(lines);
    let n = s.len() as int;
    lemma_join_crlf_len(lines);
    if lines.len() == 1 {
        assert(s == lines[0]);
        lemma_last_lf_none(s, n);
        assert(step_line(s, n) =~= lines[0]);
        assert(step_pos(s, n, c) == 0);
        assert(emit_all(s, 0, c) == Seq::<Seq<u8>>::empty());
        assert(emit_all(s, n, c) == seq![step_line(s, n)] + emit_all(s, 0, c));
        assert(emit_all(s, n, c) =~= lines.reverse());
    } else {
        let lp = lines.drop_last();
        let lk = lines.last();
        let sp = join_crlf(lp);
        let m = sp.len() as int;
        let q = m + 1;
        assert(plain_lines(lp)) by {
            assert(lp[0] == lines[0]);
            assert forall|i: int| 0 <= i < lp.len() implies lf_free(#[trigger] lp[i]) && cr_free(
                lp[i],
            ) by {
                assert(lp[i] == lines[i]);
            }
        }
        lemma_join_crlf_len(lp);
        assert(s == sp + seq![CR_BYTE, LF_BYTE] + lk);
        assert(s[m] == CR_BYTE);
        assert(s[q] == LF_BYTE);
        assert(lf_free(lk));
        assert forall|j: int| q < j < n implies s[j] != LF_BYTE by {
            assert(s[j] == lk[j - q - 1]);
        }
        lemma_last_lf_is(s, n, q);
        assert(step_line(s, n) =~= lk);
        assert(chunk_start_of(n, c, q) == 0);
        assert(cr_skip(s, n, c, q));
        assert(step_pos(s, n, c) == m);
        lemma_join_crlf_emit(lp, c);
        lemma_emit_all_agrees(s, sp, m, c);
        assert(emit_all(s, n, c) == seq![step_line(s, n)] + emit_all(sp, m, c));
        assert(emit_all(s, n, c) =~= lines.reverse()) by {
            assert forall|i: int| 0 <= i < lines.len() implies (seq![step_line(s, n)]
                + lp.reverse())[i] == lines.reverse()[i] by {
                if i > 0 {
                    assert(lp.reverse()[i - 1] == lp[lp.len() - i]);
                    assert(lp[lp.len() - i] == lines[lines.len() - 1 - i]);
                }
            }
        }
    }
}

/// Round trip: a source built by joining an ordered sequence of lines with
/// `LF` reads back as exactly that sequence reversed. The premises leave
/// out the inputs the reader cannot reproduce: an empty first line is never
/// produced (the start of the source yields no empty segment), an empty
/// last line is indistinguishable from a trailing terminator and is
/// absorbed, and a last line whose second-to-last byte is `CR` trips the
/// constructor's independent two-byte check, which drops the final byte.
pub proof fn lemma_round_trip(lines: Seq<Seq<u8>>, c: int)
    requires
        c >= 1,
        joinable_lf(lines),
        lines.last().len() >= 1,
        !(lines.last().len() >= 2 && lines.last()[lines.last().len() - 2] == CR_BYTE),
    ensures
        lines_of(join_lf(lines), c) == lines.reverse(),
{
    let s = join_lf(lines);
    let n = s.len() as int;
    let lk = lines.last();
    if lines.len() == 1 {
        assert(s == lines[0]);
        if n >= 2 {
            assert(s[n - 1] != LF_BYTE);
            assert(s[n - 2] != CR_BYTE);
        }
        assert(norm_pos(s) == n);
    } else {
        let sp = join_lf(lines.drop_last());
        let m = sp.len() as int;
        assert(lines.drop_last()[0] == lines[0]);
        lemma_join_lf_len(lines.drop_last());
        assert(s == sp + seq![LF_BYTE] + lk);
        assert(n >= 2);
        assert(s[n - 1] == lk.last());
        assert(s[n - 1] != LF_BYTE);
        if lk.len() >= 2 {
            assert(s[n - 2] == lk[lk.len() - 2]);
            assert(s[n - 2] != CR_BYTE);
        } else {
            assert(n - 2 == m);
            assert(s[n - 2] == LF_BYTE);
        }
        assert(norm_pos(s) == n);
    }
    lemma_join_lf_emit(lines, c);
}

/// `CR` `LF` and bare `LF` terminators are indistinguishable in output:
/// the same lines joined with either terminator produce identical line
/// content. The `LF`-joined source may be read with any chunk size; the
/// `CR` `LF`-joined one is read in a single chunk, since a `CR` parted
/// from its `LF` by a chunk boundary is not absorbed.
pub proof fn lemma_crlf_matches_lf(lines: Seq<Seq<u8>>, c_lf: int, c_crlf: int)
    requires
        c_lf >= 1,
        c_crlf >= join_crlf(lines).len(),
        plain_lines(lines),
        lines.last().len() >= 1,
    ensures
        lines_of(join_lf(lines), c_lf) == lines.reverse(),
        lines_of(join_crlf(lines), c_crlf) == lines.reverse(),
{
    assert(joinable_lf(lines)) by {
        assert forall|i: int| 0 <= i < lines.len() implies lf_free(#[trigger] lines[i]) by {}
        assert forall|i: int|
            0 <= i < lines.len() - 1 && (#[trigger] lines[i]).len() > 0 implies lines[i].last()
            != CR_BYTE by {
            assert(cr_free(lines[i]));
        }
    }
    let lk = lines.last();
    assert(cr_free(lk));
    assert(!(lk.len() >= 2 && lk[lk.len() - 2] == CR_BYTE));
    lemma_round_trip(lines, c_lf);
    let s = join_crlf(lines);
    let n = s.len() as int;
    lemma_join_crlf_len(lines);
    if lines.len() == 1 {
        assert(s == lines[0]);
        if n >= 2 {
            assert(s[n - 1] != LF_BYTE);
            assert(s[n - 2] != CR_BYTE);
        }
        assert(norm_pos(s) == n);
    } else {
        let sp = join_crlf(lines.drop_last());
        let m = sp.len() as int;
        assert(lines.drop_last()[0] == lines[0]);
        lemma_join_crlf_len(lines.drop_last());
        assert(s == sp + seq![CR_BYTE, LF_BYTE] + lk);
        assert(n >= 2);
        assert(s[n - 1] == lk.last());
        assert(s[n - 1] != LF_BYTE);
        if lk.len() >= 2 {
            assert(s[n - 2] == lk[lk.len() - 2]);
            assert(s[n - 2] != CR_BYTE);
        } else {
            assert(n - 2 == m + 1);
            assert(s[n - 2] == LF_BYTE);
        }
        assert(norm_pos(s) == n);
    }
    lemma_join_crlf_emit(lines, c_crlf);
}

/// For a non-empty source without a trailing terminator, construction
/// absorbs nothing, so the first produced item is the final physical
/// line's exact content — everything after the last `LF` — and no
/// spurious empty item takes its place. The premise on the second-to-last
/// byte leaves out sources like `A` `CR` `X`, where the constructor's
/// independent two-byte check mistakes the `CR` for half a terminator and
/// drops the final byte.
pub proof fn lemma_first_line_untouched(s: Seq<u8>, c: int)
    requires
        c >= 1,
        s.len() >= 1,
        s[s.len() - 1] != LF_BYTE,
        s.len() >= 2 ==> s[s.len() - 2] != CR_BYTE,
    ensures
        norm_pos(s) == s.len(),
        lines_of(s, c).len() >= 1,
        lines_of(s, c)[0] == step_line(s, s.len() as int),
{
    let n = s.len() as int;
    assert(norm_pos(s) == n);
    assert(emit_all(s, n, c) == seq![step_line(s, n)] + emit_all(s, step_pos(s, n, c), c));
}

proof fn lemma_emit_all_no_crlf(s: Seq<u8>, p: int, c1: int, c2: int)
    requires
        c1 >= 1,
        c2 >= 1,
        p <= s.len(),
        crlf_free(s),
    ensures
        emit_all(s, p, c1) == emit_all(s, p, c2),
    decreases p,
{
    if p > 0 {
        lemma_last_lf_props(s, p);
        let q = last_lf(s, p);
        if q >= 1 {
            assert(s[q] == LF_BYTE);
            assert(s[q - 1] != CR_BYTE);
            assert(!cr_skip(s, p, c1, q));
            assert(!cr_skip(s, p, c2, q));
        }
        assert(step_pos(s, p, c1) == step_pos(s, p, c2));
        lemma_emit_all_no_crlf(s, step_pos(s, p, c1), c1, c2);
    }
}

} // verus!
