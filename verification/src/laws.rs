use vstd::prelude::*;

use crate::parser::{
    consumed_from, frames_from, header_len, is_match_at, pass_cut, pass_frames, pass_runs,
    FrameType,
};

verus! {

/// No two markers that could both terminate a fully buffered audio frame
/// stand closer than one whole frame. Closer matches can only arise from a
/// marker-shaped byte sequence inside payload or log data, which the wire
/// format cannot distinguish from a true terminator.
pub open spec fn separated(view: Seq<u8>, sync: Seq<u8>) -> bool {
    forall|p: int, q: int|
        is_match_at(view, sync, p) && is_match_at(view, sync, q) && header_len() <= p && p < q
            ==> q - p >= header_len() + sync.len()
}

/// The bytes of the emitted frames, concatenated in emission order.
pub open spec fn frames_bytes(frames: Seq<(FrameType, Seq<u8>)>) -> Seq<u8>
    decreases frames.len(),
{
    if frames.len() == 0 {
        Seq::empty()
    } else {
        frames[0].1 + frames_bytes(frames.drop_first())
    }
}

proof fn lemma_frames_bytes_cons(x: (FrameType, Seq<u8>), rest: Seq<(FrameType, Seq<u8>)>)
    ensures
        frames_bytes(seq![x] + rest) == x.1 + frames_bytes(rest),
{
    assert((seq![x] + rest).drop_first() =~= rest);
    assert((seq![x] + rest)[0] == x);
}

/// A pass that can resolve no marker from `i` on emits nothing and consumes
/// nothing.
proof fn lemma_no_resolved(view: Seq<u8>, sync: Seq<u8>, i: int, cursor: int)
    requires
        1 <= sync.len(),
        0 <= i,
        forall|p: int| i <= p && is_match_at(view, sync, p) ==> p < header_len(),
    ensures
        consumed_from(view, sync, i) == 0,
        frames_from(view, sync, i, cursor) == Seq::<(FrameType, Seq<u8>)>::empty(),
    decreases view.len() - i,
{
    if i + sync.len() > view.len() {
    } else {
        assert(!(is_match_at(view, sync, i) && i >= header_len()));
        lemma_no_resolved(view, sync, i + 1, cursor);
    }
}

/// Bounds on where the consumed prefix of a pass can end.
proof fn lemma_consumed_bounds(view: Seq<u8>, sync: Seq<u8>, i: int)
    requires
        1 <= sync.len(),
        0 <= i,
    ensures
        consumed_from(view, sync, i) == 0 || consumed_from(view, sync, i) >= i + sync.len(),
        consumed_from(view, sync, i) == 0 || consumed_from(view, sync, i) >= header_len()
            + sync.len(),
        0 <= consumed_from(view, sync, i) <= view.len(),
        consumed_from(view, sync, i) == 0 || (is_match_at(
            view,
            sync,
            consumed_from(view, sync, i) - sync.len(),
        ) && consumed_from(view, sync, i) - sync.len() >= header_len() && consumed_from(
            view,
            sync,
            i,
        ) - sync.len() >= i),
    decreases view.len() - i,
{
    if i + sync.len() > view.len() {
    } else {
        lemma_consumed_bounds(view, sync, i + 1);
    }
}

/// Every marker resolvable at or after `i` lies within the consumed prefix.
proof fn lemma_consumed_covers(view: Seq<u8>, sync: Seq<u8>, i: int, p: int)
    requires
        1 <= sync.len(),
        0 <= i <= p,
        is_match_at(view, sync, p),
        p >= header_len(),
    ensures
        consumed_from(view, sync, i) >= p + sync.len(),
    decreases p - i,
{
    if i < p {
        lemma_consumed_covers(view, sync, i + 1, p);
    } else {
        lemma_consumed_bounds(view, sync, p + 1);
    }
}

/// Markers in a suffix of the view are the markers of the view, shifted.
proof fn lemma_match_skip(view: Seq<u8>, sync: Seq<u8>, c: int, j: int)
    requires
        0 <= c <= view.len(),
        0 <= j,
    ensures
        is_match_at(view.skip(c), sync, j) <==> is_match_at(view, sync, j + c),
{
    if is_match_at(view.skip(c), sync, j) {
        assert forall|k: int| 0 <= k < sync.len() implies view[j + c + k] == sync[k] by {
            assert(view.skip(c)[j + k] == sync[k]);
        }
    }
    if is_match_at(view, sync, j + c) {
        assert forall|k: int| 0 <= k < sync.len() implies view.skip(c)[j + k] == sync[k] by {
            assert(view[j + c + k] == sync[k]);
        }
    }
}

/// Markers in a prefix of the view are the markers of the view that fit in
/// the prefix.
proof fn lemma_match_prefix(view: Seq<u8>, sync: Seq<u8>, m: int, j: int)
    requires
        0 <= m <= view.len(),
        0 <= j,
    ensures
        is_match_at(view.take(m), sync, j) <==> (j + sync.len() <= m && is_match_at(view, sync, j)),
{
    if is_match_at(view.take(m), sync, j) {
        assert forall|k: int| 0 <= k < sync.len() implies view[j + k] == sync[k] by {
            assert(view.take(m)[j + k] == sync[k]);
        }
    }
    if j + sync.len() <= m && is_match_at(view, sync, j) {
        assert forall|k: int| 0 <= k < sync.len() implies view.take(m)[j + k] == sync[k] by {
            assert(view[j + k] == sync[k]);
        }
    }
}

proof fn lemma_frames_bytes_from(view: Seq<u8>, sync: Seq<u8>, i: int, cursor: int)
    requires
        1 <= sync.len(),
        separated(view, sync),
        0 <= cursor <= view.len(),
        0 <= i,
        forall|p: int|
            i <= p && is_match_at(view, sync, p) && p >= header_len() ==> cursor <= p
                - header_len(),
    ensures
        consumed_from(view, sync, i) == 0 ==> frames_bytes(frames_from(view, sync, i, cursor))
            == Seq::<u8>::empty(),
        consumed_from(view, sync, i) != 0 ==> frames_bytes(frames_from(view, sync, i, cursor))
            == view.subrange(cursor, consumed_from(view, sync, i)),
    decreases view.len() - i,
{
    if i + sync.len() > view.len() {
    } else if is_match_at(view, sync, i) && i >= header_len() {
        let a: int = i - header_len();
        let e: int = i + sync.len();
        assert(cursor <= a);
        assert forall|p: int|
            i + 1 <= p && is_match_at(view, sync, p) && p >= header_len() implies e <= p
            - header_len() by {
            assert(is_match_at(view, sync, i));
            assert(p - i >= header_len() + sync.len());
        }
        lemma_frames_bytes_from(view, sync, i + 1, e);
        lemma_consumed_bounds(view, sync, i + 1);
        let rest = frames_from(view, sync, i + 1, e);
        let rc: int = consumed_from(view, sync, i + 1);
        let audio: (FrameType, Seq<u8>) = (FrameType::AudioData, view.subrange(a, e));
        if cursor < a {
            let lg: (FrameType, Seq<u8>) = (FrameType::LogData, view.subrange(cursor, a));
            assert(frames_from(view, sync, i, cursor) =~= seq![lg] + (seq![audio] + rest));
            lemma_frames_bytes_cons(lg, seq![audio] + rest);
            lemma_frames_bytes_cons(audio, rest);
            if rc == 0 {
                assert(frames_bytes(frames_from(view, sync, i, cursor)) =~= view.subrange(
                    cursor,
                    e,
                ));
            } else {
                assert(frames_bytes(frames_from(view, sync, i, cursor)) =~= view.subrange(
                    cursor,
                    rc,
                ));
            }
        } else {
            assert(frames_from(view, sync, i, cursor) =~= seq![audio] + rest);
            lemma_frames_bytes_cons(audio, rest);
            if rc == 0 {
                assert(frames_bytes(frames_from(view, sync, i, cursor)) =~= view.subrange(
                    cursor,
                    e,
                ));
            } else {
                assert(frames_bytes(frames_from(view, sync, i, cursor)) =~= view.subrange(
                    cursor,
                    rc,
                ));
            }
        }
    } else {
        lemma_frames_bytes_from(view, sync, i + 1, cursor);
    }
}

/// Order preservation and no loss: with separated markers, the bytes of the
/// frames one pass emits are, in emission order, exactly the prefix of the
/// buffered view that the pass consumes. In particular the emitted frame
/// lengths sum to the number of bytes the pass discards.
pub proof fn lemma_pass_order(view: Seq<u8>, sync: Seq<u8>)
    requires
        1 <= sync.len(),
        separated(view, sync),
    ensures
        frames_bytes(pass_frames(view, sync)) == view.take(pass_cut(view, sync)),
        pass_cut(view, sync) == frames_bytes(pass_frames(view, sync)).len(),
{
    if pass_runs(view, sync) {
        lemma_frames_bytes_from(view, sync, 0, 0);
        lemma_consumed_bounds(view, sync, 0);
        let c: int = consumed_from(view, sync, 0);
        if c == 0 {
            assert(view.take(0) =~= Seq::<u8>::empty());
        } else {
            assert(view.take(c) =~= view.subrange(0, c));
        }
    } else {
        assert(view.take(0) =~= Seq::<u8>::empty());
    }
}

/// Scanning may begin past a marker-free range without changing the outcome.
proof fn lemma_frames_bridge(view: Seq<u8>, sync: Seq<u8>, lo: int, hi: int, cursor: int)
    requires
        1 <= sync.len(),
        0 <= lo <= hi,
        forall|p: int| lo <= p < hi ==> !is_match_at(view, sync, p),
    ensures
        frames_from(view, sync, lo, cursor) == frames_from(view, sync, hi, cursor),
        consumed_from(view, sync, lo) == consumed_from(view, sync, hi),
    decreases hi - lo,
{
    if lo < hi {
        if lo + sync.len() > view.len() {
            assert(frames_from(view, sync, hi, cursor) == Seq::<(FrameType, Seq<u8>)>::empty());
            assert(consumed_from(view, sync, hi) == 0);
        } else {
            assert(!is_match_at(view, sync, lo));
            lemma_frames_bridge(view, sync, lo + 1, hi, cursor);
        }
    }
}

/// One pass over the whole view decomposes at a prefix boundary `m`: it emits
/// what a pass over the prefix emits, then what scanning on from the first
/// window beyond the prefix emits, with the cursor at the prefix pass's
/// consumed bound.
proof fn lemma_frames_prefix_split(view: Seq<u8>, sync: Seq<u8>, m: int, i: int, cursor: int)
    requires
        1 <= sync.len(),
        0 <= i,
        0 <= cursor,
        sync.len() <= m <= view.len(),
    ensures
        ({
            let b1 = view.take(m);
            let i2: int = if i <= m - sync.len() + 1 {
                m - sync.len() + 1
            } else {
                i
            };
            let pc1: int = consumed_from(b1, sync, i);
            let cc: int = if pc1 == 0 {
                cursor
            } else {
                pc1
            };
            frames_from(view, sync, i, cursor) == frames_from(b1, sync, i, cursor) + frames_from(
                view,
                sync,
                i2,
                cc,
            ) && consumed_from(view, sync, i) == (if consumed_from(view, sync, i2) == 0 {
                pc1
            } else {
                consumed_from(view, sync, i2)
            })
        }),
    decreases view.len() - i,
{
    let b1 = view.take(m);
    if i + sync.len() > m {
        assert(frames_from(b1, sync, i, cursor) == Seq::<(FrameType, Seq<u8>)>::empty());
        assert(consumed_from(b1, sync, i) == 0);
        assert(Seq::<(FrameType, Seq<u8>)>::empty() + frames_from(view, sync, i, cursor)
            =~= frames_from(view, sync, i, cursor));
    } else {
        let i2: int = m - sync.len() + 1;
        lemma_match_prefix(view, sync, m, i);
        if is_match_at(view, sync, i) && i >= header_len() {
            let a: int = i - header_len();
            let e: int = i + sync.len();
            lemma_frames_prefix_split(view, sync, m, i + 1, e);
            assert(b1.subrange(a, e) =~= view.subrange(a, e));
            let rest_b = frames_from(b1, sync, i + 1, e);
            let rest_v = frames_from(view, sync, i + 1, e);
            let pc1p: int = consumed_from(b1, sync, i + 1);
            let ccp: int = if pc1p == 0 {
                e
            } else {
                pc1p
            };
            let audio: (FrameType, Seq<u8>) = (FrameType::AudioData, view.subrange(a, e));
            if cursor < a {
                assert(b1.subrange(cursor, a) =~= view.subrange(cursor, a));
                let lg: (FrameType, Seq<u8>) = (FrameType::LogData, view.subrange(cursor, a));
                assert(frames_from(view, sync, i, cursor) =~= seq![lg] + seq![audio] + rest_v);
                assert(frames_from(b1, sync, i, cursor) =~= seq![lg] + seq![audio] + rest_b);
                assert((seq![lg] + seq![audio] + rest_b) + frames_from(view, sync, i2, ccp)
                    =~= seq![lg] + seq![audio] + (rest_b + frames_from(view, sync, i2, ccp)));
            } else {
                assert(frames_from(view, sync, i, cursor) =~= seq![audio] + rest_v);
                assert(frames_from(b1, sync, i, cursor) =~= seq![audio] + rest_b);
                assert((seq![audio] + rest_b) + frames_from(view, sync, i2, ccp) =~= seq![audio] + (
                rest_b + frames_from(view, sync, i2, ccp)));
            }
        } else {
            lemma_frames_prefix_split(view, sync, m, i + 1, cursor);
        }
    }
}

/// Scanning a suffix is scanning the view from the suffix's start, provided
/// every marker in the suffix leaves room for a whole frame before it.
proof fn lemma_frames_shift(view: Seq<u8>, sync: Seq<u8>, c: int, j: int, d: int)
    requires
        1 <= sync.len(),
        0 <= c <= view.len(),
        0 <= j,
        0 <= d,
        forall|p: int| c <= p && is_match_at(view, sync, p) ==> p - c >= header_len(),
    ensures
        frames_from(view.skip(c), sync, j, d) == frames_from(view, sync, j + c, d + c),
        consumed_from(view.skip(c), sync, j) == (if consumed_from(view, sync, j + c) == 0 {
            0
        } else {
            consumed_from(view, sync, j + c) - c
        }),
    decreases view.len() - c - j,
{
    let s = view.skip(c);
    lemma_match_skip(view, sync, c, j);
    if j + sync.len() > s.len() {
        assert(frames_from(view, sync, j + c, d + c) == Seq::<(FrameType, Seq<u8>)>::empty());
        assert(consumed_from(view, sync, j + c) == 0);
    } else if is_match_at(s, sync, j) {
        assert(j >= header_len());
        let a: int = j - header_len();
        let e: int = j + sync.len();
        lemma_frames_shift(view, sync, c, j + 1, e);
        lemma_consumed_bounds(view, sync, j + c + 1);
        assert(s.subrange(a, e) =~= view.subrange(a + c, e + c));
        if d < a {
            assert(s.subrange(d, a) =~= view.subrange(d + c, a + c));
        }
    } else {
        lemma_frames_shift(view, sync, c, j + 1, d);
    }
}

/// Chunking invariance: cut the stream at any point `m`, run one pass over
/// the first part, keep the unconsumed remainder, append the second part and
/// run another pass; together the two passes emit exactly what one pass over
/// the whole stream emits, and consume exactly as much.
pub proof fn lemma_pass_split(view: Seq<u8>, sync: Seq<u8>, m: int)
    requires
        1 <= sync.len(),
        separated(view, sync),
        0 <= m <= view.len(),
    ensures
        pass_frames(view, sync) == pass_frames(view.take(m), sync) + pass_frames(
            view.skip(pass_cut(view.take(m), sync)),
            sync,
        ),
        pass_cut(view, sync) == pass_cut(view.take(m), sync) + pass_cut(
            view.skip(pass_cut(view.take(m), sync)),
            sync,
        ),
{
    let b1 = view.take(m);
    let c1: int = pass_cut(b1, sync);
    if !pass_runs(b1, sync) {
        assert(view.skip(0) =~= view);
        assert(Seq::<(FrameType, Seq<u8>)>::empty() + pass_frames(view, sync) =~= pass_frames(
            view,
            sync,
        ));
    } else {
        lemma_consumed_bounds(b1, sync, 0);
        if c1 == 0 {
            assert forall|p: int| 0 <= p && is_match_at(b1, sync, p) implies p < header_len() by {
                if p >= header_len() {
                    lemma_consumed_covers(b1, sync, 0, p);
                }
            }
            lemma_no_resolved(b1, sync, 0, 0);
            assert(view.skip(0) =~= view);
            assert(Seq::<(FrameType, Seq<u8>)>::empty() + pass_frames(view, sync) =~= pass_frames(
                view,
                sync,
            ));
        } else {
            let q: int = c1 - sync.len();
            lemma_match_prefix(view, sync, m, q);
            assert(is_match_at(view, sync, q) && q >= header_len());
            lemma_frames_prefix_split(view, sync, m, 0, 0);
            let i2: int = m - sync.len() + 1;
            let lo: int = if i2 <= c1 {
                i2
            } else {
                c1
            };
            let hi: int = if i2 <= c1 {
                c1
            } else {
                i2
            };
            assert forall|p: int| lo <= p < hi implies !is_match_at(view, sync, p) by {
                if is_match_at(view, sync, p) {
                    if i2 <= c1 {
                        assert(q < p);
                        assert(p - q >= header_len() + sync.len());
                    } else {
                        lemma_match_prefix(view, sync, m, p);
                        lemma_consumed_covers(b1, sync, 0, p);
                    }
                }
            }
            lemma_frames_bridge(view, sync, lo, hi, c1);
            assert forall|p: int| c1 <= p && is_match_at(view, sync, p) implies p - c1
                >= header_len() by {
                if p == q {
                } else {
                    assert(q < p);
                    assert(p - q >= header_len() + sync.len());
                }
            }
            lemma_frames_shift(view, sync, c1, 0, 0);
            let s = view.skip(c1);
            let t: int = consumed_from(view, sync, c1);
            lemma_consumed_bounds(view, sync, c1);
            if pass_runs(s, sync) {
                if t != 0 {
                    assert(pass_cut(view, sync) == c1 + pass_cut(s, sync));
                }
            } else {
                assert forall|p: int| 0 <= p && is_match_at(s, sync, p) implies p
                    < header_len() by {
                    assert(p + sync.len() <= s.len());
                }
                lemma_no_resolved(s, sync, 0, 0);
                assert(t == 0);
                assert(frames_from(view, sync, i2, c1) + Seq::<(FrameType, Seq<u8>)>::empty()
                    =~= frames_from(view, sync, i2, c1));
            }
        }
    }
}

/// Markers in a contiguous part of the view are the markers of the view that
/// fit in that part.
proof fn lemma_match_subrange(view: Seq<u8>, sync: Seq<u8>, x: int, y: int, j: int)
    requires
        0 <= x <= y <= view.len(),
        0 <= j,
    ensures
        is_match_at(view.subrange(x, y), sync, j) <==> (j + sync.len() <= y - x && is_match_at(
            view,
            sync,
            j + x,
        )),
{
    let s = view.subrange(x, y);
    if is_match_at(s, sync, j) {
        assert forall|k: int| 0 <= k < sync.len() implies view[j + x + k] == sync[k] by {
            assert(s[j + k] == sync[k]);
        }
    }
    if j + sync.len() <= y - x && is_match_at(view, sync, j + x) {
        assert forall|k: int| 0 <= k < sync.len() implies s[j + k] == sync[k] by {
            assert(view[j + x + k] == sync[k]);
        }
    }
}

/// Marker separation is inherited by every contiguous part of the view.
proof fn lemma_separated_subrange(view: Seq<u8>, sync: Seq<u8>, x: int, y: int)
    requires
        separated(view, sync),
        0 <= x <= y <= view.len(),
    ensures
        separated(view.subrange(x, y), sync),
{
    let s = view.subrange(x, y);
    assert forall|p: int, q: int|
        is_match_at(s, sync, p) && is_match_at(s, sync, q) && header_len() <= p && p
            < q implies q - p >= header_len() + sync.len() by {
        lemma_match_subrange(view, sync, x, y, p);
        lemma_match_subrange(view, sync, x, y, q);
        assert(is_match_at(view, sync, p + x) && is_match_at(view, sync, q + x));
    }
}

/// The frames emitted when the stream is delivered in stages: before stage
/// `k` the bytes of `view` up to `bounds[k]` have arrived, `c` of them are
/// already consumed, and each stage runs one pass over what is buffered.
pub open spec fn staged_frames(view: Seq<u8>, sync: Seq<u8>, bounds: Seq<int>, c: int) -> Seq<
    (FrameType, Seq<u8>),
>
    decreases bounds.len(),
{
    if bounds.len() == 0 {
        Seq::empty()
    } else {
        let part = view.subrange(c, bounds[0]);
        pass_frames(part, sync) + staged_frames(
            view,
            sync,
            bounds.drop_first(),
            c + pass_cut(part, sync),
        )
    }
}

/// How many bytes of `view` the staged passes consume in all.
pub open spec fn staged_cut(view: Seq<u8>, sync: Seq<u8>, bounds: Seq<int>, c: int) -> int
    decreases bounds.len(),
{
    if bounds.len() == 0 {
        c
    } else {
        let part = view.subrange(c, bounds[0]);
        staged_cut(view, sync, bounds.drop_first(), c + pass_cut(part, sync))
    }
}

/// A valid delivery schedule: stage boundaries never move backwards and the
/// last stage has the whole stream.
pub open spec fn valid_bounds(view: Seq<u8>, bounds: Seq<int>) -> bool {
    &&& bounds.len() >= 1
    &&& forall|k: int| 0 <= k < bounds.len() ==> 0 <= #[trigger] bounds[k] <= view.len()
    &&& forall|k: int| 0 <= k < bounds.len() - 1 ==> #[trigger] bounds[k] <= bounds[k + 1]
    &&& bounds[bounds.len() - 1] == view.len()
}

proof fn lemma_staged_passes(view: Seq<u8>, sync: Seq<u8>, bounds: Seq<int>, c: int)
    requires
        1 <= sync.len(),
        separated(view, sync),
        valid_bounds(view, bounds),
        0 <= c <= bounds[0],
    ensures
        staged_frames(view, sync, bounds, c) == pass_frames(
            view.subrange(c, view.len() as int),
            sync,
        ),
        staged_cut(view, sync, bounds, c) == c + pass_cut(view.subrange(c, view.len() as int), sync),
    decreases bounds.len(),
{
    let whole = view.subrange(c, view.len() as int);
    let part = view.subrange(c, bounds[0]);
    let c1: int = pass_cut(part, sync);
    lemma_separated_subrange(view, sync, c, view.len() as int);
    assert(whole.take(bounds[0] - c) =~= part);
    lemma_pass_split(whole, sync, bounds[0] - c);
    if pass_runs(part, sync) {
        lemma_consumed_bounds(part, sync, 0);
    }
    assert(0 <= c1 <= part.len());
    assert(whole.skip(c1) =~= view.subrange(c + c1, view.len() as int));
    if bounds.len() == 1 {
        assert(bounds[0] == view.len());
        assert(whole =~= part);
        assert(whole.skip(c1) =~= view.subrange(c + c1, view.len() as int));
        lemma_pass_idempotent(whole, sync);
        assert(staged_frames(view, sync, bounds.drop_first(), c + c1) == Seq::<
            (FrameType, Seq<u8>),
        >::empty());
        assert(pass_frames(part, sync) + Seq::<(FrameType, Seq<u8>)>::empty() =~= pass_frames(
            part,
            sync,
        ));
        assert(pass_frames(whole, sync) == pass_frames(part, sync) + pass_frames(
            whole.skip(c1),
            sync,
        ));
        assert(pass_frames(whole.skip(c1), sync) == Seq::<(FrameType, Seq<u8>)>::empty());
        assert(staged_cut(view, sync, bounds, c) == staged_cut(
            view,
            sync,
            bounds.drop_first(),
            c + c1,
        ));
        assert(staged_cut(view, sync, bounds.drop_first(), c + c1) == c + c1);
        assert(pass_cut(whole, sync) == c1 + pass_cut(whole.skip(c1), sync));
        assert(pass_cut(whole.skip(c1), sync) == 0);
    } else {
        let rest = bounds.drop_first();
        assert(rest[0] == bounds[1]);
        assert(rest[rest.len() - 1] == bounds[bounds.len() - 1]);
        assert forall|k: int| 0 <= k < rest.len() implies 0 <= #[trigger] rest[k]
            <= view.len() by {
            assert(rest[k] == bounds[k + 1]);
        }
        assert forall|k: int| 0 <= k < rest.len() - 1 implies #[trigger] rest[k] <= rest[k + 1] by {
            assert(rest[k] == bounds[k + 1] && rest[k + 1] == bounds[k + 2]);
        }
        assert(c + c1 <= bounds[0] <= bounds[1]);
        lemma_staged_passes(view, sync, rest, c + c1);
        assert(staged_cut(view, sync, bounds, c) == staged_cut(view, sync, rest, c + c1));
        assert(pass_cut(whole, sync) == c1 + pass_cut(whole.skip(c1), sync));
        assert(pass_cut(whole.skip(c1), sync) == pass_cut(
            view.subrange(c + c1, view.len() as int),
            sync,
        ));
    }
}

/// Chunking invariance: for any byte stream delivered under any two
/// schedules of chunk boundaries, with one pass per stage, the two runs emit
/// the same frames in the same order and consume the same bytes, namely what
/// a single pass over the whole stream emits and consumes.
pub proof fn lemma_chunking_invariance(
    view: Seq<u8>,
    sync: Seq<u8>,
    bounds_a: Seq<int>,
    bounds_b: Seq<int>,
)
    requires
        1 <= sync.len(),
        separated(view, sync),
        valid_bounds(view, bounds_a),
        valid_bounds(view, bounds_b),
    ensures
        staged_frames(view, sync, bounds_a, 0) == pass_frames(view, sync),
        staged_frames(view, sync, bounds_a, 0) == staged_frames(view, sync, bounds_b, 0),
        staged_cut(view, sync, bounds_a, 0) == staged_cut(view, sync, bounds_b, 0),
{
    lemma_staged_passes(view, sync, bounds_a, 0);
    lemma_staged_passes(view, sync, bounds_b, 0);
    assert(view.subrange(0, view.len() as int) =~= view);
}

/// What a pass leaves buffered is what it buffered before, less exactly the
/// bytes of the frames it emitted.
pub proof fn lemma_pass_discard_matches_emission(view: Seq<u8>, sync: Seq<u8>)
    requires
        1 <= sync.len(),
        separated(view, sync),
    ensures
        view.skip(pass_cut(view, sync)).len() == view.len() - frames_bytes(
            pass_frames(view, sync),
        ).len(),
{
    lemma_pass_order(view, sync);
    if pass_runs(view, sync) {
        lemma_consumed_bounds(view, sync, 0);
    }
}

/// Idempotent discard: after one pass, a second pass over what remains, with
/// no new data, emits nothing and discards nothing.
pub proof fn lemma_pass_idempotent(view: Seq<u8>, sync: Seq<u8>)
    requires
        1 <= sync.len(),
    ensures
        pass_frames(view.skip(pass_cut(view, sync)), sync) == Seq::<(FrameType, Seq<u8>)>::empty(),
        pass_cut(view.skip(pass_cut(view, sync)), sync) == 0,
{
    let c: int = pass_cut(view, sync);
    let s = view.skip(c);
    if pass_runs(view, sync) {
        lemma_consumed_bounds(view, sync, 0);
        assert forall|p: int| 0 <= p && is_match_at(s, sync, p) implies p < header_len() by {
            lemma_match_skip(view, sync, c, p);
            if p + c >= header_len() {
                lemma_consumed_covers(view, sync, 0, p + c);
            }
        }
        lemma_no_resolved(s, sync, 0, 0);
    } else {
        assert(s =~= view);
        assert forall|p: int| 0 <= p && is_match_at(s, sync, p) implies p < header_len() by {
            assert(p + sync.len() <= view.len());
        }
        lemma_no_resolved(s, sync, 0, 0);
    }
}

} // verus!
