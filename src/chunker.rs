//! Splitting a token sequence into decodable windows.
//!
//! The walk over the tokens is a small state machine. A state is the window
//! `[start, end)` under trial and the chunks produced so far. Each decode
//! attempt yields an outcome: the decoded text, or a failure. On success the
//! text becomes a chunk and the next window begins where this one ended. On
//! failure the window is extended by one token, or, once it reaches the end of
//! the sequence, its start is advanced by one token; when no token is left to
//! skip, the walk terminates.
use crate::error::AppError;
use crate::tokenizer::{decode_tokens, decoding_of, encode_text, encoding_of, is_cl100k, load_cl100k};
use tiktoken_rs::CoreBPE;
use vstd::prelude::*;

verus! {

/// The window width used for a limit: at least one token.
pub open spec fn width_of(max_tokens: int) -> int {
    if max_tokens <= 0 {
        1
    } else {
        max_tokens
    }
}

/// The end of a fresh window starting at `start`: `start` plus the width,
/// clamped to `total`.
pub open spec fn window_end(start: int, max_tokens: int, total: int) -> int {
    if start + width_of(max_tokens) < total {
        start + width_of(max_tokens)
    } else {
        total
    }
}

/// What to do after the window `[start, end)` failed to decode.
#[derive(Debug, Clone, Copy, PartialEq, Eq, Structural)]
pub enum Retry {
    /// Grow the window by one token: the new end.
    ExtendWindow { end: usize },
    /// Skip the first token of the window: the new start and end.
    AdvanceStart { start: usize, end: usize },
    /// Nothing is left to skip: stop the walk.
    Terminate,
}

/// The transition taken on a failed decode of `[start, end)`.
pub open spec fn retry_spec(start: int, end: int, total: int, max_tokens: int) -> Retry {
    if end < total {
        Retry::ExtendWindow { end: (end + 1) as usize }
    } else if start + 1 < total {
        Retry::AdvanceStart {
            start: (start + 1) as usize,
            end: window_end(start + 1, max_tokens, total) as usize,
        }
    } else {
        Retry::Terminate
    }
}

/// A state of the walk: window start, window end, chunks produced so far.
pub type Progress = (int, int, Seq<Seq<char>>);

/// The state before the first attempt.
pub open spec fn initial(total: int, max_tokens: int) -> Progress {
    (0, window_end(0, max_tokens, total), Seq::empty())
}

/// The state after one attempt whose outcome is `outcome`.
pub open spec fn advance(p: Progress, total: int, max_tokens: int, outcome: Option<Seq<char>>) -> Progress {
    match outcome {
        Some(text) => (p.1, window_end(p.1, max_tokens, total), p.2.push(text)),
        None => match retry_spec(p.0, p.1, total, max_tokens) {
            Retry::ExtendWindow { end } => (p.0, end as int, p.2),
            Retry::AdvanceStart { start, end } => (start as int, end as int, p.2),
            Retry::Terminate => (total, p.1, p.2),
        },
    }
}

/// The state reached after the attempts whose outcomes are `outs`, in order.
pub open spec fn replay(total: int, max_tokens: int, outs: Seq<Option<Seq<char>>>) -> Progress
    decreases outs.len(),
{
    if outs.len() == 0 {
        initial(total, max_tokens)
    } else {
        advance(replay(total, max_tokens, outs.drop_last()), total, max_tokens, outs.last())
    }
}

/// Every attempt of `outs` was made from a state that still had tokens left.
pub open spec fn attempts_live(total: int, max_tokens: int, outs: Seq<Option<Seq<char>>>) -> bool {
    forall|i: int| 0 <= i < outs.len() ==> (#[trigger] replay(total, max_tokens, outs.take(i))).0 < total
}

/// `outs` is a complete walk over `total` tokens that produced `chunks`.
pub open spec fn walk_yields(
    total: int,
    max_tokens: int,
    outs: Seq<Option<Seq<char>>>,
    chunks: Seq<Seq<char>>,
) -> bool {
    &&& attempts_live(total, max_tokens, outs)
    &&& replay(total, max_tokens, outs).0 >= total
    &&& replay(total, max_tokens, outs).2 == chunks
}

/// The shape of a state: `0 <= start <= end <= total`, and the window is
/// non-empty while tokens are left.
pub open spec fn well_formed(p: Progress, total: int) -> bool {
    &&& 0 <= p.0 <= p.1 <= total
    &&& p.0 < total ==> p.0 < p.1
}

/// The end of a fresh window starting at `start`.
pub fn first_end(start: usize, max_tokens: usize, total: usize) -> (r: usize)
    requires
        start <= total,
    ensures
        r == window_end(start as int, max_tokens as int, total as int),
{
    let width: usize = if max_tokens == 0 { 1 } else { max_tokens };
    if width < total - start {
        start + width
    } else {
        total
    }
}

/// The transition after the window `[start, end)` of `total` tokens failed to
/// decode.
pub fn on_decode_failure(start: usize, end: usize, total: usize, max_tokens: usize) -> (r: Retry)
    requires
        start <= end <= total,
    ensures
        r == retry_spec(start as int, end as int, total as int, max_tokens as int),
{
    if end < total {
        Retry::ExtendWindow { end: end + 1 }
    } else if total - start > 1 {
        Retry::AdvanceStart { start: start + 1, end: first_end(start + 1, max_tokens, total) }
    } else {
        Retry::Terminate
    }
}

/// The characters of a decode result, if any.
pub open spec fn chars_of(r: Option<String>) -> Option<Seq<char>> {
    match r {
        Some(s) => Some(s@),
        None => None,
    }
}

/// The characters of each string.
pub open spec fn texts(v: Seq<String>) -> Seq<Seq<char>> {
    v.map_values(|s: String| s@)
}

/// `decode` may answer `outcome` for the tokens `window`.
pub open spec fn may_decode<F: Fn(Vec<u32>) -> Option<String>>(
    decode: F,
    window: Seq<u32>,
    outcome: Option<Seq<char>>,
) -> bool {
    exists|v: Vec<u32>, r: Option<String>|
        #[trigger] decode.ensures((v,), r) && v@ == window && chars_of(r) == outcome
}

/// The window under trial in the state `p`.
pub open spec fn window_of(ids: Seq<u32>, p: Progress) -> Seq<u32> {
    ids.subrange(p.0, p.1)
}

/// Each outcome of `outs` is an answer of `decode` for the window tried at
/// that step.
pub open spec fn faithful<F: Fn(Vec<u32>) -> Option<String>>(
    decode: F,
    ids: Seq<u32>,
    max_tokens: int,
    outs: Seq<Option<Seq<char>>>,
) -> bool {
    forall|i: int|
        0 <= i < outs.len() ==> may_decode(
            decode,
            window_of(ids, #[trigger] replay(ids.len() as int, max_tokens, outs.take(i))),
            outs[i],
        )
}

/// `chunks` is what a walk over `ids` produces with the answers of `decode`.
pub open spec fn decoded_walk<F: Fn(Vec<u32>) -> Option<String>>(
    decode: F,
    ids: Seq<u32>,
    max_tokens: int,
    chunks: Seq<Seq<char>>,
) -> bool {
    exists|outs: Seq<Option<Seq<char>>>|
        #[trigger] walk_yields(ids.len() as int, max_tokens, outs, chunks) && faithful(
            decode,
            ids,
            max_tokens,
            outs,
        )
}

/// A copy of the tokens `ids[start..end]`.
pub fn copy_window(ids: &Vec<u32>, start: usize, end: usize) -> (r: Vec<u32>)
    requires
        start <= end <= ids.len(),
    ensures
        r@ == ids@.subrange(start as int, end as int),
{
    let mut r: Vec<u32> = Vec::with_capacity(end - start);
    let mut i: usize = start;
    while i < end
        invariant
            start <= i <= end <= ids.len(),
            r@ == ids@.subrange(start as int, i as int),
        decreases end - i,
    {
        r.push(ids[i]);
        i = i + 1;
    }
    r
}

proof fn lemma_replay_well_formed(total: int, max_tokens: int, outs: Seq<Option<Seq<char>>>)
    requires
        0 <= total <= usize::MAX,
        attempts_live(total, max_tokens, outs),
    ensures
        well_formed(replay(total, max_tokens, outs), total),
    decreases outs.len(),
{
    if outs.len() > 0 {
        let prev = outs.drop_last();
        assert forall|i: int| 0 <= i < prev.len() implies (#[trigger] replay(
            total,
            max_tokens,
            prev.take(i),
        )).0 < total by {
            assert(prev.take(i) =~= outs.take(i));
        }
        lemma_replay_well_formed(total, max_tokens, prev);
        assert(outs.take(outs.len() - 1) =~= prev);
        assert(replay(total, max_tokens, outs.take(outs.len() - 1)).0 < total);
    }
}

/// Splits `ids` into decodable windows of at most `max_tokens` tokens (at
/// least one), asking `decode` for the text of each window tried, and
/// extending, advancing or stopping on failures.
pub fn split_token_ids<F: Fn(Vec<u32>) -> Option<String>>(
    ids: &Vec<u32>,
    max_tokens: usize,
    decode: &F,
) -> (r: Vec<String>)
    requires
        forall|v: Vec<u32>| decode.requires((v,)),
    ensures
        decoded_walk(*decode, ids@, max_tokens as int, texts(r@)),
{
    let total = ids.len();
    let ghost t = total as int;
    let ghost m = max_tokens as int;
    let mut start: usize = 0;
    let mut end: usize = first_end(0, max_tokens, total);
    let mut chunks: Vec<String> = Vec::new();
    let ghost mut outs: Seq<Option<Seq<char>>> = Seq::empty();
    assert(texts(chunks@) =~= Seq::empty());
    while start < total
        invariant
            total == ids.len(),
            t == total,
            m == max_tokens,
            forall|v: Vec<u32>| decode.requires((v,)),
            replay(t, m, outs) == (start as int, end as int, texts(chunks@)),
            attempts_live(t, m, outs),
            faithful(*decode, ids@, m, outs),
            start <= end <= total,
            start < total ==> start < end,
        decreases total - start, total - end,
    {
        let window = copy_window(ids, start, end);
        let answer = decode(window);
        let ghost before = outs;
        proof {
            outs = outs.push(chars_of(answer));
            assert(outs.drop_last() =~= before);
            assert(outs.take(before.len() as int) =~= before);
            assert forall|i: int| 0 <= i < outs.len() implies (#[trigger] replay(
                t,
                m,
                outs.take(i),
            )).0 < t by {
                if i < before.len() {
                    assert(outs.take(i) =~= before.take(i));
                }
            }
            assert(may_decode(*decode, window_of(ids@, replay(t, m, before)), chars_of(answer)));
            assert forall|i: int| 0 <= i < outs.len() implies may_decode(
                *decode,
                window_of(ids@, #[trigger] replay(t, m, outs.take(i))),
                outs[i],
            ) by {
                if i < before.len() {
                    assert(outs.take(i) =~= before.take(i));
                }
            }
        }
        match answer {
            Some(text) => {
                chunks.push(text);
                start = end;
                end = first_end(end, max_tokens, total);
                assert(texts(chunks@) =~= replay(t, m, before).2.push(text@));
            },
            None => {
                match on_decode_failure(start, end, total, max_tokens) {
                    Retry::ExtendWindow { end: e } => {
                        end = e;
                    },
                    Retry::AdvanceStart { start: s, end: e } => {
                        start = s;
                        end = e;
                    },
                    Retry::Terminate => {
                        start = total;
                    },
                }
            },
        }
    }
    proof {
        assert(walk_yields(t, m, outs, texts(chunks@)));
    }
    chunks
}

/// What splitting `content`, encoded as `ids`, by `max_tokens` yields with the
/// answers of `decode`: nothing for an empty text, the text itself when its
/// tokens are within the limit, and otherwise the chunks of a walk.
pub open spec fn split_yields<F: Fn(Vec<u32>) -> Option<String>>(
    decode: F,
    content: Seq<char>,
    ids: Seq<u32>,
    max_tokens: int,
    chunks: Seq<Seq<char>>,
) -> bool {
    if content.len() == 0 {
        chunks.len() == 0
    } else if ids.len() <= max_tokens {
        chunks == seq![content]
    } else {
        decoded_walk(decode, ids, max_tokens, chunks)
    }
}

/// Every outcome of `outs` is what `tokenizer` gives the window tried at
/// that step.
pub open spec fn tokenizer_answers(
    tokenizer: CoreBPE,
    ids: Seq<u32>,
    max_tokens: int,
    outs: Seq<Option<Seq<char>>>,
) -> bool {
    forall|i: int|
        0 <= i < outs.len() ==> outs[i] == decoding_of(
            tokenizer,
            window_of(ids, #[trigger] replay(ids.len() as int, max_tokens, outs.take(i))),
        )
}

/// What splitting `content` by `max_tokens` with `tokenizer` yields, once
/// the text is encoded: nothing for an empty text, the text itself when its
/// encoding is within the limit, and otherwise the chunks of a walk over its
/// encoding whose every outcome is the tokenizer's decoding of the window
/// tried.
pub open spec fn split_by_tokenizer(
    tokenizer: CoreBPE,
    content: Seq<char>,
    max_tokens: int,
    chunks: Seq<Seq<char>>,
) -> bool {
    let ids = encoding_of(tokenizer, content).unwrap();
    if content.len() == 0 {
        chunks.len() == 0
    } else if ids.len() <= max_tokens {
        chunks == seq![content]
    } else {
        exists|outs: Seq<Option<Seq<char>>>|
            #[trigger] walk_yields(ids.len() as int, max_tokens, outs, chunks) && tokenizer_answers(
                tokenizer,
                ids,
                max_tokens,
                outs,
            )
    }
}

/// A measure of the work left in the state `p`; each attempt from a live state
/// lowers it by at least one.
pub open spec fn potential(p: Progress, total: int) -> int {
    (total - p.0) * (total + 1) + (total - p.1) + 1
}

proof fn lemma_live_prefix(total: int, max_tokens: int, outs: Seq<Option<Seq<char>>>)
    requires
        outs.len() > 0,
        attempts_live(total, max_tokens, outs),
    ensures
        attempts_live(total, max_tokens, outs.drop_last()),
        replay(total, max_tokens, outs.drop_last()).0 < total,
{
    let prev = outs.drop_last();
    assert forall|i: int| 0 <= i < prev.len() implies (#[trigger] replay(
        total,
        max_tokens,
        prev.take(i),
    )).0 < total by {
        assert(prev.take(i) =~= outs.take(i));
    }
    assert(outs.take(outs.len() - 1) =~= prev);
    assert(replay(total, max_tokens, outs.take(outs.len() - 1)).0 < total);
}

proof fn lemma_potential_falls(total: int, max_tokens: int, outs: Seq<Option<Seq<char>>>)
    requires
        0 <= total <= usize::MAX,
        attempts_live(total, max_tokens, outs),
    ensures
        replay(total, max_tokens, outs).0 < total ==> potential(replay(total, max_tokens, outs), total)
            + outs.len() <= potential(initial(total, max_tokens), total),
        outs.len() <= potential(initial(total, max_tokens), total),
    decreases outs.len(),
{
    let t = total;
    let e0 = window_end(0, max_tokens, t);
    assert(potential(initial(t, max_tokens), t) >= 1) by (nonlinear_arith)
        requires
            0 <= e0 <= t,
            potential(initial(t, max_tokens), t) == t * (t + 1) + (t - e0) + 1,
    ;
    if outs.len() > 0 {
        let prev = outs.drop_last();
        lemma_live_prefix(t, max_tokens, outs);
        lemma_potential_falls(t, max_tokens, prev);
        lemma_replay_well_formed(t, max_tokens, prev);
        let p = replay(t, max_tokens, prev);
        let q = replay(t, max_tokens, outs);
        let (s, e) = (p.0, p.1);
        assert(potential(p, t) >= 1) by (nonlinear_arith)
            requires
                0 <= s <= e <= t,
                potential(p, t) == (t - s) * (t + 1) + (t - e) + 1,
        ;
        if q.0 < t {
            match outs.last() {
                Some(_) => {
                    let e2 = q.1;
                    assert(potential(q, t) + 1 <= potential(p, t)) by (nonlinear_arith)
                        requires
                            0 <= s < e <= e2 <= t,
                            potential(p, t) == (t - s) * (t + 1) + (t - e) + 1,
                            potential(q, t) == (t - e) * (t + 1) + (t - e2) + 1,
                    ;
                },
                None => {
                    if e >= t {
                        let e2 = q.1;
                        assert(q.0 == s + 1);
                        assert(potential(q, t) + 1 <= potential(p, t)) by (nonlinear_arith)
                            requires
                                0 <= s < e2 <= t,
                                e == t,
                                potential(p, t) == (t - s) * (t + 1) + (t - e) + 1,
                                potential(q, t) == (t - (s + 1)) * (t + 1) + (t - e2) + 1,
                        ;
                    }
                },
            }
        }
    }
}

/// Termination: whatever `decode` answers, a walk over `total` tokens makes
/// at most `(total + 1)²` decode attempts.
pub proof fn walk_attempts_bounded(total: int, max_tokens: int, outs: Seq<Option<Seq<char>>>)
    requires
        0 <= total <= usize::MAX,
        attempts_live(total, max_tokens, outs),
    ensures
        outs.len() <= (total + 1) * (total + 1),
{
    lemma_potential_falls(total, max_tokens, outs);
    let e0 = window_end(0, max_tokens, total);
    assert(potential(initial(total, max_tokens), total) <= (total + 1) * (total + 1)) by (nonlinear_arith)
        requires
            0 <= e0 <= total,
            potential(initial(total, max_tokens), total) == total * (total + 1) + (total - e0) + 1,
    ;
}

proof fn lemma_start_counts_successes(total: int, max_tokens: int, outs: Seq<Option<Seq<char>>>)
    requires
        0 <= total <= usize::MAX,
        attempts_live(total, max_tokens, outs),
        forall|i: int| 0 <= i < outs.len() ==> (#[trigger] outs[i]) is Some,
    ensures
        replay(total, max_tokens, outs).0 >= outs.len(),
    decreases outs.len(),
{
    if outs.len() > 0 {
        let prev = outs.drop_last();
        lemma_live_prefix(total, max_tokens, outs);
        lemma_replay_well_formed(total, max_tokens, prev);
        assert forall|i: int| 0 <= i < prev.len() implies (#[trigger] prev[i]) is Some by {
            assert(prev[i] == outs[i]);
        }
        lemma_start_counts_successes(total, max_tokens, prev);
        assert(outs.last() is Some);
    }
}

/// When every attempt decodes, a walk over `total` tokens makes at most
/// `total` attempts.
pub proof fn walk_without_failures_is_linear(total: int, max_tokens: int, outs: Seq<Option<Seq<char>>>)
    requires
        0 <= total <= usize::MAX,
        attempts_live(total, max_tokens, outs),
        forall|i: int| 0 <= i < outs.len() ==> (#[trigger] outs[i]) is Some,
    ensures
        outs.len() <= total,
{
    if outs.len() > 0 {
        let prev = outs.drop_last();
        lemma_live_prefix(total, max_tokens, outs);
        assert forall|i: int| 0 <= i < prev.len() implies (#[trigger] prev[i]) is Some by {
            assert(prev[i] == outs[i]);
        }
        lemma_start_counts_successes(total, max_tokens, prev);
    }
}

proof fn lemma_steady_walk(total: int, max_tokens: int, outs: Seq<Option<Seq<char>>>)
    requires
        0 <= total <= usize::MAX,
        attempts_live(total, max_tokens, outs),
        forall|i: int| 0 <= i < outs.len() ==> (#[trigger] outs[i]) is Some,
    ensures
        replay(total, max_tokens, outs).0 == if outs.len() * width_of(max_tokens) < total {
            outs.len() * width_of(max_tokens)
        } else {
            total
        },
        replay(total, max_tokens, outs).1 == window_end(
            replay(total, max_tokens, outs).0,
            max_tokens,
            total,
        ),
        replay(total, max_tokens, outs).2.len() == outs.len(),
    decreases outs.len(),
{
    let w = width_of(max_tokens);
    if outs.len() > 0 {
        let prev = outs.drop_last();
        let k = outs.len() as int;
        lemma_live_prefix(total, max_tokens, outs);
        assert forall|i: int| 0 <= i < prev.len() implies (#[trigger] prev[i]) is Some by {
            assert(prev[i] == outs[i]);
        }
        lemma_steady_walk(total, max_tokens, prev);
        assert(outs.last() is Some);
        let p = replay(total, max_tokens, prev);
        assert((k - 1) * w + w == k * w) by (nonlinear_arith);
        assert(p.0 == (k - 1) * w);
    }
}

/// When every attempt decodes, a complete walk over `total > 0` tokens
/// yields `ceil(total / width)` chunks, the width being `max_tokens` (at
/// least one).
pub proof fn walk_without_failures_chunk_count(total: int, max_tokens: int, outs: Seq<Option<Seq<char>>>)
    requires
        0 < total <= usize::MAX,
        attempts_live(total, max_tokens, outs),
        replay(total, max_tokens, outs).0 >= total,
        forall|i: int| 0 <= i < outs.len() ==> (#[trigger] outs[i]) is Some,
    ensures
        replay(total, max_tokens, outs).2.len() == (total + width_of(max_tokens) - 1) / width_of(
            max_tokens,
        ),
{
    let w = width_of(max_tokens);
    let k = outs.len() as int;
    lemma_steady_walk(total, max_tokens, outs);
    assert(k > 0) by {
        if k == 0 {
            assert(replay(total, max_tokens, outs).0 == 0);
        }
    }
    let prev = outs.drop_last();
    lemma_live_prefix(total, max_tokens, outs);
    assert forall|i: int| 0 <= i < prev.len() implies (#[trigger] prev[i]) is Some by {
        assert(prev[i] == outs[i]);
    }
    lemma_steady_walk(total, max_tokens, prev);
    assert((k - 1) * w < total);
    assert(k * w >= total) by (nonlinear_arith)
        requires
            replay(total, max_tokens, outs).0 >= total,
            replay(total, max_tokens, outs).0 == if k * w < total {
                k * w
            } else {
                total
            },
    ;
    assert(k == (total + w - 1) / w) by (nonlinear_arith)
        requires
            w >= 1,
            (k - 1) * w < total,
            k * w >= total,
    ;
}

/// Every attempt of `outs` decoded, to `text_of` of its window.
pub open spec fn all_decoded(
    ids: Seq<u32>,
    max_tokens: int,
    outs: Seq<Option<Seq<char>>>,
    text_of: spec_fn(Seq<u32>) -> Seq<char>,
) -> bool {
    forall|i: int|
        0 <= i < outs.len() ==> outs[i] == Some(
            text_of(window_of(ids, #[trigger] replay(ids.len() as int, max_tokens, outs.take(i)))),
        )
}

/// Decoding `ids` in consecutive non-empty runs loses nothing: the text of a
/// prefix is the text of a shorter non-empty prefix followed by the text of
/// the run between them.
pub open spec fn lossless_on_runs(ids: Seq<u32>, text_of: spec_fn(Seq<u32>) -> Seq<char>) -> bool {
    forall|a: int, b: int|
        #![trigger text_of(ids.subrange(0, b)), text_of(ids.subrange(a, b))]
        0 < a < b <= ids.len() ==> text_of(ids.subrange(0, b)) == text_of(ids.subrange(0, a))
            + text_of(ids.subrange(a, b))
}

proof fn lemma_decoded_prefix(
    ids: Seq<u32>,
    max_tokens: int,
    outs: Seq<Option<Seq<char>>>,
    text_of: spec_fn(Seq<u32>) -> Seq<char>,
)
    requires
        ids.len() <= usize::MAX,
        attempts_live(ids.len() as int, max_tokens, outs),
        all_decoded(ids, max_tokens, outs, text_of),
        lossless_on_runs(ids, text_of),
    ensures
        replay(ids.len() as int, max_tokens, outs).0 == 0 ==> replay(
            ids.len() as int,
            max_tokens,
            outs,
        ).2.flatten().len() == 0,
        replay(ids.len() as int, max_tokens, outs).0 > 0 ==> replay(
            ids.len() as int,
            max_tokens,
            outs,
        ).2.flatten() == text_of(ids.subrange(0, replay(ids.len() as int, max_tokens, outs).0)),
    decreases outs.len(),
{
    broadcast use Seq::lemma_flatten_push;

    let t = ids.len() as int;
    if outs.len() > 0 {
        let prev = outs.drop_last();
        lemma_live_prefix(t, max_tokens, outs);
        lemma_replay_well_formed(t, max_tokens, prev);
        assert forall|i: int| 0 <= i < prev.len() implies prev[i] == Some(
            text_of(window_of(ids, #[trigger] replay(t, max_tokens, prev.take(i)))),
        ) by {
            assert(prev.take(i) =~= outs.take(i));
        }
        lemma_decoded_prefix(ids, max_tokens, prev, text_of);
        let p = replay(t, max_tokens, prev);
        assert(outs.take(outs.len() - 1) =~= prev);
        let w = window_of(ids, replay(t, max_tokens, outs.take(outs.len() - 1)));
        assert(outs[outs.len() - 1] == Some(text_of(w)));
        assert(w == ids.subrange(p.0, p.1));
        if p.0 == 0 {
            assert(p.2.flatten() =~= Seq::<char>::empty());
            assert(p.2.flatten() + text_of(w) =~= text_of(w));
        } else {
            assert(text_of(ids.subrange(0, p.1)) == text_of(ids.subrange(0, p.0)) + text_of(
                ids.subrange(p.0, p.1),
            ));
        }
    }
}

/// Reconstruction: when every window tried decodes, and decoding loses
/// nothing on consecutive runs of `ids`, the chunks of a complete walk joined
/// are the text of all the tokens.
pub proof fn walk_reconstructs(
    ids: Seq<u32>,
    max_tokens: int,
    outs: Seq<Option<Seq<char>>>,
    text_of: spec_fn(Seq<u32>) -> Seq<char>,
)
    requires
        0 < ids.len() <= usize::MAX,
        walk_yields(ids.len() as int, max_tokens, outs, replay(ids.len() as int, max_tokens, outs).2),
        all_decoded(ids, max_tokens, outs, text_of),
        lossless_on_runs(ids, text_of),
    ensures
        replay(ids.len() as int, max_tokens, outs).2.flatten() == text_of(ids),
{
    lemma_decoded_prefix(ids, max_tokens, outs, text_of);
    lemma_replay_well_formed(ids.len() as int, max_tokens, outs);
    assert(ids.subrange(0, ids.len() as int) =~= ids);
}

/// An empty text splits into no chunk, whatever the limit.
pub proof fn split_of_empty_is_empty(tokenizer: CoreBPE, max_tokens: int, chunks: Seq<Seq<char>>)
    requires
        split_by_tokenizer(tokenizer, Seq::empty(), max_tokens, chunks),
    ensures
        chunks.len() == 0,
{
}

/// A non-empty text whose tokens are within the limit is its own single chunk.
pub proof fn split_within_limit_is_identity(
    tokenizer: CoreBPE,
    content: Seq<char>,
    max_tokens: int,
    chunks: Seq<Seq<char>>,
)
    requires
        content.len() > 0,
        encoding_of(tokenizer, content) matches Some(ids) && ids.len() <= max_tokens,
        split_by_tokenizer(tokenizer, content, max_tokens, chunks),
    ensures
        chunks == seq![content],
{
}

/// Reconstruction through a tokenizer: when the text encodes to `ids`, every
/// window that the split tries decodes, and the tokenizer's decoding of
/// consecutive runs of `ids` loses nothing and gives back `content`, the
/// chunks joined are `content`.
pub proof fn split_reconstructs(
    tokenizer: CoreBPE,
    content: Seq<char>,
    ids: Seq<u32>,
    max_tokens: int,
    outs: Seq<Option<Seq<char>>>,
    chunks: Seq<Seq<char>>,
)
    requires
        encoding_of(tokenizer, content) == Some(ids),
        0 <= max_tokens,
        ids.len() <= usize::MAX,
        split_by_tokenizer(tokenizer, content, max_tokens, chunks),
        ids.len() > max_tokens ==> walk_yields(ids.len() as int, max_tokens, outs, chunks)
            && tokenizer_answers(tokenizer, ids, max_tokens, outs),
        forall|i: int| 0 <= i < outs.len() ==> (#[trigger] outs[i]) is Some,
        lossless_on_runs(ids, |w: Seq<u32>| decoding_of(tokenizer, w).unwrap()),
        decoding_of(tokenizer, ids) == Some(content),
    ensures
        chunks.flatten() == content,
{
    broadcast use Seq::lemma_flatten_singleton;

    if content.len() == 0 {
        assert(chunks =~= Seq::<Seq<char>>::empty());
        assert(chunks.flatten() =~= content);
    } else if ids.len() <= max_tokens {
        assert(chunks.len() == 1);
    } else {
        let text_of = |w: Seq<u32>| decoding_of(tokenizer, w).unwrap();
        assert forall|i: int| 0 <= i < outs.len() implies outs[i] == Some(
            text_of(window_of(ids, #[trigger] replay(ids.len() as int, max_tokens, outs.take(i)))),
        ) by {
            assert(outs[i] is Some);
        }
        walk_reconstructs(ids, max_tokens, outs, text_of);
    }
}

/// When every window that the split tries decodes, a text whose encoding
/// `ids` exceeds the limit splits into `ceil(ids.len() / width)` chunks, the
/// width being `max_tokens` (at least one).
pub proof fn split_without_failures_chunk_count(
    tokenizer: CoreBPE,
    content: Seq<char>,
    ids: Seq<u32>,
    max_tokens: int,
    outs: Seq<Option<Seq<char>>>,
    chunks: Seq<Seq<char>>,
)
    requires
        content.len() > 0,
        encoding_of(tokenizer, content) == Some(ids),
        0 <= max_tokens < ids.len() <= usize::MAX,
        walk_yields(ids.len() as int, max_tokens, outs, chunks),
        forall|i: int| 0 <= i < outs.len() ==> (#[trigger] outs[i]) is Some,
    ensures
        chunks.len() == (ids.len() + width_of(max_tokens) - 1) / width_of(max_tokens),
{
    walk_without_failures_chunk_count(ids.len() as int, max_tokens, outs);
}

/// Splits `content`, whose encoding is `ids`, into chunks of at most
/// `max_tokens` tokens, decoding windows with `decode`.
pub fn split_encoded<F: Fn(Vec<u32>) -> Option<String>>(
    content: String,
    ids: Vec<u32>,
    max_tokens: usize,
    decode: &F,
) -> (r: Vec<String>)
    requires
        forall|v: Vec<u32>| decode.requires((v,)),
    ensures
        split_yields(*decode, content@, ids@, max_tokens as int, texts(r@)),
{
    if content.as_str().is_empty() {
        let r: Vec<String> = Vec::new();
        assert(texts(r@) =~= Seq::empty());
        return r;
    }
    if ids.len() <= max_tokens {
        let ghost c = content@;
        let r = vec![content];
        assert(texts(r@) =~= seq![c]);
        return r;
    }
    split_token_ids(&ids, max_tokens, decode)
}

/// Splits `content` into chunks of at most `max_tokens` tokens of
/// `tokenizer`; a window that does not decode is extended, or its first token
/// skipped. Fails only where the text cannot be encoded.
pub fn split_text_by_max_tokens(content: String, max_tokens: usize, tokenizer: &CoreBPE) -> (r: Result<
    Vec<String>,
    AppError,
>)
    requires
        is_cl100k(*tokenizer),
    ensures
        r is Ok <==> content@.len() == 0 || encoding_of(*tokenizer, content@) is Some,
        r matches Ok(v) ==> split_by_tokenizer(*tokenizer, content@, max_tokens as int, texts(v@)),
{
    if content.as_str().is_empty() {
        let r: Vec<String> = Vec::new();
        assert(texts(r@) =~= Seq::empty());
        return Ok(r);
    }
    let ids = match encode_text(tokenizer, content.as_str()) {
        Ok(ids) => ids,
        Err(e) => {
            return Err(AppError::Encode(e));
        },
    };
    let ghost tokens = ids@;
    let ghost tok = *tokenizer;
    let decode = |w: Vec<u32>| -> (d: Option<String>)
        ensures
            chars_of(d) == decoding_of(*tokenizer, w@),
        { decode_tokens(tokenizer, w) };
    let chunks = split_encoded(content, ids, max_tokens, &decode);
    proof {
        if tokens.len() > max_tokens {
            let m = max_tokens as int;
            let outs = choose|outs: Seq<Option<Seq<char>>>|
                #[trigger] walk_yields(tokens.len() as int, m, outs, texts(chunks@))
                    && faithful(decode, tokens, m, outs);
            assert(walk_yields(tokens.len() as int, m, outs, texts(chunks@)));
            assert forall|i: int| 0 <= i < outs.len() implies outs[i] == decoding_of(
                tok,
                window_of(tokens, #[trigger] replay(tokens.len() as int, m, outs.take(i))),
            ) by {
                let w = window_of(tokens, replay(tokens.len() as int, m, outs.take(i)));
                assert(may_decode(decode, w, outs[i]));
                let (v, d) = choose|v: Vec<u32>, d: Option<String>|
                    #[trigger] decode.ensures((v,), d) && v@ == w && chars_of(d) == outs[i];
                assert(chars_of(d) == decoding_of(tok, v@));
            }
            assert(tokenizer_answers(tok, tokens, m, outs));
        }
    }
    Ok(chunks)
}

/// Splits `content` into chunks of at most `max_tokens` tokens of the bundled
/// cl100k tokenizer; fails only where the text cannot be encoded.
pub fn split_text_by_cl100k(content: String, max_tokens: usize) -> (r: Result<Vec<String>, AppError>)
    ensures
        exists|t: CoreBPE|
            #[trigger] is_cl100k(t) && (r is Ok <==> content@.len() == 0 || encoding_of(
                t,
                content@,
            ) is Some) && (r matches Ok(v) ==> split_by_tokenizer(
                t,
                content@,
                max_tokens as int,
                texts(v@),
            )),
{
    let tokenizer = match load_cl100k() {
        Some(t) => t,
        None => {
            return Err(AppError::Unhandled(String::from_str("the cl100k tokenizer could not be built")));
        },
    };
    let r = split_text_by_max_tokens(content, max_tokens, &tokenizer);
    assert(is_cl100k(tokenizer));
    r
}

} // verus!
