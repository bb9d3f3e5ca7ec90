use vstd::prelude::*;
use crate::finder::{
    bounds, flushed, groups, lemma_phrase_hit_index, next_skip, next_skips, outcome, phrase_hit, phrase_scan,
    run, step_hits, step_output, step_trace, window_of, zeros, FinderConfig,
};
use crate::phrase::PhraseInstance;
use crate::ring::push_bounded;
use crate::search::{lemma_first_hit, matches_at, multibyte_hit, token_hit};
use crate::text::{decode, decode1, decode2, pair_at};

verus! {

/// The sizes every configuration made by `Finder::new` has.
pub open spec fn valid_config(cfg: FinderConfig) -> bool {
    &&& 0 < cfg.capacity
    &&& cfg.window_right <= cfg.capacity
    &&& cfg.phrases.len() <= usize::MAX
}

pub open spec fn min_len(n: int, cap: nat) -> int {
    if n < cap {
        n
    } else {
        cap as int
    }
}

/// After pushing `s`: the position is its length, the buffer holds its last bytes, and
/// there is one non-negative skip counter per phrase.
pub proof fn lemma_run_facts(cfg: FinderConfig, s: Seq<u8>)
    requires
        valid_config(cfg),
    ensures
        run(cfg, s).pos == s.len(),
        run(cfg, s).buffer == s.subrange(s.len() - min_len(s.len() as int, cfg.capacity), s.len() as int),
        run(cfg, s).skips.len() == cfg.phrases.len(),
        forall|i: int| 0 <= i < cfg.phrases.len() ==> run(cfg, s).skips[i] >= 0,
    decreases s.len(),
{
    if s.len() > 0 {
        let p = s.drop_last();
        lemma_run_facts(cfg, p);
        let st = run(cfg, p);
        let buf = push_bounded(st.buffer, cfg.capacity, s.last());
        assert(buf =~= s.subrange(s.len() - min_len(s.len() as int, cfg.capacity), s.len() as int));
        assert forall|i: int| 0 <= i < cfg.phrases.len() implies run(cfg, s).skips[i] >= 0 by {
            let sk = st.skips[i];
            if sk <= 0 {
                if let Some(t) = phrase_hit(cfg.phrases[i], window_of(cfg, buf)) {
                    assert(t.index >= 0);
                }
            }
        }
    } else {
        assert(s.subrange(0, 0) =~= Seq::<u8>::empty());
    }
}

/// Entry `j` of the trace is the step that pushes byte `j`.
pub proof fn lemma_trace_index(cfg: FinderConfig, s: Seq<u8>)
    ensures
        step_trace(cfg, s).len() == s.len(),
        forall|j: int|
            0 <= j < s.len() ==> #[trigger] step_trace(cfg, s)[j] == step_output(cfg, run(cfg, s.take(j)), s[j]),
    decreases s.len(),
{
    if s.len() > 0 {
        let p = s.drop_last();
        lemma_trace_index(cfg, p);
        assert forall|j: int| 0 <= j < s.len() implies #[trigger] step_trace(cfg, s)[j] == step_output(
            cfg,
            run(cfg, s.take(j)),
            s[j],
        ) by {
            if j < p.len() {
                assert(p.take(j) =~= s.take(j));
            } else {
                assert(p =~= s.take(j));
            }
        }
    }
}

/// A hit of a step comes from one phrase's outcome in that step.
pub proof fn lemma_step_hits_member(cfg: FinderConfig, buffer: Seq<u8>, pos: int, skips: Seq<int>, n: int, x: PhraseInstance)
    requires
        step_hits(cfg, buffer, pos, skips, n).contains(x),
    ensures
        exists|i: int| 0 <= i < n && outcome(cfg, buffer, pos, skips[i], i) == Some(x),
    decreases n,
{
    if n > 0 {
        let prev = step_hits(cfg, buffer, pos, skips, n - 1);
        if prev.contains(x) {
            lemma_step_hits_member(cfg, buffer, pos, skips, n - 1, x);
        } else {
            assert(outcome(cfg, buffer, pos, skips[n - 1], n - 1) == Some(x));
        }
    }
}

/// Token `a` is found at byte offset `off` of `w`, under shift `diff`, `bpc` bytes per
/// character.
#[verifier::opaque]
pub open spec fn found_at(a: Seq<u32>, w: Seq<u8>, off: int, diff: i32, bpc: u32) -> bool {
    ||| bpc == 1 && matches_at(a, w, 1, off, diff)
    ||| bpc == 2 && off % 2 == 0 && matches_at(a, w, 2, off / 2, diff)
}

/// Token `a` is found in `w` at some byte offset at or after `start`.
pub open spec fn found_from(a: Seq<u32>, w: Seq<u8>, start: int, diff: i32, bpc: u32) -> bool {
    exists|off: int| start <= off && #[trigger] found_at(a, w, off, diff, bpc)
}

/// The bytes of `s` from position `p` on, decoded under `diff` and `bpc`, begin with `tok`.
pub open spec fn occurs_at(tok: Seq<u32>, s: Seq<u8>, p: int, diff: i32, bpc: u32) -> bool {
    &&& 0 <= p <= s.len()
    &&& tok.len() <= decode(s.subrange(p, s.len() as int), diff, bpc).len()
    &&& decode(s.subrange(p, s.len() as int), diff, bpc).take(tok.len() as int) == tok
}

/// A token that `token_hit` reports is found where it says.
proof fn lemma_token_hit_found(a: Seq<u32>, w: Seq<u8>, bpc: u32, fixed: Option<i32>)
    requires
        bpc == 1 || bpc == 2,
        w.len() <= usize::MAX,
    ensures
        token_hit(a, w, bpc, fixed) matches Some(t) ==> t.bytes_per_character == bpc && found_at(
            a,
            w,
            t.index as int,
            t.codepoint_diff,
            bpc,
        ),
{
    reveal(found_at);
    lemma_first_hit(a, w, bpc, fixed, 0);
}

proof fn lemma_multibyte_hit_found(a: Seq<u32>, w: Seq<u8>, fixed: Option<i32>)
    requires
        w.len() <= usize::MAX,
    ensures
        multibyte_hit(a, w, fixed) matches Some(t) ==> (t.bytes_per_character == 1
            || t.bytes_per_character == 2) && found_at(a, w, t.index as int, t.codepoint_diff, t.bytes_per_character)
            && (fixed matches Some(d) ==> t.codepoint_diff == d),
{
    lemma_token_hit_found(a, w, 1, fixed);
    lemma_token_hit_found(a, w, 2, fixed);
    lemma_first_hit(a, w, 1, fixed, 0);
    lemma_first_hit(a, w, 2, fixed, 0);
}

/// A phrase found in a window has each of its first `n` tokens found at or after the
/// reported index, under the reported shift and width, and one of them right at it.
pub proof fn lemma_phrase_scan_found(tokens: Seq<Seq<u32>>, w: Seq<u8>, n: int)
    requires
        w.len() <= usize::MAX,
    ensures
        phrase_scan(tokens, w, n) matches Some(t) ==> {
            &&& t.bytes_per_character == 1 || t.bytes_per_character == 2
            &&& forall|k: int|
                0 <= k < n ==> #[trigger] found_from(tokens[k], w, t.index as int, t.codepoint_diff, t.bytes_per_character)
            &&& exists|k: int|
                0 <= k < n && #[trigger] found_at(tokens[k], w, t.index as int, t.codepoint_diff, t.bytes_per_character)
        },
    decreases n,
{
    if n == 1 {
        lemma_multibyte_hit_found(tokens[0], w, None);
        if let Some(t) = phrase_scan(tokens, w, n) {
            assert(found_at(tokens[0], w, t.index as int, t.codepoint_diff, t.bytes_per_character));
            assert forall|k: int| 0 <= k < n implies #[trigger] found_from(tokens[k], w, t.index as int, t.codepoint_diff, t.bytes_per_character) by {
                assert(k == 0);
                assert(found_at(tokens[k], w, t.index as int, t.codepoint_diff, t.bytes_per_character));
            }
        }
    } else if n > 1 {
        lemma_phrase_scan_found(tokens, w, n - 1);
        if let Some(acc) = phrase_scan(tokens, w, n - 1) {
            lemma_multibyte_hit_found(tokens[n - 1], w, Some(acc.codepoint_diff));
            if let Some(t) = phrase_scan(tokens, w, n) {
                let h = multibyte_hit(tokens[n - 1], w, Some(acc.codepoint_diff))->Some_0;
                assert(found_at(tokens[n - 1], w, h.index as int, t.codepoint_diff, t.bytes_per_character));
                assert forall|k: int| 0 <= k < n implies #[trigger] found_from(tokens[k], w, t.index as int, t.codepoint_diff, t.bytes_per_character) by {
                    if k == n - 1 {
                        assert(t.index <= h.index);
                        assert(found_at(tokens[k], w, h.index as int, t.codepoint_diff, t.bytes_per_character));
                    } else {
                        assert(found_from(tokens[k], w, acc.index as int, acc.codepoint_diff, acc.bytes_per_character));
                        let off = choose|off: int|
                            acc.index <= off && #[trigger] found_at(
                                tokens[k],
                                w,
                                off,
                                acc.codepoint_diff,
                                acc.bytes_per_character,
                            );
                        assert(t.index <= off);
                        assert(found_at(tokens[k], w, off, t.codepoint_diff, t.bytes_per_character));
                    }
                }
                if t.index == h.index {
                    assert(found_at(tokens[n - 1], w, t.index as int, t.codepoint_diff, t.bytes_per_character));
                } else {
                    let k = choose|k: int|
                        0 <= k < n - 1 && #[trigger] found_at(
                            tokens[k],
                            w,
                            acc.index as int,
                            acc.codepoint_diff,
                            acc.bytes_per_character,
                        );
                    assert(found_at(tokens[k], w, t.index as int, t.codepoint_diff, t.bytes_per_character));
                }
            }
        }
    }
}

/// What is found in a window cut from a stream occurs in the stream.
pub proof fn lemma_found_in_stream(a: Seq<u32>, s: Seq<u8>, lo: int, hi: int, off: int, diff: i32, bpc: u32)
    requires
        0 <= lo <= hi <= s.len(),
        found_at(a, s.subrange(lo, hi), off, diff, bpc),
    ensures
        occurs_at(a, s, lo + off, diff, bpc),
{
    reveal(found_at);
    let w = s.subrange(lo, hi);
    let p = lo + off;
    let rest = s.subrange(p, s.len() as int);
    if bpc == 1 {
        assert(decode(rest, diff, bpc).take(a.len() as int) =~= a) by {
            assert forall|k: int| 0 <= k < a.len() implies decode1(rest, diff)[k] == a[k] by {
                assert(crate::search::unit_at(w, 1, off + k) == w[off + k]);
            }
        }
    } else {
        let u = off / 2;
        assert(decode(rest, diff, bpc).take(a.len() as int) =~= a) by {
            assert forall|k: int| 0 <= k < a.len() implies decode2(rest, diff)[k] == a[k] by {
                assert(crate::search::unit_at(w, 2, u + k) == pair_at(w, u + k));
                assert(pair_at(w, u + k) == pair_at(rest, k));
            }
        }
    }
}

/// Token `tok` occurs in `s` at some position at or after `start`.
pub open spec fn occurs_from(tok: Seq<u32>, s: Seq<u8>, start: int, diff: i32, bpc: u32) -> bool {
    exists|p: int| start <= p && #[trigger] occurs_at(tok, s, p, diff, bpc)
}

/// The step that pushes byte `j` of `s` searched the window `s[lo..hi]`, which the hit
/// `x` of phrase `i` was found in.
proof fn lemma_hit_window(cfg: FinderConfig, s: Seq<u8>, j: int, x: PhraseInstance) -> (r: (int, int, int))
    requires
        valid_config(cfg),
        s.len() <= usize::MAX,
        0 <= j < s.len(),
        step_trace(cfg, s)[j].contains(x),
    ensures
        ({
            let (i, lo, hi) = r;
            &&& 0 <= i < cfg.phrases.len()
            &&& x.phrase_index == i
            &&& 0 <= lo <= hi <= j + 1
            &&& hi - lo <= cfg.window_size
            &&& phrase_hit(cfg.phrases[i], s.subrange(lo, hi)) matches Some(t) && x.file_pos == lo + t.index
                && x.codepoint_diff == t.codepoint_diff && x.bytes_per_character == t.bytes_per_character
            &&& run(cfg, s.take(j)).skips[i] <= 0
            &&& run(cfg, s.take(j + 1)).skips[i] == phrase_hit(cfg.phrases[i], s.subrange(lo, hi))->Some_0.index
            &&& j + 1 >= cfg.capacity ==> lo == j + 1 - cfg.capacity + bounds(cfg, cfg.capacity as int).0
        }),
{
    lemma_trace_index(cfg, s);
    let st = run(cfg, s.take(j));
    lemma_run_facts(cfg, s.take(j));
    lemma_run_facts(cfg, s.take(j + 1));
    assert(s.take(j + 1).drop_last() =~= s.take(j));
    let buf = push_bounded(st.buffer, cfg.capacity, s[j]);
    assert(run(cfg, s.take(j + 1)).buffer == buf);
    let len = buf.len() as int;
    assert(buf =~= s.subrange(j + 1 - len, j + 1));
    lemma_step_hits_member(cfg, buf, j + 1, st.skips, cfg.phrases.len() as int, x);
    let i = choose|i: int|
        0 <= i < cfg.phrases.len() as int && outcome(cfg, buf, j + 1, st.skips[i], i) == Some(x);
    let (l, r) = bounds(cfg, len);
    let lo = j + 1 - len + l;
    let hi = j + 1 - len + r;
    assert(window_of(cfg, buf) =~= s.subrange(lo, hi));
    let t = phrase_hit(cfg.phrases[i], s.subrange(lo, hi))->Some_0;
    lemma_phrase_hit_index(cfg.phrases[i], s.subrange(lo, hi), cfg.phrases[i].len() as int);
    assert(run(cfg, s.take(j + 1)).skips[i] == next_skip(cfg, buf, st.skips[i], i));
    (i, lo, hi)
}

/// Every hit reported while pushing the stream `s` is there in it: decoded under the
/// hit's shift and width, each token of its phrase occurs at or after the hit's position,
/// and one of them right at it.
pub proof fn lemma_hits_occur_in_stream(cfg: FinderConfig, s: Seq<u8>, j: int, x: PhraseInstance)
    requires
        valid_config(cfg),
        s.len() <= usize::MAX,
        0 <= j < s.len(),
        step_trace(cfg, s)[j].contains(x),
    ensures
        0 <= x.phrase_index < cfg.phrases.len(),
        x.bytes_per_character == 1 || x.bytes_per_character == 2,
        forall|k: int|
            0 <= k < cfg.phrases[x.phrase_index as int].len() ==> #[trigger] occurs_from(
                cfg.phrases[x.phrase_index as int][k],
                s,
                x.file_pos as int,
                x.codepoint_diff,
                x.bytes_per_character,
            ),
        exists|k: int|
            0 <= k < cfg.phrases[x.phrase_index as int].len() && #[trigger] occurs_at(
                cfg.phrases[x.phrase_index as int][k],
                s,
                x.file_pos as int,
                x.codepoint_diff,
                x.bytes_per_character,
            ),
{
    let (i, lo, hi) = lemma_hit_window(cfg, s, j, x);
    let tokens = cfg.phrases[i];
    let w = s.subrange(lo, hi);
    let t = phrase_hit(tokens, w)->Some_0;
    lemma_phrase_scan_found(tokens, w, tokens.len() as int);
    let (d, b) = (x.codepoint_diff, x.bytes_per_character);
    assert forall|k: int| 0 <= k < tokens.len() implies #[trigger] occurs_from(tokens[k], s, x.file_pos as int, d, b) by {
        assert(found_from(tokens[k], w, t.index as int, d, b));
        let off = choose|off: int| t.index <= off && #[trigger] found_at(tokens[k], w, off, d, b);
        lemma_found_in_stream(tokens[k], s, lo, hi, off, d, b);
        assert(occurs_at(tokens[k], s, lo + off, d, b));
    }
    let k = choose|k: int| 0 <= k < tokens.len() && #[trigger] found_at(tokens[k], w, t.index as int, d, b);
    lemma_found_in_stream(tokens[k], s, lo, hi, t.index as int, d, b);
    assert(occurs_at(tokens[k], s, x.file_pos as int, d, b));
}

/// A hit of a phrase of one token starts with that token: the bytes of the stream from
/// the hit's position on, decoded under its shift and width, begin with it.
pub proof fn lemma_single_token_hit_starts_there(cfg: FinderConfig, s: Seq<u8>, j: int, x: PhraseInstance)
    requires
        valid_config(cfg),
        s.len() <= usize::MAX,
        0 <= j < s.len(),
        step_trace(cfg, s)[j].contains(x),
        cfg.phrases[x.phrase_index as int].len() == 1,
    ensures
        occurs_at(cfg.phrases[x.phrase_index as int][0], s, x.file_pos as int, x.codepoint_diff, x.bytes_per_character),
{
    lemma_hits_occur_in_stream(cfg, s, j, x);
}

/// The left edge of the window in stream positions at the step that makes the count of
/// pushed bytes `p`, once the buffer is full.
pub open spec fn full_window_start(cfg: FinderConfig, p: int) -> int {
    p - cfg.capacity + bounds(cfg, cfg.capacity as int).0
}

/// After `m` pushes, every hit of phrase `i` reported at a step with a full buffer lies
/// before the window of the next step moved on by the phrase's skip counter.
proof fn lemma_full_hits_bounded(cfg: FinderConfig, s: Seq<u8>, m: int, i: int)
    requires
        valid_config(cfg),
        s.len() <= usize::MAX,
        0 <= m <= s.len(),
        0 <= i < cfg.phrases.len(),
    ensures
        forall|j: int, x: PhraseInstance|
            0 <= j < m && j + 1 >= cfg.capacity && #[trigger] step_trace(cfg, s)[j].contains(x)
                && x.phrase_index == i ==> x.file_pos < full_window_start(cfg, m + 1) + run(cfg, s.take(m)).skips[i],
    decreases m,
{
    lemma_trace_index(cfg, s);
    if m > 0 {
        lemma_full_hits_bounded(cfg, s, m - 1, i);
        lemma_run_facts(cfg, s.take(m - 1));
        lemma_run_facts(cfg, s.take(m));
        let st = run(cfg, s.take(m - 1));
        assert(s.take(m).drop_last() =~= s.take(m - 1));
        let buf = push_bounded(st.buffer, cfg.capacity, s[m - 1]);
        assert(run(cfg, s.take(m)).skips[i] == next_skip(cfg, buf, st.skips[i], i));
        assert forall|j: int, x: PhraseInstance|
            0 <= j < m && j + 1 >= cfg.capacity && #[trigger] step_trace(cfg, s)[j].contains(x)
                && x.phrase_index == i implies x.file_pos < full_window_start(cfg, m + 1) + run(
                cfg,
                s.take(m),
            ).skips[i] by {
            if j == m - 1 {
                let (i2, lo, hi) = lemma_hit_window(cfg, s, j, x);
                assert(i2 == i);
            } else {
                if st.skips[i] <= 0 {
                    if let Some(t) = phrase_hit(cfg.phrases[i], window_of(cfg, buf)) {
                        assert(t.index >= 0);
                    }
                }
            }
        }
    }
}

/// Once the buffer is full, the hits of one phrase come at strictly increasing stream
/// positions: the same occurrence is never reported twice.
pub proof fn lemma_full_buffer_hits_advance(
    cfg: FinderConfig,
    s: Seq<u8>,
    j1: int,
    j2: int,
    x: PhraseInstance,
    y: PhraseInstance,
)
    requires
        valid_config(cfg),
        s.len() <= usize::MAX,
        cfg.capacity <= j1 + 1,
        j1 < j2 < s.len(),
        step_trace(cfg, s)[j1].contains(x),
        step_trace(cfg, s)[j2].contains(y),
        x.phrase_index == y.phrase_index,
    ensures
        x.file_pos < y.file_pos,
{
    let (i, lo, hi) = lemma_hit_window(cfg, s, j2, y);
    lemma_full_hits_bounded(cfg, s, j2, i);
    lemma_run_facts(cfg, s.take(j2));
    assert(step_trace(cfg, s)[j1].contains(x));
}

/// Two buffers of one length with the same window give the same hits and skip counters.
proof fn lemma_same_window_same_step(cfg: FinderConfig, b1: Seq<u8>, b2: Seq<u8>, pos: int, skips: Seq<int>, n: int)
    requires
        b1.len() == b2.len(),
        window_of(cfg, b1) == window_of(cfg, b2),
    ensures
        step_hits(cfg, b1, pos, skips, n) == step_hits(cfg, b2, pos, skips, n),
        next_skips(cfg, b1, skips) == next_skips(cfg, b2, skips),
    decreases n,
{
    assert(next_skips(cfg, b1, skips) =~= next_skips(cfg, b2, skips));
    if n > 0 {
        lemma_same_window_same_step(cfg, b1, b2, pos, skips, n - 1);
    }
}

/// The stream `s` with its last `capacity - window_right` bytes replaced by zeros.
pub open spec fn zero_tail(cfg: FinderConfig, s: Seq<u8>) -> Seq<u8> {
    let tail = (cfg.capacity - cfg.window_right) as nat;
    s.take(s.len() - tail) + zeros(tail)
}

/// At the step that makes the count of pushed bytes `m`, the window holds the same bytes
/// for `s` and for `zero_tail(s)`.
proof fn lemma_tail_windows_agree(cfg: FinderConfig, s: Seq<u8>, m: int)
    requires
        valid_config(cfg),
        s.len() >= cfg.capacity,
        0 < m <= s.len(),
    ensures
        run(cfg, s.take(m)).buffer.len() == run(cfg, zero_tail(cfg, s).take(m)).buffer.len(),
        window_of(cfg, run(cfg, s.take(m)).buffer) == window_of(cfg, run(cfg, zero_tail(cfg, s).take(m)).buffer),
{
    let t = zero_tail(cfg, s);
    lemma_run_facts(cfg, s.take(m));
    lemma_run_facts(cfg, t.take(m));
    let bs = run(cfg, s.take(m)).buffer;
    let bt = run(cfg, t.take(m)).buffer;
    let len = bs.len() as int;
    let (l, r) = bounds(cfg, len);
    assert(window_of(cfg, bs) =~= s.subrange(m - len + l, m - len + r));
    assert(window_of(cfg, bt) =~= t.subrange(m - len + l, m - len + r));
    assert(m - len + r <= s.len() - (cfg.capacity - cfg.window_right));
    assert(s.subrange(m - len + l, m - len + r) =~= t.subrange(m - len + l, m - len + r));
}

/// Pushing the first `m` bytes of `s` or of `zero_tail(s)` leads to the same skip
/// counters and the same hits at every step.
proof fn lemma_tail_unseen_upto(cfg: FinderConfig, s: Seq<u8>, m: int)
    requires
        valid_config(cfg),
        s.len() >= cfg.capacity,
        0 <= m <= s.len(),
    ensures
        run(cfg, s.take(m)).skips == run(cfg, zero_tail(cfg, s).take(m)).skips,
        step_trace(cfg, s.take(m)) == step_trace(cfg, zero_tail(cfg, s).take(m)),
    decreases m,
{
    let t = zero_tail(cfg, s);
    if m == 0 {
        assert(s.take(0) =~= t.take(0));
    } else {
        lemma_tail_unseen_upto(cfg, s, m - 1);
        let sp = s.take(m - 1);
        let tp = t.take(m - 1);
        assert(s.take(m).drop_last() =~= sp);
        assert(t.take(m).drop_last() =~= tp);
        let bs = run(cfg, s.take(m)).buffer;
        let bt = run(cfg, t.take(m)).buffer;
        let skips = run(cfg, sp).skips;
        lemma_run_facts(cfg, sp);
        lemma_run_facts(cfg, tp);
        assert(s.take(m).last() == s[m - 1]);
        assert(t.take(m).last() == t[m - 1]);
        lemma_tail_windows_agree(cfg, s, m);
        lemma_same_window_same_step(cfg, bs, bt, m, skips, cfg.phrases.len() as int);
        assert(run(cfg, s.take(m)).skips == next_skips(cfg, bs, skips));
        assert(run(cfg, t.take(m)).skips == next_skips(cfg, bt, skips));
        assert(step_output(cfg, run(cfg, sp), s[m - 1]) == step_hits(cfg, bs, m, skips, cfg.phrases.len() as int));
        assert(step_output(cfg, run(cfg, tp), t[m - 1]) == step_hits(cfg, bt, m, skips, cfg.phrases.len() as int));
    }
}

/// For a stream at least as long as the buffer, the steps that push it never look at
/// its last `capacity - window_right` bytes: with zeros in their place every step
/// reports the same hits.
pub proof fn lemma_tail_unseen(cfg: FinderConfig, s: Seq<u8>)
    requires
        valid_config(cfg),
        s.len() >= cfg.capacity,
    ensures
        step_trace(cfg, s) == step_trace(cfg, zero_tail(cfg, s)),
{
    lemma_tail_unseen_upto(cfg, s, s.len() as int);
    assert(s.take(s.len() as int) =~= s);
    assert(zero_tail(cfg, s).take(s.len() as int) =~= zero_tail(cfg, s));
}

/// The groups reported while pushing `s` are the steps of its trace that found anything,
/// in order.
pub proof fn lemma_groups_are_nonempty_steps(cfg: FinderConfig, s: Seq<u8>)
    ensures
        groups(cfg, s) == step_trace(cfg, s).filter(|o: Seq<PhraseInstance>| o.len() > 0),
    decreases s.len(),
{
    reveal(Seq::filter);
    if s.len() > 0 {
        lemma_groups_are_nonempty_steps(cfg, s.drop_last());
        let tr = step_trace(cfg, s);
        assert(tr.drop_last() =~= step_trace(cfg, s.drop_last()));
    }
}

/// Searching the same stream twice, with the same phrases and sizes, reports the same
/// groups.
pub proof fn lemma_same_stream_same_groups(cfg: FinderConfig, s1: Seq<u8>, s2: Seq<u8>)
    requires
        s1 == s2,
    ensures
        groups(cfg, flushed(cfg, s1)) == groups(cfg, flushed(cfg, s2)),
{
}

} // verus!
