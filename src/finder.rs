use vstd::prelude::*;
use circle_buffer::CircleBuffer;
use crate::phrase::{Phrase, PhraseInstance, PhraseInstanceGroup};
use crate::ring::{push_bounded, ring_capacity, ring_contents, ring_len, ring_new, ring_push, ring_slice};
use crate::search::{lemma_first_hit, multibyte_hit, search_multibyte, token_hit, TokenInstance};
use crate::text::{decode, Text};

verus! {

/// The fixed parameters of a search: the phrases, the buffer capacity, the window size
/// and the window's right edge in a full buffer.
pub struct FinderConfig {
    pub phrases: Seq<Seq<Seq<u32>>>,
    pub capacity: nat,
    pub window_size: nat,
    pub window_right: nat,
}

/// What a search has seen: the buffer contents, the skip counters and the number of bytes
/// pushed so far.
pub struct FinderState {
    pub buffer: Seq<u8>,
    pub skips: Seq<int>,
    pub pos: int,
}

/// Left edge of the window in a full buffer: the window is centred.
pub open spec fn window_left_of(capacity: nat, window_size: nat) -> nat {
    if capacity / 2 > window_size / 2 {
        (capacity / 2 - window_size / 2) as nat
    } else {
        0
    }
}

/// Right edge of the window in a full buffer.
pub open spec fn window_right_of(capacity: nat, window_size: nat) -> nat {
    if window_left_of(capacity, window_size) + window_size > capacity {
        capacity
    } else {
        window_left_of(capacity, window_size) + window_size
    }
}

pub open spec fn config_of(phrases: Seq<Seq<Seq<u32>>>, capacity: nat, window_size: nat) -> FinderConfig {
    FinderConfig {
        phrases,
        capacity,
        window_size,
        window_right: window_right_of(capacity, window_size),
    }
}

/// The window in a buffer holding `len` bytes: its right edge is clamped to the
/// contents, and its left edge lies a window size before that, or at 0.
pub open spec fn bounds(cfg: FinderConfig, len: int) -> (int, int) {
    let r = if cfg.window_right > len { len } else { cfg.window_right as int };
    let l = if r > cfg.window_size { r - cfg.window_size } else { 0 };
    (l, r)
}

pub open spec fn window_of(cfg: FinderConfig, buffer: Seq<u8>) -> Seq<u8> {
    buffer.subrange(bounds(cfg, buffer.len() as int).0, bounds(cfg, buffer.len() as int).1)
}

/// The search of the first `n` tokens of a phrase in a window: the first token fixes
/// shift and width, every later one must be found under that shift with that width, and
/// the index kept is the smallest any token was found at.
pub open spec fn phrase_scan(tokens: Seq<Seq<u32>>, w: Seq<u8>, n: int) -> Option<TokenInstance>
    decreases n,
{
    if n <= 0 {
        None
    } else if n == 1 {
        multibyte_hit(tokens[0], w, None)
    } else {
        match phrase_scan(tokens, w, n - 1) {
            None => None,
            Some(acc) => match multibyte_hit(tokens[n - 1], w, Some(acc.codepoint_diff)) {
                None => None,
                Some(t) => if t.codepoint_diff != acc.codepoint_diff || t.bytes_per_character
                    != acc.bytes_per_character {
                    None
                } else if t.index < acc.index {
                    Some(TokenInstance { index: t.index, ..acc })
                } else {
                    Some(acc)
                },
            },
        }
    }
}

/// A phrase found in a window: the earliest token index, and the shift and width.
pub open spec fn phrase_hit(tokens: Seq<Seq<u32>>, w: Seq<u8>) -> Option<TokenInstance> {
    phrase_scan(tokens, w, tokens.len() as int)
}

/// What phrase `i` yields in a step that left `buffer` behind after `pos` pushes, with
/// skip counter `skip` before the step.
pub open spec fn outcome(cfg: FinderConfig, buffer: Seq<u8>, pos: int, skip: int, i: int) -> Option<PhraseInstance> {
    if skip > 0 {
        None
    } else {
        match phrase_hit(cfg.phrases[i], window_of(cfg, buffer)) {
            Some(t) => Some(
                PhraseInstance {
                    phrase_index: i as usize,
                    file_pos: (pos - buffer.len() + bounds(cfg, buffer.len() as int).0 + t.index) as usize,
                    codepoint_diff: t.codepoint_diff,
                    bytes_per_character: t.bytes_per_character,
                },
            ),
            None => None,
        }
    }
}

/// The hits of the first `n` phrases in one step, in phrase order.
pub open spec fn step_hits(cfg: FinderConfig, buffer: Seq<u8>, pos: int, skips: Seq<int>, n: int) -> Seq<PhraseInstance>
    decreases n,
{
    if n <= 0 {
        Seq::empty()
    } else {
        let prev = step_hits(cfg, buffer, pos, skips, n - 1);
        match outcome(cfg, buffer, pos, skips[n - 1], n - 1) {
            Some(h) => prev.push(h),
            None => prev,
        }
    }
}

/// A skip counter after a step: counted down, or else set to the earliest token index of
/// a hit.
pub open spec fn next_skip(cfg: FinderConfig, buffer: Seq<u8>, skip: int, i: int) -> int {
    if skip > 0 {
        skip - 1
    } else {
        match phrase_hit(cfg.phrases[i], window_of(cfg, buffer)) {
            Some(t) => t.index as int,
            None => 0,
        }
    }
}

pub open spec fn next_skips(cfg: FinderConfig, buffer: Seq<u8>, skips: Seq<int>) -> Seq<int> {
    Seq::new(skips.len(), |i: int| next_skip(cfg, buffer, skips[i], i))
}

/// The state after one step that pushes `b`.
pub open spec fn next_state(cfg: FinderConfig, st: FinderState, b: u8) -> FinderState {
    let buffer = push_bounded(st.buffer, cfg.capacity, b);
    FinderState { buffer, skips: next_skips(cfg, buffer, st.skips), pos: st.pos + 1 }
}

/// The hits of one step that pushes `b`.
pub open spec fn step_output(cfg: FinderConfig, st: FinderState, b: u8) -> Seq<PhraseInstance> {
    let buffer = push_bounded(st.buffer, cfg.capacity, b);
    step_hits(cfg, buffer, st.pos + 1, st.skips, cfg.phrases.len() as int)
}

/// A step's result: a group when it found anything, else nothing.
pub open spec fn reports(r: Option<PhraseInstanceGroup>, out: Seq<PhraseInstance>) -> bool {
    match r {
        Some(g) => out.len() > 0 && g@ == out,
        None => out.len() == 0,
    }
}

pub open spec fn initial_state(cfg: FinderConfig) -> FinderState {
    FinderState { buffer: Seq::empty(), skips: Seq::new(cfg.phrases.len(), |i: int| 0), pos: 0 }
}

/// Steps that push zeros after the end of the stream, `count` of them at most, up to and
/// including the first that finds anything: the state, the steps left, and the hits.
pub open spec fn flush_run(cfg: FinderConfig, st: FinderState, count: nat) -> (FinderState, nat, Seq<PhraseInstance>)
    decreases count,
{
    if count == 0 {
        (st, 0, Seq::empty())
    } else {
        let out = step_output(cfg, st, 0);
        let st2 = next_state(cfg, st, 0);
        if out.len() > 0 {
            (st2, (count - 1) as nat, out)
        } else {
            flush_run(cfg, st2, (count - 1) as nat)
        }
    }
}

/// The state after pushing every byte of `s` from the start.
pub open spec fn run(cfg: FinderConfig, s: Seq<u8>) -> FinderState
    decreases s.len(),
{
    if s.len() == 0 {
        initial_state(cfg)
    } else {
        next_state(cfg, run(cfg, s.drop_last()), s.last())
    }
}

/// The hits of each step of pushing `s` from the start, one entry per byte.
pub open spec fn step_trace(cfg: FinderConfig, s: Seq<u8>) -> Seq<Seq<PhraseInstance>>
    decreases s.len(),
{
    if s.len() == 0 {
        Seq::empty()
    } else {
        step_trace(cfg, s.drop_last()).push(step_output(cfg, run(cfg, s.drop_last()), s.last()))
    }
}

/// The groups reported while pushing `s` from the start: the steps that found anything.
pub open spec fn groups(cfg: FinderConfig, s: Seq<u8>) -> Seq<Seq<PhraseInstance>>
    decreases s.len(),
{
    if s.len() == 0 {
        Seq::empty()
    } else {
        let out = step_output(cfg, run(cfg, s.drop_last()), s.last());
        if out.len() > 0 {
            groups(cfg, s.drop_last()).push(out)
        } else {
            groups(cfg, s.drop_last())
        }
    }
}

pub open spec fn zeros(n: nat) -> Seq<u8> {
    Seq::new(n, |i: int| 0u8)
}

/// The bytes a search pushes for the stream `input`: the stream, then the zeros that
/// bring the window over its tail.
pub open spec fn flushed(cfg: FinderConfig, input: Seq<u8>) -> Seq<u8> {
    input + zeros((cfg.capacity - cfg.window_right) as nat)
}

/// Pushing one more byte extends `run` and `groups` by one step.
proof fn lemma_run_push(cfg: FinderConfig, s: Seq<u8>, b: u8)
    ensures
        run(cfg, s.push(b)) == next_state(cfg, run(cfg, s), b),
        groups(cfg, s.push(b)) == if step_output(cfg, run(cfg, s), b).len() > 0 {
            groups(cfg, s).push(step_output(cfg, run(cfg, s), b))
        } else {
            groups(cfg, s)
        },
{
    assert(s.push(b).drop_last() =~= s);
}

/// The flush steps continue `run` and `groups` over zeros appended to the stream.
proof fn lemma_flush_run(cfg: FinderConfig, s: Seq<u8>, c: nat)
    ensures
        flush_run(cfg, run(cfg, s), c).1 <= c,
        flush_run(cfg, run(cfg, s), c).0 == run(cfg, s + zeros((c - flush_run(cfg, run(cfg, s), c).1) as nat)),
        groups(cfg, s + zeros((c - flush_run(cfg, run(cfg, s), c).1) as nat)) == if flush_run(
            cfg,
            run(cfg, s),
            c,
        ).2.len() > 0 {
            groups(cfg, s).push(flush_run(cfg, run(cfg, s), c).2)
        } else {
            groups(cfg, s)
        },
        flush_run(cfg, run(cfg, s), c).2.len() == 0 ==> flush_run(cfg, run(cfg, s), c).1 == 0,
        flush_run(cfg, run(cfg, s), c).2.len() > 0 ==> flush_run(cfg, run(cfg, s), c).1 < c,
    decreases c,
{
    assert(s + zeros(0) =~= s);
    if c > 0 {
        lemma_run_push(cfg, s, 0);
        let s1 = s.push(0);
        lemma_flush_run(cfg, s1, (c - 1) as nat);
        let c2 = flush_run(cfg, run(cfg, s1), (c - 1) as nat).1;
        assert(s + zeros(1) =~= s1);
        assert(s1 + zeros((c - 1 - c2) as nat) =~= s + zeros((c - c2) as nat));
    }
}

/// After pushing `s`, the position is the number of bytes pushed.
proof fn lemma_run_pos(cfg: FinderConfig, s: Seq<u8>)
    ensures
        run(cfg, s).pos == s.len(),
    decreases s.len(),
{
    if s.len() > 0 {
        lemma_run_pos(cfg, s.drop_last());
    }
}

/// The index a token is found at lies inside the window.
proof fn lemma_token_hit_index(a: Seq<u32>, w: Seq<u8>, bpc: u32, fixed: Option<i32>)
    requires
        bpc == 1 || bpc == 2,
    ensures
        token_hit(a, w, bpc, fixed) matches Some(t) ==> t.index < w.len() && t.bytes_per_character == bpc,
{
    lemma_first_hit(a, w, bpc, fixed, 0);
}

/// The earliest index of a phrase found in a window lies inside the window, and the width
/// is 1 or 2.
pub proof fn lemma_phrase_hit_index(tokens: Seq<Seq<u32>>, w: Seq<u8>, n: int)
    ensures
        phrase_scan(tokens, w, n) matches Some(t) ==> t.index < w.len() && (t.bytes_per_character
            == 1 || t.bytes_per_character == 2),
    decreases n,
{
    if n == 1 {
        lemma_token_hit_index(tokens[0], w, 1, None);
        lemma_token_hit_index(tokens[0], w, 2, None);
    } else if n > 1 {
        lemma_phrase_hit_index(tokens, w, n - 1);
        if let Some(acc) = phrase_scan(tokens, w, n - 1) {
            lemma_token_hit_index(tokens[n - 1], w, 1, Some(acc.codepoint_diff));
            lemma_token_hit_index(tokens[n - 1], w, 2, Some(acc.codepoint_diff));
        }
    }
}

/// Once the search of a phrase's first tokens has failed, the search of more of them fails.
proof fn lemma_scan_stays_failed(tokens: Seq<Seq<u32>>, w: Seq<u8>, n: int, m: int)
    requires
        1 <= n <= m,
        phrase_scan(tokens, w, n) is None,
    ensures
        phrase_scan(tokens, w, m) is None,
    decreases m - n,
{
    if n < m {
        lemma_scan_stays_failed(tokens, w, n, m - 1);
    }
}

/// Searches `window` for the tokens of `phrase`; the result carries the earliest token
/// index and the shift and width all tokens were found under.
pub fn find_phrase(phrase: &Phrase, window: &[u8]) -> (r: Option<TokenInstance>)
    ensures
        r == phrase_hit(phrase@, window@),
{
    let tokens = &phrase.0;
    if tokens.len() == 0 {
        return None;
    }
    assert(phrase@[0] == tokens@[0]@);
    let first = search_multibyte(tokens[0].0.as_slice(), window, None);
    let mut acc = match first {
        Some(t) => t,
        None => {
            proof {
                lemma_scan_stays_failed(phrase@, window@, 1, phrase@.len() as int);
            }
            return None;
        },
    };
    assert(phrase_scan(phrase@, window@, 1) == Some(acc));
    let mut k: usize = 1;
    while k < tokens.len()
        invariant
            1 <= k <= tokens@.len(),
            tokens@ == phrase.0@,
            phrase_scan(phrase@, window@, k as int) == Some(acc),
        decreases tokens@.len() - k,
    {
        assert(phrase@[k as int] == tokens@[k as int]@);
        let found = search_multibyte(tokens[k].0.as_slice(), window, Some(acc.codepoint_diff));
        match found {
            None => {
                proof {
                    lemma_scan_stays_failed(phrase@, window@, k + 1, phrase@.len() as int);
                }
                return None;
            },
            Some(t) => {
                if t.codepoint_diff != acc.codepoint_diff || t.bytes_per_character != acc.bytes_per_character {
                    proof {
                        lemma_scan_stays_failed(phrase@, window@, k + 1, phrase@.len() as int);
                    }
                    return None;
                }
                if t.index < acc.index {
                    acc = TokenInstance { index: t.index, ..acc };
                }
            },
        }
        k += 1;
    }
    Some(acc)
}

/// Searches a byte stream for a list of phrases, one byte per step.
pub struct Finder<'a> {
    phrases: &'a [Phrase],
    phrase_skip_counters: Vec<usize>,
    current_byte: usize,
    context: CircleBuffer<u8>,
    window_size: usize,
    window_right: usize,
    flush_counter: usize,
}

impl<'a> Finder<'a> {
    pub closed spec fn config(&self) -> FinderConfig {
        config_of(self.phrases@.map_values(|p: Phrase| p@), ring_capacity(self.context), self.window_size as nat)
    }

    pub closed spec fn state(&self) -> FinderState {
        FinderState {
            buffer: ring_contents(self.context),
            skips: self.phrase_skip_counters@.map_values(|x: usize| x as int),
            pos: self.current_byte as int,
        }
    }

    /// The zero-byte steps still to come once the stream has ended.
    pub closed spec fn flush_left(&self) -> nat {
        self.flush_counter as nat
    }

    /// The zero-byte steps still to come once the stream has ended.
    pub fn steps_to_flush(&self) -> (r: usize)
        ensures
            r == self.flush_left(),
    {
        self.flush_counter
    }

    pub closed spec fn wf(&self) -> bool {
        let cfg = self.config();
        &&& 0 < cfg.capacity
        &&& cfg.capacity % 4 == 0
        &&& 2 * cfg.capacity - 1 <= isize::MAX
        &&& cfg.window_size <= cfg.capacity
        &&& self.window_right == cfg.window_right
        &&& cfg.window_right <= cfg.capacity
        &&& ring_contents(self.context).len() == if self.current_byte < cfg.capacity {
            self.current_byte as nat
        } else {
            cfg.capacity
        }
        &&& self.phrase_skip_counters@.len() == self.phrases@.len()
        &&& self.flush_counter <= cfg.capacity - cfg.window_right
    }

    /// A search for `phrases` with a buffer of `context_size` bytes, of which a centred
    /// window of `window_size` bytes is searched at each step.
    pub fn new(phrases: &'a [Phrase], context_size: usize, window_size: usize) -> (r: Finder<'a>)
        requires
            0 < context_size,
            context_size % 4 == 0,
            window_size <= context_size,
            2 * context_size - 1 <= isize::MAX,
        ensures
            r.wf(),
            r.config() == config_of(phrases@.map_values(|p: Phrase| p@), context_size as nat, window_size as nat),
            r.state() == initial_state(r.config()),
            r.flush_left() == context_size - r.config().window_right,
    {
        let hws = window_size / 2;
        let c_mid = context_size / 2;
        let w_left = if c_mid > hws { c_mid - hws } else { 0 };
        let w_right = if w_left + window_size > context_size { context_size } else { w_left + window_size };
        let mut counters: Vec<usize> = Vec::with_capacity(phrases.len());
        let mut i: usize = 0;
        while i < phrases.len()
            invariant
                i <= phrases@.len(),
                counters@ == Seq::new(i as nat, |j: int| 0usize),
            decreases phrases@.len() - i,
        {
            counters.push(0);
            i += 1;
            assert(counters@ =~= Seq::new(i as nat, |j: int| 0usize));
        }
        let r = Finder {
            phrases,
            phrase_skip_counters: counters,
            current_byte: 0,
            context: ring_new(context_size),
            window_size,
            window_right: w_right,
            flush_counter: context_size - w_right,
        };
        assert(r.state().skips =~= initial_state(r.config()).skips);
        r
    }

    /// Pushes one byte of the stream and searches the window for every phrase that is
    /// not being skipped; the hits of this step come back as one group.
    pub fn push_byte(&mut self, byte: u8) -> (r: Option<PhraseInstanceGroup>)
        requires
            old(self).wf(),
            old(self).state().pos < usize::MAX,
        ensures
            final(self).wf(),
            final(self).config() == old(self).config(),
            final(self).flush_left() == old(self).flush_left(),
            final(self).state() == next_state(old(self).config(), old(self).state(), byte),
            reports(r, step_output(old(self).config(), old(self).state(), byte)),
    {
        let mut phrase_instances: Vec<PhraseInstance> = Vec::new();
        ring_push(&mut self.context, byte);
        self.find_phrases(&mut phrase_instances);
        self.current_byte = self.current_byte + 1;
        assert(self.state().skips =~= next_state(old(self).config(), old(self).state(), byte).skips);
        if phrase_instances.len() > 0 {
            Some(PhraseInstanceGroup(phrase_instances))
        } else {
            None
        }
    }

    /// Searches the current window for every phrase not being skipped, counting the
    /// skipped ones down.
    fn find_phrases(&mut self, phrase_instances: &mut Vec<PhraseInstance>)
        requires
            old(phrase_instances)@.len() == 0,
            old(self).current_byte < usize::MAX,
            old(self).phrase_skip_counters@.len() == old(self).phrases@.len(),
            ring_contents(old(self).context).len() <= old(self).current_byte + 1,
            old(self).window_right <= ring_capacity(old(self).context),
            old(self).window_right == old(self).config().window_right,
        ensures
            final(self).phrases == old(self).phrases,
            final(self).context == old(self).context,
            final(self).current_byte == old(self).current_byte,
            final(self).window_size == old(self).window_size,
            final(self).window_right == old(self).window_right,
            final(self).flush_counter == old(self).flush_counter,
            final(self).phrase_skip_counters@.len() == old(self).phrase_skip_counters@.len(),
            forall|j: int|
                0 <= j < old(self).phrases@.len() ==> (#[trigger] final(self).phrase_skip_counters@[j]) as int
                    == next_skip(
                    old(self).config(),
                    ring_contents(old(self).context),
                    old(self).phrase_skip_counters@[j] as int,
                    j,
                ),
            final(phrase_instances)@ == step_hits(
                old(self).config(),
                ring_contents(old(self).context),
                old(self).current_byte + 1,
                old(self).phrase_skip_counters@.map_values(|x: usize| x as int),
                old(self).phrases@.len() as int,
            ),
    {
        let ghost cfg = self.config();
        let ghost buf = ring_contents(self.context);
        let ghost old_skips = self.phrase_skip_counters@.map_values(|x: usize| x as int);
        let len = ring_len(&self.context);
        let (w_left, w_right) = self.get_window_bounds();
        let n = self.phrases.len();
        let mut i: usize = 0;
        while i < n
            invariant
                n == self.phrases@.len(),
                i <= n,
                cfg == self.config(),
                buf == ring_contents(self.context),
                len == buf.len(),
                (w_left as int, w_right as int) == bounds(cfg, len as int),
                w_right <= len,
                len <= self.current_byte + 1,
                self.current_byte < usize::MAX,
                self.phrases == old(self).phrases,
                self.context == old(self).context,
                self.current_byte == old(self).current_byte,
                self.window_size == old(self).window_size,
                self.window_right == old(self).window_right,
                self.flush_counter == old(self).flush_counter,
                self.phrase_skip_counters@.len() == n,
                old_skips.len() == n,
                forall|j: int| 0 <= j < n ==> old_skips[j] == old(self).phrase_skip_counters@[j] as int,
                forall|j: int| i <= j < n ==> self.phrase_skip_counters@[j] == old(self).phrase_skip_counters@[j],
                forall|j: int|
                    0 <= j < i ==> (#[trigger] self.phrase_skip_counters@[j]) as int == next_skip(
                        cfg,
                        buf,
                        old_skips[j],
                        j,
                    ),
                phrase_instances@ == step_hits(cfg, buf, self.current_byte + 1, old_skips, i as int),
            decreases n - i,
        {
            let skip = self.phrase_skip_counters[i];
            assert(cfg.phrases[i as int] == self.phrases@[i as int]@);
            if skip > 0 {
                self.phrase_skip_counters.set(i, skip - 1);
            } else {
                let window = &ring_slice(&self.context)[w_left..w_right];
                assert(window@ == window_of(cfg, buf));
                let found = find_phrase(&self.phrases[i], window);
                proof {
                    lemma_phrase_hit_index(cfg.phrases[i as int], window@, cfg.phrases[i as int].len() as int);
                }
                match found {
                    Some(t) => {
                        let bytes_read = self.current_byte + 1;
                        let file_pos = bytes_read - len + w_left + t.index;
                        phrase_instances.push(
                            PhraseInstance {
                                phrase_index: i,
                                file_pos,
                                codepoint_diff: t.codepoint_diff,
                                bytes_per_character: t.bytes_per_character,
                            },
                        );
                        self.phrase_skip_counters.set(i, t.index);
                    },
                    None => {},
                }
            }
            i += 1;
        }
    }

    /// Once the stream has ended: pushes zeros, one step at a time, until a step finds
    /// anything or the steps that bring the window over the stream's tail are spent.
    pub fn flush(&mut self) -> (r: Option<PhraseInstanceGroup>)
        requires
            old(self).wf(),
            old(self).state().pos + old(self).flush_left() <= usize::MAX,
        ensures
            final(self).wf(),
            final(self).config() == old(self).config(),
            final(self).state() == flush_run(old(self).config(), old(self).state(), old(self).flush_left()).0,
            final(self).flush_left() == flush_run(old(self).config(), old(self).state(), old(self).flush_left()).1,
            reports(r, flush_run(old(self).config(), old(self).state(), old(self).flush_left()).2),
    {
        let ghost cfg = self.config();
        let ghost run = flush_run(cfg, self.state(), self.flush_left());
        while self.flush_counter > 0
            invariant
                self.wf(),
                self.config() == cfg,
                self.state().pos + self.flush_left() <= usize::MAX,
                flush_run(cfg, self.state(), self.flush_left()) == run,
                cfg == old(self).config(),
                run == flush_run(old(self).config(), old(self).state(), old(self).flush_left()),
            decreases self.flush_counter,
        {
            let found = self.push_byte(0);
            self.flush_counter = self.flush_counter - 1;
            if found.is_some() {
                return found;
            }
        }
        None
    }

    /// The buffer's contents decoded under a shift and a width (1 or 2 bytes per
    /// character): the bytes around a hit, as the search saw them.
    pub fn get_context(&self, codepoint_diff: i32, bytes_per_character: u32) -> (r: Text)
        requires
            bytes_per_character == 1 || bytes_per_character == 2,
        ensures
            r@ == decode(self.state().buffer, codepoint_diff, bytes_per_character),
    {
        Text::from_slice(ring_slice(&self.context), codepoint_diff, bytes_per_character)
    }

    /// The stream positions the buffer holds.
    pub fn get_context_range(&self) -> (r: std::ops::Range<usize>)
        requires
            self.wf(),
        ensures
            r.start == self.state().pos - self.state().buffer.len(),
            r.end == self.state().pos,
    {
        let len = ring_len(&self.context);
        std::ops::Range { start: self.current_byte - len, end: self.current_byte }
    }

    /// The stream positions the window covers.
    pub fn get_window_range(&self) -> (r: std::ops::Range<usize>)
        requires
            self.wf(),
        ensures
            r.start == self.state().pos - self.state().buffer.len() + bounds(
                self.config(),
                self.state().buffer.len() as int,
            ).0,
            r.end == self.state().pos - self.state().buffer.len() + bounds(
                self.config(),
                self.state().buffer.len() as int,
            ).1,
    {
        let (w_left, w_right) = self.get_window_bounds();
        let base = self.current_byte - ring_len(&self.context);
        std::ops::Range { start: base + w_left, end: base + w_right }
    }

    /// The number of bytes the buffer holds.
    pub fn context_size(&self) -> (r: usize)
        ensures
            r == self.state().buffer.len(),
    {
        ring_len(&self.context)
    }

    /// The number of bytes pushed so far.
    pub fn file_pos(&self) -> (r: usize)
        ensures
            r == self.state().pos,
    {
        self.current_byte
    }

    /// Searches the whole stream `input`, its tail flushed, and gives every group found,
    /// in order.
    pub fn find_all(phrases: &'a [Phrase], context_size: usize, window_size: usize, input: &[u8]) -> (r: Vec<
        PhraseInstanceGroup,
    >)
        requires
            0 < context_size,
            context_size % 4 == 0,
            window_size <= context_size,
            2 * context_size - 1 <= isize::MAX,
            input@.len() + context_size <= usize::MAX,
        ensures
            r@.map_values(|g: PhraseInstanceGroup| g@) == groups(
                config_of(phrases@.map_values(|p: Phrase| p@), context_size as nat, window_size as nat),
                flushed(
                    config_of(phrases@.map_values(|p: Phrase| p@), context_size as nat, window_size as nat),
                    input@,
                ),
            ),
    {
        let mut finder = Finder::new(phrases, context_size, window_size);
        let ghost cfg = finder.config();
        let ghost tail: nat = (cfg.capacity - cfg.window_right) as nat;
        let mut out: Vec<PhraseInstanceGroup> = Vec::new();
        let mut i: usize = 0;
        assert(input@.take(0) =~= Seq::<u8>::empty());
        while i < input.len()
            invariant
                i <= input@.len(),
                finder.wf(),
                finder.config() == cfg,
                cfg.capacity == context_size,
                input@.len() + context_size <= usize::MAX,
                finder.state() == run(cfg, input@.take(i as int)),
                finder.state().pos == i,
                finder.flush_left() == tail,
                tail <= context_size,
                out@.map_values(|g: PhraseInstanceGroup| g@) == groups(cfg, input@.take(i as int)),
            decreases input@.len() - i,
        {
            proof {
                lemma_run_push(cfg, input@.take(i as int), input@[i as int]);
                assert(input@.take(i as int).push(input@[i as int]) =~= input@.take(i + 1));
                lemma_run_pos(cfg, input@.take(i as int));
            }
            let found = finder.push_byte(input[i]);
            match found {
                Some(g) => {
                    out.push(g);
                    assert(out@.map_values(|g: PhraseInstanceGroup| g@) =~= groups(cfg, input@.take(i + 1)));
                },
                None => {},
            }
            i += 1;
        }
        assert(input@.take(i as int) =~= input@);
        let ghost k: nat = 0;
        assert(input@ + zeros(0) =~= input@);
        let mut done = false;
        while !done
            invariant
                finder.wf(),
                finder.config() == cfg,
                k + finder.flush_left() == tail,
                finder.state().pos + finder.flush_left() <= usize::MAX,
                finder.state() == run(cfg, input@ + zeros(k)),
                out@.map_values(|g: PhraseInstanceGroup| g@) == groups(cfg, input@ + zeros(k)),
                done ==> finder.flush_left() == 0,
                input@.len() + context_size <= usize::MAX,
                tail <= context_size,
            decreases finder.flush_left() + if done { 0int } else { 1int },
        {
            proof {
                lemma_flush_run(cfg, input@ + zeros(k), finder.flush_left());
                assert(input@ + zeros(k) + zeros((finder.flush_left() - flush_run(cfg, finder.state(), finder.flush_left()).1) as nat)
                    =~= input@ + zeros((k + finder.flush_left() - flush_run(cfg, finder.state(), finder.flush_left()).1) as nat));
                lemma_run_pos(cfg, input@ + zeros(k));
            }
            let ghost c = finder.flush_left();
            let found = finder.flush();
            proof {
                k = (k + c - finder.flush_left()) as nat;
                lemma_run_pos(cfg, input@ + zeros(k));
            }
            match found {
                Some(g) => {
                    out.push(g);
                    assert(out@.map_values(|g: PhraseInstanceGroup| g@) =~= groups(cfg, input@ + zeros(k)));
                },
                None => {
                    done = true;
                },
            }
        }
        out
    }

    /// The window's edges in the buffer as it is now.
    fn get_window_bounds(&self) -> (r: (usize, usize))
        requires
            self.window_right == self.config().window_right,
        ensures
            (r.0 as int, r.1 as int) == bounds(self.config(), ring_contents(self.context).len() as int),
            r.0 <= r.1 <= ring_contents(self.context).len(),
    {
        let len = ring_len(&self.context);
        let w_right = if self.window_right > len { len } else { self.window_right };
        let w_left = if w_right > self.window_size { w_right - self.window_size } else { 0 };
        (w_left, w_right)
    }
}

} // verus!
