use vstd::prelude::*;
use crate::text::{get_2bytes, pair_at, unshift, unshift_value};

verus! {

/// `x` wrapped to a signed 32-bit value.
pub open spec fn wrap_i32(x: int) -> i32 {
    let m = x % 0x1_0000_0000;
    if m >= 0x8000_0000 {
        (m - 0x1_0000_0000) as i32
    } else {
        m as i32
    }
}

/// Number of characters in `b` read `bpc` bytes per character.
pub open spec fn unit_count(b: Seq<u8>, bpc: u32) -> int {
    if bpc == 1 {
        b.len() as int
    } else {
        b.len() as int / 2
    }
}

/// Raw value of character `i` of `b` read `bpc` bytes per character.
pub open spec fn unit_at(b: Seq<u8>, bpc: u32, i: int) -> int {
    if bpc == 1 {
        b[i] as int
    } else {
        pair_at(b, i)
    }
}

/// The shift that makes character `i` of `b` stand for the first codepoint of `a`.
pub open spec fn inferred_diff(a: Seq<u32>, b: Seq<u8>, bpc: u32, i: int) -> i32 {
    wrap_i32(unit_at(b, bpc, i) - a[0] as int)
}

/// `a` (non-empty) occurs at character `i` of `b` under shift `diff`.
pub open spec fn matches_at(a: Seq<u32>, b: Seq<u8>, bpc: u32, i: int, diff: i32) -> bool {
    &&& 0 < a.len()
    &&& 0 <= i
    &&& i + a.len() <= unit_count(b, bpc)
    &&& forall|k: int| 0 <= k < a.len() ==> unshift(#[trigger] unit_at(b, bpc, i + k), diff) == a[k]
}

/// The shift under which a hit at character `i` is tried: the given one, or else the
/// one inferred from that character.
pub open spec fn shift_for(a: Seq<u32>, b: Seq<u8>, bpc: u32, fixed: Option<i32>, i: int) -> i32 {
    match fixed {
        Some(d) => d,
        None => inferred_diff(a, b, bpc, i),
    }
}

pub open spec fn hit_at(a: Seq<u32>, b: Seq<u8>, bpc: u32, fixed: Option<i32>, i: int) -> bool {
    0 < a.len() && 0 <= i && matches_at(a, b, bpc, i, shift_for(a, b, bpc, fixed, i))
}

/// The first character index at or after `i` where `a` is hit.
pub open spec fn first_hit_from(a: Seq<u32>, b: Seq<u8>, bpc: u32, fixed: Option<i32>, i: int) -> Option<int>
    decreases unit_count(b, bpc) - i,
{
    if i < 0 || i >= unit_count(b, bpc) {
        None
    } else if hit_at(a, b, bpc, fixed, i) {
        Some(i)
    } else {
        first_hit_from(a, b, bpc, fixed, i + 1)
    }
}

/// The first hit of `a` in `b` read `bpc` bytes per character, with its byte offset.
pub open spec fn token_hit(a: Seq<u32>, b: Seq<u8>, bpc: u32, fixed: Option<i32>) -> Option<TokenInstance> {
    match first_hit_from(a, b, bpc, fixed, 0) {
        Some(i) => Some(
            TokenInstance {
                index: (if bpc == 1 { i } else { 2 * i }) as usize,
                codepoint_diff: shift_for(a, b, bpc, fixed, i),
                bytes_per_character: bpc,
            },
        ),
        None => None,
    }
}

/// The first hit of `a` in `b` one byte per character, or else two bytes per character.
pub open spec fn multibyte_hit(a: Seq<u32>, b: Seq<u8>, fixed: Option<i32>) -> Option<TokenInstance> {
    match token_hit(a, b, 1, fixed) {
        Some(t) => Some(t),
        None => token_hit(a, b, 2, fixed),
    }
}

/// Where a token was found in a window, and how.
#[derive(Debug, Copy, Clone)]
pub struct TokenInstance {
    pub index: usize,
    pub codepoint_diff: i32,
    pub bytes_per_character: u32,
}

/// A result of `first_hit_from` is a hit, and nothing before it is.
pub proof fn lemma_first_hit(a: Seq<u32>, b: Seq<u8>, bpc: u32, fixed: Option<i32>, i: int)
    requires
        0 <= i,
        bpc == 1 || bpc == 2,
    ensures
        match first_hit_from(a, b, bpc, fixed, i) {
            Some(j) => i <= j && hit_at(a, b, bpc, fixed, j) && forall|k: int|
                i <= k < j ==> !hit_at(a, b, bpc, fixed, k),
            None => forall|k: int| i <= k ==> !hit_at(a, b, bpc, fixed, k),
        },
    decreases unit_count(b, bpc) - i,
{
    if i >= unit_count(b, bpc) {
    } else if hit_at(a, b, bpc, fixed, i) {
    } else {
        lemma_first_hit(a, b, bpc, fixed, i + 1);
    }
}

/// `a` is not hit at any character from which it would run past the end of `b`.
proof fn lemma_no_hit_past_end(a: Seq<u32>, b: Seq<u8>, bpc: u32, fixed: Option<i32>, i: int)
    requires
        0 <= i,
        i + a.len() > unit_count(b, bpc),
    ensures
        first_hit_from(a, b, bpc, fixed, i) is None,
    decreases unit_count(b, bpc) - i,
{
    if i < unit_count(b, bpc) {
        lemma_no_hit_past_end(a, b, bpc, fixed, i + 1);
    }
}

/// Raw value of character `i` of `b` read `bpc` bytes per character.
fn unit(b: &[u8], bpc: u32, i: usize) -> (r: u32)
    requires
        bpc == 1 || bpc == 2,
        i < unit_count(b@, bpc),
    ensures
        r as int == unit_at(b@, bpc, i as int),
        r <= 0xffff,
{
    if bpc == 1 {
        b[i] as u32
    } else {
        get_2bytes(b, i)
    }
}

/// `raw - cp` wrapped to a signed 32-bit value.
fn shift_between(raw: u32, cp: u32) -> (r: i32)
    requires
        raw <= 0xffff,
    ensures
        r == wrap_i32(raw as int - cp as int),
{
    let x: i64 = raw as i64 - cp as i64;
    if x < -0x8000_0000 {
        (x + 0x1_0000_0000) as i32
    } else {
        x as i32
    }
}

/// Whether `a` occurs at character `i` of `b` under shift `diff`.
fn matches_here(a: &[u32], b: &[u8], bpc: u32, i: usize, diff: i32) -> (r: bool)
    requires
        bpc == 1 || bpc == 2,
        0 < a@.len(),
        i + a@.len() <= unit_count(b@, bpc),
    ensures
        r == matches_at(a@, b@, bpc, i as int, diff),
{
    let n = if bpc == 1 { b.len() } else { b.len() / 2 };
    let mut k: usize = 0;
    while k < a.len()
        invariant
            n == unit_count(b@, bpc),
            0 < a@.len(),
            i + a@.len() <= unit_count(b@, bpc),
            bpc == 1 || bpc == 2,
            k <= a@.len(),
            forall|j: int| 0 <= j < k ==> unshift(#[trigger] unit_at(b@, bpc, i + j), diff) == a@[j],
        decreases a@.len() - k,
    {
        if unshift_value(unit(b, bpc, i + k), diff) != a[k] {
            assert(unshift(unit_at(b@, bpc, i + k), diff) != a@[k as int]);
            return false;
        }
        k += 1;
    }
    true
}

/// First hit of `a` in `b` read `bpc` bytes per character, under the shift `fixed` or,
/// with none, under the shift inferred at each candidate.
fn search_units(a: &[u32], b: &[u8], bpc: u32, fixed: Option<i32>) -> (r: Option<TokenInstance>)
    requires
        bpc == 1 || bpc == 2,
    ensures
        r == token_hit(a@, b@, bpc, fixed),
{
    let blen = b.len();
    let n = if bpc == 1 { blen } else { blen / 2 };
    if a.len() == 0 {
        proof {
            lemma_first_hit(a@, b@, bpc, fixed, 0);
            if first_hit_from(a@, b@, bpc, fixed, 0) is Some {
                assert(false);
            }
        }
        return None;
    }
    if a.len() > n {
        proof {
            lemma_no_hit_past_end(a@, b@, bpc, fixed, 0);
        }
        return None;
    }
    let mut i: usize = 0;
    while i < n - a.len() + 1
        invariant
            bpc == 1 || bpc == 2,
            n == unit_count(b@, bpc),
            blen == b@.len(),
            0 < a@.len() <= n,
            i <= n - a@.len() + 1,
            first_hit_from(a@, b@, bpc, fixed, 0) == first_hit_from(a@, b@, bpc, fixed, i as int),
        decreases n - i,
    {
        let diff = match fixed {
            Some(d) => d,
            None => shift_between(unit(b, bpc, i), a[0]),
        };
        assert(diff == shift_for(a@, b@, bpc, fixed, i as int));
        if matches_here(a, b, bpc, i, diff) {
            assert(first_hit_from(a@, b@, bpc, fixed, i as int) == Some(i as int));
            let index = if bpc == 1 { i } else { 2 * i };
            return Some(TokenInstance { index, codepoint_diff: diff, bytes_per_character: bpc });
        }
        i += 1;
    }
    proof {
        lemma_no_hit_past_end(a@, b@, bpc, fixed, i as int);
    }
    None
}

/// Finds `a` in `b`, one byte per character, inferring the shift at each candidate.
pub fn search(a: &[u32], b: &[u8]) -> (r: Option<TokenInstance>)
    ensures
        r == token_hit(a@, b@, 1, None),
{
    search_units(a, b, 1, None)
}

/// Finds `a` in `b`, two little-endian bytes per character, inferring the shift at each
/// candidate.
pub fn search_2bytes(a: &[u32], b: &[u8]) -> (r: Option<TokenInstance>)
    ensures
        r == token_hit(a@, b@, 2, None),
{
    search_units(a, b, 2, None)
}

/// Finds `a` in `b`, one byte per character, under the shift `codepoint_diff`.
pub fn search_with_diff(a: &[u32], b: &[u8], codepoint_diff: i32) -> (r: Option<TokenInstance>)
    ensures
        r == token_hit(a@, b@, 1, Some(codepoint_diff)),
{
    search_units(a, b, 1, Some(codepoint_diff))
}

/// Finds `a` in `b`, two little-endian bytes per character, under the shift
/// `codepoint_diff`.
pub fn search_2bytes_with_diff(a: &[u32], b: &[u8], codepoint_diff: i32) -> (r: Option<TokenInstance>)
    ensures
        r == token_hit(a@, b@, 2, Some(codepoint_diff)),
{
    search_units(a, b, 2, Some(codepoint_diff))
}

/// Finds `a` in `b` one byte per character, or else two bytes per character; under
/// the shift `codepoint_diff` where one is given, else inferring it.
pub fn search_multibyte(a: &[u32], b: &[u8], codepoint_diff: Option<i32>) -> (r: Option<TokenInstance>)
    ensures
        r == multibyte_hit(a@, b@, codepoint_diff),
{
    let result = search_units(a, b, 1, codepoint_diff);
    if result.is_some() {
        return result;
    }
    search_units(a, b, 2, codepoint_diff)
}

} // verus!
