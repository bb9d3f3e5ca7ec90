use vstd::prelude::*;

verus! {

/// The codepoint that the raw value `raw` stands for when every codepoint was shifted
/// up by `diff`: `raw - diff`, wrapped to 32 bits.
pub open spec fn unshift(raw: int, diff: i32) -> u32 {
    ((raw - diff as int) % 0x1_0000_0000) as u32
}

/// The little-endian 16-bit value made of bytes `2 * i` and `2 * i + 1` of `b`.
pub open spec fn pair_at(b: Seq<u8>, i: int) -> int {
    b[2 * i] as int + 256 * (b[2 * i + 1] as int)
}

/// Codepoints of `b` read one byte per character.
pub open spec fn decode1(b: Seq<u8>, diff: i32) -> Seq<u32> {
    Seq::new(b.len(), |i: int| unshift(b[i] as int, diff))
}

/// Codepoints of `b` read two little-endian bytes per character; a trailing odd byte
/// is ignored.
pub open spec fn decode2(b: Seq<u8>, diff: i32) -> Seq<u32> {
    Seq::new(b.len() / 2, |i: int| unshift(pair_at(b, i), diff))
}

/// Codepoints of `b` read `bpc` bytes per character (1 or 2).
pub open spec fn decode(b: Seq<u8>, diff: i32, bpc: u32) -> Seq<u32> {
    if bpc == 1 {
        decode1(b, diff)
    } else {
        decode2(b, diff)
    }
}

/// Codepoints of a character string: one scalar value per character.
pub open spec fn codepoints(s: Seq<char>) -> Seq<u32> {
    s.map_values(|c: char| c as u32)
}

/// How one codepoint is shown: printable ASCII as itself, the whitespace control codes
/// (and NUL) as a space, anything else as `?`.
pub open spec fn render_char(c: u32) -> char {
    if 32 <= c <= 126 {
        c as char
    } else if c == 10 || c == 13 || c == 9 || c == 0 {
        ' '
    } else {
        '?'
    }
}

pub open spec fn render(t: Seq<u32>) -> Seq<char> {
    t.map_values(|c: u32| render_char(c))
}

pub open spec fn is_printable_ascii(s: Seq<char>) -> bool {
    forall|i: int| 0 <= i < s.len() ==> 32 <= (#[trigger] s[i]) as u32 <= 126
}

/// A string of 32-bit codepoints.
#[derive(Clone, PartialEq, Eq, PartialOrd, Ord, Hash, Debug)]
pub struct Text(pub Vec<u32>);

impl View for Text {
    type V = Seq<u32>;

    open spec fn view(&self) -> Seq<u32> {
        self.0@
    }
}

/// `raw - diff` wrapped to 32 bits, for a raw value of at most 16 bits.
pub fn unshift_value(raw: u32, diff: i32) -> (r: u32)
    requires
        raw <= 0xffff,
    ensures
        r == unshift(raw as int, diff),
{
    let v: i64 = raw as i64 - diff as i64;
    if v < 0 {
        (v + 0x1_0000_0000) as u32
    } else {
        v as u32
    }
}

/// Relies on `String::from_iter` over `char`s: the string holds exactly those
/// characters, in order.
#[verifier::external_body]
pub(crate) fn string_of_chars(cs: Vec<char>) -> (r: String)
    ensures
        r@ == cs@,
{
    String::from_iter(cs)
}

impl Text {
    /// One codepoint per character of `s`.
    pub fn from_str(s: &str) -> (r: Text)
        ensures
            r@ == codepoints(s@),
    {
        let mut vec: Vec<u32> = Vec::new();
        for c in it: s.chars()
            invariant
                vec@ == codepoints(it.seq().take(it.index() as int)),
        {
            vec.push(c as u32);
        }
        Text(vec)
    }

    /// Decodes `slice` read `bytes_per_char` bytes per character (1 or 2), each
    /// codepoint taken as shifted up by `codepoint_diff`.
    pub fn from_slice(slice: &[u8], codepoint_diff: i32, bytes_per_char: u32) -> (r: Text)
        requires
            bytes_per_char == 1 || bytes_per_char == 2,
        ensures
            r@ == decode(slice@, codepoint_diff, bytes_per_char),
    {
        if bytes_per_char == 1 {
            Self::from_slice_1byte(slice, codepoint_diff)
        } else {
            Self::from_slice_2bytes(slice, codepoint_diff)
        }
    }

    /// Decodes `slice` one byte per character.
    pub fn from_slice_1byte(slice: &[u8], codepoint_diff: i32) -> (r: Text)
        ensures
            r@ == decode1(slice@, codepoint_diff),
    {
        let mut vec: Vec<u32> = Vec::with_capacity(slice.len());
        let mut i: usize = 0;
        while i < slice.len()
            invariant
                i <= slice.len(),
                vec@ =~= decode1(slice@, codepoint_diff).take(i as int),
            decreases slice.len() - i,
        {
            vec.push(unshift_value(slice[i] as u32, codepoint_diff));
            i += 1;
        }
        Text(vec)
    }

    /// Decodes `slice` two little-endian bytes per character; a trailing odd byte is
    /// ignored.
    pub fn from_slice_2bytes(slice: &[u8], codepoint_diff: i32) -> (r: Text)
        ensures
            r@ == decode2(slice@, codepoint_diff),
    {
        let n = slice.len() / 2;
        let mut vec: Vec<u32> = Vec::with_capacity(n);
        let mut i: usize = 0;
        while i < n
            invariant
                n == slice.len() / 2,
                i <= n,
                vec@ =~= decode2(slice@, codepoint_diff).take(i as int),
            decreases n - i,
        {
            vec.push(unshift_value(get_2bytes(slice, i), codepoint_diff));
            i += 1;
        }
        Text(vec)
    }

    /// Shows the codepoints as text: printable ASCII as itself, whitespace control
    /// codes as a space, anything else as `?`.
    pub fn to_string(&self) -> (r: String)
        ensures
            r@ == render(self@),
    {
        let mut chars: Vec<char> = Vec::with_capacity(self.0.len());
        let mut i: usize = 0;
        while i < self.0.len()
            invariant
                i <= self@.len(),
                chars@ =~= render(self@).take(i as int),
            decreases self@.len() - i,
        {
            chars.push(render_codepoint(self.0[i]));
            i += 1;
        }
        string_of_chars(chars)
    }
}

/// The character that shows codepoint `c`.
pub fn render_codepoint(c: u32) -> (r: char)
    ensures
        r == render_char(c),
{
    if 32 <= c && c <= 126 {
        (c as u8) as char
    } else if c == 10 || c == 13 || c == 9 || c == 0 {
        ' '
    } else {
        '?'
    }
}

/// The little-endian 16-bit value at character `idx` of a two-byte-per-character slice.
pub fn get_2bytes(slice: &[u8], idx: usize) -> (r: u32)
    requires
        2 * idx + 1 < slice@.len(),
    ensures
        r as int == pair_at(slice@, idx as int),
        r <= 0xffff,
{
    assert(idx * 2 < slice.len());
    let a = slice[idx * 2] as u32;
    let b = slice[idx * 2 + 1] as u32;
    a + b * 256
}

/// Rendering a string of printable ASCII characters as codepoints and back gives the
/// string itself.
pub proof fn lemma_printable_round_trip(s: Seq<char>)
    requires
        is_printable_ascii(s),
    ensures
        render(codepoints(s)) == s,
{
    assert forall|i: int| 0 <= i < s.len() implies render(codepoints(s))[i] == s[i] by {
        let c = s[i];
        assert(32 <= c as u32 <= 126);
        vstd::utf8::char_u32_cast(c, c as u32);
    }
    assert(render(codepoints(s)) =~= s);
}

} // verus!
