use vstd::prelude::*;
use crate::text::{codepoints, render, render_codepoint, string_of_chars, Text};

verus! {

/// An ordered list of tokens.
#[derive(Clone, PartialEq, Eq, PartialOrd, Ord, Hash, Debug)]
pub struct Phrase(pub Vec<Text>);

impl View for Phrase {
    type V = Seq<Seq<u32>>;

    open spec fn view(&self) -> Seq<Seq<u32>> {
        self.0@.map_values(|t: Text| t@)
    }
}

/// One hit: the phrase's index in the list searched for, the stream position where its
/// earliest matched token starts, and the shift and width it was found under.
#[derive(Clone, Copy, PartialEq, Eq, PartialOrd, Ord, Hash, Debug)]
pub struct PhraseInstance {
    pub phrase_index: usize,
    pub file_pos: usize,
    pub codepoint_diff: i32,
    pub bytes_per_character: u32,
}

/// The hits found in one step of a search.
#[derive(Clone, PartialEq, Eq, PartialOrd, Ord, Debug)]
pub struct PhraseInstanceGroup(pub Vec<PhraseInstance>);

impl View for PhraseInstanceGroup {
    type V = Seq<PhraseInstance>;

    open spec fn view(&self) -> Seq<PhraseInstance> {
        self.0@
    }
}

/// The tokens shown one after another, separated by single spaces.
pub open spec fn render_phrase(p: Seq<Seq<u32>>) -> Seq<char>
    decreases p.len(),
{
    if p.len() == 0 {
        Seq::empty()
    } else if p.len() == 1 {
        render(p[0])
    } else {
        render_phrase(p.drop_last()) + seq![' '] + render(p.last())
    }
}

pub open spec fn is_ascii_whitespace(c: char) -> bool {
    c == ' ' || c == '\t' || c == '\n' || c == '\r' || c == '\x0C'
}

/// Splitting `s` on ASCII whitespace, read left to right: the runs already closed, and
/// the run still open.
pub open spec fn split_runs(s: Seq<char>) -> (Seq<Seq<char>>, Seq<char>)
    decreases s.len(),
{
    if s.len() == 0 {
        (Seq::empty(), Seq::empty())
    } else {
        let (done, cur) = split_runs(s.drop_last());
        if is_ascii_whitespace(s.last()) {
            if cur.len() > 0 {
                (done.push(cur), Seq::empty())
            } else {
                (done, Seq::empty())
            }
        } else {
            (done, cur.push(s.last()))
        }
    }
}

/// The non-empty runs of `s` between ASCII whitespace.
pub open spec fn words(s: Seq<char>) -> Seq<Seq<char>> {
    let (done, cur) = split_runs(s);
    if cur.len() > 0 {
        done.push(cur)
    } else {
        done
    }
}

impl Phrase {
    /// One token per run of non-whitespace characters of `s`.
    pub fn parse(s: &str) -> (r: Phrase)
        ensures
            r@ == words(s@).map_values(|w: Seq<char>| codepoints(w)),
    {
        let mut done: Vec<Text> = Vec::new();
        let mut cur: Vec<u32> = Vec::new();
        for c in it: s.chars()
            invariant
                it.seq() == s@,
                done@.map_values(|t: Text| t@) == split_runs(s@.take(it.index() as int)).0.map_values(
                    |w: Seq<char>| codepoints(w),
                ),
                cur@ == codepoints(split_runs(s@.take(it.index() as int)).1),
        {
            let ghost pre = s@.take(it.index() as int);
            let ghost post = s@.take(it.index() + 1);
            proof {
                assert(post.drop_last() =~= pre);
                assert(post.last() == c);
            }
            if c == ' ' || c == '\t' || c == '\n' || c == '\r' || c == '\x0C' {
                if cur.len() > 0 {
                    let ghost before = done@.map_values(|t: Text| t@);
                    let word = cur;
                    cur = Vec::new();
                    done.push(Text(word));
                    assert(done@.map_values(|t: Text| t@) =~= before.push(word@));
                    assert(split_runs(pre).0.push(split_runs(pre).1).map_values(|w: Seq<char>| codepoints(w))
                        =~= split_runs(pre).0.map_values(|w: Seq<char>| codepoints(w)).push(codepoints(split_runs(pre).1)));
                }
                assert(cur@ =~= codepoints(split_runs(post).1));
            } else {
                cur.push(c as u32);
                assert(cur@ =~= codepoints(split_runs(post).1));
            }
        }
        proof {
            assert(s@.take(s@.len() as int) =~= s@);
        }
        if cur.len() > 0 {
            let ghost before = done@.map_values(|t: Text| t@);
            done.push(Text(cur));
            let ghost sr = split_runs(s@);
            assert(done@.map_values(|t: Text| t@) =~= before.push(codepoints(sr.1)));
            assert(sr.0.push(sr.1).map_values(|w: Seq<char>| codepoints(w))
                =~= sr.0.map_values(|w: Seq<char>| codepoints(w)).push(codepoints(sr.1)));
        } else {
            proof {
                let sr = split_runs(s@);
                assert(sr.1.len() == 0);
            }
        }
        Phrase(done)
    }

    /// The tokens shown one after another, separated by single spaces.
    pub fn to_string(&self) -> (r: String)
        ensures
            r@ == render_phrase(self@),
    {
        let mut chars: Vec<char> = Vec::new();
        let mut i: usize = 0;
        while i < self.0.len()
            invariant
                i <= self@.len(),
                self.0@.len() == self@.len(),
                chars@ == render_phrase(self@.take(i as int)),
            decreases self@.len() - i,
        {
            assert(self@.take(i + 1).drop_last() =~= self@.take(i as int));
            assert(self@[i as int] == self.0@[i as int]@);
            if i > 0 {
                chars.push(' ');
            }
            let token = &self.0[i];
            let mut k: usize = 0;
            let ghost start = chars@;
            while k < token.0.len()
                invariant
                    k <= token@.len(),
                    chars@ == start + render(token@).take(k as int),
                decreases token@.len() - k,
            {
                chars.push(render_codepoint(token.0[k]));
                k += 1;
                assert(chars@ =~= start + render(token@).take(k as int));
            }
            assert(render(token@).take(token@.len() as int) =~= render(token@));
            i += 1;
            if i == 1 {
                assert(start =~= Seq::<char>::empty());
                assert(chars@ =~= render(token@));
            }
        }
        assert(self@.take(self@.len() as int) =~= self@);
        string_of_chars(chars)
    }

    /// One token per string, one codepoint per character.
    pub fn from_strs(strs: &[&str]) -> (r: Phrase)
        ensures
            r@ == strs@.map_values(|s: &str| codepoints(s@)),
    {
        let mut texts: Vec<Text> = Vec::with_capacity(strs.len());
        let mut i: usize = 0;
        while i < strs.len()
            invariant
                i <= strs@.len(),
                texts@.len() == i,
                forall|j: int| 0 <= j < i ==> (#[trigger] texts@[j])@ == codepoints(strs@[j]@),
            decreases strs@.len() - i,
        {
            let t = Text::from_str(strs[i]);
            texts.push(t);
            i += 1;
        }
        assert(texts@.map_values(|t: Text| t@) =~= strs@.map_values(|s: &str| codepoints(s@)));
        Phrase(texts)
    }
}

} // verus!
