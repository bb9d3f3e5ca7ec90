use vstd::prelude::*;
use crate::phrase::Phrase;
use crate::text::Text;

verus! {

/// Whether `base` is a prefix of `path`, compared whole path component by whole
/// component.
pub uninterp spec fn path_has_prefix(path: Seq<char>, base: Seq<char>) -> bool;

/// Relies on `std::path::Path::starts_with`: whether `base` is a prefix of `path`, taken
/// as paths and compared by whole components; the answer depends on the two strings alone.
#[verifier::external_body]
fn path_starts_with(path: &str, base: &str) -> (r: bool)
    ensures
        r == path_has_prefix(path@, base@),
{
    std::path::Path::new(path).starts_with(base)
}

/// The paths of `files` that do not lie under `base`, in order.
pub open spec fn kept(files: Seq<Seq<char>>, base: Seq<char>) -> Seq<Seq<char>>
    decreases files.len(),
{
    if files.len() == 0 {
        Seq::empty()
    } else if path_has_prefix(files.last(), base) {
        kept(files.drop_last(), base)
    } else {
        kept(files.drop_last(), base).push(files.last())
    }
}

/// Whether two texts hold the same codepoints.
pub fn same_text(a: &Text, b: &Text) -> (r: bool)
    ensures
        r == (a@ == b@),
{
    if a.0.len() != b.0.len() {
        return false;
    }
    let mut i: usize = 0;
    while i < a.0.len()
        invariant
            a@.len() == b@.len(),
            i <= a@.len(),
            forall|j: int| 0 <= j < i ==> a@[j] == b@[j],
        decreases a@.len() - i,
    {
        if a.0[i] != b.0[i] {
            return false;
        }
        i += 1;
    }
    assert(a@ =~= b@);
    true
}

/// Whether two phrases have the same tokens.
pub fn same_phrase(a: &Phrase, b: &Phrase) -> (r: bool)
    ensures
        r == (a@ == b@),
{
    if a.0.len() != b.0.len() {
        return false;
    }
    let mut i: usize = 0;
    while i < a.0.len()
        invariant
            a@.len() == b@.len(),
            a.0@.len() == a@.len(),
            i <= a@.len(),
            forall|j: int| 0 <= j < i ==> a@[j] == b@[j],
        decreases a@.len() - i,
    {
        assert(a@[i as int] == a.0@[i as int]@ && b@[i as int] == b.0@[i as int]@);
        if !same_text(&a.0[i], &b.0[i]) {
            return false;
        }
        i += 1;
    }
    assert(a@ =~= b@);
    true
}

/// The files and phrases being tracked; neither list holds an entry twice.
pub struct State {
    files: Vec<String>,
    phrases: Vec<Phrase>,
}

impl State {
    pub closed spec fn file_list(&self) -> Seq<Seq<char>> {
        self.files@.map_values(|f: String| f@)
    }

    pub closed spec fn phrase_list(&self) -> Seq<Seq<Seq<u32>>> {
        self.phrases@.map_values(|p: Phrase| p@)
    }

    pub open spec fn wf(&self) -> bool {
        self.file_list().no_duplicates() && self.phrase_list().no_duplicates()
    }

    /// Nothing tracked.
    pub fn new() -> (r: State)
        ensures
            r.wf(),
            r.file_list() == Seq::<Seq<char>>::empty(),
            r.phrase_list() == Seq::<Seq<Seq<u32>>>::empty(),
    {
        let r = State { files: Vec::new(), phrases: Vec::new() };
        assert(r.file_list() =~= Seq::<Seq<char>>::empty());
        assert(r.phrase_list() =~= Seq::<Seq<Seq<u32>>>::empty());
        r
    }

    /// The tracked file paths.
    pub fn files(&self) -> (r: &[String])
        ensures
            r@.map_values(|f: String| f@) == self.file_list(),
    {
        self.files.as_slice()
    }

    /// The tracked phrases.
    pub fn phrases(&self) -> (r: &[Phrase])
        ensures
            r@.map_values(|p: Phrase| p@) == self.phrase_list(),
    {
        self.phrases.as_slice()
    }
}

/// Keeps track of the files to watch and the phrases to look for, and of the document the
/// tracked state is saved to.
pub struct FinderService {
    persist_file: String,
    state: State,
}

impl FinderService {
    /// A service with nothing tracked yet, saving to `persist_file`.
    pub fn new(persist_file: &str) -> (r: FinderService)
        ensures
            r.state().wf(),
            r.persist_file()@ == persist_file@,
            r.state().file_list() == Seq::<Seq<char>>::empty(),
            r.state().phrase_list() == Seq::<Seq<Seq<u32>>>::empty(),
    {
        FinderService { persist_file: persist_file.to_owned(), state: State::new() }
    }

    pub closed spec fn state_spec(&self) -> &State {
        &self.state
    }

    /// The tracked state.
    #[verifier::when_used_as_spec(state_spec)]
    pub fn state(&self) -> (r: &State)
        ensures
            r == self.state_spec(),
    {
        &self.state
    }

    pub closed spec fn persist_file_spec(&self) -> &String {
        &self.persist_file
    }

    /// Where the tracked state is saved.
    #[verifier::when_used_as_spec(persist_file_spec)]
    pub fn persist_file(&self) -> (r: &String)
        ensures
            r == self.persist_file_spec(),
    {
        &self.persist_file
    }

    /// Tracks one file path; a path already tracked stays as it is.
    pub fn track_file(&mut self, path: String)
        requires
            old(self).state().wf(),
        ensures
            final(self).state().wf(),
            final(self).persist_file() == old(self).persist_file(),
            final(self).state().phrase_list() == old(self).state().phrase_list(),
            final(self).state().file_list() == if old(self).state().file_list().contains(path@) {
                old(self).state().file_list()
            } else {
                old(self).state().file_list().push(path@)
            },
    {
        let ghost files = self.state.file_list();
        let mut i: usize = 0;
        while i < self.state.files.len()
            invariant
                files == self.state.file_list(),
                self.state == old(self).state,
                self.persist_file == old(self).persist_file,
                self.state.wf(),
                i <= files.len(),
                forall|j: int| 0 <= j < i ==> files[j] != path@,
            decreases files.len() - i,
        {
            assert(files[i as int] == self.state.files@[i as int]@);
            if self.state.files[i] == path {
                return;
            }
            i += 1;
        }
        self.state.files.push(path);
        assert(self.state.file_list() =~= files.push(path@));
    }

    /// Stops tracking every file path that lies under `base`, `base` itself included.
    pub fn remove_files(&mut self, base: &str)
        requires
            old(self).state().wf(),
        ensures
            final(self).state().wf(),
            final(self).persist_file() == old(self).persist_file(),
            final(self).state().phrase_list() == old(self).state().phrase_list(),
            final(self).state().file_list() == kept(old(self).state().file_list(), base@),
    {
        let ghost files = self.state.file_list();
        let mut remaining: Vec<String> = Vec::new();
        let mut i: usize = 0;
        while i < self.state.files.len()
            invariant
                files == self.state.file_list(),
                files.no_duplicates(),
                i <= files.len(),
                remaining@.map_values(|f: String| f@) == kept(files.take(i as int), base@),
                forall|j: int| #![trigger remaining@[j]] 0 <= j < remaining@.len() ==> exists|k: int| 0 <= k < i && #[trigger] files[k] == remaining@[j]@,
                remaining@.map_values(|f: String| f@).no_duplicates(),
            decreases files.len() - i,
        {
            assert(files.take(i + 1).drop_last() =~= files.take(i as int));
            assert(files[i as int] == self.state.files@[i as int]@);
            if !path_starts_with(self.state.files[i].as_str(), base) {
                let f = self.state.files[i].clone();
                let ghost before = remaining@.map_values(|f: String| f@);
                remaining.push(f);
                let ghost rv = remaining@.map_values(|f: String| f@);
                assert(rv =~= before.push(files[i as int]));
                assert forall|a: int, b: int|
                    0 <= a < rv.len() && 0 <= b < rv.len() && a != b implies #[trigger] rv[a] != #[trigger] rv[b] by {
                    if b == rv.len() - 1 {
                        let k = choose|k: int| 0 <= k < i && #[trigger] files[k] == remaining@[a]@;
                        assert(files[k] != files[i as int]);
                    } else if a == rv.len() - 1 {
                        let k = choose|k: int| 0 <= k < i && #[trigger] files[k] == remaining@[b]@;
                        assert(files[k] != files[i as int]);
                    } else {
                        assert(rv[a] == before[a] && rv[b] == before[b]);
                    }
                }
            }
            i += 1;
        }
        assert(files.take(files.len() as int) =~= files);
        self.state.files = remaining;
    }

    /// Tracks a phrase; a phrase already tracked stays as it is.
    pub fn add_phrase(&mut self, phrase: Phrase)
        requires
            old(self).state().wf(),
        ensures
            final(self).state().wf(),
            final(self).persist_file() == old(self).persist_file(),
            final(self).state().file_list() == old(self).state().file_list(),
            final(self).state().phrase_list() == if old(self).state().phrase_list().contains(phrase@) {
                old(self).state().phrase_list()
            } else {
                old(self).state().phrase_list().push(phrase@)
            },
    {
        match self.phrase_index(&phrase) {
            Some(_) => {},
            None => {
                let ghost phrases = self.state.phrase_list();
                self.state.phrases.push(phrase);
                assert(self.state.phrase_list() =~= phrases.push(phrase@));
            },
        }
    }

    /// Stops tracking a phrase; tells whether it was tracked.
    pub fn remove_phrase(&mut self, phrase: &Phrase) -> (r: bool)
        requires
            old(self).state().wf(),
        ensures
            final(self).state().wf(),
            final(self).persist_file() == old(self).persist_file(),
            final(self).state().file_list() == old(self).state().file_list(),
            r == old(self).state().phrase_list().contains(phrase@),
            final(self).state().phrase_list().to_set() == old(self).state().phrase_list().to_set().remove(phrase@),
            !r ==> final(self).state().phrase_list() == old(self).state().phrase_list(),
            r ==> exists|i: int|
                0 <= i < old(self).state().phrase_list().len() && old(self).state().phrase_list()[i] == phrase@
                    && final(self).state().phrase_list() == old(self).state().phrase_list().remove(i),
    {
        let ghost phrases = self.state.phrase_list();
        match self.phrase_index(phrase) {
            Some(i) => {
                self.state.phrases.remove(i);
                assert(self.state.phrase_list() =~= phrases.remove(i as int));
                assert(phrases[i as int] == phrase@);
                proof {
                    assert(phrases.remove(i as int).to_set() =~= phrases.to_set().remove(phrase@)) by {
                        assert forall|q| #[trigger] phrases.remove(i as int).to_set().contains(q) implies q != phrase@ by {
                            let k = choose|k: int| 0 <= k < phrases.remove(i as int).len() && phrases.remove(i as int)[k] == q;
                            if k < i {
                                assert(phrases[k] == q);
                            } else {
                                assert(phrases[k + 1] == q);
                            }
                        }
                        assert forall|q| #[trigger] phrases.to_set().contains(q) && q != phrase@ implies phrases.remove(i as int).to_set().contains(q) by {
                            let k = choose|k: int| 0 <= k < phrases.len() && phrases[k] == q;
                            if k < i {
                                assert(phrases.remove(i as int)[k] == q);
                            } else {
                                assert(phrases.remove(i as int)[k - 1] == q);
                            }
                        }
                    }
                }
                true
            },
            None => {
                assert(phrases.to_set() =~= phrases.to_set().remove(phrase@));
                false
            },
        }
    }

    /// Where `phrase` stands among the tracked phrases, if it is tracked.
    fn phrase_index(&self, phrase: &Phrase) -> (r: Option<usize>)
        ensures
            match r {
                Some(i) => i < self.state.phrase_list().len() && self.state.phrase_list()[i as int] == phrase@,
                None => !self.state.phrase_list().contains(phrase@),
            },
    {
        let ghost phrases = self.state.phrase_list();
        let mut i: usize = 0;
        while i < self.state.phrases.len()
            invariant
                phrases == self.state.phrase_list(),
                i <= phrases.len(),
                forall|j: int| 0 <= j < i ==> phrases[j] != phrase@,
            decreases phrases.len() - i,
        {
            assert(phrases[i as int] == self.state.phrases@[i as int]@);
            if same_phrase(&self.state.phrases[i], phrase) {
                return Some(i);
            }
            i += 1;
        }
        None
    }
}

} // verus!
