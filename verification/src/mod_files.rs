//! The mod files found on disk, grouped by file stem.
//!
//! A stem names a mod in the configuration: files with the same stem in
//! different folders are governed by the same config entry, so a stem keeps
//! every path found for it, in the order found.
use vstd::prelude::*;

verus! {

/// A found mod: its stem and every path found for it.
pub type FoundMod = (Seq<char>, Seq<Seq<char>>);

/// Found mods, each stem with its paths.
pub type FileList = Seq<FoundMod>;

/// Plain values of a list of strings.
pub open spec fn strings_view(s: Seq<String>) -> Seq<Seq<char>> {
    s.map_values(|x: String| x@)
}

/// No stem occurs twice.
pub open spec fn stems_distinct(files: FileList) -> bool {
    forall|i: int, j: int| 0 <= i < j < files.len() ==> #[trigger] files[i].0 != #[trigger] files[j].0
}

/// Whether some file has the stem `stem`.
pub open spec fn has_stem(files: FileList, stem: Seq<char>) -> bool {
    exists|i: int| 0 <= i < files.len() && #[trigger] files[i].0 == stem
}

/// The position of the file with stem `stem` (meaningful where there is one).
pub open spec fn stem_index(files: FileList, stem: Seq<char>) -> int {
    choose|i: int| 0 <= i < files.len() && #[trigger] files[i].0 == stem
}

/// The paths found for the stem `stem` (meaningful where there is one).
pub open spec fn paths_of(files: FileList, stem: Seq<char>) -> Seq<Seq<char>> {
    files[stem_index(files, stem)].1
}

/// Where stems are distinct, the file at `i` is the one `stem_index` finds.
pub proof fn lemma_stem_index(files: FileList, i: int)
    requires
        stems_distinct(files),
        0 <= i < files.len(),
    ensures
        has_stem(files, files[i].0),
        stem_index(files, files[i].0) == i,
        paths_of(files, files[i].0) == files[i].1,
{
    let s = files[i].0;
    assert(files[i].0 == s);
    let k = stem_index(files, s);
    assert(0 <= k < files.len() && files[k].0 == s);
    if k < i {
        assert(files[k].0 != files[i].0);
    } else if k > i {
        assert(files[i].0 != files[k].0);
    }
}

/// A copy of a list of strings.
fn copy_strings(v: &Vec<String>) -> (r: Vec<String>)
    ensures
        strings_view(r@) == strings_view(v@),
{
    let mut r: Vec<String> = Vec::new();
    let mut i: usize = 0;
    while i < v.len()
        invariant
            i <= v@.len(),
            strings_view(r@) == strings_view(v@).take(i as int),
        decreases v@.len() - i,
    {
        let ghost before = strings_view(r@);
        r.push(v[i].clone());
        assert(strings_view(r@) =~= before.push(v@[i as int]@));
        assert(strings_view(v@).take(i + 1) =~= strings_view(v@).take(i as int).push(v@[i as int]@));
        i = i + 1;
    }
    assert(strings_view(v@).take(v@.len() as int) =~= strings_view(v@));
    r
}

/// The found mod files, grouped by stem: stems in the order first found,
/// each with its paths in the order found.
pub struct ModFiles {
    entries: Vec<(String, Vec<String>)>,
}

impl View for ModFiles {
    type V = FileList;

    closed spec fn view(&self) -> FileList {
        self.entries@.map_values(|e: (String, Vec<String>)| (e.0@, strings_view(e.1@)))
    }
}

impl ModFiles {
    /// The stems are distinct.
    #[verifier::type_invariant]
    pub closed spec fn inv(self) -> bool {
        stems_distinct(self@)
    }

    /// The stems of a `ModFiles` are distinct.
    pub proof fn lemma_stems_distinct(&self)
        requires
            self.inv(),
        ensures
            stems_distinct(self@),
    {
    }

    /// No files.
    pub fn new() -> (files: Self)
        ensures
            files@ == Seq::<(Seq<char>, Seq<Seq<char>>)>::empty(),
    {
        let files = ModFiles { entries: Vec::new() };
        assert(files@ =~= Seq::<(Seq<char>, Seq<Seq<char>>)>::empty());
        files
    }

    /// Number of stems.
    pub fn len(&self) -> (n: usize)
        ensures
            n == self@.len(),
    {
        self.entries.len()
    }

    /// Whether there are no files.
    pub fn is_empty(&self) -> (b: bool)
        ensures
            b == (self@.len() == 0),
    {
        self.entries.len() == 0
    }

    /// The stem at `i`.
    pub fn stem(&self, i: usize) -> (s: &String)
        requires
            i < self@.len(),
        ensures
            s@ == self@[i as int].0,
    {
        &self.entries[i].0
    }

    /// The paths of the stem at `i`, in the order found.
    pub fn paths(&self, i: usize) -> (p: &Vec<String>)
        requires
            i < self@.len(),
        ensures
            strings_view(p@) == self@[i as int].1,
    {
        &self.entries[i].1
    }

    /// The position of the stem `stem`, if it was found.
    pub fn find(&self, stem: &String) -> (idx: Option<usize>)
        ensures
            match idx {
                Some(i) => i < self@.len() && self@[i as int].0 == stem@,
                None => !has_stem(self@, stem@),
            },
    {
        let mut i: usize = 0;
        while i < self.entries.len()
            invariant
                i <= self.entries@.len(),
                self@.len() == self.entries@.len(),
                forall|j: int| 0 <= j < i ==> #[trigger] self@[j].0 != stem@,
            decreases self.entries@.len() - i,
        {
            if self.entries[i].0 == *stem {
                return Some(i);
            }
            i = i + 1;
        }
        None
    }

    /// Records the file `path` of the mod `stem`: after the paths already
    /// found for that stem, or as a new stem after the others.
    pub fn insert(&mut self, stem: String, path: String)
        ensures
            has_stem(old(self)@, stem@) ==> final(self)@ == old(self)@.update(
                stem_index(old(self)@, stem@),
                (stem@, old(self)@[stem_index(old(self)@, stem@)].1.push(path@)),
            ),
            !has_stem(old(self)@, stem@) ==> final(self)@ == old(self)@.push((stem@, seq![path@])),
    {
        proof {
            use_type_invariant(&*self);
        }
        let ghost before = self@;
        let ghost s = stem@;
        let ghost p = path@;
        let found = self.find(&stem);
        let mut taken = ModFiles::new();
        std::mem::swap(self, &mut taken);
        let mut entries = taken.entries;
        assert(entries@.map_values(|e: (String, Vec<String>)| (e.0@, strings_view(e.1@))) == before);
        match found {
            Some(i) => {
                proof {
                    lemma_stem_index(before, i as int);
                }
                let mut paths = copy_strings(&entries[i].1);
                let ghost old_paths = strings_view(paths@);
                assert(old_paths == before[i as int].1);
                paths.push(path);
                assert(strings_view(paths@) =~= old_paths.push(p));
                entries.set(i, (stem, paths));
                let ghost after = entries@.map_values(|e: (String, Vec<String>)| (e.0@, strings_view(e.1@)));
                proof {
                    assert(after =~= before.update(i as int, (s, before[i as int].1.push(p))));
                    assert forall|a: int, b: int| 0 <= a < b < after.len() implies #[trigger] after[a].0
                        != #[trigger] after[b].0 by {
                        assert(before[a].0 != before[b].0);
                    }
                }
                *self = ModFiles { entries };
            },
            None => {
                let mut paths: Vec<String> = Vec::new();
                paths.push(path);
                assert(strings_view(paths@) =~= seq![p]);
                entries.push((stem, paths));
                let ghost after = entries@.map_values(|e: (String, Vec<String>)| (e.0@, strings_view(e.1@)));
                proof {
                    assert(after =~= before.push((s, seq![p])));
                    assert forall|a: int, b: int| 0 <= a < b < after.len() implies #[trigger] after[a].0
                        != #[trigger] after[b].0 by {
                        if b < before.len() {
                            assert(before[a].0 != before[b].0);
                        } else {
                            assert(after[a] == before[a]);
                        }
                    }
                }
                *self = ModFiles { entries };
            },
        }
    }
}

} // verus!
