//! Which found mods are loaded, and how, given the entries of a config section.
//!
//! An entry `STEM=VALUE` turns the mod with that file stem on where `VALUE`
//! is a loading value (`TRUE` for a CPK; `TRUE`, `EARLY` or `LATE` for a
//! DLL, where `TRUE` injects it early); any other value turns it off. A mod
//! that is on loads every file found with its stem. A found mod that no entry names is new: it is
//! loaded by default and gets an entry with the default value. The mods the
//! config turns on come first, in the order of their entries; the new ones
//! follow in the order they were found.
use vstd::prelude::*;
use crate::ini_model::{Props, has_key, pairs_view};
use crate::mod_files::{FileList, FoundMod, ModFiles, has_stem, paths_of, stems_distinct, strings_view, lemma_stem_index};

verus! {

/// The two kinds of mod, each with its own config section.
#[derive(Clone, Copy, Debug, PartialEq, Eq, Structural)]
pub enum ModKind {
    Cpk,
    Dll,
}

/// How a mod is loaded: a CPK is mounted; a DLL is injected at launch or
/// after the game has loaded its DLC archives.
#[derive(Clone, Copy, Debug, PartialEq, Eq, Structural)]
pub enum Choice {
    Mount,
    Early,
    Late,
}

pub open spec fn cpk_section() -> Seq<char> {
    seq!['C', 'P', 'K']
}

pub open spec fn dll_section() -> Seq<char> {
    seq!['D', 'L', 'L']
}

pub open spec fn true_value() -> Seq<char> {
    seq!['T', 'R', 'U', 'E']
}

pub open spec fn early_value() -> Seq<char> {
    seq!['E', 'A', 'R', 'L', 'Y']
}

pub open spec fn late_value() -> Seq<char> {
    seq!['L', 'A', 'T', 'E']
}

/// The section that configures mods of this kind.
pub open spec fn section_name(kind: ModKind) -> Seq<char> {
    match kind {
        ModKind::Cpk => cpk_section(),
        ModKind::Dll => dll_section(),
    }
}

/// What a value in the section of `kind` asks for; `None` turns the mod off.
pub open spec fn setting(kind: ModKind, value: Seq<char>) -> Option<Choice> {
    match kind {
        ModKind::Cpk => if value == true_value() { Some(Choice::Mount) } else { None },
        ModKind::Dll => if value == early_value() || value == true_value() {
            Some(Choice::Early)
        } else if value == late_value() {
            Some(Choice::Late)
        } else {
            None
        },
    }
}

/// The value written for a new mod.
pub open spec fn default_value(kind: ModKind) -> Seq<char> {
    match kind {
        ModKind::Cpk => true_value(),
        ModKind::Dll => early_value(),
    }
}

/// How a new mod is loaded.
pub open spec fn default_choice(kind: ModKind) -> Choice {
    match kind {
        ModKind::Cpk => Choice::Mount,
        ModKind::Dll => Choice::Early,
    }
}

/// Some entry for `stem` has a loading value.
pub open spec fn enables(kind: ModKind, entries: Props, stem: Seq<char>) -> bool {
    exists|j: int| 0 <= j < entries.len() && #[trigger] entries[j].0 == stem && setting(kind, entries[j].1) is Some
}

/// The found mods that the entries turn on, each at its first entry with a
/// loading value, with what that value asks for.
pub open spec fn configured_loads(kind: ModKind, entries: Props, files: FileList) -> Seq<(Seq<char>, Choice)>
    decreases entries.len(),
{
    if entries.len() == 0 {
        Seq::empty()
    } else {
        let prev = entries.drop_last();
        let e = entries.last();
        let rest = configured_loads(kind, prev, files);
        if has_stem(files, e.0) && setting(kind, e.1) is Some && !enables(kind, prev, e.0) {
            rest.push((e.0, setting(kind, e.1).unwrap()))
        } else {
            rest
        }
    }
}

/// The found files that no entry names, in the order found.
pub open spec fn unlisted_files(entries: Props, files: FileList) -> FileList
    decreases files.len(),
{
    if files.len() == 0 {
        Seq::empty()
    } else {
        let rest = unlisted_files(entries, files.drop_last());
        if has_key(entries, files.last().0) {
            rest
        } else {
            rest.push(files.last())
        }
    }
}

/// The stems of some files, each with the default choice of `kind`.
pub open spec fn as_new_loads(kind: ModKind, files: FileList) -> Seq<(Seq<char>, Choice)> {
    files.map_values(|f: FoundMod| (f.0, default_choice(kind)))
}

/// Every mod that is loaded, by stem, in load order.
pub open spec fn load_order(kind: ModKind, entries: Props, files: FileList) -> Seq<(Seq<char>, Choice)> {
    configured_loads(kind, entries, files) + as_new_loads(kind, unlisted_files(entries, files))
}

/// Each of `paths`, loaded as `c` asks.
pub open spec fn tag_paths(paths: Seq<Seq<char>>, c: Choice) -> Seq<(Seq<char>, Choice)> {
    paths.map_values(|p: Seq<char>| (p, c))
}

/// Loads by stem turned into loads by path: each mod brings all its paths,
/// in the order found.
pub open spec fn with_paths(files: FileList, loads: Seq<(Seq<char>, Choice)>) -> Seq<(Seq<char>, Choice)>
    decreases loads.len(),
{
    if loads.len() == 0 {
        Seq::empty()
    } else {
        with_paths(files, loads.drop_last()) + tag_paths(paths_of(files, loads.last().0), loads.last().1)
    }
}

/// The entries added to the section for the new mods.
pub open spec fn added_entries(kind: ModKind, entries: Props, files: FileList) -> Props {
    unlisted_files(entries, files).map_values(|f: FoundMod| (f.0, default_value(kind)))
}

/// Plain values of a list of loads.
pub open spec fn loads_view(loads: Seq<(String, Choice)>) -> Seq<(Seq<char>, Choice)> {
    loads.map_values(|l: (String, Choice)| (l.0@, l.1))
}


pub proof fn lemma_default_setting(kind: ModKind)
    ensures
        setting(kind, default_value(kind)) == Some(default_choice(kind)),
{
}

/// The files left unlisted are found files, in order, and none is named by an entry.
pub proof fn lemma_unlisted_files(entries: Props, files: FileList)
    ensures
        unlisted_files(entries, files).len() <= files.len(),
        forall|i: int|
            0 <= i < unlisted_files(entries, files).len() ==> !has_key(entries, #[trigger] unlisted_files(entries, files)[i].0),
        forall|i: int|
            0 <= i < unlisted_files(entries, files).len() ==> has_stem(files, #[trigger] unlisted_files(entries, files)[i].0),
        stems_distinct(files) ==> stems_distinct(unlisted_files(entries, files)),
        forall|i: int|
            0 <= i < files.len() && !has_key(entries, #[trigger] files[i].0) ==> has_stem(unlisted_files(entries, files), files[i].0),
    decreases files.len(),
{
    if files.len() > 0 {
        let prev = files.drop_last();
        lemma_unlisted_files(entries, prev);
        let u = unlisted_files(entries, files);
        let up = unlisted_files(entries, prev);
        assert forall|i: int| 0 <= i < u.len() implies has_stem(files, #[trigger] u[i].0) by {
            if i < up.len() {
                assert(u[i] == up[i]);
                let w = choose|k: int| 0 <= k < prev.len() && #[trigger] prev[k].0 == up[i].0;
                assert(files[w] == prev[w]);
            } else {
                assert(files[files.len() - 1].0 == u[i].0);
            }
        }
        if stems_distinct(files) {
            assert(stems_distinct(prev)) by {
                assert forall|a: int, b: int| 0 <= a < b < prev.len() implies #[trigger] prev[a].0
                    != #[trigger] prev[b].0 by {
                    assert(files[a].0 != files[b].0);
                }
            }
            if !has_key(entries, files.last().0) {
                assert forall|a: int, b: int| 0 <= a < b < u.len() implies #[trigger] u[a].0
                    != #[trigger] u[b].0 by {
                    if b == u.len() - 1 {
                        assert(u[a] == up[a]);
                        let w = choose|k: int| 0 <= k < prev.len() && #[trigger] prev[k].0 == up[a].0;
                        assert(files[w].0 != files[files.len() - 1].0);
                    } else {
                        assert(u[a] == up[a] && u[b] == up[b]);
                    }
                }
            }
        }
        assert forall|i: int| 0 <= i < files.len() && !has_key(entries, #[trigger] files[i].0) implies has_stem(
            u,
            files[i].0,
        ) by {
            if i < prev.len() {
                assert(prev[i] == files[i]);
                let w = choose|k: int| 0 <= k < up.len() && #[trigger] up[k].0 == prev[i].0;
                assert(u[w] == up[w]);
            } else {
                assert(u[u.len() - 1] == files[i]);
            }
        }
        assert forall|i: int| 0 <= i < u.len() implies !has_key(entries, #[trigger] u[i].0) by {
            if i < up.len() {
                assert(u[i] == up[i]);
            }
        }
    }
}

/// The mods the entries turn on are found mods, named by an enabling entry,
/// each once, with what its first enabling entry asks for.
pub proof fn lemma_configured_loads(kind: ModKind, entries: Props, files: FileList)
    ensures
        forall|i: int|
            0 <= i < configured_loads(kind, entries, files).len() ==> {
                let l = #[trigger] configured_loads(kind, entries, files)[i];
                &&& has_stem(files, l.0)
                &&& enables(kind, entries, l.0)
                &&& exists|j: int|
                    0 <= j < entries.len() && #[trigger] entries[j].0 == l.0 && setting(kind, entries[j].1) == Some(l.1)
            },
        forall|s: Seq<char>|
            has_stem(files, s) && enables(kind, entries, s) ==> exists|i: int|
                0 <= i < configured_loads(kind, entries, files).len() && #[trigger] configured_loads(
                    kind,
                    entries,
                    files,
                )[i].0 == s,
        forall|a: int, b: int|
            0 <= a < b < configured_loads(kind, entries, files).len() ==> #[trigger] configured_loads(
                kind,
                entries,
                files,
            )[a].0 != #[trigger] configured_loads(kind, entries, files)[b].0,
    decreases entries.len(),
{
    if entries.len() > 0 {
        let prev = entries.drop_last();
        let e = entries.last();
        lemma_configured_loads(kind, prev, files);
        let c = configured_loads(kind, entries, files);
        let cp = configured_loads(kind, prev, files);
        let n = entries.len() - 1;
        assert(entries[n] == e);
        assert forall|j: int| 0 <= j < prev.len() implies #[trigger] prev[j] == entries[j] by {}
        assert forall|i: int| 0 <= i < c.len() implies {
            let l = #[trigger] c[i];
            &&& has_stem(files, l.0)
            &&& enables(kind, entries, l.0)
            &&& exists|j: int|
                0 <= j < entries.len() && #[trigger] entries[j].0 == l.0 && setting(kind, entries[j].1) == Some(l.1)
        } by {
            if i < cp.len() {
                assert(c[i] == cp[i]);
                let l = cp[i];
                let j = choose|j: int|
                    0 <= j < prev.len() && #[trigger] prev[j].0 == l.0 && setting(kind, prev[j].1) == Some(l.1);
                assert(entries[j] == prev[j]);
            } else {
                assert(entries[n].0 == c[i].0);
            }
        }
        assert forall|s: Seq<char>| has_stem(files, s) && enables(kind, entries, s) implies exists|i: int|
            0 <= i < c.len() && #[trigger] c[i].0 == s by {
            if enables(kind, prev, s) {
                let i = choose|i: int| 0 <= i < cp.len() && #[trigger] cp[i].0 == s;
                assert(c[i] == cp[i]);
            } else {
                let j = choose|j: int|
                    0 <= j < entries.len() && #[trigger] entries[j].0 == s && setting(kind, entries[j].1) is Some;
                if j < n {
                    assert(prev[j] == entries[j]);
                }
                assert(j == n);
                assert(c[c.len() - 1].0 == s);
            }
        }
        assert forall|a: int, b: int| 0 <= a < b < c.len() implies #[trigger] c[a].0 != #[trigger] c[b].0 by {
            if b < cp.len() {
                assert(c[a] == cp[a] && c[b] == cp[b]);
            } else {
                assert(c[a] == cp[a]);
                let l = cp[a];
                assert(enables(kind, prev, l.0));
            }
        }
    }
}

/// The value of a config entry, as what it asks for.
pub fn classify(kind: ModKind, value: &String) -> (c: Option<Choice>)
    ensures
        c == setting(kind, value@),
{
    proof {
        reveal_strlit("TRUE");
        reveal_strlit("EARLY");
        reveal_strlit("LATE");
        assert("TRUE"@ =~= true_value());
        assert("EARLY"@ =~= early_value());
        assert("LATE"@ =~= late_value());
    }
    match kind {
        ModKind::Cpk => {
            if *value == String::from_str("TRUE") {
                Some(Choice::Mount)
            } else {
                None
            }
        },
        ModKind::Dll => {
            if *value == String::from_str("EARLY") || *value == String::from_str("TRUE") {
                Some(Choice::Early)
            } else if *value == String::from_str("LATE") {
                Some(Choice::Late)
            } else {
                None
            }
        },
    }
}


pub proof fn lemma_has_key_push(props: Props, e: (Seq<char>, Seq<char>), key: Seq<char>)
    ensures
        has_key(props.push(e), key) == (has_key(props, key) || e.0 == key),
{
    let q = props.push(e);
    if has_key(props, key) {
        let j = choose|j: int| 0 <= j < props.len() && #[trigger] props[j].0 == key;
        assert(q[j] == props[j]);
    }
    if has_key(q, key) && !has_key(props, key) {
        let j = choose|j: int| 0 <= j < q.len() && #[trigger] q[j].0 == key;
        if j < props.len() {
            assert(q[j] == props[j]);
        }
    }
    if e.0 == key {
        assert(q[props.len() as int] == e);
    }
}

pub proof fn lemma_enables_push(kind: ModKind, props: Props, e: (Seq<char>, Seq<char>), key: Seq<char>)
    ensures
        enables(kind, props.push(e), key) == (enables(kind, props, key) || (e.0 == key && setting(kind, e.1) is Some)),
{
    let q = props.push(e);
    if enables(kind, props, key) {
        let j = choose|j: int| 0 <= j < props.len() && #[trigger] props[j].0 == key && setting(kind, props[j].1) is Some;
        assert(q[j] == props[j]);
    }
    if enables(kind, q, key) && !enables(kind, props, key) {
        let j = choose|j: int| 0 <= j < q.len() && #[trigger] q[j].0 == key && setting(kind, q[j].1) is Some;
        if j < props.len() {
            assert(q[j] == props[j]);
        }
    }
    if e.0 == key && setting(kind, e.1) is Some {
        assert(q[props.len() as int] == e);
    }
}

/// Adding one load at the end adds all its paths at the end.
pub proof fn lemma_with_paths_push(files: FileList, loads: Seq<(Seq<char>, Choice)>, l: (Seq<char>, Choice))
    ensures
        with_paths(files, loads.push(l)) == with_paths(files, loads) + tag_paths(paths_of(files, l.0), l.1),
{
    assert(loads.push(l).drop_last() =~= loads);
}

/// Every load by path is loaded as some load by stem asks.
pub proof fn lemma_with_paths_choices(files: FileList, loads: Seq<(Seq<char>, Choice)>)
    ensures
        forall|j: int|
            0 <= j < with_paths(files, loads).len() ==> exists|i: int|
                0 <= i < loads.len() && #[trigger] with_paths(files, loads)[j].1 == #[trigger] loads[i].1,
    decreases loads.len(),
{
    if loads.len() > 0 {
        let prev = loads.drop_last();
        lemma_with_paths_choices(files, prev);
        let w = with_paths(files, loads);
        let wp = with_paths(files, prev);
        let l = loads.last();
        let t = tag_paths(paths_of(files, l.0), l.1);
        assert forall|j: int| 0 <= j < w.len() implies exists|i: int|
            0 <= i < loads.len() && #[trigger] w[j].1 == #[trigger] loads[i].1 by {
            if j < wp.len() {
                assert(w[j] == wp[j]);
                let i = choose|i: int| 0 <= i < prev.len() && #[trigger] wp[j].1 == #[trigger] prev[i].1;
                assert(loads[i] == prev[i]);
            } else {
                assert(w[j] == t[j - wp.len()]);
                assert(loads[loads.len() - 1] == l);
            }
        }
    }
}

/// Appends every path of `paths`, each loaded as `c` asks.
fn push_paths(loads: &mut Vec<(String, Choice)>, paths: &Vec<String>, c: Choice)
    ensures
        loads_view(final(loads)@) == loads_view(old(loads)@) + tag_paths(strings_view(paths@), c),
{
    let ghost start = loads_view(loads@);
    let mut i: usize = 0;
    assert(start + tag_paths(strings_view(paths@), c).take(0) =~= start);
    while i < paths.len()
        invariant
            i <= paths@.len(),
            loads_view(loads@) == start + tag_paths(strings_view(paths@), c).take(i as int),
        decreases paths@.len() - i,
    {
        let ghost before = loads_view(loads@);
        loads.push((paths[i].clone(), c));
        proof {
            let t = tag_paths(strings_view(paths@), c);
            assert(loads_view(loads@) =~= before.push((paths@[i as int]@, c)));
            assert(t.take(i + 1) =~= t.take(i as int).push(t[i as int]));
            assert(start + t.take(i + 1) =~= (start + t.take(i as int)).push(t[i as int]));
        }
        i = i + 1;
    }
    assert(tag_paths(strings_view(paths@), c).take(paths@.len() as int) =~= tag_paths(strings_view(paths@), c));
}

fn default_choice_of(kind: ModKind) -> (c: Choice)
    ensures
        c == default_choice(kind),
{
    match kind {
        ModKind::Cpk => Choice::Mount,
        ModKind::Dll => Choice::Early,
    }
}

/// Decides what is loaded, given the entries of the section of `kind` and the
/// found files: the loads by path in load order, and the stems of the new mods
/// in the order found.
pub fn select(kind: ModKind, entries: &Vec<(String, String)>, files: &ModFiles) -> (r: (
    Vec<(String, Choice)>,
    Vec<String>,
))
    ensures
        loads_view(r.0@) == with_paths(files@, load_order(kind, pairs_view(entries@), files@)),
        strings_view(r.1@) == unlisted_files(pairs_view(entries@), files@).map_values(
            |f: FoundMod| f.0,
        ),
{
    proof {
        use_type_invariant(files);
        files.lemma_stems_distinct();
    }
    let ghost all = pairs_view(entries@);
    let ghost found_files = files@;
    let n = files.len();
    let mut listed: Vec<bool> = Vec::new();
    let mut taken: Vec<bool> = Vec::new();
    let mut k: usize = 0;
    while k < n
        invariant
            k <= n,
            listed@.len() == k,
            taken@.len() == k,
            forall|x: int| 0 <= x < k ==> !(#[trigger] listed@[x]),
            forall|x: int| 0 <= x < k ==> !(#[trigger] taken@[x]),
        decreases n - k,
    {
        listed.push(false);
        taken.push(false);
        k = k + 1;
    }
    proof {
        assert forall|x: int| 0 <= x < n implies !has_key(all.take(0), #[trigger] found_files[x].0) by {}
        assert forall|x: int| 0 <= x < n implies !enables(kind, all.take(0), #[trigger] found_files[x].0) by {}
        assert(configured_loads(kind, all.take(0), found_files) == Seq::<(Seq<char>, Choice)>::empty());
    }
    let mut loads: Vec<(String, Choice)> = Vec::new();
    assert(loads_view(loads@) =~= with_paths(found_files, configured_loads(kind, all.take(0), found_files)));
    let mut i: usize = 0;
    while i < entries.len()
        invariant
            all == pairs_view(entries@),
            found_files == files@,
            stems_distinct(found_files),
            n == found_files.len(),
            i <= entries@.len(),
            listed@.len() == n,
            taken@.len() == n,
            forall|x: int| 0 <= x < n ==> #[trigger] listed@[x] == has_key(all.take(i as int), found_files[x].0),
            forall|x: int| 0 <= x < n ==> #[trigger] taken@[x] == enables(kind, all.take(i as int), found_files[x].0),
            loads_view(loads@) == with_paths(found_files, configured_loads(kind, all.take(i as int), found_files)),
        decreases entries@.len() - i,
    {
        let ghost prefix = all.take(i as int);
        let ghost next = all.take(i + 1);
        let ghost e = all[i as int];
        let ghost before = configured_loads(kind, prefix, found_files);
        proof {
            assert(next =~= prefix.push(e));
            assert(next.drop_last() =~= prefix);
            assert(e == (entries@[i as int].0@, entries@[i as int].1@));
        }
        let found = files.find(&entries[i].0);
        let c = classify(kind, &entries[i].1);
        match found {
            Some(x) => {
                proof {
                    lemma_stem_index(found_files, x as int);
                    assert forall|y: int| 0 <= y < n && y != x implies #[trigger] found_files[y].0 != e.0 by {
                        if y < x {
                            assert(found_files[y].0 != found_files[x as int].0);
                        } else {
                            assert(found_files[x as int].0 != found_files[y].0);
                        }
                    }
                }
                let ghost was_taken = taken@[x as int];
                listed.set(x, true);
                match c {
                    Some(choice) => {
                        if !taken[x] {
                            taken.set(x, true);
                            push_paths(&mut loads, files.paths(x), choice);
                            proof {
                                lemma_with_paths_push(found_files, before, (e.0, choice));
                                assert(configured_loads(kind, next, found_files) == before.push((e.0, choice)));
                                assert(loads_view(loads@) == with_paths(found_files, before.push((e.0, choice))));
                            }
                        } else {
                            assert(configured_loads(kind, next, found_files) == before);
                        }
                    },
                    None => {
                        assert(configured_loads(kind, next, found_files) == before);
                    },
                }
                proof {
                    assert forall|y: int| 0 <= y < n implies #[trigger] listed@[y] == has_key(next, found_files[y].0) by {
                        lemma_has_key_push(prefix, e, found_files[y].0);
                    }
                    assert forall|y: int| 0 <= y < n implies #[trigger] taken@[y] == enables(kind, next, found_files[y].0) by {
                        lemma_enables_push(kind, prefix, e, found_files[y].0);
                    }
                }
            },
            None => {
                proof {
                    assert(configured_loads(kind, next, found_files) == before);
                    assert forall|y: int| 0 <= y < n implies #[trigger] found_files[y].0 != e.0 by {
                        assert(!has_stem(found_files, e.0));
                        if found_files[y].0 == e.0 {
                            assert(has_stem(found_files, e.0));
                        }
                    }
                    assert forall|y: int| 0 <= y < n implies #[trigger] listed@[y] == has_key(next, found_files[y].0) by {
                        lemma_has_key_push(prefix, e, found_files[y].0);
                    }
                    assert forall|y: int| 0 <= y < n implies #[trigger] taken@[y] == enables(kind, next, found_files[y].0) by {
                        lemma_enables_push(kind, prefix, e, found_files[y].0);
                    }
                }
            },
        }
        i = i + 1;
    }
    let ghost configured = configured_loads(kind, all, found_files);
    proof {
        assert(all.take(entries@.len() as int) =~= all);
    }
    let mut new_stems: Vec<String> = Vec::new();
    proof {
        assert(unlisted_files(all, found_files.take(0)) == Seq::<FoundMod>::empty());
        assert(configured + as_new_loads(kind, unlisted_files(all, found_files.take(0))) =~= configured);
        assert(strings_view(new_stems@) =~= unlisted_files(all, found_files.take(0)).map_values(
            |f: FoundMod| f.0,
        ));
    }
    let mut j: usize = 0;
    while j < n
        invariant
            all == pairs_view(entries@),
            found_files == files@,
            stems_distinct(found_files),
            n == found_files.len(),
            j <= n,
            listed@.len() == n,
            configured == configured_loads(kind, all, found_files),
            forall|x: int| 0 <= x < n ==> #[trigger] listed@[x] == has_key(all, found_files[x].0),
            loads_view(loads@) == with_paths(
                found_files,
                configured + as_new_loads(kind, unlisted_files(all, found_files.take(j as int))),
            ),
            strings_view(new_stems@) == unlisted_files(all, found_files.take(j as int)).map_values(
                |f: FoundMod| f.0,
            ),
        decreases n - j,
    {
        let ghost prefix = found_files.take(j as int);
        let ghost next = found_files.take(j + 1);
        let ghost f = found_files[j as int];
        let ghost u = unlisted_files(all, prefix);
        proof {
            assert(next.drop_last() =~= prefix);
            assert(next.last() == f);
            lemma_stem_index(found_files, j as int);
        }
        if !listed[j] {
            let s = files.stem(j).clone();
            let ghost old_stems = strings_view(new_stems@);
            new_stems.push(s);
            let d = default_choice_of(kind);
            push_paths(&mut loads, files.paths(j), d);
            proof {
                assert(strings_view(new_stems@) =~= old_stems.push(s@));
                lemma_with_paths_push(found_files, configured + as_new_loads(kind, u), (f.0, d));
                assert(u.push(f).map_values(|f: FoundMod| f.0) =~= u.map_values(
                    |f: FoundMod| f.0,
                ).push(f.0));

                assert(unlisted_files(all, next) == u.push(f));
                assert(as_new_loads(kind, u.push(f)) =~= as_new_loads(kind, u).push((f.0, d)));
                assert(configured + as_new_loads(kind, u.push(f)) =~= (configured + as_new_loads(kind, u)).push(
                    (f.0, d),
                ));
                assert(loads_view(loads@) == with_paths(
                    found_files,
                    configured + as_new_loads(kind, unlisted_files(all, next)),
                ));
                assert(strings_view(new_stems@) =~= unlisted_files(all, next).map_values(
                    |f: FoundMod| f.0,
                ));
            }
        } else {
            assert(unlisted_files(all, next) == u);
        }
        j = j + 1;
    }
    proof {
        assert(found_files.take(n as int) =~= found_files);
    }
    (loads, new_stems)
}


/// Whether some load in `loads` is for the mod with stem `stem`.
pub open spec fn loads_stem(loads: Seq<(Seq<char>, Choice)>, stem: Seq<char>) -> bool {
    exists|i: int| 0 <= i < loads.len() && #[trigger] loads[i].0 == stem
}

/// No mod is loaded twice.
pub open spec fn loads_distinct(loads: Seq<(Seq<char>, Choice)>) -> bool {
    forall|a: int, b: int| 0 <= a < b < loads.len() ==> #[trigger] loads[a].0 != #[trigger] loads[b].0
}

proof fn lemma_has_key_concat(a: Props, b: Props, key: Seq<char>)
    ensures
        has_key(a + b, key) == (has_key(a, key) || has_key(b, key)),
{
    let c = a + b;
    if has_key(a, key) {
        let j = choose|j: int| 0 <= j < a.len() && #[trigger] a[j].0 == key;
        assert(c[j] == a[j]);
    }
    if has_key(b, key) {
        let j = choose|j: int| 0 <= j < b.len() && #[trigger] b[j].0 == key;
        assert(c[a.len() + j] == b[j]);
    }
    if has_key(c, key) {
        let j = choose|j: int| 0 <= j < c.len() && #[trigger] c[j].0 == key;
        if j < a.len() {
            assert(c[j] == a[j]);
        } else {
            assert(c[j] == b[j - a.len()]);
        }
    }
}

proof fn lemma_enables_has_key(kind: ModKind, entries: Props, key: Seq<char>)
    ensures
        enables(kind, entries, key) ==> has_key(entries, key),
{
    if enables(kind, entries, key) {
        let j = choose|j: int| 0 <= j < entries.len() && #[trigger] entries[j].0 == key && setting(kind, entries[j].1) is Some;
        assert(entries[j].0 == key);
    }
}

/// Where every found mod is named by an entry, no mod is new.
proof fn lemma_unlisted_empty(entries: Props, files: FileList)
    requires
        forall|i: int| 0 <= i < files.len() ==> has_key(entries, #[trigger] files[i].0),
    ensures
        unlisted_files(entries, files) == Seq::<FoundMod>::empty(),
    decreases files.len(),
{
    if files.len() > 0 {
        let prev = files.drop_last();
        assert forall|i: int| 0 <= i < prev.len() implies has_key(entries, #[trigger] prev[i].0) by {
            assert(prev[i] == files[i]);
        }
        lemma_unlisted_empty(entries, prev);
        assert(has_key(entries, files[files.len() - 1].0));
    }
}

/// Entries for the new mods, added after the existing ones, turn those mods
/// on in the order found and change nothing for the others.
proof fn lemma_configured_after_adding(kind: ModKind, entries: Props, files: FileList, m: int)
    requires
        stems_distinct(files),
        0 <= m <= unlisted_files(entries, files).len(),
    ensures
        configured_loads(kind, entries + added_entries(kind, entries, files).take(m), files)
            == configured_loads(kind, entries, files) + as_new_loads(kind, unlisted_files(entries, files).take(m)),
    decreases m,
{
    let u = unlisted_files(entries, files);
    let a = added_entries(kind, entries, files);
    lemma_unlisted_files(entries, files);
    if m == 0 {
        assert(entries + a.take(0) =~= entries);
        assert(as_new_loads(kind, u.take(0)) =~= Seq::<(Seq<char>, Choice)>::empty());
        assert(configured_loads(kind, entries, files) + Seq::<(Seq<char>, Choice)>::empty() =~= configured_loads(
            kind,
            entries,
            files,
        ));
    } else {
        lemma_configured_after_adding(kind, entries, files, m - 1);
        let prev = entries + a.take(m - 1);
        let cur = entries + a.take(m);
        let e = a[m - 1];
        assert(cur =~= prev.push(e));
        assert(cur.drop_last() =~= prev);
        assert(e == (u[m - 1].0, default_value(kind)));
        let s = u[m - 1].0;
        assert(has_stem(files, s));
        lemma_default_setting(kind);
        assert(!enables(kind, prev, s)) by {
            lemma_enables_has_key(kind, prev, s);
            lemma_has_key_concat(entries, a.take(m - 1), s);
            if has_key(a.take(m - 1), s) {
                let j = choose|j: int| 0 <= j < a.take(m - 1).len() && #[trigger] a.take(m - 1)[j].0 == s;
                assert(a[j].0 == u[j].0);
                assert(u[j].0 != u[m - 1].0);
            }
        }
        assert(as_new_loads(kind, u.take(m)) =~= as_new_loads(kind, u.take(m - 1)).push((s, default_choice(kind))));
        assert(configured_loads(kind, cur, files) == configured_loads(kind, prev, files).push(
            (s, default_choice(kind)),
        ));
        assert(configured_loads(kind, entries, files) + as_new_loads(kind, u.take(m)) =~= (configured_loads(
            kind,
            entries,
            files,
        ) + as_new_loads(kind, u.take(m - 1))).push((s, default_choice(kind))));
    }
}

/// A found mod is loaded exactly when an entry for it has a loading value or
/// no entry names it (a new mod is loaded by default); an entry with any
/// other value keeps it out. No mod is loaded twice.
pub proof fn law_loaded_iff(kind: ModKind, entries: Props, files: FileList)
    requires
        stems_distinct(files),
    ensures
        forall|s: Seq<char>|
            loads_stem(load_order(kind, entries, files), s) <==> has_stem(files, s) && (enables(kind, entries, s)
                || !has_key(entries, s)),
        loads_distinct(load_order(kind, entries, files)),
{
    lemma_configured_loads(kind, entries, files);
    lemma_unlisted_files(entries, files);
    let c = configured_loads(kind, entries, files);
    let u = unlisted_files(entries, files);
    let n = as_new_loads(kind, u);
    let lo = load_order(kind, entries, files);
    assert forall|s: Seq<char>| loads_stem(lo, s) <==> has_stem(files, s) && (enables(kind, entries, s) || !has_key(
        entries,
        s,
    )) by {
        lemma_enables_has_key(kind, entries, s);
        if loads_stem(lo, s) {
            let i = choose|i: int| 0 <= i < lo.len() && #[trigger] lo[i].0 == s;
            if i < c.len() {
                assert(lo[i] == c[i]);
                assert(has_stem(files, c[i].0) && enables(kind, entries, c[i].0));
            } else {
                assert(lo[i] == n[i - c.len()]);
                assert(n[i - c.len()].0 == u[i - c.len()].0);
                assert(has_stem(files, u[i - c.len()].0) && !has_key(entries, u[i - c.len()].0));
            }
            assert(has_stem(files, s) && (enables(kind, entries, s) || !has_key(entries, s)));
        }
        if has_stem(files, s) && enables(kind, entries, s) {
            let i = choose|i: int| 0 <= i < c.len() && #[trigger] c[i].0 == s;
            assert(lo[i] == c[i]);
            assert(lo[i].0 == s);
            assert(loads_stem(lo, s));
        }
        if has_stem(files, s) && !has_key(entries, s) {
            let k = choose|k: int| 0 <= k < files.len() && #[trigger] files[k].0 == s;
            assert(!has_key(entries, files[k].0));
            assert(has_stem(u, files[k].0));
            let w = choose|w: int| 0 <= w < u.len() && #[trigger] u[w].0 == files[k].0;
            assert(lo[c.len() + w] == n[w]);
            assert(lo[c.len() + w].0 == s);
            assert(loads_stem(lo, s));
        }
    }
    assert forall|a: int, b: int| 0 <= a < b < lo.len() implies #[trigger] lo[a].0 != #[trigger] lo[b].0 by {
        if b < c.len() {
            assert(lo[a] == c[a] && lo[b] == c[b]);
        } else if a < c.len() {
            assert(lo[a] == c[a]);
            assert(lo[b] == n[b - c.len()]);
            assert(n[b - c.len()].0 == u[b - c.len()].0);
            lemma_enables_has_key(kind, entries, c[a].0);
        } else {
            assert(lo[a] == n[a - c.len()] && lo[b] == n[b - c.len()]);
            assert(n[a - c.len()].0 == u[a - c.len()].0);
            assert(n[b - c.len()].0 == u[b - c.len()].0);
        }
    }
}

/// A loaded mod that an entry names is loaded as its first entry with a
/// loading value asks; a new mod is loaded the default way.
pub proof fn law_load_choice(kind: ModKind, entries: Props, files: FileList)
    ensures
        forall|i: int|
            0 <= i < load_order(kind, entries, files).len() ==> {
                let l = #[trigger] load_order(kind, entries, files)[i];
                &&& has_key(entries, l.0) ==> exists|j: int|
                    0 <= j < entries.len() && #[trigger] entries[j].0 == l.0 && setting(kind, entries[j].1) == Some(l.1)
                &&& !has_key(entries, l.0) ==> l.1 == default_choice(kind)
            },
{
    lemma_configured_loads(kind, entries, files);
    lemma_unlisted_files(entries, files);
    let c = configured_loads(kind, entries, files);
    let u = unlisted_files(entries, files);
    let n = as_new_loads(kind, u);
    let lo = load_order(kind, entries, files);
    assert forall|i: int| 0 <= i < lo.len() implies {
        let l = #[trigger] lo[i];
        &&& has_key(entries, l.0) ==> exists|j: int|
            0 <= j < entries.len() && #[trigger] entries[j].0 == l.0 && setting(kind, entries[j].1) == Some(l.1)
        &&& !has_key(entries, l.0) ==> l.1 == default_choice(kind)
    } by {
        if i < c.len() {
            assert(lo[i] == c[i]);
            lemma_enables_has_key(kind, entries, c[i].0);
        } else {
            assert(lo[i] == n[i - c.len()]);
            assert(n[i - c.len()].0 == u[i - c.len()].0);
        }
    }
}

/// After the new mods got their entries, every found mod is named by an entry,
/// and the entries that were there stay, in order, in front.
pub proof fn law_all_found_listed(kind: ModKind, entries: Props, files: FileList)
    ensures
        forall|i: int|
            0 <= i < files.len() ==> has_key(entries + added_entries(kind, entries, files), #[trigger] files[i].0),
        (entries + added_entries(kind, entries, files)).take(entries.len() as int) == entries,
{
    lemma_unlisted_files(entries, files);
    let u = unlisted_files(entries, files);
    let a = added_entries(kind, entries, files);
    assert forall|i: int| 0 <= i < files.len() implies has_key(entries + a, #[trigger] files[i].0) by {
        lemma_has_key_concat(entries, a, files[i].0);
        if !has_key(entries, files[i].0) {
            let w = choose|w: int| 0 <= w < u.len() && #[trigger] u[w].0 == files[i].0;
            assert(a[w].0 == u[w].0);
        }
    }
    assert((entries + a).take(entries.len() as int) =~= entries);
}

/// Running the selection again on the entries it left, with the same files,
/// loads the same mods in the same order, the same way, and adds nothing.
pub proof fn law_selection_is_stable(kind: ModKind, entries: Props, files: FileList)
    requires
        stems_distinct(files),
    ensures
        load_order(kind, entries + added_entries(kind, entries, files), files) == load_order(kind, entries, files),
        added_entries(kind, entries + added_entries(kind, entries, files), files) == Seq::<
            (Seq<char>, Seq<char>),
        >::empty(),
{
    let u = unlisted_files(entries, files);
    let a = added_entries(kind, entries, files);
    lemma_unlisted_files(entries, files);
    lemma_configured_after_adding(kind, entries, files, u.len() as int);
    assert(a.take(u.len() as int) =~= a);
    assert(u.take(u.len() as int) =~= u);
    law_all_found_listed(kind, entries, files);
    lemma_unlisted_empty(entries + a, files);
    assert(as_new_loads(kind, unlisted_files(entries + a, files)) =~= Seq::<(Seq<char>, Choice)>::empty());
    assert(load_order(kind, entries + a, files) =~= configured_loads(kind, entries + a, files));
    assert(added_entries(kind, entries + a, files) =~= Seq::<(Seq<char>, Seq<char>)>::empty());
}

/// Whether `loads` holds the path `p` loaded as `c` asks.
pub open spec fn loads_path(loads: Seq<(Seq<char>, Choice)>, p: Seq<char>, c: Choice) -> bool {
    exists|j: int| 0 <= j < loads.len() && loads[j] == (p, c)
}

/// Whether `x` is some path of some mod in `loads`, loaded as that mod is.
pub open spec fn path_of_some_load(files: FileList, loads: Seq<(Seq<char>, Choice)>, x: (Seq<char>, Choice)) -> bool {
    exists|i: int, k: int|
        0 <= i < loads.len() && 0 <= k < paths_of(files, loads[i].0).len() && x == (
            #[trigger] paths_of(files, loads[i].0)[k],
            loads[i].1,
        )
}

/// Files that share a stem are one mod: every file of a loaded mod is loaded,
/// the way that mod is, and every file loaded belongs to a loaded mod.
pub proof fn law_all_paths_loaded(files: FileList, loads: Seq<(Seq<char>, Choice)>)
    ensures
        forall|i: int, k: int|
            0 <= i < loads.len() && 0 <= k < paths_of(files, loads[i].0).len() ==> loads_path(
                with_paths(files, loads),
                #[trigger] paths_of(files, loads[i].0)[k],
                loads[i].1,
            ),
        forall|j: int|
            0 <= j < with_paths(files, loads).len() ==> path_of_some_load(files, loads, #[trigger] with_paths(files, loads)[j]),
    decreases loads.len(),
{
    if loads.len() > 0 {
        let prev = loads.drop_last();
        let l = loads.last();
        let n = loads.len() - 1;
        assert(prev.push(l) =~= loads);
        lemma_with_paths_push(files, prev, l);
        law_all_paths_loaded(files, prev);
        let w = with_paths(files, loads);
        let wp = with_paths(files, prev);
        let t = tag_paths(paths_of(files, l.0), l.1);
        assert(w == wp + t);
        assert(loads[n] == l);
        assert forall|i: int, k: int| 0 <= i < loads.len() && 0 <= k < paths_of(files, loads[i].0).len() implies loads_path(
            w,
            #[trigger] paths_of(files, loads[i].0)[k],
            loads[i].1,
        ) by {
            if i < n {
                assert(loads[i] == prev[i]);
                assert(loads_path(wp, paths_of(files, prev[i].0)[k], prev[i].1));
                let j = choose|j: int| 0 <= j < wp.len() && wp[j] == (paths_of(files, prev[i].0)[k], prev[i].1);
                assert(w[j] == wp[j]);
            } else {
                assert(w[wp.len() + k] == t[k]);
            }
        }
        assert forall|j: int| 0 <= j < w.len() implies path_of_some_load(files, loads, #[trigger] w[j]) by {
            if j < wp.len() {
                assert(w[j] == wp[j]);
                assert(path_of_some_load(files, prev, wp[j]));
                let (i, k) = choose|i: int, k: int|
                    0 <= i < prev.len() && 0 <= k < paths_of(files, prev[i].0).len() && wp[j] == (
                        #[trigger] paths_of(files, prev[i].0)[k],
                        prev[i].1,
                    );
                assert(loads[i] == prev[i]);
                assert(w[j] == (paths_of(files, loads[i].0)[k], loads[i].1));
            } else {
                let k = j - wp.len();
                assert(w[j] == t[k]);
                assert(w[j] == (paths_of(files, loads[n].0)[k], loads[n].1));
            }
        }
    }
}

/// The values the README documents: in `[CPK]` only `TRUE` mounts an
/// archive; in `[DLL]`, `EARLY` and `TRUE` inject at launch and `LATE` after
/// the DLC archives; every other value keeps the mod out. New mods are
/// written as `TRUE` and `EARLY`.
pub proof fn law_setting_values(value: Seq<char>)
    ensures
        setting(ModKind::Cpk, value) is Some <==> value == seq!['T', 'R', 'U', 'E'],
        setting(ModKind::Cpk, value) is Some ==> setting(ModKind::Cpk, value) == Some(Choice::Mount),
        setting(ModKind::Dll, value) == Some(Choice::Early) <==> (value == seq!['E', 'A', 'R', 'L', 'Y'] || value
            == seq!['T', 'R', 'U', 'E']),
        setting(ModKind::Dll, value) == Some(Choice::Late) <==> value == seq!['L', 'A', 'T', 'E'],
        setting(ModKind::Dll, value) != Some(Choice::Mount),
        default_value(ModKind::Cpk) == seq!['T', 'R', 'U', 'E'],
        default_value(ModKind::Dll) == seq!['E', 'A', 'R', 'L', 'Y'],
        default_choice(ModKind::Dll) == Choice::Early,
{
    assert(early_value() != late_value()) by {
        assert(early_value()[0] != late_value()[0]);
    }
    assert(true_value() != late_value()) by {
        assert(true_value()[0] != late_value()[0]);
    }
}
} // verus!
