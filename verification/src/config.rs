//! The loader's `config.ini`: a `[DLL]` and a `[CPK]` section of
//! `STEM=VALUE` entries, and the path it is saved to.
use vstd::prelude::*;
use ini::Ini;
use crate::ini_model::{
    Props, Sections, ini_sections, parsed_ini, ini_text, section_index, section_props,
    has_key, set_property, with_property, pairs_view, lemma_section_index,
    lemma_section_index_update, new_ini, ensure_section, section_entries, set_to,
    load_from_str, render,
};
use crate::mod_files::{FileList, FoundMod, ModFiles, stems_distinct, strings_view, paths_of};
use crate::selection::{
    ModKind, Choice, section_name, default_value, dll_section, cpk_section, load_order,
    with_paths, added_entries, unlisted_files, loads_view, select, lemma_with_paths_choices,
    lemma_unlisted_files, lemma_configured_loads, setting, law_all_paths_loaded, loads_path,
    path_of_some_load,
};

verus! {

/// A DLL plugin to inject, by path: at launch, or once the game has
/// mounted its DLC archives.
#[derive(Debug, PartialEq, Eq)]
pub enum Plugin {
    Early(String),
    Late(String),
}

/// The plain value of a plugin: its path and when it is injected.
pub open spec fn plugin_view(p: Plugin) -> (Seq<char>, Choice) {
    match p {
        Plugin::Early(path) => (path@, Choice::Early),
        Plugin::Late(path) => (path@, Choice::Late),
    }
}

pub open spec fn plugins_view(ps: Seq<Plugin>) -> Seq<(Seq<char>, Choice)> {
    ps.map_values(|p: Plugin| plugin_view(p))
}

/// Why a saved configuration could not be taken up.
#[derive(Clone, Copy, Debug, PartialEq, Eq, Structural)]
pub enum ConfigError {
    /// The text is not a well-formed ini document.
    Malformed,
}

/// A configuration as plain values.
pub struct ConfigView {
    pub sections: Sections,
    pub path: Seq<char>,
}

/// The loader's configuration: an ini document and where it is saved.
pub struct Config {
    ini: Ini,
    path: String,
}

impl View for Config {
    type V = ConfigView;

    closed spec fn view(&self) -> ConfigView {
        ConfigView { sections: ini_sections(self.ini), path: self.path@ }
    }
}

/// The sections of a fresh configuration: the general section, then empty
/// `[DLL]` and `[CPK]` sections.
pub open spec fn fresh_sections() -> Sections {
    seq![
        (None::<Seq<char>>, Seq::<(Seq<char>, Seq<char>)>::empty()),
        (Some(dll_section()), Seq::<(Seq<char>, Seq<char>)>::empty()),
        (Some(cpk_section()), Seq::<(Seq<char>, Seq<char>)>::empty()),
    ]
}

/// A text without a leading byte order mark.
pub open spec fn without_bom(text: Seq<char>) -> Seq<char> {
    if text.len() > 0 && text[0] == '\u{feff}' {
        text.drop_first()
    } else {
        text
    }
}

/// The properties of the section of `kind` (meaningful where there is one).
pub open spec fn kind_props(secs: Sections, kind: ModKind) -> Props {
    section_props(secs, section_name(kind)).unwrap()
}

/// The sections after the new mods of `kind` among `files` got their entries:
/// they come after the existing entries of the first section of that kind.
pub open spec fn with_new_mods(secs: Sections, kind: ModKind, files: FileList) -> Sections {
    let k = section_index(secs, Some(section_name(kind)));
    let props = secs[k].1;
    secs.update(k, (Some(section_name(kind)), props + added_entries(kind, props, files)))
}

/// The paths of the CPK archives to mount, in mount order.
pub open spec fn cpk_paths(props: Props, files: FileList) -> Seq<Seq<char>> {
    with_paths(files, load_order(ModKind::Cpk, props, files)).map_values(|l: (Seq<char>, Choice)| l.0)
}

/// `text` without a leading byte order mark.
fn without_bom_str(text: &str) -> (body: &str)
    ensures
        body@ == without_bom(text@),
{
    let len = text.unicode_len();
    if len > 0 && text.get_char(0) == '\u{feff}' {
        let rest = text.substring_char(1, len);
        assert(rest@ =~= without_bom(text@));
        rest
    } else {
        text
    }
}

fn section_str(kind: ModKind) -> (s: &'static str)
    ensures
        s@ == section_name(kind),
{
    proof {
        reveal_strlit("CPK");
        reveal_strlit("DLL");
        assert("CPK"@ =~= cpk_section());
        assert("DLL"@ =~= dll_section());
    }
    match kind {
        ModKind::Cpk => "CPK",
        ModKind::Dll => "DLL",
    }
}

fn default_str(kind: ModKind) -> (s: &'static str)
    ensures
        s@ == default_value(kind),
{
    proof {
        reveal_strlit("TRUE");
        reveal_strlit("EARLY");
        assert("TRUE"@ =~= crate::selection::true_value());
        assert("EARLY"@ =~= crate::selection::early_value());
    }
    match kind {
        ModKind::Cpk => "TRUE",
        ModKind::Dll => "EARLY",
    }
}

impl Config {
    /// A fresh configuration to be saved at `path`, with an empty `[DLL]`
    /// and an empty `[CPK]` section. The caller saves it.
    pub fn new(path: String) -> (config: Config)
        ensures
            config@.sections == fresh_sections(),
            config@.path == path@,
    {
        let mut ini = new_ini();
        let dll = section_str(ModKind::Dll);
        let cpk = section_str(ModKind::Cpk);
        ensure_section(&mut ini, dll);
        proof {
            assert(section_index(Seq::empty(), Some(dll_section())) == -1);
            let s0 = seq![(None::<Seq<char>>, Seq::<(Seq<char>, Seq<char>)>::empty())];
            assert(s0.drop_last() =~= Seq::<(Option<Seq<char>>, Props)>::empty());
            assert(section_index(s0, Some(dll_section())) == -1);
            assert(ini_sections(ini) =~= s0.push((Some(dll_section()), Seq::<(Seq<char>, Seq<char>)>::empty())));
        }
        let ghost mid = ini_sections(ini);
        ensure_section(&mut ini, cpk);
        proof {
            let s1 = seq![
                (None::<Seq<char>>, Seq::<(Seq<char>, Seq<char>)>::empty()),
                (Some(dll_section()), Seq::<(Seq<char>, Seq<char>)>::empty()),
            ];
            let s0 = seq![(None::<Seq<char>>, Seq::<(Seq<char>, Seq<char>)>::empty())];
            assert(s0.drop_last() =~= Seq::<(Option<Seq<char>>, Props)>::empty());
            assert(s1.drop_last() =~= s0);
            assert(dll_section() != cpk_section()) by {
                assert(dll_section()[0] != cpk_section()[0]);
            }
            assert(section_index(Seq::empty(), Some(cpk_section())) == -1);
            assert(section_index(s0, Some(cpk_section())) == -1);
            assert(mid =~= s1);
            assert(section_index(s1, Some(cpk_section())) == -1);
            assert(ini_sections(ini) =~= fresh_sections());
        }
        Config { ini, path }
    }

    /// The configuration saved at `path` whose file holds `text`, which is a
    /// well-formed ini document once a leading byte order mark is skipped
    /// (as `Ini::load_from_file` skips it).
    pub fn from_well_formed(path: String, text: String) -> (config: Config)
        requires
            parsed_ini(without_bom(text@)) is Some,
        ensures
            parsed_ini(without_bom(text@)) == Some(config@.sections),
            config@.path == path@,
    {
        match load_from_str(without_bom_str(text.as_str())) {
            Ok(ini) => Config { ini, path },
            Err(_) => {
                assert(false);
                Config { ini: new_ini(), path }
            },
        }
    }

    /// The configuration saved at `path` whose file holds `text`, where that
    /// text is a well-formed ini document once a leading byte order mark is
    /// skipped; otherwise `Malformed`.
    pub fn from(path: String, text: String) -> (res: Result<Config, ConfigError>)
        ensures
            match res {
                Ok(config) => parsed_ini(without_bom(text@)) == Some(config@.sections) && config@.path
                    == path@,
                Err(e) => e == ConfigError::Malformed && parsed_ini(without_bom(text@)) is None,
            },
    {
        let well_formed = load_from_str(without_bom_str(text.as_str())).is_ok();
        if well_formed {
            Ok(Config::from_well_formed(path, text))
        } else {
            Err(ConfigError::Malformed)
        }
    }

    /// Whether the configuration has a section for mods of `kind`, which
    /// loading mods of that kind needs.
    pub fn has_section(&self, kind: ModKind) -> (b: bool)
        ensures
            b == section_props(self@.sections, section_name(kind)) is Some,
    {
        section_entries(&self.ini, section_str(kind)).is_some()
    }

    /// Where the configuration is saved.
    pub fn path(&self) -> (p: &String)
        ensures
            p@ == self@.path,
    {
        &self.path
    }

    /// The bytes that saving writes to `self.path`: the ini document with
    /// `\r\n` line ends. The caller writes them.
    pub fn save(&self) -> (bytes: Vec<u8>)
        ensures
            bytes@ == vstd::utf8::encode_utf8(ini_text(self@.sections)),
    {
        render(&self.ini)
    }

    /// Decides what of `files` is loaded and adds entries for the new mods.
    fn apply(&mut self, kind: ModKind, files: &ModFiles) -> (loads: Vec<(String, Choice)>)
        requires
            files@.len() > 0 ==> section_props(old(self)@.sections, section_name(kind)) is Some,
        ensures
            final(self)@.path == old(self)@.path,
            files@.len() == 0 ==> loads@.len() == 0 && final(self)@.sections == old(self)@.sections,
            files@.len() > 0 ==> {
                let props = kind_props(old(self)@.sections, kind);
                &&& loads_view(loads@) == with_paths(files@, load_order(kind, props, files@))
                &&& final(self)@.sections == with_new_mods(old(self)@.sections, kind, files@)
            },
    {
        if files.is_empty() {
            return Vec::new();
        }
        proof {
            use_type_invariant(files);
            files.lemma_stems_distinct();
        }
        let name = section_str(kind);
        let value = default_str(kind);
        let ghost old_secs = ini_sections(self.ini);
        let ghost k = section_index(old_secs, Some(section_name(kind)));
        let entries = section_entries(&self.ini, name).unwrap();
        let ghost props = pairs_view(entries@);
        let ghost added = added_entries(kind, props, files@);
        let ghost unlisted = unlisted_files(props, files@);
        let (loads, new_stems) = select(kind, &entries, files);
        proof {
            lemma_section_index(old_secs, Some(section_name(kind)));
            lemma_unlisted_files(props, files@);
            assert(old_secs.update(k, (Some(section_name(kind)), props + added.take(0))) =~= old_secs);
            assert(strings_view(new_stems@).len() == new_stems@.len());
            assert(new_stems@.len() == unlisted.len());
        }
        let mut i: usize = 0;
        while i < new_stems.len()
            invariant
                0 <= k < old_secs.len(),
                old_secs[k].0 == Some(section_name(kind)),
                old_secs[k].1 == props,
                section_index(old_secs, Some(section_name(kind))) == k,
                name@ == section_name(kind),
                value@ == default_value(kind),
                added == added_entries(kind, props, files@),
                unlisted == unlisted_files(props, files@),
                strings_view(new_stems@) == unlisted.map_values(|f: FoundMod| f.0),
                stems_distinct(unlisted),
                forall|j: int| 0 <= j < unlisted.len() ==> !has_key(props, #[trigger] unlisted[j].0),
                i <= new_stems@.len(),
                new_stems@.len() == unlisted.len(),
                added.len() == unlisted.len(),
                ini_sections(self.ini) == old_secs.update(k, (Some(section_name(kind)), props + added.take(i as int))),
                self.path@ == old(self)@.path,
            decreases new_stems@.len() - i,
        {
            let ghost cur = ini_sections(self.ini);
            let ghost cur_props = props + added.take(i as int);
            let ghost stem = new_stems@[i as int]@;
            proof {
                lemma_section_index_update(old_secs, k, cur_props, Some(section_name(kind)));
                assert(strings_view(new_stems@)[i as int] == stem);
                assert(stem == unlisted[i as int].0);
                assert(added[i as int] == (stem, default_value(kind)));
                assert(!has_key(cur_props, stem)) by {
                    if has_key(cur_props, stem) {
                        let j = choose|j: int| 0 <= j < cur_props.len() && #[trigger] cur_props[j].0 == stem;
                        if j < props.len() {
                            assert(cur_props[j] == props[j]);
                        } else {
                            let m = j - props.len();
                            assert(cur_props[j] == added[m]);
                            assert(unlisted[m].0 != unlisted[i as int].0);
                        }
                    }
                }
                assert(cur_props.push((stem, default_value(kind))) =~= props + added.take(i + 1));
            }
            set_to(&mut self.ini, name, new_stems[i].as_str(), value);
            proof {
                assert(ini_sections(self.ini) == set_property(cur, section_name(kind), stem, default_value(kind)));
                assert(with_property(cur_props, stem, default_value(kind)) == cur_props.push((stem, default_value(kind))));
                assert(ini_sections(self.ini) =~= old_secs.update(
                    k,
                    (Some(section_name(kind)), props + added.take(i + 1)),
                ));
            }
            i = i + 1;
        }
        proof {
            assert(added.take(new_stems@.len() as int) =~= added);
        }
        loads
    }

    /// The CPK archives to mount, by path, in mount order: those that an
    /// entry of `[CPK]` sets to `TRUE` (at the first such entry), then the
    /// new ones, which get a `STEM=TRUE` entry. A mod whose entries hold
    /// only other values stays unmounted and its entries stay as they are.
    /// A mod brings every archive found with its stem, in the order found.
    pub fn parse_cpks(&mut self, cpks: ModFiles) -> (paths: Vec<String>)
        requires
            cpks@.len() > 0 ==> section_props(old(self)@.sections, cpk_section()) is Some,
        ensures
            final(self)@.path == old(self)@.path,
            cpks@.len() == 0 ==> paths@.len() == 0 && final(self)@.sections == old(self)@.sections,
            cpks@.len() > 0 ==> {
                &&& strings_view(paths@) == cpk_paths(kind_props(old(self)@.sections, ModKind::Cpk), cpks@)
                &&& final(self)@.sections == with_new_mods(old(self)@.sections, ModKind::Cpk, cpks@)
            },
    {
        let loads = self.apply(ModKind::Cpk, &cpks);
        let mut paths: Vec<String> = Vec::new();
        let mut i: usize = 0;
        while i < loads.len()
            invariant
                i <= loads@.len(),
                strings_view(paths@) == loads_view(loads@).take(i as int).map_values(
                    |l: (Seq<char>, Choice)| l.0,
                ),
            decreases loads@.len() - i,
        {
            let ghost before = strings_view(paths@);
            paths.push(loads[i].0.clone());
            proof {
                assert(strings_view(paths@) =~= before.push(loads@[i as int].0@));
                assert(loads_view(loads@).take(i + 1).map_values(|l: (Seq<char>, Choice)| l.0) =~= loads_view(
                    loads@,
                ).take(i as int).map_values(|l: (Seq<char>, Choice)| l.0).push(loads@[i as int].0@));
            }
            i = i + 1;
        }
        proof {
            assert(loads_view(loads@).take(loads@.len() as int) =~= loads_view(loads@));
        }
        paths
    }

    /// The DLL plugins to inject, in injection order: those that an entry of
    /// `[DLL]` sets to `EARLY`, `TRUE` (both injected early) or `LATE`, at
    /// the first such entry, then the new ones, injected early, which get a
    /// `STEM=EARLY` entry. A plugin whose entries hold only other values
    /// stays out and its entries stay as they are. A plugin brings every
    /// DLL found with its stem, in the order found.
    pub fn parse_dlls(&mut self, dlls: ModFiles) -> (plugins: Vec<Plugin>)
        requires
            dlls@.len() > 0 ==> section_props(old(self)@.sections, dll_section()) is Some,
        ensures
            final(self)@.path == old(self)@.path,
            dlls@.len() == 0 ==> plugins@.len() == 0 && final(self)@.sections == old(self)@.sections,
            dlls@.len() > 0 ==> {
                &&& plugins_view(plugins@) == with_paths(
                    dlls@,
                    load_order(ModKind::Dll, kind_props(old(self)@.sections, ModKind::Dll), dlls@),
                )
                &&& final(self)@.sections == with_new_mods(old(self)@.sections, ModKind::Dll, dlls@)
            },
    {
        let ghost props = kind_props(self@.sections, ModKind::Dll);
        let loads = self.apply(ModKind::Dll, &dlls);
        proof {
            if dlls@.len() > 0 {
                lemma_dll_loads_have_no_mount(props, dlls@);
            }
            assert forall|j: int| 0 <= j < loads@.len() implies #[trigger] loads@[j].1 != Choice::Mount by {
                assert(loads_view(loads@)[j].1 == loads@[j].1);
            }
        }
        let mut plugins: Vec<Plugin> = Vec::new();
        let mut i: usize = 0;
        while i < loads.len()
            invariant
                i <= loads@.len(),
                forall|j: int| 0 <= j < loads@.len() ==> #[trigger] loads@[j].1 != Choice::Mount,
                plugins_view(plugins@) == loads_view(loads@).take(i as int),
            decreases loads@.len() - i,
        {
            let ghost before = plugins_view(plugins@);
            let path = loads[i].0.clone();
            let plugin = match loads[i].1 {
                Choice::Late => Plugin::Late(path),
                _ => Plugin::Early(path),
            };
            plugins.push(plugin);
            proof {
                assert(plugins_view(plugins@) =~= before.push(plugin_view(plugin)));
                assert(loads_view(loads@).take(i + 1) =~= loads_view(loads@).take(i as int).push(
                    (loads@[i as int].0@, loads@[i as int].1),
                ));
            }
            i = i + 1;
        }
        proof {
            assert(loads_view(loads@).take(loads@.len() as int) =~= loads_view(loads@));
        }
        plugins
    }
}


/// A run keeps every section where it was and leaves every other section as
/// it was; the section of `kind` holds its old entries followed by the
/// entries for the new mods.
pub proof fn law_run_extends_section(secs: Sections, kind: ModKind, files: FileList, other: Seq<char>)
    requires
        section_props(secs, section_name(kind)) is Some,
    ensures
        section_index(with_new_mods(secs, kind, files), Some(other)) == section_index(secs, Some(other)),
        kind_props(with_new_mods(secs, kind, files), kind) == kind_props(secs, kind) + added_entries(
            kind,
            kind_props(secs, kind),
            files,
        ),
        other != section_name(kind) ==> section_props(with_new_mods(secs, kind, files), other) == section_props(
            secs,
            other,
        ),
{
    let k = section_index(secs, Some(section_name(kind)));
    lemma_section_index(secs, Some(section_name(kind)));
    let props = secs[k].1;
    let p2 = props + added_entries(kind, props, files);
    assert(with_new_mods(secs, kind, files) == secs.update(k, (secs[k].0, p2)));
    lemma_section_index_update(secs, k, p2, Some(other));
    lemma_section_index_update(secs, k, p2, Some(section_name(kind)));
    lemma_section_index(secs, Some(other));
}

/// Loading again with the same files from the configuration that a run left
/// loads the same mods in the same order, the same way, and changes nothing
/// more.
pub proof fn law_parse_is_stable(secs: Sections, kind: ModKind, files: FileList)
    requires
        stems_distinct(files),
        section_props(secs, section_name(kind)) is Some,
    ensures
        section_props(with_new_mods(secs, kind, files), section_name(kind)) is Some,
        load_order(kind, kind_props(with_new_mods(secs, kind, files), kind), files) == load_order(
            kind,
            kind_props(secs, kind),
            files,
        ),
        with_new_mods(with_new_mods(secs, kind, files), kind, files) == with_new_mods(secs, kind, files),
{
    let name = section_name(kind);
    let k = section_index(secs, Some(name));
    lemma_section_index(secs, Some(name));
    let props = secs[k].1;
    let added = added_entries(kind, props, files);
    let secs2 = with_new_mods(secs, kind, files);
    law_run_extends_section(secs, kind, files, name);
    crate::selection::law_selection_is_stable(kind, props, files);
    assert(secs2[k].1 == props + added);
    assert((props + added) + added_entries(kind, props + added, files) =~= props + added);
    assert(with_new_mods(secs2, kind, files) =~= secs2);
}

/// A fresh configuration has both sections, empty: every found mod is new.
pub proof fn law_fresh_config_has_sections()
    ensures
        section_props(fresh_sections(), cpk_section()) == Some(Seq::<(Seq<char>, Seq<char>)>::empty()),
        section_props(fresh_sections(), dll_section()) == Some(Seq::<(Seq<char>, Seq<char>)>::empty()),
{
    let f = fresh_sections();
    assert(dll_section() != cpk_section()) by {
        assert(dll_section()[0] != cpk_section()[0]);
    }
    let s0 = f.drop_last().drop_last();
    assert(s0.drop_last() =~= Seq::<(Option<Seq<char>>, Props)>::empty());
    assert(section_index(Seq::empty(), Some(cpk_section())) == -1);
    assert(section_index(Seq::empty(), Some(dll_section())) == -1);
    assert(section_index(s0, Some(cpk_section())) == -1);
    assert(section_index(s0, Some(dll_section())) == -1);
    assert(section_index(f.drop_last(), Some(dll_section())) == 1);
    assert(section_index(f.drop_last(), Some(cpk_section())) == -1);
    assert(section_index(f, Some(cpk_section())) == 2);
    assert(section_index(f, Some(dll_section())) == 1);
}


/// Whether `x` is a path of some mod in `loads`.
pub open spec fn archive_of_some(files: FileList, loads: Seq<(Seq<char>, Choice)>, x: Seq<char>) -> bool {
    exists|i: int, k: int|
        0 <= i < loads.len() && 0 <= k < paths_of(files, loads[i].0).len() && x == #[trigger] paths_of(
            files,
            loads[i].0,
        )[k]
}

/// Every archive of every CPK mod that is mounted (turned on by a `TRUE`
/// entry, or new) is in the mount list, whatever its path; every path in the
/// mount list is an archive of such a mod; and the list holds one path per
/// archive of those mods.
pub proof fn law_cpk_paths_complete(props: Props, files: FileList)
    ensures
        forall|i: int, k: int|
            0 <= i < load_order(ModKind::Cpk, props, files).len() && 0 <= k < paths_of(
                files,
                load_order(ModKind::Cpk, props, files)[i].0,
            ).len() ==> cpk_paths(props, files).contains(
                #[trigger] paths_of(files, load_order(ModKind::Cpk, props, files)[i].0)[k],
            ),
        forall|j: int|
            0 <= j < cpk_paths(props, files).len() ==> archive_of_some(
                files,
                load_order(ModKind::Cpk, props, files),
                #[trigger] cpk_paths(props, files)[j],
            ),
        cpk_paths(props, files).len() == with_paths(files, load_order(ModKind::Cpk, props, files)).len(),
{
    let lo = load_order(ModKind::Cpk, props, files);
    let w = with_paths(files, lo);
    let cp = cpk_paths(props, files);
    law_all_paths_loaded(files, lo);
    assert(cp.len() == w.len());
    assert forall|i: int, k: int| 0 <= i < lo.len() && 0 <= k < paths_of(files, lo[i].0).len() implies cp.contains(
        #[trigger] paths_of(files, lo[i].0)[k],
    ) by {
        assert(loads_path(w, paths_of(files, lo[i].0)[k], lo[i].1));
        let j = choose|j: int| 0 <= j < w.len() && w[j] == (paths_of(files, lo[i].0)[k], lo[i].1);
        assert(cp[j] == w[j].0);
    }
    assert forall|j: int| 0 <= j < cp.len() implies archive_of_some(files, lo, #[trigger] cp[j]) by {
        assert(cp[j] == w[j].0);
        assert(path_of_some_load(files, lo, w[j]));
        let (i, k) = choose|i: int, k: int|
            0 <= i < lo.len() && 0 <= k < paths_of(files, lo[i].0).len() && w[j] == (
                #[trigger] paths_of(files, lo[i].0)[k],
                lo[i].1,
            );
        assert(cp[j] == paths_of(files, lo[i].0)[k]);
    }
}

/// A leading byte order mark is skipped, and only that: a text without one
/// is parsed as it is.
pub proof fn law_bom_is_skipped(text: Seq<char>)
    ensures
        without_bom(seq!['\u{feff}'] + text) == text,
        (text.len() == 0 || text[0] != '\u{feff}') ==> without_bom(text) == text,
{
    assert((seq!['\u{feff}'] + text).drop_first() =~= text);
}

/// No DLL is ever chosen to be mounted.
proof fn lemma_dll_loads_have_no_mount(props: Props, files: FileList)
    ensures
        forall|j: int|
            0 <= j < with_paths(files, load_order(ModKind::Dll, props, files)).len() ==> #[trigger] with_paths(
                files,
                load_order(ModKind::Dll, props, files),
            )[j].1 != Choice::Mount,
{
    lemma_configured_loads(ModKind::Dll, props, files);
    let c = crate::selection::configured_loads(ModKind::Dll, props, files);
    let lo = load_order(ModKind::Dll, props, files);
    assert forall|j: int| 0 <= j < lo.len() implies #[trigger] lo[j].1 != Choice::Mount by {
        if j < c.len() {
            let l = c[j];
            assert(lo[j] == l);
            let m = choose|m: int| 0 <= m < props.len() && #[trigger] props[m].0 == l.0 && setting(ModKind::Dll, props[m].1) == Some(l.1);
        }
    }
    lemma_with_paths_choices(files, lo);
    let wp = with_paths(files, lo);
    assert forall|j: int| 0 <= j < wp.len() implies #[trigger] wp[j].1 != Choice::Mount by {
        let i = choose|i: int| 0 <= i < lo.len() && #[trigger] wp[j].1 == #[trigger] lo[i].1;
        assert(lo[i].1 != Choice::Mount);
    }
}

} // verus!
