use nier_mod_loader::config::{Config, ConfigError, Plugin};
use nier_mod_loader::mod_files::ModFiles;
use nier_mod_loader::selection::{classify, select, Choice, ModKind};
use nier_mod_loader::startup::{installed_as_d3d11, plan_startup};
use nier_mod_loader::win_path::{in_data_dir, path_file_stem};

fn files(pairs: &[(&str, &str)]) -> ModFiles {
    let mut f = ModFiles::new();
    for (stem, path) in pairs {
        f.insert(stem.to_string(), path.to_string());
    }
    f
}

fn load(text: &str) -> Config {
    Config::from("config.ini".to_string(), text.to_string()).expect("well-formed config")
}

fn saved(config: &Config) -> String {
    String::from_utf8(config.save()).unwrap()
}

#[test]
fn new_config_has_empty_dll_and_cpk_sections() {
    let config = Config::new(".\\mods\\config.ini".to_string());
    assert_eq!(config.path(), ".\\mods\\config.ini");
    assert!(config.has_section(ModKind::Dll));
    assert!(config.has_section(ModKind::Cpk));
    assert_eq!(saved(&config), "[DLL]\r\n[CPK]\r\n");
}

#[test]
fn new_mods_are_loaded_and_written_with_defaults() {
    let mut config = Config::new("c.ini".to_string());
    let cpks = config.parse_cpks(files(&[("weapons", "mods/cpks/weapons.cpk"), ("hair", "mods/cpks/x/hair.cpk")]));
    assert_eq!(cpks, vec!["mods/cpks/weapons.cpk".to_string(), "mods/cpks/x/hair.cpk".to_string()]);
    let dlls = config.parse_dlls(files(&[("2BHook", "mods/plugins/tools/2BHook/2BHook.dll")]));
    assert_eq!(dlls, vec![Plugin::Early("mods/plugins/tools/2BHook/2BHook.dll".to_string())]);
    assert_eq!(saved(&config), "[DLL]\r\n2BHook=EARLY\r\n\r\n[CPK]\r\nweapons=TRUE\r\nhair=TRUE\r\n");
}

#[test]
fn false_or_other_values_keep_a_mod_out() {
    let mut config = load("[DLL]\n[CPK]\na=TRUE\nb=FALSE\nc=true\n");
    let cpks = config.parse_cpks(files(&[("c", "c.cpk"), ("b", "b.cpk"), ("a", "a.cpk"), ("d", "d.cpk")]));
    assert_eq!(cpks, vec!["a.cpk".to_string(), "d.cpk".to_string()]);
    assert_eq!(saved(&config), "[DLL]\r\n[CPK]\r\na=TRUE\r\nb=FALSE\r\nc=true\r\nd=TRUE\r\n");
}

#[test]
fn configured_mods_come_in_config_order() {
    let mut config = load("[CPK]\nz=TRUE\ny=TRUE\n[DLL]\nlate=LATE\nearly=EARLY\noff=NO\n");
    let cpks = config.parse_cpks(files(&[("y", "y.cpk"), ("z", "z.cpk")]));
    assert_eq!(cpks, vec!["z.cpk".to_string(), "y.cpk".to_string()]);
    let dlls = config.parse_dlls(files(&[("early", "e.dll"), ("off", "o.dll"), ("late", "l.dll"), ("new", "n.dll")]));
    assert_eq!(
        dlls,
        vec![
            Plugin::Late("l.dll".to_string()),
            Plugin::Early("e.dll".to_string()),
            Plugin::Early("n.dll".to_string()),
        ]
    );
}

#[test]
fn entries_for_missing_files_are_kept_and_ignored() {
    let mut config = load("[CPK]\ngone=TRUE\n");
    let cpks = config.parse_cpks(files(&[("here", "here.cpk")]));
    assert_eq!(cpks, vec!["here.cpk".to_string()]);
    assert_eq!(saved(&config), "[CPK]\r\ngone=TRUE\r\nhere=TRUE\r\n");
}

#[test]
fn no_files_change_nothing() {
    let mut config = load("[CPK]\na=FALSE\n");
    assert_eq!(config.parse_cpks(ModFiles::new()), Vec::<String>::new());
    assert_eq!(config.parse_dlls(ModFiles::new()), Vec::<Plugin>::new());
    assert_eq!(saved(&config), "[CPK]\r\na=FALSE\r\n");
}

#[test]
fn a_second_run_loads_the_same_and_adds_nothing() {
    let mut config = load("[DLL]\nb=LATE\n[CPK]\nx=FALSE\n");
    let found_cpks = [("x", "x.cpk"), ("n1", "n1.cpk"), ("n2", "n2.cpk")];
    let found_dlls = [("a", "a.dll"), ("b", "b.dll")];
    let cpks1 = config.parse_cpks(files(&found_cpks));
    let dlls1 = config.parse_dlls(files(&found_dlls));
    let text1 = saved(&config);
    let cpks2 = config.parse_cpks(files(&found_cpks));
    let dlls2 = config.parse_dlls(files(&found_dlls));
    assert_eq!(cpks1, cpks2);
    assert_eq!(dlls1, dlls2);
    assert_eq!(text1, saved(&config));
    assert_eq!(cpks1, vec!["n1.cpk".to_string(), "n2.cpk".to_string()]);
    assert_eq!(dlls1, vec![Plugin::Late("b.dll".to_string()), Plugin::Early("a.dll".to_string())]);
}

#[test]
fn first_loading_entry_decides() {
    let mut config = load("[DLL]\np=NO\np=LATE\np=EARLY\n");
    let dlls = config.parse_dlls(files(&[("p", "p.dll")]));
    assert_eq!(dlls, vec![Plugin::Late("p.dll".to_string())]);
}

#[test]
fn config_text_round_trips_through_the_parser() {
    let config = load("[DLL]\nfoo=EARLY\n\n[CPK]\nbar=FALSE\n");
    assert_eq!(saved(&config), "[DLL]\r\nfoo=EARLY\r\n\r\n[CPK]\r\nbar=FALSE\r\n");
    let again = load(&saved(&config));
    assert_eq!(saved(&again), saved(&config));
}

#[test]
fn a_byte_order_mark_is_skipped() {
    let config = load("\u{feff}[CPK]\na=TRUE\n");
    assert!(config.has_section(ModKind::Cpk));
    assert!(!config.has_section(ModKind::Dll));
    assert_eq!(saved(&config), "[CPK]\r\na=TRUE\r\n");
}

#[test]
fn malformed_config_is_refused() {
    let res = Config::from("c.ini".to_string(), "=value\n".to_string());
    assert!(matches!(res, Err(ConfigError::Malformed)));
}

#[test]
fn a_missing_section_is_reported() {
    let config = load("[CPK]\n");
    assert!(!config.has_section(ModKind::Dll));
    assert!(config.has_section(ModKind::Cpk));
}

#[test]
fn files_with_the_same_stem_are_one_mod() {
    let mut f = ModFiles::new();
    f.insert("a".to_string(), "one/a.cpk".to_string());
    f.insert("b".to_string(), "b.cpk".to_string());
    f.insert("a".to_string(), "two/a.cpk".to_string());
    assert_eq!(f.len(), 2);
    assert_eq!(f.find(&"a".to_string()), Some(0));
    assert_eq!(f.stem(0), "a");
    assert_eq!(f.paths(0), &vec!["one/a.cpk".to_string(), "two/a.cpk".to_string()]);
    assert_eq!(f.paths(1), &vec!["b.cpk".to_string()]);
    assert_eq!(f.find(&"c".to_string()), None);
    assert!(!f.is_empty());
    assert!(ModFiles::new().is_empty());
}

#[test]
fn values_are_classified_exactly() {
    assert_eq!(classify(ModKind::Cpk, &"TRUE".to_string()), Some(Choice::Mount));
    assert_eq!(classify(ModKind::Cpk, &"EARLY".to_string()), None);
    assert_eq!(classify(ModKind::Dll, &"EARLY".to_string()), Some(Choice::Early));
    assert_eq!(classify(ModKind::Dll, &"LATE".to_string()), Some(Choice::Late));
    assert_eq!(classify(ModKind::Dll, &"TRUE".to_string()), Some(Choice::Early));
    assert_eq!(classify(ModKind::Dll, &"FALSE".to_string()), None);
    assert_eq!(classify(ModKind::Dll, &"late".to_string()), None);
}

#[test]
fn select_reports_new_stems() {
    let entries = vec![("a".to_string(), "TRUE".to_string())];
    let (loads, new_stems) = select(ModKind::Cpk, &entries, &files(&[("b", "b.cpk"), ("a", "a.cpk")]));
    assert_eq!(loads, vec![("a.cpk".to_string(), Choice::Mount), ("b.cpk".to_string(), Choice::Mount)]);
    assert_eq!(new_stems, vec!["b".to_string()]);
}

#[test]
fn proxy_detection_checks_the_file_name_suffix() {
    assert!(installed_as_d3d11("C:\\Games\\NieRAutomata\\d3d11.dll"));
    assert!(installed_as_d3d11("d3d11.dll"));
    assert!(!installed_as_d3d11("C:\\Games\\NieRAutomata\\mod_loader.dll"));
    assert!(!installed_as_d3d11("d3d11.dl"));
    assert!(!installed_as_d3d11(""));
}

#[test]
fn startup_plan_splits_plugins() {
    let plan = plan_startup(
        vec!["a.cpk".to_string()],
        vec![
            Plugin::Early("e1.dll".to_string()),
            Plugin::Late("l1.dll".to_string()),
            Plugin::Early("e2.dll".to_string()),
        ],
    );
    assert!(plan.install_hook);
    assert_eq!(plan.hook_cpks, vec!["a.cpk".to_string()]);
    assert_eq!(plan.inject_now, vec!["e1.dll".to_string(), "e2.dll".to_string()]);
    assert_eq!(plan.inject_after_dlc, vec!["l1.dll".to_string()]);

    let early_only = plan_startup(Vec::new(), vec![Plugin::Early("e.dll".to_string())]);
    assert!(!early_only.install_hook);
    assert_eq!(early_only.hook_cpks, Vec::<String>::new());
    assert_eq!(early_only.inject_now, vec!["e.dll".to_string()]);
    assert_eq!(early_only.inject_after_dlc, Vec::<String>::new());
}

#[test]
fn a_late_plugin_gets_the_hook_without_archives() {
    let plan = plan_startup(Vec::new(), vec![Plugin::Late("p.dll".to_string())]);
    assert!(plan.install_hook);
    assert_eq!(plan.hook_cpks, Vec::<String>::new());
    assert_eq!(plan.inject_now, Vec::<String>::new());
    assert_eq!(plan.inject_after_dlc, vec!["p.dll".to_string()]);

    let nothing = plan_startup(Vec::new(), Vec::new());
    assert!(!nothing.install_hook);
}

#[test]
fn one_entry_governs_every_file_of_a_stem() {
    let mut config = load("[CPK]\nskin=TRUE\n");
    let cpks = config.parse_cpks(files(&[("skin", "a\\skin.cpk"), ("skin", "b\\skin.cpk")]));
    assert_eq!(cpks, vec!["a\\skin.cpk".to_string(), "b\\skin.cpk".to_string()]);
    assert_eq!(saved(&config), "[CPK]\r\nskin=TRUE\r\n");

    let mut off = load("[CPK]\nskin=FALSE\n");
    let none = off.parse_cpks(files(&[("skin", "a\\skin.cpk"), ("skin", "b\\skin.cpk")]));
    assert_eq!(none, Vec::<String>::new());

    let mut fresh = Config::new("c.ini".to_string());
    let dlls = fresh.parse_dlls(files(&[("hook", "x\\hook.dll"), ("other", "o.dll"), ("hook", "y\\hook.dll")]));
    assert_eq!(
        dlls,
        vec![
            Plugin::Early("x\\hook.dll".to_string()),
            Plugin::Early("y\\hook.dll".to_string()),
            Plugin::Early("o.dll".to_string()),
        ]
    );
    assert_eq!(saved(&fresh), "[DLL]\r\nhook=EARLY\r\nother=EARLY\r\n[CPK]\r\n");
}

#[test]
fn a_dll_set_to_true_is_injected_early() {
    let mut config = load("[DLL]\np=TRUE\nq=LATE\n");
    let dlls = config.parse_dlls(files(&[("q", "q.dll"), ("p", "p.dll")]));
    assert_eq!(dlls, vec![Plugin::Early("p.dll".to_string()), Plugin::Late("q.dll".to_string())]);
    assert_eq!(saved(&config), "[DLL]\r\np=TRUE\r\nq=LATE\r\n");
}

#[test]
fn the_data_directory_is_recognised_by_its_last_component() {
    assert!(in_data_dir("C:\\Games\\NieRAutomata\\data"));
    assert!(in_data_dir("C:\\Games\\NieRAutomata\\data\\"));
    assert!(in_data_dir("C:\\Games\\NieRAutomata\\data\\."));
    assert!(in_data_dir("/games/nier/data"));
    assert!(in_data_dir("data"));
    assert!(in_data_dir("C:data"));
    assert!(in_data_dir("\\\\?\\C:\\Games\\data"));
    assert!(in_data_dir("\\\\server\\share\\data"));
    assert!(!in_data_dir("\\\\server\\data"));
    assert!(!in_data_dir("\\\\?\\data"));
    assert!(!in_data_dir("\\\\?\\C:\\data\\."));
    assert!(!in_data_dir("\\\\?\\UNC\\server\\data"));
    assert!(!in_data_dir("\\\\.\\data"));
    assert!(!in_data_dir("C:\\Games\\NieRAutomata"));
    assert!(!in_data_dir("C:\\Games\\mydata"));
    assert!(!in_data_dir("C:\\data\\mods"));
    assert!(!in_data_dir("ata"));
    assert!(!in_data_dir(""));
}

#[test]
fn file_stems_are_taken_as_windows_paths() {
    assert_eq!(path_file_stem(".\\mods\\cpks\\weapons\\custom_longsword.cpk"), Some("custom_longsword".to_string()));
    assert_eq!(path_file_stem("mods/plugins/tools/2BHook/2BHook.dll"), Some("2BHook".to_string()));
    assert_eq!(path_file_stem("a\\archive.tar.gz"), Some("archive.tar".to_string()));
    assert_eq!(path_file_stem("a\\.hidden"), Some(".hidden".to_string()));
    assert_eq!(path_file_stem("a\\name."), Some("name".to_string()));
    assert_eq!(path_file_stem("a\\noext\\"), Some("noext".to_string()));
    assert_eq!(path_file_stem("a\\.."), None);
    assert_eq!(path_file_stem("C:\\"), None);
    assert_eq!(path_file_stem("\\\\server\\share"), None);
    assert_eq!(path_file_stem(""), None);
}

#[test]
fn well_formed_text_is_taken_up_directly() {
    let config = Config::from_well_formed("c.ini".to_string(), "\u{feff}[DLL]\nx=LATE\n".to_string());
    assert_eq!(config.path(), "c.ini");
    assert_eq!(saved(&config), "[DLL]\r\nx=LATE\r\n");
}

#[test]
fn saving_escapes_backslashes_and_control_characters() {
    let config = load("[CPK]\na=x\\\\y\n");
    assert_eq!(saved(&config), "[CPK]\r\na=x\\\\y\r\n");
}
