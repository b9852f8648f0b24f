//! Start-up decisions: whether the loader stands in for `d3d11.dll`, and
//! what to do with the mods that the configuration selected.
use vstd::prelude::*;
use crate::config::{Plugin, plugin_view};
use crate::selection::Choice;
use crate::mod_files::strings_view;

verus! {

/// The file name under which the loader proxies Direct3D 11.
pub open spec fn proxy_suffix() -> Seq<char> {
    seq!['d', '3', 'd', '1', '1', '.', 'd', 'l', 'l']
}

/// Whether `s` ends with `suffix`.
pub open spec fn ends_with(s: Seq<char>, suffix: Seq<char>) -> bool {
    s.len() >= suffix.len() && s.subrange(s.len() - suffix.len(), s.len() as int) == suffix
}

/// Whether the loader's module file is named so that the game loads it as
/// `d3d11.dll`; then it forwards `D3D11CreateDevice` to the system library.
pub fn installed_as_d3d11(module_filename: &str) -> (b: bool)
    ensures
        b == ends_with(module_filename@, proxy_suffix()),
{
    let suffix = "d3d11.dll";
    proof {
        reveal_strlit("d3d11.dll");
        assert(suffix@ =~= proxy_suffix());
    }
    let n = module_filename.unicode_len();
    let m = suffix.unicode_len();
    if n < m {
        assert(suffix@.len() == proxy_suffix().len());
        return false;
    }
    let start = n - m;
    let mut i: usize = 0;
    while i < m
        invariant
            i <= m,
            m == suffix@.len(),
            suffix@ == proxy_suffix(),
            n == module_filename@.len(),
            start == n - m,
            forall|j: int| 0 <= j < i ==> #[trigger] module_filename@[start + j] == suffix@[j],
        decreases m - i,
    {
        let c = module_filename.get_char(start + i);
        let d = suffix.get_char(i);
        if c != d {
            proof {
                let sub = module_filename@.subrange(start as int, n as int);
                assert(sub[i as int] == c);
                assert(sub != suffix@);
                assert(module_filename@.len() - proxy_suffix().len() == start);
            }
            return false;
        }
        i = i + 1;
    }
    proof {
        let sub = module_filename@.subrange(start as int, n as int);
        assert forall|j: int| 0 <= j < m implies sub[j] == suffix@[j] by {
            assert(module_filename@[start + j] == suffix@[j]);
        }
        assert(sub =~= suffix@);
        assert(module_filename@.len() - proxy_suffix().len() == start);
    }
    true
}

/// What start-up does with the selected mods.
pub struct StartupPlan {
    /// Whether to hook the game's DLC archive loader: exactly when archives
    /// or late plugins wait for it.
    pub install_hook: bool,
    /// The CPK archives that the hook mounts, in order.
    pub hook_cpks: Vec<String>,
    /// The plugins to inject right away, in order.
    pub inject_now: Vec<String>,
    /// The plugins that the hook injects once the DLC archives are mounted,
    /// in order.
    pub inject_after_dlc: Vec<String>,
}

/// The paths of the plugins that are injected at `when`, in order.
pub open spec fn plugin_paths(plugins: Seq<Plugin>, when: Choice) -> Seq<Seq<char>>
    decreases plugins.len(),
{
    if plugins.len() == 0 {
        Seq::empty()
    } else {
        let rest = plugin_paths(plugins.drop_last(), when);
        let p = plugin_view(plugins.last());
        if p.1 == when {
            rest.push(p.0)
        } else {
            rest
        }
    }
}

/// Every selected plugin gets its moment: its path is among the plugins
/// injected at its time, and where that is late, there are late plugins,
/// so the start-up plan hooks the DLC loader that injects them.
pub proof fn law_every_plugin_is_scheduled(plugins: Seq<Plugin>, i: int)
    requires
        0 <= i < plugins.len(),
    ensures
        plugin_paths(plugins, plugin_view(plugins[i]).1).contains(plugin_view(plugins[i]).0),
        plugin_view(plugins[i]).1 == Choice::Late ==> plugin_paths(plugins, Choice::Late).len() > 0,
    decreases plugins.len(),
{
    let prev = plugins.drop_last();
    let p = plugin_view(plugins[i]);
    if i < plugins.len() - 1 {
        assert(prev[i] == plugins[i]);
        law_every_plugin_is_scheduled(prev, i);
        let q = plugin_paths(prev, p.1);
        let j = choose|j: int| 0 <= j < q.len() && q[j] == p.0;
        let r = plugin_paths(plugins, p.1);
        assert(r[j] == q[j]);
    } else {
        let r = plugin_paths(plugins, p.1);
        assert(r[r.len() - 1] == p.0);
    }
}

/// The plugins injected at `when` are exactly the selected plugins of that
/// time, in the order selected; and every selected plugin is injected at
/// launch or after the DLC archives, not both.
pub proof fn law_plugins_split_by_time(plugins: Seq<Plugin>)
    ensures
        plugin_paths(plugins, Choice::Early) == plugins.filter(|p: Plugin| p is Early).map_values(
            |p: Plugin| plugin_view(p).0,
        ),
        plugin_paths(plugins, Choice::Late) == plugins.filter(|p: Plugin| p is Late).map_values(
            |p: Plugin| plugin_view(p).0,
        ),
        plugin_paths(plugins, Choice::Early).len() + plugin_paths(plugins, Choice::Late).len() == plugins.len(),
    decreases plugins.len(),
{
    reveal(Seq::filter);
    if plugins.len() > 0 {
        let prev = plugins.drop_last();
        law_plugins_split_by_time(prev);
        let last = plugins.last();
        let fe = |p: Plugin| p is Early;
        let fl = |p: Plugin| p is Late;
        let m = |p: Plugin| plugin_view(p).0;
        assert(plugins.filter(fe) == if fe(last) { prev.filter(fe).push(last) } else { prev.filter(fe) });
        assert(plugins.filter(fl) == if fl(last) { prev.filter(fl).push(last) } else { prev.filter(fl) });
        assert(prev.filter(fe).push(last).map_values(m) =~= prev.filter(fe).map_values(m).push(m(last)));
        assert(prev.filter(fl).push(last).map_values(m) =~= prev.filter(fl).map_values(m).push(m(last)));
    } else {
        assert(plugins.filter(|p: Plugin| p is Early).map_values(|p: Plugin| plugin_view(p).0) =~= Seq::<
            Seq<char>,
        >::empty());
        assert(plugins.filter(|p: Plugin| p is Late).map_values(|p: Plugin| plugin_view(p).0) =~= Seq::<
            Seq<char>,
        >::empty());
    }
}

/// A module file name ends with a suffix exactly when it is some text
/// followed by that suffix; so any path to a `d3d11.dll` is detected,
/// however long.
pub proof fn law_ends_with_is_suffix(s: Seq<char>, suffix: Seq<char>)
    ensures
        ends_with(s, suffix) <==> exists|t: Seq<char>| s == t + suffix,
        ends_with(s + proxy_suffix(), proxy_suffix()),
{
    if ends_with(s, suffix) {
        let t = s.subrange(0, s.len() - suffix.len());
        assert(s =~= t + suffix);
    }
    if exists|t: Seq<char>| s == t + suffix {
        let t = choose|t: Seq<char>| s == t + suffix;
        assert(s.subrange(s.len() - suffix.len(), s.len() as int) =~= suffix);
    }
    let u = s + proxy_suffix();
    assert(u.subrange(u.len() - proxy_suffix().len(), u.len() as int) =~= proxy_suffix());
}

/// Splits the selected mods into what is mounted and injected when.
pub fn plan_startup(cpks: Vec<String>, plugins: Vec<Plugin>) -> (plan: StartupPlan)
    ensures
        plan.install_hook <==> cpks@.len() > 0 || plugin_paths(plugins@, Choice::Late).len() > 0,
        plan.hook_cpks@ == cpks@,
        strings_view(plan.inject_now@) == plugin_paths(plugins@, Choice::Early),
        strings_view(plan.inject_after_dlc@) == plugin_paths(plugins@, Choice::Late),
{
    let mut early: Vec<String> = Vec::new();
    let mut late: Vec<String> = Vec::new();
    let mut i: usize = 0;
    while i < plugins.len()
        invariant
            i <= plugins@.len(),
            strings_view(early@) == plugin_paths(plugins@.take(i as int), Choice::Early),
            strings_view(late@) == plugin_paths(plugins@.take(i as int), Choice::Late),
        decreases plugins@.len() - i,
    {
        let ghost prefix = plugins@.take(i as int);
        let ghost next = plugins@.take(i + 1);
        let ghost e0 = strings_view(early@);
        let ghost l0 = strings_view(late@);
        proof {
            assert(next.drop_last() =~= prefix);
            assert(next.last() == plugins@[i as int]);
        }
        match &plugins[i] {
            Plugin::Early(path) => {
                early.push(path.clone());
                assert(strings_view(early@) =~= e0.push(path@));
            },
            Plugin::Late(path) => {
                late.push(path.clone());
                assert(strings_view(late@) =~= l0.push(path@));
            },
        }
        i = i + 1;
    }
    proof {
        assert(plugins@.take(plugins@.len() as int) =~= plugins@);
    }
    let install_hook = cpks.len() > 0 || late.len() > 0;
    StartupPlan { install_hook, hook_cpks: cpks, inject_now: early, inject_after_dlc: late }
}

} // verus!
