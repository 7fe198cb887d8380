//! Install scripts of packages: which packages have one, what runs for each
//! lifecycle event, and the `PATH` the scripts see.
//!
//! Reading the manifests and running the commands are done outside the
//! library.

use vstd::prelude::*;
use crate::linker::{store_dir, vee_dir, package_store_dir};
use crate::resolver::{PackageInfo, ResolveResult};
use crate::strmap::{StrMap, has_key, lookup, keys_of, inserted, str_entries, lemma_str_entries_inserted};
use crate::text::{chars_of, string_of, append_str, path_join, join_path};

verus! {

/// The lifecycle events that installing runs, in order.
pub open spec fn lifecycle_events() -> Seq<Seq<char>> {
    seq!["preinstall"@, "install"@, "postinstall"@]
}

/// The command that installs a package with a `binding.gyp` and no `install`
/// script.
pub open spec fn gyp_command() -> Seq<char> {
    "node-gyp rebuild"@
}

/// A package whose install scripts are to run.
pub struct PackageScripts {
    pub name: String,
    pub version: String,
    pub scripts: StrMap<String>,
    /// Where the package is installed; its scripts run there.
    pub package_dir: String,
}

/// The scripts of a manifest: the entries of its `scripts` object whose
/// value is a string.
pub open spec fn string_scripts(entries: Seq<(String, Option<String>)>) -> Seq<(Seq<char>, Seq<char>)>
    decreases entries.len(),
{
    if entries.len() == 0 {
        seq![]
    } else {
        match entries.last().1 {
            Some(v) => inserted(string_scripts(entries.drop_last()), entries.last().0@, v@),
            None => string_scripts(entries.drop_last()),
        }
    }
}

/// The scripts among the entries of a manifest's `scripts` object, each
/// given with its value where that is a string.
pub fn scripts_from_entries(entries: Vec<(String, Option<String>)>) -> (r: StrMap<String>)
    ensures
        str_entries(r@) == string_scripts(entries@),
{
    let mut m: StrMap<String> = StrMap::new();
    let mut i: usize = 0;
    assert(str_entries(m@) =~= Seq::<(Seq<char>, Seq<char>)>::empty());
    while i < entries.len()
        invariant
            i <= entries@.len(),
            str_entries(m@) == string_scripts(entries@.take(i as int)),
        decreases entries@.len() - i,
    {
        proof {
            assert(entries@.take(i + 1).drop_last() =~= entries@.take(i as int));
        }
        match &entries[i].1 {
            Some(v) => {
                let v2 = v.clone();
                proof {
                    lemma_str_entries_inserted(m@, entries@[i as int].0@, v2);
                }
                m.insert(entries[i].0.clone(), v2);
            },
            None => {},
        }
        i = i + 1;
    }
    assert(entries@.take(entries@.len() as int) =~= entries@);
    m
}

/// Whether any of the names `keys` is a lifecycle event.
pub open spec fn has_lifecycle(keys: Seq<Seq<char>>) -> bool {
    exists|i: int| 0 <= i < keys.len() && lifecycle_events().contains(#[trigger] keys[i])
}

/// The scripts that run for a package with the scripts `s`: an `install`
/// script `node-gyp rebuild` is added where there is none and the package
/// has a `binding.gyp`.
pub open spec fn effective_scripts(s: Seq<(Seq<char>, Seq<char>)>, has_binding_gyp: bool) -> Seq<(Seq<char>, Seq<char>)> {
    if !has_key(s, "install"@) && has_binding_gyp {
        inserted(s, "install"@, gyp_command())
    } else {
        s
    }
}

/// The installed package `name` at `version` in `package_dir`, with the
/// scripts `scripts`, if it has any script to run at install:
/// `has_binding_gyp` tells whether the package has a `binding.gyp`.
pub fn lifecycle_package(name: String, version: String, scripts: StrMap<String>, has_binding_gyp: bool, package_dir: String) -> (r: Option<PackageScripts>)
    ensures
        match r {
            Some(p) => has_lifecycle(keys_of(effective_scripts(str_entries(scripts@), has_binding_gyp)))
                && str_entries(p.scripts@) == effective_scripts(str_entries(scripts@), has_binding_gyp)
                && p.name == name && p.version == version && p.package_dir == package_dir,
            None => !has_lifecycle(keys_of(effective_scripts(str_entries(scripts@), has_binding_gyp))),
        },
{
    let mut scripts = scripts;
    proof {
        crate::strmap::lemma_str_entries_index(scripts@, "install"@);
    }
    if !scripts.contains_key("install") && has_binding_gyp {
        let cmd = "node-gyp rebuild".to_owned();
        proof {
            lemma_str_entries_inserted(scripts@, "install"@, cmd);
            reveal_strlit("node-gyp rebuild");
        }
        scripts.insert("install".to_owned(), cmd);
    }
    let ghost keys = keys_of(str_entries(scripts@));
    let mut i: usize = 0;
    let mut found = false;
    while i < scripts.len()
        invariant
            keys == keys_of(str_entries(scripts@)),
            i <= scripts@.len(),
            found == exists|j: int| 0 <= j < i && lifecycle_events().contains(#[trigger] keys[j]),
        decreases scripts@.len() - i,
    {
        let k = chars_of(scripts.key_at(i).as_str());
        assert(k@ == keys[i as int]);
        let is_event = crate::text::is_literal(&k, "preinstall") || crate::text::is_literal(&k, "install")
            || crate::text::is_literal(&k, "postinstall");
        proof {
            let ev = lifecycle_events();
            if ev.contains(k@) {
                let e = choose|e: int| 0 <= e < ev.len() && ev[e] == k@;
                assert(e == 0 || e == 1 || e == 2);
            }
            if is_event {
                assert(ev[0] == "preinstall"@ && ev[1] == "install"@ && ev[2] == "postinstall"@);
            }
        }
        if is_event {
            found = true;
        }
        i = i + 1;
    }
    if found {
        Some(PackageScripts { name, version, scripts, package_dir })
    } else {
        None
    }
}

/// The commands that run for `scripts`, event by event: each lifecycle
/// event that has a script, with it.
pub open spec fn lifecycle_plan(scripts: Seq<(Seq<char>, Seq<char>)>) -> Seq<(Seq<char>, Seq<char>)> {
    crate::linker::present(lifecycle_events().map_values(|e: Seq<char>| match lookup(scripts, e) {
        Some(c) => Some((e, c)),
        None => None,
    }))
}

/// The lifecycle events to run for `package`, in order, each with its
/// command.
pub fn lifecycle_commands(package: &PackageScripts) -> (r: Vec<(String, String)>)
    ensures
        crate::linker::pairs_view(r@) == lifecycle_plan(str_entries(package.scripts@)),
{
    let mut out: Vec<(String, String)> = Vec::new();
    let ghost s = str_entries(package.scripts@);
    proof {
        crate::strmap::lemma_str_entries_index(package.scripts@, "preinstall"@);
        crate::strmap::lemma_str_entries_index(package.scripts@, "install"@);
        crate::strmap::lemma_str_entries_index(package.scripts@, "postinstall"@);
        crate::strmap::lemma_index_of_key(package.scripts@, "preinstall"@);
        crate::strmap::lemma_index_of_key(package.scripts@, "install"@);
        crate::strmap::lemma_index_of_key(package.scripts@, "postinstall"@);
        crate::strmap::lemma_index_of_key(s, "preinstall"@);
        crate::strmap::lemma_index_of_key(s, "install"@);
        crate::strmap::lemma_index_of_key(s, "postinstall"@);
    }
    if let Some(c) = package.scripts.get("preinstall") {
        out.push(("preinstall".to_owned(), c.clone()));
    }
    if let Some(c) = package.scripts.get("install") {
        out.push(("install".to_owned(), c.clone()));
    }
    if let Some(c) = package.scripts.get("postinstall") {
        out.push(("postinstall".to_owned(), c.clone()));
    }
    proof {
        let f = |e: Seq<char>| match lookup(s, e) {
            Some(c) => Some((e, c)),
            None => None,
        };
        let m = lifecycle_events().map_values(f);
        assert(m.len() == 3);
        assert(m.drop_last().drop_last().drop_last() =~= Seq::<Option<(Seq<char>, Seq<char>)>>::empty());
        assert(m.drop_last().drop_last() =~= seq![f("preinstall"@)]);
        assert(m.drop_last() =~= seq![f("preinstall"@), f("install"@)]);
        reveal_with_fuel(crate::linker::present, 4);
        assert(crate::linker::pairs_view(out@) =~= crate::linker::present(m));
    }
    out
}

/// The packages of `result` that declare an install script, each with
/// where it is installed under the project `project`.
pub open spec fn script_candidates(result: ResolveResult, project: Seq<char>) -> Seq<(int, Seq<char>)>
    decreases result.packages@.len(),
{
    script_candidates_upto(result.packages@, vee_dir(project), result.packages@.len() as int)
}

/// [`script_candidates`] among the first `n` packages of `ps`.
pub open spec fn script_candidates_upto(ps: Seq<(Seq<char>, PackageInfo)>, vee: Seq<char>, n: int) -> Seq<(int, Seq<char>)>
    decreases n,
{
    if n <= 0 {
        seq![]
    } else if ps[n - 1].1.has_install_script {
        script_candidates_upto(ps, vee, n - 1).push((n - 1, store_dir(vee, ps[n - 1].1)))
    } else {
        script_candidates_upto(ps, vee, n - 1)
    }
}

/// The packages of `result` whose manifest is read for install scripts:
/// those that declare one, by position, each with where it is installed in
/// the project `project`.
pub fn script_packages(project: &str, result: &ResolveResult) -> (r: Vec<(usize, String)>)
    ensures
        r@.map_values(|e: (usize, String)| (e.0 as int, e.1@)) == script_candidates(*result, project@),
{
    let modules = join_path(project, "node_modules");
    let vee = join_path(modules.as_str(), ".vee");
    let ghost ps = result.packages@;
    let mut out: Vec<(usize, String)> = Vec::new();
    let mut i: usize = 0;
    while i < result.packages.len()
        invariant
            ps == result.packages@,
            vee@ == vee_dir(project@),
            i <= ps.len(),
            out@.map_values(|e: (usize, String)| (e.0 as int, e.1@)) == script_candidates_upto(ps, vee@, i as int),
        decreases ps.len() - i,
    {
        let p = result.packages.value_at(i);
        let ghost o0 = out@;
        if p.has_install_script {
            let dir = package_store_dir(vee.as_str(), p);
            out.push((i, dir));
            assert(out@.map_values(|e: (usize, String)| (e.0 as int, e.1@)) =~= o0.map_values(|e: (usize, String)| (e.0 as int, e.1@)).push((i as int, store_dir(vee@, *p))));
        }
        i = i + 1;
    }
    out
}

/// The `PATH` that install scripts see: the project's `.bin` directory
/// before `current`.
pub fn script_path(bin_dir: &str, current: &str) -> (r: String)
    ensures
        r@ == bin_dir@ + ":"@ + current@,
{
    let mut out = chars_of(bin_dir);
    append_str(&mut out, ":");
    append_str(&mut out, current);
    string_of(&out)
}

} // verus!
