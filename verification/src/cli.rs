//! The decisions behind the command line: how package specifications are
//! read, which dependencies a command resolves, the command line of a script,
//! and what is reported about versions.
//!
//! Parsing arguments, talking to the registry, running programs and printing
//! are done outside the library.

use vstd::prelude::*;
use crate::lockfile::{Lockfile, LockedPackage};
use crate::package_json::PackageJson;
use crate::resolver::{ResolveResult, PeerWarning};
use crate::strmap::{
    StrMap, has_key, lookup, keys_of, str_entries, sorted_keys, ordered_inserted,
    lemma_str_entries_ordered, lemma_ordered_inserted_sorted, lemma_index_of_key,
    lemma_str_entries_index, insert_all_ordered, merge_ordered,
};
use crate::text::{
    chars_of, string_of, append_str, append_chars, rsplit_once, rsplit_once_at, split_once,
    split_once_at, rfind_char, rfind, slice, replace_all, replace_literal, lowercase_of, to_lowercase,
    seq_lt,
};

verus! {

/// What `parse_package_spec` gives for `input`: a name and a version, split
/// at the last `@` that does not begin a scope, `latest` where there is none.
pub open spec fn package_spec(input: Seq<char>) -> (Seq<char>, Seq<char>) {
    if input.len() > 0 && input[0] == '@' {
        match rsplit_once(input.drop_first(), '@') {
            Some((scoped, version)) => (seq!['@'] + scoped, version),
            None => (input, "latest"@),
        }
    } else {
        match rsplit_once(input, '@') {
            Some((name, version)) => (name, version),
            None => (input, "latest"@),
        }
    }
}

/// Splits a package specification such as `react@18`, `@types/node@20` or
/// `lodash` into a name and a version (`latest` where none is given).
pub fn parse_package_spec(input: &str) -> (r: (String, String))
    ensures
        (r.0@, r.1@) == package_spec(input@),
{
    let s = chars_of(input);
    if s.len() > 0 && s[0] == '@' {
        let rest = slice(&s, 1, s.len());
        assert(rest@ =~= s@.drop_first());
        match rsplit_once_at(&rest, '@') {
            Some((scoped, version)) => {
                let mut name: Vec<char> = chars_of("@");
                append_chars(&mut name, &scoped);
                proof {
                    reveal_strlit("@");
                }
                (string_of(&name), string_of(&version))
            },
            None => (input.to_owned(), "latest".to_owned()),
        }
    } else {
        match rsplit_once_at(&s, '@') {
            Some((name, version)) => (string_of(&name), string_of(&version)),
            None => (input.to_owned(), "latest".to_owned()),
        }
    }
}

/// The package that `vee create <input>` runs: `create-<name>`, inside the
/// scope for a scoped name.
pub open spec fn create_package_name(input: Seq<char>) -> Seq<char> {
    if input.len() > 0 && input[0] == '@' && split_once(input.drop_first(), '/') is Some {
        let (scope, name) = split_once(input.drop_first(), '/')->0;
        "@"@ + scope + "/create-"@ + name
    } else {
        "create-"@ + input
    }
}

/// The name of the package that `vee create` runs for `input`.
pub fn to_create_package_name(input: &str) -> (r: String)
    ensures
        r@ == create_package_name(input@),
{
    let s = chars_of(input);
    if s.len() > 0 && s[0] == '@' {
        let rest = slice(&s, 1, s.len());
        assert(rest@ =~= s@.drop_first());
        if let Some((scope, name)) = split_once_at(&rest, '/') {
            let mut out: Vec<char> = chars_of("@");
            append_chars(&mut out, &scope);
            append_str(&mut out, "/create-");
            append_chars(&mut out, &name);
            return string_of(&out);
        }
    }
    let mut out: Vec<char> = chars_of("create-");
    append_chars(&mut out, &s);
    string_of(&out)
}

/// `package` for one, `packages` otherwise.
pub fn plural_package(n: usize) -> (r: &'static str)
    ensures
        r@ == if n == 1 { "package"@ } else { "packages"@ },
{
    if n == 1 {
        "package"
    } else {
        "packages"
    }
}

/// What `vee add` reads from one argument: the name before the last `@`
/// and the version after it; `latest` where there is no `@` or it is the
/// first character.
pub open spec fn add_spec(raw: Seq<char>) -> (Seq<char>, Seq<char>) {
    match rfind_char(raw, '@') {
        Some(i) => if i == 0 {
            (raw, "latest"@)
        } else {
            (raw.take(i), raw.skip(i + 1))
        },
        None => (raw, "latest"@),
    }
}

/// Splits an argument of `vee add` into a name and a version.
pub fn split_add_spec(raw: &str) -> (r: (String, String))
    ensures
        (r.0@, r.1@) == add_spec(raw@),
{
    let s = chars_of(raw);
    match rfind(&s, '@') {
        Some(i) => {
            if i == 0 {
                (raw.to_owned(), "latest".to_owned())
            } else {
                assert(i < s.len());
                let name = slice(&s, 0, i);
                let version = slice(&s, i + 1, s.len());
                assert(name@ =~= s@.take(i as int));
                assert(version@ =~= s@.skip(i + 1));
                (string_of(&name), string_of(&version))
            }
        },
        None => (raw.to_owned(), "latest".to_owned()),
    }
}

/// The range recorded for a package added at its latest version `latest`:
/// `^latest`.
pub fn caret_range(latest: &str) -> (r: String)
    ensures
        r@ == "^"@ + latest@,
{
    let mut out: Vec<char> = chars_of("^");
    append_str(&mut out, latest);
    string_of(&out)
}

/// The last component of a package name: the name of the program that
/// `vee exec` and `vee create` look for.
pub open spec fn short_name(name: Seq<char>) -> Seq<char> {
    match rfind_char(name, '/') {
        Some(i) => name.skip(i + 1),
        None => name,
    }
}

/// The program name of the package `name`.
pub fn bin_short_name(name: &str) -> (r: String)
    ensures
        r@ == short_name(name@),
{
    let s = chars_of(name);
    match rfind(&s, '/') {
        Some(i) => {
            assert(i < s.len());
            let t = slice(&s, i + 1, s.len());
            assert(t@ =~= s@.skip(i + 1));
            string_of(&t)
        },
        None => name.to_owned(),
    }
}

/// `arg` quoted for `sh`: inside single quotes, each single quote written
/// as `'\''`.
pub open spec fn shell_quoted(arg: Seq<char>) -> Seq<char> {
    "'"@ + replace_all(arg, "'"@, "'\\''"@) + "'"@
}

/// The arguments `args` quoted for `sh`, each followed by a space but the
/// last.
pub open spec fn quoted_args(args: Seq<String>) -> Seq<char>
    decreases args.len(),
{
    if args.len() == 0 {
        seq![]
    } else if args.len() == 1 {
        shell_quoted(args[0]@)
    } else {
        quoted_args(args.drop_last()) + " "@ + shell_quoted(args.last()@)
    }
}

/// The command line that `vee run` gives `sh` for the script `script_cmd`
/// with the extra arguments `args`.
pub open spec fn run_command_line(script_cmd: Seq<char>, args: Seq<String>) -> Seq<char> {
    if args.len() == 0 {
        script_cmd
    } else {
        script_cmd + " "@ + quoted_args(args)
    }
}

/// `arg` quoted for `sh`.
pub fn shell_quote(arg: &str) -> (r: String)
    ensures
        r@ == shell_quoted(arg@),
{
    let s = chars_of(arg);
    let q = chars_of("'");
    let esc = chars_of("'\\''");
    let inner = replace_literal(&s, &q, &esc);
    let mut out: Vec<char> = chars_of("'");
    append_chars(&mut out, &inner);
    append_str(&mut out, "'");
    string_of(&out)
}

/// The command line of the script `script_cmd` run with the arguments
/// `args`.
pub fn script_command(script_cmd: &str, args: &Vec<String>) -> (r: String)
    ensures
        r@ == run_command_line(script_cmd@, args@),
{
    if args.len() == 0 {
        return script_cmd.to_owned();
    }
    let mut out: Vec<char> = chars_of(script_cmd);
    append_str(&mut out, " ");
    let ghost head = script_cmd@ + " "@;
    let mut i: usize = 0;
    while i < args.len()
        invariant
            1 <= args@.len(),
            i <= args@.len(),
            i == 0 ==> out@ == head,
            i > 0 ==> out@ == head + quoted_args(args@.take(i as int)),
        decreases args@.len() - i,
    {
        let ghost before = out@;
        if i > 0 {
            append_str(&mut out, " ");
        }
        let quoted = shell_quote(args[i].as_str());
        let qc = chars_of(quoted.as_str());
        append_chars(&mut out, &qc);
        proof {
            let t = args@.take(i + 1);
            assert(t.drop_last() =~= args@.take(i as int));
            assert(t.last() == args@[i as int]);
            if i == 0 {
                assert(t =~= seq![args@[0]]);
            }
        }
        i = i + 1;
    }
    assert(args@.take(args@.len() as int) =~= args@);
    string_of(&out)
}

/// The scripts run before and after the script `script`: `pre<script>` and
/// `post<script>`.
pub fn hook_names(script: &str) -> (r: (String, String))
    ensures
        r.0@ == "pre"@ + script@,
        r.1@ == "post"@ + script@,
{
    let mut pre: Vec<char> = chars_of("pre");
    append_str(&mut pre, script);
    let mut post: Vec<char> = chars_of("post");
    append_str(&mut post, script);
    (string_of(&pre), string_of(&post))
}

/// The dependencies that a project with the manifest `package` resolves,
/// by name in ascending order: its dependencies, then its development
/// dependencies unless `production`, then its optional dependencies, a later
/// range taking the place of an earlier one for the same name.
pub open spec fn requested(package: PackageJson, production: bool) -> Seq<(Seq<char>, Seq<char>)> {
    let deps = insert_all_ordered(seq![], str_entries(package.dependencies@));
    let with_dev = if production {
        deps
    } else {
        insert_all_ordered(deps, str_entries(package.dev_dependencies@))
    };
    insert_all_ordered(with_dev, str_entries(package.optional_dependencies@))
}

/// The dependencies to resolve for the project with the manifest
/// `package`, without its development dependencies where `production`.
pub fn requested_deps(package: &PackageJson, production: bool) -> (r: StrMap<String>)
    ensures
        str_entries(r@) == requested(*package, production),
        sorted_keys(r@),
{
    let mut r: StrMap<String> = StrMap::new();
    assert(str_entries(r@) =~= Seq::<(Seq<char>, Seq<char>)>::empty());
    merge_ordered(&mut r, &package.dependencies);
    if !production {
        merge_ordered(&mut r, &package.dev_dependencies);
    }
    merge_ordered(&mut r, &package.optional_dependencies);
    r
}

/// The optional dependencies of the project with the manifest `package`,
/// by name.
pub fn optional_names(package: &PackageJson) -> (r: StrMap<()>)
    ensures
        keys_of(r@) == keys_of(package.optional_dependencies@),
{
    let mut r: StrMap<()> = StrMap::new();
    let m = &package.optional_dependencies;
    let _ = m.unique();
    let mut i: usize = 0;
    while i < m.len()
        invariant
            i <= m@.len(),
            crate::strmap::distinct_keys(m@),
            keys_of(r@) == keys_of(m@).take(i as int),
        decreases m@.len() - i,
    {
        let k = m.key_at(i).clone();
        proof {
            assert(keys_of(r@).len() == i);
            assert forall|j: int| 0 <= j < r@.len() implies r@[j].0 != k@ by {
                assert(keys_of(r@)[j] == keys_of(m@).take(i as int)[j]);
                assert(m@[j].0 != m@[i as int].0);
            }
            lemma_index_of_key(r@, k@);
        }
        let ghost before = r@;
        r.insert(k, ());
        proof {
            assert(r@ == before.push((k@, ())));
            assert(keys_of(r@) =~= keys_of(m@).take(i + 1));
        }
        i = i + 1;
    }
    assert(keys_of(m@).take(m@.len() as int) =~= keys_of(m@));
    r
}

/// The version that the lockfile has for the package `key`.
pub open spec fn locked_version(lockfile: Option<Lockfile>, key: Seq<char>) -> Option<Seq<char>> {
    match lockfile {
        Some(lf) => match lookup(lf.packages@, key) {
            Some(p) => Some(p.version@),
            None => None,
        },
        None => None,
    }
}

/// The version of the package `key` in `lockfile`, if there is one.
pub fn lf_version(lockfile: &Option<Lockfile>, key: &str) -> (r: Option<String>)
    ensures
        crate::cache::opt_text(r) == locked_version(*lockfile, key@),
{
    match lockfile {
        Some(lf) => match lf.packages.get(key) {
            Some(p) => Some(p.version.clone()),
            None => None,
        },
        None => None,
    }
}

/// The version that the lockfile has for the project's dependency `name`.
pub open spec fn installed(lockfile: Option<Lockfile>, name: Seq<char>) -> Option<Seq<char>> {
    match lockfile {
        Some(lf) => match lookup(lf.root_resolved@, name) {
            Some(key) => locked_version(lockfile, key@),
            None => None,
        },
        None => None,
    }
}

/// The version installed for the project's dependency `name`, as the
/// lockfile records it.
pub fn installed_version(lockfile: &Option<Lockfile>, name: &str) -> (r: Option<String>)
    ensures
        crate::cache::opt_text(r) == installed(*lockfile, name@),
{
    match lockfile {
        Some(lf) => match lf.root_resolved.get(name) {
            Some(key) => lf_version(lockfile, key.as_str()),
            None => None,
        },
        None => None,
    }
}

/// The version shown for a dependency: the installed one, or `???`.
pub open spec fn shown_version(v: Option<Seq<char>>) -> Seq<char> {
    match v {
        Some(x) => x,
        None => "???"@,
    }
}

/// The text of triples of strings.
pub open spec fn triples_view(v: Seq<(String, String, String)>) -> Seq<(Seq<char>, Seq<char>, Seq<char>)> {
    v.map_values(|e: (String, String, String)| (e.0@, e.1@, e.2@))
}

/// The rows that `vee list` shows for the dependencies `deps`: each name
/// with its installed version (or `???`) and its range.
pub open spec fn list_rows_of(deps: Seq<(Seq<char>, String)>, lockfile: Option<Lockfile>) -> Seq<(Seq<char>, Seq<char>, Seq<char>)> {
    deps.map_values(|e: (Seq<char>, String)| (e.0, shown_version(installed(lockfile, e.0)), e.1@))
}

/// What `vee list` shows for the dependencies `deps`.
///
/// The dependencies come by name in ascending order, so the rows do too.
pub fn list_rows(deps: &StrMap<String>, lockfile: &Option<Lockfile>) -> (r: Vec<(String, String, String)>)
    requires
        sorted_keys(deps@),
    ensures
        forall|i: int, j: int| 0 <= i < j < r@.len() ==> seq_lt(#[trigger] r@[i].0@, #[trigger] r@[j].0@),
        triples_view(r@) == list_rows_of(deps@, *lockfile),
{
    let mut out: Vec<(String, String, String)> = Vec::new();
    let mut i: usize = 0;
    while i < deps.len()
        invariant
            i <= deps@.len(),
            triples_view(out@) == list_rows_of(deps@, *lockfile).take(i as int),
        decreases deps@.len() - i,
    {
        let name = deps.key_at(i);
        let version = match installed_version(lockfile, name.as_str()) {
            Some(v) => v,
            None => "???".to_owned(),
        };
        let ghost o0 = out@;
        out.push((name.clone(), version, deps.value_at(i).clone()));
        proof {
            assert(triples_view(out@) =~= triples_view(o0).push(list_rows_of(deps@, *lockfile)[i as int]));
            assert(list_rows_of(deps@, *lockfile).take(i + 1) =~= list_rows_of(deps@, *lockfile).take(i as int).push(list_rows_of(deps@, *lockfile)[i as int]));
        }
        i = i + 1;
    }
    assert(list_rows_of(deps@, *lockfile).take(deps@.len() as int) =~= list_rows_of(deps@, *lockfile));
    assert forall|i: int, j: int| 0 <= i < j < out@.len() implies seq_lt(#[trigger] out@[i].0@, #[trigger] out@[j].0@) by {
        assert(triples_view(out@)[i].0 == deps@[i].0);
        assert(triples_view(out@)[j].0 == deps@[j].0);
    }
    out
}

/// The position of the first entry from `i` on whose key begins with `p`,
/// if any.
pub open spec fn first_prefixed<V>(s: Seq<(Seq<char>, V)>, p: Seq<char>, i: int) -> Option<int>
    decreases s.len() - i,
{
    if i < 0 || i >= s.len() {
        None
    } else if crate::text::starts_with(s[i].0, p) {
        Some(i)
    } else {
        first_prefixed(s, p, i + 1)
    }
}

/// The package that the tree shows for the project's dependency `name`:
/// the one the lockfile resolved it to, else the first package whose key
/// begins with `name@`.
pub open spec fn tree_key(lf: Lockfile, name: Seq<char>) -> Option<Seq<char>> {
    match lookup(lf.root_resolved@, name) {
        Some(k) => Some(k@),
        None => match first_prefixed(lf.packages@, name + "@"@, 0) {
            Some(i) => Some(lf.packages@[i].0),
            None => None,
        },
    }
}

/// The dependencies of the locked package `lp` as the tree shows them: each
/// name with the version it was resolved to, or `???`.
pub open spec fn tree_children(lf: Lockfile, lp: LockedPackage) -> Seq<(Seq<char>, Seq<char>)> {
    keys_of(lp.dependencies@).map_values(|d: Seq<char>| (d, shown_version(match lookup(lp.resolved_deps@, d) {
        Some(k) => locked_version(Some(lf), k@),
        None => None,
    })))
}

/// One entry of the dependency tree.
pub enum TreeLine {
    /// A dependency with its version and range, and the dependencies of its
    /// package with their versions.
    Installed { name: String, version: String, range: String, children: Vec<(String, String)> },
    /// A dependency that the lockfile does not have.
    NotInstalled { name: String },
}

/// The text of a line of the tree: the name, and for an installed
/// dependency its version, range and children.
pub open spec fn line_view(l: TreeLine) -> (Seq<char>, Option<(Seq<char>, Seq<char>, Seq<(Seq<char>, Seq<char>)>)>) {
    match l {
        TreeLine::Installed { name, version, range, children } => (name@, Some((version@, range@, crate::linker::pairs_view(children@)))),
        TreeLine::NotInstalled { name } => (name@, None),
    }
}

/// The line of the tree for the dependency `name` with range `range`, if
/// it has one: nothing where the lockfile names a package it does not have.
pub open spec fn tree_line_of(lf: Lockfile, name: Seq<char>, range: Seq<char>) -> Option<(Seq<char>, Option<(Seq<char>, Seq<char>, Seq<(Seq<char>, Seq<char>)>)>)> {
    match tree_key(lf, name) {
        None => Some((name, None)),
        Some(k) => match lookup(lf.packages@, k) {
            Some(lp) => Some((name, Some((lp.version@, range, tree_children(lf, lp))))),
            None => None,
        },
    }
}

/// The text of an optional line of the tree.
pub open spec fn opt_line_view(l: Option<TreeLine>) -> Option<(Seq<char>, Option<(Seq<char>, Seq<char>, Seq<(Seq<char>, Seq<char>)>)>)> {
    match l {
        Some(x) => Some(line_view(x)),
        None => None,
    }
}

/// The lines of the tree for the dependencies `deps`.
pub open spec fn tree_of(lf: Lockfile, deps: Seq<(Seq<char>, String)>) -> Seq<(Seq<char>, Option<(Seq<char>, Seq<char>, Seq<(Seq<char>, Seq<char>)>)>)> {
    crate::linker::present(deps.map_values(|e: (Seq<char>, String)| tree_line_of(lf, e.0, e.1@)))
}

/// Executable form of [`tree_key`].
fn find_tree_key(lf: &Lockfile, name: &str) -> (r: Option<String>)
    ensures
        crate::cache::opt_text(r) == tree_key(*lf, name@),
{
    match lf.root_resolved.get(name) {
        Some(k) => Some(k.clone()),
        None => {
            let mut p: Vec<char> = chars_of(name);
            append_str(&mut p, "@");
            let mut i: usize = 0;
            while i < lf.packages.len()
                invariant
                    p@ == name@ + "@"@,
                    lookup(lf.root_resolved@, name@) is None,
                    i <= lf.packages@.len(),
                    first_prefixed(lf.packages@, p@, i as int) == first_prefixed(lf.packages@, p@, 0),
                decreases lf.packages@.len() - i,
            {
                let k = chars_of(lf.packages.key_at(i).as_str());
                if crate::text::has_prefix(&k, &p) {
                    assert(first_prefixed(lf.packages@, p@, i as int) == Some(i as int));
                    return Some(lf.packages.key_at(i).clone());
                }
                i = i + 1;
            }
            None
        },
    }
}

/// Executable form of [`tree_children`].
fn children_of(lf: &Lockfile, lp: &LockedPackage) -> (r: Vec<(String, String)>)
    ensures
        crate::linker::pairs_view(r@) == tree_children(*lf, *lp),
{
    let lfo: Option<Lockfile> = None;
    let mut out: Vec<(String, String)> = Vec::new();
    let ghost t = tree_children(*lf, *lp);
    let mut i: usize = 0;
    while i < lp.dependencies.len()
        invariant
            t == tree_children(*lf, *lp),
            i <= lp.dependencies@.len(),
            crate::linker::pairs_view(out@) == t.take(i as int),
        decreases lp.dependencies@.len() - i,
    {
        let d = lp.dependencies.key_at(i);
        let v = match lp.resolved_deps.get(d.as_str()) {
            Some(k) => match lf.packages.get(k.as_str()) {
                Some(q) => q.version.clone(),
                None => "???".to_owned(),
            },
            None => "???".to_owned(),
        };
        let ghost o0 = out@;
        out.push((d.clone(), v));
        proof {
            assert(crate::linker::pairs_view(out@) =~= crate::linker::pairs_view(o0).push(t[i as int]));
            assert(t.take(i + 1) =~= t.take(i as int).push(t[i as int]));
        }
        i = i + 1;
    }
    assert(t.take(t.len() as int) =~= t);
    out
}

/// The dependency tree that `vee list --tree` shows for the dependencies
/// `deps`.
pub fn dep_tree(deps: &StrMap<String>, lf: &Lockfile) -> (r: Vec<TreeLine>)
    ensures
        r@.map_values(|l: TreeLine| line_view(l)) == tree_of(*lf, deps@),
{
    let mut out: Vec<TreeLine> = Vec::new();
    let ghost c = deps@.map_values(|e: (Seq<char>, String)| tree_line_of(*lf, e.0, e.1@));
    let mut i: usize = 0;
    while i < deps.len()
        invariant
            c == deps@.map_values(|e: (Seq<char>, String)| tree_line_of(*lf, e.0, e.1@)),
            i <= deps@.len(),
            out@.map_values(|l: TreeLine| line_view(l)) == crate::linker::present(c.take(i as int)),
        decreases deps@.len() - i,
    {
        let name = deps.key_at(i);
        let range = deps.value_at(i);
        let ghost o0 = out@;
        let line: Option<TreeLine> = match find_tree_key(lf, name.as_str()) {
            None => Some(TreeLine::NotInstalled { name: name.clone() }),
            Some(k) => match lf.packages.get(k.as_str()) {
                Some(lp) => Some(TreeLine::Installed {
                    name: name.clone(),
                    version: lp.version.clone(),
                    range: range.clone(),
                    children: children_of(lf, lp),
                }),
                None => None,
            },
        };
        let ghost lv = opt_line_view(line);
        assert(lv == c[i as int]);
        match line {
            Some(l) => out.push(l),
            None => {},
        }
        proof {
            let t = c.take(i + 1);
            assert(t.drop_last() =~= c.take(i as int));
            assert(out@.map_values(|l: TreeLine| line_view(l)) =~= match lv {
                Some(x) => o0.map_values(|l: TreeLine| line_view(l)).push(x),
                None => o0.map_values(|l: TreeLine| line_view(l)),
            });
        }
        i = i + 1;
    }
    assert(c.take(c.len() as int) =~= c);
    out
}

/// The first of `names` from position `i` on that `requested` does not
/// have, if any.
pub open spec fn first_unknown(names: Seq<String>, requested: Seq<(Seq<char>, String)>, i: int) -> Option<Seq<char>>
    decreases names.len() - i,
{
    if i < 0 || i >= names.len() {
        None
    } else if !has_key(requested, names[i]@) {
        Some(names[i]@)
    } else {
        first_unknown(names, requested, i + 1)
    }
}

/// The text of each of `v`.
pub open spec fn texts_of(v: Seq<String>) -> Seq<Seq<char>> {
    v.map_values(|x: String| x@)
}

/// Which dependencies `vee update` reports on: the packages named, each of
/// which must be among the dependencies `requested`, or all of them where
/// none is named.
pub fn update_targets(requested: &StrMap<String>, packages: &Vec<String>) -> (r: Result<Vec<String>, String>)
    ensures
        match r {
            Ok(v) => first_unknown(packages@, requested@, 0) is None && texts_of(v@) == if packages@.len() == 0 {
                keys_of(requested@)
            } else {
                texts_of(packages@)
            },
            Err(m) => first_unknown(packages@, requested@, 0) matches Some(n)
                && m@ == "package "@ + n + " not found in dependencies"@,
        },
{
    let mut i: usize = 0;
    while i < packages.len()
        invariant
            i <= packages@.len(),
            first_unknown(packages@, requested@, i as int) == first_unknown(packages@, requested@, 0),
        decreases packages@.len() - i,
    {
        if !requested.contains_key(packages[i].as_str()) {
            let mut m: Vec<char> = chars_of("package ");
            append_str(&mut m, packages[i].as_str());
            append_str(&mut m, " not found in dependencies");
            return Err(string_of(&m));
        }
        i = i + 1;
    }
    let mut out: Vec<String> = Vec::new();
    if packages.len() == 0 {
        let mut k: usize = 0;
        while k < requested.len()
            invariant
                k <= requested@.len(),
                texts_of(out@) == keys_of(requested@).take(k as int),
            decreases requested@.len() - k,
        {
            let ghost o0 = out@;
            out.push(requested.key_at(k).clone());
            proof {
                assert(texts_of(out@) =~= texts_of(o0).push(requested@[k as int].0));
                assert(keys_of(requested@).take(k + 1) =~= keys_of(requested@).take(k as int).push(requested@[k as int].0));
            }
            k = k + 1;
        }
        assert(keys_of(requested@).take(requested@.len() as int) =~= keys_of(requested@));
    } else {
        let mut k: usize = 0;
        while k < packages.len()
            invariant
                k <= packages@.len(),
                texts_of(out@) == texts_of(packages@).take(k as int),
            decreases packages@.len() - k,
        {
            let ghost o0 = out@;
            out.push(packages[k].clone());
            proof {
                assert(texts_of(out@) =~= texts_of(o0).push(packages@[k as int]@));
                assert(texts_of(packages@).take(k + 1) =~= texts_of(packages@).take(k as int).push(packages@[k as int]@));
            }
            k = k + 1;
        }
        assert(texts_of(packages@).take(packages@.len() as int) =~= texts_of(packages@));
    }
    Ok(out)
}

/// What `vee update` reports for the dependency `name`, going from the
/// lockfile `old` to `new`: a change of version, or a dependency that had
/// none.
pub open spec fn update_line(old: Option<Lockfile>, new: Lockfile, name: Seq<char>) -> Option<Seq<char>> {
    match (installed(old, name), installed(Some(new), name)) {
        (Some(o), Some(n)) => if o != n {
            Some("updating "@ + name + " from "@ + o + " to "@ + n)
        } else {
            None
        },
        (None, Some(n)) => Some(name + ": (new) "@ + n),
        _ => None,
    }
}

/// The lines that `vee update` reports for the dependencies `names`.
pub open spec fn update_lines(old: Option<Lockfile>, new: Lockfile, names: Seq<String>) -> Seq<Seq<char>> {
    crate::linker::present(names.map_values(|n: String| update_line(old, new, n@)))
}

/// What `vee update` reports for the dependencies `names`, the lockfile
/// going from `old` to `new`: one line for each dependency that changed.
pub fn update_report(names: &Vec<String>, old: &Option<Lockfile>, new: &Lockfile) -> (r: Vec<String>)
    ensures
        texts_of(r@) == update_lines(*old, *new, names@),
{
    let new_opt: Option<&Lockfile> = Some(new);
    let mut out: Vec<String> = Vec::new();
    let ghost c = names@.map_values(|n: String| update_line(*old, *new, n@));
    let mut i: usize = 0;
    while i < names.len()
        invariant
            c == names@.map_values(|n: String| update_line(*old, *new, n@)),
            i <= names@.len(),
            texts_of(out@) == crate::linker::present(c.take(i as int)),
        decreases names@.len() - i,
    {
        let name = names[i].as_str();
        let old_ver = installed_version(old, name);
        let new_ver = match new.root_resolved.get(name) {
            Some(key) => match new.packages.get(key.as_str()) {
                Some(p) => Some(p.version.clone()),
                None => None,
            },
            None => None,
        };
        assert(crate::cache::opt_text(new_ver) == installed(Some(*new), name@));
        let line: Option<String> = match (old_ver, new_ver) {
            (Some(o), Some(n)) => {
                let oc = chars_of(o.as_str());
                let nc = chars_of(n.as_str());
                if !crate::text::same_chars(&oc, &nc) {
                    let mut m: Vec<char> = chars_of("updating ");
                    append_str(&mut m, name);
                    append_str(&mut m, " from ");
                    append_chars(&mut m, &oc);
                    append_str(&mut m, " to ");
                    append_chars(&mut m, &nc);
                    Some(string_of(&m))
                } else {
                    None
                }
            },
            (None, Some(n)) => {
                let mut m: Vec<char> = chars_of(name);
                append_str(&mut m, ": (new) ");
                append_str(&mut m, n.as_str());
                Some(string_of(&m))
            },
            _ => None,
        };
        assert(crate::cache::opt_text(line) == c[i as int]);
        let ghost o0 = out@;
        match line {
            Some(l) => out.push(l),
            None => {},
        }
        proof {
            let t = c.take(i + 1);
            assert(t.drop_last() =~= c.take(i as int));
            assert(texts_of(out@) =~= match c[i as int] {
                Some(x) => texts_of(o0).push(x),
                None => texts_of(o0),
            });
        }
        i = i + 1;
    }
    assert(c.take(c.len() as int) =~= c);
    out
}

/// The row that `vee outdated` shows for the dependency `name` with range
/// `range`, installed at `current` (`???` where it is not) and whose latest
/// version is `latest`: shown where the two differ, or always where
/// `verbose`.
pub open spec fn outdated_row_of(name: Seq<char>, current: Option<Seq<char>>, range: Seq<char>, latest: Seq<char>, verbose: bool) -> Option<(Seq<char>, Seq<char>, Seq<char>, Seq<char>)> {
    if shown_version(current) != latest || verbose {
        Some((name, shown_version(current), range, latest))
    } else {
        None
    }
}

/// The rows of `vee outdated` for the dependencies `deps`, where `latest[i]`
/// is the latest version the registry gave for the `i`-th one, or `None`
/// where asking for it failed: in the order of `deps`, the row of each one
/// asked that [`outdated_row_of`] shows.
pub open spec fn outdated_rows_of(
    deps: Seq<(Seq<char>, String)>,
    lockfile: Option<Lockfile>,
    latest: Seq<Option<Seq<char>>>,
    verbose: bool,
) -> Seq<(Seq<char>, Seq<char>, Seq<char>, Seq<char>)>
    decreases deps.len(),
{
    if deps.len() == 0 {
        seq![]
    } else {
        let n = deps.len() - 1;
        outdated_rows_of(deps.drop_last(), lockfile, latest.take(n), verbose) + match latest[n] {
            Some(l) => match outdated_row_of(deps[n].0, installed(lockfile, deps[n].0), deps[n].1@, l, verbose) {
                Some(row) => seq![row],
                None => seq![],
            },
            None => seq![],
        }
    }
}

/// The text of a row of four strings.
pub open spec fn row_view(r: (String, String, String, String)) -> (Seq<char>, Seq<char>, Seq<char>, Seq<char>) {
    (r.0@, r.1@, r.2@, r.3@)
}

/// The row of `vee outdated` for one dependency, if it is shown.
pub fn outdated_row(name: &str, current: Option<String>, range: &str, latest: &str, verbose: bool) -> (r: Option<(String, String, String, String)>)
    ensures
        match r {
            Some(row) => outdated_row_of(name@, crate::cache::opt_text(current), range@, latest@, verbose) == Some(row_view(row)),
            None => outdated_row_of(name@, crate::cache::opt_text(current), range@, latest@, verbose) is None,
        },
{
    let cur = match current {
        Some(c) => c,
        None => "???".to_owned(),
    };
    let cc = chars_of(cur.as_str());
    let lc = chars_of(latest);
    if !crate::text::same_chars(&cc, &lc) || verbose {
        Some((name.to_owned(), cur, range.to_owned(), latest.to_owned()))
    } else {
        None
    }
}

/// The texts of optional strings.
pub open spec fn opt_texts(v: Seq<Option<String>>) -> Seq<Option<Seq<char>>> {
    v.map_values(|o: Option<String>| crate::cache::opt_text(o))
}

/// The rows of `vee outdated` for the dependencies `deps`, given for each of
/// them the latest version the registry gave, or `None` where asking failed.
///
/// The dependencies come by name in ascending order, so the rows do too.
pub fn outdated_rows(
    deps: &StrMap<String>,
    lockfile: &Option<Lockfile>,
    latest: &Vec<Option<String>>,
    verbose: bool,
) -> (r: Vec<(String, String, String, String)>)
    requires
        latest@.len() == deps@.len(),
        sorted_keys(deps@),
    ensures
        r@.map_values(|row: (String, String, String, String)| row_view(row)) == outdated_rows_of(
            deps@,
            *lockfile,
            opt_texts(latest@),
            verbose,
        ),
        forall|i: int, j: int| 0 <= i < j < r@.len() ==> seq_lt(#[trigger] r@[i].0@, #[trigger] r@[j].0@),
{
    let mut out: Vec<(String, String, String, String)> = Vec::new();
    let ghost lt = opt_texts(latest@);
    let mut i: usize = 0;
    // Each row kept so far came from a dependency before `i`.
    let ghost mut from: Seq<int> = seq![];
    while i < deps.len()
        invariant
            i <= deps@.len(),
            latest@.len() == deps@.len(),
            lt == opt_texts(latest@),
            sorted_keys(deps@),
            out@.map_values(|row: (String, String, String, String)| row_view(row)) == outdated_rows_of(
                deps@.take(i as int),
                *lockfile,
                lt.take(i as int),
                verbose,
            ),
            from.len() == out@.len(),
            forall|k: int| 0 <= k < from.len() ==> 0 <= #[trigger] from[k] < i && out@[k].0@ == deps@[from[k]].0,
            forall|k: int, l: int| 0 <= k < l < from.len() ==> #[trigger] from[k] < #[trigger] from[l],
        decreases deps@.len() - i,
    {
        let name = deps.key_at(i);
        let range = deps.value_at(i);
        let current = installed_version(lockfile, name.as_str());
        let ghost o0 = out@;
        proof {
            let d = deps@.take(i + 1);
            assert(d.drop_last() =~= deps@.take(i as int));
            assert(lt.take(i + 1).take(i as int) =~= lt.take(i as int));
            assert(d[i as int] == deps@[i as int]);
            assert(lt.take(i + 1)[i as int] == lt[i as int]);
        }
        match &latest[i] {
            Some(l) => {
                match outdated_row(name.as_str(), current, range.as_str(), l.as_str(), verbose) {
                    Some(row) => {
                        out.push(row);
                        proof {
                            assert(out@.map_values(|row: (String, String, String, String)| row_view(row)) =~= o0.map_values(
                                |row: (String, String, String, String)| row_view(row),
                            ).push(row_view(row)));
                            from = from.push(i as int);
                        }
                    },
                    None => {},
                }
            },
            None => {},
        }
        i = i + 1;
    }
    proof {
        assert(deps@.take(deps@.len() as int) =~= deps@);
        assert(lt.take(deps@.len() as int) =~= lt);
        assert forall|a: int, b: int| 0 <= a < b < out@.len() implies seq_lt(#[trigger] out@[a].0@, #[trigger] out@[b].0@) by {
            assert(from[a] < from[b]);
        }
    }
    out
}

/// The number of bytes of the UTF-8 form of `s`, as `str::len` gives it.
pub open spec fn byte_len(s: Seq<char>) -> int {
    (vstd::utf8::encode_utf8(s).len() as usize) as int
}

/// The widest of `floor` and the byte lengths of the `column`th fields of
/// the first `n` rows.
pub open spec fn column_width(rows: Seq<(String, String, String, String)>, column: int, floor: int, n: int) -> int
    decreases n,
{
    if n <= 0 {
        floor
    } else {
        let w = column_width(rows, column, floor, n - 1);
        let r = rows[n - 1];
        let l = if column == 0 {
            byte_len(r.0@)
        } else if column == 1 {
            byte_len(r.1@)
        } else if column == 2 {
            byte_len(r.2@)
        } else {
            byte_len(r.3@)
        };
        if l > w {
            l
        } else {
            w
        }
    }
}

/// The widths of the columns of the table of `vee outdated`: the longest
/// field of each column in bytes, and at least 7, 7, 6 and 6.
pub fn column_widths(rows: &Vec<(String, String, String, String)>) -> (r: (usize, usize, usize, usize))
    ensures
        r.0 == column_width(rows@, 0, 7, rows@.len() as int),
        r.1 == column_width(rows@, 1, 7, rows@.len() as int),
        r.2 == column_width(rows@, 2, 6, rows@.len() as int),
        r.3 == column_width(rows@, 3, 6, rows@.len() as int),
{
    let mut w0: usize = 7;
    let mut w1: usize = 7;
    let mut w2: usize = 6;
    let mut w3: usize = 6;
    let mut i: usize = 0;
    while i < rows.len()
        invariant
            i <= rows@.len(),
            w0 == column_width(rows@, 0, 7, i as int),
            w1 == column_width(rows@, 1, 7, i as int),
            w2 == column_width(rows@, 2, 6, i as int),
            w3 == column_width(rows@, 3, 6, i as int),
        decreases rows@.len() - i,
    {
        let r = &rows[i];
        let l0 = r.0.as_str().len();
        let l1 = r.1.as_str().len();
        let l2 = r.2.as_str().len();
        let l3 = r.3.as_str().len();
        assert(l0 == byte_len(rows@[i as int].0@));
        assert(l1 == byte_len(rows@[i as int].1@));
        assert(l2 == byte_len(rows@[i as int].2@));
        assert(l3 == byte_len(rows@[i as int].3@));
        assert(column_width(rows@, 0, 7, i + 1) == if l0 > w0 { l0 as int } else { w0 as int });
        assert(column_width(rows@, 1, 7, i + 1) == if l1 > w1 { l1 as int } else { w1 as int });
        assert(column_width(rows@, 2, 6, i + 1) == if l2 > w2 { l2 as int } else { w2 as int });
        assert(column_width(rows@, 3, 6, i + 1) == if l3 > w3 { l3 as int } else { w3 as int });
        if l0 > w0 {
            w0 = l0;
        }
        if l1 > w1 {
            w1 = l1;
        }
        if l2 > w2 {
            w2 = l2;
        }
        if l3 > w3 {
            w3 = l3;
        }
        i = i + 1;
    }
    (w0, w1, w2, w3)
}

/// The number of the first `n` rows whose installed version differs from
/// the latest one.
pub open spec fn outdated_in(rows: Seq<(String, String, String, String)>, n: int) -> int
    decreases n,
{
    if n <= 0 {
        0
    } else if rows[n - 1].1@ != rows[n - 1].3@ {
        outdated_in(rows, n - 1) + 1
    } else {
        outdated_in(rows, n - 1)
    }
}

/// How many of the rows of `vee outdated` are behind the latest version.
pub fn outdated_count(rows: &Vec<(String, String, String, String)>) -> (r: usize)
    ensures
        r == outdated_in(rows@, rows@.len() as int),
{
    let mut c: usize = 0;
    let mut i: usize = 0;
    while i < rows.len()
        invariant
            i <= rows@.len(),
            c == outdated_in(rows@, i as int),
            c <= i,
        decreases rows@.len() - i,
    {
        let a = chars_of(rows[i].1.as_str());
        let b = chars_of(rows[i].3.as_str());
        if !crate::text::same_chars(&a, &b) {
            c = c + 1;
        }
        i = i + 1;
    }
    c
}

/// Whether the lockfile `lf` was made for exactly the dependencies `deps`.
pub open spec fn lock_matches(lf: Lockfile, deps: Seq<(Seq<char>, String)>) -> bool {
    forall|k: Seq<char>| #[trigger] lookup(str_entries(lf.root_deps@), k) == lookup(str_entries(deps), k)
}

/// Whether `vee install` uses the lockfile `existing` for the dependencies
/// `root_deps` (`true`) or resolves again (`false`); with `frozen` a
/// missing or outdated lockfile is an error instead.
pub fn lockfile_choice(existing: &Option<Lockfile>, root_deps: &StrMap<String>, frozen: bool) -> (r: Result<bool, String>)
    ensures
        match r {
            Ok(true) => *existing matches Some(lf) && lock_matches(lf, root_deps@),
            Ok(false) => !frozen && !(*existing matches Some(lf) && lock_matches(lf, root_deps@)),
            Err(m) => frozen && !(*existing matches Some(lf) && lock_matches(lf, root_deps@)) && m@ == if existing is None {
                "--frozen-lockfile: no vee.lock found"@
            } else {
                "--frozen-lockfile: vee.lock is out of date"@
            },
        },
{
    let current = match existing {
        Some(lf) => lf.is_current(root_deps),
        None => false,
    };
    if current {
        Ok(true)
    } else if frozen {
        match existing {
            None => Err("--frozen-lockfile: no vee.lock found".to_owned()),
            Some(_) => Err("--frozen-lockfile: vee.lock is out of date".to_owned()),
        }
    } else {
        Ok(false)
    }
}

/// The keys of the first `n` packages of `ps` whose name is among
/// `optional`.
pub open spec fn optional_keys_upto(ps: Seq<(Seq<char>, crate::resolver::PackageInfo)>, optional: Seq<(Seq<char>, ())>, n: int) -> Seq<Seq<char>>
    decreases n,
{
    if n <= 0 {
        seq![]
    } else if has_key(optional, ps[n - 1].1.name@) {
        optional_keys_upto(ps, optional, n - 1).push(ps[n - 1].0)
    } else {
        optional_keys_upto(ps, optional, n - 1)
    }
}

/// The packages of `result` that the project depends on optionally: those
/// whose name is among `optional`.
pub fn optional_keys(result: &ResolveResult, optional: &StrMap<()>) -> (r: Vec<String>)
    ensures
        texts_of(r@) == optional_keys_upto(result.packages@, optional@, result.packages@.len() as int),
{
    let mut out: Vec<String> = Vec::new();
    let mut i: usize = 0;
    while i < result.packages.len()
        invariant
            i <= result.packages@.len(),
            texts_of(out@) == optional_keys_upto(result.packages@, optional@, i as int),
        decreases result.packages@.len() - i,
    {
        let ghost o0 = out@;
        if optional.contains_key(result.packages.value_at(i).name.as_str()) {
            out.push(result.packages.key_at(i).clone());
            assert(texts_of(out@) =~= texts_of(o0).push(result.packages@[i as int].0));
        }
        i = i + 1;
    }
    out
}

/// The strings `v` joined with `sep` between them.
pub open spec fn joined(v: Seq<Seq<char>>, sep: Seq<char>) -> Seq<char>
    decreases v.len(),
{
    if v.len() == 0 {
        seq![]
    } else if v.len() == 1 {
        v[0]
    } else {
        joined(v.drop_last(), sep) + sep + v.last()
    }
}

/// What `vee run` says when the manifest has no script `script`: that it
/// has none at all, or which ones it has.
pub open spec fn missing_script_text(script: Seq<char>, names: Seq<Seq<char>>) -> Seq<char> {
    if names.len() == 0 {
        "no scripts defined in package.json"@
    } else {
        "script '"@ + script + "' not found. available: "@ + joined(names, ", "@)
    }
}

/// The error of `vee run` for a script `script` that the manifest, with the
/// scripts `scripts`, does not have.
///
/// The scripts come by name in ascending order, so the names listed do too.
pub fn missing_script_message(script: &str, scripts: &StrMap<String>) -> (r: String)
    requires
        sorted_keys(scripts@),
    ensures
        forall|i: int, j: int|
            0 <= i < j < keys_of(scripts@).len() ==> seq_lt(#[trigger] keys_of(scripts@)[i], #[trigger] keys_of(scripts@)[j]),
        r@ == missing_script_text(script@, keys_of(scripts@)),
{
    if scripts.len() == 0 {
        return "no scripts defined in package.json".to_owned();
    }
    let mut out: Vec<char> = chars_of("script '");
    append_str(&mut out, script);
    append_str(&mut out, "' not found. available: ");
    let ghost head = out@;
    let ghost names = keys_of(scripts@);
    let mut i: usize = 0;
    while i < scripts.len()
        invariant
            names == keys_of(scripts@),
            1 <= names.len(),
            i <= names.len(),
            i == 0 ==> out@ == head,
            i > 0 ==> out@ == head + joined(names.take(i as int), ", "@),
        decreases names.len() - i,
    {
        if i > 0 {
            append_str(&mut out, ", ");
        }
        append_str(&mut out, scripts.key_at(i).as_str());
        proof {
            let t = names.take(i + 1);
            assert(t.drop_last() =~= names.take(i as int));
            assert(t.last() == names[i as int]);
            if i == 0 {
                assert(t =~= seq![names[0]]);
            }
        }
        i = i + 1;
    }
    assert(names.take(names.len() as int) =~= names);
    string_of(&out)
}

/// The warning shown for an unmet peer dependency, before it is put in
/// lower case.
pub open spec fn peer_warning_text(w: PeerWarning) -> Seq<char> {
    match w.found_version {
        Some(v) => w.package@ + " requires peer "@ + w.peer_name@ + " '"@ + w.required_range@ + "', but "@ + v@
            + " is resolved"@,
        None => w.package@ + " requires peer "@ + w.peer_name@ + " '"@ + w.required_range@
            + "' which is not installed"@,
    }
}

/// The warning that `vee install` shows for the unmet peer dependency `w`,
/// in lower case.
pub fn peer_warning_message(w: &PeerWarning) -> (r: String)
    ensures
        r@ == lowercase_of(peer_warning_text(*w)),
{
    let mut m: Vec<char> = chars_of(w.package.as_str());
    append_str(&mut m, " requires peer ");
    append_str(&mut m, w.peer_name.as_str());
    append_str(&mut m, " '");
    append_str(&mut m, w.required_range.as_str());
    match &w.found_version {
        Some(v) => {
            append_str(&mut m, "', but ");
            let vt = v.to_text();
            append_str(&mut m, vt.as_str());
            append_str(&mut m, " is resolved");
        },
        None => {
            append_str(&mut m, "' which is not installed");
        },
    }
    let text = string_of(&m);
    to_lowercase(text.as_str())
}

/// The answer to a prompt of `vee init`: the line typed, blanks around it
/// aside, or `default` where nothing was typed.
pub fn prompt_answer(input: &str, default: &str) -> (r: String)
    ensures
        r@ == if crate::text::trim(input@).len() == 0 { default@ } else { crate::text::trim(input@) },
{
    let c = chars_of(input);
    let t = crate::text::trim_chars(&c);
    if t.len() == 0 {
        default.to_owned()
    } else {
        string_of(&t)
    }
}

/// Which program `vee exec` runs from the `.bin` directory of the package
/// `package_name`: the one named `short`, where it exists, else the only one
/// there is (`entries` lists them).
pub open spec fn exec_bin_of(package_name: Seq<char>, short: Seq<char>, exists: bool, entries: Seq<Seq<char>>) -> Result<Seq<char>, Seq<char>> {
    if exists {
        Ok(short)
    } else if entries.len() == 1 {
        Ok(entries[0])
    } else if entries.len() == 0 {
        Err("package '"@ + package_name + "' does not expose any binaries"@)
    } else {
        Err("failed to find bin '"@ + short + "'. available: "@ + joined(entries, ", "@))
    }
}

/// The strings `v` joined with `, `.
fn join_comma(v: &Vec<String>) -> (r: String)
    ensures
        r@ == joined(texts_of(v@), ", "@),
{
    let ghost names = texts_of(v@);
    let mut out: Vec<char> = Vec::new();
    let mut i: usize = 0;
    while i < v.len()
        invariant
            names == texts_of(v@),
            i <= names.len(),
            out@ == joined(names.take(i as int), ", "@),
        decreases names.len() - i,
    {
        if i > 0 {
            append_str(&mut out, ", ");
        }
        append_str(&mut out, v[i].as_str());
        proof {
            let t = names.take(i + 1);
            assert(t.drop_last() =~= names.take(i as int));
            assert(t.last() == names[i as int]);
            if i == 0 {
                assert(t =~= seq![names[0]]);
                assert(names.take(0) =~= Seq::<Seq<char>>::empty());
            }
        }
        i = i + 1;
    }
    assert(names.take(names.len() as int) =~= names);
    string_of(&out)
}

/// The program that `vee exec` runs, or why there is none; `exists` tells
/// whether `.bin/<short>` exists and `entries` names what `.bin` holds.
pub fn exec_bin(package_name: &str, short: &str, exists: bool, entries: &Vec<String>) -> (r: Result<String, String>)
    ensures
        match r {
            Ok(b) => exec_bin_of(package_name@, short@, exists, texts_of(entries@)) == Ok::<Seq<char>, Seq<char>>(b@),
            Err(m) => exec_bin_of(package_name@, short@, exists, texts_of(entries@)) == Err::<Seq<char>, Seq<char>>(m@),
        },
{
    if exists {
        Ok(short.to_owned())
    } else if entries.len() == 1 {
        Ok(entries[0].clone())
    } else if entries.len() == 0 {
        let mut m: Vec<char> = chars_of("package '");
        append_str(&mut m, package_name);
        append_str(&mut m, "' does not expose any binaries");
        Err(string_of(&m))
    } else {
        let mut m: Vec<char> = chars_of("failed to find bin '");
        append_str(&mut m, short);
        append_str(&mut m, "'. available: ");
        let j = join_comma(entries);
        append_str(&mut m, j.as_str());
        Err(string_of(&m))
    }
}

/// Which program `vee create` runs from the `.bin` directory `bin_dir`: the
/// one named `short`, where it exists, else the only one there is.
pub open spec fn create_bin_of(short: Seq<char>, bin_dir: Seq<char>, exists: bool, entries: Seq<Seq<char>>) -> Result<Seq<char>, Seq<char>> {
    if exists {
        Ok(short)
    } else if entries.len() == 1 {
        Ok(entries[0])
    } else {
        Err("failed to find bin '"@ + short + "' in "@ + bin_dir + ". available: "@ + joined(entries, ", "@))
    }
}

/// The program that `vee create` runs, or why there is none.
pub fn create_bin(short: &str, bin_dir: &str, exists: bool, entries: &Vec<String>) -> (r: Result<String, String>)
    ensures
        match r {
            Ok(b) => create_bin_of(short@, bin_dir@, exists, texts_of(entries@)) == Ok::<Seq<char>, Seq<char>>(b@),
            Err(m) => create_bin_of(short@, bin_dir@, exists, texts_of(entries@)) == Err::<Seq<char>, Seq<char>>(m@),
        },
{
    if exists {
        Ok(short.to_owned())
    } else if entries.len() == 1 {
        Ok(entries[0].clone())
    } else {
        let mut m: Vec<char> = chars_of("failed to find bin '");
        append_str(&mut m, short);
        append_str(&mut m, "' in ");
        append_str(&mut m, bin_dir);
        append_str(&mut m, ". available: ");
        let j = join_comma(entries);
        append_str(&mut m, j.as_str());
        Err(string_of(&m))
    }
}

/// The last `c` in `a + [c] + b`, where `b` has none, is the one between.
pub(crate) proof fn lemma_rfind_joined(a: Seq<char>, c: char, b: Seq<char>)
    requires
        !b.contains(c),
    ensures
        rfind_char(a + seq![c] + b, c) == Some(a.len() as int),
        rsplit_once(a + seq![c] + b, c) == Some((a, b)),
{
    let s = a + seq![c] + b;
    assert(s[a.len() as int] == c);
    let i = choose|i: int| 0 <= i < s.len() && s[i] == c && forall|j: int| i < j < s.len() ==> s[j] != c;
    assert(forall|j: int| a.len() < j < s.len() ==> s[j] == b[j - a.len() - 1]);
    assert forall|j: int| a.len() < j < s.len() implies s[j] != c by {
        assert(s[j] == b[j - a.len() - 1]);
    }
    if i > a.len() {
        assert(s[i] == b[i - a.len() - 1]);
    }
    assert(i == a.len());
    assert(s.take(a.len() as int) =~= a);
    assert(s.skip(a.len() as int + 1) =~= b);
}

/// Writing a name and a version as `name@version` and reading it back with
/// [`parse_package_spec`] gives them again, for a scoped name (`@scope/x`)
/// or a plain one, where neither the version nor the name after its first
/// character has an `@`.
pub proof fn law_package_spec_round_trip(name: Seq<char>, version: Seq<char>)
    requires
        name.len() > 0,
        !name.drop_first().contains('@'),
        !version.contains('@'),
    ensures
        package_spec(name + "@"@ + version) == (name, version),
{
    reveal_strlit("@");
    let input = name + "@"@ + version;
    assert(input[0] == name[0]);
    if name[0] == '@' {
        assert(input.drop_first() =~= name.drop_first() + seq!['@'] + version);
        lemma_rfind_joined(name.drop_first(), '@', version);
        assert(seq!['@'] + name.drop_first() =~= name);
    } else {
        assert(input =~= name + seq!['@'] + version);
        lemma_rfind_joined(name, '@', version);
    }
}

/// Writing a name and a version as `name@version` and reading it back as
/// `vee add` does gives them again, where the version has no `@` and the
/// name is not empty.
pub proof fn law_add_spec_round_trip(name: Seq<char>, version: Seq<char>)
    requires
        name.len() > 0,
        !version.contains('@'),
    ensures
        add_spec(name + "@"@ + version) == (name, version),
{
    reveal_strlit("@");
    let input = name + "@"@ + version;
    assert(input =~= name + seq!['@'] + version);
    lemma_rfind_joined(name, '@', version);
}

/// A lockfile made for the dependencies `deps` is used, not resolved again,
/// by the next install of the same dependencies: [`lockfile_choice`] takes
/// it whether or not the lockfile must be frozen.
pub proof fn law_fresh_lockfile_is_used(lf: Lockfile, deps: Seq<(Seq<char>, String)>)
    requires
        lf.root_deps@ == deps,
    ensures
        lock_matches(lf, deps),
{
}

/// The keys of the first `n` packages of `ps` that the project depends on
/// optionally (their name is among `optional`) and that do not run on the
/// operating system `os` and architecture `arch`.
pub open spec fn skipped_upto(
    ps: Seq<(Seq<char>, crate::resolver::PackageInfo)>,
    optional: Seq<(Seq<char>, ())>,
    os: Seq<char>,
    arch: Seq<char>,
    n: int,
) -> Seq<Seq<char>>
    decreases n,
{
    if n <= 0 {
        seq![]
    } else if has_key(optional, ps[n - 1].1.name@) && !crate::resolver::platform_ok(ps[n - 1].1, os, arch) {
        skipped_upto(ps, optional, os, arch, n - 1).push(ps[n - 1].0)
    } else {
        skipped_upto(ps, optional, os, arch, n - 1)
    }
}

/// The optional packages of `result` that `vee install` skips because they
/// do not run on the operating system `os` and architecture `arch` (as
/// `std::env::consts` names them); `optional` holds the names the project
/// depends on optionally.
pub fn platform_skips(result: &ResolveResult, optional: &StrMap<()>, os: &str, arch: &str) -> (r: Vec<String>)
    ensures
        texts_of(r@) == skipped_upto(result.packages@, optional@, os@, arch@, result.packages@.len() as int),
{
    let mut out: Vec<String> = Vec::new();
    let mut i: usize = 0;
    while i < result.packages.len()
        invariant
            i <= result.packages@.len(),
            texts_of(out@) == skipped_upto(result.packages@, optional@, os@, arch@, i as int),
        decreases result.packages@.len() - i,
    {
        let ghost o0 = out@;
        let p = result.packages.value_at(i);
        if optional.contains_key(p.name.as_str()) && !crate::resolver::platform_matches(p, os, arch) {
            out.push(result.packages.key_at(i).clone());
            assert(texts_of(out@) =~= texts_of(o0).push(result.packages@[i as int].0));
        }
        i = i + 1;
    }
    out
}


/// Without `verbose`, `vee outdated` shows a dependency exactly when the
/// version shown as installed (the installed one, or `???` where there is
/// none) differs from the latest; with `verbose`, always. A row shown gives
/// the name, that version, the range and the latest version.
pub proof fn law_outdated_row_shown(
    name: Seq<char>,
    current: Option<Seq<char>>,
    range: Seq<char>,
    latest: Seq<char>,
    verbose: bool,
)
    ensures
        outdated_row_of(name, current, range, latest, false) is Some <==> match current {
            Some(c) => c != latest,
            None => "???"@ != latest,
        },
        verbose ==> outdated_row_of(name, current, range, latest, verbose) is Some,
        outdated_row_of(name, current, range, latest, verbose) matches Some(row) ==> row == (
            name,
            match current {
                Some(c) => c,
                None => "???"@,
            },
            range,
            latest,
        ),
{
}

/// The row of `vee outdated` for dependency `i` of `deps`, where the latest
/// version of it is known.
pub open spec fn dep_row(
    deps: Seq<(Seq<char>, String)>,
    lockfile: Option<Lockfile>,
    latest: Seq<Option<Seq<char>>>,
    verbose: bool,
    i: int,
) -> Option<(Seq<char>, Seq<char>, Seq<char>, Seq<char>)> {
    match latest[i] {
        Some(l) => outdated_row_of(deps[i].0, installed(lockfile, deps[i].0), deps[i].1@, l, verbose),
        None => None,
    }
}

/// The rows of `outdated_rows_of` are rows of the dependencies, each from
/// one whose latest version is known.
proof fn lemma_outdated_rows_member(
    deps: Seq<(Seq<char>, String)>,
    lockfile: Option<Lockfile>,
    latest: Seq<Option<Seq<char>>>,
    verbose: bool,
    row: (Seq<char>, Seq<char>, Seq<char>, Seq<char>),
)
    requires
        latest.len() == deps.len(),
    ensures
        outdated_rows_of(deps, lockfile, latest, verbose).contains(row) <==> exists|i: int|
            0 <= i < deps.len() && #[trigger] dep_row(deps, lockfile, latest, verbose, i) == Some(row),
    decreases deps.len(),
{
    if deps.len() > 0 {
        let n = deps.len() - 1;
        let d0 = deps.drop_last();
        let l0 = latest.take(n);
        lemma_outdated_rows_member(d0, lockfile, l0, verbose, row);
        let rest = outdated_rows_of(d0, lockfile, l0, verbose);
        let last: Seq<(Seq<char>, Seq<char>, Seq<char>, Seq<char>)> = match dep_row(deps, lockfile, latest, verbose, n) {
            Some(r) => seq![r],
            None => seq![],
        };
        assert(outdated_rows_of(deps, lockfile, latest, verbose) == rest + last);
        assert forall|k: int| 0 <= k < n implies #[trigger] dep_row(d0, lockfile, l0, verbose, k) == dep_row(
            deps,
            lockfile,
            latest,
            verbose,
            k,
        ) by {
            assert(l0[k] == latest[k] && d0[k] == deps[k]);
        }
        if (rest + last).contains(row) {
            let w = choose|w: int| 0 <= w < (rest + last).len() && (rest + last)[w] == row;
            if w < rest.len() {
                assert(rest[w] == row);
                assert(rest.contains(row));
                let k = choose|k: int| 0 <= k < d0.len() && #[trigger] dep_row(d0, lockfile, l0, verbose, k) == Some(row);
                assert(dep_row(deps, lockfile, latest, verbose, k) == Some(row));
            } else {
                assert(dep_row(deps, lockfile, latest, verbose, n) == Some(row));
            }
        }
        if exists|k: int| 0 <= k < deps.len() && #[trigger] dep_row(deps, lockfile, latest, verbose, k) == Some(row) {
            let k = choose|k: int| 0 <= k < deps.len() && #[trigger] dep_row(deps, lockfile, latest, verbose, k) == Some(row);
            if k < n {
                assert(dep_row(d0, lockfile, l0, verbose, k) == Some(row));
                assert(rest.contains(row));
                let w = choose|w: int| 0 <= w < rest.len() && rest[w] == row;
                assert((rest + last)[w] == row);
            } else {
                assert(last == seq![row]);
                assert((rest + last)[rest.len() as int] == row);
            }
        }
    }
}

/// `vee outdated` lists dependency `i` (of names without repeats) exactly
/// when the registry gave its latest version and, without `verbose`, that
/// version differs from the one shown as installed; its row gives its name,
/// that installed version (or `???`), its range and the latest version.
pub proof fn law_outdated_rows_list(
    deps: Seq<(Seq<char>, String)>,
    lockfile: Option<Lockfile>,
    latest: Seq<Option<Seq<char>>>,
    verbose: bool,
    i: int,
    l: Seq<char>,
)
    requires
        latest.len() == deps.len(),
        crate::strmap::distinct_keys(deps),
        0 <= i < deps.len(),
    ensures
        outdated_rows_of(deps, lockfile, latest, verbose).contains(
            (deps[i].0, shown_version(installed(lockfile, deps[i].0)), deps[i].1@, l),
        ) <==> latest[i] == Some(l) && (verbose || shown_version(installed(lockfile, deps[i].0)) != l),
{
    let row = (deps[i].0, shown_version(installed(lockfile, deps[i].0)), deps[i].1@, l);
    lemma_outdated_rows_member(deps, lockfile, latest, verbose, row);
    if outdated_rows_of(deps, lockfile, latest, verbose).contains(row) {
        let j = choose|j: int|
            0 <= j < deps.len() && #[trigger] dep_row(deps, lockfile, latest, verbose, j) == Some(row);
        assert(deps[j].0 == deps[i].0);
        if j != i {
            crate::strmap::lemma_index_of_distinct(deps, i);
            crate::strmap::lemma_index_of_distinct(deps, j);
        }
    }
    if latest[i] == Some(l) && (verbose || shown_version(installed(lockfile, deps[i].0)) != l) {
        assert(dep_row(deps, lockfile, latest, verbose, i) == Some(row));
    }
}

} // verus!
