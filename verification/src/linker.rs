//! Installing a resolution into `node_modules`: the fingerprint that tells
//! whether anything changed, and the plan of directories and links.
//!
//! The plan is computed here; creating directories, hard links and symbolic
//! links is done outside the library, following it.

use vstd::prelude::*;
use vstd::utf8::encode_utf8;
use crate::integrity::{sha256_digest, sha256_of, hex_encode, hex_lower};
use crate::resolver::{PackageInfo, ResolveResult, package_key, opt_view};
use crate::semver_npm::{version_lt, semver_precedes};
use crate::strmap::{StrMap, has_key, lookup, str_entries, index_of_key, keys_of, inserted, lemma_inserted_values, lemma_index_of_key};
use crate::text::{seq_lt, lemma_seq_lt_transitive, lemma_seq_lt_total, chars_lt, chars_of, string_of, append_str, append_chars, trim, trim_chars, same_chars, path_join, join_path, path_parent, parent_path};

verus! {

/// `order` lists the positions of `keys` once each, by ascending key.
pub open spec fn sorted_order(keys: Seq<Seq<char>>, order: Seq<usize>) -> bool {
    &&& order.len() == keys.len()
    &&& forall|i: int| 0 <= i < order.len() ==> (#[trigger] order[i]) < keys.len()
    &&& forall|i: int, j: int| 0 <= i < order.len() && 0 <= j < order.len() && i != j ==> order[i] != order[j]
    &&& forall|i: int, j: int|
        0 <= i < j < order.len() ==> !seq_lt(#[trigger] keys[order[j] as int], #[trigger] keys[order[i] as int])
}

/// The text that the fingerprint hashes: a line `key:integrity` for each
/// package, in the order `order`.
pub open spec fn fingerprint_text(ps: Seq<(Seq<char>, PackageInfo)>, order: Seq<usize>) -> Seq<char>
    decreases order.len(),
{
    if order.len() == 0 {
        seq![]
    } else {
        fingerprint_text(ps, order.drop_last()) + ps[order.last() as int].0 + ":"@
            + ps[order.last() as int].1.integrity@ + "\n"@
    }
}

/// The keys of `ps`.
pub open spec fn package_keys(ps: Seq<(Seq<char>, PackageInfo)>) -> Seq<Seq<char>> {
    ps.map_values(|e: (Seq<char>, PackageInfo)| e.0)
}

/// The positions of `keys` by ascending key (selection of the smallest
/// remaining one, repeatedly).
fn sort_positions(keys: &Vec<Vec<char>>) -> (r: Vec<usize>)
    ensures
        sorted_order(keys@.map_values(|k: Vec<char>| k@), r@),
{
    let ghost kv = keys@.map_values(|k: Vec<char>| k@);
    let n = keys.len();
    let mut used: Vec<bool> = Vec::new();
    let mut u: usize = 0;
    while u < n
        invariant
            u <= n,
            used@.len() == u,
            forall|x: int| 0 <= x < u ==> !(#[trigger] used@[x]),
        decreases n - u,
    {
        used.push(false);
        u = u + 1;
    }
    let mut order: Vec<usize> = Vec::new();
    while order.len() < n
        invariant
            n == keys@.len(),
            kv == keys@.map_values(|k: Vec<char>| k@),
            used@.len() == n,
            order@.len() <= n,
            forall|i: int| 0 <= i < order@.len() ==> (#[trigger] order@[i]) < n && used@[order@[i] as int],
            forall|i: int, j: int| 0 <= i < order@.len() && 0 <= j < order@.len() && i != j ==> order@[i] != order@[j],
            forall|x: int| 0 <= x < n && #[trigger] used@[x] ==> exists|i: int| 0 <= i < order@.len() && order@[i] == x,
            forall|i: int, j: int|
                0 <= i < j < order@.len() ==> !seq_lt(#[trigger] kv[order@[j] as int], #[trigger] kv[order@[i] as int]),
            forall|i: int, x: int| 0 <= i < order@.len() && 0 <= x < n && !used@[x] ==> !seq_lt(#[trigger] kv[x], #[trigger] kv[order@[i] as int]),
        decreases n - order@.len(),
    {
        proof {
            if forall|x: int| 0 <= x < n ==> #[trigger] used@[x] {
                lemma_pigeon(order@, n);
                let x = choose|x: usize| x < n && !order@.contains(x);
                assert(used@[x as int]);
                assert(false);
            }
        }
        let mut cur: usize = 0;
        while cur < n && used[cur]
            invariant
                cur <= n,
                used@.len() == n,
                forall|x: int| 0 <= x < cur ==> #[trigger] used@[x],
                exists|x: int| 0 <= x < n && !used@[x],
            decreases n - cur,
        {
            cur = cur + 1;
        }
        proof {
            lemma_seq_lt_total(kv[cur as int], kv[cur as int]);
        }
        let mut j: usize = cur + 1;
        while j < n
            invariant
                cur < n,
                !used@[cur as int],
                used@.len() == n,
                n == keys@.len(),
                kv == keys@.map_values(|k: Vec<char>| k@),
                cur < j <= n,
                forall|x: int| 0 <= x < j && !used@[x] ==> !seq_lt(#[trigger] kv[x], kv[cur as int]),
            decreases n - j,
        {
            if !used[j] && chars_lt(&keys[j], &keys[cur]) {
                proof {
                    assert forall|x: int| 0 <= x < j + 1 && !used@[x] implies !seq_lt(#[trigger] kv[x], kv[j as int]) by {
                        if x < j && seq_lt(kv[x], kv[j as int]) {
                            lemma_seq_lt_transitive(kv[x], kv[j as int], kv[cur as int]);
                        }
                        if x == j {
                            lemma_seq_lt_total(kv[x], kv[x]);
                        }
                    }
                }
                cur = j;
            }
            j = j + 1;
        }
        let ghost old_order = order@;
        let ghost old_used = used@;
        used.set(cur, true);
        order.push(cur);
        proof {
            assert forall|i: int, k: int|
                0 <= i < k < order@.len() implies !seq_lt(#[trigger] kv[order@[k] as int], #[trigger] kv[order@[i] as int]) by {
                if k == order@.len() - 1 {
                    assert(!old_used[cur as int]);
                }
            }
            assert forall|x: int| 0 <= x < n && #[trigger] used@[x] implies exists|i: int| 0 <= i < order@.len() && order@[i] == x by {
                if x == cur {
                    assert(order@[order@.len() - 1] == x);
                } else {
                    assert(old_used[x]);
                    let i = choose|i: int| 0 <= i < old_order.len() && old_order[i] == x;
                    assert(order@[i] == x);
                }
            }
            assert forall|i: int, x: int| 0 <= i < order@.len() && 0 <= x < n && !used@[x] implies !seq_lt(#[trigger] kv[x], #[trigger] kv[order@[i] as int]) by {
                if i < old_order.len() {
                    assert(!old_used[x]);
                }
            }
        }
    }
    order
}

/// `n` distinct positions below `n` use all of them.
proof fn lemma_pigeon(order: Seq<usize>, n: usize)
    requires
        order.len() < n,
        forall|i: int| 0 <= i < order.len() ==> (#[trigger] order[i]) < n,
    ensures
        exists|x: usize| x < n && !(#[trigger] order.contains(x)),
{
    let s = order.map_values(|v: usize| v as int).to_set();
    let full = Set::new(|x: int| 0 <= x < n as int);
    broadcast use vstd::seq_lib::seq_to_set_is_finite;
    vstd::set_lib::lemma_int_range(0, n as int);
    assert(full =~= vstd::set_lib::set_int_range(0, n as int));
    order.map_values(|v: usize| v as int).lemma_cardinality_of_set();
    if forall|x: usize| x < n ==> #[trigger] order.contains(x) {
        assert forall|x: int| full.contains(x) implies s.contains(x) by {
            assert(order.contains(x as usize));
            let i = choose|i: int| 0 <= i < order.len() && order[i] == x as usize;
            assert(order.map_values(|v: usize| v as int)[i] == x);
        }
        vstd::set_lib::lemma_len_subset(full, s);
    }
}

/// The fingerprint of the packages `ps`: lowercase hex of the SHA-256 of the
/// UTF-8 bytes of their lines `key:integrity`, taken by ascending key.
pub open spec fn fingerprint_of(ps: Seq<(Seq<char>, PackageInfo)>, r: Seq<char>) -> bool {
    exists|order: Seq<usize>|
        sorted_order(package_keys(ps), order)
        && r == hex_lower(sha256_of(encode_utf8(#[trigger] fingerprint_text(ps, order))))
}

/// The fingerprint of a resolution, which tells whether `node_modules` was
/// installed from the same packages.
pub fn fingerprint(result: &ResolveResult) -> (r: String)
    ensures
        fingerprint_of(result.packages@, r@),
{
    let ghost ps = result.packages@;
    let n = result.packages.len();
    let mut keys: Vec<Vec<char>> = Vec::new();
    let mut i: usize = 0;
    while i < n
        invariant
            n == ps.len(),
            ps == result.packages@,
            i <= n,
            keys@.len() == i,
            forall|j: int| 0 <= j < i ==> (#[trigger] keys@[j])@ == ps[j].0,
        decreases n - i,
    {
        keys.push(chars_of(result.packages.key_at(i)));
        i = i + 1;
    }
    let order = sort_positions(&keys);
    proof {
        assert(keys@.map_values(|k: Vec<char>| k@) =~= package_keys(ps));
    }
    let mut text: Vec<char> = Vec::new();
    let mut k: usize = 0;
    while k < n
        invariant
            n == ps.len(),
            ps == result.packages@,
            order@.len() == n,
            sorted_order(package_keys(ps), order@),
            k <= n,
            text@ == fingerprint_text(ps, order@.take(k as int)),
        decreases n - k,
    {
        let p = order[k];
        let key = result.packages.key_at(p);
        let info = result.packages.value_at(p);
        append_str(&mut text, key.as_str());
        append_str(&mut text, ":");
        append_str(&mut text, info.integrity.as_str());
        append_str(&mut text, "\n");
        proof {
            let t = order@.take(k + 1);
            assert(t.drop_last() =~= order@.take(k as int));
            assert(t.last() == p);
        }
        k = k + 1;
    }
    proof {
        assert(order@.take(n as int) =~= order@);
    }
    let s = string_of(&text);
    let digest = sha256_digest(s.as_str().as_bytes());
    hex_encode(digest.as_slice())
}

/// Whether the fingerprint recorded in `node_modules` is `expected`: the
/// content of its file, where it could be read, blanks around it aside.
pub fn check_fingerprint(content: Option<&str>, expected: &str) -> (r: bool)
    ensures
        r == match content {
            Some(c) => trim(c@) == expected@,
            None => false,
        },
{
    match content {
        Some(c) => {
            let cs = chars_of(c);
            let t = trim_chars(&cs);
            let e = chars_of(expected);
            same_chars(&t, &e)
        },
        None => false,
    }
}

/// The relative path from directory `base` to `path` that
/// `pathdiff::diff_paths` gives, as text; `None` where it gives none or its
/// result is not UTF-8.
pub uninterp spec fn relative_path_text(path: Seq<char>, base: Seq<char>) -> Option<Seq<char>>;

/// `pathdiff::diff_paths(path, base)`, as text.
///
/// Trusted: the result is the name [`relative_path_text`] of the two paths.
#[verifier::external_body]
fn diff_paths(path: &str, base: &str) -> (r: Option<String>)
    ensures
        opt_view(r) == relative_path_text(path@, base@),
{
    match pathdiff::diff_paths(path, base) {
        Some(p) => p.to_str().map(String::from),
        None => None,
    }
}

/// The name of a package's directory in the store: `name@version`.
pub open spec fn store_name(p: PackageInfo) -> Seq<char> {
    p.name@ + "@"@ + p.version@
}

/// The `node_modules` directory of package `p` in the store under `vee`,
/// where its dependencies are linked.
pub open spec fn package_modules(vee: Seq<char>, p: PackageInfo) -> Seq<char> {
    path_join(path_join(vee, store_name(p)), "node_modules"@)
}

/// Where the files of package `p` are put in the store under `vee`.
pub open spec fn store_dir(vee: Seq<char>, p: PackageInfo) -> Seq<char> {
    path_join(package_modules(vee, p), p.name@)
}

/// The symbolic link at `path` to `target`: the link holds the path of
/// `target` relative to the directory of the link, or `target` itself where
/// there is none.
pub open spec fn link_to(path: Seq<char>, target: Seq<char>) -> (Seq<char>, Seq<char>) {
    (path, match relative_path_text(target, path_parent(path)) {
        Some(r) => r,
        None => target,
    })
}

/// The link that dependency `dep` of package `p` gets, where `p` has it
/// resolved to a package of `ps`.
pub open spec fn dep_link(ps: Seq<(Seq<char>, PackageInfo)>, vee: Seq<char>, p: PackageInfo, dep: Seq<char>) -> Option<(Seq<char>, Seq<char>)> {
    match lookup(p.resolved_deps@, dep) {
        Some(k) => match lookup(ps, k@) {
            Some(q) => Some(link_to(path_join(package_modules(vee, p), dep), store_dir(vee, q))),
            None => None,
        },
        None => None,
    }
}

/// The names that package `p` links: its dependencies, its optional
/// dependencies, then its peers.
pub open spec fn linked_names(p: PackageInfo) -> Seq<Seq<char>> {
    keys_of(p.dependencies@) + keys_of(p.optional_dependencies@) + keys_of(p.peer_dependencies@)
}

/// The links of the first `n` packages of `ps`, in order, before those whose
/// path is already taken are dropped.
pub open spec fn link_candidates(ps: Seq<(Seq<char>, PackageInfo)>, vee: Seq<char>, n: int) -> Seq<Option<(Seq<char>, Seq<char>)>>
    decreases n,
{
    if n <= 0 {
        seq![]
    } else {
        link_candidates(ps, vee, n - 1) + linked_names(ps[n - 1].1).map_values(|d: Seq<char>| dep_link(ps, vee, ps[n - 1].1, d))
    }
}

/// The links among `c` whose path is not in `taken` nor the path of an
/// earlier link.
pub open spec fn fresh_links(c: Seq<Option<(Seq<char>, Seq<char>)>>, taken: Seq<Seq<char>>) -> Seq<(Seq<char>, Seq<char>)>
    decreases c.len(),
{
    if c.len() == 0 {
        seq![]
    } else {
        match c[0] {
            Some(l) => if taken.contains(l.0) {
                fresh_links(c.drop_first(), taken)
            } else {
                seq![l] + fresh_links(c.drop_first(), taken.push(l.0))
            },
            None => fresh_links(c.drop_first(), taken),
        }
    }
}

/// The link in `node_modules` of the project's dependency `name`, where the
/// resolution has it.
pub open spec fn root_link(r: ResolveResult, modules: Seq<char>, vee: Seq<char>, name: Seq<char>) -> Option<(Seq<char>, Seq<char>)> {
    match lookup(r.root_resolved@, name) {
        Some(k) => match lookup(r.packages@, k@) {
            Some(q) => Some(link_to(path_join(modules, name), store_dir(vee, q))),
            None => None,
        },
        None => None,
    }
}

/// The values present among `c`, in order.
pub open spec fn present<T>(c: Seq<Option<T>>) -> Seq<T>
    decreases c.len(),
{
    if c.len() == 0 {
        seq![]
    } else {
        match c.last() {
            Some(x) => present(c.drop_last()).push(x),
            None => present(c.drop_last()),
        }
    }
}

/// The text of pairs of strings.
pub open spec fn pairs_view(v: Seq<(String, String)>) -> Seq<(Seq<char>, Seq<char>)> {
    v.map_values(|e: (String, String)| (e.0@, e.1@))
}

/// What installing a resolution puts into `node_modules`.
pub struct LinkPlan {
    /// The `node_modules` directory, which is emptied first.
    pub modules: String,
    /// For each package: its integrity, by which its files are found in the
    /// cache, and the directory of the store they are linked into.
    pub copies: Vec<(String, String)>,
    /// Symbolic links to make, in order: the path of the link and what it
    /// points to.
    pub links: Vec<(String, String)>,
}

/// The `node_modules` directory of a project, and the store inside it.
pub open spec fn modules_dir(project: Seq<char>) -> Seq<char> {
    path_join(project, "node_modules"@)
}

/// The store of a project's `node_modules`.
pub open spec fn vee_dir(project: Seq<char>) -> Seq<char> {
    path_join(modules_dir(project), ".vee"@)
}

/// Where the packages of `ps` go in the store.
pub open spec fn store_dirs(ps: Seq<(Seq<char>, PackageInfo)>, vee: Seq<char>) -> Seq<Seq<char>> {
    ps.map_values(|e: (Seq<char>, PackageInfo)| store_dir(vee, e.1))
}

/// The copies that the packages of `ps` need.
pub open spec fn planned_copies(ps: Seq<(Seq<char>, PackageInfo)>, vee: Seq<char>) -> Seq<(Seq<char>, Seq<char>)> {
    ps.map_values(|e: (Seq<char>, PackageInfo)| (e.1.integrity@, store_dir(vee, e.1)))
}

/// Executable form of [`store_name`] and [`store_dir`] for one package.
fn package_dirs(vee: &str, p: &PackageInfo) -> (r: (String, String))
    ensures
        r.0@ == package_modules(vee@, *p),
        r.1@ == store_dir(vee@, *p),
{
    let mut n: Vec<char> = chars_of(p.name.as_str());
    append_str(&mut n, "@");
    let v = p.version.to_text();
    append_str(&mut n, v.as_str());
    let sn = string_of(&n);
    let base = join_path(vee, sn.as_str());
    let pm = join_path(base.as_str(), "node_modules");
    let sd = join_path(pm.as_str(), p.name.as_str());
    (pm, sd)
}

/// Where the files of package `p` are put in the store under `vee`.
pub fn package_store_dir(vee: &str, p: &PackageInfo) -> (r: String)
    ensures
        r@ == store_dir(vee@, *p),
{
    let (_, sd) = package_dirs(vee, p);
    sd
}

/// The link at `path` to `target`, as [`link_to`] gives it.
fn make_link(path: String, target: String) -> (r: (String, String))
    ensures
        (r.0@, r.1@) == link_to(path@, target@),
{
    let parent = parent_path(path.as_str());
    match diff_paths(target.as_str(), parent.as_str()) {
        Some(rel) => (path, rel),
        None => (path, target),
    }
}

/// The text of optional pairs of strings.
pub open spec fn opt_pairs_view(v: Seq<Option<(String, String)>>) -> Seq<Option<(Seq<char>, Seq<char>)>> {
    v.map_values(|e: Option<(String, String)>| match e {
        Some(l) => Some((l.0@, l.1@)),
        None => None,
    })
}

/// The text of each of `v`.
pub open spec fn texts(v: Seq<Vec<char>>) -> Seq<Seq<char>> {
    v.map_values(|x: Vec<char>| x@)
}

/// Whether one of `v` reads `x`.
fn contains_text(v: &Vec<Vec<char>>, x: &Vec<char>) -> (r: bool)
    ensures
        r == texts(v@).contains(x@),
{
    let mut i: usize = 0;
    while i < v.len()
        invariant
            i <= v@.len(),
            forall|j: int| 0 <= j < i ==> v@[j]@ != x@,
        decreases v@.len() - i,
    {
        if same_chars(&v[i], x) {
            assert(texts(v@)[i as int] == x@);
            return true;
        }
        i = i + 1;
    }
    proof {
        if texts(v@).contains(x@) {
            let j = choose|j: int| 0 <= j < texts(v@).len() && texts(v@)[j] == x@;
            assert(v@[j]@ == x@);
        }
    }
    false
}

/// Executable form of [`dep_link`].
fn find_dep_link(ps: &StrMap<PackageInfo>, vee: &str, p: &PackageInfo, dep: &str) -> (r: Option<(String, String)>)
    ensures
        opt_pairs_view(seq![r])[0] == dep_link(ps@, vee@, *p, dep@),
{
    match p.resolved_deps.get(dep) {
        Some(k) => match ps.get(k.as_str()) {
            Some(q) => {
                let (pm, _) = package_dirs(vee, p);
                let (_, target) = package_dirs(vee, q);
                let path = join_path(pm.as_str(), dep);
                Some(make_link(path, target))
            },
            None => None,
        },
        None => None,
    }
}

/// Appends to `out` the links of the names of `m` for package `p`.
fn push_links_of(ps: &StrMap<PackageInfo>, vee: &str, p: &PackageInfo, m: &StrMap<String>, out: &mut Vec<Option<(String, String)>>)
    ensures
        opt_pairs_view(final(out)@) == opt_pairs_view(old(out)@)
            + keys_of(m@).map_values(|d: Seq<char>| dep_link(ps@, vee@, *p, d)),
{
    let ghost start = opt_pairs_view(out@);
    let mut i: usize = 0;
    while i < m.len()
        invariant
            i <= m@.len(),
            opt_pairs_view(out@) == start + keys_of(m@).take(i as int).map_values(|d: Seq<char>| dep_link(ps@, vee@, *p, d)),
        decreases m@.len() - i,
    {
        let l = find_dep_link(ps, vee, p, m.key_at(i).as_str());
        let ghost before = out@;
        out.push(l);
        proof {
            assert(keys_of(m@).take(i + 1) =~= keys_of(m@).take(i as int).push(m@[i as int].0));
            assert(opt_pairs_view(out@) =~= opt_pairs_view(before).push(opt_pairs_view(seq![l])[0]));
            assert(start + keys_of(m@).take(i + 1).map_values(|d: Seq<char>| dep_link(ps@, vee@, *p, d))
                =~= (start + keys_of(m@).take(i as int).map_values(|d: Seq<char>| dep_link(ps@, vee@, *p, d))).push(dep_link(ps@, vee@, *p, m@[i as int].0)));
        }
        i = i + 1;
    }
    proof {
        assert(keys_of(m@).take(m@.len() as int) =~= keys_of(m@));
    }
}

/// The links of the project's dependencies `names` in `node_modules`.
pub open spec fn root_links(r: ResolveResult, project: Seq<char>, names: Seq<Seq<char>>) -> Seq<(Seq<char>, Seq<char>)> {
    present(root_candidates(r, project, names))
}

/// The link of each of the project's dependencies `names`, where it has one.
pub open spec fn root_candidates(r: ResolveResult, project: Seq<char>, names: Seq<Seq<char>>) -> Seq<Option<(Seq<char>, Seq<char>)>> {
    names.map_values(|n: Seq<char>| root_link(r, modules_dir(project), vee_dir(project), n))
}

/// Installs resolutions into the `node_modules` of a project.
pub struct Linker {
    /// The directory of the project.
    pub project_dir: String,
}

impl Linker {
    /// The linker of the project in `project_dir`.
    pub fn new(project_dir: String) -> (r: Linker)
        ensures
            r.project_dir@ == project_dir@,
    {
        Linker { project_dir }
    }

    /// What installing `result` does, where the project depends on the names
    /// of `root_deps`.
    ///
    /// Each package is put into the store; in its `node_modules` each name
    /// that it depends on (dependencies, optional ones, then peers) is linked
    /// to the package it was resolved to, unless that path is already taken;
    /// then each dependency of the project is linked in `node_modules`.
    pub fn link(&self, result: &ResolveResult, root_deps: &StrMap<String>) -> (r: LinkPlan)
        ensures
            r.modules@ == modules_dir(self.project_dir@),
            pairs_view(r.copies@) == planned_copies(result.packages@, vee_dir(self.project_dir@)),
            pairs_view(r.links@) == fresh_links(
                link_candidates(result.packages@, vee_dir(self.project_dir@), result.packages@.len() as int),
                store_dirs(result.packages@, vee_dir(self.project_dir@)),
            ) + root_links(*result, self.project_dir@, keys_of(root_deps@)),
    {
        link_plan(self.project_dir.as_str(), result, root_deps)
    }

    /// What a flat install of `result` does: one version of each name goes
    /// straight into `node_modules`, and nothing is linked.
    pub fn link_flat(&self, result: &ResolveResult) -> (r: LinkPlan)
        ensures
            r.modules@ == modules_dir(self.project_dir@),
            pairs_view(r.copies@) == flat_copies(result.packages@, modules_dir(self.project_dir@)),
            r.links@.len() == 0,
    {
        flat_plan(self.project_dir.as_str(), result)
    }
}

/// The plan of [`Linker::link`] for the project at `project`.
fn link_plan(project: &str, result: &ResolveResult, root_deps: &StrMap<String>) -> (r: LinkPlan)
    ensures
        r.modules@ == modules_dir(project@),
        pairs_view(r.copies@) == planned_copies(result.packages@, vee_dir(project@)),
        pairs_view(r.links@) == fresh_links(
            link_candidates(result.packages@, vee_dir(project@), result.packages@.len() as int),
            store_dirs(result.packages@, vee_dir(project@)),
        ) + root_links(*result, project@, keys_of(root_deps@)),
{
    let modules = join_path(project, "node_modules");
    let vee = join_path(modules.as_str(), ".vee");
    let ghost ps = result.packages@;
    let ghost vv = vee@;
    let n = result.packages.len();
    let mut copies: Vec<(String, String)> = Vec::new();
    let mut taken: Vec<Vec<char>> = Vec::new();
    let mut cands: Vec<Option<(String, String)>> = Vec::new();
    let mut i: usize = 0;
    while i < n
        invariant
            n == ps.len(),
            ps == result.packages@,
            vv == vee@,
            i <= n,
            pairs_view(copies@) == planned_copies(ps, vv).take(i as int),
            texts(taken@) == store_dirs(ps, vv).take(i as int),
            opt_pairs_view(cands@) == link_candidates(ps, vv, i as int),
        decreases n - i,
    {
        let p = result.packages.value_at(i);
        let (_, sd) = package_dirs(vee.as_str(), p);
        let ghost c0 = copies@;
        let ghost t0 = taken@;
        copies.push((p.integrity.clone(), sd.clone()));
        taken.push(chars_of(sd.as_str()));
        let ghost k0 = opt_pairs_view(cands@);
        push_links_of(&result.packages, vee.as_str(), p, &p.dependencies, &mut cands);
        push_links_of(&result.packages, vee.as_str(), p, &p.optional_dependencies, &mut cands);
        push_links_of(&result.packages, vee.as_str(), p, &p.peer_dependencies, &mut cands);
        proof {
            assert(pairs_view(copies@) =~= pairs_view(c0).push((p.integrity@, sd@)));
            assert(planned_copies(ps, vv).take(i + 1) =~= planned_copies(ps, vv).take(i as int).push((p.integrity@, sd@)));
            assert(texts(taken@) =~= texts(t0).push(sd@));
            assert(store_dirs(ps, vv).take(i + 1) =~= store_dirs(ps, vv).take(i as int).push(sd@));
            let f = |d: Seq<char>| dep_link(ps, vv, *p, d);
            assert(linked_names(*p).map_values(f) =~= keys_of(p.dependencies@).map_values(f)
                + keys_of(p.optional_dependencies@).map_values(f) + keys_of(p.peer_dependencies@).map_values(f));
            assert(link_candidates(ps, vv, i + 1) == link_candidates(ps, vv, i as int) + linked_names(ps[i as int].1).map_values(f));
        }
        i = i + 1;
    }
    proof {
        assert(planned_copies(ps, vv).take(n as int) =~= planned_copies(ps, vv));
        assert(store_dirs(ps, vv).take(n as int) =~= store_dirs(ps, vv));
    }
    let ghost all = opt_pairs_view(cands@);
    let ghost taken0 = texts(taken@);
    let mut links: Vec<(String, String)> = Vec::new();
    let mut j: usize = 0;
    assert(all.skip(0) =~= all);
    while j < cands.len()
        invariant
            all == opt_pairs_view(cands@),
            j <= cands@.len(),
            pairs_view(links@) + fresh_links(all.skip(j as int), texts(taken@)) == fresh_links(all, taken0),
        decreases cands@.len() - j,
    {
        let ghost rest = all.skip(j as int);
        assert(rest.drop_first() =~= all.skip(j + 1));
        match &cands[j] {
            Some(l) => {
                let path = chars_of(l.0.as_str());
                if !contains_text(&taken, &path) {
                    let ghost l0 = links@;
                    let ghost t0 = taken@;
                    links.push((l.0.clone(), l.1.clone()));
                    taken.push(path);
                    proof {
                        assert(pairs_view(links@) =~= pairs_view(l0) + seq![(l.0@, l.1@)]);
                        assert(texts(taken@) =~= texts(t0).push(l.0@));
                        assert(pairs_view(links@) + fresh_links(all.skip(j + 1), texts(taken@))
                            =~= pairs_view(l0) + (seq![(l.0@, l.1@)] + fresh_links(all.skip(j + 1), texts(taken@))));
                    }
                }
            },
            None => {},
        }
        j = j + 1;
    }
    proof {
        assert(all.skip(all.len() as int) =~= Seq::<Option<(Seq<char>, Seq<char>)>>::empty());
        assert(pairs_view(links@) =~= pairs_view(links@) + fresh_links(all.skip(j as int), texts(taken@)));
    }
    let ghost fresh = pairs_view(links@);
    let ghost names = keys_of(root_deps@);
    let mut k: usize = 0;
    while k < root_deps.len()
        invariant
            names == keys_of(root_deps@),
            modules@ == modules_dir(project@),
            vee@ == vee_dir(project@),
            k <= root_deps@.len(),
            pairs_view(links@) == fresh + present(root_candidates(*result, project@, names.take(k as int))),
        decreases root_deps@.len() - k,
    {
        let name = root_deps.key_at(k);
        let ghost l0 = links@;
        let found = match result.root_resolved.get(name.as_str()) {
            Some(key) => match result.packages.get(key.as_str()) {
                Some(q) => {
                    let (_, target) = package_dirs(vee.as_str(), q);
                    let path = join_path(modules.as_str(), name.as_str());
                    Some(make_link(path, target))
                },
                None => None,
            },
            None => None,
        };
        let ghost fv = opt_pairs_view(seq![found])[0];
        assert(names[k as int] == name@);
        assert(fv == root_link(*result, modules_dir(project@), vee_dir(project@), name@));
        match found {
            Some(l) => {
                links.push(l);
            },
            None => {},
        }
        proof {
            let t = root_candidates(*result, project@, names.take(k + 1));
            assert(t.drop_last() =~= root_candidates(*result, project@, names.take(k as int)));
            assert(t.last() == fv);
            assert(pairs_view(links@) =~= match fv { Some(x) => pairs_view(l0).push(x), None => pairs_view(l0) });
        }
        k = k + 1;
    }
    proof {
        assert(names.take(names.len() as int) =~= names);
    }
    LinkPlan { modules, copies, links }
}

/// Which package each name gets in a flat install, going through the first
/// `n` packages of `ps` in order: a later package takes the place of the one
/// chosen so far for its name unless its version is lower.
pub open spec fn flat_choice(ps: Seq<(Seq<char>, PackageInfo)>, n: int) -> Seq<(Seq<char>, usize)>
    decreases n,
{
    if n <= 0 {
        seq![]
    } else {
        let m = flat_choice(ps, n - 1);
        let p = ps[n - 1].1;
        match lookup(m, p.name@) {
            Some(i) => if semver_precedes(p.version@, ps[i as int].1.version@) {
                m
            } else {
                inserted(m, p.name@, (n - 1) as usize)
            },
            None => inserted(m, p.name@, (n - 1) as usize),
        }
    }
}

/// The copies of a flat install: the files of each chosen package go to the
/// directory of its name in `node_modules`.
pub open spec fn flat_copies(ps: Seq<(Seq<char>, PackageInfo)>, modules: Seq<char>) -> Seq<(Seq<char>, Seq<char>)> {
    flat_choice(ps, ps.len() as int).map_values(|e: (Seq<char>, usize)| (ps[e.1 as int].1.integrity@, path_join(modules, e.0)))
}

/// The plan of [`Linker::link_flat`] for the project at `project`.
fn flat_plan(project: &str, result: &ResolveResult) -> (r: LinkPlan)
    ensures
        r.modules@ == modules_dir(project@),
        pairs_view(r.copies@) == flat_copies(result.packages@, modules_dir(project@)),
        r.links@.len() == 0,
{
    let modules = join_path(project, "node_modules");
    let ghost ps = result.packages@;
    let n = result.packages.len();
    let mut chosen: StrMap<usize> = StrMap::new();
    let mut i: usize = 0;
    while i < n
        invariant
            n == ps.len(),
            ps == result.packages@,
            i <= n,
            chosen@ == flat_choice(ps, i as int),
            forall|j: int| 0 <= j < chosen@.len() ==> (#[trigger] chosen@[j]).1 < i,
        decreases n - i,
    {
        let p = result.packages.value_at(i);
        let ghost m = chosen@;
        let keep = match chosen.get(p.name.as_str()) {
            Some(e) => {
                proof {
                    lemma_lookup_in(m, p.name@);
                }
                version_lt(&p.version, &result.packages.value_at(*e).version)
            },
            None => false,
        };
        if !keep {
            chosen.insert(p.name.clone(), i);
            proof {
                assert forall|j: int| 0 <= j < chosen@.len() implies (#[trigger] chosen@[j]).1 < i + 1 by {
                    lemma_inserted_values(m, p.name@, i, j);
                }
            }
        }
        i = i + 1;
    }
    let mut copies: Vec<(String, String)> = Vec::new();
    let ghost ch = chosen@;
    let mut k: usize = 0;
    while k < chosen.len()
        invariant
            ch == chosen@,
            ch == flat_choice(ps, n as int),
            n == ps.len(),
            ps == result.packages@,
            forall|j: int| 0 <= j < ch.len() ==> (#[trigger] ch[j]).1 < n,
            k <= ch.len(),
            modules@ == modules_dir(project@),
            pairs_view(copies@) == flat_copies(ps, modules@).take(k as int),
        decreases ch.len() - k,
    {
        let name = chosen.key_at(k);
        let idx = *chosen.value_at(k);
        assert(ch[k as int].1 < n);
        let p = result.packages.value_at(idx);
        let dir = join_path(modules.as_str(), name.as_str());
        let ghost c0 = copies@;
        copies.push((p.integrity.clone(), dir));
        proof {
            assert(pairs_view(copies@) =~= pairs_view(c0).push((p.integrity@, dir@)));
            assert(flat_copies(ps, modules@).take(k + 1) =~= flat_copies(ps, modules@).take(k as int).push((p.integrity@, dir@)));
        }
        k = k + 1;
    }
    proof {
        assert(flat_copies(ps, modules@).take(ch.len() as int) =~= flat_copies(ps, modules@));
    }
    LinkPlan { modules, copies, links: Vec::new() }
}

/// What a lookup finds is one of the entries.
proof fn lemma_lookup_in<V>(s: Seq<(Seq<char>, V)>, k: Seq<char>)
    requires
        lookup(s, k) is Some,
    ensures
        exists|j: int| 0 <= j < s.len() && s[j].1 == lookup(s, k)->0,
{
    lemma_index_of_key(s, k);
    let i = index_of_key(s, k)->0;
    assert(0 <= i < s.len() && s[i].1 == lookup(s, k)->0);
}

/// The `bin` field of a package's manifest, as far as installing reads it.
pub enum BinField {
    /// One program, named after the package, at this path in the package.
    Single(String),
    /// Programs by name, each with its path in the package, `None` where the
    /// path is not a string.
    Named(Vec<(String, Option<String>)>),
    /// No `bin` field, or one of another kind.
    Absent,
}

/// The link in `bin_dir` named `name` to the file `path` of the package in
/// `package_dir`: it holds the path of the file relative to `bin_dir`, or the
/// path itself where there is none.
pub open spec fn bin_link(bin_dir: Seq<char>, package_dir: Seq<char>, name: Seq<char>, path: Seq<char>) -> (Seq<char>, Seq<char>) {
    let target = path_join(package_dir, path);
    (path_join(bin_dir, name), match relative_path_text(target, bin_dir) {
        Some(r) => r,
        None => target,
    })
}

/// The program links of the project's dependency `name`, installed in
/// `modules`, whose manifest has `bin`.
pub open spec fn bin_links_of(modules: Seq<char>, name: Seq<char>, bin: BinField) -> Seq<(Seq<char>, Seq<char>)> {
    let bin_dir = path_join(modules, ".bin"@);
    let package_dir = path_join(modules, name);
    match bin {
        BinField::Single(p) => seq![bin_link(bin_dir, package_dir, name, p@)],
        BinField::Named(v) => present(bin_entries(bin_dir, package_dir, v@)),
        BinField::Absent => seq![],
    }
}

/// The link of each of the named programs `v` that has a path.
pub open spec fn bin_entries(bin_dir: Seq<char>, package_dir: Seq<char>, v: Seq<(String, Option<String>)>) -> Seq<Option<(Seq<char>, Seq<char>)>> {
    v.map_values(|e: (String, Option<String>)| match e.1 {
        Some(p) => Some(bin_link(bin_dir, package_dir, e.0@, p@)),
        None => None,
    })
}

/// Executable form of [`bin_link`].
fn make_bin_link(bin_dir: &str, package_dir: &str, name: &str, path: &str) -> (r: (String, String))
    ensures
        (r.0@, r.1@) == bin_link(bin_dir@, package_dir@, name@, path@),
{
    let target = join_path(package_dir, path);
    let link = join_path(bin_dir, name);
    match diff_paths(target.as_str(), bin_dir) {
        Some(rel) => (link, rel),
        None => (link, target),
    }
}

/// The links in `node_modules/.bin` to the programs of the project's
/// dependency `name`, whose manifest has `bin`.
pub fn bin_links(modules: &str, name: &str, bin: &BinField) -> (r: Vec<(String, String)>)
    ensures
        pairs_view(r@) == bin_links_of(modules@, name@, *bin),
{
    let bin_dir = join_path(modules, ".bin");
    let package_dir = join_path(modules, name);
    let mut out: Vec<(String, String)> = Vec::new();
    match bin {
        BinField::Single(p) => {
            out.push(make_bin_link(bin_dir.as_str(), package_dir.as_str(), name, p.as_str()));
            assert(pairs_view(out@) =~= seq![bin_link(bin_dir@, package_dir@, name@, p@)]);
        },
        BinField::Named(v) => {
            let mut i: usize = 0;
            while i < v.len()
                invariant
                    i <= v@.len(),
                    pairs_view(out@) == present(bin_entries(bin_dir@, package_dir@, v@.take(i as int))),
                decreases v@.len() - i,
            {
                let ghost o0 = out@;
                match &v[i].1 {
                    Some(p) => {
                        out.push(make_bin_link(bin_dir.as_str(), package_dir.as_str(), v[i].0.as_str(), p.as_str()));
                    },
                    None => {},
                }
                proof {
                    let t = bin_entries(bin_dir@, package_dir@, v@.take(i + 1));
                    assert(t.drop_last() =~= bin_entries(bin_dir@, package_dir@, v@.take(i as int)));
                    assert(pairs_view(out@) =~= match t.last() { Some(x) => pairs_view(o0).push(x), None => pairs_view(o0) });
                }
                i = i + 1;
            }
            assert(v@.take(v@.len() as int) =~= v@);
        },
        BinField::Absent => {
            assert(pairs_view(out@) =~= Seq::<(Seq<char>, Seq<char>)>::empty());
        },
    }
    out
}

/// Whether the project's dependency `name` has a package in `result`, whose
/// programs are linked.
pub open spec fn has_bins(r: ResolveResult, name: Seq<char>) -> bool {
    match lookup(r.root_resolved@, name) {
        Some(k) => has_key(r.packages@, k@),
        None => false,
    }
}

/// The project's dependencies among `names` whose programs are linked.
pub open spec fn bin_packages(r: ResolveResult, names: Seq<Seq<char>>) -> Seq<Seq<char>>
    decreases names.len(),
{
    if names.len() == 0 {
        seq![]
    } else if has_bins(r, names.last()) {
        bin_packages(r, names.drop_last()).push(names.last())
    } else {
        bin_packages(r, names.drop_last())
    }
}

/// The names of the project's dependencies, among `root_deps`, whose
/// programs are linked: those with a package in `result`.
pub fn bin_package_names(result: &ResolveResult, root_deps: &StrMap<String>) -> (r: Vec<String>)
    ensures
        r@.map_values(|x: String| x@) == bin_packages(*result, keys_of(root_deps@)),
{
    let ghost names = keys_of(root_deps@);
    let mut out: Vec<String> = Vec::new();
    let mut i: usize = 0;
    while i < root_deps.len()
        invariant
            names == keys_of(root_deps@),
            i <= names.len(),
            out@.map_values(|x: String| x@) == bin_packages(*result, names.take(i as int)),
        decreases names.len() - i,
    {
        let name = root_deps.key_at(i);
        let ghost o0 = out@;
        let keep = match result.root_resolved.get(name.as_str()) {
            Some(k) => result.packages.contains_key(k.as_str()),
            None => false,
        };
        if keep {
            out.push(name.clone());
        }
        proof {
            let t = names.take(i + 1);
            assert(t.drop_last() =~= names.take(i as int));
            assert(t.last() == name@);
            assert(out@.map_values(|x: String| x@) =~= if keep { o0.map_values(|x: String| x@).push(name@) } else { o0.map_values(|x: String| x@) });
        }
        i = i + 1;
    }
    assert(names.take(names.len() as int) =~= names);
    out
}

/// A hexadecimal digit is no blank.
proof fn lemma_hex_digit_not_blank(n: u8)
    requires
        n < 16,
    ensures
        !crate::text::is_whitespace(crate::integrity::hex_digit(n)),
        (crate::integrity::hex_digit(n) as int) >= 48,
{
    let c = crate::integrity::hex_digit(n);
    if n < 10 {
        assert(c as int == n + 48);
    } else {
        assert(c as int == n + 87);
    }
}

/// The hexadecimal text of bytes begins with the high digit of the first
/// byte and ends with the low digit of the last one.
proof fn lemma_hex_ends(d: Seq<u8>)
    requires
        d.len() > 0,
    ensures
        hex_lower(d).len() == 2 * d.len(),
        hex_lower(d)[0] == crate::integrity::hex_digit(d[0] / 16),
        hex_lower(d).last() == crate::integrity::hex_digit(d.last() % 16),
    decreases d.len(),
{
    if d.len() > 1 {
        lemma_hex_ends(d.drop_last());
        assert(d.drop_last()[0] == d[0]);
    } else {
        assert(hex_lower(d.drop_last()) =~= Seq::<char>::empty());
    }
}

/// The text of a fingerprint has no blanks around it, so a recorded
/// fingerprint, read back, is found up to date: [`check_fingerprint`] of it
/// against itself holds.
pub proof fn law_fingerprint_recheck(ps: Seq<(Seq<char>, PackageInfo)>, r: Seq<char>)
    requires
        fingerprint_of(ps, r),
    ensures
        trim(r) == r,
{
    let order = choose|order: Seq<usize>|
        sorted_order(package_keys(ps), order)
        && r == hex_lower(sha256_of(encode_utf8(#[trigger] fingerprint_text(ps, order))));
    let d = sha256_of(encode_utf8(fingerprint_text(ps, order)));
    if d.len() == 0 {
        assert(r =~= Seq::<char>::empty());
    } else {
        lemma_hex_ends(d);
        lemma_hex_digit_not_blank(d[0] / 16);
        lemma_hex_digit_not_blank(d.last() % 16);
        assert(crate::text::trim_start(r) == r);
        assert(crate::text::trim_end(r) == r);
    }
}

/// The lines that the fingerprint hashes, as pairs of key and integrity,
/// in the order `order`.
pub open spec fn fingerprint_pairs(ps: Seq<(Seq<char>, PackageInfo)>, order: Seq<usize>) -> Seq<(Seq<char>, Seq<char>)> {
    order.map_values(|i: usize| (ps[i as int].0, ps[i as int].1.integrity@))
}

/// The text of the lines `pairs`.
pub open spec fn pairs_text(pairs: Seq<(Seq<char>, Seq<char>)>) -> Seq<char>
    decreases pairs.len(),
{
    if pairs.len() == 0 {
        seq![]
    } else {
        pairs_text(pairs.drop_last()) + pairs.last().0 + ":"@ + pairs.last().1 + "\n"@
    }
}

/// The text that the fingerprint hashes depends on the keys and integrities
/// only.
proof fn lemma_text_of_pairs(ps: Seq<(Seq<char>, PackageInfo)>, order: Seq<usize>)
    ensures
        fingerprint_text(ps, order) == pairs_text(fingerprint_pairs(ps, order)),
    decreases order.len(),
{
    if order.len() > 0 {
        lemma_text_of_pairs(ps, order.drop_last());
        assert(fingerprint_pairs(ps, order).drop_last() =~= fingerprint_pairs(ps, order.drop_last()));
    }
}

/// Every position below `n` occurs in a sequence of `n` distinct positions
/// below `n`.
proof fn lemma_onto(order: Seq<usize>, n: usize, x: usize)
    requires
        order.len() == n,
        forall|i: int| 0 <= i < order.len() ==> (#[trigger] order[i]) < n,
        forall|i: int, j: int| 0 <= i < order.len() && 0 <= j < order.len() && i != j ==> order[i] != order[j],
        x < n,
    ensures
        order.contains(x),
{
    let s = order.map_values(|v: usize| v as int).to_set();
    let full = Set::new(|y: int| 0 <= y < n as int);
    broadcast use vstd::seq_lib::seq_to_set_is_finite;
    vstd::set_lib::lemma_int_range(0, n as int);
    assert(full =~= vstd::set_lib::set_int_range(0, n as int));
    let m = order.map_values(|v: usize| v as int);
    assert(m.no_duplicates()) by {
        assert forall|i: int, j: int| 0 <= i < m.len() && 0 <= j < m.len() && i != j implies m[i] != m[j] by {
            assert(order[i] != order[j]);
        }
    }
    m.unique_seq_to_set();
    assert(s.subset_of(full)) by {
        assert forall|y: int| s.contains(y) implies full.contains(y) by {
            let i = choose|i: int| 0 <= i < m.len() && m[i] == y;
            assert(order[i] < n);
        }
    }
    if !order.contains(x) {
        assert(!s.contains(x as int)) by {
            if s.contains(x as int) {
                let i = choose|i: int| 0 <= i < m.len() && m[i] == x as int;
                assert(order[i] == x);
            }
        }
        vstd::set_lib::lemma_len_subset(s, full.remove(x as int));
    }
}

/// Two sequences of strings in strictly ascending order with the same
/// members are equal.
proof fn lemma_sorted_unique(a: Seq<Seq<char>>, b: Seq<Seq<char>>)
    requires
        forall|i: int, j: int| 0 <= i < j < a.len() ==> seq_lt(#[trigger] a[i], #[trigger] a[j]),
        forall|i: int, j: int| 0 <= i < j < b.len() ==> seq_lt(#[trigger] b[i], #[trigger] b[j]),
        forall|x: Seq<char>| a.contains(x) <==> b.contains(x),
    ensures
        a == b,
    decreases a.len(),
{
    if a.len() == 0 {
        if b.len() > 0 {
            assert(b.contains(b[0]));
        }
        assert(a =~= b);
    } else {
        assert(a.contains(a[0]));
        assert(b.len() > 0);
        assert(b.contains(b[0]));
        let i = choose|i: int| 0 <= i < b.len() && b[i] == a[0];
        let j = choose|j: int| 0 <= j < a.len() && a[j] == b[0];
        if i > 0 {
            assert(seq_lt(b[0], b[i]));
            if j > 0 {
                assert(seq_lt(a[0], a[j]));
                lemma_seq_lt_total(a[0], b[0]);
            } else {
                lemma_seq_lt_total(a[0], a[0]);
            }
        }
        assert(i == 0);
        let a1 = a.drop_first();
        let b1 = b.drop_first();
        assert forall|x: Seq<char>| a1.contains(x) <==> b1.contains(x) by {
            if a1.contains(x) {
                let k = choose|k: int| 0 <= k < a1.len() && a1[k] == x;
                assert(a[k + 1] == x);
                assert(seq_lt(a[0], a[k + 1]));
                lemma_seq_lt_total(a[0], a[0]);
                assert(b.contains(x));
                let l = choose|l: int| 0 <= l < b.len() && b[l] == x;
                assert(l != 0);
                assert(b1[l - 1] == x);
            }
            if b1.contains(x) {
                let k = choose|k: int| 0 <= k < b1.len() && b1[k] == x;
                assert(b[k + 1] == x);
                assert(seq_lt(b[0], b[k + 1]));
                lemma_seq_lt_total(b[0], b[0]);
                assert(a.contains(x));
                let l = choose|l: int| 0 <= l < a.len() && a[l] == x;
                assert(l != 0);
                assert(a1[l - 1] == x);
            }
        }
        lemma_sorted_unique(a1, b1);
        assert(a =~= seq![a[0]] + a1);
        assert(b =~= seq![b[0]] + b1);
    }
}

/// The keys of `ps` in the order `order`.
pub open spec fn keys_in_order(ps: Seq<(Seq<char>, PackageInfo)>, order: Seq<usize>) -> Seq<Seq<char>> {
    order.map_values(|i: usize| ps[i as int].0)
}

/// In a sorted order of distinct keys, the keys strictly ascend and are
/// exactly the keys of the entries.
proof fn lemma_sorted_keys(ps: Seq<(Seq<char>, PackageInfo)>, order: Seq<usize>)
    requires
        crate::strmap::distinct_keys(ps),
        sorted_order(package_keys(ps), order),
        ps.len() <= usize::MAX,
    ensures
        forall|i: int, j: int| 0 <= i < j < order.len() ==> seq_lt(#[trigger] keys_in_order(ps, order)[i], #[trigger] keys_in_order(ps, order)[j]),
        forall|x: Seq<char>| keys_in_order(ps, order).contains(x) <==> has_key(ps, x),
{
    let ks = keys_in_order(ps, order);
    let pk = package_keys(ps);
    assert forall|i: int, j: int| 0 <= i < j < order.len() implies seq_lt(#[trigger] ks[i], #[trigger] ks[j]) by {
        assert(!seq_lt(pk[order[j] as int], pk[order[i] as int]));
        assert(order[i] != order[j]);
        assert(ks[i] != ks[j]);
        lemma_seq_lt_total(ks[i], ks[j]);
    }
    assert forall|x: Seq<char>| ks.contains(x) <==> has_key(ps, x) by {
        if ks.contains(x) {
            let i = choose|i: int| 0 <= i < ks.len() && ks[i] == x;
            assert(order[i] < ps.len());
            assert(ps[order[i] as int].0 == x);
        }
        if has_key(ps, x) {
            let w = choose|w: int| 0 <= w < ps.len() && ps[w].0 == x;
            lemma_onto(order, ps.len() as usize, w as usize);
            let i = choose|i: int| 0 <= i < order.len() && order[i] == w as usize;
            assert(ks[i] == x);
        }
    }
}

/// The fingerprint depends only on which packages there are, by key and
/// integrity, not on the order in which the resolution lists them: two
/// resolutions with the same keys, each key with the same integrity, have
/// the same fingerprint.
pub proof fn law_fingerprint_order_free(
    ps: Seq<(Seq<char>, PackageInfo)>,
    qs: Seq<(Seq<char>, PackageInfo)>,
    r: Seq<char>,
    s: Seq<char>,
)
    requires
        crate::strmap::distinct_keys(ps),
        crate::strmap::distinct_keys(qs),
        ps.len() <= usize::MAX,
        qs.len() <= usize::MAX,
        forall|k: Seq<char>| #[trigger] has_key(ps, k) <==> has_key(qs, k),
        forall|k: Seq<char>| has_key(ps, k) ==> (#[trigger] lookup(ps, k))->0.integrity == lookup(qs, k)->0.integrity,
        fingerprint_of(ps, r),
        fingerprint_of(qs, s),
    ensures
        r == s,
{
    let o1 = choose|order: Seq<usize>|
        sorted_order(package_keys(ps), order)
        && r == hex_lower(sha256_of(encode_utf8(#[trigger] fingerprint_text(ps, order))));
    let o2 = choose|order: Seq<usize>|
        sorted_order(package_keys(qs), order)
        && s == hex_lower(sha256_of(encode_utf8(#[trigger] fingerprint_text(qs, order))));
    lemma_sorted_keys(ps, o1);
    lemma_sorted_keys(qs, o2);
    let k1 = keys_in_order(ps, o1);
    let k2 = keys_in_order(qs, o2);
    assert forall|x: Seq<char>| k1.contains(x) <==> k2.contains(x) by {
        assert(has_key(ps, x) == has_key(qs, x));
    }
    lemma_sorted_unique(k1, k2);
    assert(o1.len() == o2.len());
    let p1 = fingerprint_pairs(ps, o1);
    let p2 = fingerprint_pairs(qs, o2);
    assert forall|j: int| 0 <= j < p1.len() implies p1[j] == p2[j] by {
        assert(k1[j] == k2[j]);
        let a = o1[j] as int;
        let b = o2[j] as int;
        crate::strmap::lemma_index_of_distinct(ps, a);
        crate::strmap::lemma_index_of_distinct(qs, b);
        assert(has_key(ps, ps[a].0));
        assert(lookup(ps, k1[j]) == Some(ps[a].1));
        assert(lookup(qs, k1[j]) == Some(qs[b].1));
    }
    assert(p1 =~= p2);
    lemma_text_of_pairs(ps, o1);
    lemma_text_of_pairs(qs, o2);
}


/// `p` lists `d` among its dependencies, optional dependencies or peers.
pub open spec fn depends_on_name(p: PackageInfo, d: Seq<char>) -> bool {
    has_key(p.dependencies@, d) || has_key(p.optional_dependencies@, d) || has_key(p.peer_dependencies@, d)
}

/// The candidates of fewer packages come first among those of more.
proof fn lemma_candidates_prefix(ps: Seq<(Seq<char>, PackageInfo)>, vee: Seq<char>, n1: int, n2: int, m: int)
    requires
        0 <= n1 <= n2,
        0 <= m < link_candidates(ps, vee, n1).len(),
    ensures
        m < link_candidates(ps, vee, n2).len(),
        link_candidates(ps, vee, n2)[m] == link_candidates(ps, vee, n1)[m],
    decreases n2 - n1,
{
    if n1 < n2 {
        lemma_candidates_prefix(ps, vee, n1, n2 - 1, m);
        let prev = link_candidates(ps, vee, n2 - 1);
        assert(link_candidates(ps, vee, n2)[m] == prev[m]);
    }
}

/// Each candidate is the link of a name of one of the packages.
proof fn lemma_candidate_origin(ps: Seq<(Seq<char>, PackageInfo)>, vee: Seq<char>, n: int, j: int)
    requires
        0 <= n,
        0 <= j < link_candidates(ps, vee, n).len(),
    ensures
        exists|i2: int, t2: int|
            0 <= i2 < n && 0 <= t2 < linked_names(ps[i2].1).len() && j == link_candidates(ps, vee, i2).len() + t2
                && #[trigger] link_candidates(ps, vee, n)[j] == dep_link(ps, vee, ps[i2].1, linked_names(ps[i2].1)[t2]),
    decreases n,
{
    let prev = link_candidates(ps, vee, n - 1);
    if j < prev.len() {
        lemma_candidate_origin(ps, vee, n - 1, j);
        let (i2, t2) = choose|i2: int, t2: int|
            0 <= i2 < n - 1 && 0 <= t2 < linked_names(ps[i2].1).len() && j == link_candidates(ps, vee, i2).len() + t2
                && #[trigger] link_candidates(ps, vee, n - 1)[j] == dep_link(ps, vee, ps[i2].1, linked_names(ps[i2].1)[t2]);
        assert(link_candidates(ps, vee, n)[j] == prev[j]);
    } else {
        let t2 = j - prev.len();
        assert(link_candidates(ps, vee, n)[j] == dep_link(ps, vee, ps[n - 1].1, linked_names(ps[n - 1].1)[t2]));
    }
}

/// A name that `p` lists is among the names it links.
proof fn lemma_listed_is_linked(p: PackageInfo, d: Seq<char>)
    requires
        depends_on_name(p, d),
    ensures
        exists|t: int| 0 <= t < linked_names(p).len() && #[trigger] linked_names(p)[t] == d,
{
    let a = keys_of(p.dependencies@);
    let b = keys_of(p.optional_dependencies@);
    let c = keys_of(p.peer_dependencies@);
    if has_key(p.dependencies@, d) {
        let w = choose|w: int| 0 <= w < p.dependencies@.len() && p.dependencies@[w].0 == d;
        assert(linked_names(p)[w] == d);
    } else if has_key(p.optional_dependencies@, d) {
        let w = choose|w: int| 0 <= w < p.optional_dependencies@.len() && p.optional_dependencies@[w].0 == d;
        assert(linked_names(p)[a.len() + w] == d);
    } else {
        let w = choose|w: int| 0 <= w < p.peer_dependencies@.len() && p.peer_dependencies@[w].0 == d;
        assert(linked_names(p)[a.len() + b.len() + w] == d);
    }
}

/// A name that `p` links is one that it lists.
proof fn lemma_linked_is_listed(p: PackageInfo, t: int)
    requires
        0 <= t < linked_names(p).len(),
    ensures
        depends_on_name(p, linked_names(p)[t]),
{
    let a = keys_of(p.dependencies@);
    let b = keys_of(p.optional_dependencies@);
    let d = linked_names(p)[t];
    if t < a.len() {
        assert(p.dependencies@[t].0 == d);
    } else if t < a.len() + b.len() {
        assert(p.optional_dependencies@[t - a.len()].0 == d);
    } else {
        assert(p.peer_dependencies@[t - a.len() - b.len()].0 == d);
    }
}

/// A candidate link is kept unless its path is taken, or it is the first with
/// its path and then it is kept as it is.
proof fn lemma_fresh_keeps(
    c: Seq<Option<(Seq<char>, Seq<char>)>>,
    taken: Seq<Seq<char>>,
    m: int,
    l: (Seq<char>, Seq<char>),
)
    requires
        0 <= m < c.len(),
        c[m] == Some(l),
    ensures
        !taken.contains(l.0) && (forall|j: int| 0 <= j < m ==> !(c[j] is Some && (c[j]->0).0 == l.0)) ==> fresh_links(
            c,
            taken,
        ).contains(l),
    decreases c.len(),
{
    let rest = c.drop_first();
    if m == 0 {
        if !taken.contains(l.0) {
            assert(fresh_links(c, taken)[0] == l);
        }
    } else {
        assert(rest[m - 1] == c[m]);
        match c[0] {
            Some(l0) => {
                if taken.contains(l0.0) {
                    lemma_fresh_keeps(rest, taken, m - 1, l);
                    if !taken.contains(l.0) && (forall|j: int| 0 <= j < m ==> !(c[j] is Some && (c[j]->0).0 == l.0)) {
                        assert forall|j: int| 0 <= j < m - 1 implies !(rest[j] is Some && (rest[j]->0).0 == l.0) by {
                            assert(rest[j] == c[j + 1]);
                        }
                    }
                } else {
                    let t2 = taken.push(l0.0);
                    lemma_fresh_keeps(rest, t2, m - 1, l);
                    if !taken.contains(l.0) && (forall|j: int| 0 <= j < m ==> !(c[j] is Some && (c[j]->0).0 == l.0)) {
                        assert(l0.0 != l.0);
                        assert(!t2.contains(l.0)) by {
                            if t2.contains(l.0) {
                                let x = choose|x: int| 0 <= x < t2.len() && t2[x] == l.0;
                                if x < taken.len() {
                                    assert(taken[x] == l.0);
                                }
                            }
                        }
                        assert forall|j: int| 0 <= j < m - 1 implies !(rest[j] is Some && (rest[j]->0).0 == l.0) by {
                            assert(rest[j] == c[j + 1]);
                        }
                        let f = fresh_links(rest, t2);
                        let x = choose|x: int| 0 <= x < f.len() && f[x] == l;
                        assert(fresh_links(c, taken)[x + 1] == l);
                    }
                }
            },
            None => {
                lemma_fresh_keeps(rest, taken, m - 1, l);
                if !taken.contains(l.0) && (forall|j: int| 0 <= j < m ==> !(c[j] is Some && (c[j]->0).0 == l.0)) {
                    assert forall|j: int| 0 <= j < m - 1 implies !(rest[j] is Some && (rest[j]->0).0 == l.0) by {
                        assert(rest[j] == c[j + 1]);
                    }
                }
            },
        }
    }
}

/// Among candidates up to `m` with the path `path`, there is a first.
proof fn lemma_first_with_path(c: Seq<Option<(Seq<char>, Seq<char>)>>, path: Seq<char>, m: int)
    requires
        0 <= m < c.len(),
        c[m] is Some && (c[m]->0).0 == path,
    ensures
        exists|j: int|
            0 <= j <= m && c[j] is Some && (c[j]->0).0 == path && forall|k: int| 0 <= k < j ==> !(#[trigger] c[k] is Some && (c[k]->0).0 == path),
    decreases m,
{
    if exists|k: int| 0 <= k < m && c[k] is Some && (c[k]->0).0 == path {
        let k = choose|k: int| 0 <= k < m && c[k] is Some && (c[k]->0).0 == path;
        lemma_first_with_path(c, path, k);
    } else {
        assert(forall|k: int| 0 <= k < m ==> !(#[trigger] c[k] is Some && (c[k]->0).0 == path));
    }
}

/// In the plan of a resolution `ps`, every dependency, optional dependency
/// and peer `d` of package `i` that resolved to a package `q` of `ps` is
/// linked in the package's `node_modules` to `q`'s directory in the store,
/// unless that path is already taken: by a package's store directory, or by
/// the planned link of another name of a package that comes no later.
pub proof fn law_dependency_links(ps: Seq<(Seq<char>, PackageInfo)>, vee: Seq<char>, i: int, d: Seq<char>)
    requires
        0 <= i < ps.len(),
        depends_on_name(ps[i].1, d),
        lookup(ps[i].1.resolved_deps@, d) matches Some(k) && lookup(ps, k@) is Some,
    ensures
        ({
            let p = ps[i].1;
            let q = lookup(ps, lookup(p.resolved_deps@, d)->0@)->0;
            let path = path_join(package_modules(vee, p), d);
            let links = fresh_links(link_candidates(ps, vee, ps.len() as int), store_dirs(ps, vee));
            ||| links.contains(link_to(path, store_dir(vee, q)))
            ||| store_dirs(ps, vee).contains(path)
            ||| exists|i2: int, d2: Seq<char>|
                0 <= i2 <= i && (i2 < i || d2 != d) && depends_on_name(ps[i2].1, d2) && #[trigger] dep_link(
                    ps,
                    vee,
                    ps[i2].1,
                    d2,
                ) is Some && (dep_link(ps, vee, ps[i2].1, d2)->0).0 == path && links.contains(
                    dep_link(ps, vee, ps[i2].1, d2)->0,
                )
        }),
{
    let p = ps[i].1;
    let q = lookup(ps, lookup(p.resolved_deps@, d)->0@)->0;
    let path = path_join(package_modules(vee, p), d);
    let n = ps.len() as int;
    let c = link_candidates(ps, vee, n);
    let taken = store_dirs(ps, vee);
    let links = fresh_links(c, taken);
    let l = link_to(path, store_dir(vee, q));
    assert(dep_link(ps, vee, p, d) == Some(l));
    lemma_listed_is_linked(p, d);
    let t = choose|t: int| 0 <= t < linked_names(p).len() && #[trigger] linked_names(p)[t] == d;
    let base = link_candidates(ps, vee, i).len();
    let m = base + t;
    assert(link_candidates(ps, vee, i + 1) == link_candidates(ps, vee, i) + linked_names(p).map_values(
        |x: Seq<char>| dep_link(ps, vee, p, x),
    ));
    assert(link_candidates(ps, vee, i + 1)[m] == Some(l));
    lemma_candidates_prefix(ps, vee, i + 1, n, m);
    assert(c[m] == Some(l));
    if !taken.contains(path) {
        lemma_first_with_path(c, path, m);
        let j = choose|j: int|
            0 <= j <= m && c[j] is Some && (c[j]->0).0 == path && forall|k: int| 0 <= k < j ==> !(#[trigger] c[k] is Some && (c[k]->0).0 == path);
        let l2 = c[j]->0;
        lemma_fresh_keeps(c, taken, j, l2);
        assert(links.contains(l2));
        if j == m {
            assert(links.contains(l));
        } else {
            lemma_candidate_origin(ps, vee, n, j);
            let (i2, t2) = choose|i2: int, t2: int|
                0 <= i2 < n && 0 <= t2 < linked_names(ps[i2].1).len() && j == link_candidates(ps, vee, i2).len() + t2
                    && #[trigger] link_candidates(ps, vee, n)[j] == dep_link(ps, vee, ps[i2].1, linked_names(ps[i2].1)[t2]);
            let d2 = linked_names(ps[i2].1)[t2];
            lemma_linked_is_listed(ps[i2].1, t2);
            if i2 > i {
                lemma_candidates_prefix(ps, vee, i + 1, i2, m);
                assert(link_candidates(ps, vee, i + 1).len() <= link_candidates(ps, vee, i2).len());
            }
            if i2 == i && d2 == d {
                assert(l2 == l);
            } else {
                assert(dep_link(ps, vee, ps[i2].1, d2) == Some(l2));
                assert(0 <= i2 <= i && (i2 < i || d2 != d) && depends_on_name(ps[i2].1, d2));
            }
        }
    }
}

} // verus!
