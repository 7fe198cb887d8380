//! The lockfile `vee.lock`: what a resolution chose, kept so that the next
//! install can skip resolving.
//!
//! Reading and writing the file is JSON work done outside the library; here
//! a lockfile is built from a resolution, turned back into one, and checked
//! against the dependencies of the project.

use vstd::prelude::*;
use crate::resolver::{PackageInfo, ResolveResult, PeerWarning, keys_match, edges_closed, targets_in};
use crate::semver_npm::{parse_version, semver_version_text};
use crate::strmap::{StrMap, has_key, lookup, keys_of, opt_seq, copy_opt_strings, str_entries, distinct_keys, index_of_key};

verus! {

/// The format version written into new lockfiles.
pub const LOCKFILE_VERSION: u32 = 2;

/// A resolved package as the lockfile keeps it.
pub struct LockedPackage {
    pub name: String,
    pub version: String,
    pub tarball_url: String,
    pub integrity: String,
    pub dependencies: StrMap<String>,
    pub optional_dependencies: StrMap<String>,
    pub peer_dependencies: StrMap<String>,
    pub optional_peers: Vec<String>,
    pub os: Option<Vec<String>>,
    pub cpu: Option<Vec<String>>,
    pub has_install_script: bool,
    pub resolved_deps: StrMap<String>,
}

/// The contents of `vee.lock`.
pub struct Lockfile {
    pub lockfile_version: u32,
    /// The dependencies of the project (name to range) it was made for.
    pub root_deps: StrMap<String>,
    pub root_resolved: StrMap<String>,
    pub packages: StrMap<LockedPackage>,
}

/// Why a lockfile could not be turned back into a resolution.
pub enum LockfileError {
    /// A package version that is not a semantic version.
    InvalidVersion { version: String },
}

/// The optional peers of a package, as a list of names.
pub open spec fn names_of(l: Seq<String>) -> Seq<Seq<char>> {
    l.map_values(|s: String| s@)
}

/// `lp` is package `p` as the lockfile keeps it.
pub open spec fn locks(lp: LockedPackage, p: PackageInfo) -> bool {
    &&& lp.name == p.name
    &&& lp.version@ == p.version@
    &&& lp.tarball_url == p.tarball_url
    &&& lp.integrity == p.integrity
    &&& lp.dependencies@ == p.dependencies@
    &&& lp.optional_dependencies@ == p.optional_dependencies@
    &&& lp.peer_dependencies@ == p.peer_dependencies@
    &&& names_of(lp.optional_peers@) == keys_of(p.optional_peers@)
    &&& opt_seq(lp.os) == opt_seq(p.os)
    &&& opt_seq(lp.cpu) == opt_seq(p.cpu)
    &&& lp.has_install_script == p.has_install_script
    &&& lp.resolved_deps@ == p.resolved_deps@
}

/// `p` is what the lockfile entry `lp` stands for: the same package, its
/// version parsed again.
pub open spec fn unlocks(p: PackageInfo, lp: LockedPackage) -> bool {
    &&& p.name == lp.name
    &&& semver_version_text(lp.version@) == Some(p.version@)
    &&& p.tarball_url == lp.tarball_url
    &&& p.integrity == lp.integrity
    &&& p.dependencies@ == lp.dependencies@
    &&& p.optional_dependencies@ == lp.optional_dependencies@
    &&& p.peer_dependencies@ == lp.peer_dependencies@
    &&& (forall|k: Seq<char>| has_key(p.optional_peers@, k) <==> names_of(lp.optional_peers@).contains(k))
    &&& opt_seq(p.os) == opt_seq(lp.os)
    &&& opt_seq(p.cpu) == opt_seq(lp.cpu)
    &&& p.has_install_script == lp.has_install_script
    &&& p.resolved_deps@ == lp.resolved_deps@
}

/// The entries `lps` keep the packages `ps`, key by key and in order.
pub open spec fn all_locked(lps: Seq<(Seq<char>, LockedPackage)>, ps: Seq<(Seq<char>, PackageInfo)>) -> bool {
    &&& lps.len() == ps.len()
    &&& forall|i: int| 0 <= i < ps.len() ==> (#[trigger] lps[i]).0 == ps[i].0 && locks(lps[i].1, ps[i].1)
}

/// The packages `ps` are what the entries `lps` stand for, key by key and in
/// order.
pub open spec fn all_unlocked(ps: Seq<(Seq<char>, PackageInfo)>, lps: Seq<(Seq<char>, LockedPackage)>) -> bool {
    &&& lps.len() == ps.len()
    &&& forall|i: int| 0 <= i < ps.len() ==> (#[trigger] ps[i]).0 == lps[i].0 && unlocks(ps[i].1, lps[i].1)
}

fn set_names(s: &StrMap<()>) -> (r: Vec<String>)
    ensures
        names_of(r@) == keys_of(s@),
{
    let mut r: Vec<String> = Vec::new();
    let mut i: usize = 0;
    while i < s.len()
        invariant
            i <= s@.len(),
            names_of(r@) == keys_of(s@.take(i as int)),
        decreases s@.len() - i,
    {
        let ghost before = r@;
        r.push(s.key_at(i).clone());
        assert(names_of(r@) =~= names_of(before).push(s@[i as int].0));
        assert(keys_of(s@.take(i + 1)) =~= keys_of(s@.take(i as int)).push(s@[i as int].0));
        i = i + 1;
    }
    assert(s@.take(s@.len() as int) =~= s@);
    r
}

fn names_set(l: &Vec<String>) -> (r: StrMap<()>)
    ensures
        forall|k: Seq<char>| has_key(r@, k) <==> names_of(l@).contains(k),
{
    let mut r: StrMap<()> = StrMap::new();
    let mut i: usize = 0;
    while i < l.len()
        invariant
            i <= l@.len(),
            forall|k: Seq<char>| has_key(r@, k) <==> names_of(l@.take(i as int)).contains(k),
        decreases l@.len() - i,
    {
        let ghost before = r@;
        r.insert(l[i].clone(), ());
        assert forall|k: Seq<char>| has_key(r@, k) <==> names_of(l@.take(i + 1)).contains(k) by {
            crate::strmap::lemma_inserted_keys(before, l@[i as int]@, (), k);
            let p = names_of(l@.take(i as int));
            let q = names_of(l@.take(i + 1));
            assert(q =~= p.push(l@[i as int]@));
            if q.contains(k) {
                let w = choose|w: int| 0 <= w < q.len() && q[w] == k;
                if w < p.len() {
                    assert(p[w] == k);
                }
            }
            if p.contains(k) {
                let w = choose|w: int| 0 <= w < p.len() && p[w] == k;
                assert(q[w] == k);
            }
            if k == l@[i as int]@ {
                assert(q[p.len() as int] == k);
            }
        }
        i = i + 1;
    }
    assert(l@.take(l@.len() as int) =~= l@);
    r
}

fn lock_package(p: &PackageInfo) -> (r: LockedPackage)
    ensures
        locks(r, *p),
{
    LockedPackage {
        name: p.name.clone(),
        version: p.version.to_text(),
        tarball_url: p.tarball_url.clone(),
        integrity: p.integrity.clone(),
        dependencies: p.dependencies.duplicate(),
        optional_dependencies: p.optional_dependencies.duplicate(),
        peer_dependencies: p.peer_dependencies.duplicate(),
        optional_peers: set_names(&p.optional_peers),
        os: copy_opt_strings(&p.os),
        cpu: copy_opt_strings(&p.cpu),
        has_install_script: p.has_install_script,
        resolved_deps: p.resolved_deps.duplicate(),
    }
}

impl Lockfile {
    /// The lockfile of resolution `result`, made for the dependencies
    /// `root_deps` of the project.
    pub fn from_resolve_result(result: &ResolveResult, root_deps: &StrMap<String>) -> (r: Lockfile)
        ensures
            r.lockfile_version == LOCKFILE_VERSION,
            r.root_deps@ == root_deps@,
            r.root_resolved@ == result.root_resolved@,
            all_locked(r.packages@, result.packages@),
            // Every version text it keeps parses back to itself, so the
            // lockfile gives back a resolution.
            forall|j: int|
                0 <= j < r.packages@.len() ==> semver_version_text((#[trigger] r.packages@[j]).1.version@) == Some(
                    r.packages@[j].1.version@,
                ),
    {
        let _ = result.packages.unique();
        let mut packages: StrMap<LockedPackage> = StrMap::new();
        let mut i: usize = 0;
        while i < result.packages.len()
            invariant
                i <= result.packages@.len(),
                distinct_keys(result.packages@),
                all_locked(packages@, result.packages@.take(i as int)),
                forall|j: int|
                    0 <= j < packages@.len() ==> semver_version_text((#[trigger] packages@[j]).1.version@) == Some(
                        packages@[j].1.version@,
                    ),
            decreases result.packages@.len() - i,
        {
            let key = result.packages.key_at(i);
            let p = result.packages.value_at(i);
            proof {
                use_type_invariant(&p.version);
            }
            let lp = lock_package(p);
            let ghost before = packages@;
            assert(!has_key(before, key@)) by {
                if has_key(before, key@) {
                    let w = choose|w: int| 0 <= w < before.len() && before[w].0 == key@;
                    assert(result.packages@[w].0 == key@);
                }
            }
            proof { crate::strmap::lemma_index_of_key(before, key@); }
            packages.insert(key.clone(), lp);
            assert(packages@ == before.push((key@, lp)));
            assert(all_locked(packages@, result.packages@.take(i + 1)));
            i = i + 1;
        }
        assert(result.packages@.take(result.packages@.len() as int) =~= result.packages@);
        Lockfile {
            lockfile_version: LOCKFILE_VERSION,
            root_deps: root_deps.duplicate(),
            root_resolved: result.root_resolved.duplicate(),
            packages,
        }
    }

    /// The resolution that the lockfile keeps; every version must parse.
    pub fn to_resolve_result(&self) -> (r: Result<ResolveResult, LockfileError>)
        ensures
            match r {
                Ok(res) => {
                    &&& all_unlocked(res.packages@, self.packages@)
                    &&& res.root_resolved@ == self.root_resolved@
                    &&& res.peer_warnings@.len() == 0
                    &&& res.conflict_warnings@.len() == 0
                },
                Err(LockfileError::InvalidVersion { version }) => exists|i: int|
                    0 <= i < self.packages@.len() && semver_version_text(
                        (#[trigger] self.packages@[i]).1.version@,
                    ) is None && version@ == self.packages@[i].1.version@,
            },
            r is Ok <==> forall|i: int|
                0 <= i < self.packages@.len() ==> semver_version_text(
                    (#[trigger] self.packages@[i]).1.version@,
                ) is Some,
    {
        let _ = self.packages.unique();
        let mut packages: StrMap<PackageInfo> = StrMap::new();
        let mut i: usize = 0;
        while i < self.packages.len()
            invariant
                i <= self.packages@.len(),
                distinct_keys(self.packages@),
                all_unlocked(packages@, self.packages@.take(i as int)),
                forall|j: int| 0 <= j < i ==> semver_version_text(
                    (#[trigger] self.packages@[j]).1.version@,
                ) is Some,
            decreases self.packages@.len() - i,
        {
            let key = self.packages.key_at(i);
            let lp = self.packages.value_at(i);
            let version = match parse_version(lp.version.as_str()) {
                Some(v) => v,
                None => return Err(LockfileError::InvalidVersion { version: lp.version.clone() }),
            };
            let p = PackageInfo {
                name: lp.name.clone(),
                version,
                tarball_url: lp.tarball_url.clone(),
                integrity: lp.integrity.clone(),
                dependencies: lp.dependencies.duplicate(),
                optional_dependencies: lp.optional_dependencies.duplicate(),
                peer_dependencies: lp.peer_dependencies.duplicate(),
                optional_peers: names_set(&lp.optional_peers),
                os: copy_opt_strings(&lp.os),
                cpu: copy_opt_strings(&lp.cpu),
                has_install_script: lp.has_install_script,
                resolved_deps: lp.resolved_deps.duplicate(),
            };
            let ghost before = packages@;
            assert(!has_key(before, key@)) by {
                if has_key(before, key@) {
                    let w = choose|w: int| 0 <= w < before.len() && before[w].0 == key@;
                    assert(self.packages@[w].0 == key@);
                }
            }
            proof { crate::strmap::lemma_index_of_key(before, key@); }
            packages.insert(key.clone(), p);
            assert(packages@ == before.push((key@, p)));
            assert(all_unlocked(packages@, self.packages@.take(i + 1)));
            i = i + 1;
        }
        assert(self.packages@.take(self.packages@.len() as int) =~= self.packages@);
        Ok(
            ResolveResult {
                packages,
                peer_warnings: Vec::new(),
                conflict_warnings: Vec::new(),
                root_resolved: self.root_resolved.duplicate(),
            },
        )
    }

    /// Whether the lockfile was made for exactly the dependencies
    /// `current_deps` (the same names with the same ranges).
    pub fn is_current(&self, current_deps: &StrMap<String>) -> (r: bool)
        ensures
            r == (forall|k: Seq<char>| #[trigger] lookup(str_entries(self.root_deps@), k) == lookup(
                str_entries(current_deps@),
                k,
            )),
    {
        let _ = self.root_deps.unique();
        let _ = current_deps.unique();
        let ghost a = str_entries(self.root_deps@);
        let ghost b = str_entries(current_deps@);
        if self.root_deps.len() != current_deps.len() {
            proof {
                if forall|k: Seq<char>| #[trigger] lookup(a, k) == lookup(b, k) {
                    lemma_same_lookup_same_len(a, b);
                }
            }
            return false;
        }
        let mut i: usize = 0;
        while i < current_deps.len()
            invariant
                i <= current_deps@.len(),
                current_deps@.len() == self.root_deps@.len(),
                a == str_entries(self.root_deps@),
                b == str_entries(current_deps@),
                distinct_keys(a),
                distinct_keys(b),
                forall|j: int| 0 <= j < i ==> lookup(a, (#[trigger] b[j]).0) == Some(b[j].1),
            decreases current_deps@.len() - i,
        {
            let k = current_deps.key_at(i);
            proof {
                crate::strmap::lemma_index_of_distinct(b, i as int);
                crate::strmap::lemma_str_entries_index(self.root_deps@, k@);
            }
            match self.root_deps.get(k.as_str()) {
                Some(v) => {
                    if *v != *current_deps.value_at(i) {
                        proof {
                            crate::strmap::lemma_index_of_key(self.root_deps@, k@);
                            assert(lookup(a, k@) != lookup(b, k@));
                        }
                        return false;
                    }
                    proof {
                        crate::strmap::lemma_index_of_key(self.root_deps@, k@);
                    }
                },
                None => {
                    proof {
                        crate::strmap::lemma_index_of_key(a, k@);
                    }
                    return false;
                },
            }
            i = i + 1;
        }
        proof {
            lemma_contained_same(a, b);
        }
        true
    }
}

/// `q` is package `p` after a trip through the lockfile: the same fields,
/// the version parsed again from its text.
pub open spec fn same_after_trip(p: PackageInfo, q: PackageInfo) -> bool {
    &&& q.name == p.name
    &&& semver_version_text(p.version@) == Some(q.version@)
    &&& q.tarball_url == p.tarball_url
    &&& q.integrity == p.integrity
    &&& q.dependencies@ == p.dependencies@
    &&& q.optional_dependencies@ == p.optional_dependencies@
    &&& q.peer_dependencies@ == p.peer_dependencies@
    &&& (forall|k: Seq<char>| has_key(q.optional_peers@, k) <==> has_key(p.optional_peers@, k))
    &&& opt_seq(q.os) == opt_seq(p.os)
    &&& opt_seq(q.cpu) == opt_seq(p.cpu)
    &&& q.has_install_script == p.has_install_script
    &&& q.resolved_deps@ == p.resolved_deps@
}

/// A lockfile gives back the resolution it was made from: the packages
/// under the same keys and in the same order, each with the same fields and
/// its version parsed again from the text the lockfile keeps; and every
/// dependency recorded still points to a package of the result.
pub proof fn law_lockfile_round_trip(
    ps: Seq<(Seq<char>, PackageInfo)>,
    lps: Seq<(Seq<char>, LockedPackage)>,
    back: Seq<(Seq<char>, PackageInfo)>,
)
    requires
        all_locked(lps, ps),
        all_unlocked(back, lps),
    ensures
        back.len() == ps.len(),
        forall|i: int| 0 <= i < ps.len() ==> (#[trigger] back[i]).0 == ps[i].0 && same_after_trip(ps[i].1, back[i].1),
        edges_closed(ps) ==> edges_closed(back),
        forall|m: Seq<(Seq<char>, String)>| targets_in(m, ps) ==> #[trigger] targets_in(m, back),
        // Versions as `semver` shows them (as every parsed version is) come
        // back with the same text.
        (forall|i: int| 0 <= i < ps.len() ==> semver_version_text((#[trigger] ps[i]).1.version@) == Some(ps[i].1.version@))
            ==> forall|i: int| 0 <= i < ps.len() ==> (#[trigger] back[i]).1.version@ == ps[i].1.version@,
{
    assert forall|i: int| 0 <= i < ps.len() implies (#[trigger] back[i]).0 == ps[i].0 && same_after_trip(ps[i].1, back[i].1) by {
        let p = ps[i].1;
        let lp = lps[i].1;
        let q = back[i].1;
        assert(locks(lp, p));
        assert(unlocks(q, lp));
        assert forall|k: Seq<char>| has_key(q.optional_peers@, k) <==> has_key(p.optional_peers@, k) by {
            let ks = keys_of(p.optional_peers@);
            if has_key(p.optional_peers@, k) {
                let w = choose|w: int| 0 <= w < p.optional_peers@.len() && p.optional_peers@[w].0 == k;
                assert(ks[w] == k);
            }
            if ks.contains(k) {
                let w = choose|w: int| 0 <= w < ks.len() && ks[w] == k;
                assert(p.optional_peers@[w].0 == k);
            }
        }
    }
    assert forall|k: Seq<char>| has_key(ps, k) <==> has_key(back, k) by {
        if has_key(ps, k) {
            let w = choose|w: int| 0 <= w < ps.len() && ps[w].0 == k;
            assert(back[w].0 == k);
        }
        if has_key(back, k) {
            let w = choose|w: int| 0 <= w < back.len() && back[w].0 == k;
            assert(ps[w].0 == k);
        }
    }
    assert forall|m: Seq<(Seq<char>, String)>| targets_in(m, ps) implies #[trigger] targets_in(m, back) by {
        assert forall|j: int| 0 <= j < m.len() implies has_key(back, (#[trigger] m[j]).1@) by {
            assert(has_key(ps, m[j].1@));
        }
    }
    if edges_closed(ps) {
        assert forall|i: int| 0 <= i < back.len() implies targets_in((#[trigger] back[i]).1.resolved_deps@, back) by {
            assert(targets_in(ps[i].1.resolved_deps@, ps));
            assert(back[i].1.resolved_deps@ == ps[i].1.resolved_deps@);
        }
    }
}

proof fn lemma_keys_set(a: Seq<(Seq<char>, Seq<char>)>)
    requires
        distinct_keys(a),
    ensures
        keys_of(a).no_duplicates(),
        keys_of(a).to_set().len() == a.len(),
        keys_of(a).to_set().finite(),
        forall|k: Seq<char>| #[trigger] keys_of(a).to_set().contains(k) <==> has_key(a, k),
{
    broadcast use vstd::seq_lib::seq_to_set_is_finite;
    let ka = keys_of(a);
    assert forall|i: int, j: int| 0 <= i < ka.len() && 0 <= j < ka.len() && i != j implies ka[i] != ka[j] by {
        assert(ka[i] == a[i].0);
        assert(ka[j] == a[j].0);
    }
    ka.unique_seq_to_set();
    assert forall|k: Seq<char>| #[trigger] ka.to_set().contains(k) <==> has_key(a, k) by {
        if has_key(a, k) {
            let w = choose|w: int| 0 <= w < a.len() && a[w].0 == k;
            assert(ka[w] == k);
        }
        if ka.contains(k) {
            let w = choose|w: int| 0 <= w < ka.len() && ka[w] == k;
            assert(a[w].0 == k);
        }
    }
}

proof fn lemma_same_lookup_same_len(a: Seq<(Seq<char>, Seq<char>)>, b: Seq<(Seq<char>, Seq<char>)>)
    requires
        distinct_keys(a),
        distinct_keys(b),
        forall|k: Seq<char>| #[trigger] lookup(a, k) == lookup(b, k),
    ensures
        a.len() == b.len(),
{
    lemma_keys_set(a);
    lemma_keys_set(b);
    assert forall|k: Seq<char>| keys_of(a).to_set().contains(k) <==> keys_of(b).to_set().contains(k) by {
        crate::strmap::lemma_index_of_key(a, k);
        crate::strmap::lemma_index_of_key(b, k);
        assert(lookup(a, k) == lookup(b, k));
    }
    assert(keys_of(a).to_set() =~= keys_of(b).to_set());
}

proof fn lemma_contained_same(a: Seq<(Seq<char>, Seq<char>)>, b: Seq<(Seq<char>, Seq<char>)>)
    requires
        distinct_keys(a),
        distinct_keys(b),
        a.len() == b.len(),
        forall|j: int| 0 <= j < b.len() ==> lookup(a, (#[trigger] b[j]).0) == Some(b[j].1),
    ensures
        forall|k: Seq<char>| #[trigger] lookup(a, k) == lookup(b, k),
{
    lemma_keys_set(a);
    lemma_keys_set(b);
    assert forall|k: Seq<char>| keys_of(b).to_set().contains(k) implies keys_of(a).to_set().contains(k) by {
        let w = choose|w: int| 0 <= w < b.len() && b[w].0 == k;
        assert(lookup(a, b[w].0) == Some(b[w].1));
        crate::strmap::lemma_index_of_key(a, k);
    }
    vstd::set_lib::lemma_subset_equality(keys_of(b).to_set(), keys_of(a).to_set());
    assert forall|k: Seq<char>| #[trigger] lookup(a, k) == lookup(b, k) by {
        crate::strmap::lemma_index_of_key(a, k);
        crate::strmap::lemma_index_of_key(b, k);
        if has_key(b, k) {
            let i = index_of_key(b, k)->0;
            crate::strmap::lemma_index_of_distinct(b, i);
            assert(lookup(a, b[i].0) == Some(b[i].1));
        } else {
            assert(!keys_of(b).to_set().contains(k));
        }
    }
}

} // verus!
