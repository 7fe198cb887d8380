//! Dependency resolution: choosing a version for every range, recording who
//! depends on what, and the checks that run once everything is resolved.
//!
//! Fetching metadata is outside work; the resolver is a state machine that
//! says which package documents it still needs and takes them as they come.

use vstd::prelude::*;
use crate::registry::{PackageMetadata, VersionMetadata, PeerDependencyMeta};
use crate::semver_npm::{
    SemVer, NpmVersionReq, RangeError, parse_version, version_lt, copy_version, range_texts,
    range_ok, semver_version_text, semver_precedes, semver_req_matches,
};
use crate::strmap::{
    StrMap, has_key, lookup, index_of_key, inserted, copy_opt_strings, opt_seq, distinct_keys,
    str_entries,
};
use crate::text::{chars_of, string_of, append_str, append_chars, starts_with, is_literal};
use std::collections::VecDeque;

verus! {

/// A resolved package.
pub struct PackageInfo {
    pub name: String,
    pub version: SemVer,
    pub tarball_url: String,
    pub integrity: String,
    pub dependencies: StrMap<String>,
    pub optional_dependencies: StrMap<String>,
    pub peer_dependencies: StrMap<String>,
    pub optional_peers: StrMap<()>,
    pub os: Option<Vec<String>>,
    pub cpu: Option<Vec<String>>,
    pub has_install_script: bool,
    /// For each dependency name, the key of the package it resolved to.
    pub resolved_deps: StrMap<String>,
}

/// The key of a resolved package: `<name>@<version>`.
pub open spec fn package_key(name: Seq<char>, version: Seq<char>) -> Seq<char> {
    name + "@"@ + version
}

/// Executable form of [`package_key`].
pub fn make_key(name: &str, version: &SemVer) -> (r: String)
    ensures
        r@ == package_key(name@, version@),
{
    let mut out = chars_of(name);
    append_str(&mut out, "@");
    let v = version.to_text();
    let vc = chars_of(v.as_str());
    append_chars(&mut out, &vc);
    string_of(&out)
}

/// Why resolution stopped.
pub enum ResolveError {
    /// A range that `semver` cannot parse (the part between `||`), with what
    /// `semver` said of it.
    BadRange { range: String, cause: String },
    /// No published version satisfies the range.
    NoMatch { name: String, range: String },
    /// The metadata of a package that is not optional could not be fetched.
    Fetch { message: String },
}

/// The text of `e`, as the program shows it.
pub open spec fn error_text(e: ResolveError) -> Seq<char> {
    match e {
        ResolveError::BadRange { range, .. } => "failed to parse version range: '"@ + range@ + "'"@,
        ResolveError::NoMatch { name, range } => "no version of '"@ + name@
            + "' satisfies the range '"@ + range@ + "'"@,
        ResolveError::Fetch { message } => message@,
    }
}

/// The full text of `e` where resolution stops on it: for a range that does
/// not parse, the text of `e` and then what `semver` said.
pub open spec fn error_report(e: ResolveError) -> Seq<char> {
    match e {
        ResolveError::BadRange { cause, .. } => error_text(e) + ": "@ + cause@,
        _ => error_text(e),
    }
}

impl ResolveError {
    /// The full text of the error, with its cause (see [`error_report`]).
    pub fn report(&self) -> (r: String)
        ensures
            r@ == error_report(*self),
    {
        let head = self.message();
        match self {
            ResolveError::BadRange { cause, .. } => {
                let mut out = chars_of(head.as_str());
                append_str(&mut out, ": ");
                append_chars(&mut out, &chars_of(cause.as_str()));
                string_of(&out)
            },
            _ => head,
        }
    }

    /// The text of the error.
    pub fn message(&self) -> (r: String)
        ensures
            r@ == error_text(*self),
    {
        match self {
            ResolveError::BadRange { range, .. } => {
                let mut out = chars_of("failed to parse version range: '");
                append_chars(&mut out, &chars_of(range.as_str()));
                append_str(&mut out, "'");
                string_of(&out)
            },
            ResolveError::NoMatch { name, range } => {
                let mut out = chars_of("no version of '");
                append_chars(&mut out, &chars_of(name.as_str()));
                append_str(&mut out, "' satisfies the range '");
                append_chars(&mut out, &chars_of(range.as_str()));
                append_str(&mut out, "'");
                string_of(&out)
            },
            ResolveError::Fetch { message } => message.clone(),
        }
    }
}

/// The text of version entry `i` as `semver` shows it, if it parses.
pub open spec fn entry_version(vs: Seq<(Seq<char>, VersionMetadata)>, i: int) -> Option<Seq<char>> {
    semver_version_text(vs[i].0)
}

/// Version entry `i` parses and some requirement of `req` matches it.
pub open spec fn is_candidate(vs: Seq<(Seq<char>, VersionMetadata)>, req: Seq<Seq<char>>, i: int) -> bool {
    &&& 0 <= i < vs.len()
    &&& entry_version(vs, i) is Some
    &&& exists|j: int| 0 <= j < req.len() && semver_req_matches(#[trigger] req[j], entry_version(vs, i)->0)
}

/// Version entry `i` is a candidate that no candidate exceeds.
pub open spec fn is_best(vs: Seq<(Seq<char>, VersionMetadata)>, req: Seq<Seq<char>>, i: int) -> bool {
    &&& is_candidate(vs, req, i)
    &&& forall|j: int| #[trigger] is_candidate(vs, req, j) ==> !semver_precedes(
        entry_version(vs, i)->0,
        entry_version(vs, j)->0,
    )
}

/// The entries of an optional map, none standing for no entry.
pub open spec fn entries_or_empty<V>(m: Option<StrMap<V>>) -> Seq<(Seq<char>, V)> {
    match m {
        Some(m) => m@,
        None => seq![],
    }
}

/// Whether `k` is a peer that `peerDependenciesMeta` marks optional.
pub open spec fn marked_optional(meta: Option<StrMap<PeerDependencyMeta>>, k: Seq<char>) -> bool {
    exists|i: int|
        0 <= i < entries_or_empty(meta).len() && (#[trigger] entries_or_empty(meta)[i]).0 == k
            && entries_or_empty(meta)[i].1.optional
}

/// `p` is the package that version manifest `m` describes under `name` and
/// `version`, with nothing resolved yet.
pub open spec fn describes(p: PackageInfo, name: Seq<char>, version: Seq<char>, m: VersionMetadata) -> bool {
    &&& p.name@ == name
    &&& p.version@ == version
    &&& p.tarball_url == m.dist.tarball
    &&& p.integrity == m.dist.integrity
    &&& p.dependencies@ == entries_or_empty(m.dependencies)
    &&& p.optional_dependencies@ == entries_or_empty(m.optional_dependencies)
    &&& p.peer_dependencies@ == entries_or_empty(m.peer_dependencies)
    &&& (forall|k: Seq<char>| has_key(p.optional_peers@, k) <==> marked_optional(m.peer_dependencies_meta, k))
    &&& opt_seq(p.os) == opt_seq(m.os)
    &&& opt_seq(p.cpu) == opt_seq(m.cpu)
    &&& p.has_install_script == m.has_install_script
    &&& p.resolved_deps@.len() == 0
}

fn copy_opt_map(m: &Option<StrMap<String>>) -> (r: StrMap<String>)
    ensures
        r@ == entries_or_empty(*m),
{
    match m {
        Some(m) => m.duplicate(),
        None => StrMap::new(),
    }
}

fn optional_peer_names(meta: &Option<StrMap<PeerDependencyMeta>>) -> (r: StrMap<()>)
    ensures
        forall|k: Seq<char>| has_key(r@, k) <==> marked_optional(*meta, k),
{
    let mut r: StrMap<()> = StrMap::new();
    match meta {
        Some(m) => {
            let mut i: usize = 0;
            while i < m.len()
                invariant
                    i <= m@.len(),
                    *meta == Some(*m),
                    forall|k: Seq<char>| has_key(r@, k) <==> exists|j: int|
                        0 <= j < i && (#[trigger] m@[j]).0 == k && m@[j].1.optional,
                decreases m@.len() - i,
            {
                if m.value_at(i).optional {
                    let ghost before = r@;
                    r.insert(m.key_at(i).clone(), ());
                    assert forall|k: Seq<char>| has_key(r@, k) <==> exists|j: int|
                        0 <= j < i + 1 && (#[trigger] m@[j]).0 == k && m@[j].1.optional by {
                        crate::strmap::lemma_inserted_keys(before, m@[i as int].0, (), k);
                        if exists|j: int| 0 <= j < i + 1 && (#[trigger] m@[j]).0 == k && m@[j].1.optional {
                            let j = choose|j: int| 0 <= j < i + 1 && (#[trigger] m@[j]).0 == k && m@[j].1.optional;
                            if j < i {
                                assert(has_key(before, k));
                            }
                        }
                    }
                }
                i = i + 1;
            }
        },
        None => {},
    }
    r
}

/// The package that manifest `m` describes under `name` and `version`.
fn package_from(name: &str, version: SemVer, m: &VersionMetadata) -> (r: PackageInfo)
    ensures
        describes(r, name@, version@, *m),
{
    PackageInfo {
        name: name.to_owned(),
        version,
        tarball_url: m.dist.tarball.clone(),
        integrity: m.dist.integrity.clone(),
        dependencies: copy_opt_map(&m.dependencies),
        optional_dependencies: copy_opt_map(&m.optional_dependencies),
        peer_dependencies: copy_opt_map(&m.peer_dependencies),
        optional_peers: optional_peer_names(&m.peer_dependencies_meta),
        os: copy_opt_strings(&m.os),
        cpu: copy_opt_strings(&m.cpu),
        has_install_script: m.has_install_script,
        resolved_deps: StrMap::new(),
    }
}

/// Chooses, for `name`, the highest published version that `range` allows.
///
/// A version counts when its key parses as a semantic version and some
/// requirement of the range matches it; the package is built from the first
/// such version, in the order of the document, that no other exceeds.
pub fn best_version(name: &str, metadata: &PackageMetadata, range: &str) -> (r: Result<
    PackageInfo,
    ResolveError,
>)
    ensures
        match r {
            Ok(p) => range_ok(range@) && exists|i: int|
                is_best(metadata.versions@, range_texts(range@), i) && (forall|j: int|
                    0 <= j < i ==> !is_best(metadata.versions@, range_texts(range@), j)) && describes(
                    p,
                    name@,
                    entry_version(metadata.versions@, i)->0,
                    #[trigger] metadata.versions@[i].1,
                ),
            Err(ResolveError::BadRange { .. }) => !range_ok(range@),
            Err(ResolveError::NoMatch { name: n, range: rg }) => range_ok(range@) && n@ == name@
                && rg@ == range@ && forall|i: int| !is_best(metadata.versions@, range_texts(range@), i),
            Err(ResolveError::Fetch { message: _ }) => false,
        },
        r matches Ok(p) ==> !p.version@.contains('@'),
{
    let req = match NpmVersionReq::parse(range) {
        Ok(q) => q,
        Err(e) => return Err(ResolveError::BadRange { range: e.range, cause: e.cause }),
    };
    let ghost vs = metadata.versions@;
    let ghost rq = range_texts(range@);
    let n = metadata.versions.len();
    let mut cands: Vec<(SemVer, usize)> = Vec::new();
    let mut i: usize = 0;
    while i < n
        invariant
            n == vs.len(),
            vs == metadata.versions@,
            rq == range_texts(range@),
            req@ == rq,
            range_ok(range@),
            i <= n,
            forall|c: int| 0 <= c < cands@.len() ==> {
                let e = #[trigger] cands@[c];
                &&& e.1 < i
                &&& is_candidate(vs, rq, e.1 as int)
                &&& e.0@ == entry_version(vs, e.1 as int)->0
                &&& !e.0@.contains('@')
            },
            forall|j: int| 0 <= j < i && is_candidate(vs, rq, j) ==> exists|c: int|
                0 <= c < cands@.len() && (#[trigger] cands@[c]).1 == j,
            forall|c1: int, c2: int| 0 <= c1 < c2 < cands@.len() ==> (#[trigger] cands@[c1]).1 < (#[trigger] cands@[c2]).1,
        decreases n - i,
    {
        let key = metadata.versions.key_at(i);
        match parse_version(key.as_str()) {
            Some(v) => {
                if req.matches(&v) {
                    let ghost before = cands@;
                    cands.push((v, i));
                    assert forall|j: int| 0 <= j < i + 1 && is_candidate(vs, rq, j) implies exists|c: int|
                        0 <= c < cands@.len() && (#[trigger] cands@[c]).1 == j by {
                        if j < i {
                            let c = choose|c: int| 0 <= c < before.len() && (#[trigger] before[c]).1 == j;
                            assert(cands@[c] == before[c]);
                        } else {
                            assert(cands@[before.len() as int].1 == j);
                        }
                    }
                } else {
                    assert(!is_candidate(vs, rq, i as int));
                }
            },
            None => {
                assert(!is_candidate(vs, rq, i as int));
            },
        }
        i = i + 1;
    }
    let m = cands.len();
    let mut a: usize = 0;
    while a < m
        invariant
            m == cands@.len(),
            n == vs.len(),
            vs == metadata.versions@,
            rq == range_texts(range@),
            req@ == rq,
            range_ok(range@),
            a <= m,
            forall|c: int| 0 <= c < cands@.len() ==> {
                let e = #[trigger] cands@[c];
                &&& e.1 < n
                &&& is_candidate(vs, rq, e.1 as int)
                &&& e.0@ == entry_version(vs, e.1 as int)->0
                &&& !e.0@.contains('@')
            },
            forall|j: int| 0 <= j < n && is_candidate(vs, rq, j) ==> exists|c: int|
                0 <= c < cands@.len() && (#[trigger] cands@[c]).1 == j,
            forall|c: int| 0 <= c < a ==> !is_best(vs, rq, (#[trigger] cands@[c]).1 as int),
            forall|c1: int, c2: int| 0 <= c1 < c2 < cands@.len() ==> (#[trigger] cands@[c1]).1 < (#[trigger] cands@[c2]).1,
        decreases m - a,
    {
        let mut b: usize = 0;
        let mut exceeded = false;
        while b < m
            invariant
                m == cands@.len(),
                a < m,
                b <= m,
                forall|c: int| 0 <= c < b ==> !semver_precedes(cands@[a as int].0@, (#[trigger] cands@[c]).0@),
                exceeded ==> !is_best(vs, rq, cands@[a as int].1 as int),
                forall|c: int| 0 <= c < cands@.len() ==> {
                    let e = #[trigger] cands@[c];
                    &&& e.1 < n
                    &&& is_candidate(vs, rq, e.1 as int)
                    &&& e.0@ == entry_version(vs, e.1 as int)->0
                },
            ensures
                exceeded || b == m,
            decreases m - b,
        {
            if version_lt(&cands[a].0, &cands[b].0) {
                exceeded = true;
                assert(is_candidate(vs, rq, cands@[b as int].1 as int));
                break;
            }
            b = b + 1;
        }
        if !exceeded {
            let idx = cands[a].1;
            assert(is_best(vs, rq, idx as int)) by {
                assert forall|j: int| #[trigger] is_candidate(vs, rq, j) implies !semver_precedes(
                    entry_version(vs, idx as int)->0,
                    entry_version(vs, j)->0,
                ) by {
                    let c = choose|c: int| 0 <= c < cands@.len() && (#[trigger] cands@[c]).1 == j;
                    assert(!semver_precedes(cands@[a as int].0@, cands@[c].0@));
                }
            }
            assert forall|j: int| 0 <= j < idx implies !is_best(vs, rq, j) by {
                if is_best(vs, rq, j) {
                    let c = choose|c: int| 0 <= c < cands@.len() && (#[trigger] cands@[c]).1 == j;
                    if c >= a {
                        if c > a {
                            assert(cands@[a as int].1 < cands@[c].1);
                        }
                    }
                    assert(c < a);
                }
            }
            let (v, _) = cands.remove(a);
            assert(v@ == entry_version(vs, idx as int)->0);
            let p = package_from(name, v, metadata.versions.value_at(idx));
            assert(describes(p, name@, entry_version(vs, idx as int)->0, metadata.versions@[idx as int].1));
            assert(is_best(metadata.versions@, range_texts(range@), idx as int));
            assert(range_ok(range@));
            return Ok(p);
        }
        a = a + 1;
    }
    assert forall|j: int| !is_best(vs, rq, j) by {
        if is_best(vs, rq, j) {
            let c = choose|c: int| 0 <= c < cands@.len() && (#[trigger] cands@[c]).1 == j;
            assert(!is_best(vs, rq, cands@[c].1 as int));
        }
    }
    Err(ResolveError::NoMatch { name: name.to_owned(), range: range.to_owned() })
}

/// A dependency waiting to be resolved: its name, its range, and the key of
/// the package that asked for it (none for the project itself).
pub type PendingDep = (String, String, Option<String>);

/// The view of an optional string.
pub open spec fn opt_view(o: Option<String>) -> Option<Seq<char>> {
    match o {
        Some(s) => Some(s@),
        None => None,
    }
}

/// The view of a pending dependency.
pub open spec fn dep_view(e: PendingDep) -> (Seq<char>, Seq<char>, Option<Seq<char>>) {
    (e.0@, e.1@, opt_view(e.2))
}

/// The view of a queue of pending dependencies.
pub open spec fn queue_view(q: Seq<PendingDep>) -> Seq<(Seq<char>, Seq<char>, Option<Seq<char>>)> {
    q.map_values(|e: PendingDep| dep_view(e))
}

/// The pending items for the entries `deps`, asked for by `key`.
pub open spec fn dep_items(deps: Seq<(Seq<char>, String)>, key: Seq<char>) -> Seq<(Seq<char>, Seq<char>, Option<Seq<char>>)> {
    deps.map_values(|e: (Seq<char>, String)| (e.0, e.1@, Some(key)))
}

/// The pending items for the peers `peers` that are not in `optional`.
pub open spec fn peer_items(
    peers: Seq<(Seq<char>, String)>,
    optional: Seq<(Seq<char>, ())>,
    key: Seq<char>,
) -> Seq<(Seq<char>, Seq<char>, Option<Seq<char>>)>
    decreases peers.len(),
{
    if peers.len() == 0 {
        seq![]
    } else if has_key(optional, peers.last().0) {
        peer_items(peers.drop_last(), optional, key)
    } else {
        peer_items(peers.drop_last(), optional, key).push((peers.last().0, peers.last().1@, Some(key)))
    }
}

/// Everything that resolving `p` under `key` asks for: its dependencies,
/// its optional dependencies, and its peers that are not optional.
pub open spec fn requested_by(p: PackageInfo, key: Seq<char>) -> Seq<(Seq<char>, Seq<char>, Option<Seq<char>>)> {
    dep_items(p.dependencies@, key) + dep_items(p.optional_dependencies@, key) + peer_items(
        p.peer_dependencies@,
        p.optional_peers@,
        key,
    )
}

fn push_deps(pending: &mut VecDeque<PendingDep>, deps: &StrMap<String>, key: &str)
    ensures
        queue_view(final(pending)@) == queue_view(old(pending)@) + dep_items(deps@, key@),
{
    let mut i: usize = 0;
    while i < deps.len()
        invariant
            i <= deps@.len(),
            queue_view(pending@) == queue_view(old(pending)@) + dep_items(deps@.take(i as int), key@),
        decreases deps@.len() - i,
    {
        let ghost before = pending@;
        pending.push_back((deps.key_at(i).clone(), deps.value_at(i).clone(), Some(key.to_owned())));
        assert(queue_view(pending@) =~= queue_view(before).push(
            (deps@[i as int].0, deps@[i as int].1@, Some(key@)),
        ));
        assert(dep_items(deps@.take(i + 1), key@) =~= dep_items(deps@.take(i as int), key@).push(
            (deps@[i as int].0, deps@[i as int].1@, Some(key@)),
        ));
        i = i + 1;
    }
    assert(deps@.take(deps@.len() as int) =~= deps@);
}

/// Queues everything that package `p`, stored under `requester_key`, asks
/// for, and remembers its optional dependencies as optional.
pub fn enqueue_all_deps(
    p: &PackageInfo,
    pending: &mut VecDeque<PendingDep>,
    known_optional: &mut StrMap<()>,
    requester_key: &str,
)
    ensures
        queue_view(final(pending)@) == queue_view(old(pending)@) + requested_by(*p, requester_key@),
        forall|k: Seq<char>|
            has_key(final(known_optional)@, k) <==> (has_key(old(known_optional)@, k) || has_key(
                p.optional_dependencies@,
                k,
            )),
{
    push_deps(pending, &p.dependencies, requester_key);
    let ghost mid = queue_view(pending@);
    let mut i: usize = 0;
    while i < p.optional_dependencies.len()
        invariant
            i <= p.optional_dependencies@.len(),
            queue_view(pending@) == mid + dep_items(p.optional_dependencies@.take(i as int), requester_key@),
            forall|k: Seq<char>|
                has_key(known_optional@, k) <==> (has_key(old(known_optional)@, k) || has_key(
                    p.optional_dependencies@.take(i as int),
                    k,
                )),
        decreases p.optional_dependencies@.len() - i,
    {
        let ghost before_set = known_optional@;
        let name = p.optional_dependencies.key_at(i);
        known_optional.insert(name.clone(), ());
        let ghost before = pending@;
        pending.push_back((name.clone(), p.optional_dependencies.value_at(i).clone(), Some(requester_key.to_owned())));
        let ghost e = p.optional_dependencies@[i as int];
        assert(queue_view(pending@) =~= queue_view(before).push((e.0, e.1@, Some(requester_key@))));
        assert(dep_items(p.optional_dependencies@.take(i + 1), requester_key@) =~= dep_items(
            p.optional_dependencies@.take(i as int),
            requester_key@,
        ).push((e.0, e.1@, Some(requester_key@))));
        assert forall|k: Seq<char>| has_key(known_optional@, k) <==> (has_key(old(known_optional)@, k)
            || has_key(p.optional_dependencies@.take(i + 1), k)) by {
            crate::strmap::lemma_inserted_keys(before_set, e.0, (), k);
            let t = p.optional_dependencies@.take(i + 1);
            if has_key(t, k) {
                let w = choose|w: int| 0 <= w < t.len() && t[w].0 == k;
                if w < i {
                    assert(p.optional_dependencies@.take(i as int)[w].0 == k);
                }
            }
            if has_key(p.optional_dependencies@.take(i as int), k) {
                let w = choose|w: int| 0 <= w < i && p.optional_dependencies@.take(i as int)[w].0 == k;
                assert(t[w].0 == k);
            }
            assert(t[i as int].0 == e.0);
        }
        i = i + 1;
    }
    assert(p.optional_dependencies@.take(p.optional_dependencies@.len() as int) =~= p.optional_dependencies@);
    let ghost mid2 = queue_view(pending@);
    let mut j: usize = 0;
    while j < p.peer_dependencies.len()
        invariant
            j <= p.peer_dependencies@.len(),
            queue_view(pending@) == mid2 + peer_items(p.peer_dependencies@.take(j as int), p.optional_peers@, requester_key@),
        decreases p.peer_dependencies@.len() - j,
    {
        let peer = p.peer_dependencies.key_at(j);
        let ghost t = p.peer_dependencies@.take(j + 1);
        assert(t.drop_last() =~= p.peer_dependencies@.take(j as int));
        assert(t.last() == p.peer_dependencies@[j as int]);
        if !p.optional_peers.contains_key(peer.as_str()) {
            let ghost before = pending@;
            pending.push_back((peer.clone(), p.peer_dependencies.value_at(j).clone(), Some(requester_key.to_owned())));
            let ghost e = p.peer_dependencies@[j as int];
            assert(queue_view(pending@) =~= queue_view(before).push((e.0, e.1@, Some(requester_key@))));
        }
        j = j + 1;
    }
    assert(p.peer_dependencies@.take(p.peer_dependencies@.len() as int) =~= p.peer_dependencies@);
}

/// `b` is package `a` with nothing changed but what it resolved.
pub open spec fn same_but_resolved(a: PackageInfo, b: PackageInfo) -> bool {
    &&& b.name == a.name
    &&& b.version == a.version
    &&& b.tarball_url == a.tarball_url
    &&& b.integrity == a.integrity
    &&& b.dependencies == a.dependencies
    &&& b.optional_dependencies == a.optional_dependencies
    &&& b.peer_dependencies == a.peer_dependencies
    &&& b.optional_peers == a.optional_peers
    &&& b.os == a.os
    &&& b.cpu == a.cpu
    &&& b.has_install_script == a.has_install_script
}

/// `after` is `before` where the package at position `i` has also resolved
/// `dep` to `key`.
pub open spec fn recorded(
    before: Seq<(Seq<char>, PackageInfo)>,
    after: Seq<(Seq<char>, PackageInfo)>,
    i: int,
    dep: Seq<char>,
    key: Seq<char>,
) -> bool {
    &&& after.len() == before.len()
    &&& forall|j: int| 0 <= j < before.len() && j != i ==> after[j] == before[j]
    &&& after[i].0 == before[i].0
    &&& same_but_resolved(before[i].1, after[i].1)
    &&& str_entries(after[i].1.resolved_deps@) == inserted(str_entries(before[i].1.resolved_deps@), dep, key)
}

/// Records that `dep_name`, asked for by `requester_key` (the project when
/// none), resolved to the package under `result_key`.
pub fn record_dep(
    result: &mut StrMap<PackageInfo>,
    root_resolved: &mut StrMap<String>,
    requester_key: &Option<String>,
    dep_name: &str,
    result_key: &str,
)
    ensures
        match requester_key {
            None => final(result)@ == old(result)@ && str_entries(final(root_resolved)@) == inserted(
                str_entries(old(root_resolved)@),
                dep_name@,
                result_key@,
            ),
            Some(k) => final(root_resolved)@ == old(root_resolved)@ && match index_of_key(
                old(result)@,
                k@,
            ) {
                Some(i) => recorded(old(result)@, final(result)@, i, dep_name@, result_key@),
                None => final(result)@ == old(result)@,
            },
        },
{
    match requester_key {
        Some(k) => {
            match result.position(k.as_str()) {
                Some(i) => {
                    let _ = result.unique();
                    let ghost before = result@;
                    let (key, mut package) = result.take_at(i);
                    let ghost old_deps = package.resolved_deps@;
                    let v = result_key.to_owned();
                    proof {
                        crate::strmap::lemma_str_entries_inserted(old_deps, dep_name@, v);
                    }
                    package.resolved_deps.insert(dep_name.to_owned(), v);
                    assert(!has_key(result@, key@)) by {
                        if has_key(result@, key@) {
                            let w = choose|w: int| 0 <= w < result@.len() && result@[w].0 == key@;
                            if w < i {
                                assert(before[w].0 == key@);
                            } else {
                                assert(before[w + 1].0 == key@);
                            }
                        }
                    }
                    result.put_at(i, key, package);
                    assert(result@ =~= before.update(i as int, result@[i as int]));
                },
                None => {},
            }
        },
        None => {
            let v = result_key.to_owned();
            proof {
                crate::strmap::lemma_str_entries_inserted(root_resolved@, dep_name@, v);
            }
            root_resolved.insert(dep_name.to_owned(), v);
        },
    }
}

/// Every package is stored under `<name>@<version>`.
pub open spec fn keys_match(result: Seq<(Seq<char>, PackageInfo)>) -> bool {
    forall|i: int|
        0 <= i < result.len() ==> (#[trigger] result[i]).0 == package_key(
            result[i].1.name@,
            result[i].1.version@,
        )
}

/// Every map value among `m` is the key of a package in `result`.
pub open spec fn targets_in(m: Seq<(Seq<char>, String)>, result: Seq<(Seq<char>, PackageInfo)>) -> bool {
    forall|j: int| 0 <= j < m.len() ==> has_key(result, (#[trigger] m[j]).1@)
}

/// Every dependency that a package recorded resolves to a package of
/// `result`.
pub open spec fn edges_closed(result: Seq<(Seq<char>, PackageInfo)>) -> bool {
    forall|i: int| 0 <= i < result.len() ==> targets_in((#[trigger] result[i]).1.resolved_deps@, result)
}

/// Every key listed among the resolved versions is a package of `result`.
pub open spec fn versions_indexed(
    rv: Seq<(Seq<char>, Vec<(SemVer, String)>)>,
    result: Seq<(Seq<char>, PackageInfo)>,
) -> bool {
    forall|i: int, j: int|
        0 <= i < rv.len() && 0 <= j < (#[trigger] rv[i]).1@.len() ==> has_key(result, (#[trigger] rv[i].1@[j]).1@)
}

/// Every package that asked for a queued dependency is in `result`.
pub open spec fn requesters_in(q: Seq<PendingDep>, result: Seq<(Seq<char>, PackageInfo)>) -> bool {
    forall|j: int| 0 <= j < q.len() ==> ((#[trigger] q[j]).2 matches Some(k) ==> has_key(result, k@))
}

/// Every package that waits for metadata on behalf of a dependency is in
/// `result`.
pub open spec fn waiters_in(
    w: Seq<(Seq<char>, Vec<(String, Option<String>)>)>,
    result: Seq<(Seq<char>, PackageInfo)>,
) -> bool {
    forall|i: int, j: int|
        0 <= i < w.len() && 0 <= j < (#[trigger] w[i]).1@.len() ==> ((#[trigger] w[i].1@[j]).1 matches Some(k)
            ==> has_key(result, k@))
}

/// A result only grows.
pub open spec fn grows(a: Seq<(Seq<char>, PackageInfo)>, b: Seq<(Seq<char>, PackageInfo)>) -> bool {
    forall|k: Seq<char>| has_key(a, k) ==> has_key(b, k)
}

proof fn lemma_targets_grow(m: Seq<(Seq<char>, String)>, a: Seq<(Seq<char>, PackageInfo)>, b: Seq<(Seq<char>, PackageInfo)>)
    requires
        targets_in(m, a),
        grows(a, b),
    ensures
        targets_in(m, b),
{
    assert forall|j: int| 0 <= j < m.len() implies has_key(b, (#[trigger] m[j]).1@) by {
        assert(has_key(a, m[j].1@));
    }
}

/// Each version listed for a name is the version of the package of
/// `result` under the key listed with it.
pub open spec fn versions_match(
    rv: Seq<(Seq<char>, Vec<(SemVer, String)>)>,
    result: Seq<(Seq<char>, PackageInfo)>,
) -> bool {
    forall|i: int, j: int|
        0 <= i < rv.len() && 0 <= j < (#[trigger] rv[i]).1@.len() ==> (lookup(result, (#[trigger] rv[i].1@[j]).1@) matches Some(p)
            && p.version@ == rv[i].1@[j].0@)
}

/// No version of a package of `result` has an `@` in its text.
pub open spec fn at_sign_free(result: Seq<(Seq<char>, PackageInfo)>) -> bool {
    forall|i: int| 0 <= i < result.len() ==> !(#[trigger] result[i]).1.version@.contains('@')
}

/// Each dependency of the project resolved (`root`) to a package of
/// `result` whose version the range the project asks for (`requested`)
/// allows.
pub open spec fn roots_allowed(
    root: Seq<(Seq<char>, String)>,
    requested: Seq<(Seq<char>, String)>,
    result: Seq<(Seq<char>, PackageInfo)>,
) -> bool {
    forall|name: Seq<char>|
        #[trigger] lookup(str_entries(root), name) matches Some(k) ==> (lookup(str_entries(requested), name) matches Some(rg)
            && lookup(result, k) matches Some(p) && range_allows(rg, p.version@))
}

/// Every queued request of the project carries the range it asks for.
pub open spec fn root_queue_ranges(q: Seq<PendingDep>, requested: Seq<(Seq<char>, String)>) -> bool {
    forall|j: int|
        0 <= j < q.len() && (#[trigger] q[j]).2 is None ==> lookup(str_entries(requested), q[j].0@) == Some(q[j].1@)
}

/// Every waiting request of the project carries the range it asks for.
pub open spec fn root_waiting_ranges(
    w: Seq<(Seq<char>, Vec<(String, Option<String>)>)>,
    requested: Seq<(Seq<char>, String)>,
) -> bool {
    forall|i: int, j: int|
        0 <= i < w.len() && 0 <= j < (#[trigger] w[i]).1@.len() && (#[trigger] w[i].1@[j]).1 is None
            ==> lookup(str_entries(requested), w[i].0) == Some(w[i].1@[j].0@)
}

/// The package `p`, stored under `key`, asks for `name` with `range`: in its
/// dependencies, its optional dependencies, or its peers that are not
/// optional.
pub open spec fn asks_for(p: PackageInfo, key: Seq<char>, name: Seq<char>, range: Seq<char>) -> bool {
    requested_by(p, key).contains((name, range, Some(key)))
}

/// In `result`, the package under `key` resolved its dependency `name` to the
/// package under `target`: a package of that name whose version a range it
/// asks for `name` with allows.
pub open spec fn edge_allowed(result: Seq<(Seq<char>, PackageInfo)>, key: Seq<char>, name: Seq<char>, target: Seq<char>) -> bool {
    lookup(result, key) matches Some(p) && lookup(result, target) matches Some(q) && q.name@ == name && exists|rg: Seq<char>|
        asks_for(p, key, name, rg) && #[trigger] range_allows(rg, q.version@)
}

/// Every dependency that a package of `result` resolved went to a package of
/// that name whose version a range it asks for the name with allows.
pub open spec fn edges_allowed(result: Seq<(Seq<char>, PackageInfo)>) -> bool {
    forall|i: int, name: Seq<char>|
        0 <= i < result.len() ==> (#[trigger] lookup(str_entries(result[i].1.resolved_deps@), name) matches Some(t)
            ==> edge_allowed(result, result[i].0, name, t))
}

/// Every queued dependency asked for by a package is one that package asks
/// for, with its range.
pub open spec fn queue_asks(q: Seq<PendingDep>, result: Seq<(Seq<char>, PackageInfo)>) -> bool {
    forall|j: int|
        0 <= j < q.len() ==> ((#[trigger] q[j]).2 matches Some(k) ==> lookup(result, k@) matches Some(p) && asks_for(
            p,
            k@,
            q[j].0@,
            q[j].1@,
        ))
}

/// Every dependency waiting for metadata on behalf of a package is one that
/// package asks for, with its range.
pub open spec fn waiting_asks(
    w: Seq<(Seq<char>, Vec<(String, Option<String>)>)>,
    result: Seq<(Seq<char>, PackageInfo)>,
) -> bool {
    forall|i: int, j: int|
        0 <= i < w.len() && 0 <= j < (#[trigger] w[i]).1@.len() ==> ((#[trigger] w[i].1@[j]).1 matches Some(k)
            ==> lookup(result, k@) matches Some(p) && asks_for(p, k@, w[i].0, w[i].1@[j].0@))
}

/// Each key listed among the versions of a name is a package of that name.
pub open spec fn versions_named(
    rv: Seq<(Seq<char>, Vec<(SemVer, String)>)>,
    result: Seq<(Seq<char>, PackageInfo)>,
) -> bool {
    forall|i: int, j: int|
        0 <= i < rv.len() && 0 <= j < (#[trigger] rv[i]).1@.len() ==> (lookup(result, (#[trigger] rv[i].1@[j]).1@) matches Some(p)
            ==> p.name@ == rv[i].0)
}

/// The package `p` comes from the registry document of its name among
/// `cache`: it is what a version entry of that document describes, with what
/// it resolved since.
pub open spec fn documented(p: PackageInfo, cache: Seq<(Seq<char>, PackageMetadata)>) -> bool {
    lookup(cache, p.name@) matches Some(m) && exists|j: int, d: PackageInfo|
        0 <= j < m.versions@.len() && #[trigger] describes(d, p.name@, entry_version(m.versions@, j)->0, m.versions@[j].1)
            && same_but_resolved(d, p)
}

/// Every package of `result` comes from a registry document among `cache`.
pub open spec fn all_documented(result: Seq<(Seq<char>, PackageInfo)>, cache: Seq<(Seq<char>, PackageMetadata)>) -> bool {
    forall|i: int| 0 <= i < result.len() ==> documented(#[trigger] result[i].1, cache)
}

/// Two keys `name@version` with versions free of `@` are equal only for the
/// same version.
proof fn lemma_key_injective(a: Seq<char>, v: Seq<char>, b: Seq<char>, w: Seq<char>)
    requires
        package_key(a, v) == package_key(b, w),
        !v.contains('@'),
        !w.contains('@'),
    ensures
        v == w,
        a == b,
{
    reveal_strlit("@");
    let k = package_key(a, v);
    assert(k =~= a + seq!['@'] + v);
    assert(k =~= b + seq!['@'] + w);
    crate::cli::lemma_rfind_joined(a, '@', v);
    crate::cli::lemma_rfind_joined(b, '@', w);
    assert(a.len() == b.len());
    assert(a =~= k.take(a.len() as int));
    assert(b =~= k.take(b.len() as int));
}

/// The state of a resolution in progress.
pub struct Resolver {
    /// The packages chosen so far, by key.
    pub result: StrMap<PackageInfo>,
    /// For each package name, the versions chosen so far with their keys.
    pub resolved_vers: StrMap<Vec<(SemVer, String)>>,
    /// The registry documents at hand.
    pub metadata_cache: StrMap<PackageMetadata>,
    /// Dependencies still to resolve.
    pub pending: VecDeque<PendingDep>,
    /// Names known to be optional.
    pub known_optional: StrMap<()>,
    /// Optional packages that were skipped, with why.
    pub conflict_warnings: Vec<String>,
    /// For each dependency of the project, the key it resolved to.
    pub root_resolved: StrMap<String>,
    /// Dependencies that wait for the metadata of their package, by name.
    pub waiting: StrMap<Vec<(String, Option<String>)>>,
    /// The project's own dependencies, by name, with the ranges it asks for.
    pub requested: StrMap<String>,
}

impl Resolver {
    /// What every state of a resolution keeps.
    pub open spec fn wf(&self) -> bool {
        &&& keys_match(self.result@)
        &&& edges_closed(self.result@)
        &&& targets_in(self.root_resolved@, self.result@)
        &&& versions_indexed(self.resolved_vers@, self.result@)
        &&& requesters_in(self.pending@, self.result@)
        &&& waiters_in(self.waiting@, self.result@)
    }

    /// What every state of a resolution in progress keeps: it is well formed
    /// and sound, and every request is accounted for.
    pub open spec fn valid(&self) -> bool {
        &&& self.wf()
        &&& self.sound()
        &&& accounts(*self)
    }

    /// What a resolution keeps about versions: each version listed for a name
    /// is the version of a package of that name under its key, no version
    /// text has an `@`, each dependency of the project, and each dependency
    /// of a package, resolved to a package of that name whose version its
    /// range allows, and every request, queued or waiting, carries the range
    /// that the project or the package asks for.
    pub open spec fn sound(&self) -> bool {
        &&& versions_match(self.resolved_vers@, self.result@)
        &&& at_sign_free(self.result@)
        &&& roots_allowed(self.root_resolved@, self.requested@, self.result@)
        &&& root_queue_ranges(self.pending@, self.requested@)
        &&& root_waiting_ranges(self.waiting@, self.requested@)
        &&& versions_named(self.resolved_vers@, self.result@)
        &&& edges_allowed(self.result@)
        &&& queue_asks(self.pending@, self.result@)
        &&& waiting_asks(self.waiting@, self.result@)
        &&& all_documented(self.result@, self.metadata_cache@)
    }

    /// A resolution of `dependencies` (name to range) for the project, with
    /// `root_optional_names` optional and the documents `initial_metadata`
    /// already at hand.
    pub fn new(
        dependencies: &StrMap<String>,
        root_optional_names: &StrMap<()>,
        initial_metadata: StrMap<PackageMetadata>,
    ) -> (r: Resolver)
        ensures
            r.wf(),
            queue_view(r.pending@) == dependencies@.map_values(
                |e: (Seq<char>, String)| (e.0, e.1@, None::<Seq<char>>),
            ),
            r.known_optional@ == root_optional_names@,
            r.metadata_cache@ == initial_metadata@,
            r.result@.len() == 0,
            r.root_resolved@.len() == 0,
            r.resolved_vers@.len() == 0,
            r.waiting@.len() == 0,
            r.conflict_warnings@.len() == 0,
            r.requested@ == dependencies@,
            r.sound(),
            accounts(r),
            r.valid(),
    {
        let _ = dependencies.unique();
        let mut pending: VecDeque<PendingDep> = VecDeque::new();
        let mut i: usize = 0;
        while i < dependencies.len()
            invariant
                i <= dependencies@.len(),
                crate::strmap::distinct_keys(dependencies@),
                queue_view(pending@) == dependencies@.take(i as int).map_values(
                    |e: (Seq<char>, String)| (e.0, e.1@, None::<Seq<char>>),
                ),
                forall|j: int| 0 <= j < pending@.len() ==> (#[trigger] pending@[j]).2 is None,
                root_queue_ranges(pending@, dependencies@),
            decreases dependencies@.len() - i,
        {
            proof {
                crate::strmap::lemma_index_of_distinct(dependencies@, i as int);
                crate::strmap::lemma_str_entries_index(dependencies@, dependencies@[i as int].0);
            }
            let ghost before = pending@;
            pending.push_back((dependencies.key_at(i).clone(), dependencies.value_at(i).clone(), None));
            assert(queue_view(pending@) =~= queue_view(before).push(
                (dependencies@[i as int].0, dependencies@[i as int].1@, None::<Seq<char>>),
            ));
            assert(dependencies@.take(i + 1).map_values(
                |e: (Seq<char>, String)| (e.0, e.1@, None::<Seq<char>>),
            ) =~= dependencies@.take(i as int).map_values(
                |e: (Seq<char>, String)| (e.0, e.1@, None::<Seq<char>>),
            ).push((dependencies@[i as int].0, dependencies@[i as int].1@, None::<Seq<char>>)));
            i = i + 1;
        }
        assert(dependencies@.take(dependencies@.len() as int) =~= dependencies@);
        let r = Resolver {
            result: StrMap::new(),
            resolved_vers: StrMap::new(),
            metadata_cache: initial_metadata,
            pending,
            known_optional: root_optional_names.duplicate_set(),
            conflict_warnings: Vec::new(),
            root_resolved: StrMap::new(),
            waiting: StrMap::new(),
            requested: dependencies.duplicate(),
        };
        proof {
            assert forall|name: Seq<char>| #[trigger] lookup(str_entries(r.root_resolved@), name) is None by {
                crate::strmap::lemma_index_of_key(str_entries(r.root_resolved@), name);
            }
            assert forall|y: Request| #[trigger] is_request(r, y) implies accounted(r, y) by {
                match y.2 {
                    Some(k) => {
                        crate::strmap::lemma_index_of_key(r.result@, k);
                    },
                    None => {
                        let t = str_entries(dependencies@);
                        crate::strmap::lemma_index_of_key(t, y.0);
                        let c = index_of_key(t, y.0)->0;
                        assert(t[c] == (dependencies@[c].0, dependencies@[c].1@));
                        assert(queue_view(r.pending@)[c] == y);
                    },
                }
            }
        }
        r
    }
}

proof fn lemma_same_keys(a: Seq<(Seq<char>, PackageInfo)>, b: Seq<(Seq<char>, PackageInfo)>)
    requires
        a.len() == b.len(),
        forall|j: int| 0 <= j < a.len() ==> (#[trigger] a[j]).0 == b[j].0,
    ensures
        grows(a, b),
        grows(b, a),
{
    assert forall|k: Seq<char>| has_key(a, k) implies has_key(b, k) by {
        let w = choose|w: int| 0 <= w < a.len() && a[w].0 == k;
        assert(b[w].0 == k);
    }
    assert forall|k: Seq<char>| has_key(b, k) implies has_key(a, k) by {
        let w = choose|w: int| 0 <= w < b.len() && b[w].0 == k;
        assert(a[w].0 == k);
    }
}

proof fn lemma_recorded_wf(
    a: Seq<(Seq<char>, PackageInfo)>,
    b: Seq<(Seq<char>, PackageInfo)>,
    i: int,
    dep: Seq<char>,
    key: Seq<char>,
)
    requires
        0 <= i < a.len(),
        recorded(a, b, i, dep, key),
        keys_match(a),
        edges_closed(a),
        has_key(a, key),
    ensures
        keys_match(b),
        edges_closed(b),
        grows(a, b),
        grows(b, a),
        has_key(str_entries(b[i].1.resolved_deps@), dep),
{
    assert forall|j: int| 0 <= j < a.len() implies (#[trigger] a[j]).0 == b[j].0 by {
        if j != i {
            assert(b[j] == a[j]);
        }
    }
    lemma_same_keys(a, b);
    assert forall|j: int| 0 <= j < b.len() implies (#[trigger] b[j]).0 == package_key(b[j].1.name@, b[j].1.version@) by {
        if j != i {
            assert(b[j] == a[j]);
        }
        assert(a[j].0 == package_key(a[j].1.name@, a[j].1.version@));
    }
    assert forall|j: int| 0 <= j < b.len() implies targets_in((#[trigger] b[j]).1.resolved_deps@, b) by {
        if j != i {
            assert(b[j] == a[j]);
            assert(targets_in(a[j].1.resolved_deps@, a));
            lemma_targets_grow(a[j].1.resolved_deps@, a, b);
        } else {
            let m = a[i].1.resolved_deps@;
            let m2 = b[i].1.resolved_deps@;
            assert(targets_in(m, a));
            assert forall|x: int| 0 <= x < m2.len() implies has_key(b, (#[trigger] m2[x]).1@) by {
                let t = inserted(str_entries(m), dep, key);
                assert(str_entries(m2)[x] == (m2[x].0, m2[x].1@));
                assert(t[x].1 == m2[x].1@);
                crate::strmap::lemma_inserted_values(str_entries(m), dep, key, x);
                if t[x].1 != key {
                    let y = choose|y: int| 0 <= y < str_entries(m).len() && str_entries(m)[y].1 == t[x].1;
                    assert(str_entries(m)[y] == (m[y].0, m[y].1@));
                    assert(has_key(a, m[y].1@));
                }
            }
        }
    }
    crate::strmap::lemma_inserted_keys(str_entries(a[i].1.resolved_deps@), dep, key, dep);
}

proof fn lemma_new_package_wf(
    a: Seq<(Seq<char>, PackageInfo)>,
    key: Seq<char>,
    p: PackageInfo,
)
    requires
        keys_match(a),
        edges_closed(a),
        !has_key(a, key),
        key == package_key(p.name@, p.version@),
        p.resolved_deps@.len() == 0,
    ensures
        inserted(a, key, p) == a.push((key, p)),
        keys_match(a.push((key, p))),
        edges_closed(a.push((key, p))),
        grows(a, a.push((key, p))),
        has_key(a.push((key, p)), key),
{
    crate::strmap::lemma_index_of_key(a, key);
    let b = a.push((key, p));
    assert forall|k: Seq<char>| has_key(a, k) implies has_key(b, k) by {
        let w = choose|w: int| 0 <= w < a.len() && a[w].0 == k;
        assert(b[w].0 == k);
    }
    assert(b[a.len() as int].0 == key);
    assert forall|j: int| 0 <= j < b.len() implies targets_in((#[trigger] b[j]).1.resolved_deps@, b) by {
        if j < a.len() {
            assert(b[j] == a[j]);
            assert(targets_in(a[j].1.resolved_deps@, a));
            lemma_targets_grow(a[j].1.resolved_deps@, a, b);
        }
    }
    assert forall|j: int| 0 <= j < b.len() implies (#[trigger] b[j]).0 == package_key(b[j].1.name@, b[j].1.version@) by {
        if j < a.len() {
            assert(b[j] == a[j]);
        }
    }
}

/// `requester` (the project where none) asks for `name` with `range` in
/// `res`.
pub open spec fn asked_by(res: Resolver, requester: Option<String>, name: Seq<char>, range: Seq<char>) -> bool {
    match requester {
        None => lookup(str_entries(res.requested@), name) == Some(range),
        Some(k) => lookup(res.result@, k@) matches Some(p) && asks_for(p, k@, name, range),
    }
}

/// A request: a name, a range, and who asks (a package's key, or the project
/// where none).
pub type Request = (Seq<char>, Seq<char>, Option<Seq<char>>);

/// The requests of `waiting` for the name it is listed under.
pub open spec fn waiting_requests(l: Seq<(String, Option<String>)>) -> Seq<(Seq<char>, Option<Seq<char>>)> {
    l.map_values(|e: (String, Option<String>)| (e.0@, opt_view(e.1)))
}

/// `x` is a request in `res`: the project asks for it, or a package of the
/// result does.
pub open spec fn is_request(res: Resolver, x: Request) -> bool {
    match x.2 {
        None => lookup(str_entries(res.requested@), x.0) == Some(x.1),
        Some(k) => lookup(res.result@, k) matches Some(p) && requested_by(p, k).contains(x),
    }
}

/// In `res`, the request `x` is accounted for: it resolved, it is queued, it
/// waits for the metadata of its name, or its name is known to be optional.
pub open spec fn accounted(res: Resolver, x: Request) -> bool {
    ||| match x.2 {
        None => has_key(res.root_resolved@, x.0),
        Some(k) => lookup(res.result@, k) matches Some(p) && has_key(p.resolved_deps@, x.0),
    }
    ||| queue_view(res.pending@).contains(x)
    ||| (lookup(res.waiting@, x.0) matches Some(l) && waiting_requests(l@).contains((x.1, x.2)))
    ||| has_key(res.known_optional@, x.0)
}

/// Every request of `res` is accounted for.
pub open spec fn accounts(res: Resolver) -> bool {
    forall|x: Request| #[trigger] is_request(res, x) ==> accounted(res, x)
}

/// Every request of `res` but `e` is accounted for.
pub open spec fn accounts_but(res: Resolver, e: Request) -> bool {
    forall|x: Request| #[trigger] is_request(res, x) && x != e ==> accounted(res, x)
}

/// The dependency `name` asked for by `requester` is recorded in `res`.
pub open spec fn recorded_for(res: Resolver, requester: Option<String>, name: Seq<char>) -> bool {
    match requester {
        None => has_key(res.root_resolved@, name),
        Some(k) => has_key(res.result@, k@) && has_key(lookup(res.result@, k@)->0.resolved_deps@, name),
    }
}

/// In `res`, the dependency `name` asked for by `requester` (the project
/// where none) resolved to the package under `key`.
pub open spec fn resolved_to(res: Resolver, requester: Option<String>, name: Seq<char>, key: Seq<char>) -> bool {
    match requester {
        None => lookup(str_entries(res.root_resolved@), name) == Some(key),
        Some(k) => lookup(res.result@, k@) matches Some(p) && lookup(str_entries(p.resolved_deps@), name) == Some(key),
    }
}

/// The range the project asks for `name` allows the version of the package
/// under `key`.
pub open spec fn root_allowed_as(res: Resolver, name: Seq<char>, key: Seq<char>) -> bool {
    lookup(str_entries(res.requested@), name) matches Some(rg) && lookup(res.result@, key) matches Some(p)
        && range_allows(rg, p.version@)
}

/// Lookups in two sequences with the same keys, position by position, find
/// the same position.
proof fn lemma_same_keys_index<V, W>(a: Seq<(Seq<char>, V)>, b: Seq<(Seq<char>, W)>, x: Seq<char>)
    requires
        a.len() == b.len(),
        forall|j: int| 0 <= j < a.len() ==> (#[trigger] a[j]).0 == b[j].0,
    ensures
        index_of_key(a, x) == index_of_key(b, x),
{
    crate::strmap::lemma_index_of_key(a, x);
    crate::strmap::lemma_index_of_key(b, x);
    if has_key(a, x) {
        let w = choose|w: int| 0 <= w < a.len() && a[w].0 == x;
        assert(b[w].0 == x);
        let i = index_of_key(a, x)->0;
        let j = index_of_key(b, x)->0;
        assert(b[i].0 == x);
        assert(a[j].0 == x);
    }
    if has_key(b, x) {
        let w = choose|w: int| 0 <= w < b.len() && b[w].0 == x;
        assert(a[w].0 == x);
    }
}

/// Recording a dependency keeps every package under its key, with its
/// version.
proof fn lemma_record_keeps_versions(a: Seq<(Seq<char>, PackageInfo)>, b: Seq<(Seq<char>, PackageInfo)>, requester: Option<String>)
    requires
        requester is None ==> b == a,
        requester matches Some(k) ==> match index_of_key(a, k@) {
            Some(i) => exists|dep: Seq<char>, key: Seq<char>| recorded(a, b, i, dep, key),
            None => b == a,
        },
    ensures
        forall|x: Seq<char>| #[trigger] lookup(a, x) matches Some(p) ==> (lookup(b, x) matches Some(q) && q.version == p.version),
        forall|j: int| 0 <= j < b.len() ==> a.len() == b.len() && (#[trigger] b[j]).1.version == a[j].1.version,
{
    match requester {
        Some(k) => {
            if index_of_key(a, k@) is Some {
                let i = index_of_key(a, k@)->0;
                let (dep, key) = choose|dep: Seq<char>, key: Seq<char>| recorded(a, b, i, dep, key);
                assert forall|j: int| 0 <= j < a.len() implies (#[trigger] a[j]).0 == b[j].0 && a[j].1.version == b[j].1.version by {
                    if j != i {
                        assert(b[j] == a[j]);
                    }
                }
                assert forall|x: Seq<char>| #[trigger] lookup(a, x) is Some implies (lookup(b, x) is Some
                    && lookup(b, x)->0.version == lookup(a, x)->0.version) by {
                    lemma_same_keys_index(a, b, x);
                    crate::strmap::lemma_index_of_key(a, x);
                }
            }
        },
        None => {},
    }
}

/// Every package of `a` is still in `b`, with nothing changed but what it
/// resolved.
pub open spec fn kept(a: Seq<(Seq<char>, PackageInfo)>, b: Seq<(Seq<char>, PackageInfo)>) -> bool {
    forall|x: Seq<char>|
        #[trigger] lookup(a, x) matches Some(p) ==> (lookup(b, x) matches Some(q) && same_but_resolved(p, q))
}

/// What a package asks for does not depend on what it resolved.
proof fn lemma_asks_same(p: PackageInfo, q: PackageInfo, k: Seq<char>)
    requires
        same_but_resolved(p, q),
    ensures
        requested_by(p, k) == requested_by(q, k),
{
}

/// A dependency resolved as allowed stays so while packages are kept.
proof fn lemma_edge_kept(a: Seq<(Seq<char>, PackageInfo)>, b: Seq<(Seq<char>, PackageInfo)>, k: Seq<char>, n: Seq<char>, t: Seq<char>)
    requires
        kept(a, b),
        edge_allowed(a, k, n, t),
    ensures
        edge_allowed(b, k, n, t),
{
    let p = lookup(a, k)->0;
    let q = lookup(a, t)->0;
    assert(lookup(a, k) matches Some(p0));
    assert(lookup(a, t) matches Some(q0));
    let p2 = lookup(b, k)->0;
    let q2 = lookup(b, t)->0;
    lemma_asks_same(p, p2, k);
    let rg = choose|rg: Seq<char>| asks_for(p, k, n, rg) && #[trigger] range_allows(rg, q.version@);
    assert(asks_for(p2, k, n, rg) && range_allows(rg, q2.version@));
}

/// Requests carry the ranges asked for while packages are kept.
proof fn lemma_asks_kept(
    q: Seq<PendingDep>,
    w: Seq<(Seq<char>, Vec<(String, Option<String>)>)>,
    a: Seq<(Seq<char>, PackageInfo)>,
    b: Seq<(Seq<char>, PackageInfo)>,
)
    requires
        kept(a, b),
        queue_asks(q, a),
        waiting_asks(w, a),
    ensures
        queue_asks(q, b),
        waiting_asks(w, b),
{
    assert forall|j: int| 0 <= j < q.len() implies ((#[trigger] q[j]).2 matches Some(k) ==> lookup(b, k@) matches Some(p)
        && asks_for(p, k@, q[j].0@, q[j].1@)) by {
        if q[j].2 is Some {
            let k = q[j].2->0;
            assert(lookup(a, k@) matches Some(p0));
            lemma_asks_same(lookup(a, k@)->0, lookup(b, k@)->0, k@);
        }
    }
    assert forall|i: int, j: int| 0 <= i < w.len() && 0 <= j < (#[trigger] w[i]).1@.len() implies ((#[trigger] w[i].1@[j]).1 matches Some(k)
        ==> lookup(b, k@) matches Some(p) && asks_for(p, k@, w[i].0, w[i].1@[j].0@)) by {
        if w[i].1@[j].1 is Some {
            let k = w[i].1@[j].1->0;
            assert(lookup(a, k@) matches Some(p0));
            lemma_asks_same(lookup(a, k@)->0, lookup(b, k@)->0, k@);
        }
    }
}

/// Recording a dependency of the package at position `i` keeps every
/// package, under the same keys.
proof fn lemma_recorded_kept(
    a: Seq<(Seq<char>, PackageInfo)>,
    b: Seq<(Seq<char>, PackageInfo)>,
    i: int,
    dep: Seq<char>,
    key: Seq<char>,
)
    requires
        0 <= i < a.len(),
        recorded(a, b, i, dep, key),
    ensures
        kept(a, b),
        forall|x: Seq<char>| #[trigger] index_of_key(a, x) == index_of_key(b, x),
{
    assert forall|j: int| 0 <= j < a.len() implies (#[trigger] a[j]).0 == b[j].0 by {
        if j != i {
            assert(b[j] == a[j]);
        }
    }
    assert forall|x: Seq<char>| #[trigger] index_of_key(a, x) == index_of_key(b, x) by {
        lemma_same_keys_index(a, b, x);
    }
    assert forall|x: Seq<char>| #[trigger] lookup(a, x) is Some implies (lookup(b, x) matches Some(q)
        && same_but_resolved(lookup(a, x)->0, q)) by {
        lemma_same_keys_index(a, b, x);
        crate::strmap::lemma_index_of_key(a, x);
        let c = index_of_key(a, x)->0;
        if c != i {
            assert(b[c] == a[c]);
        }
    }
}

/// What `b` keeps of `a` for the accounting of requests: the same requests
/// of the project, every package with what it resolved, and every queued,
/// waiting and optional name.
pub open spec fn accounting_kept(a: Resolver, b: Resolver) -> bool {
    &&& b.requested == a.requested
    &&& forall|k: Seq<char>| #[trigger] lookup(a.result@, k) matches Some(p) ==> (lookup(b.result@, k) matches Some(q)
        && same_but_resolved(p, q) && forall|d: Seq<char>| has_key(p.resolved_deps@, d) ==> has_key(q.resolved_deps@, d))
    &&& forall|d: Seq<char>| has_key(a.root_resolved@, d) ==> has_key(b.root_resolved@, d)
    &&& forall|x: Request| queue_view(a.pending@).contains(x) ==> queue_view(b.pending@).contains(x)
    &&& forall|d: Seq<char>| #[trigger] lookup(a.waiting@, d) matches Some(l) ==> (lookup(b.waiting@, d) matches Some(l2)
        && forall|y: (Seq<char>, Option<Seq<char>>)| waiting_requests(l@).contains(y) ==> waiting_requests(l2@).contains(y))
    &&& forall|d: Seq<char>| has_key(a.known_optional@, d) ==> has_key(b.known_optional@, d)
}

/// Where `b` keeps what `a` had, what was accounted for stays so, and a
/// request of `b` by the project or by a package of `a` was one of `a`.
proof fn lemma_accounting_kept(a: Resolver, b: Resolver, x: Request)
    requires
        accounting_kept(a, b),
    ensures
        accounted(a, x) ==> accounted(b, x),
        is_request(b, x) && (x.2 matches Some(k) ==> has_key(a.result@, k)) ==> is_request(a, x),
{
    if let Some(k) = x.2 {
        crate::strmap::lemma_index_of_key(a.result@, k);
        if lookup(a.result@, k) is Some {
            let p = lookup(a.result@, k)->0;
            assert(lookup(a.result@, k) matches Some(p0));
            lemma_asks_same(p, lookup(b.result@, k)->0, k);
        }
    }
    if lookup(a.waiting@, x.0) is Some {
        assert(lookup(a.waiting@, x.0) matches Some(l0));
    }
}

/// Keeping what matters for accounting composes.
proof fn lemma_accounting_kept_trans(a: Resolver, b: Resolver, c: Resolver)
    requires
        accounting_kept(a, b),
        accounting_kept(b, c),
    ensures
        accounting_kept(a, c),
{
    assert forall|k: Seq<char>| #[trigger] lookup(a.result@, k) is Some implies (lookup(c.result@, k) matches Some(q)
        && same_but_resolved(lookup(a.result@, k)->0, q) && forall|d: Seq<char>| has_key(lookup(a.result@, k)->0.resolved_deps@, d)
            ==> has_key(q.resolved_deps@, d)) by {
        assert(lookup(a.result@, k) matches Some(p0));
        assert(lookup(b.result@, k) matches Some(p1));
    }
    assert forall|d: Seq<char>| #[trigger] lookup(a.waiting@, d) is Some implies (lookup(c.waiting@, d) matches Some(l2)
        && forall|y: (Seq<char>, Option<Seq<char>>)| waiting_requests(lookup(a.waiting@, d)->0@).contains(y) ==> waiting_requests(l2@).contains(y)) by {
        assert(lookup(a.waiting@, d) matches Some(l0));
        assert(lookup(b.waiting@, d) matches Some(l1));
    }
}

/// After a step from `a`, where every request but `e` was accounted for, to
/// `b`: every request of `b` is accounted for, where `e` is, and so are the
/// requests of packages that are new in `b`.
proof fn lemma_accounts_step(a: Resolver, b: Resolver, e: Request)
    requires
        accounts_but(a, e),
        accounting_kept(a, b),
        accounted(b, e),
        forall|y: Request| is_request(b, y) && (y.2 matches Some(k) && !has_key(a.result@, k)) ==> accounted(b, y),
    ensures
        accounts(b),
{
    assert forall|y: Request| #[trigger] is_request(b, y) implies accounted(b, y) by {
        if y != e && !(y.2 matches Some(k) && !has_key(a.result@, k)) {
            lemma_accounting_kept(a, b, y);
            assert(is_request(a, y));
        }
    }
}

/// Recording a dependency keeps a sound resolution sound, where a
/// dependency of the project goes to a package its range allows.
proof fn lemma_record_sound(before: Resolver, after: Resolver, requester: Option<String>, name: Seq<char>, key: Seq<char>)
    requires
        before.sound(),
        requester is None ==> root_allowed_as(before, name, key),
        after.requested == before.requested,
        after.resolved_vers == before.resolved_vers,
        after.pending == before.pending,
        after.waiting == before.waiting,
        forall|x: Seq<char>| #[trigger] lookup(before.result@, x) matches Some(p) ==> (lookup(after.result@, x) matches Some(q)
            && q.version == p.version),
        forall|j: int| 0 <= j < after.result@.len() ==> before.result@.len() == after.result@.len()
            && (#[trigger] after.result@[j]).1.version == before.result@[j].1.version,
        requester is None ==> str_entries(after.root_resolved@) == crate::strmap::inserted(str_entries(before.root_resolved@), name, key),
        requester is Some ==> after.root_resolved@ == before.root_resolved@,
        requester is None ==> after.result@ == before.result@,
        requester matches Some(k) ==> match index_of_key(before.result@, k@) {
            Some(i) => recorded(before.result@, after.result@, i, name, key),
            None => after.result@ == before.result@,
        },
        requester matches Some(k) ==> edge_allowed(before.result@, k@, name, key),
        after.metadata_cache == before.metadata_cache,
    ensures
        after.sound(),
{
    let a = before.result@;
    let b = after.result@;
    let ri: Option<int> = match requester {
        Some(k) => index_of_key(a, k@),
        None => None,
    };
    match ri {
        Some(i) => {
            let k = requester->0;
            crate::strmap::lemma_index_of_key(a, k@);
            lemma_recorded_kept(a, b, i, name, key);
        },
        None => {
            assert(b == a);
            assert(kept(a, b)) by {
                assert forall|x: Seq<char>| #[trigger] lookup(a, x) is Some implies (lookup(b, x) matches Some(q)
                    && same_but_resolved(lookup(a, x)->0, q)) by {}
            }
        },
    }
    assert(forall|x: Seq<char>| #[trigger] index_of_key(a, x) == index_of_key(b, x));
    lemma_asks_kept(after.pending@, after.waiting@, a, b);
    assert forall|i: int| 0 <= i < b.len() implies documented(#[trigger] b[i].1, after.metadata_cache@) by {
        if ri == Some(i) {
            assert(documented(a[i].1, before.metadata_cache@));
            let m = lookup(before.metadata_cache@, a[i].1.name@)->0;
            let (j, d) = choose|j: int, d: PackageInfo|
                0 <= j < m.versions@.len() && #[trigger] describes(d, a[i].1.name@, entry_version(m.versions@, j)->0, m.versions@[j].1)
                    && same_but_resolved(d, a[i].1);
            assert(describes(d, b[i].1.name@, entry_version(m.versions@, j)->0, m.versions@[j].1));
        } else {
            assert(b[i] == a[i]);
        }
    }
    assert forall|i: int, j: int|
        0 <= i < after.resolved_vers@.len() && 0 <= j < (#[trigger] after.resolved_vers@[i]).1@.len()
        implies (lookup(b, (#[trigger] after.resolved_vers@[i].1@[j]).1@) matches Some(p) ==> p.name@ == after.resolved_vers@[i].0) by {
        let k = after.resolved_vers@[i].1@[j].1@;
        crate::strmap::lemma_index_of_key(a, k);
        crate::strmap::lemma_index_of_key(b, k);
        if lookup(b, k) is Some {
            assert(lookup(a, k) is Some);
        }
    }
    assert forall|i: int, n: Seq<char>|
        0 <= i < b.len() implies (#[trigger] lookup(str_entries(b[i].1.resolved_deps@), n) matches Some(t)
            ==> edge_allowed(b, b[i].0, n, t)) by {
        if lookup(str_entries(b[i].1.resolved_deps@), n) is Some {
            let t = lookup(str_entries(b[i].1.resolved_deps@), n)->0;
            if ri == Some(i) {
                let k = requester->0;
                crate::strmap::lemma_inserted_lookup(str_entries(a[i].1.resolved_deps@), name, key, n);
                assert(a[i].0 == k@);
                if n == name {
                    lemma_edge_kept(a, b, k@, name, key);
                } else {
                    assert(lookup(str_entries(a[i].1.resolved_deps@), n) == Some(t));
                    lemma_edge_kept(a, b, a[i].0, n, t);
                }
            } else {
                assert(b[i] == a[i]);
                lemma_edge_kept(a, b, a[i].0, n, t);
            }
        }
    }
    assert forall|i: int, j: int|
        0 <= i < after.resolved_vers@.len() && 0 <= j < (#[trigger] after.resolved_vers@[i]).1@.len()
        implies (lookup(b, (#[trigger] after.resolved_vers@[i].1@[j]).1@) matches Some(p)
            && p.version@ == after.resolved_vers@[i].1@[j].0@) by {
        let k = after.resolved_vers@[i].1@[j].1@;
        assert(lookup(a, k) is Some);
    }
    assert forall|i: int| 0 <= i < b.len() implies !(#[trigger] b[i]).1.version@.contains('@') by {
        assert(b[i].1.version == a[i].1.version);
        assert(!a[i].1.version@.contains('@'));
    }
    assert forall|x: Seq<char>|
        #[trigger] lookup(str_entries(after.root_resolved@), x) is Some implies (lookup(str_entries(after.requested@), x) matches Some(rg)
            && lookup(b, lookup(str_entries(after.root_resolved@), x)->0) matches Some(p) && range_allows(rg, p.version@)) by {
        if requester is None {
            crate::strmap::lemma_inserted_lookup(str_entries(before.root_resolved@), name, key, x);
            if x == name {
                let p = lookup(a, key)->0;
                assert(lookup(b, key) matches Some(q) && q.version == p.version);
            } else {
                let k = lookup(str_entries(before.root_resolved@), x)->0;
                assert(lookup(str_entries(before.root_resolved@), x) matches Some(k0));
                assert(lookup(a, k) is Some);
            }
        } else {
            let k = lookup(str_entries(before.root_resolved@), x)->0;
            assert(lookup(str_entries(before.root_resolved@), x) matches Some(k0));
            assert(lookup(a, k) is Some);
        }
    }
}

impl Resolver {
    /// Records, with [`record_dep`], that `name` asked for by `requester`
    /// resolved to `key`.
    fn record(&mut self, requester: &Option<String>, name: &str, key: &str)
        requires
            old(self).wf(),
            has_key(old(self).result@, key@),
        ensures
            final(self).wf(),
            grows(old(self).result@, final(self).result@),
            final(self).pending == old(self).pending,
            final(self).waiting == old(self).waiting,
            final(self).metadata_cache == old(self).metadata_cache,
            final(self).known_optional == old(self).known_optional,
            final(self).conflict_warnings == old(self).conflict_warnings,
            requester matches Some(k) ==> has_key(old(self).result@, k@) ==> recorded_for(*final(self), *requester, name@),
            requester is None ==> recorded_for(*final(self), *requester, name@),
            requester matches Some(k) ==> has_key(old(self).result@, k@) ==> resolved_to(*final(self), *requester, name@, key@),
            requester is None ==> resolved_to(*final(self), *requester, name@, key@),
            final(self).requested == old(self).requested,
            final(self).resolved_vers == old(self).resolved_vers,
            forall|x: Seq<char>| #[trigger] lookup(old(self).result@, x) matches Some(p) ==> (lookup(final(self).result@, x) matches Some(q)
                && q.version == p.version),
            old(self).sound() && (requester is None ==> root_allowed_as(*old(self), name@, key@)) && (requester matches Some(
                k,
            ) ==> edge_allowed(old(self).result@, k@, name@, key@)) ==> final(self).sound(),
            accounting_kept(*old(self), *final(self)),
            forall|k: Seq<char>| has_key(final(self).result@, k) ==> has_key(old(self).result@, k),
    {
        let _ = self.result.unique();
        let ghost a = self.result@;
        let ghost root = self.root_resolved@;
        let ghost before = *self;
        record_dep(&mut self.result, &mut self.root_resolved, requester, name, key);
        proof {
            let b = self.result@;
            assert forall|d: Seq<char>| has_key(root, d) implies has_key(self.root_resolved@, d) by {
                if requester is None {
                    crate::strmap::lemma_str_entries_index(root, d);
                    crate::strmap::lemma_str_entries_index(self.root_resolved@, d);
                    crate::strmap::lemma_inserted_keys(str_entries(root), name@, key@, d);
                }
            }
            let ri: Option<int> = match requester {
                Some(k) => index_of_key(a, k@),
                None => None,
            };
            if ri is Some {
                let i = ri->0;
                crate::strmap::lemma_index_of_key(a, requester->0@);
                lemma_recorded_kept(a, b, i, name@, key@);
                assert forall|k: Seq<char>| has_key(b, k) implies has_key(a, k) by {
                    crate::strmap::lemma_index_of_key(a, k);
                    crate::strmap::lemma_index_of_key(b, k);
                }
            }
            assert forall|k: Seq<char>| #[trigger] lookup(a, k) is Some implies (lookup(b, k) matches Some(q)
                && same_but_resolved(lookup(a, k)->0, q) && forall|d: Seq<char>| has_key(lookup(a, k)->0.resolved_deps@, d) ==> has_key(q.resolved_deps@, d)) by {
                if lookup(a, k) is Some {
                    crate::strmap::lemma_index_of_key(a, k);
                    let c = index_of_key(a, k)->0;
                    if ri == Some(c) {
                        crate::strmap::lemma_index_of_key(b, k);
                        assert forall|d: Seq<char>| has_key(a[c].1.resolved_deps@, d) implies has_key(b[c].1.resolved_deps@, d) by {
                            crate::strmap::lemma_str_entries_index(a[c].1.resolved_deps@, d);
                            crate::strmap::lemma_str_entries_index(b[c].1.resolved_deps@, d);
                            crate::strmap::lemma_inserted_keys(str_entries(a[c].1.resolved_deps@), name@, key@, d);
                        }
                    } else if ri is Some {
                        crate::strmap::lemma_index_of_key(b, k);
                        assert(b[c] == a[c]);
                    }
                }
            }
        }
        proof {
            lemma_record_keeps_versions(a, self.result@, *requester);
            if before.sound() && (requester is None ==> root_allowed_as(before, name@, key@)) && (requester matches Some(
                k,
            ) ==> edge_allowed(before.result@, k@, name@, key@)) {
                lemma_record_sound(before, *self, *requester, name@, key@);
            }
        }
        proof {
            match requester {
                None => {
                    crate::strmap::lemma_str_entries_index(self.root_resolved@, name@);
                    crate::strmap::lemma_inserted_keys(str_entries(root), name@, key@, name@);
                    crate::strmap::lemma_inserted_lookup(str_entries(root), name@, key@, name@);
                    assert forall|j: int| 0 <= j < self.root_resolved@.len() implies has_key(
                        self.result@,
                        (#[trigger] self.root_resolved@[j]).1@,
                    ) by {
                        let t = str_entries(self.root_resolved@);
                        assert(t[j] == (self.root_resolved@[j].0, self.root_resolved@[j].1@));
                        crate::strmap::lemma_inserted_values(str_entries(root), name@, key@, j);
                        if t[j].1 != key@ {
                            let y = choose|y: int| 0 <= y < str_entries(root).len() && str_entries(root)[y].1 == t[j].1;
                            assert(str_entries(root)[y] == (root[y].0, root[y].1@));
                            assert(has_key(a, root[y].1@));
                        }
                    }
                },
                Some(k) => {
                    crate::strmap::lemma_index_of_key(a, k@);
                    match index_of_key(a, k@) {
                        Some(i) => {
                            lemma_recorded_wf(a, self.result@, i, name@, key@);
                            lemma_targets_grow(self.root_resolved@, a, self.result@);
                            crate::strmap::lemma_index_of_key(self.result@, k@);
                            assert(self.result@[i].0 == k@);
                            let c = index_of_key(self.result@, k@)->0;
                            assert(self.result@[c].0 == k@);
                            assert(!(c < i));
                            assert(a[c].0 == k@);
                            assert(!(i < c));
                            crate::strmap::lemma_str_entries_index(self.result@[i].1.resolved_deps@, name@);
                            crate::strmap::lemma_inserted_lookup(str_entries(a[i].1.resolved_deps@), name@, key@, name@);
                        },
                        None => {},
                    }
                },
            }
            assert forall|i: int, j: int|
                0 <= i < self.resolved_vers@.len() && 0 <= j < (#[trigger] self.resolved_vers@[i]).1@.len()
                implies has_key(self.result@, (#[trigger] self.resolved_vers@[i].1@[j]).1@) by {
                assert(has_key(a, self.resolved_vers@[i].1@[j].1@));
            }
            assert forall|j: int| 0 <= j < self.pending@.len() implies ((#[trigger] self.pending@[j]).2 matches Some(k)
                ==> has_key(self.result@, k@)) by {
                if self.pending@[j].2 is Some {
                    assert(has_key(a, self.pending@[j].2->0@));
                }
            }
            assert forall|i: int, j: int|
                0 <= i < self.waiting@.len() && 0 <= j < (#[trigger] self.waiting@[i]).1@.len()
                implies ((#[trigger] self.waiting@[i].1@[j]).1 matches Some(k) ==> has_key(self.result@, k@)) by {
                if self.waiting@[i].1@[j].1 is Some {
                    assert(has_key(a, self.waiting@[i].1@[j].1->0@));
                }
            }
        }
    }
}

proof fn lemma_waiters_grow(
    w: Seq<(Seq<char>, Vec<(String, Option<String>)>)>,
    a: Seq<(Seq<char>, PackageInfo)>,
    b: Seq<(Seq<char>, PackageInfo)>,
)
    requires
        waiters_in(w, a),
        grows(a, b),
    ensures
        waiters_in(w, b),
{
    assert forall|i: int, j: int| 0 <= i < w.len() && 0 <= j < (#[trigger] w[i]).1@.len() implies ((#[trigger] w[i].1@[j]).1 matches Some(k)
        ==> has_key(b, k@)) by {
        if w[i].1@[j].1 is Some {
            assert(has_key(a, w[i].1@[j].1->0@));
        }
    }
}

/// Adding a new package keeps a sound resolution sound, where its version
/// has no `@`.
proof fn lemma_add_sound(
    before: Resolver,
    after: Resolver,
    name: Seq<char>,
    key: Seq<char>,
    p: PackageInfo,
    lst: Vec<(SemVer, String)>,
    list0: Seq<(SemVer, String)>,
)
    requires
        before.sound(),
        !p.version@.contains('@'),
        !has_key(before.result@, key),
        after.result@ == before.result@.push((key, p)),
        queue_view(after.pending@) == queue_view(before.pending@) + requested_by(p, key),
        after.waiting == before.waiting,
        after.root_resolved == before.root_resolved,
        after.requested == before.requested,
        after.resolved_vers@ == crate::strmap::inserted(crate::strmap::removed(before.resolved_vers@, name), name, lst),
        !has_key(crate::strmap::removed(before.resolved_vers@, name), name),
        has_key(before.resolved_vers@, name) ==> list0 == lookup(before.resolved_vers@, name)->0@,
        !has_key(before.resolved_vers@, name) ==> list0.len() == 0,
        lst@.len() == list0.len() + 1,
        forall|j: int| 0 <= j < list0.len() ==> lst@[j] == list0[j],
        lst@.last().0@ == p.version@,
        lst@.last().1@ == key,
        p.name@ == name,
        p.resolved_deps@.len() == 0,
        documented(p, before.metadata_cache@),
        after.metadata_cache == before.metadata_cache,
    ensures
        after.sound(),
{
    let a = before.result@;
    let b = after.result@;
    let rv0 = before.resolved_vers@;
    let rv1 = crate::strmap::removed(rv0, name);
    let rv2 = after.resolved_vers@;
    crate::strmap::lemma_index_of_key(a, key);
    assert(crate::strmap::inserted(a, key, p) == b);
    assert forall|x: Seq<char>| #[trigger] lookup(b, x) == (if x == key { Some(p) } else { lookup(a, x) }) by {
        crate::strmap::lemma_inserted_lookup(a, key, p, x);
    }
    crate::strmap::lemma_index_of_key(rv1, name);
    crate::strmap::lemma_index_of_key(rv0, name);
    assert(rv2 == rv1.push((name, lst)));
    assert forall|i: int, j: int| 0 <= i < rv2.len() && 0 <= j < (#[trigger] rv2[i]).1@.len() implies (lookup(b, (#[trigger] rv2[i].1@[j]).1@) matches Some(q)
        && q.version@ == rv2[i].1@[j].0@) by {
        if i == rv1.len() {
            if j < list0.len() {
                let x = index_of_key(rv0, name)->0;
                assert(rv0[x].1@[j] == list0[j]);
                assert(lookup(a, list0[j].1@) is Some);
            }
        } else {
            assert(rv2[i] == rv1[i]);
            let y = match index_of_key(rv0, name) {
                Some(x) => if i < x { i } else { i + 1 },
                None => i,
            };
            assert(rv1[i] == rv0[y]);
            assert(lookup(a, rv0[y].1@[j].1@) is Some);
        }
    }
    assert forall|i: int| 0 <= i < b.len() implies !(#[trigger] b[i]).1.version@.contains('@') by {
        if i < a.len() {
            assert(b[i] == a[i]);
        }
    }
    assert forall|x: Seq<char>|
        #[trigger] lookup(str_entries(after.root_resolved@), x) is Some implies (lookup(str_entries(after.requested@), x) matches Some(rg)
            && lookup(b, lookup(str_entries(after.root_resolved@), x)->0) matches Some(q) && range_allows(rg, q.version@)) by {
        let k = lookup(str_entries(before.root_resolved@), x)->0;
        assert(lookup(a, k) is Some);
    }
    let q0 = before.pending@;
    let q1 = after.pending@;
    assert forall|j: int| 0 <= j < q1.len() && (#[trigger] q1[j]).2 is None implies lookup(str_entries(after.requested@), q1[j].0@) == Some(q1[j].1@) by {
        let qv = queue_view(q1);
        assert(qv[j] == dep_view(q1[j]));
        if j < q0.len() {
            assert(qv[j] == queue_view(q0)[j]);
            assert(queue_view(q0)[j] == dep_view(q0[j]));
        } else {
            assert(qv.len() == q1.len());
            assert(queue_view(q0).len() == q0.len());
            assert(qv.len() == queue_view(q0).len() + requested_by(p, key).len());
            assert(qv[j] == (queue_view(q0) + requested_by(p, key))[j]);
            assert(qv[j] == requested_by(p, key)[j - q0.len()]);
            lemma_requested_by_key(p, key, j - q0.len());
        }
    }
    // What packages ask for, and what they resolved.
    assert(kept(a, b)) by {
        assert forall|x: Seq<char>| #[trigger] lookup(a, x) is Some implies (lookup(b, x) matches Some(q)
            && same_but_resolved(lookup(a, x)->0, q)) by {
            crate::strmap::lemma_index_of_key(a, x);
        }
    }
    lemma_asks_kept(q0, after.waiting@, a, b);
    assert forall|j: int| 0 <= j < q1.len() implies ((#[trigger] q1[j]).2 matches Some(k) ==> lookup(b, k@) matches Some(pp)
        && asks_for(pp, k@, q1[j].0@, q1[j].1@)) by {
        let qv = queue_view(q1);
        assert(qv[j] == dep_view(q1[j]));
        if q1[j].2 is Some {
            if j < q0.len() {
                assert(qv[j] == queue_view(q0)[j]);
                assert(queue_view(q0)[j] == dep_view(q0[j]));
                assert(q0[j].2 is Some);
            } else {
                assert(qv.len() == q1.len());
                assert(queue_view(q0).len() == q0.len());
                assert(qv[j] == (queue_view(q0) + requested_by(p, key))[j]);
                let m = j - q0.len();
                assert(qv[j] == requested_by(p, key)[m]);
                lemma_requested_by_key(p, key, m);
                assert(requested_by(p, key).contains((q1[j].0@, q1[j].1@, Some(key))));
            }
        }
    }
    assert forall|i: int| 0 <= i < b.len() implies documented(#[trigger] b[i].1, after.metadata_cache@) by {
        if i < a.len() {
            assert(b[i] == a[i]);
        }
    }
    assert forall|i: int, n: Seq<char>|
        0 <= i < b.len() implies (#[trigger] lookup(str_entries(b[i].1.resolved_deps@), n) matches Some(t)
            ==> edge_allowed(b, b[i].0, n, t)) by {
        if i < a.len() {
            assert(b[i] == a[i]);
            if lookup(str_entries(a[i].1.resolved_deps@), n) is Some {
                lemma_edge_kept(a, b, a[i].0, n, lookup(str_entries(a[i].1.resolved_deps@), n)->0);
            }
        } else {
            assert(b[i].1 == p);
            crate::strmap::lemma_index_of_key(str_entries(p.resolved_deps@), n);
        }
    }
    assert forall|i: int, j: int| 0 <= i < rv2.len() && 0 <= j < (#[trigger] rv2[i]).1@.len() implies (lookup(b, (#[trigger] rv2[i].1@[j]).1@) matches Some(q)
        ==> q.name@ == rv2[i].0) by {
        if i == rv1.len() {
            assert(rv2[i].0 == name);
            if j < list0.len() {
                let x = index_of_key(rv0, name)->0;
                assert(rv0[x].1@[j] == list0[j]);
                assert(rv0[x].0 == name);
                assert(lookup(a, list0[j].1@) is Some);
            }
        } else {
            assert(rv2[i] == rv1[i]);
            let y = match index_of_key(rv0, name) {
                Some(x) => if i < x { i } else { i + 1 },
                None => i,
            };
            assert(rv1[i] == rv0[y]);
            assert(lookup(a, rv0[y].1@[j].1@) is Some);
        }
    }
}

impl Resolver {
    /// Adds the package `p`, chosen for `name`, unless its key is already
    /// there; a new package has its dependencies queued and its version
    /// listed for `name`. Gives back the key.
    #[verifier::spinoff_prover]
    #[verifier::rlimit(50)]
    fn add_package(&mut self, name: &str, p: PackageInfo) -> (key: String)
        requires
            old(self).wf(),
            p.name@ == name@,
            p.resolved_deps@.len() == 0,
        ensures
            final(self).wf(),
            grows(old(self).result@, final(self).result@),
            key@ == package_key(name@, p.version@),
            has_key(final(self).result@, key@),
            has_key(old(self).result@, key@) ==> *final(self) == *old(self),
            !has_key(old(self).result@, key@) ==> {
                &&& final(self).result@ == old(self).result@.push((key@, p))
                &&& queue_view(final(self).pending@) == queue_view(old(self).pending@) + requested_by(p, key@)
                &&& forall|k: Seq<char>| #[trigger] has_key(final(self).known_optional@, k) <==> (has_key(
                    old(self).known_optional@,
                    k,
                ) || has_key(p.optional_dependencies@, k))
            },
            final(self).waiting == old(self).waiting,
            final(self).metadata_cache == old(self).metadata_cache,
            final(self).root_resolved == old(self).root_resolved,
            final(self).conflict_warnings == old(self).conflict_warnings,
            final(self).requested == old(self).requested,
            old(self).sound() && !p.version@.contains('@') && documented(p, old(self).metadata_cache@) ==> final(self).sound(),
            accounting_kept(*old(self), *final(self)),
    {
        let key = make_key(name, &p.version);
        if self.result.contains_key(key.as_str()) {
            return key;
        }
        let ghost before = *self;
        let ghost pv = p;
        let ghost a = self.result@;
        let ghost q0 = self.pending@;
        enqueue_all_deps(&p, &mut self.pending, &mut self.known_optional, key.as_str());
        let v = copy_version(&p.version);
        let ghost rv0 = self.resolved_vers@;
        let mut list = match self.resolved_vers.remove(name) {
            Some(l) => l,
            None => Vec::new(),
        };
        let ghost rv1 = self.resolved_vers@;
        let ghost list0 = list@;
        proof {
            crate::strmap::lemma_index_of_key(rv0, name@);
            if has_key(rv0, name@) {
                let i = index_of_key(rv0, name@)->0;
                assert(list0 == rv0[i].1@);
            }
        }
        list.push((v, key.clone()));
        let ghost lst = list;
        self.resolved_vers.insert(name.to_owned(), list);
        proof {
            lemma_new_package_wf(a, key@, p);
        }
        self.result.insert(key.clone(), p);
        proof {
            let b = self.result@;
            // the queue
            assert forall|j: int| 0 <= j < self.pending@.len() implies ((#[trigger] self.pending@[j]).2 matches Some(k)
                ==> has_key(b, k@)) by {
                if self.pending@[j].2 is Some {
                    if j < q0.len() {
                        assert(queue_view(self.pending@)[j] == queue_view(q0)[j]);
                        assert(dep_view(self.pending@[j]) == dep_view(q0[j]));
                        assert(has_key(a, q0[j].2->0@));
                    } else {
                        let qv = queue_view(self.pending@);
                        assert(qv.len() == self.pending@.len());
                        assert(qv.len() == queue_view(q0).len() + requested_by(p, key@).len());
                        assert(qv[j] == (queue_view(q0) + requested_by(p, key@))[j]);
                        assert(qv[j] == requested_by(p, key@)[j - q0.len()]);
                        lemma_requested_by_key(p, key@, j - q0.len());
                        assert(qv[j] == dep_view(self.pending@[j]));
                    }
                }
            }
            // the versions listed by name
            let rv2 = self.resolved_vers@;
            assert forall|i: int, j: int| 0 <= i < rv2.len() && 0 <= j < (#[trigger] rv2[i]).1@.len() implies has_key(b, (#[trigger] rv2[i].1@[j]).1@) by {
                crate::strmap::lemma_inserted_values(rv1, name@, lst, i);
                crate::strmap::lemma_index_of_key(rv1, name@);
                if rv2[i].1 == lst {
                    if j < list0.len() {
                        if has_key(rv0, name@) {
                            let x = index_of_key(rv0, name@)->0;
                            assert(rv0[x].1@[j] == list0[j]);
                            assert(has_key(a, list0[j].1@));
                        }
                    }
                } else {
                    let y = choose|y: int| 0 <= y < rv1.len() && rv1[y].1 == rv2[i].1;
                    crate::strmap::lemma_index_of_key(rv0, name@);
                    let x = index_of_key(rv0, name@);
                    if x is Some {
                        let xi = x->0;
                        if y < xi {
                            assert(rv1[y] == rv0[y]);
                            assert(has_key(a, rv0[y].1@[j].1@));
                        } else {
                            assert(rv1[y] == rv0[y + 1]);
                            assert(has_key(a, rv0[y + 1].1@[j].1@));
                        }
                    } else {
                        assert(rv1[y] == rv0[y]);
                        assert(has_key(a, rv0[y].1@[j].1@));
                    }
                }
            }
            lemma_targets_grow(self.root_resolved@, a, b);
            lemma_waiters_grow(self.waiting@, a, b);
        }
        proof {
            let a2 = before.result@;
            let b2 = self.result@;
            crate::strmap::lemma_index_of_key(a2, key@);
            assert forall|k: Seq<char>| #[trigger] lookup(a2, k) is Some implies (lookup(b2, k) matches Some(q)
                && same_but_resolved(lookup(a2, k)->0, q) && forall|d: Seq<char>| has_key(lookup(a2, k)->0.resolved_deps@, d) ==> has_key(q.resolved_deps@, d)) by {
                crate::strmap::lemma_inserted_lookup(a2, key@, pv, k);
                crate::strmap::lemma_index_of_key(a2, k);
            }
            assert forall|x: Request| queue_view(before.pending@).contains(x) implies queue_view(self.pending@).contains(x) by {
                let j = choose|j: int| 0 <= j < queue_view(before.pending@).len() && queue_view(before.pending@)[j] == x;
                assert(queue_view(self.pending@)[j] == (queue_view(before.pending@) + requested_by(pv, key@))[j]);
            }
            assert forall|d: Seq<char>| #[trigger] lookup(before.waiting@, d) is Some implies (lookup(self.waiting@, d) matches Some(l2)
                && forall|y: (Seq<char>, Option<Seq<char>>)| waiting_requests(lookup(before.waiting@, d)->0@).contains(y) ==> waiting_requests(l2@).contains(y)) by {}
        }
        proof {
            if before.sound() && !pv.version@.contains('@') && documented(pv, before.metadata_cache@) {
                crate::strmap::lemma_index_of_key(before.result@, key@);
                lemma_add_sound(before, *self, name@, key@, pv, lst, list0);
            }
        }
        key
    }
}

proof fn lemma_peer_items_key(peers: Seq<(Seq<char>, String)>, optional: Seq<(Seq<char>, ())>, key: Seq<char>, j: int)
    requires
        0 <= j < peer_items(peers, optional, key).len(),
    ensures
        peer_items(peers, optional, key)[j].2 == Some(key),
    decreases peers.len(),
{
    if peers.len() > 0 {
        let rest = peer_items(peers.drop_last(), optional, key);
        if j < rest.len() {
            lemma_peer_items_key(peers.drop_last(), optional, key, j);
        }
    }
}

proof fn lemma_requested_by_key(p: PackageInfo, key: Seq<char>, j: int)
    requires
        0 <= j < requested_by(p, key).len(),
    ensures
        requested_by(p, key)[j].2 == Some(key),
{
    let a = dep_items(p.dependencies@, key);
    let b = dep_items(p.optional_dependencies@, key);
    let c = peer_items(p.peer_dependencies@, p.optional_peers@, key);
    if j >= a.len() + b.len() {
        lemma_peer_items_key(p.peer_dependencies@, p.optional_peers@, key, j - a.len() - b.len());
    }
}

/// Whether the range `range` allows the version shown as `v`: some of its
/// requirements matches it.
pub open spec fn range_allows(range: Seq<char>, v: Seq<char>) -> bool {
    exists|j: int| 0 <= j < range_texts(range).len() && semver_req_matches(#[trigger] range_texts(range)[j], v)
}

/// The first position of `list`, from `j` on, whose version `range` allows.
pub open spec fn first_allowed(list: Seq<(SemVer, String)>, range: Seq<char>, j: int) -> Option<int>
    decreases list.len() - j,
{
    if j < 0 || j >= list.len() {
        None
    } else if range_allows(range, list[j].0@) {
        Some(j)
    } else {
        first_allowed(list, range, j + 1)
    }
}

/// Where [`first_allowed`] finds a position, the range allows its version.
proof fn lemma_first_allowed(list: Seq<(SemVer, String)>, range: Seq<char>, j: int)
    requires
        first_allowed(list, range, j) is Some,
    ensures
        0 <= first_allowed(list, range, j)->0 < list.len(),
        range_allows(range, list[first_allowed(list, range, j)->0].0@),
    decreases list.len() - j,
{
    if 0 <= j < list.len() && !range_allows(range, list[j].0@) {
        lemma_first_allowed(list, range, j + 1);
    }
}

/// A queued dependency asked for by a package that is not in `result`.
pub open spec fn fresh_request(e: PendingDep, result: Seq<(Seq<char>, PackageInfo)>) -> bool {
    opt_view(e.2) matches Some(k) && !has_key(result, k)
}

/// `k` is the text of one of `names`.
pub open spec fn named_among(names: Seq<String>, k: Seq<char>) -> bool {
    exists|i: int| 0 <= i < names.len() && names[i]@ == k
}

/// After `m` dependencies were taken from the front of the queue `q0`, the
/// queue is `q1`: what is left of `q0` still comes first, and every
/// dependency after it is asked for by a package that was not in `result`.
pub open spec fn drained(q0: Seq<PendingDep>, q1: Seq<PendingDep>, result: Seq<(Seq<char>, PackageInfo)>, m: int) -> bool {
    &&& m <= q0.len() ==> (q0.len() - m <= q1.len() && queue_view(q1).subrange(0, q0.len() - m) == queue_view(q0).skip(m))
    &&& forall|j: int| 0 <= j < q1.len() && j >= q0.len() - m ==> fresh_request(#[trigger] q1[j], result)
}

/// Taking one more dependency from the front, and queueing what processing
/// it asks for, keeps the account of [`drained`].
proof fn lemma_drain_step(
    q0: Seq<PendingDep>,
    q: Seq<PendingDep>,
    q2: Seq<PendingDep>,
    r0: Seq<(Seq<char>, PackageInfo)>,
    rr: Seq<(Seq<char>, PackageInfo)>,
    m: int,
)
    requires
        0 <= m,
        q.len() > 0,
        drained(q0, q, r0, m),
        queue_grows(q.drop_first(), q2, rr),
        grows(r0, rr),
    ensures
        drained(q0, q2, r0, m + 1),
{
    let q1 = q.drop_first();
    let n = q0.len() as int;
    assert forall|j: int| 0 <= j < q1.len() implies #[trigger] queue_view(q2)[j] == dep_view(q[j + 1]) by {
        assert(queue_view(q2)[j] == queue_view(q2).subrange(0, q1.len() as int)[j]);
        assert(queue_view(q1)[j] == dep_view(q1[j]));
    }
    if m + 1 <= n {
        assert(queue_view(q2).subrange(0, n - m - 1) =~= queue_view(q0).skip(m + 1)) by {
            assert forall|j: int| 0 <= j < n - m - 1 implies #[trigger] queue_view(q2).subrange(0, n - m - 1)[j] == queue_view(q0).skip(m + 1)[j] by {
                assert(queue_view(q2)[j] == dep_view(q[j + 1]));
                assert(queue_view(q)[j + 1] == queue_view(q).subrange(0, n - m)[j + 1]);
                assert(queue_view(q0).skip(m)[j + 1] == queue_view(q0).skip(m + 1)[j]);
            }
        }
    }
    assert forall|j: int| 0 <= j < q2.len() && j >= n - (m + 1) implies fresh_request(#[trigger] q2[j], r0) by {
        if j < q1.len() {
            assert(queue_view(q2)[j] == dep_view(q2[j]));
            assert(dep_view(q2[j]) == dep_view(q[j + 1]));
            assert(fresh_request(q[j + 1], r0));
        } else {
            assert(fresh_request(q2[j], rr));
        }
    }
}

/// The queue `b` begins with the queue `a`, and every dependency after that
/// is asked for by a package that is not in `result`.
pub open spec fn queue_grows(a: Seq<PendingDep>, b: Seq<PendingDep>, result: Seq<(Seq<char>, PackageInfo)>) -> bool {
    &&& a.len() <= b.len()
    &&& queue_view(b).subrange(0, a.len() as int) == queue_view(a)
    &&& forall|j: int| a.len() <= j < b.len() ==> fresh_request(#[trigger] b[j], result)
}

/// A queue that is left as it was grows trivially.
proof fn lemma_queue_grows_same(q: Seq<PendingDep>, result: Seq<(Seq<char>, PackageInfo)>)
    ensures
        queue_grows(q, q, result),
{
    assert(queue_view(q).subrange(0, q.len() as int) =~= queue_view(q));
}

/// The optional package `name` was skipped from `a` to `b`: one warning,
/// that it is skipped, was added to those of `a`.
pub open spec fn skipped_with_warning(a: Resolver, b: Resolver, name: Seq<char>) -> bool {
    &&& has_key(a.known_optional@, name)
    &&& b.conflict_warnings@.len() == a.conflict_warnings@.len() + 1
    &&& b.conflict_warnings@.drop_last() == a.conflict_warnings@
    &&& exists|why: Seq<char>| b.conflict_warnings@.last()@ == #[trigger] skip_warning(name, why)
}

/// `k` is among the optional dependencies of a package of `b` whose key is not
/// in `a`.
pub open spec fn newly_optional(a: Seq<(Seq<char>, PackageInfo)>, b: Seq<(Seq<char>, PackageInfo)>, k: Seq<char>) -> bool {
    exists|key: Seq<char>|
        !has_key(a, key) && #[trigger] has_key(b, key) && has_key(lookup(b, key)->0.optional_dependencies@, k)
}

/// What processing the dependency `name` with `range`, asked for by
/// `requester`, does to the state `a`, giving the state `b` and the answer
/// `r` (see [`Resolver::process`]).
pub open spec fn processed(
    a: Resolver,
    name: String,
    range: String,
    requester: Option<String>,
    b: Resolver,
    r: Result<Option<String>, ResolveError>,
) -> bool {
    &&& b.wf()
    &&& grows(a.result@, b.result@)
    &&& match r {
        Ok(Some(n)) => n@ == name@ && !has_key(a.waiting@, name@) && has_key(b.waiting@, name@) && !has_key(
            a.metadata_cache@,
            name@,
        ),
        Ok(None) => recorded_for(b, requester, name@) || (has_key(a.waiting@, name@) && has_key(b.waiting@, name@))
            || skipped_with_warning(a, b, name@),
        Err(ResolveError::BadRange { .. }) => !range_ok(range@),
        Err(ResolveError::NoMatch { name: n, range: rg }) => n@ == name@ && rg@ == range@ && !has_key(
            a.known_optional@,
            name@,
        ),
        Err(ResolveError::Fetch { message: _ }) => false,
    }
    &&& has_key(a.metadata_cache@, name@) ==> !(r matches Ok(Some(_)))
    &&& forall|k: Seq<char>| has_key(a.waiting@, k) ==> has_key(b.waiting@, k)
    // A version already chosen for `name` that the range allows is reused.
    &&& (reuse_of(a.resolved_vers@, name@, range@) matches Some(key) ==> (r matches Ok(None)) && resolved_to(
        b,
        requester,
        name@,
        key,
    ))
    // With versions already chosen, a range that does not parse is refused.
    &&& (lookup(a.resolved_vers@, name@) is Some && !range_ok(range@) ==> r matches Err(ResolveError::BadRange { .. }))
    // Otherwise, with the metadata at hand, the best version is chosen.
    &&& (lookup(a.metadata_cache@, name@) matches Some(m) ==> no_reuse(a.resolved_vers@, name@, range@) ==> {
        &&& best_exists(m, range@) ==> (r matches Ok(None)) && exists|i: int|
            is_best(m.versions@, range_texts(range@), i) && #[trigger] resolved_to(
                b,
                requester,
                name@,
                package_key(name@, entry_version(m.versions@, i)->0),
            )
        &&& !best_exists(m, range@) && has_key(a.known_optional@, name@) ==> (r matches Ok(None))
            && skipped_with_warning(a, b, name@)
        &&& !best_exists(m, range@) && !has_key(a.known_optional@, name@) ==> r is Err
    })
    // Otherwise it waits for the metadata.
    &&& no_reuse(a.resolved_vers@, name@, range@) && !has_key(a.metadata_cache@, name@) ==> {
        &&& r is Ok
        &&& has_key(b.waiting@, name@)
        &&& ((r matches Ok(Some(_))) <==> !has_key(a.waiting@, name@))
    }
    &&& b.requested == a.requested
    &&& b.metadata_cache == a.metadata_cache
    // The names that a package new in `b` lists as optional become known to
    // be optional; no other name does.
    &&& forall|k: Seq<char>| #[trigger] has_key(b.known_optional@, k) <==> (has_key(a.known_optional@, k) || newly_optional(
        a.result@,
        b.result@,
        k,
    ))
    // A request of the project carries its range: soundness is kept.
    &&& a.sound() && asked_by(a, requester, name@, range@) ==> b.sound()
    // Where every other request was accounted for, all are after success.
    &&& accounts_but(a, (name@, range@, opt_view(requester))) && r is Ok ==> accounts(b)
    // Only `name` starts to wait, and only when the name to fetch is given back.
    &&& forall|k: Seq<char>| has_key(b.waiting@, k) ==> has_key(a.waiting@, k) || (k == name@ && (r matches Ok(Some(_))))
    // The queue keeps what it had; what is added is asked for by a new package.
    &&& queue_grows(a.pending@, b.pending@, a.result@)
}

/// `b` is `a` with the dependency at the front of its queue taken off, and
/// nothing else changed.
pub open spec fn popped(a: Resolver, b: Resolver) -> bool {
    &&& a.pending@.len() > 0
    &&& b.pending@ == a.pending@.drop_first()
    &&& b.result == a.result
    &&& b.resolved_vers == a.resolved_vers
    &&& b.metadata_cache == a.metadata_cache
    &&& b.known_optional == a.known_optional
    &&& b.conflict_warnings == a.conflict_warnings
    &&& b.root_resolved == a.root_resolved
    &&& b.waiting == a.waiting
    &&& b.requested == a.requested
}

/// Step `j` of a run, from `states[j]` to `states[j + 1]`: the dependency
/// at the front of the queue is taken off, which gives `taken[j]`, and
/// processing it there gives `states[j + 1]` and the answer `Ok(outs[j])`.
pub open spec fn drain_step(states: Seq<Resolver>, taken: Seq<Resolver>, outs: Seq<Option<String>>, j: int) -> bool {
    let e = states[j].pending@[0];
    &&& popped(states[j], taken[j])
    &&& processed(taken[j], e.0, e.1, e.2, states[j + 1], Ok(outs[j]))
}

/// A run of `outs.len()` steps from `start`, each of which succeeded, through
/// the states `states`.
pub open spec fn drain_run(start: Resolver, states: Seq<Resolver>, taken: Seq<Resolver>, outs: Seq<Option<String>>) -> bool {
    &&& states.len() == outs.len() + 1
    &&& taken.len() == outs.len()
    &&& states[0] == start
    &&& forall|j: int| 0 <= j < outs.len() ==> #[trigger] drain_step(states, taken, outs, j)
}

/// The step after a run, from `a`: the front dependency is taken off, which
/// gives `p`, and processing it there fails with `e`, leaving `b`.
pub open spec fn failed_step(a: Resolver, p: Resolver, b: Resolver, e: ResolveError) -> bool {
    let d = a.pending@[0];
    &&& popped(a, p)
    &&& processed(p, d.0, d.1, d.2, b, Err(e))
}

/// The names to fetch that the steps of a run gave back, in order.
pub open spec fn given_names(outs: Seq<Option<String>>) -> Seq<String>
    decreases outs.len(),
{
    if outs.len() == 0 {
        seq![]
    } else {
        given_names(outs.drop_last()) + match outs.last() {
            Some(n) => seq![n],
            None => seq![],
        }
    }
}

/// The key of the version already chosen for `name` that `range` is
/// resolved to, if any: the first one listed that the range allows.
pub open spec fn reuse_of(rv: Seq<(Seq<char>, Vec<(SemVer, String)>)>, name: Seq<char>, range: Seq<char>) -> Option<Seq<char>> {
    match lookup(rv, name) {
        Some(list) => if range_ok(range) {
            match first_allowed(list@, range, 0) {
                Some(x) => Some(list@[x].1@),
                None => None,
            }
        } else {
            None
        },
        None => None,
    }
}

/// No version already chosen for `name` is reused for `range`, and the
/// range is not refused on that account.
pub open spec fn no_reuse(rv: Seq<(Seq<char>, Vec<(SemVer, String)>)>, name: Seq<char>, range: Seq<char>) -> bool {
    match lookup(rv, name) {
        Some(list) => range_ok(range) && first_allowed(list@, range, 0) is None,
        None => true,
    }
}

/// Whether the registry document `m` has a best version for `range`.
pub open spec fn best_exists(m: PackageMetadata, range: Seq<char>) -> bool {
    range_ok(range) && exists|i: int| is_best(m.versions@, range_texts(range), i)
}

/// The warning shown when optional `name` is skipped because of `why`.
pub open spec fn skip_warning(name: Seq<char>, why: Seq<char>) -> Seq<char> {
    "skipping optional '"@ + name + "': "@ + why
}

fn make_skip_warning(name: &str, why: &str) -> (r: String)
    ensures
        r@ == skip_warning(name@, why@),
{
    let mut out = chars_of("skipping optional '");
    append_chars(&mut out, &chars_of(name));
    append_str(&mut out, "': ");
    append_chars(&mut out, &chars_of(why));
    string_of(&out)
}

/// A request appended to the list of `name`, which is moved to the end of
/// the waiting lists, keeps every request of the project with the range it
/// asks for.
proof fn lemma_wait_ranges(
    w0: Seq<(Seq<char>, Vec<(String, Option<String>)>)>,
    w1: Seq<(Seq<char>, Vec<(String, Option<String>)>)>,
    w2: Seq<(Seq<char>, Vec<(String, Option<String>)>)>,
    name: Seq<char>,
    lst: Vec<(String, Option<String>)>,
    list0: Seq<(String, Option<String>)>,
    range: Seq<char>,
    requester: Option<Seq<char>>,
    rq: Seq<(Seq<char>, String)>,
)
    requires
        root_waiting_ranges(w0, rq),
        w1 == crate::strmap::removed(w0, name),
        !has_key(w1, name),
        has_key(w0, name) ==> list0 == lookup(w0, name)->0@,
        !has_key(w0, name) ==> list0.len() == 0,
        lst@.len() == list0.len() + 1,
        forall|j: int| 0 <= j < list0.len() ==> lst@[j] == list0[j],
        lst@.last().0@ == range,
        opt_view(lst@.last().1) == requester,
        w2 == crate::strmap::inserted(w1, name, lst),
        requester is None ==> lookup(str_entries(rq), name) == Some(range),
    ensures
        root_waiting_ranges(w2, rq),
{
    crate::strmap::lemma_index_of_key(w1, name);
    crate::strmap::lemma_index_of_key(w0, name);
    assert(w2 == w1.push((name, lst)));
    assert forall|i: int, j: int|
        0 <= i < w2.len() && 0 <= j < (#[trigger] w2[i]).1@.len() && (#[trigger] w2[i].1@[j]).1 is None
        implies lookup(str_entries(rq), w2[i].0) == Some(w2[i].1@[j].0@) by {
        if i == w1.len() {
            assert(w2[i] == (name, lst));
            if j < list0.len() {
                let x = index_of_key(w0, name)->0;
                assert(lookup(w0, name)->0 == w0[x].1);
                assert(w0[x].1@[j] == list0[j]);
                assert(w0[x].0 == name);
            }
        } else {
            assert(w2[i] == w1[i]);
            match index_of_key(w0, name) {
                Some(x) => {
                    if i < x {
                        assert(w1[i] == w0[i]);
                    } else {
                        assert(w1[i] == w0[i + 1]);
                    }
                },
                None => {
                    assert(w1[i] == w0[i]);
                },
            }
        }
    }
}

impl Resolver {
    /// Puts `name` asked for by `requester` with `range` among those that
    /// wait for the metadata of `name`; true when nothing waited for it yet.
    fn wait_for(&mut self, name: String, range: String, requester: Option<String>) -> (fresh: bool)
        requires
            old(self).wf(),
            requester matches Some(k) ==> has_key(old(self).result@, k@),
        ensures
            final(self).wf(),
            fresh == !has_key(old(self).waiting@, name@),
            has_key(final(self).waiting@, name@),
            forall|k: Seq<char>| has_key(old(self).waiting@, k) ==> has_key(final(self).waiting@, k),
            final(self).result == old(self).result,
            final(self).pending == old(self).pending,
            final(self).metadata_cache == old(self).metadata_cache,
            final(self).known_optional == old(self).known_optional,
            final(self).root_resolved == old(self).root_resolved,
            final(self).resolved_vers == old(self).resolved_vers,
            final(self).conflict_warnings == old(self).conflict_warnings,
            final(self).requested == old(self).requested,
            old(self).sound() && asked_by(*old(self), requester, name@, range@) ==> final(self).sound(),
            forall|k: Seq<char>| has_key(final(self).waiting@, k) ==> has_key(old(self).waiting@, k) || k == name@,
            accounting_kept(*old(self), *final(self)),
            lookup(final(self).waiting@, name@) matches Some(l) && waiting_requests(l@).contains((range@, opt_view(requester))),
    {
        let _ = self.waiting.unique();
        let ghost w0 = self.waiting@;
        let ghost r = self.result@;
        let ghost rq = self.requested@;
        let ghost rg = range@;
        let ghost who = requester;
        let fresh = !self.waiting.contains_key(name.as_str());
        let mut list = match self.waiting.remove(name.as_str()) {
            Some(l) => l,
            None => Vec::new(),
        };
        let ghost w1 = self.waiting@;
        let ghost list0 = list@;
        proof {
            crate::strmap::lemma_index_of_key(w0, name@);
            if has_key(w0, name@) {
                let i = index_of_key(w0, name@)->0;
                assert(list0 == w0[i].1@);
            }
        }
        list.push((range, requester));
        let ghost lst = list;
        self.waiting.insert(name, list);
        proof {
            let w2 = self.waiting@;
            crate::strmap::lemma_inserted_keys(w1, name@, lst, name@);
            assert forall|k: Seq<char>| has_key(w0, k) implies has_key(w2, k) by {
                crate::strmap::lemma_inserted_keys(w1, name@, lst, k);
                if k != name@ {
                    let y = choose|y: int| 0 <= y < w0.len() && w0[y].0 == k;
                    let x = index_of_key(w0, name@);
                    if x is Some {
                        let xi = x->0;
                        if y < xi {
                            assert(w1[y] == w0[y]);
                        } else {
                            assert(y != xi);
                            assert(w1[y - 1] == w0[y]);
                        }
                    } else {
                        assert(w1[y] == w0[y]);
                    }
                }
            }
            assert forall|i: int, j: int| 0 <= i < w2.len() && 0 <= j < (#[trigger] w2[i]).1@.len() implies ((#[trigger] w2[i].1@[j]).1 matches Some(k)
                ==> has_key(self.result@, k@)) by {
                crate::strmap::lemma_inserted_values(w1, name@, lst, i);
                if w2[i].1 == lst {
                    if j < list0.len() && has_key(w0, name@) {
                        let x = index_of_key(w0, name@)->0;
                        assert(w0[x].1@[j] == list0[j]);
                    }
                } else {
                    let y = choose|y: int| 0 <= y < w1.len() && w1[y].1 == w2[i].1;
                    let x = index_of_key(w0, name@);
                    if x is Some {
                        let xi = x->0;
                        if y < xi {
                            assert(w1[y] == w0[y]);
                        } else {
                            assert(w1[y] == w0[y + 1]);
                        }
                    } else {
                        assert(w1[y] == w0[y]);
                    }
                }
            }
        }
        proof {
            if root_waiting_ranges(w0, rq) && (who is None ==> lookup(str_entries(rq), name@) == Some(rg)) {
                lemma_wait_ranges(w0, w1, self.waiting@, name@, lst, list0, rg, opt_view(who), rq);
            }
            let w2 = self.waiting@;
            if waiting_asks(w0, r) && (who matches Some(k) ==> lookup(r, k@) matches Some(pp) && asks_for(pp, k@, name@, rg)) {
                assert forall|i: int, j: int| 0 <= i < w2.len() && 0 <= j < (#[trigger] w2[i]).1@.len() implies ((#[trigger] w2[i].1@[j]).1 matches Some(k)
                    ==> lookup(r, k@) matches Some(pp) && asks_for(pp, k@, w2[i].0, w2[i].1@[j].0@)) by {
                    crate::strmap::lemma_inserted_values(w1, name@, lst, i);
                    crate::strmap::lemma_inserted_index(w1, name@, lst, i);
                    if w2[i].1 == lst && w2[i].0 == name@ {
                        if j < list0.len() && has_key(w0, name@) {
                            let x = index_of_key(w0, name@)->0;
                            assert(w0[x].1@[j] == list0[j]);
                            assert(w0[x].0 == name@);
                        }
                    } else {
                        let y = choose|y: int| 0 <= y < w1.len() && w1[y] == w2[i];
                        let x = index_of_key(w0, name@);
                        if x is Some {
                            let xi = x->0;
                            if y < xi {
                                assert(w1[y] == w0[y]);
                            } else {
                                assert(w1[y] == w0[y + 1]);
                            }
                        } else {
                            assert(w1[y] == w0[y]);
                        }
                    }
                }
            }
        }
        proof {
            assert forall|k: Seq<char>| has_key(self.waiting@, k) implies has_key(w0, k) || k == name@ by {
                crate::strmap::lemma_inserted_keys(w1, name@, lst, k);
                crate::strmap::lemma_removed_keys(w0, name@, k);
            }
            let w2 = self.waiting@;
            crate::strmap::lemma_inserted_lookup(w1, name@, lst, name@);
            let lv = waiting_requests(lst@);
            assert(lv[lv.len() - 1] == (rg, opt_view(who)));
            assert forall|d: Seq<char>| #[trigger] lookup(w0, d) is Some implies (lookup(w2, d) matches Some(l2)
                && forall|y: (Seq<char>, Option<Seq<char>>)| waiting_requests(lookup(w0, d)->0@).contains(y) ==> waiting_requests(l2@).contains(y)) by {
                crate::strmap::lemma_inserted_lookup(w1, name@, lst, d);
                crate::strmap::lemma_removed_lookup(w0, name@, d);
                if d == name@ {
                    crate::strmap::lemma_index_of_key(w0, name@);
                    let x = index_of_key(w0, name@)->0;
                    assert(lookup(w0, d)->0@ == list0);
                    assert forall|y: (Seq<char>, Option<Seq<char>>)| waiting_requests(list0).contains(y) implies lv.contains(y) by {
                        let j = choose|j: int| 0 <= j < waiting_requests(list0).len() && waiting_requests(list0)[j] == y;
                        assert(lv[j] == waiting_requests(list0)[j]);
                    }
                }
            }
        }
        fresh
    }

    /// Resolves one dependency: `name` with `range`, asked for by
    /// `requester`.
    ///
    /// A version of `name` already chosen that the range matches is reused;
    /// otherwise, with the metadata of `name` at hand, the best version is
    /// chosen (and an optional package without one is skipped with a
    /// warning); otherwise the dependency waits for the metadata, and when
    /// nothing waited for it yet the name to fetch is given back.
    pub fn process(&mut self, name: String, range: String, requester: Option<String>) -> (r: Result<
        Option<String>,
        ResolveError,
    >)
        requires
            old(self).wf(),
            requester matches Some(k) ==> has_key(old(self).result@, k@),
        ensures
            processed(*old(self), name, range, requester, *final(self), r),
    {
        let ghost start = *self;
        proof {
            lemma_queue_grows_same(self.pending@, self.result@);
        }
        let mut found: Option<String> = None;
        let ghost rv = self.resolved_vers@;
        proof {
            crate::strmap::lemma_index_of_key(rv, name@);
        }
        match self.resolved_vers.get(name.as_str()) {
            Some(list) => {
                let req = match NpmVersionReq::parse(range.as_str()) {
                    Ok(q) => q,
                    Err(e) => return Err(ResolveError::BadRange { range: e.range, cause: e.cause }),
                };
                let mut j: usize = 0;
                while j < list.len()
                    invariant_except_break
                        found is None,
                    invariant
                        j <= list@.len(),
                        req@ == range_texts(range@),
                        first_allowed(list@, range@, j as int) == first_allowed(list@, range@, 0),
                    ensures
                        match found {
                            Some(k) => first_allowed(list@, range@, 0) matches Some(x) && 0 <= x < list@.len()
                                && list@[x].1@ == k@,
                            None => first_allowed(list@, range@, 0) is None,
                        },
                    decreases list@.len() - j,
                {
                    if req.matches(&list[j].0) {
                        assert(first_allowed(list@, range@, j as int) == Some(j as int));
                        found = Some(list[j].1.clone());
                        break;
                    }
                    j = j + 1;
                }
                proof {
                    if found is Some {
                        let i = index_of_key(self.resolved_vers@, name@)->0;
                        let x = first_allowed(list@, range@, 0)->0;
                        assert(self.resolved_vers@[i].1 == *list);
                        assert(has_key(self.result@, self.resolved_vers@[i].1@[x].1@));
                    }
                }
            },
            None => {},
        }
        if let Some(k) = found {
            proof {
                if start.sound() && asked_by(start, requester, name@, range@) {
                    let list = lookup(start.resolved_vers@, name@)->0;
                    let x = first_allowed(list@, range@, 0)->0;
                    lemma_first_allowed(list@, range@, 0);
                    let i = index_of_key(start.resolved_vers@, name@)->0;
                    crate::strmap::lemma_index_of_key(start.resolved_vers@, name@);
                    assert(start.resolved_vers@[i].1 == list);
                    assert(start.resolved_vers@[i].0 == name@);
                    assert(lookup(start.result@, list@[x].1@) is Some);
                    let q = lookup(start.result@, list@[x].1@)->0;
                    assert(lookup(start.result@, start.resolved_vers@[i].1@[x].1@) matches Some(q0) && q0.version@
                        == start.resolved_vers@[i].1@[x].0@);
                    assert(q.name@ == name@);
                    assert(range_allows(range@, q.version@));
                    if requester is Some {
                        assert(edge_allowed(start.result@, requester->0@, name@, k@));
                    }
                }
            }
            self.record(&requester, name.as_str(), k.as_str());
            proof {
                let e = (name@, range@, opt_view(requester));
                if accounts_but(start, e) {
                    assert forall|y: Request| is_request(*self, y) && (y.2 matches Some(k) && !has_key(start.result@, k))
                        implies accounted(*self, y) by {
                        crate::strmap::lemma_index_of_key(self.result@, y.2->0);
                    }
                    lemma_accounts_step(start, *self, e);
                }
            }
            return Ok(None);
        }
        let cached = match self.metadata_cache.get(name.as_str()) {
            Some(metadata) => Some(best_version(name.as_str(), metadata, range.as_str())),
            None => None,
        };
        proof {
            crate::strmap::lemma_index_of_key(self.metadata_cache@, name@);
        }
        match cached {
            Some(Ok(p)) => {
                let ghost pv = p;
                let ghost mid0 = *self;
                proof {
                    let m = lookup(start.metadata_cache@, name@)->0;
                    let i = choose|i: int|
                        is_best(m.versions@, range_texts(range@), i) && (forall|j: int|
                            0 <= j < i ==> !is_best(m.versions@, range_texts(range@), j)) && describes(
                            pv,
                            name@,
                            entry_version(m.versions@, i)->0,
                            #[trigger] m.versions@[i].1,
                        );
                    assert(describes(pv, pv.name@, entry_version(m.versions@, i)->0, m.versions@[i].1));
                    assert(documented(pv, mid0.metadata_cache@));
                }
                let key = self.add_package(name.as_str(), p);
                let ghost mid1 = *self;
                proof {
                    assert forall|k: Seq<char>| has_key(mid0.known_optional@, k) implies has_key(mid1.known_optional@, k) by {
                        if !has_key(mid0.result@, key@) {
                            assert(has_key(mid1.known_optional@, k));
                        }
                    }
                }
                proof {
                    if start.sound() && asked_by(start, requester, name@, range@) {
                        let m = lookup(start.metadata_cache@, name@)->0;
                        let i = choose|i: int|
                            is_best(m.versions@, range_texts(range@), i) && (forall|j: int|
                                0 <= j < i ==> !is_best(m.versions@, range_texts(range@), j)) && describes(
                                pv,
                                name@,
                                entry_version(m.versions@, i)->0,
                                #[trigger] m.versions@[i].1,
                            );
                        assert(range_allows(range@, pv.version@));
                        crate::strmap::lemma_index_of_key(mid0.result@, key@);
                        if has_key(mid0.result@, key@) {
                            let c = index_of_key(mid0.result@, key@)->0;
                            let q = mid0.result@[c].1;
                            assert(mid0.result@[c].0 == package_key(q.name@, q.version@));
                            lemma_key_injective(q.name@, q.version@, name@, pv.version@);
                        } else {
                            crate::strmap::lemma_inserted_lookup(mid0.result@, key@, pv, key@);
                        }
                        let q = lookup(self.result@, key@)->0;
                        assert(q.name@ == name@ && q.version@ == pv.version@);
                        assert(range_allows(range@, q.version@));
                        if requester is None {
                            assert(root_allowed_as(*self, name@, key@));
                        } else {
                            let rk = requester->0;
                            crate::strmap::lemma_index_of_key(mid0.result@, rk@);
                            if !has_key(mid0.result@, key@) {
                                crate::strmap::lemma_inserted_lookup(mid0.result@, key@, pv, rk@);
                            }
                            assert(lookup(self.result@, rk@) == lookup(mid0.result@, rk@));
                            assert(edge_allowed(self.result@, rk@, name@, key@));
                        }
                    }
                }
                self.record(&requester, name.as_str(), key.as_str());
                proof {
                    if !has_key(mid0.result@, key@) {
                        let q0 = mid0.pending@;
                        let q1 = self.pending@;
                        assert forall|j: int| q0.len() <= j < q1.len() implies fresh_request(#[trigger] q1[j], mid0.result@) by {
                            let qv = queue_view(q1);
                            assert(qv[j] == dep_view(q1[j]));
                            assert(qv.len() == q1.len());
                            assert(queue_view(q0).len() == q0.len());
                            assert(qv[j] == (queue_view(q0) + requested_by(pv, key@))[j]);
                            lemma_requested_by_key(pv, key@, j - q0.len());
                        }
                        assert(queue_view(q1).len() == queue_view(q0).len() + requested_by(pv, key@).len());
                        assert(queue_view(q1).subrange(0, q0.len() as int) =~= queue_view(q0));
                        assert(queue_grows(q0, q1, mid0.result@));
                    } else {
                        lemma_queue_grows_same(mid0.pending@, mid0.result@);
                        assert(self.pending@ == mid0.pending@);
                    }
                    assert(queue_grows(mid0.pending@, self.pending@, mid0.result@));
                    assert(mid0.pending@ == start.pending@ && mid0.result@ == start.result@);
                    crate::strmap::lemma_index_of_key(mid0.result@, key@);
                    if !has_key(mid0.result@, key@) {
                        crate::strmap::lemma_inserted_lookup(mid0.result@, key@, pv, key@);
                        assert(lookup(mid1.result@, key@) == Some(pv));
                        assert(lookup(mid1.result@, key@) matches Some(p0));
                        let q = lookup(self.result@, key@)->0;
                        crate::strmap::lemma_index_of_key(self.result@, key@);
                        assert(same_but_resolved(pv, q));
                    }
                    assert forall|k: Seq<char>| #[trigger] has_key(self.known_optional@, k) <==> (has_key(start.known_optional@, k)
                        || newly_optional(start.result@, self.result@, k)) by {
                        if !has_key(mid0.result@, key@) {
                            if has_key(pv.optional_dependencies@, k) {
                                assert(has_key(self.result@, key@));
                            }
                            if newly_optional(start.result@, self.result@, k) {
                                let key2 = choose|key2: Seq<char>|
                                    !has_key(start.result@, key2) && #[trigger] has_key(self.result@, key2) && has_key(
                                        lookup(self.result@, key2)->0.optional_dependencies@,
                                        k,
                                    );
                                assert(has_key(mid1.result@, key2));
                                crate::strmap::lemma_inserted_keys(mid0.result@, key@, pv, key2);
                            }
                        } else {
                            if newly_optional(start.result@, self.result@, k) {
                                let key2 = choose|key2: Seq<char>|
                                    !has_key(start.result@, key2) && #[trigger] has_key(self.result@, key2) && has_key(
                                        lookup(self.result@, key2)->0.optional_dependencies@,
                                        k,
                                    );
                                assert(has_key(mid1.result@, key2));
                            }
                        }
                    }
                    let e = (name@, range@, opt_view(requester));
                    if accounts_but(start, e) {
                        lemma_accounting_kept_trans(start, mid1, *self);
                        assert forall|y: Request| is_request(*self, y) && (y.2 matches Some(k) && !has_key(start.result@, k))
                            implies accounted(*self, y) by {
                            let k = y.2->0;
                            crate::strmap::lemma_index_of_key(start.result@, key@);
                            crate::strmap::lemma_inserted_lookup(start.result@, key@, pv, k);
                            crate::strmap::lemma_index_of_key(self.result@, k);
                            assert(has_key(mid1.result@, k));
                            crate::strmap::lemma_index_of_key(mid1.result@, k);
                            assert(k == key@);
                            assert(lookup(mid1.result@, k) == Some(pv));
                            assert(lookup(self.result@, k) matches Some(q) && same_but_resolved(pv, q));
                            lemma_asks_same(pv, lookup(self.result@, k)->0, k);
                            let j = choose|j: int| 0 <= j < requested_by(pv, key@).len() && requested_by(pv, key@)[j] == y;
                            let q0 = mid0.pending@;
                            assert(queue_view(mid1.pending@)[q0.len() + j] == (queue_view(q0) + requested_by(pv, key@))[q0.len() + j]);
                            assert(queue_view(mid1.pending@).contains(y));
                        }
                        lemma_accounts_step(start, *self, e);
                    }
                }
                proof {
                    let m = lookup(old(self).metadata_cache@, name@)->0;
                    let i = choose|i: int|
                        is_best(m.versions@, range_texts(range@), i) && describes(
                            pv,
                            name@,
                            entry_version(m.versions@, i)->0,
                            #[trigger] m.versions@[i].1,
                        );
                    assert(resolved_to(*self, requester, name@, package_key(name@, entry_version(m.versions@, i)->0)));
                }
                Ok(None)
            },
            Some(Err(e)) => {
                if self.known_optional.contains_key(name.as_str()) {
                    let why = e.message();
                    let w = make_skip_warning(name.as_str(), why.as_str());
                    let ghost before = *self;
                    self.conflict_warnings.push(w);
                    proof {
                        assert(self.conflict_warnings@.drop_last() =~= before.conflict_warnings@);
                        assert(self.conflict_warnings@.last()@ == skip_warning(name@, why@));
                        assert(skipped_with_warning(start, *self, name@));
                        let e = (name@, range@, opt_view(requester));
                        if accounts_but(start, e) {
                            assert forall|y: Request| is_request(*self, y) && (y.2 matches Some(k) && !has_key(start.result@, k))
                                implies accounted(*self, y) by {
                                crate::strmap::lemma_index_of_key(self.result@, y.2->0);
                            }
                            lemma_accounts_step(start, *self, e);
                        }
                    }
                    Ok(None)
                } else {
                    Err(e)
                }
            },
            None => {
                let n = name.clone();
                let ghost e = (name@, range@, opt_view(requester));
                let fresh = self.wait_for(name, range, requester);
                proof {
                    if accounts_but(start, e) {
                        assert forall|y: Request| is_request(*self, y) && (y.2 matches Some(k) && !has_key(start.result@, k))
                            implies accounted(*self, y) by {
                            crate::strmap::lemma_index_of_key(self.result@, y.2->0);
                        }
                        lemma_accounts_step(start, *self, e);
                    }
                }
                if fresh {
                    Ok(Some(n))
                } else {
                    Ok(None)
                }
            },
        }
    }
}

/// The first name that waits for metadata, if any.
///
/// When a fetch fails, this is the name the failure is charged to.
pub fn find_failed_name(waiting: &StrMap<Vec<(String, Option<String>)>>) -> (r: Option<String>)
    ensures
        match r {
            Some(k) => waiting@.len() > 0 && k@ == waiting@[0].0,
            None => waiting@.len() == 0,
        },
{
    if waiting.len() == 0 {
        None
    } else {
        Some(waiting.key_at(0).clone())
    }
}

impl Resolver {
    /// Resolves queued dependencies in order until the queue is empty or
    /// `limit` of them are done; gives back the names whose metadata must be
    /// fetched, in the order they were first needed.
    pub fn drain_pending(&mut self, limit: usize) -> (r: Result<Vec<String>, ResolveError>)
        requires
            old(self).valid(),
        ensures
            final(self).wf(),
            // Soundness is kept whatever happens; after success the
            // resolution is valid again.
            final(self).sound(),
            r is Ok ==> final(self).valid(),
            grows(old(self).result@, final(self).result@),
            r matches Ok(names) ==> forall|i: int|
                0 <= i < names@.len() ==> has_key(final(self).waiting@, (#[trigger] names@[i])@)
                    && !has_key(old(self).waiting@, names@[i]@),
            r matches Ok(names) ==> forall|i: int, j: int|
                0 <= i < j < names@.len() ==> (#[trigger] names@[i])@ != (#[trigger] names@[j])@,
            r matches Err(e) ==> !(e is Fetch),
            forall|k: Seq<char>| has_key(old(self).waiting@, k) ==> has_key(final(self).waiting@, k),
            final(self).requested == old(self).requested,
            // Dependencies are taken from the front of the queue until it is
            // empty or `limit` of them are done.
            r is Ok ==> exists|m: int|
                0 <= m <= limit && (m == limit || final(self).pending@.len() == 0) && #[trigger] drained(
                    old(self).pending@,
                    final(self).pending@,
                    old(self).result@,
                    m,
                ),
            // The names given back are exactly those that started to wait.
            r matches Ok(names) ==> forall|k: Seq<char>|
                #[trigger] has_key(final(self).waiting@, k) && !has_key(old(self).waiting@, k) ==> named_among(
                    names@,
                    k,
                ),
            // No name given back has its metadata at hand already.
            r matches Ok(names) ==> forall|i: int|
                0 <= i < names@.len() ==> !has_key(old(self).metadata_cache@, (#[trigger] names@[i])@),
            final(self).metadata_cache == old(self).metadata_cache,
            // Each step takes the dependency at the front of the queue and
            // does with it what `process` does. The run stops after `limit`
            // steps or when the queue is empty, and gives back the names to
            // fetch in the order the steps gave them ...
            r matches Ok(names) ==> exists|states: Seq<Resolver>, taken: Seq<Resolver>, outs: Seq<Option<String>>|
                #[trigger] drain_run(*old(self), states, taken, outs) && states.last() == *final(self) && outs.len()
                    <= limit && (outs.len() == limit || final(self).pending@.len() == 0) && names@ == given_names(outs),
            // ... or stops at the first step that fails, with its error.
            r matches Err(e) ==> exists|states: Seq<Resolver>, taken: Seq<Resolver>, outs: Seq<Option<String>>, p: Resolver|
                #[trigger] drain_run(*old(self), states, taken, outs) && outs.len() < limit && #[trigger] failed_step(
                    states.last(),
                    p,
                    *final(self),
                    e,
                ),
    {
        let mut names: Vec<String> = Vec::new();
        let mut done: usize = 0;
        let ghost r0 = self.result@;
        let ghost w0 = self.waiting@;
        let ghost q0 = self.pending@;
        let ghost s0 = self.sound();
        let ghost start = *self;
        let ghost mut states: Seq<Resolver> = seq![*self];
        let ghost mut taken: Seq<Resolver> = seq![];
        let ghost mut outs: Seq<Option<String>> = seq![];
        proof {
            assert(queue_view(q0).subrange(0, q0.len() as int) =~= queue_view(q0).skip(0));
            assert(given_names(outs) =~= names@);
        }
        while done < limit
            invariant
                self.wf(),
                q0 == old(self).pending@,
                done <= limit,
                drained(q0, self.pending@, r0, done as int),
                forall|k: Seq<char>| #[trigger] has_key(self.waiting@, k) ==> has_key(w0, k) || named_among(names@, k),
                s0 == old(self).sound(),
                s0 ==> self.sound(),
                self.requested == old(self).requested,
                r0 == old(self).result@,
                w0 == old(self).waiting@,
                grows(r0, self.result@),
                forall|i: int| 0 <= i < names@.len() ==> has_key(self.waiting@, (#[trigger] names@[i])@)
                    && !has_key(w0, names@[i]@),
                forall|i: int, j: int| 0 <= i < j < names@.len() ==> (#[trigger] names@[i])@ != (#[trigger] names@[j])@,
                forall|k: Seq<char>| has_key(w0, k) ==> has_key(self.waiting@, k),
                start == *old(self),
                self.metadata_cache == old(self).metadata_cache,
                forall|i: int| 0 <= i < names@.len() ==> !has_key(old(self).metadata_cache@, (#[trigger] names@[i])@),
                drain_run(start, states, taken, outs),
                outs.len() == done,
                states.last() == *self,
                names@ == given_names(outs),
                accounts(start) ==> accounts(*self),
                s0,
                accounts(start),
            decreases limit - done,
        {
            if self.pending.len() == 0 {
                proof {
                    assert(drained(q0, self.pending@, r0, done as int));
                }
                return Ok(names);
            }
            let ghost q = self.pending@;
            let item = self.pending.pop_front();
            match item {
                Some((name, range, requester)) => {
                    proof {
                        assert(self.pending@ == q.drop_first());
                        if s0 {
                            assert(dep_view(q[0]) == (name@, range@, opt_view(requester)));
                            assert forall|j: int| 0 <= j < self.pending@.len() && (#[trigger] self.pending@[j]).2 is None
                                implies lookup(str_entries(self.requested@), self.pending@[j].0@) == Some(self.pending@[j].1@) by {
                                assert(self.pending@[j] == q[j + 1]);
                            }
                        }
                        assert(q[0].2 matches Some(k) ==> has_key(self.result@, k@));
                        assert forall|j: int| 0 <= j < self.pending@.len() implies ((#[trigger] self.pending@[j]).2 matches Some(k)
                            ==> has_key(self.result@, k@)) by {
                            assert(self.pending@[j] == q[j + 1]);
                        }
                    }
                    let ghost w = self.waiting@;
                    let ghost rr = self.result@;
                    let ghost names0 = names@;
                    let ghost p = *self;
                    proof {
                        assert(popped(states.last(), p));
                        let e = (name@, range@, opt_view(requester));
                        if accounts(start) {
                            let s1 = states.last();
                            assert(queue_view(q)[0] == e);
                            assert forall|y: Request| #[trigger] is_request(p, y) && y != e implies accounted(p, y) by {
                                assert(is_request(s1, y));
                                if queue_view(q).contains(y) {
                                    let j = choose|j: int| 0 <= j < queue_view(q).len() && queue_view(q)[j] == y;
                                    assert(j != 0);
                                    assert(queue_view(p.pending@)[j - 1] == queue_view(q)[j]);
                                }
                            }
                        }
                    }
                    let step = self.process(name, range, requester);
                    let ghost sv = step;
                    proof {
                        assert forall|k: Seq<char>| has_key(r0, k) implies has_key(self.result@, k) by {
                            assert(has_key(rr, k));
                        }
                        lemma_drain_step(q0, q, self.pending@, r0, rr, done as int);
                    }
                    match step {
                        Ok(Some(n)) => names.push(n),
                        Ok(None) => {},
                        Err(e) => {
                            proof {
                                assert(failed_step(states.last(), p, *self, e));
                            }
                            return Err(e);
                        },
                    }
                    proof {
                        let x = sv->Ok_0;
                        let states2 = states.push(*self);
                        let taken2 = taken.push(p);
                        let outs2 = outs.push(x);
                        assert forall|j: int| 0 <= j < outs2.len() implies #[trigger] drain_step(states2, taken2, outs2, j) by {
                            if j < outs.len() {
                                assert(drain_step(states, taken, outs, j));
                                assert(states2[j] == states[j] && states2[j + 1] == states[j + 1]);
                                assert(taken2[j] == taken[j] && outs2[j] == outs[j]);
                            } else {
                                assert(states2[j] == states.last());
                            }
                        }
                        assert(outs2.drop_last() =~= outs);
                        assert(names@ =~= given_names(outs2));
                        states = states2;
                        taken = taken2;
                        outs = outs2;
                    }
                    proof {
                        assert forall|i: int| 0 <= i < names@.len() implies has_key(self.waiting@, (#[trigger] names@[i])@)
                            && !has_key(w0, names@[i]@) by {
                            if i < names@.len() - 1 {
                                assert(has_key(w, names@[i]@));
                            }
                        }
                        assert forall|i: int, j: int| 0 <= i < j < names@.len() implies (#[trigger] names@[i])@ != (#[trigger] names@[j])@ by {
                            if j == names@.len() - 1 {
                                assert(has_key(w, names@[i]@));
                            }
                        }
                        assert forall|k: Seq<char>| #[trigger] has_key(self.waiting@, k) implies has_key(w0, k) || named_among(names@, k) by {
                            if has_key(w, k) {
                                if !has_key(w0, k) {
                                    let i = choose|i: int| 0 <= i < names0.len() && names0[i]@ == k;
                                    assert(names@[i] == names0[i]);
                                }
                            } else {
                                assert(names@[names@.len() - 1]@ == k);
                            }
                        }
                    }
                },
                None => {
                    return Ok(names);
                },
            }
            done = done + 1;
        }
        proof {
            assert(drained(q0, self.pending@, r0, done as int));
        }
        Ok(names)
    }

    /// Takes the metadata of `name`: it joins the documents at hand, and the
    /// dependencies that waited for it are queued again, in order.
    pub fn on_metadata(&mut self, name: String, metadata: PackageMetadata)
        requires
            old(self).valid(),
            // The document arrives for a name given back to fetch, whose
            // document is not at hand.
            !has_key(old(self).metadata_cache@, name@),
        ensures
            final(self).valid(),
            final(self).result == old(self).result,
            final(self).metadata_cache@ == inserted(old(self).metadata_cache@, name@, metadata),
            final(self).waiting@ == crate::strmap::removed(old(self).waiting@, name@),
            queue_view(final(self).pending@) == queue_view(old(self).pending@) + match lookup(
                old(self).waiting@,
                name@,
            ) {
                Some(items) => items@.map_values(
                    |e: (String, Option<String>)| (name@, e.0@, opt_view(e.1)),
                ),
                None => seq![],
            },
            final(self).requested == old(self).requested,
            final(self).conflict_warnings == old(self).conflict_warnings,
            final(self).root_resolved == old(self).root_resolved,
            final(self).known_optional == old(self).known_optional,
            final(self).resolved_vers == old(self).resolved_vers,
    {
        let _ = self.waiting.unique();
        let ghost s_old = *self;
        let ghost w0 = self.waiting@;
        let ghost c0 = self.metadata_cache@;
        let ghost s0 = self.sound() && !has_key(self.metadata_cache@, name@);
        let ghost md = metadata;
        let key = name.clone();
        self.metadata_cache.insert(key, metadata);
        proof {
            if s0 {
                assert forall|i: int| 0 <= i < self.result@.len() implies documented(
                    #[trigger] self.result@[i].1,
                    self.metadata_cache@,
                ) by {
                    let pn = self.result@[i].1.name@;
                    assert(documented(self.result@[i].1, c0));
                    crate::strmap::lemma_index_of_key(c0, pn);
                    crate::strmap::lemma_index_of_key(c0, name@);
                    crate::strmap::lemma_inserted_lookup(c0, name@, md, pn);
                    assert(pn != name@);
                }
            }
        }
        let removed = self.waiting.remove(name.as_str());
        proof {
            if s0 {
                crate::strmap::lemma_index_of_key(w0, name@);
                assert forall|i: int, j: int|
                    0 <= i < self.waiting@.len() && 0 <= j < (#[trigger] self.waiting@[i]).1@.len() && (#[trigger] self.waiting@[i].1@[j]).1 is None
                    implies lookup(str_entries(self.requested@), self.waiting@[i].0) == Some(self.waiting@[i].1@[j].0@) by {
                    if has_key(w0, name@) {
                        let x = index_of_key(w0, name@)->0;
                        assert(self.waiting@ == w0.remove(x));
                        if i < x {
                            assert(self.waiting@[i] == w0[i]);
                        } else {
                            assert(self.waiting@[i] == w0[i + 1]);
                        }
                    } else {
                        assert(self.waiting@ == w0);
                    }
                }
            }
        }
        proof {
            crate::strmap::lemma_index_of_key(w0, name@);
            assert forall|i: int, j: int| 0 <= i < self.waiting@.len() && 0 <= j < (#[trigger] self.waiting@[i]).1@.len() implies ((#[trigger] self.waiting@[i].1@[j]).1 matches Some(k)
                ==> has_key(self.result@, k@)) by {
                if has_key(w0, name@) {
                    let x = index_of_key(w0, name@)->0;
                    assert(self.waiting@ == w0.remove(x));
                    if i < x {
                        assert(self.waiting@[i] == w0[i]);
                    } else {
                        assert(self.waiting@[i] == w0[i + 1]);
                    }
                } else {
                    assert(self.waiting@ == w0);
                }
            }
        }
        match removed {
            Some(items) => {
                let ghost q0 = queue_view(self.pending@);
                let ghost x = index_of_key(w0, name@)->0;
                assert(items == w0[x].1);
                let mut i: usize = 0;
                while i < items.len()
                    invariant
                        i <= items@.len(),
                        self.wf(),
                        self.result == old(self).result,
                        self.metadata_cache@ == inserted(old(self).metadata_cache@, name@, metadata),
                        self.waiting@ == crate::strmap::removed(old(self).waiting@, name@),
                        0 <= x < w0.len(),
                        items == w0[x].1,
                        waiters_in(w0, self.result@),
                        queue_view(self.pending@) == q0 + items@.take(i as int).map_values(
                            |e: (String, Option<String>)| (name@, e.0@, opt_view(e.1)),
                        ),
                        w0[x].0 == name@,
                        self.requested == old(self).requested,
                        s0 == (old(self).sound() && !has_key(old(self).metadata_cache@, name@)),
                        s0 ==> root_waiting_ranges(w0, self.requested@),
                        s0 ==> waiting_asks(w0, self.result@),
                        self.root_resolved == old(self).root_resolved,
                        self.known_optional == old(self).known_optional,
                        self.conflict_warnings == old(self).conflict_warnings,
                        self.resolved_vers == old(self).resolved_vers,
                        s0 ==> self.sound(),
                    decreases items@.len() - i,
                {
                    let ghost before = self.pending@;
                    let range = items[i].0.clone();
                    let requester = match &items[i].1 {
                        Some(k) => Some(k.clone()),
                        None => None,
                    };
                    proof {
                        if items@[i as int].1 is Some {
                            assert(w0[x].1@[i as int] == items@[i as int]);
                            assert(has_key(self.result@, items@[i as int].1->0@));
                        }
                    }
                    self.pending.push_back((name.clone(), range, requester));
                    proof {
                        assert(queue_view(self.pending@) =~= queue_view(before).push(
                            (name@, items@[i as int].0@, opt_view(items@[i as int].1)),
                        ));
                        assert(items@.take(i + 1).map_values(
                            |e: (String, Option<String>)| (name@, e.0@, opt_view(e.1)),
                        ) =~= items@.take(i as int).map_values(
                            |e: (String, Option<String>)| (name@, e.0@, opt_view(e.1)),
                        ).push((name@, items@[i as int].0@, opt_view(items@[i as int].1))));
                        assert forall|j: int| 0 <= j < self.pending@.len() implies ((#[trigger] self.pending@[j]).2 matches Some(k)
                            ==> has_key(self.result@, k@)) by {
                            if j < before.len() {
                                assert(self.pending@[j] == before[j]);
                            }
                        }
                        if s0 {
                            assert forall|j: int| 0 <= j < self.pending@.len() && (#[trigger] self.pending@[j]).2 is None
                                implies lookup(str_entries(self.requested@), self.pending@[j].0@) == Some(self.pending@[j].1@) by {
                                if j < before.len() {
                                    assert(self.pending@[j] == before[j]);
                                } else {
                                    assert(w0[x].1@[i as int] == items@[i as int]);
                                }
                            }
                            assert forall|j: int| 0 <= j < self.pending@.len() implies ((#[trigger] self.pending@[j]).2 matches Some(k)
                                ==> lookup(self.result@, k@) matches Some(pp) && asks_for(pp, k@, self.pending@[j].0@, self.pending@[j].1@)) by {
                                if j < before.len() {
                                    assert(self.pending@[j] == before[j]);
                                } else {
                                    assert(w0[x].1@[i as int] == items@[i as int]);
                                }
                            }
                        }
                    }
                    i = i + 1;
                }
                assert(items@.take(items@.len() as int) =~= items@);
            },
            None => {
                assert(queue_view(self.pending@) =~= queue_view(self.pending@) + seq![]);
            },
        }
        proof {
            let qa = queue_view(s_old.pending@);
            let qb = queue_view(self.pending@);
            let added = match lookup(w0, name@) {
                Some(items) => items@.map_values(|e: (String, Option<String>)| (name@, e.0@, opt_view(e.1))),
                None => seq![],
            };
            assert(qb == qa + added);
            if accounts(s_old) {
                assert forall|y: Request| #[trigger] is_request(*self, y) implies accounted(*self, y) by {
                    assert(is_request(s_old, y));
                    crate::strmap::lemma_removed_lookup(w0, name@, y.0);
                    if qa.contains(y) {
                        let j = choose|j: int| 0 <= j < qa.len() && qa[j] == y;
                        assert(qb[j] == qa[j]);
                    }
                    if y.0 == name@ && lookup(w0, name@) is Some {
                        let items = lookup(w0, name@)->0;
                        if waiting_requests(items@).contains((y.1, y.2)) {
                            let j = choose|j: int| 0 <= j < waiting_requests(items@).len() && waiting_requests(items@)[j] == (y.1, y.2);
                            assert(added[j] == (name@, items@[j].0@, opt_view(items@[j].1)));
                            assert(qb[qa.len() + j] == added[j]);
                        }
                    }
                }
            }
        }
    }

    /// A fetch failed with `message`: the failure is charged to the first
    /// waiting name; an optional one is skipped with a warning, anything
    /// else ends the resolution.
    pub fn on_fetch_failure(&mut self, message: String) -> (r: Result<(), ResolveError>)
        requires
            old(self).valid(),
        ensures
            final(self).result == old(self).result,
            r is Ok <==> (old(self).waiting@.len() > 0 && has_key(old(self).known_optional@, old(self).waiting@[0].0)),
            r is Ok ==> final(self).waiting@ == old(self).waiting@.drop_first()
                && final(self).conflict_warnings@.len() == old(self).conflict_warnings@.len() + 1
                && final(self).conflict_warnings@.last()@ == skip_warning(old(self).waiting@[0].0, message@),
            r matches Err(e) ==> (e == (ResolveError::Fetch { message })),
            final(self).requested == old(self).requested,
            final(self).valid(),
    {
        let _ = self.waiting.unique();
        let ghost s_old = *self;
        let ghost s0 = self.sound();
        match find_failed_name(&self.waiting) {
            Some(n) => {
                if self.known_optional.contains_key(n.as_str()) {
                    let w = make_skip_warning(n.as_str(), message.as_str());
                    self.conflict_warnings.push(w);
                    let ghost w0 = self.waiting@;
                    proof {
                        crate::strmap::lemma_index_of_distinct_first(w0);
                    }
                    let _ = self.waiting.remove(n.as_str());
                    proof {
                        if accounts(s_old) {
                            assert forall|y: Request| #[trigger] is_request(*self, y) implies accounted(*self, y) by {
                                assert(is_request(s_old, y));
                                crate::strmap::lemma_removed_lookup(w0, n@, y.0);
                            }
                        }
                    }
                    proof {
                        assert(self.waiting@ =~= w0.drop_first());
                        assert forall|i: int, j: int| 0 <= i < self.waiting@.len() && 0 <= j < (#[trigger] self.waiting@[i]).1@.len() implies ((#[trigger] self.waiting@[i].1@[j]).1 matches Some(k)
                            ==> has_key(self.result@, k@)) by {
                            assert(self.waiting@[i] == w0[i + 1]);
                        }
                        if s0 {
                            assert forall|i: int, j: int|
                                0 <= i < self.waiting@.len() && 0 <= j < (#[trigger] self.waiting@[i]).1@.len() && (#[trigger] self.waiting@[i].1@[j]).1 is None
                                implies lookup(str_entries(self.requested@), self.waiting@[i].0) == Some(self.waiting@[i].1@[j].0@) by {
                                assert(self.waiting@[i] == w0[i + 1]);
                            }
                        }
                    }
                    Ok(())
                } else {
                    Err(ResolveError::Fetch { message })
                }
            },
            None => Err(ResolveError::Fetch { message }),
        }
    }
}

/// A peer dependency that is missing or does not satisfy its range.
pub struct PeerWarning {
    /// The package that has the peer, as `<name>@<version>`.
    pub package: String,
    pub peer_name: String,
    pub required_range: String,
    /// The version the peer resolved to, if it resolved.
    pub found_version: Option<SemVer>,
}

/// The view of a peer warning.
pub open spec fn warning_view(w: PeerWarning) -> (Seq<char>, Seq<char>, Seq<char>, Option<Seq<char>>) {
    (w.package@, w.peer_name@, w.required_range@, match w.found_version {
        Some(v) => Some(v@),
        None => None,
    })
}

/// The version that peer `peer` of `p` resolved to among `result`, if any.
pub open spec fn found_version(result: Seq<(Seq<char>, PackageInfo)>, p: PackageInfo, peer: Seq<char>) -> Option<Seq<char>> {
    match lookup(p.resolved_deps@, peer) {
        Some(k) => match lookup(result, k@) {
            Some(q) => Some(q.version@),
            None => None,
        },
        None => None,
    }
}

/// Whether the peer `peer` of `p` with range `range` calls for a warning: it
/// resolved to a version that the range does not match, or it did not
/// resolve and is not optional.
pub open spec fn peer_warns(result: Seq<(Seq<char>, PackageInfo)>, p: PackageInfo, peer: Seq<char>, range: Seq<char>) -> bool {
    match found_version(result, p, peer) {
        Some(v) => !exists|x: int|
            0 <= x < range_texts(range).len() && semver_req_matches(#[trigger] range_texts(range)[x], v),
        None => !has_key(p.optional_peers@, peer),
    }
}

/// The warnings for the peers `peers` of `p`, in order.
pub open spec fn peer_warnings_of(
    result: Seq<(Seq<char>, PackageInfo)>,
    p: PackageInfo,
    peers: Seq<(Seq<char>, String)>,
) -> Seq<(Seq<char>, Seq<char>, Seq<char>, Option<Seq<char>>)>
    decreases peers.len(),
{
    if peers.len() == 0 {
        seq![]
    } else {
        let rest = peer_warnings_of(result, p, peers.drop_last());
        let e = peers.last();
        if peer_warns(result, p, e.0, e.1@) {
            rest.push((package_key(p.name@, p.version@), e.0, e.1@, found_version(result, p, e.0)))
        } else {
            rest
        }
    }
}

/// The warnings for the peers of the packages `ps`, in order.
pub open spec fn peer_warnings_upto(
    result: Seq<(Seq<char>, PackageInfo)>,
    ps: Seq<(Seq<char>, PackageInfo)>,
) -> Seq<(Seq<char>, Seq<char>, Seq<char>, Option<Seq<char>>)>
    decreases ps.len(),
{
    if ps.len() == 0 {
        seq![]
    } else {
        peer_warnings_upto(result, ps.drop_last()) + peer_warnings_of(
            result,
            ps.last().1,
            ps.last().1.peer_dependencies@,
        )
    }
}

/// Every peer range of every package is one that `semver` accepts.
pub open spec fn peer_ranges_ok(ps: Seq<(Seq<char>, PackageInfo)>) -> bool {
    forall|i: int, j: int|
        0 <= i < ps.len() && 0 <= j < (#[trigger] ps[i]).1.peer_dependencies@.len() ==> range_ok(
            (#[trigger] ps[i].1.peer_dependencies@[j]).1@,
        )
}

/// The outcome of a resolution.
pub struct ResolveResult {
    pub packages: StrMap<PackageInfo>,
    pub peer_warnings: Vec<PeerWarning>,
    pub conflict_warnings: Vec<String>,
    pub root_resolved: StrMap<String>,
}

fn peer_warnings_for(result: &StrMap<PackageInfo>, p: &PackageInfo, out: &mut Vec<PeerWarning>) -> (r: Result<(), ResolveError>)
    ensures
        match r {
            Ok(()) => (forall|j: int| 0 <= j < p.peer_dependencies@.len() ==> range_ok(
                (#[trigger] p.peer_dependencies@[j]).1@,
            )) && final(out)@.map_values(|w: PeerWarning| warning_view(w)) == old(out)@.map_values(
                |w: PeerWarning| warning_view(w),
            ) + peer_warnings_of(result@, *p, p.peer_dependencies@),
            Err(e) => e is BadRange && exists|j: int| 0 <= j < p.peer_dependencies@.len() && !range_ok(
                (#[trigger] p.peer_dependencies@[j]).1@,
            ),
        },
{
    let ghost base = out@.map_values(|w: PeerWarning| warning_view(w));
    let mut j: usize = 0;
    while j < p.peer_dependencies.len()
        invariant
            j <= p.peer_dependencies@.len(),
            forall|x: int| 0 <= x < j ==> range_ok((#[trigger] p.peer_dependencies@[x]).1@),
            out@.map_values(|w: PeerWarning| warning_view(w)) == base + peer_warnings_of(
                result@,
                *p,
                p.peer_dependencies@.take(j as int),
            ),
        decreases p.peer_dependencies@.len() - j,
    {
        let peer_name = p.peer_dependencies.key_at(j);
        let peer_range = p.peer_dependencies.value_at(j);
        let req = match NpmVersionReq::parse(peer_range.as_str()) {
            Ok(q) => q,
            Err(e) => return Err(ResolveError::BadRange { range: e.range, cause: e.cause }),
        };
        let is_optional = p.optional_peers.contains_key(peer_name.as_str());
        let resolved = match p.resolved_deps.get(peer_name.as_str()) {
            Some(k) => result.get(k.as_str()),
            None => None,
        };
        let ghost t = p.peer_dependencies@.take(j + 1);
        assert(t.drop_last() =~= p.peer_dependencies@.take(j as int));
        assert(t.last() == p.peer_dependencies@[j as int]);
        let ghost before = out@;
        match resolved {
            Some(q) => {
                if !req.matches(&q.version) {
                    out.push(PeerWarning {
                        package: make_key(p.name.as_str(), &p.version),
                        peer_name: peer_name.clone(),
                        required_range: peer_range.clone(),
                        found_version: Some(copy_version(&q.version)),
                    });
                }
            },
            None => {
                if !is_optional {
                    out.push(PeerWarning {
                        package: make_key(p.name.as_str(), &p.version),
                        peer_name: peer_name.clone(),
                        required_range: peer_range.clone(),
                        found_version: None,
                    });
                }
            },
        }
        proof {
            let w = out@.map_values(|w: PeerWarning| warning_view(w));
            let w0 = before.map_values(|w: PeerWarning| warning_view(w));
            if out@.len() > before.len() {
                assert(w =~= w0.push(warning_view(out@.last())));
            } else {
                assert(w =~= w0);
            }
        }
        j = j + 1;
    }
    assert(p.peer_dependencies@.take(p.peer_dependencies@.len() as int) =~= p.peer_dependencies@);
    Ok(())
}

/// With every request accounted for and nothing left queued or waiting, every
/// dependency of the project resolved, and so did every dependency of every
/// package, unless its name is known to be optional.
pub open spec fn settled(res: Resolver) -> bool {
    &&& forall|d: Seq<char>| #[trigger] has_key(res.requested@, d) ==> has_key(res.root_resolved@, d) || has_key(
        res.known_optional@,
        d,
    )
    &&& forall|i: int, j: int|
        0 <= i < res.result@.len() && 0 <= j < requested_by(res.result@[i].1, res.result@[i].0).len() ==> has_key(
            res.result@[i].1.resolved_deps@,
            (#[trigger] requested_by(res.result@[i].1, res.result@[i].0)[j]).0,
        ) || has_key(res.known_optional@, requested_by(res.result@[i].1, res.result@[i].0)[j].0)
}

/// A resolution whose requests are all accounted for, with nothing queued or
/// waiting, is settled.
pub proof fn lemma_accounted_settles(res: Resolver)
    requires
        accounts(res),
        res.pending@.len() == 0,
        res.waiting@.len() == 0,
        crate::strmap::distinct_keys(res.result@),
    ensures
        settled(res),
{
    assert forall|d: Seq<char>| #[trigger] has_key(res.requested@, d) implies has_key(res.root_resolved@, d) || has_key(
        res.known_optional@,
        d,
    ) by {
        crate::strmap::lemma_str_entries_index(res.requested@, d);
        crate::strmap::lemma_index_of_key(str_entries(res.requested@), d);
        let rg = lookup(str_entries(res.requested@), d)->0;
        let y: Request = (d, rg, None);
        assert(is_request(res, y));
        crate::strmap::lemma_index_of_key(res.waiting@, d);
    }
    assert forall|i: int, j: int|
        0 <= i < res.result@.len() && 0 <= j < requested_by(res.result@[i].1, res.result@[i].0).len() implies has_key(
            res.result@[i].1.resolved_deps@,
            (#[trigger] requested_by(res.result@[i].1, res.result@[i].0)[j]).0,
        ) || has_key(res.known_optional@, requested_by(res.result@[i].1, res.result@[i].0)[j].0) by {
        let k = res.result@[i].0;
        let p = res.result@[i].1;
        let x = requested_by(p, k)[j];
        lemma_requested_by_key(p, k, j);
        crate::strmap::lemma_index_of_distinct(res.result@, i);
        assert(requested_by(p, k).contains(x));
        assert(is_request(res, x));
        crate::strmap::lemma_index_of_key(res.waiting@, x.0);
    }
}

impl Resolver {
    /// Ends the resolution: checks every peer dependency of every package
    /// against what it resolved to.
    pub fn finish(self) -> (r: Result<ResolveResult, ResolveError>)
        requires
            self.valid(),
        ensures
            match r {
                Ok(res) => {
                    &&& res.packages@ == self.result@
                    &&& str_entries(res.root_resolved@) == str_entries(self.root_resolved@)
                    &&& res.conflict_warnings@ == self.conflict_warnings@
                    &&& peer_ranges_ok(self.result@)
                    &&& res.peer_warnings@.map_values(|w: PeerWarning| warning_view(w)) == peer_warnings_upto(
                        self.result@,
                        self.result@,
                    )
                    &&& res.wf()
                    &&& roots_allowed(res.root_resolved@, self.requested@, res.packages@)
                    // Each dependency a package resolved went to a package of
                    // that name whose version a range it asks for allows.
                    &&& edges_allowed(res.packages@)
                    // Each package is what a version entry of the registry
                    // document of its name describes.
                    &&& all_documented(res.packages@, self.metadata_cache@)
                    // With nothing left queued or waiting, every dependency of
                    // the project and of each package resolved, unless its
                    // name is known to be optional.
                    &&& self.pending@.len() == 0 && self.waiting@.len() == 0 ==> settled(self)
                },
                Err(e) => e is BadRange && !peer_ranges_ok(self.result@),
            },
    {
        let _ = self.result.unique();
        proof {
            if accounts(self) && self.pending@.len() == 0 && self.waiting@.len() == 0 {
                lemma_accounted_settles(self);
            }
        }
        let mut warnings: Vec<PeerWarning> = Vec::new();
        let mut i: usize = 0;
        while i < self.result.len()
            invariant
                i <= self.result@.len(),
                forall|a: int, b: int|
                    0 <= a < i && 0 <= b < (#[trigger] self.result@[a]).1.peer_dependencies@.len() ==> range_ok(
                        (#[trigger] self.result@[a].1.peer_dependencies@[b]).1@,
                    ),
                warnings@.map_values(|w: PeerWarning| warning_view(w)) == peer_warnings_upto(
                    self.result@,
                    self.result@.take(i as int),
                ),
            decreases self.result@.len() - i,
        {
            let p = self.result.value_at(i);
            match peer_warnings_for(&self.result, p, &mut warnings) {
                Ok(()) => {},
                Err(e) => {
                    proof {
                        let j = choose|j: int| 0 <= j < p.peer_dependencies@.len() && !range_ok(
                            (#[trigger] p.peer_dependencies@[j]).1@,
                        );
                        assert(!range_ok(self.result@[i as int].1.peer_dependencies@[j].1@));
                    }
                    return Err(e);
                },
            }
            proof {
                let t = self.result@.take(i + 1);
                assert(t.drop_last() =~= self.result@.take(i as int));
                assert(t.last() == self.result@[i as int]);
            }
            i = i + 1;
        }
        assert(self.result@.take(self.result@.len() as int) =~= self.result@);
        Ok(
            ResolveResult {
                packages: self.result,
                peer_warnings: warnings,
                conflict_warnings: self.conflict_warnings,
                root_resolved: self.root_resolved,
            },
        )
    }
}

impl ResolveResult {
    /// What a resolution gives: packages under their keys, every recorded
    /// dependency pointing to a package of the result.
    pub open spec fn wf(&self) -> bool {
        &&& keys_match(self.packages@)
        &&& edges_closed(self.packages@)
        &&& targets_in(self.root_resolved@, self.packages@)
    }
}

/// Whether a package restricted to the platforms `list` (npm's `os` or
/// `cpu` field) may be installed on `current`: with an entry `!name` in the
/// list, every platform not excluded so is accepted; without one, only the
/// platforms listed are.
pub open spec fn platform_allowed(list: Seq<Seq<char>>, current: Seq<char>) -> bool {
    if exists|i: int| 0 <= i < list.len() && starts_with(#[trigger] list[i], "!"@) {
        !list.contains("!"@ + current)
    } else {
        list.contains(current)
    }
}

/// The text of each of `v`.
pub open spec fn string_texts(v: Seq<String>) -> Seq<Seq<char>> {
    v.map_values(|s: String| s@)
}

/// Whether `current` is allowed by the platform list `list`.
pub fn check_platform_list(list: &Vec<String>, current: &str) -> (r: bool)
    ensures
        r == platform_allowed(string_texts(list@), current@),
{
    let ghost l = string_texts(list@);
    let mut negated: Vec<char> = chars_of("!");
    let cur = chars_of(current);
    crate::text::append_chars(&mut negated, &cur);
    let bang = chars_of("!");
    let mut has_negations = false;
    let mut found_plain = false;
    let mut found_negated = false;
    let mut i: usize = 0;
    while i < list.len()
        invariant
            l == string_texts(list@),
            negated@ == "!"@ + current@,
            cur@ == current@,
            bang@ == "!"@,
            i <= list@.len(),
            has_negations == exists|j: int| 0 <= j < i && starts_with(#[trigger] l[j], "!"@),
            found_plain == exists|j: int| 0 <= j < i && #[trigger] l[j] == current@,
            found_negated == exists|j: int| 0 <= j < i && #[trigger] l[j] == "!"@ + current@,
        decreases list@.len() - i,
    {
        let item = chars_of(list[i].as_str());
        assert(item@ == l[i as int]);
        if crate::text::has_prefix(&item, &bang) {
            has_negations = true;
        }
        if crate::text::same_chars(&item, &cur) {
            found_plain = true;
        }
        if crate::text::same_chars(&item, &negated) {
            found_negated = true;
        }
        i = i + 1;
    }
    proof {
        if l.contains(current@) {
            let j = choose|j: int| 0 <= j < l.len() && l[j] == current@;
            assert(l[j] == current@);
        }
        if l.contains("!"@ + current@) {
            let j = choose|j: int| 0 <= j < l.len() && l[j] == "!"@ + current@;
            assert(l[j] == "!"@ + current@);
        }
    }
    if has_negations {
        !found_negated
    } else {
        found_plain
    }
}

/// npm's name for the operating system Rust calls `os`.
pub open spec fn npm_os(os: Seq<char>) -> Seq<char> {
    if os == "macos"@ {
        "darwin"@
    } else {
        os
    }
}

/// npm's name for the processor architecture Rust calls `arch`.
pub open spec fn npm_cpu(arch: Seq<char>) -> Seq<char> {
    if arch == "x86_64"@ {
        "x64"@
    } else if arch == "aarch64"@ {
        "arm64"@
    } else if arch == "x86"@ {
        "ia32"@
    } else {
        arch
    }
}

/// Whether `package` may be installed on the operating system `os` and the
/// architecture `arch`, named as Rust names them (`std::env::consts`).
pub open spec fn platform_ok(package: PackageInfo, os: Seq<char>, arch: Seq<char>) -> bool {
    &&& (package.os matches Some(l) ==> platform_allowed(string_texts(l@), npm_os(os)))
    &&& (package.cpu matches Some(l) ==> platform_allowed(string_texts(l@), npm_cpu(arch)))
}

/// Whether `package` may be installed on the operating system `os` and the
/// architecture `arch` (as `std::env::consts::OS` and `ARCH` name them).
pub fn platform_matches(package: &PackageInfo, os: &str, arch: &str) -> (r: bool)
    ensures
        r == platform_ok(*package, os@, arch@),
{
    let o = chars_of(os);
    let a = chars_of(arch);
    let npm_os_name: &str = if is_literal(&o, "macos") {
        "darwin"
    } else {
        os
    };
    let npm_cpu_name: &str = if is_literal(&a, "x86_64") {
        "x64"
    } else if is_literal(&a, "aarch64") {
        "arm64"
    } else if is_literal(&a, "x86") {
        "ia32"
    } else {
        arch
    };
    proof {
        reveal_strlit("darwin");
        reveal_strlit("x64");
        reveal_strlit("arm64");
        reveal_strlit("ia32");
    }
    if let Some(os_list) = &package.os {
        if !check_platform_list(os_list, npm_os_name) {
            return false;
        }
    }
    if let Some(cpu_list) = &package.cpu {
        if !check_platform_list(cpu_list, npm_cpu_name) {
            return false;
        }
    }
    true
}


/// The warnings for the peers `peers` of `p` are, for each peer that calls
/// for one, its warning.
proof fn lemma_peer_warnings_member(
    result: Seq<(Seq<char>, PackageInfo)>,
    p: PackageInfo,
    peers: Seq<(Seq<char>, String)>,
    w: (Seq<char>, Seq<char>, Seq<char>, Option<Seq<char>>),
)
    ensures
        peer_warnings_of(result, p, peers).contains(w) <==> exists|i: int|
            0 <= i < peers.len() && #[trigger] peer_warns(result, p, peers[i].0, peers[i].1@) && w == (
                package_key(p.name@, p.version@),
                peers[i].0,
                peers[i].1@,
                found_version(result, p, peers[i].0),
            ),
    decreases peers.len(),
{
    if peers.len() > 0 {
        let n = peers.len() - 1;
        let p0 = peers.drop_last();
        lemma_peer_warnings_member(result, p, p0, w);
        let rest = peer_warnings_of(result, p, p0);
        let all = peer_warnings_of(result, p, peers);
        let e = peers[n];
        let ew = (package_key(p.name@, p.version@), e.0, e.1@, found_version(result, p, e.0));
        if all.contains(w) {
            let x = choose|x: int| 0 <= x < all.len() && all[x] == w;
            if x < rest.len() {
                assert(rest[x] == w);
                let i = choose|i: int|
                    0 <= i < p0.len() && #[trigger] peer_warns(result, p, p0[i].0, p0[i].1@) && w == (
                        package_key(p.name@, p.version@),
                        p0[i].0,
                        p0[i].1@,
                        found_version(result, p, p0[i].0),
                    );
                assert(p0[i] == peers[i]);
            } else {
                assert(peer_warns(result, p, peers[n].0, peers[n].1@));
            }
        }
        if exists|i: int|
            0 <= i < peers.len() && #[trigger] peer_warns(result, p, peers[i].0, peers[i].1@) && w == (
                package_key(p.name@, p.version@),
                peers[i].0,
                peers[i].1@,
                found_version(result, p, peers[i].0),
            ) {
            let i = choose|i: int|
                0 <= i < peers.len() && #[trigger] peer_warns(result, p, peers[i].0, peers[i].1@) && w == (
                    package_key(p.name@, p.version@),
                    peers[i].0,
                    peers[i].1@,
                    found_version(result, p, peers[i].0),
                );
            if i < n {
                assert(p0[i] == peers[i]);
                assert(peer_warns(result, p, p0[i].0, p0[i].1@));
                assert(rest.contains(w));
                let x = choose|x: int| 0 <= x < rest.len() && rest[x] == w;
                assert(all[x] == w);
            } else {
                assert(all.last() == w);
                assert(all[all.len() - 1] == w);
            }
        }
    }
}

/// A peer `peer` (with range `range`) of package `p` that did not resolve to
/// a package of `result` gets the warning that it is not installed exactly
/// when `peerDependenciesMeta` does not mark it optional; one that resolved
/// gets a warning, naming the version found, exactly when the range does not
/// allow that version.
pub proof fn law_peer_warnings(result: Seq<(Seq<char>, PackageInfo)>, p: PackageInfo, j: int)
    requires
        crate::strmap::distinct_keys(p.peer_dependencies@),
        0 <= j < p.peer_dependencies@.len(),
    ensures
        ({
            let peer = p.peer_dependencies@[j].0;
            let range = p.peer_dependencies@[j].1@;
            let key = package_key(p.name@, p.version@);
            let ws = peer_warnings_of(result, p, p.peer_dependencies@);
            match lookup(p.resolved_deps@, peer) {
                Some(k) => match lookup(result, k@) {
                    Some(q) => ws.contains((key, peer, range, Some(q.version@))) <==> !range_allows(range, q.version@),
                    None => ws.contains((key, peer, range, None)) <==> !has_key(p.optional_peers@, peer),
                },
                None => ws.contains((key, peer, range, None)) <==> !has_key(p.optional_peers@, peer),
            }
        }),
{
    let peers = p.peer_dependencies@;
    let peer = peers[j].0;
    let range = peers[j].1@;
    let key = package_key(p.name@, p.version@);
    let fv = found_version(result, p, peer);
    let w = (key, peer, range, fv);
    lemma_peer_warnings_member(result, p, peers, w);
    if peer_warnings_of(result, p, peers).contains(w) {
        let i = choose|i: int|
            0 <= i < peers.len() && #[trigger] peer_warns(result, p, peers[i].0, peers[i].1@) && w == (
                key,
                peers[i].0,
                peers[i].1@,
                found_version(result, p, peers[i].0),
            );
        if i != j {
            crate::strmap::lemma_index_of_distinct(peers, i);
            crate::strmap::lemma_index_of_distinct(peers, j);
        }
    }
    if peer_warns(result, p, peer, range) {
        assert(peer_warns(result, p, peers[j].0, peers[j].1@));
    }
}


/// The warnings for the packages `ps` are those for each of them.
proof fn lemma_peer_warnings_upto_member(
    result: Seq<(Seq<char>, PackageInfo)>,
    ps: Seq<(Seq<char>, PackageInfo)>,
    w: (Seq<char>, Seq<char>, Seq<char>, Option<Seq<char>>),
)
    ensures
        peer_warnings_upto(result, ps).contains(w) <==> exists|i: int|
            0 <= i < ps.len() && #[trigger] peer_warnings_of(result, ps[i].1, ps[i].1.peer_dependencies@).contains(w),
    decreases ps.len(),
{
    if ps.len() > 0 {
        let n = ps.len() - 1;
        let p0 = ps.drop_last();
        lemma_peer_warnings_upto_member(result, p0, w);
        let rest = peer_warnings_upto(result, p0);
        let last = peer_warnings_of(result, ps[n].1, ps[n].1.peer_dependencies@);
        let all = peer_warnings_upto(result, ps);
        assert(all == rest + last);
        if all.contains(w) {
            let x = choose|x: int| 0 <= x < all.len() && all[x] == w;
            if x < rest.len() {
                assert(rest[x] == w);
                let i = choose|i: int| 0 <= i < p0.len() && #[trigger] peer_warnings_of(result, p0[i].1, p0[i].1.peer_dependencies@).contains(w);
                assert(p0[i] == ps[i]);
            } else {
                assert(last[x - rest.len()] == w);
                assert(last.contains(w));
            }
        }
        if exists|i: int| 0 <= i < ps.len() && #[trigger] peer_warnings_of(result, ps[i].1, ps[i].1.peer_dependencies@).contains(w) {
            let i = choose|i: int| 0 <= i < ps.len() && #[trigger] peer_warnings_of(result, ps[i].1, ps[i].1.peer_dependencies@).contains(w);
            if i < n {
                assert(p0[i] == ps[i]);
                assert(peer_warnings_of(result, p0[i].1, p0[i].1.peer_dependencies@).contains(w));
                let x = choose|x: int| 0 <= x < rest.len() && rest[x] == w;
                assert(all[x] == w);
            } else {
                let x = choose|x: int| 0 <= x < last.len() && last[x] == w;
                assert(all[rest.len() + x] == w);
            }
        }
    }
}

/// Among all the warnings of a resolution `result` (each package under its
/// own `name@version`), those for a package are those
/// [`law_peer_warnings`] gives for it.
pub proof fn law_peer_warnings_of_result(
    result: Seq<(Seq<char>, PackageInfo)>,
    i: int,
    w: (Seq<char>, Seq<char>, Seq<char>, Option<Seq<char>>),
)
    requires
        keys_match(result),
        crate::strmap::distinct_keys(result),
        0 <= i < result.len(),
        w.0 == result[i].0,
    ensures
        peer_warnings_upto(result, result).contains(w) <==> peer_warnings_of(
            result,
            result[i].1,
            result[i].1.peer_dependencies@,
        ).contains(w),
{
    lemma_peer_warnings_upto_member(result, result, w);
    if peer_warnings_upto(result, result).contains(w) {
        let i2 = choose|i2: int|
            0 <= i2 < result.len() && #[trigger] peer_warnings_of(result, result[i2].1, result[i2].1.peer_dependencies@).contains(w);
        let p2 = result[i2].1;
        lemma_peer_warnings_member(result, p2, p2.peer_dependencies@, w);
        assert(w.0 == package_key(p2.name@, p2.version@));
        assert(result[i2].0 == w.0);
        if i2 != i {
            crate::strmap::lemma_index_of_distinct(result, i);
            crate::strmap::lemma_index_of_distinct(result, i2);
        }
    }
}

} // verus!
