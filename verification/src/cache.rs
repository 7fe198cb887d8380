//! The content-addressed cache of unpacked packages under `~/.vee`: where a
//! package with a given integrity is kept, and which entries of a downloaded
//! archive are unpacked where.
//!
//! Downloading, checking the directories on disk and unpacking are done
//! outside the library, following these decisions.

use vstd::prelude::*;
use crate::integrity::{Integrity, IntegrityError, parsed_integrity, alg_name};
use crate::integrity::hex_lower;
use crate::text::{chars_of, string_of, append_str, path_join, join_path};

verus! {

/// The cache of the user whose home directory is given: unpacked packages
/// in a store directory, and a directory for unpacking in progress.
pub struct CacheStore {
    store_dir: String,
    tmp_dir: String,
}

/// The directory of vee's own files in the home directory `home`.
pub open spec fn vee_home(home: Seq<char>) -> Seq<char> {
    path_join(home, ".vee"@)
}

/// The name of the cache entry of the integrity string `sri`, where it parses.
pub open spec fn entry_name(sri: Seq<char>) -> Option<Seq<char>> {
    match parsed_integrity(sri) {
        Some((alg, digest)) => Some(alg_name(alg) + "-"@ + hex_lower(digest)),
        None => None,
    }
}

impl CacheStore {
    /// The directory where finished entries are kept.
    pub closed spec fn store(&self) -> Seq<char> {
        self.store_dir@
    }

    /// The directory where entries are unpacked before they are moved into
    /// the store.
    pub closed spec fn tmp(&self) -> Seq<char> {
        self.tmp_dir@
    }

    /// The cache of the user whose home directory is `home`: `~/.vee/store`
    /// and `~/.vee/tmp`.
    pub fn new(home: &str) -> (r: CacheStore)
        ensures
            r.store() == path_join(vee_home(home@), "store"@),
            r.tmp() == path_join(vee_home(home@), "tmp"@),
    {
        let base = join_path(home, ".vee");
        let store_dir = join_path(base.as_str(), "store");
        let tmp_dir = join_path(base.as_str(), "tmp");
        CacheStore { store_dir, tmp_dir }
    }

    /// The store directory.
    pub fn store_dir(&self) -> (r: &str)
        ensures
            r@ == self.store(),
    {
        self.store_dir.as_str()
    }

    /// The directory for unpacking in progress.
    pub fn tmp_dir(&self) -> (r: &str)
        ensures
            r@ == self.tmp(),
    {
        self.tmp_dir.as_str()
    }

    /// Where the entry of `integrity` is kept, and where it is unpacked
    /// first: a name in the temporary directory made unique by
    /// `unique_suffix`.
    pub fn path_for(&self, integrity: &Integrity, unique_suffix: &str) -> (r: (String, String))
        ensures
            r.0@ == path_join(self.store(), alg_name(integrity.alg) + "-"@ + hex_lower(integrity.digest@)),
            r.1@ == path_join(self.tmp(), alg_name(integrity.alg) + "-"@ + hex_lower(integrity.digest@) + "."@ + unique_suffix@),
    {
        let key = integrity.cache_key();
        let mut tmp_name = chars_of(key.as_str());
        append_str(&mut tmp_name, ".");
        append_str(&mut tmp_name, unique_suffix);
        let tmp_name = string_of(&tmp_name);
        (join_path(self.store_dir.as_str(), key.as_str()), join_path(self.tmp_dir.as_str(), tmp_name.as_str()))
    }

    /// Where the package with integrity string `integrity_str` is kept once
    /// cached; whether it is there is for the caller to look. Fails where the
    /// integrity string does not parse.
    pub fn get(&self, integrity_str: &str) -> (r: Result<String, IntegrityError>)
        ensures
            match r {
                Ok(p) => entry_name(integrity_str@) matches Some(n) && p@ == path_join(self.store(), n),
                Err(_) => entry_name(integrity_str@) is None,
            },
    {
        let integrity = Integrity::parse(integrity_str)?;
        let (cached, _) = self.path_for(&integrity, "");
        Ok(cached)
    }
}

/// A component of the path of an archive entry.
pub enum PathPart {
    /// A name.
    Normal(String),
    /// `.`
    CurDir,
    /// `..`
    ParentDir,
    /// The root `/`.
    RootDir,
    /// A drive or share prefix.
    Prefix,
}

/// Whether the component `p` could lead out of the directory it is
/// unpacked into.
pub open spec fn escapes(p: PathPart) -> bool {
    p is ParentDir || p is RootDir || p is Prefix
}

/// The text of the component `p` in a relative path.
pub open spec fn part_text(p: PathPart) -> Seq<char> {
    match p {
        PathPart::Normal(s) => s@,
        PathPart::CurDir => "."@,
        _ => seq![],
    }
}

/// The path made of the components `parts`, joined with `/`.
pub open spec fn parts_path(parts: Seq<PathPart>) -> Seq<char>
    decreases parts.len(),
{
    if parts.len() == 0 {
        seq![]
    } else {
        path_join(parts_path(parts.drop_last()), part_text(parts.last()))
    }
}

/// Where an archive entry whose path has the components `parts` is unpacked
/// under `dest`: the package's top directory is dropped; links, entries with
/// nothing left, and entries that could lead out of `dest` are skipped.
pub open spec fn entry_target(dest: Seq<char>, parts: Seq<PathPart>, is_link: bool) -> Option<Seq<char>> {
    if is_link || parts.len() <= 1 || exists|i: int| 1 <= i < parts.len() && #[trigger] escapes(parts[i]) {
        None
    } else {
        Some(path_join(dest, parts_path(parts.skip(1))))
    }
}

/// Where the archive entry whose path has the components `parts` goes under
/// `dest`, if it is unpacked at all; `is_link` tells a symbolic or hard
/// link.
pub fn extract_target(dest: &str, parts: &Vec<PathPart>, is_link: bool) -> (r: Option<String>)
    ensures
        opt_text(r) == entry_target(dest@, parts@, is_link),
{
    if is_link || parts.len() <= 1 {
        return None;
    }
    let mut i: usize = 1;
    let mut rel: Vec<char> = Vec::new();
    while i < parts.len()
        invariant
            1 <= i <= parts@.len(),
            forall|j: int| 1 <= j < i ==> !escapes(#[trigger] parts@[j]),
            rel@ == parts_path(parts@.subrange(1, i as int)),
        decreases parts@.len() - i,
    {
        let ghost before = rel@;
        let piece: String = match &parts[i] {
            PathPart::Normal(s) => s.clone(),
            PathPart::CurDir => ".".to_owned(),
            _ => {
                assert(escapes(parts@[i as int]));
                return None;
            },
        };
        let base = string_of(&rel);
        let joined = join_path(base.as_str(), piece.as_str());
        rel = chars_of(joined.as_str());
        proof {
            let t = parts@.subrange(1, i + 1);
            assert(t.drop_last() =~= parts@.subrange(1, i as int));
            assert(t.last() == parts@[i as int]);
        }
        i = i + 1;
    }
    proof {
        assert(parts@.subrange(1, parts@.len() as int) =~= parts@.skip(1));
    }
    let rel_text = string_of(&rel);
    Some(join_path(dest, rel_text.as_str()))
}

/// The text of an optional string.
pub open spec fn opt_text(o: Option<String>) -> Option<Seq<char>> {
    match o {
        Some(s) => Some(s@),
        None => None,
    }
}

} // verus!
