//! The project's manifest, `package.json`: the fields that the installer
//! reads and the edits that `add` and `remove` make to its dependencies.
//!
//! Reading and writing the file, and keeping the rest of its JSON as it was,
//! is done outside the library.

use vstd::prelude::*;
use crate::strmap::{
    StrMap, has_key, removed, ordered_inserted, sorted_keys, str_entries,
    lemma_ordered_inserted_sorted, lemma_removed_sorted, lemma_str_entries_ordered,
    lemma_str_entries_removed, insert_all_ordered, sorted_copy,
};
use crate::text::{chars_of, ends_with, has_suffix, is_literal, path_join, join_path, path_parent, parent_path};

verus! {

/// Whether the path `dir` names a `package.json` file itself: its last
/// component is `package.json`.
pub open spec fn names_manifest(dir: Seq<char>) -> bool {
    dir == "package.json"@ || ends_with(dir, "/package.json"@)
}

/// The manifest of the project in `dir`: `dir` itself where it names a
/// `package.json`, else the `package.json` in it.
pub open spec fn manifest_path_of(dir: Seq<char>) -> Seq<char> {
    if names_manifest(dir) {
        dir
    } else {
        path_join(dir, "package.json"@)
    }
}

/// The path of the manifest to read for `dir`.
pub fn manifest_path(dir: &str) -> (r: String)
    ensures
        r@ == manifest_path_of(dir@),
{
    let d = chars_of(dir);
    let suffix = chars_of("/package.json");
    if is_literal(&d, "package.json") || has_suffix(&d, &suffix) {
        dir.to_owned()
    } else {
        join_path(dir, "package.json")
    }
}

/// The directory that contains the file at `path`, or `path` itself where it
/// has none (the root, or an empty path).
pub open spec fn directory_of(path: Seq<char>) -> Seq<char> {
    if path.len() == 0 || path == "/"@ {
        path
    } else {
        path_parent(path)
    }
}

/// The fields of `package.json` that the installer reads, and where it was
/// read from. Each map keeps its names in ascending order.
pub struct PackageJson {
    pub name: Option<String>,
    pub version: Option<String>,
    pub scripts: StrMap<String>,
    pub dependencies: StrMap<String>,
    pub dev_dependencies: StrMap<String>,
    pub optional_dependencies: StrMap<String>,
    /// The path of the file.
    pub path: String,
}

impl PackageJson {
    /// Each map of the manifest keeps its names in ascending order.
    pub open spec fn wf(&self) -> bool {
        &&& sorted_keys(self.scripts@)
        &&& sorted_keys(self.dependencies@)
        &&& sorted_keys(self.dev_dependencies@)
        &&& sorted_keys(self.optional_dependencies@)
    }

    /// The manifest read from the file at `path`, with the maps it has; each
    /// map is kept by name in ascending order.
    pub fn new(
        name: Option<String>,
        version: Option<String>,
        scripts: &StrMap<String>,
        dependencies: &StrMap<String>,
        dev_dependencies: &StrMap<String>,
        optional_dependencies: &StrMap<String>,
        path: String,
    ) -> (r: PackageJson)
        ensures
            r.wf(),
            r.name == name,
            r.version == version,
            r.path == path,
            str_entries(r.scripts@) == insert_all_ordered(seq![], str_entries(scripts@)),
            str_entries(r.dependencies@) == insert_all_ordered(seq![], str_entries(dependencies@)),
            str_entries(r.dev_dependencies@) == insert_all_ordered(seq![], str_entries(dev_dependencies@)),
            str_entries(r.optional_dependencies@) == insert_all_ordered(seq![], str_entries(optional_dependencies@)),
    {
        PackageJson {
            name,
            version,
            scripts: sorted_copy(scripts),
            dependencies: sorted_copy(dependencies),
            dev_dependencies: sorted_copy(dev_dependencies),
            optional_dependencies: sorted_copy(optional_dependencies),
            path,
        }
    }

    /// Adds `name` with the range `version` to the development dependencies
    /// where `dev` holds, else to the dependencies; an existing entry gets the
    /// new range.
    pub fn add_dep(&mut self, name: &str, version: &str, dev: bool)
        ensures
            dev ==> str_entries(final(self).dev_dependencies@) == ordered_inserted(str_entries(old(self).dev_dependencies@), name@, version@)
                && final(self).dependencies@ == old(self).dependencies@,
            !dev ==> str_entries(final(self).dependencies@) == ordered_inserted(str_entries(old(self).dependencies@), name@, version@)
                && final(self).dev_dependencies@ == old(self).dev_dependencies@,
            final(self).optional_dependencies@ == old(self).optional_dependencies@,
            final(self).scripts@ == old(self).scripts@,
            final(self).name == old(self).name,
            final(self).version == old(self).version,
            final(self).path == old(self).path,
            old(self).wf() ==> final(self).wf(),
    {
        let v = version.to_owned();
        if dev {
            proof {
                lemma_str_entries_ordered(self.dev_dependencies@, name@, v);
                if sorted_keys(self.dev_dependencies@) {
                    lemma_ordered_inserted_sorted(self.dev_dependencies@, name@, v);
                }
            }
            self.dev_dependencies.insert_ordered(name.to_owned(), v);
        } else {
            proof {
                lemma_str_entries_ordered(self.dependencies@, name@, v);
                if sorted_keys(self.dependencies@) {
                    lemma_ordered_inserted_sorted(self.dependencies@, name@, v);
                }
            }
            self.dependencies.insert_ordered(name.to_owned(), v);
        }
    }

    /// The sections of the file that list `name`, of `dependencies`,
    /// `devDependencies` and `optionalDependencies`, in that order: those
    /// that removing it takes it out of.
    pub open spec fn sections_listing(self, name: Seq<char>) -> Seq<Seq<char>> {
        (if has_key(self.dependencies@, name) {
            seq!["dependencies"@]
        } else {
            seq![]
        }) + (if has_key(self.dev_dependencies@, name) {
            seq!["devDependencies"@]
        } else {
            seq![]
        }) + (if has_key(self.optional_dependencies@, name) {
            seq!["optionalDependencies"@]
        } else {
            seq![]
        })
    }

    /// The names of the sections of the file that list `name` (see
    /// [`PackageJson::sections_listing`]); these are the sections of the file
    /// to take `name` out of when it is removed.
    pub fn dep_sections(&self, name: &str) -> (r: Vec<String>)
        ensures
            r@.map_values(|t: String| t@) == self.sections_listing(name@),
    {
        let mut r: Vec<String> = Vec::new();
        if self.dependencies.contains_key(name) {
            r.push("dependencies".to_owned());
        }
        assert(r@.map_values(|t: String| t@) =~= (if has_key(self.dependencies@, name@) {
            seq!["dependencies"@]
        } else {
            seq![]
        }));
        let ghost r1 = r@.map_values(|t: String| t@);
        if self.dev_dependencies.contains_key(name) {
            r.push("devDependencies".to_owned());
        }
        assert(r@.map_values(|t: String| t@) =~= r1 + (if has_key(self.dev_dependencies@, name@) {
            seq!["devDependencies"@]
        } else {
            seq![]
        }));
        let ghost r2 = r@.map_values(|t: String| t@);
        if self.optional_dependencies.contains_key(name) {
            r.push("optionalDependencies".to_owned());
        }
        assert(r@.map_values(|t: String| t@) =~= r2 + (if has_key(self.optional_dependencies@, name@) {
            seq!["optionalDependencies"@]
        } else {
            seq![]
        }));
        r
    }

    /// Removes `name` from the dependencies, the development and the
    /// optional dependencies; tells whether any of them had it.
    pub fn remove_dep(&mut self, name: &str) -> (r: bool)
        ensures
            final(self).dependencies@ == removed(old(self).dependencies@, name@),
            final(self).dev_dependencies@ == removed(old(self).dev_dependencies@, name@),
            final(self).optional_dependencies@ == removed(old(self).optional_dependencies@, name@),
            r == (has_key(old(self).dependencies@, name@) || has_key(old(self).dev_dependencies@, name@)
                || has_key(old(self).optional_dependencies@, name@)),
            final(self).scripts@ == old(self).scripts@,
            final(self).name == old(self).name,
            final(self).version == old(self).version,
            final(self).path == old(self).path,
            old(self).wf() ==> final(self).wf(),
    {
        proof {
            if sorted_keys(self.dependencies@) {
                lemma_removed_sorted(self.dependencies@, name@);
            }
            if sorted_keys(self.dev_dependencies@) {
                lemma_removed_sorted(self.dev_dependencies@, name@);
            }
            if sorted_keys(self.optional_dependencies@) {
                lemma_removed_sorted(self.optional_dependencies@, name@);
            }
            crate::strmap::lemma_index_of_key(self.dependencies@, name@);
            crate::strmap::lemma_index_of_key(self.dev_dependencies@, name@);
            crate::strmap::lemma_index_of_key(self.optional_dependencies@, name@);
        }
        let a = self.dependencies.remove(name).is_some();
        let b = self.dev_dependencies.remove(name).is_some();
        let c = self.optional_dependencies.remove(name).is_some();
        a || b || c
    }

    /// Whether `name` is among the dependencies, the development or the
    /// optional dependencies.
    pub fn has_dep(&self, name: &str) -> (r: bool)
        ensures
            r == (has_key(self.dependencies@, name@) || has_key(self.dev_dependencies@, name@)
                || has_key(self.optional_dependencies@, name@)),
    {
        self.dependencies.contains_key(name) || self.dev_dependencies.contains_key(name)
            || self.optional_dependencies.contains_key(name)
    }

    /// The directory of the project: the one that holds the manifest.
    pub fn directory(&self) -> (r: String)
        ensures
            r@ == directory_of(self.path@),
    {
        let p = chars_of(self.path.as_str());
        if p.len() == 0 || is_literal(&p, "/") {
            self.path.clone()
        } else {
            parent_path(self.path.as_str())
        }
    }
}

/// The directory of the project whose manifest is at `path`: the one that
/// holds it, or `.` where there is none.
pub open spec fn scripts_directory_of(path: Seq<char>) -> Seq<char> {
    if path.len() == 0 || path == "/"@ {
        "."@
    } else {
        path_parent(path)
    }
}

/// The fields of `package.json` that running a script reads.
pub struct ScriptsManifest {
    pub name: Option<String>,
    pub version: Option<String>,
    pub scripts: StrMap<String>,
    /// The directory of the project, where scripts run.
    pub directory: String,
}

impl ScriptsManifest {
    /// The manifest read from the file at `path`.
    ///
    /// Its scripts are kept by name in ascending order.
    pub fn new(name: Option<String>, version: Option<String>, scripts: StrMap<String>, path: &str) -> (r: ScriptsManifest)
        ensures
            r.name == name,
            r.version == version,
            str_entries(r.scripts@) == insert_all_ordered(seq![], str_entries(scripts@)),
            sorted_keys(r.scripts@),
            r.directory@ == scripts_directory_of(path@),
    {
        let scripts = sorted_copy(&scripts);
        let p = chars_of(path);
        let directory = if p.len() == 0 || is_literal(&p, "/") {
            ".".to_owned()
        } else {
            parent_path(path)
        };
        ScriptsManifest { name, version, scripts, directory }
    }

    /// The directory of the project, where scripts run.
    pub fn directory(&self) -> (r: &str)
        ensures
            r@ == self.directory@,
    {
        self.directory.as_str()
    }
}

} // verus!
