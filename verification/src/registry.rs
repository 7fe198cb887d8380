//! What the npm registry says of a package, as the library reads it.

use vstd::prelude::*;
use crate::strmap::StrMap;
use crate::text::{chars_of, replace_all, replace_literal, string_of};

verus! {

/// The `dist-tags` of a package.
pub struct DistTags {
    pub latest: String,
}

/// Where the tarball of a version is and its integrity string.
pub struct Distribution {
    pub tarball: String,
    pub integrity: String,
}

/// The `peerDependenciesMeta` entry of one peer.
pub struct PeerDependencyMeta {
    pub optional: bool,
}

/// The manifest of one published version.
pub struct VersionMetadata {
    pub name: String,
    pub version: String,
    pub dist: Distribution,
    pub dependencies: Option<StrMap<String>>,
    pub optional_dependencies: Option<StrMap<String>>,
    pub peer_dependencies: Option<StrMap<String>>,
    pub peer_dependencies_meta: Option<StrMap<PeerDependencyMeta>>,
    pub os: Option<Vec<String>>,
    pub cpu: Option<Vec<String>>,
    pub has_install_script: bool,
}

/// The registry document of a package: its tags and the manifests of its
/// versions, keyed by version text.
pub struct PackageMetadata {
    pub name: String,
    pub dist_tags: DistTags,
    pub versions: StrMap<VersionMetadata>,
}

/// The name of the files that cache the metadata of `package_name`: each `/`
/// becomes `+`.
pub open spec fn metadata_cache_key(package_name: Seq<char>) -> Seq<char> {
    replace_all(package_name, "/"@, "+"@)
}

/// Executable form of [`metadata_cache_key`].
pub fn cache_key_for(package_name: &str) -> (r: String)
    ensures
        r@ == metadata_cache_key(package_name@),
{
    let s = chars_of(package_name);
    let from = chars_of("/");
    let to = chars_of("+");
    string_of(&replace_literal(&s, &from, &to))
}

impl PackageMetadata {
    /// The version that the `latest` tag names.
    pub fn latest_version(&self) -> (r: String)
        ensures
            r@ == self.dist_tags.latest@,
    {
        self.dist_tags.latest.clone()
    }
}

} // verus!
