use vstd::prelude::*;

verus! {

/// Where the source of a dependency comes from.
pub enum Dependency {
    Github { git: String, tag: String },
    Path { path: String },
}

/// The `[package]` table of a package manifest.
pub struct PackageMetadata {
    pub name: Option<String>,
    pub authors: Vec<String>,
    pub compiler_version: Option<String>,
    pub backend: Option<String>,
    pub license: Option<String>,
}

/// A package manifest: its metadata and its dependencies, one entry per
/// dependency name (see `wf`).
pub struct PackageManifest {
    pub package: PackageMetadata,
    pub dependencies: Vec<(String, Dependency)>,
}

/// The members of a workspace, and the one to use when none is named.
pub struct WorkspaceConfig {
    pub members: Vec<String>,
    pub default_member: Option<String>,
}

/// A workspace manifest.
pub struct Workspace {
    pub config: WorkspaceConfig,
}

/// A manifest: of a package, or of a workspace.
pub enum Manifest {
    Package(PackageManifest),
    Workspace(Workspace),
}

/// The backends table of the global configuration.
pub struct Backends {
    pub default: Option<String>,
}

/// The global configuration.
pub struct GlobalConfig {
    pub backends: Option<Backends>,
}

impl Manifest {
    /// The package manifest, if this is one.
    pub fn to_package(self) -> (r: Option<PackageManifest>)
        ensures
            match self {
                Manifest::Package(p) => r == Some(p),
                Manifest::Workspace(_) => r is None,
            },
    {
        match self {
            Manifest::Package(v) => Some(v),
            _ => None,
        }
    }
}

impl PackageManifest {
    /// No two dependencies share a name.
    pub open spec fn wf(&self) -> bool {
        forall|i: int, j: int|
            0 <= i < j < self.dependencies@.len() ==> (#[trigger] self.dependencies@[i]).0@
                != (#[trigger] self.dependencies@[j]).0@
    }

    /// Whether some dependency is given by a local path.
    pub fn has_local_dependency(&self) -> (r: bool)
        ensures
            r == exists|i: int|
                0 <= i < self.dependencies@.len() && (#[trigger] self.dependencies@[i]).1 is Path,
    {
        let mut i: usize = 0;
        while i < self.dependencies.len()
            invariant
                i <= self.dependencies@.len(),
                forall|j: int| 0 <= j < i ==> !((#[trigger] self.dependencies@[j]).1 is Path),
            decreases self.dependencies@.len() - i,
        {
            if let Dependency::Path { .. } = &self.dependencies[i].1 {
                return true;
            }
            i = i + 1;
        }
        false
    }
}

} // verus!
