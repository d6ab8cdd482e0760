//! Package metadata and the cache decision: the decision-relevant snapshot
//! of an input, field-wise equality as the sole staleness signal, and the
//! choice between compiling afresh and executing the cached artifact.
use vstd::prelude::*;

use crate::ident::spec_compute_id;
use crate::input::Input;
use crate::text::str_eq;

verus! {

/// The decision-relevant snapshot of an input: path and timestamp exist
/// only for file inputs; the build mode and the sorted dependency list
/// complete it.
pub struct PackageMetadata {
    /// Path to the script file.
    pub path: Option<String>,
    /// Last-modified timestamp of the script file.
    pub modified: Option<u64>,
    /// Was the package built in debug mode?
    pub debug: bool,
    /// Sorted list of dependencies.
    pub deps: Vec<(String, String)>,
}

/// The mathematical shape of a metadata record.
#[verifier::ext_equal]
pub ghost struct MetadataView {
    pub path: Option<Seq<char>>,
    pub modified: Option<u64>,
    pub debug: bool,
    pub deps: Seq<(Seq<char>, Seq<char>)>,
}

pub open spec fn deps_view(ds: Seq<(String, String)>) -> Seq<(Seq<char>, Seq<char>)> {
    ds.map_values(|d: (String, String)| (d.0@, d.1@))
}

impl View for PackageMetadata {
    type V = MetadataView;

    open spec fn view(&self) -> MetadataView {
        MetadataView {
            path: match self.path {
                Some(p) => Some(p@),
                None => None,
            },
            modified: self.modified,
            debug: self.debug,
            deps: deps_view(self.deps@),
        }
    }
}

/// What to do with the input: compile it afresh, or run what is cached.
#[derive(PartialEq, Eq, Structural, Clone, Copy, Debug)]
pub enum CacheAction {
    /// Compile the input into a fresh executable.
    Compile,
    /// Do not compile; execute what the cache holds.
    Execute,
}

/// The metadata computed from the live input.
pub open spec fn spec_current_metadata(input: Input, debug: bool, ds: Seq<(String, String)>)
    -> MetadataView {
    MetadataView {
        path: match input {
            Input::File { path, .. } => Some(path@),
            _ => None,
        },
        modified: match input {
            Input::File { modified, .. } => Some(modified),
            _ => None,
        },
        debug: debug,
        deps: deps_view(ds),
    }
}

/// Builds the metadata record for the live input: the path and timestamp
/// of a file input, nothing for the other variants, the build mode, and
/// the dependency list.
pub fn current_metadata(input: &Input, debug: bool, deps: Vec<(String, String)>) -> (m:
    PackageMetadata)
    ensures
        m@ == spec_current_metadata(*input, debug, deps@),
{
    let (path, modified) = match input {
        Input::File { path, modified, .. } => (Some(path.clone()), Some(*modified)),
        _ => (None, None),
    };
    let m = PackageMetadata { path, modified, debug, deps };
    proof {
        assert(m@ =~= spec_current_metadata(*input, debug, m.deps@));
    }
    m
}

/// Decides field-wise equality of two metadata records: the sole staleness
/// signal for a cached build.
pub fn metadata_eq(a: &PackageMetadata, b: &PackageMetadata) -> (r: bool)
    ensures
        r == (a@ == b@),
{
    let path_eq = match (&a.path, &b.path) {
        (Some(x), Some(y)) => str_eq(x.as_str(), y.as_str()),
        (None, None) => true,
        _ => false,
    };
    if !path_eq {
        proof {
            assert(a@.path != b@.path);
        }
        return false;
    }
    let modified_eq = match (&a.modified, &b.modified) {
        (Some(x), Some(y)) => *x == *y,
        (None, None) => true,
        _ => false,
    };
    if !modified_eq {
        return false;
    }
    if a.debug != b.debug {
        return false;
    }
    if a.deps.len() != b.deps.len() {
        proof {
            assert(a@.deps.len() != b@.deps.len());
        }
        return false;
    }
    let n = a.deps.len();
    let mut i: usize = 0;
    while i < n
        invariant
            0 <= i <= n,
            n == a.deps@.len(),
            n == b.deps@.len(),
            forall|j: int| 0 <= j < i ==> deps_view(a.deps@)[j] == deps_view(b.deps@)[j],
        decreases n - i,
    {
        let ne = str_eq(a.deps[i].0.as_str(), b.deps[i].0.as_str());
        let ve = str_eq(a.deps[i].1.as_str(), b.deps[i].1.as_str());
        if !ne || !ve {
            proof {
                assert(deps_view(a.deps@)[i as int] != deps_view(b.deps@)[i as int]);
            }
            return false;
        }
        i = i + 1;
    }
    proof {
        assert(deps_view(a.deps@) =~= deps_view(b.deps@));
        assert(a@ =~= b@);
    }
    true
}

/// The cache decision: Execute exactly when nothing forces a rebuild, the
/// stored metadata equals the current metadata, and the artifact is a
/// regular file; any failure to load, any field mismatch, a missing
/// artifact, or the force flag yields Compile.
pub fn decide_action(
    force: bool,
    current: &PackageMetadata,
    stored: Option<&PackageMetadata>,
    artifact_is_file: bool,
) -> (a: CacheAction)
    ensures
        a == CacheAction::Execute <==> (!force && (stored matches Some(s) && s@ == current@
            && artifact_is_file)),
        a == CacheAction::Compile <==> !(!force && (stored matches Some(s) && s@ == current@
            && artifact_is_file)),
{
    if force {
        return CacheAction::Compile;
    }
    match stored {
        None => CacheAction::Compile,
        Some(s) => {
            if !metadata_eq(s, current) {
                CacheAction::Compile
            } else if !artifact_is_file {
                CacheAction::Compile
            } else {
                CacheAction::Execute
            }
        },
    }
}

/// The path of a slot's metadata file.
pub fn get_pkg_metadata_path(pkg_path: &str) -> (r: String)
    ensures
        r@ == pkg_path@ + "/metadata.json"@,
{
    pkg_path.to_owned().concat("/metadata.json")
}

/// The cache directory inside the platform's cache root.
pub fn get_cache_path(platform_cache_dir: &str) -> (r: String)
    ensures
        r@ == platform_cache_dir@ + "/script-cache"@,
{
    platform_cache_dir.to_owned().concat("/script-cache")
}

/// Where the built executable for the input lives: under the slot, in the
/// profile's output directory, named by the safe name plus the platform's
/// executable suffix.
pub fn get_exe_path(input: &Input, pkg_path: &str, meta: &PackageMetadata, exe_suffix: &str) -> (r:
    String)
    ensures
        r@ == pkg_path@ + "/target/"@ + (if meta.debug {
            "debug"@
        } else {
            "release"@
        }) + "/"@ + input.spec_safe_name() + exe_suffix@,
{
    let mut p = pkg_path.to_owned();
    p.append("/target/");
    if meta.debug {
        p.append("debug");
    } else {
        p.append("release");
    }
    p.append("/");
    p.append(input.safe_name());
    p.append(exe_suffix);
    p
}

/// For the given input, computes the slot path and the current metadata,
/// and checks the cache: what should be done, where the package lives, and
/// the metadata that a successful build should persist.
pub fn cache_action_for(
    input: &Input,
    force: bool,
    debug: bool,
    deps: Vec<(String, String)>,
    stub: bool,
    cache_path: &str,
    stored: Option<&PackageMetadata>,
    artifact_is_file: bool,
) -> (r: (CacheAction, String, PackageMetadata))
    ensures
        r.1@ == cache_path@ + "/"@ + spec_compute_id(*input, deps@, stub),
        r.2@ == spec_current_metadata(*input, debug, deps@),
        r.0 == CacheAction::Execute <==> (!force && (stored matches Some(s) && s@ == r.2@
            && artifact_is_file)),
{
    let id = input.compute_id(&deps, stub);
    let mut pkg_path = cache_path.to_owned();
    pkg_path.append("/");
    pkg_path.append(id.as_str());
    let meta = current_metadata(input, debug, deps);
    let action = decide_action(force, &meta, stored, artifact_is_file);
    (action, pkg_path, meta)
}

} // verus!
