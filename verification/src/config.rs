//! Explicit configuration: the application's directory layout under a
//! caller-supplied base directory, passed into the components that need it
//! rather than resolved from the environment inside the library.

use vstd::prelude::*;
use vstd::string::StringExecFns;
use crate::version::{Version, spec_rank};
use crate::Error;

verus! {

/// The stable paths of one run: every path of the application lives under
/// `base/.phpdownloader`. The caller (which read the environment) supplies
/// `base` and creates the directories on demand.
pub struct Config {
    pub base: String,
}

/// The application directory under the base directory.
pub open spec fn spec_app_path(base: Seq<char>) -> Seq<char> {
    base + "/.phpdownloader"@
}

impl Config {
    pub fn new(base: &str) -> (r: Self)
        ensures
            r.base@ == base@,
    {
        Config { base: String::from_str(base) }
    }

    /// The artifact cache directory.
    pub fn registry_path(&self) -> (r: String)
        ensures
            r@ == spec_app_path(self.base@) + "/tarballs"@,
    {
        let mut out = self.base.clone();
        out.append("/.phpdownloader");
        out.append("/tarballs");
        out
    }

    /// The hooks directory.
    pub fn hooks_path(&self) -> (r: String)
        ensures
            r@ == spec_app_path(self.base@) + "/hooks"@,
    {
        let mut out = self.base.clone();
        out.append("/.phpdownloader");
        out.append("/hooks");
        out
    }

    /// The cached list of active upstream versions.
    pub fn active_version_file(&self) -> (r: String)
        ensures
            r@ == spec_app_path(self.base@) + "/active.json"@,
    {
        let mut out = self.base.clone();
        out.append("/.phpdownloader");
        out.append("/active.json");
        out
    }

    /// The name of the manifest sidecar file written inside a build root.
    pub fn manifest_file_name() -> (r: &'static str)
        ensures
            r@ == ".phpdownloader-manifest"@,
    {
        ".phpdownloader-manifest"
    }

    /// How long the cached list of active versions stays fresh, in seconds.
    pub fn active_version_lifespan() -> (r: u64)
        ensures
            r == 60 * 60 * 24 * 7,
    {
        604800
    }

    /// Whether a cached version list written at `modified` is still fresh at
    /// `now` (both in seconds since the Unix epoch).
    pub fn have_versions(modified: u64, age_limit: u64, now: u64) -> (r: bool)
        ensures
            r == (modified + age_limit > now),
    {
        modified as u128 + age_limit as u128 > now as u128
    }

    /// The newest of the known active releases; fails exactly when none are
    /// known.
    pub fn active_version(versions: &Vec<Version>) -> (r: Result<Version, Error>)
        ensures
            r is Err <==> versions@.len() == 0,
            r is Err ==> r == Err::<Version, Error>(Error::NotFound),
            r matches Ok(v) ==> versions@.contains(v) && (forall|i: int|
                0 <= i < versions@.len() ==> spec_rank(#[trigger] versions@[i]) <= spec_rank(v)),
    {
        if versions.len() == 0 {
            return Err(Error::NotFound);
        }
        let mut m: usize = 0;
        let mut k: usize = 1;
        while k < versions.len()
            invariant
                m < versions@.len(),
                k <= versions@.len(),
                forall|i: int|
                    0 <= i < k ==> spec_rank(#[trigger] versions@[i]) <= spec_rank(
                        versions@[m as int],
                    ),
            decreases versions@.len() - k,
        {
            if versions[m].rank() < versions[k].rank() {
                m = k;
            }
            k += 1;
        }
        Ok(versions[m])
    }
}

} // verus!
