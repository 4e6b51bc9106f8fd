//! Bookkeeping for mounted archive containers. The mounting itself — the
//! external helper, the mount directories — is I/O and lives with the
//! program around the library; the registry of what is mounted, and the
//! path arithmetic, are here.

use vstd::prelude::*;
use vstd::string::StringExecFns;

verus! {

/// The names of the archives mounted so far, each at most once.
pub struct ZipMountList {
    pub mounts: Vec<String>,
}

impl ZipMountList {
    /// The name is registered.
    pub open spec fn spec_is_mounted(self, name: Seq<char>) -> bool {
        exists|i: int| 0 <= i < self.mounts.len() && self.mounts[i]@ == name
    }

    pub fn new() -> (z: ZipMountList)
        ensures
            z.mounts.len() == 0,
    {
        ZipMountList { mounts: Vec::new() }
    }

    /// Whether an archive of this name has been registered.
    pub fn is_mounted(&self, filename: &str) -> (b: bool)
        ensures
            b == self.spec_is_mounted(filename@),
    {
        let f = filename.to_owned();
        let mut i: usize = 0;
        while i < self.mounts.len()
            invariant
                i <= self.mounts.len(),
                f@ == filename@,
                forall|j: int| 0 <= j < i ==> self.mounts[j]@ != filename@,
            decreases self.mounts.len() - i,
        {
            if self.mounts[i].eq(&f) {
                return true;
            }
            i = i + 1;
        }
        false
    }

    /// Register an archive name; registering a name a second time changes
    /// nothing.
    pub fn register(&mut self, filename: &str)
        ensures
            final(self).spec_is_mounted(filename@),
            forall|n: Seq<char>| old(self).spec_is_mounted(n) ==> final(self).spec_is_mounted(n),
            forall|n: Seq<char>| final(self).spec_is_mounted(n)
                ==> old(self).spec_is_mounted(n) || n == filename@,
            old(self).spec_is_mounted(filename@) ==> final(self).mounts@ == old(self).mounts@,
    {
        if self.is_mounted(filename) {
            return;
        }
        let ghost pre = self.mounts@;
        self.mounts.push(filename.to_owned());
        proof {
            assert(self.mounts[pre.len() as int]@ == filename@);
            assert forall|n: Seq<char>| old(self).spec_is_mounted(n)
                implies self.spec_is_mounted(n) by {
                let i = choose|i: int| 0 <= i < pre.len() && pre[i]@ == n;
                assert(self.mounts[i]@ == n);
            }
        }
    }

    /// Forget every registration, after the surroundings have unmounted
    /// the archives.
    pub fn clear(&mut self)
        ensures
            final(self).mounts.len() == 0,
    {
        self.mounts = Vec::new();
    }
}

/// One mounted archive: its name and the pseudo-directory its contents
/// are viewed under.
pub struct ZipMount {
    pub filename: String,
    pub directory: String,
}

impl ZipMount {
    /// The paths belonging to an archive name: its directory view is the
    /// name with `.dir/` appended.
    pub fn paths_for(filename: &str) -> (z: ZipMount)
        ensures
            z.filename@ == filename@,
            z.directory@ == filename@ + ".dir/"@,
    {
        let directory = filename.to_owned().concat(".dir/");
        ZipMount { filename: filename.to_owned(), directory }
    }
}

} // verus!
