use vstd::prelude::*;

pub mod editor;
pub mod idmap;
pub mod memfs;
pub mod numtext;
pub mod ops;
pub mod paths;

verus! {

/// Paths collected from the command line, split into plain files and
/// directories that were listed for later renaming.
pub struct Parsed {
    pub files: Vec<String>,
    pub dirs: Vec<String>,
}

impl Parsed {
    /// All collected paths in listing order: files first, then directories.
    pub fn all(&self) -> (r: Vec<String>)
        ensures
            r@ == self.files@ + self.dirs@,
    {
        let mut out: Vec<String> = Vec::new();
        let mut i: usize = 0;
        while i < self.files.len()
            invariant
                i <= self.files.len(),
                out@ == self.files@.take(i as int),
            decreases self.files.len() - i,
        {
            out.push(self.files[i].clone());
            i = i + 1;
        }
        let mut j: usize = 0;
        while j < self.dirs.len()
            invariant
                j <= self.dirs.len(),
                out@ == self.files@ + self.dirs@.take(j as int),
            decreases self.dirs.len() - j,
        {
            out.push(self.dirs[j].clone());
            j = j + 1;
        }
        proof {
            assert(out@ =~= self.files@ + self.dirs@);
        }
        out
    }
}

} // verus!
