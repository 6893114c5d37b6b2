use vstd::prelude::*;

verus! {

/// One directory entry the crawler saw: its path, and its name normalized
/// to a document reference.
#[derive(Debug)]
pub struct FileMetadata {
    pub path: String,
    pub name: String,
}

impl FileMetadata {
    pub fn new(path: &str, name: &str) -> (r: Self)
        ensures
            r.path@ == path@,
            r.name@ == name@,
    {
        FileMetadata { path: path.to_owned(), name: name.to_owned() }
    }

    pub fn path(&self) -> (r: &str)
        ensures
            r@ == self.path@,
    {
        self.path.as_str()
    }

    pub fn name(&self) -> (r: &str)
        ensures
            r@ == self.name@,
    {
        self.name.as_str()
    }
}

/// A directory of workflow documents, as a path.
#[derive(Debug, PartialEq, Eq)]
pub struct File {
    pub path: String,
}

impl Clone for File {
    fn clone(&self) -> (r: Self)
        ensures
            r.path@ == self.path@,
    {
        File { path: self.path.clone() }
    }
}

impl File {
    pub fn new(path: &str) -> (r: Self)
        ensures
            r.path@ == path@,
    {
        File { path: path.to_owned() }
    }

    pub fn path(&self) -> (r: &str)
        ensures
            r@ == self.path@,
    {
        self.path.as_str()
    }
}

} // verus!
