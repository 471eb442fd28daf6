//! Where a pack's documents come from.
use vstd::prelude::*;

verus! {

/// Why an asset or the list of documents could not be read.
#[derive(Debug)]
pub struct LoadError {
    pub message: String,
}

/// Access to the files of a pack: the bytes of one asset, and the names of all
/// files with a given extension. Implemented by whoever knows where the pack
/// lives. A loader may say, through `gives_asset` and `lists_files`, which
/// answers it gives; one that does not define them allows any answer. The
/// library states what it asks for and reads through these relations.
pub trait PackLoaderContext {
    /// Whether `answer` (the bytes, or the error's message) is one this
    /// loader may give when asked for the asset `name`.
    closed spec fn gives_asset(&self, name: Seq<char>, answer: Result<Seq<u8>, Seq<char>>) -> bool {
        true
    }

    /// Whether `answer` (the names, or the error's message) is one this
    /// loader may give when asked for the files with extension `ext`.
    closed spec fn lists_files(&self, ext: Seq<char>, answer: Result<Seq<Seq<char>>, Seq<char>>) -> bool {
        true
    }

    fn load_asset(&self, name: &str) -> (r: Result<Vec<u8>, LoadError>)
        ensures
            self.gives_asset(name@, asset_answer(r)),
    ;

    fn all_files_with_ext(&self, ext: &str) -> (r: Result<Vec<String>, LoadError>)
        ensures
            self.lists_files(ext@, listing_answer(r)),
    ;
}

/// A loader's answer for an asset: the bytes, or the error's message.
pub open spec fn asset_answer(r: Result<Vec<u8>, LoadError>) -> Result<Seq<u8>, Seq<char>> {
    match r {
        Ok(bytes) => Ok(bytes@),
        Err(e) => Err(e.message@),
    }
}

/// A loader's answer for a listing: the names, or the error's message.
pub open spec fn listing_answer(r: Result<Vec<String>, LoadError>) -> Result<Seq<Seq<char>>, Seq<char>> {
    match r {
        Ok(names) => Ok(names@.map_values(|n: String| n@)),
        Err(e) => Err(e.message@),
    }
}

/// A pack that lives in a directory; `root` is the directory's path.
pub struct DirectoryLoader {
    root: String,
}

impl DirectoryLoader {
    pub closed spec fn root_path(&self) -> Seq<char> {
        self.root@
    }

    pub fn new(root: String) -> (r: DirectoryLoader)
        ensures
            r.root_path() == root@,
    {
        DirectoryLoader { root }
    }

    /// The directory's path.
    pub fn root(&self) -> (r: &String)
        ensures
            r@ == self.root_path(),
    {
        &self.root
    }
}

} // verus!
