//! Textual pattern scripts: the source text and where it came from. The
//! script engine that runs a text against a [`crate::pattern::Part`] is an
//! external collaborator; the library only keeps the script itself.

use vstd::prelude::*;

verus! {

/// A pattern script: its source text and, when loaded from a file, the path
/// it was read from.
#[derive(Debug)]
pub struct Script {
    contents: String,
    file_path: Option<String>,
}

impl Script {
    /// The source text of the script.
    pub closed spec fn spec_contents(&self) -> Seq<char> {
        self.contents@
    }

    /// The path the script was loaded from, if any.
    pub closed spec fn spec_path(&self) -> Option<Seq<char>> {
        match self.file_path {
            None => None,
            Some(p) => Some(p@),
        }
    }

    /// Wraps script text with no file path.
    pub fn new(contents: String) -> (r: Script)
        ensures
            r.spec_contents() == contents@,
            r.spec_path() is None,
    {
        Script { contents, file_path: None }
    }

    /// Wraps script text together with the path it was read from.
    pub fn new_with_path(contents: String, file_path: String) -> (r: Script)
        ensures
            r.spec_contents() == contents@,
            r.spec_path() == Some(file_path@),
    {
        Script { contents, file_path: Some(file_path) }
    }

    /// The path the script was loaded from, if any.
    pub fn path(&self) -> (r: Option<&str>)
        ensures
            ({
                match self.spec_path() {
                    None => r is None,
                    Some(p) => r matches Some(s) && s@ == p,
                }
            }),
    {
        match &self.file_path {
            Some(p) => Some(p.as_str()),
            None => None,
        }
    }

    /// Records the path the script belongs to.
    pub fn set_path(&mut self, file_path: String)
        ensures
            final(self).spec_contents() == old(self).spec_contents(),
            final(self).spec_path() == Some(file_path@),
    {
        self.file_path = Some(file_path);
    }

    /// The source text.
    pub fn source(&self) -> (r: &str)
        ensures
            r@ == self.spec_contents(),
    {
        self.contents.as_str()
    }

    /// Mutable access to the source text, for an editor front-end.
    pub fn source_mut(&mut self) -> (r: &mut String)
        ensures
            r@ == old(self).spec_contents(),
            final(self).spec_contents() == final(r)@,
            final(self).spec_path() == old(self).spec_path(),
    {
        &mut self.contents
    }
}

/// The scripting component. Its engine — parsing and running a script
/// against a pattern under construction — belongs to the driving
/// application; the library supplies the builder operations it calls.
pub struct PatternScript;

} // verus!
