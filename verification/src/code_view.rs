//! The state behind a code-editor view: the text being edited. Drawing it
//! belongs to the GUI.

use vstd::prelude::*;

verus! {

/// The text shown in a code editor.
#[derive(Debug)]
pub struct CodeView {
    pub code: String,
}

impl CodeView {
    /// Replaces the text being edited.
    pub fn load_code(&mut self, code: &str)
        ensures
            final(self).code@ == code@,
    {
        self.code = code.to_owned();
    }
}

impl Default for CodeView {
    /// An empty editor.
    fn default() -> (r: Self)
        ensures
            r.code@.len() == 0,
    {
        CodeView { code: String::new() }
    }
}

} // verus!
