//! Languages, as far as running code in them is concerned.
use vstd::prelude::*;

use crate::text::same_text;

verus! {

/// The name of a language.
#[derive(Debug)]
pub struct LanguageName(pub String);

impl Clone for LanguageName {
    fn clone(&self) -> (r: Self)
        ensures
            r == *self,
    {
        LanguageName(self.0.clone())
    }
}

/// A language that a buffer, or a part of it, is written in.
#[derive(Debug)]
pub struct Language {
    /// Two languages are the same language when they have the same number.
    pub id: u64,
    pub name: LanguageName,
    /// What a line comment can start with.
    pub line_comment_prefixes: Vec<String>,
    /// The language names of the kernels that run this language.
    pub kernel_languages: Vec<String>,
}

impl Language {
    /// Whether a kernel for `kernel_language` runs this language.
    pub open spec fn runs_on(self, kernel_language: Seq<char>) -> bool {
        exists|i: int|
            0 <= i < self.kernel_languages@.len() && #[trigger] self.kernel_languages@[i]@
                == kernel_language
    }

    /// The name of the language.
    pub fn name(&self) -> (r: LanguageName)
        ensures
            r == self.name,
    {
        self.name.clone()
    }

    /// Whether the language has the given name.
    pub fn is_named(&self, name: &str) -> (r: bool)
        ensures
            r == (self.name.0@ == name@),
    {
        same_text(&self.name.0, name)
    }

    /// Whether the two are the same language.
    pub fn same_as(&self, other: &Language) -> (r: bool)
        ensures
            r == (self.id == other.id),
    {
        self.id == other.id
    }

    /// Whether a kernel for `kernel_language` runs this language.
    pub fn matches_kernel_language(&self, kernel_language: &str) -> (r: bool)
        ensures
            r == self.runs_on(kernel_language@),
    {
        let mut i: usize = 0;
        while i < self.kernel_languages.len()
            invariant
                i <= self.kernel_languages@.len(),
                forall|k: int| 0 <= k < i ==> self.kernel_languages@[k]@ != kernel_language@,
            decreases self.kernel_languages@.len() - i,
        {
            if same_text(&self.kernel_languages[i], kernel_language) {
                return true;
            }
            i += 1;
        }
        false
    }
}

} // verus!
