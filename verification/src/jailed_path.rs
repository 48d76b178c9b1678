//! A path that a jail has validated.

use crate::path::{absolute_string, absolute_text, all_names, is_absolute, names, texts};
use crate::path::lemma_names_of_absolute_text;
use vstd::prelude::*;

verus! {

/// A path verified to lie inside a [`Jail`](crate::Jail).
///
/// Only a jail makes one, so a function that takes a `JailedPath` cannot be
/// handed a path that nobody checked. The path is kept as the names it
/// passes through and as text; two paths are equal, and ordered, as their
/// names are.
#[derive(Debug, PartialEq, Eq, PartialOrd, Ord, Hash)]
pub struct JailedPath {
    names: Vec<String>,
    inner: String,
}

impl View for JailedPath {
    type V = Seq<char>;

    /// The text of the path.
    closed spec fn view(&self) -> Seq<char> {
        self.inner@
    }
}

impl Clone for JailedPath {
    fn clone(&self) -> (copy: JailedPath)
        ensures
            copy@ == self@,
    {
        proof {
            use_type_invariant(self);
        }
        let names = self.names.clone();
        assert(texts(names@) =~= texts(self.names@));
        JailedPath { names, inner: self.inner.clone() }
    }
}

impl JailedPath {
    #[verifier::type_invariant]
    spec fn well_formed(self) -> bool {
        all_names(texts(self.names@)) && self.inner@ == absolute_text(texts(self.names@))
    }

    /// Wraps a place that a jail has resolved.
    pub(crate) fn new(names: Vec<String>) -> (jailed: JailedPath)
        requires
            all_names(texts(names@)),
        ensures
            jailed@ == absolute_text(texts(names@)),
    {
        let inner = absolute_string(&names);
        JailedPath { names, inner }
    }

    /// Gives up the wrapper and returns the path: an absolute path in normal
    /// form, which reads back as the names it was written from.
    pub fn into_inner(self) -> (path: String)
        ensures
            path@ == self@,
            is_absolute(path@),
            path@ == absolute_text(names(path@)),
    {
        proof {
            use_type_invariant(&self);
            lemma_names_of_absolute_text(texts(self.names@));
        }
        self.inner
    }

    /// The path, borrowed.
    pub fn as_path(&self) -> (path: &str)
        ensures
            path@ == self@,
            is_absolute(path@),
            path@ == absolute_text(names(path@)),
    {
        proof {
            use_type_invariant(self);
            lemma_names_of_absolute_text(texts(self.names@));
        }
        self.inner.as_str()
    }
}

} // verus!
