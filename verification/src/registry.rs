//! Grammar registry: owns the loaded native grammar modules for the
//! process lifetime and maps language names to grammar handles.

use vstd::prelude::*;

use crate::text::bytes_eq;

verus! {

#[verifier::external_type_specification]
#[verifier::external_body]
pub struct ExLibrary(libloading::Library);

#[verifier::external_type_specification]
#[verifier::external_body]
pub struct ExLanguageFn(tree_sitter_language::LanguageFn);

/// One loaded grammar: the native module it came from, kept alive as
/// long as the handle may be used, and the grammar constructor resolved
/// from it.
pub struct GrammarHandle {
    pub library: libloading::Library,
    pub language_fn: tree_sitter_language::LanguageFn,
}

/// The registry of loaded grammars, keyed by language name; built once
/// at startup and never mutated afterwards.
pub struct Registry {
    entries: Vec<(Vec<u8>, GrammarHandle)>,
}

impl Registry {
    /// The language names the registry holds, in insertion order.
    pub closed spec fn names(self) -> Seq<Seq<u8>> {
        self.entries@.map_values(|e: (Vec<u8>, GrammarHandle)| e.0@)
    }

    /// A grammar is loaded for this language name.
    pub open spec fn has_grammar(self, name: Seq<u8>) -> bool {
        exists|i: int| 0 <= i < self.names().len() && self.names()[i] == name
    }

    /// An empty registry.
    pub fn new() -> (r: Registry)
        ensures
            r.names() == Seq::<Seq<u8>>::empty(),
    {
        let r = Registry { entries: Vec::new() };
        proof {
            assert(r.names() =~= Seq::<Seq<u8>>::empty());
        }
        r
    }

    /// Stores a loaded grammar under a language name.
    pub fn add(&mut self, name: Vec<u8>, handle: GrammarHandle)
        ensures
            final(self).names() == old(self).names().push(name@),
    {
        let ghost prev = self.entries@;
        self.entries.push((name, handle));
        proof {
            assert(self.entries@ == prev.push((name, handle)));
            assert(forall|i: int| 0 <= i < prev.len()
                ==> self.names()[i] == old(self).names()[i]);
            assert(self.names()[prev.len() as int] == name@);
            assert(self.names() =~= old(self).names().push(name@));
        }
    }

    /// Looks a language name up, yielding its grammar handle if one was
    /// loaded.
    pub fn find(&self, name: &Vec<u8>) -> (r: Option<&GrammarHandle>)
        ensures
            r is Some <==> self.has_grammar(name@),
    {
        let mut i: usize = 0;
        while i < self.entries.len()
            invariant
                i <= self.entries@.len(),
                forall|j: int| 0 <= j < i ==> self.entries@[j].0@ != name@,
            decreases self.entries@.len() - i,
        {
            if bytes_eq(&self.entries[i].0, name) {
                proof {
                    assert(self.names()[i as int] == name@);
                }
                return Some(&self.entries[i].1);
            }
            i += 1;
        }
        proof {
            assert(forall|j: int| 0 <= j < self.names().len()
                ==> self.names()[j] == self.entries@[j].0@);
        }
        None
    }
}

} // verus!
