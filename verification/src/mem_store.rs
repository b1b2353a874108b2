//! A key store over an in-memory text buffer.
//!
//! The buffer holds exactly what a durable medium would: the line-formatted
//! text. Reading parses it, writing replaces it wholesale, so every store
//! behaviour — including format failures — can be exercised without any
//! medium at all. An embedding application can also use it as the in-memory
//! half of a file-backed store: load the file into the buffer, run the
//! manager, write the buffer back.

use vstd::prelude::*;

use crate::codec::{format_keys, lemma_round_trip, parse_content, parse_keys, render, FileParse};
use crate::commons::{all_valid, key_views, KeyMaterial, KeyModel, KeyStore, KeyStoreError};

verus! {

pub struct MemKeyStore {
    text: String,
}

/// The records a text carries, where it parses; nothing otherwise.
pub open spec fn parsed_records(text: Seq<char>) -> Seq<KeyModel> {
    match parse_content(text) {
        FileParse::Records(ks) => ks,
        _ => Seq::empty(),
    }
}

impl MemKeyStore {
    pub closed spec fn spec_text(&self) -> Seq<char> {
        self.text@
    }

    /// An empty store: no text, no records.
    pub fn new() -> (s: Self)
        ensures
            s.spec_text() == Seq::<char>::empty(),
            s.contents() == Seq::<KeyModel>::empty(),
    {
        let s = MemKeyStore { text: String::new() };
        proof {
            lemma_round_trip(Seq::<KeyModel>::empty());
        }
        s
    }

    /// A store holding this text, well-formed or not.
    pub fn from_text(text: String) -> (s: Self)
        ensures
            s.spec_text() == text@,
    {
        MemKeyStore { text }
    }

    /// The buffered text, exactly as a medium would persist it.
    pub fn text(&self) -> (t: &String)
        ensures
            t@ == self.spec_text(),
    {
        &self.text
    }
}

impl KeyStore for MemKeyStore {
    open spec fn contents(&self) -> Seq<KeyModel> {
        parsed_records(self.spec_text())
    }

    /// Reading is pure parsing, so its outcome is fully determined by the
    /// buffered text: it succeeds exactly when the text matches the line
    /// grammar, and fails with the error kind the grammar assigns.
    fn read_keys(&self) -> (r: Result<Vec<KeyMaterial>, KeyStoreError>)
        ensures
            parse_content(self.spec_text()) matches FileParse::Records(ks) ==> r matches Ok(v)
                && key_views(v@) == ks,
            parse_content(self.spec_text()) matches FileParse::BadLine(m) ==> r matches Err(e)
                && e is InvalidFormat,
            parse_content(self.spec_text()) matches FileParse::BigStamp(m) ==> r matches Err(e)
                && e is Parse,
    {
        parse_keys(self.text.as_str())
    }

    /// Writing into the buffer cannot fail, and leaves exactly the rendered
    /// text behind.
    fn write_keys(&mut self, keys: &[KeyMaterial]) -> (r: Result<(), KeyStoreError>)
        ensures
            r is Ok,
            final (self).spec_text() == render(key_views(keys@)),
    {
        self.text = format_keys(keys);
        proof {
            if all_valid(key_views(keys@)) {
                lemma_round_trip(key_views(keys@));
            }
        }
        Ok(())
    }
}

} // verus!
