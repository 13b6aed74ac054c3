//! The document registry: one [`Document`] per identifier, with the
//! open, change, query and delete routing around the engine.

use vstd::prelude::*;
use vstd::string::StrSliceExecFns;

use crate::document::apply_events_spec;
use crate::document::Document;
use crate::documentparams::ChangeDocument;
use crate::documentparams::ChangeEvent;
use crate::documentparams::OpenDocument;
use crate::documentparams::RawChangeEvent;
use crate::error::DocumentError;
use crate::error::TableOfContentsError;
use crate::lines::split_lines;

verus! {

/// The identifier-to-document map that a registry's entries denote: a
/// later entry for the same identifier wins, though well-formed entry
/// lists never hold two entries for one identifier.
pub open spec fn map_of(entries: Seq<(String, Document)>) -> Map<Seq<char>, Document>
    decreases entries.len(),
{
    if entries.len() == 0 {
        Map::empty()
    } else {
        map_of(entries.drop_last()).insert(entries.last().0@, entries.last().1)
    }
}

/// No two entries name the same document identifier.
pub open spec fn unique_ids(entries: Seq<(String, Document)>) -> bool {
    forall|i: int, j: int|
        0 <= i < j < entries.len() ==> (#[trigger] entries[i]).0@ != (#[trigger] entries[j]).0@
}

/// An identifier is in the denoted map exactly when some entry carries it.
pub proof fn lemma_map_of_contains(entries: Seq<(String, Document)>, key: Seq<char>)
    ensures
        map_of(entries).contains_key(key) <==> (exists|i: int|
            0 <= i < entries.len() && (#[trigger] entries[i]).0@ == key),
    decreases entries.len(),
{
    if entries.len() == 0 {
    } else {
        lemma_map_of_contains(entries.drop_last(), key);
        if entries.last().0@ == key {
            assert((#[trigger] entries[entries.len() - 1]).0@ == key);
        } else {
            assert forall|i: int| 0 <= i < entries.len() && (#[trigger] entries[i]).0@ == key
                implies exists|a: int|
                0 <= a < entries.drop_last().len() && (#[trigger] entries.drop_last()[a]).0@
                    == key by {
                assert(entries.drop_last()[i] == entries[i]);
            }
            assert forall|a: int|
                0 <= a < entries.drop_last().len() && (#[trigger] entries.drop_last()[a]).0@
                    == key implies exists|i: int|
                0 <= i < entries.len() && (#[trigger] entries[i]).0@ == key by {
                assert(entries[a] == entries.drop_last()[a]);
            }
        }
    }
}

/// Dropping the last entry keeps the identifiers unique.
proof fn lemma_unique_drop_last(entries: Seq<(String, Document)>)
    requires
        unique_ids(entries),
        entries.len() > 0,
    ensures
        unique_ids(entries.drop_last()),
{
    assert forall|i: int, j: int| 0 <= i < j < entries.drop_last().len() implies (
    #[trigger] entries.drop_last()[i]).0@ != (#[trigger] entries.drop_last()[j]).0@ by {
        assert(entries.drop_last()[i] == entries[i]);
        assert(entries.drop_last()[j] == entries[j]);
    }
}

/// In a well-formed entry list the denoted map sends each entry's
/// identifier to that entry's document.
pub proof fn lemma_map_of_index(entries: Seq<(String, Document)>, i: int)
    requires
        unique_ids(entries),
        0 <= i < entries.len(),
    ensures
        map_of(entries).contains_key(entries[i].0@),
        map_of(entries)[entries[i].0@] == entries[i].1,
    decreases entries.len(),
{
    if i == entries.len() - 1 {
    } else {
        lemma_unique_drop_last(entries);
        assert(entries.drop_last()[i] == entries[i]);
        lemma_map_of_index(entries.drop_last(), i);
        assert(entries[i].0@ != (#[trigger] entries[entries.len() - 1]).0@);
    }
}

/// The last entry's identifier is new to the rest of a well-formed list.
proof fn lemma_last_id_fresh(entries: Seq<(String, Document)>)
    requires
        unique_ids(entries),
        entries.len() > 0,
    ensures
        !map_of(entries.drop_last()).contains_key(entries.last().0@),
{
    lemma_map_of_contains(entries.drop_last(), entries.last().0@);
    assert forall|i: int| 0 <= i < entries.drop_last().len() implies (
    #[trigger] entries.drop_last()[i]).0@ != entries.last().0@ by {
        assert(entries.drop_last()[i] == entries[i]);
        assert(entries[i].0@ != (#[trigger] entries[entries.len() - 1]).0@);
    }
}

/// A well-formed entry list denotes a finite map with one member per entry.
pub proof fn lemma_map_of_len(entries: Seq<(String, Document)>)
    requires
        unique_ids(entries),
    ensures
        map_of(entries).dom().finite(),
        map_of(entries).len() == entries.len(),
    decreases entries.len(),
{
    if entries.len() == 0 {
        assert(map_of(entries).dom() =~= Set::<Seq<char>>::empty());
    } else {
        lemma_unique_drop_last(entries);
        lemma_map_of_len(entries.drop_last());
        lemma_last_id_fresh(entries);
        assert(map_of(entries).dom() =~= map_of(entries.drop_last()).dom().insert(
            entries.last().0@,
        ));
    }
}

/// Replacing the document of one entry replaces that identifier's image
/// in the denoted map and leaves the rest of the map as it stands.
pub proof fn lemma_map_of_update(entries: Seq<(String, Document)>, i: int, p: (String, Document))
    requires
        unique_ids(entries),
        0 <= i < entries.len(),
        p.0@ == entries[i].0@,
    ensures
        map_of(entries.update(i, p)) == map_of(entries).insert(p.0@, p.1),
    decreases entries.len(),
{
    let k = p.0@;
    if i == entries.len() - 1 {
        assert(entries.update(i, p).drop_last() =~= entries.drop_last());
        assert(entries.update(i, p).last() == p);
        assert(map_of(entries.drop_last()).insert(k, p.1) =~= map_of(entries.drop_last()).insert(
            entries.last().0@,
            entries.last().1,
        ).insert(k, p.1));
    } else {
        let last = entries.last();
        lemma_unique_drop_last(entries);
        assert(entries.drop_last()[i] == entries[i]);
        lemma_map_of_update(entries.drop_last(), i, p);
        assert(entries.update(i, p).drop_last() =~= entries.drop_last().update(i, p));
        assert(entries.update(i, p).last() == last);
        assert(entries[i].0@ != (#[trigger] entries[entries.len() - 1]).0@);
        assert(map_of(entries.drop_last()).insert(k, p.1).insert(last.0@, last.1) =~= map_of(
            entries.drop_last(),
        ).insert(last.0@, last.1).insert(k, p.1));
    }
}

/// Removing one entry removes exactly that identifier from the denoted map.
pub proof fn lemma_map_of_remove(entries: Seq<(String, Document)>, i: int)
    requires
        unique_ids(entries),
        0 <= i < entries.len(),
    ensures
        map_of(entries.remove(i)) == map_of(entries).remove(entries[i].0@),
    decreases entries.len(),
{
    let k = entries[i].0@;
    entries.remove_ensures(i);
    if i == entries.len() - 1 {
        assert(entries.remove(i) =~= entries.drop_last());
        lemma_last_id_fresh(entries);
        assert(map_of(entries.drop_last()).insert(k, entries.last().1).remove(k) =~= map_of(
            entries.drop_last(),
        ));
    } else {
        let last = entries.last();
        lemma_unique_drop_last(entries);
        assert(entries.drop_last()[i] == entries[i]);
        lemma_map_of_remove(entries.drop_last(), i);
        assert(entries.remove(i).drop_last() =~= entries.drop_last().remove(i));
        assert(entries.remove(i).last() == last);
        assert(entries[i].0@ != (#[trigger] entries[entries.len() - 1]).0@);
        assert(map_of(entries.drop_last()).remove(k).insert(last.0@, last.1) =~= map_of(
            entries.drop_last(),
        ).insert(last.0@, last.1).remove(k));
    }
}

/// Character-by-character string equality: true exactly when the two
/// views are the same sequence of characters.
fn str_eq(a: &str, b: &str) -> (r: bool)
    ensures
        r == (a@ == b@),
{
    let n = a.unicode_len();
    let m = b.unicode_len();
    if n != m {
        return false;
    }
    let mut i: usize = 0;
    while i < n
        invariant
            n == a@.len(),
            n == b@.len(),
            i <= n,
            forall|k: int| 0 <= k < i ==> a@[k] == b@[k],
        decreases n - i,
    {
        if a.get_char(i) != b.get_char(i) {
            return false;
        }
        i = i + 1;
    }
    proof {
        assert(a@ =~= b@);
    }
    true
}

/// The registry: the open documents, each entry pairing an identifier
/// with its document. At most one entry exists per identifier.
pub struct TableOfContents {
    documents: Vec<(String, Document)>,
}

impl View for TableOfContents {
    type V = Map<Seq<char>, Document>;

    /// The registry as a map from identifier to document.
    closed spec fn view(&self) -> Map<Seq<char>, Document> {
        map_of(self.documents@)
    }
}

impl TableOfContents {
    /// The structural invariant: no identifier is listed twice.
    pub closed spec fn well_formed(&self) -> bool {
        unique_ids(self.documents@)
    }

    /// An empty registry.
    pub fn new() -> (r: TableOfContents)
        ensures
            r.well_formed(),
            r@ == Map::<Seq<char>, Document>::empty(),
    {
        TableOfContents { documents: Vec::new() }
    }

    /// How many documents are open.
    pub fn document_count(&self) -> (n: usize)
        requires
            self.well_formed(),
        ensures
            n == self@.len(),
    {
        proof {
            lemma_map_of_len(self.documents@);
        }
        self.documents.len()
    }

    /// The index of the entry that carries `uri`, if one does.
    fn find_index(&self, uri: &str) -> (r: Option<usize>)
        ensures
            (match r {
                Some(i) => i < self.documents@.len() && self.documents@[i as int].0@ == uri@,
                None => forall|i: int|
                    0 <= i < self.documents@.len() ==> (#[trigger] self.documents@[i]).0@ != uri@,
            }),
    {
        let mut i: usize = 0;
        while i < self.documents.len()
            invariant
                i <= self.documents@.len(),
                forall|k: int| 0 <= k < i ==> (#[trigger] self.documents@[k]).0@ != uri@,
            decreases self.documents@.len() - i,
        {
            if str_eq(self.documents[i].0.as_str(), uri) {
                return Some(i);
            }
            i = i + 1;
        }
        None
    }

    /// Opens the document named `uri`: a fresh document is built from
    /// the full text of `params` at the supplied version, inserted under
    /// `uri`, and any prior entry for `uri` is replaced. Never fails.
    pub fn did_open_document(&mut self, uri: String, params: OpenDocument, version: i32) -> (r:
        Result<(), TableOfContentsError>)
        requires
            old(self).well_formed(),
        ensures
            final(self).well_formed(),
            r is Ok,
            final(self)@.contains_key(uri@),
            final(self)@[uri@].version == version,
            final(self)@[uri@].rows() == split_lines(params.text@),
            final(self)@ == old(self)@.insert(uri@, final(self)@[uri@]),
    {
        let mut doc = Document::from_text(params.text.as_str());
        doc.version = version;
        let ghost entries = self.documents@;
        match self.find_index(uri.as_str()) {
            Some(i) => {
                let ghost p = (uri, doc);
                proof {
                    lemma_map_of_update(entries, i as int, p);
                    assert forall|a: int, b: int| 0 <= a < b < entries.update(i as int, p).len()
                        implies (#[trigger] entries.update(i as int, p)[a]).0@ != (
                    #[trigger] entries.update(i as int, p)[b]).0@ by {
                        assert((#[trigger] entries[a]).0@ != (#[trigger] entries[b]).0@);
                    }
                }
                self.documents[i] = (uri, doc);
            },
            None => {
                proof {
                    lemma_map_of_contains(entries, uri@);
                    assert forall|a: int, b: int|
                        0 <= a < b < entries.push((uri, doc)).len() implies (
                    #[trigger] entries.push((uri, doc))[a]).0@ != (#[trigger] entries.push(
                        (uri, doc),
                    )[b]).0@ by {
                        if b < entries.len() {
                            assert((#[trigger] entries[a]).0@ != (#[trigger] entries[b]).0@);
                        } else {
                            assert(entries.push((uri, doc))[a] == entries[a]);
                        }
                    }
                    assert(entries.push((uri, doc)).drop_last() =~= entries);
                }
                self.documents.push((uri, doc));
            },
        }
        Ok(())
    }

    /// Applies a change request to the document named `uri`. Fails with
    /// `ChangeOnUnopen`, touching nothing, when no such document is open.
    /// Otherwise the document's version becomes `version` first,
    /// unconditionally; then the raw events are validated (a missing
    /// range fails the request as deprecated, leaving the rows as they
    /// stand) and applied in order, and any edit error is wrapped and
    /// returned. Other documents are never touched.
    pub fn did_change_document(&mut self, uri: &str, version: i32, events: Vec<RawChangeEvent>)
        -> (r: Result<(), TableOfContentsError>)
        requires
            old(self).well_formed(),
        ensures
            final(self).well_formed(),
            !old(self)@.contains_key(uri@) ==> (r == Err::<(), TableOfContentsError>(
                TableOfContentsError::ChangeOnUnopen,
            ) && final(self)@ == old(self)@),
            old(self)@.contains_key(uri@) ==> ({
                let doc0 = old(self)@[uri@];
                &&& final(self)@.contains_key(uri@)
                &&& final(self)@ == old(self)@.insert(uri@, final(self)@[uri@])
                &&& final(self)@[uri@].version == version
                &&& if (forall|i: int|
                    0 <= i < events@.len() ==> (#[trigger] events@[i].range) is Some) {
                    let evs = events@.map_values(
                        |ev: RawChangeEvent| (ChangeEvent { range: ev.range.unwrap(), text: ev.text }),
                    );
                    let (rows, err) = apply_events_spec(doc0.rows(), evs);
                    &&& final(self)@[uri@].rows() == rows
                    &&& (match err {
                        None => r is Ok,
                        Some(e) => r == Err::<(), TableOfContentsError>(
                            TableOfContentsError::DocumentError(e),
                        ),
                    })
                } else {
                    &&& final(self)@[uri@].rows() == doc0.rows()
                    &&& (r matches Err(TableOfContentsError::DocumentError(
                        DocumentError::Deprecated(_),
                    )))
                }
            }),
    {
        let ghost entries = self.documents@;
        match self.find_index(uri) {
            None => {
                proof {
                    lemma_map_of_contains(entries, uri@);
                }
                Err(TableOfContentsError::ChangeOnUnopen)
            },
            Some(i) => {
                proof {
                    lemma_map_of_index(entries, i as int);
                }
                let mut entry = self.documents.remove(i);
                entry.1.version = version;
                let res: Result<(), DocumentError> = match ChangeDocument::from_raw_events(
                    events,
                ) {
                    Err(e) => Err(e),
                    Ok(cd) => {
                        proof {
                            assert(cd.content_changes@ =~= events@.map_values(
                                |ev: RawChangeEvent| (ChangeEvent {
                                    range: ev.range.unwrap(),
                                    text: ev.text,
                                }),
                            ));
                        }
                        entry.1.change_document(cd)
                    },
                };
                let ghost p = entry;
                self.documents.insert(i, entry);
                proof {
                    assert(self.documents@ =~= entries.update(i as int, p));
                    lemma_map_of_update(entries, i as int, p);
                    assert forall|a: int, b: int| 0 <= a < b < entries.update(i as int, p).len()
                        implies (#[trigger] entries.update(i as int, p)[a]).0@ != (
                    #[trigger] entries.update(i as int, p)[b]).0@ by {
                        assert((#[trigger] entries[a]).0@ != (#[trigger] entries[b]).0@);
                    }
                }
                match res {
                    Ok(_) => Ok(()),
                    Err(e) => Err(TableOfContentsError::DocumentError(e)),
                }
            },
        }
    }

    /// The rows of the document named `uri`, row index order, or nothing
    /// when no such document is open. Never mutates the registry.
    pub fn get_document(&self, uri: &str) -> (r: Option<&Vec<String>>)
        requires
            self.well_formed(),
        ensures
            (match r {
                Some(content) => self@.contains_key(uri@) && content@ == self@[uri@].content@,
                None => !self@.contains_key(uri@),
            }),
    {
        match self.find_index(uri) {
            Some(i) => {
                proof {
                    lemma_map_of_index(self.documents@, i as int);
                }
                Some(&self.documents[i].1.content)
            },
            None => {
                proof {
                    lemma_map_of_contains(self.documents@, uri@);
                }
                None
            },
        }
    }

    /// Removes the document named `uri` and hands it back, or reports
    /// its absence; absence is not an error.
    pub fn delete_document(&mut self, uri: &str) -> (r: Option<Document>)
        requires
            old(self).well_formed(),
        ensures
            final(self).well_formed(),
            !old(self)@.contains_key(uri@) ==> (r is None && final(self)@ == old(self)@),
            old(self)@.contains_key(uri@) ==> (r == Some(old(self)@[uri@]) && final(self)@ == old(
                self,
            )@.remove(uri@)),
    {
        let ghost entries = self.documents@;
        match self.find_index(uri) {
            Some(i) => {
                proof {
                    lemma_map_of_index(entries, i as int);
                    lemma_map_of_remove(entries, i as int);
                    entries.remove_ensures(i as int);
                    assert forall|a: int, b: int| 0 <= a < b < entries.remove(i as int).len()
                        implies (#[trigger] entries.remove(i as int)[a]).0@ != (
                    #[trigger] entries.remove(i as int)[b]).0@ by {
                        let a0 = if a < i { a } else { a + 1 };
                        let b0 = if b < i { b } else { b + 1 };
                        assert(entries.remove(i as int)[a] == entries[a0]);
                        assert(entries.remove(i as int)[b] == entries[b0]);
                        assert((#[trigger] entries[a0]).0@ != (#[trigger] entries[b0]).0@);
                    }
                }
                let entry = self.documents.remove(i);
                Some(entry.1)
            },
            None => {
                proof {
                    lemma_map_of_contains(entries, uri@);
                }
                None
            },
        }
    }
}

} // verus!
