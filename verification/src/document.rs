//! The nested document that one row is folded into.

use vstd::prelude::*;

verus! {

/// The mathematical value of a document: a text, a mapping from keys to
/// values, or a sequence of values.
pub enum Tree {
    Scalar(Seq<char>),
    Mapping(Map<Seq<char>, Tree>),
    Sequence(Seq<Tree>),
}

/// One entry of a mapping.
#[derive(Debug, PartialEq, Eq)]
pub struct Entry {
    pub key: String,
    pub value: Document,
}

/// A document under construction or handed to the caller.
///
/// A mapping keeps its entries in the order in which they were first set.
/// The order carries no meaning: the value of a mapping is a [`Map`], and a
/// well-formed mapping holds each key once.
#[derive(Debug, PartialEq, Eq)]
pub enum Document {
    Scalar(String),
    Mapping(Vec<Entry>),
    Sequence(Vec<Document>),
}

/// Whether one of the entries has this key.
pub open spec fn has_key(entries: Seq<Entry>, key: Seq<char>) -> bool {
    exists|i: int| 0 <= i < entries.len() && #[trigger] entries[i].key@ == key
}

/// The index of an entry with this key, if there is one.
pub open spec fn key_index(entries: Seq<Entry>, key: Seq<char>) -> int {
    choose|i: int| 0 <= i < entries.len() && #[trigger] entries[i].key@ == key
}

/// No two entries share a key.
pub open spec fn distinct_keys(entries: Seq<Entry>) -> bool {
    forall|i: int, j: int|
        0 <= i < j < entries.len() ==> #[trigger] entries[i].key@ != #[trigger] entries[j].key@
}

impl View for Document {
    type V = Tree;

    open spec fn view(&self) -> Tree
        decreases self,
    {
        match self {
            Document::Scalar(text) => Tree::Scalar(text@),
            Document::Mapping(entries) => Tree::Mapping(
                Map::new(
                    |key: Seq<char>| has_key(entries@, key),
                    |key: Seq<char>|
                        {
                            let i = key_index(entries@, key);
                            if 0 <= i < entries@.len() {
                                entries@[i].value.view()
                            } else {
                                Tree::Scalar(Seq::empty())
                            }
                        },
                ),
            ),
            Document::Sequence(items) => Tree::Sequence(
                Seq::new(
                    items@.len(),
                    |i: int|
                        if 0 <= i < items@.len() {
                            items@[i].view()
                        } else {
                            Tree::Scalar(Seq::empty())
                        },
                ),
            ),
        }
    }
}

impl Document {
    /// A text.
    pub fn text(value: &str) -> (document: Document)
        ensures
            document@ == Tree::Scalar(value@),
            document.well_formed(),
    {
        Document::Scalar(value.to_owned())
    }

    /// A mapping without entries.
    pub fn mapping() -> (document: Document)
        ensures
            document@ == Tree::Mapping(Map::empty()),
            document.well_formed(),
    {
        let document = Document::Mapping(Vec::new());
        assert(document@->Mapping_0 =~= Map::empty());
        document
    }

    /// A sequence without elements.
    pub fn sequence() -> (document: Document)
        ensures
            document@ == Tree::Sequence(Seq::empty()),
            document.well_formed(),
    {
        let document = Document::Sequence(Vec::new());
        assert(document@->Sequence_0 =~= Seq::empty());
        document
    }

    /// Every mapping inside the document holds each of its keys once.
    pub open spec fn well_formed(&self) -> bool
        decreases self,
    {
        match self {
            Document::Scalar(_) => true,
            Document::Mapping(entries) => {
                &&& distinct_keys(entries@)
                &&& forall|i: int|
                    0 <= i < entries@.len() ==> (#[trigger] entries@[i]).value.well_formed()
            },
            Document::Sequence(items) => {
                forall|i: int| 0 <= i < items@.len() ==> (#[trigger] items@[i]).well_formed()
            },
        }
    }
}

/// The values of a run of documents.
pub open spec fn document_values(documents: Seq<Document>) -> Seq<Tree> {
    Seq::new(documents.len(), |i: int| documents[i]@)
}

/// A mapping with distinct keys maps the key of each entry to the value of
/// that entry, and nothing else.
pub(crate) proof fn lemma_mapping_entries(entries: Vec<Entry>)
    requires
        distinct_keys(entries@),
    ensures
        Document::Mapping(entries)@ is Mapping,
        forall|key: Seq<char>|
            Document::Mapping(entries)@->Mapping_0.contains_key(key) <==> has_key(entries@, key),
        forall|i: int|
            0 <= i < entries@.len() ==> {
                &&& Document::Mapping(entries)@->Mapping_0.contains_key(
                    (#[trigger] entries@[i]).key@,
                )
                &&& Document::Mapping(entries)@->Mapping_0[entries@[i].key@] == entries@[i].value@
            },
{
    let map = Document::Mapping(entries)@->Mapping_0;
    assert forall|i: int| 0 <= i < entries@.len() implies {
        &&& map.contains_key((#[trigger] entries@[i]).key@)
        &&& map[entries@[i].key@] == entries@[i].value@
    } by {
        // no other entry has this key, so the index chosen for it is `i`
        assert(key_index(entries@, entries@[i].key@) == i);
    }
}

/// Two mappings with distinct keys are the same mapping if they have the
/// same keys and the same value under each key.
proof fn lemma_same_mapping(one: Vec<Entry>, other: Map<Seq<char>, Tree>)
    requires
        distinct_keys(one@),
        forall|key: Seq<char>| other.contains_key(key) <==> has_key(one@, key),
        forall|i: int| 0 <= i < one@.len() ==> other[(#[trigger] one@[i]).key@] == one@[i].value@,
    ensures
        Document::Mapping(one)@ == Tree::Mapping(other),
{
    lemma_mapping_entries(one);
    let map = Document::Mapping(one)@->Mapping_0;
    assert forall|key: Seq<char>| map.contains_key(key) implies map[key] == other[key] by {
        let i = key_index(one@, key);
        assert(one@[i].key@ == key);
    }
    assert(map =~= other);
}

/// Appending an entry under a new key inserts it into the mapping.
pub(crate) proof fn lemma_mapping_push(before: Vec<Entry>, after: Vec<Entry>, entry: Entry)
    requires
        distinct_keys(before@),
        !has_key(before@, entry.key@),
        after@ == before@.push(entry),
    ensures
        distinct_keys(after@),
        Document::Mapping(after)@ == Tree::Mapping(
            Document::Mapping(before)@->Mapping_0.insert(entry.key@, entry.value@),
        ),
{
    let n = before@.len() as int;
    assert forall|i: int| 0 <= i < n implies (#[trigger] after@[i]) == before@[i] by {}
    assert(after@[n] == entry);
    lemma_mapping_entries(before);
    let expected = Document::Mapping(before)@->Mapping_0.insert(entry.key@, entry.value@);
    assert forall|key: Seq<char>| expected.contains_key(key) <==> has_key(after@, key) by {
        if has_key(before@, key) {
            assert(after@[key_index(before@, key)].key@ == key);
        }
        if has_key(after@, key) && key != entry.key@ {
            assert(before@[key_index(after@, key)].key@ == key);
        }
    }
    lemma_same_mapping(after, expected);
}

/// Replacing the value of one entry replaces the value of its key.
pub(crate) proof fn lemma_mapping_update(before: Vec<Entry>, after: Vec<Entry>, at: int)
    requires
        distinct_keys(before@),
        0 <= at < before@.len(),
        after@.len() == before@.len(),
        after@[at].key@ == before@[at].key@,
        forall|i: int| 0 <= i < before@.len() && i != at ==> after@[i] == before@[i],
    ensures
        distinct_keys(after@),
        Document::Mapping(after)@ == Tree::Mapping(
            Document::Mapping(before)@->Mapping_0.insert(before@[at].key@, after@[at].value@),
        ),
{
    assert forall|i: int| 0 <= i < after@.len() implies (#[trigger] after@[i]).key@
        == before@[i].key@ by {}
    lemma_mapping_entries(before);
    let expected = Document::Mapping(before)@->Mapping_0.insert(
        before@[at].key@,
        after@[at].value@,
    );
    assert forall|key: Seq<char>| expected.contains_key(key) <==> has_key(after@, key) by {
        if has_key(before@, key) {
            assert(after@[key_index(before@, key)].key@ == key);
        }
        if has_key(after@, key) {
            assert(before@[key_index(after@, key)].key@ == key);
        }
    }
    lemma_same_mapping(after, expected);
}

impl Clone for Document {
    /// A copy of the whole document. The copy of a well-formed document has
    /// the same value.
    fn clone(&self) -> (copy: Document)
        ensures
            self.well_formed() ==> copy.well_formed() && copy@ == self@,
        decreases self,
    {
        match self {
            Document::Scalar(text) => Document::Scalar(text.clone()),
            Document::Mapping(entries) => {
                let mut copies: Vec<Entry> = Vec::new();
                let mut i: usize = 0;
                while i < entries.len()
                    invariant
                        i <= entries.len(),
                        copies.len() == i,
                        *self == Document::Mapping(*entries),
                        forall|k: int|
                            0 <= k < i ==> (#[trigger] copies[k]).key@ == entries[k].key@,
                        self.well_formed() ==> forall|k: int|
                            0 <= k < i ==> (#[trigger] copies[k]).value.well_formed()
                                && copies[k].value@ == entries[k].value@,
                    decreases entries.len() - i,
                {
                    let entry = &entries[i];
                    copies.push(Entry { key: entry.key.clone(), value: entry.value.clone() });
                    i += 1;
                }
                let copy = Document::Mapping(copies);
                proof {
                    if self.well_formed() {
                        lemma_same_entries(*entries, copies);
                    }
                }
                copy
            },
            Document::Sequence(items) => {
                let mut copies: Vec<Document> = Vec::new();
                let mut i: usize = 0;
                while i < items.len()
                    invariant
                        i <= items.len(),
                        copies.len() == i,
                        self is Sequence,
                        self->Sequence_0@ == items@,
                        self.well_formed() ==> forall|k: int|
                            0 <= k < i ==> (#[trigger] copies[k]).well_formed() && copies[k]@
                                == items[k]@,
                    decreases items.len() - i,
                {
                    let item = &items[i];
                    copies.push(item.clone());
                    i += 1;
                }
                let copy = Document::Sequence(copies);
                proof {
                    if self.well_formed() {
                        assert(copy@->Sequence_0 =~= self@->Sequence_0);
                    }
                }
                copy
            },
        }
    }
}

/// Two mappings whose entries agree one by one, in keys and in values, are
/// the same mapping.
proof fn lemma_same_entries(one: Vec<Entry>, other: Vec<Entry>)
    requires
        distinct_keys(one@),
        one@.len() == other@.len(),
        forall|i: int|
            0 <= i < one@.len() ==> (#[trigger] other@[i]).key@ == one@[i].key@ && other@[i].value@
                == one@[i].value@,
    ensures
        distinct_keys(other@),
        Document::Mapping(other)@ == Document::Mapping(one)@,
{
    assert forall|i: int| 0 <= i < one@.len() implies (#[trigger] one@[i]).key@
        == other@[i].key@ by {}
    lemma_mapping_entries(one);
    let expected = Document::Mapping(one)@->Mapping_0;
    assert forall|key: Seq<char>| expected.contains_key(key) <==> has_key(other@, key) by {
        if has_key(one@, key) {
            assert(other@[key_index(one@, key)].key@ == key);
        }
        if has_key(other@, key) {
            assert(one@[key_index(other@, key)].key@ == key);
        }
    }
    lemma_same_mapping(other, expected);
}

/// The index of the entry with this key.
pub(crate) fn position(entries: &Vec<Entry>, key: &String) -> (found: Option<usize>)
    ensures
        match found {
            Some(at) => at < entries.len() && entries[at as int].key@ == key@,
            None => !has_key(entries@, key@),
        },
{
    let mut i: usize = 0;
    while i < entries.len()
        invariant
            i <= entries.len(),
            forall|k: int| 0 <= k < i ==> (#[trigger] entries[k]).key@ != key@,
        decreases entries.len() - i,
    {
        if entries[i].key == *key {
            return Some(i);
        }
        i += 1;
    }
    None
}

} // verus!
