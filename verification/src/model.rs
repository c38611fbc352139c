//! The inbox document and its entries.

use vstd::prelude::*;

verus! {

/// One entry of the inbox.
#[derive(Debug, Clone, PartialEq, Eq)]
pub struct InboxEntry {
    pub id: String,
    pub content: String,
    pub created_at: String,
    pub updated_at: String,
}

/// The document that `inbox.json` holds.
#[derive(Debug, Clone, PartialEq, Eq)]
pub struct InboxDocument {
    pub schema_version: u32,
    pub items: Vec<InboxEntry>,
}

/// The texts of an [`InboxEntry`].
#[verifier::ext_equal]
pub struct EntryModel {
    pub id: Seq<char>,
    pub content: Seq<char>,
    pub created_at: Seq<char>,
    pub updated_at: Seq<char>,
}

/// The contents of an [`InboxDocument`].
#[verifier::ext_equal]
pub struct DocumentModel {
    pub schema_version: u32,
    pub items: Seq<EntryModel>,
}

impl View for InboxEntry {
    type V = EntryModel;

    open spec fn view(&self) -> EntryModel {
        EntryModel {
            id: self.id@,
            content: self.content@,
            created_at: self.created_at@,
            updated_at: self.updated_at@,
        }
    }
}

impl View for InboxDocument {
    type V = DocumentModel;

    open spec fn view(&self) -> DocumentModel {
        DocumentModel {
            schema_version: self.schema_version,
            items: self.items@.map_values(|entry: InboxEntry| entry@),
        }
    }
}

/// The document without entries, in the version that this library writes.
pub open spec fn empty_document() -> DocumentModel {
    DocumentModel { schema_version: 1, items: Seq::empty() }
}

/// A document is told by its version and by the four texts of each of its entries, in
/// their order.
pub proof fn law_document_is_told_by_its_texts(document: InboxDocument, i: int)
    ensures
        document@.schema_version == document.schema_version,
        document@.items.len() == document.items@.len(),
        0 <= i < document.items@.len() ==> {
            &&& document@.items[i].id == document.items@[i].id@
            &&& document@.items[i].content == document.items@[i].content@
            &&& document@.items[i].created_at == document.items@[i].created_at@
            &&& document@.items[i].updated_at == document.items@[i].updated_at@
        },
        document.schema_version == 1 && document.items@.len() == 0 <==> document@
            == empty_document(),
{
    if document.items@.len() == 0 {
        assert(document@.items =~= Seq::<EntryModel>::empty());
    }
}

impl InboxDocument {
    /// A document without entries.
    pub fn empty() -> (res: InboxDocument)
        ensures
            res@ == empty_document(),
            res.schema_version == 1,
            res.items@.len() == 0,
    {
        let res = InboxDocument { schema_version: 1, items: Vec::new() };
        assert(res@.items =~= Seq::<EntryModel>::empty());
        res
    }
}

} // verus!
