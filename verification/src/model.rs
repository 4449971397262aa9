//! The change-set data model: the draft being edited and the validated
//! document ready for serialization.

use vstd::prelude::*;

verus! {

/// The kind of a patch operation.
#[derive(Clone, Copy, PartialEq, Eq, Structural, Debug)]
pub enum PatchOp {
    Add,
    Patch,
    Remove,
    Replace,
}

/// In-memory representation of the document being built. Field edits land
/// here unchecked; validation is deferred to `validate`.
///
/// The document carries exactly one operation with exactly one patch entry,
/// so the draft holds their fields directly: `block_key` belongs to the
/// single operation, `op`, `path` and `value_input` to its single patch
/// entry. `value_input` is the free-text scratch buffer for the `value`
/// field, kept as raw text until validation parses it.
#[derive(Debug)]
pub struct ChangeSetDraft {
    pub name: String,
    pub source_specialization: Vec<String>,
    pub block_key: String,
    pub op: PatchOp,
    pub path: String,
    pub value_input: String,
    pub published: bool,
}

/// Mathematical model of a validated change-set document.
#[verifier::ext_equal]
pub struct ChangeSetModel {
    pub name: Seq<char>,
    pub source_specialization: Seq<Seq<char>>,
    pub block_key: Seq<char>,
    pub op: PatchOp,
    pub path: Seq<char>,
    pub value_text: Seq<char>,
    pub published: bool,
}

/// A draft that passed every validation check. `value_text` holds the
/// canonical text of the parsed `value`.
#[derive(Debug)]
pub struct ValidatedChangeSet {
    pub name: String,
    pub source_specialization: Vec<String>,
    pub block_key: String,
    pub op: PatchOp,
    pub path: String,
    pub value_text: String,
    pub published: bool,
}

impl View for ValidatedChangeSet {
    type V = ChangeSetModel;

    open spec fn view(&self) -> ChangeSetModel {
        ChangeSetModel {
            name: self.name@,
            source_specialization: self.source_specialization@.map_values(|s: String| s@),
            block_key: self.block_key@,
            op: self.op,
            path: self.path@,
            value_text: self.value_text@,
            published: self.published,
        }
    }
}

impl ChangeSetDraft {
    /// A fresh draft with the workflow's defaults: empty strings, patch
    /// entry `op` preset to `Replace` with a null value, published.
    pub fn new() -> (r: ChangeSetDraft)
        ensures
            r.name@ == Seq::<char>::empty(),
            r.source_specialization@ == Seq::<String>::empty(),
            r.block_key@ == Seq::<char>::empty(),
            r.op == PatchOp::Replace,
            r.path@ == Seq::<char>::empty(),
            r.value_input@ == Seq::<char>::empty(),
            r.published == true,
    {
        ChangeSetDraft {
            name: String::new(),
            source_specialization: Vec::new(),
            block_key: String::new(),
            op: PatchOp::Replace,
            path: String::new(),
            value_input: String::new(),
            published: true,
        }
    }

    /// Replaces the document name.
    pub fn set_name(&mut self, name: String)
        ensures
            *final(self) == (ChangeSetDraft { name, ..*old(self) }),
    {
        self.name = name;
    }

    /// Replaces the single operation's block key.
    pub fn set_block_key(&mut self, block_key: String)
        ensures
            *final(self) == (ChangeSetDraft { block_key, ..*old(self) }),
    {
        self.block_key = block_key;
    }

    /// Replaces the patch entry's operation kind.
    pub fn set_op(&mut self, op: PatchOp)
        ensures
            *final(self) == (ChangeSetDraft { op, ..*old(self) }),
    {
        self.op = op;
    }

    /// Replaces the patch entry's path.
    pub fn set_path(&mut self, path: String)
        ensures
            *final(self) == (ChangeSetDraft { path, ..*old(self) }),
    {
        self.path = path;
    }

    /// Replaces the scratch text for the `value` field.
    pub fn set_value_input(&mut self, value_input: String)
        ensures
            *final(self) == (ChangeSetDraft { value_input, ..*old(self) }),
    {
        self.value_input = value_input;
    }

    /// Replaces the published flag.
    pub fn set_published(&mut self, published: bool)
        ensures
            *final(self) == (ChangeSetDraft { published, ..*old(self) }),
    {
        self.published = published;
    }

    /// Replaces the source specialization list.
    pub fn set_source_specialization(&mut self, source_specialization: Vec<String>)
        ensures
            *final(self) == (ChangeSetDraft { source_specialization, ..*old(self) }),
    {
        self.source_specialization = source_specialization;
    }
}

} // verus!
