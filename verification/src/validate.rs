//! The validation pipeline: four checks in a fixed order, short-circuiting
//! at the first failure. On success the canonical text of the parsed value
//! replaces the scratch text, yielding a document ready for serialization.

use vstd::prelude::*;
use crate::chars::{chars_of, is_blank, trimmed};
use crate::json::{canonical_json_text, json_canon};
use crate::model::{ChangeSetDraft, ChangeSetModel, ValidatedChangeSet};

verus! {

/// Why a draft was rejected, in the order the checks run.
#[derive(Clone, Copy, PartialEq, Eq, Structural, Debug)]
pub enum ValidationError {
    EmptyName,
    InvalidPath,
    InvalidBlockKey,
    MalformedValue,
}

/// The operator-facing message for each validation failure.
pub open spec fn validation_message(e: ValidationError) -> Seq<char> {
    match e {
        ValidationError::EmptyName => "Error: Name is required."@,
        ValidationError::InvalidPath => "Error: Path must start with '/'."@,
        ValidationError::InvalidBlockKey => "Error: Block Key must contain '@'."@,
        ValidationError::MalformedValue => "Error: Invalid JSON in value field."@,
    }
}

impl ValidationError {
    /// The short human-readable message shown for this failure.
    pub fn message(&self) -> (r: String)
        ensures
            r@ == validation_message(*self),
    {
        match self {
            ValidationError::EmptyName => "Error: Name is required.".to_owned(),
            ValidationError::InvalidPath => "Error: Path must start with '/'.".to_owned(),
            ValidationError::InvalidBlockKey => "Error: Block Key must contain '@'.".to_owned(),
            ValidationError::MalformedValue => "Error: Invalid JSON in value field.".to_owned(),
        }
    }
}

/// The name check: non-empty after trimming.
pub open spec fn name_ok(name: Seq<char>) -> bool {
    trimmed(name).len() > 0
}

/// The path check: starts with `/`.
pub open spec fn path_ok(path: Seq<char>) -> bool {
    path.len() > 0 && path[0] == '/'
}

/// The block key check: contains `@`.
pub open spec fn block_key_ok(key: Seq<char>) -> bool {
    exists|i: int| 0 <= i < key.len() && key[i] == '@'
}

/// The invariants a validated document satisfies.
pub open spec fn valid_model(m: ChangeSetModel) -> bool {
    name_ok(m.name) && path_ok(m.path) && block_key_ok(m.block_key)
}

/// The model a successful validation of `draft` produces.
pub open spec fn validated_model_of(draft: ChangeSetDraft) -> ChangeSetModel {
    ChangeSetModel {
        name: draft.name@,
        source_specialization: draft.source_specialization@.map_values(|s: String| s@),
        block_key: draft.block_key@,
        op: draft.op,
        path: draft.path@,
        value_text: json_canon(draft.value_input@)->0,
        published: draft.published,
    }
}

fn check_path(path: &str) -> (r: bool)
    ensures
        r == path_ok(path@),
{
    path.unicode_len() > 0 && path.get_char(0) == '/'
}

fn check_block_key(key: &str) -> (r: bool)
    ensures
        r == block_key_ok(key@),
{
    let v = chars_of(key);
    let n = v.len();
    let mut i: usize = 0;
    while i < n
        invariant
            n == v@.len(),
            v@ == key@,
            i <= n,
            forall|j: int| 0 <= j < i ==> v@[j] != '@',
        decreases n - i,
    {
        if v[i] == '@' {
            return true;
        }
        i = i + 1;
    }
    false
}

fn clone_strings(v: &Vec<String>) -> (r: Vec<String>)
    ensures
        r@.map_values(|s: String| s@) == v@.map_values(|s: String| s@),
{
    let n = v.len();
    let mut r: Vec<String> = Vec::new();
    let mut i: usize = 0;
    while i < n
        invariant
            n == v@.len(),
            i <= n,
            r@.len() == i,
            forall|j: int| 0 <= j < i ==> r@[j]@ == v@[j]@,
        decreases n - i,
    {
        r.push(v[i].clone());
        i = i + 1;
    }
    proof {
        assert(r@.map_values(|s: String| s@) =~= v@.map_values(|s: String| s@));
    }
    r
}

/// Checks the draft against the domain rules, in this order: non-empty name,
/// path starting with `/`, block key containing `@`, value text well-formed
/// JSON. The first failure decides the error; on success the document
/// carries the canonical text of the parsed value.
pub fn validate(draft: &ChangeSetDraft) -> (r: Result<ValidatedChangeSet, ValidationError>)
    ensures
        !name_ok(draft.name@) ==> r == Err::<ValidatedChangeSet, ValidationError>(
            ValidationError::EmptyName,
        ),
        name_ok(draft.name@) && !path_ok(draft.path@) ==> r == Err::<
            ValidatedChangeSet,
            ValidationError,
        >(ValidationError::InvalidPath),
        name_ok(draft.name@) && path_ok(draft.path@) && !block_key_ok(draft.block_key@) ==> r
            == Err::<ValidatedChangeSet, ValidationError>(ValidationError::InvalidBlockKey),
        name_ok(draft.name@) && path_ok(draft.path@) && block_key_ok(draft.block_key@)
            && json_canon(draft.value_input@) is None ==> r == Err::<
            ValidatedChangeSet,
            ValidationError,
        >(ValidationError::MalformedValue),
        name_ok(draft.name@) && path_ok(draft.path@) && block_key_ok(draft.block_key@)
            && json_canon(draft.value_input@) is Some ==> r is Ok && r->Ok_0@
            == validated_model_of(*draft) && valid_model(r->Ok_0@),
{
    let name_chars = chars_of(draft.name.as_str());
    if is_blank(&name_chars) {
        return Err(ValidationError::EmptyName);
    }
    if !check_path(draft.path.as_str()) {
        return Err(ValidationError::InvalidPath);
    }
    if !check_block_key(draft.block_key.as_str()) {
        return Err(ValidationError::InvalidBlockKey);
    }
    match canonical_json_text(draft.value_input.as_str()) {
        None => Err(ValidationError::MalformedValue),
        Some(value_text) => Ok(
            ValidatedChangeSet {
                name: draft.name.clone(),
                source_specialization: clone_strings(&draft.source_specialization),
                block_key: draft.block_key.clone(),
                op: draft.op,
                path: draft.path.clone(),
                value_text,
                published: draft.published,
            },
        ),
    }
}

} // verus!
