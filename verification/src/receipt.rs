//! Schema and identity agreement of an accepted-publication receipt and its
//! binding document. The lower layer authenticates the envelope; this layer
//! owns the schema and the cross-document interpretation.
use crate::json::{is_json_text, json_eq, json_equal, json_index, json_wf, member, JsonValue};
use crate::publication::{archive_entry_names, SystemsPublicationCacheError};
use crate::text::text_eq;
use vstd::prelude::*;

verus! {

pub open spec fn receipt_format() -> Seq<char> {
    "agq-sysml-accepted-publication/1"@
}

pub open spec fn bindings_format() -> Seq<char> {
    "agq-sysml-accepted-bindings/1"@
}

/// The receipt has the accepted-publication format, and the bindings name
/// their own format and the exact source content set.
pub open spec fn receipt_schema_ok(format: Seq<char>, source_content_set: Seq<char>, bindings: JsonValue) -> bool {
    &&& format == receipt_format()
    &&& is_json_text(json_index(bindings, "format"@), bindings_format())
    &&& is_json_text(json_index(bindings, "source_content_set"@), source_content_set)
}

/// The receipt states `field` and the bindings state an equal `binding`.
pub open spec fn binding_agrees(identity: JsonValue, bindings: JsonValue, field: Seq<char>, binding: Seq<char>) -> bool {
    &&& !(json_index(identity, field) is Null)
    &&& json_eq(json_index(identity, field), json_index(bindings, binding))
}

/// Every identity field of the receipt agrees with its binding.
pub open spec fn bindings_agree(identity: JsonValue, bindings: JsonValue) -> bool {
    &&& binding_agrees(identity, bindings, "publication_digest"@, "accepted_systems_digest"@)
    &&& binding_agrees(identity, bindings, "semantic_digest"@, "semantic_digest"@)
    &&& binding_agrees(identity, bindings, "accepted_kerml_digest"@, "accepted_kerml_digest"@)
    &&& binding_agrees(identity, bindings, "systems_kpar"@, "systems_kpar"@)
    &&& binding_agrees(identity, bindings, "systems_source_content_set"@, "systems_source_content_set"@)
    &&& binding_agrees(identity, bindings, "operational_profile"@, "operational_profile"@)
    &&& binding_agrees(identity, bindings, "rule_set"@, "rule_set"@)
    &&& binding_agrees(identity, bindings, "producer_registry_digest"@, "producer_registry_digest"@)
    &&& binding_agrees(identity, bindings, "producer_closure_digest"@, "producer_closure_digest"@)
}

proof fn lemma_member_wf(v: JsonValue, key: Seq<char>)
    requires
        json_wf(v),
    ensures
        json_wf(json_index(v, key)),
{
    if let JsonValue::Object(xs) = v {
        if exists|i: int| 0 <= i < xs@.len() && (#[trigger] xs@[i]).0@ == key {
            let i = choose|i: int| 0 <= i < xs@.len() && (#[trigger] xs@[i]).0@ == key;
            assert(json_wf(xs@[i].1));
        }
    }
}

fn text_member(v: &JsonValue, key: &str, text: &str) -> (same: bool)
    requires
        json_wf(*v),
    ensures
        same == is_json_text(json_index(*v, key@), text@),
{
    match member(v, key) {
        Some(JsonValue::String(s)) => text_eq(s.as_str(), text),
        _ => false,
    }
}

fn is_null_member(m: Option<&JsonValue>) -> (null: bool)
    ensures
        null == (m is None || (m matches Some(x) && *x is Null)),
{
    match m {
        None => true,
        Some(JsonValue::Null) => true,
        _ => false,
    }
}

fn binding_agrees_exec(identity: &JsonValue, bindings: &JsonValue, field: &str, binding: &str) -> (agrees: bool)
    requires
        json_wf(*identity),
        json_wf(*bindings),
    ensures
        agrees == binding_agrees(*identity, *bindings, field@, binding@),
{
    proof {
        lemma_member_wf(*identity, field@);
        lemma_member_wf(*bindings, binding@);
    }
    let left = member(identity, field);
    let right = member(bindings, binding);
    if is_null_member(left) {
        return false;
    }
    match (left, right) {
        (Some(x), Some(y)) => json_equal(x, y),
        (Some(x), None) => {
            let null = JsonValue::Null;
            json_equal(x, &null)
        },
        _ => false,
    }
}

/// The outcome of checking the receipt and binding documents.
pub open spec fn receipt_documents_outcome(
    format: Seq<char>,
    source_content_set: Seq<char>,
    identity: JsonValue,
    bindings: JsonValue,
) -> Result<(), SystemsPublicationCacheError> {
    if !receipt_schema_ok(format, source_content_set, bindings) {
        Err(SystemsPublicationCacheError::Mismatch("receipt document schema"))
    } else if !bindings_agree(identity, bindings) {
        Err(SystemsPublicationCacheError::Mismatch("receipt binding identity"))
    } else {
        Ok(())
    }
}

/// Check the receipt's format and the binding document's schema, then that
/// every receipt identity field is present and agrees with its binding.
pub fn check_receipt_documents(
    format: &str,
    source_content_set: &str,
    identity: &JsonValue,
    bindings: &JsonValue,
) -> (result: Result<(), SystemsPublicationCacheError>)
    requires
        json_wf(*identity),
        json_wf(*bindings),
    ensures
        !receipt_schema_ok(format@, source_content_set@, *bindings) ==> result == Err::<(), SystemsPublicationCacheError>(
            SystemsPublicationCacheError::Mismatch("receipt document schema"),
        ),
        receipt_schema_ok(format@, source_content_set@, *bindings) && !bindings_agree(*identity, *bindings) ==> result
            == Err::<(), SystemsPublicationCacheError>(SystemsPublicationCacheError::Mismatch("receipt binding identity")),
        receipt_schema_ok(format@, source_content_set@, *bindings) && bindings_agree(*identity, *bindings) ==> result is Ok,
        result == receipt_documents_outcome(format@, source_content_set@, *identity, *bindings),
{
    proof {
        reveal_strlit("agq-sysml-accepted-publication/1");
        reveal_strlit("agq-sysml-accepted-bindings/1");
    }
    if !text_eq(format, "agq-sysml-accepted-publication/1")
        || !text_member(bindings, "format", "agq-sysml-accepted-bindings/1")
        || !text_member(bindings, "source_content_set", source_content_set)
    {
        return Err(SystemsPublicationCacheError::Mismatch("receipt document schema"));
    }
    let agree = binding_agrees_exec(identity, bindings, "publication_digest", "accepted_systems_digest")
        && binding_agrees_exec(identity, bindings, "semantic_digest", "semantic_digest")
        && binding_agrees_exec(identity, bindings, "accepted_kerml_digest", "accepted_kerml_digest")
        && binding_agrees_exec(identity, bindings, "systems_kpar", "systems_kpar")
        && binding_agrees_exec(identity, bindings, "systems_source_content_set", "systems_source_content_set")
        && binding_agrees_exec(identity, bindings, "operational_profile", "operational_profile")
        && binding_agrees_exec(identity, bindings, "rule_set", "rule_set")
        && binding_agrees_exec(identity, bindings, "producer_registry_digest", "producer_registry_digest")
        && binding_agrees_exec(identity, bindings, "producer_closure_digest", "producer_closure_digest");
    if !agree {
        return Err(SystemsPublicationCacheError::Mismatch("receipt binding identity"));
    }
    Ok(())
}

/// What interpreting an accepted Systems publication receipt reads: the
/// receipt's entries, format, content set and documents, the verified
/// sources' content set, the accepted KerML dependency, the systems library
/// archive digest among the verified sources, and the dependency contract's
/// expected identity values (as JSON, in receipt field order).
#[derive(Debug)]
pub struct ReceiptInterpretation {
    pub entry_names: Vec<String>,
    pub publication_format: String,
    pub receipt_source_content_set: String,
    pub identity: JsonValue,
    pub bindings: JsonValue,
    pub sources_content_set: String,
    pub kerml_source_content_set: String,
    pub kerml_semantic_digest: [u8; 32],
    pub contract_kerml_digest: [u8; 32],
    /// Archive digest of the contract's systems library in the verified
    /// sources, when the sources hold that library.
    pub library_archive_sha256: Option<String>,
    pub contract_artifact_sha256: String,
    pub accepted_kerml_digest: JsonValue,
    pub systems_kpar: JsonValue,
    pub systems_source_content_set: JsonValue,
    pub operational_profile: JsonValue,
    pub rule_set: JsonValue,
    pub grammar_compatibility_manifest: JsonValue,
    pub semantic_correction_manifest: JsonValue,
    pub combined_descriptor_graph: JsonValue,
}

impl ReceiptInterpretation {
    pub open spec fn wf(&self) -> bool {
        &&& json_wf(self.identity)
        &&& json_wf(self.bindings)
        &&& json_wf(self.accepted_kerml_digest)
        &&& json_wf(self.systems_kpar)
        &&& json_wf(self.systems_source_content_set)
        &&& json_wf(self.operational_profile)
        &&& json_wf(self.rule_set)
        &&& json_wf(self.grammar_compatibility_manifest)
        &&& json_wf(self.semantic_correction_manifest)
        &&& json_wf(self.combined_descriptor_graph)
    }

    /// The receipt's entries, as a set of names.
    pub open spec fn entry_set(&self) -> Set<Seq<char>> {
        Set::new(|name: Seq<char>| exists|i: int| 0 <= i < self.entry_names@.len() && (#[trigger] self.entry_names@[i])@ == name)
    }

    /// The verified sources and dependency pin the receipt's content.
    pub open spec fn dependency_identity_ok(&self) -> bool {
        &&& self.receipt_source_content_set@ == self.sources_content_set@
        &&& self.kerml_source_content_set@ == self.sources_content_set@
        &&& self.kerml_semantic_digest@ == self.contract_kerml_digest@
        &&& self.library_archive_sha256 matches Some(sha) && sha@ == self.contract_artifact_sha256@
    }

    /// The first receipt identity field that differs from the contract, if any.
    pub open spec fn first_field_mismatch(&self) -> Option<&'static str> {
        if !json_eq(json_index(self.identity, "accepted_kerml_digest"@), self.accepted_kerml_digest) {
            Some("accepted_kerml_digest")
        } else if !json_eq(json_index(self.identity, "systems_kpar"@), self.systems_kpar) {
            Some("systems_kpar")
        } else if !json_eq(json_index(self.identity, "systems_source_content_set"@), self.systems_source_content_set) {
            Some("systems_source_content_set")
        } else if !json_eq(json_index(self.identity, "operational_profile"@), self.operational_profile) {
            Some("operational_profile")
        } else if !json_eq(json_index(self.identity, "rule_set"@), self.rule_set) {
            Some("rule_set")
        } else if !json_eq(json_index(self.identity, "grammar_compatibility_manifest"@), self.grammar_compatibility_manifest) {
            Some("grammar_compatibility_manifest")
        } else if !json_eq(json_index(self.identity, "semantic_correction_manifest"@), self.semantic_correction_manifest) {
            Some("semantic_correction_manifest")
        } else if !json_eq(json_index(self.identity, "combined_descriptor_graph"@), self.combined_descriptor_graph) {
            Some("combined_descriptor_graph")
        } else {
            None
        }
    }

    /// The outcome of interpreting the receipt, in check order.
    pub open spec fn outcome(&self) -> Result<(), SystemsPublicationCacheError> {
        if self.entry_set() != archive_entry_names() {
            Err(SystemsPublicationCacheError::Mismatch("receipt archive entries"))
        } else if receipt_documents_outcome(
            self.publication_format@,
            self.receipt_source_content_set@,
            self.identity,
            self.bindings,
        ) is Err {
            receipt_documents_outcome(self.publication_format@, self.receipt_source_content_set@, self.identity, self.bindings)
        } else if !self.dependency_identity_ok() {
            Err(SystemsPublicationCacheError::Mismatch("verified source or dependency identity"))
        } else {
            match self.first_field_mismatch() {
                Some(field) => Err(SystemsPublicationCacheError::Mismatch(field)),
                None => Ok(()),
            }
        }
    }
}

fn same_digest(a: &[u8; 32], b: &[u8; 32]) -> (same: bool)
    ensures
        same == (a@ == b@),
{
    let mut i: usize = 0;
    while i < 32
        invariant
            a@.len() == 32,
            b@.len() == 32,
            i <= 32,
            forall|k: int| 0 <= k < i ==> a@[k] == b@[k],
        decreases 32 - i,
    {
        if a[i] != b[i] {
            return false;
        }
        i = i + 1;
    }
    assert(a@ =~= b@);
    true
}

fn text_same(a: &String, b: &String) -> (same: bool)
    ensures
        same == (a@ == b@),
{
    *a == *b
}

/// Whether `value[field]` equals `expected`.
fn field_equals(value: &JsonValue, field: &str, expected: &JsonValue) -> (same: bool)
    requires
        json_wf(*value),
        json_wf(*expected),
    ensures
        same == json_eq(json_index(*value, field@), *expected),
{
    proof {
        lemma_member_wf(*value, field@);
    }
    match member(value, field) {
        Some(x) => json_equal(x, expected),
        None => {
            let null = JsonValue::Null;
            json_equal(&null, expected)
        },
    }
}

fn entry_named(names: &Vec<String>, name: &str) -> (found: bool)
    ensures
        found == exists|i: int| 0 <= i < names@.len() && (#[trigger] names@[i])@ == name@,
{
    let mut i: usize = 0;
    while i < names.len()
        invariant
            i <= names@.len(),
            forall|k: int| 0 <= k < i ==> (#[trigger] names@[k])@ != name@,
        decreases names.len() - i,
    {
        if text_eq(names[i].as_str(), name) {
            return true;
        }
        i = i + 1;
    }
    false
}

fn is_archive_entry(name: &String) -> (member: bool)
    ensures
        member == archive_entry_names().contains(name@),
{
    proof {
        reveal_strlit("closure.json");
        reveal_strlit("facade.json");
        reveal_strlit("kernel.jsonl");
    }
    text_eq(name.as_str(), "closure.json") || text_eq(name.as_str(), "facade.json") || text_eq(name.as_str(), "kernel.jsonl")
}

/// Interpret an accepted Systems publication receipt against the verified
/// sources and the dependency contract.
pub fn check_interpretation(x: &ReceiptInterpretation) -> (result: Result<(), SystemsPublicationCacheError>)
    requires
        x.wf(),
    ensures
        result == x.outcome(),
{
    let mut all_expected = true;
    let mut i: usize = 0;
    while i < x.entry_names.len()
        invariant
            i <= x.entry_names@.len(),
            all_expected == forall|k: int| 0 <= k < i ==> archive_entry_names().contains((#[trigger] x.entry_names@[k])@),
        decreases x.entry_names.len() - i,
    {
        if !is_archive_entry(&x.entry_names[i]) {
            all_expected = false;
        }
        i = i + 1;
    }
    let complete = entry_named(&x.entry_names, "closure.json") && entry_named(&x.entry_names, "facade.json")
        && entry_named(&x.entry_names, "kernel.jsonl");
    proof {
        reveal_strlit("closure.json");
        reveal_strlit("facade.json");
        reveal_strlit("kernel.jsonl");
        assert((all_expected && complete) == (x.entry_set() == archive_entry_names())) by {
            if all_expected && complete {
                assert forall|n: Seq<char>| #[trigger] x.entry_set().contains(n) == archive_entry_names().contains(n) by {
                    if x.entry_set().contains(n) {
                        let k = choose|k: int| 0 <= k < x.entry_names@.len() && (#[trigger] x.entry_names@[k])@ == n;
                        assert(archive_entry_names().contains(x.entry_names@[k]@));
                    }
                }
                assert(x.entry_set() =~= archive_entry_names());
            }
            if x.entry_set() == archive_entry_names() {
                assert(x.entry_set().contains("closure.json"@));
                assert(x.entry_set().contains("facade.json"@));
                assert(x.entry_set().contains("kernel.jsonl"@));
                assert forall|k: int| 0 <= k < x.entry_names@.len() implies archive_entry_names().contains((#[trigger] x.entry_names@[k])@) by {
                    assert(x.entry_set().contains(x.entry_names@[k]@));
                }
            }
        }
    }
    if !(all_expected && complete) {
        return Err(SystemsPublicationCacheError::Mismatch("receipt archive entries"));
    }
    check_receipt_documents(
        x.publication_format.as_str(),
        x.receipt_source_content_set.as_str(),
        &x.identity,
        &x.bindings,
    )?;
    let library_ok = match &x.library_archive_sha256 {
        Some(sha) => text_same(sha, &x.contract_artifact_sha256),
        None => false,
    };
    if !text_same(&x.receipt_source_content_set, &x.sources_content_set) || !text_same(
        &x.kerml_source_content_set,
        &x.sources_content_set,
    ) || !same_digest(&x.kerml_semantic_digest, &x.contract_kerml_digest) || !library_ok {
        return Err(SystemsPublicationCacheError::Mismatch("verified source or dependency identity"));
    }
    if !field_equals(&x.identity, "accepted_kerml_digest", &x.accepted_kerml_digest) {
        return Err(SystemsPublicationCacheError::Mismatch("accepted_kerml_digest"));
    }
    if !field_equals(&x.identity, "systems_kpar", &x.systems_kpar) {
        return Err(SystemsPublicationCacheError::Mismatch("systems_kpar"));
    }
    if !field_equals(&x.identity, "systems_source_content_set", &x.systems_source_content_set) {
        return Err(SystemsPublicationCacheError::Mismatch("systems_source_content_set"));
    }
    if !field_equals(&x.identity, "operational_profile", &x.operational_profile) {
        return Err(SystemsPublicationCacheError::Mismatch("operational_profile"));
    }
    if !field_equals(&x.identity, "rule_set", &x.rule_set) {
        return Err(SystemsPublicationCacheError::Mismatch("rule_set"));
    }
    if !field_equals(&x.identity, "grammar_compatibility_manifest", &x.grammar_compatibility_manifest) {
        return Err(SystemsPublicationCacheError::Mismatch("grammar_compatibility_manifest"));
    }
    if !field_equals(&x.identity, "semantic_correction_manifest", &x.semantic_correction_manifest) {
        return Err(SystemsPublicationCacheError::Mismatch("semantic_correction_manifest"));
    }
    if !field_equals(&x.identity, "combined_descriptor_graph", &x.combined_descriptor_graph) {
        return Err(SystemsPublicationCacheError::Mismatch("combined_descriptor_graph"));
    }
    Ok(())
}

} // verus!
