//! Reviewed changes to canonical model facts, never to source text or syntax.
//!
//! A patch set pins its inputs by source-qualified selectors, allocates
//! separate identities for the elements it creates, and turns every operation
//! into an explicit canonical change with its own reviewed provenance.
use crate::ids::{
    DeclaredOrigin, DocumentId, ElementId, EnumerationLiteralId, FactKey, LibraryId, MetaclassId,
    Origin, PropertyId,
};
use crate::library::{
    copy_segments, reference_key, segments_view, LibrarySourceMap, PendingLibraryReference,
    ReferenceKey,
};
use crate::model::{values_view, ConstructionView, ElementRecord, SlotValue, SlotValueView, Value, ValueView};
use crate::table::{Table, TableValue};
use crate::text::{identity_text, identity_text_spec};
use crate::order::{lemma_path_order, path_less, path_lt};
use vstd::prelude::*;
use vstd::utf8::encode_utf8;
use vstd::string::*;

verus! {

/// Why library construction was refused.
#[derive(Debug)]
pub enum LibraryLoadError {
    /// Library syntax requires recovery.
    Syntax(String),
    /// Unsupported canonical interpretation, with its reason.
    Interpretation(String),
}

/// The reason carried by an error.
pub enum LoadErrorView {
    Syntax(Seq<char>),
    Interpretation(Seq<char>),
}

impl View for LibraryLoadError {
    type V = LoadErrorView;

    open spec fn view(&self) -> LoadErrorView {
        match self {
            LibraryLoadError::Syntax(s) => LoadErrorView::Syntax(s@),
            LibraryLoadError::Interpretation(s) => LoadErrorView::Interpretation(s@),
        }
    }
}

fn failure(message: &str) -> (e: LibraryLoadError)
    ensures
        e@ == LoadErrorView::Interpretation(message@),
{
    LibraryLoadError::Interpretation(String::from_str(message))
}

/// The value of one hexadecimal digit, either case.
pub open spec fn hex_digit(c: char) -> Option<int> {
    if '0' <= c && c <= '9' {
        Some(c as int - '0' as int)
    } else if 'a' <= c && c <= 'f' {
        Some(c as int - 'a' as int + 10)
    } else if 'A' <= c && c <= 'F' {
        Some(c as int - 'A' as int + 10)
    } else {
        None
    }
}

/// The big-endian value of a string of hexadecimal digits.
pub open spec fn hex_value(digits: Seq<char>) -> Option<int>
    decreases digits.len(),
{
    if digits.len() == 0 {
        Some(0)
    } else {
        match (hex_value(digits.drop_last()), hex_digit(digits.last())) {
            (Some(v), Some(d)) => Some(v * 16 + d),
            _ => None,
        }
    }
}

/// The 32 digits of a hyphenated UUID text: hyphens exactly at positions
/// 8, 13, 18 and 23 of 36 characters.
pub open spec fn hyphenated_digits(t: Seq<char>) -> Option<Seq<char>> {
    if t.len() == 36 && t[8] == '-' && t[13] == '-' && t[18] == '-' && t[23] == '-' {
        Some(t.subrange(0, 8) + t.subrange(9, 13) + t.subrange(14, 18) + t.subrange(19, 23) + t.subrange(24, 36))
    } else {
        None
    }
}

/// ASCII letters folded to lower case; every other character kept.
pub open spec fn ascii_lower(c: char) -> char {
    if 'A' <= c && c <= 'Z' {
        ((c as int) + 32) as char
    } else {
        c
    }
}

/// The 32 digits of a UUID text in one of its forms.
pub open spec fn uuid_digits(t: Seq<char>) -> Option<Seq<char>> {
    if t.len() == 32 {
        Some(t)
    } else if t.len() == 36 {
        hyphenated_digits(t)
    } else if t.len() == 38 && t[0] == '{' && t[37] == '}' {
        hyphenated_digits(t.subrange(1, 37))
    } else if t.len() == 45 && t.subrange(0, 9).map_values(|c: char| ascii_lower(c)) == "urn:uuid:"@ {
        hyphenated_digits(t.subrange(9, 45))
    } else {
        None
    }
}

/// The 128-bit value `uuid::Uuid::parse_str` reads from a text, if it reads
/// one: the simple form (32 hexadecimal digits), the hyphenated form, the
/// braced form `{..}` and the URN form `urn:uuid:..` (prefix in any case);
/// digits in either case, read big-endian.
pub open spec fn uuid_text_value(text: Seq<char>) -> Option<u128> {
    match uuid_digits(text) {
        Some(digits) => match hex_value(digits) {
            Some(v) => Some(v as u128),
            None => None,
        },
        None => None,
    }
}

/// `uuid::Uuid::parse_str` followed by `as_u128`: the crate's parser accepts
/// exactly the four forms above and `as_u128` reads the 16 bytes big-endian.
/// The contract takes the text by its characters; a text with a character
/// outside ASCII is refused by the crate and by the statement alike.
#[verifier::external_body]
fn parse_uuid(text: &str) -> (value: Option<u128>)
    ensures
        value == uuid_text_value(text@),
{
    match uuid::Uuid::parse_str(text) {
        Ok(id) => Some(id.as_u128()),
        Err(_) => None,
    }
}

pub open spec fn invalid_identity_message() -> Seq<char> {
    "Invalid reviewed semantic identity"@
}

/// A reviewed semantic identity: the value of a UUID text, or the
/// invalid-identity error.
pub fn uuid(value: &str) -> (id: Result<u128, LibraryLoadError>)
    ensures
        match uuid_text_value(value@) {
            Some(v) => id matches Ok(x) && x == v,
            None => id matches Err(e) && e@ == LoadErrorView::Interpretation(
                invalid_identity_message(),
            ),
        },
{
    match parse_uuid(value) {
        Some(v) => Ok(v),
        None => Err(failure("Invalid reviewed semantic identity")),
    }
}

/// A lower-case hexadecimal digit.
pub open spec fn hex_lower(n: int) -> u8 {
    if n < 10 {
        (48 + n) as u8
    } else {
        (87 + n) as u8
    }
}

/// How a compact JSON writer spells one byte of a string: the quote and the
/// reverse solidus escaped, the usual short escapes for backspace, tab, line
/// feed, form feed and carriage return, `\u00XX` (lower-case hex) for every
/// other control byte below 0x20, and every other byte as it is.
pub open spec fn json_escaped_byte(b: u8) -> Seq<u8> {
    if b == 0x22 {
        seq![0x5cu8, 0x22u8]
    } else if b == 0x5c {
        seq![0x5cu8, 0x5cu8]
    } else if b == 0x08 {
        seq![0x5cu8, 0x62u8]
    } else if b == 0x09 {
        seq![0x5cu8, 0x74u8]
    } else if b == 0x0a {
        seq![0x5cu8, 0x6eu8]
    } else if b == 0x0c {
        seq![0x5cu8, 0x66u8]
    } else if b == 0x0d {
        seq![0x5cu8, 0x72u8]
    } else if b < 0x20 {
        seq![0x5cu8, 0x75u8, 0x30u8, 0x30u8, hex_lower(b as int / 16), hex_lower(b as int % 16)]
    } else {
        seq![b]
    }
}

/// The escaped bytes of a string's contents.
pub open spec fn json_escaped(bytes: Seq<u8>) -> Seq<u8>
    decreases bytes.len(),
{
    if bytes.len() == 0 {
        Seq::empty()
    } else {
        json_escaped(bytes.drop_last()) + json_escaped_byte(bytes.last())
    }
}

/// A JSON string: its UTF-8 bytes escaped, between quotes.
pub open spec fn json_string(text: Seq<char>) -> Seq<u8> {
    seq![0x22u8] + json_escaped(encode_utf8(text)) + seq![0x22u8]
}

/// The bytes `serde_json::to_vec` writes for a tuple of six strings: a compact
/// JSON array of the six JSON strings.
pub open spec fn json_string_six(
    a: Seq<char>,
    b: Seq<char>,
    c: Seq<char>,
    d: Seq<char>,
    e: Seq<char>,
    f: Seq<char>,
) -> Seq<u8> {
    seq![0x5bu8] + json_string(a) + seq![0x2cu8] + json_string(b) + seq![0x2cu8] + json_string(c) + seq![0x2cu8]
        + json_string(d) + seq![0x2cu8] + json_string(e) + seq![0x2cu8] + json_string(f) + seq![0x5du8]
}

/// `serde_json::to_vec` on a tuple of six strings: the compact writer puts the
/// six escaped strings in one array, as `json_string_six` spells out.
/// Serialising strings cannot fail, so the error arm is never taken.
#[verifier::external_body]
fn json_six(a: &str, b: &str, c: &str, d: &str, e: &str, f: &str) -> (bytes: Vec<u8>)
    ensures
        bytes@ == json_string_six(a@, b@, c@, d@, e@, f@),
{
    serde_json::to_vec(&(a, b, c, d, e, f)).unwrap_or_default()
}

/// The value of `uuid::Uuid::new_v5(namespace, name)`: the name-based UUID
/// (SHA-1) of `name` in `namespace`.
pub uninterp spec fn uuid_v5(namespace: u128, name: Seq<u8>) -> u128;

/// `uuid::Uuid::new_v5` on `Uuid::from_u128(namespace)`, read back by `as_u128`.
#[verifier::external_body]
fn new_v5(namespace: u128, name: &[u8]) -> (id: u128)
    ensures
        id == uuid_v5(namespace, name@),
{
    uuid::Uuid::new_v5(&uuid::Uuid::from_u128(namespace), name).as_u128()
}

/// Namespace of correction output identities.
pub const OUTPUT_NAMESPACE: u128 = 0x802a939427b154e9b496e1d88bd98722u128;

pub open spec fn output_domain() -> Seq<char> {
    "agentique-operational-library-output/1"@
}

/// The identity allocated to output `key` of correction `entry` in `library`.
pub open spec fn output_id_spec(
    profile: Seq<char>,
    library_set: Seq<char>,
    library: LibraryId,
    entry: Seq<char>,
    key: Seq<char>,
) -> ElementId {
    ElementId(
        uuid_v5(
            OUTPUT_NAMESPACE,
            json_string_six(
                output_domain(),
                profile,
                library_set,
                crate::text::identity_text_spec(library.0),
                entry,
                key,
            ),
        ),
    )
}

/// A decimal digit character.
pub open spec fn is_digit(c: char) -> bool {
    '0' <= c && c <= '9'
}

pub open spec fn all_digits(d: Seq<char>) -> bool {
    forall|i: int| 0 <= i < d.len() ==> is_digit(#[trigger] d[i])
}

/// Value of a string of decimal digits.
pub open spec fn decimal_value(d: Seq<char>) -> int
    decreases d.len(),
{
    if d.len() == 0 {
        0
    } else {
        10 * decimal_value(d.drop_last()) + (d.last() as int - '0' as int)
    }
}

/// What `str::parse::<i64>` accepts: an optional sign, then one or more
/// decimal digits whose value fits in `i64`.
pub open spec fn parse_i64_spec(s: Seq<char>) -> Option<i64> {
    let negative = s.len() > 0 && s[0] == '-';
    let signed = s.len() > 0 && (s[0] == '-' || s[0] == '+');
    let digits = if signed { s.skip(1) } else { s };
    if digits.len() == 0 || !all_digits(digits) {
        None
    } else {
        let v = if negative { -decimal_value(digits) } else { decimal_value(digits) };
        if i64::MIN <= v && v <= i64::MAX {
            Some(v as i64)
        } else {
            None
        }
    }
}

proof fn lemma_decimal_nonnegative(d: Seq<char>)
    requires
        all_digits(d),
    ensures
        decimal_value(d) >= 0,
    decreases d.len(),
{
    if d.len() > 0 {
        assert(all_digits(d.drop_last()));
        lemma_decimal_nonnegative(d.drop_last());
    }
}

/// A longer digit string is worth at least as much as its prefix.
proof fn lemma_decimal_prefix(d: Seq<char>, k: int)
    requires
        all_digits(d),
        0 <= k <= d.len(),
    ensures
        decimal_value(d.take(k)) <= decimal_value(d),
    decreases d.len() - k,
{
    if k < d.len() {
        let longer = d.take(k + 1);
        assert(longer.drop_last() =~= d.take(k));
        assert(all_digits(d.take(k)));
        lemma_decimal_nonnegative(d.take(k));
        assert(is_digit(longer.last()));
        lemma_decimal_prefix(d, k + 1);
    } else {
        assert(d.take(k) =~= d);
    }
}

/// `str::parse::<i64>`, written out.
pub fn parse_i64(text: &str) -> (value: Option<i64>)
    ensures
        value == parse_i64_spec(text@),
{
    let n = text.unicode_len();
    let ghost s = text@;
    let mut start: usize = 0;
    let mut negative = false;
    if n > 0 {
        let c = text.get_char(0);
        if c == '-' {
            negative = true;
            start = 1;
        } else if c == '+' {
            start = 1;
        }
    }
    let ghost digits = if start == 1 { s.skip(1) } else { s };
    proof {
        if start == 0 {
            assert(digits =~= s.subrange(0, n as int));
        } else {
            assert(digits =~= s.subrange(1, n as int));
        }
    }
    if start == n {
        return None;
    }
    let limit: i128 = 9223372036854775808i128;
    let mut acc: i128 = 0;
    let mut i: usize = start;
    while i < n
        invariant
            n == s.len(),
            s == text@,
            start <= i <= n,
            start < n,
            digits == s.subrange(start as int, n as int),
            digits == (if s.len() > 0 && (s[0] == '-' || s[0] == '+') { s.skip(1) } else { s }),
            negative == (s.len() > 0 && s[0] == '-'),
            all_digits(s.subrange(start as int, i as int)),
            acc == decimal_value(s.subrange(start as int, i as int)),
            0 <= acc <= limit,
            limit == 9223372036854775808i128,
        decreases n - i,
    {
        let c = text.get_char(i);
        if c < '0' || c > '9' {
            proof {
                assert(digits[i - start] == c);
                assert(!all_digits(digits));
            }
            return None;
        }
        let next = acc * 10 + ((c as u32) - ('0' as u32)) as i128;
        proof {
            let prefix = s.subrange(start as int, i as int + 1);
            assert(prefix.drop_last() =~= s.subrange(start as int, i as int));
            assert(all_digits(prefix));
        }
        if next > limit {
            proof {
                let prefix = s.subrange(start as int, i as int + 1);
                if all_digits(digits) {
                    assert(digits.take(i - start + 1) =~= prefix);
                    lemma_decimal_prefix(digits, i - start + 1);
                }
            }
            return None;
        }
        acc = next;
        i = i + 1;
    }
    proof {
        assert(s.subrange(start as int, n as int) == digits);
    }
    if negative {
        Some((0 - acc) as i64)
    } else if acc < limit {
        Some(acc as i64)
    } else {
        None
    }
}

/// A source-qualified canonical selector. Display names never select patch inputs.
#[derive(Debug)]
pub struct PinnedElementSelector {
    pub id: String,
    pub document: String,
    pub sha256: String,
    pub range: [u64; 2],
    pub metaclass: String,
}

/// Identity of a pinned fact or a separately allocated correction output.
#[derive(Debug)]
pub enum PatchElement {
    Pinned(String),
    Output(String),
}

/// Only the literal and reference forms needed by the reviewed correction set.
#[derive(Debug)]
pub enum PatchValue {
    Boolean(bool),
    Integer(String),
    String(String),
    Enumeration(String),
    Reference(PatchElement),
}

/// Explicit canonical changes. Each change has a separate provenance output key.
#[derive(Debug)]
pub enum LibraryPatchOperation {
    Create { key: String, metaclass: String },
    Reclassify { key: String, element: PatchElement, metaclass: String },
    SetValue { key: String, element: PatchElement, property: String, value: PatchValue },
    Append { key: String, element: PatchElement, property: String, target: PatchElement },
}

/// One reviewed correction: the document it amends, the authorities that
/// justify it, and its operations in order.
#[derive(Debug)]
pub struct LibraryCorrectionEntry {
    pub id: String,
    pub document: String,
    pub authority: Vec<String>,
    pub operations: Vec<LibraryPatchOperation>,
}

/// Reviewed model correction data, distinct from descriptor and algorithm
/// errata. Selectors are keyed by name, each name once, and are checked in
/// the order held.
#[derive(Debug)]
pub struct OperationalLibraryPatchSet {
    pub profile_id: String,
    pub library_set: String,
    pub selectors: Vec<(String, PinnedElementSelector)>,
    pub entries: Vec<LibraryCorrectionEntry>,
}

pub open spec fn selector_keys_distinct(selectors: Seq<(String, PinnedElementSelector)>) -> bool {
    forall|i: int, j: int|
        0 <= i < selectors.len() && 0 <= j < selectors.len() && i != j ==> #[trigger] selectors[i].0@
            != #[trigger] selectors[j].0@
}

/// Selector names strictly ascend, as the keys of a map ordered by name.
pub open spec fn selector_keys_ascending(selectors: Seq<(String, PinnedElementSelector)>) -> bool {
    forall|i: int, j: int|
        0 <= i < j < selectors.len() ==> path_lt(#[trigger] selectors[i].0@, #[trigger] selectors[j].0@)
}

/// Names strictly ascend, as the members of a set ordered by name.
pub open spec fn names_ascending(names: Seq<String>) -> bool {
    forall|i: int, j: int| 0 <= i < j < names.len() ==> path_lt(#[trigger] names[i]@, #[trigger] names[j]@)
}

/// Whether `names` strictly ascend.
fn check_names_ascending(names: &Vec<String>) -> (ok: bool)
    ensures
        ok == names_ascending(names@),
{
    let mut i: usize = 0;
    while i < names.len()
        invariant
            0 <= i <= names.len(),
            forall|a: int, b: int| 0 <= a < b < names@.len() && a < i ==> path_lt(#[trigger] names@[a]@, #[trigger] names@[b]@),
        decreases names.len() - i,
    {
        let mut j: usize = i + 1;
        while j < names.len()
            invariant
                i < names.len(),
                i + 1 <= j <= names.len(),
                forall|a: int, b: int| 0 <= a < b < names@.len() && a < i ==> path_lt(#[trigger] names@[a]@, #[trigger] names@[b]@),
                forall|b: int| i < b < j ==> path_lt(names@[i as int]@, #[trigger] names@[b]@),
            decreases names.len() - j,
        {
            if !path_less(names[i].as_str(), names[j].as_str()) {
                assert(!path_lt(names@[i as int]@, names@[j as int]@));
                return false;
            }
            j += 1;
        }
        i += 1;
    }
    true
}

impl OperationalLibraryPatchSet {
    /// Selector names are distinct and ascending, and each entry's authorities
    /// are distinct and ascending: a name-ordered map and name-ordered sets.
    pub open spec fn wf(&self) -> bool {
        &&& selector_keys_distinct(self.selectors@)
        &&& selector_keys_ascending(self.selectors@)
        &&& forall|e: int| 0 <= e < self.entries@.len() ==> names_ascending(#[trigger] self.entries@[e].authority@)
    }

    /// Whether the selectors and every entry's authorities are in strict name order.
    pub fn is_well_formed(&self) -> (ok: bool)
        ensures
            ok == self.wf(),
    {
        let mut i: usize = 0;
        while i < self.selectors.len()
            invariant
                0 <= i <= self.selectors.len(),
                forall|a: int, b: int| 0 <= a < b < self.selectors@.len() && a < i ==> path_lt(#[trigger] self.selectors@[a].0@, #[trigger] self.selectors@[b].0@),
            decreases self.selectors.len() - i,
        {
            let mut j: usize = i + 1;
            while j < self.selectors.len()
                invariant
                    i < self.selectors.len(),
                    i + 1 <= j <= self.selectors.len(),
                    forall|a: int, b: int| 0 <= a < b < self.selectors@.len() && a < i ==> path_lt(#[trigger] self.selectors@[a].0@, #[trigger] self.selectors@[b].0@),
                    forall|b: int| i < b < j ==> path_lt(self.selectors@[i as int].0@, #[trigger] self.selectors@[b].0@),
                decreases self.selectors.len() - j,
            {
                if !path_less(self.selectors[i].0.as_str(), self.selectors[j].0.as_str()) {
                    assert(!path_lt(self.selectors@[i as int].0@, self.selectors@[j as int].0@));
                    return false;
                }
                j += 1;
            }
            i += 1;
        }
        assert forall|a: int, b: int|
            0 <= a < self.selectors@.len() && 0 <= b < self.selectors@.len() && a != b implies
            #[trigger] self.selectors@[a].0@ != #[trigger] self.selectors@[b].0@ by {
            lemma_path_order(self.selectors@[a].0@, self.selectors@[b].0@, self.selectors@[b].0@);
        }
        let mut e: usize = 0;
        while e < self.entries.len()
            invariant
                0 <= e <= self.entries.len(),
                selector_keys_distinct(self.selectors@),
                selector_keys_ascending(self.selectors@),
                forall|k: int| 0 <= k < e ==> names_ascending(#[trigger] self.entries@[k].authority@),
            decreases self.entries.len() - e,
        {
            if !check_names_ascending(&self.entries[e].authority) {
                return false;
            }
            e += 1;
        }
        true
    }

    /// Private, versioned and unambiguously encoded identity domain: the
    /// name-based identity of the JSON tuple of the domain tag, profile,
    /// library content set, library identity text, entry and key.
    pub fn output_id(&self, library: LibraryId, entry: &str, key: &str) -> (id: ElementId)
        ensures
            id == output_id_spec(self.profile_id@, self.library_set@, library, entry@, key@),
    {
        let library_text = identity_text(library.0);
        let encoded = json_six(
            "agentique-operational-library-output/1",
            self.profile_id.as_str(),
            self.library_set.as_str(),
            library_text.as_str(),
            entry,
            key,
        );
        proof {
            reveal_strlit("agentique-operational-library-output/1");
        }
        ElementId::from_u128(new_v5(OUTPUT_NAMESPACE, encoded.as_slice()))
    }
}

/// One verified library document as corrections read it.
#[derive(Debug)]
pub struct CorrectionDocument {
    pub document: DocumentId,
    pub path: String,
    pub sha256: String,
    pub library: LibraryId,
    /// The declared origin of the document's own facts.
    pub origin: DeclaredOrigin,
}

/// What applying corrections reads of an unpublished construction and of
/// its verified sources.
#[derive(Debug)]
pub struct CorrectionInputs {
    /// Whether the construction's baseline profile accepts the patch set's
    /// correction profile.
    pub profile_accepts: bool,
    /// Identity of the exact library content set the sources hold.
    pub content_set_id: String,
    pub documents: Vec<CorrectionDocument>,
    pub model: ConstructionView,
    pub source_map: LibrarySourceMap,
    pub references: Vec<PendingLibraryReference>,
    /// The property that stores an element's own identity text.
    pub element_id_property: PropertyId,
}

impl CorrectionInputs {
    pub open spec fn wf(&self) -> bool {
        &&& self.model.wf()
        &&& self.source_map.wf()
        &&& forall|i: int| 0 <= i < self.model.elements@.len() ==> (#[trigger] self.model.elements@[i]).wf()
    }
}

/// `i` is the first document with identity `id`.
pub open spec fn first_doc_with_id(docs: Seq<CorrectionDocument>, id: DocumentId, i: int) -> bool {
    &&& 0 <= i < docs.len()
    &&& docs[i].document == id
    &&& forall|j: int| 0 <= j < i ==> (#[trigger] docs[j]).document != id
}

/// Position of the first document with identity `id`.
pub open spec fn doc_with_id(docs: Seq<CorrectionDocument>, id: DocumentId) -> Option<int> {
    if exists|i: int| first_doc_with_id(docs, id, i) {
        Some(choose|i: int| first_doc_with_id(docs, id, i))
    } else {
        None
    }
}

/// `i` is the first document at `path`.
pub open spec fn first_doc_at(docs: Seq<CorrectionDocument>, path: Seq<char>, i: int) -> bool {
    &&& 0 <= i < docs.len()
    &&& docs[i].path@ == path
    &&& forall|j: int| 0 <= j < i ==> (#[trigger] docs[j]).path@ != path
}

/// Position of the first document at `path`.
pub open spec fn doc_at(docs: Seq<CorrectionDocument>, path: Seq<char>) -> Option<int> {
    if exists|i: int| first_doc_at(docs, path, i) {
        Some(choose|i: int| first_doc_at(docs, path, i))
    } else {
        None
    }
}

/// `i` is the first record with identity `id`.
pub open spec fn first_record(records: Seq<ElementRecord>, id: ElementId, i: int) -> bool {
    &&& 0 <= i < records.len()
    &&& records[i].id == id
    &&& forall|j: int| 0 <= j < i ==> (#[trigger] records[j]).id != id
}

/// Position of the record with identity `id`.
pub open spec fn record_of(records: Seq<ElementRecord>, id: ElementId) -> Option<int> {
    if exists|i: int| first_record(records, id, i) {
        Some(choose|i: int| first_record(records, id, i))
    } else {
        None
    }
}

/// `i` is the first slot of `property`.
pub open spec fn first_slot(slots: Seq<(PropertyId, SlotValue, Origin)>, property: PropertyId, i: int) -> bool {
    &&& 0 <= i < slots.len()
    &&& slots[i].0 == property
    &&& forall|j: int| 0 <= j < i ==> (#[trigger] slots[j]).0 != property
}

/// The stored value of `property` on record `id`, if the record has one.
pub open spec fn stored_slot(records: Seq<ElementRecord>, id: ElementId, property: PropertyId) -> Option<SlotValueView> {
    match record_of(records, id) {
        None => None,
        Some(r) => {
            let slots = records[r].slots@;
            if exists|i: int| first_slot(slots, property, i) {
                Some(slots[choose|i: int| first_slot(slots, property, i)].1@)
            } else {
                None
            }
        },
    }
}

fn find_doc_with_id(docs: &Vec<CorrectionDocument>, id: DocumentId) -> (found: Option<usize>)
    ensures
        found is None <==> doc_with_id(docs@, id) is None,
        found matches Some(i) ==> doc_with_id(docs@, id) == Some(i as int),
{
    let mut i: usize = 0;
    while i < docs.len()
        invariant
            i <= docs@.len(),
            forall|j: int| 0 <= j < i ==> (#[trigger] docs@[j]).document != id,
        decreases docs.len() - i,
    {
        if docs[i].document == id {
            proof {
                assert(first_doc_with_id(docs@, id, i as int));
                let c = choose|c: int| first_doc_with_id(docs@, id, c);
                if c < i {
                    assert(docs@[c].document != id);
                } else if c > i {
                    assert(docs@[i as int].document != id);
                }
            }
            return Some(i);
        }
        i = i + 1;
    }
    None
}

fn find_doc_at(docs: &Vec<CorrectionDocument>, path: &String) -> (found: Option<usize>)
    ensures
        found is None <==> doc_at(docs@, path@) is None,
        found matches Some(i) ==> doc_at(docs@, path@) == Some(i as int),
{
    let mut i: usize = 0;
    while i < docs.len()
        invariant
            i <= docs@.len(),
            forall|j: int| 0 <= j < i ==> (#[trigger] docs@[j]).path@ != path@,
        decreases docs.len() - i,
    {
        if docs[i].path == *path {
            proof {
                assert(first_doc_at(docs@, path@, i as int));
                let c = choose|c: int| first_doc_at(docs@, path@, c);
                if c < i {
                    assert(docs@[c].path@ != path@);
                } else if c > i {
                    assert(docs@[i as int].path@ != path@);
                }
            }
            return Some(i);
        }
        i = i + 1;
    }
    None
}

fn find_record(records: &Vec<ElementRecord>, id: ElementId) -> (found: Option<usize>)
    ensures
        found is None <==> record_of(records@, id) is None,
        found matches Some(i) ==> record_of(records@, id) == Some(i as int),
{
    let mut i: usize = 0;
    while i < records.len()
        invariant
            i <= records@.len(),
            forall|j: int| 0 <= j < i ==> (#[trigger] records@[j]).id != id,
        decreases records.len() - i,
    {
        if records[i].id == id {
            proof {
                assert(first_record(records@, id, i as int));
                let c = choose|c: int| first_record(records@, id, c);
                if c < i {
                    assert(records@[c].id != id);
                } else if c > i {
                    assert(records@[i as int].id != id);
                }
            }
            return Some(i);
        }
        i = i + 1;
    }
    None
}

/// The stored slot value of `property` on record `id`, copied.
fn find_stored_slot(records: &Vec<ElementRecord>, id: ElementId, property: PropertyId) -> (found: Option<SlotValue>)
    ensures
        match stored_slot(records@, id, property) {
            Some(v) => found matches Some(x) && x@ == v,
            None => found is None,
        },
{
    match find_record(records, id) {
        None => None,
        Some(r) => {
            let slots = &records[r].slots;
            let mut i: usize = 0;
            while i < slots.len()
                invariant
                    r < records@.len(),
                    record_of(records@, id) == Some(r as int),
                    slots@ == records@[r as int].slots@,
                    i <= slots@.len(),
                    forall|j: int| 0 <= j < i ==> (#[trigger] slots@[j]).0 != property,
                decreases slots.len() - i,
            {
                if slots[i].0 == property {
                    proof {
                        assert(first_slot(slots@, property, i as int));
                        let c = choose|c: int| first_slot(slots@, property, c);
                        if c < i {
                            assert(slots@[c].0 != property);
                        } else if c > i {
                            assert(slots@[i as int].0 != property);
                        }
                    }
                    return Some(slots[i].1.clone());
                }
                i = i + 1;
            }
            None
        },
    }
}

pub open spec fn profile_mismatch_message() -> Seq<char> {
    "Correction profile or exact library content set mismatch"@
}

pub open spec fn missing_input_message(key: Seq<char>) -> Seq<char> {
    "Missing patch input "@ + key
}

pub open spec fn selector_mismatch_message(key: Seq<char>) -> Seq<char> {
    "Reviewed selector mismatch: "@ + key
}

/// What checking one pinned selector gives: the selected element, or why it
/// was refused. The identity must name a record whose source evidence lies in
/// a verified document at the selector's path, digest and byte range, with the
/// selector's metaclass and the document's own declared origin.
pub open spec fn select_one(ctx: CorrectionInputs, key: Seq<char>, sel: PinnedElementSelector) -> Result<ElementId, Seq<char>> {
    match uuid_text_value(sel.id@) {
        None => Err(invalid_identity_message()),
        Some(raw) => {
            let id = ElementId(raw);
            match record_of(ctx.model.elements@, id) {
                None => Err(missing_input_message(key)),
                Some(ri) => match ctx.source_map.lookup(FactKey::Element(id)) {
                    None => Err("Patch input lacks pinned source"@),
                    Some(source) => match doc_with_id(ctx.documents@, source.document) {
                        None => Err("Patch source document missing"@),
                        Some(di) => {
                            let document = ctx.documents@[di];
                            let record = ctx.model.elements@[ri];
                            if document.path@ != sel.document@ || document.sha256@ != sel.sha256@
                                || source.range.start != sel.range@[0] || source.range.end
                                != sel.range@[1] {
                                Err(selector_mismatch_message(key))
                            } else {
                                match uuid_text_value(sel.metaclass@) {
                                    None => Err(invalid_identity_message()),
                                    Some(m) => if record.metaclass != MetaclassId(m)
                                        || record.origin != Origin::Declared(document.origin) {
                                        Err(selector_mismatch_message(key))
                                    } else {
                                        Ok(id)
                                    },
                                }
                            }
                        },
                    },
                },
            }
        },
    }
}

/// Checking the first `n` selectors in order: the selected element by
/// selector name, or the first refusal.
pub open spec fn select_prefix(
    selectors: Seq<(String, PinnedElementSelector)>,
    ctx: CorrectionInputs,
    n: nat,
) -> Result<Map<Seq<char>, ElementId>, Seq<char>>
    decreases n,
{
    if n == 0 {
        Ok(Map::empty())
    } else {
        match select_prefix(selectors, ctx, (n - 1) as nat) {
            Err(e) => Err(e),
            Ok(selected) => {
                let (key, sel) = selectors[n - 1];
                match select_one(ctx, key@, sel) {
                    Err(e) => Err(e),
                    Ok(id) => Ok(selected.insert(key@, id)),
                }
            },
        }
    }
}

proof fn lemma_select_err_sticks(selectors: Seq<(String, PinnedElementSelector)>, ctx: CorrectionInputs, k: nat, n: nat)
    requires
        k <= n,
        select_prefix(selectors, ctx, k) is Err,
    ensures
        select_prefix(selectors, ctx, n) == select_prefix(selectors, ctx, k),
    decreases n - k,
{
    if k < n {
        lemma_select_err_sticks(selectors, ctx, k, (n - 1) as nat);
    }
}

fn select_one_exec(inputs: &CorrectionInputs, key: &String, sel: &PinnedElementSelector) -> (r: Result<ElementId, LibraryLoadError>)
    requires
        inputs.wf(),
    ensures
        match select_one(*inputs, key@, *sel) {
            Ok(id) => r matches Ok(x) && x == id,
            Err(m) => r matches Err(e) && e@ == LoadErrorView::Interpretation(m),
        },
{
    let id = ElementId::from_u128(uuid(sel.id.as_str())?);
    let ri = match find_record(&inputs.model.elements, id) {
        Some(ri) => ri,
        None => {
            let mut message = String::from_str("Missing patch input ");
            message.append(key.as_str());
            return Err(LibraryLoadError::Interpretation(message));
        },
    };
    let source = match inputs.source_map.get(FactKey::Element(id)) {
        Some(source) => source,
        None => return Err(failure("Patch input lacks pinned source")),
    };
    let di = match find_doc_with_id(&inputs.documents, source.document) {
        Some(di) => di,
        None => return Err(failure("Patch source document missing")),
    };
    let document = &inputs.documents[di];
    let record = &inputs.model.elements[ri];
    let mismatch = document.path != sel.document || document.sha256 != sel.sha256
        || source.range.start != sel.range[0] || source.range.end != sel.range[1];
    if !mismatch {
        let metaclass = MetaclassId(uuid(sel.metaclass.as_str())?);
        if record.metaclass == metaclass && record.origin == Origin::Declared(document.origin) {
            return Ok(id);
        }
    }
    let mut message = String::from_str("Reviewed selector mismatch: ");
    message.append(key.as_str());
    Err(LibraryLoadError::Interpretation(message))
}

fn select_inputs(set: &OperationalLibraryPatchSet, inputs: &CorrectionInputs) -> (r: Result<Table<String, ElementId>, LibraryLoadError>)
    requires
        inputs.wf(),
    ensures
        match select_prefix(set.selectors@, *inputs, set.selectors@.len()) {
            Ok(m) => r matches Ok(t) && t.wf() && t@ == m,
            Err(msg) => r matches Err(e) && e@ == LoadErrorView::Interpretation(msg),
        },
{
    let mut selected: Table<String, ElementId> = Table::new();
    let mut i: usize = 0;
    while i < set.selectors.len()
        invariant
            inputs.wf(),
            i <= set.selectors@.len(),
            selected.wf(),
            select_prefix(set.selectors@, *inputs, i as nat) == Ok::<Map<Seq<char>, ElementId>, Seq<char>>(selected@),
        decreases set.selectors.len() - i,
    {
        let key = &set.selectors[i].0;
        let id = match select_one_exec(inputs, key, &set.selectors[i].1) {
            Ok(id) => id,
            Err(e) => {
                proof {
                    lemma_select_err_sticks(set.selectors@, *inputs, (i + 1) as nat, set.selectors@.len());
                }
                return Err(e);
            },
        };
        selected.insert(key.clone(), id);
        i = i + 1;
    }
    Ok(selected)
}

/// Name of output `key` of correction `entry`.
pub open spec fn output_name(entry: Seq<char>, key: Seq<char>) -> Seq<char> {
    entry + "/"@ + key
}

/// Allocated outputs by name, and the metaclass of each allocated element.
pub type OutputsView = (Map<Seq<char>, ElementId>, Map<ElementId, MetaclassId>);

/// Allocating the output of one operation: only creations allocate, and an
/// identity may neither exist already nor be allocated twice under one name.
pub open spec fn collect_op(
    set: OperationalLibraryPatchSet,
    ctx: CorrectionInputs,
    entry: LibraryCorrectionEntry,
    library: LibraryId,
    op: LibraryPatchOperation,
    acc: OutputsView,
) -> Result<OutputsView, Seq<char>> {
    match op {
        LibraryPatchOperation::Create { key, metaclass } => {
            let id = output_id_spec(set.profile_id@, set.library_set@, library, entry.id@, key@);
            let name = output_name(entry.id@, key@);
            if record_of(ctx.model.elements@, id) is Some || acc.0.contains_key(name) {
                Err("Correction output identity collision"@)
            } else {
                match uuid_text_value(metaclass@) {
                    None => Err(invalid_identity_message()),
                    Some(m) => Ok((acc.0.insert(name, id), acc.1.insert(id, MetaclassId(m)))),
                }
            }
        },
        _ => Ok(acc),
    }
}

/// Allocating the outputs of the first `k` operations of `entry`.
pub open spec fn collect_ops(
    set: OperationalLibraryPatchSet,
    ctx: CorrectionInputs,
    entry: LibraryCorrectionEntry,
    library: LibraryId,
    k: nat,
    acc: OutputsView,
) -> Result<OutputsView, Seq<char>>
    decreases k,
{
    if k == 0 {
        Ok(acc)
    } else {
        match collect_ops(set, ctx, entry, library, (k - 1) as nat, acc) {
            Err(e) => Err(e),
            Ok(a) => collect_op(set, ctx, entry, library, entry.operations@[k - 1], a),
        }
    }
}

/// Allocating the outputs of one entry, whose document must be verified and
/// whose authority must be stated.
pub open spec fn collect_entry(
    set: OperationalLibraryPatchSet,
    ctx: CorrectionInputs,
    entry: LibraryCorrectionEntry,
    acc: OutputsView,
) -> Result<OutputsView, Seq<char>> {
    match doc_at(ctx.documents@, entry.document@) {
        None => Err("Correction document missing"@),
        Some(di) => if entry.authority@.len() == 0 {
            Err("Correction authority missing"@)
        } else {
            collect_ops(set, ctx, entry, ctx.documents@[di].library, entry.operations@.len(), acc)
        },
    }
}

/// Allocating the outputs of the first `n` entries, in order.
pub open spec fn collect_outputs(set: OperationalLibraryPatchSet, ctx: CorrectionInputs, n: nat) -> Result<OutputsView, Seq<char>>
    decreases n,
{
    if n == 0 {
        Ok((Map::empty(), Map::empty()))
    } else {
        match collect_outputs(set, ctx, (n - 1) as nat) {
            Err(e) => Err(e),
            Ok(a) => collect_entry(set, ctx, set.entries@[n - 1], a),
        }
    }
}

proof fn lemma_collect_ops_err_sticks(
    set: OperationalLibraryPatchSet,
    ctx: CorrectionInputs,
    entry: LibraryCorrectionEntry,
    library: LibraryId,
    k: nat,
    n: nat,
    acc: OutputsView,
)
    requires
        k <= n,
        collect_ops(set, ctx, entry, library, k, acc) is Err,
    ensures
        collect_ops(set, ctx, entry, library, n, acc) == collect_ops(set, ctx, entry, library, k, acc),
    decreases n - k,
{
    if k < n {
        lemma_collect_ops_err_sticks(set, ctx, entry, library, k, (n - 1) as nat, acc);
    }
}

proof fn lemma_collect_outputs_err_sticks(set: OperationalLibraryPatchSet, ctx: CorrectionInputs, k: nat, n: nat)
    requires
        k <= n,
        collect_outputs(set, ctx, k) is Err,
    ensures
        collect_outputs(set, ctx, n) == collect_outputs(set, ctx, k),
    decreases n - k,
{
    if k < n {
        lemma_collect_outputs_err_sticks(set, ctx, k, (n - 1) as nat);
    }
}

fn output_name_exec(entry: &String, key: &String) -> (name: String)
    ensures
        name@ == output_name(entry@, key@),
{
    let mut name = entry.clone();
    name.append("/");
    name.append(key.as_str());
    name
}

fn collect_entry_exec(
    set: &OperationalLibraryPatchSet,
    inputs: &CorrectionInputs,
    entry: &LibraryCorrectionEntry,
    outputs_in: Table<String, ElementId>,
    classes_in: Table<ElementId, MetaclassId>,
) -> (r: Result<(Table<String, ElementId>, Table<ElementId, MetaclassId>), LibraryLoadError>)
    requires
        inputs.wf(),
        outputs_in.wf(),
        classes_in.wf(),
    ensures
        match collect_entry(*set, *inputs, *entry, (outputs_in@, classes_in@)) {
            Ok(a) => r matches Ok(t) && t.0.wf() && t.1.wf() && (t.0@, t.1@) == a,
            Err(msg) => r matches Err(e) && e@ == LoadErrorView::Interpretation(msg),
        },
{
    let ghost acc0 = (outputs_in@, classes_in@);
    let mut outputs = outputs_in;
    let mut classes = classes_in;
    let di = match find_doc_at(&inputs.documents, &entry.document) {
        Some(di) => di,
        None => return Err(failure("Correction document missing")),
    };
    if entry.authority.len() == 0 {
        return Err(failure("Correction authority missing"));
    }
    let library = inputs.documents[di].library;
    let mut k: usize = 0;
    while k < entry.operations.len()
        invariant
            inputs.wf(),
            outputs.wf(),
            classes.wf(),
            k <= entry.operations@.len(),
            di < inputs.documents@.len(),
            doc_at(inputs.documents@, entry.document@) == Some(di as int),
            entry.authority@.len() > 0,
            library == inputs.documents@[di as int].library,
            acc0 == (outputs_in@, classes_in@),
            collect_ops(*set, *inputs, *entry, library, k as nat, acc0) == Ok::<OutputsView, Seq<char>>((outputs@, classes@)),
        decreases entry.operations.len() - k,
    {
        match &entry.operations[k] {
            LibraryPatchOperation::Create { key, metaclass } => {
                let id = set.output_id(library, entry.id.as_str(), key.as_str());
                let name = output_name_exec(&entry.id, key);
                let taken = find_record(&inputs.model.elements, id).is_some() || outputs.contains(&name);
                if taken {
                    proof {
                        lemma_collect_ops_err_sticks(*set, *inputs, *entry, library, (k + 1) as nat, entry.operations@.len(), acc0);
                    }
                    return Err(failure("Correction output identity collision"));
                }
                let metaclass = match uuid(metaclass.as_str()) {
                    Ok(m) => MetaclassId(m),
                    Err(e) => {
                        proof {
                            lemma_collect_ops_err_sticks(*set, *inputs, *entry, library, (k + 1) as nat, entry.operations@.len(), acc0);
                        }
                        return Err(e);
                    },
                };
                outputs.insert(name, id);
                classes.insert(id, metaclass);
            },
            _ => {},
        }
        k = k + 1;
    }
    Ok((outputs, classes))
}

fn collect_outputs_exec(set: &OperationalLibraryPatchSet, inputs: &CorrectionInputs) -> (r: Result<(Table<String, ElementId>, Table<ElementId, MetaclassId>), LibraryLoadError>)
    requires
        inputs.wf(),
    ensures
        match collect_outputs(*set, *inputs, set.entries@.len()) {
            Ok(a) => r matches Ok(t) && t.0.wf() && t.1.wf() && (t.0@, t.1@) == a,
            Err(msg) => r matches Err(e) && e@ == LoadErrorView::Interpretation(msg),
        },
{
    let mut outputs: Table<String, ElementId> = Table::new();
    let mut classes: Table<ElementId, MetaclassId> = Table::new();
    let mut n: usize = 0;
    while n < set.entries.len()
        invariant
            inputs.wf(),
            outputs.wf(),
            classes.wf(),
            n <= set.entries@.len(),
            collect_outputs(*set, *inputs, n as nat) == Ok::<OutputsView, Seq<char>>((outputs@, classes@)),
        decreases set.entries.len() - n,
    {
        match collect_entry_exec(set, inputs, &set.entries[n], outputs, classes) {
            Ok((o, c)) => {
                outputs = o;
                classes = c;
            },
            Err(e) => {
                proof {
                    lemma_collect_outputs_err_sticks(*set, *inputs, (n + 1) as nat, set.entries@.len());
                }
                return Err(e);
            },
        }
        n = n + 1;
    }
    Ok((outputs, classes))
}

/// Provenance of a reviewed correction: the profile, entry and authorities
/// that justify it, the library and source digest it amends, and the output
/// key of the operation that made it.
#[derive(Debug)]
pub struct ReviewedCorrection {
    pub profile: String,
    pub entry: String,
    pub authority: Vec<String>,
    pub library: LibraryId,
    pub source_key: String,
    pub output_key: String,
}

/// Origin of a planned fact: the input fact's own declared origin, kept, or
/// the reviewed correction that replaced it.
#[derive(Debug)]
pub enum PlannedOrigin {
    Kept(DeclaredOrigin),
    Reviewed(ReviewedCorrection),
}

pub enum PlannedOriginView {
    Kept(DeclaredOrigin),
    Reviewed {
        profile: Seq<char>,
        entry: Seq<char>,
        authority: Seq<Seq<char>>,
        library: LibraryId,
        source_key: Seq<char>,
        output_key: Seq<char>,
    },
}

impl View for PlannedOrigin {
    type V = PlannedOriginView;

    open spec fn view(&self) -> PlannedOriginView {
        match self {
            PlannedOrigin::Kept(o) => PlannedOriginView::Kept(*o),
            PlannedOrigin::Reviewed(r) => PlannedOriginView::Reviewed {
                profile: r.profile@,
                entry: r.entry@,
                authority: segments_view(r.authority@),
                library: r.library,
                source_key: r.source_key@,
                output_key: r.output_key@,
            },
        }
    }
}

impl TableValue for PlannedOrigin {
    fn copy_value(&self) -> (copy: Self) {
        match self {
            PlannedOrigin::Kept(o) => PlannedOrigin::Kept(*o),
            PlannedOrigin::Reviewed(r) => PlannedOrigin::Reviewed(
                ReviewedCorrection {
                    profile: r.profile.clone(),
                    entry: r.entry.clone(),
                    authority: copy_segments(&r.authority),
                    library: r.library,
                    source_key: r.source_key.clone(),
                    output_key: r.output_key.clone(),
                },
            ),
        }
    }
}

impl TableValue for (SlotValue, PlannedOrigin) {
    fn copy_value(&self) -> (copy: Self) {
        (self.0.clone(), self.1.copy_value())
    }
}

/// Where a patch reference points: a selected input, or an output of the
/// same entry.
pub open spec fn resolve(
    selected: Map<Seq<char>, ElementId>,
    outputs: Map<Seq<char>, ElementId>,
    entry: Seq<char>,
    reference: PatchElement,
) -> Option<ElementId> {
    match reference {
        PatchElement::Pinned(key) => if selected.contains_key(key@) {
            Some(selected[key@])
        } else {
            None
        },
        PatchElement::Output(key) => if outputs.contains_key(output_name(entry, key@)) {
            Some(outputs[output_name(entry, key@)])
        } else {
            None
        },
    }
}

pub open spec fn unknown_reference_message() -> Seq<char> {
    "Unknown correction reference"@
}

/// The canonical value a patch value stands for.
pub open spec fn patch_value(
    selected: Map<Seq<char>, ElementId>,
    outputs: Map<Seq<char>, ElementId>,
    entry: Seq<char>,
    value: PatchValue,
) -> Result<ValueView, Seq<char>> {
    match value {
        PatchValue::Boolean(b) => Ok(ValueView::Boolean(b)),
        PatchValue::Integer(text) => match parse_i64_spec(text@) {
            None => Err("Invalid correction Integer"@),
            Some(i) => Ok(ValueView::Integer(i)),
        },
        PatchValue::String(text) => Ok(ValueView::String(text@)),
        PatchValue::Enumeration(text) => match uuid_text_value(text@) {
            None => Err(invalid_identity_message()),
            Some(e) => Ok(ValueView::Enumeration(EnumerationLiteralId(e))),
        },
        PatchValue::Reference(target) => match resolve(selected, outputs, entry, target) {
            None => Err(unknown_reference_message()),
            Some(t) => Ok(ValueView::Reference(t)),
        },
    }
}

pub open spec fn op_key(op: LibraryPatchOperation) -> String {
    match op {
        LibraryPatchOperation::Create { key, .. } => key,
        LibraryPatchOperation::Reclassify { key, .. } => key,
        LibraryPatchOperation::SetValue { key, .. } => key,
        LibraryPatchOperation::Append { key, .. } => key,
    }
}

/// Provenance of one operation of `entry` on `document`.
pub open spec fn reviewed_origin(
    set: OperationalLibraryPatchSet,
    entry: LibraryCorrectionEntry,
    document: CorrectionDocument,
    key: Seq<char>,
) -> PlannedOriginView {
    PlannedOriginView::Reviewed {
        profile: set.profile_id@,
        entry: entry.id@,
        authority: segments_view(entry.authority@),
        library: document.library,
        source_key: document.path@ + "#sha256:"@ + document.sha256@,
        output_key: key,
    }
}

/// Reclassifications, provenance, slot replacements and operation keys
/// gathered so far.
pub struct PlanState {
    pub classes: Map<ElementId, MetaclassId>,
    pub origins: Map<ElementId, PlannedOriginView>,
    pub slots: Map<(ElementId, PropertyId), (SlotValueView, PlannedOriginView)>,
    pub written: Map<(Seq<char>, Seq<char>), ()>,
}

/// Applying one operation. Its key must be new within the entry. A creation
/// records the output's provenance and its identity text; a reclassification
/// replaces the metaclass; a set replaces a slot at most once; an append
/// extends ordered storage, starting from a replacement made earlier, else
/// from the stored slot, else from nothing.
pub open spec fn apply_op(
    set: OperationalLibraryPatchSet,
    ctx: CorrectionInputs,
    selected: Map<Seq<char>, ElementId>,
    outputs: Map<Seq<char>, ElementId>,
    entry: LibraryCorrectionEntry,
    document: CorrectionDocument,
    op: LibraryPatchOperation,
    st: PlanState,
) -> Result<PlanState, Seq<char>> {
    let key = op_key(op)@;
    if st.written.contains_key((entry.id@, key)) {
        Err("Duplicate correction operation key"@)
    } else {
        let st = PlanState { written: st.written.insert((entry.id@, key), ()), ..st };
        let origin = reviewed_origin(set, entry, document, key);
        match op {
            LibraryPatchOperation::Create { key, .. } => {
                let id = outputs[output_name(entry.id@, key@)];
                Ok(
                    PlanState {
                        origins: st.origins.insert(id, origin),
                        slots: st.slots.insert(
                            (id, ctx.element_id_property),
                            (SlotValueView::Scalar(ValueView::String(identity_text_spec(id.0))), origin),
                        ),
                        ..st
                    },
                )
            },
            LibraryPatchOperation::Reclassify { element, metaclass, .. } => match resolve(
                selected,
                outputs,
                entry.id@,
                element,
            ) {
                None => Err(unknown_reference_message()),
                Some(id) => match uuid_text_value(metaclass@) {
                    None => Err(invalid_identity_message()),
                    Some(m) => Ok(
                        PlanState {
                            classes: st.classes.insert(id, MetaclassId(m)),
                            origins: st.origins.insert(id, origin),
                            ..st
                        },
                    ),
                },
            },
            LibraryPatchOperation::SetValue { element, property, value, .. } => match resolve(
                selected,
                outputs,
                entry.id@,
                element,
            ) {
                None => Err(unknown_reference_message()),
                Some(id) => match uuid_text_value(property@) {
                    None => Err(invalid_identity_message()),
                    Some(p) => match patch_value(selected, outputs, entry.id@, value) {
                        Err(e) => Err(e),
                        Ok(v) => if st.slots.contains_key((id, PropertyId(p))) {
                            Err("Repeated correction slot replacement"@)
                        } else {
                            Ok(
                                PlanState {
                                    slots: st.slots.insert(
                                        (id, PropertyId(p)),
                                        (SlotValueView::Scalar(v), origin),
                                    ),
                                    ..st
                                },
                            )
                        },
                    },
                },
            },
            LibraryPatchOperation::Append { element, property, target, .. } => match resolve(
                selected,
                outputs,
                entry.id@,
                element,
            ) {
                None => Err(unknown_reference_message()),
                Some(id) => match uuid_text_value(property@) {
                    None => Err(invalid_identity_message()),
                    Some(p) => {
                        let slot = (id, PropertyId(p));
                        let base = if st.slots.contains_key(slot) {
                            st.slots[slot].0
                        } else {
                            match stored_slot(ctx.model.elements@, id, PropertyId(p)) {
                                Some(v) => v,
                                None => SlotValueView::Ordered(seq![]),
                            }
                        };
                        match base {
                            SlotValueView::Scalar(_) => Err("Append requires ordered canonical storage"@),
                            SlotValueView::Ordered(values) => match resolve(
                                selected,
                                outputs,
                                entry.id@,
                                target,
                            ) {
                                None => Err(unknown_reference_message()),
                                Some(t) => Ok(
                                    PlanState {
                                        slots: st.slots.insert(
                                            slot,
                                            (
                                                SlotValueView::Ordered(values.push(ValueView::Reference(t))),
                                                origin,
                                            ),
                                        ),
                                        ..st
                                    },
                                ),
                            },
                        }
                    },
                },
            },
        }
    }
}

/// The tables that gather a plan while operations apply.
pub struct PlanTables {
    pub classes: Table<ElementId, MetaclassId>,
    pub origins: Table<ElementId, PlannedOrigin>,
    pub slots: Table<(ElementId, PropertyId), (SlotValue, PlannedOrigin)>,
    pub written: Table<(String, String), ()>,
}

impl PlanTables {
    pub open spec fn wf(&self) -> bool {
        &&& self.classes.wf()
        &&& self.origins.wf()
        &&& self.slots.wf()
        &&& self.written.wf()
    }

    pub open spec fn state(&self) -> PlanState {
        PlanState {
            classes: self.classes@,
            origins: self.origins@,
            slots: self.slots@,
            written: self.written@,
        }
    }
}

fn resolve_exec(
    selected: &Table<String, ElementId>,
    outputs: &Table<String, ElementId>,
    entry: &String,
    reference: &PatchElement,
) -> (target: Option<ElementId>)
    requires
        selected.wf(),
        outputs.wf(),
    ensures
        target == resolve(selected@, outputs@, entry@, *reference),
{
    match reference {
        PatchElement::Pinned(key) => selected.get(key),
        PatchElement::Output(key) => outputs.get(&output_name_exec(entry, key)),
    }
}

fn patch_value_exec(
    selected: &Table<String, ElementId>,
    outputs: &Table<String, ElementId>,
    entry: &String,
    value: &PatchValue,
) -> (r: Result<Value, LibraryLoadError>)
    requires
        selected.wf(),
        outputs.wf(),
    ensures
        match patch_value(selected@, outputs@, entry@, *value) {
            Ok(v) => r matches Ok(x) && x@ == v,
            Err(m) => r matches Err(e) && e@ == LoadErrorView::Interpretation(m),
        },
{
    match value {
        PatchValue::Boolean(b) => Ok(Value::Boolean(*b)),
        PatchValue::Integer(text) => match parse_i64(text.as_str()) {
            Some(i) => Ok(Value::Integer(i)),
            None => Err(failure("Invalid correction Integer")),
        },
        PatchValue::String(text) => Ok(Value::String(text.clone())),
        PatchValue::Enumeration(text) => Ok(Value::Enumeration(EnumerationLiteralId(uuid(text.as_str())?))),
        PatchValue::Reference(target) => match resolve_exec(selected, outputs, entry, target) {
            Some(t) => Ok(Value::Reference(t)),
            None => Err(failure("Unknown correction reference")),
        },
    }
}

fn reviewed_origin_exec(
    set: &OperationalLibraryPatchSet,
    entry: &LibraryCorrectionEntry,
    document: &CorrectionDocument,
    key: &String,
) -> (origin: PlannedOrigin)
    ensures
        origin@ == reviewed_origin(*set, *entry, *document, key@),
{
    let mut source_key = document.path.clone();
    source_key.append("#sha256:");
    source_key.append(document.sha256.as_str());
    PlannedOrigin::Reviewed(
        ReviewedCorrection {
            profile: set.profile_id.clone(),
            entry: entry.id.clone(),
            authority: copy_segments(&entry.authority),
            library: document.library,
            source_key,
            output_key: key.clone(),
        },
    )
}

fn op_key_exec(op: &LibraryPatchOperation) -> (key: &String)
    ensures
        key@ == op_key(*op)@,
{
    match op {
        LibraryPatchOperation::Create { key, .. } => key,
        LibraryPatchOperation::Reclassify { key, .. } => key,
        LibraryPatchOperation::SetValue { key, .. } => key,
        LibraryPatchOperation::Append { key, .. } => key,
    }
}

fn apply_op_exec(
    set: &OperationalLibraryPatchSet,
    inputs: &CorrectionInputs,
    selected: &Table<String, ElementId>,
    outputs: &Table<String, ElementId>,
    entry: &LibraryCorrectionEntry,
    document: &CorrectionDocument,
    op: &LibraryPatchOperation,
    st: &mut PlanTables,
) -> (r: Result<(), LibraryLoadError>)
    requires
        inputs.wf(),
        selected.wf(),
        outputs.wf(),
        old(st).wf(),
        op matches LibraryPatchOperation::Create { key, .. } ==> outputs@.contains_key(
            output_name(entry.id@, key@),
        ),
    ensures
        match apply_op(*set, *inputs, selected@, outputs@, *entry, *document, *op, old(st).state()) {
            Ok(next) => r is Ok && final(st).wf() && final(st).state() == next,
            Err(m) => r matches Err(e) && e@ == LoadErrorView::Interpretation(m),
        },
{
    let key = op_key_exec(op);
    if st.written.contains(&(entry.id.clone(), key.clone())) {
        return Err(failure("Duplicate correction operation key"));
    }
    st.written.insert((entry.id.clone(), key.clone()), ());
    let origin = reviewed_origin_exec(set, entry, document, key);
    match op {
        LibraryPatchOperation::Create { key, .. } => {
            let id = match outputs.get(&output_name_exec(&entry.id, key)) {
                Some(id) => id,
                None => return Err(failure("Unknown correction reference")),
            };
            st.origins.insert(id, origin.copy_value());
            st.slots.insert(
                (id, inputs.element_id_property),
                (SlotValue::Scalar(Value::String(identity_text(id.0))), origin),
            );
            Ok(())
        },
        LibraryPatchOperation::Reclassify { element, metaclass, .. } => {
            let id = match resolve_exec(selected, outputs, &entry.id, element) {
                Some(id) => id,
                None => return Err(failure("Unknown correction reference")),
            };
            let m = MetaclassId(uuid(metaclass.as_str())?);
            st.classes.insert(id, m);
            st.origins.insert(id, origin);
            Ok(())
        },
        LibraryPatchOperation::SetValue { element, property, value, .. } => {
            let id = match resolve_exec(selected, outputs, &entry.id, element) {
                Some(id) => id,
                None => return Err(failure("Unknown correction reference")),
            };
            let p = PropertyId(uuid(property.as_str())?);
            let v = patch_value_exec(selected, outputs, &entry.id, value)?;
            if st.slots.contains(&(id, p)) {
                return Err(failure("Repeated correction slot replacement"));
            }
            st.slots.insert((id, p), (SlotValue::Scalar(v), origin));
            Ok(())
        },
        LibraryPatchOperation::Append { element, property, target, .. } => {
            let id = match resolve_exec(selected, outputs, &entry.id, element) {
                Some(id) => id,
                None => return Err(failure("Unknown correction reference")),
            };
            let p = PropertyId(uuid(property.as_str())?);
            let base = match st.slots.get(&(id, p)) {
                Some(pair) => pair.0,
                None => match find_stored_slot(&inputs.model.elements, id, p) {
                    Some(v) => v,
                    None => SlotValue::Ordered(Vec::new()),
                },
            };
            proof {
                if base is Ordered {
                    assert(values_view(seq![]) =~= Seq::<ValueView>::empty());
                }
            }
            match base {
                SlotValue::Scalar(_) => Err(failure("Append requires ordered canonical storage")),
                SlotValue::Ordered(values) => {
                    let t = match resolve_exec(selected, outputs, &entry.id, target) {
                        Some(t) => t,
                        None => return Err(failure("Unknown correction reference")),
                    };
                    let mut values = values;
                    let ghost before = values@;
                    values.push(Value::Reference(t));
                    proof {
                        assert(values_view(values@) =~= values_view(before).push(ValueView::Reference(t)));
                    }
                    st.slots.insert((id, p), (SlotValue::Ordered(values), origin));
                    Ok(())
                },
            }
        },
    }
}

/// Applying the first `k` operations of `entry`, in order.
pub open spec fn apply_ops(
    set: OperationalLibraryPatchSet,
    ctx: CorrectionInputs,
    selected: Map<Seq<char>, ElementId>,
    outputs: Map<Seq<char>, ElementId>,
    entry: LibraryCorrectionEntry,
    document: CorrectionDocument,
    k: nat,
    st: PlanState,
) -> Result<PlanState, Seq<char>>
    decreases k,
{
    if k == 0 {
        Ok(st)
    } else {
        match apply_ops(set, ctx, selected, outputs, entry, document, (k - 1) as nat, st) {
            Err(e) => Err(e),
            Ok(next) => apply_op(set, ctx, selected, outputs, entry, document, entry.operations@[k - 1], next),
        }
    }
}

/// Applying the operations of the first `n` entries, each against the first
/// verified document at its path.
pub open spec fn apply_entries(
    set: OperationalLibraryPatchSet,
    ctx: CorrectionInputs,
    selected: Map<Seq<char>, ElementId>,
    outputs: Map<Seq<char>, ElementId>,
    n: nat,
    st: PlanState,
) -> Result<PlanState, Seq<char>>
    decreases n,
{
    if n == 0 {
        Ok(st)
    } else {
        match apply_entries(set, ctx, selected, outputs, (n - 1) as nat, st) {
            Err(e) => Err(e),
            Ok(next) => {
                let entry = set.entries@[n - 1];
                let document = ctx.documents@[doc_at(ctx.documents@, entry.document@).unwrap()];
                apply_ops(set, ctx, selected, outputs, entry, document, entry.operations@.len(), next)
            },
        }
    }
}

/// The output name an operation allocates, if it creates one.
pub open spec fn created_name(entry: Seq<char>, op: LibraryPatchOperation) -> Option<Seq<char>> {
    match op {
        LibraryPatchOperation::Create { key, .. } => Some(output_name(entry, key@)),
        _ => None,
    }
}

/// Every entry's document is verified and every creation has its output.
pub open spec fn outputs_cover(set: OperationalLibraryPatchSet, ctx: CorrectionInputs, outputs: Map<Seq<char>, ElementId>, n: nat) -> bool {
    forall|e: int| 0 <= e < n ==> {
        &&& doc_at(ctx.documents@, (#[trigger] set.entries@[e]).document@) is Some
        &&& forall|o: int| 0 <= o < set.entries@[e].operations@.len() ==> (created_name(
            set.entries@[e].id@,
            #[trigger] set.entries@[e].operations@[o],
        ) matches Some(name) ==> outputs.contains_key(name))
    }
}

proof fn lemma_collect_ops_cover(
    set: OperationalLibraryPatchSet,
    ctx: CorrectionInputs,
    entry: LibraryCorrectionEntry,
    library: LibraryId,
    k: nat,
    acc: OutputsView,
)
    requires
        k <= entry.operations@.len(),
        collect_ops(set, ctx, entry, library, k, acc) is Ok,
    ensures
        forall|name: Seq<char>| acc.0.contains_key(name) ==> (#[trigger] collect_ops(set, ctx, entry, library, k, acc)->Ok_0.0.contains_key(name)),
        forall|o: int| 0 <= o < k ==> (created_name(entry.id@, #[trigger] entry.operations@[o]) matches Some(name)
            ==> collect_ops(set, ctx, entry, library, k, acc)->Ok_0.0.contains_key(name)),
    decreases k,
{
    if k > 0 {
        lemma_collect_ops_cover(set, ctx, entry, library, (k - 1) as nat, acc);
    }
}

proof fn lemma_collect_outputs_cover(set: OperationalLibraryPatchSet, ctx: CorrectionInputs, n: nat)
    requires
        n <= set.entries@.len(),
        collect_outputs(set, ctx, n) is Ok,
    ensures
        outputs_cover(set, ctx, collect_outputs(set, ctx, n)->Ok_0.0, n),
    decreases n,
{
    if n > 0 {
        let prior = collect_outputs(set, ctx, (n - 1) as nat)->Ok_0;
        lemma_collect_outputs_cover(set, ctx, (n - 1) as nat);
        let entry = set.entries@[n - 1];
        let di = doc_at(ctx.documents@, entry.document@).unwrap();
        let library = ctx.documents@[di].library;
        lemma_collect_ops_cover(set, ctx, entry, library, entry.operations@.len(), prior);
        let result = collect_outputs(set, ctx, n)->Ok_0;
        assert forall|e: int| 0 <= e < n implies {
            &&& doc_at(ctx.documents@, (#[trigger] set.entries@[e]).document@) is Some
            &&& forall|o: int| 0 <= o < set.entries@[e].operations@.len() ==> (created_name(
                set.entries@[e].id@,
                #[trigger] set.entries@[e].operations@[o],
            ) matches Some(name) ==> result.0.contains_key(name))
        } by {
            if e < n - 1 {
                assert forall|o: int| 0 <= o < set.entries@[e].operations@.len() implies (created_name(
                    set.entries@[e].id@,
                    #[trigger] set.entries@[e].operations@[o],
                ) matches Some(name) ==> result.0.contains_key(name)) by {
                    if let Some(name) = created_name(set.entries@[e].id@, set.entries@[e].operations@[o]) {
                        assert(prior.0.contains_key(name));
                    }
                }
            }
        }
    }
}

proof fn lemma_apply_ops_err_sticks(
    set: OperationalLibraryPatchSet,
    ctx: CorrectionInputs,
    selected: Map<Seq<char>, ElementId>,
    outputs: Map<Seq<char>, ElementId>,
    entry: LibraryCorrectionEntry,
    document: CorrectionDocument,
    k: nat,
    n: nat,
    st: PlanState,
)
    requires
        k <= n,
        apply_ops(set, ctx, selected, outputs, entry, document, k, st) is Err,
    ensures
        apply_ops(set, ctx, selected, outputs, entry, document, n, st) == apply_ops(set, ctx, selected, outputs, entry, document, k, st),
    decreases n - k,
{
    if k < n {
        lemma_apply_ops_err_sticks(set, ctx, selected, outputs, entry, document, k, (n - 1) as nat, st);
    }
}

proof fn lemma_apply_entries_err_sticks(
    set: OperationalLibraryPatchSet,
    ctx: CorrectionInputs,
    selected: Map<Seq<char>, ElementId>,
    outputs: Map<Seq<char>, ElementId>,
    k: nat,
    n: nat,
    st: PlanState,
)
    requires
        k <= n,
        apply_entries(set, ctx, selected, outputs, k, st) is Err,
    ensures
        apply_entries(set, ctx, selected, outputs, n, st) == apply_entries(set, ctx, selected, outputs, k, st),
    decreases n - k,
{
    if k < n {
        lemma_apply_entries_err_sticks(set, ctx, selected, outputs, k, (n - 1) as nat, st);
    }
}

fn apply_entries_exec(
    set: &OperationalLibraryPatchSet,
    inputs: &CorrectionInputs,
    selected: &Table<String, ElementId>,
    outputs: &Table<String, ElementId>,
    st: &mut PlanTables,
) -> (r: Result<(), LibraryLoadError>)
    requires
        inputs.wf(),
        selected.wf(),
        outputs.wf(),
        old(st).wf(),
        outputs_cover(*set, *inputs, outputs@, set.entries@.len()),
    ensures
        match apply_entries(*set, *inputs, selected@, outputs@, set.entries@.len(), old(st).state()) {
            Ok(next) => r is Ok && final(st).wf() && final(st).state() == next,
            Err(m) => r matches Err(e) && e@ == LoadErrorView::Interpretation(m),
        },
{
    let ghost init = st.state();
    let mut n: usize = 0;
    while n < set.entries.len()
        invariant
            inputs.wf(),
            selected.wf(),
            outputs.wf(),
            st.wf(),
            n <= set.entries@.len(),
            outputs_cover(*set, *inputs, outputs@, set.entries@.len()),
            apply_entries(*set, *inputs, selected@, outputs@, n as nat, init) == Ok::<PlanState, Seq<char>>(st.state()),
            init == old(st).state(),
        decreases set.entries.len() - n,
    {
        let entry = &set.entries[n];
        assert(doc_at(inputs.documents@, set.entries@[n as int].document@) is Some);
        let di = match find_doc_at(&inputs.documents, &entry.document) {
            Some(di) => di,
            None => return Err(failure("Correction document missing")),
        };
        let document = &inputs.documents[di];
        let ghost start = st.state();
        let mut k: usize = 0;
        while k < entry.operations.len()
            invariant
                inputs.wf(),
                selected.wf(),
                outputs.wf(),
                st.wf(),
                n < set.entries@.len(),
                *entry == set.entries@[n as int],
                di < inputs.documents@.len(),
                doc_at(inputs.documents@, entry.document@) == Some(di as int),
                *document == inputs.documents@[di as int],
                k <= entry.operations@.len(),
                outputs_cover(*set, *inputs, outputs@, set.entries@.len()),
                apply_entries(*set, *inputs, selected@, outputs@, n as nat, init) == Ok::<PlanState, Seq<char>>(start),
                init == old(st).state(),
                apply_ops(*set, *inputs, selected@, outputs@, *entry, *document, k as nat, start) == Ok::<PlanState, Seq<char>>(st.state()),
            decreases entry.operations.len() - k,
        {
            assert(created_name(set.entries@[n as int].id@, set.entries@[n as int].operations@[k as int]) matches Some(name) ==> outputs@.contains_key(name));
            match apply_op_exec(set, inputs, selected, outputs, entry, document, &entry.operations[k], st) {
                Ok(()) => {},
                Err(e) => {
                    proof {
                        lemma_apply_ops_err_sticks(*set, *inputs, selected@, outputs@, *entry, *document, (k + 1) as nat, entry.operations@.len(), start);
                        lemma_apply_entries_err_sticks(*set, *inputs, selected@, outputs@, (n + 1) as nat, set.entries@.len(), init);
                    }
                    return Err(e);
                },
            }
            k = k + 1;
        }
        n = n + 1;
    }
    Ok(())
}

impl TableValue for (MetaclassId, PlannedOrigin) {
    fn copy_value(&self) -> (copy: Self) {
        (self.0, self.1.copy_value())
    }
}

/// Planned element creations, and the input slots carried over unchanged.
pub type AssemblyView = (
    Map<ElementId, (MetaclassId, PlannedOriginView)>,
    Map<(ElementId, PropertyId), (SlotValueView, PlannedOriginView)>,
);

/// Carrying over the first `k` slots of `record`: a slot a correction
/// replaced is left out; any other must have a declared origin, which it keeps.
pub open spec fn keep_slots(st: PlanState, record: ElementRecord, k: nat, acc: AssemblyView) -> Result<AssemblyView, Seq<char>>
    decreases k,
{
    if k == 0 {
        Ok(acc)
    } else {
        match keep_slots(st, record, (k - 1) as nat, acc) {
            Err(e) => Err(e),
            Ok(a) => {
                let slot = record.slots@[k - 1];
                if st.slots.contains_key((record.id, slot.0)) {
                    Ok(a)
                } else {
                    match slot.2 {
                        Origin::Declared(o) => Ok(
                            (a.0, a.1.insert((record.id, slot.0), (slot.1@, PlannedOriginView::Kept(o)))),
                        ),
                        Origin::Derived => Err("Correction input slot must be declared"@),
                    }
                }
            },
        }
    }
}

/// Carrying over one input record: it must be declared; its metaclass and
/// provenance are the corrected ones where a correction changed them.
pub open spec fn assemble_record(st: PlanState, record: ElementRecord, acc: AssemblyView) -> Result<AssemblyView, Seq<char>> {
    match record.origin {
        Origin::Derived => Err("Correction input must be declared canonical facts"@),
        Origin::Declared(o) => {
            let class = if st.classes.contains_key(record.id) {
                st.classes[record.id]
            } else {
                record.metaclass
            };
            let origin = if st.origins.contains_key(record.id) {
                st.origins[record.id]
            } else {
                PlannedOriginView::Kept(o)
            };
            keep_slots(st, record, record.slots@.len(), (acc.0.insert(record.id, (class, origin)), acc.1))
        },
    }
}

/// Carrying over the first `n` input records, in order.
pub open spec fn assemble(st: PlanState, records: Seq<ElementRecord>, n: nat) -> Result<AssemblyView, Seq<char>>
    decreases n,
{
    if n == 0 {
        Ok((Map::empty(), Map::empty()))
    } else {
        match assemble(st, records, (n - 1) as nat) {
            Err(e) => Err(e),
            Ok(a) => assemble_record(st, records[n - 1], a),
        }
    }
}

proof fn lemma_keep_slots_err_sticks(st: PlanState, record: ElementRecord, k: nat, n: nat, acc: AssemblyView)
    requires
        k <= n,
        keep_slots(st, record, k, acc) is Err,
    ensures
        keep_slots(st, record, n, acc) == keep_slots(st, record, k, acc),
    decreases n - k,
{
    if k < n {
        lemma_keep_slots_err_sticks(st, record, k, (n - 1) as nat, acc);
    }
}

proof fn lemma_assemble_err_sticks(st: PlanState, records: Seq<ElementRecord>, k: nat, n: nat)
    requires
        k <= n,
        assemble(st, records, k) is Err,
    ensures
        assemble(st, records, n) == assemble(st, records, k),
    decreases n - k,
{
    if k < n {
        lemma_assemble_err_sticks(st, records, k, (n - 1) as nat);
    }
}

fn assemble_exec(st: &PlanTables, records: &Vec<ElementRecord>) -> (r: Result<
    (Table<ElementId, (MetaclassId, PlannedOrigin)>, Table<(ElementId, PropertyId), (SlotValue, PlannedOrigin)>),
    LibraryLoadError,
>)
    requires
        st.wf(),
    ensures
        match assemble(st.state(), records@, records@.len()) {
            Ok(a) => r matches Ok(t) && t.0.wf() && t.1.wf() && (t.0@, t.1@) == a,
            Err(m) => r matches Err(e) && e@ == LoadErrorView::Interpretation(m),
        },
{
    let mut creates: Table<ElementId, (MetaclassId, PlannedOrigin)> = Table::new();
    let mut kept: Table<(ElementId, PropertyId), (SlotValue, PlannedOrigin)> = Table::new();
    let mut n: usize = 0;
    while n < records.len()
        invariant
            st.wf(),
            creates.wf(),
            kept.wf(),
            n <= records@.len(),
            assemble(st.state(), records@, n as nat) == Ok::<AssemblyView, Seq<char>>((creates@, kept@)),
        decreases records.len() - n,
    {
        let record = &records[n];
        let declared = match record.origin {
            Origin::Declared(o) => o,
            Origin::Derived => {
                proof {
                    lemma_assemble_err_sticks(st.state(), records@, (n + 1) as nat, records@.len());
                }
                return Err(failure("Correction input must be declared canonical facts"));
            },
        };
        let class = match st.classes.get(&record.id) {
            Some(c) => c,
            None => record.metaclass,
        };
        let origin = match st.origins.get(&record.id) {
            Some(o) => o,
            None => PlannedOrigin::Kept(declared),
        };
        let ghost before = (creates@, kept@);
        creates.insert(record.id, (class, origin));
        let ghost start = (creates@, kept@);
        let mut k: usize = 0;
        while k < record.slots.len()
            invariant
                st.wf(),
                creates.wf(),
                kept.wf(),
                n < records@.len(),
                *record == records@[n as int],
                k <= record.slots@.len(),
                assemble(st.state(), records@, n as nat) == Ok::<AssemblyView, Seq<char>>(before),
                assemble_record(st.state(), *record, before) == keep_slots(st.state(), *record, record.slots@.len(), start),
                keep_slots(st.state(), *record, k as nat, start) == Ok::<AssemblyView, Seq<char>>((creates@, kept@)),
            decreases record.slots.len() - k,
        {
            let property = record.slots[k].0;
            if !st.slots.contains(&(record.id, property)) {
                match record.slots[k].2 {
                    Origin::Declared(o) => {
                        kept.insert((record.id, property), (record.slots[k].1.clone(), PlannedOrigin::Kept(o)));
                    },
                    Origin::Derived => {
                        proof {
                            lemma_keep_slots_err_sticks(st.state(), *record, (k + 1) as nat, record.slots@.len(), start);
                            lemma_assemble_err_sticks(st.state(), records@, (n + 1) as nat, records@.len());
                        }
                        return Err(failure("Correction input slot must be declared"));
                    },
                }
            }
            k = k + 1;
        }
        n = n + 1;
    }
    Ok((creates, kept))
}

/// Creation of every allocated output, with its final metaclass and provenance.
pub open spec fn output_creates(st: PlanState, outputs: Map<Seq<char>, ElementId>) -> Map<ElementId, (MetaclassId, PlannedOriginView)> {
    Map::new(
        |id: ElementId| exists|name: Seq<char>| outputs.contains_key(name) && outputs[name] == id,
        |id: ElementId| (st.classes[id], st.origins[id]),
    )
}

/// Every output has a metaclass and a provenance.
pub open spec fn outputs_complete(st: PlanState, outputs: Map<Seq<char>, ElementId>) -> bool {
    forall|name: Seq<char>| #[trigger] outputs.contains_key(name) ==> st.classes.contains_key(outputs[name])
        && st.origins.contains_key(outputs[name])
}

fn output_creates_exec(st: &PlanTables, outputs: &Table<String, ElementId>) -> (t: Table<ElementId, (MetaclassId, PlannedOrigin)>)
    requires
        st.wf(),
        outputs.wf(),
        outputs_complete(st.state(), outputs@),
    ensures
        t.wf(),
        t@ == output_creates(st.state(), outputs@),
{
    let mut t: Table<ElementId, (MetaclassId, PlannedOrigin)> = Table::new();
    let ghost classes = st.classes@;
    let ghost origins = st.origins@;
    proof {
        outputs.lemma_keys();
        outputs.lemma_values();
        assert(t@ =~= Map::new(
            |id: ElementId| exists|j: int| 0 <= j < 0 && outputs.value_at(j) == id,
            |id: ElementId| (classes[id], origins[id]),
        ));
    }
    let mut i: usize = 0;
    while i < outputs.len()
        invariant
            st.wf(),
            outputs.wf(),
            t.wf(),
            classes == st.classes@,
            origins == st.origins@,
            outputs_complete(st.state(), outputs@),
            i <= outputs.size(),
            forall|j: int| 0 <= j < outputs.size() ==> outputs@.contains_key(#[trigger] outputs.key_at(j)),
            forall|j: int| 0 <= j < outputs.size() ==> outputs@[#[trigger] outputs.key_at(j)] == outputs.value_at(j),
            t@ == Map::new(
                |id: ElementId| exists|j: int| 0 <= j < i && outputs.value_at(j) == id,
                |id: ElementId| (classes[id], origins[id]),
            ),
        decreases outputs.size() - i,
    {
        let (name, id) = outputs.pair_at(i);
        let ghost before = t@;
        let class = match st.classes.get(&id) {
            Some(c) => c,
            None => {
                proof {
                    assert(outputs@.contains_key(name@));
                }
                MetaclassId(0)
            },
        };
        let origin = match st.origins.get(&id) {
            Some(o) => o,
            None => {
                proof {
                    assert(outputs@.contains_key(name@));
                }
                PlannedOrigin::Kept(DeclaredOrigin::ReviewedCorrection)
            },
        };
        t.insert(id, (class, origin));
        proof {
            assert(t@ =~= Map::new(
                |x: ElementId| exists|j: int| 0 <= j < i + 1 && outputs.value_at(j) == x,
                |x: ElementId| (classes[x], origins[x]),
            )) by {
                assert forall|x: ElementId| (exists|j: int| 0 <= j < i + 1 && outputs.value_at(j) == x) implies before.insert(id, (classes[id], origins[id])).contains_key(x) by {
                    let j = choose|j: int| 0 <= j < i + 1 && outputs.value_at(j) == x;
                    if j < i {
                        assert(before.contains_key(x));
                    }
                }
                assert forall|x: ElementId| before.insert(id, (classes[id], origins[id])).contains_key(x) implies (exists|j: int| 0 <= j < i + 1 && outputs.value_at(j) == x) by {
                    if x == id {
                        assert(outputs.value_at(i as int) == x);
                    } else {
                        let j = choose|j: int| 0 <= j < i && outputs.value_at(j) == x;
                        assert(0 <= j < i + 1 && outputs.value_at(j) == x);
                    }
                }
            }
        }
        i = i + 1;
    }
    proof {
        assert(t@ =~= output_creates(st.state(), outputs@)) by {
            assert forall|x: ElementId| #[trigger] t@.contains_key(x) == output_creates(st.state(), outputs@).contains_key(x) by {
                if exists|j: int| 0 <= j < outputs.size() && outputs.value_at(j) == x {
                    let j = choose|j: int| 0 <= j < outputs.size() && outputs.value_at(j) == x;
                    let name = outputs.key_at(j);
                    assert(outputs@.contains_key(name) && outputs@[name] == x);
                }
                if exists|name: Seq<char>| outputs@.contains_key(name) && outputs@[name] == x {
                    let name = choose|name: Seq<char>| outputs@.contains_key(name) && outputs@[name] == x;
                    outputs.lemma_keys();
                    let j = choose|j: int| 0 <= j < outputs.size() && #[trigger] outputs.key_at(j) == name;
                    assert(outputs.value_at(j) == x);
                }
            }
        }
    }
    t
}

/// Each allocated output has a metaclass, and was allocated by a creation
/// among the first `n` entries.
pub open spec fn outputs_sound(set: OperationalLibraryPatchSet, a: OutputsView, n: nat) -> bool {
    forall|name: Seq<char>| #[trigger] a.0.contains_key(name) ==> {
        &&& a.1.contains_key(a.0[name])
        &&& exists|e: int, o: int|
            0 <= e < n && 0 <= o < set.entries@[e].operations@.len() && #[trigger] created_name(
                set.entries@[e].id@,
                set.entries@[e].operations@[o],
            ) == Some(name)
    }
}

proof fn lemma_collect_ops_sound(
    set: OperationalLibraryPatchSet,
    ctx: CorrectionInputs,
    entry_index: int,
    library: LibraryId,
    k: nat,
    acc: OutputsView,
)
    requires
        0 <= entry_index < set.entries@.len(),
        k <= set.entries@[entry_index].operations@.len(),
        outputs_sound(set, acc, entry_index as nat),
        collect_ops(set, ctx, set.entries@[entry_index], library, k, acc) is Ok,
    ensures
        outputs_sound(set, collect_ops(set, ctx, set.entries@[entry_index], library, k, acc)->Ok_0, (entry_index + 1) as nat),
    decreases k,
{
    let entry = set.entries@[entry_index];
    if k == 0 {
        assert forall|name: Seq<char>| #[trigger] acc.0.contains_key(name) implies {
            &&& acc.1.contains_key(acc.0[name])
            &&& exists|e: int, o: int|
                0 <= e < entry_index + 1 && 0 <= o < set.entries@[e].operations@.len() && #[trigger] created_name(
                    set.entries@[e].id@,
                    set.entries@[e].operations@[o],
                ) == Some(name)
        } by {
            let (e, o) = choose|e: int, o: int|
                0 <= e < entry_index && 0 <= o < set.entries@[e].operations@.len() && #[trigger] created_name(
                    set.entries@[e].id@,
                    set.entries@[e].operations@[o],
                ) == Some(name);
            assert(0 <= e < entry_index + 1);
        }
    } else {
        lemma_collect_ops_sound(set, ctx, entry_index, library, (k - 1) as nat, acc);
        let prior = collect_ops(set, ctx, entry, library, (k - 1) as nat, acc)->Ok_0;
        let result = collect_ops(set, ctx, entry, library, k, acc)->Ok_0;
        let op = entry.operations@[k - 1];
        assert forall|name: Seq<char>| #[trigger] result.0.contains_key(name) implies {
            &&& result.1.contains_key(result.0[name])
            &&& exists|e: int, o: int|
                0 <= e < entry_index + 1 && 0 <= o < set.entries@[e].operations@.len() && #[trigger] created_name(
                    set.entries@[e].id@,
                    set.entries@[e].operations@[o],
                ) == Some(name)
        } by {
            if prior.0.contains_key(name) && created_name(entry.id@, op) != Some(name) {
                assert(prior.1.contains_key(prior.0[name]));
            } else {
                assert(created_name(set.entries@[entry_index].id@, set.entries@[entry_index].operations@[k - 1]) == Some(name));
            }
        }
    }
}

proof fn lemma_collect_outputs_sound(set: OperationalLibraryPatchSet, ctx: CorrectionInputs, n: nat)
    requires
        n <= set.entries@.len(),
        collect_outputs(set, ctx, n) is Ok,
    ensures
        outputs_sound(set, collect_outputs(set, ctx, n)->Ok_0, n),
    decreases n,
{
    if n > 0 {
        lemma_collect_outputs_sound(set, ctx, (n - 1) as nat);
        let prior = collect_outputs(set, ctx, (n - 1) as nat)->Ok_0;
        let entry = set.entries@[n - 1];
        let di = doc_at(ctx.documents@, entry.document@).unwrap();
        lemma_collect_ops_sound(set, ctx, n - 1, ctx.documents@[di].library, entry.operations@.len(), prior);
    }
}

/// What applying one operation keeps: no metaclass or provenance is dropped,
/// and a creation gives its output a provenance.
proof fn lemma_apply_op_grows(
    set: OperationalLibraryPatchSet,
    ctx: CorrectionInputs,
    selected: Map<Seq<char>, ElementId>,
    outputs: Map<Seq<char>, ElementId>,
    entry: LibraryCorrectionEntry,
    document: CorrectionDocument,
    op: LibraryPatchOperation,
    st: PlanState,
)
    requires
        apply_op(set, ctx, selected, outputs, entry, document, op, st) is Ok,
    ensures
        ({
            let next = apply_op(set, ctx, selected, outputs, entry, document, op, st)->Ok_0;
            &&& forall|x: ElementId| st.classes.contains_key(x) ==> #[trigger] next.classes.contains_key(x)
            &&& forall|x: ElementId| st.origins.contains_key(x) ==> #[trigger] next.origins.contains_key(x)
            &&& created_name(entry.id@, op) matches Some(name) ==> next.origins.contains_key(outputs[name])
        }),
{
}

proof fn lemma_apply_ops_grows(
    set: OperationalLibraryPatchSet,
    ctx: CorrectionInputs,
    selected: Map<Seq<char>, ElementId>,
    outputs: Map<Seq<char>, ElementId>,
    entry: LibraryCorrectionEntry,
    document: CorrectionDocument,
    k: nat,
    st: PlanState,
)
    requires
        k <= entry.operations@.len(),
        apply_ops(set, ctx, selected, outputs, entry, document, k, st) is Ok,
    ensures
        ({
            let next = apply_ops(set, ctx, selected, outputs, entry, document, k, st)->Ok_0;
            &&& forall|x: ElementId| st.classes.contains_key(x) ==> #[trigger] next.classes.contains_key(x)
            &&& forall|x: ElementId| st.origins.contains_key(x) ==> #[trigger] next.origins.contains_key(x)
            &&& forall|o: int| 0 <= o < k ==> (created_name(entry.id@, #[trigger] entry.operations@[o]) matches Some(name)
                ==> next.origins.contains_key(outputs[name]))
        }),
    decreases k,
{
    if k > 0 {
        lemma_apply_ops_grows(set, ctx, selected, outputs, entry, document, (k - 1) as nat, st);
        let prior = apply_ops(set, ctx, selected, outputs, entry, document, (k - 1) as nat, st)->Ok_0;
        lemma_apply_op_grows(set, ctx, selected, outputs, entry, document, entry.operations@[k - 1], prior);
    }
}

proof fn lemma_apply_entries_grows(
    set: OperationalLibraryPatchSet,
    ctx: CorrectionInputs,
    selected: Map<Seq<char>, ElementId>,
    outputs: Map<Seq<char>, ElementId>,
    n: nat,
    st: PlanState,
)
    requires
        n <= set.entries@.len(),
        apply_entries(set, ctx, selected, outputs, n, st) is Ok,
    ensures
        ({
            let next = apply_entries(set, ctx, selected, outputs, n, st)->Ok_0;
            &&& forall|x: ElementId| st.classes.contains_key(x) ==> #[trigger] next.classes.contains_key(x)
            &&& forall|e: int, o: int| 0 <= e < n && 0 <= o < set.entries@[e].operations@.len() ==> (
                #[trigger] created_name(set.entries@[e].id@, set.entries@[e].operations@[o]) matches Some(name)
                ==> next.origins.contains_key(outputs[name]))
        }),
    decreases n,
{
    if n > 0 {
        lemma_apply_entries_grows(set, ctx, selected, outputs, (n - 1) as nat, st);
        let prior = apply_entries(set, ctx, selected, outputs, (n - 1) as nat, st)->Ok_0;
        let entry = set.entries@[n - 1];
        let document = ctx.documents@[doc_at(ctx.documents@, entry.document@).unwrap()];
        lemma_apply_ops_grows(set, ctx, selected, outputs, entry, document, entry.operations@.len(), prior);
        let next = apply_entries(set, ctx, selected, outputs, n, st)->Ok_0;
        assert forall|e: int, o: int| 0 <= e < n && 0 <= o < set.entries@[e].operations@.len() implies (
            #[trigger] created_name(set.entries@[e].id@, set.entries@[e].operations@[o]) matches Some(name)
            ==> next.origins.contains_key(outputs[name])) by {
            if e < n - 1 {
                if let Some(name) = created_name(set.entries@[e].id@, set.entries@[e].operations@[o]) {
                    assert(prior.origins.contains_key(outputs[name]));
                }
            } else {
                assert(created_name(entry.id@, entry.operations@[o]) == created_name(set.entries@[e].id@, set.entries@[e].operations@[o]));
            }
        }
    }
}

/// The canonical change set that reviewed corrections make of a construction,
/// and the source references it leaves pending or supersedes. Occurrences
/// carry over unchanged.
#[derive(Debug)]
pub struct CorrectionPlan {
    /// Creation of every input record, with its final metaclass and provenance.
    pub creates: Table<ElementId, (MetaclassId, PlannedOrigin)>,
    /// Creation of every allocated output.
    pub output_creates: Table<ElementId, (MetaclassId, PlannedOrigin)>,
    /// Input slots carried over with their own declared origin.
    pub kept_slots: Table<(ElementId, PropertyId), (SlotValue, PlannedOrigin)>,
    /// Slots the corrections wrote.
    pub corrected_slots: Table<(ElementId, PropertyId), (SlotValue, PlannedOrigin)>,
    /// References still to be resolved, in input order.
    pub references: Vec<PendingLibraryReference>,
    /// References whose slot a reviewed correction now states, in input order.
    pub superseded_references: Vec<PendingLibraryReference>,
}

pub struct PlanView {
    pub creates: Map<ElementId, (MetaclassId, PlannedOriginView)>,
    pub output_creates: Map<ElementId, (MetaclassId, PlannedOriginView)>,
    pub kept_slots: Map<(ElementId, PropertyId), (SlotValueView, PlannedOriginView)>,
    pub corrected_slots: Map<(ElementId, PropertyId), (SlotValueView, PlannedOriginView)>,
    pub references: Seq<ReferenceKey>,
    pub superseded_references: Seq<ReferenceKey>,
}

pub open spec fn reference_keys(refs: Seq<PendingLibraryReference>) -> Seq<ReferenceKey> {
    refs.map_values(|r: PendingLibraryReference| reference_key(r))
}

impl CorrectionPlan {
    pub open spec fn wf(&self) -> bool {
        &&& self.creates.wf()
        &&& self.output_creates.wf()
        &&& self.kept_slots.wf()
        &&& self.corrected_slots.wf()
    }

    pub open spec fn view_is(&self, v: PlanView) -> bool {
        &&& self.wf()
        &&& self.creates@ == v.creates
        &&& self.output_creates@ == v.output_creates
        &&& self.kept_slots@ == v.kept_slots
        &&& self.corrected_slots@ == v.corrected_slots
        &&& reference_keys(self.references@) == v.references
        &&& reference_keys(self.superseded_references@) == v.superseded_references
    }
}

/// A provenance that names a reviewed correction.
pub open spec fn is_reviewed(origin: PlannedOriginView) -> bool {
    origin is Reviewed || origin == PlannedOriginView::Kept(DeclaredOrigin::ReviewedCorrection)
}

/// Whether the slot `key` of the planned construction has reviewed provenance.
pub open spec fn slot_reviewed(
    kept: Map<(ElementId, PropertyId), (SlotValueView, PlannedOriginView)>,
    corrected: Map<(ElementId, PropertyId), (SlotValueView, PlannedOriginView)>,
    key: (ElementId, PropertyId),
) -> bool {
    if corrected.contains_key(key) {
        is_reviewed(corrected[key].1)
    } else {
        kept.contains_key(key) && is_reviewed(kept[key].1)
    }
}

/// The first `n` references whose slot is reviewed (when `superseded`) or
/// not (otherwise), in order.
pub open spec fn split_references(
    refs: Seq<PendingLibraryReference>,
    kept: Map<(ElementId, PropertyId), (SlotValueView, PlannedOriginView)>,
    corrected: Map<(ElementId, PropertyId), (SlotValueView, PlannedOriginView)>,
    superseded: bool,
    n: nat,
) -> Seq<ReferenceKey>
    decreases n,
{
    if n == 0 {
        seq![]
    } else {
        let prior = split_references(refs, kept, corrected, superseded, (n - 1) as nat);
        let r = refs[n - 1];
        if slot_reviewed(kept, corrected, (r.relationship, r.property)) == superseded {
            prior.push(reference_key(r))
        } else {
            prior
        }
    }
}

impl CorrectionInputs {
    /// Every input occurrence is a declared fact.
    pub open spec fn occurrences_declared(&self) -> bool {
        forall|i: int| 0 <= i < self.model.occurrences@.len() ==> (#[trigger] self.model.occurrences@[i]).origin is Declared
    }
}

impl OperationalLibraryPatchSet {
    /// The plan of applying this patch set: the profile and content set must
    /// match; every selector must check; outputs are allocated for all
    /// entries before any operation applies; then input records are carried
    /// over with corrected metaclasses and provenance, replaced slots are
    /// left out, and references whose slot is now reviewed are superseded.
    pub open spec fn apply_spec(self, ctx: CorrectionInputs) -> Result<PlanView, Seq<char>> {
        if !ctx.profile_accepts || ctx.content_set_id@ != self.library_set@ {
            Err(profile_mismatch_message())
        } else {
            match select_prefix(self.selectors@, ctx, self.selectors@.len()) {
                Err(e) => Err(e),
                Ok(selected) => match collect_outputs(self, ctx, self.entries@.len()) {
                    Err(e) => Err(e),
                    Ok(allocated) => {
                        let start = PlanState {
                            classes: allocated.1,
                            origins: Map::empty(),
                            slots: Map::empty(),
                            written: Map::empty(),
                        };
                        match apply_entries(self, ctx, selected, allocated.0, self.entries@.len(), start) {
                            Err(e) => Err(e),
                            Ok(st) => match assemble(st, ctx.model.elements@, ctx.model.elements@.len()) {
                                Err(e) => Err(e),
                                Ok(a) => {
                                    let refs = ctx.references@;
                                    Ok(
                                        PlanView {
                                            creates: a.0,
                                            output_creates: output_creates(st, allocated.0),
                                            kept_slots: a.1,
                                            corrected_slots: st.slots,
                                            references: split_references(refs, a.1, st.slots, false, refs.len()),
                                            superseded_references: split_references(refs, a.1, st.slots, true, refs.len()),
                                        },
                                    )
                                },
                            },
                        }
                    },
                },
            }
        }
    }

    /// Apply to a separate canonical construction. All preconditions are
    /// checked against the original input before any corrected plan is returned.
    pub fn apply(&self, inputs: &CorrectionInputs) -> (r: Result<CorrectionPlan, LibraryLoadError>)
        requires
            self.wf(),
            inputs.wf(),
            inputs.occurrences_declared(),
        ensures
            match self.apply_spec(*inputs) {
                Ok(v) => r matches Ok(plan) && plan.view_is(v),
                Err(m) => r matches Err(e) && e@ == LoadErrorView::Interpretation(m),
            },
    {
        if !inputs.profile_accepts || inputs.content_set_id != self.library_set {
            return Err(failure("Correction profile or exact library content set mismatch"));
        }
        let selected = select_inputs(self, inputs)?;
        let (outputs, classes) = collect_outputs_exec(self, inputs)?;
        proof {
            lemma_collect_outputs_cover(*self, *inputs, self.entries@.len());
            lemma_collect_outputs_sound(*self, *inputs, self.entries@.len());
        }
        let mut st = PlanTables {
            classes,
            origins: Table::new(),
            slots: Table::new(),
            written: Table::new(),
        };
        let ghost start = st.state();
        apply_entries_exec(self, inputs, &selected, &outputs, &mut st)?;
        proof {
            lemma_apply_entries_grows(*self, *inputs, selected@, outputs@, self.entries@.len(), start);
            assert forall|name: Seq<char>| #[trigger] outputs@.contains_key(name) implies st.classes@.contains_key(outputs@[name])
                && st.origins@.contains_key(outputs@[name]) by {
                assert(start.classes.contains_key(outputs@[name]));
                let (e, o) = choose|e: int, o: int|
                    0 <= e < self.entries@.len() && 0 <= o < self.entries@[e].operations@.len() && #[trigger] created_name(
                        self.entries@[e].id@,
                        self.entries@[e].operations@[o],
                    ) == Some(name);
                assert(created_name(self.entries@[e].id@, self.entries@[e].operations@[o]) == Some(name));
            }
        }
        let (creates, kept) = assemble_exec(&st, &inputs.model.elements)?;
        let output_creates = output_creates_exec(&st, &outputs);
        let mut references: Vec<PendingLibraryReference> = Vec::new();
        let mut superseded: Vec<PendingLibraryReference> = Vec::new();
        let mut i: usize = 0;
        while i < inputs.references.len()
            invariant
                kept.wf(),
                st.wf(),
                i <= inputs.references@.len(),
                reference_keys(references@) == split_references(inputs.references@, kept@, st.slots@, false, i as nat),
                reference_keys(superseded@) == split_references(inputs.references@, kept@, st.slots@, true, i as nat),
            decreases inputs.references.len() - i,
        {
            let r = &inputs.references[i];
            let key = (r.relationship, r.property);
            let reviewed = match st.slots.get(&key) {
                Some(slot) => reviewed_exec(&slot.1),
                None => match kept.get(&key) {
                    Some(slot) => reviewed_exec(&slot.1),
                    None => false,
                },
            };
            let ghost before_refs = references@;
            let ghost before_sup = superseded@;
            if reviewed {
                superseded.push(r.clone());
            } else {
                references.push(r.clone());
            }
            proof {
                assert(reference_keys(before_refs.push(references@.last())) =~= reference_keys(before_refs).push(reference_key(references@.last())));
                assert(reference_keys(before_sup.push(superseded@.last())) =~= reference_keys(before_sup).push(reference_key(superseded@.last())));
                if reviewed {
                    assert(references@ == before_refs);
                    assert(superseded@ == before_sup.push(superseded@.last()));
                } else {
                    assert(superseded@ == before_sup);
                    assert(references@ == before_refs.push(references@.last()));
                }
            }
            i = i + 1;
        }
        Ok(
            CorrectionPlan {
                creates,
                output_creates,
                kept_slots: kept,
                corrected_slots: st.slots,
                references,
                superseded_references: superseded,
            },
        )
    }
}

fn reviewed_exec(origin: &PlannedOrigin) -> (reviewed: bool)
    ensures
        reviewed == is_reviewed(origin@),
{
    match origin {
        PlannedOrigin::Reviewed(_) => true,
        PlannedOrigin::Kept(DeclaredOrigin::ReviewedCorrection) => true,
        PlannedOrigin::Kept(_) => false,
    }
}

/// Every slot of the state has reviewed provenance.
pub open spec fn slots_reviewed(slots: Map<(ElementId, PropertyId), (SlotValueView, PlannedOriginView)>) -> bool {
    forall|k: (ElementId, PropertyId)| #[trigger] slots.contains_key(k) ==> slots[k].1 is Reviewed
}

proof fn lemma_apply_ops_reviewed(
    set: OperationalLibraryPatchSet,
    ctx: CorrectionInputs,
    selected: Map<Seq<char>, ElementId>,
    outputs: Map<Seq<char>, ElementId>,
    entry: LibraryCorrectionEntry,
    document: CorrectionDocument,
    k: nat,
    st: PlanState,
)
    requires
        slots_reviewed(st.slots),
        apply_ops(set, ctx, selected, outputs, entry, document, k, st) is Ok,
    ensures
        slots_reviewed(apply_ops(set, ctx, selected, outputs, entry, document, k, st)->Ok_0.slots),
    decreases k,
{
    if k > 0 {
        lemma_apply_ops_reviewed(set, ctx, selected, outputs, entry, document, (k - 1) as nat, st);
    }
}

proof fn lemma_apply_entries_reviewed(
    set: OperationalLibraryPatchSet,
    ctx: CorrectionInputs,
    selected: Map<Seq<char>, ElementId>,
    outputs: Map<Seq<char>, ElementId>,
    n: nat,
    st: PlanState,
)
    requires
        slots_reviewed(st.slots),
        apply_entries(set, ctx, selected, outputs, n, st) is Ok,
    ensures
        slots_reviewed(apply_entries(set, ctx, selected, outputs, n, st)->Ok_0.slots),
    decreases n,
{
    if n > 0 {
        lemma_apply_entries_reviewed(set, ctx, selected, outputs, (n - 1) as nat, st);
        let prior = apply_entries(set, ctx, selected, outputs, (n - 1) as nat, st)->Ok_0;
        let entry = set.entries@[n - 1];
        let document = ctx.documents@[doc_at(ctx.documents@, entry.document@).unwrap()];
        lemma_apply_ops_reviewed(set, ctx, selected, outputs, entry, document, entry.operations@.len(), prior);
    }
}

/// Every slot that a correction writes carries the reviewed provenance of the
/// operation that wrote it; no corrected slot keeps an input origin.
pub proof fn law_corrected_slots_are_reviewed(set: OperationalLibraryPatchSet, ctx: CorrectionInputs)
    requires
        set.apply_spec(ctx) is Ok,
    ensures
        slots_reviewed(set.apply_spec(ctx)->Ok_0.corrected_slots),
{
    let selected = select_prefix(set.selectors@, ctx, set.selectors@.len())->Ok_0;
    let allocated = collect_outputs(set, ctx, set.entries@.len())->Ok_0;
    let start = PlanState { classes: allocated.1, origins: Map::empty(), slots: Map::empty(), written: Map::empty() };
    lemma_apply_entries_reviewed(set, ctx, selected, allocated.0, set.entries@.len(), start);
}

/// No key of `kept` is one the corrections wrote.
pub open spec fn disjoint_from(
    kept: Map<(ElementId, PropertyId), (SlotValueView, PlannedOriginView)>,
    corrected: Map<(ElementId, PropertyId), (SlotValueView, PlannedOriginView)>,
) -> bool {
    forall|k: (ElementId, PropertyId)| #[trigger] kept.contains_key(k) ==> !corrected.contains_key(k)
}

proof fn lemma_keep_slots_disjoint(st: PlanState, record: ElementRecord, k: nat, acc: AssemblyView)
    requires
        disjoint_from(acc.1, st.slots),
        keep_slots(st, record, k, acc) is Ok,
    ensures
        disjoint_from(keep_slots(st, record, k, acc)->Ok_0.1, st.slots),
    decreases k,
{
    if k > 0 {
        lemma_keep_slots_disjoint(st, record, (k - 1) as nat, acc);
    }
}

proof fn lemma_assemble_disjoint(st: PlanState, records: Seq<ElementRecord>, n: nat)
    requires
        assemble(st, records, n) is Ok,
    ensures
        disjoint_from(assemble(st, records, n)->Ok_0.1, st.slots),
    decreases n,
{
    if n > 0 {
        lemma_assemble_disjoint(st, records, (n - 1) as nat);
        let prior = assemble(st, records, (n - 1) as nat)->Ok_0;
        let record = records[n - 1];
        if let Origin::Declared(o) = record.origin {
            let class = if st.classes.contains_key(record.id) { st.classes[record.id] } else { record.metaclass };
            let origin = if st.origins.contains_key(record.id) { st.origins[record.id] } else { PlannedOriginView::Kept(o) };
            lemma_keep_slots_disjoint(st, record, record.slots@.len(), (prior.0.insert(record.id, (class, origin)), prior.1));
        }
    } else {
        assert(disjoint_from(Map::empty(), st.slots));
    }
}

/// A slot is either carried over or corrected, never both: the kept input
/// slots and the corrected slots of a plan have no key in common.
pub proof fn law_kept_and_corrected_slots_disjoint(set: OperationalLibraryPatchSet, ctx: CorrectionInputs)
    requires
        set.apply_spec(ctx) is Ok,
    ensures
        disjoint_from(set.apply_spec(ctx)->Ok_0.kept_slots, set.apply_spec(ctx)->Ok_0.corrected_slots),
{
    let selected = select_prefix(set.selectors@, ctx, set.selectors@.len())->Ok_0;
    let allocated = collect_outputs(set, ctx, set.entries@.len())->Ok_0;
    let start = PlanState { classes: allocated.1, origins: Map::empty(), slots: Map::empty(), written: Map::empty() };
    let st = apply_entries(set, ctx, selected, allocated.0, set.entries@.len(), start)->Ok_0;
    lemma_assemble_disjoint(st, ctx.model.elements@, ctx.model.elements@.len());
}

proof fn lemma_split_references_partition(
    refs: Seq<PendingLibraryReference>,
    kept: Map<(ElementId, PropertyId), (SlotValueView, PlannedOriginView)>,
    corrected: Map<(ElementId, PropertyId), (SlotValueView, PlannedOriginView)>,
    n: nat,
)
    requires
        n <= refs.len(),
    ensures
        split_references(refs, kept, corrected, false, n).len() + split_references(refs, kept, corrected, true, n).len() == n,
        forall|i: int| 0 <= i < split_references(refs, kept, corrected, true, n).len() ==> ({
            let k = #[trigger] split_references(refs, kept, corrected, true, n)[i];
            slot_reviewed(kept, corrected, (k.0, k.1))
        }),
        forall|i: int| 0 <= i < split_references(refs, kept, corrected, false, n).len() ==> ({
            let k = #[trigger] split_references(refs, kept, corrected, false, n)[i];
            !slot_reviewed(kept, corrected, (k.0, k.1))
        }),
    decreases n,
{
    if n > 0 {
        lemma_split_references_partition(refs, kept, corrected, (n - 1) as nat);
    }
}

/// Applying corrections loses and invents no reference: every input
/// reference is either still pending or superseded, and a reference is
/// superseded exactly when its slot now has reviewed provenance.
pub proof fn law_references_partitioned(set: OperationalLibraryPatchSet, ctx: CorrectionInputs)
    requires
        set.apply_spec(ctx) is Ok,
    ensures
        ({
            let v = set.apply_spec(ctx)->Ok_0;
            &&& v.references.len() + v.superseded_references.len() == ctx.references@.len()
            &&& forall|i: int| 0 <= i < v.superseded_references.len() ==> slot_reviewed(
                v.kept_slots,
                v.corrected_slots,
                ((#[trigger] v.superseded_references[i]).0, v.superseded_references[i].1),
            )
            &&& forall|i: int| 0 <= i < v.references.len() ==> !slot_reviewed(
                v.kept_slots,
                v.corrected_slots,
                ((#[trigger] v.references[i]).0, v.references[i].1),
            )
        }),
{
    let v = set.apply_spec(ctx)->Ok_0;
    lemma_split_references_partition(ctx.references@, v.kept_slots, v.corrected_slots, ctx.references@.len());
}

/// No allocated output is an identity of an input record.
pub open spec fn outputs_fresh(records: Seq<ElementRecord>, outputs: Map<Seq<char>, ElementId>) -> bool {
    forall|name: Seq<char>| #[trigger] outputs.contains_key(name) ==> record_of(records, outputs[name]) is None
}

proof fn lemma_collect_ops_fresh(
    set: OperationalLibraryPatchSet,
    ctx: CorrectionInputs,
    entry: LibraryCorrectionEntry,
    library: LibraryId,
    k: nat,
    acc: OutputsView,
)
    requires
        outputs_fresh(ctx.model.elements@, acc.0),
        collect_ops(set, ctx, entry, library, k, acc) is Ok,
    ensures
        outputs_fresh(ctx.model.elements@, collect_ops(set, ctx, entry, library, k, acc)->Ok_0.0),
    decreases k,
{
    if k > 0 {
        lemma_collect_ops_fresh(set, ctx, entry, library, (k - 1) as nat, acc);
    }
}

proof fn lemma_collect_outputs_fresh(set: OperationalLibraryPatchSet, ctx: CorrectionInputs, n: nat)
    requires
        collect_outputs(set, ctx, n) is Ok,
    ensures
        outputs_fresh(ctx.model.elements@, collect_outputs(set, ctx, n)->Ok_0.0),
    decreases n,
{
    if n > 0 {
        lemma_collect_outputs_fresh(set, ctx, (n - 1) as nat);
        let prior = collect_outputs(set, ctx, (n - 1) as nat)->Ok_0;
        let entry = set.entries@[n - 1];
        let di = doc_at(ctx.documents@, entry.document@).unwrap();
        lemma_collect_ops_fresh(set, ctx, entry, ctx.documents@[di].library, entry.operations@.len(), prior);
    }
}

proof fn lemma_keep_slots_creates(st: PlanState, record: ElementRecord, k: nat, acc: AssemblyView)
    requires
        keep_slots(st, record, k, acc) is Ok,
    ensures
        keep_slots(st, record, k, acc)->Ok_0.0 == acc.0,
    decreases k,
{
    if k > 0 {
        lemma_keep_slots_creates(st, record, (k - 1) as nat, acc);
    }
}

proof fn lemma_assemble_creates_inputs(st: PlanState, records: Seq<ElementRecord>, n: nat)
    requires
        n <= records.len(),
        forall|i: int, j: int| 0 <= i < j < records.len() ==> records[i].id.0 < records[j].id.0,
        assemble(st, records, n) is Ok,
    ensures
        forall|id: ElementId| #[trigger] assemble(st, records, n)->Ok_0.0.contains_key(id) ==> record_of(records, id) is Some,
    decreases n,
{
    if n > 0 {
        lemma_assemble_creates_inputs(st, records, (n - 1) as nat);
        let prior = assemble(st, records, (n - 1) as nat)->Ok_0;
        let record = records[n - 1];
        if let Origin::Declared(o) = record.origin {
            let class = if st.classes.contains_key(record.id) { st.classes[record.id] } else { record.metaclass };
            let origin = if st.origins.contains_key(record.id) { st.origins[record.id] } else { PlannedOriginView::Kept(o) };
            lemma_keep_slots_creates(st, record, record.slots@.len(), (prior.0.insert(record.id, (class, origin)), prior.1));
        }
        assert(first_record(records, record.id, n - 1));
    }
}

/// Correction outputs are new elements: no output identity is the identity
/// of an input record.
pub proof fn law_outputs_are_new_elements(set: OperationalLibraryPatchSet, ctx: CorrectionInputs)
    requires
        ctx.wf(),
        set.apply_spec(ctx) is Ok,
    ensures
        forall|id: ElementId| #[trigger] set.apply_spec(ctx)->Ok_0.output_creates.contains_key(id)
            ==> !set.apply_spec(ctx)->Ok_0.creates.contains_key(id),
{
    let v = set.apply_spec(ctx)->Ok_0;
    let selected = select_prefix(set.selectors@, ctx, set.selectors@.len())->Ok_0;
    let allocated = collect_outputs(set, ctx, set.entries@.len())->Ok_0;
    let start = PlanState { classes: allocated.1, origins: Map::empty(), slots: Map::empty(), written: Map::empty() };
    let st = apply_entries(set, ctx, selected, allocated.0, set.entries@.len(), start)->Ok_0;
    lemma_collect_outputs_fresh(set, ctx, set.entries@.len());
    lemma_assemble_creates_inputs(st, ctx.model.elements@, ctx.model.elements@.len());
    assert forall|id: ElementId| #[trigger] v.output_creates.contains_key(id) implies !v.creates.contains_key(id) by {
        let name = choose|name: Seq<char>| allocated.0.contains_key(name) && allocated.0[name] == id;
        assert(record_of(ctx.model.elements@, id) is None);
    }
}

} // verus!
