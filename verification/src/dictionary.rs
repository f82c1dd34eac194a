//! The personal dictionary: the table of its rows, and what is read from it.
use crate::domain::{
    entry_models, CorrectionRequest, EntryModel, GlossaryEntry, CONFIDENCE_NEGATIVE_ZERO,
};
use crate::json::{list_text, read_list, text_list, write_list};
use crate::number::{decimal, digits, double_rank, rank_of_double};
use crate::terms::{
    at_most, expected_words, hotwords_of, kept_aliases, lesson, lesson_of, normalize_terms,
    normalized, normalized_aliases, relevant_entries, relevant_of, CorrectionModel, MAX_RELEVANT,
};
use crate::text::{join2, join3, optional_text, same_text, texts, trim, trimmed};
use vstd::prelude::*;
use vstd::string::*;
use vstd::utf8::encode_utf8;

verus! {

/// What went wrong in the storage of the dictionary.
#[derive(Debug, PartialEq, Eq)]
pub enum StorageFault {
    /// A stored text is not what its column holds: the length of the text in bytes, and
    /// what is wrong with it.
    Conversion { length: usize, detail: String },
    /// There is no number left for a new row.
    Full,
    /// Anything else.
    Other(String),
}

/// Why the dictionary refused.
#[derive(Debug, PartialEq, Eq)]
pub enum DictionaryError {
    Storage(StorageFault),
    Filesystem(String),
    Invalid(String),
    Aliases(String),
}

/// The content of a storage fault.
pub enum FaultModel {
    Conversion { length: nat, detail: Seq<char> },
    Full,
    Other(Seq<char>),
}

/// The content of a dictionary error.
pub enum DictionaryErrorModel {
    Storage(FaultModel),
    Filesystem(Seq<char>),
    Invalid(Seq<char>),
    Aliases(Seq<char>),
}

impl View for StorageFault {
    type V = FaultModel;

    open spec fn view(&self) -> FaultModel {
        match self {
            StorageFault::Conversion { length, detail } => FaultModel::Conversion {
                length: *length as nat,
                detail: detail@,
            },
            StorageFault::Full => FaultModel::Full,
            StorageFault::Other(detail) => FaultModel::Other(detail@),
        }
    }
}

impl View for DictionaryError {
    type V = DictionaryErrorModel;

    open spec fn view(&self) -> DictionaryErrorModel {
        match self {
            DictionaryError::Storage(fault) => DictionaryErrorModel::Storage(fault@),
            DictionaryError::Filesystem(detail) => DictionaryErrorModel::Filesystem(detail@),
            DictionaryError::Invalid(detail) => DictionaryErrorModel::Invalid(detail@),
            DictionaryError::Aliases(detail) => DictionaryErrorModel::Aliases(detail@),
        }
    }
}

impl FaultModel {
    /// The fault as people read it.
    pub open spec fn text(self) -> Seq<char> {
        match self {
            FaultModel::Conversion { length, detail } => "Conversion error from type Text at index: "@
                + digits(length) + ", "@ + detail,
            FaultModel::Full => "database or disk is full"@,
            FaultModel::Other(detail) => detail,
        }
    }
}

impl DictionaryErrorModel {
    /// The error as people read it.
    pub open spec fn text(self) -> Seq<char> {
        match self {
            DictionaryErrorModel::Storage(fault) => "dictionary storage failed: "@ + fault.text(),
            DictionaryErrorModel::Filesystem(detail) => "dictionary filesystem failed: "@ + detail,
            DictionaryErrorModel::Invalid(detail) => "dictionary data is invalid: "@ + detail,
            DictionaryErrorModel::Aliases(detail) => "dictionary aliases are invalid JSON: "@
                + detail,
        }
    }
}

impl StorageFault {
    /// The fault as people read it.
    pub fn message(&self) -> (message: String)
        ensures
            message@ == self@.text(),
    {
        match self {
            StorageFault::Conversion { length, detail } => {
                let head = join3(
                    "Conversion error from type Text at index: ",
                    decimal(*length as u64).as_str(),
                    ", ",
                );
                join2(head.as_str(), detail.as_str())
            },
            StorageFault::Full => "database or disk is full".to_owned(),
            StorageFault::Other(detail) => detail.clone(),
        }
    }
}

impl DictionaryError {
    /// The error as people read it.
    pub fn message(&self) -> (message: String)
        ensures
            message@ == self@.text(),
    {
        match self {
            DictionaryError::Storage(fault) => join2(
                "dictionary storage failed: ",
                fault.message().as_str(),
            ),
            DictionaryError::Filesystem(detail) => join2(
                "dictionary filesystem failed: ",
                detail.as_str(),
            ),
            DictionaryError::Invalid(detail) => join2(
                "dictionary data is invalid: ",
                detail.as_str(),
            ),
            DictionaryError::Aliases(detail) => join2(
                "dictionary aliases are invalid JSON: ",
                detail.as_str(),
            ),
        }
    }
}

/// A row of the dictionary's table. The aliases are a JSON list of texts.
#[derive(Debug, PartialEq, Eq)]
pub struct DictionaryRow {
    pub id: i64,
    pub source: String,
    pub source_language: String,
    pub target: String,
    pub target_language: String,
    pub aliases_json: String,
    pub domain: String,
    /// The bit pattern of the confidence as an IEEE 754 double.
    pub confidence: u64,
    pub evidence_count: u32,
    pub active: bool,
    pub updated_at_ms: i64,
}

/// The content of a row.
pub struct RowModel {
    pub id: i64,
    pub source: Seq<char>,
    pub source_language: Seq<char>,
    pub target: Seq<char>,
    pub target_language: Seq<char>,
    pub aliases_json: Seq<char>,
    pub domain: Seq<char>,
    pub confidence: u64,
    pub evidence_count: u32,
    pub active: bool,
    pub updated_at_ms: i64,
}

impl View for DictionaryRow {
    type V = RowModel;

    open spec fn view(&self) -> RowModel {
        RowModel {
            id: self.id,
            source: self.source@,
            source_language: self.source_language@,
            target: self.target@,
            target_language: self.target_language@,
            aliases_json: self.aliases_json@,
            domain: self.domain@,
            confidence: self.confidence,
            evidence_count: self.evidence_count,
            active: self.active,
            updated_at_ms: self.updated_at_ms,
        }
    }
}

impl Clone for DictionaryRow {
    fn clone(&self) -> (copy: Self)
        ensures
            copy@ == self@,
    {
        DictionaryRow {
            id: self.id,
            source: self.source.clone(),
            source_language: self.source_language.clone(),
            target: self.target.clone(),
            target_language: self.target_language.clone(),
            aliases_json: self.aliases_json.clone(),
            domain: self.domain.clone(),
            confidence: self.confidence,
            evidence_count: self.evidence_count,
            active: self.active,
            updated_at_ms: self.updated_at_ms,
        }
    }
}

/// The contents of some rows.
pub open spec fn row_models(rows: Seq<DictionaryRow>) -> Seq<RowModel> {
    rows.map_values(|row: DictionaryRow| row@)
}

impl RowModel {
    /// What identifies a term: no two rows share it.
    pub open spec fn key(self) -> (Seq<char>, Seq<char>, Seq<char>) {
        (self.source, self.source_language, self.target_language)
    }

    /// Whether this row is listed before another: the row that was changed later comes
    /// first, and of rows changed at one time the one with the higher number.
    pub open spec fn precedes(self, other: RowModel) -> bool {
        self.updated_at_ms > other.updated_at_ms || (self.updated_at_ms == other.updated_at_ms
            && self.id > other.id)
    }

    /// The entry of a row with the given aliases.
    pub open spec fn entry_with(self, aliases: Seq<Seq<char>>) -> EntryModel {
        EntryModel {
            id: Some(self.id),
            source: self.source,
            source_language: self.source_language,
            target: self.target,
            target_language: self.target_language,
            aliases,
            domain: self.domain,
            confidence: self.confidence,
            evidence_count: self.evidence_count,
            active: self.active,
        }
    }

    /// The entry of a row, or why there is none.
    pub open spec fn entry(self) -> Result<EntryModel, DictionaryErrorModel> {
        match text_list(self.aliases_json) {
            Ok(aliases) => Ok(self.entry_with(aliases)),
            Err(detail) => Err(
                DictionaryErrorModel::Storage(
                    FaultModel::Conversion { length: encode_utf8(self.aliases_json).len(), detail },
                ),
            ),
        }
    }
}

/// An entry or an error, by their content.
pub open spec fn entry_outcome(outcome: Result<GlossaryEntry, DictionaryError>) -> Result<
    EntryModel,
    DictionaryErrorModel,
> {
    match outcome {
        Ok(entry) => Ok(entry@),
        Err(error) => Err(error@),
    }
}

/// Entries or an error, by their content.
pub open spec fn entries_outcome(outcome: Result<Vec<GlossaryEntry>, DictionaryError>) -> Result<
    Seq<EntryModel>,
    DictionaryErrorModel,
> {
    match outcome {
        Ok(entries) => Ok(entry_models(entries@)),
        Err(error) => Err(error@),
    }
}

/// An entry that may be missing or an error, by their content.
pub open spec fn optional_entry_outcome(
    outcome: Result<Option<GlossaryEntry>, DictionaryError>,
) -> Result<Option<EntryModel>, DictionaryErrorModel> {
    match outcome {
        Ok(entry) => Ok(crate::terms::optional_entry(entry)),
        Err(error) => Err(error@),
    }
}

/// The entry of a row with the given aliases.
pub fn entry_from(row: &DictionaryRow, aliases: Vec<String>) -> (entry: GlossaryEntry)
    ensures
        entry@ == row@.entry_with(texts(aliases@)),
{
    GlossaryEntry {
        id: Some(row.id),
        source: row.source.clone(),
        source_language: row.source_language.clone(),
        target: row.target.clone(),
        target_language: row.target_language.clone(),
        aliases,
        domain: row.domain.clone(),
        confidence: row.confidence,
        evidence_count: row.evidence_count,
        active: row.active,
    }
}

/// The entry of a row, or why there is none.
pub fn row_to_entry(row: &DictionaryRow) -> (outcome: Result<GlossaryEntry, DictionaryError>)
    ensures
        entry_outcome(outcome) == row@.entry(),
{
    match read_list(row.aliases_json.as_str()) {
        Ok(aliases) => Ok(entry_from(row, aliases)),
        Err(detail) => {
            let length: usize = row.aliases_json.as_str().as_bytes().len();
            Err(DictionaryError::Storage(StorageFault::Conversion { length, detail }))
        },
    }
}

/// The entries of some rows, or why the first of them that has none has none.
pub open spec fn entries_of(rows: Seq<RowModel>) -> Result<Seq<EntryModel>, DictionaryErrorModel>
    decreases rows.len(),
{
    if rows.len() == 0 {
        Ok(Seq::empty())
    } else {
        match entries_of(rows.drop_last()) {
            Err(error) => Err(error),
            Ok(entries) => match rows.last().entry() {
                Err(error) => Err(error),
                Ok(entry) => Ok(entries.push(entry)),
            },
        }
    }
}

/// A fault in the first rows is the fault of all of them.
proof fn lemma_first_fault(rows: Seq<RowModel>, count: int)
    requires
        0 <= count <= rows.len(),
        entries_of(rows.take(count)) is Err,
    ensures
        entries_of(rows) == entries_of(rows.take(count)),
    decreases rows.len(),
{
    if count == rows.len() {
        assert(rows.take(count) =~= rows);
    } else {
        assert(rows.drop_last().take(count) =~= rows.take(count));
        lemma_first_fault(rows.drop_last(), count);
    }
}

// ---------------------------------------------------------------------------------
// The table
// ---------------------------------------------------------------------------------

/// The place of the first row with a key.
pub open spec fn place_of_key(rows: Seq<RowModel>, key: (Seq<char>, Seq<char>, Seq<char>)) -> Option<
    nat,
>
    decreases rows.len(),
{
    if rows.len() == 0 {
        None
    } else if rows[0].key() == key {
        Some(0)
    } else {
        match place_of_key(rows.skip(1), key) {
            Some(place) => Some(place + 1),
            None => None,
        }
    }
}

/// The place of the first row with a number.
pub open spec fn place_of_id(rows: Seq<RowModel>, id: i64) -> Option<nat>
    decreases rows.len(),
{
    if rows.len() == 0 {
        None
    } else if rows[0].id == id {
        Some(0)
    } else {
        match place_of_id(rows.skip(1), id) {
            Some(place) => Some(place + 1),
            None => None,
        }
    }
}

/// The place of a new row: behind the rows that precede it.
pub open spec fn place_of(rows: Seq<RowModel>, row: RowModel) -> nat
    decreases rows.len(),
{
    if rows.len() > 0 && rows[0].precedes(row) {
        1 + place_of(rows.skip(1), row)
    } else {
        0
    }
}

/// The rows with a new one at its place.
pub open spec fn placed(rows: Seq<RowModel>, row: RowModel) -> Seq<RowModel> {
    rows.insert(place_of(rows, row) as int, row)
}

/// A confidence as it is stored: zero has no sign.
pub open spec fn stored_confidence(bits: u64) -> u64 {
    if bits == CONFIDENCE_NEGATIVE_ZERO {
        0
    } else {
        bits
    }
}

/// The row that an entry becomes if its term is new.
pub open spec fn fresh_row(entry: EntryModel, aliases_json: Seq<char>, id: i64, now: i64) -> RowModel {
    RowModel {
        id,
        source: trimmed(entry.source),
        source_language: entry.source_language,
        target: trimmed(entry.target),
        target_language: entry.target_language,
        aliases_json,
        domain: trimmed(entry.domain),
        confidence: stored_confidence(entry.confidence),
        evidence_count: entry.evidence_count,
        active: entry.active,
        updated_at_ms: now,
    }
}

/// The row that two rows of one term make: the newer one counts, but confidence and
/// evidence never shrink, and the number stays.
pub open spec fn merged_row(known: RowModel, fresh: RowModel) -> RowModel {
    RowModel {
        id: known.id,
        confidence: if double_rank(known.confidence) >= double_rank(fresh.confidence) {
            known.confidence
        } else {
            fresh.confidence
        },
        evidence_count: if known.evidence_count >= fresh.evidence_count {
            known.evidence_count
        } else {
            fresh.evidence_count
        },
        ..fresh
    }
}

/// The state of the dictionary.
pub struct StoreModel {
    /// The rows in the order in which they are listed.
    pub rows: Seq<RowModel>,
    /// The highest number that a row ever had.
    pub last_id: i64,
}

impl StoreModel {
    /// Whether the rows are in order, with one row for each key and each number.
    pub open spec fn valid(self) -> bool {
        &&& forall|i: int, j: int|
            0 <= i < j < self.rows.len() ==> (#[trigger] self.rows[i]).precedes(
                #[trigger] self.rows[j],
            )
        &&& forall|i: int, j: int|
            0 <= i < j < self.rows.len() ==> (#[trigger] self.rows[i]).key() != (
            #[trigger] self.rows[j]).key()
        &&& forall|i: int, j: int|
            0 <= i < j < self.rows.len() ==> (#[trigger] self.rows[i]).id != (
            #[trigger] self.rows[j]).id
        &&& forall|i: int| 0 <= i < self.rows.len() ==> (#[trigger] self.rows[i]).id <= self.last_id
    }

    /// The row of a term.
    pub open spec fn row(self, key: (Seq<char>, Seq<char>, Seq<char>)) -> Option<RowModel> {
        match place_of_key(self.rows, key) {
            Some(place) => Some(self.rows[place as int]),
            None => None,
        }
    }

    /// The entry of a term.
    pub open spec fn found(self, key: (Seq<char>, Seq<char>, Seq<char>)) -> Result<
        Option<EntryModel>,
        DictionaryErrorModel,
    > {
        match self.row(key) {
            Some(row) => match row.entry() {
                Ok(entry) => Ok(Some(entry)),
                Err(error) => Err(error),
            },
            None => Ok(None),
        }
    }

    /// The dictionary and the row of the term after an entry was put in. There is none
    /// if the entry needs a new number and there is no number left.
    pub open spec fn with_entry(self, entry: EntryModel, aliases_json: Seq<char>, now: i64) -> Option<
        (StoreModel, RowModel),
    > {
        let key = fresh_row(entry, aliases_json, 0, now).key();
        match place_of_key(self.rows, key) {
            Some(place) => {
                let known = self.rows[place as int];
                let row = merged_row(known, fresh_row(entry, aliases_json, known.id, now));
                Some(
                    (
                        StoreModel {
                            rows: placed(self.rows.remove(place as int), row),
                            last_id: self.last_id,
                        },
                        row,
                    ),
                )
            },
            None => if self.last_id == i64::MAX {
                None
            } else {
                let id = (self.last_id + 1) as i64;
                let row = fresh_row(entry, aliases_json, id, now);
                Some((StoreModel { rows: placed(self.rows, row), last_id: id }, row))
            },
        }
    }

    /// Whether there is room for a term: it is known, or there is a number left for it.
    pub open spec fn has_room(self, key: (Seq<char>, Seq<char>, Seq<char>)) -> bool {
        place_of_key(self.rows, key) is Some || self.last_id < i64::MAX
    }

    /// The dictionary after a wish to put in an entry, and what came of it.
    pub open spec fn upserted(self, entry: EntryModel, now: i64) -> (
        StoreModel,
        Result<EntryModel, DictionaryErrorModel>,
    ) {
        let aliases = kept_aliases(entry.aliases, trimmed(entry.source));
        match entry.fault() {
            Some(message) => (self, Err(DictionaryErrorModel::Invalid(message))),
            None => match list_text(aliases) {
                Err(detail) => (self, Err(DictionaryErrorModel::Aliases(detail))),
                Ok(json) => match self.with_entry(entry, json, now) {
                    None => (self, Err(DictionaryErrorModel::Storage(FaultModel::Full))),
                    Some((next, row)) => (next, Ok(row.entry_with(aliases))),
                },
            },
        }
    }

    /// The dictionary after a correction, and what was learned from it.
    pub open spec fn learned(self, correction: CorrectionModel, now: i64) -> (
        StoreModel,
        Result<Option<EntryModel>, DictionaryErrorModel>,
    ) {
        match lesson(correction) {
            None => (self, Ok(None)),
            Some(entry) => {
                let (next, outcome) = self.upserted(entry, now);
                (
                    next,
                    match outcome {
                        Ok(saved) => Ok(Some(saved)),
                        Err(error) => Err(error),
                    },
                )
            },
        }
    }

    /// The dictionary without the row of a number.
    pub open spec fn without(self, id: i64) -> StoreModel {
        match place_of_id(self.rows, id) {
            Some(place) => StoreModel {
                rows: self.rows.remove(place as int),
                last_id: self.last_id,
            },
            None => self,
        }
    }

    /// The dictionary made of rows in any order.
    pub open spec fn opened(rows: Seq<RowModel>, last_id: i64) -> StoreModel
        decreases rows.len(),
    {
        if rows.len() == 0 {
            StoreModel { rows: Seq::empty(), last_id }
        } else {
            let front = StoreModel::opened(rows.drop_last(), last_id);
            let row = rows.last();
            StoreModel {
                rows: placed(front.rows, row),
                last_id: if row.id > front.last_id {
                    row.id
                } else {
                    front.last_id
                },
            }
        }
    }
}

/// The personal dictionary.
#[derive(Debug)]
pub struct DictionaryStore {
    rows: Vec<DictionaryRow>,
    last_id: i64,
}

impl View for DictionaryStore {
    type V = StoreModel;

    closed spec fn view(&self) -> StoreModel {
        StoreModel { rows: row_models(self.rows@), last_id: self.last_id }
    }
}

/// The rows with a new one at its place.
fn place_row(rows: &mut Vec<DictionaryRow>, row: DictionaryRow)
    ensures
        row_models(final(rows)@) == placed(row_models(old(rows)@), row@),
{
    let ghost all = row_models(rows@);
    let mut at: usize = 0;
    proof {
        assert(all.skip(0) =~= all);
    }
    while at < rows.len() && (rows[at].updated_at_ms > row.updated_at_ms || (rows[at].updated_at_ms
        == row.updated_at_ms && rows[at].id > row.id))
        invariant
            at <= rows.len(),
            rows@ == old(rows)@,
            all == row_models(rows@),
            place_of(all, row@) == at + place_of(all.skip(at as int), row@),
        decreases rows.len() - at,
    {
        proof {
            assert(all.skip(at as int)[0] == rows@[at as int]@);
            assert(all.skip(at as int).skip(1) =~= all.skip(at + 1));
        }
        at = at + 1;
    }
    proof {
        if at < rows.len() {
            assert(all.skip(at as int)[0] == rows@[at as int]@);
        }
        assert(row_models(rows@.insert(at as int, row)) =~= all.insert(at as int, row@));
    }
    rows.insert(at, row);
}

/// The place of the first row with a key.
fn find_key(rows: &Vec<DictionaryRow>, source: &str, source_language: &str, target_language: &str) -> (place:
    Option<usize>)
    ensures
        match place {
            Some(at) => at < rows.len() && place_of_key(
                row_models(rows@),
                (source@, source_language@, target_language@),
            ) == Some(at as nat),
            None => place_of_key(row_models(rows@), (source@, source_language@, target_language@)) is None,
        },
{
    let ghost all = row_models(rows@);
    let ghost key = (source@, source_language@, target_language@);
    let mut at: usize = 0;
    proof {
        assert(all.skip(0) =~= all);
    }
    while at < rows.len()
        invariant
            at <= rows.len(),
            all == row_models(rows@),
            key == (source@, source_language@, target_language@),
            place_of_key(all, key) == (match place_of_key(all.skip(at as int), key) {
                Some(place) => Some((place + at) as nat),
                None => None,
            }),
        decreases rows.len() - at,
    {
        let row = &rows[at];
        proof {
            assert(all.skip(at as int)[0] == row@);
            assert(all.skip(at as int).skip(1) =~= all.skip(at + 1));
        }
        if same_text(row.source.as_str(), source) && same_text(
            row.source_language.as_str(),
            source_language,
        ) && same_text(row.target_language.as_str(), target_language) {
            return Some(at);
        }
        at = at + 1;
    }
    None
}

/// The place of the first row with a number.
fn find_id(rows: &Vec<DictionaryRow>, id: i64) -> (place: Option<usize>)
    ensures
        match place {
            Some(at) => at < rows.len() && place_of_id(row_models(rows@), id) == Some(at as nat),
            None => place_of_id(row_models(rows@), id) is None,
        },
{
    let ghost all = row_models(rows@);
    let mut at: usize = 0;
    proof {
        assert(all.skip(0) =~= all);
    }
    while at < rows.len()
        invariant
            at <= rows.len(),
            all == row_models(rows@),
            place_of_id(all, id) == (match place_of_id(all.skip(at as int), id) {
                Some(place) => Some((place + at) as nat),
                None => None,
            }),
        decreases rows.len() - at,
    {
        proof {
            assert(all.skip(at as int)[0] == rows@[at as int]@);
            assert(all.skip(at as int).skip(1) =~= all.skip(at + 1));
        }
        if rows[at].id == id {
            return Some(at);
        }
        at = at + 1;
    }
    None
}

/// The place of a key is the first row that has it.
proof fn lemma_place_of_key(rows: Seq<RowModel>, key: (Seq<char>, Seq<char>, Seq<char>))
    ensures
        match place_of_key(rows, key) {
            Some(place) => place < rows.len() && rows[place as int].key() == key && forall|i: int|
                0 <= i < place ==> (#[trigger] rows[i]).key() != key,
            None => forall|i: int| 0 <= i < rows.len() ==> (#[trigger] rows[i]).key() != key,
        },
    decreases rows.len(),
{
    if rows.len() > 0 && rows[0].key() != key {
        let rest = rows.skip(1);
        lemma_place_of_key(rest, key);
        match place_of_key(rest, key) {
            Some(place) => {
                assert forall|i: int| 0 <= i < place + 1 implies (#[trigger] rows[i]).key()
                    != key by {
                    if i > 0 {
                        assert(rest[i - 1] == rows[i]);
                    }
                }
            },
            None => {
                assert forall|i: int| 0 <= i < rows.len() implies (#[trigger] rows[i]).key()
                    != key by {
                    if i > 0 {
                        assert(rest[i - 1] == rows[i]);
                    }
                }
            },
        }
    }
}

/// The place of a number is the first row that has it.
proof fn lemma_place_of_id(rows: Seq<RowModel>, id: i64)
    ensures
        match place_of_id(rows, id) {
            Some(place) => place < rows.len() && rows[place as int].id == id && forall|i: int|
                0 <= i < place ==> (#[trigger] rows[i]).id != id,
            None => forall|i: int| 0 <= i < rows.len() ==> (#[trigger] rows[i]).id != id,
        },
    decreases rows.len(),
{
    if rows.len() > 0 && rows[0].id != id {
        let rest = rows.skip(1);
        lemma_place_of_id(rest, id);
        match place_of_id(rest, id) {
            Some(place) => {
                assert forall|i: int| 0 <= i < place + 1 implies (#[trigger] rows[i]).id != id by {
                    if i > 0 {
                        assert(rest[i - 1] == rows[i]);
                    }
                }
            },
            None => {
                assert forall|i: int| 0 <= i < rows.len() implies (#[trigger] rows[i]).id != id by {
                    if i > 0 {
                        assert(rest[i - 1] == rows[i]);
                    }
                }
            },
        }
    }
}

/// A new row stands behind the rows that precede it, and before one that does not.
proof fn lemma_place_of(rows: Seq<RowModel>, row: RowModel)
    ensures
        place_of(rows, row) <= rows.len(),
        forall|i: int| 0 <= i < place_of(rows, row) ==> (#[trigger] rows[i]).precedes(row),
        place_of(rows, row) < rows.len() ==> !rows[place_of(rows, row) as int].precedes(row),
    decreases rows.len(),
{
    if rows.len() > 0 && rows[0].precedes(row) {
        let rest = rows.skip(1);
        lemma_place_of(rest, row);
        assert forall|i: int| 0 <= i < place_of(rows, row) implies (#[trigger] rows[i]).precedes(
            row,
        ) by {
            if i > 0 {
                assert(rest[i - 1] == rows[i]);
            }
        }
    }
}

/// Putting a row with a new number and a new key into a valid dictionary keeps it
/// valid, and the row is found under its key.
proof fn lemma_placed(store: StoreModel, row: RowModel, last_id: i64)
    requires
        store.valid(),
        store.last_id <= last_id,
        row.id <= last_id,
        forall|i: int| 0 <= i < store.rows.len() ==> (#[trigger] store.rows[i]).id != row.id,
        forall|i: int| 0 <= i < store.rows.len() ==> (#[trigger] store.rows[i]).key() != row.key(),
    ensures
        (StoreModel { rows: placed(store.rows, row), last_id }).valid(),
        place_of_key(placed(store.rows, row), row.key()) == Some(place_of(store.rows, row)),
        placed(store.rows, row)[place_of(store.rows, row) as int] == row,
        forall|key: (Seq<char>, Seq<char>, Seq<char>)|
            key != row.key() ==> (#[trigger] (StoreModel {
                rows: placed(store.rows, row),
                last_id,
            }).row(key)) == store.row(key),
{
    let rows = store.rows;
    let p = place_of(rows, row) as int;
    let next = placed(rows, row);
    lemma_place_of(rows, row);
    assert forall|i: int| 0 <= i < next.len() implies #[trigger] next[i] == (if i < p {
        rows[i]
    } else if i == p {
        row
    } else {
        rows[i - 1]
    }) by {}
    assert forall|i: int, j: int| 0 <= i < j < next.len() implies (#[trigger] next[i]).precedes(
        #[trigger] next[j],
    ) by {
        if i == p {
            assert(!rows[p].precedes(row));
            if p < j - 1 {
                assert(rows[p].precedes(rows[j - 1]));
            }
        }
    }
    lemma_place_of_key(next, row.key());
    assert(next[p].key() == row.key());
    assert forall|key: (Seq<char>, Seq<char>, Seq<char>)| key != row.key() implies (
    #[trigger] (StoreModel { rows: next, last_id }).row(key)) == store.row(key) by {
        lemma_place_of_key(next, key);
        lemma_place_of_key(rows, key);
        match place_of_key(rows, key) {
            Some(at) => {
                let shifted = if at < p {
                    at as int
                } else {
                    at as int + 1
                };
                assert(next[shifted] == rows[at as int]);
            },
            None => {
                match place_of_key(next, key) {
                    Some(at) => {
                        let back = if at < p {
                            at as int
                        } else {
                            at - 1
                        };
                        assert(rows[back] == next[at as int]);
                    },
                    None => {},
                }
            },
        }
    }
}

/// Taking a row out of a valid dictionary keeps it valid and leaves the other rows.
proof fn lemma_removed(store: StoreModel, at: int)
    requires
        store.valid(),
        0 <= at < store.rows.len(),
    ensures
        (StoreModel { rows: store.rows.remove(at), last_id: store.last_id }).valid(),
        forall|i: int|
            0 <= i < store.rows.remove(at).len() ==> (#[trigger] store.rows.remove(at)[i]).id
                != store.rows[at].id && store.rows.remove(at)[i].key() != store.rows[at].key(),
        forall|key: (Seq<char>, Seq<char>, Seq<char>)|
            key != store.rows[at].key() ==> (#[trigger] (StoreModel {
                rows: store.rows.remove(at),
                last_id: store.last_id,
            }).row(key)) == store.row(key),
{
    let rows = store.rows;
    let next = rows.remove(at);
    assert forall|i: int| 0 <= i < next.len() implies #[trigger] next[i] == (if i < at {
        rows[i]
    } else {
        rows[i + 1]
    }) by {}
    assert forall|key: (Seq<char>, Seq<char>, Seq<char>)| key != rows[at].key() implies (
    #[trigger] (StoreModel { rows: next, last_id: store.last_id }).row(key)) == store.row(key) by {
        lemma_place_of_key(next, key);
        lemma_place_of_key(rows, key);
        match place_of_key(rows, key) {
            Some(i) => {
                let shifted = if i < at {
                    i as int
                } else {
                    i - 1
                };
                assert(next[shifted] == rows[i as int]);
            },
            None => {
                match place_of_key(next, key) {
                    Some(i) => {
                        let back = if i < at {
                            i as int
                        } else {
                            i as int + 1
                        };
                        assert(rows[back] == next[i as int]);
                    },
                    None => {},
                }
            },
        }
    }
}

/// What an entry that is put in does to a valid dictionary.
proof fn lemma_with_entry(store: StoreModel, entry: EntryModel, aliases_json: Seq<char>, now: i64)
    requires
        store.valid(),
    ensures
        store.with_entry(entry, aliases_json, now) matches Some((next, row)) ==> {
            &&& next.valid()
            &&& row.key() == fresh_row(entry, aliases_json, 0, now).key()
            &&& next.row(row.key()) == Some(row)
            &&& forall|key: (Seq<char>, Seq<char>, Seq<char>)|
                key != row.key() ==> #[trigger] next.row(key) == store.row(key)
        },
{
    let key = fresh_row(entry, aliases_json, 0, now).key();
    lemma_place_of_key(store.rows, key);
    match place_of_key(store.rows, key) {
        Some(place) => {
            let at = place as int;
            let known = store.rows[at];
            let row = merged_row(known, fresh_row(entry, aliases_json, known.id, now));
            let rest = StoreModel { rows: store.rows.remove(at), last_id: store.last_id };
            lemma_removed(store, at);
            lemma_placed(rest, row, store.last_id);
            let next = StoreModel { rows: placed(rest.rows, row), last_id: store.last_id };
            assert forall|other: (Seq<char>, Seq<char>, Seq<char>)| other != row.key() implies
                #[trigger] next.row(other) == store.row(other) by {
                assert(rest.row(other) == store.row(other));
            }
        },
        None => {
            if store.last_id < i64::MAX {
                let id = (store.last_id + 1) as i64;
                let row = fresh_row(entry, aliases_json, id, now);
                lemma_placed(store, row, id);
            }
        },
    }
}

impl DictionaryStore {
    /// The dictionary made of the rows of its table, in any order, and the highest
    /// number that a row ever had.
    pub fn open(rows: Vec<DictionaryRow>, last_id: i64) -> (store: Self)
        ensures
            store@ == StoreModel::opened(row_models(rows@), last_id),
    {
        let ghost all = row_models(rows@);
        let mut store = DictionaryStore { rows: Vec::new(), last_id };
        let mut i: usize = 0;
        proof {
            assert(all.take(0) =~= Seq::empty());
            assert(row_models(store.rows@) =~= Seq::empty());
        }
        while i < rows.len()
            invariant
                i <= rows.len(),
                all == row_models(rows@),
                store@ == StoreModel::opened(all.take(i as int), last_id),
            decreases rows.len() - i,
        {
            let row = rows[i].clone();
            proof {
                assert(all.take(i + 1).drop_last() =~= all.take(i as int));
                assert(all.take(i + 1).last() == row@);
            }
            if row.id > store.last_id {
                store.last_id = row.id;
            }
            place_row(&mut store.rows, row);
            i = i + 1;
        }
        proof {
            assert(all.take(all.len() as int) =~= all);
        }
        store
    }

    /// The highest number that a row ever had.
    pub fn last_id(&self) -> (id: i64)
        ensures
            id == self@.last_id,
    {
        self.last_id
    }

    /// The row of a term.
    pub fn row(&self, source: &str, source_language: &str, target_language: &str) -> (row: Option<
        DictionaryRow,
    >)
        ensures
            match row {
                Some(row) => self@.row((source@, source_language@, target_language@)) == Some(row@),
                None => self@.row((source@, source_language@, target_language@)) is None,
            },
    {
        match find_key(&self.rows, source, source_language, target_language) {
            Some(place) => Some(self.rows[place].clone()),
            None => None,
        }
    }

    /// All entries, the one that was changed last first.
    pub fn list(&self) -> (outcome: Result<Vec<GlossaryEntry>, DictionaryError>)
        ensures
            entries_outcome(outcome) == entries_of(self@.rows),
    {
        let ghost all = row_models(self.rows@);
        let mut entries: Vec<GlossaryEntry> = Vec::new();
        let mut i: usize = 0;
        proof {
            assert(all.take(0) =~= Seq::empty());
            assert(entry_models(entries@) =~= Seq::empty());
        }
        while i < self.rows.len()
            invariant
                i <= self.rows.len(),
                all == row_models(self.rows@),
                all == self@.rows,
                entries_of(all.take(i as int)) == Ok::<Seq<EntryModel>, DictionaryErrorModel>(
                    entry_models(entries@),
                ),
            decreases self.rows.len() - i,
        {
            proof {
                assert(all.take(i + 1).drop_last() =~= all.take(i as int));
                assert(all.take(i + 1).last() == self.rows@[i as int]@);
            }
            match row_to_entry(&self.rows[i]) {
                Ok(entry) => {
                    proof {
                        assert(entry_models(entries@.push(entry)) =~= entry_models(entries@).push(
                            entry@,
                        ));
                    }
                    entries.push(entry);
                },
                Err(error) => {
                    proof {
                        lemma_first_fault(all, i + 1);
                    }
                    return Err(error);
                },
            }
            i = i + 1;
        }
        proof {
            assert(all.take(all.len() as int) =~= all);
        }
        Ok(entries)
    }

    /// The entry of a term, if there is one.
    pub fn find(&self, source: &str, source_language: &str, target_language: &str) -> (outcome:
        Result<Option<GlossaryEntry>, DictionaryError>)
        ensures
            optional_entry_outcome(outcome) == self@.found(
                (source@, source_language@, target_language@),
            ),
    {
        match find_key(&self.rows, source, source_language, target_language) {
            Some(place) => match row_to_entry(&self.rows[place]) {
                Ok(entry) => Ok(Some(entry)),
                Err(error) => Err(error),
            },
            None => Ok(None),
        }
    }

    /// Puts an entry in at the time `now`, in milliseconds: a new row, or a change of
    /// the row of the same term. Returns the entry as it is stored.
    pub fn upsert(&mut self, entry: &GlossaryEntry, now: i64) -> (outcome: Result<
        GlossaryEntry,
        DictionaryError,
    >)
        ensures
            (final(self)@, entry_outcome(outcome)) == old(self)@.upserted(entry@, now),
            outcome is Ok <==> entry@.fault() is None && old(self)@.has_room(
                (trimmed(entry@.source), entry@.source_language, entry@.target_language),
            ),
            outcome is Err ==> final(self)@ == old(self)@,
            old(self)@.valid() ==> final(self)@.valid(),
            outcome matches Ok(saved) ==> old(self)@.valid() ==> final(self)@.found(
                (saved@.source, saved@.source_language, saved@.target_language),
            ) == Ok::<Option<EntryModel>, DictionaryErrorModel>(Some(saved@)),
    {
        match entry.validate() {
            Ok(()) => {},
            Err(message) => {
                return Err(DictionaryError::Invalid(message.to_owned()));
            },
        }
        let source = trim(entry.source.as_str());
        let aliases = normalized_aliases(&entry.aliases, source.as_str());
        let aliases_json = match write_list(&aliases) {
            Ok(json) => json,
            Err(detail) => {
                return Err(DictionaryError::Aliases(detail));
            },
        };
        let place = find_key(
            &self.rows,
            source.as_str(),
            entry.source_language.as_str(),
            entry.target_language.as_str(),
        );
        let ghost before = row_models(self.rows@);
        let confidence = if entry.confidence == CONFIDENCE_NEGATIVE_ZERO {
            0
        } else {
            entry.confidence
        };
        let mut row = DictionaryRow {
            id: 0,
            source,
            source_language: entry.source_language.clone(),
            target: trim(entry.target.as_str()),
            target_language: entry.target_language.clone(),
            aliases_json,
            domain: trim(entry.domain.as_str()),
            confidence,
            evidence_count: entry.evidence_count,
            active: entry.active,
            updated_at_ms: now,
        };
        proof {
            assert(row@ == fresh_row(entry@, row.aliases_json@, 0, now));
        }
        match place {
            Some(at) => {
                let known = self.rows.remove(at);
                proof {
                    assert(row_models(self.rows@) =~= before.remove(at as int));
                }
                row.id = known.id;
                if rank_of_double(known.confidence) >= rank_of_double(row.confidence) {
                    row.confidence = known.confidence;
                }
                if known.evidence_count >= row.evidence_count {
                    row.evidence_count = known.evidence_count;
                }
            },
            None => {
                if self.last_id == i64::MAX {
                    return Err(DictionaryError::Storage(StorageFault::Full));
                }
                self.last_id = self.last_id + 1;
                row.id = self.last_id;
            },
        }
        let saved = entry_from(&row, aliases);
        place_row(&mut self.rows, row);
        proof {
            if old(self)@.valid() {
                law_upsert_keeps_the_store_valid(old(self)@, entry@, now);
                lemma_with_entry(old(self)@, entry@, row.aliases_json@, now);
            }
        }
        Ok(saved)
    }

    /// Takes out the row of a number. Returns whether there was one.
    pub fn delete(&mut self, id: i64) -> (deleted: bool)
        ensures
            final(self)@ == old(self)@.without(id),
            deleted == place_of_id(old(self)@.rows, id) is Some,
    {
        let ghost before = row_models(self.rows@);
        match find_id(&self.rows, id) {
            Some(at) => {
                let _removed = self.rows.remove(at);
                proof {
                    assert(row_models(self.rows@) =~= before.remove(at as int));
                }
                true
            },
            None => false,
        }
    }

    /// The words that a recogniser of a language should expect.
    pub fn hotwords(&self, source_language: &str) -> (outcome: Result<Vec<String>, DictionaryError>)
        ensures
            match outcome {
                Ok(words) => entries_of(self@.rows) matches Ok(entries) && texts(words@)
                    == hotwords_of(entries, source_language@),
                Err(error) => entries_of(self@.rows) matches Err(expected) && error@ == expected,
            },
    {
        match self.list() {
            Ok(entries) => Ok(expected_words(&entries, source_language)),
            Err(error) => Err(error),
        }
    }

    /// The entries that matter for a text.
    pub fn relevant(&self, text: &str, source_language: &str, target_language: &str) -> (outcome:
        Result<Vec<GlossaryEntry>, DictionaryError>)
        ensures
            entries_outcome(outcome) == (match entries_of(self@.rows) {
                Ok(entries) => Ok(
                    at_most(
                        relevant_of(entries, text@, source_language@, target_language@),
                        MAX_RELEVANT as nat,
                    ),
                ),
                Err(error) => Err(error),
            }),
    {
        match self.list() {
            Ok(entries) => Ok(relevant_entries(&entries, text, source_language, target_language)),
            Err(error) => Err(error),
        }
    }

    /// The text in the words of the dictionary: aliases give way to their sources.
    /// `None` where the lower-case form of the text cannot be searched.
    pub fn normalize_source(&self, text: &str, source_language: &str) -> (outcome: Result<
        Option<String>,
        DictionaryError,
    >)
        ensures
            match outcome {
                Ok(result) => entries_of(self@.rows) matches Ok(entries) && optional_text(result)
                    == normalized(entries, text@, source_language@),
                Err(error) => entries_of(self@.rows) matches Err(expected) && error@ == expected,
            },
    {
        match self.list() {
            Ok(entries) => Ok(normalize_terms(&entries, text, source_language)),
            Err(error) => Err(error),
        }
    }

    /// Puts in what a correction teaches at the time `now`. Returns the entry as it is
    /// stored, or nothing if the correction teaches nothing.
    pub fn learn_correction(&mut self, correction: &CorrectionRequest, now: i64) -> (outcome: Result<
        Option<GlossaryEntry>,
        DictionaryError,
    >)
        ensures
            (final(self)@, optional_entry_outcome(outcome)) == old(self)@.learned(correction@, now),
            outcome is Ok <==> (lesson(correction@) matches Some(entry) ==> entry.fault() is None
                && old(self)@.has_room(
                (trimmed(entry.source), entry.source_language, entry.target_language),
            )),
    {
        match lesson_of(correction) {
            None => Ok(None),
            Some(entry) => match self.upsert(&entry, now) {
                Ok(saved) => Ok(Some(saved)),
                Err(error) => Err(error),
            },
        }
    }
}

// ---------------------------------------------------------------------------------
// Laws
// ---------------------------------------------------------------------------------

/// Putting in an entry keeps the dictionary valid.
pub proof fn law_upsert_keeps_the_store_valid(store: StoreModel, entry: EntryModel, now: i64)
    requires
        store.valid(),
    ensures
        store.upserted(entry, now).0.valid(),
{
    let aliases = kept_aliases(entry.aliases, trimmed(entry.source));
    if let Ok(json) = list_text(aliases) {
        lemma_with_entry(store, entry, json, now);
    }
}

/// Putting in an entry touches the row of its term alone.
pub proof fn law_upsert_touches_one_term(
    store: StoreModel,
    entry: EntryModel,
    now: i64,
    key: (Seq<char>, Seq<char>, Seq<char>),
)
    requires
        store.valid(),
        key != (trimmed(entry.source), entry.source_language, entry.target_language),
    ensures
        store.upserted(entry, now).0.row(key) == store.row(key),
{
    let aliases = kept_aliases(entry.aliases, trimmed(entry.source));
    if let Ok(json) = list_text(aliases) {
        lemma_with_entry(store, entry, json, now);
    }
}

/// An entry that is put in is stored as it was given, without white space around its
/// texts; what was known of its term before lends it the number, and the confidence
/// and evidence if they were higher.
pub proof fn law_upsert_merges_with_what_is_known(store: StoreModel, entry: EntryModel, now: i64)
    requires
        store.valid(),
    ensures
        store.upserted(entry, now).1 matches Ok(saved) ==> {
            let key = (trimmed(entry.source), entry.source_language, entry.target_language);
            &&& saved.source == trimmed(entry.source)
            &&& saved.target == trimmed(entry.target)
            &&& saved.domain == trimmed(entry.domain)
            &&& saved.active == entry.active
            &&& store.upserted(entry, now).0.row(key) matches Some(row) && saved.id == Some(
                row.id,
            ) && row.updated_at_ms == now
            &&& match store.row(key) {
                Some(known) => {
                    &&& saved.id == Some(known.id)
                    &&& saved.evidence_count >= known.evidence_count
                    &&& saved.evidence_count >= entry.evidence_count
                    &&& double_rank(saved.confidence) >= double_rank(known.confidence)
                    &&& double_rank(saved.confidence) >= double_rank(
                        stored_confidence(entry.confidence),
                    )
                },
                None => {
                    &&& saved.evidence_count == entry.evidence_count
                    &&& saved.confidence == stored_confidence(entry.confidence)
                    &&& saved.id matches Some(id) && id > store.last_id
                },
            }
        },
{
    let aliases = kept_aliases(entry.aliases, trimmed(entry.source));
    if let Ok(json) = list_text(aliases) {
        lemma_with_entry(store, entry, json, now);
    }
}

/// The entry that was put in last is listed first, if the clock never runs back.
pub proof fn law_latest_change_is_listed_first(store: StoreModel, entry: EntryModel, now: i64)
    requires
        store.valid(),
        forall|i: int| 0 <= i < store.rows.len() ==> (#[trigger] store.rows[i]).updated_at_ms < now,
    ensures
        store.upserted(entry, now).1 matches Ok(saved) ==> {
            let rows = store.upserted(entry, now).0.rows;
            rows.len() > 0 && saved.id == Some(rows[0].id)
        },
{
    let aliases = kept_aliases(entry.aliases, trimmed(entry.source));
    if let Ok(json) = list_text(aliases) {
        let key = fresh_row(entry, json, 0, now).key();
        lemma_place_of_key(store.rows, key);
        match place_of_key(store.rows, key) {
            Some(place) => {
                let known = store.rows[place as int];
                let rest = store.rows.remove(place as int);
                let row = merged_row(known, fresh_row(entry, json, known.id, now));
                if rest.len() > 0 {
                    assert(rest[0] == store.rows[0] || rest[0] == store.rows[1]);
                    assert(rest[0].updated_at_ms < now);
                }
                assert(place_of(rest, row) == 0);
            },
            None => {},
        }
    }
}

/// A row that was taken out is gone, the other rows stay, and its number is not given
/// to a later row.
pub proof fn law_deleted_row_is_gone(store: StoreModel, id: i64)
    requires
        store.valid(),
    ensures
        store.without(id).valid(),
        place_of_id(store.without(id).rows, id) is None,
        store.without(id).last_id == store.last_id,
        forall|key: (Seq<char>, Seq<char>, Seq<char>)|
            (store.row(key) matches Some(row) ==> row.id != id) ==> #[trigger] store.without(
                id,
            ).row(key) == store.row(key),
{
    lemma_place_of_id(store.rows, id);
    match place_of_id(store.rows, id) {
        Some(place) => {
            let at = place as int;
            lemma_removed(store, at);
            lemma_place_of_id(store.without(id).rows, id);
            assert forall|key: (Seq<char>, Seq<char>, Seq<char>)|
                (store.row(key) matches Some(row) ==> row.id != id) implies #[trigger] store.without(
                id,
            ).row(key) == store.row(key) by {
                if key == store.rows[at].key() {
                    lemma_place_of_key(store.rows, key);
                    let first = place_of_key(store.rows, key)->0 as int;
                    assert(first == at) by {
                        if first < at {
                            assert(store.rows[first].key() != store.rows[at].key());
                        }
                    }
                }
            }
        },
        None => {},
    }
}

/// Rows with different numbers and different keys make a valid dictionary, in whatever
/// order they come.
pub proof fn law_opened_store_is_valid(rows: Seq<RowModel>, last_id: i64)
    requires
        forall|i: int, j: int|
            0 <= i < j < rows.len() ==> (#[trigger] rows[i]).id != (#[trigger] rows[j]).id
                && rows[i].key() != rows[j].key(),
    ensures
        StoreModel::opened(rows, last_id).valid(),
        StoreModel::opened(rows, last_id).last_id >= last_id,
        StoreModel::opened(rows, last_id).rows.to_multiset() == rows.to_multiset(),
    decreases rows.len(),
{
    broadcast use vstd::seq_lib::group_to_multiset_ensures;

    if rows.len() > 0 {
        let front = StoreModel::opened(rows.drop_last(), last_id);
        let row = rows.last();
        law_opened_store_is_valid(rows.drop_last(), last_id);
        let next = StoreModel::opened(rows, last_id);
        assert forall|i: int| 0 <= i < front.rows.len() implies (#[trigger] front.rows[i]).id
            != row.id && front.rows[i].key() != row.key() by {
            assert(front.rows.to_multiset().contains(front.rows[i]));
            assert(rows.drop_last().to_multiset().contains(front.rows[i]));
            assert(rows.drop_last().contains(front.rows[i]));
            let k = choose|k: int|
                0 <= k < rows.drop_last().len() && rows.drop_last()[k] == front.rows[i];
            assert(rows[k] == front.rows[i]);
        }
        lemma_placed(front, row, next.last_id);
        lemma_place_of(front.rows, row);
        assert(rows =~= rows.drop_last().push(row));
        vstd::seq_lib::to_multiset_insert(front.rows, place_of(front.rows, row) as int, row);
    } else {
        assert(StoreModel::opened(rows, last_id).rows =~= rows);
    }
}

/// Whether a row is of the term that an entry is for.
pub open spec fn is_row_of(row: RowModel, entry: EntryModel) -> bool {
    &&& row.source == trimmed(entry.source)
    &&& row.source_language == entry.source_language
    &&& row.target_language == entry.target_language
}

/// Whether a row says what an entry says, and when it was put in.
pub open spec fn is_row_from(row: RowModel, entry: EntryModel, now: i64) -> bool {
    &&& is_row_of(row, entry)
    &&& row.target == trimmed(entry.target)
    &&& row.domain == trimmed(entry.domain)
    &&& row.active == entry.active
    &&& row.updated_at_ms == now
    &&& list_text(kept_aliases(entry.aliases, trimmed(entry.source))) == Ok::<Seq<char>, Seq<char>>(
        row.aliases_json,
    )
}

/// Putting in an entry takes the row of its term out, if there is one, and puts in one row
/// that says what the entry says. The row keeps the number of the one that was taken out
/// and the higher confidence and evidence of the two; a new row gets the next number. What
/// was saved is what the row says.
pub proof fn law_put_in_row_is_the_entry(store: StoreModel, entry: EntryModel, now: i64)
    requires
        store.upserted(entry, now).1 is Ok,
    ensures
        ({
            let saved = store.upserted(entry, now).1->Ok_0;
            let next = store.upserted(entry, now).0;
            exists|row: RowModel|
                #[trigger] is_row_from(row, entry, now) && saved == (EntryModel {
                    id: Some(row.id),
                    source: row.source,
                    source_language: row.source_language,
                    target: row.target,
                    target_language: row.target_language,
                    aliases: kept_aliases(entry.aliases, trimmed(entry.source)),
                    domain: row.domain,
                    confidence: row.confidence,
                    evidence_count: row.evidence_count,
                    active: row.active,
                }) && {
                    let bits = if entry.confidence == 0x8000_0000_0000_0000 {
                        0
                    } else {
                        entry.confidence
                    };
                    ||| {
                        &&& forall|i: int|
                            0 <= i < store.rows.len() ==> !is_row_of(
                                #[trigger] store.rows[i],
                                entry,
                            )
                        &&& row.id == store.last_id + 1
                        &&& next.last_id == row.id
                        &&& row.confidence == bits
                        &&& row.evidence_count == entry.evidence_count
                        &&& next.rows.to_multiset() == store.rows.to_multiset().insert(row)
                    }
                    ||| exists|i: int|
                        0 <= i < store.rows.len() && is_row_of(#[trigger] store.rows[i], entry) && {
                            let known = store.rows[i];
                            &&& row.id == known.id
                            &&& next.last_id == store.last_id
                            &&& row.confidence == (if double_rank(known.confidence) >= double_rank(
                                bits,
                            ) {
                                known.confidence
                            } else {
                                bits
                            })
                            &&& row.evidence_count == (if known.evidence_count
                                >= entry.evidence_count {
                                known.evidence_count
                            } else {
                                entry.evidence_count
                            })
                            &&& next.rows.to_multiset() == store.rows.to_multiset().remove(
                                known,
                            ).insert(row)
                        }
                }
        }),
{
    let aliases = kept_aliases(entry.aliases, trimmed(entry.source));
    let json = list_text(aliases)->Ok_0;
    let key = fresh_row(entry, json, 0, now).key();
    lemma_place_of_key(store.rows, key);
    match place_of_key(store.rows, key) {
        Some(place) => {
            let at = place as int;
            let known = store.rows[at];
            let row = merged_row(known, fresh_row(entry, json, known.id, now));
            assert(known.key() == key);
            assert(is_row_of(store.rows[at], entry));
            let rest = store.rows.remove(at);
            lemma_place_of(rest, row);
            vstd::seq_lib::to_multiset_remove(store.rows, at);
            vstd::seq_lib::to_multiset_insert(rest, place_of(rest, row) as int, row);
            assert(is_row_from(row, entry, now));
        },
        None => {
            let row = fresh_row(entry, json, (store.last_id + 1) as i64, now);
            assert forall|i: int| 0 <= i < store.rows.len() implies !is_row_of(
                #[trigger] store.rows[i],
                entry,
            ) by {
                assert(store.rows[i].key() != key);
            }
            lemma_place_of(store.rows, row);
            vstd::seq_lib::to_multiset_insert(store.rows, place_of(store.rows, row) as int, row);
            assert(is_row_from(row, entry, now));
        },
    }
}

/// An entry that cannot be put in changes nothing: it is not in order, its aliases cannot
/// be written down, or its term is new and there is no number left.
pub proof fn law_refused_entry_changes_nothing(store: StoreModel, entry: EntryModel, now: i64)
    ensures
        store.upserted(entry, now).1 matches Err(error) ==> {
            let aliases = list_text(kept_aliases(entry.aliases, trimmed(entry.source)));
            &&& store.upserted(entry, now).0 == store
            &&& match entry.fault() {
                Some(message) => error == DictionaryErrorModel::Invalid(message),
                None => match aliases {
                    Err(detail) => error == DictionaryErrorModel::Aliases(detail),
                    Ok(_) => error == DictionaryErrorModel::Storage(FaultModel::Full)
                        && store.last_id == i64::MAX && forall|i: int|
                        0 <= i < store.rows.len() ==> !is_row_of(#[trigger] store.rows[i], entry),
                },
            }
        },
        entry.fault() is Some ==> store.upserted(entry, now).1 is Err,
{
    let aliases = kept_aliases(entry.aliases, trimmed(entry.source));
    if let Ok(json) = list_text(aliases) {
        let key = fresh_row(entry, json, 0, now).key();
        lemma_place_of_key(store.rows, key);
        assert forall|i: int|
            store.with_entry(entry, json, now) is None && 0 <= i < store.rows.len() implies !is_row_of(
            #[trigger] store.rows[i],
            entry,
        ) by {
            assert(store.rows[i].key() != key);
        }
    }
}

/// Whether an entry says what a row says.
pub open spec fn is_entry_of(entry: EntryModel, row: RowModel) -> bool {
    &&& entry.id == Some(row.id)
    &&& entry.source == row.source
    &&& entry.source_language == row.source_language
    &&& entry.target == row.target
    &&& entry.target_language == row.target_language
    &&& text_list(row.aliases_json) == Ok::<Seq<Seq<char>>, Seq<char>>(entry.aliases)
    &&& entry.domain == row.domain
    &&& entry.confidence == row.confidence
    &&& entry.evidence_count == row.evidence_count
    &&& entry.active == row.active
}

/// Every row is listed, in the order of the rows, with all that it says. Only aliases that
/// cannot be read keep the rows from being listed, and the first such row is the reason.
pub proof fn law_every_row_is_listed(rows: Seq<RowModel>)
    ensures
        match entries_of(rows) {
            Ok(entries) => entries.len() == rows.len() && forall|i: int|
                0 <= i < rows.len() ==> is_entry_of(#[trigger] entries[i], rows[i]),
            Err(error) => exists|i: int|
                0 <= i < rows.len() && (text_list((#[trigger] rows[i]).aliases_json) matches Err(
                    detail,
                ) && error == DictionaryErrorModel::Storage(
                    FaultModel::Conversion {
                        length: encode_utf8(rows[i].aliases_json).len(),
                        detail,
                    },
                )) && forall|j: int|
                    0 <= j < i ==> text_list((#[trigger] rows[j]).aliases_json) is Ok,
        },
    decreases rows.len(),
{
    if rows.len() > 0 {
        let front = rows.drop_last();
        let last = rows.len() - 1;
        law_every_row_is_listed(front);
        match entries_of(front) {
            Ok(entries) => {
                assert forall|j: int| 0 <= j < last implies text_list(
                    (#[trigger] rows[j]).aliases_json,
                ) is Ok by {
                    assert(is_entry_of(entries[j], front[j]));
                }
                if let Ok(all) = entries_of(rows) {
                    assert forall|i: int| 0 <= i < rows.len() implies is_entry_of(
                        #[trigger] all[i],
                        rows[i],
                    ) by {
                        if i < last {
                            assert(is_entry_of(entries[i], front[i]));
                            assert(all[i] == entries[i]);
                        }
                    }
                } else {
                    assert(text_list(rows[last].aliases_json) is Err);
                }
            },
            Err(error) => {
                let i = choose|i: int|
                    0 <= i < front.len() && (text_list(
                        (#[trigger] front[i]).aliases_json,
                    ) matches Err(detail) && error == DictionaryErrorModel::Storage(
                        FaultModel::Conversion {
                            length: encode_utf8(front[i].aliases_json).len(),
                            detail,
                        },
                    )) && forall|j: int|
                        0 <= j < i ==> text_list((#[trigger] front[j]).aliases_json) is Ok;
                assert(rows[i] == front[i]);
                assert forall|j: int| 0 <= j < i implies text_list(
                    (#[trigger] rows[j]).aliases_json,
                ) is Ok by {
                    assert(rows[j] == front[j]);
                }
            },
        }
    }
}

/// In a valid dictionary the row that was changed later comes first, and of two rows that
/// were changed at one time the one with the higher number.
pub proof fn law_later_rows_come_first(store: StoreModel, i: int, j: int)
    requires
        store.valid(),
        0 <= i < j < store.rows.len(),
    ensures
        store.rows[i].updated_at_ms >= store.rows[j].updated_at_ms,
        store.rows[i].updated_at_ms == store.rows[j].updated_at_ms ==> store.rows[i].id
            > store.rows[j].id,
        !(store.rows[i].source == store.rows[j].source && store.rows[i].source_language
            == store.rows[j].source_language && store.rows[i].target_language
            == store.rows[j].target_language),
{
    assert(store.rows[i].precedes(store.rows[j]));
    assert(store.rows[i].key() != store.rows[j].key());
}

/// A term is found in the row that is its own, with all that the row says.
pub proof fn law_term_is_found_in_its_row(store: StoreModel, at: int)
    requires
        store.valid(),
        0 <= at < store.rows.len(),
    ensures
        ({
            let row = store.rows[at];
            let found = store.found((row.source, row.source_language, row.target_language));
            &&& text_list(row.aliases_json) is Ok <==> found is Ok
            &&& found matches Ok(entry) ==> entry is Some && is_entry_of(entry->0, row)
        }),
        forall|source: Seq<char>, from: Seq<char>, to: Seq<char>|
            (forall|i: int|
                0 <= i < store.rows.len() ==> !((#[trigger] store.rows[i]).source == source
                    && store.rows[i].source_language == from && store.rows[i].target_language
                    == to)) ==> #[trigger] store.found((source, from, to)) == Ok::<
                Option<EntryModel>,
                DictionaryErrorModel,
            >(None),
{
    let row = store.rows[at];
    lemma_place_of_key(store.rows, row.key());
    let place = place_of_key(store.rows, row.key())->0 as int;
    if place < at {
        assert(store.rows[place].key() != store.rows[at].key());
    }
    assert forall|source: Seq<char>, from: Seq<char>, to: Seq<char>|
        (forall|i: int|
            0 <= i < store.rows.len() ==> !((#[trigger] store.rows[i]).source == source
                && store.rows[i].source_language == from && store.rows[i].target_language
                == to)) implies #[trigger] store.found((source, from, to)) == Ok::<
        Option<EntryModel>,
        DictionaryErrorModel,
    >(None) by {
        lemma_place_of_key(store.rows, (source, from, to));
    }
}

/// Taking out a number takes out the row that has it and no other, and where no row has it
/// nothing changes.
pub proof fn law_one_row_is_taken_out(store: StoreModel, id: i64)
    ensures
        ({
            let after = store.without(id);
            ||| {
                &&& after == store
                &&& place_of_id(store.rows, id) is None
                &&& forall|i: int| 0 <= i < store.rows.len() ==> (#[trigger] store.rows[i]).id != id
            }
            ||| exists|i: int|
                0 <= i < store.rows.len() && (#[trigger] store.rows[i]).id == id && after.rows
                    == store.rows.remove(i) && place_of_id(store.rows, id) == Some(i as nat)
        }),
        store.without(id).last_id == store.last_id,
{
    lemma_place_of_id(store.rows, id);
    if let Some(place) = place_of_id(store.rows, id) {
        assert(store.rows[place as int].id == id);
    }
}

/// To learn from a correction is to put in what it teaches, and nothing if it teaches
/// nothing.
pub proof fn law_learning_is_putting_in(store: StoreModel, correction: CorrectionModel, now: i64)
    ensures
        match lesson(correction) {
            None => store.learned(correction, now) == (
                store,
                Ok::<Option<EntryModel>, DictionaryErrorModel>(None),
            ),
            Some(entry) => store.learned(correction, now).0 == store.upserted(entry, now).0 && (
            match store.upserted(entry, now).1 {
                Ok(saved) => store.learned(correction, now).1 == Ok::<
                    Option<EntryModel>,
                    DictionaryErrorModel,
                >(Some(saved)),
                Err(error) => store.learned(correction, now).1 == Err::<
                    Option<EntryModel>,
                    DictionaryErrorModel,
                >(error),
            }),
        },
{
}

} // verus!
