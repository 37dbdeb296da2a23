//! Building the dictionary and the lemma table from CSV data.

use crate::numbers::{parse_i32, parsed_i32};
use crate::types::DictRecord;
use vstd::hash_map::StringHashMap;
use vstd::prelude::*;

verus! {

/// The error type of the `csv` crate.
#[verifier::external_type_specification]
#[verifier::external_body]
pub struct ExCsvError(csv::Error);

/// Why a dictionary or a lemma table could not be built.
#[derive(Clone, Copy, Debug, PartialEq, Eq)]
pub enum LoadError {
    /// The CSV reader refused the data: a field is not UTF-8, or a record
    /// has another number of fields than the first.
    Malformed,
    /// The record with this index, the header not counted, has too few
    /// fields.
    MissingField { row: usize },
    /// The hint level of the record with this index, the header not counted,
    /// is not a decimal `i32`.
    InvalidHintLevel { row: usize },
}

/// The records that the `csv` crate reads from `data` with its default
/// configuration, each as the sequence of its fields and without the header
/// record; nothing where reading fails.
pub uninterp spec fn csv_records(data: Seq<u8>) -> Option<Seq<Seq<Seq<char>>>>;

/// The fields that the rows of `rows` hold, as character sequences.
pub open spec fn row_views(rows: Seq<Vec<String>>) -> Seq<Seq<Seq<char>>> {
    Seq::new(rows.len(), |i: int| Seq::new(rows[i]@.len(), |j: int| rows[i]@[j]@))
}

/// Reads every record of `data` with `csv::Reader::from_reader` and
/// `Reader::records`, and copies the fields of each record into strings.
/// The reader takes the first record as a header and skips it, and fails on
/// a field that is not UTF-8 and on a record whose number of fields differs
/// from that of the first record. The first failure ends the reading. The
/// contract does not say how bytes become records; it names the outcome,
/// which depends on the bytes alone: `csv_records` of the bytes.
#[verifier::external_body]
pub(crate) fn read_records(data: &[u8]) -> (r: Result<Vec<Vec<String>>, csv::Error>)
    ensures
        match r {
            Ok(rows) => csv_records(data@) == Some(row_views(rows@)),
            Err(_) => csv_records(data@) is None,
        },
{
    let mut reader = csv::Reader::from_reader(data);
    let mut rows: Vec<Vec<String>> = Vec::new();
    for result in reader.records() {
        let record = result?;
        rows.push(record.iter().map(|field| field.to_string()).collect());
    }
    Ok(rows)
}

/// Index of the last row whose field `column` is `key`; -1 when no row has
/// it there.
pub open spec fn last_row_with(rows: Seq<Seq<Seq<char>>>, column: int, key: Seq<char>) -> int
    decreases rows.len(),
{
    if rows.len() == 0 {
        -1
    } else if rows.last()[column] == key {
        rows.len() - 1
    } else {
        last_row_with(rows.drop_last(), column, key)
    }
}

/// A row that can become a dictionary record: seven fields or more, the
/// seventh a decimal `i32`.
pub open spec fn is_dict_row(row: Seq<Seq<char>>) -> bool {
    row.len() >= 7 && parsed_i32(row[6]) is Some
}

/// A row that can become a lemma: two fields or more.
pub open spec fn is_lemma_row(row: Seq<Seq<char>>) -> bool {
    row.len() >= 2
}

/// `record` holds the fields of `row`: the second field is the headword,
/// then come the transcription, the full and the condensed definition and
/// the examples, and the seventh field is the hint level.
pub open spec fn describes(record: DictRecord, row: Seq<Seq<char>>) -> bool {
    &&& record.word@ == row[1]
    &&& record.phoneme@ == row[2]
    &&& record.full_def@ == row[3]
    &&& record.short_def@ == row[4]
    &&& record.example_sentences@ == row[5]
    &&& parsed_i32(row[6]) == Some(record.hint_lvl)
}

/// `dict` is the dictionary of `rows`: its keys are the headwords of the
/// rows, and each key leads to the record of the last row with that
/// headword.
pub open spec fn is_dict_of(dict: Map<Seq<char>, DictRecord>, rows: Seq<Seq<Seq<char>>>) -> bool {
    forall|key: Seq<char>|
        {
            let at = last_row_with(rows, 1, key);
            &&& #[trigger] dict.contains_key(key) <==> at >= 0
            &&& at >= 0 ==> describes(dict[key], rows[at])
        }
}

/// `lemmas` is the lemma table of `rows`: its keys are the inflected forms,
/// the second field of the rows, and each leads to the base form, the first
/// field, of the last row with that inflected form.
pub open spec fn is_lemma_table_of(
    lemmas: Map<Seq<char>, String>,
    rows: Seq<Seq<Seq<char>>>,
) -> bool {
    forall|key: Seq<char>|
        {
            let at = last_row_with(rows, 1, key);
            &&& #[trigger] lemmas.contains_key(key) <==> at >= 0
            &&& at >= 0 ==> lemmas[key]@ == rows[at][0]
        }
}

/// Every row before row `k` can become a dictionary record.
pub open spec fn dict_rows_before(rows: Seq<Seq<Seq<char>>>, k: int) -> bool {
    forall|j: int| 0 <= j < k ==> is_dict_row(#[trigger] rows[j])
}

/// Every row before row `k` can become a lemma.
pub open spec fn lemma_rows_before(rows: Seq<Seq<Seq<char>>>, k: int) -> bool {
    forall|j: int| 0 <= j < k ==> is_lemma_row(#[trigger] rows[j])
}

/// The last row with a key is a row, and holds the key.
pub proof fn lemma_last_row_with(rows: Seq<Seq<Seq<char>>>, column: int, key: Seq<char>)
    ensures
        -1 <= last_row_with(rows, column, key) < rows.len(),
        last_row_with(rows, column, key) >= 0 ==> rows[last_row_with(rows, column, key)][column]
            == key,
    decreases rows.len(),
{
    if rows.len() > 0 && rows.last()[column] != key {
        lemma_last_row_with(rows.drop_last(), column, key);
    }
}

/// In the dictionary of a table every key is the headword of its record.
pub proof fn lemma_keys_are_headwords(
    dict: Map<Seq<char>, DictRecord>,
    rows: Seq<Seq<Seq<char>>>,
    key: Seq<char>,
)
    requires
        is_dict_of(dict, rows),
        dict.contains_key(key),
    ensures
        dict[key].word@ == key,
{
    lemma_last_row_with(rows, 1, key);
}

/// Builds the dictionary from the rows of a table.
pub fn dict_from_rows(rows: &Vec<Vec<String>>) -> (r: Result<StringHashMap<DictRecord>, LoadError>)
    ensures
        match r {
            Ok(dict) => dict_rows_before(row_views(rows@), rows.len() as int) && is_dict_of(
                dict@,
                row_views(rows@),
            ),
            Err(LoadError::MissingField { row }) => row < rows.len() && dict_rows_before(
                row_views(rows@),
                row as int,
            ) && rows[row as int].len() < 7,
            Err(LoadError::InvalidHintLevel { row }) => row < rows.len() && dict_rows_before(
                row_views(rows@),
                row as int,
            ) && rows[row as int].len() >= 7 && parsed_i32(rows[row as int][6]@) is None,
            Err(LoadError::Malformed) => false,
        },
{
    let ghost views = row_views(rows@);
    let mut dict: StringHashMap<DictRecord> = StringHashMap::new();
    let mut i: usize = 0;
    assert(views.take(0) =~= Seq::<Seq<Seq<char>>>::empty());
    while i < rows.len()
        invariant
            i <= rows.len(),
            views == row_views(rows@),
            dict_rows_before(views, i as int),
            is_dict_of(dict@, views.take(i as int)),
        decreases rows.len() - i,
    {
        let row = &rows[i];
        if row.len() < 7 {
            return Err(LoadError::MissingField { row: i });
        }
        let hint_lvl = match parse_i32(row[6].as_str()) {
            Some(hint_lvl) => hint_lvl,
            None => {
                return Err(LoadError::InvalidHintLevel { row: i });
            },
        };
        let record = DictRecord {
            word: row[1].clone(),
            phoneme: row[2].clone(),
            full_def: row[3].clone(),
            short_def: row[4].clone(),
            example_sentences: row[5].clone(),
            hint_lvl,
        };
        let ghost before = dict@;
        dict.insert(row[1].clone(), record);
        proof {
            let shorter = views.take(i as int);
            let longer = views.take(i + 1);
            assert(longer.drop_last() =~= shorter);
            assert(longer.last() == views[i as int]);
            assert(describes(record, views[i as int]));
            assert forall|key: Seq<char>|
                {
                    let at = last_row_with(longer, 1, key);
                    &&& #[trigger] dict@.contains_key(key) <==> at >= 0
                    &&& at >= 0 ==> describes(dict@[key], longer[at])
                } by {
                lemma_last_row_with(shorter, 1, key);
                assert(before.contains_key(key) <==> last_row_with(shorter, 1, key) >= 0);
                if last_row_with(shorter, 1, key) >= 0 {
                    assert(longer[last_row_with(shorter, 1, key)] == shorter[last_row_with(
                        shorter,
                        1,
                        key,
                    )]);
                }
            }
        }
        i += 1;
    }
    assert(views.take(i as int) =~= views);
    Ok(dict)
}

/// Builds the lemma table from the rows of a table.
pub fn lemmas_from_rows(rows: &Vec<Vec<String>>) -> (r: Result<StringHashMap<String>, LoadError>)
    ensures
        match r {
            Ok(lemmas) => lemma_rows_before(row_views(rows@), rows.len() as int)
                && is_lemma_table_of(lemmas@, row_views(rows@)),
            Err(LoadError::MissingField { row }) => row < rows.len() && lemma_rows_before(
                row_views(rows@),
                row as int,
            ) && rows[row as int].len() < 2,
            Err(_) => false,
        },
{
    let ghost views = row_views(rows@);
    let mut lemmas: StringHashMap<String> = StringHashMap::new();
    let mut i: usize = 0;
    assert(views.take(0) =~= Seq::<Seq<Seq<char>>>::empty());
    while i < rows.len()
        invariant
            i <= rows.len(),
            views == row_views(rows@),
            lemma_rows_before(views, i as int),
            is_lemma_table_of(lemmas@, views.take(i as int)),
        decreases rows.len() - i,
    {
        let row = &rows[i];
        if row.len() < 2 {
            return Err(LoadError::MissingField { row: i });
        }
        let ghost before = lemmas@;
        lemmas.insert(row[1].clone(), row[0].clone());
        proof {
            let shorter = views.take(i as int);
            let longer = views.take(i + 1);
            assert(longer.drop_last() =~= shorter);
            assert(longer.last() == views[i as int]);
            assert forall|key: Seq<char>|
                {
                    let at = last_row_with(longer, 1, key);
                    &&& #[trigger] lemmas@.contains_key(key) <==> at >= 0
                    &&& at >= 0 ==> lemmas@[key]@ == longer[at][0]
                } by {
                lemma_last_row_with(shorter, 1, key);
                assert(before.contains_key(key) <==> last_row_with(shorter, 1, key) >= 0);
                if last_row_with(shorter, 1, key) >= 0 {
                    assert(longer[last_row_with(shorter, 1, key)] == shorter[last_row_with(
                        shorter,
                        1,
                        key,
                    )]);
                }
            }
        }
        i += 1;
    }
    assert(views.take(i as int) =~= views);
    Ok(lemmas)
}

/// Loads the dictionary from CSV data: a header record, then one record for
/// each entry. The second field of a record is the headword, the next four
/// are the transcription, the full definition, the condensed definition and
/// the examples, and the seventh is the hint level. A headword that occurs
/// twice keeps its last record.
pub fn load_dict(data: &[u8]) -> (r: Result<StringHashMap<DictRecord>, LoadError>)
    ensures
        match r {
            Ok(dict) => csv_records(data@) matches Some(rows) && dict_rows_before(
                rows,
                rows.len() as int,
            ) && is_dict_of(dict@, rows),
            Err(LoadError::Malformed) => csv_records(data@) is None,
            Err(LoadError::MissingField { row }) => csv_records(data@) matches Some(rows) && row
                < rows.len() && dict_rows_before(rows, row as int) && rows[row as int].len() < 7,
            Err(LoadError::InvalidHintLevel { row }) => csv_records(data@) matches Some(rows)
                && row < rows.len() && dict_rows_before(rows, row as int) && rows[row as int].len()
                >= 7 && parsed_i32(rows[row as int][6]) is None,
        },
{
    match read_records(data) {
        Ok(rows) => dict_from_rows(&rows),
        Err(_) => Err(LoadError::Malformed),
    }
}

/// Loads the lemma table from CSV data: a header record, then one record for
/// each inflected form, with the base form in the first field and the
/// inflected form in the second. An inflected form that occurs twice keeps
/// its last base form.
pub fn load_lemma(data: &[u8]) -> (r: Result<StringHashMap<String>, LoadError>)
    ensures
        match r {
            Ok(lemmas) => csv_records(data@) matches Some(rows) && lemma_rows_before(
                rows,
                rows.len() as int,
            ) && is_lemma_table_of(lemmas@, rows),
            Err(LoadError::Malformed) => csv_records(data@) is None,
            Err(LoadError::MissingField { row }) => csv_records(data@) matches Some(rows) && row
                < rows.len() && lemma_rows_before(rows, row as int) && rows[row as int].len() < 2,
            Err(LoadError::InvalidHintLevel { .. }) => false,
        },
{
    match read_records(data) {
        Ok(rows) => lemmas_from_rows(&rows),
        Err(_) => Err(LoadError::Malformed),
    }
}

} // verus!
