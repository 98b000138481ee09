//! The coverage report: for each file, how often each of its lines ran.

use vstd::prelude::*;
use vstd::string::StringSliceAdditionalSpecFns;
use crate::decimal::{parse_count, spec_parse_count};
use crate::json::{json_document, lemma_json_items, lemma_json_members, Json, JsonValue, Malformed};
use crate::options::JsonFormat;
use crate::paths::{join, normalize, spec_join, spec_normalize};
use crate::text::bytes_eq;

verus! {

/// The lines of one file: `None` for a line that cannot be covered,
/// `Some(n)` for one that ran `n` times.
#[derive(Debug, PartialEq, Eq)]
pub struct FileCoverage {
    pub path: Vec<u8>,
    pub lines: Vec<Option<u64>>,
}

/// The mathematical model of a [`FileCoverage`].
pub struct FileLines {
    pub path: Seq<u8>,
    pub lines: Seq<Option<u64>>,
}

impl View for FileCoverage {
    type V = FileLines;

    open spec fn view(&self) -> FileLines {
        FileLines { path: self.path@, lines: self.lines@ }
    }
}

/// The models of a sequence of files.
pub open spec fn spec_files(files: Seq<FileCoverage>) -> Seq<FileLines> {
    files.map_values(|f: FileCoverage| f@)
}

/// Why a JSON document is no coverage report of the schema asked for.
#[derive(Clone, Copy, Debug, PartialEq, Eq, Structural)]
pub enum SchemaError {
    /// A required key is absent, or its value has the wrong type.
    Structure,
    /// An entry of a coverage array is neither `null`, `-1` nor a count
    /// that fits in 64 bits.
    Line,
}

/// Why a text is no coverage report.
#[derive(Clone, Copy, Debug, PartialEq, Eq, Structural)]
pub enum ReportError {
    /// The text is not a JSON document.
    Json(Malformed),
    /// The document does not follow the schema.
    Schema(SchemaError),
}

/// Index of the first member of an object with the key `key`, or -1.
pub open spec fn spec_member_index(members: Seq<(Seq<u8>, JsonValue)>, key: Seq<u8>) -> int
    decreases members.len(),
{
    if members.len() == 0 {
        -1
    } else {
        let before = spec_member_index(members.drop_last(), key);
        if before >= 0 {
            before
        } else if members.last().0 == key {
            members.len() - 1
        } else {
            -1
        }
    }
}

/// The value of the first member with the key `key`.
pub open spec fn spec_member(members: Seq<(Seq<u8>, JsonValue)>, key: Seq<u8>) -> Option<
    JsonValue,
> {
    let i = spec_member_index(members, key);
    if 0 <= i < members.len() {
        Some(members[i].1)
    } else {
        None
    }
}

/// What one entry of a coverage array says of its line: `null` and `-1`
/// mark a line that cannot be covered, a count a line that can. Anything
/// else is no entry.
pub open spec fn spec_line(v: JsonValue) -> Option<Option<u64>> {
    match v {
        JsonValue::Null => Some(None),
        JsonValue::Number(text) => if text == seq![45u8, 49u8] {
            Some(None)
        } else {
            match spec_parse_count(text) {
                Some(n) => Some(Some(n)),
                None => None,
            }
        },
        _ => None,
    }
}

/// The lines that a coverage array describes, where every entry is one.
pub open spec fn spec_lines(items: Seq<JsonValue>) -> Option<Seq<Option<u64>>>
    decreases items.len(),
{
    if items.len() == 0 {
        Some(Seq::empty())
    } else {
        match (spec_lines(items.drop_last()), spec_line(items.last())) {
            (Some(lines), Some(line)) => Some(lines.push(line)),
            _ => None,
        }
    }
}

/// The key under which a Coveralls report lists its files.
pub open spec fn key_source_files() -> Seq<u8> {
    "source_files".spec_bytes()
}

/// The key of a file's path in a Coveralls record.
pub open spec fn key_name() -> Seq<u8> {
    "name".spec_bytes()
}

/// The key of a file's coverage array, in both schemas.
pub open spec fn key_coverage() -> Seq<u8> {
    "coverage".spec_bytes()
}

/// The key of a directory's entries in a Covdir tree.
pub open spec fn key_children() -> Seq<u8> {
    "children".spec_bytes()
}

/// What one record of a Coveralls report says: an object with a string
/// `name` and an array `coverage`.
pub open spec fn spec_record(v: JsonValue) -> Result<FileLines, SchemaError> {
    match v {
        JsonValue::Object(members) => match (
            spec_member(members, key_name()),
            spec_member(members, key_coverage()),
        ) {
            (Some(JsonValue::Text(name)), Some(JsonValue::Array(items))) => match spec_lines(
                items,
            ) {
                Some(lines) => Ok(FileLines { path: spec_normalize(name), lines }),
                None => Err(SchemaError::Line),
            },
            _ => Err(SchemaError::Structure),
        },
        _ => Err(SchemaError::Structure),
    }
}

/// What a list of Coveralls records says, record by record; the first
/// faulty record decides the error.
pub open spec fn spec_records(items: Seq<JsonValue>) -> Result<Seq<FileLines>, SchemaError>
    decreases items.len(),
{
    if items.len() == 0 {
        Ok(Seq::empty())
    } else {
        match spec_records(items.drop_last()) {
            Err(e) => Err(e),
            Ok(files) => match spec_record(items.last()) {
                Err(e) => Err(e),
                Ok(file) => Ok(files.push(file)),
            },
        }
    }
}

/// What a Coveralls document says: an object whose `source_files` is an
/// array of records.
pub open spec fn spec_coveralls(doc: JsonValue) -> Result<Seq<FileLines>, SchemaError> {
    match doc {
        JsonValue::Object(members) => match spec_member(members, key_source_files()) {
            Some(JsonValue::Array(items)) => spec_records(items),
            _ => Err(SchemaError::Structure),
        },
        _ => Err(SchemaError::Structure),
    }
}

/// What the node of a Covdir tree at `path` says. A node with a `coverage`
/// array is a file; any other node is a directory and holds its entries
/// under `children`, each under its name. Directories themselves leave no
/// trace: the files come out in the order of a walk through the tree.
pub open spec fn spec_covdir_node(node: JsonValue, path: Seq<u8>) -> Result<
    Seq<FileLines>,
    SchemaError,
>
    decreases node, 0nat,
{
    match node {
        JsonValue::Object(members) => {
            let c = spec_member_index(members, key_coverage());
            let k = spec_member_index(members, key_children());
            if 0 <= c < members.len() {
                match members[c].1 {
                    JsonValue::Array(items) => match spec_lines(items) {
                        Some(lines) => Ok(seq![FileLines { path: spec_normalize(path), lines }]),
                        None => Err(SchemaError::Line),
                    },
                    _ => Err(SchemaError::Structure),
                }
            } else if 0 <= k < members.len() {
                match members[k].1 {
                    JsonValue::Object(entries) => spec_covdir_entries(
                        entries,
                        path,
                        entries.len(),
                    ),
                    _ => Err(SchemaError::Structure),
                }
            } else {
                Err(SchemaError::Structure)
            }
        },
        _ => Err(SchemaError::Structure),
    }
}

/// What the first `n` entries of a Covdir directory at `path` say; the
/// first faulty entry decides the error.
pub open spec fn spec_covdir_entries(
    entries: Seq<(Seq<u8>, JsonValue)>,
    path: Seq<u8>,
    n: nat,
) -> Result<Seq<FileLines>, SchemaError>
    decreases entries, n,
{
    if n == 0 || n > entries.len() {
        Ok(Seq::empty())
    } else {
        match spec_covdir_entries(entries, path, (n - 1) as nat) {
            Err(e) => Err(e),
            Ok(files) => match spec_covdir_node(
                entries[n - 1].1,
                spec_join(path, entries[n - 1].0),
            ) {
                Err(e) => Err(e),
                Ok(more) => Ok(files + more),
            },
        }
    }
}

/// What a document says as a coverage report of the given schema.
pub open spec fn spec_report(doc: JsonValue, format: JsonFormat) -> Result<
    Seq<FileLines>,
    SchemaError,
> {
    match format {
        JsonFormat::Coveralls => spec_coveralls(doc),
        JsonFormat::Covdir => spec_covdir_node(doc, Seq::empty()),
    }
}

/// The models of the members of an object.
pub open spec fn spec_members(members: Seq<(Vec<u8>, Json)>) -> Seq<(Seq<u8>, JsonValue)> {
    Seq::new(members.len(), |i: int| (members[i].0@, members[i].1@))
}

/// The models of the items of an array.
pub open spec fn spec_items(items: Seq<Json>) -> Seq<JsonValue> {
    Seq::new(items.len(), |i: int| items[i]@)
}

/// The model of an object is the object of its members' models, and the
/// model of an array the array of its items' models.
pub proof fn lemma_view_unfolds(j: Json)
    ensures
        j matches Json::Object(members) ==> j@ == JsonValue::Object(spec_members(members@)),
        j matches Json::Array(items) ==> j@ == JsonValue::Array(spec_items(items@)),
{
    match j {
        Json::Object(members) => {
            lemma_json_members(members@, members@.len());
            assert(j@->Object_0 =~= spec_members(members@));
        },
        Json::Array(items) => {
            lemma_json_items(items@, items@.len());
            assert(j@->Array_0 =~= spec_items(items@));
        },
        _ => {},
    }
}

/// A key found among the first `k` members is the key found among all.
proof fn lemma_member_index_prefix(members: Seq<(Seq<u8>, JsonValue)>, key: Seq<u8>, k: int)
    requires
        0 <= k <= members.len(),
        spec_member_index(members.take(k), key) >= 0,
    ensures
        spec_member_index(members, key) == spec_member_index(members.take(k), key),
    decreases members.len(),
{
    if k == members.len() {
        assert(members.take(k) == members);
    } else {
        assert(members.drop_last().take(k) == members.take(k));
        lemma_member_index_prefix(members.drop_last(), key, k);
    }
}

/// A faulty entry among the first `k` makes the whole array faulty.
proof fn lemma_lines_prefix(items: Seq<JsonValue>, k: int)
    requires
        0 <= k <= items.len(),
        spec_lines(items.take(k)) is None,
    ensures
        spec_lines(items) is None,
    decreases items.len(),
{
    if k == items.len() {
        assert(items.take(k) == items);
    } else {
        assert(items.drop_last().take(k) == items.take(k));
        lemma_lines_prefix(items.drop_last(), k);
    }
}

/// A faulty record among the first `k` decides the error of the whole list.
proof fn lemma_records_prefix(items: Seq<JsonValue>, k: int)
    requires
        0 <= k <= items.len(),
        spec_records(items.take(k)) is Err,
    ensures
        spec_records(items) == spec_records(items.take(k)),
    decreases items.len(),
{
    if k == items.len() {
        assert(items.take(k) == items);
    } else {
        assert(items.drop_last().take(k) == items.take(k));
        lemma_records_prefix(items.drop_last(), k);
    }
}

/// A faulty entry among the first `k` decides the error of the directory.
proof fn lemma_entries_prefix(entries: Seq<(Seq<u8>, JsonValue)>, path: Seq<u8>, k: nat, n: nat)
    requires
        k <= n <= entries.len(),
        spec_covdir_entries(entries, path, k) is Err,
    ensures
        spec_covdir_entries(entries, path, n) == spec_covdir_entries(entries, path, k),
    decreases n,
{
    if k < n {
        lemma_entries_prefix(entries, path, k, (n - 1) as nat);
    }
}

/// Index of the first member of an object with the key `key`.
pub fn find_member(members: &Vec<(Vec<u8>, Json)>, key: &[u8]) -> (r: Option<usize>)
    ensures
        match r {
            Some(i) => i < members.len() && i == spec_member_index(
                spec_members(members@),
                key@,
            ),
            None => spec_member_index(spec_members(members@), key@) == -1,
        },
{
    let ghost ms = spec_members(members@);
    let mut i: usize = 0;
    while i < members.len()
        invariant
            i <= members.len(),
            ms == spec_members(members@),
            spec_member_index(ms.take(i as int), key@) == -1,
        decreases members.len() - i,
    {
        proof {
            assert(ms.take(i + 1).drop_last() == ms.take(i as int));
            assert(ms.take(i + 1).last() == ms[i as int]);
        }
        if bytes_eq(members[i].0.as_slice(), key) {
            proof {
                lemma_member_index_prefix(ms, key@, i + 1);
            }
            return Some(i);
        }
        i += 1;
    }
    proof {
        assert(ms.take(members.len() as int) == ms);
    }
    None
}

/// Reads one entry of a coverage array.
pub fn read_line(v: &Json) -> (r: Option<Option<u64>>)
    ensures
        r == spec_line(v@),
{
    match v {
        Json::Null => Some(None),
        Json::Number(text) => {
            if text.len() == 2 && text[0] == 45 && text[1] == 49 {
                assert(text@ == seq![45u8, 49u8]);
                Some(None)
            } else {
                proof {
                    if text@ == seq![45u8, 49u8] {
                        assert(seq![45u8, 49u8].len() == 2);
                        assert(seq![45u8, 49u8][0] == 45);
                        assert(seq![45u8, 49u8][1] == 49);
                    }
                }
                match parse_count(text.as_slice()) {
                    Some(n) => Some(Some(n)),
                    None => None,
                }
            }
        },
        _ => None,
    }
}

/// Reads a coverage array.
pub fn read_lines(items: &Vec<Json>) -> (r: Option<Vec<Option<u64>>>)
    ensures
        match spec_lines(spec_items(items@)) {
            Some(lines) => r matches Some(v) && v@ == lines,
            None => r is None,
        },
{
    let ghost vals = spec_items(items@);
    let mut lines: Vec<Option<u64>> = Vec::with_capacity(items.len());
    let mut i: usize = 0;
    proof {
        assert(vals.take(0) == Seq::<JsonValue>::empty());
    }
    while i < items.len()
        invariant
            i <= items.len(),
            vals == spec_items(items@),
            spec_lines(vals.take(i as int)) == Some(lines@),
        decreases items.len() - i,
    {
        proof {
            assert(vals.take(i + 1).drop_last() == vals.take(i as int));
            assert(vals.take(i + 1).last() == vals[i as int]);
        }
        match read_line(&items[i]) {
            Some(line) => {
                lines.push(line);
            },
            None => {
                proof {
                    lemma_lines_prefix(vals, i + 1);
                }
                return None;
            },
        }
        i += 1;
    }
    proof {
        assert(vals.take(items.len() as int) == vals);
    }
    Some(lines)
}

/// Mapping to models goes through concatenation.
pub proof fn lemma_spec_files_add(a: Seq<FileCoverage>, b: Seq<FileCoverage>)
    ensures
        spec_files(a + b) == spec_files(a) + spec_files(b),
{
    assert(spec_files(a + b) =~= spec_files(a) + spec_files(b));
}

/// Reads one record of a Coveralls report.
pub fn read_record(v: &Json) -> (r: Result<FileCoverage, SchemaError>)
    ensures
        match spec_record(v@) {
            Ok(file) => r matches Ok(f) && f@ == file,
            Err(e) => r == Err::<FileCoverage, SchemaError>(e),
        },
{
    proof {
        lemma_view_unfolds(*v);
    }
    match v {
        Json::Object(members) => {
            let name = find_member(members, "name".as_bytes());
            let lines = find_member(members, "coverage".as_bytes());
            match (name, lines) {
                (Some(n), Some(c)) => {
                    proof {
                        lemma_view_unfolds(members[n as int].1);
                        lemma_view_unfolds(members[c as int].1);
                    }
                    match (&members[n].1, &members[c].1) {
                        (Json::Text(path), Json::Array(items)) => match read_lines(items) {
                            Some(lines) => Ok(
                                FileCoverage { path: normalize(path.as_slice()), lines },
                            ),
                            None => Err(SchemaError::Line),
                        },
                        _ => Err(SchemaError::Structure),
                    }
                },
                _ => Err(SchemaError::Structure),
            }
        },
        _ => Err(SchemaError::Structure),
    }
}

/// Reads the records of a Coveralls report.
pub fn read_records(items: &Vec<Json>) -> (r: Result<Vec<FileCoverage>, SchemaError>)
    ensures
        match spec_records(spec_items(items@)) {
            Ok(files) => r matches Ok(v) && spec_files(v@) == files,
            Err(e) => r matches Err(x) && x == e,
        },
{
    let ghost vals = spec_items(items@);
    let mut files: Vec<FileCoverage> = Vec::with_capacity(items.len());
    let mut i: usize = 0;
    proof {
        assert(vals.take(0) == Seq::<JsonValue>::empty());
        assert(spec_files(files@) == Seq::<FileLines>::empty());
    }
    while i < items.len()
        invariant
            i <= items.len(),
            vals == spec_items(items@),
            spec_records(vals.take(i as int)) == Ok::<Seq<FileLines>, SchemaError>(
                spec_files(files@),
            ),
        decreases items.len() - i,
    {
        proof {
            assert(vals.take(i + 1).drop_last() == vals.take(i as int));
            assert(vals.take(i + 1).last() == vals[i as int]);
        }
        match read_record(&items[i]) {
            Ok(file) => {
                proof {
                    assert(spec_files(files@.push(file)) == spec_files(files@).push(file@));
                }
                files.push(file);
            },
            Err(e) => {
                proof {
                    lemma_records_prefix(vals, i + 1);
                }
                return Err(e);
            },
        }
        i += 1;
    }
    proof {
        assert(vals.take(items.len() as int) == vals);
    }
    Ok(files)
}

/// Reads a Coveralls document.
pub fn read_coveralls(doc: &Json) -> (r: Result<Vec<FileCoverage>, SchemaError>)
    ensures
        match spec_coveralls(doc@) {
            Ok(files) => r matches Ok(v) && spec_files(v@) == files,
            Err(e) => r matches Err(x) && x == e,
        },
{
    proof {
        lemma_view_unfolds(*doc);
    }
    match doc {
        Json::Object(members) => match find_member(members, "source_files".as_bytes()) {
            Some(i) => {
                proof {
                    lemma_view_unfolds(members[i as int].1);
                }
                match &members[i].1 {
                    Json::Array(items) => read_records(items),
                    _ => Err(SchemaError::Structure),
                }
            },
            None => Err(SchemaError::Structure),
        },
        _ => Err(SchemaError::Structure),
    }
}

/// Reads the node of a Covdir tree at `path`, and all below it.
pub fn read_covdir(node: &Json, path: &Vec<u8>) -> (r: Result<Vec<FileCoverage>, SchemaError>)
    ensures
        match spec_covdir_node(node@, path@) {
            Ok(files) => r matches Ok(v) && spec_files(v@) == files,
            Err(e) => r matches Err(x) && x == e,
        },
    decreases node,
{
    proof {
        lemma_view_unfolds(*node);
    }
    let members = match node {
        Json::Object(members) => members,
        _ => {
            return Err(SchemaError::Structure);
        },
    };
    match find_member(members, "coverage".as_bytes()) {
        Some(c) => {
            proof {
                lemma_view_unfolds(members[c as int].1);
            }
            return read_covdir_file(&members[c].1, path);
        },
        None => {},
    }
    let k = match find_member(members, "children".as_bytes()) {
        Some(k) => k,
        None => {
            return Err(SchemaError::Structure);
        },
    };
    proof {
        lemma_view_unfolds(members[k as int].1);
    }
    let entries = match &members[k].1 {
        Json::Object(entries) => entries,
        _ => {
            return Err(SchemaError::Structure);
        },
    };
    let ghost ents = spec_members(entries@);
    let mut files: Vec<FileCoverage> = Vec::new();
    let mut i: usize = 0;
    proof {
        assert(spec_files(files@) == Seq::<FileLines>::empty());
        assert(spec_covdir_node(node@, path@) == spec_covdir_entries(ents, path@, ents.len()));
    }
    while i < entries.len()
        invariant
            i <= entries.len(),
            ents == spec_members(entries@),
            spec_covdir_node(node@, path@) == spec_covdir_entries(ents, path@, ents.len()),
            0 <= k < members.len(),
            *node == Json::Object(*members),
            members[k as int].1 == Json::Object(*entries),
            spec_covdir_entries(ents, path@, i as nat) == Ok::<Seq<FileLines>, SchemaError>(
                spec_files(files@),
            ),
        decreases entries.len() - i,
    {
        let below = join(path.as_slice(), entries[i].0.as_slice());
        proof {
            // an entry of a directory lies within the node of the directory
            assert(decreases_to!(*node => node->Object_0));
            assert(decreases_to!(*members => members[k as int]));
            assert(decreases_to!(members[k as int] => members[k as int].1));
            assert(decreases_to!(members[k as int].1 => members[k as int].1->Object_0));
            assert(decreases_to!(*entries => entries[i as int]));
            assert(decreases_to!(entries[i as int] => entries[i as int].1));
        }
        match read_covdir(&entries[i].1, &below) {
            Ok(mut more) => {
                proof {
                    lemma_spec_files_add(files@, more@);
                }
                files.append(&mut more);
            },
            Err(e) => {
                proof {
                    lemma_entries_prefix(ents, path@, (i + 1) as nat, entries.len() as nat);
                }
                return Err(e);
            },
        }
        i += 1;
    }
    Ok(files)
}

/// Reads the file of a Covdir tree at `path` from its coverage array.
fn read_covdir_file(coverage: &Json, path: &Vec<u8>) -> (r: Result<Vec<FileCoverage>, SchemaError>)
    ensures
        match coverage@ {
            JsonValue::Array(items) => match spec_lines(items) {
                Some(lines) => r matches Ok(v) && spec_files(v@) == seq![
                    FileLines { path: spec_normalize(path@), lines },
                ],
                None => r matches Err(x) && x == SchemaError::Line,
            },
            _ => r matches Err(x) && x == SchemaError::Structure,
        },
{
    proof {
        lemma_view_unfolds(*coverage);
    }
    match coverage {
        Json::Array(items) => match read_lines(items) {
            Some(lines) => {
                let mut files: Vec<FileCoverage> = Vec::new();
                files.push(FileCoverage { path: normalize(path.as_slice()), lines });
                proof {
                    assert(spec_files(files@) == seq![files@[0]@]);
                }
                Ok(files)
            },
            None => Err(SchemaError::Line),
        },
        _ => Err(SchemaError::Structure),
    }
}

/// Index of the first file stored under `path`, or -1.
pub open spec fn spec_lookup(files: Seq<FileLines>, path: Seq<u8>) -> int
    decreases files.len(),
{
    if files.len() == 0 {
        -1
    } else {
        let before = spec_lookup(files.drop_last(), path);
        if before >= 0 {
            before
        } else if files.last().path == path {
            files.len() - 1
        } else {
            -1
        }
    }
}

/// A line that ran at least once.
pub open spec fn spec_is_covered(line: Option<u64>) -> bool {
    line matches Some(n) && n > 0
}

/// Number of lines that ran at least once.
pub open spec fn spec_covered(lines: Seq<Option<u64>>) -> nat
    decreases lines.len(),
{
    if lines.len() == 0 {
        0
    } else {
        spec_covered(lines.drop_last()) + if spec_is_covered(lines.last()) {
            1nat
        } else {
            0nat
        }
    }
}

/// Number of lines that can be covered.
pub open spec fn spec_coverable(lines: Seq<Option<u64>>) -> nat
    decreases lines.len(),
{
    if lines.len() == 0 {
        0
    } else {
        spec_coverable(lines.drop_last()) + if lines.last() is Some {
            1nat
        } else {
            0nat
        }
    }
}

/// The lines `first` to `last` of a file, both counted from 1 and both
/// included; lines that the file does not have are left out.
pub open spec fn spec_span(lines: Seq<Option<u64>>, first: nat, last: nat) -> Seq<Option<u64>> {
    let from = if first == 0 {
        0
    } else {
        first - 1
    };
    let to = if last > lines.len() {
        lines.len() as int
    } else {
        last as int
    };
    if from < to {
        lines.subrange(from, to)
    } else {
        Seq::empty()
    }
}

/// A file found among the first `k` is the file found among all.
proof fn lemma_lookup_prefix(files: Seq<FileLines>, path: Seq<u8>, k: int)
    requires
        0 <= k <= files.len(),
        spec_lookup(files.take(k), path) >= 0,
    ensures
        spec_lookup(files, path) == spec_lookup(files.take(k), path),
    decreases files.len(),
{
    if k == files.len() {
        assert(files.take(k) == files);
    } else {
        assert(files.drop_last().take(k) == files.take(k));
        lemma_lookup_prefix(files.drop_last(), path, k);
    }
}

/// A lookup finds a file stored under the path, and the first such; it
/// fails only where no file is stored under it.
pub proof fn lemma_lookup(files: Seq<FileLines>, path: Seq<u8>)
    ensures
        -1 <= spec_lookup(files, path) < files.len(),
        spec_lookup(files, path) >= 0 ==> files[spec_lookup(files, path)].path == path,
        forall|i: int| 0 <= i < files.len() && files[i].path == path ==> 0 <= spec_lookup(
            files,
            path,
        ) <= i,
    decreases files.len(),
{
    if files.len() > 0 {
        lemma_lookup(files.drop_last(), path);
        assert forall|i: int| 0 <= i < files.len() && files[i].path == path implies 0
            <= spec_lookup(files, path) <= i by {
            if i < files.len() - 1 {
                assert(files.drop_last()[i] == files[i]);
            }
        }
    }
}

/// No more lines are covered than can be, and no more can be than there are.
pub proof fn lemma_counts_bounded(lines: Seq<Option<u64>>)
    ensures
        spec_covered(lines) <= spec_coverable(lines) <= lines.len(),
    decreases lines.len(),
{
    if lines.len() > 0 {
        lemma_counts_bounded(lines.drop_last());
    }
}

/// Number of the lines `lines[from..to]` that ran at least once.
pub fn covered_lines(lines: &[Option<u64>], from: usize, to: usize) -> (n: usize)
    requires
        from <= to <= lines.len(),
    ensures
        n == spec_covered(lines@.subrange(from as int, to as int)),
        n <= to - from,
{
    let ghost part = lines@.subrange(from as int, to as int);
    let mut n: usize = 0;
    let mut i: usize = from;
    proof {
        assert(part.take(0) == Seq::<Option<u64>>::empty());
    }
    while i < to
        invariant
            from <= i <= to <= lines.len(),
            part == lines@.subrange(from as int, to as int),
            n == spec_covered(part.take(i - from)),
            n <= i - from,
        decreases to - i,
    {
        proof {
            assert(part.take(i - from + 1).drop_last() == part.take(i - from));
            assert(part.take(i - from + 1).last() == lines@[i as int]);
        }
        match lines[i] {
            Some(hits) => {
                if hits > 0 {
                    n += 1;
                }
            },
            None => {},
        }
        i += 1;
    }
    proof {
        assert(part.take(to - from) == part);
    }
    n
}

/// The bounds within `lines` of the lines `first` to `last`, counted from 1.
pub fn span_bounds(lines: &[Option<u64>], first: u64, last: u64) -> (r: (usize, usize))
    ensures
        r.0 <= r.1 <= lines.len(),
        lines@.subrange(r.0 as int, r.1 as int) == spec_span(lines@, first as nat, last as nat),
{
    let len = lines.len();
    let from: u64 = if first == 0 {
        0
    } else {
        first - 1
    };
    let to: usize = if last > len as u64 {
        len
    } else {
        last as usize
    };
    if from < to as u64 {
        (from as usize, to)
    } else {
        assert(lines@.subrange(0, 0) == Seq::<Option<u64>>::empty());
        (0, 0)
    }
}

/// A coverage report: the lines of each file, by path. Nothing changes a
/// report once it is made.
#[derive(Debug, PartialEq, Eq)]
pub struct CoverageReport {
    files: Vec<FileCoverage>,
}

impl View for CoverageReport {
    type V = Seq<FileLines>;

    closed spec fn view(&self) -> Seq<FileLines> {
        spec_files(self.files@)
    }
}

impl CoverageReport {
    /// Reads a JSON document as a report of the given schema.
    pub fn from_json(doc: &Json, format: JsonFormat) -> (r: Result<CoverageReport, SchemaError>)
        ensures
            match spec_report(doc@, format) {
                Ok(files) => r matches Ok(report) && report@ == files,
                Err(e) => r matches Err(x) && x == e,
            },
    {
        let read = match format {
            JsonFormat::Coveralls => read_coveralls(doc),
            JsonFormat::Covdir => {
                let root: Vec<u8> = Vec::new();
                read_covdir(doc, &root)
            },
        };
        match read {
            Ok(files) => Ok(CoverageReport { files }),
            Err(e) => Err(e),
        }
    }

    /// Reads a JSON text as a report of the given schema. A text that is no
    /// JSON document fails before the schema is looked at.
    pub fn parse(bytes: &[u8], format: JsonFormat) -> (r: Result<CoverageReport, ReportError>)
        ensures
            match json_document(bytes@) {
                None => r matches Err(ReportError::Json(_)),
                Some(doc) => match spec_report(doc, format) {
                    Ok(files) => r matches Ok(report) && report@ == files,
                    Err(e) => r matches Err(ReportError::Schema(x)) && x == e,
                },
            },
    {
        match Json::parse(bytes) {
            Err(fault) => Err(ReportError::Json(fault)),
            Ok(doc) => match CoverageReport::from_json(&doc, format) {
                Ok(report) => Ok(report),
                Err(e) => Err(ReportError::Schema(e)),
            },
        }
    }

    /// Number of files in the report.
    pub fn len(&self) -> (n: usize)
        ensures
            n == self@.len(),
    {
        self.files.len()
    }

    /// The file at `index`.
    pub fn file(&self, index: usize) -> (f: &FileCoverage)
        requires
            index < self@.len(),
        ensures
            f@ == self@[index as int],
    {
        &self.files[index]
    }

    /// Index of the file stored under `path`, which is normalized first.
    pub fn lookup(&self, path: &[u8]) -> (r: Option<usize>)
        ensures
            match r {
                Some(i) => i < self@.len() && i == spec_lookup(self@, spec_normalize(path@)),
                None => spec_lookup(self@, spec_normalize(path@)) == -1,
            },
    {
        let wanted = normalize(path);
        let ghost files = self@;
        let mut i: usize = 0;
        while i < self.files.len()
            invariant
                i <= self.files.len(),
                files == spec_files(self.files@),
                wanted@ == spec_normalize(path@),
                spec_lookup(files.take(i as int), wanted@) == -1,
            decreases self.files.len() - i,
        {
            proof {
                assert(files.take(i + 1).drop_last() == files.take(i as int));
                assert(files.take(i + 1).last() == self.files[i as int]@);
            }
            if bytes_eq(self.files[i].path.as_slice(), wanted.as_slice()) {
                proof {
                    lemma_lookup_prefix(files, wanted@, i + 1);
                }
                return Some(i);
            }
            i += 1;
        }
        proof {
            assert(files.take(self.files.len() as int) == files);
        }
        None
    }
}

} // verus!
