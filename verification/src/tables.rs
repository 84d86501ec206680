//! Tables of text: the rows of a CSV file, its columns and their fields.

use vstd::prelude::*;

use crate::text::{same_but_case, same_letter, same_letters};

verus! {

/// The error of the CSV reader.
#[verifier::external_type_specification]
#[verifier::external_body]
pub struct ExCsvError(csv::Error);

/// The names of the columns that `csv::Reader::headers` finds in the bytes of a
/// file, or nothing where it fails.
pub uninterp spec fn csv_header(bytes: Seq<u8>) -> Option<Seq<Seq<char>>>;

/// The records that `csv::Reader::into_records` finds in the bytes of a file, in
/// their order, each with its fields or with nothing where it fails.
pub uninterp spec fn csv_records(bytes: Seq<u8>) -> Seq<Option<Seq<Seq<char>>>>;

/// The texts of a row.
pub open spec fn texts(row: Seq<String>) -> Seq<Seq<char>> {
    Seq::new(row.len(), |i: int| row[i]@)
}

/// The texts of a row, if it could be read.
pub open spec fn texts_if_read(row: Result<Vec<String>, csv::Error>) -> Option<Seq<Seq<char>>> {
    match row {
        Ok(row) => Some(texts(row@)),
        Err(_) => None,
    }
}

/// Calls `csv::Reader::headers` of a reader with a header line over the bytes of a
/// file. The result is a function of the bytes alone: reading from memory cannot fail, and
/// the reader keeps no other state.
#[verifier::external_body]
fn read_csv_header(bytes: &[u8]) -> (result: Result<Vec<String>, csv::Error>)
    ensures
        texts_if_read(result) == csv_header(bytes@),
{
    let mut reader = csv::ReaderBuilder::new().has_headers(true).from_reader(bytes);
    let header = reader.headers()?;
    Ok(header.iter().map(|field| field.to_string()).collect())
}

/// Calls `csv::Reader::into_records` of a reader with a header line over the bytes of
/// a file. The results are a function of the bytes alone. The header line is not
/// among the records.
#[verifier::external_body]
fn read_csv_records(bytes: &[u8]) -> (result: Vec<Result<Vec<String>, csv::Error>>)
    ensures
        result@.len() == csv_records(bytes@).len(),
        forall|i: int|
            0 <= i < result@.len() ==> texts_if_read(#[trigger] result@[i]) == csv_records(
                bytes@,
            )[i],
{
    let reader = csv::ReaderBuilder::new().has_headers(true).from_reader(bytes);
    let records = reader.into_records();
    records.map(|row| row.map(|row| row.iter().map(|x| x.to_string()).collect())).collect()
}

/// What is wrong with an input file.
#[derive(Debug, Clone, Copy, PartialEq, Eq, Structural)]
pub enum LoadError {
    /// The header cannot be read.
    Header,
    /// The record of a line cannot be read.
    Record(usize),
    /// A column is missing.
    MissingColumn(Column),
    /// The field of a column cannot be read in a line.
    Invalid(Column, usize),
    /// A line names a job beside the measured one, but not its GPUs, or these alone.
    HalfColocated(usize),
    /// The iteration time of a job of the trace, given by its line, is not in the profile.
    MissingSolo(usize),
    /// The communication volume of a job of the trace, given by its line, is not in the
    /// profile.
    MissingVolume(usize),
    /// The trace holds more jobs than can be numbered.
    TooManyJobs,
}

/// The columns of the input files.
#[derive(Debug, Clone, Copy, PartialEq, Eq, Structural)]
pub enum Column {
    ModelName,
    ComputingTime,
    NetworkingTime,
    Workers,
    LoadingTime,
    ColocatedModel,
    ColocatedWorkers,
    VolumeModel,
    VolumeWorkers,
    VolumeRate,
    JobId,
    JobModel,
    ArrivalTime,
    NumIteration,
    GpuWorkers,
    GpuPerWorker,
    CpuPerGpuWorker,
    Ps,
    CpuPerPsWorker,
    Skewness,
    TensorSizes,
}

impl Column {
    /// The name of the column.
    pub open spec fn name(self) -> Seq<char> {
        match self {
            Column::ModelName => "model_name"@,
            Column::ComputingTime => "iteration_computing_time"@,
            Column::NetworkingTime => "iteration_networking_time"@,
            Column::Workers => "gpu_workers"@,
            Column::LoadingTime => "loading_time"@,
            Column::ColocatedModel => "colocated_model_name"@,
            Column::ColocatedWorkers => "colocated_gpu_workers"@,
            Column::VolumeModel => "Model"@,
            Column::VolumeWorkers => "Number of Workers"@,
            Column::VolumeRate => "Sum of Max TX+RX (MB/s)"@,
            Column::JobId => "job_id"@,
            Column::JobModel => "model"@,
            Column::ArrivalTime => "arrival_time"@,
            Column::NumIteration => "num_iteration"@,
            Column::GpuWorkers => "gpu_workers"@,
            Column::GpuPerWorker => "gpu_per_worker"@,
            Column::CpuPerGpuWorker => "cpu_per_gpu_worker"@,
            Column::Ps => "ps"@,
            Column::CpuPerPsWorker => "cpu_per_ps_worker"@,
            Column::Skewness => "skewness"@,
            Column::TensorSizes => "tensorsizes"@,
        }
    }

    /// The name of the column.
    pub fn as_str(&self) -> (result: &'static str)
        ensures
            result@ == self.name(),
    {
        match self {
            Column::ModelName => "model_name",
            Column::ComputingTime => "iteration_computing_time",
            Column::NetworkingTime => "iteration_networking_time",
            Column::Workers => "gpu_workers",
            Column::LoadingTime => "loading_time",
            Column::ColocatedModel => "colocated_model_name",
            Column::ColocatedWorkers => "colocated_gpu_workers",
            Column::VolumeModel => "Model",
            Column::VolumeWorkers => "Number of Workers",
            Column::VolumeRate => "Sum of Max TX+RX (MB/s)",
            Column::JobId => "job_id",
            Column::JobModel => "model",
            Column::ArrivalTime => "arrival_time",
            Column::NumIteration => "num_iteration",
            Column::GpuWorkers => "gpu_workers",
            Column::GpuPerWorker => "gpu_per_worker",
            Column::CpuPerGpuWorker => "cpu_per_gpu_worker",
            Column::Ps => "ps",
            Column::CpuPerPsWorker => "cpu_per_ps_worker",
            Column::Skewness => "skewness",
            Column::TensorSizes => "tensorsizes",
        }
    }
}

/// The line of a record, counted from one, below the header, as far as it can be counted.
pub open spec fn line_of(record: int) -> usize {
    if record + 2 > usize::MAX {
        usize::MAX
    } else {
        (record + 2) as usize
    }
}

/// The line of a record, counted from one, below the header, as far as it can be counted.
pub fn line_number(record: usize) -> (result: usize)
    ensures
        result == line_of(record as int),
{
    if record >= usize::MAX - 1 {
        usize::MAX
    } else {
        record + 2
    }
}

/// The rows of a table: the names of its columns, and its records, each with its fields or
/// with nothing where it could not be read.
#[derive(Debug, Clone)]
pub struct Table {
    pub header: Vec<String>,
    pub records: Vec<Option<Vec<String>>>,
}

/// A `Table`.
#[verifier::ext_equal]
pub struct TableModel {
    pub header: Seq<Seq<char>>,
    pub records: Seq<Option<Seq<Seq<char>>>>,
}

/// The texts of a record, if it could be read.
pub open spec fn record_texts(record: Option<Vec<String>>) -> Option<Seq<Seq<char>>> {
    match record {
        Some(record) => Some(texts(record@)),
        None => None,
    }
}

impl View for Table {
    type V = TableModel;

    open spec fn view(&self) -> TableModel {
        TableModel {
            header: texts(self.header@),
            records: Seq::new(self.records@.len(), |i: int| record_texts(self.records@[i])),
        }
    }
}

/// Reads the table of a CSV file, given its bytes.
pub fn read_table(bytes: &[u8]) -> (result: Result<Table, LoadError>)
    ensures
        match result {
            Ok(table) => csv_header(bytes@) == Some(table@.header) && table@.records
                == csv_records(bytes@),
            Err(error) => csv_header(bytes@) is None && error == LoadError::Header,
        },
{
    let header: Vec<String> = match read_csv_header(bytes) {
        Ok(header) => header,
        Err(_) => {
            return Err(LoadError::Header);
        },
    };
    let mut rows: Vec<Result<Vec<String>, csv::Error>> = read_csv_records(bytes);
    let ghost all = rows@;
    let mut records: Vec<Option<Vec<String>>> = Vec::new();
    while rows.len() > 0
        invariant
            all.len() == csv_records(bytes@).len(),
            forall|i: int|
                0 <= i < all.len() ==> texts_if_read(#[trigger] all[i]) == csv_records(bytes@)[i],
            rows@ == all.take(rows@.len() as int),
            rows@.len() <= all.len(),
            records@.len() == all.len() - rows@.len(),
            forall|i: int|
                0 <= i < records@.len() ==> record_texts(#[trigger] records@[i]) == csv_records(
                    bytes@,
                )[all.len() - 1 - i],
        decreases rows@.len(),
    {
        let ghost last = rows@.len() - 1;
        match rows.pop() {
            Some(Ok(row)) => {
                assert(texts_if_read(all[last]) == csv_records(bytes@)[last]);
                records.push(Some(row));
            },
            Some(Err(_)) => {
                assert(texts_if_read(all[last]) == csv_records(bytes@)[last]);
                records.push(None);
            },
            None => {},
        }
        assert(rows@ =~= all.take(rows@.len() as int));
    }
    let mut ordered: Vec<Option<Vec<String>>> = Vec::new();
    let ghost reversed = records@;
    while records.len() > 0
        invariant
            reversed.len() == csv_records(bytes@).len(),
            forall|i: int|
                0 <= i < reversed.len() ==> record_texts(#[trigger] reversed[i]) == csv_records(
                    bytes@,
                )[reversed.len() - 1 - i],
            records@ == reversed.take(records@.len() as int),
            records@.len() <= reversed.len(),
            ordered@.len() == reversed.len() - records@.len(),
            forall|i: int|
                0 <= i < ordered@.len() ==> record_texts(#[trigger] ordered@[i]) == csv_records(
                    bytes@,
                )[i],
        decreases records@.len(),
    {
        let ghost last = records@.len() - 1;
        match records.pop() {
            Some(record) => {
                assert(record_texts(reversed[last]) == csv_records(bytes@)[reversed.len() - 1
                    - last]);
                ordered.push(record);
            },
            None => {},
        }
        assert(records@ =~= reversed.take(records@.len() as int));
    }
    let table = Table { header, records: ordered };
    assert(table@.records =~= csv_records(bytes@));
    Ok(table)
}

/// Whether a column stands at a place and at none before it. Case does not count in names.
pub open spec fn stands_first(header: Seq<Seq<char>>, name: Seq<char>, place: int) -> bool {
    &&& 0 <= place < header.len()
    &&& same_letters(header[place], name)
    &&& forall|i: int| 0 <= i < place ==> !same_letters(#[trigger] header[i], name)
}

/// The place of a column.
pub open spec fn place_of(header: Seq<Seq<char>>, name: Seq<char>) -> Option<int> {
    if exists|place: int| stands_first(header, name, place) {
        Some(choose|place: int| stands_first(header, name, place))
    } else {
        None
    }
}

/// The place of a column.
pub fn find_column(header: &Vec<String>, column: Column) -> (result: Option<usize>)
    ensures
        match result {
            Some(place) => place_of(texts(header@), column.name()) == Some(place as int),
            None => place_of(texts(header@), column.name()) is None,
        },
{
    let ghost names = texts(header@);
    let mut i: usize = 0;
    while i < header.len()
        invariant
            i <= header@.len(),
            names == texts(header@),
            forall|j: int| 0 <= j < i ==> !same_letters(#[trigger] names[j], column.name()),
        decreases header@.len() - i,
    {
        if same_but_case(header[i].as_str(), column.as_str()) {
            proof {
                assert(stands_first(names, column.name(), i as int));
                let chosen = choose|place: int| stands_first(names, column.name(), place);
                assert(stands_first(names, column.name(), chosen));
                assert(chosen == i) by {
                    if chosen < i {
                        assert(!same_letters(names[chosen], column.name()));
                    } else if chosen > i {
                        assert(!same_letters(names[i as int], column.name()));
                    }
                }
            }
            return Some(i);
        }
        assert(!same_letters(names[i as int], column.name()));
        i += 1;
    }
    None
}

/// The field of a record at a place, or another text where it has none.
pub open spec fn field_or(
    record: Seq<Seq<char>>,
    place: Option<int>,
    default: Seq<char>,
) -> Seq<char> {
    match place {
        Some(place) if 0 <= place < record.len() => record[place],
        _ => default,
    }
}

/// The field of a record at a place, or another text where it has none.
pub fn field<'a>(record: &'a Vec<String>, place: usize, default: &'a str) -> (result: &'a str)
    ensures
        result@ == field_or(texts(record@), Some(place as int), default@),
{
    if place < record.len() {
        record[place].as_str()
    } else {
        default
    }
}

/// The code of a character, that of the small letter for a capital of ASCII.
pub open spec fn lowered(letter: char) -> int {
    if 65 <= letter as u32 <= 90 {
        letter as u32 + 32
    } else {
        letter as u32 as int
    }
}

/// Characters that are lowered to one are the same but for the case.
proof fn lemma_lowered(a: char, b: char)
    requires
        lowered(a) == lowered(b),
    ensures
        same_letter(a, b),
{
    assert(a as u32 == b as u32 ==> a == b);
}

/// A column is found just where the header has its name, whatever the case of the letters, and then at
/// the first place that has it.
pub proof fn columns_are_found_by_name(header: Seq<Seq<char>>, name: Seq<char>, i: int)
    requires
        0 <= i < header.len(),
    ensures
        ({
            let named = |place: int|
                header[place].len() == name.len() && forall|k: int|
                    0 <= k < name.len() ==> lowered(#[trigger] header[place][k]) == lowered(name[k]);
            &&& named(i) ==> place_of(header, name) is Some && place_of(header, name)->0 <= i
            &&& place_of(header, name) matches Some(place) ==> 0 <= place < header.len() && named(
                place,
            )
        }),
{
    let named = |place: int|
        header[place].len() == name.len() && forall|k: int|
            0 <= k < name.len() ==> lowered(#[trigger] header[place][k]) == lowered(name[k]);
    if named(i) {
        assert(same_letters(header[i], name)) by {
            assert forall|k: int| 0 <= k < header[i].len() implies same_letter(
                #[trigger] header[i][k],
                name[k],
            ) by {
                lemma_lowered(header[i][k], name[k]);
            }
        }
        lemma_stands_first(header, name, i);
    }
    if let Some(place) = place_of(header, name) {
        assert(stands_first(header, name, place));
        assert forall|k: int| 0 <= k < name.len() implies lowered(#[trigger] header[place][k])
            == lowered(name[k]) by {
            assert(same_letter(header[place][k], name[k]));
        }
    }
}

/// Where a column stands at a place, it stands first at that place or at one before.
proof fn lemma_stands_first(header: Seq<Seq<char>>, name: Seq<char>, i: int)
    requires
        0 <= i < header.len(),
        same_letters(header[i], name),
    ensures
        place_of(header, name) matches Some(place) && place <= i && stands_first(
            header,
            name,
            place,
        ),
    decreases i,
{
    if exists|j: int| 0 <= j < i && same_letters(#[trigger] header[j], name) {
        let j = choose|j: int| 0 <= j < i && same_letters(#[trigger] header[j], name);
        lemma_stands_first(header, name, j);
    } else {
        assert(stands_first(header, name, i));
        let place = place_of(header, name)->0;
        assert(stands_first(header, name, place));
    }
}

} // verus!
