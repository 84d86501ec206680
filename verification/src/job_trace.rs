//! The jobs of a trace.

use vstd::prelude::*;

use crate::corun::solo_lookup;
use crate::gpu_cluster::arena;
use crate::gpu_job::{GpuJob, JobModel};
use crate::lists::{first_numbers, numbers};
use crate::placement::wide;
use crate::profiles::{
    cell, lemma_missing_column, missing_column, require_column, single_lookup, IterationTimeModel,
    IterationTimeProfile, VolumeProfile,
};
use crate::ranking::{no_later, rank_items, ranked, ranked_is_sorted, Ranking};
use crate::scalar::{zero, Scalar};
use crate::tables::{
    csv_header, csv_records, field, find_column, line_number, line_of, place_of, read_table,
    record_texts, texts, Column, LoadError, Table, TableModel,
};
use crate::text::{i32_of, parse_i32};

verus! {

/// A job of a trace.
pub struct TraceRow<N> {
    pub job_id: i32,
    pub model: String,
    pub arrival_time: N,
    pub iteration_number: N,
    pub times: (N, N),
    pub gpu_workers: i32,
    pub ps: i32,
    pub gpu_per_worker: i32,
    pub cpu_per_gpu_worker: i32,
    pub cpu_per_ps: i32,
    pub tensorsizes: N,
    pub skewness: N,
    pub profiled_network: N,
    pub loading_time: N,
}

/// A `TraceRow`.
#[verifier::ext_equal]
pub struct TraceModel<N> {
    pub job_id: i32,
    pub model: Seq<char>,
    pub arrival_time: N,
    pub iteration_number: N,
    pub times: (N, N),
    pub gpu_workers: i32,
    pub ps: i32,
    pub gpu_per_worker: i32,
    pub cpu_per_gpu_worker: i32,
    pub cpu_per_ps: i32,
    pub tensorsizes: N,
    pub skewness: N,
    pub profiled_network: N,
    pub loading_time: N,
}

impl<N> View for TraceRow<N> {
    type V = TraceModel<N>;

    open spec fn view(&self) -> TraceModel<N> {
        TraceModel {
            job_id: self.job_id,
            model: self.model@,
            arrival_time: self.arrival_time,
            iteration_number: self.iteration_number,
            times: self.times,
            gpu_workers: self.gpu_workers,
            ps: self.ps,
            gpu_per_worker: self.gpu_per_worker,
            cpu_per_gpu_worker: self.cpu_per_gpu_worker,
            cpu_per_ps: self.cpu_per_ps,
            tensorsizes: self.tensorsizes,
            skewness: self.skewness,
            profiled_network: self.profiled_network,
            loading_time: self.loading_time,
        }
    }
}

impl<N: Scalar> TraceModel<N> {
    /// The job of the trace under a number.
    pub open spec fn job(self, id: i32) -> JobModel<N> {
        JobModel::fresh(
            id,
            self.model,
            self.arrival_time,
            self.iteration_number,
            self.times.0,
            self.times.1,
            self.gpu_workers,
            self.ps,
            self.gpu_per_worker,
            self.cpu_per_gpu_worker,
            self.cpu_per_ps,
            self.tensorsizes,
            self.skewness,
            self.profiled_network,
            self.loading_time,
        )
    }
}

/// The columns that a trace must have.
pub open spec fn trace_columns() -> Seq<Column> {
    seq![
        Column::JobId,
        Column::JobModel,
        Column::ArrivalTime,
        Column::NumIteration,
        Column::GpuWorkers,
        Column::GpuPerWorker,
        Column::CpuPerGpuWorker,
    ]
}

/// The integer in a column of a record, or another where it has none.
pub open spec fn cell_i32(
    header: Seq<Seq<char>>,
    record: Seq<Seq<char>>,
    column: Column,
    default: i32,
) -> i32 {
    match i32_of(cell(header, record, column, ""@)) {
        Some(value) => value,
        None => default,
    }
}

/// The number in a column of a record, or zero where it has none.
pub open spec fn cell_number<N: Scalar>(
    header: Seq<Seq<char>>,
    record: Seq<Seq<char>>,
    column: Column,
) -> N {
    match N::reading(cell(header, record, column, ""@)) {
        Some(value) => value,
        None => zero(),
    }
}

/// The number in a column of a record that need not be there, or zero where it has none.
pub open spec fn optional_number<N: Scalar>(
    header: Seq<Seq<char>>,
    record: Seq<Seq<char>>,
    column: Column,
) -> N {
    match place_of(header, column.name()) {
        Some(place) if 0 <= place < record.len() => cell_number(header, record, column),
        _ => zero(),
    }
}

/// The job that a record of a trace holds. Its times and its communication volume come
/// from the profiles; a job with one GPU needs no communication volume.
pub open spec fn trace_row<N: Scalar>(
    header: Seq<Seq<char>>,
    record: Seq<Seq<char>>,
    line: usize,
    profile: IterationTimeModel<N>,
    volumes: Map<(Seq<char>, i32), N>,
) -> Result<TraceModel<N>, LoadError> {
    match i32_of(cell(header, record, Column::GpuWorkers, ""@)) {
        None => Err(LoadError::Invalid(Column::GpuWorkers, line)),
        Some(gpu_workers) => {
            let model = cell(header, record, Column::JobModel, ""@);
            let gpu_per_worker = cell_i32(header, record, Column::GpuPerWorker, 1);
            let gpus = gpu_workers * gpu_per_worker;
            let key = (model, gpus as i32);
            if !(i32::MIN <= gpus <= i32::MAX) || !profile.corun.solo.contains_key(key)
                || !profile.solo_loading.contains_key(key) {
                Err(LoadError::MissingSolo(line))
            } else if gpus > 1 && !volumes.contains_key(key) {
                Err(LoadError::MissingVolume(line))
            } else {
                Ok(
                    TraceModel {
                        job_id: cell_i32(header, record, Column::JobId, 0),
                        model,
                        arrival_time: cell_number(header, record, Column::ArrivalTime),
                        iteration_number: cell_number(header, record, Column::NumIteration),
                        times: profile.corun.solo[key],
                        gpu_workers,
                        ps: cell_i32(header, record, Column::Ps, 0),
                        gpu_per_worker,
                        cpu_per_gpu_worker: cell_i32(header, record, Column::CpuPerGpuWorker, 0),
                        cpu_per_ps: cell_i32(header, record, Column::CpuPerPsWorker, 0),
                        tensorsizes: optional_number(header, record, Column::TensorSizes),
                        skewness: optional_number(header, record, Column::Skewness),
                        profiled_network: if volumes.contains_key(key) {
                            volumes[key]
                        } else {
                            zero()
                        },
                        loading_time: profile.solo_loading[key],
                    },
                )
            }
        },
    }
}

/// The jobs that some records of a trace hold.
pub open spec fn trace_rows<N: Scalar>(
    header: Seq<Seq<char>>,
    records: Seq<Option<Seq<Seq<char>>>>,
    profile: IterationTimeModel<N>,
    volumes: Map<(Seq<char>, i32), N>,
) -> Result<Seq<TraceModel<N>>, LoadError>
    decreases records.len(),
{
    if records.len() == 0 {
        Ok(Seq::empty())
    } else {
        let line = line_of(records.len() - 1);
        match trace_rows(header, records.drop_last(), profile, volumes) {
            Err(error) => Err(error),
            Ok(rows) => match records.last() {
                None => Err(LoadError::Record(line)),
                Some(record) => match trace_row(header, record, line, profile, volumes) {
                    Err(error) => Err(error),
                    Ok(row) => Ok(rows.push(row)),
                },
            },
        }
    }
}

/// The order of the rows of a trace by their numbers. Rows with one number stay in their order.
pub open spec fn row_order<N: Scalar>(rows: Seq<TraceModel<N>>) -> Seq<i32> {
    ranked(
        numbers(rows.len()),
        |row: i32| rows[row as int].job_id as int,
        |row: i32| row as int,
    )
}

/// The jobs of a trace, in the order of their numbers and numbered by their places. (Numbers
/// that run from zero without a gap or a repetition stay as they are.)
pub open spec fn numbered_jobs<N: Scalar>(rows: Seq<TraceModel<N>>) -> Seq<JobModel<N>> {
    let order = row_order(rows);
    Seq::new(rows.len(), |k: int| rows[order[k] as int].job(k as i32))
}

/// The jobs that a table holds.
pub open spec fn jobs_of<N: Scalar>(
    table: TableModel,
    profile: IterationTimeModel<N>,
    volumes: Map<(Seq<char>, i32), N>,
) -> Result<Seq<JobModel<N>>, LoadError> {
    match missing_column(table.header, trace_columns()) {
        Some(column) => Err(LoadError::MissingColumn(column)),
        None => match trace_rows(table.header, table.records, profile, volumes) {
            Err(error) => Err(error),
            Ok(rows) => if rows.len() > i32::MAX {
                Err(LoadError::TooManyJobs)
            } else {
                Ok(numbered_jobs(rows))
            },
        },
    }
}

/// The jobs that the bytes of a CSV file hold.
pub open spec fn jobs_in<N: Scalar>(
    header: Option<Seq<Seq<char>>>,
    records: Seq<Option<Seq<Seq<char>>>>,
    profile: IterationTimeModel<N>,
    volumes: Map<(Seq<char>, i32), N>,
) -> Result<Seq<JobModel<N>>, LoadError> {
    match header {
        None => Err(LoadError::Header),
        Some(header) => jobs_of(TableModel { header, records }, profile, volumes),
    }
}

/// An error stays the error of more records.
proof fn lemma_trace_error<N: Scalar>(
    header: Seq<Seq<char>>,
    records: Seq<Option<Seq<Seq<char>>>>,
    profile: IterationTimeModel<N>,
    volumes: Map<(Seq<char>, i32), N>,
    count: int,
)
    requires
        0 <= count <= records.len(),
        trace_rows(header, records.take(count), profile, volumes) is Err,
    ensures
        trace_rows(header, records, profile, volumes) == trace_rows(
            header,
            records.take(count),
            profile,
            volumes,
        ),
    decreases records.len(),
{
    if count < records.len() {
        assert(records.drop_last().take(count) =~= records.take(count));
        lemma_trace_error(header, records.drop_last(), profile, volumes, count);
    } else {
        assert(records.take(count) =~= records);
    }
}

/// The rows in their order are rows, each once, and their numbers do not fall.
proof fn lemma_row_order<N: Scalar>(rows: Seq<TraceModel<N>>)
    requires
        rows.len() <= i32::MAX,
    ensures
        row_order(rows).len() == rows.len(),
        row_order(rows).no_duplicates(),
        forall|k: int|
            0 <= k < rows.len() ==> 0 <= #[trigger] row_order(rows)[k] < rows.len(),
        forall|i: int, j: int|
            0 <= i < j < rows.len() ==> rows[#[trigger] row_order(rows)[i] as int].job_id
                <= rows[#[trigger] row_order(rows)[j] as int].job_id,
{
    let all = numbers(rows.len());
    let first = |row: i32| rows[row as int].job_id as int;
    let second = |row: i32| row as int;
    let order = row_order(rows);
    ranked_is_sorted(all, first, second);
    assert forall|k: int| 0 <= k < rows.len() implies 0 <= #[trigger] order[k] < rows.len() by {
        assert(order.contains(order[k]));
        assert(all.contains(order[k]));
    }
}

/// The number of every job of a trace is its place.
pub proof fn jobs_are_numbered_by_place<N: Scalar>(rows: Seq<TraceModel<N>>, k: int)
    requires
        rows.len() <= i32::MAX,
        0 <= k < rows.len(),
    ensures
        numbered_jobs(rows)[k].job_id == k,
{
}

/// Jobs whose numbers run from zero without a gap or a repetition keep them.
pub proof fn dense_numbers_are_kept<N: Scalar>(rows: Seq<TraceModel<N>>, k: int)
    requires
        rows.len() <= i32::MAX,
        forall|i: int, j: int|
            0 <= i < j < rows.len() ==> (#[trigger] rows[i]).job_id != (#[trigger] rows[j]).job_id,
        forall|i: int| 0 <= i < rows.len() ==> 0 <= (#[trigger] rows[i]).job_id < rows.len(),
        0 <= k < rows.len(),
    ensures
        0 <= row_order(rows)[k] < rows.len(),
        rows[row_order(rows)[k] as int].job_id == numbered_jobs(rows)[k].job_id,
{
    lemma_row_order(rows);
    lemma_at_least(rows, k);
    lemma_at_most(rows, k);
}

proof fn lemma_rising<N: Scalar>(rows: Seq<TraceModel<N>>, k: int)
    requires
        rows.len() <= i32::MAX,
        forall|i: int, j: int|
            0 <= i < j < rows.len() ==> (#[trigger] rows[i]).job_id != (#[trigger] rows[j]).job_id,
        0 < k < rows.len(),
    ensures
        rows[row_order(rows)[k - 1] as int].job_id < rows[row_order(rows)[k] as int].job_id,
{
    let order = row_order(rows);
    lemma_row_order(rows);
    let a = order[k - 1] as int;
    let b = order[k] as int;
    assert(a != b);
    if a < b {
        assert(rows[a].job_id != rows[b].job_id);
    } else {
        assert(rows[b].job_id != rows[a].job_id);
    }
}

proof fn lemma_at_least<N: Scalar>(rows: Seq<TraceModel<N>>, k: int)
    requires
        rows.len() <= i32::MAX,
        forall|i: int, j: int|
            0 <= i < j < rows.len() ==> (#[trigger] rows[i]).job_id != (#[trigger] rows[j]).job_id,
        forall|i: int| 0 <= i < rows.len() ==> 0 <= (#[trigger] rows[i]).job_id < rows.len(),
        0 <= k < rows.len(),
    ensures
        rows[row_order(rows)[k] as int].job_id >= k,
    decreases k,
{
    lemma_row_order(rows);
    assert(rows[row_order(rows)[k] as int].job_id >= 0);
    if k > 0 {
        lemma_at_least(rows, k - 1);
        lemma_rising(rows, k);
    }
}

proof fn lemma_at_most<N: Scalar>(rows: Seq<TraceModel<N>>, k: int)
    requires
        rows.len() <= i32::MAX,
        forall|i: int, j: int|
            0 <= i < j < rows.len() ==> (#[trigger] rows[i]).job_id != (#[trigger] rows[j]).job_id,
        forall|i: int| 0 <= i < rows.len() ==> 0 <= (#[trigger] rows[i]).job_id < rows.len(),
        0 <= k < rows.len(),
    ensures
        rows[row_order(rows)[k] as int].job_id <= k,
    decreases rows.len() - k,
{
    lemma_row_order(rows);
    assert(rows[row_order(rows)[k] as int].job_id < rows.len());
    if k < rows.len() - 1 {
        lemma_at_most(rows, k + 1);
        lemma_rising(rows, k + 1);
    }
}

/// The integer in a field of a record, or another where it has none.
fn int_field(record: &Vec<String>, place: Option<usize>, default: i32) -> (result: i32)
    ensures
        result == match place {
            Some(place) if place < record@.len() => match i32_of(record@[place as int]@) {
                Some(value) => value,
                None => default,
            },
            _ => default,
        },
{
    match place {
        Some(place) => {
            if place < record.len() {
                match parse_i32(record[place].as_str()) {
                    Some(value) => value,
                    None => default,
                }
            } else {
                default
            }
        },
        None => default,
    }
}

/// The number in a field of a record that need not be there, or zero where it has none.
fn optional_field<N: Scalar>(record: &Vec<String>, place: Option<usize>) -> (result: N)
    ensures
        result == match place {
            Some(place) if place < record@.len() => match N::reading(record@[place as int]@) {
                Some(value) => value,
                None => zero(),
            },
            _ => zero(),
        },
{
    match place {
        Some(place) => {
            if place < record.len() {
                match N::read(record[place].as_str()) {
                    Some(value) => value,
                    None => N::of_int(0),
                }
            } else {
                N::of_int(0)
            }
        },
        None => N::of_int(0),
    }
}

/// The number in a field of a record, or zero where it has none.
fn number_field<N: Scalar>(record: &Vec<String>, place: usize) -> (result: N)
    ensures
        result == match N::reading(
            crate::tables::field_or(texts(record@), Some(place as int), ""@),
        ) {
            Some(value) => value,
            None => zero(),
        },
{
    match N::read(field(record, place, "")) {
        Some(value) => value,
        None => N::of_int(0),
    }
}

/// Where the columns of a trace stand.
struct TracePlaces {
    job_id: usize,
    model: usize,
    arrival: usize,
    iterations: usize,
    gpu_workers: usize,
    gpu_per_worker: usize,
    cpu_per_gpu_worker: usize,
    ps: Option<usize>,
    cpu_per_ps: Option<usize>,
    skewness: Option<usize>,
    tensorsizes: Option<usize>,
}

/// Whether a column stands at a place, or nowhere.
spec fn stands_at(header: Seq<Seq<char>>, column: Column, place: Option<usize>) -> bool {
    place_of(header, column.name()) == match place {
        Some(place) => Some(place as int),
        None => None,
    }
}

impl TracePlaces {
    spec fn of(self, header: Seq<Seq<char>>) -> bool {
        &&& stands_at(header, Column::JobId, Some(self.job_id))
        &&& stands_at(header, Column::JobModel, Some(self.model))
        &&& stands_at(header, Column::ArrivalTime, Some(self.arrival))
        &&& stands_at(header, Column::NumIteration, Some(self.iterations))
        &&& stands_at(header, Column::GpuWorkers, Some(self.gpu_workers))
        &&& stands_at(header, Column::GpuPerWorker, Some(self.gpu_per_worker))
        &&& stands_at(header, Column::CpuPerGpuWorker, Some(self.cpu_per_gpu_worker))
        &&& stands_at(header, Column::Ps, self.ps)
        &&& stands_at(header, Column::CpuPerPsWorker, self.cpu_per_ps)
        &&& stands_at(header, Column::Skewness, self.skewness)
        &&& stands_at(header, Column::TensorSizes, self.tensorsizes)
    }
}

fn find_trace_places(header: &Vec<String>) -> (result: Result<TracePlaces, LoadError>)
    ensures
        match result {
            Ok(places) => {
                &&& places.of(texts(header@))
                &&& missing_column(texts(header@), trace_columns()) is None
            },
            Err(error) => missing_column(texts(header@), trace_columns()) matches Some(column)
                && error == LoadError::MissingColumn(column),
        },
{
    let ghost names = texts(header@);
    let ghost columns = trace_columns();
    let job_id: usize = match require_column(header, Column::JobId) {
        Ok(place) => place,
        Err(error) => {
            proof {
                lemma_missing_column(names, columns, 0);
            }
            return Err(error);
        },
    };
    let model: usize = match require_column(header, Column::JobModel) {
        Ok(place) => place,
        Err(error) => {
            proof {
                lemma_missing_column(names, columns, 1);
            }
            return Err(error);
        },
    };
    let arrival: usize = match require_column(header, Column::ArrivalTime) {
        Ok(place) => place,
        Err(error) => {
            proof {
                lemma_missing_column(names, columns, 2);
            }
            return Err(error);
        },
    };
    let iterations: usize = match require_column(header, Column::NumIteration) {
        Ok(place) => place,
        Err(error) => {
            proof {
                lemma_missing_column(names, columns, 3);
            }
            return Err(error);
        },
    };
    let gpu_workers: usize = match require_column(header, Column::GpuWorkers) {
        Ok(place) => place,
        Err(error) => {
            proof {
                lemma_missing_column(names, columns, 4);
            }
            return Err(error);
        },
    };
    let gpu_per_worker: usize = match require_column(header, Column::GpuPerWorker) {
        Ok(place) => place,
        Err(error) => {
            proof {
                lemma_missing_column(names, columns, 5);
            }
            return Err(error);
        },
    };
    let cpu_per_gpu_worker: usize = match require_column(header, Column::CpuPerGpuWorker) {
        Ok(place) => place,
        Err(error) => {
            proof {
                lemma_missing_column(names, columns, 6);
            }
            return Err(error);
        },
    };
    proof {
        lemma_missing_column(names, columns, 7);
    }
    Ok(
        TracePlaces {
            job_id,
            model,
            arrival,
            iterations,
            gpu_workers,
            gpu_per_worker,
            cpu_per_gpu_worker,
            ps: find_column(header, Column::Ps),
            cpu_per_ps: find_column(header, Column::CpuPerPsWorker),
            skewness: find_column(header, Column::Skewness),
            tensorsizes: find_column(header, Column::TensorSizes),
        },
    )
}

/// An empty text stands for no integer.
proof fn lemma_empty_text()
    ensures
        i32_of(""@) is None,
{
    reveal_strlit("");
}

/// Reads the job that a record of a trace holds.
fn read_trace_row<N: Scalar>(
    record: &Vec<String>,
    places: &TracePlaces,
    line: usize,
    profile: &IterationTimeProfile<N>,
    volumes: &VolumeProfile<N>,
    Ghost(header): Ghost<Seq<Seq<char>>>,
) -> (result: Result<TraceRow<N>, LoadError>)
    requires
        places.of(header),
    ensures
        match trace_row(header, texts(record@), line, profile@, volumes@) {
            Ok(row) => result matches Ok(found) && found@ == row,
            Err(error) => result matches Err(found) && found == error,
        },
{
    proof {
        lemma_empty_text();
    }
    let gpu_workers: i32 = match parse_i32(field(record, places.gpu_workers, "")) {
        Some(gpu_workers) => gpu_workers,
        None => {
            return Err(LoadError::Invalid(Column::GpuWorkers, line));
        },
    };
    let model: String = field(record, places.model, "").to_owned();
    let gpu_per_worker: i32 = int_field(record, Some(places.gpu_per_worker), 1);
    let gpus: i64 = wide(gpu_workers, gpu_per_worker) as i64;
    let times: (N, N) = match solo_lookup(&profile.corun.solo, &model, gpus) {
        Some(times) => times,
        None => {
            return Err(LoadError::MissingSolo(line));
        },
    };
    let loading_time: N = match single_lookup(&profile.solo_loading, &model, gpus) {
        Some(loading_time) => loading_time,
        None => {
            return Err(LoadError::MissingSolo(line));
        },
    };
    let profiled_network: N = match single_lookup(&volumes.entries, &model, gpus) {
        Some(profiled_network) => profiled_network,
        None => {
            if gpus > 1 {
                return Err(LoadError::MissingVolume(line));
            }
            N::of_int(0)
        },
    };
    let row = TraceRow {
        job_id: int_field(record, Some(places.job_id), 0),
        model,
        arrival_time: number_field(record, places.arrival),
        iteration_number: number_field(record, places.iterations),
        times,
        gpu_workers,
        ps: int_field(record, places.ps, 0),
        gpu_per_worker,
        cpu_per_gpu_worker: int_field(record, Some(places.cpu_per_gpu_worker), 0),
        cpu_per_ps: int_field(record, places.cpu_per_ps, 0),
        tensorsizes: optional_field(record, places.tensorsizes),
        skewness: optional_field(record, places.skewness),
        profiled_network,
        loading_time,
    };
    Ok(row)
}

/// The states of all rows.
pub open spec fn row_views<N>(rows: Seq<TraceRow<N>>) -> Seq<TraceModel<N>> {
    Seq::new(rows.len(), |i: int| rows[i]@)
}

/// The order of the rows of a trace by their numbers.
struct ByNumber<'a, N> {
    rows: &'a Vec<TraceRow<N>>,
}

impl<'a, N: Scalar> Ranking for ByNumber<'a, N> {
    closed spec fn known(&self, item: i32) -> bool {
        0 <= item < self.rows@.len()
    }

    closed spec fn first(&self) -> spec_fn(i32) -> int {
        let rows = row_views(self.rows@);
        |row: i32| rows[row as int].job_id as int
    }

    closed spec fn second(&self) -> spec_fn(i32) -> int {
        |row: i32| row as int
    }

    fn at_most(&self, a: i32, b: i32) -> (result: bool) {
        let first_a: i32 = self.rows[a as usize].job_id;
        let first_b: i32 = self.rows[b as usize].job_id;
        assert(row_views(self.rows@)[a as int].job_id == first_a);
        assert(row_views(self.rows@)[b as int].job_id == first_b);
        if first_a != first_b {
            return first_a < first_b;
        }
        a <= b
    }
}

impl<N: Scalar> TraceRow<N> {
    /// The job of the trace under a number.
    fn to_job(&self, id: i32) -> (job: GpuJob<N>)
        ensures
            job@ == self@.job(id),
    {
        GpuJob::new(
            id,
            self.model.clone(),
            self.arrival_time,
            self.iteration_number,
            self.times.0,
            self.times.1,
            self.gpu_workers,
            self.ps,
            self.gpu_per_worker,
            self.cpu_per_gpu_worker,
            self.cpu_per_ps,
            self.tensorsizes,
            self.skewness,
            self.profiled_network,
            self.loading_time,
        )
    }
}

/// The jobs of a trace, in the order of their numbers.
pub fn number_jobs<N: Scalar>(rows: &Vec<TraceRow<N>>) -> (jobs: Vec<GpuJob<N>>)
    requires
        rows@.len() <= i32::MAX,
    ensures
        arena(jobs@) == numbered_jobs(row_views(rows@)),
        forall|k: int| 0 <= k < jobs@.len() ==> (#[trigger] jobs@[k])@.is_unplaced(),
{
    let ghost views = row_views(rows@);
    let n: usize = rows.len();
    let all: Vec<i32> = first_numbers(n);
    let ranking = ByNumber { rows };
    let order: Vec<i32> = rank_items(&all, &ranking);
    proof {
        assert(order@ == row_order(views));
        lemma_row_order(views);
        assert forall|k: int| 0 <= k < n implies 0 <= #[trigger] order@[k] < n by {
            assert(0 <= row_order(views)[k] < views.len());
        }
    }
    let mut jobs: Vec<GpuJob<N>> = Vec::new();
    let mut k: usize = 0;
    while k < n
        invariant
            k <= n == rows@.len() <= i32::MAX,
            views == row_views(rows@),
            order@ == row_order(views),
            order@.len() == n,
            forall|i: int| 0 <= i < n ==> 0 <= #[trigger] order@[i] < n,
            jobs@.len() == k,
            forall|i: int| 0 <= i < k ==> (#[trigger] jobs@[i])@ == numbered_jobs(views)[i],
        decreases n - k,
    {
        let idx: i32 = order[k];
        assert(0 <= order@[k as int] < n);
        let row = &rows[idx as usize];
        assert(views[idx as int] == row@);
        let job: GpuJob<N> = row.to_job(k as i32);
        jobs.push(job);
        k += 1;
    }
    assert(arena(jobs@) =~= numbered_jobs(views));
    jobs
}

/// Reads the jobs of a trace from its table.
pub fn load_jobs<N: Scalar>(
    table: &Table,
    profile: &IterationTimeProfile<N>,
    volumes: &VolumeProfile<N>,
) -> (result: Result<Vec<GpuJob<N>>, LoadError>)
    ensures
        match jobs_of(table@, profile@, volumes@) {
            Ok(jobs) => result matches Ok(found) && arena(found@) == jobs && forall|k: int|
                0 <= k < found@.len() ==> (#[trigger] found@[k])@.is_unplaced(),
            Err(error) => result matches Err(found) && found == error,
        },
{
    let ghost header = table@.header;
    let ghost records = table@.records;
    let places: TracePlaces = match find_trace_places(&table.header) {
        Ok(places) => places,
        Err(error) => {
            return Err(error);
        },
    };
    let mut rows: Vec<TraceRow<N>> = Vec::new();
    let mut i: usize = 0;
    proof {
        assert(records.take(0) =~= Seq::empty());
        assert(row_views(rows@) =~= Seq::empty());
    }
    while i < table.records.len()
        invariant
            i <= table.records@.len(),
            header == table@.header,
            records == table@.records,
            records.len() == table.records@.len(),
            places.of(header),
            missing_column(header, trace_columns()) is None,
            trace_rows(header, records.take(i as int), profile@, volumes@) == Ok::<
                Seq<TraceModel<N>>,
                LoadError,
            >(row_views(rows@)),
        decreases table.records@.len() - i,
    {
        proof {
            assert(records.take(i + 1).drop_last() =~= records.take(i as int));
            assert(records.take(i + 1).last() == record_texts(table.records@[i as int]));
            if trace_rows(header, records.take(i + 1), profile@, volumes@) is Err {
                lemma_trace_error(header, records, profile@, volumes@, i + 1);
            }
        }
        let record: &Vec<String> = match &table.records[i] {
            Some(record) => record,
            None => {
                return Err(LoadError::Record(line_number(i)));
            },
        };
        match read_trace_row(record, &places, line_number(i), profile, volumes, Ghost(header)) {
            Ok(row) => {
                let ghost before = rows@;
                rows.push(row);
                assert(row_views(rows@) =~= row_views(before).push(row@));
            },
            Err(error) => {
                return Err(error);
            },
        }
        i += 1;
    }
    assert(records.take(i as int) =~= records);
    if rows.len() > i32::MAX as usize {
        return Err(LoadError::TooManyJobs);
    }
    Ok(number_jobs(&rows))
}

/// Reads the jobs of a trace from the bytes of a CSV file.
pub fn load_jobs_csv<N: Scalar>(
    bytes: &[u8],
    profile: &IterationTimeProfile<N>,
    volumes: &VolumeProfile<N>,
) -> (result: Result<Vec<GpuJob<N>>, LoadError>)
    ensures
        match jobs_in(csv_header(bytes@), csv_records(bytes@), profile@, volumes@) {
            Ok(jobs) => result matches Ok(found) && arena(found@) == jobs && forall|k: int|
                0 <= k < found@.len() ==> (#[trigger] found@[k])@.is_unplaced(),
            Err(error) => result matches Err(found) && found == error,
        },
{
    match read_table(bytes) {
        Ok(table) => {
            assert(table@ == TableModel {
                header: csv_header(bytes@)->0,
                records: csv_records(bytes@),
            });
            load_jobs(&table, profile, volumes)
        },
        Err(error) => Err(error),
    }
}

/// A job of a trace has the times and the loading time that the profile has of its model alone on as
/// many GPUs as all its workers have, and the communication volume of just that; none is
/// needed where it has one GPU.
pub proof fn trace_jobs_come_from_the_profiles<N: Scalar>(
    header: Seq<Seq<char>>,
    record: Seq<Seq<char>>,
    line: usize,
    profile: IterationTimeModel<N>,
    volumes: Map<(Seq<char>, i32), N>,
    gpus: i32,
)
    ensures
        trace_row(header, record, line, profile, volumes) matches Ok(row) ==> (gpus
            == row.gpu_workers * row.gpu_per_worker ==> {
            &&& profile.corun.solo.contains_key((row.model, gpus))
            &&& row.times == profile.corun.solo[(row.model, gpus)]
            &&& profile.solo_loading.contains_key((row.model, gpus))
            &&& row.loading_time == profile.solo_loading[(row.model, gpus)]
            &&& gpus > 1 ==> volumes.contains_key((row.model, gpus))
            &&& volumes.contains_key((row.model, gpus)) ==> row.profiled_network == volumes[(
                row.model,
                gpus,
            )]
            &&& !volumes.contains_key((row.model, gpus)) ==> row.profiled_network == zero::<N>()
        }),
{
}

/// What a record says of a job stands in the columns of these names, whatever order the columns
/// have: its fields there are what the job is made of.
pub proof fn trace_fields_stand_in_their_columns<N: Scalar>(
    header: Seq<Seq<char>>,
    record: Seq<Seq<char>>,
    line: usize,
    profile: IterationTimeModel<N>,
    volumes: Map<(Seq<char>, i32), N>,
    column: Column,
    place: int,
)
    requires
        place_of(header, column.name()) == Some(place),
        0 <= place < record.len(),
    ensures
        trace_row(header, record, line, profile, volumes) matches Ok(row) ==> {
            let text = record[place];
            let integer = i32_of(text);
            let number = N::reading(text);
            &&& column is JobModel ==> row.model == text
            &&& column is GpuWorkers ==> integer == Some(row.gpu_workers)
            &&& column is JobId && integer is Some ==> row.job_id == integer->0
            &&& column is GpuPerWorker && integer is Some ==> row.gpu_per_worker == integer->0
            &&& column is CpuPerGpuWorker && integer is Some ==> row.cpu_per_gpu_worker
                == integer->0
            &&& column is CpuPerPsWorker && integer is Some ==> row.cpu_per_ps == integer->0
            &&& column is Ps && integer is Some ==> row.ps == integer->0
            &&& column is ArrivalTime && number is Some ==> row.arrival_time == number->0
            &&& column is NumIteration && number is Some ==> row.iteration_number == number->0
            &&& column is Skewness && number is Some ==> row.skewness == number->0
            &&& column is TensorSizes && number is Some ==> row.tensorsizes == number->0
        },
{
}

/// The jobs of a trace are its rows in the order of their numbers, each once, and rows with one number
/// in their order. Each job is what its row says.
pub proof fn trace_jobs_are_the_rows_in_order<N: Scalar>(
    rows: Seq<TraceModel<N>>,
    a: int,
    b: int,
)
    requires
        rows.len() <= i32::MAX,
        0 <= a < b < rows.len(),
    ensures
        ({
            let order = row_order(rows);
            let jobs = numbered_jobs(rows);
            let row = rows[order[a] as int];
            let later = rows[order[b] as int];
            &&& jobs.len() == rows.len()
            &&& order.no_duplicates()
            &&& 0 <= order[a] < rows.len()
            &&& 0 <= order[b] < rows.len()
            &&& row.job_id < later.job_id || row.job_id == later.job_id && order[a] < order[b]
            &&& jobs[a].model == row.model
            &&& jobs[a].arrival_time == row.arrival_time
            &&& jobs[a].iteration_number == row.iteration_number
            &&& jobs[a].iteration_computing_time == row.times.0
            &&& jobs[a].iteration_networking_time == row.times.1
            &&& jobs[a].gpu_workers == row.gpu_workers
            &&& jobs[a].ps == row.ps
            &&& jobs[a].gpu_per_worker == row.gpu_per_worker
            &&& jobs[a].cpu_per_gpu_worker == row.cpu_per_gpu_worker
            &&& jobs[a].cpu_per_ps == row.cpu_per_ps
            &&& jobs[a].tensorsizes == row.tensorsizes
            &&& jobs[a].skewness == row.skewness
            &&& jobs[a].profiled_network == row.profiled_network
            &&& jobs[a].loading_time == row.loading_time
            &&& jobs[a].allocated.len() == 0
            &&& jobs[a].ps_allocated.len() == 0
            &&& jobs[a].queue_head_time is None
            &&& jobs[a].start_time is None
            &&& jobs[a].training_time is None
            &&& jobs[a].temp_arrival_time == row.arrival_time
        }),
{
    let order = row_order(rows);
    let first = |row: i32| rows[row as int].job_id as int;
    let second = |row: i32| row as int;
    lemma_row_order(rows);
    ranked_is_sorted(numbers(rows.len()), first, second);
    assert(no_later(first, second, order[a], order[b]));
    assert(order[a] != order[b]);
}

/// A trace must have the columns of the job, its model, its arrival, its iterations, its workers, their
/// GPUs and their cores.
pub proof fn traces_have_the_columns_they_need(column: Column)
    ensures
        trace_columns().contains(column) <==> column is JobId || column is JobModel
            || column is ArrivalTime || column is NumIteration || column is GpuWorkers
            || column is GpuPerWorker || column is CpuPerGpuWorker,
{
    let columns = trace_columns();
    assert(columns[0] is JobId && columns[1] is JobModel && columns[2] is ArrivalTime
        && columns[3] is NumIteration && columns[4] is GpuWorkers && columns[5] is GpuPerWorker
        && columns[6] is CpuPerGpuWorker);
}

/// Where a record has no integer in a column that it may lack, the job has one GPU for each worker, and
/// otherwise none of what the column counts. A number that the record lacks, or that cannot be
/// read, is zero.
pub proof fn fields_that_are_not_there_count_nothing<N: Scalar>(
    header: Seq<Seq<char>>,
    record: Seq<Seq<char>>,
    line: usize,
    profile: IterationTimeModel<N>,
    volumes: Map<(Seq<char>, i32), N>,
    column: Column,
)
    ensures
        trace_row(header, record, line, profile, volumes) matches Ok(row) ==> {
            let place = place_of(header, column.name());
            let there = place is Some && 0 <= place->0 < record.len();
            let no_integer = !there || i32_of(record[place->0]) is None;
            let no_number = there && N::reading(record[place->0]) is None;
            &&& no_integer && column is GpuPerWorker ==> row.gpu_per_worker == 1
            &&& no_integer && column is JobId ==> row.job_id == 0
            &&& no_integer && column is Ps ==> row.ps == 0
            &&& no_integer && column is CpuPerGpuWorker ==> row.cpu_per_gpu_worker == 0
            &&& no_integer && column is CpuPerPsWorker ==> row.cpu_per_ps == 0
            &&& no_number && column is ArrivalTime ==> row.arrival_time == N::integer(0)
            &&& no_number && column is NumIteration ==> row.iteration_number == N::integer(0)
            &&& (no_number || !there) && column is Skewness ==> row.skewness == N::integer(0)
            &&& (no_number || !there) && column is TensorSizes ==> row.tensorsizes == N::integer(0)
        },
{
    reveal_strlit("");
    assert(i32_of(""@) is None);
}

/// A trace that can be read has one row for each record, in their order, and each is what its record
/// says. One that cannot is refused for its first record that cannot be read: its line is two
/// more than its place, as the header has the first one.
pub proof fn each_record_is_a_row<N: Scalar>(
    header: Seq<Seq<char>>,
    records: Seq<Option<Seq<Seq<char>>>>,
    profile: IterationTimeModel<N>,
    volumes: Map<(Seq<char>, i32), N>,
    k: int,
)
    requires
        0 <= k < records.len() < usize::MAX - 2,
    ensures
        match trace_rows(header, records, profile, volumes) {
            Ok(rows) => {
                &&& rows.len() == records.len()
                &&& records[k] matches Some(record) && trace_row(
                    header,
                    record,
                    (k + 2) as usize,
                    profile,
                    volumes,
                ) == Ok::<TraceModel<N>, LoadError>(rows[k])
            },
            Err(error) => {
                let read = trace_rows(header, records.take(k), profile, volumes);
                read is Ok ==> match records[k] {
                    None => error == LoadError::Record((k + 2) as usize),
                    Some(record) => trace_row(header, record, (k + 2) as usize, profile, volumes)
                        is Err ==> Err::<TraceModel<N>, LoadError>(error) == trace_row(
                        header,
                        record,
                        (k + 2) as usize,
                        profile,
                        volumes,
                    ),
                }
            },
        },
    decreases records.len(),
{
    let last = records.len() - 1;
    let rest = records.drop_last();
    assert(records[last] == records.last());
    if k < last {
        assert(rest[k] == records[k]);
        assert(rest.take(k) =~= records.take(k));
        each_record_is_a_row(header, rest, profile, volumes, k);
    } else {
        assert(rest =~= records.take(k));
        if rest.len() > 0 {
            each_record_is_a_row(header, rest, profile, volumes, 0);
        }
    }
}

} // verus!
