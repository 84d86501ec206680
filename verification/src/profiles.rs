//! The measured profiles: iteration times and communication volumes.

use vstd::prelude::*;

use crate::corun::{CorunModel, CorunProfile, PairEntry, SoloEntry};
use crate::interference::InterferenceModel;
use crate::scalar::Scalar;
use crate::tables::{
    field, field_or, find_column, line_number, line_of, place_of, read_table,
    csv_header, csv_records, record_texts, texts, Column, LoadError, Table,
    TableModel,
};
use crate::text::{i32_of, parse_i32};

verus! {

/// What is looked up by the model of a job and its GPUs.
pub struct SingleEntry<N> {
    pub model: String,
    pub gpus: i32,
    pub value: N,
}

/// The table that a list of entries stands for. Where a key occurs twice, the later
/// entry holds.
pub open spec fn single_table<N>(entries: Seq<SingleEntry<N>>) -> Map<(Seq<char>, i32), N>
    decreases entries.len(),
{
    if entries.len() == 0 {
        Map::empty()
    } else {
        single_table(entries.drop_last()).insert(
            (entries.last().model@, entries.last().gpus),
            entries.last().value,
        )
    }
}

/// Looks a job up by its model and its GPUs.
pub fn single_lookup<N: Copy>(entries: &Vec<SingleEntry<N>>, model: &String, gpus: i64) -> (result:
    Option<N>)
    ensures
        match result {
            Some(value) => {
                &&& i32::MIN <= gpus <= i32::MAX
                &&& single_table(entries@).contains_key((model@, gpus as i32))
                &&& value == single_table(entries@)[(model@, gpus as i32)]
            },
            None => !(i32::MIN <= gpus <= i32::MAX) || !single_table(entries@).contains_key(
                (model@, gpus as i32),
            ),
        },
{
    let mut best: Option<N> = None;
    let mut i: usize = 0;
    assert(entries@.take(0) =~= Seq::empty());
    while i < entries.len()
        invariant
            i <= entries@.len(),
            match best {
                Some(value) => {
                    let table = single_table(entries@.take(i as int));
                    &&& i32::MIN <= gpus <= i32::MAX
                    &&& table.contains_key((model@, gpus as i32))
                    &&& value == table[(model@, gpus as i32)]
                },
                None => !(i32::MIN <= gpus <= i32::MAX) || !single_table(
                    entries@.take(i as int),
                ).contains_key((model@, gpus as i32)),
            },
        decreases entries@.len() - i,
    {
        let entry = &entries[i];
        proof {
            assert(entries@.take(i + 1).drop_last() =~= entries@.take(i as int));
        }
        if entry.model == *model && entry.gpus as i64 == gpus {
            best = Some(entry.value);
        }
        i += 1;
    }
    assert(entries@.take(i as int) =~= entries@);
    best
}

/// The iteration time profile: the times of jobs alone and beside others, and the loading
/// times of jobs alone.
pub struct IterationTimeProfile<N> {
    /// Iteration times, and the loading times of jobs beside others.
    pub corun: CorunProfile<N>,
    /// Solo (no colocation) loading times.
    pub solo_loading: Vec<SingleEntry<N>>,
}

/// An `IterationTimeProfile`.
#[verifier::ext_equal]
pub struct IterationTimeModel<N> {
    pub corun: CorunModel<N>,
    pub solo_loading: Map<(Seq<char>, i32), N>,
}

impl<N> View for IterationTimeProfile<N> {
    type V = IterationTimeModel<N>;

    open spec fn view(&self) -> IterationTimeModel<N> {
        IterationTimeModel {
            corun: self.corun@,
            solo_loading: single_table(self.solo_loading@),
        }
    }
}

/// The first of some columns that a header lacks.
pub open spec fn missing_column(header: Seq<Seq<char>>, columns: Seq<Column>) -> Option<Column>
    decreases columns.len(),
{
    if columns.len() == 0 {
        None
    } else if place_of(header, columns.first().name()) is None {
        Some(columns.first())
    } else {
        missing_column(header, columns.drop_first())
    }
}

/// The field of a record in a column, or another text where it has none.
pub open spec fn cell(
    header: Seq<Seq<char>>,
    record: Seq<Seq<char>>,
    column: Column,
    default: Seq<char>,
) -> Seq<char> {
    field_or(record, place_of(header, column.name()), default)
}

/// The columns of an iteration time profile.
pub open spec fn iteration_columns() -> Seq<Column> {
    seq![
        Column::ModelName,
        Column::ComputingTime,
        Column::NetworkingTime,
        Column::Workers,
        Column::LoadingTime,
        Column::ColocatedModel,
        Column::ColocatedWorkers,
    ]
}

/// A line of an iteration time profile: what was measured of a job, alone or beside
/// another.
pub struct IterationRow<N> {
    pub model: Seq<char>,
    pub gpus: i32,
    pub times: (N, N),
    pub loading: N,
    pub beside: Option<(Seq<char>, i32)>,
}

/// The line of an iteration time profile that a record holds.
pub open spec fn iteration_row<N: Scalar>(
    header: Seq<Seq<char>>,
    record: Seq<Seq<char>>,
    line: usize,
) -> Result<IterationRow<N>, LoadError> {
    let gpus = i32_of(cell(header, record, Column::Workers, "0"@));
    let compute = N::reading(cell(header, record, Column::ComputingTime, "0"@));
    let networking = N::reading(cell(header, record, Column::NetworkingTime, "0"@));
    let loading = N::reading(cell(header, record, Column::LoadingTime, "0"@));
    let co_model = cell(header, record, Column::ColocatedModel, ""@);
    let co_text = cell(header, record, Column::ColocatedWorkers, ""@);
    if gpus is None {
        Err(LoadError::Invalid(Column::Workers, line))
    } else if compute is None {
        Err(LoadError::Invalid(Column::ComputingTime, line))
    } else if networking is None {
        Err(LoadError::Invalid(Column::NetworkingTime, line))
    } else if loading is None {
        Err(LoadError::Invalid(Column::LoadingTime, line))
    } else if (co_model.len() == 0) != (co_text.len() == 0) {
        Err(LoadError::HalfColocated(line))
    } else if co_model.len() > 0 && i32_of(co_text) is None {
        Err(LoadError::Invalid(Column::ColocatedWorkers, line))
    } else {
        Ok(
            IterationRow {
                model: cell(header, record, Column::ModelName, ""@),
                gpus: gpus->0,
                times: (compute->0, networking->0),
                loading: loading->0,
                beside: if co_model.len() == 0 {
                    None
                } else {
                    Some((co_model, i32_of(co_text)->0))
                },
            },
        )
    }
}

impl<N: Scalar> IterationTimeModel<N> {
    /// The profile without entries.
    pub open spec fn empty() -> IterationTimeModel<N> {
        IterationTimeModel {
            corun: CorunModel {
                solo: Map::empty(),
                colocate: Map::empty(),
                colocate_loading: Map::empty(),
            },
            solo_loading: Map::empty(),
        }
    }

    /// The profile with a line more. What it said before of the same jobs is replaced.
    pub open spec fn with_row(self, row: IterationRow<N>) -> IterationTimeModel<N> {
        match row.beside {
            None => IterationTimeModel {
                corun: CorunModel {
                    solo: self.corun.solo.insert((row.model, row.gpus), row.times),
                    ..self.corun
                },
                solo_loading: self.solo_loading.insert((row.model, row.gpus), row.loading),
            },
            Some((co_model, co_gpus)) => {
                let key = (row.model, row.gpus, co_model, co_gpus);
                IterationTimeModel {
                    corun: CorunModel {
                        colocate: self.corun.colocate.insert(key, row.times),
                        colocate_loading: self.corun.colocate_loading.insert(key, row.loading),
                        ..self.corun
                    },
                    ..self
                }
            },
        }
    }
}

/// The iteration time profile that some records hold.
pub open spec fn iteration_profile<N: Scalar>(
    header: Seq<Seq<char>>,
    records: Seq<Option<Seq<Seq<char>>>>,
) -> Result<IterationTimeModel<N>, LoadError>
    decreases records.len(),
{
    if records.len() == 0 {
        Ok(IterationTimeModel::empty())
    } else {
        match iteration_profile::<N>(header, records.drop_last()) {
            Err(error) => Err(error),
            Ok(profile) => match records.last() {
                None => Err(LoadError::Record(line_of(records.len() - 1))),
                Some(record) => match iteration_row(header, record, line_of(records.len() - 1)) {
                    Err(error) => Err(error),
                    Ok(row) => Ok(profile.with_row(row)),
                },
            },
        }
    }
}

/// The iteration time profile that a table holds.
pub open spec fn iteration_profile_of<N: Scalar>(table: TableModel) -> Result<
    IterationTimeModel<N>,
    LoadError,
> {
    match missing_column(table.header, iteration_columns()) {
        Some(column) => Err(LoadError::MissingColumn(column)),
        None => iteration_profile(table.header, table.records),
    }
}

/// An error stays the error of more records.
proof fn lemma_iteration_error<N: Scalar>(
    header: Seq<Seq<char>>,
    records: Seq<Option<Seq<Seq<char>>>>,
    count: int,
)
    requires
        0 <= count <= records.len(),
        iteration_profile::<N>(header, records.take(count)) is Err,
    ensures
        iteration_profile::<N>(header, records) == iteration_profile::<N>(
            header,
            records.take(count),
        ),
    decreases records.len(),
{
    if count < records.len() {
        assert(records.drop_last().take(count) =~= records.take(count));
        lemma_iteration_error::<N>(header, records.drop_last(), count);
    } else {
        assert(records.take(count) =~= records);
    }
}

/// Where the columns of an iteration time profile stand.
struct IterationPlaces {
    model: usize,
    compute: usize,
    networking: usize,
    workers: usize,
    loading: usize,
    co_model: usize,
    co_workers: usize,
}

impl IterationPlaces {
    spec fn of(self, header: Seq<Seq<char>>) -> bool {
        &&& place_of(header, Column::ModelName.name()) == Some(self.model as int)
        &&& place_of(header, Column::ComputingTime.name()) == Some(self.compute as int)
        &&& place_of(header, Column::NetworkingTime.name()) == Some(self.networking as int)
        &&& place_of(header, Column::Workers.name()) == Some(self.workers as int)
        &&& place_of(header, Column::LoadingTime.name()) == Some(self.loading as int)
        &&& place_of(header, Column::ColocatedModel.name()) == Some(self.co_model as int)
        &&& place_of(header, Column::ColocatedWorkers.name()) == Some(self.co_workers as int)
    }
}

/// The place of a column, which must be there.
pub fn require_column(header: &Vec<String>, column: Column) -> (result: Result<usize, LoadError>)
    ensures
        match result {
            Ok(place) => place_of(texts(header@), column.name()) == Some(place as int),
            Err(error) => place_of(texts(header@), column.name()) is None && error
                == LoadError::MissingColumn(column),
        },
{
    match find_column(header, column) {
        Some(place) => Ok(place),
        None => Err(LoadError::MissingColumn(column)),
    }
}

/// Where the first columns stand in a header, the next one is the first that can be
/// missing.
pub(crate) proof fn lemma_missing_column(header: Seq<Seq<char>>, columns: Seq<Column>, k: int)
    requires
        0 <= k <= columns.len(),
        forall|i: int| 0 <= i < k ==> place_of(header, (#[trigger] columns[i]).name()) is Some,
    ensures
        k == columns.len() ==> missing_column(header, columns) is None,
        k < columns.len() && place_of(header, columns[k].name()) is None ==> missing_column(
            header,
            columns,
        ) == Some(columns[k]),
    decreases k,
{
    if k > 0 {
        let rest = columns.drop_first();
        assert(place_of(header, columns[0].name()) is Some);
        assert forall|i: int| 0 <= i < k - 1 implies place_of(
            header,
            (#[trigger] rest[i]).name(),
        ) is Some by {
            assert(columns[i + 1] == rest[i]);
        }
        lemma_missing_column(header, rest, k - 1);
    }
}

fn find_iteration_places(header: &Vec<String>) -> (result: Result<IterationPlaces, LoadError>)
    ensures
        match result {
            Ok(places) => {
                &&& places.of(texts(header@))
                &&& missing_column(texts(header@), iteration_columns()) is None
            },
            Err(error) => missing_column(texts(header@), iteration_columns()) matches Some(column)
                && error == LoadError::MissingColumn(column),
        },
{
    let ghost names = texts(header@);
    let ghost columns = iteration_columns();
    let model: usize = match require_column(header, Column::ModelName) {
        Ok(place) => place,
        Err(error) => {
            proof {
                lemma_missing_column(names, columns, 0);
            }
            return Err(error);
        },
    };
    let compute: usize = match require_column(header, Column::ComputingTime) {
        Ok(place) => place,
        Err(error) => {
            proof {
                lemma_missing_column(names, columns, 1);
            }
            return Err(error);
        },
    };
    let networking: usize = match require_column(header, Column::NetworkingTime) {
        Ok(place) => place,
        Err(error) => {
            proof {
                lemma_missing_column(names, columns, 2);
            }
            return Err(error);
        },
    };
    let workers: usize = match require_column(header, Column::Workers) {
        Ok(place) => place,
        Err(error) => {
            proof {
                lemma_missing_column(names, columns, 3);
            }
            return Err(error);
        },
    };
    let loading: usize = match require_column(header, Column::LoadingTime) {
        Ok(place) => place,
        Err(error) => {
            proof {
                lemma_missing_column(names, columns, 4);
            }
            return Err(error);
        },
    };
    let co_model: usize = match require_column(header, Column::ColocatedModel) {
        Ok(place) => place,
        Err(error) => {
            proof {
                lemma_missing_column(names, columns, 5);
            }
            return Err(error);
        },
    };
    let co_workers: usize = match require_column(header, Column::ColocatedWorkers) {
        Ok(place) => place,
        Err(error) => {
            proof {
                lemma_missing_column(names, columns, 6);
            }
            return Err(error);
        },
    };
    proof {
        lemma_missing_column(names, columns, 7);
    }
    Ok(IterationPlaces { model, compute, networking, workers, loading, co_model, co_workers })
}

impl<N: Scalar> IterationTimeProfile<N> {
    /// A profile without entries.
    pub fn new() -> (result: Self)
        ensures
            result@ == IterationTimeModel::<N>::empty(),
    {
        IterationTimeProfile { corun: CorunProfile::new(), solo_loading: Vec::new() }
    }

    /// Enters a line for a job that runs alone.
    fn add_solo(&mut self, model: String, gpus: i32, times: (N, N), loading: N)
        ensures
            final(self)@ == old(self)@.with_row(
                IterationRow { model: model@, gpus, times, loading, beside: None },
            ),
    {
        let ghost before = *self;
        self.corun.solo.push(SoloEntry { model: model.clone(), gpus, times });
        self.solo_loading.push(SingleEntry { model, gpus, value: loading });
        assert(self.corun.solo@.drop_last() =~= before.corun.solo@);
        assert(self.solo_loading@.drop_last() =~= before.solo_loading@);
    }

    /// Enters a line for a job beside another.
    fn add_pair(
        &mut self,
        model: String,
        gpus: i32,
        co_model: String,
        co_gpus: i32,
        times: (N, N),
        loading: N,
    )
        ensures
            final(self)@ == old(self)@.with_row(
                IterationRow {
                    model: model@,
                    gpus,
                    times,
                    loading,
                    beside: Some((co_model@, co_gpus)),
                },
            ),
    {
        let ghost before = *self;
        self.corun.colocate.push(
            PairEntry {
                model: model.clone(),
                gpus,
                co_model: co_model.clone(),
                co_gpus,
                value: times,
            },
        );
        self.corun.colocate_loading.push(
            PairEntry { model, gpus, co_model, co_gpus, value: loading },
        );
        assert(self.corun.colocate@.drop_last() =~= before.corun.colocate@);
        assert(self.corun.colocate_loading@.drop_last() =~= before.corun.colocate_loading@);
    }

    /// Enters the line that a record holds.
    fn add_record(
        &mut self,
        record: &Vec<String>,
        places: &IterationPlaces,
        line: usize,
        Ghost(header): Ghost<Seq<Seq<char>>>,
    ) -> (result: Result<(), LoadError>)
        requires
            places.of(header),
        ensures
            match iteration_row::<N>(header, texts(record@), line) {
                Ok(row) => result is Ok && final(self)@ == old(self)@.with_row(row),
                Err(error) => result == Err::<(), LoadError>(error),
            },
    {
        let gpus: i32 = match parse_i32(field(record, places.workers, "0")) {
            Some(gpus) => gpus,
            None => {
                return Err(LoadError::Invalid(Column::Workers, line));
            },
        };
        let compute: N = match N::read(field(record, places.compute, "0")) {
            Some(compute) => compute,
            None => {
                return Err(LoadError::Invalid(Column::ComputingTime, line));
            },
        };
        let networking: N = match N::read(field(record, places.networking, "0")) {
            Some(networking) => networking,
            None => {
                return Err(LoadError::Invalid(Column::NetworkingTime, line));
            },
        };
        let loading: N = match N::read(field(record, places.loading, "0")) {
            Some(loading) => loading,
            None => {
                return Err(LoadError::Invalid(Column::LoadingTime, line));
            },
        };
        let model: &str = field(record, places.model, "");
        let co_model: &str = field(record, places.co_model, "");
        let co_text: &str = field(record, places.co_workers, "");
        let no_model: bool = co_model.unicode_len() == 0;
        let no_workers: bool = co_text.unicode_len() == 0;
        if no_model != no_workers {
            return Err(LoadError::HalfColocated(line));
        }
        if no_model {
            self.add_solo(model.to_owned(), gpus, (compute, networking), loading);
            return Ok(());
        }
        match parse_i32(co_text) {
            Some(co_gpus) => {
                self.add_pair(
                    model.to_owned(),
                    gpus,
                    co_model.to_owned(),
                    co_gpus,
                    (compute, networking),
                    loading,
                );
                Ok(())
            },
            None => Err(LoadError::Invalid(Column::ColocatedWorkers, line)),
        }
    }

    /// The tables for the cluster: those of the profile where the interference model
    /// looks them up, and else none.
    pub fn into_corun(self, model: InterferenceModel) -> (result: CorunProfile<N>)
        ensures
            result@ == if model is CorunProfile {
                self@.corun
            } else {
                IterationTimeModel::<N>::empty().corun
            },
    {
        if model.is_corun_profile() {
            self.corun
        } else {
            CorunProfile::new()
        }
    }
}

/// Reads an iteration time profile from its table.
pub fn load_iteration_time<N: Scalar>(table: &Table) -> (result: Result<
    IterationTimeProfile<N>,
    LoadError,
>)
    ensures
        match result {
            Ok(profile) => iteration_profile_of::<N>(table@) == Ok::<
                IterationTimeModel<N>,
                LoadError,
            >(profile@),
            Err(error) => iteration_profile_of::<N>(table@) == Err::<
                IterationTimeModel<N>,
                LoadError,
            >(error),
        },
{
    let ghost header = table@.header;
    let ghost records = table@.records;
    let places: IterationPlaces = match find_iteration_places(&table.header) {
        Ok(places) => places,
        Err(error) => {
            return Err(error);
        },
    };
    let mut profile: IterationTimeProfile<N> = IterationTimeProfile::new();
    let mut i: usize = 0;
    assert(records.take(0) =~= Seq::empty());
    while i < table.records.len()
        invariant
            i <= table.records@.len(),
            header == table@.header,
            records == table@.records,
            records.len() == table.records@.len(),
            places.of(header),
            missing_column(header, iteration_columns()) is None,
            iteration_profile::<N>(header, records.take(i as int)) == Ok::<
                IterationTimeModel<N>,
                LoadError,
            >(profile@),
        decreases table.records@.len() - i,
    {
        proof {
            assert(records.take(i + 1).drop_last() =~= records.take(i as int));
            assert(records.take(i + 1).last() == record_texts(table.records@[i as int]));
            if iteration_profile::<N>(header, records.take(i + 1)) is Err {
                lemma_iteration_error::<N>(header, records, i + 1);
            }
        }
        match &table.records[i] {
            Some(record) => {
                match profile.add_record(record, &places, line_number(i), Ghost(header)) {
                    Ok(_) => {},
                    Err(error) => {
                        return Err(error);
                    },
                }
            },
            None => {
                return Err(LoadError::Record(line_number(i)));
            },
        }
        i += 1;
    }
    assert(records.take(i as int) =~= records);
    Ok(profile)
}

/// The iteration time profile that the bytes of a CSV file hold.
pub open spec fn iteration_profile_in<N: Scalar>(
    header: Option<Seq<Seq<char>>>,
    records: Seq<Option<Seq<Seq<char>>>>,
) -> Result<IterationTimeModel<N>, LoadError> {
    match header {
        None => Err(LoadError::Header),
        Some(header) => iteration_profile_of(TableModel { header, records }),
    }
}

/// Reads an iteration time profile from the bytes of a CSV file.
pub fn load_iteration_time_csv<N: Scalar>(bytes: &[u8]) -> (result: Result<
    IterationTimeProfile<N>,
    LoadError,
>)
    ensures
        match result {
            Ok(profile) => iteration_profile_in::<N>(csv_header(bytes@), csv_records(bytes@))
                == Ok::<IterationTimeModel<N>, LoadError>(profile@),
            Err(error) => iteration_profile_in::<N>(csv_header(bytes@), csv_records(bytes@))
                == Err::<IterationTimeModel<N>, LoadError>(error),
        },
{
    match read_table(bytes) {
        Ok(table) => {
            assert(table@ == TableModel {
                header: csv_header(bytes@)->0,
                records: csv_records(bytes@),
            });
            load_iteration_time(&table)
        },
        Err(error) => Err(error),
    }
}

/// The communication volumes of jobs.
pub struct VolumeProfile<N> {
    pub entries: Vec<SingleEntry<N>>,
}

impl<N> View for VolumeProfile<N> {
    type V = Map<(Seq<char>, i32), N>;

    open spec fn view(&self) -> Map<(Seq<char>, i32), N> {
        single_table(self.entries@)
    }
}

/// The columns of a communication volume profile.
pub open spec fn volume_columns() -> Seq<Column> {
    seq![Column::VolumeModel, Column::VolumeWorkers, Column::VolumeRate]
}

/// The communication volume profile that some records hold. Where a job occurs twice, the
/// later record holds.
pub open spec fn volume_profile<N: Scalar>(
    header: Seq<Seq<char>>,
    records: Seq<Option<Seq<Seq<char>>>>,
) -> Result<Map<(Seq<char>, i32), N>, LoadError>
    decreases records.len(),
{
    if records.len() == 0 {
        Ok(Map::empty())
    } else {
        let line = line_of(records.len() - 1);
        match volume_profile::<N>(header, records.drop_last()) {
            Err(error) => Err(error),
            Ok(profile) => match records.last() {
                None => Err(LoadError::Record(line)),
                Some(record) => {
                    let gpus = i32_of(cell(header, record, Column::VolumeWorkers, "0"@));
                    let rate = N::reading(cell(header, record, Column::VolumeRate, "0"@));
                    if gpus is None {
                        Err(LoadError::Invalid(Column::VolumeWorkers, line))
                    } else if rate is None {
                        Err(LoadError::Invalid(Column::VolumeRate, line))
                    } else {
                        let model = cell(header, record, Column::VolumeModel, ""@);
                        Ok(profile.insert((model, gpus->0), rate->0))
                    }
                },
            },
        }
    }
}

/// The communication volume profile that a table holds.
pub open spec fn volume_profile_of<N: Scalar>(table: TableModel) -> Result<
    Map<(Seq<char>, i32), N>,
    LoadError,
> {
    match missing_column(table.header, volume_columns()) {
        Some(column) => Err(LoadError::MissingColumn(column)),
        None => volume_profile(table.header, table.records),
    }
}

/// The communication volume profile that the bytes of a CSV file hold.
pub open spec fn volume_profile_in<N: Scalar>(
    header: Option<Seq<Seq<char>>>,
    records: Seq<Option<Seq<Seq<char>>>>,
) -> Result<Map<(Seq<char>, i32), N>, LoadError> {
    match header {
        None => Err(LoadError::Header),
        Some(header) => volume_profile_of(TableModel { header, records }),
    }
}

/// An error stays the error of more records.
proof fn lemma_volume_error<N: Scalar>(
    header: Seq<Seq<char>>,
    records: Seq<Option<Seq<Seq<char>>>>,
    count: int,
)
    requires
        0 <= count <= records.len(),
        volume_profile::<N>(header, records.take(count)) is Err,
    ensures
        volume_profile::<N>(header, records) == volume_profile::<N>(header, records.take(count)),
    decreases records.len(),
{
    if count < records.len() {
        assert(records.drop_last().take(count) =~= records.take(count));
        lemma_volume_error::<N>(header, records.drop_last(), count);
    } else {
        assert(records.take(count) =~= records);
    }
}

/// Reads a communication volume profile from its table.
pub fn load_communication_volume<N: Scalar>(table: &Table) -> (result: Result<
    VolumeProfile<N>,
    LoadError,
>)
    ensures
        match result {
            Ok(profile) => volume_profile_of::<N>(table@) == Ok::<
                Map<(Seq<char>, i32), N>,
                LoadError,
            >(profile@),
            Err(error) => volume_profile_of::<N>(table@) == Err::<
                Map<(Seq<char>, i32), N>,
                LoadError,
            >(error),
        },
{
    let ghost header = table@.header;
    let ghost records = table@.records;
    let ghost columns = volume_columns();
    let c_model: usize = match require_column(&table.header, Column::VolumeModel) {
        Ok(place) => place,
        Err(error) => {
            proof {
                lemma_missing_column(header, columns, 0);
            }
            return Err(error);
        },
    };
    let c_workers: usize = match require_column(&table.header, Column::VolumeWorkers) {
        Ok(place) => place,
        Err(error) => {
            proof {
                lemma_missing_column(header, columns, 1);
            }
            return Err(error);
        },
    };
    let c_rate: usize = match require_column(&table.header, Column::VolumeRate) {
        Ok(place) => place,
        Err(error) => {
            proof {
                lemma_missing_column(header, columns, 2);
            }
            return Err(error);
        },
    };
    proof {
        lemma_missing_column(header, columns, 3);
    }
    let mut entries: Vec<SingleEntry<N>> = Vec::new();
    let mut i: usize = 0;
    assert(records.take(0) =~= Seq::empty());
    while i < table.records.len()
        invariant
            i <= table.records@.len(),
            header == table@.header,
            records == table@.records,
            records.len() == table.records@.len(),
            place_of(header, Column::VolumeModel.name()) == Some(c_model as int),
            place_of(header, Column::VolumeWorkers.name()) == Some(c_workers as int),
            place_of(header, Column::VolumeRate.name()) == Some(c_rate as int),
            missing_column(header, volume_columns()) is None,
            volume_profile::<N>(header, records.take(i as int)) == Ok::<
                Map<(Seq<char>, i32), N>,
                LoadError,
            >(single_table(entries@)),
        decreases table.records@.len() - i,
    {
        proof {
            assert(records.take(i + 1).drop_last() =~= records.take(i as int));
            assert(records.take(i + 1).last() == record_texts(table.records@[i as int]));
            if volume_profile::<N>(header, records.take(i + 1)) is Err {
                lemma_volume_error::<N>(header, records, i + 1);
            }
        }
        let record: &Vec<String> = match &table.records[i] {
            Some(record) => record,
            None => {
                return Err(LoadError::Record(line_number(i)));
            },
        };
        let gpus: i32 = match parse_i32(field(record, c_workers, "0")) {
            Some(gpus) => gpus,
            None => {
                return Err(LoadError::Invalid(Column::VolumeWorkers, line_number(i)));
            },
        };
        let value: N = match N::read(field(record, c_rate, "0")) {
            Some(value) => value,
            None => {
                return Err(LoadError::Invalid(Column::VolumeRate, line_number(i)));
            },
        };
        let model: String = field(record, c_model, "").to_owned();
        let ghost before = entries@;
        entries.push(SingleEntry { model, gpus, value });
        assert(entries@.drop_last() =~= before);
        i += 1;
    }
    assert(records.take(i as int) =~= records);
    Ok(VolumeProfile { entries })
}

/// Reads a communication volume profile from the bytes of a CSV file.
pub fn load_communication_volume_csv<N: Scalar>(bytes: &[u8]) -> (result: Result<
    VolumeProfile<N>,
    LoadError,
>)
    ensures
        match result {
            Ok(profile) => volume_profile_in::<N>(csv_header(bytes@), csv_records(bytes@)) == Ok::<
                Map<(Seq<char>, i32), N>,
                LoadError,
            >(profile@),
            Err(error) => volume_profile_in::<N>(csv_header(bytes@), csv_records(bytes@)) == Err::<
                Map<(Seq<char>, i32), N>,
                LoadError,
            >(error),
        },
{
    match read_table(bytes) {
        Ok(table) => {
            assert(table@ == TableModel {
                header: csv_header(bytes@)->0,
                records: csv_records(bytes@),
            });
            load_communication_volume(&table)
        },
        Err(error) => Err(error),
    }
}

/// A profile that could be read has a loading time for every job whose solo iteration time
/// it has.
pub proof fn solo_times_come_with_loading_times<N: Scalar>(
    header: Seq<Seq<char>>,
    records: Seq<Option<Seq<Seq<char>>>>,
)
    ensures
        iteration_profile::<N>(header, records) matches Ok(profile)
            ==> profile.corun.solo.dom() == profile.solo_loading.dom(),
    decreases records.len(),
{
    if records.len() == 0 {
        let empty = IterationTimeModel::<N>::empty();
        assert(empty.corun.solo.dom() =~= empty.solo_loading.dom());
    } else {
        solo_times_come_with_loading_times::<N>(header, records.drop_last());
        if let Ok(profile) = iteration_profile::<N>(header, records) {
            assert(profile.corun.solo.dom() =~= profile.solo_loading.dom());
        }
    }
}

/// Where the entry for the same job stands that another replaces, if it replaces one.
pub fn replaced_single<N>(entries: &Vec<SingleEntry<N>>, place: usize) -> (result: Option<usize>)
    requires
        place < entries@.len(),
    ensures
        match result {
            Some(earlier) => {
                &&& earlier < place
                &&& entries@[earlier as int].model@ == entries@[place as int].model@
                &&& entries@[earlier as int].gpus == entries@[place as int].gpus
                &&& forall|i: int|
                    earlier < i < place ==> (#[trigger] entries@[i]).model@
                        != entries@[place as int].model@ || entries@[i].gpus
                        != entries@[place as int].gpus
            },
            None => forall|i: int|
                0 <= i < place ==> (#[trigger] entries@[i]).model@
                    != entries@[place as int].model@ || entries@[i].gpus
                    != entries@[place as int].gpus,
        },
{
    let mut i: usize = place;
    while i > 0
        invariant
            i <= place < entries@.len(),
            forall|k: int|
                i <= k < place ==> (#[trigger] entries@[k]).model@ != entries@[place as int].model@
                    || entries@[k].gpus != entries@[place as int].gpus,
        decreases i,
    {
        i -= 1;
        if entries[i].model == entries[place].model && entries[i].gpus == entries[place].gpus {
            return Some(i);
        }
    }
    None
}

/// A line of an iteration time profile is what the profile says of its jobs from then on: alone where
/// it names no other job, and beside that one where it does; what it says of others stays.
pub proof fn profile_lines_replace_what_was_said<N: Scalar>(
    profile: IterationTimeModel<N>,
    row: IterationRow<N>,
    model: Seq<char>,
    gpus: i32,
    co_model: Seq<char>,
    co_gpus: i32,
)
    ensures
        ({
            let after = profile.with_row(row);
            let key = (model, gpus);
            let pair = (model, gpus, co_model, co_gpus);
            let solo = row.beside is None && key == (row.model, row.gpus);
            let beside = row.beside == Some((co_model, co_gpus)) && key == (row.model, row.gpus);
            &&& solo ==> after.corun.solo.contains_key(key) && after.corun.solo[key] == row.times
            &&& solo ==> after.solo_loading.contains_key(key) && after.solo_loading[key]
                == row.loading
            &&& !solo ==> after.corun.solo.contains_key(key) == profile.corun.solo.contains_key(key)
                && (profile.corun.solo.contains_key(key) ==> after.corun.solo[key]
                == profile.corun.solo[key])
            &&& !solo ==> after.solo_loading.contains_key(key)
                == profile.solo_loading.contains_key(key) && (profile.solo_loading.contains_key(key)
                ==> after.solo_loading[key] == profile.solo_loading[key])
            &&& beside ==> after.corun.colocate.contains_key(pair) && after.corun.colocate[pair]
                == row.times
            &&& beside ==> after.corun.colocate_loading.contains_key(pair)
                && after.corun.colocate_loading[pair] == row.loading
            &&& !beside ==> after.corun.colocate.contains_key(pair)
                == profile.corun.colocate.contains_key(pair) && (
            profile.corun.colocate.contains_key(pair) ==> after.corun.colocate[pair]
                == profile.corun.colocate[pair])
            &&& !beside ==> after.corun.colocate_loading.contains_key(pair)
                == profile.corun.colocate_loading.contains_key(pair) && (
            profile.corun.colocate_loading.contains_key(pair) ==> after.corun.colocate_loading[pair]
                == profile.corun.colocate_loading[pair])
        }),
{
}

/// What a record says of a job stands in the columns of these names, whatever order the columns have:
/// its fields there are what the line of the profile is made of. A line is of a job beside
/// another just where it names one.
pub proof fn profile_fields_stand_in_their_columns<N: Scalar>(
    header: Seq<Seq<char>>,
    record: Seq<Seq<char>>,
    line: usize,
    column: Column,
    place: int,
)
    requires
        place_of(header, column.name()) == Some(place),
        0 <= place < record.len(),
    ensures
        iteration_row::<N>(header, record, line) matches Ok(row) ==> {
            let text = record[place];
            &&& column is ModelName ==> row.model == text
            &&& column is Workers ==> i32_of(text) == Some(row.gpus)
            &&& column is ComputingTime ==> N::reading(text) == Some(row.times.0)
            &&& column is NetworkingTime ==> N::reading(text) == Some(row.times.1)
            &&& column is LoadingTime ==> N::reading(text) == Some(row.loading)
            &&& column is ColocatedModel ==> match row.beside {
                Some((model, gpus)) => text.len() > 0 && text == model,
                None => text.len() == 0,
            }
            &&& column is ColocatedWorkers ==> match row.beside {
                Some((model, gpus)) => i32_of(text) == Some(gpus),
                None => text.len() == 0,
            }
        },
{
}

/// A table is refused for want of a column exactly where it lacks one that it must have, and then the
/// first of them is named.
pub proof fn the_first_missing_column_is_named(header: Seq<Seq<char>>, columns: Seq<Column>)
    ensures
        match missing_column(header, columns) {
            None => forall|i: int|
                0 <= i < columns.len() ==> place_of(header, (#[trigger] columns[i]).name()) is Some,
            Some(column) => exists|i: int|
                {
                    &&& 0 <= i < columns.len()
                    &&& #[trigger] columns[i] == column
                    &&& place_of(header, column.name()) is None
                    &&& forall|j: int|
                        0 <= j < i ==> place_of(header, (#[trigger] columns[j]).name()) is Some
                },
        },
    decreases columns.len(),
{
    if columns.len() > 0 {
        if place_of(header, columns.first().name()) is None {
            assert(columns[0] == columns.first());
        } else {
            let rest = columns.drop_first();
            the_first_missing_column_is_named(header, rest);
            match missing_column(header, columns) {
                None => {
                    assert forall|i: int| 0 <= i < columns.len() implies place_of(
                        header,
                        (#[trigger] columns[i]).name(),
                    ) is Some by {
                        if i > 0 {
                            assert(rest[i - 1] == columns[i]);
                        }
                    }
                },
                Some(column) => {
                    let i = choose|i: int|
                        {
                            &&& 0 <= i < rest.len()
                            &&& #[trigger] rest[i] == column
                            &&& place_of(header, column.name()) is None
                            &&& forall|j: int|
                                0 <= j < i ==> place_of(header, (#[trigger] rest[j]).name()) is Some
                        };
                    assert(columns[i + 1] == column);
                    assert forall|j: int| 0 <= j < i + 1 implies place_of(
                        header,
                        (#[trigger] columns[j]).name(),
                    ) is Some by {
                        if j > 0 {
                            assert(rest[j - 1] == columns[j]);
                        }
                    }
                },
            }
        }
    }
}

/// A profile of iteration times must have the columns of the model, its GPUs, its times and its
/// neighbour; one of volumes those of the model, its GPUs and its rate.
pub proof fn profiles_have_the_columns_they_need(column: Column)
    ensures
        iteration_columns().contains(column) <==> column is ModelName || column is ComputingTime
            || column is NetworkingTime || column is Workers || column is LoadingTime
            || column is ColocatedModel || column is ColocatedWorkers,
        volume_columns().contains(column) <==> column is VolumeModel || column is VolumeWorkers
            || column is VolumeRate,
{
    let times = iteration_columns();
    let volumes = volume_columns();
    assert(times[0] is ModelName && times[1] is ComputingTime && times[2] is NetworkingTime
        && times[3] is Workers && times[4] is LoadingTime && times[5] is ColocatedModel
        && times[6] is ColocatedWorkers);
    assert(volumes[0] is VolumeModel && volumes[1] is VolumeWorkers && volumes[2] is VolumeRate);
}

/// What a communication volume profile says of a model on some GPUs is the rate in the last record of
/// that model and as many GPUs; and every record of one that was read can be read.
pub proof fn the_last_volume_record_holds<N: Scalar>(
    header: Seq<Seq<char>>,
    records: Seq<Option<Seq<Seq<char>>>>,
    k: int,
    model_place: int,
    gpus_place: int,
    rate_place: int,
)
    requires
        volume_profile::<N>(header, records) is Ok,
        0 <= k < records.len(),
        place_of(header, Column::VolumeModel.name()) == Some(model_place),
        place_of(header, Column::VolumeWorkers.name()) == Some(gpus_place),
        place_of(header, Column::VolumeRate.name()) == Some(rate_place),
        forall|i: int|
            0 <= i < records.len() ==> (#[trigger] records[i] matches Some(record) ==> {
                &&& 0 <= model_place < record.len()
                &&& 0 <= gpus_place < record.len()
                &&& 0 <= rate_place < record.len()
            }),
        forall|i: int|
            k < i < records.len() && records[k] is Some ==> (#[trigger] records[i] matches Some(
                record,
            ) ==> record[model_place] != records[k]->0[model_place] || i32_of(record[gpus_place])
                != i32_of(records[k]->0[gpus_place])),
    ensures
        records[k] is Some,
        i32_of(records[k]->0[gpus_place]) is Some,
        N::reading(records[k]->0[rate_place]) is Some,
        ({
            let profile = volume_profile::<N>(header, records)->Ok_0;
            let key = (records[k]->0[model_place], i32_of(records[k]->0[gpus_place])->0);
            &&& profile.contains_key(key)
            &&& Some(profile[key]) == N::reading(records[k]->0[rate_place])
        }),
    decreases records.len(),
{
    let last = records.len() - 1;
    let rest = records.drop_last();
    if k < last {
        assert forall|i: int| 0 <= i < rest.len() implies (#[trigger] rest[i] matches Some(record)
            ==> {
            &&& 0 <= model_place < record.len()
            &&& 0 <= gpus_place < record.len()
            &&& 0 <= rate_place < record.len()
        }) by {
            assert(rest[i] == records[i]);
        }
        assert forall|i: int| k < i < rest.len() && rest[k] is Some implies (
        #[trigger] rest[i] matches Some(record) ==> record[model_place] != rest[k]->0[model_place]
            || i32_of(record[gpus_place]) != i32_of(rest[k]->0[gpus_place])) by {
            assert(rest[i] == records[i]);
        }
        the_last_volume_record_holds::<N>(header, rest, k, model_place, gpus_place, rate_place);
        assert(rest[k] == records[k]);
    }
    assert(records[last] == records.last());
}

/// What an iteration time profile says of a job, alone or beside another, is what the last record of it
/// says; and every record of a profile that was read holds a line.
pub proof fn the_last_record_of_a_job_holds<N: Scalar>(
    header: Seq<Seq<char>>,
    records: Seq<Option<Seq<Seq<char>>>>,
    k: int,
)
    requires
        iteration_profile::<N>(header, records) is Ok,
        0 <= k < records.len(),
        ({
            let row = iteration_row::<N>(header, records[k]->0, line_of(k));
            forall|i: int|
                k < i < records.len() ==> {
                    let later = iteration_row::<N>(
                        header,
                        (#[trigger] records[i])->0,
                        line_of(i),
                    )->Ok_0;
                    ||| later.model != row->Ok_0.model
                    ||| later.gpus != row->Ok_0.gpus
                    ||| later.beside != row->Ok_0.beside
                }
        }),
    ensures
        records[k] is Some,
        ({
            let profile = iteration_profile::<N>(header, records)->Ok_0;
            iteration_row::<N>(header, records[k]->0, line_of(k)) matches Ok(row) && match row.beside {
                None => {
                    let key = (row.model, row.gpus);
                    &&& profile.corun.solo.contains_key(key)
                    &&& profile.corun.solo[key] == row.times
                    &&& profile.solo_loading.contains_key(key)
                    &&& profile.solo_loading[key] == row.loading
                },
                Some((co_model, co_gpus)) => {
                    let key = (row.model, row.gpus, co_model, co_gpus);
                    &&& profile.corun.colocate.contains_key(key)
                    &&& profile.corun.colocate[key] == row.times
                    &&& profile.corun.colocate_loading.contains_key(key)
                    &&& profile.corun.colocate_loading[key] == row.loading
                },
            }
        }),
    decreases records.len(),
{
    let last = records.len() - 1;
    let rest = records.drop_last();
    assert(records[last] == records.last());
    if k < last {
        assert(rest[k] == records[k]);
        assert forall|i: int| k < i < rest.len() implies {
            let row = iteration_row::<N>(header, rest[k]->0, line_of(k));
            let later = iteration_row::<N>(header, (#[trigger] rest[i])->0, line_of(i))->Ok_0;
            ||| later.model != row->Ok_0.model
            ||| later.gpus != row->Ok_0.gpus
            ||| later.beside != row->Ok_0.beside
        } by {
            assert(rest[i] == records[i]);
        }
        the_last_record_of_a_job_holds::<N>(header, rest, k);
    }
    let row = iteration_row::<N>(header, records[k]->0, line_of(k))->Ok_0;
    let added = iteration_row::<N>(header, records[last]->0, line_of(last))->Ok_0;
    let before = iteration_profile::<N>(header, rest)->Ok_0;
    let (co_model, co_gpus) = match row.beside {
        Some(beside) => beside,
        None => (Seq::empty(), 0),
    };
    profile_lines_replace_what_was_said(before, added, row.model, row.gpus, co_model, co_gpus);
}

/// A profile cannot be read where one of its records cannot, and the error is that of the first such
/// record: the line is two more than its place, as the header has the first one.
pub proof fn the_first_bad_record_is_named<N: Scalar>(
    header: Seq<Seq<char>>,
    records: Seq<Option<Seq<Seq<char>>>>,
    k: int,
)
    requires
        0 <= k < records.len() < usize::MAX - 2,
        iteration_profile::<N>(header, records.take(k)) is Ok,
        records[k] is None || iteration_row::<N>(header, records[k]->0, (k + 2) as usize) is Err,
    ensures
        iteration_profile::<N>(header, records) == Err::<IterationTimeModel<N>, LoadError>(
            match records[k] {
                None => LoadError::Record((k + 2) as usize),
                Some(record) => iteration_row::<N>(header, record, (k + 2) as usize)->Err_0,
            },
        ),
    decreases records.len(),
{
    let last = records.len() - 1;
    let rest = records.drop_last();
    if k < last {
        assert(rest[k] == records[k]);
        assert(rest.take(k) =~= records.take(k));
        the_first_bad_record_is_named::<N>(header, rest, k);
    } else {
        assert(rest =~= records.take(k));
        assert(records[last] == records.last());
    }
}

/// A communication volume profile cannot be read where one of its records cannot, and the error says of
/// the first such record which column it is; its line is two more than its place.
pub proof fn the_first_bad_volume_is_named<N: Scalar>(
    header: Seq<Seq<char>>,
    records: Seq<Option<Seq<Seq<char>>>>,
    k: int,
    gpus_place: int,
    rate_place: int,
)
    requires
        0 <= k < records.len() < usize::MAX - 2,
        volume_profile::<N>(header, records.take(k)) is Ok,
        place_of(header, Column::VolumeWorkers.name()) == Some(gpus_place),
        place_of(header, Column::VolumeRate.name()) == Some(rate_place),
        records[k] matches Some(record) ==> {
            &&& 0 <= gpus_place < record.len()
            &&& 0 <= rate_place < record.len()
            &&& i32_of(record[gpus_place]) is None || N::reading(record[rate_place]) is None
        },
    ensures
        volume_profile::<N>(header, records) matches Err(error) && error == match records[k] {
            None => LoadError::Record((k + 2) as usize),
            Some(record) => if i32_of(record[gpus_place]) is None {
                LoadError::Invalid(Column::VolumeWorkers, (k + 2) as usize)
            } else {
                LoadError::Invalid(Column::VolumeRate, (k + 2) as usize)
            },
        },
    decreases records.len(),
{
    let last = records.len() - 1;
    let rest = records.drop_last();
    if k < last {
        assert(rest[k] == records[k]);
        assert(rest.take(k) =~= records.take(k));
        the_first_bad_volume_is_named::<N>(header, rest, k, gpus_place, rate_place);
    } else {
        assert(rest =~= records.take(k));
        assert(records[last] == records.last());
    }
}

} // verus!
