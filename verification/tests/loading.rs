use mosim::job_trace::{load_jobs, load_jobs_csv};
use mosim::corun::{replaced_pair, replaced_solo};
use mosim::profiles::{
    load_communication_volume, load_communication_volume_csv, load_iteration_time,
    load_iteration_time_csv, replaced_single, IterationTimeProfile, VolumeProfile,
};
use mosim::interference::InterferenceModel;
use mosim::scalar::Ticks;
use mosim::tables::{read_table, Column, LoadError, Table};

fn ticks(count: i64) -> Ticks {
    Ticks { count }
}

const TIMES: &str = "\
model_name,iteration_computing_time,Iteration_Networking_Time,gpu_workers,loading_time,colocated_model_name,colocated_gpu_workers
resnet,10,5,2,30,,
resnet,11,6,2,31,,
vgg,20,8,1,40,,
resnet,15,7,2,35,vgg,1
";

const VOLUMES: &str = "\
Model,Number of Workers,Other,Sum of Max TX+RX (MB/s)
resnet,2,x,700
\"quoted, name\",3,x,9
";

const TRACE: &str = "\
job_id,model,arrival_time,num_iteration,duration,gpu_workers,gpu_per_worker,cpu_per_gpu_worker,ps
7,resnet,100,50,0,2,1,4,1
3,vgg,90,60,0,1,x,6,
";

fn times() -> IterationTimeProfile<Ticks> {
    load_iteration_time_csv(TIMES.as_bytes()).ok().unwrap()
}

fn volumes() -> VolumeProfile<Ticks> {
    load_communication_volume_csv(VOLUMES.as_bytes()).ok().unwrap()
}

#[test]
fn tables_are_read() {
    let table = read_table(VOLUMES.as_bytes()).ok().unwrap();
    assert_eq!(
        table.header,
        vec!["Model", "Number of Workers", "Other", "Sum of Max TX+RX (MB/s)"]
    );
    assert_eq!(table.records.len(), 2);
    assert_eq!(
        table.records[1].as_ref().unwrap()[0],
        "quoted, name"
    );
    let empty = read_table(b"").ok().unwrap();
    assert_eq!(empty.header.len(), 0);
    assert_eq!(empty.records.len(), 0);
}

#[test]
fn broken_tables_are_refused() {
    assert_eq!(read_table(b"a,\xff\n1,2\n").err(), Some(LoadError::Header));
    let ragged = read_table(b"a,b\n1,2\n1,2,3\n4,5\n").ok().unwrap();
    assert!(ragged.records[0].is_some());
    assert!(ragged.records[1].is_none());
    assert!(ragged.records[2].is_some());
}

#[test]
fn an_iteration_time_profile_is_read() {
    let profile = times();
    assert_eq!(profile.corun.solo.len(), 3);
    assert_eq!(profile.solo_loading.len(), 3);
    assert_eq!(profile.corun.colocate.len(), 1);
    assert_eq!(profile.corun.colocate[0].co_model, "vgg");
    assert_eq!(profile.corun.colocate[0].co_gpus, 1);
    assert_eq!(profile.corun.colocate[0].value, (ticks(15), ticks(7)));
    assert_eq!(profile.corun.colocate_loading[0].value, ticks(35));
    assert_eq!(times().into_corun(InterferenceModel::CorunProfile).colocate.len(), 1);
    assert_eq!(times().into_corun(InterferenceModel::Comms).solo.len(), 0);
}

#[test]
fn a_communication_volume_profile_is_read() {
    let profile = volumes();
    assert_eq!(profile.entries.len(), 2);
    assert_eq!(profile.entries[0].model, "resnet");
    assert_eq!(profile.entries[0].gpus, 2);
    assert_eq!(profile.entries[0].value, ticks(700));
}

#[test]
fn jobs_are_read_and_numbered() {
    let jobs = load_jobs_csv(TRACE.as_bytes(), &times(), &volumes()).ok().unwrap();
    assert_eq!(jobs.len(), 2);
    assert_eq!(jobs[0].job_id, 0);
    // The job with the lower number comes first.
    assert_eq!(jobs[0].model, "vgg");
    assert_eq!(jobs[0].arrival_time, ticks(90));
    assert_eq!(jobs[0].gpu_per_worker, 1);
    assert_eq!(jobs[0].cpu_per_gpu_worker, 6);
    assert_eq!(jobs[0].ps, 0);
    assert_eq!(jobs[0].iteration_number, ticks(60));
    assert_eq!(jobs[0].profiled_network, ticks(0));
    assert_eq!(jobs[1].model, "resnet");
    assert_eq!(jobs[1].job_id, 1);
    assert_eq!(jobs[1].ps, 1);
    assert_eq!(jobs[1].iteration_computing_time, ticks(11));
    assert_eq!(jobs[1].iteration_networking_time, ticks(6));
    assert_eq!(jobs[1].loading_time, ticks(31));
    assert_eq!(jobs[1].profiled_network, ticks(700));
    assert_eq!(jobs[1].skewness, ticks(0));
}

fn ids_of(numbers: &[i32]) -> Vec<(i32, Ticks)> {
    let mut text = String::from(
        "job_id,model,arrival_time,num_iteration,gpu_workers,gpu_per_worker,cpu_per_gpu_worker\n",
    );
    for (place, number) in numbers.iter().enumerate() {
        text.push_str(&format!("{},vgg,{},1,1,1,1\n", number, place));
    }
    let jobs = load_jobs_csv(text.as_bytes(), &times(), &volumes()).ok().unwrap();
    jobs.iter().map(|job| (job.job_id, job.arrival_time)).collect()
}

#[test]
fn jobs_are_numbered_by_their_places() {
    // Numbers that run from zero stay as they are.
    assert_eq!(ids_of(&[2, 0, 1]), vec![(0, ticks(1)), (1, ticks(2)), (2, ticks(0))]);
    // Others are numbered anew, also where only one is repeated.
    assert_eq!(ids_of(&[2, 0, 0]), vec![(0, ticks(1)), (1, ticks(2)), (2, ticks(0))]);
    assert_eq!(ids_of(&[9, -4, 5]), vec![(0, ticks(1)), (1, ticks(2)), (2, ticks(0))]);
    assert_eq!(ids_of(&[]), vec![]);
}

fn times_error(text: &str) -> Option<LoadError> {
    load_iteration_time_csv::<Ticks>(text.as_bytes()).err()
}

#[test]
fn flaws_of_an_iteration_time_profile_are_named() {
    assert_eq!(
        times_error("model_name,iteration_computing_time\n"),
        Some(LoadError::MissingColumn(Column::NetworkingTime))
    );
    assert_eq!(times_error(""), Some(LoadError::MissingColumn(Column::ModelName)));
    let with = |row: &str| {
        format!(
            "model_name,iteration_computing_time,iteration_networking_time,gpu_workers,loading_time,colocated_model_name,colocated_gpu_workers\na,1,1,1,1,,\n{}\n",
            row
        )
    };
    assert_eq!(times_error(&with("a,1,1,1,1,,")), None);
    assert_eq!(
        times_error(&with("a,1,1,?,1,,")),
        Some(LoadError::Invalid(Column::Workers, 3))
    );
    assert_eq!(
        times_error(&with("a,?,1,1,1,,")),
        Some(LoadError::Invalid(Column::ComputingTime, 3))
    );
    assert_eq!(
        times_error(&with("a,1,?,1,1,,")),
        Some(LoadError::Invalid(Column::NetworkingTime, 3))
    );
    assert_eq!(
        times_error(&with("a,1,1,1,?,,")),
        Some(LoadError::Invalid(Column::LoadingTime, 3))
    );
    assert_eq!(times_error(&with("a,1,1,1,1,b,")), Some(LoadError::HalfColocated(3)));
    assert_eq!(times_error(&with("a,1,1,1,1,,2")), Some(LoadError::HalfColocated(3)));
    assert_eq!(
        times_error(&with("a,1,1,1,1,b,c")),
        Some(LoadError::Invalid(Column::ColocatedWorkers, 3))
    );
    assert_eq!(times_error(&with("a,1,1")), Some(LoadError::Record(3)));
}

#[test]
fn flaws_of_a_communication_volume_profile_are_named() {
    let error = |text: &str| load_communication_volume_csv::<Ticks>(text.as_bytes()).err();
    assert_eq!(
        error("Model,Number of Workers\n"),
        Some(LoadError::MissingColumn(Column::VolumeRate))
    );
    let header = "Model,Number of Workers,Sum of Max TX+RX (MB/s)\n";
    assert_eq!(
        error(&format!("{}a,b,1\n", header)),
        Some(LoadError::Invalid(Column::VolumeWorkers, 2))
    );
    assert_eq!(
        error(&format!("{}a,1,b\n", header)),
        Some(LoadError::Invalid(Column::VolumeRate, 2))
    );
    assert_eq!(error(&format!("{}a,1\n", header)), Some(LoadError::Record(2)));
    assert_eq!(error("a,\u{fffd}\n"), Some(LoadError::MissingColumn(Column::VolumeModel)));
}

#[test]
fn flaws_of_a_trace_are_named() {
    let error = |text: &str| load_jobs_csv(text.as_bytes(), &times(), &volumes()).err();
    assert_eq!(
        error("job_id,model,arrival_time\n"),
        Some(LoadError::MissingColumn(Column::NumIteration))
    );
    let header = "job_id,model,arrival_time,num_iteration,gpu_workers,gpu_per_worker,cpu_per_gpu_worker\n";
    let with = |row: &str| format!("{}{}\n", header, row);
    assert_eq!(
        error(&with("0,vgg,0,1,one,1,1")),
        Some(LoadError::Invalid(Column::GpuWorkers, 2))
    );
    assert_eq!(error(&with("0,bert,0,1,1,1,1")), Some(LoadError::MissingSolo(2)));
    assert_eq!(error(&with("0,vgg,0,1,65536,65536,1")), Some(LoadError::MissingSolo(2)));
    let without = VolumeProfile { entries: Vec::new() };
    assert_eq!(
        load_jobs_csv(with("0,resnet,0,1,2,1,1").as_bytes(), &times(), &without).err(),
        Some(LoadError::MissingVolume(2))
    );
    assert_eq!(error(&with("0,vgg")), Some(LoadError::Record(2)));
}

fn table(header: &[&str], records: &[&[&str]]) -> Table {
    Table {
        header: header.iter().map(|x| x.to_string()).collect(),
        records: records
            .iter()
            .map(|row| Some(row.iter().map(|x| x.to_string()).collect()))
            .collect(),
    }
}

#[test]
fn tables_of_texts_are_read_like_files() {
    let profile = load_iteration_time::<Ticks>(&table(
        &[
            "MODEL_NAME",
            "iteration_computing_time",
            "iteration_networking_time",
            "gpu_workers",
            "loading_time",
            "colocated_model_name",
            "colocated_gpu_workers",
        ],
        &[&["m", "1", "2", "4", "3", "", ""]],
    ))
    .ok()
    .unwrap();
    assert_eq!(profile.corun.solo[0].times, (ticks(1), ticks(2)));
    let volumes = load_communication_volume::<Ticks>(&table(
        &["model", "number of workers", "sum of max tx+rx (mb/s)"],
        &[&["m", "4", "12"]],
    ))
    .ok()
    .unwrap();
    let jobs = load_jobs(
        &table(
            &[
                "job_id",
                "model",
                "arrival_time",
                "num_iteration",
                "gpu_workers",
                "gpu_per_worker",
                "cpu_per_gpu_worker",
                "skewness",
                "tensorsizes",
                "cpu_per_ps_worker",
            ],
            &[&["0", "m", "5", "6", "2", "2", "1", "7", "8", "9"]],
        ),
        &profile,
        &volumes,
    )
    .ok()
    .unwrap();
    assert_eq!(jobs[0].profiled_network, ticks(12));
    assert_eq!(jobs[0].loading_time, ticks(3));
    assert_eq!(jobs[0].skewness, ticks(7));
    assert_eq!(jobs[0].tensorsizes, ticks(8));
    assert_eq!(jobs[0].cpu_per_ps, 9);
}

#[test]
fn rows_that_replace_others_are_found() {
    let profile = times();
    assert_eq!(replaced_solo(&profile.corun.solo, 0), None);
    assert_eq!(replaced_solo(&profile.corun.solo, 1), Some(0));
    assert_eq!(replaced_solo(&profile.corun.solo, 2), None);
    assert_eq!(replaced_single(&profile.solo_loading, 1), Some(0));
    assert_eq!(replaced_single(&profile.solo_loading, 2), None);
    assert_eq!(replaced_pair(&profile.corun.colocate, 0), None);
    let text = format!("{}resnet,16,8,2,36,vgg,1\nresnet,17,9,2,37,vgg,1\n", TIMES);
    let profile = load_iteration_time_csv::<Ticks>(text.as_bytes()).ok().unwrap();
    assert_eq!(replaced_pair(&profile.corun.colocate, 2), Some(1));
    assert_eq!(replaced_pair(&profile.corun.colocate_loading, 1), Some(0));
}
