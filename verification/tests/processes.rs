use raven_power::process::{
    active_processes, busiest, group_processes, read_process, Process, ProcessFiles,
};
use raven_power::quantity::Quantity;

fn q(x: f64) -> Quantity {
    Quantity::from_bits(x.to_bits())
}

fn process(pid: u32, name: &str, user_ticks: u64, system_ticks: u64) -> Process {
    Process {
        pid,
        name: name.into(),
        user_ticks,
        system_ticks,
        resident_kb: None,
    }
}

const STAT: &str = "812 (shell) S 1 812 812 0 -1 4194560 1 2 3 4 250 50 7 8 20 0 1 0 100\n";

#[test]
fn processes_are_read_from_their_files() {
    let p = read_process(&ProcessFiles {
        entry: Some("812".into()),
        comm: Some("shell\n".into()),
        stat: Some(STAT.into()),
        status: Some("Name:\tshell\nVmPeak:\t  900 kB\nVmRSS:\t  20480 kB\nThreads:\t1\n".into()),
    })
    .unwrap();
    assert_eq!(p.pid, 812);
    assert_eq!(p.name, "shell");
    assert_eq!((p.user_ticks, p.system_ticks), (250, 50));
    assert_eq!(p.resident_kb.as_deref(), Some("20480"));
}

#[test]
fn what_is_no_process_is_passed_over() {
    let read = |entry: Option<&str>, comm: Option<&str>| {
        read_process(&ProcessFiles {
            entry: entry.map(Into::into),
            comm: comm.map(Into::into),
            stat: None,
            status: None,
        })
    };
    assert!(read(Some("self"), Some("x")).is_none());
    assert!(read(Some("4294967296"), Some("x")).is_none());
    assert!(read(None, Some("x")).is_none());
    assert!(read(Some("1"), None).is_none());
    let bare = read(Some("1"), Some("init")).unwrap();
    assert_eq!((bare.user_ticks, bare.system_ticks), (0, 0));
    assert_eq!(bare.resident_kb, None);
}

#[test]
fn short_or_odd_files_count_as_zero() {
    let p = read_process(&ProcessFiles {
        entry: Some("7".into()),
        comm: Some("x".into()),
        stat: Some("1 2 3 4 5 6 7 8 9 10 11 12 13 many 15".into()),
        status: Some("VmRSS:\n".into()),
    })
    .unwrap();
    assert_eq!((p.user_ticks, p.system_ticks), (0, 15));
    assert_eq!(p.resident_kb, None);
}

#[test]
fn processes_are_grouped_by_name() {
    let list = vec![
        process(1, "web", 10, 5),
        process(2, "edit", 1, 1),
        process(3, "web", 20, 0),
    ];
    let kb = vec![q(2048.0), q(512.0), q(1024.0)];
    let groups = group_processes(&list, &kb);
    assert_eq!(groups.len(), 2);
    assert_eq!(groups[0].name, "web");
    assert_eq!(groups[0].pids, vec![1, 3]);
    assert_eq!(groups[0].cpu_ticks, 35);
    assert_eq!(groups[0].memory_mb, q(3.0));
    assert_eq!(groups[1].memory_mb, q(0.5));
}

#[test]
fn the_busiest_large_groups_are_listed() {
    let mut list = Vec::new();
    let mut kb = Vec::new();
    for i in 0..20u32 {
        list.push(process(i, &format!("app{i}"), i as u64 % 5, 0));
        kb.push(q(20_480.0));
    }
    // Ten megabytes exactly are too few.
    list.push(process(99, "small", 1000, 0));
    kb.push(q(10_240.0));
    let shown = active_processes(&list, &kb);
    assert_eq!(shown.len(), 12);
    let ticks: Vec<u64> = shown.iter().map(|g| g.cpu_ticks).collect();
    assert_eq!(ticks, vec![4, 4, 4, 4, 3, 3, 3, 3, 2, 2, 2, 2]);
    assert_eq!(shown[0].name, "app4");
    assert_eq!(shown[1].name, "app9");
    assert!(shown.iter().all(|g| g.name != "small"));
    assert_eq!(shown[0].memory_mb, q(20.0));
    assert!(busiest(&Vec::new()).is_empty());
}
