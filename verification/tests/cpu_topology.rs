use aulon::topology::{
    detect, detect_in, parse_cpu_dir_name, parse_cpu_list, read_l3_shared_list, CacheEntry,
    CpuEntry,
};
use aulon::Topology;

#[test]
fn parse_cpu_list_simple() {
    assert_eq!(parse_cpu_list("0"), vec![0]);
    assert_eq!(parse_cpu_list("0-3"), vec![0, 1, 2, 3]);
    assert_eq!(parse_cpu_list("0-1,4,6-7"), vec![0, 1, 4, 6, 7]);
    assert_eq!(parse_cpu_list(""), Vec::<u32>::new());
}

#[test]
fn parse_cpu_dir_recognises_only_cpu_n() {
    assert_eq!(parse_cpu_dir_name("cpu0"), Some(0));
    assert_eq!(parse_cpu_dir_name("cpu42"), Some(42));
    assert_eq!(parse_cpu_dir_name("cpufreq"), None);
    assert_eq!(parse_cpu_dir_name("cpuidle"), None);
    assert_eq!(parse_cpu_dir_name("cpu"), None);
    assert_eq!(parse_cpu_dir_name("not_a_cpu"), None);
}

#[test]
fn detect_falls_back_to_single_when_root_missing() {
    assert!(detect_in(None).is_none());
    let t = detect(None, Some(3));
    assert_eq!(t.shard_count(), 1);
    assert_eq!(t.shards[0].cpus, vec![0, 1, 2]);
}

#[test]
fn single_topology_has_one_shard_with_some_cpus() {
    let t = Topology::single(Some(4));
    assert_eq!(t.shards.len(), 1);
    assert!(!t.shards[0].cpus.is_empty());
    assert_eq!(t.shards[0].cpus, vec![0, 1, 2, 3]);
    let t = Topology::single(None);
    assert_eq!(t.shards.len(), 1);
    assert_eq!(t.shards[0].cpus, vec![0]);
}

fn index(name: &str, level: &str, shared: Option<&str>) -> Option<CacheEntry> {
    Some(CacheEntry {
        name: Some(name.to_string()),
        level: Some(level.to_string()),
        shared_cpu_list: shared.map(|s| s.to_string()),
    })
}

fn cpu(name: &str, cache: Vec<Option<CacheEntry>>) -> Option<CpuEntry> {
    Some(CpuEntry {
        name: Some(name.to_string()),
        cache: Some(cache),
    })
}

fn other(name: &str) -> Option<CpuEntry> {
    Some(CpuEntry {
        name: Some(name.to_string()),
        cache: None,
    })
}

#[test]
fn detect_in_groups_two_l3_domains() {
    // 4 CPUs, 2 L3 domains (0-1, 2-3), with L1/L2 noise.
    let mut entries = Vec::new();
    for id in 0..4u32 {
        let l3_share = if id < 2 { "0-1" } else { "2-3" };
        entries.push(cpu(
            &format!("cpu{id}"),
            vec![
                index("index0", "1", None),
                index("index1", "2", None),
                index("index3", "3", Some(l3_share)),
            ],
        ));
    }
    // Some non-cpu noise to confirm the filter holds.
    entries.push(other("cpufreq"));
    entries.push(other("cpuidle"));

    let t = detect_in(Some(&entries)).expect("fixture is well-formed");
    assert_eq!(t.shard_count(), 2);
    assert_eq!(t.shards[0].cpus, vec![0, 1]);
    assert_eq!(t.shards[1].cpus, vec![2, 3]);
    assert_eq!(t.shards[0].shard_id, 0);
    assert_eq!(t.shards[1].shard_id, 1);
}

#[test]
fn shards_come_in_order_of_their_smallest_cpu() {
    let entries = vec![
        cpu("cpu7", vec![index("index3", "3\n", Some("6-7\n"))]),
        cpu("cpu1", vec![index("index3", " 3 ", Some(" 0-1 "))]),
        cpu("cpu6", vec![index("index3", "3", Some("7,6"))]),
        cpu("cpu0", vec![index("index3", "3", Some("0-1"))]),
        cpu("cpu00", vec![index("index3", "3", Some("0-1"))]),
    ];
    let t = detect_in(Some(&entries)).unwrap();
    assert_eq!(t.shard_count(), 2);
    assert_eq!(t.shards[0].cpus, vec![0, 1]);
    assert_eq!(t.shards[1].cpus, vec![6, 7]);
}

#[test]
fn an_unreadable_directory_entry_gives_up() {
    let good = cpu("cpu0", vec![index("index3", "3", Some("0"))]);
    assert!(detect_in(Some(&[good, None])).is_none());
    let good = cpu("cpu0", vec![index("index3", "3", Some("0"))]);
    let nameless = Some(CpuEntry {
        name: None,
        cache: None,
    });
    assert!(detect_in(Some(&[good, nameless])).is_none());
}

#[test]
fn no_l3_information_gives_up() {
    assert!(detect_in(Some(&[])).is_none());
    let l2_only = cpu("cpu0", vec![index("index2", "2", Some("0"))]);
    assert!(detect_in(Some(&[l2_only, other("cpu1")])).is_none());
    let empty_list = cpu("cpu0", vec![index("index3", "3", Some(""))]);
    assert!(detect_in(Some(&[empty_list])).is_none());
}

#[test]
fn a_cpu_without_l3_is_passed_over() {
    let entries = vec![
        cpu("cpu0", vec![index("index3", "3", Some("0-1"))]),
        cpu("cpu1", vec![]),
    ];
    let t = detect_in(Some(&entries)).unwrap();
    assert_eq!(t.shards[0].cpus, vec![0]);
}

#[test]
fn the_first_l3_entry_counts() {
    let entries = vec![
        index("uevent", "3", Some("9")),
        index("index3", "3", Some("0-1")),
        index("index4", "3", Some("2-3")),
    ];
    assert_eq!(read_l3_shared_list(&entries), Some(vec![0, 1]));
    assert_eq!(
        read_l3_shared_list(&[index("index3", "3", None), index("index4", "3", Some("2"))]),
        None
    );
    assert_eq!(
        read_l3_shared_list(&[None, index("index3", "3", Some("2"))]),
        None
    );
    let no_level = Some(CacheEntry {
        name: Some("index0".to_string()),
        level: None,
        shared_cpu_list: None,
    });
    assert_eq!(
        read_l3_shared_list(&[no_level, index("index3", "3", Some("2"))]),
        Some(vec![2])
    );
}

#[test]
fn malformed_parts_of_a_list_are_passed_over() {
    assert_eq!(parse_cpu_list("x,1,2-y,-3,4-,5-5,7-6"), vec![1, 5]);
    assert_eq!(parse_cpu_list(" 1 , +2 ,\t3-4\u{a0}"), vec![1, 2, 3, 4]);
    assert_eq!(parse_cpu_list("1 - 2,4294967296,3"), vec![3]);
    assert_eq!(parse_cpu_list("1-2-3"), Vec::<u32>::new());
    assert_eq!(
        parse_cpu_list("4294967294-4294967295"),
        vec![4294967294, 4294967295]
    );
}

#[test]
fn cpu_dir_names_take_digits_only() {
    assert_eq!(parse_cpu_dir_name("cpu+1"), None);
    assert_eq!(parse_cpu_dir_name("cpu007"), Some(7));
    assert_eq!(parse_cpu_dir_name("cpu4294967295"), Some(u32::MAX));
    assert_eq!(parse_cpu_dir_name("cpu4294967296"), None);
    assert_eq!(parse_cpu_dir_name("CPU1"), None);
}
