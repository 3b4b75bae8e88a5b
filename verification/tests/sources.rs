use kagari::collect::{collect, Counters, Sources};
use kagari::json::Json;
use kagari::labels::LabelMap;
use kagari::names::{owner_of, Owner};
use kagari::procfs::{check_counters, cpu_samples, kb_word, memory_samples};
use kagari::sample::{Quantity, Sample};
use kagari::sensors::{gpu_samples, gpu_samples_of, sensor_samples, sensor_samples_of, short_chip};
use kagari::text::chars_of;
use kagari::throughput::{
    disk_samples, network_samples, read_disks, read_interfaces, BlockDevice, Reads,
};
use kagari::unit::Unit;

const SENSORS: &str = r#"{
  "coretemp-isa-0000": {
    "Adapter": "ISA adapter",
    "Core 0": { "temp2_input": 45.5, "temp2_max": 100.0 },
    "Package id 0": { "temp1_input": 47, "temp1_crit_alarm": 0.0 }
  },
  "thinkpad-isa-0000": {
    "fan1": { "fan1_input": 2200 },
    "odd": { "temp9_input": "hot", "fans_input": 3, "in0_input": 1.2 }
  },
  "broken": 7
}"#;

fn told(samples: &[Sample<Quantity>]) -> Vec<String> {
    samples
        .iter()
        .map(|s| {
            let value = match &s.value {
                Quantity::Double(bits) => format!("{}", f64::from_bits(*bits)),
                Quantity::Decimal(t) => format!("'{}'", t),
                Quantity::Busy { idle, total } => format!("{}/{}", idle, total),
                Quantity::Used { size, available } => format!("{:?} of {}", available, size),
                Quantity::Rate { bytes, millis } => format!("{} in {} ms", bytes, millis),
            };
            format!("{} [{:?}] {}", s.label, s.unit, value)
        })
        .collect()
}

fn disk(name: &str, backed: bool, partition: bool, stat: &str) -> BlockDevice {
    BlockDevice { name: name.to_string(), backed, partition, stat: stat.to_string() }
}

#[test]
fn chips_lose_their_adapter() {
    assert_eq!(short_chip("coretemp-isa-0000"), "coretemp");
    assert_eq!(short_chip("acpitz"), "acpitz");
    assert_eq!(short_chip("-x"), "");
    assert_eq!(short_chip(""), "");
}

#[test]
fn every_temperature_and_fan_input_is_sampled() {
    let samples = sensor_samples_of(&SENSORS.as_bytes().to_vec());
    assert_eq!(
        told(&samples),
        vec![
            "coretemp Core 0 [Celsius] 45.5",
            "coretemp Package id 0 [Celsius] 47",
            "thinkpad fan1 [Rpm] 2200",
            "thinkpad odd [Rpm] 3",
        ]
    );
}

#[test]
fn sensor_output_that_is_no_document_gives_nothing() {
    assert!(sensor_samples_of(&b"No sensors found!".to_vec()).is_empty());
    assert!(sensor_samples_of(&b"[1, 2]".to_vec()).is_empty());
    assert!(sensor_samples_of(&Vec::new()).is_empty());
}

#[test]
fn sensors_are_read_out_of_a_document() {
    let number = |bits: u64| Json::Number { double: Some(bits), integer: None };
    let values = Json::Object(vec![
        ("temp1_input".to_string(), number(11)),
        ("temp1_max".to_string(), number(12)),
        ("fan2_input".to_string(), number(13)),
        ("temp2_input".to_string(), Json::Null),
    ]);
    let chip = Json::Object(vec![("f".to_string(), values), ("g".to_string(), Json::Bool(true))]);
    let doc = Json::Object(vec![("a-b".to_string(), chip), ("c".to_string(), Json::List(vec![]))]);
    let samples = sensor_samples(&doc);
    assert_eq!(samples.len(), 2);
    assert_eq!((samples[0].label.as_str(), samples[0].unit), ("a f temp1_input", Unit::Celsius));
    assert!(matches!(samples[0].value, Quantity::Double(11)));
    assert_eq!((samples[1].label.as_str(), samples[1].unit), ("a f fan2_input", Unit::Rpm));
    assert!(matches!(samples[1].value, Quantity::Double(13)));
    assert!(sensor_samples(&Json::Null).is_empty());
}

fn sensor_labels(text: &str) -> Vec<String> {
    sensor_samples_of(&text.as_bytes().to_vec()).into_iter().map(|s| s.label).collect()
}

#[test]
fn inputs_that_would_share_a_label_are_told_apart() {
    let two_chips = r#"{
        "nvme-pci-0100": { "Composite": { "temp1_input": 40 }, "Sensor 1": { "temp2_input": 41 } },
        "nvme-pci-0200": { "Composite": { "temp1_input": 50 } }
    }"#;
    assert_eq!(
        sensor_labels(two_chips),
        vec!["nvme-pci-0100 Composite", "nvme Sensor 1", "nvme-pci-0200 Composite"]
    );
    let two_keys = r#"{ "x-1": { "f": { "fan1_input": 1, "temp1_input": 2 }, "g": { "temp2_input": 3 } } }"#;
    assert_eq!(sensor_labels(two_keys), vec!["x f fan1_input", "x f temp1_input", "x g"]);
    let both = r#"{
        "x-1": { "f": { "fan1_input": 1, "temp1_input": 2 } },
        "x-2": { "f": { "fan1_input": 1, "temp1_input": 2 } }
    }"#;
    assert_eq!(
        sensor_labels(both),
        vec!["x-1 f fan1_input", "x-1 f temp1_input", "x-2 f fan1_input", "x-2 f temp1_input"]
    );
    // Spaces make every other label of the last two the same.
    let spaces = r#"{ "x": { "f temp1_input": { "temp1_input": 1 } }, "x f": { "temp1_input": { "temp1_input": 2 } } }"#;
    assert_eq!(
        sensor_labels(spaces),
        vec!["#0 x f temp1_input temp1_input", "#1 x f temp1_input temp1_input"]
    );
}

#[test]
fn an_input_that_shares_no_short_label_goes_by_it() {
    // The short label of the second is a longer label that the first does not take.
    let unshared = r#"{"a-b":{"c":{"temp1_input":1.0}},"a-x":{"c temp1_input":{"temp2_input":2.0}}}"#;
    assert_eq!(sensor_labels(unshared), vec!["a c", "a c temp1_input"]);
    // Nor does it give way to inputs that share theirs: they avoid it.
    let beside_shared = r#"{
        "a-b": { "c": { "temp1_input": 1, "fan1_input": 2 } },
        "a-x": { "c temp1_input": { "temp2_input": 3 } }
    }"#;
    assert_eq!(
        sensor_labels(beside_shared),
        vec!["a c fan1_input", "a-b c temp1_input", "a c temp1_input"]
    );
}

#[test]
fn numbered_labels_avoid_short_ones() {
    let doc = r###"{
        "##7": { "g": { "temp1_input": 0 } },
        "x": { "f temp1_input": { "temp1_input": 1 } },
        "x f": { "temp1_input": { "temp1_input": 2 } }
    }"###;
    assert_eq!(
        sensor_labels(doc),
        vec!["##7 g", "###1 x f temp1_input temp1_input", "###2 x f temp1_input temp1_input"]
    );
    // With one sign the second label would be the first.
    let taken = r###"{
        "#1 x f temp1_input": { "temp1_input": { "temp1_input": 0 } },
        "x": { "f temp1_input": { "temp1_input": 1 } },
        "x f": { "temp1_input": { "temp1_input": 2 } }
    }"###;
    assert_eq!(
        sensor_labels(taken),
        vec![
            "#1 x f temp1_input temp1_input",
            "##1 x f temp1_input temp1_input",
            "##2 x f temp1_input temp1_input"
        ]
    );
}

#[test]
fn labels_stay_from_poll_to_poll() {
    let before = r#"{ "k-1": { "f": { "temp1_input": 1 } }, "nvme-1": { "C": { "temp1_input": 1 } } }"#;
    let values = r#"{ "k-1": { "f": { "temp1_input": 9 } }, "nvme-1": { "C": { "temp1_input": 8 } } }"#;
    let more = r#"{
        "k-1": { "f": { "temp1_input": 1 } },
        "nvme-1": { "C": { "temp1_input": 1 } },
        "nvme-2": { "C": { "temp1_input": 1 } }
    }"#;
    assert_eq!(sensor_labels(before), vec!["k f", "nvme C"]);
    assert_eq!(sensor_labels(values), sensor_labels(before));
    // A drive that appears changes the labels that it shares, and no others.
    assert_eq!(sensor_labels(more), vec!["k f", "nvme-1 C", "nvme-2 C"]);
}

#[test]
fn sensors_do_not_take_the_labels_of_other_sources() {
    let doc = r#"{ "nvidia-pci-01": { "GPU": { "temp1_input": 1 } }, "CPU-isa": { "core 0": { "temp1_input": 1 } } }"#;
    assert_eq!(sensor_labels(doc), vec!["CPU-isa core 0", "nvidia-pci-01 GPU"]);
    for (label, owner) in [
        ("nvidia GPU", Owner::Gpu),
        ("GPU fan", Owner::Gpu),
        ("CPU total", Owner::Cpu),
        ("CPU core 11", Owner::Cpu),
        ("Memory", Owner::Memory),
        ("Network RX", Owner::Network),
        ("Network TX", Owner::Network),
        ("Disk read", Owner::Disks),
        ("Disk write", Owner::Disks),
        ("coretemp Core 0", Owner::Sensors),
        ("", Owner::Sensors),
    ] {
        assert_eq!(owner_of(label), owner);
    }
}

#[test]
fn the_first_line_of_a_gpu_query_counts() {
    assert_eq!(
        told(&gpu_samples("54, [N/A]\n60, 30\n")),
        vec!["nvidia GPU [Celsius] '54'", "GPU fan [Percent] '[N/A]'"]
    );
    assert_eq!(told(&gpu_samples("54")), vec!["nvidia GPU [Celsius] '54'"]);
    assert_eq!(told(&gpu_samples("\n54, 3")), vec!["nvidia GPU [Celsius] ''"]);
    assert!(gpu_samples("").is_empty());
}

#[test]
fn gpu_output_that_is_no_text_gives_nothing() {
    assert_eq!(gpu_samples_of(&b" 61 ,  35 , 9".to_vec()).len(), 2);
    assert_eq!(told(&gpu_samples_of(&b" 61 ,  35 , 9".to_vec()))[1], "GPU fan [Percent] '35'");
    assert!(gpu_samples_of(&vec![0x35, 0xff]).is_empty());
}

#[test]
fn cpu_load_is_held_against_the_last_poll() {
    let mut before = LabelMap::new();
    let first = "cpu  10 0 10 70 10 0 0\ncpu0 5 0 5 35 5\nintr 1 2 3 4 5 6\ncpu1 1 1 1 1 1\n";
    assert!(check_counters(first));
    assert_eq!(
        told(&cpu_samples(first, &mut before)),
        vec!["CPU total [Percent] 0/0", "CPU core 0 [Percent] 0/0"]
    );
    assert_eq!(before.get("cpu"), Some(&(80, 100)));
    assert_eq!(before.get("cpu1"), None);
    let second = "cpu  40 0 20 120 20\ncpu0 5 0 5 35 5\ncpu7 1 2 3 4 5\n";
    assert_eq!(
        told(&cpu_samples(second, &mut before)),
        vec!["CPU total [Percent] 60/100", "CPU core 0 [Percent] 0/0", "CPU core 7 [Percent] 0/0"]
    );
    assert_eq!(before.get("cpu"), Some(&(140, 200)));
}

#[test]
fn idle_ticks_that_go_back_count_as_none() {
    let mut before = LabelMap::new();
    before.insert("cpu", (50u64, 60u64));
    assert_eq!(told(&cpu_samples("cpu 90 0 0 10 0", &mut before)), vec!["CPU total [Percent] 0/40"]);
}

#[test]
fn cpu_lines_without_all_counters_are_passed_over() {
    let mut before = LabelMap::new();
    let text = "cpu 1 2 3 4\ncpu0 1 x 2 3 4 5\ncpufreq 1 2 3 4 5\n cpu2 1 2 3 4 5\n";
    assert_eq!(
        told(&cpu_samples(text, &mut before)),
        vec!["CPU core 0 [Percent] 0/0", "CPU core freq [Percent] 0/0"]
    );
    assert_eq!(before.get("cpu0"), Some(&(9, 15)));
    assert!(cpu_samples("", &mut before).is_empty());
}

#[test]
fn counters_must_add_up_to_64_bits() {
    assert!(check_counters("cpu 18446744073709551615 0 0 0 0"));
    assert!(!check_counters("cpu 18446744073709551615 0 0 0 1"));
    assert!(check_counters("cpu 18446744073709551615 1 1 1"));
    assert!(check_counters("intr 0\ncpu 18446744073709551615 0 0 0 1"));
}

#[test]
fn memory_is_read_from_its_two_fields() {
    let text = "MemTotal:       16000 kB\nMemFree:  1 kB\nMemAvailable:   4000 kB\n";
    assert_eq!(told(&memory_samples(text)), vec!["Memory [Percent] Some(\"4000\") of 16000"]);
    assert_eq!(told(&memory_samples("MemTotal: 5\n")), vec!["Memory [Percent] None of 5"]);
    assert_eq!(
        told(&memory_samples("MemTotal: 5\nMemTotal: 6 kB\nMemAvailable:\n")),
        vec!["Memory [Percent] None of 6"]
    );
    assert!(memory_samples("MemTotal: 5\nMemTotal:\n").is_empty());
    assert!(memory_samples("MemAvailable: 5\n").is_empty());
    assert_eq!(kb_word(&chars_of("   42 kB")), Some("42".to_string()));
    assert_eq!(kb_word(&chars_of("  ")), None);
}

const NET: &str = "Inter-|   Receive                    |  Transmit
 face |bytes    packets errs drop fifo frame compressed multicast|bytes    packets
    lo: 9000 1 0 0 0 0 0 0 9000 1 0 0 0 0 0 0
  eth0: 1000 1 0 0 0 0 0 0 200 1 0 0 0 0 0 0
 wlan0:50 1 0 0 0 0 0 0 7 1 0 0 0 0 0 0
  bad0: 5 1
";

fn net(rows: &[(&str, u64, u64)]) -> String {
    rows.iter().map(|(n, i, o)| format!("{}: {} 0 0 0 0 0 0 0 {}\n", n, i, o)).collect()
}

#[test]
fn network_bytes_leave_out_the_loopback() {
    let counts = read_interfaces(NET);
    assert_eq!(
        counts.entries(),
        &vec![("eth0".to_string(), (1000, 200)), ("wlan0".to_string(), (50, 7))]
    );
    let counts = read_interfaces("lo: 1 0 0 0 0 0 0 0 2\nlong: 3 0 0 0 0 0 0 0 4");
    assert_eq!(counts.entries(), &vec![("long".to_string(), (3, 4))]);
    assert_eq!(read_interfaces("").len(), 0);
}

#[test]
fn network_throughput_is_growth_over_the_time_since_the_last_read() {
    let mut before = None;
    assert_eq!(
        told(&network_samples(NET, 5000, &mut before)),
        vec!["Network RX [NetBytes] 0 in 0 ms", "Network TX [NetBytes] 0 in 0 ms"]
    );
    let later = net(&[("eth0", 1600, 180), ("wlan0", 51, 9), ("new0", 77, 77), ("lo", 99999, 99999)]);
    assert_eq!(
        told(&network_samples(&later, 7250, &mut before)),
        vec!["Network RX [NetBytes] 601 in 2250 ms", "Network TX [NetBytes] 2 in 2250 ms"]
    );
    assert_eq!(before.as_ref().unwrap().at, 7250);
    assert_eq!(before.as_ref().unwrap().counts.get("new0"), Some(&(77, 77)));
    // A clock that went back tells no time.
    assert_eq!(told(&network_samples(&later, 7000, &mut before))[0], "Network RX [NetBytes] 0 in 0 ms");
}

#[test]
fn an_interface_that_goes_takes_nothing_from_the_others() {
    let mut before = None;
    network_samples(&net(&[("a", 10, 10), ("b", 1000, 1000)]), 0, &mut before);
    assert_eq!(
        told(&network_samples(&net(&[("a", 12, 12)]), 2000, &mut before)),
        vec!["Network RX [NetBytes] 2 in 2000 ms", "Network TX [NetBytes] 2 in 2000 ms"]
    );
}

#[test]
fn growth_stops_at_64_bits() {
    let mut before = None;
    network_samples(&net(&[("a", 0, 0), ("b", 0, 0)]), 0, &mut before);
    let most = net(&[("a", u64::MAX, 1), ("b", 5, 2)]);
    assert_eq!(
        told(&network_samples(&most, 1, &mut before)),
        vec![
            format!("Network RX [NetBytes] {} in 1 ms", u64::MAX),
            "Network TX [NetBytes] 3 in 1 ms".to_string()
        ]
    );
}

#[test]
fn disk_bytes_are_those_of_physical_disks() {
    let devices = vec![
        disk("sda", true, false, "  10 0 4 0 20 0 6 0 0 0 0\n"),
        disk("sda1", true, true, "10 0 100 0 20 0 100"),
        disk("loop0", false, false, "10 0 100 0 20 0 100"),
        disk("sdb", true, false, "1 2 3"),
        disk("nvme0n1", true, false, "1 0 1 0 1 0 1"),
    ];
    let counts = read_disks(&devices);
    assert_eq!(
        counts.entries(),
        &vec![("nvme0n1".to_string(), (1, 1)), ("sda".to_string(), (4, 6))]
    );
    let mut old = LabelMap::new();
    old.insert("sda", (1u64, 2u64));
    old.insert("nvme0n1", (0, 5));
    old.insert("gone", (0, 0));
    let mut before = Some(Reads { at: 100, counts: old });
    assert_eq!(
        told(&disk_samples(&devices, 2100, &mut before)),
        vec!["Disk read [DiskBytes] 2048 in 2000 ms", "Disk write [DiskBytes] 2048 in 2000 ms"]
    );
    assert_eq!(before.as_ref().unwrap().counts.get("sda"), Some(&(4, 6)));
    let mut before = None;
    disk_samples(&vec![disk("d", true, false, "0 0 0 0 0 0 0")], 0, &mut before);
    let much = vec![disk("d", true, false, "0 0 18446744073709551615 0 0 0 3")];
    assert_eq!(
        told(&disk_samples(&much, 1, &mut before)),
        vec![
            format!("Disk read [DiskBytes] {} in 1 ms", u64::MAX),
            "Disk write [DiskBytes] 1536 in 1 ms".to_string()
        ]
    );
}

fn no_sources() -> Sources {
    Sources { sensors: None, gpu: None, stat: None, meminfo: None, net: None, disks: None }
}

#[test]
fn a_poll_goes_through_the_sources_in_order() {
    let mut counters = Counters::new();
    let sources = Sources {
        sensors: Some(b"{\"a-1\": {\"t\": {\"temp1_input\": 1}}}".to_vec()),
        gpu: Some(b"50, 20".to_vec()),
        stat: Some("cpu 1 2 3 4 5".to_string()),
        meminfo: Some("MemTotal: 8\nMemAvailable: 2\n".to_string()),
        net: Some(NET.to_string()),
        disks: Some(vec![disk("sda", true, false, "0 0 2 0 0 0 2")]),
    };
    let labels: Vec<String> = collect(&mut counters, &sources, 40).into_iter().map(|s| s.label).collect();
    assert_eq!(
        labels,
        vec![
            "a t", "nvidia GPU", "GPU fan", "CPU total", "Memory", "Network RX", "Network TX",
            "Disk read", "Disk write",
        ]
    );
    assert_eq!(counters.cpu.get("cpu"), Some(&(9, 15)));
    let (net, disk) = (counters.net.unwrap(), counters.disk.unwrap());
    assert_eq!((net.at, net.counts.get("eth0")), (40, Some(&(1000, 200))));
    assert_eq!((disk.at, disk.counts.get("sda")), (40, Some(&(2, 2))));
}

#[test]
fn failing_sources_are_skipped() {
    let mut counters = Counters::new();
    counters.net = Some(Reads { at: 5, counts: read_interfaces(NET) });
    counters.cpu.insert("cpu", (3, 4));
    assert!(collect(&mut counters, &no_sources(), 10).is_empty());
    assert!(counters.disk.is_none());
    assert_eq!(counters.net.as_ref().unwrap().at, 5);
    assert_eq!(counters.cpu.get("cpu"), Some(&(3, 4)));
    let mut some = no_sources();
    some.sensors = Some(b"garbage".to_vec());
    some.gpu = Some(vec![0xff]);
    some.meminfo = Some("MemTotal: 8\n".to_string());
    assert_eq!(told(&collect(&mut counters, &some, 20)), vec!["Memory [Percent] None of 8"]);
}

#[test]
fn a_poll_without_a_source_does_not_inflate_the_next_rate() {
    let mut counters = Counters::new();
    let mut sources = no_sources();
    sources.net = Some(net(&[("a", 0, 0)]));
    collect(&mut counters, &sources, 0);
    collect(&mut counters, &no_sources(), 2000);
    sources.net = Some(net(&[("a", 400, 800)]));
    assert_eq!(
        told(&collect(&mut counters, &sources, 4000)),
        vec!["Network RX [NetBytes] 400 in 4000 ms", "Network TX [NetBytes] 800 in 4000 ms"]
    );
}

#[test]
fn a_poll_finds_each_series_once() {
    let mut sources = no_sources();
    sources.sensors = Some(
        br#"{ "nvidia-1": { "GPU": { "temp1_input": 1 } }, "nvme-1": { "C": { "temp1_input": 1 } },
            "nvme-2": { "C": { "temp1_input": 1, "fan1_input": 2 } } }"#
            .to_vec(),
    );
    sources.gpu = Some(b"50, 20".to_vec());
    sources.stat = Some("cpu 1 1 1 1 1\ncpu0 1 1 1 1 1\ncpu1 1 1 1 1 1\n".to_string());
    sources.meminfo = Some("MemTotal: 8\n".to_string());
    sources.net = Some(NET.to_string());
    sources.disks = Some(vec![]);
    let mut labels: Vec<String> =
        collect(&mut Counters::new(), &sources, 0).into_iter().map(|s| s.label).collect();
    assert_eq!(labels.len(), 14);
    labels.sort();
    labels.dedup();
    assert_eq!(labels.len(), 14);
}
