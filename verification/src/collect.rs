//! One poll: a sample of every metric that is available.
use vstd::prelude::*;
use vstd::utf8::{decode_utf8, valid_utf8};

use crate::json::document_of_bytes;
use crate::labels::LabelMap;
use crate::names::{
    all_owned, labels_differ, lemma_fixed_labels, lemma_labels_of_both_differ, none_owned, Owner,
};
use crate::procfs::{
    counters_fit, cpu_after, cpu_lines, cpu_readings, cpu_samples, lemma_cpu_labels_differ,
    memory_readings, memory_samples, names_differ,
};
use crate::sample::{readings, Amount, Quantity, Reading, Sample};
use crate::sensors::{
    gpu_readings, gpu_samples_of, lemma_sensor_labels_differ, sensor_readings, sensor_samples_of,
};
use crate::text::lines;
use crate::throughput::{
    disk_readings, disk_samples, disks, interfaces, lemma_disk_throughput,
    lemma_network_throughput, moved, network_readings, network_samples, reads_view, reads_wf,
    BlockDevice, Reads, ReadsView,
};
use crate::unit::Unit;

verus! {

/// The counters that were read last, against which the next ones are held.
pub struct Counters {
    /// Idle and total ticks, by CPU.
    pub cpu: LabelMap<(u64, u64)>,
    /// Bytes received and sent, by interface.
    pub net: Option<Reads>,
    /// Sectors read and written, by disk.
    pub disk: Option<Reads>,
}

/// What `Counters` remember.
pub struct CountersView {
    /// Idle and total ticks, by CPU.
    pub cpu: Map<Seq<char>, (u64, u64)>,
    /// Bytes received and sent, by interface.
    pub net: Option<ReadsView>,
    /// Sectors read and written, by disk.
    pub disk: Option<ReadsView>,
}

impl View for Counters {
    type V = CountersView;

    open spec fn view(&self) -> CountersView {
        CountersView {
            cpu: self.cpu@,
            net: reads_view(self.net),
            disk: reads_view(self.disk),
        }
    }
}

impl Counters {
    /// The maps are well-formed.
    pub open spec fn wf(&self) -> bool {
        &&& self.cpu.wf()
        &&& reads_wf(self.net)
        &&& reads_wf(self.disk)
    }

    /// No counters have been read yet.
    pub fn new() -> (r: Counters)
        ensures
            r.wf(),
            r@ == (CountersView { cpu: Map::empty(), net: None, disk: None }),
    {
        Counters { cpu: LabelMap::new(), net: None, disk: None }
    }
}

/// What the sources put out. A source that failed put out nothing.
pub struct Sources {
    /// The output of `sensors -j`.
    pub sensors: Option<Vec<u8>>,
    /// The output of the GPU query.
    pub gpu: Option<Vec<u8>>,
    /// The contents of `/proc/stat`.
    pub stat: Option<String>,
    /// The contents of `/proc/meminfo`.
    pub meminfo: Option<String>,
    /// The contents of `/proc/net/dev`.
    pub net: Option<String>,
    /// The block devices.
    pub disks: Option<Vec<BlockDevice>>,
}

impl Sources {
    /// What the sensors give.
    pub open spec fn sensor_part(self) -> Seq<Reading> {
        match self.sensors {
            Some(bytes) => match document_of_bytes(bytes@) {
                Some(doc) => sensor_readings(doc),
                None => seq![],
            },
            None => seq![],
        }
    }

    /// What the GPU gives.
    pub open spec fn gpu_part(self) -> Seq<Reading> {
        match self.gpu {
            Some(bytes) => if valid_utf8(bytes@) {
                gpu_readings(decode_utf8(bytes@))
            } else {
                seq![]
            },
            None => seq![],
        }
    }

    /// What the CPUs give.
    pub open spec fn cpu_part(self, before: CountersView) -> Seq<Reading> {
        match self.stat {
            Some(text) => cpu_readings(before.cpu, cpu_lines(text@)),
            None => seq![],
        }
    }

    /// What the memory gives.
    pub open spec fn memory_part(self) -> Seq<Reading> {
        match self.meminfo {
            Some(text) => memory_readings(text@),
            None => seq![],
        }
    }

    /// What the network gives.
    pub open spec fn network_part(self, before: CountersView, at: u64) -> Seq<Reading> {
        match self.net {
            Some(text) => network_readings(text@, before.net, at),
            None => seq![],
        }
    }

    /// What the disks give.
    pub open spec fn disk_part(self, before: CountersView, at: u64) -> Seq<Reading> {
        match self.disks {
            Some(devices) => disk_readings(devices@, before.disk, at),
            None => seq![],
        }
    }

    /// What all sources give, one after the other.
    pub open spec fn all(self, before: CountersView, at: u64) -> Seq<Reading> {
        self.sensor_part() + self.gpu_part() + self.cpu_part(before) + self.memory_part()
            + self.network_part(before, at) + self.disk_part(before, at)
    }

    /// The counters that are remembered afterwards: those of a source that failed
    /// are kept, with the time at which they were read.
    pub open spec fn counters_after(self, before: CountersView, at: u64) -> CountersView {
        CountersView {
            cpu: match self.stat {
                Some(text) => cpu_after(before.cpu, cpu_lines(text@)),
                None => before.cpu,
            },
            net: match self.net {
                Some(text) => Some(ReadsView { at, counts: interfaces(lines(text@)) }),
                None => before.net,
            },
            disk: match self.disks {
                Some(devices) => Some(ReadsView { at, counts: disks(devices@) }),
                None => before.disk,
            },
        }
    }

    /// Whether the counters of every CPU add up to a number of 64 bits.
    pub open spec fn fit(self) -> bool {
        match self.stat {
            Some(text) => counters_fit(text@),
            None => true,
        }
    }
}

fn append(out: &mut Vec<Sample<Quantity>>, more: Vec<Sample<Quantity>>)
    ensures
        readings(final(out)@) == readings(old(out)@) + readings(more@),
{
    let mut more = more;
    let ghost added = more@;
    out.append(&mut more);
    assert(readings(out@) =~= readings(old(out)@) + readings(added));
}

/// One sample of every metric that is available. A source that failed is passed
/// over. The time at which the sources were read is in milliseconds, on a clock that
/// does not go back.
pub fn collect(before: &mut Counters, sources: &Sources, now_ms: u64) -> (r: Vec<Sample<Quantity>>)
    requires
        old(before).wf(),
        sources.fit(),
    ensures
        readings(r@) == sources.all(old(before)@, now_ms),
        final(before).wf(),
        final(before)@ == sources.counters_after(old(before)@, now_ms),
{
    let mut out: Vec<Sample<Quantity>> = Vec::new();
    let ghost b = before@;
    assert(readings(out@) =~= seq![]);
    if let Some(bytes) = &sources.sensors {
        append(&mut out, sensor_samples_of(bytes));
    }
    assert(readings(out@) =~= sources.sensor_part());
    let ghost so_far = readings(out@);
    if let Some(bytes) = &sources.gpu {
        append(&mut out, gpu_samples_of(bytes));
    }
    assert(readings(out@) =~= so_far + sources.gpu_part());
    let ghost so_far = readings(out@);
    if let Some(text) = &sources.stat {
        append(&mut out, cpu_samples(text.as_str(), &mut before.cpu));
    }
    assert(readings(out@) =~= so_far + sources.cpu_part(b));
    let ghost so_far = readings(out@);
    if let Some(text) = &sources.meminfo {
        append(&mut out, memory_samples(text.as_str()));
    }
    assert(readings(out@) =~= so_far + sources.memory_part());
    let ghost so_far = readings(out@);
    if let Some(text) = &sources.net {
        append(&mut out, network_samples(text.as_str(), now_ms, &mut before.net));
    }
    assert(readings(out@) =~= so_far + sources.network_part(b, now_ms));
    let ghost so_far = readings(out@);
    if let Some(devices) = &sources.disks {
        append(&mut out, disk_samples(devices, now_ms, &mut before.disk));
    }
    assert(readings(out@) =~= so_far + sources.disk_part(b, now_ms));
    out
}

/// Failing sources are skipped: a source that put out nothing gives nothing, and
/// leaves the counters that were read of it as they are. What the others give does
/// not depend on it.
pub proof fn lemma_failing_sources_are_skipped(s: Sources, before: CountersView, at: u64)
    ensures
        s.sensors is None ==> s.all(before, at) == s.gpu_part() + s.cpu_part(before) + s.memory_part()
            + s.network_part(before, at) + s.disk_part(before, at),
        s.gpu is None ==> s.all(before, at) == s.sensor_part() + s.cpu_part(before) + s.memory_part()
            + s.network_part(before, at) + s.disk_part(before, at),
        s.stat is None ==> s.all(before, at) == s.sensor_part() + s.gpu_part() + s.memory_part()
            + s.network_part(before, at) + s.disk_part(before, at) && s.counters_after(before, at).cpu
            == before.cpu,
        s.meminfo is None ==> s.all(before, at) == s.sensor_part() + s.gpu_part() + s.cpu_part(before)
            + s.network_part(before, at) + s.disk_part(before, at),
        s.net is None ==> s.all(before, at) == s.sensor_part() + s.gpu_part() + s.cpu_part(before)
            + s.memory_part() + s.disk_part(before, at) && s.counters_after(before, at).net == before.net,
        s.disks is None ==> s.all(before, at) == s.sensor_part() + s.gpu_part() + s.cpu_part(before)
            + s.memory_part() + s.network_part(before, at) && s.counters_after(before, at).disk
            == before.disk,
{
    let none = Seq::<Reading>::empty();
    assert(none + s.gpu_part() =~= s.gpu_part());
    assert(s.sensor_part() + none =~= s.sensor_part());
    assert(s.sensor_part() + s.gpu_part() + none =~= s.sensor_part() + s.gpu_part());
    let three = s.sensor_part() + s.gpu_part() + s.cpu_part(before);
    assert(three + none =~= three);
    let four = three + s.memory_part();
    assert(four + none =~= four);
    let five = four + s.network_part(before, at);
    assert(five + none =~= five);
}

/// A poll finds each series once: no label occurs twice in what the sources give,
/// whatever chips, interfaces and disks there are, as long as no CPU is listed
/// twice.
pub proof fn lemma_poll_finds_each_series_once(s: Sources, before: CountersView, at: u64)
    requires
        s.stat matches Some(text) ==> names_differ(cpu_lines(text@)),
    ensures
        labels_differ(s.all(before, at)),
{
    lemma_fixed_labels();
    let sensors = s.sensor_part();
    let gpu = s.gpu_part();
    let cpu = s.cpu_part(before);
    let memory = s.memory_part();
    let network = s.network_part(before, at);
    let disks = s.disk_part(before, at);
    assert(labels_differ(sensors) && all_owned(sensors, Owner::Sensors)) by {
        if let Some(bytes) = s.sensors {
            if let Some(doc) = document_of_bytes(bytes@) {
                lemma_sensor_labels_differ(doc);
            }
        }
    }
    assert(labels_differ(cpu) && all_owned(cpu, Owner::Cpu)) by {
        if let Some(text) = s.stat {
            lemma_cpu_labels_differ(before.cpu, text@);
        }
    }
    assert(forall|o: Owner| o != Owner::Sensors ==> #[trigger] none_owned(sensors, o));
    lemma_labels_of_both_differ(sensors, gpu, Owner::Gpu);
    let two = sensors + gpu;
    lemma_labels_of_both_differ(two, cpu, Owner::Cpu);
    let three = two + cpu;
    lemma_labels_of_both_differ(three, memory, Owner::Memory);
    let four = three + memory;
    lemma_labels_of_both_differ(four, network, Owner::Network);
    lemma_labels_of_both_differ(four + network, disks, Owner::Disks);
}

/// A poll gives what each source gives, all of it and in order: the sensors, the GPU, the
/// CPUs, the memory, the network and the disks.
pub proof fn lemma_every_source_is_sampled(s: Sources, before: CountersView, at: u64)
    ensures
        s.all(before, at) == s.sensor_part() + s.gpu_part() + s.cpu_part(before) + s.memory_part()
            + s.network_part(before, at) + s.disk_part(before, at),
        s.sensors matches Some(bytes) ==> (document_of_bytes(bytes@) matches Some(doc)
            ==> s.sensor_part() == sensor_readings(doc)),
        s.sensors matches Some(bytes) ==> (document_of_bytes(bytes@) is None ==> s.sensor_part()
            == Seq::<Reading>::empty()),
        s.sensors is None ==> s.sensor_part() == Seq::<Reading>::empty(),
        s.gpu matches Some(bytes) ==> (valid_utf8(bytes@) ==> s.gpu_part() == gpu_readings(
            decode_utf8(bytes@),
        )),
        s.gpu matches Some(bytes) ==> (!valid_utf8(bytes@) ==> s.gpu_part()
            == Seq::<Reading>::empty()),
        s.gpu is None ==> s.gpu_part() == Seq::<Reading>::empty(),
        s.stat matches Some(text) ==> s.cpu_part(before) == cpu_readings(
            before.cpu,
            cpu_lines(text@),
        ),
        s.stat is None ==> s.cpu_part(before) == Seq::<Reading>::empty(),
        s.meminfo matches Some(text) ==> s.memory_part() == memory_readings(text@),
        s.meminfo is None ==> s.memory_part() == Seq::<Reading>::empty(),
        s.net matches Some(text) ==> s.network_part(before, at) == network_readings(
            text@,
            before.net,
            at,
        ),
        s.net is None ==> s.network_part(before, at) == Seq::<Reading>::empty(),
        s.disks matches Some(devices) ==> s.disk_part(before, at) == disk_readings(
            devices@,
            before.disk,
            at,
        ),
        s.disks is None ==> s.disk_part(before, at) == Seq::<Reading>::empty(),
{
}

/// Every counter that was read is remembered, with the time of the read, and what was not
/// read stays as it was.
pub proof fn lemma_counters_read_are_remembered(s: Sources, before: CountersView, at: u64)
    ensures
        ({
            let after = s.counters_after(before, at);
            &&& s.stat matches Some(text) ==> after.cpu == cpu_after(before.cpu, cpu_lines(text@))
            &&& s.stat is None ==> after.cpu == before.cpu
            &&& s.net matches Some(text) ==> (after.net matches Some(r) && r.at == at && r.counts
                == interfaces(lines(text@)))
            &&& s.net is None ==> after.net == before.net
            &&& s.disks matches Some(devices) ==> (after.disk matches Some(r) && r.at == at
                && r.counts == disks(devices@))
            &&& s.disks is None ==> after.disk == before.disk
        }),
{
}

/// Where a reading of the network or the disks stands in what a poll gives.
proof fn lemma_rates_come_last(s: Sources, before: CountersView, at: u64, i: int)
    ensures
        0 <= i < s.network_part(before, at).len() ==> s.all(before, at).contains(
            s.network_part(before, at)[i],
        ),
        0 <= i < s.disk_part(before, at).len() ==> s.all(before, at).contains(
            s.disk_part(before, at)[i],
        ),
{
    let four = s.sensor_part() + s.gpu_part() + s.cpu_part(before) + s.memory_part();
    let n = s.network_part(before, at);
    let d = s.disk_part(before, at);
    assert(s.all(before, at) == four + n + d);
    if 0 <= i < n.len() {
        assert((four + n + d)[four.len() + i] == n[i]);
    }
    if 0 <= i < d.len() {
        assert((four + n + d)[four.len() + n.len() + i] == d[i]);
    }
}

/// The throughput of the network is that between two polls: the bytes by which the
/// interfaces went from the one to the other, over the time between them, received and
/// sent.
pub proof fn lemma_network_throughput_between_polls(
    first: Sources,
    second: Sources,
    before: CountersView,
    t1: u64,
    t2: u64,
    a: String,
    b: String,
)
    requires
        first.net == Some(a),
        second.net == Some(b),
        t1 <= t2,
        moved(interfaces(lines(b@)), interfaces(lines(a@))).inward <= u64::MAX,
        moved(interfaces(lines(b@)), interfaces(lines(a@))).outward <= u64::MAX,
    ensures
        second.all(first.counters_after(before, t1), t2).contains(
            Reading {
                label: "Network RX"@,
                unit: Unit::NetBytes,
                amount: Amount::Rate {
                    bytes: moved(interfaces(lines(b@)), interfaces(lines(a@))).inward as u64,
                    millis: (t2 - t1) as u64,
                },
            },
        ),
        second.all(first.counters_after(before, t1), t2).contains(
            Reading {
                label: "Network TX"@,
                unit: Unit::NetBytes,
                amount: Amount::Rate {
                    bytes: moved(interfaces(lines(b@)), interfaces(lines(a@))).outward as u64,
                    millis: (t2 - t1) as u64,
                },
            },
        ),
{
    let mid = first.counters_after(before, t1);
    lemma_network_throughput(b@, mid.net, t2);
    lemma_rates_come_last(second, mid, t2, 0);
    lemma_rates_come_last(second, mid, t2, 1);
}

/// The throughput of the disks is that between two polls: the bytes of the sectors by which
/// the disks went from the one to the other, 512 to a sector, over the time between them,
/// read and written.
pub proof fn lemma_disk_throughput_between_polls(
    first: Sources,
    second: Sources,
    before: CountersView,
    t1: u64,
    t2: u64,
    a: Vec<BlockDevice>,
    b: Vec<BlockDevice>,
)
    requires
        first.disks == Some(a),
        second.disks == Some(b),
        t1 <= t2,
        moved(disks(b@), disks(a@)).inward * 512 <= u64::MAX,
        moved(disks(b@), disks(a@)).outward * 512 <= u64::MAX,
    ensures
        second.all(first.counters_after(before, t1), t2).contains(
            Reading {
                label: "Disk read"@,
                unit: Unit::DiskBytes,
                amount: Amount::Rate {
                    bytes: (moved(disks(b@), disks(a@)).inward * 512) as u64,
                    millis: (t2 - t1) as u64,
                },
            },
        ),
        second.all(first.counters_after(before, t1), t2).contains(
            Reading {
                label: "Disk write"@,
                unit: Unit::DiskBytes,
                amount: Amount::Rate {
                    bytes: (moved(disks(b@), disks(a@)).outward * 512) as u64,
                    millis: (t2 - t1) as u64,
                },
            },
        ),
{
    let mid = first.counters_after(before, t1);
    lemma_disk_throughput(b@, mid.disk, t2);
    lemma_rates_come_last(second, mid, t2, 0);
    lemma_rates_come_last(second, mid, t2, 1);
}

/// What a poll finds is turned down only where the counters of a CPU do not fit.
pub proof fn lemma_sources_fit_if_counters_do(s: Sources)
    ensures
        s.stat is None ==> s.fit(),
        s.stat matches Some(text) ==> s.fit() == counters_fit(text@),
{
}

} // verus!
