//! Readings of byte counters: network and disk throughput.
use vstd::prelude::*;

use crate::labels::{
    lemma_has_place, lemma_listing_of, lemma_listing_unique, lemma_place, listing_of, LabelMap,
};
use crate::sample::{add_sample, readings, Amount, Quantity, Reading, Sample};
use crate::text::{
    chars_of, copy_range, equals, is_space, lemma_run_is, lemma_trim_takes_white_space,
    lemma_white_space, lines, number, read_number, run, scan, split_lines, split_words, trim,
    trimmed, views, words, Stop,
};
use crate::unit::Unit;

verus! {

/// The counters of one read, by name, and when it was made.
pub struct Reads {
    /// The time, in milliseconds.
    pub at: u64,
    /// What was counted inward and outward, by name.
    pub counts: LabelMap<(u64, u64)>,
}

/// What `Reads` hold.
#[verifier::ext_equal]
pub struct ReadsView {
    /// The time, in milliseconds.
    pub at: u64,
    /// What was counted inward and outward, by name.
    pub counts: Map<Seq<char>, (u64, u64)>,
}

impl View for Reads {
    type V = ReadsView;

    open spec fn view(&self) -> ReadsView {
        ReadsView { at: self.at, counts: self.counts@ }
    }
}

/// What a read that may not have been made holds.
pub open spec fn reads_view(r: Option<Reads>) -> Option<ReadsView> {
    match r {
        Some(x) => Some(x@),
        None => None,
    }
}

/// The map of a read that may not have been made is well-formed.
pub open spec fn reads_wf(r: Option<Reads>) -> bool {
    r matches Some(x) ==> x.counts.wf()
}

/// What moved in either direction.
pub struct Moved {
    /// Received, or read.
    pub inward: nat,
    /// Sent, or written.
    pub outward: nat,
}

impl Moved {
    /// Nothing at all.
    pub open spec fn none() -> Moved {
        Moved { inward: 0, outward: 0 }
    }

    /// What two come to.
    pub open spec fn plus(self, other: Moved) -> Moved {
        Moved { inward: self.inward + other.inward, outward: self.outward + other.outward }
    }
}

/// A count as a 64-bit number, which stops at the greatest.
pub open spec fn cap(n: nat) -> u64 {
    if n > u64::MAX {
        u64::MAX
    } else {
        n as u64
    }
}

/// How far a counter went; one that went back did not go.
pub open spec fn growth(before: u64, now: u64) -> nat {
    if now > before {
        (now - before) as nat
    } else {
        0
    }
}

/// How far the counters under a name went; nothing where it was not read before.
pub open spec fn growth_of(
    entry: (Seq<char>, (u64, u64)),
    before: Map<Seq<char>, (u64, u64)>,
) -> Moved {
    if before.contains_key(entry.0) {
        Moved {
            inward: growth(before[entry.0].0, entry.1.0),
            outward: growth(before[entry.0].1, entry.1.1),
        }
    } else {
        Moved::none()
    }
}

/// How far the listed counters went, all together.
pub open spec fn grown(
    now: Seq<(Seq<char>, (u64, u64))>,
    before: Map<Seq<char>, (u64, u64)>,
) -> Moved
    decreases now.len(),
{
    if now.len() == 0 {
        Moved::none()
    } else {
        grown(now.drop_last(), before).plus(growth_of(now.last(), before))
    }
}

/// How far counters went between two reads, summed over the names that both have.
pub open spec fn moved(
    now: Map<Seq<char>, (u64, u64)>,
    before: Map<Seq<char>, (u64, u64)>,
) -> Moved {
    grown(listing_of(now), before)
}

/// The time from one read to the next.
pub open spec fn elapsed(before: u64, now: u64) -> u64 {
    if now > before {
        (now - before) as u64
    } else {
        0
    }
}

/// What two reads of counters of `size` bytes give: the bytes in either direction,
/// over the time between the reads. A first read gives nothing over no time.
pub open spec fn throughput(
    unit: Unit,
    inward: Seq<char>,
    outward: Seq<char>,
    size: nat,
    before: Option<ReadsView>,
    now: ReadsView,
) -> Seq<Reading> {
    let m = match before {
        Some(b) => moved(now.counts, b.counts),
        None => Moved::none(),
    };
    let millis = match before {
        Some(b) => elapsed(b.at, now.at),
        None => 0,
    };
    seq![
        Reading {
            label: inward,
            unit,
            amount: Amount::Rate { bytes: cap(m.inward * size), millis },
        },
        Reading {
            label: outward,
            unit,
            amount: Amount::Rate { bytes: cap(m.outward * size), millis },
        },
    ]
}

/// The name in front of the colon of a line of `/proc/net/dev`.
pub open spec fn interface_name(line: Seq<char>) -> Seq<char> {
    trim(line.take(run(line, Stop::At(':')) as int))
}

/// What a line of `/proc/net/dev` counts: the bytes of an interface, received and
/// sent. The loopback interface does not count, nor does a line without the
/// numbers.
pub open spec fn interface_bytes(line: Seq<char>) -> Option<(u64, u64)> {
    let colon = run(line, Stop::At(':'));
    let ws = words(line.skip(colon as int + 1));
    if colon >= line.len() || interface_name(line) == "lo"@ || ws.len() < 9 {
        None
    } else {
        match (number(ws[0]), number(ws[8])) {
            (Some(i), Some(o)) => Some((i, o)),
            _ => None,
        }
    }
}

/// The bytes of all interfaces but the loopback, by name.
pub open spec fn interfaces(ls: Seq<Seq<char>>) -> Map<Seq<char>, (u64, u64)>
    decreases ls.len(),
{
    if ls.len() == 0 {
        Map::empty()
    } else {
        match interface_bytes(ls.last()) {
            Some(c) => interfaces(ls.drop_last()).insert(interface_name(ls.last()), c),
            None => interfaces(ls.drop_last()),
        }
    }
}

/// Bytes in a sector, as block devices count them.
pub const SECTOR_BYTES: u64 = 512;

/// A block device as `/sys/block` shows it.
pub struct BlockDevice {
    /// Its name.
    pub name: String,
    /// Whether hardware stands behind it. A loop, RAM or mapped device has none.
    pub backed: bool,
    /// Whether it is a partition of another device.
    pub partition: bool,
    /// Its counters.
    pub stat: String,
}

impl BlockDevice {
    /// What the device counts: the sectors read and written. Only a physical disk
    /// counts, and only if it has the numbers.
    pub open spec fn sectors(self) -> Option<(u64, u64)> {
        let ws = words(self.stat@);
        if !self.backed || self.partition || ws.len() < 7 {
            None
        } else {
            match (number(ws[2]), number(ws[6])) {
                (Some(i), Some(o)) => Some((i, o)),
                _ => None,
            }
        }
    }
}

/// The sectors of all physical disks, by name.
pub open spec fn disks(ds: Seq<BlockDevice>) -> Map<Seq<char>, (u64, u64)>
    decreases ds.len(),
{
    if ds.len() == 0 {
        Map::empty()
    } else {
        match ds.last().sectors() {
            Some(c) => disks(ds.drop_last()).insert(ds.last().name@, c),
            None => disks(ds.drop_last()),
        }
    }
}

/// What `/proc/net/dev` gives.
pub open spec fn network_readings(
    text: Seq<char>,
    before: Option<ReadsView>,
    at: u64,
) -> Seq<Reading> {
    throughput(
        Unit::NetBytes,
        "Network RX"@,
        "Network TX"@,
        1,
        before,
        ReadsView { at, counts: interfaces(lines(text)) },
    )
}

/// What the block devices give.
pub open spec fn disk_readings(
    ds: Seq<BlockDevice>,
    before: Option<ReadsView>,
    at: u64,
) -> Seq<Reading> {
    throughput(
        Unit::DiskBytes,
        "Disk read"@,
        "Disk write"@,
        SECTOR_BYTES as nat,
        before,
        ReadsView { at, counts: disks(ds) },
    )
}

/// How far counters went between two reads, as far as 64 bits go.
fn count_growth(now: &LabelMap<(u64, u64)>, before: &LabelMap<(u64, u64)>) -> (r: (u64, u64))
    requires
        now.wf(),
        before.wf(),
    ensures
        r.0 == cap(moved(now@, before@).inward),
        r.1 == cap(moved(now@, before@).outward),
{
    let ghost all = now.listing();
    let mut inward: u64 = 0;
    let mut outward: u64 = 0;
    let mut i: usize = 0;
    assert(all.take(0) =~= seq![]);
    while i < now.len()
        invariant
            i <= all.len(),
            all == now.listing(),
            before.wf(),
            inward == cap(grown(all.take(i as int), before@).inward),
            outward == cap(grown(all.take(i as int), before@).outward),
        decreases all.len() - i,
    {
        assert(all.take(i + 1).drop_last() =~= all.take(i as int));
        assert(all.take(i + 1).last() == all[i as int]);
        let c = now.value_at(i);
        if let Some(b) = before.get(now.label_at(i)) {
            inward = inward.saturating_add(c.0.saturating_sub(b.0));
            outward = outward.saturating_add(c.1.saturating_sub(b.1));
        }
        i += 1;
    }
    proof {
        assert(all.take(all.len() as int) =~= all);
        now.lemma_listing();
    }
    (inward, outward)
}

/// The bytes of a number of counts of `size` bytes, as far as 64 bits go.
fn to_bytes(count: u64, size: u64) -> (r: u64)
    requires
        size > 0,
    ensures
        r == cap(count as nat * size as nat),
{
    match count.checked_mul(size) {
        Some(n) => n,
        None => u64::MAX,
    }
}

proof fn lemma_cap_product(n: nat, size: nat)
    requires
        size > 0,
    ensures
        cap(cap(n) as nat * size) == cap(n * size),
{
    if n > u64::MAX {
        assert(u64::MAX as nat * size <= n * size) by (nonlinear_arith)
            requires
                n > u64::MAX,
        ;
        assert(n * size >= n) by (nonlinear_arith)
            requires
                size > 0,
        ;
        assert(u64::MAX as nat * size >= u64::MAX) by (nonlinear_arith)
            requires
                size > 0,
        ;
    }
}

fn throughput_samples(
    unit: Unit,
    inward: &str,
    outward: &str,
    size: u64,
    before: &mut Option<Reads>,
    now: Reads,
) -> (r: Vec<Sample<Quantity>>)
    requires
        size > 0,
        reads_wf(*old(before)),
        now.counts.wf(),
    ensures
        readings(r@) == throughput(
            unit,
            inward@,
            outward@,
            size as nat,
            reads_view(*old(before)),
            now@,
        ),
        *final(before) == Some(now),
{
    let mut out: Vec<Sample<Quantity>> = Vec::new();
    assert(readings(out@) =~= seq![]);
    let (a, b, millis): (u64, u64, u64) = match &*before {
        Some(x) => {
            let (a, b) = count_growth(&now.counts, &x.counts);
            proof {
                let m = moved(now.counts@, x.counts@);
                lemma_cap_product(m.inward, size as nat);
                lemma_cap_product(m.outward, size as nat);
            }
            (to_bytes(a, size), to_bytes(b, size), now.at.saturating_sub(x.at))
        },
        None => (0, 0, 0),
    };
    assert(0 * size as nat == 0);
    add_sample(&mut out, inward.to_owned(), unit, Quantity::Rate { bytes: a, millis });
    add_sample(&mut out, outward.to_owned(), unit, Quantity::Rate { bytes: b, millis });
    assert(readings(out@) =~= throughput(
        unit,
        inward@,
        outward@,
        size as nat,
        reads_view(*old(before)),
        now@,
    ));
    *before = Some(now);
    out
}

fn read_interface(line: &Vec<char>) -> (r: Option<(String, (u64, u64))>)
    ensures
        match r {
            Some((n, c)) => n@ == interface_name(line@) && interface_bytes(line@) == Some(c),
            None => interface_bytes(line@) is None,
        },
{
    assert(line@.skip(0) =~= line@);
    let colon = scan(line, 0, Stop::At(':'));
    if colon >= line.len() {
        return None;
    }
    let head = copy_range(line, 0, colon);
    assert(head@ =~= line@.take(colon as int));
    let name = trimmed(&head);
    if equals(&chars_of(name.as_str()), "lo") {
        return None;
    }
    let rest = copy_range(line, colon + 1, line.len());
    assert(rest@ =~= line@.skip(colon + 1));
    let ws = split_words(&rest);
    if ws.len() < 9 {
        return None;
    }
    assert(views(ws@)[0] == ws@[0]@);
    assert(views(ws@)[8] == ws@[8]@);
    match (read_number(&ws[0]), read_number(&ws[8])) {
        (Some(i), Some(o)) => Some((name, (i, o))),
        _ => None,
    }
}

/// The bytes of all interfaces but the loopback, received and sent, by name.
pub fn read_interfaces(text: &str) -> (r: LabelMap<(u64, u64)>)
    ensures
        r.wf(),
        r@ == interfaces(lines(text@)),
{
    let chars = chars_of(text);
    let ls = split_lines(&chars);
    let ghost all = views(ls@);
    let mut r: LabelMap<(u64, u64)> = LabelMap::new();
    let mut i: usize = 0;
    assert(all.take(0) =~= seq![]);
    while i < ls.len()
        invariant
            i <= ls@.len(),
            all == views(ls@),
            r.wf(),
            r@ == interfaces(all.take(i as int)),
        decreases ls@.len() - i,
    {
        assert(all.take(i + 1).drop_last() =~= all.take(i as int));
        assert(all.take(i + 1).last() == ls@[i as int]@);
        if let Some((name, c)) = read_interface(&ls[i]) {
            r.insert(name.as_str(), c);
        }
        i += 1;
    }
    assert(all.take(all.len() as int) =~= all);
    r
}

/// The samples that `/proc/net/dev` gives at a time in milliseconds, against the
/// read before. That is replaced by this one.
pub fn network_samples(text: &str, at: u64, before: &mut Option<Reads>) -> (r: Vec<
    Sample<Quantity>,
>)
    requires
        reads_wf(*old(before)),
    ensures
        readings(r@) == network_readings(text@, reads_view(*old(before)), at),
        reads_wf(*final(before)),
        reads_view(*final(before)) == Some(ReadsView { at, counts: interfaces(lines(text@)) }),
{
    let now = Reads { at, counts: read_interfaces(text) };
    throughput_samples(Unit::NetBytes, "Network RX", "Network TX", 1, before, now)
}

fn read_device(d: &BlockDevice) -> (r: Option<(u64, u64)>)
    ensures
        r == d.sectors(),
{
    let chars = chars_of(d.stat.as_str());
    let ws = split_words(&chars);
    if !d.backed || d.partition || ws.len() < 7 {
        return None;
    }
    assert(views(ws@)[2] == ws@[2]@);
    assert(views(ws@)[6] == ws@[6]@);
    match (read_number(&ws[2]), read_number(&ws[6])) {
        (Some(i), Some(o)) => Some((i, o)),
        _ => None,
    }
}

/// The sectors of all physical disks, read and written, by name.
pub fn read_disks(devices: &Vec<BlockDevice>) -> (r: LabelMap<(u64, u64)>)
    ensures
        r.wf(),
        r@ == disks(devices@),
{
    let mut r: LabelMap<(u64, u64)> = LabelMap::new();
    let mut i: usize = 0;
    assert(devices@.take(0) =~= seq![]);
    while i < devices.len()
        invariant
            i <= devices@.len(),
            r.wf(),
            r@ == disks(devices@.take(i as int)),
        decreases devices@.len() - i,
    {
        assert(devices@.take(i + 1).drop_last() =~= devices@.take(i as int));
        if let Some(c) = read_device(&devices[i]) {
            r.insert(devices[i].name.as_str(), c);
        }
        i += 1;
    }
    assert(devices@.take(devices@.len() as int) =~= devices@);
    r
}

/// The samples that the block devices give at a time in milliseconds, against the
/// read before. That is replaced by this one.
pub fn disk_samples(
    devices: &Vec<BlockDevice>,
    at: u64,
    before: &mut Option<Reads>,
) -> (r: Vec<Sample<Quantity>>)
    requires
        reads_wf(*old(before)),
    ensures
        readings(r@) == disk_readings(devices@, reads_view(*old(before)), at),
        reads_wf(*final(before)),
        reads_view(*final(before)) == Some(ReadsView { at, counts: disks(devices@) }),
{
    let now = Reads { at, counts: read_disks(devices) };
    throughput_samples(Unit::DiskBytes, "Disk read", "Disk write", SECTOR_BYTES, before, now)
}

/// The loopback interface does not count toward network throughput, wherever it is
/// listed.
pub proof fn lemma_loopback_does_not_count(a: Seq<Seq<char>>, line: Seq<char>, b: Seq<Seq<char>>)
    requires
        interface_name(line) == "lo"@,
    ensures
        interfaces(a.push(line) + b) == interfaces(a + b),
    decreases b.len(),
{
    if b.len() == 0 {
        assert(a.push(line) + b =~= a.push(line));
        assert(a.push(line).drop_last() =~= a);
        assert(a + b =~= a);
    } else {
        lemma_loopback_does_not_count(a, line, b.drop_last());
        assert((a.push(line) + b).drop_last() =~= a.push(line) + b.drop_last());
        assert((a + b).drop_last() =~= a + b.drop_last());
        assert((a.push(line) + b).last() == b.last());
        assert((a + b).last() == b.last());
    }
}

/// Partitions and virtual devices do not count toward disk throughput, wherever
/// they are listed.
pub proof fn lemma_only_physical_disks_count(
    a: Seq<BlockDevice>,
    device: BlockDevice,
    b: Seq<BlockDevice>,
)
    requires
        device.partition || !device.backed,
    ensures
        disks(a.push(device) + b) == disks(a + b),
    decreases b.len(),
{
    if b.len() == 0 {
        assert(a.push(device) + b =~= a.push(device));
        assert(a.push(device).drop_last() =~= a);
        assert(a + b =~= a);
    } else {
        lemma_only_physical_disks_count(a, device, b.drop_last());
        assert((a.push(device) + b).drop_last() =~= a.push(device) + b.drop_last());
        assert((a + b).drop_last() =~= a + b.drop_last());
        assert((a.push(device) + b).last() == b.last());
        assert((a + b).last() == b.last());
    }
}

/// Throughput is summed: each interface or disk adds its own growth to that of the
/// others, and one that was not read before adds nothing.
pub proof fn lemma_growths_add_up(
    now: Map<Seq<char>, (u64, u64)>,
    before: Map<Seq<char>, (u64, u64)>,
    name: Seq<char>,
    count: (u64, u64),
)
    requires
        now.dom().finite(),
        !now.contains_key(name),
    ensures
        moved(now.insert(name, count), before) == moved(now, before).plus(
            growth_of((name, count), before),
        ),
{
    lemma_listing_of(now);
    lemma_listing_of(now.insert(name, count));
    let s = listing_of(now);
    let at = lemma_has_place(s, name);
    lemma_place(s, at, name, count);
    lemma_listing_unique(s.insert(at, (name, count)), listing_of(now.insert(name, count)));
    lemma_grown_insert(s, at, (name, count), before);
}

proof fn lemma_grown_insert(
    s: Seq<(Seq<char>, (u64, u64))>,
    at: int,
    e: (Seq<char>, (u64, u64)),
    before: Map<Seq<char>, (u64, u64)>,
)
    requires
        0 <= at <= s.len(),
    ensures
        grown(s.insert(at, e), before) == grown(s, before).plus(growth_of(e, before)),
    decreases s.len(),
{
    let t = s.insert(at, e);
    if at == s.len() {
        assert(t.drop_last() =~= s);
        assert(t.last() == e);
    } else {
        lemma_grown_insert(s.drop_last(), at, e, before);
        assert(t.drop_last() =~= s.drop_last().insert(at, e));
        assert(t.last() == s.last());
    }
}

/// Nothing has moved where no counters were read.
pub proof fn lemma_nothing_moves(before: Map<Seq<char>, (u64, u64)>)
    ensures
        moved(Map::empty(), before) == Moved::none(),
{
    lemma_listing_of(Map::<Seq<char>, (u64, u64)>::empty());
    lemma_listing_unique(listing_of(Map::<Seq<char>, (u64, u64)>::empty()), seq![]);
}

/// A line of `/proc/net/dev` is about the interface whose name stands before its first
/// colon, with or without white space around it. Of what follows, the first number is
/// what was received and the ninth what was sent, however many more there are. The
/// loopback interface does not count, nor does a line that lacks these numbers.
pub proof fn lemma_interface_line(
    pad: Seq<char>,
    name: Seq<char>,
    gap: Seq<char>,
    rest: Seq<char>,
)
    requires
        forall|i: int| 0 <= i < pad.len() ==> is_space(#[trigger] pad[i]),
        forall|i: int| 0 <= i < gap.len() ==> is_space(#[trigger] gap[i]),
        forall|i: int| 0 <= i < name.len() ==> #[trigger] name[i] != ':',
        name.len() > 0 ==> !is_space(name[0]) && !is_space(name.last()),
    ensures
        ({
            let line = (pad + name + gap).push(':') + rest;
            let ws = words(rest);
            &&& interface_name(line) == name
            &&& name != "lo"@ && ws.len() >= 9 && number(ws[0]) is Some && number(ws[8]) is Some
                ==> interface_bytes(line) == Some((number(ws[0])->0, number(ws[8])->0))
            &&& name == "lo"@ || ws.len() < 9 || number(ws[0]) is None || number(ws[8]) is None
                ==> interface_bytes(line) is None
        }),
{
    let head = pad + name + gap;
    let line = head.push(':') + rest;
    let n = head.len() as int;
    lemma_white_space(':');
    assert forall|i: int| 0 <= i < n implies !Stop::At(':').stops(#[trigger] line[i]) by {
        if i < pad.len() {
            assert(line[i] == pad[i]);
        } else if i < pad.len() + name.len() {
            assert(line[i] == name[i - pad.len()]);
        } else {
            assert(line[i] == gap[i - pad.len() - name.len()]);
        }
    }
    assert(line[n] == ':');
    lemma_run_is(line, Stop::At(':'), n);
    assert(line.take(n) =~= head);
    assert(line.skip(n + 1) =~= rest);
    lemma_trim_takes_white_space(pad, name, gap);
}

/// A line without a colon is about no interface.
pub proof fn lemma_line_without_colon_does_not_count(line: Seq<char>)
    requires
        forall|i: int| 0 <= i < line.len() ==> #[trigger] line[i] != ':',
    ensures
        interface_bytes(line) is None,
{
    lemma_run_is(line, Stop::At(':'), line.len() as int);
}

/// Every line about an interface counts, wherever it stands and however many there are;
/// of several about one interface the last decides.
pub proof fn lemma_every_interface_counts(ls: Seq<Seq<char>>, i: int)
    requires
        0 <= i < ls.len(),
        interface_bytes(ls[i]) is Some,
        forall|j: int|
            i < j < ls.len() ==> interface_name(#[trigger] ls[j]) != interface_name(ls[i])
                || interface_bytes(ls[j]) is None,
    ensures
        interfaces(ls).contains_key(interface_name(ls[i])),
        interfaces(ls)[interface_name(ls[i])] == interface_bytes(ls[i])->0,
    decreases ls.len(),
{
    if i < ls.len() - 1 {
        let p = ls.drop_last();
        assert forall|j: int| i < j < p.len() implies interface_name(#[trigger] p[j])
            != interface_name(p[i]) || interface_bytes(p[j]) is None by {
            assert(p[j] == ls[j]);
        }
        lemma_every_interface_counts(p, i);
        assert(ls[ls.len() - 1] == ls.last());
    }
}

/// What counts is about an interface: nothing is counted that no line says.
pub proof fn lemma_only_interfaces_count(ls: Seq<Seq<char>>, name: Seq<char>) -> (i: int)
    requires
        interfaces(ls).contains_key(name),
    ensures
        0 <= i < ls.len(),
        interface_name(ls[i]) == name,
        interface_bytes(ls[i]) == Some(interfaces(ls)[name]),
    decreases ls.len(),
{
    if interface_bytes(ls.last()) is Some && interface_name(ls.last()) == name {
        ls.len() - 1
    } else {
        lemma_only_interfaces_count(ls.drop_last(), name)
    }
}

/// Every physical disk counts that has the numbers, whatever follows them and however
/// many disks there are: the third field is what was read, the seventh what was
/// written. Of several disks of one name the last decides.
pub proof fn lemma_every_disk_counts(ds: Seq<BlockDevice>, i: int, read: u64, written: u64)
    requires
        0 <= i < ds.len(),
        ds[i].backed,
        !ds[i].partition,
        words(ds[i].stat@).len() >= 7,
        number(words(ds[i].stat@)[2]) == Some(read),
        number(words(ds[i].stat@)[6]) == Some(written),
        forall|j: int|
            i < j < ds.len() ==> (#[trigger] ds[j]).name@ != ds[i].name@ || !ds[j].backed
                || ds[j].partition || words(ds[j].stat@).len() < 7 || number(
                words(ds[j].stat@)[2],
            ) is None || number(words(ds[j].stat@)[6]) is None,
    ensures
        disks(ds).contains_key(ds[i].name@),
        disks(ds)[ds[i].name@] == (read, written),
    decreases ds.len(),
{
    if i < ds.len() - 1 {
        let p = ds.drop_last();
        assert forall|j: int| i < j < p.len() implies (#[trigger] p[j]).name@ != p[i].name@
            || !p[j].backed || p[j].partition || words(p[j].stat@).len() < 7 || number(
            words(p[j].stat@)[2],
        ) is None || number(words(p[j].stat@)[6]) is None by {
            assert(p[j] == ds[j]);
        }
        lemma_every_disk_counts(p, i, read, written);
        assert(ds[ds.len() - 1] == ds.last());
    }
}

/// What counts is a physical disk that has the numbers.
pub proof fn lemma_only_disks_count(ds: Seq<BlockDevice>, name: Seq<char>) -> (i: int)
    requires
        disks(ds).contains_key(name),
    ensures
        0 <= i < ds.len(),
        ds[i].name@ == name,
        ds[i].backed,
        !ds[i].partition,
        words(ds[i].stat@).len() >= 7,
        number(words(ds[i].stat@)[2]) == Some(disks(ds)[name].0),
        number(words(ds[i].stat@)[6]) == Some(disks(ds)[name].1),
    decreases ds.len(),
{
    if ds.last().sectors() is Some && ds.last().name@ == name {
        ds.len() - 1
    } else {
        lemma_only_disks_count(ds.drop_last(), name)
    }
}

/// What an interface or a disk adds is how far its counter went since the read before,
/// and nothing where the counter went back or was not read then.
pub proof fn lemma_counters_add_what_they_grew(
    now: Map<Seq<char>, (u64, u64)>,
    before: Map<Seq<char>, (u64, u64)>,
    name: Seq<char>,
    count: (u64, u64),
)
    requires
        now.dom().finite(),
        !now.contains_key(name),
    ensures
        before.contains_key(name) && count.0 >= before[name].0 ==> moved(
            now.insert(name, count),
            before,
        ).inward == moved(now, before).inward + (count.0 - before[name].0),
        !before.contains_key(name) || count.0 < before[name].0 ==> moved(
            now.insert(name, count),
            before,
        ).inward == moved(now, before).inward,
        before.contains_key(name) && count.1 >= before[name].1 ==> moved(
            now.insert(name, count),
            before,
        ).outward == moved(now, before).outward + (count.1 - before[name].1),
        !before.contains_key(name) || count.1 < before[name].1 ==> moved(
            now.insert(name, count),
            before,
        ).outward == moved(now, before).outward,
        moved(Map::empty(), before).inward == 0,
        moved(Map::empty(), before).outward == 0,
{
    lemma_growths_add_up(now, before, name, count);
    lemma_nothing_moves(before);
}

/// The reads of counters are finite, as the lines and devices are.
pub proof fn lemma_reads_are_finite(ls: Seq<Seq<char>>, ds: Seq<BlockDevice>)
    ensures
        interfaces(ls).dom().finite(),
        disks(ds).dom().finite(),
    decreases ls.len() + ds.len(),
{
    if ls.len() > 0 {
        lemma_reads_are_finite(ls.drop_last(), ds);
    } else if ds.len() > 0 {
        lemma_reads_are_finite(ls, ds.drop_last());
    }
}

/// Network throughput is told twice, received and sent: the bytes by which the
/// interfaces went since the read before, and the time since then. The first read tells
/// nothing over no time.
pub proof fn lemma_network_throughput(text: Seq<char>, before: Option<ReadsView>, at: u64)
    ensures
        ({
            let r = network_readings(text, before, at);
            &&& r.len() == 2
            &&& r[0].label == "Network RX"@
            &&& r[1].label == "Network TX"@
            &&& r[0].unit == Unit::NetBytes
            &&& r[1].unit == Unit::NetBytes
            &&& before is None ==> r[0].amount == (Amount::Rate { bytes: 0, millis: 0 })
                && r[1].amount == (Amount::Rate { bytes: 0, millis: 0 })
            &&& before matches Some(b) ==> {
                let m = moved(interfaces(lines(text)), b.counts);
                &&& r[0].amount matches Amount::Rate { bytes, millis } && (m.inward <= u64::MAX
                    ==> bytes == m.inward) && (m.inward > u64::MAX ==> bytes == u64::MAX) && (at
                    >= b.at ==> millis == at - b.at) && (at < b.at ==> millis == 0)
                &&& r[1].amount matches Amount::Rate { bytes, millis } && (m.outward <= u64::MAX
                    ==> bytes == m.outward) && (m.outward > u64::MAX ==> bytes == u64::MAX) && (at
                    >= b.at ==> millis == at - b.at) && (at < b.at ==> millis == 0)
            }
        }),
{
}

/// Disk throughput is told twice, read and written: the bytes of the sectors, of 512
/// bytes each, by which the disks went since the read before, and the time since then.
/// The first read tells nothing over no time.
pub proof fn lemma_disk_throughput(ds: Seq<BlockDevice>, before: Option<ReadsView>, at: u64)
    ensures
        ({
            let r = disk_readings(ds, before, at);
            &&& r.len() == 2
            &&& r[0].label == "Disk read"@
            &&& r[1].label == "Disk write"@
            &&& r[0].unit == Unit::DiskBytes
            &&& r[1].unit == Unit::DiskBytes
            &&& before is None ==> r[0].amount == (Amount::Rate { bytes: 0, millis: 0 })
                && r[1].amount == (Amount::Rate { bytes: 0, millis: 0 })
            &&& before matches Some(b) ==> {
                let m = moved(disks(ds), b.counts);
                &&& r[0].amount matches Amount::Rate { bytes, millis } && (m.inward * 512
                    <= u64::MAX ==> bytes == m.inward * 512) && (m.inward * 512 > u64::MAX ==> bytes
                    == u64::MAX) && (at >= b.at ==> millis == at - b.at) && (at < b.at ==> millis
                    == 0)
                &&& r[1].amount matches Amount::Rate { bytes, millis } && (m.outward * 512
                    <= u64::MAX ==> bytes == m.outward * 512) && (m.outward * 512 > u64::MAX
                    ==> bytes == u64::MAX) && (at >= b.at ==> millis == at - b.at) && (at < b.at
                    ==> millis == 0)
            }
        }),
{
}

} // verus!
