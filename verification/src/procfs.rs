//! Readings of kernel counters: CPU and memory usage.
use vstd::prelude::*;

use crate::labels::LabelMap;
use crate::names::{all_owned, labels_differ, lemma_core_label, lemma_fixed_labels, owner, Owner};
use crate::sample::{add_sample, readings, Amount, Quantity, Reading, Sample};
use crate::text::{
    begins, chars_of, copy_range, equals, is_space, joined, lemma_last_line_may_lack_its_ending,
    lemma_line_feed_ends_a_line, lemma_lines_of_both, lemma_run, lines, number, read_number,
    split_lines, split_words, text_of, views, words, Stop,
};
use crate::unit::Unit;

verus! {

/// The numbers among the words, in order.
pub open spec fn numbers(ws: Seq<Seq<char>>) -> Seq<u64>
    decreases ws.len(),
{
    if ws.len() == 0 {
        seq![]
    } else {
        match number(ws.last()) {
            Some(n) => numbers(ws.drop_last()).push(n),
            None => numbers(ws.drop_last()),
        }
    }
}

/// The sum of counters.
pub open spec fn total(ns: Seq<u64>) -> nat
    decreases ns.len(),
{
    if ns.len() == 0 {
        0
    } else {
        total(ns.drop_last()) + ns.last() as nat
    }
}

/// How many lines stand before the first that is not about a CPU.
pub open spec fn cpu_count(ls: Seq<Seq<char>>) -> nat
    decreases ls.len(),
{
    if ls.len() == 0 || !"cpu"@.is_prefix_of(ls[0]) {
        0
    } else {
        1 + cpu_count(ls.skip(1))
    }
}

/// The lines about CPUs: they come first and without a gap.
pub open spec fn cpu_lines(text: Seq<char>) -> Seq<Seq<char>> {
    lines(text).take(cpu_count(lines(text)) as int)
}

/// The name that a line is about.
pub open spec fn line_name(line: Seq<char>) -> Seq<char> {
    words(line)[0]
}

/// The counters of a line.
pub open spec fn line_counters(line: Seq<char>) -> Seq<u64> {
    numbers(words(line).skip(1))
}

/// Whether a line has all the counters that a reading needs.
pub open spec fn is_full(line: Seq<char>) -> bool {
    line_counters(line).len() >= 5
}

/// Idle ticks: those spent idle and those spent waiting for input and output.
pub open spec fn idle_ticks(ns: Seq<u64>) -> nat {
    ns[3] as nat + ns[4] as nat
}

/// The label of a CPU.
pub open spec fn cpu_label(name: Seq<char>) -> Seq<char> {
    if name == "cpu"@ {
        "CPU total"@
    } else {
        "CPU core "@ + name.skip(3)
    }
}

/// The load since the counters were last read; none where they were not read
/// before, or no ticks have passed.
pub open spec fn cpu_load(before: Option<(u64, u64)>, idle: nat, all: nat) -> Amount {
    match before {
        Some((i, t)) => if all > t {
            Amount::Busy {
                idle: (if idle > i {
                    idle - i
                } else {
                    0
                }) as u64,
                total: (all - t) as u64,
            }
        } else {
            Amount::Busy { idle: 0, total: 0 }
        },
        None => Amount::Busy { idle: 0, total: 0 },
    }
}

/// The value of a label in a map, if it has one.
pub open spec fn lookup<V>(m: Map<Seq<char>, V>, k: Seq<char>) -> Option<V> {
    if m.contains_key(k) {
        Some(m[k])
    } else {
        None
    }
}

/// The counters that are remembered, by name, once these lines have been read.
pub open spec fn cpu_after(
    before: Map<Seq<char>, (u64, u64)>,
    ls: Seq<Seq<char>>,
) -> Map<Seq<char>, (u64, u64)>
    decreases ls.len(),
{
    if ls.len() == 0 {
        before
    } else {
        let rest = cpu_after(before, ls.drop_last());
        let line = ls.last();
        if is_full(line) {
            rest.insert(
                line_name(line),
                (idle_ticks(line_counters(line)) as u64, total(line_counters(line)) as u64),
            )
        } else {
            rest
        }
    }
}

/// The reading of a line about a CPU, against the counters that were read before.
pub open spec fn cpu_reading(before: Option<(u64, u64)>, line: Seq<char>) -> Reading {
    Reading {
        label: cpu_label(line_name(line)),
        unit: Unit::Percent,
        amount: cpu_load(before, idle_ticks(line_counters(line)), total(line_counters(line))),
    }
}

/// What lines about CPUs give: the load of each since it was last read. A line
/// that lacks counters gives nothing.
pub open spec fn cpu_readings(
    before: Map<Seq<char>, (u64, u64)>,
    ls: Seq<Seq<char>>,
) -> Seq<Reading>
    decreases ls.len(),
{
    if ls.len() == 0 {
        seq![]
    } else {
        let rest = cpu_readings(before, ls.drop_last());
        let line = ls.last();
        if is_full(line) {
            let known = lookup(cpu_after(before, ls.drop_last()), line_name(line));
            rest.push(cpu_reading(known, line))
        } else {
            rest
        }
    }
}

/// Whether the counters of every CPU add up to a number of 64 bits.
pub open spec fn counters_fit(text: Seq<char>) -> bool {
    forall|i: int|
        0 <= i < cpu_lines(text).len() && is_full(#[trigger] cpu_lines(text)[i]) ==> total(
            line_counters(cpu_lines(text)[i]),
        ) <= u64::MAX
}

fn read_numbers(ws: &Vec<Vec<char>>, from: usize) -> (r: Vec<u64>)
    requires
        from <= ws@.len(),
    ensures
        r@ == numbers(views(ws@).skip(from as int)),
{
    let mut r: Vec<u64> = Vec::new();
    let mut i: usize = from;
    let ghost all = views(ws@).skip(from as int);
    assert(all.take(0) =~= seq![]);
    while i < ws.len()
        invariant
            from <= i <= ws@.len(),
            all == views(ws@).skip(from as int),
            r@ == numbers(all.take(i - from)),
        decreases ws@.len() - i,
    {
        assert(all.take(i - from + 1).drop_last() =~= all.take(i - from));
        assert(all.take(i - from + 1).last() == ws@[i as int]@);
        if let Some(n) = read_number(&ws[i]) {
            r.push(n);
        }
        i += 1;
    }
    assert(all.take(all.len() as int) =~= all);
    r
}

proof fn lemma_total_grows(ns: Seq<u64>, n: int)
    requires
        0 <= n <= ns.len(),
    ensures
        total(ns.take(n)) <= total(ns),
    decreases ns.len() - n,
{
    if n == ns.len() {
        assert(ns.take(n) =~= ns);
    } else {
        lemma_total_grows(ns, n + 1);
        assert(ns.take(n + 1).drop_last() =~= ns.take(n));
    }
}

proof fn lemma_idle_within_total(ns: Seq<u64>)
    requires
        ns.len() >= 5,
    ensures
        idle_ticks(ns) <= total(ns),
{
    lemma_total_grows(ns, 5);
    assert(ns.take(5).drop_last() =~= ns.take(4));
    assert(ns.take(4).drop_last() =~= ns.take(3));
    assert(total(ns.take(4)) == total(ns.take(3)) + ns[3]);
    assert(total(ns.take(5)) == total(ns.take(4)) + ns[4]);
}

/// The sum of the counters, if it fits.
fn sum(ns: &Vec<u64>) -> (r: Option<u64>)
    ensures
        match r {
            Some(s) => s == total(ns@),
            None => total(ns@) > u64::MAX,
        },
{
    let mut s: u64 = 0;
    let mut i: usize = 0;
    assert(ns@.take(0) =~= seq![]);
    while i < ns.len()
        invariant
            i <= ns@.len(),
            s == total(ns@.take(i as int)),
        decreases ns@.len() - i,
    {
        assert(ns@.take(i + 1).drop_last() =~= ns@.take(i as int));
        match s.checked_add(ns[i]) {
            Some(t) => {
                s = t;
            },
            None => {
                proof {
                    lemma_total_grows(ns@, i + 1);
                }
                return None;
            },
        }
        i += 1;
    }
    assert(ns@.take(ns@.len() as int) =~= ns@);
    Some(s)
}

/// How many lines stand before the first that is not about a CPU.
fn count_cpu_lines(ls: &Vec<Vec<char>>) -> (r: usize)
    ensures
        r == cpu_count(views(ls@)),
        r <= ls@.len(),
        forall|i: int| 0 <= i < r ==> "cpu"@.is_prefix_of(#[trigger] ls@[i]@),
{
    let mut i: usize = 0;
    let ghost all = views(ls@);
    assert(all.skip(0) =~= all);
    while i < ls.len() && begins(&ls[i], "cpu")
        invariant
            i <= ls@.len(),
            all == views(ls@),
            cpu_count(all) == i + cpu_count(all.skip(i as int)),
            forall|k: int| 0 <= k < i ==> "cpu"@.is_prefix_of(#[trigger] ls@[k]@),
        decreases ls@.len() - i,
    {
        assert(all.skip(i as int)[0] == ls@[i as int]@);
        assert(all.skip(i as int).skip(1) =~= all.skip(i + 1));
        i += 1;
    }
    proof {
        if i < ls@.len() {
            assert(all.skip(i as int)[0] == ls@[i as int]@);
        }
    }
    i
}

/// A line about a CPU begins with its name, and the name with `cpu`.
proof fn lemma_cpu_name(line: Seq<char>)
    requires
        "cpu"@.is_prefix_of(line),
    ensures
        words(line).len() > 0,
        line_name(line).len() >= 3,
        line_name(line).take(3) == "cpu"@,
{
    reveal_strlit("cpu");
    assert(line[0] == "cpu"@[0]);
    assert(line[1] == "cpu"@[1]);
    assert(line[2] == "cpu"@[2]);
    lemma_run(line, Stop::Space);
    assert(!is_space(line[0]) && !is_space(line[1]) && !is_space(line[2]));
    assert(line_name(line).take(3) =~= "cpu"@);
}

/// Whether the counters of every CPU add up to a number of 64 bits.
pub fn check_counters(text: &str) -> (r: bool)
    ensures
        r == counters_fit(text@),
{
    let chars = chars_of(text);
    let ls = split_lines(&chars);
    let n = count_cpu_lines(&ls);
    let ghost all = cpu_lines(text@);
    assert(all =~= views(ls@).take(n as int));
    let mut i: usize = 0;
    while i < n
        invariant
            i <= n <= ls@.len(),
            n == all.len(),
            all == views(ls@).take(n as int),
            all == cpu_lines(text@),
            forall|k: int| 0 <= k < n ==> "cpu"@.is_prefix_of(#[trigger] ls@[k]@),
            forall|k: int|
                0 <= k < i && is_full(#[trigger] all[k]) ==> total(line_counters(all[k]))
                    <= u64::MAX,
        decreases n - i,
    {
        let ghost line = all[i as int];
        assert(line == ls@[i as int]@);
        proof {
            lemma_cpu_name(line);
        }
        let ws = split_words(&ls[i]);
        let ns = read_numbers(&ws, 1);
        if ns.len() >= 5 && sum(&ns).is_none() {
            assert(is_full(cpu_lines(text@)[i as int]));
            return false;
        }
        i += 1;
    }
    true
}

/// The samples that `/proc/stat` gives, total and per core, against the counters
/// that were read before. These are replaced by the ones read now.
pub fn cpu_samples(text: &str, before: &mut LabelMap<(u64, u64)>) -> (r: Vec<Sample<Quantity>>)
    requires
        old(before).wf(),
        counters_fit(text@),
    ensures
        readings(r@) == cpu_readings(old(before)@, cpu_lines(text@)),
        final(before).wf(),
        final(before)@ == cpu_after(old(before)@, cpu_lines(text@)),
{
    let mut out: Vec<Sample<Quantity>> = Vec::new();
    let chars = chars_of(text);
    let ls = split_lines(&chars);
    let n = count_cpu_lines(&ls);
    let ghost all = cpu_lines(text@);
    let ghost known = before@;
    let mut i: usize = 0;
    assert(all =~= views(ls@).take(n as int));
    assert(readings(out@) =~= seq![]);
    assert(all.take(0) =~= seq![]);
    while i < n
        invariant
            i <= n <= ls@.len(),
            n == all.len(),
            all == views(ls@).take(n as int),
            all == cpu_lines(text@),
            counters_fit(text@),
            forall|k: int| 0 <= k < n ==> "cpu"@.is_prefix_of(#[trigger] ls@[k]@),
            readings(out@) == cpu_readings(known, all.take(i as int)),
            before.wf(),
            before@ == cpu_after(known, all.take(i as int)),
        decreases n - i,
    {
        let ghost line = all[i as int];
        assert(line == ls@[i as int]@);
        assert(all.take(i + 1).drop_last() =~= all.take(i as int));
        assert(all.take(i + 1).last() == line);
        proof {
            lemma_cpu_name(line);
        }
        let ws = split_words(&ls[i]);
        assert(views(ws@)[0] == ws@[0]@);
        let ns = read_numbers(&ws, 1);
        if ns.len() >= 5 {
            proof {
                assert(is_full(cpu_lines(text@)[i as int]));
                lemma_idle_within_total(ns@);
            }
            let idle: u64 = ns[3] + ns[4];
            if let Some(all_ticks) = sum(&ns) {
                let name = text_of(&ws[0], 0, ws[0].len());
                assert(name@ =~= line_name(line));
                let load = match before.get(name.as_str()) {
                    Some(b) => if all_ticks > b.1 {
                        Quantity::Busy {
                            idle: idle.saturating_sub(b.0),
                            total: all_ticks - b.1,
                        }
                    } else {
                        Quantity::Busy { idle: 0, total: 0 }
                    },
                    None => Quantity::Busy { idle: 0, total: 0 },
                };
                let label = if equals(&ws[0], "cpu") {
                    "CPU total".to_owned()
                } else {
                    let core = text_of(&ws[0], 3, ws[0].len());
                    assert(core@ =~= line_name(line).skip(3));
                    joined("CPU core ", core.as_str())
                };
                before.insert(name.as_str(), (idle, all_ticks));
                add_sample(&mut out, label, Unit::Percent, load);
            }
        }
        i += 1;
    }
    assert(all.take(all.len() as int) =~= all);
    out
}

/// The first word after a name at the start of a line: the last line that begins
/// with the name decides.
pub open spec fn field(ls: Seq<Seq<char>>, name: Seq<char>) -> Option<Seq<char>>
    decreases ls.len(),
{
    if ls.len() == 0 {
        None
    } else if name.is_prefix_of(ls.last()) {
        first_word(ls.last().skip(name.len() as int))
    } else {
        field(ls.drop_last(), name)
    }
}

/// The first word of a text, if it has one.
pub open spec fn first_word(s: Seq<char>) -> Option<Seq<char>> {
    if words(s).len() > 0 {
        Some(words(s)[0])
    } else {
        None
    }
}

/// What `/proc/meminfo` gives: the share of memory in use, where the total is
/// there.
pub open spec fn memory_readings(text: Seq<char>) -> Seq<Reading> {
    match field(lines(text), "MemTotal:"@) {
        Some(all) => seq![
            Reading {
                label: "Memory"@,
                unit: Unit::Percent,
                amount: Amount::Used {
                    size: all,
                    available: field(lines(text), "MemAvailable:"@),
                },
            },
        ],
        None => seq![],
    }
}

/// The characters of an optional string.
pub open spec fn string_view(t: Option<String>) -> Option<Seq<char>> {
    match t {
        Some(s) => Some(s@),
        None => None,
    }
}

/// The amount in kilobytes that a field of `/proc/meminfo` states: its first word.
pub fn kb_word(rest: &Vec<char>) -> (r: Option<String>)
    ensures
        string_view(r) == first_word(rest@),
{
    let ws = split_words(rest);
    if ws.len() > 0 {
        assert(views(ws@)[0] == ws@[0]@);
        let t = text_of(&ws[0], 0, ws[0].len());
        assert(t@ =~= ws@[0]@);
        Some(t)
    } else {
        None
    }
}

fn find_field(ls: &Vec<Vec<char>>, name: &str) -> (r: Option<String>)
    ensures
        string_view(r) == field(views(ls@), name@),
{
    let mut r: Option<String> = None;
    let size: usize = chars_of(name).len();
    let mut i: usize = 0;
    let ghost all = views(ls@);
    assert(all.take(0) =~= seq![]);
    while i < ls.len()
        invariant
            i <= ls@.len(),
            all == views(ls@),
            size == name@.len(),
            string_view(r) == field(all.take(i as int), name@),
        decreases ls@.len() - i,
    {
        assert(all.take(i + 1).drop_last() =~= all.take(i as int));
        assert(all.take(i + 1).last() == ls@[i as int]@);
        if begins(&ls[i], name) {
            let rest = copy_range(&ls[i], size, ls[i].len());
            assert(rest@ =~= ls@[i as int]@.skip(size as int));
            r = kb_word(&rest);
        }
        i += 1;
    }
    assert(all.take(all.len() as int) =~= all);
    r
}

/// The sample that `/proc/meminfo` gives.
pub fn memory_samples(text: &str) -> (r: Vec<Sample<Quantity>>)
    ensures
        readings(r@) == memory_readings(text@),
{
    let mut out: Vec<Sample<Quantity>> = Vec::new();
    assert(readings(out@) =~= seq![]);
    let chars = chars_of(text);
    let ls = split_lines(&chars);
    let total = find_field(&ls, "MemTotal:");
    let available = find_field(&ls, "MemAvailable:");
    if let Some(t) = total {
        add_sample(
            &mut out,
            "Memory".to_owned(),
            Unit::Percent,
            Quantity::Used { size: t, available },
        );
    }
    assert(readings(out@) =~= memory_readings(text@));
    out
}

/// The counters of a CPU are remembered as its last line has them.
pub proof fn lemma_counters_are_remembered(
    before: Map<Seq<char>, (u64, u64)>,
    ls: Seq<Seq<char>>,
    i: int,
)
    requires
        0 <= i < ls.len(),
        is_full(ls[i]),
        forall|j: int|
            i < j < ls.len() && is_full(#[trigger] ls[j]) ==> line_name(ls[j]) != line_name(ls[i]),
    ensures
        lookup(cpu_after(before, ls), line_name(ls[i])) == Some(
            (idle_ticks(line_counters(ls[i])) as u64, total(line_counters(ls[i])) as u64),
        ),
    decreases ls.len(),
{
    if i < ls.len() - 1 {
        let p = ls.drop_last();
        assert forall|j: int| i < j < p.len() && is_full(#[trigger] p[j]) implies line_name(p[j])
            != line_name(p[i]) by {
            assert(is_full(ls[j]));
        }
        lemma_counters_are_remembered(before, p, i);
        if is_full(ls[ls.len() - 1]) {
            assert(line_name(ls[ls.len() - 1]) != line_name(ls[i]));
        }
    }
}

/// The load of a CPU is the load since the last poll: its line is held against the
/// counters that were read then.
pub proof fn lemma_load_is_since_last_poll(
    before: Map<Seq<char>, (u64, u64)>,
    ls: Seq<Seq<char>>,
    i: int,
)
    requires
        0 <= i < ls.len(),
        is_full(ls[i]),
        forall|j: int|
            0 <= j < i && is_full(#[trigger] ls[j]) ==> line_name(ls[j]) != line_name(ls[i]),
    ensures
        cpu_readings(before, ls).contains(
            cpu_reading(lookup(before, line_name(ls[i])), ls[i]),
        ),
    decreases ls.len(),
{
    let p = ls.drop_last();
    let r = cpu_reading(lookup(before, line_name(ls[i])), ls[i]);
    if i == ls.len() - 1 {
        lemma_others_are_kept(before, p, line_name(ls[i]));
        assert(cpu_readings(before, ls).last() == r);
    } else {
        assert forall|j: int| 0 <= j < i && is_full(#[trigger] p[j]) implies line_name(p[j])
            != line_name(p[i]) by {
            assert(is_full(ls[j]));
        }
        lemma_load_is_since_last_poll(before, p, i);
        let k = choose|k: int|
            0 <= k < cpu_readings(before, p).len() && cpu_readings(before, p)[k] == r;
        assert(cpu_readings(before, ls)[k] == r);
    }
}

/// The counters of a CPU without a line stay as they are.
pub proof fn lemma_others_are_kept(
    before: Map<Seq<char>, (u64, u64)>,
    ls: Seq<Seq<char>>,
    name: Seq<char>,
)
    requires
        forall|j: int| 0 <= j < ls.len() && is_full(#[trigger] ls[j]) ==> line_name(ls[j]) != name,
    ensures
        lookup(cpu_after(before, ls), name) == lookup(before, name),
    decreases ls.len(),
{
    if ls.len() > 0 {
        let p = ls.drop_last();
        assert forall|j: int| 0 <= j < p.len() && is_full(#[trigger] p[j]) implies line_name(p[j])
            != name by {
            assert(is_full(ls[j]));
        }
        lemma_others_are_kept(before, p, name);
        if is_full(ls[ls.len() - 1]) {
            assert(line_name(ls[ls.len() - 1]) != name);
        }
    }
}

/// Whether no CPU has two lines with all counters.
pub open spec fn names_differ(ls: Seq<Seq<char>>) -> bool {
    forall|i: int, j: int|
        0 <= i < j < ls.len() && is_full(#[trigger] ls[i]) && is_full(#[trigger] ls[j])
            ==> line_name(ls[i]) != line_name(ls[j])
}

/// CPUs of different names have different labels.
proof fn lemma_cpu_labels(a: Seq<char>, b: Seq<char>)
    requires
        a.len() >= 3,
        b.len() >= 3,
        a.take(3) == b.take(3),
        a != b,
    ensures
        cpu_label(a) != cpu_label(b),
{
    lemma_core_label(a.skip(3));
    lemma_core_label(b.skip(3));
    if cpu_label(a) == cpu_label(b) {
        let head = "CPU core "@;
        assert((head + a.skip(3)).skip(head.len() as int) =~= a.skip(3));
        assert((head + b.skip(3)).skip(head.len() as int) =~= b.skip(3));
        assert(a =~= a.take(3) + a.skip(3));
        assert(b =~= b.take(3) + b.skip(3));
    }
}

/// The lines that count as being about CPUs begin with `cpu`.
proof fn lemma_cpu_lines(ls: Seq<Seq<char>>, i: int)
    requires
        0 <= i < cpu_count(ls),
    ensures
        cpu_count(ls) <= ls.len(),
        "cpu"@.is_prefix_of(ls[i]),
    decreases ls.len(),
{
    if ls.len() > 0 && "cpu"@.is_prefix_of(ls[0]) {
        lemma_cpu_count(ls.skip(1));
        if i > 0 {
            lemma_cpu_lines(ls.skip(1), i - 1);
        }
    }
}

proof fn lemma_cpu_count(ls: Seq<Seq<char>>)
    ensures
        0 <= cpu_count(ls) <= ls.len(),
    decreases ls.len(),
{
    if ls.len() > 0 {
        lemma_cpu_count(ls.skip(1));
    }
}

/// Every CPU has a label of its own, and it goes to the CPUs: no two of them share a
/// series.
pub proof fn lemma_cpu_labels_differ(before: Map<Seq<char>, (u64, u64)>, text: Seq<char>)
    requires
        names_differ(cpu_lines(text)),
    ensures
        labels_differ(cpu_readings(before, cpu_lines(text))),
        all_owned(cpu_readings(before, cpu_lines(text)), Owner::Cpu),
{
    let ls = cpu_lines(text);
    lemma_cpu_count(lines(text));
    assert forall|i: int| 0 <= i < ls.len() implies "cpu"@.is_prefix_of(#[trigger] ls[i]) by {
        lemma_cpu_lines(lines(text), i);
    }
    lemma_readings_of_lines(before, ls);
}

proof fn lemma_readings_of_lines(before: Map<Seq<char>, (u64, u64)>, ls: Seq<Seq<char>>)
    requires
        names_differ(ls),
        forall|i: int| 0 <= i < ls.len() ==> "cpu"@.is_prefix_of(#[trigger] ls[i]),
    ensures
        labels_differ(cpu_readings(before, ls)),
        all_owned(cpu_readings(before, ls), Owner::Cpu),
        forall|k: int|
            0 <= k < cpu_readings(before, ls).len() ==> exists|i: int|
                0 <= i < ls.len() && is_full(#[trigger] ls[i]) && (#[trigger] cpu_readings(
                    before,
                    ls,
                )[k]).label == cpu_label(line_name(ls[i])),
    decreases ls.len(),
{
    if ls.len() > 0 {
        let p = ls.drop_last();
        let n = ls.len() - 1;
        assert forall|i: int, j: int|
            0 <= i < j < p.len() && is_full(#[trigger] p[i]) && is_full(
                #[trigger] p[j],
            ) implies line_name(p[i]) != line_name(p[j]) by {
            assert(is_full(ls[i]) && is_full(ls[j]));
        }
        assert forall|i: int| 0 <= i < p.len() implies "cpu"@.is_prefix_of(#[trigger] p[i]) by {
            assert("cpu"@.is_prefix_of(ls[i]));
        }
        lemma_readings_of_lines(before, p);
        let had = cpu_readings(before, p);
        let rs = cpu_readings(before, ls);
        let name = line_name(ls[n]);
        lemma_fixed_labels();
        lemma_core_label(name.skip(3));
        assert("cpu"@.is_prefix_of(ls[n]));
        assert forall|k: int| 0 <= k < rs.len() implies exists|i: int|
            0 <= i < ls.len() && is_full(#[trigger] ls[i]) && (#[trigger] rs[k]).label == cpu_label(
                line_name(ls[i]),
            ) by {
            if k < had.len() {
                assert(rs[k] == had[k]);
                let i = choose|i: int|
                    0 <= i < p.len() && is_full(#[trigger] p[i]) && had[k].label == cpu_label(
                        line_name(p[i]),
                    );
                assert(is_full(ls[i]));
            } else {
                assert(is_full(ls[n]));
            }
        }
        assert forall|i: int, j: int| 0 <= i < j < rs.len() implies (#[trigger] rs[i]).label != (
        #[trigger] rs[j]).label by {
            if j < had.len() {
                assert(had[i].label != had[j].label);
            } else {
                let k = choose|k: int|
                    0 <= k < p.len() && is_full(#[trigger] p[k]) && had[i].label == cpu_label(
                        line_name(p[k]),
                    );
                assert(is_full(ls[k]) && is_full(ls[n]));
                assert("cpu"@.is_prefix_of(ls[k]));
                lemma_cpu_name(ls[k]);
                lemma_cpu_name(ls[n]);
                lemma_cpu_labels(line_name(ls[k]), name);
            }
        }
        assert forall|k: int| 0 <= k < rs.len() implies owner((#[trigger] rs[k]).label)
            == Owner::Cpu by {
            if k < had.len() {
                assert(owner(had[k].label) == Owner::Cpu);
            }
        }
    }
}

/// The numbers among words are read one by one: each word that is a number gives it, and
/// no other word gives one.
pub proof fn lemma_numbers_are_read_one_by_one(
    a: Seq<Seq<char>>,
    b: Seq<Seq<char>>,
    word: Seq<char>,
)
    ensures
        numbers(Seq::<Seq<char>>::empty()) == Seq::<u64>::empty(),
        number(word) matches Some(n) ==> numbers(seq![word]) == seq![n],
        number(word) is None ==> numbers(seq![word]) == Seq::<u64>::empty(),
        numbers(a + b) == numbers(a) + numbers(b),
    decreases b.len(),
{
    assert(seq![word].drop_last() =~= seq![]);
    assert(numbers(Seq::<Seq<char>>::empty()) == Seq::<u64>::empty());
    if number(word) is Some {
        assert(numbers(seq![word]) =~= seq![number(word)->0]);
    }
    if b.len() == 0 {
        assert(a + b =~= a);
        assert(numbers(a) + numbers(b) =~= numbers(a));
    } else {
        lemma_numbers_are_read_one_by_one(a, b.drop_last(), word);
        assert((a + b).drop_last() =~= a + b.drop_last());
        assert((a + b).last() == b.last());
        assert(numbers(a + b) =~= numbers(a) + numbers(b));
    }
}

/// Ticks add up: every counter is part of the total, and nothing else is.
pub proof fn lemma_ticks_add_up(a: Seq<u64>, b: Seq<u64>, n: u64)
    ensures
        total(Seq::<u64>::empty()) == 0,
        total(seq![n]) == n,
        total(a + b) == total(a) + total(b),
    decreases b.len(),
{
    assert(seq![n].drop_last() =~= seq![]);
    assert(total(Seq::<u64>::empty()) == 0);
    if b.len() == 0 {
        assert(a + b =~= a);
    } else {
        lemma_ticks_add_up(a, b.drop_last(), n);
        assert((a + b).drop_last() =~= a + b.drop_last());
        assert((a + b).last() == b.last());
    }
}

/// The lines about CPUs are all lines up to the first that does not begin with `cpu`.
pub proof fn lemma_cpu_lines_come_first(text: Seq<char>)
    ensures
        cpu_lines(text).len() <= lines(text).len(),
        forall|i: int|
            0 <= i < cpu_lines(text).len() ==> #[trigger] cpu_lines(text)[i] == lines(text)[i]
                && "cpu"@.is_prefix_of(lines(text)[i]),
        cpu_lines(text).len() < lines(text).len() ==> !"cpu"@.is_prefix_of(
            lines(text)[cpu_lines(text).len() as int],
        ),
{
    let ls = lines(text);
    lemma_cpu_count(ls);
    assert forall|i: int| 0 <= i < cpu_lines(text).len() implies #[trigger] cpu_lines(text)[i]
        == ls[i] && "cpu"@.is_prefix_of(ls[i]) by {
        lemma_cpu_lines(ls, i);
    }
    lemma_cpu_lines_stop(ls);
}

proof fn lemma_cpu_lines_stop(ls: Seq<Seq<char>>)
    ensures
        cpu_count(ls) < ls.len() ==> !"cpu"@.is_prefix_of(ls[cpu_count(ls) as int]),
    decreases ls.len(),
{
    if ls.len() > 0 && "cpu"@.is_prefix_of(ls[0]) {
        lemma_cpu_lines_stop(ls.skip(1));
        lemma_cpu_count(ls.skip(1));
        if cpu_count(ls) < ls.len() {
            assert(ls[cpu_count(ls) as int] == ls.skip(1)[cpu_count(ls) - 1]);
        }
    }
}

/// A line about a CPU with at least five counters, however many more, gives one reading.
/// It goes by the name of the CPU, and tells what was idle of the ticks that have passed
/// since the counters that were read before: the fourth and the fifth counter are idle,
/// and all of them together are the ticks. These two are remembered under the name. A
/// line with fewer counters gives nothing and changes nothing.
pub proof fn lemma_cpu_line(before: Map<Seq<char>, (u64, u64)>, line: Seq<char>)
    requires
        words(line).len() > 0,
        total(numbers(words(line).skip(1))) <= u64::MAX,
    ensures
        ({
            let name = words(line)[0];
            let ns = numbers(words(line).skip(1));
            let rs = cpu_readings(before, seq![line]);
            let after = cpu_after(before, seq![line]);
            &&& ns.len() >= 5 ==> {
                &&& rs.len() == 1
                &&& name == "cpu"@ ==> rs[0].label == "CPU total"@
                &&& name != "cpu"@ ==> rs[0].label == "CPU core "@ + name.skip(3)
                &&& rs[0].unit == Unit::Percent
                &&& !before.contains_key(name) || total(ns) <= before[name].1 ==> rs[0].amount == (
                Amount::Busy { idle: 0, total: 0 })
                &&& before.contains_key(name) && total(ns) > before[name].1
                    ==> (rs[0].amount matches Amount::Busy { idle, total: ticks } && ticks == total(
                    ns,
                ) - before[name].1 && (ns[3] + ns[4] >= before[name].0 ==> idle == ns[3] + ns[4]
                    - before[name].0) && (ns[3] + ns[4] < before[name].0 ==> idle == 0))
                &&& after.contains_key(name)
                &&& after[name].0 == ns[3] + ns[4]
                &&& after[name].1 == total(ns)
                &&& forall|other: Seq<char>|
                    other != name ==> #[trigger] after.contains_key(other) == before.contains_key(
                        other,
                    ) && (before.contains_key(other) ==> after[other] == before[other])
            }
            &&& ns.len() < 5 ==> rs.len() == 0 && after == before
        }),
{
    let ls = seq![line];
    let ns = numbers(words(line).skip(1));
    assert(ls.drop_last() =~= seq![]);
    assert(ls.last() == line);
    assert(cpu_after(before, seq![]) == before);
    assert(cpu_readings(before, seq![]) == Seq::<Reading>::empty());
    if ns.len() >= 5 {
        lemma_idle_within_total(ns);
        assert(is_full(line));
    } else {
        assert(!is_full(line));
    }
}

/// Lines are read one after the other: what the later ones give is what they give against
/// the counters that the earlier ones left.
pub proof fn lemma_cpu_lines_one_after_other(
    before: Map<Seq<char>, (u64, u64)>,
    a: Seq<Seq<char>>,
    b: Seq<Seq<char>>,
)
    ensures
        cpu_after(before, a + b) == cpu_after(cpu_after(before, a), b),
        cpu_readings(before, a + b) == cpu_readings(before, a) + cpu_readings(
            cpu_after(before, a),
            b,
        ),
        cpu_after(before, Seq::<Seq<char>>::empty()) == before,
        cpu_readings(before, Seq::<Seq<char>>::empty()) == Seq::<Reading>::empty(),
    decreases b.len(),
{
    let mid = cpu_after(before, a);
    assert(cpu_after(before, Seq::<Seq<char>>::empty()) == before);
    assert(cpu_readings(before, Seq::<Seq<char>>::empty()) == Seq::<Reading>::empty());
    if b.len() == 0 {
        assert(a + b =~= a);
        assert(cpu_readings(before, a) + cpu_readings(mid, b) =~= cpu_readings(before, a));
    } else {
        lemma_cpu_lines_one_after_other(before, a, b.drop_last());
        assert((a + b).drop_last() =~= a + b.drop_last());
        assert((a + b).last() == b.last());
        assert(cpu_readings(before, a + b) =~= cpu_readings(before, a) + cpu_readings(mid, b));
    }
}

/// Every line about a CPU that has at least five counters gives exactly one reading, in
/// order, and no other line gives one. Given are the places of these lines.
pub proof fn lemma_every_cpu_is_sampled(
    before: Map<Seq<char>, (u64, u64)>,
    ls: Seq<Seq<char>>,
) -> (at: Seq<int>)
    ensures
        at.len() == cpu_readings(before, ls).len(),
        forall|k: int|
            0 <= k < at.len() ==> 0 <= #[trigger] at[k] < ls.len() && numbers(
                words(ls[at[k]]).skip(1),
            ).len() >= 5 && cpu_readings(before, ls)[k].label == (if words(ls[at[k]])[0]
                == "cpu"@ {
                "CPU total"@
            } else {
                "CPU core "@ + words(ls[at[k]])[0].skip(3)
            }),
        forall|k: int, n: int| 0 <= k < n < at.len() ==> #[trigger] at[k] < #[trigger] at[n],
        forall|i: int|
            0 <= i < ls.len() && numbers(words(#[trigger] ls[i]).skip(1)).len() >= 5 ==> at.contains(
                i,
            ),
    decreases ls.len(),
{
    if ls.len() == 0 {
        seq![]
    } else {
        let p = ls.drop_last();
        let last = ls.len() - 1;
        let had = lemma_every_cpu_is_sampled(before, p);
        let at = if is_full(ls[last]) {
            had.push(last)
        } else {
            had
        };
        assert forall|k: int| 0 <= k < at.len() implies 0 <= #[trigger] at[k] < ls.len() && numbers(
            words(ls[at[k]]).skip(1),
        ).len() >= 5 && cpu_readings(before, ls)[k].label == (if words(ls[at[k]])[0] == "cpu"@ {
            "CPU total"@
        } else {
            "CPU core "@ + words(ls[at[k]])[0].skip(3)
        }) by {
            if k < had.len() {
                assert(0 <= had[k] < p.len());
                assert(p[had[k]] == ls[had[k]]);
            }
        }
        assert forall|k: int, n: int| 0 <= k < n < at.len() implies #[trigger] at[k]
            < #[trigger] at[n] by {
            assert(0 <= had[k] < p.len());
            if n < had.len() {
                assert(had[k] < had[n]);
            }
        }
        assert forall|i: int|
            0 <= i < ls.len() && numbers(words(#[trigger] ls[i]).skip(1)).len()
                >= 5 implies at.contains(i) by {
            if i < last {
                assert(p[i] == ls[i]);
                assert(had.contains(i));
                let k = choose|k: int| 0 <= k < had.len() && had[k] == i;
                assert(at[k] == i);
            } else {
                assert(at[at.len() - 1] == i);
            }
        }
        at
    }
}

/// The load of a CPU is that between two polls: of the ticks by which its counters went
/// from the one to the other, as many were idle as its idle counters went. Given is the
/// place of the reading.
pub proof fn lemma_load_between_polls(
    before: Map<Seq<char>, (u64, u64)>,
    first: Seq<Seq<char>>,
    i: int,
    second: Seq<Seq<char>>,
    j: int,
) -> (k: int)
    requires
        0 <= i < first.len(),
        0 <= j < second.len(),
        words(first[i])[0] == words(second[j])[0],
        numbers(words(first[i]).skip(1)).len() >= 5,
        numbers(words(second[j]).skip(1)).len() >= 5,
        total(numbers(words(first[i]).skip(1))) <= total(numbers(words(second[j]).skip(1)))
            <= u64::MAX,
        numbers(words(first[i]).skip(1))[3] + numbers(words(first[i]).skip(1))[4] <= numbers(
            words(second[j]).skip(1),
        )[3] + numbers(words(second[j]).skip(1))[4],
        forall|n: int|
            i < n < first.len() ==> words(#[trigger] first[n])[0] != words(first[i])[0],
        forall|n: int| 0 <= n < j ==> words(#[trigger] second[n])[0] != words(second[j])[0],
    ensures
        ({
            let rs = cpu_readings(cpu_after(before, first), second);
            let a = numbers(words(first[i]).skip(1));
            let b = numbers(words(second[j]).skip(1));
            let name = words(second[j])[0];
            &&& 0 <= k < rs.len()
            &&& name == "cpu"@ ==> rs[k].label == "CPU total"@
            &&& name != "cpu"@ ==> rs[k].label == "CPU core "@ + name.skip(3)
            &&& rs[k].amount matches Amount::Busy { idle, total: ticks } && ticks == total(b)
                - total(a) && (total(b) > total(a) ==> idle == (b[3] + b[4]) - (a[3] + a[4])) && (
            total(b) == total(a) ==> idle == 0)
        }),
{
    let mid = cpu_after(before, first);
    let name = words(second[j])[0];
    lemma_idle_within_total(numbers(words(first[i]).skip(1)));
    lemma_idle_within_total(numbers(words(second[j]).skip(1)));
    assert(is_full(first[i]) && is_full(second[j]));
    lemma_counters_are_remembered(before, first, i);
    lemma_load_is_since_last_poll(mid, second, j);
    let r = cpu_reading(lookup(mid, name), second[j]);
    choose|k: int| 0 <= k < cpu_readings(mid, second).len() && cpu_readings(mid, second)[k] == r
}

/// Counters are turned down only where those of one CPU add up to more than 64 bits.
pub proof fn lemma_counters_fit_in_64_bits(text: Seq<char>)
    ensures
        counters_fit(text) <==> forall|i: int|
            0 <= i < cpu_lines(text).len() && numbers(
                words(#[trigger] cpu_lines(text)[i]).skip(1),
            ).len() >= 5 ==> total(numbers(words(cpu_lines(text)[i]).skip(1))) <= u64::MAX,
{
    if counters_fit(text) {
        assert forall|i: int|
            0 <= i < cpu_lines(text).len() && numbers(
                words(#[trigger] cpu_lines(text)[i]).skip(1),
            ).len() >= 5 implies total(numbers(words(cpu_lines(text)[i]).skip(1))) <= u64::MAX by {
            assert(is_full(cpu_lines(text)[i]));
        }
    }
}

/// What a field says is its first word, in the last line that begins with its name.
proof fn lemma_field_is_in_last_line(ls: Seq<Seq<char>>, name: Seq<char>, i: int, rest: Seq<char>)
    requires
        0 <= i < ls.len(),
        ls[i] == name + rest,
        forall|k: int| i < k < ls.len() ==> !name.is_prefix_of(#[trigger] ls[k]),
    ensures
        words(rest).len() > 0 ==> field(ls, name) == Some(words(rest)[0]),
        words(rest).len() == 0 ==> field(ls, name) is None,
    decreases ls.len(),
{
    if i == ls.len() - 1 {
        assert(ls.last().subrange(0, name.len() as int) =~= name);
        assert(ls.last().skip(name.len() as int) =~= rest);
    } else {
        assert(!name.is_prefix_of(ls[ls.len() - 1]));
        let p = ls.drop_last();
        assert forall|k: int| i < k < p.len() implies !name.is_prefix_of(#[trigger] p[k]) by {
            assert(p[k] == ls[k]);
        }
        lemma_field_is_in_last_line(p, name, i, rest);
    }
}

proof fn lemma_field_is_missing(ls: Seq<Seq<char>>, name: Seq<char>)
    requires
        forall|k: int| 0 <= k < ls.len() ==> !name.is_prefix_of(#[trigger] ls[k]),
    ensures
        field(ls, name) is None,
    decreases ls.len(),
{
    if ls.len() > 0 {
        assert(!name.is_prefix_of(ls[ls.len() - 1]));
        let p = ls.drop_last();
        assert forall|k: int| 0 <= k < p.len() implies !name.is_prefix_of(#[trigger] p[k]) by {
            assert(p[k] == ls[k]);
        }
        lemma_field_is_missing(p, name);
    }
}

/// Memory usage is what `MemTotal:` and `MemAvailable:` say: of each the first word
/// after the name, in the last line that begins with it.
pub proof fn lemma_memory_in_use(
    text: Seq<char>,
    i: int,
    size: Seq<char>,
    j: int,
    available: Seq<char>,
)
    requires
        0 <= i < lines(text).len(),
        lines(text)[i] == "MemTotal:"@ + size,
        forall|k: int|
            i < k < lines(text).len() ==> !"MemTotal:"@.is_prefix_of(#[trigger] lines(text)[k]),
        words(size).len() > 0,
        0 <= j < lines(text).len(),
        lines(text)[j] == "MemAvailable:"@ + available,
        forall|k: int|
            j < k < lines(text).len() ==> !"MemAvailable:"@.is_prefix_of(#[trigger] lines(text)[k]),
        words(available).len() > 0,
    ensures
        memory_readings(text) == seq![
            Reading {
                label: "Memory"@,
                unit: Unit::Percent,
                amount: Amount::Used {
                    size: words(size)[0],
                    available: Some(words(available)[0]),
                },
            },
        ],
{
    lemma_field_is_in_last_line(lines(text), "MemTotal:"@, i, size);
    lemma_field_is_in_last_line(lines(text), "MemAvailable:"@, j, available);
}

/// Where nothing says how much memory is available, none is known to be.
pub proof fn lemma_memory_without_available(text: Seq<char>, i: int, size: Seq<char>)
    requires
        0 <= i < lines(text).len(),
        lines(text)[i] == "MemTotal:"@ + size,
        forall|k: int|
            i < k < lines(text).len() ==> !"MemTotal:"@.is_prefix_of(#[trigger] lines(text)[k]),
        words(size).len() > 0,
        forall|k: int|
            0 <= k < lines(text).len() ==> !"MemAvailable:"@.is_prefix_of(#[trigger] lines(text)[k]),
    ensures
        memory_readings(text) == seq![
            Reading {
                label: "Memory"@,
                unit: Unit::Percent,
                amount: Amount::Used { size: words(size)[0], available: None },
            },
        ],
{
    lemma_field_is_in_last_line(lines(text), "MemTotal:"@, i, size);
    lemma_field_is_missing(lines(text), "MemAvailable:"@);
}

/// Where nothing says how much memory there is, nothing is told of it.
pub proof fn lemma_memory_without_total(text: Seq<char>, i: int, size: Seq<char>)
    requires
        (forall|k: int|
            0 <= k < lines(text).len() ==> !"MemTotal:"@.is_prefix_of(#[trigger] lines(text)[k]))
            || (0 <= i < lines(text).len() && lines(text)[i] == "MemTotal:"@ + size && words(
            size,
        ).len() == 0 && forall|k: int|
            i < k < lines(text).len() ==> !"MemTotal:"@.is_prefix_of(#[trigger] lines(text)[k])),
    ensures
        memory_readings(text) == Seq::<Reading>::empty(),
{
    if forall|k: int|
        0 <= k < lines(text).len() ==> !"MemTotal:"@.is_prefix_of(#[trigger] lines(text)[k]) {
        lemma_field_is_missing(lines(text), "MemTotal:"@);
    } else {
        lemma_field_is_in_last_line(lines(text), "MemTotal:"@, i, size);
    }
}

proof fn lemma_other_line_does_not_matter(
    a: Seq<Seq<char>>,
    line: Seq<char>,
    b: Seq<Seq<char>>,
    name: Seq<char>,
)
    requires
        !name.is_prefix_of(line),
    ensures
        field(a.push(line) + b, name) == field(a + b, name),
    decreases b.len(),
{
    if b.len() == 0 {
        assert(a.push(line) + b =~= a.push(line));
        assert(a.push(line).drop_last() =~= a);
        assert(a + b =~= a);
    } else {
        lemma_other_line_does_not_matter(a, line, b.drop_last(), name);
        assert((a.push(line) + b).drop_last() =~= a.push(line) + b.drop_last());
        assert((a + b).drop_last() =~= a + b.drop_last());
        assert((a.push(line) + b).last() == b.last());
        assert((a + b).last() == b.last());
    }
}

/// Lines that begin with neither name do not matter: memory usage is the same without
/// them.
pub proof fn lemma_other_memory_lines_do_not_matter(a: Seq<char>, line: Seq<char>, b: Seq<char>)
    requires
        a.len() == 0 || a.last() == '\n',
        forall|i: int| 0 <= i < line.len() ==> #[trigger] line[i] != '\n',
        !"MemTotal:"@.is_prefix_of(line),
        !"MemAvailable:"@.is_prefix_of(line),
    ensures
        memory_readings(a + line.push('\n') + b) == memory_readings(a + b),
{
    let x = line.push('\n');
    let none = Seq::<char>::empty();
    let bare = if line.len() > 0 && line.last() == '\r' {
        line.drop_last()
    } else {
        line
    };
    assert(lines(x) == seq![bare]) by {
        lemma_last_line_may_lack_its_ending(none);
        if line.len() > 0 && line.last() == '\r' {
            lemma_line_feed_ends_a_line(bare, none);
            assert(bare.push('\r') =~= line);
        } else {
            lemma_line_feed_ends_a_line(bare, none);
        }
        assert(x + none =~= x);
        assert(seq![bare] + lines(none) =~= seq![bare]);
    }
    assert((a + x).last() == '\n');
    lemma_lines_of_both(a, x);
    lemma_lines_of_both(a + x, b);
    lemma_lines_of_both(a, b);
    assert(lines(a + x + b) =~= lines(a).push(bare) + lines(b));
    lemma_bare_line(line, bare, "MemTotal:"@);
    lemma_bare_line(line, bare, "MemAvailable:"@);
    lemma_other_line_does_not_matter(lines(a), bare, lines(b), "MemTotal:"@);
    lemma_other_line_does_not_matter(lines(a), bare, lines(b), "MemAvailable:"@);
}

proof fn lemma_bare_line(line: Seq<char>, bare: Seq<char>, name: Seq<char>)
    requires
        bare == line || (line.len() > 0 && bare == line.drop_last()),
        !name.is_prefix_of(line),
    ensures
        !name.is_prefix_of(bare),
{
    if name.is_prefix_of(bare) {
        assert(line.subrange(0, name.len() as int) =~= bare.subrange(0, name.len() as int));
    }
}

/// An amount in kilobytes is the first word there is.
pub proof fn lemma_amount_is_the_first_word(rest: Seq<char>)
    ensures
        words(rest).len() > 0 ==> first_word(rest) == Some(words(rest)[0]),
        words(rest).len() == 0 ==> first_word(rest) is None,
{
}

/// Every line about a CPU that has at least five counters is remembered under the name of
/// the CPU, the fourth and the fifth counter as idle and all together as the total; of
/// several lines about one CPU the last decides.
pub proof fn lemma_every_cpu_is_remembered(
    before: Map<Seq<char>, (u64, u64)>,
    ls: Seq<Seq<char>>,
    i: int,
)
    requires
        0 <= i < ls.len(),
        numbers(words(ls[i]).skip(1)).len() >= 5,
        total(numbers(words(ls[i]).skip(1))) <= u64::MAX,
        forall|j: int|
            i < j < ls.len() ==> words(#[trigger] ls[j])[0] != words(ls[i])[0] || numbers(
                words(ls[j]).skip(1),
            ).len() < 5,
    ensures
        cpu_after(before, ls).contains_key(words(ls[i])[0]),
        cpu_after(before, ls)[words(ls[i])[0]].0 == numbers(words(ls[i]).skip(1))[3] + numbers(
            words(ls[i]).skip(1),
        )[4],
        cpu_after(before, ls)[words(ls[i])[0]].1 == total(numbers(words(ls[i]).skip(1))),
{
    lemma_idle_within_total(numbers(words(ls[i]).skip(1)));
    assert(is_full(ls[i]));
    assert forall|j: int| i < j < ls.len() && is_full(#[trigger] ls[j]) implies line_name(ls[j])
        != line_name(ls[i]) by {
        assert(words(ls[j])[0] != words(ls[i])[0] || numbers(words(ls[j]).skip(1)).len() < 5);
    }
    lemma_counters_are_remembered(before, ls, i);
}

} // verus!
