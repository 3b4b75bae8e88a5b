//! Readings of hardware sensors: `lm-sensors` and the NVIDIA GPU.
use vstd::prelude::*;
use vstd::utf8::{decode_utf8, valid_utf8};

use crate::json::{document_of_bytes, parse_bytes, Json, JsonTree};
use crate::names::{all_owned, labels_differ, owner, owner_of, Owner};
use crate::sample::{add_sample, readings, Amount, Quantity, Reading, Sample};
use crate::text::{
    begins, chars_of, decimal, ends, is_digit, joined, lemma_decimal, lemma_separator_ends_a_piece,
    lines, pieces, push_decimal, split_at_char, split_lines, text_of, trim, trimmed, views,
};
use crate::unit::Unit;

verus! {

/// The name of a chip without its adapter: what stands before the first hyphen.
pub open spec fn chip_name(chip: Seq<char>) -> Seq<char> {
    pieces(chip, '-')[0]
}

/// The name of a chip without its adapter, to keep labels short:
/// `coretemp-isa-0000` becomes `coretemp`.
pub fn short_chip(chip: &str) -> (r: String)
    ensures
        r@ == chip_name(chip@),
{
    let chars = chars_of(chip);
    let parts = split_at_char(&chars, '-');
    proof {
        assert(pieces(chars@, '-').len() > 0);
        assert(views(parts@)[0] == parts@[0]@);
    }
    let r = text_of(&parts[0], 0, parts[0].len());
    assert(r@ =~= parts@[0]@);
    r
}

/// What the value under a key is measured in: a temperature or a fan speed, if it
/// is the input of one.
pub open spec fn key_unit(key: Seq<char>) -> Option<Unit> {
    if "temp"@.is_prefix_of(key) && "_input"@.is_suffix_of(key) {
        Some(Unit::Celsius)
    } else if "fan"@.is_prefix_of(key) && "_input"@.is_suffix_of(key) {
        Some(Unit::Rpm)
    } else {
        None
    }
}

fn unit_of_key(key: &str) -> (r: Option<Unit>)
    ensures
        r == key_unit(key@),
{
    let chars = chars_of(key);
    if begins(&chars, "temp") && ends(&chars, "_input") {
        Some(Unit::Celsius)
    } else if begins(&chars, "fan") && ends(&chars, "_input") {
        Some(Unit::Rpm)
    } else {
        None
    }
}

/// An input of a sensor: a temperature or a fan speed.
pub struct Input {
    /// The chip, with its adapter.
    pub chip: Seq<char>,
    /// The feature of the chip.
    pub feature: Seq<char>,
    /// The key of the value.
    pub key: Seq<char>,
    /// What it is measured in.
    pub unit: Unit,
    /// The bit pattern of its value.
    pub bits: u64,
}

impl Input {
    /// The chip without its adapter, and the feature.
    pub open spec fn short(self) -> Seq<char> {
        chip_name(self.chip) + " "@ + self.feature
    }

    /// The chip with its adapter, and the feature.
    pub open spec fn with_adapter(self) -> Seq<char> {
        self.chip + " "@ + self.feature
    }

    /// The chip without its adapter, the feature and the key.
    pub open spec fn with_key(self) -> Seq<char> {
        self.short() + " "@ + self.key
    }

    /// The chip with its adapter, the feature and the key.
    pub open spec fn with_both(self) -> Seq<char> {
        self.with_adapter() + " "@ + self.key
    }

    /// A mark with the place of the input in the document, and all that is known of
    /// it.
    pub open spec fn numbered(self, mark: Seq<char>, place: nat) -> Seq<char> {
        mark + decimal(place) + " "@ + self.with_both()
    }

    /// Whether a label is one of the longer ones of the input at this place.
    pub open spec fn is_longer(self, mark: Seq<char>, place: nat, label: Seq<char>) -> bool {
        ||| label == self.with_adapter()
        ||| label == self.with_key()
        ||| label == self.with_both()
        ||| label == self.numbered(mark, place)
    }
}

/// The number of number signs at the start of text.
pub open spec fn signs(s: Seq<char>) -> nat
    decreases s.len(),
{
    if s.len() == 0 || s[0] != '#' {
        0
    } else {
        1 + signs(s.skip(1))
    }
}

/// The most number signs at the start of a short label.
pub open spec fn most_signs(ins: Seq<Input>) -> nat
    decreases ins.len(),
{
    if ins.len() == 0 {
        0
    } else {
        let most = most_signs(ins.drop_last());
        let n = signs(ins.last().short());
        if n > most {
            n
        } else {
            most
        }
    }
}

/// A row of number signs with which no short label begins.
pub open spec fn mark(ins: Seq<Input>) -> Seq<char> {
    Seq::new(most_signs(ins) + 1, |i: int| '#')
}

/// Whether an input goes by its short label: no other input has the same one, and it
/// does not go to another source.
pub open spec fn goes_by_short(ins: Seq<Input>, i: int) -> bool {
    &&& owner(ins[i].short()) == Owner::Sensors
    &&& forall|j: int|
        0 <= j < ins.len() && j != i ==> (#[trigger] ins[j]).short() != ins[i].short()
}

/// Whether input `i`, which does not go by its short label, can go by this one. It
/// must not go to another source, nor be the short label of another input, nor one of
/// the longer labels of another input that does not go by its short label either.
pub open spec fn is_free(ins: Seq<Input>, i: int, label: Seq<char>) -> bool {
    &&& owner(label) == Owner::Sensors
    &&& forall|j: int|
        0 <= j < ins.len() && j != i ==> label != (#[trigger] ins[j]).short() && (goes_by_short(
            ins,
            j,
        ) || !ins[j].is_longer(mark(ins), j as nat, label))
}

/// The label of an input: its short label, where no other input has the same one, nor
/// another source. Where one has, the first of the longer labels that is free.
///
/// The label of an input that goes by its short label depends on its chip and feature
/// alone. Any other label depends on which inputs there are as well. When an input
/// comes or goes whose short label is the same, a label can turn from the short one
/// into a longer one, or back. A longer label can change when an input comes or goes
/// that could have the same one, and a numbered label when the place of the input
/// changes, or the mark. The input then goes on as another series: its history begins
/// anew, and its on/off state is that of the new label.
pub open spec fn sensor_label(ins: Seq<Input>, i: int) -> Seq<char> {
    let x = ins[i];
    if goes_by_short(ins, i) {
        x.short()
    } else if is_free(ins, i, x.with_adapter()) {
        x.with_adapter()
    } else if is_free(ins, i, x.with_key()) {
        x.with_key()
    } else if is_free(ins, i, x.with_both()) {
        x.with_both()
    } else {
        x.numbered(mark(ins), i as nat)
    }
}

/// The input that one value of a feature is, if it is one.
pub open spec fn value_inputs(
    chip: Seq<char>,
    feature: Seq<char>,
    entry: (Seq<char>, JsonTree),
) -> Seq<Input> {
    match (entry.1.double_bits(), key_unit(entry.0)) {
        (Some(bits), Some(unit)) => seq![Input { chip, feature, key: entry.0, unit, bits }],
        _ => seq![],
    }
}

/// The inputs among the values of a feature, in order.
pub open spec fn values_inputs(
    chip: Seq<char>,
    feature: Seq<char>,
    values: Seq<(Seq<char>, JsonTree)>,
) -> Seq<Input>
    decreases values.len(),
{
    if values.len() == 0 {
        seq![]
    } else {
        values_inputs(chip, feature, values.drop_last()) + value_inputs(
            chip,
            feature,
            values.last(),
        )
    }
}

/// The inputs of the features of a chip, in order. A feature that is not an object
/// has none.
pub open spec fn features_inputs(
    chip: Seq<char>,
    features: Seq<(Seq<char>, JsonTree)>,
) -> Seq<Input>
    decreases features.len(),
{
    if features.len() == 0 {
        seq![]
    } else {
        features_inputs(chip, features.drop_last()) + match features.last().1.members() {
            Some(values) => values_inputs(chip, features.last().0, values),
            None => seq![],
        }
    }
}

/// The inputs of chips, in order. A chip that is not an object has none.
pub open spec fn chips_inputs(chips: Seq<(Seq<char>, JsonTree)>) -> Seq<Input>
    decreases chips.len(),
{
    if chips.len() == 0 {
        seq![]
    } else {
        chips_inputs(chips.drop_last()) + match chips.last().1.members() {
            Some(features) => features_inputs(chips.last().0, features),
            None => seq![],
        }
    }
}

/// The inputs in the output of `sensors -j`: every temperature and every fan input
/// of every chip.
pub open spec fn inputs(doc: JsonTree) -> Seq<Input> {
    match doc.members() {
        Some(chips) => chips_inputs(chips),
        None => seq![],
    }
}

/// What inputs give: a reading for each, under a label of its own.
pub open spec fn input_readings(ins: Seq<Input>) -> Seq<Reading> {
    Seq::new(
        ins.len(),
        |i: int|
            Reading {
                label: sensor_label(ins, i),
                unit: ins[i].unit,
                amount: Amount::Double(ins[i].bits),
            },
    )
}

/// What the output of `sensors -j` gives.
pub open spec fn sensor_readings(doc: JsonTree) -> Seq<Reading> {
    input_readings(inputs(doc))
}

/// An input, with the labels that can be made of it alone.
struct Entry {
    input: Ghost<Input>,
    unit: Unit,
    bits: u64,
    short: String,
    with_adapter: String,
    with_key: String,
    with_both: String,
}

impl Entry {
    /// The labels are those of the input.
    spec fn wf(self) -> bool {
        &&& self.unit == self.input@.unit
        &&& self.bits == self.input@.bits
        &&& self.short@ == self.input@.short()
        &&& self.with_adapter@ == self.input@.with_adapter()
        &&& self.with_key@ == self.input@.with_key()
        &&& self.with_both@ == self.input@.with_both()
    }
}

/// The inputs of entries.
spec fn entry_inputs(es: Seq<Entry>) -> Seq<Input> {
    es.map_values(|e: Entry| e.input@)
}

/// Each entry has the labels of its input.
spec fn entries_wf(es: Seq<Entry>) -> bool {
    forall|i: int| 0 <= i < es.len() ==> (#[trigger] es[i]).wf()
}

fn add_entry(out: &mut Vec<Entry>, chip: &str, feature: &str, key: &str, unit: Unit, bits: u64)
    requires
        entries_wf(old(out)@),
    ensures
        entries_wf(final(out)@),
        entry_inputs(final(out)@) == entry_inputs(old(out)@).push(
            Input { chip: chip@, feature: feature@, key: key@, unit, bits },
        ),
{
    let ghost input = Input { chip: chip@, feature: feature@, key: key@, unit, bits };
    let short = joined(joined(short_chip(chip).as_str(), " ").as_str(), feature);
    let with_adapter = joined(joined(chip, " ").as_str(), feature);
    let with_key = joined(joined(short.as_str(), " ").as_str(), key);
    let with_both = joined(joined(with_adapter.as_str(), " ").as_str(), key);
    let entry = Entry {
        input: Ghost(input),
        unit,
        bits,
        short,
        with_adapter,
        with_key,
        with_both,
    };
    out.push(entry);
    assert(entry_inputs(out@) =~= entry_inputs(old(out)@).push(input));
}

fn read_values(chip: &str, feature: &str, doc: &Json, out: &mut Vec<Entry>)
    requires
        entries_wf(old(out)@),
    ensures
        entries_wf(final(out)@),
        entry_inputs(final(out)@) == entry_inputs(old(out)@) + match doc.tree().members() {
            Some(values) => values_inputs(chip@, feature@, values),
            None => seq![],
        },
{
    let values = match doc.as_object() {
        Some(v) => v,
        None => {
            assert(entry_inputs(out@) =~= entry_inputs(old(out)@) + seq![]);
            return;
        },
    };
    let ghost es = doc.tree().members()->0;
    let ghost base = entry_inputs(out@);
    let mut i: usize = 0;
    assert(entry_inputs(out@) =~= base + values_inputs(chip@, feature@, es.take(0)));
    while i < values.len()
        invariant
            i <= values@.len() == es.len(),
            forall|k: int|
                0 <= k < es.len() ==> #[trigger] es[k] == (values@[k].0@, values@[k].1.tree()),
            entries_wf(out@),
            entry_inputs(out@) == base + values_inputs(chip@, feature@, es.take(i as int)),
        decreases values@.len() - i,
    {
        let ghost entry = es[i as int];
        let ghost had = entry_inputs(out@);
        assert(entry == (values@[i as int].0@, values@[i as int].1.tree()));
        assert(es.take(i + 1).drop_last() =~= es.take(i as int));
        let key = values[i].0.as_str();
        match (values[i].1.as_double_bits(), unit_of_key(key)) {
            (Some(bits), Some(unit)) => {
                add_entry(out, chip, feature, key, unit, bits);
            },
            _ => {},
        }
        assert(entry_inputs(out@) =~= had + value_inputs(chip@, feature@, entry));
        assert(entry_inputs(out@) =~= base + values_inputs(chip@, feature@, es.take(i + 1)));
        i += 1;
    }
    assert(es.take(es.len() as int) =~= es);
}

fn read_features(chip: &str, doc: &Json, out: &mut Vec<Entry>)
    requires
        entries_wf(old(out)@),
    ensures
        entries_wf(final(out)@),
        entry_inputs(final(out)@) == entry_inputs(old(out)@) + match doc.tree().members() {
            Some(features) => features_inputs(chip@, features),
            None => seq![],
        },
{
    let features = match doc.as_object() {
        Some(v) => v,
        None => {
            assert(entry_inputs(out@) =~= entry_inputs(old(out)@) + seq![]);
            return;
        },
    };
    let ghost es = doc.tree().members()->0;
    let ghost base = entry_inputs(out@);
    let mut i: usize = 0;
    assert(entry_inputs(out@) =~= base + features_inputs(chip@, es.take(0)));
    while i < features.len()
        invariant
            i <= features@.len() == es.len(),
            forall|k: int|
                0 <= k < es.len() ==> #[trigger] es[k] == (features@[k].0@, features@[k].1.tree()),
            entries_wf(out@),
            entry_inputs(out@) == base + features_inputs(chip@, es.take(i as int)),
        decreases features@.len() - i,
    {
        assert(es[i as int] == (features@[i as int].0@, features@[i as int].1.tree()));
        assert(es.take(i + 1).drop_last() =~= es.take(i as int));
        read_values(chip, features[i].0.as_str(), &features[i].1, out);
        assert(entry_inputs(out@) =~= base + features_inputs(chip@, es.take(i + 1)));
        i += 1;
    }
    assert(es.take(es.len() as int) =~= es);
}

fn read_inputs(doc: &Json) -> (r: Vec<Entry>)
    ensures
        entries_wf(r@),
        entry_inputs(r@) == inputs(doc.tree()),
{
    let mut out: Vec<Entry> = Vec::new();
    assert(entry_inputs(out@) =~= seq![]);
    let chips = match doc.as_object() {
        Some(v) => v,
        None => {
            return out;
        },
    };
    let ghost es = doc.tree().members()->0;
    let mut i: usize = 0;
    assert(entry_inputs(out@) =~= chips_inputs(es.take(0)));
    while i < chips.len()
        invariant
            i <= chips@.len() == es.len(),
            forall|k: int|
                0 <= k < es.len() ==> #[trigger] es[k] == (chips@[k].0@, chips@[k].1.tree()),
            entries_wf(out@),
            entry_inputs(out@) == chips_inputs(es.take(i as int)),
        decreases chips@.len() - i,
    {
        assert(es[i as int] == (chips@[i as int].0@, chips@[i as int].1.tree()));
        assert(es.take(i + 1).drop_last() =~= es.take(i as int));
        read_features(chips[i].0.as_str(), &chips[i].1, &mut out);
        i += 1;
    }
    assert(es.take(es.len() as int) =~= es);
    out
}

fn count_signs(text: &str) -> (r: usize)
    ensures
        r == signs(text@),
{
    let chars = chars_of(text);
    let mut n: usize = 0;
    assert(chars@.skip(0) =~= chars@);
    while n < chars.len() && chars[n] == '#'
        invariant
            n <= chars@.len(),
            signs(chars@) == n + signs(chars@.skip(n as int)),
        decreases chars@.len() - n,
    {
        assert(chars@.skip(n as int).skip(1) =~= chars@.skip(n + 1));
        n += 1;
    }
    n
}

fn make_mark(es: &Vec<Entry>) -> (r: String)
    requires
        entries_wf(es@),
    ensures
        r@ == mark(entry_inputs(es@)),
{
    let ghost ins = entry_inputs(es@);
    let mut most: usize = 0;
    let mut i: usize = 0;
    assert(ins.take(0) =~= seq![]);
    while i < es.len()
        invariant
            i <= es@.len() == ins.len(),
            entries_wf(es@),
            ins == entry_inputs(es@),
            most == most_signs(ins.take(i as int)),
        decreases es@.len() - i,
    {
        assert(es@[i as int].wf());
        assert(ins.take(i + 1).drop_last() =~= ins.take(i as int));
        let n = count_signs(es[i].short.as_str());
        if n > most {
            most = n;
        }
        i += 1;
    }
    assert(ins.take(ins.len() as int) =~= ins);
    let mut r = "#".to_owned();
    proof {
        reveal_strlit("#");
    }
    let mut k: usize = 0;
    assert(r@ =~= Seq::new(1, |i: int| '#'));
    while k < most
        invariant
            k <= most,
            r@ == Seq::new((k + 1) as nat, |i: int| '#'),
        decreases most - k,
    {
        r.push('#');
        k += 1;
        assert(r@ =~= Seq::new((k + 1) as nat, |i: int| '#'));
    }
    r
}

/// Inputs, with what their labels are made from.
struct Table {
    entries: Vec<Entry>,
    /// The numbered label of each input.
    numbered: Vec<String>,
    /// Whether each input goes by its short label.
    by_short: Vec<bool>,
}

impl Table {
    spec fn inputs(self) -> Seq<Input> {
        entry_inputs(self.entries@)
    }

    spec fn wf(self) -> bool {
        let ins = self.inputs();
        &&& entries_wf(self.entries@)
        &&& self.numbered@.len() == ins.len()
        &&& self.by_short@.len() == ins.len()
        &&& forall|i: int|
            0 <= i < ins.len() ==> (#[trigger] self.numbered@[i])@ == ins[i].numbered(
                mark(ins),
                i as nat,
            )
        &&& forall|i: int|
            0 <= i < ins.len() ==> #[trigger] self.by_short@[i] == goes_by_short(ins, i)
    }

    fn new(entries: Vec<Entry>) -> (r: Table)
        requires
            entries_wf(entries@),
        ensures
            r.wf(),
            r.entries == entries,
    {
        let ghost ins = entry_inputs(entries@);
        let m = make_mark(&entries);
        let mut numbered: Vec<String> = Vec::new();
        let mut by_short: Vec<bool> = Vec::new();
        let mut i: usize = 0;
        while i < entries.len()
            invariant
                i <= entries@.len() == ins.len(),
                entries_wf(entries@),
                ins == entry_inputs(entries@),
                m@ == mark(ins),
                numbered@.len() == i,
                by_short@.len() == i,
                forall|k: int|
                    0 <= k < i ==> (#[trigger] numbered@[k])@ == ins[k].numbered(m@, k as nat),
                forall|k: int| 0 <= k < i ==> #[trigger] by_short@[k] == goes_by_short(ins, k),
            decreases entries@.len() - i,
        {
            assert(entries@[i as int].wf());
            let mut label = m.clone();
            push_decimal(&mut label, i as u64);
            label.append(" ");
            label.append(entries[i].with_both.as_str());
            numbered.push(label);
            by_short.push(short_is_free(&entries, i));
            i += 1;
        }
        Table { entries, numbered, by_short }
    }

    /// Whether a label is one of the longer ones of input `j`.
    fn is_longer(&self, j: usize, label: &String) -> (r: bool)
        requires
            self.wf(),
            j < self.inputs().len(),
        ensures
            r == self.inputs()[j as int].is_longer(mark(self.inputs()), j as nat, label@),
    {
        let e = &self.entries[j];
        assert(self.entries@[j as int].wf());
        e.with_adapter == *label || e.with_key == *label || e.with_both == *label
            || self.numbered[j] == *label
    }

    /// Whether input `i` can go by a label.
    fn is_free(&self, i: usize, label: &String) -> (r: bool)
        requires
            self.wf(),
            i < self.inputs().len(),
        ensures
            r == is_free(self.inputs(), i as int, label@),
    {
        if owner_of(label.as_str()) != Owner::Sensors {
            return false;
        }
        let ghost ins = self.inputs();
        let mut j: usize = 0;
        while j < self.entries.len()
            invariant
                j <= self.entries@.len() == ins.len(),
                self.wf(),
                ins == self.inputs(),
                forall|k: int|
                    0 <= k < j && k != i ==> label@ != (#[trigger] ins[k]).short() && (
                    goes_by_short(ins, k) || !ins[k].is_longer(mark(ins), k as nat, label@)),
            decreases self.entries@.len() - j,
        {
            assert(self.entries@[j as int].wf());
            assert(ins[j as int] == self.entries@[j as int].input@);
            if j != i && (self.entries[j].short == *label || (!self.by_short[j] && self.is_longer(
                j,
                label,
            ))) {
                return false;
            }
            j += 1;
        }
        true
    }

    /// The label of input `i`.
    fn label(&self, i: usize) -> (r: String)
        requires
            self.wf(),
            i < self.inputs().len(),
        ensures
            r@ == sensor_label(self.inputs(), i as int),
    {
        let e = &self.entries[i];
        assert(self.entries@[i as int].wf());
        if self.by_short[i] {
            e.short.clone()
        } else if self.is_free(i, &e.with_adapter) {
            e.with_adapter.clone()
        } else if self.is_free(i, &e.with_key) {
            e.with_key.clone()
        } else if self.is_free(i, &e.with_both) {
            e.with_both.clone()
        } else {
            self.numbered[i].clone()
        }
    }
}

/// Whether input `i` goes by its short label.
fn short_is_free(es: &Vec<Entry>, i: usize) -> (r: bool)
    requires
        entries_wf(es@),
        i < es@.len(),
    ensures
        r == goes_by_short(entry_inputs(es@), i as int),
{
    let ghost ins = entry_inputs(es@);
    assert(es@[i as int].wf());
    if owner_of(es[i].short.as_str()) != Owner::Sensors {
        return false;
    }
    let mut j: usize = 0;
    while j < es.len()
        invariant
            j <= es@.len() == ins.len(),
            i < es@.len(),
            entries_wf(es@),
            ins == entry_inputs(es@),
            forall|k: int|
                0 <= k < j && k != i ==> (#[trigger] ins[k]).short() != ins[i as int].short(),
        decreases es@.len() - j,
    {
        assert(es@[i as int].wf());
        assert(es@[j as int].wf());
        assert(ins[j as int] == es@[j as int].input@);
        if j != i && es[j].short == es[i].short {
            return false;
        }
        j += 1;
    }
    true
}

/// The samples that the output of `sensors -j` gives.
pub fn sensor_samples(doc: &Json) -> (r: Vec<Sample<Quantity>>)
    ensures
        readings(r@) == sensor_readings(doc.tree()),
{
    let table = Table::new(read_inputs(doc));
    let ghost ins = table.inputs();
    let mut out: Vec<Sample<Quantity>> = Vec::new();
    let mut i: usize = 0;
    assert(readings(out@) =~= input_readings(ins).take(0));
    while i < table.entries.len()
        invariant
            i <= table.entries@.len() == ins.len(),
            table.wf(),
            ins == table.inputs(),
            readings(out@) == input_readings(ins).take(i as int),
        decreases table.entries@.len() - i,
    {
        let e = &table.entries[i];
        assert(table.entries@[i as int].wf());
        assert(ins[i as int] == table.entries@[i as int].input@);
        add_sample(&mut out, table.label(i), e.unit, Quantity::Double(e.bits));
        assert(readings(out@) =~= input_readings(ins).take(i + 1));
        i += 1;
    }
    assert(input_readings(ins).take(ins.len() as int) =~= input_readings(ins));
    out
}

/// The samples that the bytes which `sensors -j` put out give; none where they are
/// not a document.
pub fn sensor_samples_of(bytes: &Vec<u8>) -> (r: Vec<Sample<Quantity>>)
    ensures
        readings(r@) == match document_of_bytes(bytes@) {
            Some(doc) => sensor_readings(doc),
            None => seq![],
        },
{
    match parse_bytes(bytes.as_slice()) {
        Some(doc) => sensor_samples(&doc),
        None => {
            let out: Vec<Sample<Quantity>> = Vec::new();
            assert(readings(out@) =~= seq![]);
            out
        },
    }
}

/// `String::from_utf8` decodes bytes that are well-formed UTF-8, and refuses all
/// others.
#[verifier::external_body]
fn utf8_text(bytes: &Vec<u8>) -> (r: Option<String>)
    ensures
        match r {
            Some(t) => valid_utf8(bytes@) && t@ == decode_utf8(bytes@),
            None => !valid_utf8(bytes@),
        },
{
    String::from_utf8(bytes.clone()).ok()
}

/// What the first line of a GPU query gives: a temperature and, if there is a
/// second field, a fan speed in percent.
pub open spec fn gpu_readings(text: Seq<char>) -> Seq<Reading> {
    if lines(text).len() == 0 {
        seq![]
    } else {
        let fields = pieces(lines(text)[0], ',');
        let temperature = Reading {
            label: "nvidia GPU"@,
            unit: Unit::Celsius,
            amount: Amount::Decimal(trim(fields[0])),
        };
        if fields.len() > 1 {
            let fan = Reading {
                label: "GPU fan"@,
                unit: Unit::Percent,
                amount: Amount::Decimal(trim(fields[1])),
            };
            seq![temperature, fan]
        } else {
            seq![temperature]
        }
    }
}

/// The samples that a GPU query gives.
pub fn gpu_samples(text: &str) -> (r: Vec<Sample<Quantity>>)
    ensures
        readings(r@) == gpu_readings(text@),
{
    let mut out: Vec<Sample<Quantity>> = Vec::new();
    assert(readings(out@) =~= seq![]);
    let chars = chars_of(text);
    let rows = split_lines(&chars);
    if rows.len() == 0 {
        return out;
    }
    assert(views(rows@)[0] == rows@[0]@);
    let fields = split_at_char(&rows[0], ',');
    assert(pieces(rows@[0]@, ',').len() > 0);
    assert(views(fields@)[0] == fields@[0]@);
    let t = trimmed(&fields[0]);
    add_sample(&mut out, "nvidia GPU".to_owned(), Unit::Celsius, Quantity::Decimal(t));
    if fields.len() > 1 {
        assert(views(fields@)[1] == fields@[1]@);
        let f = trimmed(&fields[1]);
        add_sample(&mut out, "GPU fan".to_owned(), Unit::Percent, Quantity::Decimal(f));
    }
    assert(readings(out@) =~= gpu_readings(text@));
    out
}

/// The samples that the bytes which a GPU query put out give; none where they are
/// not text.
pub fn gpu_samples_of(bytes: &Vec<u8>) -> (r: Vec<Sample<Quantity>>)
    ensures
        readings(r@) == if valid_utf8(bytes@) {
            gpu_readings(decode_utf8(bytes@))
        } else {
            seq![]
        },
{
    match utf8_text(bytes) {
        Some(t) => gpu_samples(t.as_str()),
        None => {
            let out: Vec<Sample<Quantity>> = Vec::new();
            assert(readings(out@) =~= seq![]);
            out
        },
    }
}

proof fn lemma_signs(s: Seq<char>, n: nat)
    requires
        n <= s.len(),
        forall|k: int| 0 <= k < n ==> #[trigger] s[k] == '#',
    ensures
        signs(s) >= n,
    decreases n,
{
    if n > 0 {
        assert(s[0] == '#');
        assert forall|k: int| 0 <= k < n - 1 implies #[trigger] s.skip(1)[k] == '#' by {
            assert(s.skip(1)[k] == s[k + 1]);
        }
        lemma_signs(s.skip(1), (n - 1) as nat);
    }
}

proof fn lemma_most_signs(ins: Seq<Input>, i: int)
    requires
        0 <= i < ins.len(),
    ensures
        signs(ins[i].short()) <= most_signs(ins),
    decreases ins.len(),
{
    if i < ins.len() - 1 {
        lemma_most_signs(ins.drop_last(), i);
    }
}

/// A numbered label is no input's short label.
proof fn lemma_numbered_is_not_short(ins: Seq<Input>, i: int, x: Input, place: nat)
    requires
        0 <= i < ins.len(),
    ensures
        x.numbered(mark(ins), place) != ins[i].short(),
{
    let a = x.numbered(mark(ins), place);
    let n = most_signs(ins) + 1;
    assert forall|k: int| 0 <= k < n implies #[trigger] a[k] == '#' by {
        assert(a[k] == mark(ins)[k]);
    }
    lemma_signs(a, n);
    lemma_most_signs(ins, i);
}

/// Numbered labels differ if the numbers do.
proof fn lemma_numbered_differ(mark: Seq<char>, x: Input, y: Input, i: nat, j: nat)
    requires
        x.numbered(mark, i) == y.numbered(mark, j),
    ensures
        i == j,
{
    lemma_decimal(i);
    lemma_decimal(j);
    reveal_strlit(" ");
    let l = mark.len() as int;
    let a = x.numbered(mark, i);
    let b = y.numbered(mark, j);
    let m = decimal(i).len() as int;
    let n = decimal(j).len() as int;
    assert(a.subrange(l, l + m) =~= decimal(i));
    assert(b.subrange(l, l + n) =~= decimal(j));
    assert(a[l + m] == ' ');
    assert(b[l + n] == ' ');
    if m < n {
        assert(is_digit(decimal(j)[m]));
        assert(b.subrange(l, l + n)[m] == b[l + m]);
    }
    if n < m {
        assert(is_digit(decimal(i)[n]));
        assert(a.subrange(l, l + m)[n] == a[l + n]);
    }
}

/// An input that does not go by its short label has a longer one, which is free or
/// numbered.
proof fn lemma_longer_label(ins: Seq<Input>, i: int)
    requires
        !goes_by_short(ins, i),
    ensures
        ins[i].is_longer(mark(ins), i as nat, sensor_label(ins, i)),
        is_free(ins, i, sensor_label(ins, i)) || sensor_label(ins, i) == ins[i].numbered(
            mark(ins),
            i as nat,
        ),
{
}

/// A longer label is not the short label by which another input goes.
proof fn lemma_longer_is_not_short(ins: Seq<Input>, i: int, j: int)
    requires
        0 <= i < ins.len(),
        0 <= j < ins.len(),
        i != j,
        !goes_by_short(ins, i),
    ensures
        sensor_label(ins, i) != ins[j].short(),
{
    lemma_longer_label(ins, i);
    lemma_numbered_is_not_short(ins, j, ins[i], i as nat);
}

/// Every input has a label of its own, and none that goes to another source: no two
/// of them share a series.
pub proof fn lemma_sensor_labels_differ(doc: JsonTree)
    ensures
        labels_differ(sensor_readings(doc)),
        all_owned(sensor_readings(doc), Owner::Sensors),
{
    let ins = inputs(doc);
    let rs = sensor_readings(doc);
    assert forall|i: int, j: int| 0 <= i < j < rs.len() implies (#[trigger] rs[i]).label != (
    #[trigger] rs[j]).label by {
        let a = sensor_label(ins, i);
        let b = sensor_label(ins, j);
        if goes_by_short(ins, i) && goes_by_short(ins, j) {
            assert(ins[j].short() != ins[i].short());
        } else if goes_by_short(ins, i) {
            lemma_longer_is_not_short(ins, j, i);
        } else if goes_by_short(ins, j) {
            lemma_longer_is_not_short(ins, i, j);
        } else if a == b {
            lemma_longer_label(ins, i);
            lemma_longer_label(ins, j);
            assert(!is_free(ins, i, a)) by {
                assert(ins[j].is_longer(mark(ins), j as nat, a));
            }
            assert(!is_free(ins, j, b)) by {
                assert(ins[i].is_longer(mark(ins), i as nat, b));
            }
            lemma_numbered_differ(mark(ins), ins[i], ins[j], i as nat, j as nat);
        }
    }
    assert forall|i: int| 0 <= i < rs.len() implies owner((#[trigger] rs[i]).label)
        == Owner::Sensors by {
        if !goes_by_short(ins, i) {
            lemma_longer_label(ins, i);
            lemma_marked_label(ins[i].numbered(mark(ins), i as nat));
        }
    }
}

/// An input that shares its short label with no other, nor with another source, goes
/// by it.
pub proof fn lemma_unshared_label_is_short(doc: JsonTree, i: int)
    requires
        0 <= i < inputs(doc).len(),
        owner(inputs(doc)[i].short()) == Owner::Sensors,
        forall|j: int|
            0 <= j < inputs(doc).len() && j != i ==> (#[trigger] inputs(doc)[j]).short()
                != inputs(doc)[i].short(),
    ensures
        sensor_readings(doc)[i].label == inputs(doc)[i].short(),
{
}

/// An input keeps its label from one document to another, whatever else the documents
/// list, if it goes by its short label in both.
pub proof fn lemma_unshared_label_stays(a: JsonTree, i: int, b: JsonTree, j: int)
    requires
        0 <= i < inputs(a).len(),
        0 <= j < inputs(b).len(),
        inputs(a)[i].chip == inputs(b)[j].chip,
        inputs(a)[i].feature == inputs(b)[j].feature,
        goes_by_short(inputs(a), i),
        goes_by_short(inputs(b), j),
    ensures
        sensor_readings(a)[i].label == sensor_readings(b)[j].label,
{
}

/// The inputs are the same, but for their values.
pub open spec fn same_but_for_values(a: Seq<Input>, b: Seq<Input>) -> bool {
    &&& a.len() == b.len()
    &&& forall|i: int|
        0 <= i < a.len() ==> (#[trigger] a[i]).chip == b[i].chip && a[i].feature == b[i].feature
            && a[i].key == b[i].key
}

/// Labels do not depend on values: as long as the same inputs are listed, every one of
/// them keeps its label.
pub proof fn lemma_labels_do_not_depend_on_values(a: JsonTree, b: JsonTree, i: int)
    requires
        same_but_for_values(inputs(a), inputs(b)),
        0 <= i < inputs(a).len(),
    ensures
        sensor_readings(a)[i].label == sensor_readings(b)[i].label,
{
    let x = inputs(a);
    let y = inputs(b);
    lemma_same_marks(x, y);
    assert forall|k: int| 0 <= k < x.len() implies #[trigger] goes_by_short(x, k)
        == goes_by_short(y, k) by {
        if goes_by_short(x, k) {
            lemma_same_short(x, y, k);
        }
        if goes_by_short(y, k) {
            lemma_same_short(y, x, k);
        }
    }
    lemma_same_free(x, y, i, x[i].with_adapter());
    lemma_same_free(x, y, i, x[i].with_key());
    lemma_same_free(x, y, i, x[i].with_both());
}

proof fn lemma_same_marks(a: Seq<Input>, b: Seq<Input>)
    requires
        same_but_for_values(a, b),
    ensures
        most_signs(a) == most_signs(b),
    decreases a.len(),
{
    if a.len() > 0 {
        assert(same_but_for_values(a.drop_last(), b.drop_last())) by {
            assert forall|i: int| 0 <= i < a.len() - 1 implies (#[trigger] a.drop_last()[i]).chip
                == b.drop_last()[i].chip && a.drop_last()[i].feature == b.drop_last()[i].feature
                && a.drop_last()[i].key == b.drop_last()[i].key by {
                assert(a[i].chip == b[i].chip);
            }
        }
        lemma_same_marks(a.drop_last(), b.drop_last());
        assert(a[a.len() - 1].chip == b[a.len() - 1].chip);
    }
}

proof fn lemma_same_short(a: Seq<Input>, b: Seq<Input>, i: int)
    requires
        same_but_for_values(a, b),
        0 <= i < a.len(),
        goes_by_short(a, i),
    ensures
        goes_by_short(b, i),
{
    assert(a[i].short() == b[i].short());
    assert forall|j: int| 0 <= j < b.len() && j != i implies (#[trigger] b[j]).short()
        != b[i].short() by {
        assert(a[j].short() == b[j].short());
    }
}

proof fn lemma_same_free(a: Seq<Input>, b: Seq<Input>, i: int, label: Seq<char>)
    requires
        same_but_for_values(a, b),
        mark(a) == mark(b),
        forall|k: int|
            0 <= k < a.len() ==> #[trigger] goes_by_short(a, k) == goes_by_short(b, k),
        0 <= i < a.len(),
    ensures
        is_free(a, i, label) == is_free(b, i, label),
{
    assert forall|j: int| 0 <= j < a.len() implies (#[trigger] a[j]).short() == b[j].short()
        && goes_by_short(a, j) == goes_by_short(b, j) && a[j].is_longer(mark(a), j as nat, label)
        == b[j].is_longer(mark(b), j as nat, label) by {}
    if is_free(a, i, label) {
        assert forall|j: int| 0 <= j < b.len() && j != i implies label != (#[trigger] b[j]).short()
            && (goes_by_short(b, j) || !b[j].is_longer(mark(b), j as nat, label)) by {
            assert(label != a[j].short());
        }
    }
    if is_free(b, i, label) {
        assert forall|j: int| 0 <= j < a.len() && j != i implies label != (#[trigger] a[j]).short()
            && (goes_by_short(a, j) || !a[j].is_longer(mark(a), j as nat, label)) by {
            assert(label != b[j].short());
        }
    }
}

/// A label that begins with a number sign goes to no other source.
proof fn lemma_marked_label(label: Seq<char>)
    requires
        label.len() > 0,
        label[0] == '#',
    ensures
        owner(label) == Owner::Sensors,
{
    reveal_strlit("nvidia GPU");
    reveal_strlit("GPU fan");
    reveal_strlit("CPU total");
    reveal_strlit("CPU core ");
    reveal_strlit("Memory");
    reveal_strlit("Network RX");
    reveal_strlit("Network TX");
    reveal_strlit("Disk read");
    reveal_strlit("Disk write");
    assert("nvidia GPU"@[0] == 'n' && "GPU fan"@[0] == 'G' && "CPU total"@[0] == 'C');
    assert("Memory"@[0] == 'M' && "Network RX"@[0] == 'N' && "Network TX"@[0] == 'N');
    assert("Disk read"@[0] == 'D' && "Disk write"@[0] == 'D' && "CPU core "@[0] == 'C');
    if "CPU core "@.is_prefix_of(label) {
        assert(label.subrange(0, "CPU core "@.len() as int)[0] == label[0]);
    }
}

/// The input that stands at a place among the values of a feature, if one does: a number
/// under a key that begins with `temp` or `fan` and ends with `_input`.
pub open spec fn value_at(
    chip: Seq<char>,
    feature: Seq<char>,
    values: Seq<(Seq<char>, JsonTree)>,
    k: int,
) -> Option<Input> {
    if 0 <= k < values.len() {
        match values[k].1 {
            JsonTree::Number { double: Some(bits), integer: _ } => {
                let key = values[k].0;
                if "temp"@.is_prefix_of(key) && "_input"@.is_suffix_of(key) {
                    Some(Input { chip, feature, key, unit: Unit::Celsius, bits })
                } else if "fan"@.is_prefix_of(key) && "_input"@.is_suffix_of(key) {
                    Some(Input { chip, feature, key, unit: Unit::Rpm, bits })
                } else {
                    None
                }
            },
            _ => None,
        }
    } else {
        None
    }
}

/// The input that stands at a place among the features of a chip, if one does.
pub open spec fn feature_value_at(
    chip: Seq<char>,
    features: Seq<(Seq<char>, JsonTree)>,
    path: (int, int),
) -> Option<Input> {
    if 0 <= path.0 < features.len() {
        match features[path.0].1 {
            JsonTree::Object(values) => value_at(chip, features[path.0].0, values, path.1),
            _ => None,
        }
    } else {
        None
    }
}

/// The input that stands at a place in a document, if one does: under a chip, a feature
/// and a key.
pub open spec fn input_at(chips: Seq<(Seq<char>, JsonTree)>, path: (int, int, int)) -> Option<
    Input,
> {
    if 0 <= path.0 < chips.len() {
        match chips[path.0].1 {
            JsonTree::Object(features) => feature_value_at(
                chips[path.0].0,
                features,
                (path.1, path.2),
            ),
            _ => None,
        }
    } else {
        None
    }
}

proof fn lemma_value_inputs(
    chip: Seq<char>,
    feature: Seq<char>,
    values: Seq<(Seq<char>, JsonTree)>,
    k: int,
)
    requires
        0 <= k < values.len(),
    ensures
        value_inputs(chip, feature, values[k]) == match value_at(chip, feature, values, k) {
            Some(x) => seq![x],
            None => seq![],
        },
{
}

proof fn lemma_places_in_feature(
    chip: Seq<char>,
    feature: Seq<char>,
    values: Seq<(Seq<char>, JsonTree)>,
) -> (at: Seq<int>)
    ensures
        at.len() == values_inputs(chip, feature, values).len(),
        forall|n: int|
            0 <= n < at.len() ==> value_at(chip, feature, values, #[trigger] at[n]) == Some(
                values_inputs(chip, feature, values)[n],
            ),
        forall|m: int, n: int| 0 <= m < n < at.len() ==> #[trigger] at[m] < #[trigger] at[n],
        forall|k: int| #[trigger]
            value_at(chip, feature, values, k) is Some ==> at.contains(k),
    decreases values.len(),
{
    if values.len() == 0 {
        seq![]
    } else {
        let p = values.drop_last();
        let last = values.len() - 1;
        let had = lemma_places_in_feature(chip, feature, p);
        lemma_value_inputs(chip, feature, values, last);
        assert(values.last() == values[last]);
        let here = value_at(chip, feature, values, last) is Some;
        let at = if here {
            had.push(last)
        } else {
            had
        };
        let all = values_inputs(chip, feature, values);
        assert forall|k: int| 0 <= k < last implies #[trigger] value_at(chip, feature, values, k)
            == value_at(chip, feature, p, k) by {
            assert(p[k] == values[k]);
        }
        assert forall|n: int| 0 <= n < had.len() implies 0 <= #[trigger] had[n] < last by {
            assert(value_at(chip, feature, p, had[n]) is Some);
        }
        assert forall|n: int| 0 <= n < at.len() implies value_at(
            chip,
            feature,
            values,
            #[trigger] at[n],
        ) == Some(all[n]) by {
            if n < had.len() {
                assert(0 <= had[n] < last);
                assert(value_at(chip, feature, values, had[n]) == value_at(
                    chip,
                    feature,
                    p,
                    had[n],
                ));
            }
        }
        assert forall|m: int, n: int| 0 <= m < n < at.len() implies #[trigger] at[m]
            < #[trigger] at[n] by {
            assert(0 <= had[m] < last);
            if n < had.len() {
                assert(had[m] < had[n]);
            }
        }
        assert forall|k: int| #[trigger]
            value_at(chip, feature, values, k) is Some implies at.contains(k) by {
            if k < last {
                assert(value_at(chip, feature, p, k) is Some);
                assert(had.contains(k));
                let n = choose|n: int| 0 <= n < had.len() && had[n] == k;
                assert(at[n] == k);
            } else {
                assert(at[at.len() - 1] == k);
            }
        }
        at
    }
}

/// Whether a place among features comes before another.
pub open spec fn earlier_value(a: (int, int), b: (int, int)) -> bool {
    a.0 < b.0 || (a.0 == b.0 && a.1 < b.1)
}

/// Whether a place in a document comes before another.
pub open spec fn earlier_input(a: (int, int, int), b: (int, int, int)) -> bool {
    a.0 < b.0 || (a.0 == b.0 && (a.1 < b.1 || (a.1 == b.1 && a.2 < b.2)))
}

proof fn lemma_places_in_chip(chip: Seq<char>, features: Seq<(Seq<char>, JsonTree)>) -> (at: Seq<
    (int, int),
>)
    ensures
        at.len() == features_inputs(chip, features).len(),
        forall|n: int|
            0 <= n < at.len() ==> feature_value_at(chip, features, #[trigger] at[n]) == Some(
                features_inputs(chip, features)[n],
            ),
        forall|m: int, n: int|
            0 <= m < n < at.len() ==> earlier_value(#[trigger] at[m], #[trigger] at[n]),
        forall|path: (int, int)| #[trigger]
            feature_value_at(chip, features, path) is Some ==> at.contains(path),
    decreases features.len(),
{
    if features.len() == 0 {
        seq![]
    } else {
        let p = features.drop_last();
        let last = features.len() - 1;
        let had = lemma_places_in_chip(chip, p);
        let before = features_inputs(chip, p);
        let all = features_inputs(chip, features);
        let ks = match features[last].1 {
            JsonTree::Object(values) => lemma_places_in_feature(chip, features[last].0, values),
            _ => Seq::<int>::empty(),
        };
        let at = had + ks.map_values(|k: int| (last, k));
        assert forall|path: (int, int)| path.0 < last implies #[trigger] feature_value_at(
            chip,
            features,
            path,
        ) == feature_value_at(chip, p, path) by {
            if 0 <= path.0 {
                assert(p[path.0] == features[path.0]);
            }
        }
        assert forall|n: int| 0 <= n < had.len() implies 0 <= (#[trigger] had[n]).0 < last by {
            assert(feature_value_at(chip, p, had[n]) is Some);
        }
        assert forall|n: int| 0 <= n < at.len() implies feature_value_at(
            chip,
            features,
            #[trigger] at[n],
        ) == Some(all[n]) by {
            if n < had.len() {
                assert(at[n] == had[n]);
                assert(0 <= had[n].0 < last);
                assert(feature_value_at(chip, features, had[n]) == feature_value_at(
                    chip,
                    p,
                    had[n],
                ));
                assert(all[n] == before[n]);
            } else {
                let k = ks[n - had.len()];
                assert(at[n] == (last, k));
            }
        }
        assert forall|m: int, n: int| 0 <= m < n < at.len() implies earlier_value(
            #[trigger] at[m],
            #[trigger] at[n],
        ) by {
            if n < had.len() {
                assert(earlier_value(had[m], had[n]));
            } else if m < had.len() {
                assert(0 <= had[m].0 < last);
            } else {
                assert(ks[m - had.len()] < ks[n - had.len()]);
            }
        }
        assert forall|path: (int, int)| #[trigger]
            feature_value_at(chip, features, path) is Some implies at.contains(path) by {
            if path.0 < last {
                assert(feature_value_at(chip, p, path) is Some);
                assert(had.contains(path));
                let n = choose|n: int| 0 <= n < had.len() && had[n] == path;
                assert(at[n] == path);
            } else {
                assert(ks.contains(path.1));
                let n = choose|n: int| 0 <= n < ks.len() && ks[n] == path.1;
                assert(at[had.len() + n] == path);
            }
        }
        at
    }
}

proof fn lemma_places_in_document(chips: Seq<(Seq<char>, JsonTree)>) -> (at: Seq<(int, int, int)>)
    ensures
        at.len() == chips_inputs(chips).len(),
        forall|n: int|
            0 <= n < at.len() ==> input_at(chips, #[trigger] at[n]) == Some(chips_inputs(chips)[n]),
        forall|m: int, n: int|
            0 <= m < n < at.len() ==> earlier_input(#[trigger] at[m], #[trigger] at[n]),
        forall|path: (int, int, int)| #[trigger]
            input_at(chips, path) is Some ==> at.contains(path),
    decreases chips.len(),
{
    if chips.len() == 0 {
        seq![]
    } else {
        let p = chips.drop_last();
        let last = chips.len() - 1;
        let had = lemma_places_in_document(p);
        let before = chips_inputs(p);
        let all = chips_inputs(chips);
        let ps = match chips[last].1 {
            JsonTree::Object(features) => lemma_places_in_chip(chips[last].0, features),
            _ => Seq::<(int, int)>::empty(),
        };
        let at = had + ps.map_values(|q: (int, int)| (last, q.0, q.1));
        assert forall|path: (int, int, int)| path.0 < last implies #[trigger] input_at(chips, path)
            == input_at(p, path) by {
            if 0 <= path.0 {
                assert(p[path.0] == chips[path.0]);
            }
        }
        assert forall|n: int| 0 <= n < had.len() implies 0 <= (#[trigger] had[n]).0 < last by {
            assert(input_at(p, had[n]) is Some);
        }
        assert forall|n: int| 0 <= n < at.len() implies input_at(chips, #[trigger] at[n]) == Some(
            all[n],
        ) by {
            if n < had.len() {
                assert(at[n] == had[n]);
                assert(0 <= had[n].0 < last);
                assert(input_at(chips, had[n]) == input_at(p, had[n]));
                assert(all[n] == before[n]);
            } else {
                let q = ps[n - had.len()];
                assert(at[n] == (last, q.0, q.1));
                assert((q.0, q.1) == q);
            }
        }
        assert forall|m: int, n: int| 0 <= m < n < at.len() implies earlier_input(
            #[trigger] at[m],
            #[trigger] at[n],
        ) by {
            if n < had.len() {
                assert(earlier_input(had[m], had[n]));
            } else if m < had.len() {
                assert(0 <= had[m].0 < last);
            } else {
                assert(earlier_value(ps[m - had.len()], ps[n - had.len()]));
            }
        }
        assert forall|path: (int, int, int)| #[trigger]
            input_at(chips, path) is Some implies at.contains(path) by {
            if path.0 < last {
                assert(input_at(p, path) is Some);
                assert(had.contains(path));
                let n = choose|n: int| 0 <= n < had.len() && had[n] == path;
                assert(at[n] == path);
            } else {
                assert(ps.contains((path.1, path.2)));
                let n = choose|n: int| 0 <= n < ps.len() && ps[n] == (path.1, path.2);
                assert(at[had.len() + n] == path);
            }
        }
        at
    }
}

/// The inputs are those that stand in the document, all of them, each once and in order,
/// and nothing else. Given are their places.
pub proof fn lemma_inputs_are_those_in_document(chips: Seq<(Seq<char>, JsonTree)>) -> (at: Seq<
    (int, int, int),
>)
    ensures
        at.len() == inputs(JsonTree::Object(chips)).len(),
        forall|n: int|
            0 <= n < at.len() ==> input_at(chips, #[trigger] at[n]) == Some(
                inputs(JsonTree::Object(chips))[n],
            ),
        forall|m: int, n: int|
            0 <= m < n < at.len() ==> earlier_input(#[trigger] at[m], #[trigger] at[n]),
        forall|path: (int, int, int)| #[trigger]
            input_at(chips, path) is Some ==> at.contains(path),
{
    lemma_places_in_document(chips)
}

/// A document that is no object has no inputs.
pub proof fn lemma_only_objects_have_inputs(doc: JsonTree)
    requires
        !(doc is Object),
    ensures
        inputs(doc) == Seq::<Input>::empty(),
{
}

/// Every temperature and every fan input is collected: whatever number a document has
/// under a chip, a feature and a key that begins with `temp` or `fan` and ends with
/// `_input`, wherever these stand.
pub proof fn lemma_every_input_is_collected(
    chips: Seq<(Seq<char>, JsonTree)>,
    c: int,
    features: Seq<(Seq<char>, JsonTree)>,
    f: int,
    values: Seq<(Seq<char>, JsonTree)>,
    k: int,
    bits: u64,
    integer: Option<i64>,
)
    requires
        0 <= c < chips.len(),
        chips[c].1 == JsonTree::Object(features),
        0 <= f < features.len(),
        features[f].1 == JsonTree::Object(values),
        0 <= k < values.len(),
        values[k].1 == (JsonTree::Number { double: Some(bits), integer }),
        "_input"@.is_suffix_of(values[k].0),
    ensures
        "temp"@.is_prefix_of(values[k].0) ==> inputs(JsonTree::Object(chips)).contains(
            Input {
                chip: chips[c].0,
                feature: features[f].0,
                key: values[k].0,
                unit: Unit::Celsius,
                bits,
            },
        ),
        "fan"@.is_prefix_of(values[k].0) ==> inputs(JsonTree::Object(chips)).contains(
            Input {
                chip: chips[c].0,
                feature: features[f].0,
                key: values[k].0,
                unit: Unit::Rpm,
                bits,
            },
        ),
{
    let key = values[k].0;
    reveal_strlit("temp");
    reveal_strlit("fan");
    if "temp"@.is_prefix_of(key) && "fan"@.is_prefix_of(key) {
        assert(key.subrange(0, 4)[0] == key[0]);
        assert(key.subrange(0, 3)[0] == key[0]);
        assert("temp"@[0] == 't' && "fan"@[0] == 'f');
    }
    if "temp"@.is_prefix_of(key) || "fan"@.is_prefix_of(key) {
        let at = lemma_places_in_document(chips);
        assert(input_at(chips, (c, f, k)) is Some);
        let n = choose|n: int| 0 <= n < at.len() && at[n] == (c, f, k);
        assert(inputs(JsonTree::Object(chips))[n] == input_at(chips, (c, f, k))->0);
    }
}

/// Only temperature and fan inputs are collected. Given are the places of chip, feature
/// and key.
pub proof fn lemma_only_inputs_are_collected(chips: Seq<(Seq<char>, JsonTree)>, n: int) -> (at: (
    int,
    int,
    int,
))
    requires
        0 <= n < inputs(JsonTree::Object(chips)).len(),
    ensures
        ({
            let x = inputs(JsonTree::Object(chips))[n];
            let (c, f, k) = at;
            &&& 0 <= c < chips.len()
            &&& chips[c].0 == x.chip
            &&& chips[c].1 matches JsonTree::Object(features) && 0 <= f < features.len()
                && features[f].0 == x.feature && (
            features[f].1 matches JsonTree::Object(values) && 0 <= k < values.len() && values[k].0
                == x.key && (values[k].1 matches JsonTree::Number { double, integer } && double
                == Some(x.bits)))
            &&& "_input"@.is_suffix_of(x.key)
            &&& ("temp"@.is_prefix_of(x.key) && x.unit == Unit::Celsius) || ("fan"@.is_prefix_of(
                x.key,
            ) && x.unit == Unit::Rpm)
        }),
{
    let at = lemma_places_in_document(chips);
    assert(input_at(chips, at[n]) == Some(inputs(JsonTree::Object(chips))[n]));
    at[n]
}

/// Every input gives one reading, in order: its value, in its unit.
pub proof fn lemma_every_input_is_read(doc: JsonTree, i: int)
    ensures
        sensor_readings(doc).len() == inputs(doc).len(),
        0 <= i < inputs(doc).len() ==> sensor_readings(doc)[i].unit == inputs(doc)[i].unit
            && sensor_readings(doc)[i].amount == Amount::Double(inputs(doc)[i].bits),
{
}

/// The name of a chip is what stands before its first hyphen, or all of it.
pub proof fn lemma_chip_name_ends_at_hyphen(name: Seq<char>, adapter: Seq<char>)
    requires
        forall|i: int| 0 <= i < name.len() ==> #[trigger] name[i] != '-',
    ensures
        chip_name(name.push('-') + adapter) == name,
        chip_name(name) == name,
{
    lemma_separator_ends_a_piece(name, '-', adapter);
}

/// An input that no other shares its chip's name and feature with, nor another source,
/// goes by these two.
pub proof fn lemma_unshared_label_is_chip_and_feature(doc: JsonTree, i: int)
    requires
        0 <= i < inputs(doc).len(),
        owner(chip_name(inputs(doc)[i].chip) + " "@ + inputs(doc)[i].feature) == Owner::Sensors,
        forall|j: int|
            0 <= j < inputs(doc).len() && j != i ==> chip_name((#[trigger] inputs(doc)[j]).chip)
                + " "@ + inputs(doc)[j].feature != chip_name(inputs(doc)[i].chip) + " "@ + inputs(
                doc,
            )[i].feature,
    ensures
        sensor_readings(doc)[i].label == chip_name(inputs(doc)[i].chip) + " "@ + inputs(
            doc,
        )[i].feature,
{
    let ins = inputs(doc);
    assert forall|j: int| 0 <= j < ins.len() && j != i implies (#[trigger] ins[j]).short()
        != ins[i].short() by {
        assert(chip_name(ins[j].chip) + " "@ + ins[j].feature != chip_name(ins[i].chip) + " "@
            + ins[i].feature);
    }
    lemma_unshared_label_is_short(doc, i);
}

/// Whether an input shares the name of its chip and its feature with another, or goes by
/// what is kept for another source.
pub open spec fn is_shared(ins: Seq<Input>, i: int) -> bool {
    ||| owner(chip_name(ins[i].chip) + " "@ + ins[i].feature) != Owner::Sensors
    ||| exists|j: int|
        0 <= j < ins.len() && j != i && chip_name((#[trigger] ins[j]).chip) + " "@ + ins[j].feature
            == chip_name(ins[i].chip) + " "@ + ins[i].feature
}

/// Whether a label is no other input's: not the name of its chip and its feature, nor,
/// where it shares these, the longer labels that can be made of it.
pub open spec fn is_distinct(ins: Seq<Input>, i: int, label: Seq<char>) -> bool {
    &&& owner(label) == Owner::Sensors
    &&& label.len() > 0
    &&& label[0] != '#'
    &&& forall|j: int|
        0 <= j < ins.len() && j != i ==> {
            let x = #[trigger] ins[j];
            &&& label != chip_name(x.chip) + " "@ + x.feature
            &&& is_shared(ins, j) ==> label != x.chip + " "@ + x.feature && label != chip_name(
                x.chip,
            ) + " "@ + x.feature + " "@ + x.key && label != x.chip + " "@ + x.feature + " "@ + x.key
        }
}

proof fn lemma_distinct_is_free(ins: Seq<Input>, i: int, label: Seq<char>)
    requires
        is_distinct(ins, i, label),
    ensures
        is_free(ins, i, label),
{
    assert forall|j: int| 0 <= j < ins.len() && j != i implies label != (#[trigger] ins[j]).short()
        && (goes_by_short(ins, j) || !ins[j].is_longer(mark(ins), j as nat, label)) by {
        let x = ins[j];
        assert(label != chip_name(x.chip) + " "@ + x.feature);
        assert(x.numbered(mark(ins), j as nat)[0] == mark(ins)[0]);
        if !is_shared(ins, j) {
            assert forall|k: int| 0 <= k < ins.len() && k != j implies (#[trigger] ins[k]).short()
                != ins[j].short() by {
                assert(ins[k].short() == chip_name(ins[k].chip) + " "@ + ins[k].feature);
            }
            assert(goes_by_short(ins, j));
        }
    }
}

/// Inputs of two chips of one name, with the same feature, are told apart by the adapter.
pub proof fn lemma_shared_label_tells_adapter(doc: JsonTree, i: int, j: int)
    requires
        0 <= i < inputs(doc).len(),
        0 <= j < inputs(doc).len(),
        i != j,
        chip_name(inputs(doc)[i].chip) == chip_name(inputs(doc)[j].chip),
        inputs(doc)[i].feature == inputs(doc)[j].feature,
        is_distinct(inputs(doc), i, inputs(doc)[i].chip + " "@ + inputs(doc)[i].feature),
    ensures
        sensor_readings(doc)[i].label == inputs(doc)[i].chip + " "@ + inputs(doc)[i].feature,
{
    let ins = inputs(doc);
    assert(ins[j].short() == ins[i].short());
    lemma_distinct_is_free(ins, i, ins[i].with_adapter());
}

/// Inputs of one chip and feature are told apart by the key.
pub proof fn lemma_shared_label_tells_key(doc: JsonTree, i: int, j: int)
    requires
        0 <= i < inputs(doc).len(),
        0 <= j < inputs(doc).len(),
        i != j,
        inputs(doc)[i].chip == inputs(doc)[j].chip,
        inputs(doc)[i].feature == inputs(doc)[j].feature,
        is_distinct(
            inputs(doc),
            i,
            chip_name(inputs(doc)[i].chip) + " "@ + inputs(doc)[i].feature + " "@ + inputs(
                doc,
            )[i].key,
        ),
    ensures
        sensor_readings(doc)[i].label == chip_name(inputs(doc)[i].chip) + " "@ + inputs(
            doc,
        )[i].feature + " "@ + inputs(doc)[i].key,
{
    let ins = inputs(doc);
    assert(ins[j].short() == ins[i].short());
    assert(!goes_by_short(ins, i));
    assert(!goes_by_short(ins, j));
    assert(ins[j].is_longer(mark(ins), j as nat, ins[i].with_adapter()));
    lemma_distinct_is_free(ins, i, ins[i].with_key());
}

/// Inputs that neither the adapter nor the key tells apart are told apart by both.
pub proof fn lemma_shared_label_tells_both(doc: JsonTree, i: int, j: int, k: int)
    requires
        0 <= i < inputs(doc).len(),
        0 <= j < inputs(doc).len(),
        0 <= k < inputs(doc).len(),
        i != j,
        i != k,
        inputs(doc)[i].chip == inputs(doc)[j].chip,
        inputs(doc)[i].feature == inputs(doc)[j].feature,
        chip_name(inputs(doc)[i].chip) == chip_name(inputs(doc)[k].chip),
        inputs(doc)[i].feature == inputs(doc)[k].feature,
        inputs(doc)[i].key == inputs(doc)[k].key,
        is_distinct(
            inputs(doc),
            i,
            inputs(doc)[i].chip + " "@ + inputs(doc)[i].feature + " "@ + inputs(doc)[i].key,
        ),
    ensures
        sensor_readings(doc)[i].label == inputs(doc)[i].chip + " "@ + inputs(doc)[i].feature + " "@
            + inputs(doc)[i].key,
{
    let ins = inputs(doc);
    assert(ins[j].short() == ins[i].short());
    assert(ins[k].short() == ins[i].short());
    assert(!goes_by_short(ins, i));
    assert(!goes_by_short(ins, j));
    assert(!goes_by_short(ins, k));
    assert(ins[j].is_longer(mark(ins), j as nat, ins[i].with_adapter()));
    assert(ins[k].is_longer(mark(ins), k as nat, ins[i].with_key()));
    lemma_distinct_is_free(ins, i, ins[i].with_both());
}

/// Of a GPU query the first line tells: a temperature before the first comma and, behind
/// it up to the next one, a fan speed in percent. White space around them does not
/// matter. Without a comma there is no fan speed, and without a line nothing.
pub proof fn lemma_gpu_line(
    text: Seq<char>,
    temperature: Seq<char>,
    fan: Seq<char>,
    more: Seq<char>,
)
    requires
        forall|i: int| 0 <= i < temperature.len() ==> #[trigger] temperature[i] != ',',
        forall|i: int| 0 <= i < fan.len() ==> #[trigger] fan[i] != ',',
    ensures
        ({
            let hot = Reading {
                label: "nvidia GPU"@,
                unit: Unit::Celsius,
                amount: Amount::Decimal(trim(temperature)),
            };
            let speed = Reading {
                label: "GPU fan"@,
                unit: Unit::Percent,
                amount: Amount::Decimal(trim(fan)),
            };
            &&& lines(text).len() == 0 ==> gpu_readings(text) == Seq::<Reading>::empty()
            &&& lines(text).len() > 0 && lines(text)[0] == temperature ==> gpu_readings(text)
                == seq![hot]
            &&& lines(text).len() > 0 && lines(text)[0] == temperature.push(',') + fan
                ==> gpu_readings(text) == seq![hot, speed]
            &&& lines(text).len() > 0 && lines(text)[0] == temperature.push(',') + (fan.push(',')
                + more) ==> gpu_readings(text) == seq![hot, speed]
        }),
{
    lemma_separator_ends_a_piece(temperature, ',', fan);
    lemma_separator_ends_a_piece(temperature, ',', fan.push(',') + more);
    lemma_separator_ends_a_piece(fan, ',', more);
    let one = pieces(temperature.push(',') + fan, ',');
    assert(one[0] == temperature && one[1] == fan);
    let two = pieces(temperature.push(',') + (fan.push(',') + more), ',');
    assert(pieces(fan.push(',') + more, ',')[0] == fan);
    assert(two[0] == temperature && two[1] == fan);
}

/// Every label tells its input: the chip, with or without the adapter, and the feature,
/// with or without the key. One with a number in front tells all of these.
pub proof fn lemma_label_tells_its_input(doc: JsonTree, i: int)
    requires
        0 <= i < inputs(doc).len(),
    ensures
        ({
            let x = inputs(doc)[i];
            let label = sensor_readings(doc)[i].label;
            ||| label == chip_name(x.chip) + " "@ + x.feature
            ||| label == x.chip + " "@ + x.feature
            ||| label == chip_name(x.chip) + " "@ + x.feature + " "@ + x.key
            ||| label == x.chip + " "@ + x.feature + " "@ + x.key
            ||| (label[0] == '#' && (" "@ + (x.chip + " "@ + x.feature + " "@ + x.key)).is_suffix_of(
                label,
            ))
        }),
{
    let ins = inputs(doc);
    let x = ins[i];
    let label = sensor_label(ins, i);
    let tail = " "@ + x.with_both();
    if label == x.numbered(mark(ins), i as nat) {
        assert(label[0] == mark(ins)[0]);
        let head = mark(ins) + decimal(i as nat);
        assert(label =~= head + tail);
        assert(label.subrange(label.len() - tail.len(), label.len() as int) =~= tail);
    }
}

} // verus!
