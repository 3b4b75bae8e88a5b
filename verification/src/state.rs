//! The series that are graphed: their histories, colors and on/off states.
use std::collections::VecDeque;
use vstd::prelude::*;

use crate::config::saved_visibility;
use crate::labels::{before, lemma_sorted_prefix, sorted, to_map, LabelMap};
use crate::sample::Sample;
use crate::unit::Unit;

verus! {

/// Seconds between polls.
pub const POLL_INTERVAL_SECS: u32 = 2;

/// Points that are kept of each series. At two seconds each, twenty minutes.
pub const HISTORY_LEN: usize = 600;

/// A series.
pub struct Metric<T> {
    /// What it is measured in.
    pub unit: Unit,
    /// Its values, oldest first.
    pub history: VecDeque<T>,
    /// Whether it is drawn.
    pub visible: bool,
    /// Its place in the order in which series were found.
    pub color_index: usize,
}

/// What a series is.
#[verifier::ext_equal]
pub struct MetricView<T> {
    /// What it is measured in.
    pub unit: Unit,
    /// Its values, oldest first.
    pub history: Seq<T>,
    /// Whether it is drawn.
    pub visible: bool,
    /// Its place in the order in which series were found.
    pub color_index: nat,
}

impl<T> View for Metric<T> {
    type V = MetricView<T>;

    open spec fn view(&self) -> MetricView<T> {
        MetricView {
            unit: self.unit,
            history: self.history@,
            visible: self.visible,
            color_index: self.color_index as nat,
        }
    }
}

/// A row of the side panel: the toggle of a series that was just found.
pub struct Row {
    /// The label of the series.
    pub label: String,
    /// The color of its swatch.
    pub color_index: usize,
    /// Whether it is switched on.
    pub visible: bool,
}

/// What a row of the side panel shows.
pub struct RowView {
    /// The label of the series.
    pub label: Seq<char>,
    /// The color of its swatch.
    pub color_index: nat,
    /// Whether it is switched on.
    pub visible: bool,
}

impl View for Row {
    type V = RowView;

    open spec fn view(&self) -> RowView {
        RowView {
            label: self.label@,
            color_index: self.color_index as nat,
            visible: self.visible,
        }
    }
}

/// What rows show, in order.
pub open spec fn row_views(rows: Seq<Row>) -> Seq<RowView> {
    rows.map_values(|r: Row| r@)
}

/// One value of one series.
pub struct Point<T> {
    /// The label of the series.
    pub label: Seq<char>,
    /// What it is measured in.
    pub unit: Unit,
    /// The value.
    pub value: T,
}

/// The values that samples bring, in order.
pub open spec fn points<T>(samples: Seq<Sample<T>>) -> Seq<Point<T>> {
    samples.map_values(|s: Sample<T>| Point { label: s.label@, unit: s.unit, value: s.value })
}

/// Everything that is known of the series.
#[verifier::ext_equal]
pub struct StateView<T> {
    /// The series, by label.
    pub metrics: Map<Seq<char>, MetricView<T>>,
    /// The remembered on/off states, by label.
    pub visibility: Map<Seq<char>, bool>,
    /// The color index of the next series that is found.
    pub next_color: nat,
    /// How often the sources have been polled.
    pub poll_count: u64,
}

/// Whether a series is switched on: as it is remembered, or else it is.
pub open spec fn shown(visibility: Map<Seq<char>, bool>, label: Seq<char>) -> bool {
    if visibility.contains_key(label) {
        visibility[label]
    } else {
        true
    }
}

/// The last points of a history, as many as are kept.
pub open spec fn kept<T>(history: Seq<T>) -> Seq<T> {
    if history.len() > HISTORY_LEN {
        history.skip(history.len() - HISTORY_LEN)
    } else {
        history
    }
}

impl<T> StateView<T> {
    /// The state once a series exists: a new one has the next color and no history,
    /// and is switched on or off as it is remembered.
    pub open spec fn ensured(self, label: Seq<char>, unit: Unit) -> StateView<T> {
        if self.metrics.contains_key(label) {
            self
        } else {
            StateView {
                metrics: self.metrics.insert(
                    label,
                    MetricView {
                        unit,
                        history: Seq::empty(),
                        visible: shown(self.visibility, label),
                        color_index: self.next_color,
                    },
                ),
                next_color: self.next_color + 1,
                ..self
            }
        }
    }

    /// The state with another history of a series.
    pub open spec fn with_history(self, label: Seq<char>, history: Seq<T>) -> StateView<T> {
        StateView {
            metrics: self.metrics.insert(
                label,
                MetricView { history, ..self.metrics[label] },
            ),
            ..self
        }
    }

    /// The state once a value has been added to its series. The oldest points make
    /// room.
    pub open spec fn absorbed(self, p: Point<T>) -> StateView<T> {
        let s = self.ensured(p.label, p.unit);
        s.with_history(p.label, kept(s.metrics[p.label].history.push(p.value)))
    }

    /// The state once values have been added, one after the other.
    pub open spec fn absorbed_all(self, ps: Seq<Point<T>>) -> StateView<T>
        decreases ps.len(),
    {
        if ps.len() == 0 {
            self
        } else {
            self.absorbed_all(ps.drop_last()).absorbed(ps.last())
        }
    }

    /// The rows for the series that are found when values are added, in the order
    /// in which they are found.
    pub open spec fn rows_for(self, ps: Seq<Point<T>>) -> Seq<RowView>
        decreases ps.len(),
    {
        if ps.len() == 0 {
            seq![]
        } else {
            let s = self.absorbed_all(ps.drop_last());
            let rows = self.rows_for(ps.drop_last());
            if s.metrics.contains_key(ps.last().label) {
                rows
            } else {
                rows.push(
                    RowView {
                        label: ps.last().label,
                        color_index: s.next_color,
                        visible: shown(s.visibility, ps.last().label),
                    },
                )
            }
        }
    }

    /// The state with the number of polls one up.
    pub open spec fn counted(self) -> StateView<T> {
        StateView { poll_count: (self.poll_count + 1) as u64, ..self }
    }

    /// The state with the on/off state of every series remembered. What is
    /// remembered already stays.
    pub open spec fn remembered(self) -> StateView<T> {
        StateView {
            visibility: self.metrics.map_values(|m: MetricView<T>| m.visible).union_prefer_right(
                self.visibility,
            ),
            ..self
        }
    }

    /// The state with a series switched on or off, and that remembered.
    pub open spec fn toggled(self, label: Seq<char>, active: bool) -> StateView<T> {
        StateView {
            metrics: if self.metrics.contains_key(label) {
                self.metrics.insert(
                    label,
                    MetricView { visible: active, ..self.metrics[label] },
                )
            } else {
                self.metrics
            },
            visibility: self.visibility.insert(label, active),
            ..self
        }
    }

    /// Every series is drawn or not as it is remembered, holds no more points than
    /// are kept, and has a color index of its own among those that have been given
    /// out.
    pub open spec fn consistent(self) -> bool {
        &&& forall|l: Seq<char>| #[trigger]
            self.metrics.contains_key(l) ==> self.metrics[l].visible == shown(self.visibility, l)
                && self.metrics[l].history.len() <= HISTORY_LEN && self.metrics[l].color_index
                < self.next_color
        &&& forall|k: Seq<char>, l: Seq<char>|
            #![trigger self.metrics[k], self.metrics[l]]
            self.metrics.contains_key(k) && self.metrics.contains_key(l) && k != l
                ==> self.metrics[k].color_index != self.metrics[l].color_index
    }
}

/// The series that are graphed, and what is remembered of them.
pub struct AppState<T> {
    metrics: LabelMap<Metric<T>>,
    visibility: LabelMap<bool>,
    next_color: usize,
    poll_count: u64,
}

impl<T> View for AppState<T> {
    type V = StateView<T>;

    closed spec fn view(&self) -> StateView<T> {
        StateView {
            metrics: self.metrics@.map_values(|m: Metric<T>| m@),
            visibility: self.visibility@,
            next_color: self.next_color as nat,
            poll_count: self.poll_count,
        }
    }
}

impl<T> AppState<T> {
    /// The maps are well-formed, and the series agree with what is remembered of
    /// them.
    pub closed spec fn wf(&self) -> bool {
        &&& self.metrics.wf()
        &&& self.visibility.wf()
        &&& self.next_color == self.metrics.listing().len()
        &&& self@.consistent()
    }

    /// A state without series, with these on/off states remembered.
    pub fn new(visibility: LabelMap<bool>) -> (r: Self)
        requires
            visibility.wf(),
        ensures
            r.wf(),
            r@ == (StateView::<T> {
                metrics: Map::empty(),
                visibility: visibility@,
                next_color: 0,
                poll_count: 0,
            }),
    {
        let r = AppState { metrics: LabelMap::new(), visibility, next_color: 0, poll_count: 0 };
        assert(r@.metrics =~= Map::empty());
        r
    }

    /// Makes sure that a series exists. A new one has the next color, and is
    /// switched on or off as it is remembered (on, where it is not); its row for
    /// the side panel is returned.
    pub fn ensure_metric(&mut self, label: &str, unit: Unit) -> (r: Option<Row>)
        requires
            old(self).wf(),
        ensures
            final(self).wf(),
            final(self)@ == old(self)@.ensured(label@, unit),
            match r {
                Some(row) => {
                    &&& !old(self)@.metrics.contains_key(label@)
                    &&& row@ == (RowView {
                        label: label@,
                        color_index: old(self)@.next_color,
                        visible: shown(old(self)@.visibility, label@),
                    })
                },
                None => old(self)@.metrics.contains_key(label@),
            },
    {
        if self.metrics.contains(label) {
            return None;
        }
        let color_index = self.next_color;
        let visible = match self.visibility.get(label) {
            Some(v) => *v,
            None => true,
        };
        let ghost had = self@;
        self.metrics.insert(
            label,
            Metric { unit, history: VecDeque::new(), visible, color_index },
        );
        self.next_color = self.metrics.len();
        assert(self@ =~= had.ensured(label@, unit));
        Some(Row { label: label.to_owned(), color_index, visible })
    }

    /// Adds a value to a series. The oldest points make room.
    fn record(&mut self, label: &str, value: T)
        requires
            old(self).wf(),
            old(self)@.metrics.contains_key(label@),
        ensures
            final(self).wf(),
            final(self)@ == old(self)@.with_history(
                label@,
                kept(old(self)@.metrics[label@].history.push(value)),
            ),
    {
        let ghost had = self@;
        let ghost grown = had.metrics[label@].history.push(value);
        if let Some(m) = self.metrics.get_mut(label) {
            m.history.push_back(value);
            let ghost unit = m.unit;
            let ghost visible = m.visible;
            let ghost color_index = m.color_index;
            assert(m.history@ =~= grown.skip(0));
            while m.history.len() > HISTORY_LEN
                invariant
                    m.unit == unit,
                    m.visible == visible,
                    m.color_index == color_index,
                    m.history@.len() <= grown.len(),
                    m.history@.len() >= HISTORY_LEN || m.history@ == grown,
                    m.history@ == grown.skip(grown.len() - m.history@.len()),
                decreases m.history@.len(),
            {
                let ghost h = m.history@;
                let _ = m.history.pop_front();
                assert(m.history@ =~= h.skip(1));
                assert(h.skip(1) =~= grown.skip(grown.len() - m.history@.len()));
            }
            assert(m.history@ =~= kept(grown));
        }
        assert(self@ =~= had.with_history(label@, kept(grown)));
    }

    /// Adds what a poll found, series by series.
    fn absorb(&mut self, samples: &Vec<Sample<T>>) -> (r: Vec<Row>) where T: Copy
        requires
            old(self).wf(),
        ensures
            final(self).wf(),
            final(self)@ == old(self)@.absorbed_all(points(samples@)),
            row_views(r@) == old(self)@.rows_for(points(samples@)),
    {
        let mut rows: Vec<Row> = Vec::new();
        let ghost ps = points(samples@);
        let ghost start = self@;
        let mut i: usize = 0;
        assert(ps.take(0) =~= seq![]);
        assert(row_views(rows@) =~= seq![]);
        while i < samples.len()
            invariant
                i <= samples@.len() == ps.len(),
                ps == points(samples@),
                self.wf(),
                self@ == start.absorbed_all(ps.take(i as int)),
                row_views(rows@) == start.rows_for(ps.take(i as int)),
            decreases samples@.len() - i,
        {
            assert(ps.take(i + 1).drop_last() =~= ps.take(i as int));
            assert(ps.take(i + 1).last() == ps[i as int]);
            let ghost before = row_views(rows@);
            let s = &samples[i];
            if let Some(row) = self.ensure_metric(s.label.as_str(), s.unit) {
                rows.push(row);
                assert(row_views(rows@) =~= before.push(row@));
            }
            self.record(s.label.as_str(), s.value);
            i += 1;
        }
        assert(ps.take(ps.len() as int) =~= ps);
        rows
    }

    /// Takes in what the first poll found, so that the graph has data at once, and
    /// remembers the on/off state of every series found. Returns the rows of the
    /// new series.
    pub fn prime(&mut self, samples: &Vec<Sample<T>>) -> (r: Vec<Row>) where T: Copy
        requires
            old(self).wf(),
            old(self)@.poll_count < u64::MAX,
        ensures
            final(self).wf(),
            final(self)@ == old(self)@.absorbed_all(
                points(samples@))
            .counted().remembered(),
            row_views(r@) == old(self)@.rows_for(points(samples@)),
    {
        let rows = self.absorb(samples);
        proof {
            lemma_count_kept(old(self)@, points(samples@));
        }
        self.poll_count += 1;
        self.remember();
        rows
    }

    /// Takes in what a poll found. Returns the rows of the new series.
    pub fn poll(&mut self, samples: &Vec<Sample<T>>) -> (r: Vec<Row>) where T: Copy
        requires
            old(self).wf(),
            old(self)@.poll_count < u64::MAX,
        ensures
            final(self).wf(),
            final(self)@ == old(self)@.absorbed_all(points(samples@)).counted(),
            row_views(r@) == old(self)@.rows_for(points(samples@)),
    {
        let rows = self.absorb(samples);
        proof {
            lemma_count_kept(old(self)@, points(samples@));
        }
        self.poll_count += 1;
        rows
    }

    /// Remembers the on/off state of every series; what is remembered already
    /// stays.
    fn remember(&mut self)
        requires
            old(self).wf(),
        ensures
            final(self).wf(),
            final(self)@ == old(self)@.remembered(),
    {
        let ghost had = self@;
        let ghost saved = self.visibility@;
        let ghost all = self.metrics.listing();
        let mut i: usize = 0;
        assert(to_map(all.take(0)) =~= Map::empty());
        assert(self.visibility@ =~= to_map(all.take(0)).map_values(
            |m: Metric<T>| m.visible,
        ).union_prefer_right(saved));
        while i < self.metrics.len()
            invariant
                i <= all.len(),
                self.metrics == old(self).metrics,
                self.next_color == old(self).next_color,
                self.poll_count == old(self).poll_count,
                all == self.metrics.listing(),
                self.visibility.wf(),
                self.visibility@ == to_map(all.take(i as int)).map_values(
                    |m: Metric<T>| m.visible,
                ).union_prefer_right(saved),
                sorted(all),
            decreases all.len() - i,
        {
            assert(all.take(i + 1).drop_last() =~= all.take(i as int));
            proof {
                let upto = all.take(i + 1);
                assert forall|a: int, b: int| 0 <= a < b < upto.len() implies before(
                    #[trigger] upto[a].0,
                    #[trigger] upto[b].0,
                ) by {
                    assert(before(all[a].0, all[b].0));
                }
                lemma_sorted_prefix(upto);
            }
            let label = self.metrics.label_at(i);
            let visible = self.metrics.value_at(i).visible;
            if !self.visibility.contains(label) {
                self.visibility.insert(label, visible);
            }
            assert(self.visibility@ =~= to_map(all.take(i + 1)).map_values(
                |m: Metric<T>| m.visible,
            ).union_prefer_right(saved));
            i += 1;
        }
        assert(all.take(all.len() as int) =~= all);
        assert(self@ =~= had.remembered());
    }

    /// Switches a series on or off, and remembers it.
    pub fn toggle(&mut self, label: &str, active: bool)
        requires
            old(self).wf(),
        ensures
            final(self).wf(),
            final(self)@ == old(self)@.toggled(label@, active),
    {
        let ghost had = self@;
        if let Some(m) = self.metrics.get_mut(label) {
            m.visible = active;
        }
        self.visibility.insert(label, active);
        assert(self@ =~= had.toggled(label@, active));
    }

    /// The series agree with what is remembered of them, and as many color indexes
    /// have been given out as there are series.
    pub proof fn lemma_consistent(&self)
        requires
            self.wf(),
        ensures
            self@.consistent(),
            self@.metrics.dom().finite(),
            self@.next_color == self@.metrics.dom().len(),
    {
        self.metrics.lemma_listing();
        assert(self@.metrics.dom() =~= self.metrics@.dom());
    }

    /// The series in the order of their labels.
    pub closed spec fn listing(&self) -> Seq<(Seq<char>, MetricView<T>)> {
        self.metrics.listing().map_values(|e: (Seq<char>, Metric<T>)| (e.0, e.1@))
    }

    /// The listing is in the order of the labels, and lists the series.
    pub proof fn lemma_listing(&self)
        requires
            self.wf(),
        ensures
            sorted(self.listing()),
            to_map(self.listing()) == self@.metrics,
    {
        let ms = self.metrics.listing();
        assert forall|a: int, b: int| 0 <= a < b < self.listing().len() implies before(
            #[trigger] self.listing()[a].0,
            #[trigger] self.listing()[b].0,
        ) by {
            assert(before(ms[a].0, ms[b].0));
        }
        lemma_views(ms);
    }

    /// The number of series.
    pub fn len(&self) -> (r: usize)
        ensures
            r == self.listing().len(),
    {
        self.metrics.len()
    }

    /// The label of series `i`.
    pub fn label_at(&self, i: usize) -> (r: &str)
        requires
            i < self.listing().len(),
        ensures
            r@ == self.listing()[i as int].0,
    {
        self.metrics.label_at(i)
    }

    /// Series `i`.
    pub fn metric_at(&self, i: usize) -> (r: &Metric<T>)
        requires
            i < self.listing().len(),
        ensures
            r@ == self.listing()[i as int].1,
    {
        self.metrics.value_at(i)
    }

    /// How often the sources have been polled.
    pub fn poll_count(&self) -> (r: u64)
        ensures
            r == self@.poll_count,
    {
        self.poll_count
    }

    /// The remembered on/off states.
    pub fn visibility(&self) -> (r: &LabelMap<bool>)
        requires
            self.wf(),
        ensures
            r.wf(),
            r@ == self@.visibility,
    {
        &self.visibility
    }
}

proof fn lemma_views<T>(ms: Seq<(Seq<char>, Metric<T>)>)
    ensures
        to_map(ms.map_values(|e: (Seq<char>, Metric<T>)| (e.0, e.1@))) == to_map(ms).map_values(
            |m: Metric<T>| m@,
        ),
    decreases ms.len(),
{
    let vs = ms.map_values(|e: (Seq<char>, Metric<T>)| (e.0, e.1@));
    if ms.len() > 0 {
        lemma_views(ms.drop_last());
        assert(vs.drop_last() =~= ms.drop_last().map_values(
            |e: (Seq<char>, Metric<T>)| (e.0, e.1@),
        ));
    }
    assert(to_map(vs) =~= to_map(ms).map_values(|m: Metric<T>| m@));
}

/// Adding values leaves the number of polls as it is.
proof fn lemma_count_kept<T>(s: StateView<T>, ps: Seq<Point<T>>)
    ensures
        s.absorbed_all(ps).poll_count == s.poll_count,
    decreases ps.len(),
{
    if ps.len() > 0 {
        lemma_count_kept(s, ps.drop_last());
    }
}

/// The values that are brought for one series, in order.
pub open spec fn values_for<T>(ps: Seq<Point<T>>, label: Seq<char>) -> Seq<T>
    decreases ps.len(),
{
    if ps.len() == 0 {
        seq![]
    } else if ps.last().label == label {
        values_for(ps.drop_last(), label).push(ps.last().value)
    } else {
        values_for(ps.drop_last(), label)
    }
}

/// The history of a series; a series that is not known has none.
pub open spec fn history_of<T>(s: StateView<T>, label: Seq<char>) -> Seq<T> {
    if s.metrics.contains_key(label) {
        s.metrics[label].history
    } else {
        seq![]
    }
}

/// A poll appends to each series the values that were found for it, and keeps the
/// last points.
pub proof fn lemma_poll_extends_histories<T>(
    s: StateView<T>,
    ps: Seq<Point<T>>,
    label: Seq<char>,
)
    requires
        s.consistent(),
    ensures
        history_of(s.absorbed_all(ps), label) == kept(history_of(s, label) + values_for(ps, label)),
    decreases ps.len(),
{
    let h = history_of(s, label);
    if ps.len() > 0 {
        lemma_poll_extends_histories(s, ps.drop_last(), label);
        let vs = values_for(ps.drop_last(), label);
        if ps.last().label == label {
            let v = ps.last().value;
            assert(h + vs.push(v) =~= (h + vs).push(v));
            assert(kept(kept(h + vs).push(v)) =~= kept((h + vs).push(v)));
        }
    } else {
        assert(h + values_for(ps, label) =~= h);
    }
}

/// No more points are kept of a series than the history holds, whatever polls find.
pub proof fn lemma_history_is_bounded<T>(s: StateView<T>, ps: Seq<Point<T>>, label: Seq<char>)
    requires
        s.consistent(),
    ensures
        history_of(s.absorbed_all(ps), label).len() <= HISTORY_LEN,
{
    lemma_poll_extends_histories(s, ps, label);
}

/// A poll that finds each series once adds no more than one point to any of them, so
/// that the points of a history are as many polls apart as they are places.
pub proof fn lemma_one_point_per_poll<T>(s: StateView<T>, ps: Seq<Point<T>>, label: Seq<char>)
    requires
        s.consistent(),
        forall|i: int, j: int|
            0 <= i < j < ps.len() ==> (#[trigger] ps[i]).label != (#[trigger] ps[j]).label,
    ensures
        values_for(ps, label).len() <= 1,
        history_of(s.absorbed_all(ps), label).len() <= history_of(s, label).len() + 1,
{
    lemma_poll_extends_histories(s, ps, label);
    lemma_one_value(ps, label);
}

proof fn lemma_one_value<T>(ps: Seq<Point<T>>, label: Seq<char>)
    requires
        forall|i: int, j: int|
            0 <= i < j < ps.len() ==> (#[trigger] ps[i]).label != (#[trigger] ps[j]).label,
    ensures
        values_for(ps, label).len() <= 1,
        (forall|i: int| 0 <= i < ps.len() ==> (#[trigger] ps[i]).label != label) ==> values_for(
            ps,
            label,
        ).len() == 0,
    decreases ps.len(),
{
    if ps.len() > 0 {
        let p = ps.drop_last();
        assert forall|i: int, j: int| 0 <= i < j < p.len() implies (#[trigger] p[i]).label != (
        #[trigger] p[j]).label by {
            assert(ps[i].label != ps[j].label);
        }
        lemma_one_value(p, label);
        if ps.last().label == label {
            assert forall|i: int| 0 <= i < p.len() implies (#[trigger] p[i]).label != label by {
                assert(ps[i].label != ps[ps.len() - 1].label);
            }
        }
        if forall|i: int| 0 <= i < ps.len() ==> (#[trigger] ps[i]).label != label {
            assert(ps[ps.len() - 1].label != label);
            assert forall|i: int| 0 <= i < p.len() implies (#[trigger] p[i]).label != label by {
                assert(ps[i].label != label);
            }
        }
    }
}

/// A series keeps its unit, its color and its on/off state as values are added, and
/// no on/off state is forgotten or changed.
pub proof fn lemma_polls_keep_series<T>(
    s: StateView<T>,
    ps: Seq<Point<T>>,
    label: Seq<char>,
)
    requires
        s.metrics.contains_key(label),
    ensures
        ({
            let t = s.absorbed_all(ps);
            &&& t.metrics.contains_key(label)
            &&& t.metrics[label].unit == s.metrics[label].unit
            &&& t.metrics[label].color_index == s.metrics[label].color_index
            &&& t.metrics[label].visible == s.metrics[label].visible
            &&& t.visibility == s.visibility
        }),
    decreases ps.len(),
{
    if ps.len() > 0 {
        lemma_polls_keep_series(s, ps.drop_last(), label);
    }
}

/// A series is known after values have been added if it was known before, or a value
/// was brought for it.
pub proof fn lemma_polls_find_series<T>(
    s: StateView<T>,
    ps: Seq<Point<T>>,
    label: Seq<char>,
)
    ensures
        s.absorbed_all(ps).metrics.contains_key(label) <==> s.metrics.contains_key(label)
            || exists|i: int| 0 <= i < ps.len() && (#[trigger] ps[i]).label == label,
    decreases ps.len(),
{
    if ps.len() > 0 {
        let p = ps.drop_last();
        lemma_polls_find_series(s, p, label);
        if exists|i: int| 0 <= i < ps.len() && (#[trigger] ps[i]).label == label {
            let i = choose|i: int| 0 <= i < ps.len() && (#[trigger] ps[i]).label == label;
            if i < p.len() {
                assert(p[i].label == label);
            }
        }
        if exists|i: int| 0 <= i < p.len() && (#[trigger] p[i]).label == label {
            let i = choose|i: int| 0 <= i < p.len() && (#[trigger] p[i]).label == label;
            assert(ps[i].label == label);
        }
        if ps.last().label == label {
            assert(ps[ps.len() - 1].label == label);
        }
    }
}

/// Each series that is found gets one row in the side panel, with its color and its
/// on/off state, and nothing else gets one.
pub proof fn lemma_found_series_get_rows<T>(s: StateView<T>, ps: Seq<Point<T>>)
    ensures
        ({
            let t = s.absorbed_all(ps);
            let rows = s.rows_for(ps);
            &&& forall|l: Seq<char>| #[trigger]
                t.metrics.contains_key(l) && !s.metrics.contains_key(l) ==> exists|i: int|
                    0 <= i < rows.len() && (#[trigger] rows[i]).label == l
            &&& forall|i: int|
                0 <= i < rows.len() ==> {
                    let row = #[trigger] rows[i];
                    &&& t.metrics.contains_key(row.label)
                    &&& !s.metrics.contains_key(row.label)
                    &&& row.color_index == t.metrics[row.label].color_index
                    &&& row.visible == t.metrics[row.label].visible
                }
            &&& forall|i: int, j: int|
                0 <= i < j < rows.len() ==> (#[trigger] rows[i]).label != (
                #[trigger] rows[j]).label
        }),
    decreases ps.len(),
{
    if ps.len() > 0 {
        let p = ps.drop_last();
        lemma_found_series_get_rows(s, p);
        let t = s.absorbed_all(p);
        let before = s.rows_for(p);
        let rows = s.rows_for(ps);
        let u = s.absorbed_all(ps);
        let here = ps.last().label;
        assert(s.metrics.contains_key(here) ==> t.metrics.contains_key(here)) by {
            lemma_polls_find_series(s, p, here);
        }
        assert forall|l: Seq<char>| #[trigger]
            u.metrics.contains_key(l) && !s.metrics.contains_key(l) implies exists|i: int|
            0 <= i < rows.len() && (#[trigger] rows[i]).label == l by {
            if t.metrics.contains_key(l) {
                let i = choose|i: int| 0 <= i < before.len() && (#[trigger] before[i]).label == l;
                assert(rows[i].label == l);
            } else {
                assert(rows[rows.len() - 1].label == l);
            }
        }
    }
}

/// Adding values keeps the state consistent.
pub proof fn lemma_polls_keep_consistency<T>(s: StateView<T>, ps: Seq<Point<T>>)
    requires
        s.consistent(),
    ensures
        s.absorbed_all(ps).consistent(),
        s.absorbed_all(ps).counted().consistent(),
    decreases ps.len(),
{
    if ps.len() > 0 {
        lemma_polls_keep_consistency(s, ps.drop_last());
    }
}

/// Switching a series on or off keeps the state consistent.
pub proof fn lemma_toggle_keeps_consistency<T>(s: StateView<T>, label: Seq<char>, active: bool)
    requires
        s.consistent(),
    ensures
        s.toggled(label, active).consistent(),
{
}

/// Collecting goes on whatever is drawn: to switch a series on or off and then take
/// in values comes to the same as to take them in first.
pub proof fn lemma_toggle_commutes_with_polls<T>(
    s: StateView<T>,
    ps: Seq<Point<T>>,
    label: Seq<char>,
    active: bool,
)
    ensures
        s.toggled(label, active).absorbed_all(ps) == s.absorbed_all(ps).toggled(
            label,
            active,
        ),
    decreases ps.len(),
{
    if ps.len() > 0 {
        lemma_toggle_commutes_with_polls(s, ps.drop_last(), label, active);
        let t = s.absorbed_all(ps.drop_last());
        let p = ps.last();
        let a = t.toggled(label, active).ensured(p.label, p.unit);
        let b = t.ensured(p.label, p.unit).toggled(label, active);
        assert(a.metrics =~= b.metrics);
        assert(a =~= b);
        assert(a.metrics[p.label].history == t.ensured(p.label, p.unit).metrics[p.label].history);
        assert(t.toggled(label, active).absorbed(p).metrics =~= t.absorbed(p).toggled(label, active).metrics);
        assert(t.toggled(label, active).absorbed(p) =~= t.absorbed(p).toggled(
            label,
            active,
        ));
    }
}

/// Switching a series on or off changes no other series, and no history, unit or
/// color.
pub proof fn lemma_toggle_changes_one_series<T>(
    s: StateView<T>,
    label: Seq<char>,
    active: bool,
    other: Seq<char>,
)
    requires
        s.metrics.contains_key(other),
    ensures
        ({
            let t = s.toggled(label, active);
            &&& t.metrics.dom() == s.metrics.dom()
            &&& t.metrics[other].history == s.metrics[other].history
            &&& t.metrics[other].unit == s.metrics[other].unit
            &&& t.metrics[other].color_index == s.metrics[other].color_index
            &&& t.metrics[other].visible == if other == label {
                active
            } else {
                s.metrics[other].visible
            }
        }),
{
    assert(s.toggled(label, active).metrics.dom() =~= s.metrics.dom());
}

/// Once the on/off states are remembered, every series has one, it is the one that
/// the series has, and none that was remembered before has changed.
pub proof fn lemma_every_series_is_remembered<T>(s: StateView<T>, label: Seq<char>)
    requires
        s.consistent(),
    ensures
        s.metrics.contains_key(label) ==> s.remembered().visibility.contains_key(label)
            && s.remembered().visibility[label] == s.metrics[label].visible,
        s.visibility.contains_key(label) ==> s.remembered().visibility.contains_key(label)
            && s.remembered().visibility[label] == s.visibility[label],
        s.remembered().visibility.contains_key(label) ==> s.metrics.contains_key(label)
            || s.visibility.contains_key(label),
        s.remembered().consistent(),
{
    let r = s.remembered();
    assert forall|l: Seq<char>| #[trigger] r.metrics.contains_key(l) implies r.metrics[l].visible
        == shown(r.visibility, l) && r.metrics[l].color_index < r.next_color by {
        assert(s.metrics.contains_key(l));
    }
}

/// The on/off states survive a restart: a run that starts from the text that an
/// earlier run saved switches each series on or off as that run had it.
pub proof fn lemma_visibility_survives_restart<T>(
    earlier: StateView<T>,
    text: Seq<char>,
    later: StateView<T>,
    label: Seq<char>,
    unit: Unit,
)
    requires
        earlier.consistent(),
        earlier.metrics.contains_key(label),
        saved_visibility(Some(text)) == earlier.visibility,
        later.visibility == saved_visibility(Some(text)),
        !later.metrics.contains_key(label),
    ensures
        later.ensured(label, unit).metrics[label].visible == earlier.metrics[label].visible,
{
}

/// Two seconds lie between polls, and twenty minutes are kept.
pub proof fn lemma_history_spans_twenty_minutes()
    ensures
        POLL_INTERVAL_SECS == 2,
        HISTORY_LEN * POLL_INTERVAL_SECS == 20 * 60,
{
}

/// What is kept of a history is its end: the last six hundred values, or all where there
/// are no more.
pub proof fn lemma_end_of_history_is_kept<T>(history: Seq<T>, i: int)
    ensures
        history.len() <= 600 ==> kept(history) == history,
        history.len() > 600 ==> kept(history).len() == 600,
        0 <= i < kept(history).len() ==> kept(history)[kept(history).len() - 1 - i]
            == history[history.len() - 1 - i],
{
}

/// A series exists from when it is first found, with the unit in which it was found, no
/// values yet, the next color, and switched on unless it is remembered as switched off.
/// One that exists already is left as it is, and so are all others.
pub proof fn lemma_series_is_found_once<T>(
    s: StateView<T>,
    label: Seq<char>,
    unit: Unit,
    other: Seq<char>,
)
    ensures
        s.metrics.contains_key(label) ==> s.ensured(label, unit) == s,
        !s.metrics.contains_key(label) ==> {
            let t = s.ensured(label, unit);
            &&& t.metrics.contains_key(label)
            &&& t.metrics[label].unit == unit
            &&& t.metrics[label].history.len() == 0
            &&& t.metrics[label].color_index == s.next_color
            &&& t.metrics[label].visible <==> !(s.visibility.contains_key(label)
                && !s.visibility[label])
            &&& t.next_color == s.next_color + 1
            &&& t.visibility == s.visibility
            &&& t.poll_count == s.poll_count
            &&& other != label ==> t.metrics.contains_key(other) == s.metrics.contains_key(other)
            &&& other != label && s.metrics.contains_key(other) ==> t.metrics[other]
                == s.metrics[other]
        },
{
}

/// A value goes to the end of its series, and where that is full the oldest value goes.
/// A series that is not known is found first. Nothing else changes.
pub proof fn lemma_value_goes_to_its_series<T>(s: StateView<T>, p: Point<T>, other: Seq<char>)
    requires
        s.consistent(),
    ensures
        ({
            let t = s.absorbed_all(seq![p]);
            let known = s.metrics.contains_key(p.label);
            &&& t.metrics.contains_key(p.label)
            &&& known && s.metrics[p.label].history.len() < 600 ==> t.metrics[p.label].history
                == s.metrics[p.label].history.push(p.value)
            &&& known && s.metrics[p.label].history.len() >= 600 ==> t.metrics[p.label].history
                == s.metrics[p.label].history.push(p.value).skip(1)
            &&& !known ==> t.metrics[p.label].history == seq![p.value]
            &&& known ==> t.metrics[p.label].unit == s.metrics[p.label].unit
                && t.metrics[p.label].color_index == s.metrics[p.label].color_index
                && t.metrics[p.label].visible == s.metrics[p.label].visible && t.next_color
                == s.next_color
            &&& !known ==> t.metrics[p.label].unit == p.unit && t.metrics[p.label].color_index
                == s.next_color && t.next_color == s.next_color + 1
            &&& !known ==> (t.metrics[p.label].visible <==> !(s.visibility.contains_key(p.label)
                && !s.visibility[p.label]))
            &&& t.visibility == s.visibility
            &&& t.poll_count == s.poll_count
            &&& other != p.label ==> t.metrics.contains_key(other) == s.metrics.contains_key(other)
            &&& other != p.label && s.metrics.contains_key(other) ==> t.metrics[other]
                == s.metrics[other]
        }),
{
    let ps = seq![p];
    assert(ps.drop_last() =~= seq![]);
    assert(ps.last() == p);
    assert(s.absorbed_all(seq![]) == s);
    assert(s.absorbed_all(ps) == s.absorbed(p));
    if s.metrics.contains_key(p.label) {
        let h = s.metrics[p.label].history;
        assert(h.len() <= HISTORY_LEN);
    } else {
        assert(kept(Seq::<T>::empty().push(p.value)) =~= seq![p.value]);
    }
}

/// Values are taken in one after the other, and so are the rows of the series that they
/// find: it does not matter how they are split up.
pub proof fn lemma_values_one_after_other<T>(s: StateView<T>, a: Seq<Point<T>>, b: Seq<Point<T>>)
    ensures
        s.absorbed_all(Seq::<Point<T>>::empty()) == s,
        s.rows_for(Seq::<Point<T>>::empty()) == Seq::<RowView>::empty(),
        s.absorbed_all(a + b) == s.absorbed_all(a).absorbed_all(b),
        s.rows_for(a + b) == s.rows_for(a) + s.absorbed_all(a).rows_for(b),
    decreases b.len(),
{
    assert(s.absorbed_all(Seq::<Point<T>>::empty()) == s);
    assert(s.rows_for(Seq::<Point<T>>::empty()) == Seq::<RowView>::empty());
    let t = s.absorbed_all(a);
    if b.len() == 0 {
        assert(a + b =~= a);
        assert(s.rows_for(a) + t.rows_for(b) =~= s.rows_for(a));
    } else {
        lemma_values_one_after_other(s, a, b.drop_last());
        assert((a + b).drop_last() =~= a + b.drop_last());
        assert((a + b).last() == b.last());
        assert(s.rows_for(a + b) =~= s.rows_for(a) + t.rows_for(b));
    }
}

/// A value of a series that is not known brings one row, with the label of the series, its
/// color and its on/off state; a value of a series that is known brings none.
pub proof fn lemma_new_series_brings_a_row<T>(s: StateView<T>, p: Point<T>)
    ensures
        s.metrics.contains_key(p.label) ==> s.rows_for(seq![p]) == Seq::<RowView>::empty(),
        !s.metrics.contains_key(p.label) ==> {
            let rows = s.rows_for(seq![p]);
            &&& rows.len() == 1
            &&& rows[0].label == p.label
            &&& rows[0].color_index == s.next_color
            &&& rows[0].visible <==> !(s.visibility.contains_key(p.label)
                && !s.visibility[p.label])
        },
{
    let ps = seq![p];
    assert(ps.drop_last() =~= seq![]);
    assert(ps.last() == p);
    assert(s.absorbed_all(seq![]) == s);
    assert(s.rows_for(seq![]) == Seq::<RowView>::empty());
}

/// The values of a series are picked out one by one.
pub proof fn lemma_values_are_picked_out<T>(
    a: Seq<Point<T>>,
    b: Seq<Point<T>>,
    p: Point<T>,
    label: Seq<char>,
)
    ensures
        values_for(Seq::<Point<T>>::empty(), label) == Seq::<T>::empty(),
        p.label == label ==> values_for(seq![p], label) == seq![p.value],
        p.label != label ==> values_for(seq![p], label) == Seq::<T>::empty(),
        values_for(a + b, label) == values_for(a, label) + values_for(b, label),
    decreases b.len(),
{
    assert(values_for(Seq::<Point<T>>::empty(), label) == Seq::<T>::empty());
    let ps = seq![p];
    assert(ps.drop_last() =~= seq![]);
    if p.label == label {
        assert(values_for(ps, label) =~= seq![p.value]);
    }
    if b.len() == 0 {
        assert(a + b =~= a);
        assert(values_for(a, label) + values_for(b, label) =~= values_for(a, label));
    } else {
        lemma_values_are_picked_out(a, b.drop_last(), p, label);
        assert((a + b).drop_last() =~= a + b.drop_last());
        assert((a + b).last() == b.last());
        assert(values_for(a + b, label) =~= values_for(a, label) + values_for(b, label));
    }
}

/// A poll is counted once, and counting changes nothing else.
pub proof fn lemma_poll_is_counted<T>(s: StateView<T>)
    requires
        s.poll_count < u64::MAX,
    ensures
        s.counted().poll_count == s.poll_count + 1,
        s.counted().metrics == s.metrics,
        s.counted().visibility == s.visibility,
        s.counted().next_color == s.next_color,
{
}

/// Remembering the on/off states changes nothing else.
pub proof fn lemma_remembering_changes_no_series<T>(s: StateView<T>)
    ensures
        s.remembered().metrics == s.metrics,
        s.remembered().next_color == s.next_color,
        s.remembered().poll_count == s.poll_count,
{
}

/// What a series was switched to last is remembered, whether it is known or not, and no
/// other on/off state changes.
pub proof fn lemma_toggle_is_remembered<T>(
    s: StateView<T>,
    label: Seq<char>,
    active: bool,
    other: Seq<char>,
)
    ensures
        ({
            let t = s.toggled(label, active);
            &&& t.visibility.contains_key(label)
            &&& t.visibility[label] == active
            &&& s.metrics.contains_key(label) ==> t.metrics[label].visible == active
            &&& other != label ==> t.visibility.contains_key(other) == s.visibility.contains_key(
                other,
            )
            &&& other != label && s.visibility.contains_key(other) ==> t.visibility[other]
                == s.visibility[other]
            &&& t.metrics.contains_key(other) == s.metrics.contains_key(other)
            &&& t.next_color == s.next_color
            &&& t.poll_count == s.poll_count
        }),
{
}

/// Every sample brings one value, in order: its own, for its label and in its unit.
pub proof fn lemma_every_sample_brings_its_value<T>(samples: Seq<Sample<T>>, i: int)
    requires
        0 <= i < samples.len(),
    ensures
        points(samples).len() == samples.len(),
        points(samples)[i].label == samples[i].label@,
        points(samples)[i].unit == samples[i].unit,
        points(samples)[i].value == samples[i].value,
{
}

/// Rows are handed over as they are.
pub proof fn lemma_rows_are_handed_over(rows: Seq<Row>, i: int)
    requires
        0 <= i < rows.len(),
    ensures
        row_views(rows).len() == rows.len(),
        row_views(rows)[i].label == rows[i].label@,
        row_views(rows)[i].color_index == rows[i].color_index,
        row_views(rows)[i].visible == rows[i].visible,
{
}

/// A series is told as it is.
pub proof fn lemma_series_is_told<T>(m: Metric<T>)
    ensures
        m@.unit == m.unit,
        m@.history == m.history@,
        m@.visible == m.visible,
        m@.color_index == m.color_index,
{
}

} // verus!
