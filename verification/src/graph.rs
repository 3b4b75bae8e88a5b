//! What the graph shows: its bands, the series in each, and the text around them.
use vstd::prelude::*;

use crate::state::{AppState, Metric, MetricView, HISTORY_LEN, POLL_INTERVAL_SECS};
use crate::text::{decimal, push_decimal};
use crate::unit::{
    color_for, lemma_every_unit_has_a_band, palette_color, Unit, BAND_ORDER,
};

verus! {

/// What stands in the graph where no series is drawn.
pub const NO_SERIES: &'static str = "No series selected";

/// Where the vertical axis of a band begins and ends.
#[derive(Clone, Copy, Debug, PartialEq, Eq, Structural)]
pub enum Scale {
    /// From zero to one: there are no values to go by.
    Nothing,
    /// From zero to the greatest value, or to one where that is less.
    FromZero,
    /// From the least value to the greatest.
    Data,
}

impl Unit {
    /// Where the vertical axis of the unit's band begins and ends. It follows the
    /// values, where these have a finite least and greatest: temperatures and
    /// percentages begin at the least value, and all else at zero.
    pub open spec fn axis(self, finite: bool) -> Scale {
        if !finite {
            Scale::Nothing
        } else if self == Unit::Celsius || self == Unit::Percent {
            Scale::Data
        } else {
            Scale::FromZero
        }
    }

    /// Where the vertical axis of the unit's band begins and ends, where the values
    /// have a finite least and greatest or do not.
    pub fn scale(self, finite: bool) -> (r: Scale)
        ensures
            r == self.axis(finite),
    {
        if !finite {
            return Scale::Nothing;
        }
        match self {
            Unit::Celsius | Unit::Percent => Scale::Data,
            _ => Scale::FromZero,
        }
    }

    /// Whether the axis has a margin at both ends: that of temperatures does.
    pub fn has_margin(self) -> (r: bool)
        ensures
            r == (self == Unit::Celsius),
    {
        match self {
            Unit::Celsius => true,
            _ => false,
        }
    }
}

/// How a series is drawn.
pub struct Series<T> {
    /// Its color, as red, green and blue in hundredths.
    pub color: (u8, u8, u8),
    /// Its points, oldest first: how many steps from the right edge each stands,
    /// and its value.
    pub points: Vec<(usize, T)>,
    /// Whether a line joins the points: it takes two.
    pub line: bool,
    /// The value that stands at the right edge: the latest.
    pub latest: Option<T>,
}

/// How a series is drawn.
#[verifier::ext_equal]
pub struct SeriesView<T> {
    /// Its color, as red, green and blue in hundredths.
    pub color: (u8, u8, u8),
    /// Its points, oldest first.
    pub points: Seq<(usize, T)>,
    /// Whether a line joins the points.
    pub line: bool,
    /// The value that stands at the right edge.
    pub latest: Option<T>,
}

impl<T> View for Series<T> {
    type V = SeriesView<T>;

    open spec fn view(&self) -> SeriesView<T> {
        SeriesView {
            color: self.color,
            points: self.points@,
            line: self.line,
            latest: self.latest,
        }
    }
}

/// One band of the graph.
pub struct Band<T> {
    /// The unit of its series.
    pub unit: Unit,
    /// Its series, in the order of their labels.
    pub series: Vec<Series<T>>,
}

/// One band of the graph.
pub struct BandView<T> {
    /// The unit of its series.
    pub unit: Unit,
    /// Its series, in the order of their labels.
    pub series: Seq<SeriesView<T>>,
}

impl<T> View for Band<T> {
    type V = BandView<T>;

    open spec fn view(&self) -> BandView<T> {
        BandView { unit: self.unit, series: series_views(self.series@) }
    }
}

/// How several series are drawn.
pub open spec fn series_views<T>(v: Seq<Series<T>>) -> Seq<SeriesView<T>> {
    v.map_values(|s: Series<T>| s@)
}

/// Several bands.
pub open spec fn band_views<T>(v: Seq<Band<T>>) -> Seq<BandView<T>> {
    v.map_values(|b: Band<T>| b@)
}

/// How a series with this history and color is drawn: the latest point at the
/// right edge, and each earlier one a step further left.
pub open spec fn drawing<T>(m: MetricView<T>) -> SeriesView<T> {
    let n = m.history.len();
    SeriesView {
        color: palette_color(m.color_index),
        points: Seq::new(n, |i: int| ((n - 1 - i) as usize, m.history[i])),
        line: n >= 2,
        latest: if n > 0 {
            Some(m.history.last())
        } else {
            None
        },
    }
}

/// Whether a series is drawn in the band of this unit.
pub open spec fn drawn_in<T>(m: MetricView<T>, unit: Unit) -> bool {
    m.visible && m.unit == unit
}

/// The series in the band of this unit, in the order in which they are listed.
pub open spec fn series_in<T>(
    ls: Seq<(Seq<char>, MetricView<T>)>,
    unit: Unit,
) -> Seq<SeriesView<T>>
    decreases ls.len(),
{
    if ls.len() == 0 {
        seq![]
    } else if drawn_in(ls.last().1, unit) {
        series_in(ls.drop_last(), unit).push(drawing(ls.last().1))
    } else {
        series_in(ls.drop_last(), unit)
    }
}

/// The bands of the graph: those of the units, in stacking order, that have a
/// series to draw.
pub open spec fn bands_of<T>(
    ls: Seq<(Seq<char>, MetricView<T>)>,
    units: Seq<Unit>,
) -> Seq<BandView<T>>
    decreases units.len(),
{
    if units.len() == 0 {
        seq![]
    } else {
        let rest = bands_of(ls, units.drop_last());
        if series_in(ls, units.last()).len() > 0 {
            rest.push(BandView { unit: units.last(), series: series_in(ls, units.last()) })
        } else {
            rest
        }
    }
}

/// The graph of a listing of series.
pub open spec fn graph_of<T>(ls: Seq<(Seq<char>, MetricView<T>)>) -> Seq<BandView<T>> {
    bands_of(ls, BAND_ORDER@)
}

fn draw_series<T: Copy>(m: &Metric<T>) -> (r: Series<T>)
    ensures
        r@ == drawing(m@),
{
    let n = m.history.len();
    let mut points: Vec<(usize, T)> = Vec::new();
    let mut i: usize = 0;
    while i < n
        invariant
            i <= n == m.history@.len(),
            points@.len() == i,
            forall|k: int| 0 <= k < i ==> points@[k] == drawing(m@).points[k],
        decreases n - i,
    {
        points.push((n - 1 - i, m.history[i]));
        i += 1;
    }
    let latest = if n > 0 {
        Some(m.history[n - 1])
    } else {
        None
    };
    let r = Series { color: color_for(m.color_index), points, line: n >= 2, latest };
    assert(r@ =~= drawing(m@));
    r
}

fn draw_band<T: Copy>(st: &AppState<T>, unit: Unit) -> (r: Vec<Series<T>>)
    ensures
        series_views(r@) == series_in(st.listing(), unit),
{
    let mut out: Vec<Series<T>> = Vec::new();
    let ghost ls = st.listing();
    let mut i: usize = 0;
    assert(ls.take(0) =~= seq![]);
    assert(series_views(out@) =~= seq![]);
    while i < st.len()
        invariant
            i <= ls.len(),
            ls == st.listing(),
            series_views(out@) == series_in(ls.take(i as int), unit),
        decreases ls.len() - i,
    {
        assert(ls.take(i + 1).drop_last() =~= ls.take(i as int));
        assert(ls.take(i + 1).last() == ls[i as int]);
        let ghost had = series_views(out@);
        let m = st.metric_at(i);
        if m.visible && m.unit == unit {
            let s = draw_series(m);
            out.push(s);
            assert(series_views(out@) =~= had.push(s@));
        }
        i += 1;
    }
    assert(ls.take(ls.len() as int) =~= ls);
    out
}

/// The graph: its bands, top to bottom. Only units with a series that is switched
/// on have one.
pub fn draw_graph<T: Copy>(st: &AppState<T>) -> (r: Vec<Band<T>>)
    ensures
        band_views(r@) == graph_of(st.listing()),
{
    let mut out: Vec<Band<T>> = Vec::new();
    let ghost ls = st.listing();
    let units = BAND_ORDER;
    let ghost all = units@;
    let mut i: usize = 0;
    assert(all.take(0) =~= seq![]);
    assert(band_views(out@) =~= seq![]);
    while i < 5
        invariant
            i <= 5,
            ls == st.listing(),
            all == units@,
            all.len() == 5,
            band_views(out@) == bands_of(ls, all.take(i as int)),
        decreases 5 - i,
    {
        assert(all.take(i + 1).drop_last() =~= all.take(i as int));
        let ghost had = band_views(out@);
        let unit = units[i];
        assert(all.take(i + 1).last() == unit);
        let series = draw_band(st, unit);
        if series.len() > 0 {
            let band = Band { unit, series };
            out.push(band);
            assert(band_views(out@) =~= had.push(band@));
        }
        i += 1;
    }
    assert(all.take(5) =~= all);
    out
}

/// Minutes that the history spans.
pub open spec fn history_minutes() -> nat {
    (HISTORY_LEN * POLL_INTERVAL_SECS / 60) as nat
}

/// The caption under the graph.
pub open spec fn caption_text(polls: u64) -> Seq<char> {
    decimal(POLL_INTERVAL_SECS as nat) + "s interval / "@ + decimal(history_minutes())
        + " min history / poll "@ + decimal(polls as nat)
}

/// The caption under the graph: the interval, the span of the history, and the
/// number of polls.
pub fn caption(polls: u64) -> (r: String)
    ensures
        r@ == caption_text(polls),
{
    let mut r = String::new();
    push_decimal(&mut r, POLL_INTERVAL_SECS as u64);
    r.append("s interval / ");
    push_decimal(&mut r, HISTORY_LEN as u64 * POLL_INTERVAL_SECS as u64 / 60);
    r.append(" min history / poll ");
    push_decimal(&mut r, polls);
    assert(r@ =~= caption_text(polls));
    r
}

/// How many series of a listing are switched on.
pub open spec fn visible_count<T>(ls: Seq<(Seq<char>, MetricView<T>)>) -> nat
    decreases ls.len(),
{
    if ls.len() == 0 {
        0
    } else {
        visible_count(ls.drop_last()) + if ls.last().1.visible {
            1nat
        } else {
            0
        }
    }
}

/// What is reported of a poll.
pub open spec fn debug_text<T>(polls: u64, ls: Seq<(Seq<char>, MetricView<T>)>) -> Seq<char> {
    "[poll #"@ + decimal(polls as nat) + "] metrics="@ + decimal(ls.len()) + " visible="@
        + decimal(visible_count(ls))
}

/// How many series are switched on.
pub fn count_visible<T>(st: &AppState<T>) -> (r: usize)
    ensures
        r == visible_count(st.listing()),
{
    let ghost ls = st.listing();
    let mut n: usize = 0;
    let mut i: usize = 0;
    assert(ls.take(0) =~= seq![]);
    while i < st.len()
        invariant
            n <= i <= ls.len(),
            ls == st.listing(),
            n == visible_count(ls.take(i as int)),
        decreases ls.len() - i,
    {
        assert(ls.take(i + 1).drop_last() =~= ls.take(i as int));
        if st.metric_at(i).visible {
            n += 1;
        }
        i += 1;
    }
    assert(ls.take(ls.len() as int) =~= ls);
    n
}

/// The line that reports a poll: the number of polls, of series, and of series that
/// are switched on.
pub fn debug_line<T>(st: &AppState<T>) -> (r: String)
    ensures
        r@ == debug_text(st@.poll_count, st.listing()),
{
    let mut r = String::new();
    r.append("[poll #");
    push_decimal(&mut r, st.poll_count());
    r.append("] metrics=");
    push_decimal(&mut r, st.len() as u64);
    r.append(" visible=");
    push_decimal(&mut r, count_visible(st) as u64);
    assert(r@ =~= debug_text(st@.poll_count, st.listing()));
    r
}

/// A band has a series for every one that is drawn in it.
proof fn lemma_series_in<T>(ls: Seq<(Seq<char>, MetricView<T>)>, unit: Unit, i: int)
    requires
        0 <= i < ls.len(),
        drawn_in(ls[i].1, unit),
    ensures
        series_in(ls, unit).contains(drawing(ls[i].1)),
    decreases ls.len(),
{
    let d = drawing(ls[i].1);
    if i == ls.len() - 1 {
        assert(series_in(ls, unit).last() == d);
    } else {
        lemma_series_in(ls.drop_last(), unit, i);
        let k = choose|k: int|
            0 <= k < series_in(ls.drop_last(), unit).len() && series_in(ls.drop_last(), unit)[k]
                == d;
        assert(series_in(ls, unit)[k] == d);
    }
}

/// A band has no series but those that are drawn in it.
proof fn lemma_series_from<T>(ls: Seq<(Seq<char>, MetricView<T>)>, unit: Unit, k: int)
    requires
        0 <= k < series_in(ls, unit).len(),
    ensures
        exists|i: int|
            0 <= i < ls.len() && drawn_in(#[trigger] ls[i].1, unit) && series_in(ls, unit)[k]
                == drawing(ls[i].1),
    decreases ls.len(),
{
    let p = ls.drop_last();
    if drawn_in(ls.last().1, unit) && k == series_in(ls, unit).len() - 1 {
        assert(drawn_in(ls[ls.len() - 1].1, unit));
    } else {
        lemma_series_from(p, unit, k);
        let i = choose|i: int|
            0 <= i < p.len() && drawn_in(#[trigger] p[i].1, unit) && series_in(p, unit)[k]
                == drawing(p[i].1);
        assert(drawn_in(ls[i].1, unit));
    }
}

proof fn lemma_bands_of<T>(ls: Seq<(Seq<char>, MetricView<T>)>, n: int)
    requires
        0 <= n <= BAND_ORDER@.len(),
    ensures
        ({
            let bs = bands_of(ls, BAND_ORDER@.take(n));
            &&& forall|i: int|
                0 <= i < bs.len() ==> (#[trigger] bs[i]).unit.rank() < n && bs[i].series
                    == series_in(ls, bs[i].unit) && bs[i].series.len() > 0
            &&& forall|i: int, j: int|
                0 <= i < j < bs.len() ==> (#[trigger] bs[i]).unit.rank() < (
                #[trigger] bs[j]).unit.rank()
            &&& forall|u: Unit|
                #[trigger] series_in(ls, u).len() > 0 && u.rank() < n ==> exists|i: int|
                    0 <= i < bs.len() && (#[trigger] bs[i]).unit == u
        }),
    decreases n,
{
    if n > 0 {
        lemma_bands_of(ls, n - 1);
        let units = BAND_ORDER@.take(n);
        assert(units.drop_last() =~= BAND_ORDER@.take(n - 1));
        let rest = bands_of(ls, BAND_ORDER@.take(n - 1));
        let bs = bands_of(ls, units);
        let here = BAND_ORDER@[n - 1];
        lemma_every_unit_has_a_band(here, n - 1);
        assert forall|u: Unit| #[trigger]
            series_in(ls, u).len() > 0 && u.rank() < n implies exists|i: int|
            0 <= i < bs.len() && (#[trigger] bs[i]).unit == u by {
            lemma_every_unit_has_a_band(u, n - 1);
            if u == here {
                assert(bs[bs.len() - 1].unit == u);
            } else {
                let i = choose|i: int| 0 <= i < rest.len() && (#[trigger] rest[i]).unit == u;
                assert(bs[i].unit == u);
            }
        }
    } else {
        assert(BAND_ORDER@.take(0) =~= seq![]);
        assert forall|u: Unit| #[trigger]
            series_in(ls, u).len() > 0 && u.rank() < n implies false by {
            lemma_every_unit_has_a_band(u, 0);
        }
    }
}

/// Bands are stacked in the fixed order, and each unit has at most one.
pub proof fn lemma_bands_are_stacked<T>(
    ls: Seq<(Seq<char>, MetricView<T>)>,
    i: int,
    j: int,
)
    requires
        0 <= i < j < graph_of(ls).len(),
    ensures
        graph_of(ls)[i].unit.rank() < graph_of(ls)[j].unit.rank(),
{
    lemma_bands_of(ls, BAND_ORDER@.len() as int);
    assert(BAND_ORDER@.take(BAND_ORDER@.len() as int) =~= BAND_ORDER@);
}

/// A series that is switched on is drawn in the band of its unit.
pub proof fn lemma_visible_series_is_drawn<T>(ls: Seq<(Seq<char>, MetricView<T>)>, i: int)
    requires
        0 <= i < ls.len(),
        ls[i].1.visible,
    ensures
        exists|b: int|
            0 <= b < graph_of(ls).len() && (#[trigger] graph_of(ls)[b]).unit == ls[i].1.unit
                && graph_of(ls)[b].series.contains(drawing(ls[i].1)),
{
    let unit = ls[i].1.unit;
    lemma_series_in(ls, unit, i);
    lemma_bands_of(ls, BAND_ORDER@.len() as int);
    assert(BAND_ORDER@.take(BAND_ORDER@.len() as int) =~= BAND_ORDER@);
    lemma_every_unit_has_a_band(unit, 0);
    assert(series_in(ls, unit).len() > 0);
    let b = choose|b: int| 0 <= b < graph_of(ls).len() && (#[trigger] graph_of(ls)[b]).unit == unit;
    assert(graph_of(ls)[b].series == series_in(ls, unit));
}

/// Only series that are switched on are drawn, in the band of their unit; no band is
/// empty.
pub proof fn lemma_only_visible_series_are_drawn<T>(
    ls: Seq<(Seq<char>, MetricView<T>)>,
    b: int,
    k: int,
)
    requires
        0 <= b < graph_of(ls).len(),
    ensures
        graph_of(ls)[b].series.len() > 0,
        0 <= k < graph_of(ls)[b].series.len() ==> exists|i: int|
            0 <= i < ls.len() && drawn_in(#[trigger] ls[i].1, graph_of(ls)[b].unit)
                && graph_of(ls)[b].series[k] == drawing(ls[i].1),
{
    lemma_bands_of(ls, BAND_ORDER@.len() as int);
    assert(BAND_ORDER@.take(BAND_ORDER@.len() as int) =~= BAND_ORDER@);
    assert(graph_of(ls)[b].series == series_in(ls, graph_of(ls)[b].unit));
    if 0 <= k < graph_of(ls)[b].series.len() {
        lemma_series_from(ls, graph_of(ls)[b].unit, k);
    }
}

/// The series of a listing that are switched on.
pub open spec fn visible_part<T>(
    ls: Seq<(Seq<char>, MetricView<T>)>,
) -> Seq<(Seq<char>, MetricView<T>)>
    decreases ls.len(),
{
    if ls.len() == 0 {
        seq![]
    } else if ls.last().1.visible {
        visible_part(ls.drop_last()).push(ls.last())
    } else {
        visible_part(ls.drop_last())
    }
}

/// The graph depends on the series that are switched on, and on nothing else.
pub proof fn lemma_hidden_series_do_not_matter<T>(
    a: Seq<(Seq<char>, MetricView<T>)>,
    b: Seq<(Seq<char>, MetricView<T>)>,
)
    requires
        visible_part(a) == visible_part(b),
    ensures
        graph_of(a) == graph_of(b),
{
    lemma_bands_of_visible(a, b, BAND_ORDER@);
}

proof fn lemma_bands_of_visible<T>(
    a: Seq<(Seq<char>, MetricView<T>)>,
    b: Seq<(Seq<char>, MetricView<T>)>,
    units: Seq<Unit>,
)
    requires
        visible_part(a) == visible_part(b),
    ensures
        bands_of(a, units) == bands_of(b, units),
    decreases units.len(),
{
    if units.len() > 0 {
        lemma_bands_of_visible(a, b, units.drop_last());
        lemma_series_of_visible(a, units.last());
        lemma_series_of_visible(b, units.last());
    }
}

proof fn lemma_series_of_visible<T>(ls: Seq<(Seq<char>, MetricView<T>)>, unit: Unit)
    ensures
        series_in(visible_part(ls), unit) == series_in(ls, unit),
    decreases ls.len(),
{
    if ls.len() > 0 {
        lemma_series_of_visible(ls.drop_last(), unit);
        if ls.last().1.visible {
            assert(visible_part(ls).drop_last() =~= visible_part(ls.drop_last()));
        }
    }
}

/// The latest value of a series stands at the right edge.
pub proof fn lemma_latest_value_at_right_edge<T>(m: MetricView<T>)
    requires
        m.history.len() > 0,
    ensures
        drawing(m).points.last() == (0usize, m.history.last()),
        drawing(m).latest == Some(m.history.last()),
{
}

/// The line of a series goes through its whole history: there is a point for every
/// value, oldest first, the latest at the right edge and each earlier one a step
/// further left. Two points make a line, and the latest value is told.
pub proof fn lemma_line_goes_through_whole_history<T>(m: MetricView<T>, i: int)
    requires
        m.history.len() <= usize::MAX,
    ensures
        drawing(m).points.len() == m.history.len(),
        0 <= i < m.history.len() ==> drawing(m).points[i].0 == m.history.len() - 1 - i
            && drawing(m).points[i].1 == m.history[i],
        drawing(m).line <==> m.history.len() >= 2,
        m.history.len() == 0 ==> drawing(m).latest is None,
        m.history.len() > 0 ==> drawing(m).latest == Some(m.history[m.history.len() - 1]),
        drawing(m).color == palette_color(m.color_index),
{
}

/// Every series that is switched on has a line in the band of its unit, through every
/// value of its history, in its own color.
pub proof fn lemma_visible_history_is_drawn_whole<T>(
    ls: Seq<(Seq<char>, MetricView<T>)>,
    i: int,
) -> (r: (int, int))
    requires
        0 <= i < ls.len(),
        ls[i].1.visible,
        ls[i].1.history.len() <= usize::MAX,
    ensures
        ({
            let (b, k) = r;
            let h = ls[i].1.history;
            &&& 0 <= b < graph_of(ls).len()
            &&& graph_of(ls)[b].unit == ls[i].1.unit
            &&& 0 <= k < graph_of(ls)[b].series.len()
            &&& graph_of(ls)[b].series[k].color == palette_color(ls[i].1.color_index)
            &&& graph_of(ls)[b].series[k].points.len() == h.len()
            &&& forall|j: int|
                0 <= j < h.len() ==> (#[trigger] graph_of(ls)[b].series[k].points[j]).0 == h.len()
                    - 1 - j && graph_of(ls)[b].series[k].points[j].1 == h[j]
        }),
{
    lemma_visible_series_is_drawn(ls, i);
    let b = choose|b: int|
        0 <= b < graph_of(ls).len() && (#[trigger] graph_of(ls)[b]).unit == ls[i].1.unit
            && graph_of(ls)[b].series.contains(drawing(ls[i].1));
    let k = choose|k: int|
        0 <= k < graph_of(ls)[b].series.len() && graph_of(ls)[b].series[k] == drawing(ls[i].1);
    assert forall|j: int| 0 <= j < ls[i].1.history.len() implies (
    #[trigger] graph_of(ls)[b].series[k].points[j]).0 == ls[i].1.history.len() - 1 - j
        && graph_of(ls)[b].series[k].points[j].1 == ls[i].1.history[j] by {
        lemma_line_goes_through_whole_history(ls[i].1, j);
    }
    (b, k)
}

/// A band shows the series of its unit that are switched on, all of them, each once and
/// in the order of their labels, and nothing else. Given are their places in the
/// listing.
pub proof fn lemma_band_shows_its_series<T>(
    ls: Seq<(Seq<char>, MetricView<T>)>,
    b: int,
) -> (at: Seq<int>)
    requires
        0 <= b < graph_of(ls).len(),
    ensures
        at.len() == graph_of(ls)[b].series.len(),
        forall|k: int|
            0 <= k < at.len() ==> 0 <= #[trigger] at[k] < ls.len() && ls[at[k]].1.visible
                && ls[at[k]].1.unit == graph_of(ls)[b].unit && graph_of(ls)[b].series[k] == drawing(
                ls[at[k]].1,
            ),
        forall|k: int, n: int| 0 <= k < n < at.len() ==> #[trigger] at[k] < #[trigger] at[n],
        forall|i: int|
            0 <= i < ls.len() && (#[trigger] ls[i]).1.visible && ls[i].1.unit
                == graph_of(ls)[b].unit ==> at.contains(i),
{
    lemma_bands_of(ls, BAND_ORDER@.len() as int);
    assert(BAND_ORDER@.take(BAND_ORDER@.len() as int) =~= BAND_ORDER@);
    assert(graph_of(ls)[b].series == series_in(ls, graph_of(ls)[b].unit));
    lemma_places_in_band(ls, graph_of(ls)[b].unit)
}

proof fn lemma_places_in_band<T>(ls: Seq<(Seq<char>, MetricView<T>)>, unit: Unit) -> (at: Seq<int>)
    ensures
        at.len() == series_in(ls, unit).len(),
        forall|k: int|
            0 <= k < at.len() ==> 0 <= #[trigger] at[k] < ls.len() && ls[at[k]].1.visible
                && ls[at[k]].1.unit == unit && series_in(ls, unit)[k] == drawing(ls[at[k]].1),
        forall|k: int, n: int| 0 <= k < n < at.len() ==> #[trigger] at[k] < #[trigger] at[n],
        forall|i: int|
            0 <= i < ls.len() && (#[trigger] ls[i]).1.visible && ls[i].1.unit == unit
                ==> at.contains(i),
    decreases ls.len(),
{
    if ls.len() == 0 {
        seq![]
    } else {
        let p = ls.drop_last();
        let last = ls.len() - 1;
        let had = lemma_places_in_band(p, unit);
        let at = if drawn_in(ls[last].1, unit) {
            had.push(last)
        } else {
            had
        };
        assert forall|k: int| 0 <= k < at.len() implies 0 <= #[trigger] at[k] < ls.len()
            && ls[at[k]].1.visible && ls[at[k]].1.unit == unit && series_in(ls, unit)[k] == drawing(
            ls[at[k]].1,
        ) by {
            if k < had.len() {
                assert(0 <= had[k] < p.len());
                assert(p[had[k]] == ls[had[k]]);
            }
        }
        assert forall|k: int, n: int| 0 <= k < n < at.len() implies #[trigger] at[k]
            < #[trigger] at[n] by {
            assert(0 <= had[k] < p.len());
            if n < had.len() {
                assert(had[k] < had[n]);
            }
        }
        assert forall|i: int|
            0 <= i < ls.len() && (#[trigger] ls[i]).1.visible && ls[i].1.unit
                == unit implies at.contains(i) by {
            if i < last {
                assert(p[i] == ls[i]);
                assert(had.contains(i));
                let k = choose|k: int| 0 <= k < had.len() && had[k] == i;
                assert(at[k] == i);
            } else {
                assert(at[at.len() - 1] == i);
            }
        }
        at
    }
}

/// There is nothing to draw where no series is switched on, and only there.
pub proof fn lemma_graph_is_empty_without_visible_series<T>(ls: Seq<(Seq<char>, MetricView<T>)>)
    ensures
        graph_of(ls).len() == 0 <==> forall|i: int|
            0 <= i < ls.len() ==> !(#[trigger] ls[i]).1.visible,
{
    if exists|i: int| 0 <= i < ls.len() && (#[trigger] ls[i]).1.visible {
        let i = choose|i: int| 0 <= i < ls.len() && (#[trigger] ls[i]).1.visible;
        lemma_visible_series_is_drawn(ls, i);
    }
    if graph_of(ls).len() > 0 {
        lemma_only_visible_series_are_drawn(ls, 0, 0);
        let i = choose|i: int|
            0 <= i < ls.len() && drawn_in(#[trigger] ls[i].1, graph_of(ls)[0].unit)
                && graph_of(ls)[0].series[0] == drawing(ls[i].1);
        assert(ls[i].1.visible);
    }
}

/// What is drawn is what is shown: the bands, their series and the points of these are
/// handed over as they are.
pub proof fn lemma_bands_are_handed_over<T>(bands: Seq<Band<T>>, b: int, k: int)
    requires
        0 <= b < bands.len(),
        0 <= k < bands[b].series@.len(),
    ensures
        band_views(bands).len() == bands.len(),
        band_views(bands)[b].unit == bands[b].unit,
        band_views(bands)[b].series.len() == bands[b].series@.len(),
        band_views(bands)[b].series[k].color == bands[b].series@[k].color,
        band_views(bands)[b].series[k].points == bands[b].series@[k].points@,
        band_views(bands)[b].series[k].line == bands[b].series@[k].line,
        band_views(bands)[b].series[k].latest == bands[b].series@[k].latest,
{
}

/// Every axis is scaled by the values of its band, where there are finite ones: those of
/// temperatures and of usage from the least value, the others from zero.
pub proof fn lemma_axes_are_scaled_by_values(unit: Unit)
    ensures
        unit.axis(false) == Scale::Nothing,
        unit.axis(true) != Scale::Nothing,
        unit.axis(true) == Scale::Data <==> (unit == Unit::Celsius || unit == Unit::Percent),
{
}

/// The caption says that a poll is made every two seconds, that twenty minutes are kept,
/// and how many polls there were.
pub proof fn lemma_caption_tells_interval_span_and_polls(polls: u64)
    ensures
        caption_text(polls) == "2s interval / 20 min history / poll "@ + decimal(polls as nat),
{
    reveal_strlit("2s interval / 20 min history / poll ");
    reveal_strlit("s interval / ");
    reveal_strlit(" min history / poll ");
    assert(history_minutes() == 20);
    assert(decimal(2) =~= seq!['2']);
    assert(decimal(20) =~= decimal(2).push('0'));
    assert(caption_text(polls) =~= "2s interval / 20 min history / poll "@ + decimal(
        polls as nat,
    ));
}

/// Series that are switched on are counted one by one.
pub proof fn lemma_visible_series_are_counted<T>(
    a: Seq<(Seq<char>, MetricView<T>)>,
    b: Seq<(Seq<char>, MetricView<T>)>,
    one: (Seq<char>, MetricView<T>),
)
    ensures
        visible_count(Seq::<(Seq<char>, MetricView<T>)>::empty()) == 0,
        visible_count(seq![one]) == if one.1.visible {
            1nat
        } else {
            0
        },
        visible_count(a + b) == visible_count(a) + visible_count(b),
    decreases b.len(),
{
    assert(seq![one].drop_last() =~= seq![]);
    assert(visible_count(Seq::<(Seq<char>, MetricView<T>)>::empty()) == 0);
    if b.len() == 0 {
        assert(a + b =~= a);
    } else {
        lemma_visible_series_are_counted(a, b.drop_last(), one);
        assert((a + b).drop_last() =~= a + b.drop_last());
        assert((a + b).last() == b.last());
    }
}

/// A report of a poll gives the number of polls, of series, and of those that are
/// switched on.
pub proof fn lemma_report_tells_polls_and_series<T>(
    polls: u64,
    ls: Seq<(Seq<char>, MetricView<T>)>,
)
    ensures
        debug_text(polls, ls) == "[poll #"@ + decimal(polls as nat) + "] metrics="@ + decimal(
            ls.len(),
        ) + " visible="@ + decimal(visible_count(ls)),
{
}

} // verus!
