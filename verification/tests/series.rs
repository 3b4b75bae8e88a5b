use kagari::config::{load_visibility, save_visibility};
use kagari::graph::{caption, count_visible, debug_line, draw_graph, Scale, NO_SERIES};
use kagari::labels::LabelMap;
use kagari::sample::Sample;
use kagari::state::{AppState, HISTORY_LEN};
use kagari::unit::{color_for, Unit, BAND_ORDER, PALETTE};

fn sample(label: &str, unit: Unit, value: i64) -> Sample<i64> {
    Sample { label: label.to_string(), unit, value }
}

fn history(st: &AppState<i64>, label: &str) -> Vec<i64> {
    (0..st.len())
        .filter(|&i| st.label_at(i) == label)
        .flat_map(|i| st.metric_at(i).history.iter().copied().collect::<Vec<i64>>())
        .collect()
}

fn labels(st: &AppState<i64>) -> Vec<String> {
    (0..st.len()).map(|i| st.label_at(i).to_string()).collect()
}

#[test]
fn bands_have_titles_and_suffixes() {
    let titles: Vec<&str> = BAND_ORDER.iter().map(|u| u.title()).collect();
    assert_eq!(
        titles,
        vec!["Temperature (°C)", "Usage (%)", "Fan (RPM)", "Network (bytes/s)", "Disk I/O (bytes/s)"]
    );
    let suffixes: Vec<&str> = BAND_ORDER.iter().map(|u| u.suffix()).collect();
    assert_eq!(suffixes, vec!["°C", "%", "rpm", "B/s", "B/s"]);
}

#[test]
fn the_palette_is_cycled() {
    assert_eq!(color_for(0), (90, 16, 22));
    assert_eq!(color_for(15), (62, 18, 50));
    for i in 0..40 {
        assert_eq!(color_for(i), PALETTE[i % 16]);
        assert_eq!(color_for(i + 16), color_for(i));
    }
}

#[test]
fn sixteen_series_in_a_row_differ_in_color() {
    for a in 0..20 {
        for b in a + 1..a + 16 {
            assert_ne!(color_for(a), color_for(b));
        }
    }
}

#[test]
fn every_series_gets_one_row_and_a_color_of_its_own() {
    let mut st = AppState::new(LabelMap::new());
    let mut rows = st.prime(&vec![sample("m", Unit::Rpm, 1), sample("k", Unit::Rpm, 2)]);
    st.toggle("later", false);
    rows.extend(st.poll(&vec![
        sample("k", Unit::Rpm, 3),
        sample("later", Unit::Percent, 4),
        sample("later", Unit::Percent, 5),
    ]));
    rows.extend(st.poll(&vec![sample("m", Unit::Rpm, 6)]));
    let told: Vec<(&str, usize, bool)> =
        rows.iter().map(|r| (r.label.as_str(), r.color_index, r.visible)).collect();
    assert_eq!(told, vec![("m", 0, true), ("k", 1, true), ("later", 2, false)]);
    let colors: Vec<usize> = (0..st.len()).map(|i| st.metric_at(i).color_index).collect();
    assert_eq!((labels(&st), colors), (vec!["k".to_string(), "later".to_string(), "m".to_string()], vec![1, 2, 0]));
}

#[test]
fn a_new_series_has_the_next_color_and_the_remembered_state() {
    let mut saved = LabelMap::new();
    saved.insert("b", false);
    let mut st: AppState<i64> = AppState::new(saved);
    let row = st.ensure_metric("c", Unit::Rpm).unwrap();
    assert_eq!((row.label.as_str(), row.color_index, row.visible), ("c", 0, true));
    let row = st.ensure_metric("b", Unit::Celsius).unwrap();
    assert_eq!((row.label.as_str(), row.color_index, row.visible), ("b", 1, false));
    assert!(st.ensure_metric("c", Unit::Percent).is_none());
    assert_eq!(labels(&st), vec!["b", "c"]);
    assert_eq!(st.metric_at(1).unit, Unit::Rpm);
}

#[test]
fn the_first_poll_remembers_every_series() {
    let mut saved = LabelMap::new();
    saved.insert("a", false);
    saved.insert("gone", false);
    let mut st = AppState::new(saved);
    let rows = st.prime(&vec![
        sample("z", Unit::Percent, 1),
        sample("a", Unit::Percent, 2),
        sample("z", Unit::Percent, 3),
    ]);
    let found: Vec<(String, usize, bool)> =
        rows.into_iter().map(|r| (r.label, r.color_index, r.visible)).collect();
    assert_eq!(found, vec![("z".to_string(), 0, true), ("a".to_string(), 1, false)]);
    assert_eq!(st.poll_count(), 1);
    assert_eq!(history(&st, "z"), vec![1, 3]);
    assert_eq!(
        st.visibility().entries(),
        &vec![("a".to_string(), false), ("gone".to_string(), false), ("z".to_string(), true)]
    );
}

#[test]
fn later_polls_remember_nothing_by_themselves() {
    let mut st = AppState::new(LabelMap::new());
    st.prime(&vec![]);
    let rows = st.poll(&vec![sample("late", Unit::Rpm, 1)]);
    assert_eq!((rows.len(), rows[0].visible), (1, true));
    assert_eq!(st.visibility().len(), 0);
    assert!(st.poll(&vec![sample("late", Unit::Rpm, 2)]).is_empty());
    assert_eq!(history(&st, "late"), vec![1, 2]);
    assert_eq!(st.poll_count(), 3);
}

#[test]
fn histories_are_bounded() {
    let mut st = AppState::new(LabelMap::new());
    st.prime(&vec![sample("x", Unit::Celsius, 0), sample("still", Unit::Celsius, 7)]);
    for v in 1..700 {
        st.poll(&vec![sample("x", Unit::Celsius, v)]);
        assert!(history(&st, "x").len() <= HISTORY_LEN);
    }
    assert_eq!(history(&st, "x"), (100..700).collect::<Vec<i64>>());
    assert_eq!(history(&st, "still"), vec![7]);
}

#[test]
fn the_first_poll_makes_room_too() {
    let mut st = AppState::new(LabelMap::new());
    let many: Vec<Sample<i64>> = (0..650).map(|v| sample("x", Unit::Celsius, v)).collect();
    st.prime(&many);
    assert_eq!(history(&st, "x"), (50..650).collect::<Vec<i64>>());
    st.poll(&vec![sample("x", Unit::Celsius, 650)]);
    assert_eq!(history(&st, "x"), (51..651).collect::<Vec<i64>>());
}

#[test]
fn a_poll_that_finds_each_series_once_adds_one_point() {
    let mut st = AppState::new(LabelMap::new());
    st.prime(&vec![sample("a", Unit::Rpm, 1), sample("b", Unit::Rpm, 2)]);
    for n in 2..5 {
        st.poll(&vec![sample("b", Unit::Rpm, 1), sample("a", Unit::Rpm, 2)]);
        assert_eq!((history(&st, "a").len(), history(&st, "b").len()), (n, n));
    }
}

#[test]
fn collecting_does_not_depend_on_what_is_drawn() {
    let polls = vec![sample("a", Unit::Rpm, 1), sample("b", Unit::Rpm, 2), sample("a", Unit::Rpm, 3)];
    let mut one = AppState::new(LabelMap::new());
    one.toggle("a", false);
    one.poll(&polls);
    let mut two = AppState::new(LabelMap::new());
    two.poll(&polls);
    two.toggle("a", false);
    assert_eq!(history(&one, "a"), vec![1, 3]);
    for st in [&one, &two] {
        assert_eq!(labels(st), vec!["a", "b"]);
        assert!(!st.metric_at(0).visible && st.metric_at(1).visible);
        assert_eq!(history(st, "a"), vec![1, 3]);
        assert_eq!(st.visibility().entries(), &vec![("a".to_string(), false)]);
    }
}

#[test]
fn a_toggle_changes_one_series() {
    let mut st = AppState::new(LabelMap::new());
    st.prime(&vec![sample("a", Unit::Rpm, 1), sample("b", Unit::Rpm, 2)]);
    st.toggle("a", false);
    assert_eq!((st.metric_at(0).visible, st.metric_at(1).visible), (false, true));
    assert_eq!((st.metric_at(0).color_index, st.metric_at(1).color_index), (0, 1));
    assert_eq!(history(&st, "a"), vec![1]);
    st.toggle("a", true);
    assert_eq!(count_visible(&st), 2);
}

#[test]
fn on_off_states_survive_a_restart() {
    let mut st = AppState::new(load_visibility(None));
    st.prime(&vec![sample("a", Unit::Rpm, 1), sample("b", Unit::Rpm, 2)]);
    st.toggle("b", false);
    let text = save_visibility(st.visibility()).unwrap();
    let mut later = AppState::new(load_visibility(Some(&text)));
    let rows = later.prime(&vec![sample("b", Unit::Rpm, 1), sample("a", Unit::Rpm, 2)]);
    assert_eq!((rows[0].label.as_str(), rows[0].visible), ("b", false));
    assert_eq!((rows[1].label.as_str(), rows[1].visible), ("a", true));
}

#[test]
fn bands_are_stacked_in_the_fixed_order() {
    let mut st = AppState::new(LabelMap::new());
    assert!(draw_graph(&st).is_empty());
    assert_eq!(NO_SERIES, "No series selected");
    st.prime(&vec![
        sample("disk", Unit::DiskBytes, 1),
        sample("net", Unit::NetBytes, 2),
        sample("fan", Unit::Rpm, 3),
        sample("use", Unit::Percent, 4),
        sample("temp", Unit::Celsius, 5),
    ]);
    let units: Vec<Unit> = draw_graph(&st).iter().map(|b| b.unit).collect();
    assert_eq!(units, BAND_ORDER.to_vec());
    st.toggle("use", false);
    st.toggle("disk", false);
    let units: Vec<Unit> = draw_graph(&st).iter().map(|b| b.unit).collect();
    assert_eq!(units, vec![Unit::Celsius, Unit::Rpm, Unit::NetBytes]);
}

#[test]
fn a_band_draws_the_series_that_are_switched_on() {
    let mut st = AppState::new(LabelMap::new());
    st.prime(&vec![
        sample("c", Unit::Celsius, 1),
        sample("a", Unit::Celsius, 2),
        sample("b", Unit::Celsius, 3),
    ]);
    st.poll(&vec![sample("a", Unit::Celsius, 4), sample("a", Unit::Celsius, 5)]);
    st.ensure_metric("d", Unit::Celsius);
    st.toggle("b", false);
    let graph = draw_graph(&st);
    assert_eq!(graph.len(), 1);
    let series = &graph[0].series;
    assert_eq!(series.len(), 3);
    assert_eq!(series[0].color, color_for(1));
    assert_eq!(series[0].points, vec![(2, 2), (1, 4), (0, 5)]);
    assert!(series[0].line);
    assert_eq!(series[0].latest, Some(5));
    assert_eq!(series[1].color, color_for(0));
    assert_eq!((series[1].points.clone(), series[1].line, series[1].latest), (vec![(0, 1)], false, Some(1)));
    assert_eq!((series[2].points.len(), series[2].line, series[2].latest), (0, false, None));
}

#[test]
fn hidden_series_do_not_change_the_graph() {
    let shape = |st: &AppState<i64>| -> Vec<(Unit, Vec<Vec<(usize, i64)>>)> {
        draw_graph(st)
            .iter()
            .map(|b| (b.unit, b.series.iter().map(|s| s.points.clone()).collect()))
            .collect()
    };
    let mut one = AppState::new(LabelMap::new());
    one.prime(&vec![sample("a", Unit::Rpm, 1)]);
    let mut two = AppState::new(LabelMap::new());
    two.prime(&vec![sample("a", Unit::Rpm, 1), sample("b", Unit::Rpm, 9), sample("c", Unit::Percent, 9)]);
    two.toggle("b", false);
    two.toggle("c", false);
    assert_eq!(shape(&one), shape(&two));
}

#[test]
fn axes_follow_their_unit() {
    for unit in [Unit::Celsius, Unit::Percent] {
        assert_eq!(unit.scale(true), Scale::Data);
        assert_eq!(unit.scale(false), Scale::Nothing);
    }
    for unit in [Unit::Rpm, Unit::NetBytes, Unit::DiskBytes] {
        assert_eq!(unit.scale(true), Scale::FromZero);
        assert_eq!(unit.scale(false), Scale::Nothing);
        assert!(!unit.has_margin());
    }
    assert!(Unit::Celsius.has_margin() && !Unit::Percent.has_margin());
}

#[test]
fn the_caption_tells_interval_history_and_polls() {
    assert_eq!(caption(7), "2s interval / 20 min history / poll 7");
    assert_eq!(caption(u64::MAX), format!("2s interval / 20 min history / poll {}", u64::MAX));
}

#[test]
fn a_poll_is_reported_in_one_line() {
    let mut st = AppState::new(LabelMap::new());
    st.prime(&vec![sample("a", Unit::Rpm, 1), sample("b", Unit::Rpm, 2)]);
    st.toggle("a", false);
    assert_eq!(debug_line(&st), "[poll #1] metrics=2 visible=1");
}
