use crossword_engine::codec::{reconstruct, serialize, try_preview, PlacementRecord};
use crossword_engine::engine::{
    Episode, EpisodeStatus, GenerationOutcome, GenerationRequest, Generator, Settings,
};
use crossword_engine::grid::Crossword;
use crossword_engine::word::{Error, Word};

fn w(s: &str) -> Word {
    Word::new(s.as_bytes().to_vec(), None).unwrap()
}

fn words(list: &[&str]) -> Vec<Word> {
    list.iter().map(|s| w(s)).collect()
}

fn records_equal(a: &[PlacementRecord], b: &[PlacementRecord]) -> bool {
    a.len() == b.len()
        && a.iter().zip(b.iter()).all(|(x, y)| {
            x.symbols == y.symbols
                && x.label == y.label
                && x.row == y.row
                && x.col == y.col
                && x.horizontal == y.horizontal
        })
}

fn crossword_score(cw: &Crossword) -> usize {
    let mut cells: Vec<(i32, i32)> = Vec::new();
    for p in &cw.placements {
        for k in 0..p.symbols.len() as i32 {
            let cell = match p.orientation {
                crossword_engine::grid::Orientation::Horizontal => (p.row, p.col + k),
                crossword_engine::grid::Orientation::Vertical => (p.row + k, p.col),
            };
            if !cells.contains(&cell) {
                cells.push(cell);
            }
        }
    }
    cells.len()
}

fn drain_count(ep: &mut Episode, n: usize) -> Vec<Crossword> {
    let mut items = Vec::new();
    loop {
        let out = ep.request(GenerationRequest::Count(n - items.len()));
        items.extend(out.items);
        match out.status {
            EpisodeStatus::Suspended => continue,
            _ => return items,
        }
    }
}

fn drain_all(ep: &mut Episode) -> (Vec<Crossword>, EpisodeStatus) {
    let mut items = Vec::new();
    loop {
        let out = ep.request(GenerationRequest::All);
        items.extend(out.items);
        match out.status {
            EpisodeStatus::Suspended => continue,
            status => return (items, status),
        }
    }
}

#[test]
fn empty_word_list_yields_no_results() {
    let mut ep = Episode::new(Vec::new(), Settings::default());
    let (items, status) = drain_all(&mut ep);
    assert_eq!(items.len(), 0);
    assert_eq!(status, EpisodeStatus::Exhausted);
    assert!(ep.is_exhausted());
}

#[test]
fn single_word_single_result_with_preview() {
    let mut ep = Episode::new(words(&["cat"]), Settings::default());
    let (items, status) = drain_all(&mut ep);
    assert_eq!(status, EpisodeStatus::Exhausted);
    assert_eq!(items.len(), 1);
    let table = try_preview(&items[0]).expect("emitted crossword must render");
    assert_eq!(table, vec![vec!['c', 'a', 't']]);
}

#[test]
fn three_words_intersect_and_round_trip() {
    let mut ep = Episode::new(words(&["cat", "car", "at"]), Settings::default());
    let (items, status) = drain_all(&mut ep);
    assert_eq!(status, EpisodeStatus::Exhausted);
    assert!(items.len() >= 1);
    for cw in &items {
        assert_eq!(cw.placements.len(), 3);
        let recs = serialize(cw);
        let rebuilt = reconstruct(&recs).expect("emitted crossword must reconstruct");
        assert!(records_equal(&serialize(&rebuilt), &recs));
    }
}

#[test]
fn dog_god_results_are_connected() {
    let mut settings = Settings::default();
    settings.allow_isolated_words = false;
    let mut ep = Episode::new(words(&["dog", "god"]), settings);
    let (items, _) = drain_all(&mut ep);
    assert!(items.len() >= 1);
    for cw in &items {
        assert_eq!(cw.placements.len(), 2);
        let a = &cw.placements[0];
        let b = &cw.placements[1];
        let cells = |p: &crossword_engine::grid::Placement| -> Vec<(i32, i32)> {
            (0..p.symbols.len() as i32)
                .map(|k| match p.orientation {
                    crossword_engine::grid::Orientation::Horizontal => (p.row, p.col + k),
                    crossword_engine::grid::Orientation::Vertical => (p.row + k, p.col),
                })
                .collect()
        };
        let ca = cells(a);
        let cb = cells(b);
        assert!(
            ca.iter().any(|x| cb.contains(x)),
            "the two placements must share a coordinate"
        );
    }
}

#[test]
fn count_twice_matches_first_two_of_all() {
    let list = ["cat", "car", "at"];
    let mut ep_counted = Episode::new(words(&list), Settings::default());
    let first = drain_count(&mut ep_counted, 1);
    assert_eq!(first.len(), 1);
    let second = drain_count(&mut ep_counted, 1);
    assert_eq!(second.len(), 1);

    let mut ep_all = Episode::new(words(&list), Settings::default());
    let (all_items, _) = drain_all(&mut ep_all);
    assert!(all_items.len() >= 2);
    assert!(records_equal(&serialize(&first[0]), &serialize(&all_items[0])));
    assert!(records_equal(&serialize(&second[0]), &serialize(&all_items[1])));
}

#[test]
fn count_split_matches_single_count() {
    let list = ["cat", "car", "at"];
    let mut ep_split = Episode::new(words(&list), Settings::default());
    let mut split_items = drain_count(&mut ep_split, 1);
    split_items.extend(drain_count(&mut ep_split, 1));

    let mut ep_once = Episode::new(words(&list), Settings::default());
    let once_items = drain_count(&mut ep_once, 2);

    assert_eq!(split_items.len(), once_items.len());
    for (a, b) in split_items.iter().zip(once_items.iter()) {
        assert!(records_equal(&serialize(a), &serialize(b)));
    }
}

#[test]
fn scores_non_decreasing_within_episode() {
    let mut ep = Episode::new(words(&["cat", "car", "at"]), Settings::default());
    let (items, _) = drain_all(&mut ep);
    for pair in items.windows(2) {
        assert!(crossword_score(&pair[0]) <= crossword_score(&pair[1]));
    }
}

#[test]
fn exhausted_episode_returns_empty() {
    let mut ep = Episode::new(words(&["cat"]), Settings::default());
    let (_, status) = drain_all(&mut ep);
    assert_eq!(status, EpisodeStatus::Exhausted);
    let again = ep.request(GenerationRequest::All);
    assert_eq!(again.items.len(), 0);
    assert_eq!(again.status, EpisodeStatus::Exhausted);
    let counted = ep.request(GenerationRequest::Count(3));
    assert_eq!(counted.items.len(), 0);
    assert_eq!(counted.status, EpisodeStatus::Exhausted);
}

#[test]
fn cancel_discards_frontier() {
    let mut ep = Episode::new(words(&["cat", "car", "at"]), Settings::default());
    let first = drain_count(&mut ep, 1);
    assert_eq!(first.len(), 1);
    let cancelled = ep.request(GenerationRequest::Cancel);
    assert_eq!(cancelled.items.len(), 0);
    assert_eq!(cancelled.status, EpisodeStatus::Exhausted);
    assert!(ep.is_exhausted());
    let after = ep.request(GenerationRequest::All);
    assert_eq!(after.items.len(), 0);
}

#[test]
fn invalid_symbol_is_reported() {
    let r = Word::new(vec![b'c', 0x07, b't'], None);
    assert_eq!(r.unwrap_err(), Error::InvalidSymbol);
    let ok = Word::new(b"cat".to_vec(), Some("label".to_string()));
    assert!(ok.is_ok());
}

#[test]
fn empty_word_is_accepted_but_never_placed() {
    let empty = Word::new(Vec::new(), None).unwrap();
    let cat = w("cat");
    let mut ep = Episode::new(vec![empty, cat], Settings::default());
    let (items, status) = drain_all(&mut ep);
    assert_eq!(items.len(), 0, "a zero-length word can never be placed");
    assert_eq!(status, EpisodeStatus::Exhausted);
}

#[test]
fn configuration_conflict_while_active() {
    let mut g = Generator::new();
    assert!(g.configure(words(&["cat", "car", "at"]), Settings::default()).is_ok());
    let mut first: Vec<Crossword> = Vec::new();
    loop {
        let out = g.request(GenerationRequest::Count(1 - first.len()));
        first.extend(out.items);
        match out.status {
            EpisodeStatus::Suspended => continue,
            _ => break,
        }
    }
    assert_eq!(first.len(), 1);
    assert!(!g.episode_finished());
    let conflict = g.configure(words(&["dog"]), Settings::default());
    assert_eq!(conflict.unwrap_err(), Error::ConfigurationConflict);
    let cancelled = g.request(GenerationRequest::Cancel);
    assert_eq!(cancelled.items.len(), 0);
    assert!(g.episode_finished());
    assert!(g.configure(words(&["dog"]), Settings::default()).is_ok());
}

#[test]
fn max_results_caps_emission() {
    let mut settings = Settings::default();
    settings.max_results = Some(1);
    let mut ep = Episode::new(words(&["cat", "car", "at"]), settings);
    let (items, status) = drain_all(&mut ep);
    assert_eq!(items.len(), 1);
    assert_eq!(status, EpisodeStatus::Exhausted);
}

#[test]
fn tiny_fuel_exhausts_without_results() {
    let mut tight = Settings::default();
    tight.search_step_budget = 1;
    let mut ep = Episode::new(words(&["cat", "at"]), tight);
    let first = ep.request(GenerationRequest::All);
    assert_eq!(first.status, EpisodeStatus::Exhausted);
    assert_eq!(first.items.len(), 0);
    assert!(ep.is_exhausted());
}

#[test]
fn suspension_resumes_until_exhaustion() {
    let mut ep = Episode::new(words(&["cat", "car", "at"]), Settings::default());
    let mut items = Vec::new();
    let mut suspensions: usize = 0;
    let status = loop {
        let out = ep.request(GenerationRequest::All);
        items.extend(out.items);
        match out.status {
            EpisodeStatus::Suspended => suspensions += 1,
            status => break status,
        }
    };
    assert_eq!(status, EpisodeStatus::Exhausted);
    assert!(suspensions >= 1, "a search this size spans several work slices");

    let mut ep_again = Episode::new(words(&["cat", "car", "at"]), Settings::default());
    let (again, _) = drain_all(&mut ep_again);
    assert_eq!(items.len(), again.len());
    for (a, b) in items.iter().zip(again.iter()) {
        assert!(records_equal(&serialize(a), &serialize(b)));
    }
}

#[test]
fn reconstruct_rejects_conflicting_records() {
    let mut ep = Episode::new(words(&["cat"]), Settings::default());
    let (items, _) = drain_all(&mut ep);
    let mut recs = serialize(&items[0]);
    // A second copy of the word shifted by one column disagrees on the
    // overlapping cells ("ca" against "at").
    let mut clash = PlacementRecord {
        symbols: recs[0].symbols.clone(),
        label: recs[0].label.clone(),
        row: recs[0].row,
        col: recs[0].col + 1,
        horizontal: true,
    };
    clash.symbols = b"cat".to_vec();
    recs.push(clash);
    assert!(reconstruct(&recs).is_none());
}

#[test]
fn reconstruct_accepts_crossing_records() {
    let recs = vec![
        PlacementRecord {
            symbols: b"cat".to_vec(),
            label: None,
            row: 0,
            col: 0,
            horizontal: true,
        },
        PlacementRecord {
            symbols: b"car".to_vec(),
            label: None,
            row: 0,
            col: 0,
            horizontal: false,
        },
    ];
    let cw = reconstruct(&recs).expect("a consistent crossing must reconstruct");
    assert_eq!(cw.placements.len(), 2);
}

#[test]
fn preview_marks_uncovered_cells_blank() {
    let recs = vec![
        PlacementRecord {
            symbols: b"cat".to_vec(),
            label: None,
            row: 0,
            col: 0,
            horizontal: true,
        },
        PlacementRecord {
            symbols: b"car".to_vec(),
            label: None,
            row: 0,
            col: 0,
            horizontal: false,
        },
    ];
    let cw = reconstruct(&recs).unwrap();
    let table = try_preview(&cw).unwrap();
    assert_eq!(table.len(), 3);
    assert_eq!(table[0], vec!['c', 'a', 't']);
    assert_eq!(table[1], vec!['a', ' ', ' ']);
    assert_eq!(table[2], vec!['r', ' ', ' ']);
}

#[test]
fn preview_refused_for_ill_formed_value() {
    let cw = Crossword { placements: Vec::new() };
    assert!(try_preview(&cw).is_none());
}

#[test]
fn outcome_status_is_idle_when_count_satisfied() {
    let mut ep = Episode::new(words(&["cat", "car", "at"]), Settings::default());
    let got = drain_count(&mut ep, 1);
    assert_eq!(got.len(), 1);
    assert_eq!(ep.emitted_count(), 1);
    let out: GenerationOutcome = ep.request(GenerationRequest::Count(0));
    assert_eq!(out.status, EpisodeStatus::Idle);
    assert_eq!(out.items.len(), 0);
}

#[test]
fn settings_validity_is_decidable() {
    assert!(Settings::default().is_valid());
    let mut bad = Settings::default();
    bad.max_width = 0;
    assert!(!bad.is_valid());
    let mut huge = Settings::default();
    huge.max_height = 4096;
    assert!(!huge.is_valid());
}

#[test]
fn cell_lookup_reads_the_grid() {
    let recs = vec![
        PlacementRecord {
            symbols: b"cat".to_vec(),
            label: None,
            row: 0,
            col: 0,
            horizontal: true,
        },
        PlacementRecord {
            symbols: b"car".to_vec(),
            label: None,
            row: 0,
            col: 0,
            horizontal: false,
        },
    ];
    let cw = reconstruct(&recs).unwrap();
    assert_eq!(crossword_engine::grid::cell_lookup(&cw, 0, 0), b'c');
    assert_eq!(crossword_engine::grid::cell_lookup(&cw, 0, 2), b't');
    assert_eq!(crossword_engine::grid::cell_lookup(&cw, 2, 0), b'r');
    assert_eq!(crossword_engine::grid::cell_lookup(&cw, 2, 2), 0);
    let (rlo, rhi, clo, chi) = crossword_engine::grid::bounding_box(&cw);
    assert_eq!((rlo, rhi, clo, chi), (0, 2, 0, 2));
}

#[test]
fn preview_renders_relative_to_bounding_box() {
    let at_origin = vec![
        PlacementRecord {
            symbols: b"cat".to_vec(),
            label: None,
            row: 0,
            col: 0,
            horizontal: true,
        },
        PlacementRecord {
            symbols: b"car".to_vec(),
            label: None,
            row: 0,
            col: 0,
            horizontal: false,
        },
    ];
    let translated = vec![
        PlacementRecord {
            symbols: b"cat".to_vec(),
            label: None,
            row: -4,
            col: 17,
            horizontal: true,
        },
        PlacementRecord {
            symbols: b"car".to_vec(),
            label: None,
            row: -4,
            col: 17,
            horizontal: false,
        },
    ];
    let a = reconstruct(&at_origin).unwrap();
    let b = reconstruct(&translated).unwrap();
    let ta = try_preview(&a).unwrap();
    let tb = try_preview(&b).unwrap();
    assert_eq!(ta, tb, "a pure translation renders identically");
}
