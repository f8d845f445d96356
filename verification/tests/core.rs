use lotka_beats::dynamics::{build_interaction_matrix, require_species, require_species_and_history, species_label};
use lotka_beats::equilibrium::{analyze_stability, genre_name, EigenSign, GenreNaming, Stability};
use lotka_beats::genre::make_interaction;
use lotka_beats::midi::{midi_events, midi_to_text, population_to_chord, sort_events_by_tick, MidiEvent, NoteGroup};
use lotka_beats::Error;

fn ev(tick: u32, note: u8) -> MidiEvent {
    MidiEvent { tick, note, velocity: 64, duration: 120, channel: 0 }
}

// ── Carried over ──

#[test]
fn stability_enum_values() {
    assert_ne!(Stability::Stable, Stability::Unstable);
    assert_ne!(Stability::Saddle, Stability::Neutral);
}

#[test]
fn make_interaction_helper() {
    let v = make_interaction(3, 0.0, &[(0, -0.1), (2, 0.05)]);
    assert_eq!(v, vec![-0.1, 0.0, 0.05]);
}

#[test]
fn dynamics_rejects_empty_ecosystem() {
    let rows: Vec<Vec<f64>> = vec![];
    let result = build_interaction_matrix::<f64, f64>(&rows);
    assert!(result.is_err());
}

#[test]
fn population_to_chord_works() {
    // Jazz and Blues scales of the predator-prey preset; populations 1.0 and
    // 0.5 give shares 2/3 and 1/3, both above one tenth.
    let scales = vec![vec![0, 2, 3, 5, 7, 9, 10], vec![0, 3, 5, 6, 7, 10]];
    let loud = vec![1.0 / 1.5 > 0.1, 0.5 / 1.5 > 0.1];
    let chord = population_to_chord(&scales, &loud);
    assert!(!chord.is_empty());
    for &note in &chord {
        assert!(note <= 127);
    }
}

#[test]
fn population_to_chord_empty_is_empty() {
    let chord = population_to_chord(&vec![], &vec![]);
    assert!(chord.is_empty());
}

// ── Stability ──

#[test]
fn stability_classes() {
    assert_eq!(analyze_stability(&vec![EigenSign::Negative, EigenSign::Negative]), Stability::Stable);
    assert_eq!(analyze_stability(&vec![EigenSign::Negative, EigenSign::Zero]), Stability::Stable);
    assert_eq!(analyze_stability(&vec![EigenSign::Positive, EigenSign::Zero]), Stability::Unstable);
    assert_eq!(analyze_stability(&vec![EigenSign::Zero, EigenSign::Positive, EigenSign::Negative]), Stability::Saddle);
    assert_eq!(analyze_stability(&vec![EigenSign::Zero, EigenSign::Zero]), Stability::Neutral);
    assert_eq!(analyze_stability(&vec![]), Stability::Neutral);
}

// ── Genre names ──

#[test]
fn genre_names() {
    let names = vec!["Jazz".to_string(), "Blues".to_string()];
    assert_eq!(genre_name(&names, GenreNaming::Void), "Void");
    assert_eq!(genre_name(&names, GenreNaming::Pure(1)), "Pure Blues Fusion");
    assert_eq!(genre_name(&names, GenreNaming::Crossover(0, 1)), "Jazz-Blues Crossover");
    assert_eq!(genre_name(&names, GenreNaming::Dominated(0)), "Jazz-dominated Equilibrium");
}

// ── Interaction matrix ──

#[test]
fn interaction_matrix_copies_rows() {
    let rows = vec![vec![-0.1, 0.02], vec![0.01, -0.05]];
    let m = build_interaction_matrix::<f64, f64>(&rows).unwrap();
    assert_eq!(m, rows);
}

#[test]
fn interaction_matrix_reports_first_bad_row() {
    let rows = vec![vec![1, 2, 3], vec![1, 2], vec![1]];
    match build_interaction_matrix::<i32, f64>(&rows) {
        Err(Error::InteractionMatrixMismatch { expected, got }) => {
            assert_eq!(expected, 3);
            assert_eq!(got, 2);
        }
        _ => panic!("expected a mismatch"),
    }
    let empty: Vec<Vec<i32>> = vec![];
    assert!(matches!(build_interaction_matrix::<i32, f64>(&empty), Err(Error::EmptyEcosystem)));
}

#[test]
fn make_interaction_later_pair_wins_and_out_of_range_is_ignored() {
    let v = make_interaction(2, 0, &[(1, 5), (7, 9), (1, 6)]);
    assert_eq!(v, vec![0, 6]);
}

#[test]
fn divergence_label() {
    assert_eq!(species_label(0), "species_0");
    assert_eq!(species_label(1234), "species_1234");
}

// ── Chords ──

#[test]
fn chord_exact_notes() {
    let scales = vec![vec![0, 2, 3, 5, 7, 9, 10], vec![0, 3, 5, 6, 7, 10]];
    let chord = population_to_chord(&scales, &vec![true, true]);
    assert_eq!(chord, vec![48, 51, 60, 65]);
}

#[test]
fn chord_quiet_species_and_short_scale() {
    // Species 0 is quiet; species 1 has a two-note scale, so its third is a
    // major third above the root; species 2 has an empty scale.
    let scales = vec![vec![0, 4, 7], vec![2, 9], vec![]];
    let chord = population_to_chord(&scales, &vec![false, true, true]);
    assert_eq!(chord, vec![62, 66]);
}

#[test]
fn chord_dedups_and_caps() {
    // Both species give C4 (48) as root; high pitch classes are capped at 127.
    let scales = vec![vec![0, 0, 0], vec![100, 1, 120], vec![0]];
    let chord = population_to_chord(&scales, &vec![true, true, true]);
    assert_eq!(chord, vec![48, 52, 127]);
}

// ── Event order ──

#[test]
fn sort_is_stable() {
    let mut events = vec![ev(10, 1), ev(5, 2), ev(10, 3), ev(0, 4), ev(5, 5)];
    sort_events_by_tick(&mut events);
    let notes: Vec<u8> = events.iter().map(|e| e.note).collect();
    assert_eq!(notes, vec![4, 2, 5, 1, 3]);
}

#[test]
fn midi_events_from_groups() {
    let scales = vec![vec![0, 2, 4], vec![]];
    let groups = vec![
        NoteGroup { step: 0, species: 0, velocity: 90, duration: 300, offsets: vec![0, 960] },
        NoteGroup { step: 0, species: 1, velocity: 70, duration: 200, offsets: vec![480] },
        NoteGroup { step: 1, species: 0, velocity: 91, duration: 300, offsets: vec![0] },
    ];
    let events = midi_events(&groups, &scales);
    assert_eq!(
        events,
        vec![
            MidiEvent { tick: 0, note: 48, velocity: 90, duration: 300, channel: 0 },
            MidiEvent { tick: 480, note: 120, velocity: 70, duration: 200, channel: 1 },
            MidiEvent { tick: 960, note: 50, velocity: 90, duration: 300, channel: 0 },
            MidiEvent { tick: 1920, note: 48, velocity: 91, duration: 300, channel: 0 },
        ]
    );
}

#[test]
fn midi_events_valid_ranges() {
    let scales: Vec<Vec<u8>> = (0..20).map(|i| vec![(i * 7 % 12) as u8, 11]).collect();
    let groups: Vec<NoteGroup> = (0..20)
        .map(|i| NoteGroup { step: i % 3, species: i, velocity: (100 + 10 * i).min(255) as u8, duration: 10, offsets: vec![0, 100, 1900] })
        .collect();
    let events = midi_events(&groups, &scales);
    assert_eq!(events.len(), 60);
    for w in events.windows(2) {
        assert!(w[0].tick <= w[1].tick);
    }
    for e in &events {
        assert!(e.note <= 127);
        assert!(e.channel <= 15);
        assert!(e.velocity <= 127);
        assert!(groups.iter().any(|g| g.species % 16 == e.channel as usize));
    }
    assert!(events.iter().any(|e| e.velocity == 127));
}

// ── Text export ──

#[test]
fn midi_text_exact() {
    let events = vec![
        MidiEvent { tick: 7, note: 5, velocity: 64, duration: 300, channel: 1 },
        MidiEvent { tick: 123456, note: 127, velocity: 100, duration: 0, channel: 15 },
    ];
    let text = midi_to_text("Jazz-Ecosystem-t0.2", "150.0", 480, &events);
    assert_eq!(
        text,
        "Sequence: Jazz-Ecosystem-t0.2\nTempo: 150.0 BPM, PPQN: 480\nEvents: 2\n---\n\
         t=00007 ch=1 note=005 vel=064 dur=300\n\
         t=123456 ch=15 note=127 vel=100 dur=0"
    );
}

#[test]
fn midi_text_has_header() {
    let text = midi_to_text("X", "100.0", 480, &vec![]);
    assert!(text.contains("Sequence:"));
    assert!(text.contains("Tempo:"));
    assert_eq!(text, "Sequence: X\nTempo: 100.0 BPM, PPQN: 480\nEvents: 0\n---");
}

#[test]
fn error_display_works() {
    let e = Error::<f64>::EmptyEcosystem;
    assert!(e.message("").contains("no species"));
}

#[test]
fn error_messages() {
    assert_eq!(Error::<f64>::EmptyEcosystem.message(""), "ecosystem has no species");
    assert_eq!(Error::<f64>::InvalidSpeciesIndex(12).message(""), "species index 12 out of range");
    assert_eq!(Error::InvalidStepSize(-0.1).message("-0.1"), "invalid step size: -0.1");
    assert_eq!(
        Error::DivergentPopulation { species: "species_1".to_string(), value: f64::NAN }.message("NaN"),
        "population for 'species_1' diverged: NaN"
    );
    assert_eq!(
        Error::<f64>::InteractionMatrixMismatch { expected: 3, got: 2 }.message(""),
        "interaction matrix mismatch: expected 3 entries, got 2"
    );
}

#[test]
fn emptiness_checks() {
    assert!(matches!(require_species::<f64>(0), Err(Error::EmptyEcosystem)));
    assert!(require_species::<f64>(2).is_ok());
    assert!(matches!(require_species_and_history::<f64>(2, 0), Err(Error::EmptyEcosystem)));
    assert!(matches!(require_species_and_history::<f64>(0, 5), Err(Error::EmptyEcosystem)));
    assert!(require_species_and_history::<f64>(1, 1).is_ok());
}

#[test]
fn velocity_is_capped() {
    let scales = vec![vec![0]];
    let groups = vec![NoteGroup { step: 0, species: 0, velocity: 200, duration: 1, offsets: vec![0] }];
    let events = midi_events(&groups, &scales);
    assert_eq!(events[0].velocity, 127);
}
