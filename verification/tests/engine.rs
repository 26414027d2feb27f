use wordler_core::{mutate_cells, Cell, Entry, Wordler};

fn entries(words: &[(&str, u64)]) -> Vec<Entry> {
    words.iter().map(|(w, r)| Entry { word: w.to_string(), ranks: vec![*r] }).collect()
}

fn words_of(game: &Wordler) -> Vec<String> {
    game.dictionary().iter().map(|e| e.word.clone()).collect()
}

fn members(game: &Wordler) -> Vec<Cell> {
    let mut cells = game.filters().cells().clone();
    cells.sort();
    cells
}

fn answer(game: &mut Wordler, response: &str) {
    let mut word = game.suggestion().clone();
    mutate_cells(response, &mut word.0).unwrap();
    assert!(game.set_feedback(word));
}

fn standard() -> Wordler {
    Wordler::new(entries(&[
        ("ATONE", 60),
        ("CHOIR", 50),
        ("GROUP", 30),
        ("PROMO", 20),
        ("PROXY", 10),
        ("SWORD", 40),
    ]))
    .unwrap()
}

#[test]
fn test_game() {
    let mut game = Wordler::new(entries(&[
        ("AROSE", 90),
        ("BRAIN", 80),
        ("CAROL", 30),
        ("MAJOR", 20),
        ("RADIO", 40),
        ("ROAST", 70),
        ("ULTRA", 60),
    ]))
    .unwrap();

    game.add_filters(vec![
        Cell::Yellow { letter: b'A', position: 0 },
        Cell::Yellow { letter: b'R', position: 1 },
        Cell::Grey(b'E'),
        Cell::Grey(b'T'),
    ]);

    let word = game.suggest_word().unwrap();
    assert!(word.contains("A"));
    assert!(word.contains("O"));
    assert_eq!(word, "RADIO");
}

#[test]
#[allow(non_snake_case)]
fn guess_a_word() {
    let mut game = Wordler::new(entries(&[
        ("ARISE", 50),
        ("AROSE", 90),
        ("OVATE", 70),
        ("OZONE", 75),
        ("ZONAE", 80),
    ]))
    .unwrap();

    for resp in [
        "y.y.g",
        ".y.yg",
    ] {
        answer(&mut game, resp);
        game.next();
    }

    assert_eq!(game.suggestion().to_string(), wordler_core::Word::new("OVATE").to_string());
}

#[test]
fn feedback_of_five_guesses_leads_to_the_target() {
    let mut game = standard();
    for (guess, response) in [
        ("ATONE", "..G.."),
        ("CHOIR", "..G.Y"),
        ("SWORD", "..GY."),
        ("GROUP", ".GG.Y"),
        ("PROMO", "GGG.."),
    ] {
        assert_eq!(game.suggestion().to_string(), guess);
        answer(&mut game, response);
        assert!(game.next());
    }
    assert_eq!(game.suggestion().to_string(), "PROXY");
    assert_eq!(game.attempts().len(), 5);
    assert!(!game.filters().contains(&Cell::Grey(b'O')));
    assert!(game.filters().contains(&Cell::Grey(b'M')));
}

#[test]
fn new_game_proposes_the_best_ranked_word() {
    let game = standard();
    assert_eq!(game.suggestion().to_string(), "ATONE");
    assert_eq!(game.suggest_word(), Some("ATONE"));
    assert!(game.attempts().is_empty());
    assert_eq!(game.filters().len(), 0);
    assert_eq!(game.scoring_idx(), 0);
    assert_eq!(game.strategies(), 1);
    assert_eq!(game.width(), 5);
}

#[test]
fn of_equal_ranks_the_later_word_is_proposed() {
    let game = Wordler::new(entries(&[("AB", 5), ("CD", 7), ("EF", 7), ("GH", 1)])).unwrap();
    assert_eq!(game.suggest_word(), Some("EF"));
    let flat = Wordler::new(entries(&[("AB", 0), ("CD", 0)])).unwrap();
    assert_eq!(flat.suggest_word(), Some("CD"));
}

#[test]
fn new_game_needs_a_word() {
    assert!(Wordler::new(Vec::new()).is_none());
}

#[test]
fn new_game_needs_words_of_one_length() {
    assert!(Wordler::new(entries(&[("ABC", 1), ("AB", 2)])).is_none());
    assert!(Wordler::new(entries(&[("AB", 1), ("ABC", 2)])).is_none());
    assert!(Wordler::new(entries(&[("", 1), ("", 2)])).is_some());
}

#[test]
fn new_game_needs_a_rank_for_each_word_and_strategy() {
    assert!(Wordler::new(vec![Entry { word: "AB".to_string(), ranks: vec![] }]).is_none());
    assert!(Wordler::new(vec![
        Entry { word: "AB".to_string(), ranks: vec![1, 2] },
        Entry { word: "CD".to_string(), ranks: vec![1] },
    ])
    .is_none());
}

#[test]
fn next_reports_when_no_candidate_is_left() {
    let mut game = Wordler::new(entries(&[("AB", 2), ("BA", 1)])).unwrap();
    assert_eq!(game.suggestion().to_string(), "AB");
    answer(&mut game, "..");
    assert!(!game.next());
    assert!(game.attempts().is_empty());
    assert_eq!(game.suggestion().to_string(), "AB");
    assert_eq!(members(&game), vec![Cell::Grey(b'A'), Cell::Grey(b'B')]);
    assert_eq!(game.suggest_word(), None);
}

#[test]
fn next_pins_green_cells() {
    let mut game = Wordler::new(entries(&[("CAT", 3), ("COT", 2), ("DOG", 1)])).unwrap();
    answer(&mut game, "G.G");
    assert!(game.next());
    assert_eq!(
        game.suggestion().0,
        vec![
            Cell::Green { letter: b'C', position: 0 },
            Cell::Grey(b'O'),
            Cell::Green { letter: b'T', position: 2 },
        ]
    );
    assert_eq!(
        game.attempts()[0].0,
        vec![
            Cell::Green { letter: b'C', position: 0 },
            Cell::Grey(b'A'),
            Cell::Green { letter: b'T', position: 2 },
        ]
    );
}

#[test]
fn undo_without_attempts_changes_nothing() {
    let mut game = standard();
    answer(&mut game, "..G..");
    let suggestion = game.suggestion().clone();
    game.undo();
    assert_eq!(game.suggestion(), &suggestion);
    assert!(game.attempts().is_empty());
    assert_eq!(game.filters().len(), 0);
    assert_eq!(words_of(&game).len(), 6);
}

#[test]
fn undo_puts_the_latest_attempt_back_on_the_table() {
    let mut game = standard();
    answer(&mut game, "..G..");
    assert!(game.next());
    let first = game.attempts()[0].clone();
    answer(&mut game, "..G.Y");
    assert!(game.next());
    let second = game.attempts()[1].clone();
    game.undo();
    assert_eq!(game.suggestion(), &second);
    assert_eq!(game.attempts(), &vec![first.clone()]);
    let mut replay = wordler_core::Filters::new();
    replay.add_filters(&first.0);
    let mut expected = replay.cells().clone();
    expected.sort();
    assert_eq!(members(&game), expected);
    game.undo();
    assert_eq!(game.suggestion(), &first);
    assert!(game.attempts().is_empty());
    assert_eq!(game.filters().len(), 0);
}

#[test]
fn undo_then_the_same_feedback_gives_the_same_filters() {
    let mut game = standard();
    for response in ["..G..", "..G.Y", "..GY."] {
        answer(&mut game, response);
        assert!(game.next());
    }
    let filters = members(&game);
    let attempts = game.attempts().clone();
    let suggestion = game.suggestion().to_string();
    game.undo();
    assert_ne!(members(&game), filters);
    assert!(game.next());
    assert_eq!(members(&game), filters);
    assert_eq!(game.attempts(), &attempts);
    assert_eq!(game.suggestion().to_string(), suggestion);
}

#[test]
fn not_a_word_strikes_the_guess_for_good() {
    let mut game = standard();
    answer(&mut game, "..G..");
    assert!(game.next());
    assert_eq!(game.suggestion().to_string(), "CHOIR");
    game.not_a_word();
    assert_eq!(words_of(&game), vec!["ATONE", "SWORD", "GROUP", "PROMO", "PROXY"]);
    assert_eq!(game.suggestion().to_string(), "SWORD");
    assert_eq!(game.attempts().len(), 1);
    assert_eq!(game.attempts()[0].to_string(), "ATONE");
    assert_ne!(game.suggest_word(), Some("CHOIR"));
    assert!(game.reset());
    assert!(!words_of(&game).contains(&"CHOIR".to_string()));
    answer(&mut game, "..G..");
    assert!(game.next());
    assert_eq!(game.suggestion().to_string(), "SWORD");
    while game.next() {
        assert_ne!(game.suggestion().to_string(), "CHOIR");
    }
}

#[test]
fn not_a_word_without_attempts_changes_nothing() {
    let mut game = standard();
    game.not_a_word();
    assert_eq!(words_of(&game).len(), 6);
    assert_eq!(game.suggestion().to_string(), "ATONE");
    assert!(game.attempts().is_empty());
    assert_eq!(game.filters().len(), 0);
}

#[test]
fn not_a_word_strikes_only_the_first_of_two_equal_words() {
    let mut game =
        Wordler::new(entries(&[("AB", 9), ("CD", 5), ("EF", 1), ("CD", 5)])).unwrap();
    answer(&mut game, "..");
    assert!(game.next());
    assert_eq!(game.suggestion().to_string(), "CD");
    game.not_a_word();
    assert_eq!(words_of(&game), vec!["AB", "CD", "EF"]);
    assert_eq!(game.suggestion().to_string(), "CD");
}

#[test]
fn reset_proposes_what_a_new_game_over_the_pruned_dictionary_would() {
    let mut game =
        Wordler::new(entries(&[("AB", 9), ("CD", 8), ("EF", 7), ("GH", 6)])).unwrap();
    answer(&mut game, "..");
    assert!(game.next());
    answer(&mut game, "..");
    assert!(game.next());
    assert_eq!(game.suggestion().to_string(), "EF");
    game.not_a_word();
    assert_eq!(game.suggestion().to_string(), "GH");
    assert!(game.reset());
    assert_eq!(words_of(&game), vec!["AB", "CD", "GH"]);
    assert_eq!(game.suggestion().to_string(), "AB");
    let fresh = Wordler::new(game.dictionary().clone()).unwrap();
    assert_eq!(game.suggestion(), fresh.suggestion());
    assert_eq!(game.suggest_word(), fresh.suggest_word());
    assert!(game.attempts().is_empty());
    assert_eq!(game.filters().len(), 0);
}

#[test]
fn reset_drops_the_feedback_on_the_table() {
    let mut game = standard();
    answer(&mut game, "GGGGG");
    assert!(game.reset());
    assert_eq!(game.suggestion(), &wordler_core::Word::new("ATONE"));
}

#[test]
fn scoring_is_switched_only_before_the_first_attempt() {
    let mut game = Wordler::new(vec![
        Entry { word: "AB".to_string(), ranks: vec![2, 1] },
        Entry { word: "CD".to_string(), ranks: vec![1, 2] },
    ])
    .unwrap();
    assert_eq!(game.strategies(), 2);
    assert_eq!(game.suggestion().to_string(), "AB");
    assert!(!game.set_scoring(2));
    assert_eq!(game.scoring_idx(), 0);
    assert!(game.set_scoring(1));
    assert_eq!(game.scoring_idx(), 1);
    assert_eq!(game.suggestion().to_string(), "CD");
    answer(&mut game, "..");
    assert!(game.next());
    assert_eq!(game.suggestion().to_string(), "AB");
    assert!(!game.set_scoring(0));
    assert_eq!(game.scoring_idx(), 1);
    assert_eq!(game.attempts().len(), 1);
    game.undo();
    assert!(game.set_scoring(0));
    assert_eq!(game.suggestion().to_string(), "AB");
}

#[test]
fn feedback_must_be_on_the_guess_on_the_table() {
    let mut game = Wordler::new(entries(&[("CAT", 3), ("COT", 2)])).unwrap();
    let table = game.suggestion().clone();
    assert!(!game.set_feedback(wordler_core::Word::new("COT")));
    assert!(!game.set_feedback(wordler_core::Word::new("CA")));
    assert!(!game.set_feedback(wordler_core::Word::new("CATS")));
    assert!(!game.set_feedback(wordler_core::Word(vec![
        Cell::Grey(b'C'),
        Cell::Green { letter: b'A', position: 2 },
        Cell::Grey(b'T'),
    ])));
    assert_eq!(game.suggestion(), &table);
    let marked = wordler_core::Word(vec![
        Cell::Grey(b'C'),
        Cell::Green { letter: b'A', position: 1 },
        Cell::Yellow { letter: b'T', position: 2 },
    ]);
    assert!(game.set_feedback(marked.clone()));
    assert_eq!(game.suggestion(), &marked);
}

#[test]
fn contradicting_feedback_leaves_the_filters_of_the_game_alone() {
    let mut game = standard();
    game.add_filters(vec![Cell::Green { letter: b'O', position: 2 }]);
    let before = members(&game);
    game.add_filters(vec![Cell::Grey(b'O')]);
    assert_eq!(members(&game), before);
    game.add_filters(vec![Cell::Green { letter: b'O', position: 2 }]);
    assert_eq!(members(&game), before);
}

#[test]
fn best_index_skips_words_that_a_filter_rejects() {
    let dictionary = entries(&[("AB", 9), ("CD", 5), ("EF", 7)]);
    let mut filters = wordler_core::Filters::new();
    assert_eq!(wordler_core::best_index(&dictionary, &filters, 0), Some(0));
    filters.insert(Cell::Grey(b'A'));
    assert_eq!(wordler_core::best_index(&dictionary, &filters, 0), Some(2));
    filters.insert(Cell::Grey(b'F'));
    assert_eq!(wordler_core::best_index(&dictionary, &filters, 0), Some(1));
    filters.insert(Cell::Yellow { letter: b'C', position: 0 });
    assert_eq!(wordler_core::best_index(&dictionary, &filters, 0), None);
}

#[test]
fn respond_puts_the_marks_on_the_guess() {
    let mut game = standard();
    assert_eq!(game.respond("y.G.g"), Ok(()));
    assert_eq!(
        game.suggestion().0,
        vec![
            Cell::Yellow { letter: b'A', position: 0 },
            Cell::Grey(b'T'),
            Cell::Green { letter: b'O', position: 2 },
            Cell::Grey(b'N'),
            Cell::Green { letter: b'E', position: 4 },
        ]
    );
    assert!(game.attempts().is_empty());
    assert_eq!(game.filters().len(), 0);
}

#[test]
fn respond_refuses_a_line_it_cannot_read() {
    let mut game = standard();
    assert_eq!(game.respond("..G.."), Ok(()));
    let table = game.suggestion().clone();
    assert_eq!(game.respond("..G."), Err(()));
    assert_eq!(game.respond("..G..."), Err(()));
    assert_eq!(game.respond("..X.."), Err(()));
    assert_eq!(game.respond(""), Err(()));
    assert_eq!(game.respond("NN"), Err(()));
    assert_eq!(game.suggestion(), &table);
}

#[test]
fn respond_with_n_strikes_the_guess() {
    let mut game = standard();
    assert_eq!(game.respond("..G.."), Ok(()));
    assert!(game.next());
    assert_eq!(game.respond("n"), Ok(()));
    assert_eq!(words_of(&game), vec!["ATONE", "SWORD", "GROUP", "PROMO", "PROXY"]);
    assert_eq!(game.suggestion().to_string(), "SWORD");
    assert_eq!(game.respond("N"), Ok(()));
    assert_eq!(words_of(&game), vec!["ATONE", "PROXY", "GROUP", "PROMO"]);
    assert_eq!(game.suggestion().to_string(), "GROUP");
}

#[test]
fn respond_with_n_before_the_first_attempt_changes_nothing() {
    let mut game = standard();
    assert_eq!(game.respond("N"), Ok(()));
    assert_eq!(words_of(&game).len(), 6);
    assert_eq!(game.suggestion(), &wordler_core::Word::new("ATONE"));
}

#[test]
fn cycle_steps_the_cell_of_the_guess() {
    let mut game = standard();
    assert!(game.cycle(2));
    assert_eq!(game.suggestion().0[2], Cell::Yellow { letter: b'O', position: 2 });
    assert!(game.cycle(2));
    assert_eq!(game.suggestion().0[2], Cell::Green { letter: b'O', position: 2 });
    assert!(game.next());
    assert_eq!(game.suggestion().to_string(), "CHOIR");
    assert_eq!(game.suggestion().0[2], Cell::Green { letter: b'O', position: 2 });
    assert!(game.cycle(2));
    assert_eq!(game.suggestion().0[2], Cell::Grey(b'O'));
    assert!(!game.cycle(5));
    assert_eq!(game.suggestion().to_string(), "CHOIR");
}
