use wordler_core::Cell;

#[test]
fn test_filter() {
    assert!(!Cell::Grey(b'A').accept("BAB"));
    assert!(Cell::Grey(b'A').accept("BBB"));

    assert!(Cell::Green { letter: b'A', position: 1 }.accept("BAB"));
    assert!(!Cell::Green { letter: b'A', position: 0 }.accept("BAB"));

    assert!(Cell::Yellow { letter: b'A', position: 0 }.accept("BAB"));
    assert!(!Cell::Yellow { letter: b'A', position: 1 }.accept("BAB"));
    assert!(!Cell::Yellow { letter: b'A', position: 1 }.accept("BBB"));
}

#[test]
fn green_accepts_exactly_its_letter_in_place() {
    let word = "CRANE";
    for (p, b) in word.bytes().enumerate() {
        for l in b'A'..=b'Z' {
            let cell = Cell::Green { letter: l, position: p };
            assert_eq!(cell.accept(word), b == l);
        }
    }
}

#[test]
fn grey_accepts_exactly_the_letters_not_in_the_word() {
    let word = "CRANE";
    for l in b'A'..=b'Z' {
        assert_eq!(Cell::Grey(l).accept(word), !word.as_bytes().contains(&l));
    }
}

#[test]
fn yellow_accepts_a_letter_that_is_elsewhere() {
    let word = "CRANE";
    for (p, b) in word.bytes().enumerate() {
        for l in b'A'..=b'Z' {
            let cell = Cell::Yellow { letter: l, position: p };
            assert_eq!(cell.accept(word), b != l && word.as_bytes().contains(&l));
        }
    }
}

#[test]
fn yellow_rejects_a_repeated_letter_at_its_own_place() {
    assert!(!Cell::Yellow { letter: b'B', position: 0 }.accept("BAB"));
    assert!(!Cell::Yellow { letter: b'B', position: 2 }.accept("BAB"));
    assert!(Cell::Yellow { letter: b'B', position: 1 }.accept("BAB"));
}

#[test]
fn byte_and_letter_of_each_kind() {
    assert_eq!(Cell::Grey(b'Q').byte(), b'Q');
    assert_eq!(Cell::Yellow { letter: b'R', position: 3 }.byte(), b'R');
    assert_eq!(Cell::Green { letter: b'S', position: 0 }.byte(), b'S');
    assert_eq!(Cell::Grey(b'Q').letter(), 'Q');
    assert_eq!(Cell::Yellow { letter: b'R', position: 3 }.letter(), 'R');
    assert_eq!(Cell::Green { letter: b'S', position: 0 }.letter(), 'S');
    assert_eq!(Cell::Grey(0xE9).letter(), '\u{e9}');
}

#[test]
fn cycle_steps_through_the_three_kinds() {
    let grey = Cell::Grey(b'T');
    let yellow = grey.cycle(2);
    assert_eq!(yellow, Cell::Yellow { letter: b'T', position: 2 });
    let green = yellow.cycle(2);
    assert_eq!(green, Cell::Green { letter: b'T', position: 2 });
    assert_eq!(green.cycle(2), grey);
}

#[test]
fn cycle_takes_the_position_it_is_given() {
    let stale = Cell::Yellow { letter: b'T', position: 0 };
    assert_eq!(stale.cycle(4), Cell::Green { letter: b'T', position: 4 });
    assert_eq!(Cell::Grey(b'T').cycle(1), Cell::Yellow { letter: b'T', position: 1 });
}

#[test]
fn cells_are_ordered_and_deduplicated_by_kind_letter_and_place() {
    let mut set = std::collections::BTreeSet::new();
    set.insert(Cell::Grey(b'A'));
    set.insert(Cell::Grey(b'A'));
    set.insert(Cell::Green { letter: b'A', position: 1 });
    set.insert(Cell::Green { letter: b'A', position: 1 });
    set.insert(Cell::Green { letter: b'A', position: 2 });
    set.insert(Cell::Yellow { letter: b'A', position: 1 });
    assert_eq!(set.len(), 4);
}
