use ewm::input::Input;
use ewm::keys::{Action, Combination, KeyMap, Modifier};

#[test]
fn basic_store_and_reteive() {
    let mut km = KeyMap::new();
    km.register(
        Combination {
            modifiers: vec![(Modifier::C, Action::Char('x'))],
            final_action: Action::Char('s'),
        },
        Input(42),
    );
    let mut mp = km.map();
    mp.map_cont(Modifier::C, Action::Char('x'));
    assert_eq!(mp.map_final(Action::Char('s')), Some(Input(42)));
}

#[test]
fn empty_prefix_resolves_without_steps() {
    let mut km = KeyMap::new();
    km.register(
        Combination { modifiers: vec![], final_action: Action::Char('s') },
        Input(7),
    );
    let mp = km.map();
    assert_eq!(mp.map_final(Action::Char('s')), Some(Input(7)));
}

#[test]
fn wrong_prefix_step_goes_dead() {
    let mut km = KeyMap::new();
    km.register(
        Combination {
            modifiers: vec![(Modifier::C, Action::Char('x'))],
            final_action: Action::Char('s'),
        },
        Input(42),
    );
    let mut mp = km.map();
    mp.map_cont(Modifier::C, Action::Char('y'));
    assert_eq!(mp.map_final(Action::Char('s')), None);
}

#[test]
fn unmatched_terminal_on_matched_prefix() {
    let mut km = KeyMap::new();
    km.register(
        Combination {
            modifiers: vec![(Modifier::C, Action::Char('x'))],
            final_action: Action::Char('s'),
        },
        Input(7),
    );
    let mut mp = km.map();
    mp.map_cont(Modifier::C, Action::Char('x'));
    assert_eq!(mp.map_final(Action::Char('q')), None);
}

#[test]
fn dead_cursor_stays_dead() {
    let mut km = KeyMap::new();
    km.register(
        Combination {
            modifiers: vec![(Modifier::C, Action::Char('x'))],
            final_action: Action::Char('s'),
        },
        Input(3),
    );
    let mut mp = km.map();
    mp.map_cont(Modifier::M, Action::Char('q'));
    mp.map_cont(Modifier::C, Action::Char('x'));
    mp.map_cont(Modifier::M, Action::Tab);
    assert_eq!(mp.map_final(Action::Char('s')), None);
}

#[test]
fn disjoint_chords_resolve_in_either_order() {
    let first = Combination {
        modifiers: vec![(Modifier::C, Action::Char('x'))],
        final_action: Action::Char('s'),
    };
    let second = Combination {
        modifiers: vec![(Modifier::M, Action::Char('y'))],
        final_action: Action::Char('t'),
    };
    let mut km = KeyMap::new();
    km.register(first, Input(1));
    km.register(second, Input(2));
    let mut mp = km.map();
    mp.map_cont(Modifier::C, Action::Char('x'));
    assert_eq!(mp.map_final(Action::Char('s')), Some(Input(1)));
    let mut mp = km.map();
    mp.map_cont(Modifier::M, Action::Char('y'));
    assert_eq!(mp.map_final(Action::Char('t')), Some(Input(2)));

    let first = Combination {
        modifiers: vec![(Modifier::C, Action::Char('x'))],
        final_action: Action::Char('s'),
    };
    let second = Combination {
        modifiers: vec![(Modifier::M, Action::Char('y'))],
        final_action: Action::Char('t'),
    };
    let mut km = KeyMap::new();
    km.register(second, Input(2));
    km.register(first, Input(1));
    let mut mp = km.map();
    mp.map_cont(Modifier::C, Action::Char('x'));
    assert_eq!(mp.map_final(Action::Char('s')), Some(Input(1)));
    let mut mp = km.map();
    mp.map_cont(Modifier::M, Action::Char('y'));
    assert_eq!(mp.map_final(Action::Char('t')), Some(Input(2)));
}

#[test]
fn shared_prefix_orphans_earlier_chord() {
    let mut km = KeyMap::new();
    km.register(
        Combination {
            modifiers: vec![(Modifier::C, Action::Char('x'))],
            final_action: Action::Char('c'),
        },
        Input(1),
    );
    km.register(
        Combination {
            modifiers: vec![(Modifier::C, Action::Char('x'))],
            final_action: Action::Char('s'),
        },
        Input(2),
    );
    let mut mp = km.map();
    mp.map_cont(Modifier::C, Action::Char('x'));
    assert_eq!(mp.map_final(Action::Char('c')), None);
    let mut mp = km.map();
    mp.map_cont(Modifier::C, Action::Char('x'));
    assert_eq!(mp.map_final(Action::Char('s')), Some(Input(2)));
}

#[test]
fn two_step_prefix_round_trip() {
    let mut km = KeyMap::new();
    km.register(
        Combination {
            modifiers: vec![(Modifier::C, Action::Char('x')), (Modifier::M, Action::F(5))],
            final_action: Action::Tab,
        },
        Input(9),
    );
    let mut mp = km.map();
    mp.map_cont(Modifier::C, Action::Char('x'));
    mp.map_cont(Modifier::M, Action::F(5));
    assert_eq!(mp.map_final(Action::Tab), Some(Input(9)));
}

#[test]
fn reregistering_same_terminal_overwrites_id() {
    let mut km = KeyMap::new();
    km.register(
        Combination { modifiers: vec![], final_action: Action::Esc },
        Input(1),
    );
    km.register(
        Combination { modifiers: vec![], final_action: Action::Esc },
        Input(2),
    );
    let mp = km.map();
    assert_eq!(mp.map_final(Action::Esc), Some(Input(2)));
}

#[test]
fn empty_map_resolves_nothing() {
    let km = KeyMap::new();
    let mp = km.map();
    assert_eq!(mp.map_final(Action::Char('s')), None);
}

#[test]
fn modifier_is_part_of_the_step() {
    let mut km = KeyMap::new();
    km.register(
        Combination {
            modifiers: vec![(Modifier::C, Action::Char('x'))],
            final_action: Action::Char('s'),
        },
        Input(5),
    );
    let mut mp = km.map();
    mp.map_cont(Modifier::M, Action::Char('x'));
    assert_eq!(mp.map_final(Action::Char('s')), None);
}

#[test]
fn special_keys_round_trip() {
    let mut km = KeyMap::new();
    km.register(
        Combination {
            modifiers: vec![(Modifier::M, Action::PgUp)],
            final_action: Action::Del,
        },
        Input(11),
    );
    let mut mp = km.map();
    mp.map_cont(Modifier::M, Action::PgUp);
    assert_eq!(mp.map_final(Action::Del), Some(Input(11)));
}
