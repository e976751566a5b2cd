use water_sort::bottle::{Bottle, HiddenRequirement};
use water_sort::color::BottleColor;

#[test]
fn functional_test_bottle_is_full() {
    let fills = vec![
        BottleColor::red(),
        BottleColor::green(),
        BottleColor::red(),
        BottleColor::blue(),
    ];

    let mut bottle = Bottle::from_fills(fills, None);

    assert!(bottle.is_full());

    bottle.get_fills_mut().pop();
    assert!(!bottle.is_full());
}

#[test]
fn functional_test_bottle_solved() {
    BottleColor::values().iter().for_each(|&color| {
        if color == BottleColor::Mystery {
            return;
        }

        let fills = vec![color; 4];
        let bottle = Bottle::from_fills(fills, None);
        assert!(bottle.is_solved());
    });

    let empty_bottle = Bottle::default();
    assert!(!empty_bottle.is_solved());

    let unsolved_bottle = Bottle::from_fills(
        vec![
            BottleColor::red(),
            BottleColor::green(),
            BottleColor::red(),
            BottleColor::blue(),
        ],
        None,
    );

    assert!(!unsolved_bottle.is_solved());
}

#[test]
fn functional_test_bottle_can_fill_from() {
    let source = Bottle::from_fills(vec![BottleColor::red(), BottleColor::red()], None);

    let mut destination = Bottle::default();
    assert!(destination.can_fill_from(&source));

    destination.get_fills_mut().push((BottleColor::green(), false));
    assert!(!destination.can_fill_from(&source));

    destination.get_fills_mut().pop();
    destination.get_fills_mut().push((BottleColor::red(), false));
    assert!(destination.can_fill_from(&source));

    destination.get_fills_mut().push((BottleColor::red(), false));
    destination.get_fills_mut().push((BottleColor::red(), false));
    assert!(!destination.can_fill_from(&source));
}

#[test]
fn functional_test_bottle_get_top_fill() {
    let bottle = Bottle::from_fills(
        vec![
            BottleColor::red(),
            BottleColor::red(),
            BottleColor::green(),
            BottleColor::green(),
        ],
        None,
    );

    let (amount, color) = bottle.get_top_fill().unwrap();
    assert_eq!(amount, 2);
    assert_eq!(color, BottleColor::green());
}

#[test]
fn functional_test_bottle_get_top_fill_all_same() {
    let bottle = Bottle::from_fills(
        vec![
            BottleColor::red(),
            BottleColor::red(),
            BottleColor::red(),
            BottleColor::red(),
        ],
        None,
    );

    let (amount, color) = bottle.get_top_fill().unwrap();
    assert_eq!(amount, 4);
    assert_eq!(color, BottleColor::red());
}

#[test]
fn functional_test_bottle_fill_from_simple() {
    let mut destination = Bottle::from_fills(vec![], None);
    let mut source = Bottle::from_fills(vec![BottleColor::red(), BottleColor::red()], None);

    destination.fill_from(&mut source);

    assert_eq!(
        *destination.get_fills_mut(),
        vec![(BottleColor::red(), false), (BottleColor::red(), false)]
    );
    assert!(source.is_empty());
}

#[test]
fn functional_test_bottle_fill_from_partial() {
    let mut destination = Bottle::from_fills(vec![BottleColor::red()], None);
    let mut source = Bottle::from_fills(
        vec![BottleColor::red(), BottleColor::red(), BottleColor::red()],
        None,
    );

    destination.fill_from(&mut source);

    assert_eq!(
        *destination.get_fills_mut(),
        vec![
            (BottleColor::red(), false),
            (BottleColor::red(), false),
            (BottleColor::red(), false),
            (BottleColor::red(), false)
        ]
    );
    assert!(source.is_empty());
}

#[test]
fn functional_test_bottle_is_empty() {
    let empty = Bottle::default();
    assert!(empty.is_empty());

    let not_empty = Bottle::from_fills(vec![BottleColor::red()], None);
    assert!(!not_empty.is_empty());
}

#[test]
fn functional_test_bottle_fill_count() {
    let bottle = Bottle::from_fills(
        vec![
            BottleColor::red(),
            BottleColor::green(),
            BottleColor::blue(),
        ],
        None,
    );
    assert_eq!(bottle.get_fill_count(), 3);
}

#[test]
fn mystery_layer_pours_alone() {
    // The mystery layer on top pours on its own, even over layers of its colour.
    let bottle = Bottle::from_fills(
        vec![BottleColor::red(), BottleColor::Mystery],
        None,
    );
    assert_eq!(bottle.get_top_fill(), Some((1, BottleColor::Mystery)));

    let revealed = Bottle::from_fills_with_initial(
        vec![BottleColor::red(), BottleColor::red()],
        vec![BottleColor::red(), BottleColor::Mystery],
        None,
    );
    assert_eq!(revealed.get_top_fill(), Some((1, BottleColor::red())));
}

#[test]
fn locked_bottle_takes_no_part_in_pouring() {
    let locked = Bottle::from_hidden_requirement(BottleColor::red(), None);
    let source = Bottle::from_fills(vec![BottleColor::red()], None);
    assert!(locked.is_hidden_and_locked());
    assert!(locked.is_hidden_and_empty());
    assert!(!locked.can_fill_from(&source));
    assert!(!source.can_fill_from(&locked));
    assert_eq!(locked.get_top_fill(), None);

    let mut unlocked = locked.clone();
    unlocked.unlock_hidden_requirement();
    assert_eq!(
        unlocked.hidden_requirement_state(),
        HiddenRequirement::Unlocked(BottleColor::red())
    );
    assert!(unlocked.can_fill_from(&source));
    unlocked.lock_hidden_requirement();
    assert_eq!(
        unlocked.hidden_requirement_state(),
        HiddenRequirement::Locked(BottleColor::red())
    );
}

#[test]
fn mystery_top_blocks_pouring_onto_it() {
    let destination = Bottle::from_fills(vec![BottleColor::Mystery], None);
    let source = Bottle::from_fills(vec![BottleColor::Mystery], None);
    assert!(!destination.can_fill_from(&source));
}

#[test]
fn solved_color_of_full_bottle() {
    let bottle = Bottle::from_fills(vec![BottleColor::blue(); 4], None);
    assert_eq!(bottle.solved_color(), Some(BottleColor::blue()));
    let mystery = Bottle::from_fills(vec![BottleColor::Mystery; 4], None);
    assert_eq!(mystery.solved_color(), None);
}

#[test]
fn hex_colors_round_trip() {
    let red = BottleColor::from_hex("#df1a24");
    assert_eq!(red, BottleColor::red());
    assert_eq!(red.to_hex(), "#df1a24");
    assert_eq!(BottleColor::Empty.to_hex(), "E");
    assert_eq!(BottleColor::Mystery.to_hex(), "?");
    assert_eq!(BottleColor::orange().to_pixel_value(), (0x1c, 0x7c, 0xf3));
    assert_eq!(
        water_sort::color::color_distance_sq(&(0, 0, 0), &(3, 4, 0)),
        25
    );
}
