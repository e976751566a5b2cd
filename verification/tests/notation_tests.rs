use water_sort::bottle::{Bottle, HiddenRequirement};
use water_sort::color::BottleColor;
use water_sort::notation::{bottles_to_sequence, is_level_text, TestUtils};

#[test]
fn parse_bottles_sequence_supports_hidden_requirement_tokens() {
    let bottles =
        TestUtils::parse_bottles_sequence("#df1a24#f37c1c #194af9#f37c1c EEEE !#f37c1c !#194af9");

    assert_eq!(bottles.len(), 5);
    assert_eq!(
        bottles[0].get_fills(),
        vec![BottleColor::red(), BottleColor::orange()]
    );
    assert_eq!(
        bottles[1].get_fills(),
        vec![BottleColor::blue(), BottleColor::orange()]
    );
    assert!(bottles[2].is_empty());
    assert_eq!(bottles[3].hidden_requirement(), Some(BottleColor::orange()));
    assert_eq!(bottles[4].hidden_requirement(), Some(BottleColor::blue()));
    assert_eq!(
        bottles[3].hidden_requirement_state(),
        HiddenRequirement::Locked(BottleColor::orange())
    );
    assert_eq!(
        bottles[4].hidden_requirement_state(),
        HiddenRequirement::Locked(BottleColor::blue())
    );
}

#[test]
fn parse_bottles_sequence_supports_hidden_requirement_with_fills_tokens() {
    let bottles = TestUtils::parse_bottles_sequence(
        "#46de1e#46de1e#d212cc#d212cc !#8c00d9,#fbdf20#46de1e#df1a24#194af9 #8c00d9#d212cc#194af9#194af9 !#f37c1c,#df1a24#fbdf20#8c00d9#d212cc #f37c1c#fbdf20#fbdf20#194af9 #df1a24#8c00d9#f37c1c#f37c1c #f37c1c#f37c1c#df1a24#46de1e EEEE EEEE",
    );

    assert_eq!(bottles.len(), 9);
    assert_eq!(bottles[1].hidden_requirement(), Some(BottleColor::purple()));
    assert_eq!(
        bottles[1].hidden_requirement_state(),
        HiddenRequirement::Unlocked(BottleColor::purple())
    );
    assert_eq!(
        bottles[1].get_fills(),
        vec![
            BottleColor::blue(),
            BottleColor::red(),
            BottleColor::green(),
            BottleColor::yellow(),
        ]
    );
    assert_eq!(bottles[3].hidden_requirement(), Some(BottleColor::orange()));
    assert_eq!(
        bottles[3].hidden_requirement_state(),
        HiddenRequirement::Unlocked(BottleColor::orange())
    );
    assert_eq!(
        bottles[3].get_fills(),
        vec![
            BottleColor::pink(),
            BottleColor::purple(),
            BottleColor::yellow(),
            BottleColor::red(),
        ]
    );
}

#[test]
fn letter_notation_reads_top_down() {
    let bottles = TestUtils::parse_bottles_sequence("RG?? EEEY !B !O,RRRR");
    assert_eq!(bottles.len(), 4);
    assert_eq!(
        bottles[0].get_fills(),
        vec![
            BottleColor::Mystery,
            BottleColor::Mystery,
            BottleColor::green(),
            BottleColor::red()
        ]
    );
    assert_eq!(bottles[1].get_fills(), vec![BottleColor::yellow()]);
    assert_eq!(
        bottles[2].hidden_requirement_state(),
        HiddenRequirement::Locked(BottleColor::blue())
    );
    assert!(bottles[2].is_empty());
    assert_eq!(
        bottles[3].hidden_requirement_state(),
        HiddenRequirement::Unlocked(BottleColor::orange())
    );
    assert_eq!(bottles[3].get_fills(), vec![BottleColor::red(); 4]);
}

#[test]
fn letters_and_hex_give_the_same_level() {
    let letters = TestUtils::parse_bottles_sequence("OR OB EEEE");
    let hex = TestUtils::parse_bottles_sequence("#df1a24#f37c1c #194af9#f37c1c EEEE");
    assert!(TestUtils::are_bottles_equal(&letters, &hex));
    let other = TestUtils::parse_bottles_sequence("OR BB EEEE");
    assert!(!TestUtils::are_bottles_equal(&letters, &other));
}

#[test]
fn bottles_written_back_in_letters() {
    let bottles = TestUtils::parse_bottles_sequence("RG?? EEEY EEEE");
    assert_eq!(bottles_to_sequence(&bottles), "RG?? EEEY EEEE");
    let empty: Vec<Bottle> = Vec::new();
    assert_eq!(bottles_to_sequence(&empty), "");
}

#[test]
fn level_text_is_checked_before_parsing() {
    assert!(is_level_text("RRGG EEEE !R,BBBB !G ????"));
    assert!(is_level_text("  RRGG\tGGRR  "));
    assert!(is_level_text(""));
    assert!(!is_level_text("RXGG EEEE"));
    assert!(!is_level_text("RRGG !"));
    assert!(!is_level_text("RRGG !X,BBBB"));
    assert!(!is_level_text("!R,BXBB"));
    assert!(is_level_text("#ff0000#00ff00 !#0000ff,#ff0000 EEEE"));
    assert!(!is_level_text("#ff00 EEEE"));
    assert!(!is_level_text("!#zz0000"));
}
