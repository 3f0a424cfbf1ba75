use dice_pmf::dice::Roll;
use dice_pmf::notation::{
    interpret, parse_roll_string, split_off_first_roll_item, strip_roll_prefix, ParseError,
    RollItem,
};

#[test]
fn single_set_of_dice() {
    let num_dice = [2, 4, 6];
    let num_sides = [10, 4, 8];
    for (n_dice, n_sides) in num_dice.iter().zip(num_sides.iter()) {
        let actual = parse_roll_string(format!("{}d{}", *n_dice, *n_sides))
            .expect("Roll parsing failed unexpectedly.");
        assert_eq!(actual.num_dice()[0], *n_dice);
        assert_eq!(actual.num_sides()[0], *n_sides);
    }
}

#[test]
fn multiple_sets_without_spaces() {
    let actual =
        parse_roll_string("2d6+1d4".to_string()).expect("Roll parsing failed unexpectedly.");
    assert_eq!(actual.num_dice()[0], 2);
    assert_eq!(actual.num_dice()[1], 1);
    assert_eq!(actual.num_sides()[0], 6);
    assert_eq!(actual.num_sides()[1], 4);
}

#[test]
fn multiple_sets_with_spaces() {
    let actual =
        parse_roll_string("2d6 + 1d4".to_string()).expect("Roll parsing failed unexpectedly.");
    assert_eq!(actual.num_dice()[0], 2);
    assert_eq!(actual.num_dice()[1], 1);
    assert_eq!(actual.num_sides()[0], 6);
    assert_eq!(actual.num_sides()[1], 4);
}

#[test]
fn strip_long_roll_prefix() {
    let roll_string = "/roll 1d4";
    let actual = strip_roll_prefix(roll_string);
    assert_eq!(actual, "1d4");
}

#[test]
fn strip_short_roll_prefix() {
    let roll_string = "/r 1d4";
    let actual = strip_roll_prefix(roll_string);
    assert_eq!(actual, "1d4");
}

#[test]
fn split_off_roll_item_leading_operator_no_spaces() {
    let roll_string = "+1d29-3+3d2";
    let (item, trailing) = split_off_first_roll_item(&roll_string);
    assert_eq!(item, "+1d29", "Splitting failed at first item (item part of result)");
    assert_eq!(trailing, "-3+3d2", "Splitting failed at first item (trailing part of result)");

    let (next_item, next_trailing) = split_off_first_roll_item(trailing);
    assert_eq!(next_item, "-3", "Splitting failed at second item (item part of result)");
    assert_eq!(next_trailing, "+3d2", "Splitting trailed at second item (trailing part of result)");

    let (final_item, final_trailing) = split_off_first_roll_item(next_trailing);
    assert_eq!(final_item, "+3d2", "Splitting failed at last item (item part of result)");
    assert_eq!(final_trailing, "", "Splitting failed at last item (trailing part of result)");
}

#[test]
fn split_off_roll_item_with_spaces() {
    let roll_string = "1d29 - 3 + 3 d 2";
    let (item, trailing) = split_off_first_roll_item(&roll_string);
    assert_eq!(item, "1d29 ", "Splitting failed at first item (item part of result)");
    assert_eq!(trailing, "- 3 + 3 d 2", "Splitting failed at first item (trailing part of result)");

    let (next_item, next_trailing) = split_off_first_roll_item(trailing);
    assert_eq!(next_item, "- 3 ", "Splitting failed at second item (item part of result)");
    assert_eq!(next_trailing, "+ 3 d 2", "Splitting trailed at second item (trailing part of result)");

    let (final_item, final_trailing) = split_off_first_roll_item(next_trailing);
    assert_eq!(final_item, "+ 3 d 2", "Splitting failed at last item (item part of result)");
    assert_eq!(final_trailing, "", "Splitting failed at last item (trailing part of result)");
}

fn parse(text: &str) -> Result<Roll, ParseError> {
    parse_roll_string(text.to_string())
}

fn groups_of(roll: &Roll) -> Vec<(u32, u32)> {
    roll.num_dice().into_iter().zip(roll.num_sides().into_iter()).collect()
}

#[test]
fn single_set_is_the_sole_group() {
    for (n, s) in [(2u32, 10u32), (4, 4), (6, 8)] {
        let roll = parse(&format!("{}d{}", n, s)).unwrap();
        assert_eq!(groups_of(&roll), vec![(n, s)]);
        assert_eq!(roll.get_modifier(), 0);
    }
}

#[test]
fn spaces_do_not_change_the_roll() {
    let tight = parse("2d6+1d4").unwrap();
    let loose = parse("2d6 + 1d4").unwrap();
    assert_eq!(tight, loose);
    assert_eq!(groups_of(&tight), vec![(2, 6), (1, 4)]);
    assert_eq!(parse(" 2 d 6\t+\n1 d 4 ").unwrap(), tight);
}

#[test]
fn command_prefix_does_not_change_the_roll() {
    let plain = parse("1d4").unwrap();
    assert_eq!(parse("/roll 1d4").unwrap(), plain);
    assert_eq!(parse("/r 1d4").unwrap(), plain);
    assert_eq!(groups_of(&plain), vec![(1, 4)]);
}

#[test]
fn command_prefix_after_leading_whitespace() {
    assert_eq!(strip_roll_prefix("  /roll   2d6  "), "2d6");
    assert_eq!(strip_roll_prefix("\t/r 2d6"), "2d6");
    assert_eq!(parse("  /roll 2d6").unwrap(), parse("2d6").unwrap());
}

#[test]
fn strip_without_prefix_only_trims() {
    assert_eq!(strip_roll_prefix("1d4"), "1d4");
    assert_eq!(strip_roll_prefix("  1d4 + 2 "), "1d4 + 2");
    assert_eq!(strip_roll_prefix("roll 1d4"), "roll 1d4");
    assert_eq!(strip_roll_prefix(""), "");
    assert_eq!(strip_roll_prefix("   "), "");
}

#[test]
fn strip_takes_the_long_form_before_the_short() {
    assert_eq!(strip_roll_prefix("/rolling"), "ing");
    assert_eq!(strip_roll_prefix("/rol 1d4"), "ol 1d4");
    assert_eq!(strip_roll_prefix("/r1d4"), "1d4");
    assert_eq!(strip_roll_prefix("/roll"), "");
    assert_eq!(strip_roll_prefix("/r"), "");
}

#[test]
fn strip_handles_wide_whitespace_and_letters() {
    assert_eq!(strip_roll_prefix("\u{3000}/r\u{a0}1d4\u{2003}"), "1d4");
    assert_eq!(strip_roll_prefix("/r é1"), "é1");
}

#[test]
fn splitting_reconstructs_the_string() {
    for text in ["+1d29-3+3d2", "1d29 - 3 + 3 d 2", "2d4+7d6+8+1d10", "-3", "x1y+2"] {
        let mut rest = text;
        let mut joined = String::new();
        let mut steps = 0;
        while !rest.is_empty() {
            let (item, trailing) = split_off_first_roll_item(rest);
            assert!(!item.is_empty());
            joined.push_str(item);
            rest = trailing;
            steps += 1;
            assert!(steps <= text.len());
        }
        assert_eq!(joined, text);
    }
}

#[test]
fn split_counts_characters_not_bytes() {
    assert_eq!(split_off_first_roll_item("é1\u{2003}+2ü"), ("é1\u{2003}", "+2ü"));
    assert_eq!(split_off_first_roll_item("∑∑7"), ("∑∑7", ""));
}

#[test]
fn split_keeps_signs_before_the_first_digit() {
    assert_eq!(split_off_first_roll_item("+-3+4"), ("+-3", "+4"));
    assert_eq!(split_off_first_roll_item("2d4+7d6+8+1d10"), ("2d4", "+7d6+8+1d10"));
    assert_eq!(split_off_first_roll_item("7"), ("7", ""));
}

#[test]
fn whitespace_counts_for_nothing() {
    let texts = [
        "2d6+1d4-3",
        "1d29 - 3 + 3 d 2",
        "+ 5 - 7",
        "1 0 d 2 0 + 1 5",
        "2d6 + x",
        "2 d + 6",
        "0 d 6",
        "1d4 +",
        "9 9 9 9 9 9 9 9 9 9 9",
    ];
    for text in texts {
        let tight: String = text.chars().filter(|c| !c.is_whitespace()).collect();
        let wide = text.replace(' ', " \t\u{2003} ");
        assert_eq!(parse(text), parse(&tight), "{:?}", text);
        assert_eq!(parse(text), parse(&wide), "{:?}", text);
        assert_eq!(parse(text), parse(&format!("  /roll {}\n", text)), "{:?}", text);
        assert_eq!(parse(text), parse(&format!("/r{}", tight)), "{:?}", text);
    }
}

#[test]
fn rolls_compare_by_groups_and_modifier() {
    assert_eq!(parse("2d6+1"), parse("1+2d6"));
    assert_ne!(parse("2d6+1d4"), parse("1d4+2d6"));
    assert_ne!(parse("2d6+1"), parse("2d6+2"));
    assert_ne!(parse("2d6"), parse("1d6+1d6"));
    let roll = parse("3d8-2").unwrap();
    assert_eq!(roll.clone(), roll);
}

#[test]
fn every_group_of_a_parsed_roll_is_full() {
    for text in ["1d1", "2d6+1d4", "10d10 + 3 + 4d4", "/r 7d7-7"] {
        let roll = parse(text).unwrap();
        assert!(roll.num_dice().iter().all(|n| *n >= 1));
        assert!(roll.num_sides().iter().all(|n| *n >= 1));
    }
}

#[test]
fn modifiers_accumulate() {
    let roll = parse("2d6+3").unwrap();
    assert_eq!(groups_of(&roll), vec![(2, 6)]);
    assert_eq!(roll.get_modifier(), 3);
    assert_eq!(parse("2d6 - 1 + 4").unwrap().get_modifier(), 3);
    assert_eq!(parse("-3").unwrap().get_modifier(), -3);
    assert_eq!(parse("5").unwrap().get_modifier(), 5);
    assert_eq!(parse("+5-7").unwrap().get_modifier(), -2);
    assert!(groups_of(&parse("5").unwrap()).is_empty());
}

#[test]
fn full_expression() {
    let roll = parse("/roll 2d6 + 1D4 - 3 + 10d10+1").unwrap();
    assert_eq!(groups_of(&roll), vec![(2, 6), (1, 4), (10, 10)]);
    assert_eq!(roll.get_modifier(), -2);
}

#[test]
fn sign_before_a_dice_group_changes_nothing() {
    assert_eq!(parse("-1d4").unwrap(), parse("1d4").unwrap());
    assert_eq!(parse("+1d4").unwrap(), parse("1d4").unwrap());
}

#[test]
fn leading_zeros_are_read_as_decimal() {
    let roll = parse("007d020+0009").unwrap();
    assert_eq!(groups_of(&roll), vec![(7, 20)]);
    assert_eq!(roll.get_modifier(), 9);
}

#[test]
fn empty_text_is_an_error() {
    assert_eq!(parse(""), Err(ParseError::Empty));
    assert_eq!(parse("   "), Err(ParseError::Empty));
    assert_eq!(parse("/roll"), Err(ParseError::Empty));
    assert_eq!(parse(" /r  "), Err(ParseError::Empty));
}

#[test]
fn text_without_digits_is_an_error() {
    assert_eq!(parse("abc"), Err(ParseError::NoDigits));
    assert_eq!(parse("+"), Err(ParseError::NoDigits));
    assert_eq!(parse("1d4+"), Err(ParseError::NoDigits));
    assert_eq!(parse("1d4 + d"), Err(ParseError::NoDigits));
    assert_eq!(parse("/rolling"), Err(ParseError::NoDigits));
}

#[test]
fn bad_numbers_are_errors() {
    assert_eq!(parse("d6"), Err(ParseError::InvalidNumber));
    assert_eq!(parse("2x"), Err(ParseError::InvalidNumber));
    assert_eq!(parse("+-3"), Err(ParseError::InvalidNumber));
    assert_eq!(parse("x2d6"), Err(ParseError::InvalidNumber));
    assert_eq!(parse("2d6+1.5"), Err(ParseError::InvalidNumber));
    assert_eq!(parse("٣"), Err(ParseError::NoDigits));
}

#[test]
fn bad_sides_are_errors() {
    assert_eq!(parse("2d"), Err(ParseError::InvalidSides));
    assert_eq!(parse("2dx"), Err(ParseError::InvalidSides));
    assert_eq!(parse("2d6x"), Err(ParseError::InvalidSides));
    assert_eq!(parse("1d2d3"), Err(ParseError::InvalidSides));
    assert_eq!(parse("2d+6"), Err(ParseError::InvalidSides));
}

#[test]
fn empty_groups_are_errors() {
    assert_eq!(parse("0d6"), Err(ParseError::EmptyGroup));
    assert_eq!(parse("2d0"), Err(ParseError::EmptyGroup));
    assert_eq!(parse("1d6+0d0"), Err(ParseError::EmptyGroup));
}

#[test]
fn numbers_out_of_range_are_errors() {
    assert_eq!(parse("4294967296d6"), Err(ParseError::OutOfRange));
    assert_eq!(parse("2d4294967296"), Err(ParseError::OutOfRange));
    assert_eq!(parse("2147483648"), Err(ParseError::OutOfRange));
    assert_eq!(parse("-2147483649"), Err(ParseError::OutOfRange));
    assert_eq!(parse("2147483647+1"), Err(ParseError::OutOfRange));
    assert_eq!(parse("-2147483648-1"), Err(ParseError::OutOfRange));
    assert_eq!(parse("99999999999999999999999999"), Err(ParseError::OutOfRange));
}

#[test]
fn numbers_at_the_limits_are_read() {
    let roll = parse("4294967295d4294967295").unwrap();
    assert_eq!(groups_of(&roll), vec![(u32::MAX, u32::MAX)]);
    assert_eq!(parse("2147483647").unwrap().get_modifier(), i32::MAX);
    assert_eq!(parse("-2147483648").unwrap().get_modifier(), i32::MIN);
    assert_eq!(parse("-2147483648+2147483647").unwrap().get_modifier(), -1);
}

#[test]
fn first_error_in_reading_order_wins() {
    assert_eq!(parse("2dx+0d6"), Err(ParseError::InvalidSides));
    assert_eq!(parse("0d6+2dx"), Err(ParseError::EmptyGroup));
    assert_eq!(parse("xd"), Err(ParseError::NoDigits));
    assert_eq!(parse("xdy1"), Err(ParseError::InvalidNumber));
}

#[test]
fn items_are_interpreted_one_by_one() {
    let chars = |s: &str| s.chars().collect::<Vec<char>>();
    assert_eq!(interpret(&chars("+ 3 d 2")), Ok(RollItem::Dice { count: 3, sides: 2 }));
    assert_eq!(interpret(&chars("- 3 ")), Ok(RollItem::Modifier { value: -3 }));
    assert_eq!(interpret(&chars("1D29 ")), Ok(RollItem::Dice { count: 1, sides: 29 }));
    assert_eq!(interpret(&chars("")), Err(ParseError::InvalidNumber));
    assert_eq!(interpret(&chars("-")), Err(ParseError::InvalidNumber));
    assert_eq!(interpret(&chars("d")), Err(ParseError::InvalidNumber));
}
