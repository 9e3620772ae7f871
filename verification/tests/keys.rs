use province_map::color::Color;
use province_map::key::{parse_component, parse_key_to_color, space, split_at_commas, KeyError};
use province_map::table::{deserialize_colors_to_tags, IdentifierTable};

fn chars(text: &str) -> Vec<char> {
    text.chars().collect()
}

fn entry(key: &str, tag: &str) -> (String, String) {
    (String::from(key), String::from(tag))
}

#[test]
fn plain_key_is_read() {
    assert_eq!(parse_key_to_color("255,0,0").unwrap(), [255, 0, 0]);
    assert_eq!(parse_key_to_color("0,128,255").unwrap(), [0, 128, 255]);
}

#[test]
fn white_space_and_plus_and_zeros_are_allowed() {
    assert_eq!(parse_key_to_color(" 1 , +2,003").unwrap(), [1, 2, 3]);
    assert_eq!(parse_key_to_color("\t10,\u{a0}20\u{3000},30\n").unwrap(), [10, 20, 30]);
    assert_eq!(parse_key_to_color("000000255,+0,00").unwrap(), [255, 0, 0]);
}

#[test]
fn wrong_number_of_components_is_a_shape_error() {
    for key in ["1,2", "1,2,3,4", "", "12", ",", ",,,"] {
        match parse_key_to_color(key) {
            Err(KeyError::Shape(text)) => assert_eq!(text, key),
            other => panic!("{:?}", other),
        }
    }
}

#[test]
fn bad_component_is_a_component_error() {
    for key in ["256,0,0", "a,b,c", "1,,3", "-1,0,0", "1,2,3 4", "1,+,3", "1,2,+ 3", "1,2,0x3",
        "1.0,2,3", ",,", "1,2,999999999999999999999", "1_0,2,3", "++1,2,3"] {
        match parse_key_to_color(key) {
            Err(KeyError::Component(text)) => assert_eq!(text, key),
            other => panic!("{:?}", other),
        }
    }
}

#[test]
fn message_names_the_key() {
    assert_eq!(parse_key_to_color("1,2").unwrap_err().message(), "invalid colour key: 1,2");
    assert_eq!(
        parse_key_to_color("1,2,x").unwrap_err().message(),
        "invalid component in colour key: 1,2,x"
    );
}

#[test]
fn text_is_cut_at_every_comma() {
    assert_eq!(split_at_commas("a,b"), vec![chars("a"), chars("b")]);
    assert_eq!(split_at_commas(""), vec![chars("")]);
    assert_eq!(split_at_commas(",x,"), vec![chars(""), chars("x"), chars("")]);
    assert_eq!(split_at_commas("no comma"), vec![chars("no comma")]);
}

#[test]
fn component_is_a_byte() {
    assert_eq!(parse_component(&chars("0")), Some(0));
    assert_eq!(parse_component(&chars("255")), Some(255));
    assert_eq!(parse_component(&chars("  +42 ")), Some(42));
    assert_eq!(parse_component(&chars("256")), None);
    assert_eq!(parse_component(&chars("")), None);
    assert_eq!(parse_component(&chars("   ")), None);
    assert_eq!(parse_component(&chars("+")), None);
    assert_eq!(parse_component(&chars("1 2")), None);
    assert_eq!(parse_component(&chars("\u{661}")), None);
}

#[test]
fn white_space_is_what_the_standard_library_says() {
    for code in 0u32..0x3100 {
        if let Some(c) = char::from_u32(code) {
            assert_eq!(space(c), c.is_whitespace());
        }
    }
}

#[test]
fn components_agree_with_the_standard_parser() {
    for text in ["7", "+7", "007", "255", "256", "-0", "+", "", "12a", "٣"] {
        assert_eq!(parse_component(&chars(text)), text.parse::<u8>().ok());
    }
}

#[test]
fn table_is_built_from_entries() {
    let raw = vec![entry("255,0,0", "FRA"), entry(" 0, 0 ,255", "GER")];
    let table = deserialize_colors_to_tags(&raw).unwrap();
    assert_eq!(table.get(Color { r: 255, g: 0, b: 0 }), Some(&String::from("FRA")));
    assert_eq!(table.get(Color { r: 0, g: 0, b: 255 }), Some(&String::from("GER")));
    assert_eq!(table.get(Color { r: 0, g: 255, b: 0 }), None);
}

#[test]
fn later_entry_for_a_color_counts() {
    let raw = vec![entry("1,2,3", "OLD"), entry("9,9,8", "X"), entry("01,+2, 3", "NEW")];
    let table = deserialize_colors_to_tags(&raw).unwrap();
    assert_eq!(table.get(Color { r: 1, g: 2, b: 3 }), Some(&String::from("NEW")));
    assert_eq!(table.get(Color { r: 9, g: 9, b: 8 }), Some(&String::from("X")));
}

#[test]
fn first_bad_key_is_refused() {
    let raw = vec![entry("1,2,3", "A"), entry("1;2;3", "B"), entry("300,0,0", "C")];
    match deserialize_colors_to_tags(&raw) {
        Err(KeyError::Shape(text)) => assert_eq!(text, "1;2;3"),
        Err(other) => panic!("{:?}", other),
        Ok(_) => panic!("a table was built"),
    }
    let raw = vec![entry("300,0,0", "C"), entry("1;2;3", "B")];
    match deserialize_colors_to_tags(&raw) {
        Err(KeyError::Component(text)) => assert_eq!(text, "300,0,0"),
        Err(other) => panic!("{:?}", other),
        Ok(_) => panic!("a table was built"),
    }
}

#[test]
fn colors_that_differ_in_one_channel_have_their_own_entries() {
    let mut table = IdentifierTable::new();
    table.insert(Color { r: 1, g: 0, b: 0 }, String::from("R"));
    table.insert(Color { r: 0, g: 1, b: 0 }, String::from("G"));
    table.insert(Color { r: 0, g: 0, b: 1 }, String::from("B"));
    table.insert(Color { r: 0, g: 1, b: 0 }, String::from("G2"));
    assert_eq!(table.get(Color { r: 1, g: 0, b: 0 }), Some(&String::from("R")));
    assert_eq!(table.get(Color { r: 0, g: 1, b: 0 }), Some(&String::from("G2")));
    assert_eq!(table.get(Color { r: 0, g: 0, b: 1 }), Some(&String::from("B")));
    assert_eq!(table.get(Color { r: 0, g: 0, b: 0 }), None);
    assert_eq!(table.get(Color { r: 0, g: 0, b: 255 }), None);
}
