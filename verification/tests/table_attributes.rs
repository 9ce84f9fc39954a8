use html_table::{HTMLTableElement, HTMLTableElementLayoutHelpers, PlainAttribute, TableAttr};

#[test]
fn local_names_map_to_table_attributes() {
    assert_eq!(TableAttr::from_local_name("border"), TableAttr::Border);
    assert_eq!(TableAttr::from_local_name("cellpadding"), TableAttr::CellPadding);
    assert_eq!(TableAttr::from_local_name("cellspacing"), TableAttr::CellSpacing);
    assert_eq!(TableAttr::from_local_name("width"), TableAttr::Width);
    assert_eq!(TableAttr::from_local_name("bgcolor"), TableAttr::BgColor);
    assert_eq!(TableAttr::from_local_name("Border"), TableAttr::Other);
    assert_eq!(TableAttr::from_local_name("summary"), TableAttr::Other);
}

#[test]
fn border_parses_and_invalid_values_mean_one_pixel() {
    let mut t = HTMLTableElement::new();
    t.attribute_mutated(TableAttr::Border, Some("5"));
    assert_eq!(t.get_border(), Some(5));
    t.attribute_mutated(TableAttr::Border, Some("  \t12px"));
    assert_eq!(t.get_border(), Some(12));
    t.attribute_mutated(TableAttr::Border, Some("+3"));
    assert_eq!(t.get_border(), Some(3));
    t.attribute_mutated(TableAttr::Border, Some("abc"));
    assert_eq!(t.get_border(), Some(1));
    t.attribute_mutated(TableAttr::Border, Some(""));
    assert_eq!(t.get_border(), Some(1));
    t.attribute_mutated(TableAttr::Border, Some("-4"));
    assert_eq!(t.get_border(), Some(1));
    t.attribute_mutated(TableAttr::Border, Some("99999999999"));
    assert_eq!(t.get_border(), Some(1));
    t.attribute_mutated(TableAttr::Border, None);
    assert_eq!(t.get_border(), None);
}

#[test]
fn border_skips_only_html_spaces() {
    let mut t = HTMLTableElement::new();
    t.attribute_mutated(TableAttr::Border, Some("\u{c}\r\n 7"));
    assert_eq!(t.get_border(), Some(7));
    t.attribute_mutated(TableAttr::Border, Some("\u{b}7"));
    assert_eq!(t.get_border(), Some(1));
    t.attribute_mutated(TableAttr::Border, Some("+-7"));
    assert_eq!(t.get_border(), Some(1));
    t.attribute_mutated(TableAttr::Border, Some("4294967295"));
    assert_eq!(t.get_border(), Some(4294967295));
    t.attribute_mutated(TableAttr::Border, Some("4294967296"));
    assert_eq!(t.get_border(), Some(1));
    t.attribute_mutated(TableAttr::Border, Some("007.5"));
    assert_eq!(t.get_border(), Some(7));
}

#[test]
fn cell_spacing_and_padding_drop_invalid_values() {
    let mut t = HTMLTableElement::new();
    t.attribute_mutated(TableAttr::CellPadding, Some("7"));
    t.attribute_mutated(TableAttr::CellSpacing, Some("0"));
    assert_eq!(t.get_cellpadding(), Some(7));
    assert_eq!(t.get_cellspacing(), Some(0));
    t.attribute_mutated(TableAttr::CellPadding, Some("x7"));
    assert_eq!(t.get_cellpadding(), None);
    t.attribute_mutated(TableAttr::CellSpacing, Some("-0"));
    assert_eq!(t.get_cellspacing(), Some(0));
    t.attribute_mutated(TableAttr::CellSpacing, None);
    assert_eq!(t.get_cellspacing(), None);
    assert_eq!(t.get_border(), None);
}

#[test]
fn other_attributes_change_nothing() {
    let mut t = HTMLTableElement::new();
    t.attribute_mutated(TableAttr::Border, Some("2"));
    t.attribute_mutated(TableAttr::Width, Some("40"));
    t.attribute_mutated(TableAttr::Other, Some("40"));
    assert_eq!(t.get_border(), Some(2));
    assert_eq!(t.get_cellpadding(), None);
    assert_eq!(t.get_cellspacing(), None);
    assert_eq!(t.width(), "40");
    assert_eq!(t.bg_color(), "");
}

#[test]
fn parsed_values_apply_as_given() {
    let mut t = HTMLTableElement::new();
    t.apply_parsed_attribute(TableAttr::Border, Some(Err(())));
    assert_eq!(t.get_border(), Some(1));
    t.apply_parsed_attribute(TableAttr::Border, Some(Ok(9)));
    assert_eq!(t.get_border(), Some(9));
    t.apply_parsed_attribute(TableAttr::CellPadding, Some(Err(())));
    assert_eq!(t.get_cellpadding(), None);
    t.apply_parsed_attribute(TableAttr::CellPadding, Some(Ok(4)));
    assert_eq!(t.get_cellpadding(), Some(4));
    t.apply_parsed_attribute(TableAttr::CellPadding, None);
    assert_eq!(t.get_cellpadding(), None);
}

#[test]
fn layout_helpers_read_the_recorded_values() {
    let mut t = HTMLTableElement::new();
    t.attribute_mutated(TableAttr::Border, Some("3"));
    t.attribute_mutated(TableAttr::CellPadding, Some("4"));
    t.attribute_mutated(TableAttr::CellSpacing, Some("5"));
    assert_eq!(HTMLTableElementLayoutHelpers::get_border(&t), Some(3));
    assert_eq!(HTMLTableElementLayoutHelpers::get_cellpadding(&t), Some(4));
    assert_eq!(HTMLTableElementLayoutHelpers::get_cellspacing(&t), Some(5));
}

#[test]
fn reflected_unsigned_values_fall_back_to_the_default() {
    assert_eq!(html_table::attr::reflect_unsigned(Ok(8), 1), 8);
    assert_eq!(html_table::attr::reflect_unsigned(Err(()), 1), 1);
    assert_eq!(html_table::attr::reflect_unsigned(Ok(2147483647), 1), 2147483647);
    assert_eq!(html_table::attr::reflect_unsigned(Ok(2147483648), 6), 6);
}

#[test]
fn plain_attributes_pick_their_parser() {
    let t = HTMLTableElement::new();
    match t.parse_plain_attribute(TableAttr::Border, "10".to_string()) {
        PlainAttribute::UInt(s, n) => {
            assert_eq!(s, "10");
            assert_eq!(n, 10);
        },
        _ => panic!("border is an unsigned integer"),
    }
    match t.parse_plain_attribute(TableAttr::Border, "wide".to_string()) {
        PlainAttribute::UInt(_, n) => assert_eq!(n, 1),
        _ => panic!("border is an unsigned integer"),
    }
    match t.parse_plain_attribute(TableAttr::Border, "4294967295".to_string()) {
        PlainAttribute::UInt(_, n) => assert_eq!(n, 1),
        _ => panic!("border is an unsigned integer"),
    }
    assert!(matches!(
        t.parse_plain_attribute(TableAttr::Width, "50%".to_string()),
        PlainAttribute::NonzeroDimension(s) if s == "50%"
    ));
    assert!(matches!(
        t.parse_plain_attribute(TableAttr::BgColor, "red".to_string()),
        PlainAttribute::LegacyColor(s) if s == "red"
    ));
    assert!(matches!(
        t.parse_plain_attribute(TableAttr::CellPadding, "3".to_string()),
        PlainAttribute::Inherited(s) if s == "3"
    ));
}

#[test]
fn border_reflects_the_last_border_value_set() {
    let mut t = HTMLTableElement::new();
    t.attribute_mutated(TableAttr::Border, Some("4"));
    t.attribute_mutated(TableAttr::CellPadding, Some("2"));
    t.attribute_mutated(TableAttr::Border, Some("junk"));
    t.attribute_mutated(TableAttr::Width, Some("10"));
    t.attribute_mutated(TableAttr::Border, Some("8"));
    t.attribute_mutated(TableAttr::Other, Some("1"));
    assert_eq!(t.get_border(), Some(8));
    assert_eq!(t.get_cellpadding(), Some(2));
    t.attribute_mutated(TableAttr::Border, None);
    t.attribute_mutated(TableAttr::CellSpacing, Some("6"));
    assert_eq!(t.get_border(), None);
    assert_eq!(t.get_cellspacing(), Some(6));
}

#[test]
fn bg_color_reflects_the_bgcolor_text() {
    let mut t = HTMLTableElement::new();
    assert_eq!(t.bg_color(), "");
    assert_eq!(t.attribute_text(TableAttr::BgColor), None);
    t.set_bg_color("#ff0000".to_string());
    assert_eq!(t.bg_color(), "#ff0000");
    assert_eq!(t.attribute_text(TableAttr::BgColor), Some("#ff0000".to_string()));
    t.set_bg_color("not a colour".to_string());
    assert_eq!(t.bg_color(), "not a colour");
    t.attribute_mutated(TableAttr::BgColor, Some("blue"));
    assert_eq!(t.bg_color(), "blue");
    t.attribute_mutated(TableAttr::BgColor, None);
    assert_eq!(t.bg_color(), "");
    assert_eq!(t.get_border(), None);
}

#[test]
fn width_reflects_the_width_text() {
    let mut t = HTMLTableElement::new();
    assert_eq!(t.width(), "");
    t.set_width("50%".to_string());
    assert_eq!(t.width(), "50%");
    assert_eq!(t.attribute_text(TableAttr::Width), Some("50%".to_string()));
    assert_eq!(t.attribute_text(TableAttr::Border), None);
    t.set_width("0".to_string());
    assert_eq!(t.width(), "0");
    t.attribute_mutated(TableAttr::Width, None);
    assert_eq!(t.width(), "");
    assert_eq!(t.bg_color(), "");
}
