use pixel_sort::color::{Attribute, Fraction};
use pixel_sort::grid::SortDirection;
use pixel_sort::settings::{
    attribute_of, bool_of, direction_of, parse_settings, setting_values, unit_fraction_of, SettingsError,
};

const DEFAULT_TEXT: &str = "input //The path where film/image(s) are, as well as where the program will output the result\nleft //The sort direction (Possible values:left,right,down,up)\nred //What value to sort by (Possible values:red,green,blue,hue,saturation,value)\n0.5 //The lower bound of values (Range: 0.0-1.0) (Anything more than this will get sorted)\n1.0 //The upper bound of values (Range: 0.0-1.0) (Anything less than this will get sorted)\nred //What value should be used to create the contrast map (Possible values:red,green,blue,hue,saturation,value)\nfalse //Should the program print debug messages and create debug images? (Either true or false)";

fn settings_text(values: [&str; 7]) -> String {
    values.join("\n")
}

fn fraction(word: &str) -> Option<Fraction> {
    unit_fraction_of(&word.as_bytes().to_vec())
}

fn same_value(f: Fraction, num: u64, den: u64) -> bool {
    f.num as u64 * den == num * f.den as u64
}

#[test]
fn default_settings_are_read() {
    let s = parse_settings(DEFAULT_TEXT).unwrap();
    assert_eq!(s.input_path, b"input".to_vec());
    assert_eq!(s.sort.direction, SortDirection::Left);
    assert_eq!(s.sort.sort_by, Attribute::Red);
    assert_eq!(s.sort.contrast_type, Attribute::Red);
    assert_eq!(s.sort.lower, Fraction { num: 5, den: 10 });
    assert_eq!(s.sort.upper, Fraction { num: 10, den: 10 });
    assert!(!s.debug);
}

#[test]
fn values_are_trimmed_and_lower_cased() {
    let text = settings_text(["  Pics\t// where", "  UP ", "Saturation", " 0.25 ", "+.75", "HUE//x", "TRUE\r"]);
    let s = parse_settings(&text).unwrap();
    assert_eq!(s.input_path, b"pics".to_vec());
    assert_eq!(s.sort.direction, SortDirection::Up);
    assert_eq!(s.sort.sort_by, Attribute::Saturation);
    assert!(same_value(s.sort.lower, 1, 4));
    assert!(same_value(s.sort.upper, 3, 4));
    assert_eq!(s.sort.contrast_type, Attribute::Hue);
    assert!(s.debug);
}

#[test]
fn crlf_and_final_newline_are_accepted() {
    let text = "in\r\nright\r\nblue\r\n0\r\n1\r\nvalue\r\nfalse\r\n";
    let s = parse_settings(text).unwrap();
    assert_eq!(s.sort.direction, SortDirection::Right);
    assert_eq!(s.sort.sort_by, Attribute::Blue);
    assert_eq!(s.sort.contrast_type, Attribute::Value);
}

#[test]
fn wrong_line_count_is_refused() {
    assert_eq!(parse_settings("in\nleft\nred\n0.5\n1.0\nred").err(), Some(SettingsError::LineCount));
    assert_eq!(parse_settings("").err(), Some(SettingsError::LineCount));
    let eight = format!("{}\n\n", settings_text(["in", "left", "red", "0.5", "1.0", "red", "false"]));
    assert_eq!(parse_settings(&eight).err(), Some(SettingsError::LineCount));
}

#[test]
fn each_bad_value_is_named() {
    let good = ["in", "down", "green", "0.1", "0.9", "blue", "true"];
    assert!(parse_settings(&settings_text(good)).is_ok());
    let cases: [(usize, &str, SettingsError); 6] = [
        (1, "sideways", SettingsError::Direction),
        (2, "alpha", SettingsError::SortBy),
        (3, "1.5", SettingsError::LowerBound),
        (4, "abc", SettingsError::UpperBound),
        (5, "purple", SettingsError::ContrastType),
        (6, "maybe", SettingsError::Debug),
    ];
    for (line, value, error) in cases {
        let mut values = good;
        values[line] = value;
        assert_eq!(parse_settings(&settings_text(values)).err(), Some(error));
    }
}

#[test]
fn first_bad_line_wins() {
    let text = settings_text(["in", "nowhere", "nothing", "2", "3", "none", "perhaps"]);
    assert_eq!(parse_settings(&text).err(), Some(SettingsError::Direction));
}

#[test]
fn decimals_are_read_exactly() {
    assert!(same_value(fraction("0.5").unwrap(), 1, 2));
    assert!(same_value(fraction(".5").unwrap(), 1, 2));
    assert!(same_value(fraction("0.").unwrap(), 0, 1));
    assert!(same_value(fraction("1").unwrap(), 1, 1));
    assert!(same_value(fraction("1.000").unwrap(), 1, 1));
    assert!(same_value(fraction("0000.125").unwrap(), 1, 8));
    assert!(same_value(fraction("0.123456789").unwrap(), 123456789, 1000000000));
    assert_eq!(fraction("0.333"), Some(Fraction { num: 333, den: 1000 }));
}

#[test]
fn bad_decimals_are_refused() {
    for word in ["", ".", "+", "1.0001", "2", "10", "0.1234567891", "-0.5", "0.5.1", "1e0", "0,5", "00002"] {
        assert_eq!(fraction(word), None, "{word}");
    }
}

#[test]
fn words_are_read() {
    assert_eq!(direction_of(&b"left".to_vec()), Some(SortDirection::Left));
    assert_eq!(direction_of(&b"right".to_vec()), Some(SortDirection::Right));
    assert_eq!(direction_of(&b"down".to_vec()), Some(SortDirection::Down));
    assert_eq!(direction_of(&b"up".to_vec()), Some(SortDirection::Up));
    assert_eq!(direction_of(&b"Left".to_vec()), None);
    assert_eq!(attribute_of(&b"red".to_vec()), Some(Attribute::Red));
    assert_eq!(attribute_of(&b"green".to_vec()), Some(Attribute::Green));
    assert_eq!(attribute_of(&b"blue".to_vec()), Some(Attribute::Blue));
    assert_eq!(attribute_of(&b"hue".to_vec()), Some(Attribute::Hue));
    assert_eq!(attribute_of(&b"saturation".to_vec()), Some(Attribute::Saturation));
    assert_eq!(attribute_of(&b"value".to_vec()), Some(Attribute::Value));
    assert_eq!(attribute_of(&b"values".to_vec()), None);
    assert_eq!(bool_of(&b"true".to_vec()), Some(true));
    assert_eq!(bool_of(&b"false".to_vec()), Some(false));
    assert_eq!(bool_of(&b"yes".to_vec()), None);
}

#[test]
fn lines_are_split_and_cleaned() {
    let lines = setting_values(b"  A // b\n\nc//\n   \n x y \n");
    let expected: Vec<Vec<u8>> = vec![b"a".to_vec(), vec![], b"c".to_vec(), vec![], b"x y".to_vec()];
    assert_eq!(lines, expected);
    assert_eq!(setting_values(b"one"), vec![b"one".to_vec()]);
    assert_eq!(setting_values(b""), Vec::<Vec<u8>>::new());
    assert_eq!(setting_values(b"/ /a"), vec![b"/ /a".to_vec()]);
}
