use aamva_parser_rs::text::unescape_line_feeds;
use aamva_parser_rs::{CommandLineArguments, ElementMap, Gender, OutputFormat, ParsedData};

#[test]
fn last_name_comes_from_the_dcs_line() {
    let data = ParsedData::from_raw_data("DCSDOE");
    assert_eq!(data.last_name, "DOE");
}

#[test]
fn date_of_birth_is_read_month_first() {
    let data = ParsedData::from_raw_data("DBB01151990");
    assert_eq!(data.date_of_birth, "1990-01-15");
}

#[test]
fn height_in_inches_gets_two_decimal_places() {
    let data = ParsedData::from_raw_data("DAU071IN");
    assert_eq!(data.height, "71.00");
}

#[test]
fn height_in_centimetres_becomes_inches() {
    let data = ParsedData::from_raw_data("DAU180CM");
    assert_eq!(data.height, "70.87");
}

#[test]
fn gender_two_is_female() {
    let data = ParsedData::from_raw_data("DBC2");
    assert_eq!(data.gender, Gender::FEMALE);
    assert_eq!(data.gender.code(), 2);
}

#[test]
fn date_is_not_held_against_the_calendar() {
    let data = ParsedData::from_raw_data("DBB99999999");
    assert_eq!(data.date_of_birth, "9999-99-99");
}

#[test]
fn last_of_two_lines_with_one_identifier_wins() {
    let data = ParsedData::from_raw_data("DCSSMITH\nDCSJONES");
    assert_eq!(data.last_name, "JONES");
}

#[test]
fn letters_make_an_invalid_date() {
    let data = ParsedData::from_raw_data("DBBabcdefgh");
    assert_eq!(data.date_of_birth, "Invalid Date");
}

#[test]
fn unknown_unit_makes_an_invalid_height() {
    let data = ParsedData::from_raw_data("DAU5FEET");
    assert_eq!(data.height, "Invalid Height");
}

fn assert_empty(data: &ParsedData) {
    assert_eq!(data.vehicle_class, "");
    assert_eq!(data.driving_privileges, "");
    assert_eq!(data.additional_privileges, "");
    assert_eq!(data.expiration_date, "");
    assert_eq!(data.last_name, "");
    assert_eq!(data.first_name, "");
    assert_eq!(data.middle_name, "");
    assert_eq!(data.issue_date, "");
    assert_eq!(data.date_of_birth, "");
    assert_eq!(data.gender, Gender::UNSPECIFIED);
    assert_eq!(data.eye_color, "");
    assert_eq!(data.height, "");
    assert_eq!(data.street, "");
    assert_eq!(data.city, "");
    assert_eq!(data.state, "");
    assert_eq!(data.postal_code, "");
}

#[test]
fn empty_payload_gives_empty_record() {
    assert_empty(&ParsedData::from_raw_data(""));
    assert_eq!(ParsedData::from_raw_data("").gender.code(), 9);
}

#[test]
fn short_lines_are_passed_over() {
    assert_empty(&ParsedData::from_raw_data("D\nDC\n\n\nDA"));
    assert!(ElementMap::from_raw_data("D\nDC\n\n\nDA").get("DC").is_none());
}

#[test]
fn line_of_three_characters_states_an_empty_value() {
    let elements = ElementMap::from_raw_data("DCS");
    assert_eq!(elements.get("DCS").map(|v| v.as_str()), Some(""));
    let data = ParsedData::from_raw_data("DCS\nDBA\nDAU\nDBC");
    assert_eq!(data.last_name, "");
    assert_eq!(data.expiration_date, "Invalid Date");
    assert_eq!(data.height, "Invalid Height");
    assert_eq!(data.gender, Gender::UNSPECIFIED);
}

#[test]
fn whitespace_around_a_value_is_dropped() {
    let data = ParsedData::from_raw_data("DCS  DOE \t\nDAC\u{a0}JOHN\u{2003}\nDAG 12 MAIN ST  ");
    assert_eq!(data.last_name, "DOE");
    assert_eq!(data.first_name, "JOHN");
    assert_eq!(data.street, "12 MAIN ST");
}

#[test]
fn line_endings_may_be_mixed() {
    let data = ParsedData::from_raw_data("DCSDOE\r\nDACJOHN\nDADQ\r\n\r\nDAISPRINGFIELD\r");
    assert_eq!(data.last_name, "DOE");
    assert_eq!(data.first_name, "JOHN");
    assert_eq!(data.middle_name, "Q");
    assert_eq!(data.city, "SPRINGFIELD");
}

#[test]
fn carriage_return_alone_ends_no_line() {
    let elements = ElementMap::from_raw_data("DCSDOE\rDACJOHN");
    assert_eq!(elements.get("DCS").map(|v| v.as_str()), Some("DOE\rDACJOHN"));
    assert!(elements.get("DAC").is_none());
    let elements = ElementMap::from_raw_data("AB\r\nAB\r");
    assert!(elements.get("AB\r").is_some());
}

#[test]
fn every_element_fills_its_field() {
    let raw = "DCAC\nDCBNONE\nDCDNONE\nDBA08142027\nDCSPUBLIC\nDACJANE\nDADQUINCY\n\
               DBD08142019\nDBB07041976\nDBC1\nDAYBRO\nDAU170 CM\nDAG1 ELM ST\nDAIANYTOWN\n\
               DAJCA\nDAK902230000";
    let data = ParsedData::from_raw_data(raw);
    assert_eq!(data.vehicle_class, "C");
    assert_eq!(data.driving_privileges, "NONE");
    assert_eq!(data.additional_privileges, "NONE");
    assert_eq!(data.expiration_date, "2027-08-14");
    assert_eq!(data.last_name, "PUBLIC");
    assert_eq!(data.first_name, "JANE");
    assert_eq!(data.middle_name, "QUINCY");
    assert_eq!(data.issue_date, "2019-08-14");
    assert_eq!(data.date_of_birth, "1976-07-04");
    assert_eq!(data.gender, Gender::MALE);
    assert_eq!(data.gender.code(), 1);
    assert_eq!(data.eye_color, "BRO");
    assert_eq!(data.height, "66.93");
    assert_eq!(data.street, "1 ELM ST");
    assert_eq!(data.city, "ANYTOWN");
    assert_eq!(data.state, "CA");
    assert_eq!(data.postal_code, "902230000");
}

#[test]
fn unused_identifiers_leave_the_record_alone() {
    let plain = ParsedData::from_raw_data("DCSDOE\nDBC1");
    let noisy = ParsedData::from_raw_data("ZZZ1\nDCSDOE\nDCFABC123\n@\nANSI 636000\nDBC1\nDCGUSA");
    assert_eq!(plain.last_name, noisy.last_name);
    assert_eq!(plain.gender, noisy.gender);
    assert_eq!(noisy.vehicle_class, "");
    assert_eq!(noisy.height, "");
}

#[test]
fn order_of_lines_does_not_matter() {
    let one = ParsedData::from_raw_data("DCSDOE\nDACJOHN\nDAU071IN\nDBB01151990");
    let other = ParsedData::from_raw_data("DBB01151990\nDAU071IN\nDCSDOE\nDACJOHN");
    assert_eq!(one.last_name, other.last_name);
    assert_eq!(one.first_name, other.first_name);
    assert_eq!(one.height, other.height);
    assert_eq!(one.date_of_birth, other.date_of_birth);
    assert_eq!(other.date_of_birth, "1990-01-15");
}

#[test]
fn decoding_twice_gives_the_same() {
    let raw = "DCSDOE\nDBC2\nDAU180CM\nDBA1231203";
    let one = ParsedData::from_raw_data(raw);
    let other = ParsedData::from_raw_data(raw);
    assert_eq!(one.last_name, other.last_name);
    assert_eq!(one.gender, other.gender);
    assert_eq!(one.height, other.height);
    assert_eq!(one.expiration_date, other.expiration_date);
    let first = ElementMap::from_raw_data(raw);
    let second = ElementMap::from_raw_data(raw);
    for id in ["DCS", "DBC", "DAU", "DBA", "DAC"] {
        assert_eq!(first.get(id), second.get(id));
    }
}

#[test]
fn record_is_made_from_elements() {
    let mut elements = ElementMap::new();
    elements.insert("DCS".to_string(), "DOE".to_string());
    elements.insert("DBC".to_string(), "1".to_string());
    elements.insert("DCS".to_string(), "ROE".to_string());
    elements.insert("DAU".to_string(), "72 IN".to_string());
    let data = ParsedData::from_elements(&elements);
    assert_eq!(data.last_name, "ROE");
    assert_eq!(data.gender, Gender::MALE);
    assert_eq!(data.height, "72.00");
    assert_eq!(data.first_name, "");
}

#[test]
fn identifier_is_counted_in_characters() {
    let elements = ElementMap::from_raw_data("\u{e9}\u{e9}\u{e9}value\n\u{20ac}1\n\u{20ac}\u{20ac}");
    assert_eq!(elements.get("\u{e9}\u{e9}\u{e9}").map(|v| v.as_str()), Some("value"));
    assert!(elements.get("\u{20ac}1").is_none());
    assert!(elements.get("\u{20ac}\u{20ac}").is_none());
}

fn is_digits(s: &str) -> bool {
    !s.is_empty() && s.chars().all(|c| c.is_ascii_digit())
}

fn is_date_field(s: &str) -> bool {
    let c: Vec<char> = s.chars().collect();
    s.is_empty()
        || s == "Invalid Date"
        || (c.len() == 10
            && c[4] == '-'
            && c[7] == '-'
            && is_digits(&s[0..4])
            && is_digits(&s[5..7])
            && is_digits(&s[8..10]))
}

fn is_height_field(s: &str) -> bool {
    let body = s.strip_prefix('-').unwrap_or(s);
    s.is_empty()
        || s == "Invalid Height"
        || (body.len() >= 4
            && body.is_ascii()
            && is_digits(&body[..body.len() - 3])
            && &body[body.len() - 3..body.len() - 2] == "."
            && is_digits(&body[body.len() - 2..]))
}

fn payloads() -> Vec<String> {
    let mut all = vec![
        String::new(),
        "\n".to_string(),
        "\r\n\r\n".to_string(),
        "DBA\nDBD \nDBB\t\nDAU\nDBC".to_string(),
        "DBA01012030\nDBD1301202\nDBB+1+2+003\nDAU 5.5 IN \nDCS  X  ".to_string(),
        "DAU-0.004CM\nDBA99999999\nDCA\u{3000}C\u{3000}".to_string(),
        "DAU123456789012345678901234567890.555CM\nDBB\u{663}\u{663}\u{663}\u{663}\u{663}\u{663}\u{663}\u{663}".to_string(),
        "ab\u{20ac}\n\u{20ac}\u{20ac}\u{20ac}\u{20ac}\n\u{0}\u{0}\u{0}\u{0}\nDCS\u{1f600}".to_string(),
        "@\n\u{1e}\rANSI 636000090002DL00410278ZV03190008DLDAQT64235789\nDCSSAMPLE\nDDEN".to_string(),
    ];
    all.push(format!("DCS{}", "x".repeat(100_000)));
    all.push("DCSDOE\n".repeat(10_000));
    all
}

#[test]
fn every_payload_is_decoded() {
    for raw in payloads() {
        let data = ParsedData::from_raw_data(&raw);
        assert!([1, 2, 9].contains(&data.gender.code()));
    }
}

#[test]
fn fields_have_their_forms() {
    for raw in payloads() {
        let data = ParsedData::from_raw_data(&raw);
        for date in [&data.expiration_date, &data.issue_date, &data.date_of_birth] {
            assert!(is_date_field(date), "{:?}", date);
        }
        assert!(is_height_field(&data.height), "{:?}", data.height);
        for text in [&data.vehicle_class, &data.driving_privileges, &data.additional_privileges,
            &data.last_name, &data.first_name, &data.middle_name, &data.eye_color, &data.street,
            &data.city, &data.state, &data.postal_code]
        {
            assert_eq!(text.trim(), text.as_str());
        }
    }
}

#[test]
fn lines_are_what_the_standard_library_splits() {
    for raw in payloads() {
        let elements = ElementMap::from_raw_data(&raw);
        let mut expected = std::collections::HashMap::new();
        for line in raw.lines() {
            let chars: Vec<char> = line.chars().collect();
            if chars.len() >= 3 {
                let id: String = chars[..3].iter().collect();
                let rest: String = chars[3..].iter().collect();
                expected.insert(id, rest.trim().to_string());
            }
        }
        for (id, value) in &expected {
            assert_eq!(elements.get(id), Some(value), "{:?}", id);
        }
        for id in ["DCS", "DBA", "DAU", "ZZZ", "ab\u{20ac}", "\u{0}\u{0}\u{0}"] {
            assert_eq!(elements.get(id), expected.get(id), "{:?}", id);
        }
    }
}

#[test]
fn arguments_name_a_file_and_a_format() {
    let arguments =
        CommandLineArguments { file: Some("card.txt".to_string()), format: OutputFormat::Yaml };
    assert_eq!(arguments.file.as_deref(), Some("card.txt"));
    assert_eq!(arguments.format, OutputFormat::Yaml);
    assert_ne!(arguments.format, OutputFormat::Json);
    let other = arguments.clone();
    assert_eq!(other.file, arguments.file);
}

#[test]
fn written_out_line_feeds_are_put_back() {
    assert_eq!(unescape_line_feeds("DCSDOE\\nDACJOHN"), "DCSDOE\nDACJOHN");
    for raw in ["", "\\", "n", "\\n", "\\\\n", "\\n\\n", "a\\nb\\", "\\N", "\\ n", "\n\\n\n",
        "\\\\\\nn\\", "\u{e9}\\n\u{20ac}", "\\r\\n\\t"]
    {
        assert_eq!(unescape_line_feeds(raw), raw.replace("\\n", "\n"), "{:?}", raw);
    }
    let data = ParsedData::from_raw_data(&unescape_line_feeds("DCSDOE\\nDBC1\\nDAU071IN"));
    assert_eq!(data.last_name, "DOE");
    assert_eq!(data.gender, Gender::MALE);
    assert_eq!(data.height, "71.00");
}
