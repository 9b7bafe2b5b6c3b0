use flight_globe::flight::{
    decode_flight, get_flights_from_js, holds_number, read_landed, FieldError, FlightInfo,
};

fn record(uuid: &str, longitude: &str, latitude: &str, landed: bool) -> FlightInfo {
    FlightInfo {
        uuid: uuid.to_string(),
        latitude: latitude.to_string(),
        longitude: longitude.to_string(),
        landed,
    }
}

#[test]
fn line_of_four_fields_is_a_record() {
    let flight = get_flights_from_js("abc;0.5;0.25;true").unwrap();
    assert_eq!(flight.uuid, "abc");
    assert_eq!(flight.longitude, "0.5");
    assert_eq!(flight.latitude, "0.25");
    assert!(flight.landed);
    assert_eq!(flight.longitude.parse::<f32>().unwrap(), 0.5);
    assert_eq!(flight.latitude.parse::<f32>().unwrap(), 0.25);
}

#[test]
fn longitude_is_the_second_field_and_latitude_the_third() {
    let flight = get_flights_from_js("p;0.125;0.75;false").unwrap();
    assert_eq!(flight, record("p", "0.125", "0.75", false));
}

#[test]
fn fewer_than_four_fields_is_no_record() {
    assert_eq!(get_flights_from_js(""), None);
    assert_eq!(get_flights_from_js("abc"), None);
    assert_eq!(get_flights_from_js("abc;0.5"), None);
    assert_eq!(get_flights_from_js("abc;0.5;0.25"), None);
    assert_eq!(get_flights_from_js(";;"), None);
}

#[test]
fn more_than_four_fields_is_no_record() {
    assert_eq!(get_flights_from_js("abc;0.5;0.25;true;"), None);
    assert_eq!(get_flights_from_js("abc;0.5;0.25;true;extra"), None);
    assert_eq!(get_flights_from_js(";;;;"), None);
}

#[test]
fn short_line_is_no_error_whatever_it_holds() {
    assert_eq!(decode_flight("abc;north;maybe"), Ok(None));
    assert_eq!(decode_flight("a;b;c;d;e"), Ok(None));
}

#[test]
fn decoding_agrees_with_the_checked_form() {
    assert_eq!(
        decode_flight("abc;0.5;0.25;true"),
        Ok(Some(record("abc", "0.5", "0.25", true)))
    );
    assert_eq!(
        decode_flight("abc;0.5;0.25;true"),
        Ok(get_flights_from_js("abc;0.5;0.25;true"))
    );
}

#[test]
fn identifier_may_be_empty_or_any_text() {
    assert_eq!(
        decode_flight(";1;2;false"),
        Ok(Some(record("", "1", "2", false)))
    );
    assert_eq!(
        decode_flight("vol \u{e9}t\u{e9} \u{2708};-1e3;.5;true"),
        Ok(Some(record("vol \u{e9}t\u{e9} \u{2708}", "-1e3", ".5", true)))
    );
}

#[test]
fn bad_longitude_is_named() {
    assert_eq!(decode_flight("abc;east;0.25;true"), Err(FieldError::Longitude));
    assert_eq!(decode_flight("abc;;0.25;true"), Err(FieldError::Longitude));
    assert_eq!(decode_flight("abc; 0.5;0.25;true"), Err(FieldError::Longitude));
}

#[test]
fn bad_latitude_is_named() {
    assert_eq!(decode_flight("abc;0.5;north;true"), Err(FieldError::Latitude));
    assert_eq!(decode_flight("abc;0.5;0,25;true"), Err(FieldError::Latitude));
}

#[test]
fn bad_flag_is_named() {
    assert_eq!(decode_flight("abc;0.5;0.25;yes"), Err(FieldError::Landed));
    assert_eq!(decode_flight("abc;0.5;0.25;True"), Err(FieldError::Landed));
    assert_eq!(decode_flight("abc;0.5;0.25;"), Err(FieldError::Landed));
    assert_eq!(decode_flight("abc;0.5;0.25;true "), Err(FieldError::Landed));
}

#[test]
fn first_bad_field_wins() {
    assert_eq!(decode_flight("abc;x;y;z"), Err(FieldError::Longitude));
    assert_eq!(decode_flight("abc;1;y;z"), Err(FieldError::Latitude));
    assert_eq!(decode_flight("abc;1;2;z"), Err(FieldError::Landed));
}

#[test]
fn special_names_are_numbers() {
    let flight = get_flights_from_js("abc;inf;-NaN;false").unwrap();
    assert!(flight.longitude.parse::<f32>().unwrap().is_infinite());
    assert!(flight.latitude.parse::<f32>().unwrap().is_nan());
}

#[test]
fn numbers_chosen_by_hand() {
    for text in [
        "0", "7", "0.5", "5.", ".5", "+1", "-1", "1e5", "1E5", "1e+5", "1e-5", "1.5e-3",
        "+.5e1", "007", "inf", "INF", "iNf", "+inf", "-inf", "infinity", "Infinity",
        "-INFINITY", "nan", "NaN", "+nan", "-NAN", "123456789012345678901234567890",
        "1e999", "0.000000000000000000000000000000000000000000000000001",
    ] {
        assert!(holds_number(text), "{:?}", text);
        assert!(text.parse::<f32>().is_ok(), "{:?}", text);
    }
    for text in [
        "", "+", "-", ".", "+.", "e5", ".e5", "1e", "1e+", "1e-", "1.2.3", "..", "1..",
        " 1", "1 ", "1_000", "0x10", "1f", "infinit", "infinityy", "in", "na", "nann",
        "++1", "+-1", "1e5.0", "1e5e5", "\u{661}", "1\u{661}", "i\u{6e}\u{301}f", "tru",
    ] {
        assert!(!holds_number(text), "{:?}", text);
        assert!(text.parse::<f32>().is_err(), "{:?}", text);
    }
}

fn agree_on_all_texts(alphabet: &[char], longest: usize) {
    let mut texts: Vec<String> = vec![String::new()];
    let mut from: usize = 0;
    for _ in 0..longest {
        let upto = texts.len();
        for i in from..upto {
            for c in alphabet {
                let mut next = texts[i].clone();
                next.push(*c);
                texts.push(next);
            }
        }
        from = upto;
    }
    for text in &texts {
        assert_eq!(holds_number(text), text.parse::<f32>().is_ok(), "{:?}", text);
    }
}

#[test]
fn decimals_are_what_the_machine_reads() {
    agree_on_all_texts(&['0', '7', '.', 'e', 'E', '+', '-', ' '], 6);
}

#[test]
fn special_names_are_what_the_machine_reads() {
    agree_on_all_texts(&['i', 'n', 'f', 'a', 'N', 'I', '-', '1'], 5);
    for word in ["infinity", "nan", "inf"] {
        for mask in 0u32..(1 << word.len()) {
            let mixed: String = word
                .chars()
                .enumerate()
                .map(|(i, c)| if mask & (1 << i) != 0 { c.to_ascii_uppercase() } else { c })
                .collect();
            for sign in ["", "+", "-"] {
                let text = format!("{}{}", sign, mixed);
                assert!(holds_number(&text), "{:?}", text);
                assert!(text.parse::<f32>().is_ok(), "{:?}", text);
            }
        }
    }
}

#[test]
fn flag_is_true_or_false_and_nothing_else() {
    assert_eq!(read_landed("true"), Some(true));
    assert_eq!(read_landed("false"), Some(false));
    for text in ["", "True", "FALSE", "1", "0", "yes", " true", "false ", "truee", "fals"] {
        assert_eq!(read_landed(text), None, "{:?}", text);
        assert_eq!(read_landed(text), text.parse::<bool>().ok(), "{:?}", text);
    }
    assert_eq!(read_landed("true"), "true".parse::<bool>().ok());
    assert_eq!(read_landed("false"), "false".parse::<bool>().ok());
}

#[test]
fn fields_are_cut_as_the_machine_cuts_them() {
    for line in ["a;1;2;true", ";1;2;false", "a;b;1;2;true", "a;1;2", "uuid-9;0.5;0.25;false"] {
        let pieces: Vec<&str> = line.split(';').collect();
        match decode_flight(line) {
            Ok(Some(flight)) => {
                assert_eq!(pieces.len(), 4);
                assert_eq!(flight.uuid, pieces[0]);
                assert_eq!(flight.longitude, pieces[1]);
                assert_eq!(flight.latitude, pieces[2]);
                assert_eq!(flight.landed, pieces[3].parse::<bool>().unwrap());
            }
            Ok(None) => assert_ne!(pieces.len(), 4),
            Err(_) => panic!("{:?}", line),
        }
    }
}
