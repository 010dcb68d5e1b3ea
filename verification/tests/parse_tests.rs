use anomaly_detector::parse::{
    can_store_header, export_row, get_header_field, normalize_newlines, parse_header, parse_init,
    parse_number, Decimal, DATA_FIELDS_COUNT, MAX_CSV_SIZE,
};

fn header_line(names: &[&str]) -> String {
    let mut s = String::from("TimeStamp");
    for n in names {
        s.push(';');
        s.push_str(n);
    }
    s
}

fn names20() -> Vec<String> {
    (1..=20).map(|i| format!("Sensor{}", i)).collect()
}

fn csv_with_rows(rows: &[&str]) -> Vec<u8> {
    let names = names20();
    let refs: Vec<&str> = names.iter().map(|s| s.as_str()).collect();
    let mut s = header_line(&refs);
    s.push('\n');
    for r in rows {
        s.push_str(r);
        s.push('\n');
    }
    s.into_bytes()
}

fn row_of(ts: &str, values: &[&str]) -> String {
    let mut s = String::from(ts);
    for v in values {
        s.push(';');
        s.push_str(v);
    }
    s
}

fn digits(d: &Decimal) -> (bool, Vec<u8>, Vec<u8>) {
    (d.negative, d.int_digits.clone(), d.frac_digits.clone())
}

#[test]
fn normalize_turns_crlf_into_lf_and_drops_lone_cr() {
    assert_eq!(normalize_newlines(b"a\r\nb\rc\n"), b"a\nbc\n".to_vec());
    assert_eq!(normalize_newlines(b"\r\r\n"), b"\n".to_vec());
    assert_eq!(normalize_newlines(b""), Vec::<u8>::new());
}

#[test]
fn normalizing_twice_changes_nothing() {
    let raw = b"x;y\r\n\r\r\nz\r";
    let once = normalize_newlines(raw);
    let twice = normalize_newlines(&once);
    assert_eq!(once, twice);
    assert!(!once.contains(&b'\r'));
}

#[test]
fn init_refuses_files_of_the_size_limit() {
    let big = vec![b'a'; MAX_CSV_SIZE];
    assert!(parse_init(&big).is_none());
    let almost = vec![b'a'; MAX_CSV_SIZE - 1];
    assert!(parse_init(&almost).is_some());
}

#[test]
fn header_is_read_and_names_are_returned() {
    let data = csv_with_rows(&[]);
    let mut st = parse_init(&data).unwrap();
    assert!(get_header_field(&st, 0).is_none());
    assert!(can_store_header(&st));
    assert!(parse_header(&mut st));
    for i in 0..DATA_FIELDS_COUNT {
        assert_eq!(get_header_field(&st, i).unwrap(), format!("Sensor{}", i + 1).as_bytes());
    }
    assert!(get_header_field(&st, DATA_FIELDS_COUNT).is_none());
    // A second call finds the header read already.
    assert!(parse_header(&mut st));
}

#[test]
fn header_spaces_bom_and_crlf() {
    let names = names20();
    let mut s = String::from("\u{feff}Time");
    for n in &names {
        s.push_str(";   ");
        s.push_str(n);
    }
    s.push_str("\r\n\r\n\r\n");
    s.push_str(&row_of("t0", &["1"; 20]));
    let mut st = parse_init(s.as_bytes()).unwrap();
    assert!(parse_header(&mut st));
    assert_eq!(get_header_field(&st, 0).unwrap(), b"Sensor1");
    // Empty lines after the header are passed over.
    let (ts, vals) = export_row(&mut st).unwrap();
    assert_eq!(ts, b"t0".to_vec());
    assert_eq!(vals.len(), 20);
}

#[test]
fn header_with_too_few_names_is_refused() {
    let names: Vec<String> = (1..=19).map(|i| format!("S{}", i)).collect();
    let refs: Vec<&str> = names.iter().map(|s| s.as_str()).collect();
    let s = header_line(&refs) + "\n";
    let mut st = parse_init(s.as_bytes()).unwrap();
    assert!(!parse_header(&mut st));
    assert!(get_header_field(&st, 0).is_none());
    assert!(export_row(&mut st).is_none());
}

#[test]
fn header_with_an_empty_name_is_refused() {
    let mut names = names20();
    names[4] = "   ".to_string();
    let refs: Vec<&str> = names.iter().map(|s| s.as_str()).collect();
    let s = header_line(&refs) + "\n";
    let mut st = parse_init(s.as_bytes()).unwrap();
    assert!(!parse_header(&mut st));
}

#[test]
fn header_without_a_separator_or_empty_input_is_refused() {
    let mut st = parse_init(b"just one cell\n").unwrap();
    assert!(!parse_header(&mut st));
    let mut empty = parse_init(b"").unwrap();
    assert!(!parse_header(&mut empty));
}

#[test]
fn extra_header_names_are_ignored() {
    let mut names = names20();
    names.push("Extra".to_string());
    let refs: Vec<&str> = names.iter().map(|s| s.as_str()).collect();
    let s = header_line(&refs) + "\n";
    let mut st = parse_init(s.as_bytes()).unwrap();
    assert!(parse_header(&mut st));
    assert_eq!(get_header_field(&st, 19).unwrap(), b"Sensor20");
}

#[test]
fn cp1251_header_is_converted_to_utf8() {
    // "Дат" in CP1251 is C4 E0 F2; the header is not UTF-8, so every name is
    // read as CP1251.
    let mut bytes: Vec<u8> = b"T".to_vec();
    for i in 0..20 {
        bytes.push(b';');
        bytes.extend_from_slice(&[0xC4, 0xE0, 0xF2]);
        bytes.extend_from_slice(format!("{}", i).as_bytes());
    }
    bytes.push(b'\n');
    let mut st = parse_init(&bytes).unwrap();
    assert!(can_store_header(&st));
    assert!(parse_header(&mut st));
    let name = get_header_field(&st, 3).unwrap();
    assert_eq!(std::str::from_utf8(name).unwrap(), "Дат3");
}

#[test]
fn long_cp1251_name_that_overruns_cannot_be_stored() {
    let mut bytes: Vec<u8> = b"T".to_vec();
    for i in 0..20 {
        bytes.push(b';');
        if i == 0 {
            // 255 ASCII bytes, then a letter that needs two bytes.
            bytes.extend(std::iter::repeat(b'a').take(255));
            bytes.push(0xC0);
        } else {
            bytes.push(0xC0);
        }
    }
    bytes.push(b'\n');
    let st = parse_init(&bytes).unwrap();
    assert!(!can_store_header(&st));
}

#[test]
fn long_cp1251_name_is_cut_at_the_limit() {
    let mut bytes: Vec<u8> = b"T".to_vec();
    for i in 0..20 {
        bytes.push(b';');
        if i == 0 {
            // 200 letters of two bytes each: conversion stops at 256 bytes.
            bytes.extend(std::iter::repeat(0xC0u8).take(200));
        } else {
            bytes.push(0xC1);
        }
    }
    bytes.push(b'\n');
    let mut st = parse_init(&bytes).unwrap();
    assert!(can_store_header(&st));
    assert!(parse_header(&mut st));
    let name = get_header_field(&st, 0).unwrap();
    assert_eq!(name.len(), 256);
    assert_eq!(std::str::from_utf8(name).unwrap(), "А".repeat(128));
    for i in 0..DATA_FIELDS_COUNT {
        assert!(get_header_field(&st, i).unwrap().len() <= 256);
    }
    assert_eq!(get_header_field(&st, 1).unwrap(), "Б".as_bytes());
}

#[test]
fn long_utf8_name_is_cut_to_256_bytes() {
    let mut names = names20();
    names[0] = "x".repeat(300);
    let refs: Vec<&str> = names.iter().map(|s| s.as_str()).collect();
    let s = header_line(&refs) + "\n";
    let mut st = parse_init(s.as_bytes()).unwrap();
    assert!(parse_header(&mut st));
    assert_eq!(get_header_field(&st, 0).unwrap(), "x".repeat(256).as_bytes());
}

#[test]
fn rows_are_read_in_order_until_the_end() {
    let r1 = row_of("2024-01-01 00:00", &["1.5"; 20]);
    let r2 = row_of(" 2024-01-01 00:01", &["-2"; 20]);
    let data = csv_with_rows(&[&r1, &r2]);
    let mut st = parse_init(&data).unwrap();
    assert!(export_row(&mut st).is_none());
    assert!(parse_header(&mut st));
    let (ts, vals) = export_row(&mut st).unwrap();
    assert_eq!(ts, b"2024-01-01 00:00".to_vec());
    assert_eq!(digits(&vals[0]), (false, vec![1], vec![5]));
    let (ts, vals) = export_row(&mut st).unwrap();
    assert_eq!(ts, b"2024-01-01 00:01".to_vec());
    assert_eq!(digits(&vals[19]), (true, vec![2], vec![]));
    assert!(export_row(&mut st).is_none());
}

#[test]
fn malformed_row_stops_reading_and_keeps_position() {
    let mut vals = vec!["1"; 20];
    vals[7] = "1e5";
    let bad = row_of("t", &vals);
    let good = row_of("t2", &["3"; 20]);
    let data = csv_with_rows(&[&bad, &good]);
    let mut st = parse_init(&data).unwrap();
    assert!(parse_header(&mut st));
    assert!(export_row(&mut st).is_none());
    // The reader did not move: the bad line is met again.
    assert!(export_row(&mut st).is_none());
}

#[test]
fn row_with_too_few_values_or_no_separator_is_refused() {
    let short = row_of("t", &["1"; 19]);
    let data = csv_with_rows(&[&short]);
    let mut st = parse_init(&data).unwrap();
    assert!(parse_header(&mut st));
    assert!(export_row(&mut st).is_none());

    let data = csv_with_rows(&["no separator here"]);
    let mut st = parse_init(&data).unwrap();
    assert!(parse_header(&mut st));
    assert!(export_row(&mut st).is_none());
}

#[test]
fn number_cells_follow_the_grammar() {
    let d = parse_number(b"1.000.000").unwrap();
    assert_eq!(digits(&d), (false, vec![1, 0, 0, 0], vec![0, 0, 0]));
    let d = parse_number(b"-12.5").unwrap();
    assert_eq!(digits(&d), (true, vec![1, 2], vec![5]));
    let d = parse_number(b"+7").unwrap();
    assert_eq!(digits(&d), (false, vec![7], vec![]));
    let d = parse_number(b"-").unwrap();
    assert_eq!(digits(&d), (true, vec![], vec![]));
    let d = parse_number(b".25").unwrap();
    assert_eq!(digits(&d), (false, vec![], vec![2, 5]));
    let d = parse_number(b"3.").unwrap();
    assert_eq!(digits(&d), (false, vec![3], vec![]));
    assert!(parse_number(b"").is_none());
    assert!(parse_number(b"1,5").is_none());
    assert!(parse_number(b"+-1").is_none());
    assert!(parse_number(b"1 ").is_none());
}

#[test]
fn reading_always_moves_forward() {
    let rows: Vec<String> = (0..5).map(|i| row_of(&format!("t{}", i), &["0.1"; 20])).collect();
    let refs: Vec<&str> = rows.iter().map(|s| s.as_str()).collect();
    let data = csv_with_rows(&refs);
    let mut st = parse_init(&data).unwrap();
    assert!(parse_header(&mut st));
    let mut count = 0;
    while let Some((ts, _)) = export_row(&mut st) {
        assert_eq!(ts, format!("t{}", count).into_bytes());
        count += 1;
        assert!(count <= 5);
    }
    assert_eq!(count, 5);
}

#[test]
fn cp1251_names_show_in_result_headers() {
    let mut bytes: Vec<u8> = b"T".to_vec();
    for _ in 0..20 {
        bytes.push(b';');
        bytes.extend_from_slice(&[0xD2, 0xE5, 0xEC, 0xEF]); // "Темп"
    }
    bytes.push(b'\n');
    let mut st = parse_init(&bytes).unwrap();
    assert!(parse_header(&mut st));
    let name = get_header_field(&st, 0).unwrap();
    assert_eq!(
        anomaly_detector::output::write_named_header(name),
        "TimeStamp;Темп;0 - Bad, 1 - Good\n".as_bytes().to_vec()
    );
}

#[test]
fn utf8_name_cut_inside_a_character_shows_as_unknown() {
    let mut names = names20();
    // 255 ASCII bytes then a two-byte letter: the stored name ends in half a
    // character.
    names[0] = format!("{}Ж", "a".repeat(255));
    let refs: Vec<&str> = names.iter().map(|s| s.as_str()).collect();
    let s = header_line(&refs) + "\n";
    let mut st = parse_init(s.as_bytes()).unwrap();
    assert!(parse_header(&mut st));
    let name = get_header_field(&st, 0).unwrap();
    assert_eq!(name.len(), 256);
    assert_eq!(
        anomaly_detector::output::write_named_header(name),
        b"TimeStamp;unknown;0 - Bad, 1 - Good\n".to_vec()
    );
}
