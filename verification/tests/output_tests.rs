use anomaly_detector::output::{
    format_fixed6, header_name_text, output_file_path, write_header, write_named_header, write_row_with_timestamp,
};
use anomaly_detector::parse::parse_number;

#[test]
fn path_replaces_unsafe_bytes() {
    assert_eq!(output_file_path(b"a/b\\c;d"), b"output/a_b_c_d.csv\0".to_vec());
    assert_eq!(output_file_path(b"temp"), b"output/temp.csv\0".to_vec());
    let with_nul = [b'x', 0u8, b'y'];
    assert_eq!(output_file_path(&with_nul), b"output/x_y.csv\0".to_vec());
}

#[test]
fn path_keeps_at_most_239_name_bytes() {
    let name = vec![b'n'; 300];
    let path = output_file_path(&name);
    assert_eq!(path.len(), 7 + 239 + 5);
    assert!(path.starts_with(b"output/"));
    assert!(path.ends_with(b".csv\0"));
    assert_eq!(path.iter().filter(|&&b| b == 0).count(), 1);
}

#[test]
fn header_line_is_the_documented_one() {
    assert_eq!(write_header(b"Temp"), b"TimeStamp;Value;Status (1=Good,0=Bad)\n".to_vec());
    assert_eq!(write_header(&[0xC4, 0xE0]), b"TimeStamp;Value;Status (1=Good,0=Bad)\n".to_vec());
}

#[test]
fn named_header_shows_utf8_names_and_hides_others() {
    assert_eq!(write_named_header(b"Temp"), b"TimeStamp;Temp;0 - Bad, 1 - Good\n".to_vec());
    assert_eq!(
        write_named_header("Датчик".as_bytes()),
        "TimeStamp;Датчик;0 - Bad, 1 - Good\n".as_bytes().to_vec()
    );
    assert_eq!(write_named_header(&[0xC4, 0xE0]), b"TimeStamp;unknown;0 - Bad, 1 - Good\n".to_vec());
    assert_eq!(header_name_text(b""), Vec::<u8>::new());
    assert_eq!(header_name_text(&[0xFF]), b"unknown".to_vec());
}

#[test]
fn values_have_six_decimals() {
    assert_eq!(format_fixed6(true, 12, 345), b"-12.000345".to_vec());
    assert_eq!(format_fixed6(false, 0, 0), b"0.000000".to_vec());
    assert_eq!(format_fixed6(false, 4294967295, 999999), b"4294967295.999999".to_vec());
    assert_eq!(format_fixed6(false, 100, 500000), b"100.500000".to_vec());
}

#[test]
fn a_fraction_rounded_up_to_a_million_carries() {
    assert_eq!(format_fixed6(false, 0, 1000000), b"1.000000".to_vec());
    assert_eq!(format_fixed6(true, 9, 1000000), b"-10.000000".to_vec());
    assert_eq!(format_fixed6(false, 4294967295, 1000000), b"4294967296.000000".to_vec());
}

#[test]
fn written_values_read_back() {
    for &(neg, ip, fp) in &[(false, 0u32, 0u32), (true, 7, 1), (false, 123456, 654321), (true, 4294967295, 999999)] {
        let text = format_fixed6(neg, ip, fp);
        let d = parse_number(&text).unwrap();
        assert_eq!(d.negative, neg);
        let int_value = d.int_digits.iter().fold(0u64, |v, &x| v * 10 + x as u64);
        let frac_value = d.frac_digits.iter().fold(0u64, |v, &x| v * 10 + x as u64);
        assert_eq!(int_value, ip as u64);
        assert_eq!(d.frac_digits.len(), 6);
        assert_eq!(frac_value, fp as u64);
    }
}

#[test]
fn row_line_joins_timestamp_value_and_flag() {
    assert_eq!(
        write_row_with_timestamp(b"2024-01-01", b"1.500000", true),
        b"2024-01-01;1.500000;1\n".to_vec()
    );
    assert_eq!(write_row_with_timestamp(b"", b"-0.000001", false), b";-0.000001;0\n".to_vec());
}
