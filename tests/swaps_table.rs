use swaps::escape::{decode_field, EscapeError};
use swaps::swaps::{Field, Swaps, SwapsError};

const HEADER: &str =
    "Filename                                Type            Size            Used            Priority\n";

fn listing(lines: &[&str]) -> Vec<u8> {
    let mut text = String::from(HEADER);
    for line in lines {
        text.push_str(line);
        text.push('\n');
    }
    text.into_bytes()
}

#[test]
fn plain_token_decodes_to_itself() {
    let token = b"/dev/disk/by-id/usb-Foo_Bar-0:0-part2";
    assert_eq!(decode_field(token), Ok(token.to_vec()));
    let all_printable: Vec<u8> = (32u8..=126).filter(|b| *b != b'\\').collect();
    assert_eq!(decode_field(&all_printable), Ok(all_printable.clone()));
}

#[test]
fn octal_escape_gives_space() {
    assert_eq!(decode_field(b"a\\040b"), Ok(vec![b'a', 0x20, b'b']));
}

#[test]
fn escaped_backslash() {
    assert_eq!(decode_field(b"\\134"), Ok(vec![b'\\']));
}

#[test]
fn empty_token_decodes_to_nothing() {
    assert_eq!(decode_field(b""), Ok(Vec::new()));
}

#[test]
fn escapes_side_by_side() {
    assert_eq!(decode_field(b"\\011\\012x\\000"), Ok(vec![9, 10, b'x', 0]));
}

#[test]
fn large_escape_keeps_low_byte() {
    assert_eq!(decode_field(b"\\377"), Ok(vec![255]));
    assert_eq!(decode_field(b"\\777"), Ok(vec![255]));
    assert_eq!(decode_field(b"\\400"), Ok(vec![0]));
}

#[test]
fn truncated_escape() {
    assert_eq!(decode_field(b"\\07"), Err(EscapeError::Truncated));
    assert_eq!(decode_field(b"ab\\"), Err(EscapeError::Truncated));
    assert_eq!(decode_field(b"\\1"), Err(EscapeError::Truncated));
}

#[test]
fn invalid_octal_digit() {
    assert_eq!(decode_field(b"\\08a"), Err(EscapeError::InvalidDigit));
    assert_eq!(decode_field(b"\\x12"), Err(EscapeError::InvalidDigit));
    assert_eq!(decode_field(b"\\+12"), Err(EscapeError::InvalidDigit));
    // A bad digit is reported before the end of the token is reached.
    assert_eq!(decode_field(b"\\9"), Err(EscapeError::InvalidDigit));
}

#[test]
fn escape_messages() {
    assert_eq!(EscapeError::Truncated.message(), "truncated octal code");
    assert_eq!(EscapeError::InvalidDigit.message(), "invalid octal digit");
    assert_eq!(Field::Priority.name(), "priority");
    assert_eq!(Field::Source.name(), "source");
}

#[test]
fn parse_value_maps_escape_errors() {
    assert_eq!(Swaps::parse_value(b"x\\040y"), Ok(b"x y".to_vec()));
    assert_eq!(
        Swaps::parse_value(b"\\07"),
        Err(SwapsError::MalformedEscape(EscapeError::Truncated))
    );
}

#[test]
fn parse_line_fields() {
    let info = Swaps::parse_line(b"  /swap\\040file\tfile 1024   12 5 extra tokens").ok().unwrap();
    assert_eq!(info.source, b"/swap file".to_vec());
    assert_eq!(info.kind, b"file".to_vec());
    assert_eq!(info.size, b"1024".to_vec());
    assert_eq!(info.used, b"12".to_vec());
    assert_eq!(info.priority, b"5".to_vec());
}

#[test]
fn parse_line_names_missing_field() {
    let cases: [(&[u8], Field); 5] = [
        (b"", Field::Source),
        (b"/dev/sda2", Field::Kind),
        (b"/dev/sda2 partition", Field::Size),
        (b"/dev/sda2 partition 2097148", Field::Used),
        (b"/dev/sda2 partition 2097148 0", Field::Priority),
    ];
    for (line, field) in cases.iter() {
        assert_eq!(
            Swaps::parse_line(line).err(),
            Some(SwapsError::MalformedRecord(*field))
        );
    }
}

#[test]
fn parse_line_first_bad_field_wins() {
    assert_eq!(
        Swaps::parse_line(b"/dev/sda2 \\9 2097148 0 \\07").err(),
        Some(SwapsError::MalformedEscape(EscapeError::InvalidDigit))
    );
}

#[test]
fn load_single_partition() {
    let text = b"Filename                                Type            Size            Used            Priority\n/dev/sda2                               partition       2097148         0               -2\n";
    let table = Swaps::new(text).ok().unwrap();
    let entries = table.entries();
    assert_eq!(entries.len(), 1);
    assert_eq!(entries[0].source, b"/dev/sda2".to_vec());
    assert_eq!(entries[0].kind, b"partition".to_vec());
    assert_eq!(entries[0].size, b"2097148".to_vec());
    assert_eq!(entries[0].used, b"0".to_vec());
    assert_eq!(entries[0].priority, b"-2".to_vec());
}

#[test]
fn load_four_fields_missing_priority() {
    let text = listing(&["/dev/sda2 partition 2097148 0"]);
    assert_eq!(
        Swaps::new(&text).err(),
        Some(SwapsError::MalformedRecord(Field::Priority))
    );
}

#[test]
fn load_truncated_escape_at_line_end() {
    let text = listing(&["/dev/sda2 partition 2097148 0 \\07"]);
    assert_eq!(
        Swaps::new(&text).err(),
        Some(SwapsError::MalformedEscape(EscapeError::Truncated))
    );
}

#[test]
fn get_swapped_finds_source() {
    let text = listing(&[
        "/dev/sda2 partition 2097148 0 -2",
        "/swapfile file 1048572 0 -3",
    ]);
    let table = Swaps::new(&text).ok().unwrap();
    assert!(table.get_swapped(b"/swapfile"));
    assert!(table.get_swapped(b"/dev/sda2"));
    assert!(!table.get_swapped(b"/other"));
    assert!(!table.get_swapped(b"/swapfil"));
    assert!(!table.get_swapped(b""));
}

#[test]
fn empty_table_swaps_nothing() {
    let table = Swaps::new(HEADER.as_bytes()).ok().unwrap();
    assert_eq!(table.entries().len(), 0);
    assert!(!table.get_swapped(b"/swapfile"));
    assert!(!table.get_swapped(b""));
}

#[test]
fn empty_listing_and_header_without_newline() {
    let table = Swaps::new(b"").ok().unwrap();
    assert_eq!(table.entries().len(), 0);
    let table = Swaps::new(b"Filename Type Size Used Priority").ok().unwrap();
    assert_eq!(table.entries().len(), 0);
}

#[test]
fn last_line_without_newline() {
    let mut text = listing(&["/dev/sda2 partition 2097148 0 -2"]);
    text.extend_from_slice(b"/swapfile file 1048572 0 -3");
    let table = Swaps::new(&text).ok().unwrap();
    assert_eq!(table.entries().len(), 2);
    assert_eq!(table.entries()[1].source, b"/swapfile".to_vec());
}

#[test]
fn blank_data_line_is_malformed() {
    let text = listing(&["/dev/sda2 partition 2097148 0 -2", ""]);
    assert_eq!(
        Swaps::new(&text).err(),
        Some(SwapsError::MalformedRecord(Field::Source))
    );
}

#[test]
fn one_bad_line_fails_whole_table() {
    let text = listing(&[
        "/dev/sda2 partition 2097148 0 -2",
        "/swapfile file 1048572 0",
        "/dev/sdb1 partition 100 0 -4",
    ]);
    assert_eq!(
        Swaps::new(&text).err(),
        Some(SwapsError::MalformedRecord(Field::Priority))
    );
}

#[test]
fn escaped_path_is_decoded_before_lookup() {
    let text = listing(&["/mnt/my\\040swap partition 100 0 -2", "/a\\134b file 100 0 -3"]);
    let table = Swaps::new(&text).ok().unwrap();
    assert!(table.get_swapped(b"/mnt/my swap"));
    assert!(!table.get_swapped(b"/mnt/my\\040swap"));
    assert!(table.get_swapped(b"/a\\b"));
}

#[test]
fn crlf_lines_and_non_text_bytes() {
    let mut text = b"Filename Type Size Used Priority\r\n".to_vec();
    text.extend_from_slice(b"/dev/\xff\xfe partition 100 0 -2\r\n");
    let table = Swaps::new(&text).ok().unwrap();
    assert_eq!(table.entries().len(), 1);
    assert_eq!(table.entries()[0].source, vec![b'/', b'd', b'e', b'v', b'/', 0xff, 0xfe]);
    assert_eq!(table.entries()[0].priority, b"-2".to_vec());
}
