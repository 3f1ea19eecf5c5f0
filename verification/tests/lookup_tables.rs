use mime_parse::is_token;

fn expected_token(i: u8) -> bool {
    match i {
        b'a'..=b'z'
        | b'A'..=b'Z'
        | b'0'..=b'9'
        | b'!'
        | b'#'
        | b'$'
        | b'%'
        | b'&'
        | b'\''
        | b'+'
        | b'-'
        | b'.'
        | b'^'
        | b'_'
        | b'`'
        | b'|'
        | b'~' => true,
        _ => false,
    }
}

#[test]
fn lib_test_lookup_tables() {
    for i in 0..=255u8 {
        let valid = is_token(i);
        let should = expected_token(i);
        assert_eq!(valid, should, "{:?} ({}) should be {}", i as char, i, should);
    }
}

#[test]
fn parse_test_lookup_tables() {
    for i in 0..=255u8 {
        let valid = is_token(i);
        let should = expected_token(i);
        assert_eq!(valid, should, "{:?} ({}) should be {}", i as char, i, should);
    }
}
