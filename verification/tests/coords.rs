use region::error::CoordsError;
use region::mclinear::utils::parse_region_coords as lenient;
use region::error::IntErrorKind;
use region::split::split_into_chunks;
use region::utils::bytes_equal;
use region::utils::parse_i32;
use region::utils::parse_region_coords;
use region::utils::split_at_dots;

#[test]
fn parse_i32_reads_plain_and_signed_numbers() {
    assert_eq!(parse_i32(b"123"), Ok(123));
    assert_eq!(parse_i32(b"+7"), Ok(7));
    assert_eq!(parse_i32(b"-42"), Ok(-42));
    assert_eq!(parse_i32(b"0"), Ok(0));
    assert_eq!(parse_i32(b"007"), Ok(7));
}

#[test]
fn parse_i32_reaches_both_ends_of_the_range() {
    assert_eq!(parse_i32(b"2147483647"), Ok(i32::MAX));
    assert_eq!(parse_i32(b"-2147483648"), Ok(i32::MIN));
}

#[test]
fn parse_i32_reports_each_kind_of_error() {
    assert_eq!(parse_i32(b""), Err(IntErrorKind::Empty));
    assert_eq!(parse_i32(b"+"), Err(IntErrorKind::InvalidDigit));
    assert_eq!(parse_i32(b"-"), Err(IntErrorKind::InvalidDigit));
    assert_eq!(parse_i32(b"12a"), Err(IntErrorKind::InvalidDigit));
    assert_eq!(parse_i32(b" 1"), Err(IntErrorKind::InvalidDigit));
    assert_eq!(parse_i32(b"2147483648"), Err(IntErrorKind::PosOverflow));
    assert_eq!(parse_i32(b"-2147483649"), Err(IntErrorKind::NegOverflow));
}

#[test]
fn parse_i32_agrees_with_str_parse() {
    for text in ["1", "-1", "+0", "99999", "-99999", "2147483647", "-2147483648", "123456789"] {
        let expected: i32 = text.parse().unwrap();
        assert_eq!(parse_i32(text.as_bytes()), Ok(expected));
    }
}

#[test]
fn split_at_dots_keeps_empty_pieces() {
    let parts = split_at_dots(b"r..3.");
    assert_eq!(parts, vec![b"r".to_vec(), Vec::new(), b"3".to_vec(), Vec::new()]);
    assert_eq!(split_at_dots(b""), vec![Vec::<u8>::new()]);
}

#[test]
fn bytes_equal_compares_contents_and_length() {
    assert!(bytes_equal(&b"abc".to_vec(), b"abc"));
    assert!(!bytes_equal(&b"abc".to_vec(), b"abd"));
    assert!(!bytes_equal(&b"abc".to_vec(), b"ab"));
}

#[test]
fn region_coords_read_from_linear_file_name() {
    assert_eq!(parse_region_coords("r.-3.7.linear"), Ok((-3, 7)));
    assert_eq!(parse_region_coords("r.0.0.linear"), Ok((0, 0)));
}

#[test]
fn region_coords_need_the_exact_linear_shape() {
    assert_eq!(parse_region_coords("r.1.2.mca"), Err(CoordsError::InvalidFormat));
    assert_eq!(parse_region_coords("c.1.2.linear"), Err(CoordsError::InvalidFormat));
    assert_eq!(parse_region_coords("r.1.2.3.linear"), Err(CoordsError::InvalidFormat));
    assert_eq!(parse_region_coords("r.1.linear"), Err(CoordsError::InvalidFormat));
    assert_eq!(parse_region_coords("c.1.2.mcc"), Err(CoordsError::InvalidFormat));
}

#[test]
fn region_coords_report_bad_numbers() {
    assert_eq!(
        parse_region_coords("r.a.2.linear"),
        Err(CoordsError::ParseInt(IntErrorKind::InvalidDigit))
    );
    assert_eq!(
        parse_region_coords("r.1..linear"),
        Err(CoordsError::ParseInt(IntErrorKind::Empty))
    );
    assert_eq!(
        parse_region_coords("r.1.9999999999.linear"),
        Err(CoordsError::ParseInt(IntErrorKind::PosOverflow))
    );
}

#[test]
fn lenient_coords_accept_region_and_chunk_names() {
    assert_eq!(lenient("c.5.-6.mcc"), Ok((5, -6)));
    assert_eq!(lenient("r.1.2"), Ok((1, 2)));
    assert_eq!(lenient("r.1.2.mca"), Ok((1, 2)));
    assert_eq!(lenient("r.1.2.x.y"), Ok((1, 2)));
    assert_eq!(lenient("x.1.2.mca"), Err(CoordsError::InvalidFormat));
    assert_eq!(lenient("r.1"), Err(CoordsError::InvalidFormat));
    assert_eq!(lenient("c.1.z.mcc"), Err(CoordsError::ParseInt(IntErrorKind::InvalidDigit)));
}

#[test]
fn chunk_file_names_read_back_as_their_coordinates() {
    for (x, z) in [(0, 0), (-1, 31), (i32::MIN, i32::MAX), (12345, -678)] {
        let name = format!("c.{}.{}.mcc", x, z);
        assert_eq!(lenient(&name), Ok((x, z)));
    }
}

#[test]
fn split_into_chunks_takes_tails_first() {
    let parts = split_into_chunks((0..10).collect::<Vec<i32>>(), 3);
    assert_eq!(parts, vec![vec![4, 5, 6, 7, 8, 9], vec![2, 3], vec![0, 1]]);
}

#[test]
fn split_into_chunks_edge_cases() {
    assert_eq!(split_into_chunks(vec![1, 2, 3], 0), Vec::<Vec<i32>>::new());
    assert_eq!(split_into_chunks(Vec::<i32>::new(), 4), Vec::<Vec<i32>>::new());
    assert_eq!(split_into_chunks(vec![1, 2, 3], 1), vec![vec![1, 2, 3]]);
    assert_eq!(split_into_chunks(vec![1, 2], 5), vec![vec![2], vec![], vec![], vec![], vec![1]]);
}

#[test]
fn split_into_chunks_keeps_every_item_once() {
    let items: Vec<u32> = (0..37).collect();
    let parts = split_into_chunks(items.clone(), 4);
    assert_eq!(parts.len(), 4);
    let mut joined: Vec<u32> = Vec::new();
    for part in parts.iter().rev() {
        joined.extend_from_slice(part);
    }
    assert_eq!(joined, items);
}
