use mpdelta::project_format::{check_header, project_header, HeaderError, FORMAT_VERSION, HEADER_LEN};

#[test]
fn written_header_is_read() {
    let mut file = project_header();
    assert_eq!(file.len(), HEADER_LEN);
    assert_eq!(&file[..4], b"mpdl");
    assert_eq!(&file[4..8], &FORMAT_VERSION.to_be_bytes());
    assert!(file[8..].iter().all(|&b| b == 0));
    file.extend_from_slice(&[0xa0, 1, 2]);
    assert_eq!(check_header(&file), Ok(32));
}

#[test]
fn header_errors() {
    assert_eq!(check_header(&[0; 31]), Err(HeaderError::TooShort));
    let mut file = project_header();
    file[0] = b'x';
    assert_eq!(check_header(&file), Err(HeaderError::MismatchMagicNumber(*b"xpdl")));
    let mut file = project_header();
    file[7] = 2;
    assert_eq!(check_header(&file), Err(HeaderError::UnknownFormatVersion(2)));
    file[4] = 1;
    assert_eq!(check_header(&file), Err(HeaderError::UnknownFormatVersion(0x0100_0002)));
    let mut file = project_header();
    file[20] = 9;
    assert_eq!(check_header(&file), Ok(32));
}
