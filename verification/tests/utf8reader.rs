use anre::utf8reader::{read_char, read_previous_char};

#[test]
fn test_next_char() {
    let data = "a文b😋c".bytes().collect::<Vec<u8>>();
    let data_ref = &data[..];

    assert_eq!(read_char(data_ref, 0), ('a' as u32, 1));
    assert_eq!(read_char(data_ref, 1), ('文' as u32, 3));
    assert_eq!(read_char(data_ref, 4), ('b' as u32, 1));
    assert_eq!(read_char(data_ref, 5), ('😋' as u32, 4));
    assert_eq!(read_char(data_ref, 9), ('c' as u32, 1));
}

#[test]
fn test_previous_char() {
    let data = "a文b😋c".bytes().collect::<Vec<u8>>();
    let data_ref = &data[..];

    assert_eq!(read_previous_char(data_ref, 1), ('a' as u32, 1));
    assert_eq!(read_previous_char(data_ref, 4), ('文' as u32, 3));
    assert_eq!(read_previous_char(data_ref, 5), ('b' as u32, 1));
    assert_eq!(read_previous_char(data_ref, 9), ('😋' as u32, 4));
    assert_eq!(read_previous_char(data_ref, 10), ('c' as u32, 1));
}

#[test]
fn reading_back_from_each_char_end_gives_that_char() {
    let data = "x\u{10348}é中\n".bytes().collect::<Vec<u8>>();
    let mut p = 0;
    while p < data.len() {
        let (c, n) = read_char(&data, p);
        assert_eq!(read_previous_char(&data, p + n), (c, n));
        p += n;
    }
}

#[test]
fn previous_char_from_inside_a_char() {
    let data = "a文b".bytes().collect::<Vec<u8>>();
    assert_eq!(read_previous_char(&data, 2), ('文' as u32, 3));
    assert_eq!(read_previous_char(&data, 3), ('文' as u32, 3));
    assert_eq!(read_previous_char(&data, 4), ('文' as u32, 3));
}
