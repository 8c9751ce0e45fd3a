use authenticate_ldap::ber::{
    expect, integer, read, read_element, read_integer, tlv, wanted, ENUMERATED, INTEGER, LARGEST,
    OCTET_STRING, SEQUENCE,
};

#[test]
fn an_integer_takes_the_fewest_bytes_under_its_tag() {
    assert_eq!(integer(INTEGER, 3), [0x02, 0x01, 0x03]);
    assert_eq!(integer(INTEGER, 128), [0x02, 0x02, 0x00, 0x80]);
    assert_eq!(integer(ENUMERATED, 49), [0x0a, 0x01, 0x31]);
    assert_eq!(integer(INTEGER, -1), [0x02, 0x01, 0xff]);
}

#[test]
fn ber_an_answer_larger_than_a_bind_response_is_refused_saying_whose() {
    let mut huge: &[u8] = &[0x30, 0x84, 0x7f, 0xff, 0xff, 0xff];
    let failure = read_element(&mut huge).expect_err("refused");
    assert!(
        failure.message.starts_with("the directory's answer: "),
        "{}",
        failure.message
    );
    assert!(failure.message.contains("65536"), "{}", failure.message);
}

#[test]
fn integers_at_their_edges_read_back() {
    for value in [
        0,
        1,
        -1,
        127,
        128,
        -128,
        -129,
        255,
        256,
        32767,
        32768,
        -32768,
        -32769,
        i64::MAX,
        i64::MIN,
    ] {
        let wire = integer(INTEGER, value);
        let (contents, rest) = expect(&wire, INTEGER).expect("an integer");
        assert!(rest.is_empty());
        assert_eq!(read_integer(contents).expect("read"), value);
    }
    assert_eq!(integer(INTEGER, -129), [0x02, 0x02, 0xff, 0x7f]);
    assert_eq!(integer(INTEGER, i64::MIN), [0x02, 0x08, 0x80, 0, 0, 0, 0, 0, 0, 0]);
}

#[test]
fn an_integer_without_bytes_or_of_too_many_is_refused() {
    assert_eq!(
        read_integer(&[]).expect_err("refused").message,
        "an integer has no bytes"
    );
    assert_eq!(
        read_integer(&[0; 9]).expect_err("refused").message,
        "an integer takes more than 64 bits"
    );
    assert_eq!(read_integer(&[0, 0, 0, 0, 0, 0, 0, 7]).expect("read"), 7);
}

#[test]
fn a_length_takes_one_octet_under_128_and_then_the_fewest() {
    assert_eq!(tlv(OCTET_STRING, &[]), [0x04, 0x00]);
    assert_eq!(&tlv(OCTET_STRING, &[7; 127])[..3], [0x04, 0x7f, 7]);
    assert_eq!(&tlv(OCTET_STRING, &[7; 128])[..4], [0x04, 0x81, 0x80, 7]);
    assert_eq!(&tlv(OCTET_STRING, &[7; 256])[..5], [0x04, 0x82, 0x01, 0x00, 7]);
}

#[test]
fn an_element_reads_back_with_what_follows_it() {
    for size in [0usize, 1, 127, 128, 255, 256, 70000] {
        let contents = vec![0x5au8; size];
        let mut wire = tlv(SEQUENCE, &contents);
        wire.extend_from_slice(&[1, 2, 3]);
        let (tag, read_contents, rest) = read(&wire).expect("an element");
        assert_eq!(tag, SEQUENCE);
        assert_eq!(read_contents, contents);
        assert_eq!(rest, [1, 2, 3]);
    }
}

#[test]
fn a_length_longer_than_it_need_be_is_read() {
    let (tag, contents, rest) = read(&[0x04, 0x83, 0x00, 0x00, 0x01, 9, 8]).expect("an element");
    assert_eq!((tag, contents, rest), (0x04, &[9u8][..], &[8u8][..]));
}

#[test]
fn an_element_cut_short_is_refused() {
    for wire in [
        &[][..],
        &[0x30][..],
        &[0x30, 0x01][..],
        &[0x30, 0x82, 0x01][..],
        &[0x30, 0x81, 0x02, 0x00][..],
        &[0x30, 0x89, 1, 0, 0, 0, 0, 0, 0, 0, 0, 0][..],
    ] {
        assert_eq!(
            read(wire).expect_err("refused").message,
            "an element is cut short"
        );
    }
}

#[test]
fn a_length_that_is_not_definite_is_refused() {
    for first in [0x80u8, 0xff] {
        let wire = [0x30, first, 0x00, 0x00];
        assert_eq!(
            read(&wire).expect_err("refused").message,
            "an element's length is not definite"
        );
        let mut stream: &[u8] = &wire;
        assert_eq!(
            read_element(&mut stream).expect_err("refused").message,
            "the directory's answer: an element's length is not definite"
        );
        assert_eq!(stream, [0x00, 0x00]);
    }
}

#[test]
fn another_tag_than_expected_is_named_with_the_one_expected() {
    assert_eq!(
        expect(&[0x0a, 0x00], INTEGER).expect_err("refused").message,
        "an element tagged 0x0a stands where one tagged 0x02 belongs"
    );
}

#[test]
fn an_element_comes_off_a_stream_and_what_follows_stays() {
    let element = tlv(SEQUENCE, &[5; 300]);
    let mut wire = element.clone();
    wire.extend_from_slice(&[1, 2, 3]);
    let mut stream: &[u8] = &wire;
    assert_eq!(read_element(&mut stream).expect("an element"), element);
    assert_eq!(stream, [1, 2, 3]);
    let ended = read_element(&mut stream).expect_err("refused");
    assert_eq!(
        ended.message,
        "the directory's answer: the stream ended within an element"
    );
    assert!(stream.is_empty());
}

#[test]
fn the_largest_element_is_read_and_one_byte_more_is_not() {
    let largest = tlv(SEQUENCE, &vec![0u8; LARGEST - 4]);
    assert_eq!(largest.len(), LARGEST);
    let mut stream: &[u8] = &largest;
    assert_eq!(read_element(&mut stream).expect("an element"), largest);

    let larger = tlv(SEQUENCE, &vec![0u8; LARGEST - 3]);
    let mut stream: &[u8] = &larger;
    assert_eq!(
        read_element(&mut stream).expect_err("refused").message,
        "the directory's answer: the element is larger than the 65536 bytes this reads"
    );
    assert_eq!(stream.len(), LARGEST - 3);
}

#[test]
fn a_stream_is_asked_for_no_more_than_its_element() {
    assert_eq!(wanted(&[]).expect("wanted"), 2);
    assert_eq!(wanted(&[0x30]).expect("wanted"), 1);
    assert_eq!(wanted(&[0x30, 0x03]).expect("wanted"), 3);
    assert_eq!(wanted(&[0x30, 0x03, 1, 2]).expect("wanted"), 1);
    assert_eq!(wanted(&[0x30, 0x03, 1, 2, 3]).expect("wanted"), 0);
    assert_eq!(wanted(&[0x30, 0x82]).expect("wanted"), 2);
    assert_eq!(wanted(&[0x30, 0x82, 0x01, 0x00]).expect("wanted"), 256);
    assert!(wanted(&[0x30, 0x83, 0x01, 0x00, 0x00]).is_err());
    let mut endless = vec![0x30, 0xfe];
    endless.extend_from_slice(&[0xff; 126]);
    assert!(wanted(&endless).is_err());
}
