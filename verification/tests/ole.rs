use ole::constants::{HEADER_SIZE, IDENTIFIER, LITTLE_ENDIAN_IDENTIFIER};
use ole::error::Error;
use ole::ole::Reader;

fn fill(buf: &mut std::vec::Vec<u8>) {
    let missing = vec![0u8; HEADER_SIZE - buf.len()];
    buf.extend(missing);
}

#[test]
fn array_bad_identifier() {
    let mut vec = IDENTIFIER.to_vec();
    vec[0] = 0xD1;
    fill(&mut vec);
    let ole = Reader::new(&vec[..]);
    assert_eq!(ole.is_ok(), false);
    println!("BAD IDENTIFIER: {}", ole.err().unwrap().message());
}

#[test]
fn array_bad_endianness_identifier() {
    let mut vec = IDENTIFIER.to_vec();
    vec.extend(vec![0u8; 20]);
    vec.push(0xFE);
    vec.push(0xFE);
    fill(&mut vec);
    let ole = Reader::new(&vec[..]);
    match ole {
        Ok(_t) => assert!(false),
        Err(e) => println!("BAD ENDIANNESS: {}", e.message()),
    }
}

#[test]
fn bad_sec_size() {
    let mut vec = IDENTIFIER.to_vec();
    vec.extend(vec![0x42u8; 20]);
    vec.extend(&LITTLE_ENDIAN_IDENTIFIER);
    vec.extend(vec![0xFF, 0xFF, 0xFF, 0xFF]);
    vec.extend(vec![0u8; 10]);
    vec.extend(vec![0xFF, 0xFF, 0xFF, 0xFF]);
    fill(&mut vec);
    let ole = Reader::new(&vec[..]);
    assert_eq!(ole.is_ok(), false);
}

#[test]
fn bad_identifier_is_invalid_format() {
    let mut vec = IDENTIFIER.to_vec();
    vec[0] = 0xD1;
    fill(&mut vec);
    assert_eq!(Reader::new(&vec[..]).err(), Some(Error::InvalidFormat));
}

#[test]
fn unknown_byte_order_is_invalid_format() {
    let mut vec = IDENTIFIER.to_vec();
    vec.extend(vec![0u8; 20]);
    vec.push(0xFE);
    vec.push(0xFE);
    fill(&mut vec);
    assert_eq!(Reader::new(&vec[..]).err(), Some(Error::InvalidFormat));
}

#[test]
fn oversized_sector_shift_is_bad_size() {
    let mut vec = IDENTIFIER.to_vec();
    vec.extend(vec![0x42u8; 20]);
    vec.extend(&LITTLE_ENDIAN_IDENTIFIER);
    vec.extend(vec![0xFF, 0xFF, 0xFF, 0xFF]);
    vec.extend(vec![0u8; 10]);
    vec.extend(vec![0xFF, 0xFF, 0xFF, 0xFF]);
    fill(&mut vec);
    assert_eq!(
        Reader::new(&vec[..]).err(),
        Some(Error::BadSizeValue("Overflow on sector size"))
    );
}

#[test]
fn empty_input_is_bad_size() {
    let data: Vec<u8> = Vec::new();
    assert_eq!(
        Reader::new(&data[..]).err(),
        Some(Error::BadSizeValue("File is too short"))
    );
}

#[test]
fn errors_in_words() {
    assert_eq!(Error::InvalidFormat.message(), "Invalid OLE File");
    assert_eq!(Error::Unsupported.message(), "Method not implemented yet");
    assert_eq!(
        Error::BadSizeValue("File is too short").message(),
        "Bad size Value File is too short"
    );
    assert_eq!(Error::EmptyEntry.message(), "Empty entry");
}
