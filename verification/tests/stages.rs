use ole::chain::walk_chain;
use ole::directory::parse_directory;
use ole::entry::{Entry, EntryType, NodeColour};
use ole::header::{header_field_label, parse_header};
use ole::sat::{
    build_allocation_tables, build_chain_from_sat, build_chain_from_ssat, build_dsat,
    build_master_sector_allocation_table, build_sat, build_ssat, build_table, classify_sector_id,
    read_sat_sector, read_sec_ids, SectorIdKind,
};
use ole::sector::read_sector;
use ole::stream::{get_short_stream_slices, get_stream_slices};
use ole::util::{read_u16, read_u32, read_u64};
use ole::Error;

const FREE_ID: u32 = 0xFFFF_FFFF;
const END_ID: u32 = 0xFFFF_FFFE;

fn le32(buf: &mut [u8], at: usize, value: u32) {
    buf[at..at + 4].copy_from_slice(&value.to_le_bytes());
}

fn le16(buf: &mut [u8], at: usize, value: u16) {
    buf[at..at + 2].copy_from_slice(&value.to_le_bytes());
}

fn plain_header() -> Vec<u8> {
    let mut header = vec![0u8; 512];
    header[0..8].copy_from_slice(&[0xD0, 0xCF, 0x11, 0xE0, 0xA1, 0xB1, 0x1A, 0xE1]);
    for (i, byte) in header[8..24].iter_mut().enumerate() {
        *byte = 0x10 + i as u8;
    }
    le16(&mut header, 24, 0x003E);
    le16(&mut header, 26, 3);
    header[28] = 0xFE;
    header[29] = 0xFF;
    le16(&mut header, 30, 9);
    le16(&mut header, 32, 6);
    le32(&mut header, 44, 7);
    le32(&mut header, 48, 11);
    le32(&mut header, 56, 4096);
    le32(&mut header, 60, 13);
    le32(&mut header, 64, 2);
    le32(&mut header, 68, END_ID);
    le32(&mut header, 72, 0);
    for slot in 0..109 {
        le32(&mut header, 76 + 4 * slot, FREE_ID);
    }
    header
}

#[test]
fn little_endian_values() {
    let bytes = [0x01, 0x02, 0x03, 0x04, 0x05, 0x06, 0x07, 0x08, 0x09];
    assert_eq!(read_u16(&bytes, 0), 0x0201);
    assert_eq!(read_u16(&bytes, 7), 0x0908);
    assert_eq!(read_u32(&bytes, 1), 0x0504_0302);
    assert_eq!(read_u64(&bytes, 1), 0x0908_0706_0504_0302);
    assert_eq!(read_u32(&[0xFF, 0xFF, 0xFF, 0xFF], 0), u32::MAX);
    assert_eq!(read_u64(&[0xFF; 8], 0), u64::MAX);
}

#[test]
fn header_fields_are_decoded() {
    let header = parse_header(&plain_header()).unwrap();
    assert_eq!(header.uid, [
        0x10, 0x11, 0x12, 0x13, 0x14, 0x15, 0x16, 0x17, 0x18, 0x19, 0x1A, 0x1B, 0x1C, 0x1D, 0x1E,
        0x1F
    ]);
    assert_eq!(header.revision_number, 0x3E);
    assert_eq!(header.version_number, 3);
    assert_eq!(header.sec_size, 512);
    assert_eq!(header.short_sec_size, 64);
    assert_eq!(header.fat_sector_count, 7);
    assert_eq!(header.directory_start, 11);
    assert_eq!(header.minimum_standard_stream_size, 4096);
    assert_eq!(header.mini_fat_start, 13);
    assert_eq!(header.mini_fat_count, 2);
    assert_eq!(header.difat_start, END_ID);
    assert_eq!(header.difat_count, 0);
}

#[test]
fn header_of_version_four() {
    let mut data = plain_header();
    le16(&mut data, 26, 4);
    le16(&mut data, 30, 12);
    let header = parse_header(&data).unwrap();
    assert_eq!(header.sec_size, 4096);
    assert_eq!(header.short_sec_size, 64);
    le16(&mut data, 30, 9);
    assert_eq!(parse_header(&data), Err(Error::BadSizeValue("Wrong Sector size!")));
}

#[test]
fn header_sizes_are_powers_of_two() {
    let mut data = plain_header();
    le16(&mut data, 24, 0x3B);
    le16(&mut data, 26, 0);
    le16(&mut data, 30, 15);
    le16(&mut data, 32, 0);
    let header = parse_header(&data).unwrap();
    assert_eq!(header.sec_size, 32768);
    assert_eq!(header.short_sec_size, 1);
}

#[test]
fn header_checks_come_in_order() {
    let mut data = plain_header();
    data.truncate(511);
    assert_eq!(parse_header(&data), Err(Error::BadSizeValue("File is too short")));
    // A wrong signature is found before the byte order is looked at.
    let mut data = plain_header();
    data[7] = 0;
    data[28] = 0xFF;
    data[29] = 0xFE;
    assert_eq!(parse_header(&data), Err(Error::InvalidFormat));
    // The byte order is looked at before the sizes.
    let mut data = plain_header();
    data[28] = 0xFF;
    data[29] = 0xFE;
    le16(&mut data, 30, 16);
    assert_eq!(parse_header(&data), Err(Error::Unsupported));
    // The sizes are looked at before the threshold.
    let mut data = plain_header();
    le16(&mut data, 30, 16);
    le32(&mut data, 56, 0);
    assert_eq!(parse_header(&data), Err(Error::BadSizeValue("Overflow on sector size")));
    let mut data = plain_header();
    le16(&mut data, 32, 16);
    assert_eq!(parse_header(&data), Err(Error::BadSizeValue("Overflow on short sector size")));
    let mut data = plain_header();
    le16(&mut data, 24, 3);
    le16(&mut data, 32, 5);
    assert_eq!(parse_header(&data), Err(Error::BadSizeValue("Wrong Mini Sector size!")));
    let mut data = plain_header();
    le16(&mut data, 24, 4);
    assert_eq!(parse_header(&data), Err(Error::BadSizeValue("Wrong Sector size!")));
    let mut data = plain_header();
    le32(&mut data, 56, 4095);
    assert_eq!(parse_header(&data), Err(Error::InvalidFormat));
}

#[test]
fn header_listing_names_its_fields() {
    assert_eq!(header_field_label(0), Some("SIGNATURE"));
    assert_eq!(header_field_label(16), Some("CLSID"));
    assert_eq!(header_field_label(48), Some("Dir Start Sector"));
    assert_eq!(header_field_label(68), Some("First DIFAT Sector Location"));
    assert_eq!(header_field_label(72), Some("Number of DIFAT"));
    assert_eq!(header_field_label(76), Some("DIFAT"));
    assert_eq!(header_field_label(4), None);
    assert_eq!(header_field_label(80), None);
}

#[test]
fn sector_zero_follows_the_header() {
    let mut body = vec![0u8; 3 * 512];
    body[512] = 7;
    body[1023] = 8;
    body[1024] = 9;
    let sector = read_sector(&body, 512, 0).unwrap();
    assert_eq!(sector.len(), 512);
    assert_eq!(sector[0], 7);
    assert_eq!(sector[511], 8);
    let sector = read_sector(&body, 512, 1).unwrap();
    assert_eq!(sector[0], 9);
}

#[test]
fn sector_beyond_the_buffer_is_bad_size() {
    let body = vec![0u8; 3 * 512];
    assert_eq!(read_sector(&body, 512, 2), Err(Error::BadSizeValue("File is too short")));
    assert_eq!(read_sector(&body, 512, END_ID), Err(Error::BadSizeValue("File is too short")));
    assert_eq!(read_sector(&body, 512, u32::MAX), Err(Error::BadSizeValue("File is too short")));
    let body = vec![0u8; 3 * 512 - 1];
    assert_eq!(read_sector(&body, 512, 1), Err(Error::BadSizeValue("File is too short")));
    assert!(read_sector(&body, 512, 0).is_ok());
}

#[test]
fn chain_follows_the_table() {
    let table = vec![3, END_ID, 1, 2, FREE_ID];
    assert_eq!(walk_chain(&table, 0), Ok(vec![0, 3, 2, 1]));
    assert_eq!(walk_chain(&table, 2), Ok(vec![2, 1]));
    assert_eq!(walk_chain(&table, 4), Ok(vec![4]));
    assert_eq!(walk_chain(&table, END_ID), Ok(vec![]));
    assert_eq!(walk_chain(&table, FREE_ID), Ok(vec![]));
    assert_eq!(build_chain_from_sat(&table, 0), Ok(vec![0, 3, 2, 1]));
    assert_eq!(build_chain_from_ssat(&table, 3), Ok(vec![3, 2, 1]));
    assert_eq!(build_dsat(&table, 1), Ok(vec![1]));
}

#[test]
fn chain_has_no_repeated_id_and_ends_at_a_marker() {
    let table = vec![5, 0, 1, 2, 3, END_ID, 4, 6];
    let chain = walk_chain(&table, 7).unwrap();
    assert_eq!(chain, vec![7, 6, 4, 3, 2, 1, 0, 5]);
    for (i, a) in chain.iter().enumerate() {
        for b in chain.iter().skip(i + 1) {
            assert_ne!(a, b);
        }
    }
    let last = *chain.last().unwrap() as usize;
    assert!(table[last] == END_ID || table[last] == FREE_ID);
}

#[test]
fn chain_that_never_ends_is_invalid_format() {
    assert_eq!(walk_chain(&vec![1, 2, 0], 0), Err(Error::InvalidFormat));
    assert_eq!(walk_chain(&vec![0], 0), Err(Error::InvalidFormat));
    assert_eq!(walk_chain(&vec![1, 2, 3, 1], 0), Err(Error::InvalidFormat));
}

#[test]
fn chain_that_leaves_the_table_is_invalid_format() {
    assert_eq!(walk_chain(&vec![1, 5], 0), Err(Error::InvalidFormat));
    assert_eq!(walk_chain(&vec![1, 2], 2), Err(Error::InvalidFormat));
    assert_eq!(walk_chain(&vec![], 0), Err(Error::InvalidFormat));
    // The markers for table sectors are no sector ids.
    assert_eq!(walk_chain(&vec![0xFFFF_FFFD], 0), Err(Error::InvalidFormat));
    assert_eq!(walk_chain(&vec![0xFFFF_FFFC], 0), Err(Error::InvalidFormat));
    assert_eq!(walk_chain(&vec![0xFFFF_FFFA], 0), Err(Error::InvalidFormat));
}

#[test]
fn sector_ids_are_told_from_markers() {
    assert_eq!(classify_sector_id(0), SectorIdKind::Regular);
    assert_eq!(classify_sector_id(0xFFFF_FFF9), SectorIdKind::Regular);
    assert_eq!(classify_sector_id(0xFFFF_FFFA), SectorIdKind::Unknown);
    assert_eq!(classify_sector_id(0xFFFF_FFFB), SectorIdKind::Unknown);
    assert_eq!(classify_sector_id(0xFFFF_FFFC), SectorIdKind::DifatSector);
    assert_eq!(classify_sector_id(0xFFFF_FFFD), SectorIdKind::FatSector);
    assert_eq!(classify_sector_id(0xFFFF_FFFE), SectorIdKind::EndOfChain);
    assert_eq!(classify_sector_id(0xFFFF_FFFF), SectorIdKind::Free);
}

#[test]
fn sector_ids_are_read_up_to_the_first_beyond_the_file() {
    let mut buffer = vec![0u8; 26];
    le32(&mut buffer, 0, 4);
    le32(&mut buffer, 4, FREE_ID);
    le32(&mut buffer, 8, 0);
    le32(&mut buffer, 12, FREE_ID);
    le32(&mut buffer, 16, 9);
    le32(&mut buffer, 20, 10);
    let mut ids = vec![77];
    assert_eq!(read_sec_ids(&buffer, 10, &mut ids), 3);
    assert_eq!(ids, vec![77, 4, 0, 9]);
    let mut ids = Vec::new();
    assert_eq!(read_sec_ids(&buffer, 9, &mut ids), 2);
    assert_eq!(ids, vec![4, 0]);
    let mut ids = Vec::new();
    assert_eq!(read_sec_ids(&buffer, 11, &mut ids), 4);
    assert_eq!(ids, vec![4, 0, 9, 10]);
    let mut ids = Vec::new();
    assert_eq!(read_sec_ids(&buffer[..3], 11, &mut ids), 0);
    assert!(ids.is_empty());
}

fn two_table_sectors() -> Vec<u8> {
    let mut body = vec![0u8; 4 * 16];
    for word in 0..12 {
        le32(&mut body, 16 + 4 * word, 100 + word as u32);
    }
    body
}

#[test]
fn table_is_read_sector_by_sector() {
    let body = two_table_sectors();
    let mut table = vec![1];
    assert_eq!(read_sat_sector(&body, 16, 1, &mut table), Ok(()));
    assert_eq!(table, vec![1, 104, 105, 106, 107]);
    assert_eq!(
        read_sat_sector(&body, 16, 3, &mut table),
        Err(Error::BadSizeValue("File is too short"))
    );
    assert_eq!(table, vec![1, 104, 105, 106, 107]);
    assert_eq!(
        build_table(&body, 16, &vec![2, 0]),
        Ok(vec![108, 109, 110, 111, 100, 101, 102, 103])
    );
    assert_eq!(build_sat(&body, 16, &vec![]), Ok(vec![]));
    assert_eq!(build_sat(&body, 16, &vec![0, 3]), Err(Error::BadSizeValue("File is too short")));
}

#[test]
fn mini_table_follows_a_chain() {
    let body = two_table_sectors();
    let sat = vec![END_ID, FREE_ID, 0];
    assert_eq!(
        build_ssat(&body, 16, &sat, 2),
        Ok(vec![108, 109, 110, 111, 100, 101, 102, 103])
    );
    assert_eq!(build_ssat(&body, 16, &sat, END_ID), Ok(vec![]));
    assert_eq!(build_ssat(&body, 16, &sat, 3), Err(Error::InvalidFormat));
    let sat = vec![END_ID, FREE_ID, 3, END_ID];
    assert_eq!(build_ssat(&body, 16, &sat, 2), Err(Error::BadSizeValue("File is too short")));
}

/// A file of 137 sectors whose allocation table lies in the sectors 0 and
/// 5. Sector 5 is named by the DIFAT sector 4.
fn file_with_difat() -> Vec<u8> {
    let mut file = plain_header();
    le32(&mut file, 44, 2);
    le32(&mut file, 48, 1);
    le32(&mut file, 60, END_ID);
    le32(&mut file, 64, 0);
    le32(&mut file, 68, 4);
    le32(&mut file, 72, 1);
    le32(&mut file, 76, 0);
    file.resize(137 * 512, 0);
    let at = |sector: usize| (sector + 1) * 512;
    // Sector 0: the first half of the allocation table.
    for word in 0..128 {
        le32(&mut file, at(0) + 4 * word, FREE_ID);
    }
    le32(&mut file, at(0), 0xFFFF_FFFD);
    le32(&mut file, at(0) + 4, END_ID);
    le32(&mut file, at(0) + 4 * 2, 130);
    le32(&mut file, at(0) + 4 * 3, 131);
    le32(&mut file, at(0) + 4 * 4, 0xFFFF_FFFC);
    le32(&mut file, at(0) + 4 * 5, 0xFFFF_FFFD);
    // Sector 5: the second half.
    for word in 0..128 {
        le32(&mut file, at(5) + 4 * word, FREE_ID);
    }
    le32(&mut file, at(5) + 4 * 2, 3);
    for id in 131..135u32 {
        le32(&mut file, at(5) + 4 * (id as usize - 128), id + 1);
    }
    le32(&mut file, at(5) + 4 * 7, END_ID);
    // Sector 4: the DIFAT sector.
    for word in 0..127 {
        le32(&mut file, at(4) + 4 * word, FREE_ID);
    }
    le32(&mut file, at(4) + 4 * 3, 5);
    le32(&mut file, at(4) + 4 * 127, END_ID);
    // Sector 1: the directory.
    let root = at(1);
    file[root..root + 8].copy_from_slice(&[b'R', 0, b'o', 0, b'o', 0, b't', 0]);
    file[root + 66] = 5;
    file[root + 67] = 1;
    le32(&mut file, root + 68, FREE_ID);
    le32(&mut file, root + 72, FREE_ID);
    le32(&mut file, root + 76, 1);
    le32(&mut file, root + 116, END_ID);
    let far = root + 128;
    file[far..far + 6].copy_from_slice(&[b'F', 0, b'a', 0, b'r', 0]);
    file[far + 66] = 2;
    file[far + 67] = 1;
    le32(&mut file, far + 68, FREE_ID);
    le32(&mut file, far + 72, FREE_ID);
    le32(&mut file, far + 76, FREE_ID);
    le32(&mut file, far + 116, 2);
    le32(&mut file, far + 120, 4096);
    for record in 2..4 {
        let free = root + 128 * record;
        le32(&mut file, free, FREE_ID);
    }
    // The sectors of the stream.
    for (place, sector) in [2usize, 130, 3, 131, 132, 133, 134, 135].iter().enumerate() {
        for byte in 0..512 {
            file[at(*sector) + byte] = (place * 31 + byte) as u8;
        }
    }
    file
}

#[test]
fn allocation_table_sectors_come_from_header_and_difat() {
    let file = file_with_difat();
    let header = parse_header(&file).unwrap();
    assert_eq!(build_master_sector_allocation_table(&file, &header), Ok(vec![0, 5]));
    let tables = build_allocation_tables(&file, &header).unwrap();
    assert_eq!(tables.main_sat, vec![0, 5]);
    assert_eq!(tables.sat.len(), 256);
    assert_eq!(tables.sat[130], 3);
    assert_eq!(tables.sat[135], END_ID);
    assert!(tables.ssat.is_empty());
    assert_eq!(tables.dir_sat, vec![1]);
}

#[test]
fn stream_across_both_table_sectors_is_recovered() {
    let file = file_with_difat();
    let reader = ole::Reader::new(&file).unwrap();
    assert_eq!(reader.entries().len(), 2);
    let far = &reader.entries()[1];
    assert_eq!(far.name(), "Far");
    assert_eq!(far.sec_id_chain(), &vec![2, 130, 3, 131, 132, 133, 134, 135]);
    let mut slice = reader.get_entry_slice(far).unwrap();
    let mut content = vec![0u8; 4096];
    assert_eq!(slice.read(&mut content), 4096);
    for place in 0..8 {
        for byte in 0..512 {
            assert_eq!(content[place * 512 + byte], (place * 31 + byte) as u8);
        }
    }
}

#[test]
fn declared_table_sector_count_must_match() {
    let mut file = file_with_difat();
    le32(&mut file, 44, 3);
    let header = parse_header(&file).unwrap();
    assert_eq!(
        build_master_sector_allocation_table(&file, &header),
        Err(Error::InvalidFormat)
    );
    le32(&mut file, 44, 1);
    let header = parse_header(&file).unwrap();
    assert_eq!(
        build_master_sector_allocation_table(&file, &header),
        Err(Error::InvalidFormat)
    );
    assert_eq!(ole::Reader::new(&file).err(), Some(Error::InvalidFormat));
}

#[test]
fn difat_chain_must_end() {
    let mut file = file_with_difat();
    // The DIFAT sector names a next one, but the header declares only one.
    le32(&mut file, 5 * 512 + 4 * 127, 6);
    let header = parse_header(&file).unwrap();
    assert_eq!(
        build_master_sector_allocation_table(&file, &header),
        Err(Error::InvalidFormat)
    );
}

#[test]
fn difat_sector_outside_the_file_is_bad_size() {
    let mut file = file_with_difat();
    le32(&mut file, 68, 136);
    let header = parse_header(&file).unwrap();
    assert_eq!(
        build_master_sector_allocation_table(&file, &header),
        Err(Error::BadSizeValue("File is too short"))
    );
}

#[test]
fn undeclared_difat_chain_is_not_followed() {
    let mut file = file_with_difat();
    le32(&mut file, 72, 0);
    le32(&mut file, 44, 1);
    let header = parse_header(&file).unwrap();
    assert_eq!(build_master_sector_allocation_table(&file, &header), Ok(vec![0]));
}

fn plain_record() -> Vec<u8> {
    let mut record = vec![0u8; 128];
    for (i, unit) in "Caf\u{E9} \u{3A9}\u{1F600}".encode_utf16().enumerate() {
        le16(&mut record, 2 * i, unit);
    }
    record[66] = 2;
    record[67] = 0;
    le32(&mut record, 68, 1);
    le32(&mut record, 72, 2);
    le32(&mut record, 76, 3);
    for (i, byte) in record[80..96].iter_mut().enumerate() {
        *byte = 0xA0 + i as u8;
    }
    le32(&mut record, 96, 0x0102_0304);
    record[100..108].copy_from_slice(&0x1122_3344_5566_7788u64.to_le_bytes());
    record[108..116].copy_from_slice(&0x99AA_BBCC_DDEE_FF00u64.to_le_bytes());
    le32(&mut record, 116, 42);
    le32(&mut record, 120, 1000);
    le32(&mut record, 124, 1);
    record
}

#[test]
fn record_fields_are_decoded() {
    let entry = Entry::from_slice(&plain_record(), 9, false).unwrap();
    assert_eq!(entry.id(), 9);
    assert_eq!(entry.name(), "Caf\u{E9} \u{3A9}\u{1F600}");
    assert_eq!(entry._type(), EntryType::UserStream);
    assert_eq!(entry.color(), NodeColour::Red);
    assert_eq!(entry.left_child_node(), 1);
    assert_eq!(entry.right_child_node(), 2);
    assert_eq!(entry.root_node(), 3);
    assert_eq!(entry.identifier()[0], 0xA0);
    assert_eq!(entry.identifier()[15], 0xAF);
    assert_eq!(entry.flags(), 0x0102_0304);
    assert_eq!(entry.creation_time(), 0x1122_3344_5566_7788);
    assert_eq!(entry.last_modification_time(), 0x99AA_BBCC_DDEE_FF00);
    assert_eq!(entry.start_sector(), 42);
    assert_eq!(entry.len(), 1000);
    assert!(!entry.is_empty());
    assert_eq!(entry.parent_node(), None);
    assert!(entry.children_nodes().is_empty());
    assert!(entry.sec_id_chain().is_empty());
}

#[test]
fn record_size_is_wide_with_large_sectors() {
    let entry = Entry::from_slice(&plain_record(), 0, true).unwrap();
    assert_eq!(entry.len() as u64, 0x1_0000_0000 + 1000);
}

#[test]
fn record_name_ends_at_the_first_null() {
    let mut record = plain_record();
    le16(&mut record, 6, 0);
    let entry = Entry::from_slice(&record, 0, false).unwrap();
    assert_eq!(entry.name(), "Caf");
    le16(&mut record, 0, 0);
    let entry = Entry::from_slice(&record, 0, false).unwrap();
    assert_eq!(entry.name(), "");
    // A code unit with a null low byte is no null code unit.
    le16(&mut record, 0, 0x0100);
    let entry = Entry::from_slice(&record, 0, false).unwrap();
    assert_eq!(entry.name(), "\u{100}af");
}

#[test]
fn record_name_may_fill_the_field() {
    let mut record = plain_record();
    for i in 0..32 {
        le16(&mut record, 2 * i, b'a' as u16 + (i as u16 % 26));
    }
    let entry = Entry::from_slice(&record, 0, false).unwrap();
    assert_eq!(entry.name(), "abcdefghijklmnopqrstuvwxyzabcdef");
}

#[test]
fn record_name_with_unpaired_surrogate() {
    let mut record = plain_record();
    le16(&mut record, 0, 0xD800);
    le16(&mut record, 2, b'x' as u16);
    le16(&mut record, 4, 0);
    let entry = Entry::from_slice(&record, 0, false).unwrap();
    assert_eq!(entry.name(), "\u{FFFD}x");
}

#[test]
fn record_kinds_and_colours() {
    let kinds = [
        EntryType::Empty,
        EntryType::UserStorage,
        EntryType::UserStream,
        EntryType::LockBytes,
        EntryType::Property,
        EntryType::RootStorage,
    ];
    for (byte, kind) in kinds.iter().enumerate() {
        assert_eq!(EntryType::from(byte as u8), Ok(*kind));
        let mut record = plain_record();
        record[66] = byte as u8;
        assert_eq!(Entry::from_slice(&record, 0, false).unwrap()._type(), *kind);
    }
    assert_eq!(NodeColour::from(0), Ok(NodeColour::Red));
    assert_eq!(NodeColour::from(1), Ok(NodeColour::Black));
    let mut record = plain_record();
    record[67] = 1;
    assert_eq!(Entry::from_slice(&record, 0, false).unwrap().color(), NodeColour::Black);
}

#[test]
fn record_of_unknown_kind_or_colour_is_invalid_format() {
    for byte in [6u8, 7, 100, 255] {
        assert_eq!(EntryType::from(byte), Err(Error::InvalidFormat));
        let mut record = plain_record();
        record[66] = byte;
        assert_eq!(Entry::from_slice(&record, 0, false).err(), Some(Error::InvalidFormat));
    }
    for byte in [2u8, 3, 255] {
        assert_eq!(NodeColour::from(byte), Err(Error::InvalidFormat));
        let mut record = plain_record();
        record[67] = byte;
        assert_eq!(Entry::from_slice(&record, 0, false).err(), Some(Error::InvalidFormat));
    }
}

#[test]
fn short_record_is_bad_size() {
    let record = plain_record();
    assert_eq!(
        Entry::from_slice(&record[..127], 0, false).err(),
        Some(Error::BadSizeValue("Directory entry is too short"))
    );
}

#[test]
fn kinds_and_colours_have_names() {
    assert_eq!(EntryType::Empty.label(), "Empty");
    assert_eq!(EntryType::UserStorage.label(), "User storage");
    assert_eq!(EntryType::UserStream.label(), "User stream");
    assert_eq!(EntryType::LockBytes.label(), "?? Lock bytes ??");
    assert_eq!(EntryType::Property.label(), "?? Property ??");
    assert_eq!(EntryType::RootStorage.label(), "Root storage");
    assert_eq!(NodeColour::Red.label(), "RED");
    assert_eq!(NodeColour::Black.label(), "BLACK");
}

#[test]
fn directory_ends_at_the_free_marker() {
    let mut body = vec![0u8; 4 * 512];
    let mut record = plain_record();
    for sector in [0usize, 2] {
        for slot in 0..4 {
            record[66] = 1 + slot as u8;
            let at = (sector + 1) * 512 + 128 * slot;
            body[at..at + 128].copy_from_slice(&record);
        }
    }
    let entries = parse_directory(&body, 512, &vec![2, 0], false).unwrap();
    assert_eq!(entries.len(), 8);
    for (i, entry) in entries.iter().enumerate() {
        assert_eq!(entry.id() as usize, i);
    }
    assert_eq!(entries[5]._type(), EntryType::UserStream);
    // The second record of sector 0, which is the sixth of the directory, is free.
    le32(&mut body, 512 + 128, FREE_ID);
    let entries = parse_directory(&body, 512, &vec![2, 0], false).unwrap();
    assert_eq!(entries.len(), 5);
    // A fault behind the free marker is not found.
    body[512 + 2 * 128 + 66] = 77;
    assert_eq!(parse_directory(&body, 512, &vec![2, 0], false).unwrap().len(), 5);
    // A fault before it is.
    body[3 * 512 + 66] = 77;
    assert_eq!(
        parse_directory(&body, 512, &vec![2, 0], false).err(),
        Some(Error::InvalidFormat)
    );
}

#[test]
fn directory_sector_outside_the_file_is_bad_size() {
    let body = vec![0u8; 4 * 512];
    assert_eq!(
        parse_directory(&body, 512, &vec![0, 3], false).err(),
        Some(Error::BadSizeValue("File is too short"))
    );
    assert_eq!(parse_directory(&body, 512, &vec![], false).unwrap().len(), 0);
    assert_eq!(parse_directory(&body, 64, &vec![0, 1], false).unwrap().len(), 0);
}

#[test]
fn stream_slices_are_whole_sectors() {
    let mut body = vec![0u8; 5 * 16];
    for (i, byte) in body.iter_mut().enumerate() {
        *byte = i as u8;
    }
    let mut slice = get_stream_slices(&body, 16, &vec![2, 0], 20).unwrap();
    assert_eq!(slice.len(), 20);
    assert_eq!(slice.real_len(), 32);
    let mut buf = [0u8; 32];
    assert_eq!(slice.read(&mut buf), 20);
    let mut expected: Vec<u8> = (48..64).collect();
    expected.extend(16..20);
    assert_eq!(&buf[..20], &expected[..]);
    assert_eq!(slice.read(&mut buf), 0);
    assert_eq!(
        get_stream_slices(&body, 16, &vec![2, 0], 33).err(),
        Some(Error::BadSizeValue("Stream is longer than its chain"))
    );
    assert_eq!(
        get_stream_slices(&body, 16, &vec![2, 4], 20).err(),
        Some(Error::BadSizeValue("File is too short"))
    );
    assert!(get_stream_slices(&body, 16, &vec![2, 0], 32).is_ok());
    assert!(get_stream_slices(&body, 16, &vec![], 0).is_ok());
}

#[test]
fn mini_sectors_lie_in_the_sectors_of_the_root() {
    let mut body = vec![0u8; 5 * 16];
    for (i, byte) in body.iter_mut().enumerate() {
        *byte = i as u8;
    }
    // Sectors of 16 bytes hold four mini sectors of 4 bytes. The mini
    // stream lies in the sectors 3 and 1.
    let root_chain = vec![3, 1];
    let mut slice = get_short_stream_slices(&body, 16, 4, &root_chain, &vec![5, 0, 7], 10).unwrap();
    assert_eq!(slice.len(), 10);
    assert_eq!(slice.real_len(), 12);
    let mut buf = [0u8; 10];
    assert_eq!(slice.read(&mut buf), 10);
    assert_eq!(buf, [36, 37, 38, 39, 64, 65, 66, 67, 44, 45]);
    assert_eq!(
        get_short_stream_slices(&body, 16, 4, &root_chain, &vec![8], 1).err(),
        Some(Error::BadSizeValue("Mini stream is too short"))
    );
    assert_eq!(
        get_short_stream_slices(&body, 16, 4, &vec![3, 4], &vec![4], 1).err(),
        Some(Error::BadSizeValue("Mini stream is too short"))
    );
    assert_eq!(
        get_short_stream_slices(&body, 16, 4, &root_chain, &vec![0], 5).err(),
        Some(Error::BadSizeValue("Stream is longer than its chain"))
    );
    assert_eq!(
        get_short_stream_slices(&body, 16, 32, &root_chain, &vec![0], 5).err(),
        Some(Error::BadSizeValue("Mini stream is too short"))
    );
}

#[test]
fn difat_slot_that_names_no_sector_is_invalid_format() {
    let mut file = file_with_difat();
    // A slot of the DIFAT sector behind the one that names sector 5.
    le32(&mut file, 5 * 512 + 4 * 9, 137);
    let header = parse_header(&file).unwrap();
    assert_eq!(
        build_master_sector_allocation_table(&file, &header),
        Err(Error::InvalidFormat)
    );
    // The last sector of the file is named by 135; 136 fits the count of
    // sector sizes and is found to be outside the file when it is read.
    let mut file = file_with_difat();
    le32(&mut file, 44, 3);
    le32(&mut file, 5 * 512 + 4 * 9, 136);
    let header = parse_header(&file).unwrap();
    assert_eq!(build_master_sector_allocation_table(&file, &header), Ok(vec![0, 5, 136]));
    assert_eq!(
        build_allocation_tables(&file, &header).err(),
        Some(Error::BadSizeValue("File is too short"))
    );
}
