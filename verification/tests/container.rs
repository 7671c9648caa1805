use ole::entry::{Entry, EntryType};
use ole::error::Error;
use ole::ole::Reader;

const SECTOR: usize = 512;
const MINI: usize = 64;
const FREE: u32 = 0xFFFF_FFFF;
const END: u32 = 0xFFFF_FFFE;
const FATSECT: u32 = 0xFFFF_FFFD;

fn put_u16(buf: &mut [u8], at: usize, value: u16) {
    buf[at..at + 2].copy_from_slice(&value.to_le_bytes());
}

fn put_u32(buf: &mut [u8], at: usize, value: u32) {
    buf[at..at + 4].copy_from_slice(&value.to_le_bytes());
}

fn put_u64(buf: &mut [u8], at: usize, value: u64) {
    buf[at..at + 8].copy_from_slice(&value.to_le_bytes());
}

/// A header for sectors of 512 bytes with one allocation-table sector, sector 0.
fn sample_header(dir_start: u32, mini_fat_start: u32) -> Vec<u8> {
    let mut header = vec![0u8; SECTOR];
    header[0..8].copy_from_slice(&[0xD0, 0xCF, 0x11, 0xE0, 0xA1, 0xB1, 0x1A, 0xE1]);
    put_u16(&mut header, 24, 0x003E);
    put_u16(&mut header, 26, 3);
    header[28] = 0xFE;
    header[29] = 0xFF;
    put_u16(&mut header, 30, 9);
    put_u16(&mut header, 32, 6);
    put_u32(&mut header, 44, 1);
    put_u32(&mut header, 48, dir_start);
    put_u32(&mut header, 56, 4096);
    put_u32(&mut header, 60, mini_fat_start);
    put_u32(&mut header, 64, 1);
    put_u32(&mut header, 68, END);
    put_u32(&mut header, 72, 0);
    for slot in 0..109 {
        put_u32(&mut header, 76 + 4 * slot, FREE);
    }
    put_u32(&mut header, 76, 0);
    header
}

fn table_sector(entries: &[(usize, u32)]) -> Vec<u8> {
    let mut sector = vec![0xFFu8; SECTOR];
    for &(at, value) in entries {
        put_u32(&mut sector, 4 * at, value);
    }
    sector
}

fn data_sector(index: usize) -> Vec<u8> {
    let mut sector = vec![0u8; SECTOR];
    for (i, byte) in sector.iter_mut().enumerate() {
        *byte = (((index * SECTOR + i) * 7 + 3) % 251) as u8;
    }
    sector
}

#[allow(clippy::too_many_arguments)]
fn record(
    name: &str,
    kind: u8,
    colour: u8,
    left: u32,
    right: u32,
    child: u32,
    start: u32,
    size: u32,
) -> Vec<u8> {
    let mut record = vec![0u8; 128];
    let mut units: Vec<u16> = name.encode_utf16().collect();
    units.push(0);
    for (i, unit) in units.iter().enumerate() {
        put_u16(&mut record, 2 * i, *unit);
    }
    put_u16(&mut record, 64, (2 * units.len()) as u16);
    record[66] = kind;
    record[67] = colour;
    put_u32(&mut record, 68, left);
    put_u32(&mut record, 72, right);
    put_u32(&mut record, 76, child);
    put_u64(&mut record, 100, 0x01D0_0000_0000_0001);
    put_u64(&mut record, 108, 0x01D0_0000_0000_0002);
    put_u32(&mut record, 116, start);
    put_u32(&mut record, 120, size);
    record
}

fn directory_sector(records: &[Vec<u8>]) -> Vec<u8> {
    let mut sector = Vec::new();
    for record in records {
        sector.extend_from_slice(record);
    }
    assert_eq!(sector.len(), SECTOR);
    sector
}

const BIG_CHAIN: [u32; 9] = [6, 8, 7, 9, 10, 11, 12, 13, 14];
const BIG_SIZE: usize = 4196;
const SMALL_SIZE: usize = 100;
const TINY_SIZE: usize = 10;

/// A container with a root, a folder in it, a stream of 4196 bytes beside
/// the folder, and two mini streams in the folder.
fn sample_container() -> Vec<u8> {
    let mut file = sample_header(1, 3);
    // Sector 0: the allocation table.
    file.extend(table_sector(&[
        (0, FATSECT),
        (1, 2),
        (2, END),
        (3, END),
        (4, 5),
        (5, END),
        (6, 8),
        (8, 7),
        (7, 9),
        (9, 10),
        (10, 11),
        (11, 12),
        (12, 13),
        (13, 14),
        (14, END),
    ]));
    // Sectors 1 and 2: the directory.
    file.extend(directory_sector(&[
        record("Root Entry", 5, 1, FREE, FREE, 1, 4, 1024),
        record("Folder", 1, 1, 2, FREE, 3, 0, 0),
        record("Big", 2, 0, FREE, FREE, FREE, 6, BIG_SIZE as u32),
        record("Small", 2, 1, 4, FREE, FREE, 1, SMALL_SIZE as u32),
    ]));
    let mut unused = record("", 0, 0, FREE, FREE, FREE, 0, 0);
    unused[0..4].copy_from_slice(&[0, 0, 0, 0]);
    let mut free = vec![0u8; 128];
    free[0..4].copy_from_slice(&[0xFF, 0xFF, 0xFF, 0xFF]);
    let mut never_read = vec![0u8; 128];
    never_read[66] = 9;
    file.extend(directory_sector(&[
        record("Tiny \u{3A9}", 2, 0, FREE, FREE, FREE, 0, TINY_SIZE as u32),
        unused,
        free,
        never_read,
    ]));
    // Sector 3: the mini allocation table.
    file.extend(table_sector(&[(0, END), (1, 9), (9, END)]));
    // Sectors 4 to 14: the mini stream and the big stream.
    for index in 4..15 {
        file.extend(data_sector(index));
    }
    assert_eq!(file.len(), 16 * SECTOR);
    file
}

fn sector_of(file: &[u8], index: usize) -> &[u8] {
    &file[(index + 1) * SECTOR..(index + 2) * SECTOR]
}

fn expected_big(file: &[u8]) -> Vec<u8> {
    let mut bytes = Vec::new();
    for &sector in BIG_CHAIN.iter() {
        bytes.extend_from_slice(sector_of(file, sector as usize));
    }
    bytes.truncate(BIG_SIZE);
    bytes
}

fn mini_sector_of(file: &[u8], mini: usize) -> &[u8] {
    let root_chain = [4usize, 5usize];
    let sector = sector_of(file, root_chain[mini / 8]);
    &sector[(mini % 8) * MINI..(mini % 8 + 1) * MINI]
}

fn read_all(reader: &Reader, entry: &Entry, room: usize) -> Vec<u8> {
    let mut slice = reader.get_entry_slice(entry).unwrap();
    let mut bytes = Vec::new();
    let mut buf = vec![0u8; room];
    loop {
        let count = slice.read(&mut buf);
        if count == 0 {
            break;
        }
        bytes.extend_from_slice(&buf[..count]);
    }
    assert_eq!(slice.read(&mut buf), 0);
    bytes
}

#[test]
fn container_lists_its_entries() {
    let file = sample_container();
    let reader = Reader::new(&file).unwrap();
    let mut names = Vec::new();
    let mut iter = reader.iterate();
    while let Some(entry) = iter.next() {
        assert_eq!(entry.id() as usize, names.len());
        names.push(entry.name().to_string());
    }
    assert_eq!(names, vec!["Root Entry", "Folder", "Big", "Small", "Tiny \u{3A9}", ""]);
    assert!(iter.next().is_none());
}

#[test]
fn container_entry_fields() {
    let file = sample_container();
    let reader = Reader::new(&file).unwrap();
    let entries = reader.entries();
    assert_eq!(entries[0]._type(), EntryType::RootStorage);
    assert_eq!(entries[1]._type(), EntryType::UserStorage);
    assert_eq!(entries[2]._type(), EntryType::UserStream);
    assert_eq!(entries[5]._type(), EntryType::Empty);
    assert_eq!(entries[2].len(), BIG_SIZE);
    assert!(!entries[2].is_empty());
    assert!(entries[1].is_empty());
    assert_eq!(entries[1].left_child_node(), 2);
    assert_eq!(entries[1].right_child_node(), FREE);
    assert_eq!(entries[1].root_node(), 3);
    assert_eq!(entries[2].creation_time(), 0x01D0_0000_0000_0001);
    assert_eq!(entries[2].last_modification_time(), 0x01D0_0000_0000_0002);
    assert_eq!(entries[2].start_sector(), 6);
}

#[test]
fn container_hierarchy() {
    let file = sample_container();
    let reader = Reader::new(&file).unwrap();
    let entries = reader.entries();
    assert_eq!(entries.len(), 6);
    assert_eq!(entries[0].parent_node(), None);
    assert_eq!(entries[1].parent_node(), Some(0));
    assert_eq!(entries[2].parent_node(), Some(0));
    assert_eq!(entries[3].parent_node(), Some(1));
    assert_eq!(entries[4].parent_node(), Some(1));
    assert_eq!(entries[5].parent_node(), None);
    assert_eq!(entries[0].children_nodes(), &vec![1, 2]);
    assert_eq!(entries[1].children_nodes(), &vec![3, 4]);
    assert!(entries[2].children_nodes().is_empty());
    assert!(entries[5].children_nodes().is_empty());
    assert_eq!(reader.root_entry(), Some(0));
}

#[test]
fn container_chains() {
    let file = sample_container();
    let reader = Reader::new(&file).unwrap();
    let entries = reader.entries();
    assert_eq!(entries[0].sec_id_chain(), &vec![4, 5]);
    assert!(entries[1].sec_id_chain().is_empty());
    assert_eq!(entries[2].sec_id_chain(), &BIG_CHAIN.to_vec());
    assert_eq!(entries[3].sec_id_chain(), &vec![1, 9]);
    assert_eq!(entries[4].sec_id_chain(), &vec![0]);
}

#[test]
fn container_tables() {
    let file = sample_container();
    let reader = Reader::new(&file).unwrap();
    assert_eq!(reader.sec_size(), 512);
    assert_eq!(reader.short_sec_size(), 64);
    assert_eq!(reader.minimum_standard_stream_size(), 4096);
    assert_eq!(reader.main_sat(), &vec![0]);
    assert_eq!(reader.sat().len(), 128);
    assert_eq!(reader.sat()[6], 8);
    assert_eq!(reader.ssat().len(), 128);
    assert_eq!(reader.ssat()[1], 9);
    assert_eq!(reader.dir_sat(), &vec![1, 2]);
    assert_eq!(reader.uid(), &[0u8; 16]);
    assert_eq!(reader.revision_number(), 0x3E);
    assert_eq!(reader.version_number(), 3);
}

#[test]
fn big_stream_is_recovered() {
    let file = sample_container();
    let reader = Reader::new(&file).unwrap();
    let big = &reader.entries()[2];
    let slice = reader.get_entry_slice(big).unwrap();
    assert_eq!(slice.len(), BIG_SIZE);
    assert_eq!(slice.real_len(), 9 * SECTOR);
    assert!(slice.real_len() >= slice.len());
    assert!(!slice.is_empty());
    assert_eq!(read_all(&reader, big, 1000), expected_big(&file));
    assert_eq!(read_all(&reader, big, 1), expected_big(&file));
    assert_eq!(read_all(&reader, big, 5000), expected_big(&file));
}

#[test]
fn read_is_bounded_by_buffer_and_stream() {
    let file = sample_container();
    let reader = Reader::new(&file).unwrap();
    let big = &reader.entries()[2];
    let mut slice = reader.get_entry_slice(big).unwrap();
    let mut buf = vec![0xAAu8; 600];
    assert_eq!(slice.read(&mut buf), 600);
    assert_eq!(&buf[..], &expected_big(&file)[..600]);
    let mut large = vec![0xAAu8; 5000];
    assert_eq!(slice.read(&mut large), BIG_SIZE - 600);
    assert_eq!(&large[..BIG_SIZE - 600], &expected_big(&file)[600..]);
    assert!(large[BIG_SIZE - 600..].iter().all(|&byte| byte == 0xAA));
    assert_eq!(slice.read(&mut large), 0);
    let mut none: Vec<u8> = Vec::new();
    assert_eq!(slice.read(&mut none), 0);
}

#[test]
fn mini_streams_are_recovered() {
    let file = sample_container();
    let reader = Reader::new(&file).unwrap();
    let small = &reader.entries()[3];
    let mut expected = mini_sector_of(&file, 1).to_vec();
    expected.extend_from_slice(mini_sector_of(&file, 9));
    expected.truncate(SMALL_SIZE);
    let slice = reader.get_entry_slice(small).unwrap();
    assert_eq!(slice.len(), SMALL_SIZE);
    assert_eq!(slice.real_len(), 2 * MINI);
    assert_eq!(read_all(&reader, small, 33), expected);
    let tiny = &reader.entries()[4];
    assert_eq!(read_all(&reader, tiny, 64), mini_sector_of(&file, 0)[..TINY_SIZE].to_vec());
}

#[test]
fn root_stream_is_the_mini_stream() {
    let file = sample_container();
    let reader = Reader::new(&file).unwrap();
    let root = &reader.entries()[0];
    let mut expected = sector_of(&file, 4).to_vec();
    expected.extend_from_slice(sector_of(&file, 5));
    assert_eq!(read_all(&reader, root, 300), expected);
}

#[test]
fn entry_without_bytes_has_no_slice() {
    let file = sample_container();
    let reader = Reader::new(&file).unwrap();
    let folder = &reader.entries()[1];
    assert_eq!(reader.get_entry_slice(folder).err(), Some(Error::EmptyEntry));
    let unused = &reader.entries()[5];
    assert_eq!(reader.get_entry_slice(unused).err(), Some(Error::EmptyEntry));
}

#[test]
fn truncated_container_is_bad_size() {
    let mut file = sample_container();
    file.truncate(15 * SECTOR + 511);
    assert_eq!(Reader::new(&file).err(), Some(Error::BadSizeValue("File is too short")));
}

#[test]
fn stream_longer_than_chain_is_bad_size() {
    let mut file = sample_container();
    // "Big" declares one byte more than its nine sectors hold.
    put_u32(&mut file, 2 * SECTOR + 2 * 128 + 120, 9 * 512 + 1);
    assert_eq!(
        Reader::new(&file).err(),
        Some(Error::BadSizeValue("Stream is longer than its chain"))
    );
}

#[test]
fn mini_sector_outside_root_chain_is_bad_size() {
    let mut file = sample_container();
    // Mini sector 1 is followed by mini sector 16, which the two sectors of
    // the mini stream do not hold.
    put_u32(&mut file, 4 * SECTOR + 4, 16);
    put_u32(&mut file, 4 * SECTOR + 4 * 16, END);
    assert_eq!(Reader::new(&file).err(), Some(Error::BadSizeValue("Mini stream is too short")));
}

#[test]
fn cyclic_chain_is_invalid_format() {
    let mut file = sample_container();
    // Sector 14 leads back to sector 6.
    put_u32(&mut file, SECTOR + 4 * 14, 6);
    assert_eq!(Reader::new(&file).err(), Some(Error::InvalidFormat));
}

#[test]
fn chain_outside_table_is_invalid_format() {
    let mut file = sample_container();
    put_u32(&mut file, SECTOR + 4 * 14, 128);
    assert_eq!(Reader::new(&file).err(), Some(Error::InvalidFormat));
}

#[test]
fn fat_count_mismatch_is_invalid_format() {
    let mut file = sample_container();
    put_u32(&mut file, 44, 2);
    assert_eq!(Reader::new(&file).err(), Some(Error::InvalidFormat));
}

#[test]
fn unknown_kind_is_invalid_format() {
    let mut file = sample_container();
    file[2 * SECTOR + 128 + 66] = 6;
    assert_eq!(Reader::new(&file).err(), Some(Error::InvalidFormat));
}

#[test]
fn unknown_colour_is_invalid_format() {
    let mut file = sample_container();
    file[2 * SECTOR + 128 + 67] = 2;
    assert_eq!(Reader::new(&file).err(), Some(Error::InvalidFormat));
}

#[test]
fn entry_met_twice_is_invalid_format() {
    let mut file = sample_container();
    // "Big" names "Folder" as its right neighbour: the walk meets it twice.
    put_u32(&mut file, 2 * SECTOR + 2 * 128 + 72, 1);
    assert_eq!(Reader::new(&file).err(), Some(Error::InvalidFormat));
}

#[test]
fn link_beyond_directory_is_ignored() {
    let mut file = sample_container();
    put_u32(&mut file, 2 * SECTOR + 2 * 128 + 72, 6);
    let reader = Reader::new(&file).unwrap();
    assert_eq!(reader.entries()[0].children_nodes(), &vec![1, 2]);
}

#[test]
fn directory_without_root_is_invalid_format() {
    let mut file = sample_container();
    file[2 * SECTOR + 66] = 1;
    assert_eq!(Reader::new(&file).err(), Some(Error::InvalidFormat));
}

#[test]
fn big_endian_is_unsupported() {
    let mut file = sample_container();
    file[28] = 0xFF;
    file[29] = 0xFE;
    assert_eq!(Reader::new(&file).err(), Some(Error::Unsupported));
}

#[test]
fn altered_signature_is_invalid_format() {
    for at in 0..8 {
        let mut file = sample_container();
        file[at] ^= 0x01;
        assert_eq!(Reader::new(&file).err(), Some(Error::InvalidFormat));
    }
}

#[test]
fn low_stream_threshold_is_invalid_format() {
    let mut file = sample_container();
    put_u32(&mut file, 56, 4095);
    assert_eq!(Reader::new(&file).err(), Some(Error::InvalidFormat));
}

#[test]
fn version_three_needs_sectors_of_512() {
    let mut file = sample_container();
    put_u16(&mut file, 30, 12);
    assert_eq!(Reader::new(&file).err(), Some(Error::BadSizeValue("Wrong Sector size!")));
    let mut file = sample_container();
    put_u16(&mut file, 32, 7);
    assert_eq!(Reader::new(&file).err(), Some(Error::BadSizeValue("Wrong Mini Sector size!")));
}

/// A container of 19 sectors with one stream, "S", of `size` bytes. Its
/// first sector is 11 in both tables: the allocation table leads from
/// there through the sectors 11 to 18, the mini allocation table through
/// the mini sectors 11 to 63 and then 0 to 10.
fn threshold_container(size: u32) -> Vec<u8> {
    let mut file = sample_header(1, 2);
    let mut table = vec![(0usize, FATSECT), (1, END), (2, END)];
    for sector in 3..10 {
        table.push((sector, sector as u32 + 1));
    }
    table.push((10, END));
    for sector in 11..18 {
        table.push((sector, sector as u32 + 1));
    }
    table.push((18, END));
    file.extend(table_sector(&table));
    let mut free = vec![0u8; 128];
    free[0..4].copy_from_slice(&[0xFF, 0xFF, 0xFF, 0xFF]);
    file.extend(directory_sector(&[
        record("Root Entry", 5, 1, FREE, FREE, 1, 3, 4096),
        record("S", 2, 1, FREE, FREE, FREE, 11, size),
        free.clone(),
        free,
    ]));
    let mut mini_table = Vec::new();
    for mini in 11..63 {
        mini_table.push((mini, mini as u32 + 1));
    }
    mini_table.push((63, 0));
    for mini in 0..10 {
        mini_table.push((mini, mini as u32 + 1));
    }
    mini_table.push((10, END));
    file.extend(table_sector(&mini_table));
    for index in 3..19 {
        file.extend(data_sector(index));
    }
    assert_eq!(file.len(), 20 * SECTOR);
    file
}

#[test]
fn stream_below_threshold_lies_in_mini_sectors() {
    let file = threshold_container(4095);
    let reader = Reader::new(&file).unwrap();
    let stream = &reader.entries()[1];
    let mut chain: Vec<u32> = (11..64).collect();
    chain.extend(0..11);
    assert_eq!(stream.sec_id_chain(), &chain);
    let root_chain = reader.entries()[0].sec_id_chain().clone();
    assert_eq!(root_chain, vec![3, 4, 5, 6, 7, 8, 9, 10]);
    // Each mini sector lies in a sector of the chain of the root storage.
    for mini in chain.iter() {
        assert!((*mini as usize) / 8 < root_chain.len());
    }
    let slice = reader.get_entry_slice(stream).unwrap();
    assert_eq!(slice.len(), 4095);
    assert_eq!(slice.real_len(), 4096);
    let mut expected = Vec::new();
    for mini in chain.iter() {
        let sector = sector_of(&file, root_chain[*mini as usize / 8] as usize);
        let within = *mini as usize % 8;
        expected.extend_from_slice(&sector[within * MINI..(within + 1) * MINI]);
    }
    expected.truncate(4095);
    assert_eq!(read_all(&reader, stream, 777), expected);
}

#[test]
fn stream_at_threshold_lies_in_sectors() {
    let file = threshold_container(4096);
    let reader = Reader::new(&file).unwrap();
    let stream = &reader.entries()[1];
    assert_eq!(stream.sec_id_chain(), &vec![11, 12, 13, 14, 15, 16, 17, 18]);
    let slice = reader.get_entry_slice(stream).unwrap();
    assert_eq!(slice.len(), 4096);
    assert_eq!(slice.real_len(), 4096);
    let mut expected = Vec::new();
    for sector in 11..19 {
        expected.extend_from_slice(sector_of(&file, sector));
    }
    assert_eq!(read_all(&reader, stream, 4096), expected);
}

/// A container with sectors of 4096 bytes: the header fills the first of
/// them, sector 0 holds the allocation table, sector 1 the directory,
/// sector 2 a stream of 4096 bytes.
fn large_sector_container() -> Vec<u8> {
    let mut file = sample_header(1, END);
    put_u16(&mut file, 26, 4);
    put_u16(&mut file, 30, 12);
    put_u32(&mut file, 64, 0);
    file.resize(4 * 4096, 0);
    for word in 0..1024 {
        put_u32(&mut file, 4096 + 4 * word, FREE);
    }
    put_u32(&mut file, 4096, FATSECT);
    put_u32(&mut file, 4096 + 4, END);
    put_u32(&mut file, 4096 + 8, END);
    let root = record("Root Entry", 5, 1, FREE, FREE, 1, END, 0);
    let stream = record("Page", 2, 1, FREE, FREE, FREE, 2, 4096);
    file[2 * 4096..2 * 4096 + 128].copy_from_slice(&root);
    file[2 * 4096 + 128..2 * 4096 + 256].copy_from_slice(&stream);
    put_u32(&mut file, 2 * 4096 + 256, FREE);
    for byte in 0..4096 {
        file[3 * 4096 + byte] = (byte % 253) as u8;
    }
    file
}

#[test]
fn container_with_large_sectors() {
    let file = large_sector_container();
    let reader = Reader::new(&file).unwrap();
    assert_eq!(reader.sec_size(), 4096);
    assert_eq!(reader.sat().len(), 1024);
    assert_eq!(reader.entries().len(), 2);
    let page = &reader.entries()[1];
    assert_eq!(page.len(), 4096);
    assert_eq!(read_all(&reader, page, 1500), file[3 * 4096..].to_vec());
}

#[test]
fn wide_size_counts_with_large_sectors_only() {
    // With sectors of 4096 bytes the size field is 64 bits wide.
    let mut file = large_sector_container();
    put_u32(&mut file, 2 * 4096 + 128 + 124, 1);
    assert_eq!(
        Reader::new(&file).err(),
        Some(Error::BadSizeValue("Stream is longer than its chain"))
    );
    // With sectors of 512 bytes its upper half is not read.
    let mut file = sample_container();
    put_u32(&mut file, 2 * SECTOR + 2 * 128 + 124, 1);
    let reader = Reader::new(&file).unwrap();
    assert_eq!(reader.entries()[2].len(), BIG_SIZE);
}

#[test]
fn entry_of_another_container_is_held_against_this_one() {
    let file = sample_container();
    let reader = Reader::new(&file).unwrap();
    let other_file = threshold_container(4096);
    let other = Reader::new(&other_file).unwrap();
    // The chain 11 to 18 of the other container's stream does not fit the
    // 15 sectors of this one.
    assert_eq!(
        reader.get_entry_slice(&other.entries()[1]).err(),
        Some(Error::BadSizeValue("File is too short"))
    );
}

#[test]
fn storage_with_a_size_is_bad_size() {
    let mut file = sample_container();
    // "Folder" declares five bytes, and a storage has no chain to hold them.
    put_u32(&mut file, 2 * SECTOR + 128 + 120, 5);
    assert_eq!(
        Reader::new(&file).err(),
        Some(Error::BadSizeValue("Stream is longer than its chain"))
    );
}

#[test]
fn only_an_entry_of_size_zero_is_empty() {
    let file = sample_container();
    let reader = Reader::new(&file).unwrap();
    for entry in reader.entries().iter() {
        let slice = reader.get_entry_slice(entry);
        if entry.is_empty() {
            assert_eq!(slice.err(), Some(Error::EmptyEntry));
        } else {
            assert_eq!(slice.unwrap().len(), entry.len());
        }
    }
}

#[test]
fn slot_that_names_no_sector_is_invalid_format() {
    // The second slot of the header names sector 1000 of a file of 15.
    let mut file = sample_container();
    put_u32(&mut file, 76 + 4, 1000);
    assert_eq!(Reader::new(&file).err(), Some(Error::InvalidFormat));
    // So it is with a reserved value that is no marker.
    let mut file = sample_container();
    put_u32(&mut file, 76 + 4 * 108, 0xFFFF_FFFA);
    assert_eq!(Reader::new(&file).err(), Some(Error::InvalidFormat));
}

#[test]
fn members_are_reached_through_neighbours() {
    let mut file = sample_container();
    // "Tiny" names the unused entry as its right neighbour: the folder
    // then holds it too, reached from "Small" by a left and a right link.
    put_u32(&mut file, 3 * SECTOR + 72, 5);
    let reader = Reader::new(&file).unwrap();
    let entries = reader.entries();
    assert_eq!(entries[1].children_nodes(), &vec![3, 4, 5]);
    assert_eq!(entries[5].parent_node(), Some(1));
    assert_eq!(entries[0].children_nodes(), &vec![1, 2]);
    for (id, entry) in entries.iter().enumerate() {
        for holder in entries.iter() {
            let held = holder.children_nodes().contains(&(id as u32));
            assert_eq!(held, entry.parent_node() == Some(holder.id()));
        }
    }
}

#[test]
fn iteration_hands_out_every_entry_once() {
    let file = sample_container();
    let reader = Reader::new(&file).unwrap();
    let mut iter = reader.iterate();
    for expected in 0..6u32 {
        assert_eq!(iter.next().unwrap().id(), expected);
    }
    assert!(iter.next().is_none());
    assert!(iter.next().is_none());
}
