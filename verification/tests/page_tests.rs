use paged_storage::disk_manager::PAGE_SIZE;
use paged_storage::page::{check_page, Error, TupleBlockPage};

/// A dump with addresses, hex digits in groups of four and printable
/// characters, in which a run of all-zero lines shows its first line and a
/// star.
fn pretty_hex(source: &[u8]) -> String {
    let mut out = String::new();
    let lines = (source.len() + 15) / 16;
    let mut zero_lines = 0;
    for (i, row) in source.chunks(16).enumerate() {
        if row.iter().all(|&c| c == 0) {
            zero_lines += 1;
        } else {
            zero_lines = 0;
        }
        if zero_lines == 2 {
            out.push_str("*\n");
            continue;
        }
        if zero_lines > 2 {
            continue;
        }
        out.push_str(&format!("{:04x}:   ", i * 16));
        for (j, x) in row.iter().enumerate() {
            out.push_str(&format!("{:02x}", x));
            if j + 1 == row.len() {
            } else if (j + 1) % 4 == 0 {
                out.push_str("  ");
            } else {
                out.push(' ');
            }
        }
        let pad = 16 - row.len();
        for _ in 0..(pad * 3 + pad / 4) {
            out.push(' ');
        }
        out.push_str("   ");
        for x in row {
            out.push(if x.is_ascii() && !x.is_ascii_control() { *x as char } else { '.' });
        }
        if i + 1 < lines {
            out.push('\n');
        }
    }
    out
}

fn assert_dump(data: &[u8], expected: &[&str]) {
    assert_eq!(pretty_hex(data).trim_end(), expected.join("\n"));
}

fn example_metadata() -> Vec<u8> {
    let mut metadata = Vec::new();
    metadata.extend_from_slice(&0x0102030405060708u64.to_le_bytes());
    metadata.extend_from_slice(&1u64.to_le_bytes());
    metadata.extend_from_slice(&1u64.to_le_bytes());
    metadata
}

#[test]
fn page_tests_test_new_page() {
    let page = TupleBlockPage::new([0u8; PAGE_SIZE], &example_metadata());
    assert_dump(
        &page.data()[..],
        &[
            "0000:   00 00 00 00  18 00 e8 0f  00 00 00 00  00 00 00 00   ................",
            "0010:   00 00 00 00  00 00 00 00  00 00 00 00  00 00 00 00   ................",
            "*",
            "0fe0:   00 00 00 00  00 00 00 00  08 07 06 05  04 03 02 01   ................",
            "0ff0:   01 00 00 00  00 00 00 00  01 00 00 00  00 00 00 00   ................",
        ],
    );
}

#[test]
fn page_tests_test_insert_tuple() {
    let mut page = TupleBlockPage::new([0u8; PAGE_SIZE], &example_metadata());
    let slot1 = page.insert_tuple(b"Hello World").unwrap();
    let slot2 = page.insert_tuple(b"Very very very long tuple").unwrap();
    let slot3 = page.insert_tuple(b"Small").unwrap();
    assert_dump(
        &page.data()[..],
        &[
            "0000:   00 00 00 00  18 00 bf 0f  03 00 00 00  dd 0f 0b 00   ................",
            "0010:   c4 0f 19 00  bf 0f 05 00  00 00 00 00  00 00 00 00   ................",
            "0020:   00 00 00 00  00 00 00 00  00 00 00 00  00 00 00 00   ................",
            "*",
            "0fb0:   00 00 00 00  00 00 00 00  00 00 00 00  00 00 00 53   ...............S",
            "0fc0:   6d 61 6c 6c  56 65 72 79  20 76 65 72  79 20 76 65   mallVery very ve",
            "0fd0:   72 79 20 6c  6f 6e 67 20  74 75 70 6c  65 48 65 6c   ry long tupleHel",
            "0fe0:   6c 6f 20 57  6f 72 6c 64  08 07 06 05  04 03 02 01   lo World........",
            "0ff0:   01 00 00 00  00 00 00 00  01 00 00 00  00 00 00 00   ................",
        ],
    );

    assert_eq!(page.get_tuple(slot1).unwrap(), b"Hello World");
    assert_eq!(page.get_tuple(slot2).unwrap(), b"Very very very long tuple");
    assert_eq!(page.get_tuple(slot3).unwrap(), b"Small");
}

#[test]
fn page_tests_test_page_full() {
    let mut page = TupleBlockPage::new([0u8; PAGE_SIZE], &example_metadata());
    page.insert_tuple(&[1u8; PAGE_SIZE - 100]).unwrap();
    assert_eq!(page.insert_tuple(&[1u8; 500]), Err(Error::PageFull));
}

#[test]
fn test_insert_tuple_at() {
    let mut page = TupleBlockPage::new([0u8; PAGE_SIZE], &example_metadata());
    page.insert_tuple_at(0, b"A").unwrap();
    page.insert_tuple_at(1, b"B").unwrap();
    page.insert_tuple_at(2, b"C").unwrap();
    page.insert_tuple_at(3, b"D").unwrap();

    assert_eq!(
        page.dump_tuples(),
        vec![b"A".to_vec(), b"B".to_vec(), b"C".to_vec(), b"D".to_vec(),]
    );

    page.insert_tuple_at(1, b"X").unwrap();

    assert_eq!(
        page.dump_tuples(),
        vec![
            b"A".to_vec(),
            b"X".to_vec(),
            b"B".to_vec(),
            b"C".to_vec(),
            b"D".to_vec(),
        ]
    );
}

#[test]
fn test_delete_tuple_and_compact() {
    let mut page = TupleBlockPage::new([0u8; PAGE_SIZE], &example_metadata());
    page.insert_tuple(b"AAAAAAAAAAA").unwrap();
    page.insert_tuple(b"BBBBBBBBBBB").unwrap();
    page.insert_tuple(b"CCCCCCCCCCC").unwrap();
    page.delete_tuple(1);

    assert_eq!(
        page.dump_tuples(),
        vec![b"AAAAAAAAAAA".to_vec(), b"CCCCCCCCCCC".to_vec(),]
    );
    assert_dump(
        &page.data()[..],
        &[
            "0000:   00 00 00 00  18 00 c7 0f  02 00 00 00  dd 0f 0b 00   ................",
            "0010:   c7 0f 0b 00  c7 0f 0b 00  00 00 00 00  00 00 00 00   ................",
            "0020:   00 00 00 00  00 00 00 00  00 00 00 00  00 00 00 00   ................",
            "*",
            "0fc0:   00 00 00 00  00 00 00 43  43 43 43 43  43 43 43 43   .......CCCCCCCCC",
            "0fd0:   43 43 42 42  42 42 42 42  42 42 42 42  42 41 41 41   CCBBBBBBBBBBBAAA",
            "0fe0:   41 41 41 41  41 41 41 41  08 07 06 05  04 03 02 01   AAAAAAAA........",
            "0ff0:   01 00 00 00  00 00 00 00  01 00 00 00  00 00 00 00   ................",
        ],
    );

    assert_eq!(page.free_space(), 4019);
    assert_eq!(page.free_space_after_compaction(), 4030);
    page.compact();
    assert_eq!(
        page.dump_tuples(),
        vec![b"AAAAAAAAAAA".to_vec(), b"CCCCCCCCCCC".to_vec(),]
    );
    assert_eq!(page.free_space(), 4030);
    assert_dump(
        &page.data()[..],
        &[
            "0000:   00 00 00 00  18 00 d2 0f  02 00 00 00  dd 0f 0b 00   ................",
            "0010:   d2 0f 0b 00  c7 0f 0b 00  00 00 00 00  00 00 00 00   ................",
            "0020:   00 00 00 00  00 00 00 00  00 00 00 00  00 00 00 00   ................",
            "*",
            "0fc0:   00 00 00 00  00 00 00 43  43 43 43 43  43 43 43 43   .......CCCCCCCCC",
            "0fd0:   43 43 43 43  43 43 43 43  43 43 43 43  43 41 41 41   CCCCCCCCCCCCCAAA",
            "0fe0:   41 41 41 41  41 41 41 41  08 07 06 05  04 03 02 01   AAAAAAAA........",
            "0ff0:   01 00 00 00  00 00 00 00  01 00 00 00  00 00 00 00   ................",
        ],
    );

    page.insert_tuple(b"DDDDDDDDDDD").unwrap();
    assert_eq!(
        page.dump_tuples(),
        vec![
            b"AAAAAAAAAAA".to_vec(),
            b"CCCCCCCCCCC".to_vec(),
            b"DDDDDDDDDDD".to_vec(),
        ]
    );
    assert_dump(
        &page.data()[..],
        &[
            "0000:   00 00 00 00  18 00 c7 0f  03 00 00 00  dd 0f 0b 00   ................",
            "0010:   d2 0f 0b 00  c7 0f 0b 00  00 00 00 00  00 00 00 00   ................",
            "0020:   00 00 00 00  00 00 00 00  00 00 00 00  00 00 00 00   ................",
            "*",
            "0fc0:   00 00 00 00  00 00 00 44  44 44 44 44  44 44 44 44   .......DDDDDDDDD",
            "0fd0:   44 44 43 43  43 43 43 43  43 43 43 43  43 41 41 41   DDCCCCCCCCCCCAAA",
            "0fe0:   41 41 41 41  41 41 41 41  08 07 06 05  04 03 02 01   AAAAAAAA........",
            "0ff0:   01 00 00 00  00 00 00 00  01 00 00 00  00 00 00 00   ................",
        ],
    );
}

#[test]
fn compaction_keeps_tuples_and_frees_all_space() {
    let mut page = TupleBlockPage::new([0u8; PAGE_SIZE], &[7u8, 9]);
    let tuples: Vec<Vec<u8>> = (0..40u8).map(|i| vec![i; (i as usize % 7) * 5]).collect();
    for tuple in &tuples {
        page.insert_tuple(tuple).unwrap();
    }
    page.delete_tuple(3);
    page.delete_tuple(17);
    let before = page.dump_tuples();
    let expected_free = page.free_space_after_compaction();
    assert!(page.free_space() < expected_free);
    page.compact();
    assert_eq!(page.dump_tuples(), before);
    assert_eq!(page.free_space(), page.free_space_after_compaction());
    assert_eq!(page.free_space(), expected_free);
    assert_eq!(page.metadata(), &[7u8, 9][..]);
    page.compact();
    assert_eq!(page.dump_tuples(), before);
    assert_eq!(page.free_space(), expected_free);
}

#[test]
fn insert_compacts_when_only_compaction_makes_room() {
    let mut page = TupleBlockPage::new([0u8; PAGE_SIZE], &[]);
    page.insert_tuple(&[1u8; 2000]).unwrap();
    page.insert_tuple(&[2u8; 2000]).unwrap();
    assert_eq!(page.free_space(), 4096 - 12 - 8 - 4000);
    page.delete_tuple(0);
    assert_eq!(page.free_space(), 4096 - 12 - 4 - 4000);
    assert_eq!(page.free_space_after_compaction(), 4096 - 12 - 4 - 2000);
    assert_eq!(page.insert_tuple_at(0, &[3u8; 2072]), Ok(()));
    assert_eq!(page.dump_tuples(), vec![vec![3u8; 2072], vec![2u8; 2000]]);
    assert_eq!(page.free_space(), 4096 - 12 - 8 - 4072);
    assert_eq!(page.tuple_count(), 2);
    assert_eq!(page.insert_tuple(&[4u8; 1]), Err(Error::PageFull));
    assert_eq!(page.insert_tuple(&[]), Ok(2));
    assert_eq!(page.get_tuple(2), Some(&[][..]));
}

#[test]
fn page_fields_and_slots() {
    let mut page = TupleBlockPage::new([0xffu8; PAGE_SIZE], &[1, 2, 3]);
    let header = page.header();
    assert_eq!(header.lsn, 0);
    assert_eq!(header.metadata_size, 3);
    assert_eq!(header.free_space_pointer, 4093);
    assert_eq!(header.tuple_count, 0);
    assert_eq!(page.total_tuple_size(), 0);
    assert_eq!(page.free_space(), 4093 - 12);
    assert_eq!(page.metadata(), &[1u8, 2, 3][..]);
    assert_eq!(page.unwrap()[10], 0xff);
    assert_eq!(page.unwrap()[4092], 0xff);

    page.insert_tuple(b"ab").unwrap();
    page.insert_tuple(b"cdef").unwrap();
    assert_eq!(page.total_tuple_size(), 6);
    {
        let tuple = page.get_tuple_mut(1).unwrap();
        tuple[0] = b'X';
    }
    assert_eq!(page.get_tuple(1).unwrap(), b"Xdef");
    assert_eq!(page.get_tuple(0).unwrap(), b"ab");
    {
        let metadata = page.metadata_mut();
        metadata[2] = 9;
    }
    assert_eq!(page.metadata(), &[1u8, 2, 9][..]);
    {
        let bytes = page.alloc_tuple_at(1, 3).unwrap();
        assert_eq!(bytes.len(), 3);
        bytes.copy_from_slice(b"mid");
    }
    assert_eq!(page.dump_tuples(), vec![b"ab".to_vec(), b"mid".to_vec(), b"Xdef".to_vec()]);
    page.truncate(1);
    assert_eq!(page.dump_tuples(), vec![b"ab".to_vec()]);

    let again = TupleBlockPage::from_existing(*page.unwrap(), 3);
    assert_eq!(again.dump_tuples(), vec![b"ab".to_vec()]);
    assert_eq!(again.tuple_count(), 1);
}

#[test]
fn check_page_tells_pages_from_other_bytes() {
    assert!(!check_page(&[0u8; PAGE_SIZE]));
    assert!(!check_page(&[0xffu8; PAGE_SIZE]));
    let mut page = TupleBlockPage::new([0u8; PAGE_SIZE], &example_metadata());
    assert!(check_page(page.data()));
    page.insert_tuple(b"abc").unwrap();
    page.insert_tuple(b"").unwrap();
    page.insert_tuple(b"defgh").unwrap();
    page.delete_tuple(0);
    assert!(check_page(page.data()));
    page.compact();
    assert!(check_page(page.data()));

    // A tuple count that runs the descriptors into the tuples.
    let mut bytes = *page.data();
    bytes[8] = 0xff;
    bytes[9] = 0x03;
    assert!(!check_page(&bytes));
    // A tuple that reaches into the trailer.
    let mut bytes = *page.data();
    bytes[14] = 200;
    assert!(!check_page(&bytes));
    // Two tuples that overlap.
    let mut bytes = *page.data();
    bytes[16] = bytes[12];
    bytes[17] = bytes[13];
    bytes[18] = 1;
    assert!(!check_page(&bytes));
    // A free space pointer above the lowest tuple.
    let mut bytes = *page.data();
    bytes[6] = bytes[6].wrapping_add(1);
    assert!(!check_page(&bytes));
    // A dead slot is no fault.
    let mut bytes = *page.data();
    bytes[12] = 0;
    bytes[13] = 0;
    bytes[14] = 0;
    assert!(check_page(&bytes));
}
