use paged_storage::disk_manager::{PageId, PAGE_SIZE};
use paged_storage::table_page::{Error, TablePage};

/// A dump with addresses, hex digits in groups of four and printable
/// characters, in which a run of all-zero lines shows its first line and a
/// star.
fn pretty_hex(source: &[u8]) -> String {
    let mut out = String::new();
    let lines = (source.len() + 15) / 16;
    let mut zero_lines = 0;
    for (i, row) in source.chunks(16).enumerate() {
        if row.iter().all(|&c| c == 0) {
            zero_lines += 1;
        } else {
            zero_lines = 0;
        }
        if zero_lines == 2 {
            out.push_str("*\n");
            continue;
        }
        if zero_lines > 2 {
            continue;
        }
        out.push_str(&format!("{:04x}:   ", i * 16));
        for (j, x) in row.iter().enumerate() {
            out.push_str(&format!("{:02x}", x));
            if j + 1 == row.len() {
            } else if (j + 1) % 4 == 0 {
                out.push_str("  ");
            } else {
                out.push(' ');
            }
        }
        let pad = 16 - row.len();
        for _ in 0..(pad * 3 + pad / 4) {
            out.push(' ');
        }
        out.push_str("   ");
        for x in row {
            out.push(if x.is_ascii() && !x.is_ascii_control() { *x as char } else { '.' });
        }
        if i + 1 < lines {
            out.push('\n');
        }
    }
    out
}

fn assert_dump(data: &[u8], expected: &[&str]) {
    assert_eq!(pretty_hex(data).trim_end(), expected.join("\n"));
}

#[test]
fn table_page_tests_test_new_page() {
    let page = TablePage::new([0u8; PAGE_SIZE]);
    assert_dump(
        &page.data()[..],
        &[
            "0000:   00 00 00 00  00 00 00 00  00 00 00 00  ff ff ff ff   ................",
            "0010:   00 10 00 00  00 00 00 00  00 00 00 00  00 00 00 00   ................",
            "0020:   00 00 00 00  00 00 00 00  00 00 00 00  00 00 00 00   ................",
            "*",
        ],
    );
}

#[test]
fn table_page_tests_test_insert_tuple() {
    let mut page = TablePage::new([0u8; PAGE_SIZE]);
    let slot1 = page.insert_tuple(b"Hello World").unwrap();
    let slot2 = page.insert_tuple(b"Very very very long tuple").unwrap();
    let slot3 = page.insert_tuple(b"Small").unwrap();
    assert_dump(
        &page.data()[..],
        &[
            "0000:   00 00 00 00  00 00 00 00  00 00 00 00  ff ff ff ff   ................",
            "0010:   d7 0f 00 00  03 00 00 00  f5 0f 00 00  0b 00 00 00   ................",
            "0020:   dc 0f 00 00  19 00 00 00  d7 0f 00 00  05 00 00 00   ................",
            "0030:   00 00 00 00  00 00 00 00  00 00 00 00  00 00 00 00   ................",
            "*",
            "0fd0:   00 00 00 00  00 00 00 53  6d 61 6c 6c  56 65 72 79   .......SmallVery",
            "0fe0:   20 76 65 72  79 20 76 65  72 79 20 6c  6f 6e 67 20    very very long ",
            "0ff0:   74 75 70 6c  65 48 65 6c  6c 6f 20 57  6f 72 6c 64   tupleHello World",
        ],
    );

    assert_eq!(page.get_tuple(slot1).unwrap(), b"Hello World");
    assert_eq!(page.get_tuple(slot2).unwrap(), b"Very very very long tuple");
    assert_eq!(page.get_tuple(slot3).unwrap(), b"Small");
}

#[test]
fn table_page_tests_test_page_full() {
    let mut page = TablePage::new([0u8; PAGE_SIZE]);
    page.insert_tuple(&[1u8; PAGE_SIZE - 100]).unwrap();
    assert_eq!(page.insert_tuple(&[1u8; 500]), Err(Error::PageFull));
}

#[test]
fn table_page_links_and_space() {
    let mut page = TablePage::new([0u8; PAGE_SIZE]);
    assert_eq!(page.get_next_page_id(), PageId::invalid());
    assert_eq!(page.get_tuple_count(), 0);
    assert_eq!(page.free_space(), PAGE_SIZE - 24);
    assert_eq!(page.insert_tuple(b"abc"), Ok(0));
    assert_eq!(page.free_space(), PAGE_SIZE - 24 - 8 - 3);
    page.set_next_page_id(PageId(7));
    assert_eq!(page.get_next_page_id(), PageId(7));
    assert_eq!(page.get_tuple(0).unwrap(), b"abc");
    {
        let tuple = page.get_tuple_mut(0).unwrap();
        tuple[1] = b'X';
    }
    assert_eq!(page.get_tuple(0).unwrap(), b"aXc");
    {
        let (slot, bytes) = page.alloc_tuple(2).unwrap();
        assert_eq!(slot, 1);
        bytes.copy_from_slice(b"zz");
    }
    assert_eq!(page.get_tuple(1).unwrap(), b"zz");
    assert_eq!(page.get_tuple_count(), 2);
    let free = page.free_space();
    assert_eq!(page.insert_tuple(&vec![0u8; free - 7]), Err(Error::PageFull));
    assert_eq!(page.insert_tuple(&vec![5u8; free - 8]), Ok(2));
    assert_eq!(page.free_space(), 0);

    let again = TablePage::from_existing(*page.unwrap());
    assert_eq!(again.get_tuple_count(), 3);
    assert_eq!(again.get_tuple(0).unwrap(), b"aXc");
    assert_eq!(again.get_next_page_id(), PageId(7));
}
