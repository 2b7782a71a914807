use paged_storage::codec::{copy_bytes, read_u16, read_u32, write_u16, write_u32};
use paged_storage::disk_manager::{PageId, PAGE_SIZE};
use paged_storage::internal_page::InternalPage;
use paged_storage::key_order::{compare_keys, KeyOrder};
use paged_storage::tuple::Tuple;

#[test]
fn internal_page_fields() {
    let mut page = InternalPage::new([0xeeu8; PAGE_SIZE]);
    assert_eq!(page.get_key_count(), 0);
    assert_eq!(page.get_free_space_ptr(), PAGE_SIZE);
    assert_eq!(page.free_space(), PAGE_SIZE - 4);
    assert_eq!(&page.data()[..5], &[0, 0, 0, 0x10, 0xee]);

    page.set_key_count(2);
    page.set_free_space_ptr(4000);
    page.set_child_pointer(1, PageId(0x0a0b0c0d));
    page.set_key_descriptor(1, 4000, 3);
    assert_eq!(page.get_key_count(), 2);
    assert_eq!(page.free_space(), 4000 - 4 - 16);
    assert_eq!(page.get_child_pointer(1), PageId(0x0a0b0c0d));
    assert_eq!(page.get_key_descriptor(1), (4000, 3));
    assert_eq!(page.get_key(1), &[0xee, 0xee, 0xee]);
    assert_eq!(&page.unwrap()[12..20], &[0x0d, 0x0c, 0x0b, 0x0a, 0xa0, 0x0f, 3, 0]);

    let again = InternalPage::from_existing(*page.unwrap());
    assert_eq!(again.get_key_count(), 2);
    assert_eq!(again.get_child_pointer(1), PageId(0x0a0b0c0d));
}

#[test]
fn numbers_stand_least_significant_byte_first() {
    let mut bytes = [0u8; 8];
    write_u16(&mut bytes, 1, 0xabcd);
    assert_eq!(bytes, [0, 0xcd, 0xab, 0, 0, 0, 0, 0]);
    assert_eq!(read_u16(&bytes, 1), 0xabcd);
    write_u32(&mut bytes, 3, 0x89abcdef);
    assert_eq!(bytes, [0, 0xcd, 0xab, 0xef, 0xcd, 0xab, 0x89, 0]);
    assert_eq!(read_u32(&bytes, 3), 0x89abcdef);
    assert_eq!(read_u32(&bytes, 0), 0xefabcd00);
    let mut target = [0u8; 3];
    copy_bytes(&mut target, &[1, 2, 3]);
    assert_eq!(target, [1, 2, 3]);
}

#[test]
fn keys_compare_byte_by_byte() {
    assert_eq!(compare_keys(b"", b""), KeyOrder::Equal);
    assert_eq!(compare_keys(b"", b"a"), KeyOrder::Less);
    assert_eq!(compare_keys(b"a", b""), KeyOrder::Greater);
    assert_eq!(compare_keys(b"ab", b"ab"), KeyOrder::Equal);
    assert_eq!(compare_keys(b"ab", b"abc"), KeyOrder::Less);
    assert_eq!(compare_keys(b"abd", b"abc"), KeyOrder::Greater);
    assert_eq!(compare_keys(&[0xff], &[0x01, 0x02]), KeyOrder::Greater);
    assert_eq!(compare_keys(&[0x00, 0xff], &[0x01]), KeyOrder::Less);
}

#[test]
fn tuple_holds_its_bytes() {
    let tuple = Tuple::new(b"abc");
    assert_eq!(tuple.data, b"abc");
}
