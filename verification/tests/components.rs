use rowstore::meta_parser::check_meta;
use rowstore::page::{Page, PageError};
use rowstore::pager::{page_offset, pages_in_file};
use rowstore::schema::{Schema, Type};

#[test]
fn schema_offsets_and_row_length() {
    let schema = Schema::new(
        String::from("tomer"),
        vec![
            (String::from("id"), Type::Integer, 4),
            (String::from("username"), Type::Varchar, 40),
            (String::from("grade"), Type::Float, 4),
        ],
    );
    assert_eq!(schema.row_length, 48);
    assert_eq!(schema.offsets.len(), 3);
    assert_eq!(schema.offsets[0], (String::from("id"), Type::Integer, 0));
    assert_eq!(
        schema.offsets[1],
        (String::from("username"), Type::Varchar, 4)
    );
    assert_eq!(schema.offsets[2], (String::from("grade"), Type::Float, 44));
    assert_eq!(schema.table_name, "tomer");
}

#[test]
fn page_fills_up_row_by_row() {
    let mut page = Page::new(3, 2);
    assert!(!page.is_full());
    assert_eq!(page.write_row(vec![1, 2, 3]), Ok(String::from("inserted row")));
    assert_eq!(page.write_row(vec![4, 5, 6]), Ok(String::from("inserted row")));
    assert!(page.is_full());
    assert_eq!(page.write_row(vec![7, 8, 9]), Err(PageError::PageFull));
    assert_eq!(page.read_all(), vec![1, 2, 3, 4, 5, 6]);
}

#[test]
fn page_read_row_by_number() {
    let mut page = Page::new(2, 4);
    page.write_row(vec![10, 11]).unwrap();
    page.write_row(vec![12, 13]).unwrap();
    assert_eq!(page.read_row(0), Ok(vec![10, 11]));
    assert_eq!(page.read_row(1), Ok(vec![12, 13]));
    assert_eq!(page.read_row(2), Err(PageError::RowNotInPage));
}

#[test]
fn page_hydrates_from_raw_bytes() {
    let mut page = Page::new(2, 3);
    let mut buf = vec![1, 2, 3, 4];
    assert_eq!(page.write_page(&mut buf), Ok(()));
    assert!(buf.is_empty());
    assert_eq!(page.read_row(0), Ok(vec![1, 2]));
    assert_eq!(page.read_row(1), Ok(vec![3, 4]));
    assert!(!page.is_full());
}

#[test]
fn page_rejects_overlong_buffer() {
    let mut page = Page::new(2, 3);
    let mut buf = vec![0; 8];
    assert_eq!(page.write_page(&mut buf), Err(PageError::BufferTooLong));
    assert_eq!(buf.len(), 8);
    assert_eq!(page.read_all(), Vec::<u8>::new());
}

#[test]
fn page_rejects_partial_rows() {
    let mut page = Page::new(2, 3);
    let mut buf = vec![1, 2, 3];
    assert_eq!(page.write_page(&mut buf), Err(PageError::BufferTooLong));
    assert_eq!(buf, vec![1, 2, 3]);
}

#[test]
fn pager_maps_page_numbers_to_offsets() {
    assert_eq!(page_offset(0, 100), 0);
    assert_eq!(page_offset(3, 100), 300);
    assert_eq!(page_offset(2, 4096), 8192);
    assert_eq!(pages_in_file(250, 100), 2);
    assert_eq!(pages_in_file(0, 100), 0);
    assert_eq!(pages_in_file(4096, 4096), 1);
}

#[test]
fn meta_commands_start_with_tilde() {
    assert!(check_meta("~exit"));
    assert!(check_meta("~"));
    assert!(!check_meta("select"));
    assert!(!check_meta(""));
    assert!(!check_meta(" ~exit"));
}
