use rust_db::bd_path::BDPath;
use rust_db::bin_file::{BaseBinFile, BinFile};
use rust_db::binary::Binary;
use rust_db::dyn_binary::DynanicBinary;
use rust_db::error::DbError;
use rust_db::helper::{flat_remove_errors, remove_errors};
use rust_db::index_file::{IndexGet, NoIndex, SpecificIndexFile};
use rust_db::record::{Fields, SecondField};
use rust_db::side_files::SideFiles;
use rust_db::table::{Table, TableFile, TableGet};

type Person = Fields<u32, Fields<DynanicBinary<String>, [u8; 2]>>;

fn person(id: u32, name: &str, tag: [u8; 2]) -> Person {
    Fields { first: id, rest: Fields { first: DynanicBinary::new(String::from(name)), rest: tag } }
}

#[test]
fn record_is_its_fields_in_order() {
    let mut dyns = SideFiles::new(3);
    let mut p = person(0x0102, "Bob", [7, 8]);
    assert_eq!(Person::bin_size(), 14);
    let image = p.as_bin(&mut dyns).unwrap();
    assert_eq!(image, vec![2, 1, 0, 0, 3, 0, 0, 0, 0, 0, 0, 0, 7, 8]);
    assert_eq!(p.rest.first.id(), Some(3));
    assert_eq!(dyns.read(3), Ok(b"Bob".to_vec()));
    let back = Person::from_bin(&image, &dyns).unwrap();
    assert_eq!(back, p);
    assert_eq!(back.rest.first.id(), Some(3));
    assert_eq!(back.delete(&mut dyns), Ok(()));
    assert_eq!(dyns.len(), 0);
    assert_eq!(back.delete(&mut dyns), Err(DbError::MissingSideFile));
    assert!(matches!(Person::from_bin(&image, &dyns), Err(DbError::MissingSideFile)));
}

#[test]
fn inserted_record_is_found_by_its_key() {
    let mut table = TableFile::<Person>::new(String::from("people")).unwrap();
    for (id, name) in [(30u32, "Carl"), (10, "Ann"), (20, "Bob")] {
        let mut row = person(id, name, [1, 2]);
        assert_eq!(table.insert(&mut row), Ok(true));
        match table.get_by_id(&id) {
            TableGet::Found(found) => {
                assert_eq!(found, row);
                assert_eq!(found.rest.first.id(), row.rest.first.id());
            }
            _ => panic!("the row that was put in was not found"),
        }
    }
    let names: Vec<String> =
        table.get_all().unwrap().iter().map(|p| p.rest.first.data().clone()).collect();
    assert_eq!(names, vec!["Ann", "Bob", "Carl"]);
    assert_eq!(table.bin().nb_dyns(), 3);
    assert_eq!(table.bin().bytes().len() % Person::bin_size(), 0);
    assert_eq!(table.remove(&20), Ok(()));
    assert!(matches!(table.get_by_id(&20), TableGet::NotFound));
    assert_eq!(table.bin().nb_dyns(), 2);
    assert_eq!(table.bin().bytes().len(), 2 * Person::bin_size());
    assert_eq!(table.insert(&mut person(10, "Again", [0, 0])), Ok(false));
    assert_eq!(table.bin().nb_dyns(), 2);
}

#[test]
fn default_rows_fill_a_new_file() {
    let mut datas: Vec<u8> = vec![1, 6, 7];
    let mut table = BinFile::<u8>::new_default(BDPath::new_main_str("test/testDefault"), &mut datas)
        .expect("failed to new_default");
    assert_eq!(datas, table.gets(0, None).expect("failed to gets"));
    assert_eq!(table.bytes(), &vec![1, 6, 7]);
}

#[test]
fn results_are_gathered_up_to_the_first_error() {
    let good: Vec<Result<u8, DbError>> = vec![Ok(1), Ok(2), Ok(3)];
    assert_eq!(remove_errors(good), Ok(vec![1, 2, 3]));
    let bad: Vec<Result<u8, DbError>> =
        vec![Ok(1), Err(DbError::Corrupt), Ok(3), Err(DbError::Io)];
    assert_eq!(remove_errors(bad), Err(DbError::Corrupt));
    let none: Vec<Result<u8, DbError>> = vec![];
    assert_eq!(remove_errors(none), Ok(vec![]));
    let lists: Vec<Result<Vec<u8>, DbError>> = vec![Ok(vec![1, 2]), Ok(vec![]), Ok(vec![3])];
    assert_eq!(flat_remove_errors(lists), Ok(vec![1, 2, 3]));
    let lists: Vec<Result<Vec<u8>, DbError>> = vec![Ok(vec![1, 2]), Err(DbError::OutOfBounds)];
    assert_eq!(flat_remove_errors(lists), Err(DbError::OutOfBounds));
}

#[test]
fn index_on_the_second_field() {
    type Row = Fields<u32, Fields<u16, u8>>;
    let row = |id: u32, group: u16| Fields { first: id, rest: Fields { first: group, rest: 0u8 } };
    let path = BDPath::new_index(String::from("t"), String::from("group"));
    let mut index: SpecificIndexFile<SecondField, Row, BinFile<_>> =
        SpecificIndexFile::new(path, true).unwrap();
    assert_eq!(index.base_check_unique(&row(1, 7)), Ok(Some(())));
    index.base_insert(0, &row(1, 7)).unwrap();
    index.base_insert(1, &row(2, 3)).unwrap();
    assert_eq!(index.base_check_unique(&row(3, 7)), Ok(None));
    assert_eq!(index.base_check_unique(&row(3, 8)), Ok(Some(())));
    match index.indx(&3) {
        IndexGet::Found(start, hits) => {
            assert_eq!(start, 0);
            assert_eq!(hits.len(), 1);
            assert_eq!(hits[0].index, 1);
        }
        _ => panic!("the entry was not found"),
    }
    assert!(matches!(index.indx(&5), IndexGet::NotFound(1)));
    index.base_clear().unwrap();
    assert!(matches!(index.indx(&3), IndexGet::NotFound(0)));
}

#[test]
fn a_record_opens_no_index() {
    type Row = Fields<u32, u8>;
    assert!(matches!(<Row as Table>::get_indexes(String::from("t")), Ok(NoIndex)));
    assert!(matches!(<Row as Table>::get_indexes(String::new()), Ok(NoIndex)));
    let mut table = TableFile::<Row>::new(String::from("t")).unwrap();
    assert_eq!(table.len(), Ok(0));
    assert_eq!(table.insert(&mut Fields { first: 4, rest: 9 }), Ok(true));
    assert!(matches!(table.get_by_id(&4), TableGet::Found(Fields { first: 4, rest: 9 })));
}
