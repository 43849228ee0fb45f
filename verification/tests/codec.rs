use rust_db::bd_path::{decimal_text, BDPath};
use rust_db::binary::Binary;
use rust_db::dyn_binary::{AsBinary, DynanicBinary};
use rust_db::error::DbError;
use rust_db::le_bytes::{le_decode, le_encode};
use rust_db::plain::{decode_items, encode_items, Pair, Plain};
use rust_db::side_files::{SideFiles, SideOp};

#[test]
fn integers_are_little_endian() {
    let mut dyns = SideFiles::new(1);
    assert_eq!(0x0102_0304u32.as_bin(&mut dyns).unwrap(), vec![4, 3, 2, 1]);
    assert_eq!(0xabu8.as_bin(&mut dyns).unwrap(), vec![0xab]);
    assert_eq!(0x0102u16.as_bin(&mut dyns).unwrap(), vec![2, 1]);
    assert_eq!(1u64.as_bin(&mut dyns).unwrap(), vec![1, 0, 0, 0, 0, 0, 0, 0]);
    assert_eq!(u128::MAX.as_bin(&mut dyns).unwrap(), vec![0xff; 16]);
    assert_eq!(258usize.as_bin(&mut dyns).unwrap(), vec![2, 1, 0, 0, 0, 0, 0, 0]);
    assert_eq!(u32::from_bin(&[4, 3, 2, 1], &dyns).unwrap(), 0x0102_0304);
    assert_eq!(u64::from_bin(&[0, 1, 0, 0, 0, 0, 0, 0, 9], &dyns).unwrap(), 256);
    assert_eq!(dyns.len(), 0);
    assert_eq!(u8::bin_size(), 1);
    assert_eq!(u16::bin_size(), 2);
    assert_eq!(u32::bin_size(), 4);
    assert_eq!(u64::bin_size(), 8);
    assert_eq!(u128::bin_size(), 16);
    assert_eq!(usize::bin_size(), 8);
    assert_eq!(isize::bin_size(), 8);
    assert_eq!(i128::bin_size(), 16);
}

#[test]
fn signed_integers_are_twos_complement() {
    let mut dyns = SideFiles::new(1);
    assert_eq!((-2i16).as_bin(&mut dyns).unwrap(), vec![0xfe, 0xff]);
    assert_eq!((-1i8).as_bin(&mut dyns).unwrap(), vec![0xff]);
    assert_eq!(i32::MIN.as_bin(&mut dyns).unwrap(), vec![0, 0, 0, 0x80]);
    assert_eq!((-1i128).as_bin(&mut dyns).unwrap(), vec![0xff; 16]);
    assert_eq!(i128::MIN.as_bin(&mut dyns).unwrap(), i128::MIN.to_le_bytes().to_vec());
    assert_eq!((-77isize).as_bin(&mut dyns).unwrap(), (-77i64).to_le_bytes().to_vec());
    assert_eq!(i16::from_bin(&[0xfe, 0xff], &dyns).unwrap(), -2);
    assert_eq!(i8::from_bin(&[0x80], &dyns).unwrap(), -128);
    assert_eq!(i64::from_bin(&i64::MIN.to_le_bytes(), &dyns).unwrap(), i64::MIN);
    assert_eq!(i128::from_bin(&(-12345i128).to_le_bytes(), &dyns).unwrap(), -12345);
    assert_eq!(i128::from_bin(&i128::MIN.to_le_bytes(), &dyns).unwrap(), i128::MIN);
    assert_eq!(isize::from_bin(&(-5i64).to_le_bytes(), &dyns).unwrap(), -5);
}

#[test]
fn every_integer_round_trips() {
    let mut dyns = SideFiles::new(1);
    for v in [0u64, 1, 255, 256, 0xdead_beef, u64::MAX] {
        let image = v.clone().as_bin(&mut dyns).unwrap();
        assert_eq!(image, v.to_le_bytes().to_vec());
        assert_eq!(u64::from_bin(&image, &dyns), Ok(v));
    }
    for v in [i32::MIN, -1, 0, 1, i32::MAX] {
        let image = v.clone().as_bin(&mut dyns).unwrap();
        assert_eq!(image, v.to_le_bytes().to_vec());
        assert_eq!(i32::from_bin(&image, &dyns), Ok(v));
    }
    for v in [usize::MIN, 77, usize::MAX] {
        let image = v.clone().as_bin(&mut dyns).unwrap();
        assert_eq!(usize::from_bin(&image, &dyns), Ok(v));
    }
}

#[test]
fn booleans_and_characters_take_one_byte() {
    let mut dyns = SideFiles::new(1);
    assert_eq!(true.as_bin(&mut dyns).unwrap(), vec![1]);
    assert_eq!(false.as_bin(&mut dyns).unwrap(), vec![0]);
    assert_eq!(bool::from_bin(&[0], &dyns), Ok(false));
    assert_eq!(bool::from_bin(&[1], &dyns), Ok(true));
    assert_eq!(bool::from_bin(&[200], &dyns), Ok(true));
    assert_eq!('A'.as_bin(&mut dyns).unwrap(), vec![65]);
    assert_eq!('\u{ff}'.as_bin(&mut dyns).unwrap(), vec![255]);
    assert_eq!('\u{141}'.as_bin(&mut dyns).unwrap(), vec![0x41]);
    assert_eq!(char::from_bin(&[65], &dyns), Ok('A'));
    assert_eq!(char::from_bin(&[255], &dyns), Ok('\u{ff}'));
    assert_eq!(bool::bin_size(), 1);
    assert_eq!(char::bin_size(), 1);
}

#[test]
fn arrays_and_pairs_are_their_items_in_order() {
    let mut dyns = SideFiles::new(1);
    let mut a: [u16; 3] = [1, 2, 0x0304];
    assert_eq!(<[u16; 3]>::bin_size(), 6);
    assert_eq!(a.as_bin(&mut dyns).unwrap(), vec![1, 0, 2, 0, 4, 3]);
    assert_eq!(<[u16; 3]>::from_bin(&[1, 0, 2, 0, 4, 3, 9, 9], &dyns), Ok(a));
    assert_eq!(<[u8; 0]>::bin_size(), 0);
    assert_eq!(<[u8; 0]>::from_bin(&[], &dyns), Ok([]));
    let mut p = Pair { key: 7u8, value: -1i16 };
    assert_eq!(Pair::<u8, i16>::bin_size(), 3);
    assert_eq!(p.as_bin(&mut dyns).unwrap(), vec![7, 0xff, 0xff]);
    assert_eq!(Pair::<u8, i16>::from_bin(&[7, 0xff, 0xff], &dyns), Ok(p));
    assert!(Pair::<u8, i16>::room(3));
    assert!(!Pair::<u8, i16>::room(2));
    assert!(<[u32; 4]>::room(16));
    assert!(!<[u32; 4]>::room(15));
    assert_eq!(encode_items(&[1u16, 2]), vec![1, 0, 2, 0]);
    assert_eq!(decode_items::<u16>(&[1, 0, 2, 0, 5], 2), vec![1, 2]);
    assert_eq!(le_encode(0x0102_03, 4), vec![3, 2, 1, 0]);
    assert_eq!(le_encode(0x0102_03, 2), vec![3, 2]);
    assert_eq!(le_decode(&[3, 2, 1, 0, 9], 4), 0x0102_03);
    assert_eq!(le_decode(&[3, 2, 1], 0), 0);
}

#[test]
fn payloads_are_text_lists_and_plain_fields() {
    assert_eq!(String::from("Wöw").as_as_bin(), Ok("Wöw".as_bytes().to_vec()));
    assert_eq!(String::from_as_bin(vec![0x57, 0xc3, 0xb6, 0x77]), Ok(String::from("Wöw")));
    assert_eq!(String::from_as_bin(vec![0xff, 0x41]), Err(DbError::MalformedRecord));
    assert_eq!(vec![1u16, 0x0203].as_as_bin(), Ok(vec![1, 0, 3, 2]));
    assert_eq!(Vec::<u16>::from_as_bin(vec![1, 0, 3, 2]), Ok(vec![1, 0x0203]));
    assert_eq!(Vec::<u16>::from_as_bin(vec![]), Ok(vec![]));
    assert_eq!(Vec::<u16>::from_as_bin(vec![1, 0, 3]), Err(DbError::MalformedRecord));
    assert_eq!(Vec::<[u8; 0]>::from_as_bin(vec![]), Ok(vec![]));
    assert_eq!(Vec::<[u8; 0]>::from_as_bin(vec![1]), Err(DbError::MalformedRecord));
    assert_eq!(
        vec![Pair { key: 1u32, value: 2u32 }].as_as_bin(),
        Ok(vec![1, 0, 0, 0, 2, 0, 0, 0])
    );
    assert_eq!(7u32.as_as_bin(), Ok(vec![7, 0, 0, 0]));
    assert_eq!(u32::from_as_bin(vec![7, 0, 0, 0, 99]), Ok(7));
    assert_eq!(u32::from_as_bin(vec![7, 0, 0]), Err(DbError::MalformedRecord));
}

#[test]
fn dynamic_field_adopts_an_identifier_and_keeps_it() {
    let mut dyns = SideFiles::new(0);
    let mut field = DynanicBinary::new(String::from("Salut"));
    assert_eq!(field.id(), None);
    assert_eq!(field.id_error(), Err(DbError::MissingSideFile));
    assert_eq!(DynanicBinary::<String>::bin_size(), 8);
    let image = field.as_bin(&mut dyns).unwrap();
    assert_eq!(image, vec![1, 0, 0, 0, 0, 0, 0, 0]);
    assert_eq!(field.id(), Some(1));
    assert_eq!(field.id_error(), Ok(1));
    assert_eq!(dyns.read(1), Ok(b"Salut".to_vec()));
    *field.mut_data() = String::from("Salut2");
    assert_eq!(field.as_bin(&mut dyns).unwrap(), image);
    assert_eq!(dyns.len(), 1);
    assert_eq!(dyns.read(1), Ok(b"Salut2".to_vec()));
    let back = DynanicBinary::<String>::from_bin(&image, &dyns).unwrap();
    assert_eq!(back, field);
    assert_eq!(back.id(), Some(1));
    assert_eq!(back.data(), "Salut2");
    let mut other = DynanicBinary::new(String::from("Salut2"));
    assert_eq!(other, field);
    assert_eq!(other.as_bin(&mut dyns).unwrap(), vec![2, 0, 0, 0, 0, 0, 0, 0]);
    assert_eq!(
        dyns.take_log(),
        vec![
            SideOp::Put { id: 1, bytes: b"Salut".to_vec() },
            SideOp::Put { id: 1, bytes: b"Salut2".to_vec() },
            SideOp::Put { id: 2, bytes: b"Salut2".to_vec() },
        ]
    );
    assert_eq!(field.delete(&mut dyns), Ok(()));
    assert_eq!(field.delete(&mut dyns), Err(DbError::MissingSideFile));
    assert_eq!(DynanicBinary::new(1u8).delete(&mut dyns), Err(DbError::MissingSideFile));
    assert_eq!(dyns.take_log(), vec![SideOp::Delete { id: 1 }]);
    assert!(matches!(
        DynanicBinary::<String>::from_bin(&image, &dyns),
        Err(DbError::MissingSideFile)
    ));
    assert!(matches!(
        DynanicBinary::<String>::from_bin(&[0; 8], &dyns),
        Err(DbError::MalformedRecord)
    ));
    dyns.write(9, vec![0xff]);
    assert!(matches!(
        DynanicBinary::<String>::from_bin(&[9, 0, 0, 0, 0, 0, 0, 0], &dyns),
        Err(DbError::MalformedRecord)
    ));
}

#[test]
fn fresh_identifiers_skip_zero_and_files_that_exist() {
    let mut dyns = SideFiles::new(u64::MAX);
    dyns.write(1, vec![]);
    dyns.write(2, vec![]);
    assert!(dyns.contains(2));
    assert!(!dyns.contains(3));
    assert_eq!(dyns.fresh_id(), Some(u64::MAX));
    dyns.write(u64::MAX, vec![1]);
    assert_eq!(dyns.fresh_id(), Some(3));
    assert_eq!(dyns.fresh_id(), Some(4));
    dyns.reseed(2);
    assert_eq!(dyns.fresh_id(), Some(3));
    assert_eq!(dyns.remove(2), Ok(()));
    assert_eq!(dyns.remove(2), Err(DbError::MissingSideFile));
    assert_eq!(dyns.read(2), Err(DbError::MissingSideFile));
    assert_eq!(dyns.len(), 2);
    dyns.clear();
    assert_eq!(dyns.len(), 0);
    assert_eq!(
        dyns.take_log(),
        vec![
            SideOp::Put { id: 1, bytes: vec![] },
            SideOp::Put { id: 2, bytes: vec![] },
            SideOp::Put { id: u64::MAX, bytes: vec![1] },
            SideOp::Delete { id: 2 },
            SideOp::Reset,
        ]
    );
    assert_eq!(dyns.take_log(), vec![]);
}

#[test]
fn paths_of_a_table() {
    let main = BDPath::new_main_str("data/clients");
    assert_eq!(main, BDPath::new_main(String::from("data/clients")));
    assert_eq!(main.rel_file_path, "main.bin");
    assert_eq!(main.full(), "data/clients/main.bin");
    assert_eq!(main.folder(), "data/clients");
    assert_eq!(main.dyn_path(), "data/clients/dyn");
    assert_eq!(main.index_path(), "data/clients/index");
    assert!(main.is_main());
    let side = BDPath::new_dyn(String::from("d"), 120);
    assert_eq!(side.rel_file_path, "dyn/120.bin");
    assert_eq!(side.full(), "d/dyn/120.bin");
    assert_eq!(side.folder(), "d/dyn");
    assert!(!side.is_main());
    let index = BDPath::new_index(String::from("d"), String::from("rel"));
    assert_eq!(index.rel_file_path, "index/rel.bin");
    assert_eq!(index.full(), "d/index/rel.bin");
    assert_eq!(index.folder(), "d/index");
    let deep = BDPath { dir_path: String::from("d"), rel_file_path: String::from("a/b/c.bin") };
    assert_eq!(deep.folder(), "d/a");
    assert_eq!(decimal_text(0), "0");
    assert_eq!(decimal_text(7), "7");
    assert_eq!(decimal_text(10), "10");
    assert_eq!(decimal_text(usize::MAX), usize::MAX.to_string());
}

#[test]
fn every_error_has_its_text() {
    assert_eq!(DbError::Io.message(), "input or output failed");
    assert_eq!(DbError::OutOfBounds.message(), "index past the end of the file");
    assert_eq!(DbError::Corrupt.message(), "file size is not a multiple of the record size");
    assert_eq!(DbError::MalformedRecord.message(), "malformed record");
    assert_eq!(DbError::MissingSideFile.message(), "side file is missing");
    assert_eq!(DbError::ComparatorFailure.message(), "keys cannot be compared");
    assert_eq!(DbError::ConsistencyViolation.message(), "stored data are inconsistent");
    assert_eq!(DbError::NotFound.message(), "no row has this key");
}

#[test]
fn text_fields_are_compared_by_their_text() {
    let mut dyns = SideFiles::new(1);
    let mut stored = DynanicBinary::new(String::from("Salut"));
    let fresh = DynanicBinary::new(String::from("Salut"));
    assert!(stored.same_text(&fresh));
    assert!(stored == fresh);
    stored.as_bin(&mut dyns).unwrap();
    assert_eq!(stored.id(), Some(1));
    assert_eq!(fresh.id(), None);
    assert!(stored.same_text(&fresh));
    assert!(fresh.same_text(&stored));
    assert!(!stored.same_text(&DynanicBinary::new(String::from("Salut2"))));
    assert!(!stored.same_text(&DynanicBinary::new(String::new())));
}
