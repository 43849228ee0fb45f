use rust_db::bd_path::BDPath;
use rust_db::bin_file::{BaseBinFile, BinFile, FileOp};
use rust_db::binary::Binary;
use rust_db::cached_bin_file::CachedBinFile;
use rust_db::dyn_binary::DynanicBinary;
use rust_db::error::DbError;
use rust_db::plain::Pair;
use rust_db::side_files::{SideFiles, SideOp};

#[derive(Debug, Clone, PartialEq)]
pub struct Test {
    a: [u32; 3],
    b: i128,
    c: DynanicBinary<String>,
    d: f64,
    e: DynanicBinary<Vec<Pair<u32, u32>>>,
}

impl Binary for Test {
    type Model = ();

    fn bin_size() -> usize {
        <[u32; 3]>::bin_size()
            + i128::bin_size()
            + DynanicBinary::<String>::bin_size()
            + u64::bin_size()
            + DynanicBinary::<Vec<Pair<u32, u32>>>::bin_size()
    }

    fn from_bin(data: &[u8], dyns: &SideFiles) -> Result<Self, DbError> {
        let mut offset = 0;
        let a = <[u32; 3]>::from_bin(&data[offset..], dyns)?;
        offset += <[u32; 3]>::bin_size();
        let b = i128::from_bin(&data[offset..], dyns)?;
        offset += i128::bin_size();
        let c = DynanicBinary::<String>::from_bin(&data[offset..], dyns)?;
        offset += DynanicBinary::<String>::bin_size();
        let d = f64::from_bits(u64::from_bin(&data[offset..], dyns)?);
        offset += u64::bin_size();
        let e = DynanicBinary::<Vec<Pair<u32, u32>>>::from_bin(&data[offset..], dyns)?;
        Ok(Test { a, b, c, d, e })
    }

    fn as_bin(&mut self, dyns: &mut SideFiles) -> Result<Vec<u8>, DbError> {
        let mut bin_data = Vec::new();
        bin_data.extend_from_slice(&self.a.as_bin(dyns)?);
        bin_data.extend_from_slice(&self.b.as_bin(dyns)?);
        bin_data.extend_from_slice(&self.c.as_bin(dyns)?);
        bin_data.extend_from_slice(&self.d.to_bits().as_bin(dyns)?);
        bin_data.extend_from_slice(&self.e.as_bin(dyns)?);
        Ok(bin_data)
    }

    fn delete(&self, dyns: &mut SideFiles) -> Result<(), DbError> {
        self.a.delete(dyns)?;
        self.b.delete(dyns)?;
        self.c.delete(dyns)?;
        self.e.delete(dyns)?;
        Ok(())
    }
}

fn pairs(items: &[(u32, u32)]) -> Vec<Pair<u32, u32>> {
    items.iter().map(|t| Pair { key: t.0, value: t.1 }).collect()
}

fn reopen_plain<Row: Binary>(table: BinFile<Row>) -> BinFile<Row> {
    let path = table.path().clone();
    let (bytes, dyns) = table.into_parts();
    BinFile::open(path, bytes, dyns)
}

fn reopen_cached<Row: Binary>(table: CachedBinFile<Row>) -> CachedBinFile<Row> {
    let path = table.path().clone();
    let (bytes, dyns) = table.into_parts();
    CachedBinFile::open(path, bytes, dyns)
}

fn base_test1<F: BaseBinFile<Test>>(
    path: BDPath,
    new: impl Fn(BDPath) -> F,
    reopen: impl Fn(F) -> F,
    nb_dyns: impl Fn(&F) -> usize,
) {
    let mut test1 = Test {
        a: [5, 255, 1_000_000],
        b: 1_000_000,
        c: DynanicBinary::new(String::from("Salut")),
        d: -1.1,
        e: DynanicBinary::new(pairs(&[(1, 2), (2, 3)])),
    };
    let test2 = Test {
        a: [10000, 0, 5],
        b: -1,
        c: DynanicBinary::new(String::from("Wow")),
        d: 2.01,
        e: DynanicBinary::new(pairs(&[(5, 4), (3, 2)])),
    };

    let mut table = new(path.clone());
    table.clear().expect("failed to clear");
    assert_eq!(0, table.len().expect("failed len"));
    assert_eq!(0, nb_dyns(&table));

    assert_eq!("Salut", test1.c.data());
    *test1.c.mut_data() = String::from("Salut2");
    assert_eq!("Salut2", test1.c.data());

    table
        .inserts(0, &mut vec![test2.clone(), test1.clone()])
        .expect("failed inserts");
    assert_eq!(2, table.len().expect("failed len"));
    assert_eq!(4, nb_dyns(&table));
    assert_eq!(test2, table.get(0).expect("failed to get"));
    assert_eq!(test1, table.get(1).expect("failed to get"));

    let mut table = reopen(table);
    assert_eq!(2, table.len().expect("failed len"));
    assert_eq!(4, nb_dyns(&table));
    assert_eq!(test2, table.get(0).expect("failed to get"));
    assert_eq!(test1, table.get(1).expect("failed to get"));
    table.remove(0, Some(1)).expect("failed remove");
    assert_eq!(1, table.len().expect("failed len"));
    assert_eq!(2, nb_dyns(&table));
    assert_eq!(test1, table.get(0).expect("failed to get"));

    let mut table = reopen(table);
    assert_eq!(1, table.len().expect("failed len"));
    assert_eq!(2, nb_dyns(&table));
    assert_eq!(test1, table.get(0).expect("failed to get"));
    table.remove(0, None).expect("failed remove");
    assert_eq!(0, table.len().expect("failed len"));
    assert_eq!(0, nb_dyns(&table));

    let table = reopen(table);
    assert_eq!(0, table.len().expect("failed len"));
    assert_eq!(0, nb_dyns(&table));
}

fn base_test2<F: BaseBinFile<DynanicBinary<u8>>>(
    path: BDPath,
    new: impl Fn(BDPath) -> F,
    nb_dyns: impl Fn(&F) -> usize,
) {
    let mut a = DynanicBinary::new(b'b');
    *a.mut_data() = b'a';
    let b = DynanicBinary::new(b'b');
    let c = DynanicBinary::new(b'c');

    let mut table = new(path.clone());
    table.clear().expect("failed clear");
    assert_eq!(0, table.len().expect("failed len"));
    assert_eq!(0, nb_dyns(&table));

    table.insert(0, &mut a).expect("failed insert");
    assert_eq!(1, table.len().expect("failed len"));
    assert_eq!(1, nb_dyns(&table));
    assert_eq!(a.clone(), table.get(0).expect("failed to get"));

    table
        .inserts(0, &mut vec![b.clone(), c.clone()])
        .expect("failed inserts");
    assert_eq!(3, nb_dyns(&table));
    assert_eq!(
        vec![b.clone(), c.clone(), a.clone()],
        table.gets(0, None).expect("failed to gets")
    );
    assert_eq!(
        vec![c.clone()],
        table.gets(1, Some(1)).expect("failed to gets")
    );
    assert_eq!(
        vec![b.clone()],
        table.gets(0, Some(1)).expect("failed to gets")
    );

    table.remove(1, Some(1)).expect("failed to remove");
    assert_eq!(2, nb_dyns(&table));
    assert_eq!(
        vec![b.clone(), a.clone()],
        table.gets(0, None).expect("failed to gets")
    );

    table.remove(0, None).expect("failed to remove");
    assert_eq!(0, table.len().expect("failed len"));
    assert_eq!(0, nb_dyns(&table));
}

#[test]
pub fn test_path() {
    let path: BDPath = BDPath::new_main_str("test/testPath");
    let table = BinFile::<Test>::new(path.clone()).expect("TABLE_PATH failed");
    assert_eq!(path, *table.path());
}

#[test]
pub fn run_test_path() {
    let path: BDPath = BDPath::new_main_str("test/testPath");
    let table = BinFile::<Test>::new(path.clone()).expect("TABLE_PATH failed");
    assert_eq!("test/testPath", table.path().dir_path);
    assert_eq!("test/testPath/main.bin", table.path().full());
}

#[test]
pub fn test_bin_file_test1() {
    base_test1(
        BDPath::new_main_str("test/test1"),
        |path| BinFile::new(path).expect("failed to new"),
        reopen_plain,
        |table| table.nb_dyns(),
    );
}

#[test]
pub fn test_bin_file_test2() {
    base_test2(
        BDPath::new_main_str("test/test2"),
        |path| BinFile::new(path).expect("failed to new"),
        |table| table.nb_dyns(),
    );
}

#[test]
pub fn run_test1() {
    base_test1(
        BDPath::new_main_str("test/test1"),
        |path| BinFile::new(path).expect("failed to new"),
        reopen_plain,
        |table| table.nb_dyns(),
    );
}

#[test]
pub fn run_test2() {
    base_test2(
        BDPath::new_main_str("test/test2"),
        |path| BinFile::new(path).expect("failed new"),
        |table| table.nb_dyns(),
    );
}

#[test]
pub fn test_cache_test1() {
    base_test1(
        BDPath::new_main_str("test/test_cache1"),
        |path| CachedBinFile::new(path.clone()).expect("failed to new"),
        reopen_cached,
        |table| table.nb_dyns(),
    );
}

#[test]
pub fn test_cache_test2() {
    base_test2(
        BDPath::new_main_str("test/test_cache2"),
        |path| CachedBinFile::new(path.clone()).expect("failed to new"),
        |table| table.nb_dyns(),
    );
}

#[test]
pub fn run_test_default() {
    let datas: Vec<u8> = vec![1, 6, 7];
    let mut table =
        BinFile::<u8>::new_default(BDPath::new_main_str("test/testDefault"), &mut datas.clone())
            .expect("failed to new_default");
    assert_eq!(datas, table.gets(0, None).expect("failed to gets"));
}

#[test]
fn get_past_the_end_is_out_of_bounds() {
    let mut table = BinFile::<u16>::new(BDPath::new_main_str("t")).unwrap();
    table.inserts(0, &mut vec![10, 20, 30]).unwrap();
    assert_eq!(table.len(), Ok(3));
    assert_eq!(table.get(2), Ok(30));
    assert_eq!(table.get(3), Err(DbError::OutOfBounds));
    assert_eq!(table.gets(3, None), Ok(vec![]));
    assert_eq!(table.gets(4, None), Err(DbError::OutOfBounds));
    assert_eq!(table.gets(2, Some(2)), Err(DbError::OutOfBounds));
    assert_eq!(table.insert(4, &mut 7), Err(DbError::OutOfBounds));
    assert_eq!(table.remove(2, Some(2)), Err(DbError::OutOfBounds));
    assert_eq!(table.bytes(), &vec![10, 0, 20, 0, 30, 0]);
}

#[test]
fn corrupt_file_is_refused() {
    let path = BDPath::new_main_str("t");
    let mut table = BinFile::<u16>::open(path, vec![1, 0, 2], SideFiles::new(1));
    assert_eq!(table.len(), Ok(1));
    assert_eq!(table.get(0), Ok(1));
    assert_eq!(table.gets(0, None), Err(DbError::Corrupt));
    assert_eq!(table.gets(0, Some(1)), Ok(vec![1]));
    assert_eq!(table.remove(0, Some(1)), Err(DbError::Corrupt));
}

#[test]
fn insert_at_the_end_appends_and_elsewhere_splices() {
    let mut table = BinFile::<u8>::new(BDPath::new_main_str("t")).unwrap();
    assert_eq!(table.take_log(), vec![FileOp::Create]);
    table.insert(0, &mut 5).unwrap();
    table.insert(1, &mut 7).unwrap();
    assert_eq!(
        table.take_log(),
        vec![FileOp::Append { bytes: vec![5] }, FileOp::Append { bytes: vec![7] }]
    );
    table.insert(1, &mut 6).unwrap();
    assert_eq!(table.take_log(), vec![FileOp::Splice { at: 1, bytes: vec![6] }]);
    assert_eq!(table.bytes(), &vec![5, 6, 7]);
    table.remove(2, Some(1)).unwrap();
    assert_eq!(table.take_log(), vec![FileOp::Rewrite { bytes: vec![5, 6] }]);
    table.clear().unwrap();
    assert_eq!(table.take_log(), vec![FileOp::Truncate]);
}

#[test]
fn removing_the_last_row_takes_its_side_files() {
    let mut table = BinFile::<DynanicBinary<String>>::new(BDPath::new_main_str("t")).unwrap();
    table.reseed(40);
    let mut first = DynanicBinary::new(String::from("one"));
    let mut second = DynanicBinary::new(String::from("two"));
    table.insert(0, &mut first).unwrap();
    table.insert(1, &mut second).unwrap();
    assert_eq!(first.id(), Some(40));
    assert_eq!(second.id(), Some(41));
    assert_eq!(table.bytes().len(), 16);
    table.take_side_log();
    table.remove(1, Some(1)).unwrap();
    assert_eq!(table.bytes().len(), 8);
    assert_eq!(table.take_side_log(), vec![SideOp::Delete { id: 41 }]);
    assert_eq!(table.nb_dyns(), 1);
    assert_eq!(table.get(0).unwrap().data(), "one");
}

#[test]
fn clearing_an_index_file_keeps_the_side_files() {
    let path = BDPath::new_index(String::from("t"), String::from("rel"));
    let mut table = BinFile::<DynanicBinary<u8>>::new(path).unwrap();
    table.insert(0, &mut DynanicBinary::new(3)).unwrap();
    table.clear().unwrap();
    assert_eq!(table.len(), Ok(0));
    assert_eq!(table.nb_dyns(), 1);
}

#[test]
fn missing_side_file_and_zero_id_are_errors() {
    let path = BDPath::new_main_str("t");
    let mut table = BinFile::<DynanicBinary<String>>::open(
        path,
        vec![9, 0, 0, 0, 0, 0, 0, 0, 0, 0, 0, 0, 0, 0, 0, 0],
        SideFiles::new(1),
    );
    assert!(matches!(table.get(0), Err(DbError::MissingSideFile)));
    assert!(matches!(table.get(1), Err(DbError::MalformedRecord)));
}

#[test]
fn cached_file_serves_rows_it_has_read() {
    let mut table = CachedBinFile::<u8>::new(BDPath::new_main_str("t")).unwrap();
    table.inserts(0, &mut vec![1, 2, 3, 4, 5]).unwrap();
    assert_eq!(table.cache_len(), 0);
    assert_eq!(table.get(1), Ok(2));
    assert_eq!(table.get(3), Ok(4));
    assert_eq!(table.cache_len(), 2);
    assert_eq!(table.gets(0, None), Ok(vec![1, 2, 3, 4, 5]));
    assert_eq!(table.cache_len(), 5);
    table.insert(2, &mut 9).unwrap();
    assert_eq!(table.cache_len(), 5);
    assert_eq!(table.gets(0, None), Ok(vec![1, 2, 9, 3, 4, 5]));
    table.remove(0, Some(2)).unwrap();
    assert_eq!(table.cache_len(), 4);
    assert_eq!(table.gets(0, Some(3)), Ok(vec![9, 3, 4]));
    assert_eq!(table.get(4), Err(DbError::OutOfBounds));
    table.clear_cache();
    assert_eq!(table.cache_len(), 0);
    assert_eq!(table.gets(1, None), Ok(vec![3, 4, 5]));
}

#[test]
fn cached_rows_move_down_when_a_row_with_a_side_file_goes() {
    let mut table =
        CachedBinFile::<DynanicBinary<String>>::new(BDPath::new_main_str("t")).unwrap();
    for (at, text) in ["a", "bb", "ccc", "dddd"].into_iter().enumerate() {
        table.insert(at, &mut DynanicBinary::new(String::from(text))).unwrap();
    }
    table.clear_cache();
    assert_eq!(table.gets(0, None).unwrap().len(), 4);
    assert_eq!(table.cache_len(), 4);
    assert_eq!(table.nb_dyns(), 4);
    table.remove(1, Some(1)).unwrap();
    assert_eq!(table.nb_dyns(), 3);
    assert_eq!(table.cache_len(), 3);
    assert_eq!(table.get(0).unwrap().data(), "a");
    assert_eq!(table.get(1).unwrap().data(), "ccc");
    assert_eq!(table.get(2).unwrap().data(), "dddd");
    assert_eq!(table.cache_len(), 3);
    assert_eq!(table.get(3), Err(DbError::OutOfBounds));
    table.clear_cache();
    assert_eq!(table.get(1).unwrap().data(), "ccc");
    assert_eq!(table.remove(5, Some(1)), Err(DbError::OutOfBounds));
    assert_eq!(table.cache_len(), 1);
    table.remove(0, None).unwrap();
    assert_eq!(table.cache_len(), 0);
    assert_eq!(table.nb_dyns(), 0);
    assert_eq!(table.len(), Ok(0));
}
