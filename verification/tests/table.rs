use rust_db::bd_path::BDPath;
use rust_db::bin_file::{BaseBinFile, BinFile};
use rust_db::binary::Binary;
use rust_db::cached_bin_file::CachedBinFile;
use rust_db::dyn_binary::DynanicBinary;
use rust_db::error::DbError;
use rust_db::foreign::Foreign;
use rust_db::index_file::{
    Both, ByData, Column, IdAsIndexFile, IndexGet, IndexRow, NoIndex, Probe, SpecificIndexFile,
    UnspecifiedIndex,
};
use rust_db::order::{Order, Ranked};
use rust_db::plain::Pair;
use rust_db::side_files::SideFiles;
use rust_db::table::{ById, CachedTableFile, Table, TableFile, TableGet};

#[derive(Clone, PartialEq, Debug)]
pub struct A {
    pub id: usize,
    pub rel: Foreign<B>,
}

#[derive(Clone, PartialEq, Debug)]
pub struct B {
    pub id: usize,
    pub rel: Foreign<A>,
}

pub struct RelOfA;
pub struct RelOfB;

impl Binary for A {
    type Model = ();

    fn bin_size() -> usize {
        usize::bin_size() + Foreign::<B>::bin_size()
    }

    fn from_bin(data: &[u8], dyns: &SideFiles) -> Result<Self, DbError> {
        let id = usize::from_bin(data, dyns)?;
        let rel = Foreign::<B>::from_bin(&data[usize::bin_size()..], dyns)?;
        Ok(A { id, rel })
    }

    fn as_bin(&mut self, dyns: &mut SideFiles) -> Result<Vec<u8>, DbError> {
        let mut bin_data = self.id.as_bin(dyns)?;
        bin_data.extend_from_slice(&self.rel.as_bin(dyns)?);
        Ok(bin_data)
    }

    fn delete(&self, dyns: &mut SideFiles) -> Result<(), DbError> {
        self.id.delete(dyns)?;
        self.rel.delete(dyns)
    }
}

impl Column<A> for RelOfA {
    type Key = Foreign<B>;

    fn extract(row: &A) -> &Foreign<B> {
        &row.rel
    }
}

impl Table for A {
    type ID = usize;
    type Indexes = SpecificIndexFile<RelOfA, A, CachedBinFile<IndexRow<Foreign<B>>>>;

    fn id(&self) -> &usize {
        &self.id
    }

    fn get_indexes(path: String) -> Result<Self::Indexes, DbError> {
        SpecificIndexFile::new(BDPath::new_index(path, String::from("rel")), true)
    }
}

impl Binary for B {
    type Model = ();

    fn bin_size() -> usize {
        usize::bin_size() + Foreign::<A>::bin_size()
    }

    fn from_bin(data: &[u8], dyns: &SideFiles) -> Result<Self, DbError> {
        let id = usize::from_bin(data, dyns)?;
        let rel = Foreign::<A>::from_bin(&data[usize::bin_size()..], dyns)?;
        Ok(B { id, rel })
    }

    fn as_bin(&mut self, dyns: &mut SideFiles) -> Result<Vec<u8>, DbError> {
        let mut bin_data = self.id.as_bin(dyns)?;
        bin_data.extend_from_slice(&self.rel.as_bin(dyns)?);
        Ok(bin_data)
    }

    fn delete(&self, dyns: &mut SideFiles) -> Result<(), DbError> {
        self.id.delete(dyns)?;
        self.rel.delete(dyns)
    }
}

impl Column<B> for RelOfB {
    type Key = Foreign<A>;

    fn extract(row: &B) -> &Foreign<A> {
        &row.rel
    }
}

impl Table for B {
    type ID = usize;
    type Indexes = SpecificIndexFile<RelOfB, B, CachedBinFile<IndexRow<Foreign<A>>>>;

    fn id(&self) -> &usize {
        &self.id
    }

    fn get_indexes(path: String) -> Result<Self::Indexes, DbError> {
        SpecificIndexFile::new(BDPath::new_index(path, String::from("rel")), false)
    }
}

fn found<Row>(r: TableGet<Row>) -> Row {
    match r {
        TableGet::Found(row) => row,
        _ => panic!("OK"),
    }
}

fn by_rel_a(table: &mut CachedTableFile<A>, key: &Foreign<B>) -> TableGet<Option<A>> {
    let hits = table.indexes_mut().indx(key);
    table.row_of(hits)
}

fn by_rel_b(table: &mut CachedTableFile<B>, key: &Foreign<A>) -> TableGet<Vec<B>> {
    let hits = table.indexes_mut().indx(key);
    table.rows_of(hits)
}

fn ids_of(r: TableGet<Vec<B>>) -> Vec<usize> {
    match r {
        TableGet::Found(rows) => rows.iter().map(|r| r.id).collect(),
        TableGet::NotFound => vec![],
        _ => panic!("the search failed"),
    }
}

#[test]
pub fn test_index_test_index() {
    let mut table_a =
        CachedTableFile::new(String::from("test/index_A")).expect("failed to create table_clients");
    let mut table_b =
        CachedTableFile::new(String::from("test/index_B")).expect("failed to create table_clients");

    assert!(table_a
        .insert(&mut A {
            id: 1,
            rel: Foreign::new(1),
        })
        .expect("OK"));

    assert!(!table_a
        .insert(&mut A {
            id: 2,
            rel: Foreign::new(1),
        })
        .expect("OK"));

    assert!(table_b
        .insert(&mut B {
            id: 1,
            rel: Foreign::new(1),
        })
        .expect("OK"));

    assert!(table_b
        .insert(&mut B {
            id: 2,
            rel: Foreign::new(1),
        })
        .expect("allowed duplicate foreign"));

    assert_eq!(1, table_a.len().expect("OK"));
    assert_eq!(2, table_b.len().expect("OK"));

    let b2 = found(table_b.get_by_id(&2));
    assert_eq!(2, b2.id);
    let a1 = found(b2.rel.data(&mut table_a));
    assert_eq!(1, a1.id);
    let b1 = found(a1.rel.data(&mut table_b));
    assert_eq!(1, b1.id);
    let a1 = found(b1.rel.data(&mut table_a));
    assert_eq!(1, a1.id);

    let a1 = found(by_rel_a(&mut table_a, &Foreign::new(1))).expect("OK");
    assert_eq!(1, a1.id);
    let bs = found(by_rel_b(&mut table_b, &Foreign::new(1)));
    assert_eq!(2, bs.len());
    assert_eq!(vec![1, 2], bs.iter().map(|b| b.id).collect::<Vec<usize>>());
}

#[derive(Clone, PartialEq, Debug)]
pub struct Lone {
    pub id: usize,
}

impl Binary for Lone {
    type Model = ();

    fn bin_size() -> usize {
        usize::bin_size()
    }

    fn from_bin(data: &[u8], dyns: &SideFiles) -> Result<Self, DbError> {
        Ok(Lone { id: usize::from_bin(data, dyns)? })
    }

    fn as_bin(&mut self, dyns: &mut SideFiles) -> Result<Vec<u8>, DbError> {
        self.id.as_bin(dyns)
    }

    fn delete(&self, dyns: &mut SideFiles) -> Result<(), DbError> {
        self.id.delete(dyns)
    }
}

impl Table for Lone {
    type ID = usize;
    type Indexes = NoIndex;

    fn id(&self) -> &usize {
        &self.id
    }

    fn get_indexes(_: String) -> Result<NoIndex, DbError> {
        Ok(NoIndex)
    }
}

#[test]
pub fn test_big_table_test_index() {
    let mut table =
        CachedTableFile::new(String::from("test/big")).expect("failed to create table_clients");
    let mut state: u64 = 0x2545_f491_4f6c_dd1d;
    for _ in 0..300 {
        loop {
            state ^= state << 13;
            state ^= state >> 7;
            state ^= state << 17;
            if table.insert(&mut Lone { id: (state % 1000) as usize }).expect("filled") {
                break;
            }
        }
    }
    assert_eq!(300, table.len().expect("len"));
    let all: Vec<usize> = table.get_all().expect("all").iter().map(|r| r.id).collect();
    let mut sorted = all.clone();
    sorted.sort();
    sorted.dedup();
    assert_eq!(all, sorted);
    for id in &all {
        assert_eq!(found(table.get_by_id(id)).id, *id);
    }
}

#[test]
fn rows_come_out_in_the_order_of_their_keys() {
    let mut table = TableFile::new(String::from("t")).unwrap();
    for id in [5usize, 1, 4, 2, 3] {
        assert_eq!(table.insert(&mut Lone { id }), Ok(true));
    }
    assert_eq!(table.insert(&mut Lone { id: 4 }), Ok(false));
    let ids: Vec<usize> = table.get_all().unwrap().iter().map(|r| r.id).collect();
    assert_eq!(ids, vec![1, 2, 3, 4, 5]);
    assert_eq!(table.get_by_index(0), Ok(Lone { id: 1 }));
    assert_eq!(table.get_by_index(5), Err(DbError::OutOfBounds));
    assert!(matches!(table.get_by_id(&3), TableGet::Found(Lone { id: 3 })));
    assert!(matches!(table.get_by_id(&9), TableGet::NotFound));
    assert_eq!(table.remove(&3), Ok(()));
    assert!(matches!(table.get_by_id(&3), TableGet::NotFound));
    assert_eq!(table.remove(&3), Err(DbError::NotFound));
    assert_eq!(table.len(), Ok(4));
    assert_eq!(table.is_empty(), Ok(false));
    table.clear().unwrap();
    assert_eq!(table.is_empty(), Ok(true));
    assert!(matches!(table.get_by_id(&1), TableGet::NotFound));
}

#[test]
fn two_rows_with_one_key_are_an_error() {
    let mut bytes = 7usize.as_bin(&mut SideFiles::new(1)).unwrap();
    bytes.extend_from_slice(&7usize.to_le_bytes());
    let bin = BinFile::<Lone>::open(BDPath::new_main_str("t"), bytes, SideFiles::new(1));
    let mut table = TableFile::open(bin, NoIndex).unwrap();
    match table.get_by_id(&7) {
        TableGet::InternalError(text) => assert_eq!(text, "multiple with the same id"),
        _ => panic!("two rows with one key were not reported"),
    }
    assert_eq!(table.remove(&7), Err(DbError::ConsistencyViolation));
}

#[test]
fn unique_column_refuses_a_second_row() {
    let mut table_a = CachedTableFile::new(String::from("a")).unwrap();
    assert_eq!(table_a.insert(&mut A { id: 1, rel: Foreign::new(1) }), Ok(true));
    assert_eq!(table_a.insert(&mut A { id: 2, rel: Foreign::new(1) }), Ok(false));
    assert_eq!(table_a.len(), Ok(1));
    assert_eq!(table_a.insert(&mut A { id: 2, rel: Foreign::new(3) }), Ok(true));
    assert_eq!(table_a.insert(&mut A { id: 0, rel: Foreign::new(2) }), Ok(true));
    let all: Vec<usize> = table_a.get_all().unwrap().iter().map(|r| r.id).collect();
    assert_eq!(all, vec![0, 1, 2]);
    let hit = found(by_rel_a(&mut table_a, &Foreign::new(3))).unwrap();
    assert_eq!(hit.id, 2);
    let hit = found(by_rel_a(&mut table_a, &Foreign::new(2))).unwrap();
    assert_eq!(hit.id, 0);
    assert_eq!(table_a.remove(&1), Ok(()));
    let hit = found(by_rel_a(&mut table_a, &Foreign::new(3))).unwrap();
    assert_eq!(hit.id, 2);
    assert!(matches!(by_rel_a(&mut table_a, &Foreign::new(1)), TableGet::NotFound));
    assert_eq!(table_a.insert(&mut A { id: 9, rel: Foreign::new(1) }), Ok(true));
}

#[test]
fn clearing_and_filling_again_gives_the_same_index() {
    let rows = [(3usize, 7usize), (1, 7), (2, 5), (9, 6)];
    let mut fresh = CachedTableFile::new(String::from("b")).unwrap();
    for (id, rel) in rows {
        assert_eq!(fresh.insert(&mut B { id, rel: Foreign::new(rel) }), Ok(true));
    }
    let mut used = CachedTableFile::new(String::from("b")).unwrap();
    assert_eq!(used.insert(&mut B { id: 4, rel: Foreign::new(7) }), Ok(true));
    assert_eq!(used.insert(&mut B { id: 1, rel: Foreign::new(1) }), Ok(true));
    used.clear().unwrap();
    for (id, rel) in rows.iter().rev() {
        assert_eq!(used.insert(&mut B { id: *id, rel: Foreign::new(*rel) }), Ok(true));
    }
    assert_eq!(fresh.get_all(), used.get_all());
    for rel in [5usize, 6, 7, 8] {
        let key = Foreign::new(rel);
        let a: Vec<usize> = ids_of(by_rel_b(&mut fresh, &key));
        let b: Vec<usize> = ids_of(by_rel_b(&mut used, &key));
        assert_eq!(a, b);
    }
    assert!(matches!(by_rel_b(&mut fresh, &Foreign::new(8)), TableGet::NotFound));
    let sevens: Vec<usize> =
        found(by_rel_b(&mut fresh, &Foreign::new(7))).iter().map(|r| r.id).collect();
    assert_eq!(sevens, vec![1, 3]);
}

fn entries(keys: &[u32]) -> BinFile<IndexRow<u32>> {
    let mut rows: Vec<IndexRow<u32>> =
        keys.iter().enumerate().map(|(i, k)| IndexRow { data: *k, index: i }).collect();
    let mut bin = BinFile::new(BDPath::new_index(String::from("t"), String::from("k"))).unwrap();
    bin.inserts(0, &mut rows).unwrap();
    bin
}

#[test]
fn search_finds_all_rows_with_the_key() {
    let mut bin = entries(&[1, 1, 2, 3, 3, 3, 5]);
    let index: IdAsIndexFile<u32, IndexRow<u32>, BinFile<IndexRow<u32>>, ByData> =
        IdAsIndexFile::new().unwrap();
    match index.indx(&mut bin, &3) {
        IndexGet::Found(start, rows) => {
            assert_eq!(start, 3);
            let places: Vec<usize> = rows.iter().map(|r| r.index).collect();
            assert_eq!(places, vec![3, 4, 5]);
            assert!(rows.iter().all(|r| r.data == 3));
        }
        _ => panic!("the rows with key 3 were not found"),
    }
    assert!(matches!(index.indx(&mut bin, &4), IndexGet::NotFound(6)));
    assert!(matches!(index.indx(&mut bin, &0), IndexGet::NotFound(0)));
    assert!(matches!(index.indx(&mut bin, &9), IndexGet::NotFound(7)));
    assert!(matches!(index.indx(&mut bin, &1), IndexGet::Found(0, _)));
    assert!(matches!(index.indx(&mut bin, &5), IndexGet::Found(6, _)));
    let mut empty = entries(&[]);
    assert!(matches!(index.indx(&mut empty, &3), IndexGet::NotFound(0)));
}

struct ByPayload;

impl Probe<DynanicBinary<u8>, u8> for ByPayload {
    fn judge(row: &DynanicBinary<u8>, key: &u8) -> Option<Order> {
        row.data().compare(key)
    }
}

struct Never;

impl Probe<IndexRow<u32>, u32> for Never {
    fn judge(_: &IndexRow<u32>, _: &u32) -> Option<Order> {
        None
    }
}

#[test]
fn search_reports_rows_that_cannot_be_read() {
    let bin_path = BDPath::new_main_str("t");
    let mut bin = BinFile::<DynanicBinary<u8>>::open(
        bin_path,
        vec![1, 0, 0, 0, 0, 0, 0, 0],
        SideFiles::new(1),
    );
    let index: IdAsIndexFile<u8, DynanicBinary<u8>, BinFile<DynanicBinary<u8>>, ByPayload> =
        IdAsIndexFile::new().unwrap();
    assert!(matches!(index.indx(&mut bin, &3), IndexGet::Failed(DbError::MissingSideFile)));
    let mut good = BinFile::<DynanicBinary<u8>>::new(BDPath::new_main_str("t")).unwrap();
    good.inserts(0, &mut vec![DynanicBinary::new(3), DynanicBinary::new(9)]).unwrap();
    assert!(matches!(index.indx(&mut good, &9), IndexGet::Found(1, _)));
    assert!(matches!(index.indx(&mut good, &4), IndexGet::NotFound(1)));
}

#[test]
fn search_reports_keys_that_cannot_be_compared() {
    let mut bin = entries(&[1, 2, 3]);
    let index: IdAsIndexFile<u32, IndexRow<u32>, BinFile<IndexRow<u32>>, Never> =
        IdAsIndexFile::new().unwrap();
    match index.indx(&mut bin, &2) {
        IndexGet::InternalError(text) => assert_eq!(text, "cmp error"),
        _ => panic!("the failed comparison was not reported"),
    }
}

#[test]
fn integers_compare_by_value() {
    assert_eq!(3u8.compare(&4), Some(Order::Less));
    assert_eq!((-3i64).compare(&-3), Some(Order::Equal));
    assert_eq!(0usize.compare(&usize::MAX), Some(Order::Less));
    assert_eq!(i128::MAX.compare(&i128::MIN), Some(Order::Greater));
    assert_eq!(Foreign::<Lone>::new(5).compare(&Foreign::new(2)), Some(Order::Greater));
}

#[test]
fn index_entries_follow_the_main_file() {
    let path = BDPath::new_index(String::from("t"), String::from("rel"));
    let mut index: SpecificIndexFile<RelOfB, B, BinFile<IndexRow<Foreign<A>>>> =
        SpecificIndexFile::new(path, false).unwrap();
    let row = |id: usize, rel: usize| B { id, rel: Foreign::new(rel) };
    index.base_insert(0, &row(10, 5)).unwrap();
    index.base_insert(1, &row(20, 3)).unwrap();
    index.base_insert(1, &row(15, 5)).unwrap();
    index.base_insert(0, &row(5, 4)).unwrap();
    let list = |index: &mut SpecificIndexFile<RelOfB, B, BinFile<IndexRow<Foreign<A>>>>| {
        let mut out = vec![];
        for key in 0..8usize {
            if let IndexGet::Found(_, hits) = index.indx(&Foreign::new(key)) {
                for hit in hits {
                    out.push((key, hit.index));
                }
            }
        }
        out
    };
    assert_eq!(list(&mut index), vec![(3, 3), (4, 0), (5, 1), (5, 2)]);
    assert_eq!(index.base_check_unique(&row(1, 5)), Ok(Some(())));
    index.base_remove(1).unwrap();
    assert_eq!(list(&mut index), vec![(3, 2), (4, 0), (5, 1)]);
    index.clear().unwrap();
    assert_eq!(list(&mut index), vec![]);
    let mut strict: SpecificIndexFile<RelOfB, B, BinFile<IndexRow<Foreign<A>>>> =
        SpecificIndexFile::new(BDPath::new_index(String::from("t"), String::from("u")), true)
            .unwrap();
    strict.insert(0, &row(1, 5)).unwrap();
    assert_eq!(strict.check_unique(&row(2, 5)), Ok(None));
    assert_eq!(strict.check_unique(&row(2, 6)), Ok(Some(())));
}

#[derive(Debug, Clone, PartialEq)]
struct Client {
    id: usize,
    nom: DynanicBinary<String>,
    entreprise: Foreign<Entreprise>,
}

#[derive(Debug, Clone, PartialEq)]
struct Entreprise {
    id: usize,
    nom: DynanicBinary<String>,
    employe: DynanicBinary<Vec<Pair<u8, [char; 4]>>>,
}

impl Binary for Client {
    type Model = ();

    fn bin_size() -> usize {
        usize::bin_size() + DynanicBinary::<String>::bin_size() + Foreign::<Entreprise>::bin_size()
    }

    fn from_bin(data: &[u8], dyns: &SideFiles) -> Result<Self, DbError> {
        let id = usize::from_bin(data, dyns)?;
        let nom = DynanicBinary::<String>::from_bin(&data[8..], dyns)?;
        let entreprise = Foreign::<Entreprise>::from_bin(&data[16..], dyns)?;
        Ok(Client { id, nom, entreprise })
    }

    fn as_bin(&mut self, dyns: &mut SideFiles) -> Result<Vec<u8>, DbError> {
        let mut bin_data = self.id.as_bin(dyns)?;
        bin_data.extend_from_slice(&self.nom.as_bin(dyns)?);
        bin_data.extend_from_slice(&self.entreprise.as_bin(dyns)?);
        Ok(bin_data)
    }

    fn delete(&self, dyns: &mut SideFiles) -> Result<(), DbError> {
        self.id.delete(dyns)?;
        self.nom.delete(dyns)?;
        self.entreprise.delete(dyns)
    }
}

impl Table for Client {
    type ID = usize;
    type Indexes = NoIndex;

    fn id(&self) -> &usize {
        &self.id
    }

    fn get_indexes(_: String) -> Result<NoIndex, DbError> {
        Ok(NoIndex)
    }
}

impl Binary for Entreprise {
    type Model = ();

    fn bin_size() -> usize {
        usize::bin_size()
            + DynanicBinary::<String>::bin_size()
            + DynanicBinary::<Vec<Pair<u8, [char; 4]>>>::bin_size()
    }

    fn from_bin(data: &[u8], dyns: &SideFiles) -> Result<Self, DbError> {
        let id = usize::from_bin(data, dyns)?;
        let nom = DynanicBinary::<String>::from_bin(&data[8..], dyns)?;
        let employe = DynanicBinary::<Vec<Pair<u8, [char; 4]>>>::from_bin(&data[16..], dyns)?;
        Ok(Entreprise { id, nom, employe })
    }

    fn as_bin(&mut self, dyns: &mut SideFiles) -> Result<Vec<u8>, DbError> {
        let mut bin_data = self.id.as_bin(dyns)?;
        bin_data.extend_from_slice(&self.nom.as_bin(dyns)?);
        bin_data.extend_from_slice(&self.employe.as_bin(dyns)?);
        Ok(bin_data)
    }

    fn delete(&self, dyns: &mut SideFiles) -> Result<(), DbError> {
        self.id.delete(dyns)?;
        self.nom.delete(dyns)?;
        self.employe.delete(dyns)
    }
}

impl Table for Entreprise {
    type ID = usize;
    type Indexes = NoIndex;

    fn id(&self) -> &usize {
        &self.id
    }

    fn get_indexes(_: String) -> Result<NoIndex, DbError> {
        Ok(NoIndex)
    }
}

fn staff(items: &[(u8, [char; 4])]) -> Vec<Pair<u8, [char; 4]>> {
    items.iter().map(|t| Pair { key: t.0, value: t.1 }).collect()
}

#[test]
fn test_table_run_test_table_get() {
    let entreprises = [
        Entreprise {
            id: 1,
            nom: DynanicBinary::new(String::from("BigTech")),
            employe: DynanicBinary::new(staff(&[
                (0, ['M', 'L', 'P', 'X']),
                (1, ['K', 'H', 'E', 'A']),
                (2, ['J', 'Q', 'V', 'Z']),
            ])),
        },
        Entreprise {
            id: 2,
            nom: DynanicBinary::new(String::from("Mine")),
            employe: DynanicBinary::new(staff(&[(0, ['U', 'R', 'W', 'S'])])),
        },
    ];

    let clients = [
        Client {
            id: 1,
            nom: DynanicBinary::new(String::from("Bob")),
            entreprise: Foreign::new(1),
        },
        Client {
            id: 2,
            nom: DynanicBinary::new(String::from("Fred")),
            entreprise: Foreign::new(1),
        },
        Client {
            id: 3,
            nom: DynanicBinary::new(String::from("Will")),
            entreprise: Foreign::new(2),
        },
    ];

    let mut table_clients = TableFile::new(String::from("test/test_tableGetClients"))
        .expect("failed to create table_clients");
    for client in clients.clone().iter_mut() {
        assert!(table_clients.insert(client).expect("failed to insert clients"));
    }
    let mut table_entreprises = TableFile::new(String::from("test/test_tableGetEntreprises"))
        .expect("failed to create table_entreprises");
    for entreprise in entreprises.clone().iter_mut() {
        assert!(table_entreprises.insert(entreprise).expect("failed to insert entreprises"));
    }

    for (a, b) in entreprises
        .iter()
        .zip(table_entreprises.get_all().expect("gets entreprises"))
    {
        assert_eq!(a.id, b.id);
        assert_eq!(a.nom, b.nom);
        assert_eq!(a.employe.data().len(), b.employe.data().len());
        assert!(b.nom.id().is_some());
        assert!(b.employe.id().is_some());
        assert_eq!(a.employe.data(), b.employe.data());
    }

    for client in table_clients.get_all().expect("client doesnt exists") {
        assert!(client.nom.id().is_some());
        assert_eq!(
            found(client.entreprise.data(&mut table_entreprises)).nom,
            found(table_entreprises.get_by_id(client.entreprise.id())).nom
        );
    }
    table_entreprises.clear().expect("failed to clear entreprise");
    assert_eq!(table_entreprises.bin().nb_dyns(), 0);
    for client in table_clients.get_all().expect("client doesnt exists") {
        assert!(matches!(
            client.entreprise.data(&mut table_entreprises),
            TableGet::NotFound
        ));
    }
}

#[test]
fn side_files_are_kept_for_the_rows_that_stay() {
    let mut table = TableFile::new(String::from("t")).unwrap();
    let mut r1 = Entreprise {
        id: 1,
        nom: DynanicBinary::new(String::from("one")),
        employe: DynanicBinary::new(staff(&[(1, ['a', 'b', 'c', 'd'])])),
    };
    let mut r2 = Entreprise {
        id: 2,
        nom: DynanicBinary::new(String::from("two")),
        employe: DynanicBinary::new(staff(&[])),
    };
    table.clear().unwrap();
    assert_eq!(table.insert(&mut r1), Ok(true));
    assert_eq!(table.insert(&mut r2), Ok(true));
    assert_eq!(table.bin().nb_dyns(), 4);
    assert_eq!(table.remove(&1), Ok(()));
    assert_eq!(table.bin().nb_dyns(), 2);
    let left = table.get_all().unwrap();
    assert_eq!(left, vec![r2.clone()]);
    assert_eq!(left[0].nom.id(), r2.nom.id());
    assert_eq!(left[0].employe.id(), r2.employe.id());
    let (bin, _) = table.into_parts();
    let path = bin.path().clone();
    let (bytes, dyns) = bin.into_parts();
    let mut again =
        TableFile::<Entreprise>::open(BinFile::open(path, bytes, dyns), NoIndex).unwrap();
    assert_eq!(again.bin().nb_dyns(), 2);
    assert_eq!(again.get_all().unwrap(), vec![r2]);
}

#[test]
fn forgetting_a_row_moves_the_cached_rows_after_it_down() {
    let mut table = CachedTableFile::new(String::from("t")).unwrap();
    for id in [1usize, 2, 3, 4, 5] {
        assert_eq!(table.insert(&mut Lone { id }), Ok(true));
    }
    table.bin_mut().clear_cache();
    assert_eq!(table.bin().cache_len(), 0);
    assert_eq!(table.get_all().unwrap().len(), 5);
    assert_eq!(table.bin().cache_len(), 5);
    assert!(matches!(table.remove_from_cache(&3), TableGet::Found(())));
    assert_eq!(table.bin().cache_len(), 4);
    assert_eq!(table.bin().bytes().len(), 5 * Lone::bin_size());
    assert_eq!(table.bin_mut().get(1), Ok(Lone { id: 2 }));
    assert_eq!(table.bin_mut().get(2), Ok(Lone { id: 4 }));
    assert_eq!(table.bin_mut().get(3), Ok(Lone { id: 5 }));
    assert_eq!(table.bin().cache_len(), 4);
    assert_eq!(table.bin_mut().get(4), Ok(Lone { id: 5 }));
    assert_eq!(table.bin().cache_len(), 5);
    table.bin_mut().clear_cache();
    assert_eq!(table.get_by_index(2), Ok(Lone { id: 3 }));
}

#[test]
fn forgetting_a_row_that_is_not_there_is_an_error() {
    let mut table = CachedTableFile::new(String::from("t")).unwrap();
    for id in [1usize, 2, 4] {
        assert_eq!(table.insert(&mut Lone { id }), Ok(true));
    }
    table.bin_mut().clear_cache();
    match table.remove_from_cache(&3) {
        TableGet::InternalError(text) => assert_eq!(text, "remove not found"),
        _ => panic!("a row that is not there was forgotten"),
    }
    let cached = table.bin().cache_len();
    assert!(cached >= 1 && cached <= 3);
    let ids: Vec<usize> = table.get_all().unwrap().iter().map(|r| r.id).collect();
    assert_eq!(ids, vec![1, 2, 4]);
}

#[test]
fn forgetting_one_of_two_rows_with_one_key_is_an_error() {
    let mut bytes = 7usize.as_bin(&mut SideFiles::new(1)).unwrap();
    bytes.extend_from_slice(&7usize.to_le_bytes());
    let bin = CachedBinFile::<Lone>::open(BDPath::new_main_str("t"), bytes, SideFiles::new(1));
    let mut table = CachedTableFile::open(bin, NoIndex).unwrap();
    match table.remove_from_cache(&7) {
        TableGet::InternalError(text) => assert_eq!(text, "multiple with the same id"),
        _ => panic!("two rows with one key were not reported"),
    }
    assert_eq!(table.bin().cache_len(), 2);
}

#[test]
fn an_index_drops_its_cache_and_keeps_its_entries() {
    let mut table_a = CachedTableFile::new(String::from("a")).unwrap();
    for (id, rel) in [(1usize, 4usize), (2, 6), (3, 5)] {
        assert_eq!(table_a.insert(&mut A { id, rel: Foreign::new(rel) }), Ok(true));
    }
    assert_eq!(found(by_rel_a(&mut table_a, &Foreign::new(6))).unwrap().id, 2);
    assert!(table_a.indexes_mut().bin_mut().cache_len() > 0);
    let before = table_a.indexes_mut().bin_mut().bytes().clone();
    table_a.indexes_mut().clear_cache();
    assert_eq!(table_a.indexes_mut().bin_mut().cache_len(), 0);
    assert_eq!(table_a.indexes_mut().bin_mut().bytes(), &before);
    assert_eq!(found(by_rel_a(&mut table_a, &Foreign::new(6))).unwrap().id, 2);
    assert_eq!(found(by_rel_a(&mut table_a, &Foreign::new(4))).unwrap().id, 1);
}

#[test]
fn two_indexes_drop_their_caches_together() {
    let open = |name: &str| -> SpecificIndexFile<RelOfA, A, CachedBinFile<IndexRow<Foreign<B>>>> {
        SpecificIndexFile::new(BDPath::new_index(String::from("a"), String::from(name)), false)
            .unwrap()
    };
    let mut both = Both { first: open("x"), second: open("y") };
    for (at, rel) in [(0usize, 4usize), (1, 6), (2, 5)] {
        assert_eq!(both.insert(at, &A { id: at, rel: Foreign::new(rel) }), Ok(()));
    }
    assert!(matches!(both.first.indx(&Foreign::new(5)), IndexGet::Found(1, _)));
    assert!(matches!(both.second.indx(&Foreign::new(6)), IndexGet::Found(2, _)));
    assert!(both.first.bin_mut().cache_len() > 0);
    assert!(both.second.bin_mut().cache_len() > 0);
    both.clear_cache();
    assert_eq!(both.first.bin_mut().cache_len(), 0);
    assert_eq!(both.second.bin_mut().cache_len(), 0);
    assert!(matches!(both.first.indx(&Foreign::new(5)), IndexGet::Found(1, _)));
    assert!(matches!(both.second.indx(&Foreign::new(4)), IndexGet::Found(0, _)));
}

#[derive(Clone, PartialEq, Debug)]
pub struct Shut {
    pub id: usize,
}

impl Binary for Shut {
    type Model = ();

    fn bin_size() -> usize {
        usize::bin_size()
    }

    fn from_bin(data: &[u8], dyns: &SideFiles) -> Result<Self, DbError> {
        Ok(Shut { id: usize::from_bin(data, dyns)? })
    }

    fn as_bin(&mut self, dyns: &mut SideFiles) -> Result<Vec<u8>, DbError> {
        self.id.as_bin(dyns)
    }

    fn delete(&self, dyns: &mut SideFiles) -> Result<(), DbError> {
        self.id.delete(dyns)
    }
}

impl Table for Shut {
    type ID = usize;
    type Indexes = NoIndex;

    fn id(&self) -> &usize {
        &self.id
    }

    fn get_indexes(_: String) -> Result<NoIndex, DbError> {
        Err(DbError::MissingSideFile)
    }
}

#[test]
fn a_table_whose_indexes_do_not_open_does_not_open() {
    assert!(matches!(TableFile::<Shut>::new(String::from("t")), Err(DbError::MissingSideFile)));
    assert!(matches!(
        CachedTableFile::<Shut>::new(String::from("t")),
        Err(DbError::MissingSideFile)
    ));
}

#[test]
fn a_new_table_is_empty_and_has_the_indexes_of_its_rows() {
    let mut table = CachedTableFile::<A>::new(String::from("dir")).unwrap();
    assert_eq!(table.len(), Ok(0));
    assert_eq!(table.bin().cache_len(), 0);
    assert!(table.bin().path().is_main());
    assert_eq!(table.bin().path().dir_path, "dir");
    assert!(matches!(table.indexes_mut().indx(&Foreign::new(1)), IndexGet::NotFound(0)));
    assert_eq!(
        table.indexes_mut().base_check_unique(&A { id: 1, rel: Foreign::new(1) }),
        Ok(Some(()))
    );
    assert!(IdAsIndexFile::<usize, Lone, BinFile<Lone>, ById>::new().is_ok());
}

#[test]
fn rows_are_found_by_a_column_through_an_index_beside_the_table() {
    let mut table = TableFile::new(String::from("t")).unwrap();
    let mut by_rel: SpecificIndexFile<RelOfLoose, Loose, BinFile<IndexRow<u16>>> =
        SpecificIndexFile::new(BDPath::new_index(String::from("t"), String::from("rel")), false)
            .unwrap();
    let mut by_tag: SpecificIndexFile<RelOfLoose, Loose, CachedBinFile<IndexRow<u16>>> =
        SpecificIndexFile::new(BDPath::new_index(String::from("t"), String::from("tag")), true)
            .unwrap();
    for (at, (id, rel)) in [(1usize, 7u16), (2, 5), (3, 7)].into_iter().enumerate() {
        let mut row = Loose { id, rel };
        assert_eq!(table.insert(&mut row), Ok(true));
        by_rel.base_insert(at, &row).unwrap();
    }
    by_tag.base_insert(1, &Loose { id: 2, rel: 5 }).unwrap();
    by_tag.base_insert(2, &Loose { id: 3, rel: 7 }).unwrap();
    match table.get_by_column(&mut by_rel, &7) {
        TableGet::Found(rows) => {
            assert_eq!(rows, vec![Loose { id: 1, rel: 7 }, Loose { id: 3, rel: 7 }])
        }
        _ => panic!("the rows were not found"),
    }
    match table.get_by_column(&mut by_rel, &5) {
        TableGet::Found(rows) => assert_eq!(rows, vec![Loose { id: 2, rel: 5 }]),
        _ => panic!("the row was not found"),
    }
    assert!(matches!(table.get_by_column(&mut by_rel, &6), TableGet::NotFound));
    assert!(matches!(
        table.get_by_unique_column(&mut by_tag, &7),
        TableGet::Found(Some(Loose { id: 3, rel: 7 }))
    ));
    assert!(matches!(table.get_by_unique_column(&mut by_tag, &6), TableGet::NotFound));
    match table.get_by_unique_column(&mut by_rel, &7) {
        TableGet::InternalError(text) => assert_eq!(text, "multiple with the same id"),
        _ => panic!("two rows with one value were not reported"),
    }
    by_tag.base_insert(9, &Loose { id: 9, rel: 1 }).unwrap();
    assert!(matches!(
        table.get_by_unique_column(&mut by_tag, &1),
        TableGet::Failed(DbError::OutOfBounds)
    ));
    assert!(matches!(
        table.get_by_column(&mut by_tag, &1),
        TableGet::Failed(DbError::OutOfBounds)
    ));
}

#[derive(Clone, PartialEq, Debug)]
pub struct Loose {
    pub id: usize,
    pub rel: u16,
}

pub struct RelOfLoose;

impl Binary for Loose {
    type Model = ();

    fn bin_size() -> usize {
        usize::bin_size() + u16::bin_size()
    }

    fn from_bin(data: &[u8], dyns: &SideFiles) -> Result<Self, DbError> {
        let id = usize::from_bin(data, dyns)?;
        let rel = u16::from_bin(&data[usize::bin_size()..], dyns)?;
        Ok(Loose { id, rel })
    }

    fn as_bin(&mut self, dyns: &mut SideFiles) -> Result<Vec<u8>, DbError> {
        let mut bin_data = self.id.as_bin(dyns)?;
        bin_data.extend_from_slice(&self.rel.as_bin(dyns)?);
        Ok(bin_data)
    }

    fn delete(&self, dyns: &mut SideFiles) -> Result<(), DbError> {
        self.id.delete(dyns)?;
        self.rel.delete(dyns)
    }
}

impl Column<Loose> for RelOfLoose {
    type Key = u16;

    fn extract(row: &Loose) -> &u16 {
        &row.rel
    }
}

impl Table for Loose {
    type ID = usize;
    type Indexes = NoIndex;

    fn id(&self) -> &usize {
        &self.id
    }

    fn get_indexes(_: String) -> Result<NoIndex, DbError> {
        Ok(NoIndex)
    }
}
