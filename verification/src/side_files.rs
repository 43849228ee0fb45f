//! The directory of side files of a table.
//!
//! A side file holds the payload of one dynamic field. It is named by a
//! nonzero 64-bit identifier that is unique within the table. This module
//! keeps the directory as a map from identifier to content, hands out fresh
//! identifiers, and logs every change so that the directory on disk can be
//! brought up to date.
use crate::error::DbError;
use std::collections::HashMap;
use vstd::prelude::*;
use vstd::slice::slice_to_vec;

verus! {

broadcast use vstd::std_specs::hash::group_hash_axioms;

/// The number of 64-bit values.
pub open spec fn id_space() -> nat {
    0x1_0000_0000_0000_0000
}

/// The identifier that follows `id` when identifiers are tried in turn;
/// after the largest comes zero.
pub open spec fn next_id(id: u64) -> u64 {
    if id == u64::MAX {
        0
    } else {
        (id + 1) as u64
    }
}

/// An identifier is free when it is not zero and names no side file.
pub open spec fn is_free(taken: Set<u64>, id: u64) -> bool {
    id != 0 && !taken.contains(id)
}

/// The first free identifier among `start` and the `fuel` that follow it, or
/// the one after those if none of them is free.
pub open spec fn probe(taken: Set<u64>, start: u64, fuel: nat) -> u64
    decreases fuel,
{
    if fuel == 0 || is_free(taken, start) {
        start
    } else {
        probe(taken, next_id(start), (fuel - 1) as nat)
    }
}

/// The identifier that a new side file gets: the first free one from `hint`
/// on.
pub open spec fn first_free(taken: Set<u64>, hint: u64) -> u64 {
    probe(taken, hint, taken.len() + 1)
}

/// How far `x` lies after `start`, counting round from the largest
/// identifier to zero.
pub open spec fn distance(start: u64, x: u64) -> nat {
    ((x as int - start as int) % (id_space() as int)) as nat
}

/// The identifier that lies `j` after `start`.
pub open spec fn candidate(start: u64, j: nat) -> u64 {
    ((start as nat + j) % id_space()) as u64
}

/// The `j` identifiers from `start` on.
pub open spec fn window(start: u64, j: nat) -> Set<u64> {
    Set::new(|x: u64| distance(start, x) < j)
}

/// The `j` identifiers from `start` on are `j` different ones.
pub proof fn lemma_window_len(start: u64, j: nat)
    requires
        j <= id_space(),
    ensures
        window(start, j).finite(),
        window(start, j).len() == j,
    decreases j,
{
    if j == 0 {
        assert(window(start, j) =~= Set::<u64>::empty());
    } else {
        let k = (j - 1) as nat;
        lemma_window_len(start, k);
        let c = candidate(start, k);
        assert(distance(start, c) == k);
        assert(window(start, j) =~= window(start, k).insert(c)) by {
            assert forall|x: u64| window(start, j).contains(x) implies window(start, k).insert(
                c,
            ).contains(x) by {
                if distance(start, x) == k {
                    assert(x == c);
                }
            }
        }
    }
}

/// Probing from `c`, the `j`-th identifier after `start`, finds a free
/// identifier, when none of the `j` before it is free and the directory is
/// not full.
pub proof fn lemma_probe_finds(taken: Set<u64>, start: u64, j: nat)
    requires
        taken.finite(),
        !taken.contains(0),
        taken.len() + 2 <= id_space(),
        j <= taken.len() + 1,
        forall|i: nat| i < j ==> !is_free(taken, #[trigger] candidate(start, i)),
    ensures
        is_free(taken, probe(taken, candidate(start, j), (taken.len() + 1 - j) as nat)),
    decreases taken.len() + 1 - j,
{
    let c = candidate(start, j);
    if !is_free(taken, c) {
        let all = taken.insert(0);
        assert forall|x: u64| window(start, j + 1).contains(x) implies all.contains(x) by {
            let i = distance(start, x);
            assert(x == candidate(start, i));
        }
        lemma_window_len(start, j + 1);
        vstd::set_lib::lemma_len_subset(window(start, j + 1), all);
        assert(j + 1 <= taken.len() + 1);
        assert(next_id(c) == candidate(start, j + 1));
        assert forall|i: nat| i < j + 1 implies !is_free(taken, #[trigger] candidate(start, i)) by {
            if i == j {
            }
        }
        lemma_probe_finds(taken, start, j + 1);
    }
}

/// The identifier that a new side file gets is free, unless the directory
/// is full.
pub proof fn lemma_first_free_is_free(taken: Set<u64>, hint: u64)
    requires
        taken.finite(),
        !taken.contains(0),
        taken.len() + 2 <= id_space(),
    ensures
        is_free(taken, first_free(taken, hint)),
{
    assert(candidate(hint, 0) == hint);
    lemma_probe_finds(taken, hint, 0);
}

/// What a directory of side files holds: the content of each file, and the
/// identifier from which the search for a fresh one starts.
pub struct SideState {
    pub files: Map<u64, Seq<u8>>,
    pub hint: u64,
}

impl SideState {
    /// A directory holds finitely many files, and none is named zero.
    pub open spec fn wf(self) -> bool {
        self.files.dom().finite() && !self.files.contains_key(0)
    }

    /// A full directory has no room for another file.
    pub open spec fn full(self) -> bool {
        self.files.dom().len() + 2 > id_space()
    }

    /// The identifier that the next new side file gets.
    pub open spec fn fresh(self) -> u64 {
        first_free(self.files.dom(), self.hint)
    }

    /// The directory after file `id` was written with `bytes`.
    pub open spec fn put(self, id: u64, bytes: Seq<u8>) -> SideState {
        SideState { files: self.files.insert(id, bytes), hint: self.hint }
    }

    /// The directory after a fresh identifier was handed out.
    pub open spec fn advance(self) -> SideState {
        SideState { files: self.files, hint: next_id(self.fresh()) }
    }
}

/// One change to the directory of side files on disk.
#[derive(Debug, PartialEq, Eq)]
pub enum SideOp {
    /// Write `bytes` to the file named `id`, replacing what it held.
    Put { id: u64, bytes: Vec<u8> },
    /// Remove the file named `id`.
    Delete { id: u64 },
    /// Remove every file.
    Reset,
}

/// The files after one logged change.
pub open spec fn apply_side_op(files: Map<u64, Seq<u8>>, op: SideOp) -> Map<u64, Seq<u8>> {
    match op {
        SideOp::Put { id, bytes } => files.insert(id, bytes@),
        SideOp::Delete { id } => files.remove(id),
        SideOp::Reset => Map::empty(),
    }
}

/// The files after the logged changes, applied in order.
pub open spec fn replay_side_ops(files: Map<u64, Seq<u8>>, ops: Seq<SideOp>) -> Map<u64, Seq<u8>>
    decreases ops.len(),
{
    if ops.len() == 0 {
        files
    } else {
        apply_side_op(replay_side_ops(files, ops.drop_last()), ops.last())
    }
}

/// The directory of side files of one table.
pub struct SideFiles {
    files: HashMap<u64, Vec<u8>>,
    hint: u64,
    log: Vec<SideOp>,
    base: Ghost<Map<u64, Seq<u8>>>,
}

impl View for SideFiles {
    type V = SideState;

    closed spec fn view(&self) -> SideState {
        SideState {
            files: Map::new(|id: u64| self.files@.contains_key(id), |id: u64| self.files@[id]@),
            hint: self.hint,
        }
    }
}

impl SideFiles {
    /// The changes made since the log was last taken.
    pub closed spec fn pending(&self) -> Seq<SideOp> {
        self.log@
    }

    /// The files as they were when the log was last taken.
    pub closed spec fn synced(&self) -> Map<u64, Seq<u8>> {
        self.base@
    }

    /// No file is named zero, and the logged changes lead from the files as
    /// they were when the log was last taken to the files as they are.
    pub closed spec fn wf(&self) -> bool {
        &&& !self.files@.contains_key(0)
        &&& replay_side_ops(self.base@, self.log@) == self@.files
    }

    /// A well-formed directory has a well-formed content.
    pub proof fn lemma_wf(&self)
        requires
            self.wf(),
        ensures
            self@.wf(),
            replay_side_ops(self.synced(), self.pending()) == self@.files,
    {
        assert(self@.files.dom() =~= self.files@.dom());
    }

    /// An empty directory; fresh identifiers are sought from `hint` on.
    pub fn new(hint: u64) -> (s: Self)
        ensures
            s.wf(),
            s@.files == Map::<u64, Seq<u8>>::empty(),
            s@.hint == hint,
            s.pending() == Seq::<SideOp>::empty(),
    {
        let s = SideFiles { files: HashMap::new(), hint, log: Vec::new(), base: Ghost(Map::empty()) };
        assert(s@.files =~= Map::<u64, Seq<u8>>::empty());
        s
    }

    /// The number of side files.
    pub fn len(&self) -> (n: usize)
        ensures
            n == self@.files.dom().len(),
    {
        assert(self@.files.dom() =~= self.files@.dom());
        self.files.len()
    }

    /// Tells whether the file named `id` exists.
    pub fn contains(&self, id: u64) -> (b: bool)
        ensures
            b == self@.files.contains_key(id),
    {
        self.files.contains_key(&id)
    }

    /// The content of the file named `id`.
    pub fn read(&self, id: u64) -> (r: Result<Vec<u8>, DbError>)
        ensures
            match r {
                Ok(bytes) => self@.files.contains_key(id) && bytes@ == self@.files[id],
                Err(e) => !self@.files.contains_key(id) && e == DbError::MissingSideFile,
            },
    {
        match self.files.get(&id) {
            Some(bytes) => Ok(slice_to_vec(bytes.as_slice())),
            None => Err(DbError::MissingSideFile),
        }
    }

    /// Starts the search for the next fresh identifier at `hint`.
    pub fn reseed(&mut self, hint: u64)
        requires
            old(self).wf(),
        ensures
            final(self).wf(),
            final(self)@ == (SideState { files: old(self)@.files, hint }),
            final(self).pending() == old(self).pending(),
            final(self).synced() == old(self).synced(),
    {
        self.hint = hint;
    }

    /// Hands out the identifier for a new side file: the first free one
    /// from the hint on. The next search starts after it. A full directory
    /// has none to give.
    pub fn fresh_id(&mut self) -> (r: Option<u64>)
        requires
            old(self).wf(),
        ensures
            final(self).wf(),
            final(self).pending() == old(self).pending(),
            final(self).synced() == old(self).synced(),
            match r {
                Some(id) => {
                    &&& !old(self)@.full()
                    &&& id == old(self)@.fresh()
                    &&& is_free(old(self)@.files.dom(), id)
                    &&& final(self)@ == old(self)@.advance()
                },
                None => old(self)@.full() && final(self)@ == old(self)@,
            },
    {
        proof {
            self.lemma_wf();
        }
        let ghost taken = self@.files.dom();
        let n = self.len();
        if n as u64 >= u64::MAX {
            return None;
        }
        let mut fuel: u64 = n as u64 + 1;
        let mut c: u64 = self.hint;
        let mut free: bool = c != 0 && !self.contains(c);
        while fuel > 0 && !free
            invariant
                taken == self@.files.dom(),
                free == is_free(taken, c),
                probe(taken, self@.hint, taken.len() + 1) == probe(taken, c, fuel as nat),
            decreases fuel,
        {
            c = if c == u64::MAX {
                0
            } else {
                c + 1
            };
            fuel -= 1;
            free = c != 0 && !self.contains(c);
        }
        proof {
            lemma_first_free_is_free(taken, self@.hint);
        }
        self.hint = if c == u64::MAX {
            0
        } else {
            c + 1
        };
        Some(c)
    }

    /// Writes `bytes` to the file named `id`, creating it if need be.
    pub fn write(&mut self, id: u64, bytes: Vec<u8>)
        requires
            old(self).wf(),
            id != 0,
        ensures
            final(self).wf(),
            final(self)@ == old(self)@.put(id, bytes@),
            final(self).pending() == old(self).pending().push(SideOp::Put { id, bytes }),
            final(self).synced() == old(self).synced(),
    {
        let copy = slice_to_vec(bytes.as_slice());
        self.files.insert(id, copy);
        self.log.push(SideOp::Put { id, bytes });
        proof {
            assert(self.log@.drop_last() =~= old(self).log@);
            assert(self@.files =~= old(self)@.files.insert(id, bytes@));
        }
    }

    /// Removes the file named `id`.
    pub fn remove(&mut self, id: u64) -> (r: Result<(), DbError>)
        requires
            old(self).wf(),
        ensures
            final(self).wf(),
            final(self).synced() == old(self).synced(),
            final(self)@.hint == old(self)@.hint,
            match r {
                Ok(_) => {
                    &&& old(self)@.files.contains_key(id)
                    &&& final(self)@.files == old(self)@.files.remove(id)
                    &&& final(self).pending() == old(self).pending().push(SideOp::Delete { id })
                },
                Err(e) => {
                    &&& !old(self)@.files.contains_key(id)
                    &&& e == DbError::MissingSideFile
                    &&& final(self)@ == old(self)@
                    &&& final(self).pending() == old(self).pending()
                },
            },
    {
        match self.files.remove(&id) {
            Some(_) => {
                self.log.push(SideOp::Delete { id });
                proof {
                    assert(self.log@.drop_last() =~= old(self).log@);
                    assert(self@.files =~= old(self)@.files.remove(id));
                }
                Ok(())
            },
            None => {
                proof {
                    assert(self.files@ =~= old(self).files@);
                    assert(self@.files =~= old(self)@.files);
                }
                Err(DbError::MissingSideFile)
            },
        }
    }

    /// Removes every file.
    pub fn clear(&mut self)
        requires
            old(self).wf(),
        ensures
            final(self).wf(),
            final(self)@.files == Map::<u64, Seq<u8>>::empty(),
            final(self)@.hint == old(self)@.hint,
            final(self).pending() == old(self).pending().push(SideOp::Reset),
            final(self).synced() == old(self).synced(),
    {
        self.files.clear();
        self.log.push(SideOp::Reset);
        proof {
            assert(self.log@.drop_last() =~= old(self).log@);
            assert(self@.files =~= Map::<u64, Seq<u8>>::empty());
        }
    }

    /// Hands over the changes made since the log was last taken, for the
    /// caller to carry out on disk, and starts a new log.
    pub fn take_log(&mut self) -> (ops: Vec<SideOp>)
        requires
            old(self).wf(),
        ensures
            final(self).wf(),
            final(self)@ == old(self)@,
            ops@ == old(self).pending(),
            final(self).pending() == Seq::<SideOp>::empty(),
            final(self).synced() == old(self)@.files,
            replay_side_ops(old(self).synced(), ops@) == old(self)@.files,
    {
        let mut ops: Vec<SideOp> = Vec::new();
        std::mem::swap(&mut self.log, &mut ops);
        self.base = Ghost(self@.files);
        ops
    }
}

} // verus!
