//! An in-memory overlay over the rows of a record file.
//!
//! The cache remembers the rows at some positions. It keeps them as an
//! ordered list of nodes, each a run of neighbouring positions with their
//! rows; two nodes never overlap or touch. What the cache holds is a partial
//! map from position to row, and every operation is stated over that map.
use std::cmp::Ordering;
use std::ops::RangeInclusive;
use vstd::prelude::*;

verus! {

/// A run of neighbouring positions with their rows.
pub struct CacheNode<Row> {
    pub from: usize,
    pub to: usize,
    pub data: Vec<Row>,
}

impl<Row> CacheNode<Row> {
    /// The run is not empty and has one row for each position.
    pub open spec fn wf(&self) -> bool {
        self.from <= self.to && self.data@.len() == self.to - self.from + 1
    }

    /// Whether position `p` lies in the run.
    pub open spec fn holds(&self, p: int) -> bool {
        self.from <= p <= self.to
    }

    /// Where the run lies, seen from `index`: `Greater` when the run starts
    /// after it, `Less` when the run ends before it, `Equal` when the run
    /// holds it.
    pub fn contains_index(&self, index: usize) -> (side: Ordering)
        ensures
            match side {
                Ordering::Greater => index < self.from,
                Ordering::Less => self.from <= index && self.to < index,
                Ordering::Equal => self.from <= index && index <= self.to,
            },
    {
        if index < self.from {
            Ordering::Greater
        } else if self.to < index {
            Ordering::Less
        } else {
            Ordering::Equal
        }
    }
}

/// Every node is well-formed, and between any two nodes lies at least one
/// position that neither holds.
pub open spec fn nodes_wf<Row>(nodes: Seq<CacheNode<Row>>) -> bool {
    &&& forall|k: int| 0 <= k < nodes.len() ==> (#[trigger] nodes[k]).wf()
    &&& forall|j: int, k: int|
        0 <= j < k < nodes.len() ==> (#[trigger] nodes[j]).to + 1 < (#[trigger] nodes[k]).from
}

/// The number of rows in all nodes.
pub open spec fn total<Row>(nodes: Seq<CacheNode<Row>>) -> nat
    decreases nodes.len(),
{
    if nodes.len() == 0 {
        0
    } else {
        total(nodes.drop_last()) + nodes.last().data@.len()
    }
}

/// Whether node `k` holds position `p`.
pub open spec fn node_holds<Row>(nodes: Seq<CacheNode<Row>>, k: int, p: int) -> bool {
    0 <= k < nodes.len() && nodes[k].holds(p)
}

/// The node that holds position `p`, if one does.
pub open spec fn covering<Row>(nodes: Seq<CacheNode<Row>>, p: int) -> Option<int> {
    if exists|k: int| node_holds(nodes, k, p) {
        Some(choose|k: int| node_holds(nodes, k, p))
    } else {
        None
    }
}

/// The rows that the nodes hold, by position.
pub open spec fn content<Row>(nodes: Seq<CacheNode<Row>>) -> Map<int, Row> {
    Map::new(
        |p: int| covering(nodes, p) is Some,
        |p: int|
            {
                let k = covering(nodes, p).unwrap();
                nodes[k].data@[p - nodes[k].from]
            },
    )
}

/// A position that node `k` holds is cached, with the row that the node has
/// for it.
pub proof fn lemma_content_at<Row>(nodes: Seq<CacheNode<Row>>, k: int, p: int)
    requires
        nodes_wf(nodes),
        node_holds(nodes, k, p),
    ensures
        covering(nodes, p) == Some(k),
        content(nodes).contains_key(p),
        content(nodes)[p] == nodes[k].data@[p - nodes[k].from],
{
    let c = choose|c: int| node_holds(nodes, c, p);
    if c < k {
        assert(nodes[c].to + 1 < nodes[k].from);
    } else if k < c {
        assert(nodes[k].to + 1 < nodes[c].from);
    }
}

/// A position that no node holds is not cached.
pub proof fn lemma_content_none<Row>(nodes: Seq<CacheNode<Row>>, p: int)
    requires
        forall|k: int| 0 <= k < nodes.len() ==> !(#[trigger] nodes[k]).holds(p),
    ensures
        !content(nodes).contains_key(p),
{
}

/// A map that has, for every position that a node holds, the row of that
/// node, and nothing else, is what the nodes hold.
pub proof fn lemma_content_is<Row>(nodes: Seq<CacheNode<Row>>, rows: Map<int, Row>)
    requires
        nodes_wf(nodes),
        forall|k: int, p: int| #[trigger]
            node_holds(nodes, k, p) ==> rows.contains_key(p) && rows[p] == nodes[k].data@[p
                - nodes[k].from],
        forall|p: int| #[trigger]
            rows.contains_key(p) ==> exists|k: int| node_holds(nodes, k, p),
    ensures
        content(nodes) == rows,
{
    assert forall|p: int| content(nodes).contains_key(p) implies rows.contains_key(p) by {
        let k = choose|k: int| node_holds(nodes, k, p);
        assert(node_holds(nodes, k, p));
    }
    assert forall|p: int| rows.contains_key(p) implies content(nodes).contains_key(p)
        && content(nodes)[p] == rows[p] by {
        let k = choose|k: int| node_holds(nodes, k, p);
        lemma_content_at(nodes, k, p);
    }
    assert(content(nodes) =~= rows);
}

/// Putting a node into the list adds its rows to the count.
pub proof fn lemma_total_insert<Row>(nodes: Seq<CacheNode<Row>>, i: int, node: CacheNode<Row>)
    requires
        0 <= i <= nodes.len(),
    ensures
        total(nodes.insert(i, node)) == total(nodes) + node.data@.len(),
    decreases nodes.len(),
{
    let after = nodes.insert(i, node);
    if i == nodes.len() {
        assert(after.drop_last() =~= nodes);
    } else {
        assert(after.drop_last() =~= nodes.drop_last().insert(i, node));
        lemma_total_insert(nodes.drop_last(), i, node);
    }
}

/// Taking a node out of the list takes its rows from the count.
pub proof fn lemma_total_remove<Row>(nodes: Seq<CacheNode<Row>>, i: int)
    requires
        0 <= i < nodes.len(),
    ensures
        total(nodes.remove(i)) + nodes[i].data@.len() == total(nodes),
    decreases nodes.len(),
{
    let after = nodes.remove(i);
    if i == nodes.len() - 1 {
        assert(after =~= nodes.drop_last());
    } else {
        assert(after.drop_last() =~= nodes.drop_last().remove(i));
        lemma_total_remove(nodes.drop_last(), i);
    }
}

/// The rows of one node, by position.
pub open spec fn node_rows<Row>(node: CacheNode<Row>) -> Map<int, Row> {
    Map::new(|p: int| node.holds(p), |p: int| node.data@[p - node.from])
}

/// Whether `node` can stand at place `k` of the list: it is well-formed and
/// lies apart from the node before that place and from the node at it.
pub open spec fn fits<Row>(nodes: Seq<CacheNode<Row>>, k: int, node: CacheNode<Row>) -> bool {
    &&& 0 <= k <= nodes.len()
    &&& node.wf()
    &&& k > 0 ==> nodes[k - 1].to + 1 < node.from
    &&& k < nodes.len() ==> node.to + 1 < nodes[k].from
}

/// What the cache holds, stated for every node and every position at once.
pub proof fn lemma_content_all<Row>(nodes: Seq<CacheNode<Row>>)
    requires
        nodes_wf(nodes),
    ensures
        forall|k: int, p: int| #[trigger]
            node_holds(nodes, k, p) ==> content(nodes).contains_key(p) && content(nodes)[p]
                == nodes[k].data@[p - nodes[k].from],
        forall|p: int| #[trigger]
            content(nodes).contains_key(p) ==> exists|k: int| node_holds(nodes, k, p),
{
    assert forall|k: int, p: int| #[trigger] node_holds(nodes, k, p) implies content(
        nodes,
    ).contains_key(p) && content(nodes)[p] == nodes[k].data@[p - nodes[k].from] by {
        lemma_content_at(nodes, k, p);
    }
}

/// Putting a node that fits into the list adds its rows to what the cache
/// holds.
pub proof fn lemma_insert_node<Row>(nodes: Seq<CacheNode<Row>>, k: int, node: CacheNode<Row>)
    requires
        nodes_wf(nodes),
        fits(nodes, k, node),
    ensures
        nodes_wf(nodes.insert(k, node)),
        content(nodes.insert(k, node)) == content(nodes).union_prefer_right(node_rows(node)),
        total(nodes.insert(k, node)) == total(nodes) + node.data@.len(),
        forall|p: int| #[trigger] node.holds(p) ==> !content(nodes).contains_key(p),
{
    let after = nodes.insert(k, node);
    let rows = content(nodes).union_prefer_right(node_rows(node));
    lemma_content_all(nodes);
    lemma_total_insert(nodes, k, node);
    assert forall|i: int, j: int| 0 <= i < j < after.len() implies (#[trigger] after[i]).to + 1 < (
    #[trigger] after[j]).from by {
        if j < k {
            assert(after[i] == nodes[i] && after[j] == nodes[j]);
        } else if j == k {
            assert(after[i] == nodes[i]);
            if i < k - 1 {
                assert(nodes[i].to + 1 < nodes[k - 1].from);
                assert(nodes[k - 1].wf());
            }
        } else if i < k {
            assert(after[i] == nodes[i] && after[j] == nodes[j - 1]);
        } else if i == k {
            assert(after[j] == nodes[j - 1]);
            if j - 1 > k {
                assert(nodes[k].to + 1 < nodes[j - 1].from);
                assert(nodes[k].wf());
            }
        } else {
            assert(after[i] == nodes[i - 1] && after[j] == nodes[j - 1]);
        }
    }
    assert forall|i: int| 0 <= i < after.len() implies (#[trigger] after[i]).wf() by {
        if i < k {
            assert(after[i] == nodes[i]);
        } else if i > k {
            assert(after[i] == nodes[i - 1]);
        }
    }
    assert forall|p: int| #[trigger] node.holds(p) implies !content(nodes).contains_key(p) by {
        if content(nodes).contains_key(p) {
            let c = choose|c: int| node_holds(nodes, c, p);
            if c < k {
                if c < k - 1 {
                    assert(nodes[c].to + 1 < nodes[k - 1].from);
                    assert(nodes[k - 1].wf());
                }
            } else {
                if c > k {
                    assert(nodes[k].to + 1 < nodes[c].from);
                    assert(nodes[k].wf());
                }
            }
        }
    }
    assert forall|i: int, p: int| #[trigger] node_holds(after, i, p) implies rows.contains_key(p)
        && rows[p] == after[i].data@[p - after[i].from] by {
        if i < k {
            assert(node_holds(nodes, i, p));
        } else if i > k {
            assert(node_holds(nodes, i - 1, p));
        }
    }
    assert forall|p: int| #[trigger] rows.contains_key(p) implies exists|i: int|
        node_holds(after, i, p) by {
        if node.holds(p) {
            assert(node_holds(after, k, p));
        } else {
            let c = choose|c: int| node_holds(nodes, c, p);
            if c < k {
                assert(node_holds(after, c, p));
            } else {
                assert(node_holds(after, c + 1, p));
            }
        }
    }
    lemma_content_is(after, rows);
}

/// Taking a node out of the list takes its rows from what the cache holds.
pub proof fn lemma_remove_node<Row>(nodes: Seq<CacheNode<Row>>, k: int)
    requires
        nodes_wf(nodes),
        0 <= k < nodes.len(),
    ensures
        nodes_wf(nodes.remove(k)),
        content(nodes.remove(k)) == content(nodes).remove_keys(node_rows(nodes[k]).dom()),
        total(nodes.remove(k)) + nodes[k].data@.len() == total(nodes),
        k > 0 ==> nodes[k - 1].to + 1 < nodes[k].from,
        k + 1 < nodes.len() ==> nodes[k].to + 1 < nodes[k + 1].from,
        forall|p: int| #[trigger]
            nodes[k].holds(p) ==> content(nodes).contains_key(p) && content(nodes)[p]
                == nodes[k].data@[p - nodes[k].from],
{
    let after = nodes.remove(k);
    let rows = content(nodes).remove_keys(node_rows(nodes[k]).dom());
    lemma_content_all(nodes);
    lemma_total_remove(nodes, k);
    assert forall|i: int, j: int| 0 <= i < j < after.len() implies (#[trigger] after[i]).to + 1 < (
    #[trigger] after[j]).from by {
        let a = if i < k { i } else { i + 1 };
        let b = if j < k { j } else { j + 1 };
        assert(after[i] == nodes[a] && after[j] == nodes[b]);
    }
    assert forall|i: int| 0 <= i < after.len() implies (#[trigger] after[i]).wf() by {
        let a = if i < k { i } else { i + 1 };
        assert(after[i] == nodes[a]);
    }
    assert forall|i: int, p: int| #[trigger] node_holds(after, i, p) implies rows.contains_key(p)
        && rows[p] == after[i].data@[p - after[i].from] by {
        let a = if i < k { i } else { i + 1 };
        assert(after[i] == nodes[a]);
        assert(node_holds(nodes, a, p));
        if a < k {
            assert(nodes[a].to + 1 < nodes[k].from);
        } else {
            assert(nodes[k].to + 1 < nodes[a].from);
        }
    }
    assert forall|p: int| #[trigger] rows.contains_key(p) implies exists|i: int|
        node_holds(after, i, p) by {
        let c = choose|c: int| node_holds(nodes, c, p);
        if c < k {
            assert(node_holds(after, c, p));
        } else {
            assert(c != k);
            assert(node_holds(after, c - 1, p));
        }
    }
    lemma_content_is(after, rows);
    assert forall|p: int| #[trigger] nodes[k].holds(p) implies content(nodes).contains_key(p)
        && content(nodes)[p] == nodes[k].data@[p - nodes[k].from] by {
        assert(node_holds(nodes, k, p));
    }
    if k > 0 {
        assert(nodes[k - 1].to + 1 < nodes[k].from);
    }
    if k + 1 < nodes.len() {
        assert(nodes[k].to + 1 < nodes[k + 1].from);
    }
}

/// Putting another node in the place of node `k` takes the rows of the one
/// from what the cache holds and adds the rows of the other.
pub proof fn lemma_replace_node<Row>(nodes: Seq<CacheNode<Row>>, k: int, node: CacheNode<Row>)
    requires
        nodes_wf(nodes),
        0 <= k < nodes.len(),
        fits(nodes.remove(k), k, node),
    ensures
        nodes_wf(nodes.update(k, node)),
        content(nodes.update(k, node)) == content(nodes).remove_keys(
            node_rows(nodes[k]).dom(),
        ).union_prefer_right(node_rows(node)),
        total(nodes.update(k, node)) + nodes[k].data@.len() == total(nodes) + node.data@.len(),
        forall|p: int| #[trigger]
            nodes[k].holds(p) ==> content(nodes).contains_key(p) && content(nodes)[p]
                == nodes[k].data@[p - nodes[k].from],
{
    lemma_remove_node(nodes, k);
    lemma_insert_node(nodes.remove(k), k, node);
    assert(nodes.update(k, node) =~= nodes.remove(k).insert(k, node));
}

/// The rows `rows` at the positions from `index` on, by position.
pub open spec fn run_rows<Row>(index: int, rows: Seq<Row>) -> Map<int, Row> {
    Map::new(|p: int| index <= p < index + rows.len(), |p: int| rows[p - index])
}

/// The positions from `index` on: `len` of them, or all where `len` is
/// `None`.
pub open spec fn span(index: usize, len: Option<usize>) -> Set<int> {
    Set::new(
        |p: int|
            index <= p && match len {
                Some(n) => p < index + n,
                None => true,
            },
    )
}

/// What is cached after the rows at the positions from `index` on have moved
/// by `amount` positions; the rows before `index` stay.
pub open spec fn shifted<Row>(rows: Map<int, Row>, index: int, amount: int) -> Map<int, Row> {
    Map::new(
        |q: int|
            (q < index && rows.contains_key(q)) || (q - amount >= index && rows.contains_key(
                q - amount,
            )),
        |q: int|
            if q < index && rows.contains_key(q) {
                rows[q]
            } else {
                rows[q - amount]
            },
    )
}

/// Moving all rows is moving all but a block of them and putting the block
/// where it moves to.
pub proof fn lemma_shift_block<Row>(
    rows: Map<int, Row>,
    index: int,
    amount: int,
    from: int,
    block: Seq<Row>,
)
    requires
        index <= from,
        run_rows(from, block).submap_of(rows),
        forall|p: int| amount < 0 && index <= p < index - amount ==> !rows.contains_key(p),
    ensures
        shifted(rows.remove_keys(run_rows(from, block).dom()), index, amount).union_prefer_right(
            run_rows(from + amount, block),
        ) == shifted(rows, index, amount),
{
    let held = run_rows(from, block);
    let moved = run_rows(from + amount, block);
    let rest = rows.remove_keys(held.dom());
    let left = shifted(rest, index, amount).union_prefer_right(moved);
    let right = shifted(rows, index, amount);
    assert forall|q: int| left.contains_key(q) implies right.contains_key(q) by {
        if moved.dom().contains(q) {
            assert(held.dom().contains(q - amount));
        }
    }
    assert forall|q: int| right.contains_key(q) implies left.contains_key(q) && left[q]
        == right[q] by {
        if q < index && rows.contains_key(q) {
            assert(!held.dom().contains(q));
            if moved.dom().contains(q) {
                assert(held.dom().contains(q - amount));
                assert(rows.dom().contains(q - amount));
                assert(rows.contains_key(q - amount));
            }
            assert(!moved.dom().contains(q));
        } else {
            if held.dom().contains(q - amount) {
                assert(moved.dom().contains(q));
            } else {
                assert(rest.contains_key(q - amount));
                assert(!moved.dom().contains(q));
            }
        }
    }
    assert(left =~= right);
}

/// The cache holds as many rows as its nodes have.
pub proof fn lemma_total_is_count<Row>(nodes: Seq<CacheNode<Row>>)
    requires
        nodes_wf(nodes),
    ensures
        content(nodes).dom().finite(),
        content(nodes).dom().len() == total(nodes),
    decreases nodes.len(),
{
    if nodes.len() == 0 {
        assert(content(nodes).dom() =~= Set::<int>::empty());
    } else {
        let front = nodes.drop_last();
        let node = nodes.last();
        let k = nodes.len() - 1;
        assert(nodes_wf(front)) by {
            assert forall|j: int| 0 <= j < front.len() implies (#[trigger] front[j]).wf() by {
                assert(front[j] == nodes[j]);
            }
            assert forall|i: int, j: int| 0 <= i < j < front.len() implies (#[trigger] front[i]).to
                + 1 < (#[trigger] front[j]).from by {
                assert(front[i] == nodes[i] && front[j] == nodes[j]);
            }
        }
        lemma_total_is_count(front);
        assert(node.wf());
        if k > 0 {
            assert(front[k - 1] == nodes[k - 1]);
            assert(nodes[k - 1].to + 1 < nodes[k].from);
        }
        lemma_insert_node(front, k, node);
        assert(front.insert(k, node) =~= nodes);
        let held = node_rows(node).dom();
        assert(held =~= vstd::set_lib::set_int_range(node.from as int, node.to + 1));
        vstd::set_lib::lemma_int_range(node.from as int, node.to + 1);
        assert(content(nodes).dom() =~= content(front).dom().union(held));
        assert(content(front).dom().disjoint(held));
        vstd::set_lib::lemma_set_disjoint_lens(content(front).dom(), held);
    }
}

/// The sequence of the rows cached at the positions from `lo` up to, not
/// including, `hi`, in the order of the positions.
pub open spec fn rows_between<Row>(rows: Map<int, Row>, lo: int, hi: int) -> Seq<Row>
    decreases hi - lo,
{
    if lo >= hi {
        Seq::empty()
    } else if rows.contains_key(hi - 1) {
        rows_between(rows, lo, hi - 1).push(rows[hi - 1])
    } else {
        rows_between(rows, lo, hi - 1)
    }
}

/// Positions that are not cached add nothing to the sequence of cached rows.
pub proof fn lemma_rows_between_gap<Row>(rows: Map<int, Row>, lo: int, mid: int, hi: int)
    requires
        lo <= mid <= hi,
        forall|p: int| mid <= p < hi ==> !rows.contains_key(p),
    ensures
        rows_between(rows, lo, hi) == rows_between(rows, lo, mid),
    decreases hi - mid,
{
    if mid < hi {
        lemma_rows_between_gap(rows, lo, mid, hi - 1);
    }
}

/// Whether `copy` holds, item by item, clones of the rows of `rows`.
pub open spec fn copies<Row: Clone>(rows: Seq<Row>, copy: Seq<Row>) -> bool {
    rows.len() == copy.len() && forall|i: int|
        0 <= i < rows.len() ==> cloned(#[trigger] rows[i], copy[i])
}

/// The position after the positions from `index` on: `len` of them, or all
/// where `len` is `None`.
pub open spec fn span_end(index: usize, len: Option<usize>) -> int {
    match len {
        Some(n) => index + n,
        None => usize::MAX + 1,
    }
}

/// `RangeInclusive::end` of the standard library: the upper bound of a
/// range that has not been iterated to its end.
pub assume_specification<Idx>[ RangeInclusive::<Idx>::end ](r: &RangeInclusive<Idx>) -> (bound:
    &Idx)
    ensures
        !r@.exhausted ==> *bound == r@.end,
;

/// The rows cached at a stretch of positions that are all cached.
pub proof fn lemma_rows_between_full<Row>(rows: Map<int, Row>, lo: int, hi: int)
    requires
        lo <= hi,
        forall|p: int| lo <= p < hi ==> rows.contains_key(p),
    ensures
        rows_between(rows, lo, hi) == Seq::new((hi - lo) as nat, |i: int| rows[lo + i]),
    decreases hi - lo,
{
    if lo < hi {
        lemma_rows_between_full(rows, lo, hi - 1);
        assert(rows_between(rows, lo, hi) =~= Seq::new((hi - lo) as nat, |i: int| rows[lo + i]));
    } else {
        assert(rows_between(rows, lo, hi) =~= Seq::new((hi - lo) as nat, |i: int| rows[lo + i]));
    }
}

/// The first position of a chunk.
pub open spec fn chunk_start(chunk: (bool, RangeInclusive<usize>)) -> int {
    chunk.1@.start as int
}

/// The last position of a chunk.
pub open spec fn chunk_end(chunk: (bool, RangeInclusive<usize>)) -> int {
    chunk.1@.end as int
}

/// Whether the chunks, in order, cover every position exactly once, each
/// with at least one position, and are cached and not cached in turn.
pub open spec fn chunks_tile(chunks: Seq<(bool, RangeInclusive<usize>)>) -> bool {
    &&& chunks.len() > 0
    &&& chunk_start(chunks[0]) == 0
    &&& chunk_end(chunks.last()) == usize::MAX
    &&& forall|k: int|
        0 <= k < chunks.len() ==> chunk_start(#[trigger] chunks[k]) <= chunk_end(chunks[k])
            && !chunks[k].1@.exhausted
    &&& forall|k: int|
        0 <= k < chunks.len() - 1 ==> chunk_end(#[trigger] chunks[k]) + 1 == chunk_start(
            chunks[k + 1],
        ) && chunks[k].0 != chunks[k + 1].0
}

/// Whether each chunk says of all its positions whether they are cached.
pub open spec fn chunks_tell<Row>(
    chunks: Seq<(bool, RangeInclusive<usize>)>,
    rows: Map<int, Row>,
) -> bool {
    forall|k: int, p: int|
        0 <= k < chunks.len() && chunk_start(#[trigger] chunks[k]) <= p <= chunk_end(chunks[k])
            ==> #[trigger] rows.contains_key(p) == chunks[k].0
}

/// The cache: the rows at some positions of a record file.
pub struct Cache<Row: Clone> {
    len: usize,
    cache: Vec<CacheNode<Row>>,
}

impl<Row: Clone> View for Cache<Row> {
    type V = Map<int, Row>;

    /// The cached rows, by position.
    closed spec fn view(&self) -> Map<int, Row> {
        content(self.cache@)
    }
}

impl<Row: Clone> Cache<Row> {
    /// The nodes are in order and apart, and the count of rows is right.
    pub closed spec fn wf(&self) -> bool {
        nodes_wf(self.cache@) && self.len == total(self.cache@)
    }

    /// The number of cached rows.
    pub closed spec fn spec_len(&self) -> nat {
        total(self.cache@)
    }

    /// Whether node `k` holds position `index`.
    closed spec fn found(&self, k: usize, index: usize) -> bool {
        node_holds(self.cache@, k as int, index as int)
    }

    /// Whether the first `k` nodes end before `index`.
    closed spec fn below(&self, k: usize, index: usize) -> bool {
        forall|j: int| 0 <= j < k && j < self.cache@.len() ==> (#[trigger] self.cache@[j]).to < index
    }

    /// Whether the nodes from the `k`-th on start after `index`.
    closed spec fn above(&self, k: usize, index: usize) -> bool {
        forall|j: int| k <= j < self.cache@.len() ==> index < (#[trigger] self.cache@[j]).from
    }

    /// Whether the nodes after the `k`-th start after `index`.
    closed spec fn beyond(&self, k: usize, index: usize) -> bool {
        forall|j: int| k < j < self.cache@.len() ==> index < (#[trigger] self.cache@[j]).from
    }

    /// Whether no node holds `index` and `k` nodes lie before it.
    closed spec fn parts(&self, k: usize, index: usize) -> bool {
        k <= self.cache@.len() && self.below(k, index) && self.above(k, index)
    }

    /// When node `k` starts after `index`, so do all that follow it.
    proof fn lemma_above(&self, k: usize, index: usize)
        requires
            self.wf(),
            k < self.cache@.len(),
            index < self.cache@[k as int].from,
        ensures
            self.above(k, index),
            k > 0 ==> self.beyond((k - 1) as usize, index),
    {
        assert forall|j: int| k <= j < self.cache@.len() implies index < (
        #[trigger] self.cache@[j]).from by {
            if k < j {
                assert(self.cache@[k as int].wf());
                assert(self.cache@[k as int].to + 1 < self.cache@[j].from);
            }
        }
    }

    /// When node `k` ends before `index`, so do all before it.
    proof fn lemma_below(&self, k: usize, index: usize)
        requires
            self.wf(),
            k < self.cache@.len(),
            self.cache@[k as int].to < index,
        ensures
            self.below((k + 1) as usize, index),
    {
        assert forall|j: int| 0 <= j < k + 1 implies (#[trigger] self.cache@[j]).to < index by {
            if j < k {
                assert(self.cache@[k as int].wf());
                assert(self.cache@[j].to + 1 < self.cache@[k as int].from);
            }
        }
    }

    /// Looks for the node that holds `index`: `Ok` with its place in the
    /// list, or `Err` with the number of nodes that lie before `index`.
    fn frind_first_cache(&self, index: usize) -> (r: Result<usize, usize>)
        requires
            self.wf(),
        ensures
            match r {
                Ok(k) => self.found(k, index),
                Err(k) => self.parts(k, index),
            },
    {
        if self.cache.is_empty() {
            return Err(0);
        }
        let mut from: usize = 0;
        let mut to: usize = self.cache.len() - 1;
        loop
            invariant
                self.wf(),
                from <= to < self.cache.len(),
                self.below(from, index),
                self.beyond(to, index),
            decreases to - from,
        {
            let idx: usize = (to - from) / 2 + from;
            match self.cache[idx].contains_index(index) {
                Ordering::Equal => {
                    return Ok(idx);
                },
                Ordering::Greater => {
                    proof {
                        self.lemma_above(idx, index);
                    }
                    if idx == from {
                        return Err(idx);
                    }
                    to = idx - 1;
                },
                Ordering::Less => {
                    proof {
                        self.lemma_below(idx, index);
                    }
                    if idx == to {
                        return Err(idx + 1);
                    }
                    from = idx + 1;
                },
            }
        }
    }

    /// The row cached at position `index`, if there is one.
    pub fn get(&self, index: usize) -> (r: Option<Row>)
        requires
            self.wf(),
        ensures
            match r {
                Some(row) => self@.contains_key(index as int) && cloned(self@[index as int], row),
                None => !self@.contains_key(index as int),
            },
    {
        match self.frind_first_cache(index) {
            Ok(k) => {
                let node = &self.cache[k];
                proof {
                    assert(node.wf());
                    lemma_content_at(self.cache@, k as int, index as int);
                }
                Some(node.data[index - node.from].clone())
            },
            Err(k) => {
                proof {
                    self.lemma_parts(k, index);
                }
                None
            },
        }
    }

    /// The rows cached at the positions from `index` on: at `len` of them,
    /// or at all where `len` is `None`. The rows come in the order of their
    /// positions; positions that are not cached are passed over. `None` when
    /// `index` itself is not cached.
    pub fn gets(&self, index: usize, len: Option<usize>) -> (r: Option<Vec<Row>>)
        requires
            self.wf(),
        ensures
            match r {
                Some(rows) => self@.contains_key(index as int) && copies(
                    rows_between(self@, index as int, span_end(index, len)),
                    rows@,
                ),
                None => !self@.contains_key(index as int),
            },
    {
        let found = self.frind_first_cache(index);
        let first: usize = match found {
            Ok(k) => k,
            Err(k) => {
                proof {
                    self.lemma_parts(k, index);
                }
                return None;
            },
        };
        proof {
            lemma_content_at(self.cache@, first as int, index as int);
        }
        let mut out: Vec<Row> = Vec::new();
        let last: usize = match len {
            None => usize::MAX,
            Some(n) => {
                if n == 0 {
                    return Some(out);
                }
                if n - 1 > usize::MAX - index {
                    usize::MAX
                } else {
                    index + (n - 1)
                }
            },
        };
        let ghost end = last + 1;
        let ghost mut reached: int = index as int;
        let mut k: usize = first;
        while k < self.cache.len() && self.cache[k].from <= last
            invariant
                self.wf(),
                first <= k <= self.cache@.len(),
                index <= reached <= end,
                end == last + 1,
                copies(rows_between(self@, index as int, reached), out@),
                forall|j: int| 0 <= j < k ==> (#[trigger] self.cache@[j]).to < reached || reached == end,
                k == first ==> reached == index && self.cache@[first as int].holds(index as int),
                k > first ==> k < self.cache@.len() ==> reached <= self.cache@[k as int].from,
            decreases self.cache@.len() - k,
        {
            let node = &self.cache[k];
            proof {
                assert(node.wf());
            }
            let start: usize = if node.from < index {
                index
            } else {
                node.from
            };
            let stop: usize = if node.to > last {
                last
            } else {
                node.to
            };
            proof {
                assert forall|p: int| reached <= p < start implies !self@.contains_key(p) by {
                    self.lemma_between(k, p);
                }
                lemma_rows_between_gap(self@, index as int, reached, start as int);
            }
            let mut i: usize = start - node.from;
            let until: usize = stop - node.from + 1;
            while i < until
                invariant
                    self.wf(),
                    k < self.cache@.len(),
                    *node == self.cache@[k as int],
                    node.wf(),
                    node.from <= start,
                    start - node.from <= i <= until,
                    until == stop - node.from + 1,
                    stop <= node.to,
                    index <= start,
                    copies(rows_between(self@, index as int, node.from + i), out@),
                decreases until - i,
            {
                proof {
                    lemma_content_at(self.cache@, k as int, node.from + i);
                }
                let ghost before = out@;
                let row = node.data[i].clone();
                out.push(row);
                proof {
                    let p = node.from + i;
                    let rows = rows_between(self@, index as int, p + 1);
                    assert(rows == rows_between(self@, index as int, p).push(self@[p]));
                    assert forall|j: int| 0 <= j < rows.len() implies cloned(
                        #[trigger] rows[j],
                        out@[j],
                    ) by {
                        if j < before.len() {
                            assert(rows[j] == rows_between(self@, index as int, p)[j]);
                            assert(out@[j] == before[j]);
                        }
                    }
                }
                i = i + 1;
            }
            proof {
                reached = stop + 1;
                assert forall|j: int| 0 <= j < k + 1 implies (#[trigger] self.cache@[j]).to
                    < reached || reached == end by {
                    if j < k {
                        assert(self.cache@[j].to + 1 < self.cache@[k as int].from);
                    }
                }
                if k + 1 < self.cache@.len() {
                    assert(self.cache@[k as int].to + 1 < self.cache@[k + 1].from);
                }
            }
            k = k + 1;
        }
        proof {
            assert forall|p: int| reached <= p < end implies !self@.contains_key(p) by {
                if k < self.cache@.len() {
                    self.lemma_between(k, p);
                } else {
                    self.lemma_past(p);
                }
            }
            lemma_rows_between_gap(self@, index as int, reached, end);
            if len is None {
            } else if end < span_end(index, len) {
                assert(end == usize::MAX + 1);
                assert forall|p: int| end <= p < span_end(index, len) implies !self@.contains_key(
                    p,
                ) by {
                    self.lemma_past(p);
                }
                lemma_rows_between_gap(self@, index as int, end, span_end(index, len));
            }
        }
        Some(out)
    }

    /// A position after the node before place `k` and before node `k` is
    /// not cached.
    proof fn lemma_between(&self, k: usize, p: int)
        requires
            self.wf(),
            k < self.cache@.len(),
            p < self.cache@[k as int].from,
            k > 0 ==> self.cache@[k - 1].to < p,
        ensures
            !self@.contains_key(p),
    {
        let nodes = self.cache@;
        assert forall|j: int| 0 <= j < nodes.len() implies !(#[trigger] nodes[j]).holds(p) by {
            if j < k {
                if j < k - 1 {
                    assert(nodes[j].to + 1 < nodes[k - 1].from);
                    assert(nodes[k - 1].wf());
                }
            } else if j > k {
                assert(nodes[k as int].to + 1 < nodes[j].from);
                assert(nodes[k as int].wf());
            }
        }
        lemma_content_none(nodes, p);
    }

    /// A position after the last node, or after the last position that can
    /// be, is not cached.
    proof fn lemma_past(&self, p: int)
        requires
            self.wf(),
            self.cache@.len() > 0 ==> self.cache@.last().to < p,
        ensures
            !self@.contains_key(p),
    {
        let nodes = self.cache@;
        assert forall|j: int| 0 <= j < nodes.len() implies !(#[trigger] nodes[j]).holds(p) by {
            if j < nodes.len() - 1 {
                assert(nodes[j].to + 1 < nodes[nodes.len() - 1].from);
                assert(nodes[nodes.len() - 1].wf());
            }
        }
        lemma_content_none(nodes, p);
    }

    /// The positions from zero to the last, cut into chunks that are cached
    /// and not cached in turn: each node is a chunk, and so is each stretch
    /// between two nodes, before the first and after the last.
    pub fn chunks(&self) -> (out: Vec<(bool, RangeInclusive<usize>)>)
        requires
            self.wf(),
        ensures
            chunks_tile(out@),
            chunks_tell(out@, self@),
    {
        let mut out: Vec<(bool, RangeInclusive<usize>)> = Vec::new();
        let n: usize = self.cache.len();
        let mut i: usize = 0;
        while i < n
            invariant
                self.wf(),
                n == self.cache@.len(),
                i <= n,
                i == 0 ==> out@.len() == 0,
                i > 0 ==> out@.len() > 0 && chunk_start(out@[0]) == 0 && out@.last().0
                    && chunk_end(out@.last()) == self.cache@[i - 1].to,
                forall|k: int|
                    0 <= k < out@.len() ==> chunk_start(#[trigger] out@[k]) <= chunk_end(out@[k])
                        && !out@[k].1@.exhausted,
                forall|k: int|
                    0 <= k < out@.len() - 1 ==> chunk_end(#[trigger] out@[k]) + 1 == chunk_start(
                        out@[k + 1],
                    ) && out@[k].0 != out@[k + 1].0,
                chunks_tell(out@, self@),
            decreases n - i,
        {
            let node = &self.cache[i];
            let ghost before = out@;
            proof {
                assert(node.wf());
                if i > 0 {
                    assert(self.cache@[i - 1].to + 1 < node.from);
                }
            }
            if i > 0 {
                let gap = RangeInclusive::new(self.cache[i - 1].to + 1, node.from - 1);
                out.push((false, gap));
            } else if node.from > 0 {
                let gap = RangeInclusive::new(0, node.from - 1);
                out.push((false, gap));
            }
            let ghost middle = out@;
            out.push((true, RangeInclusive::new(node.from, node.to)));
            proof {
                assert forall|k: int, p: int|
                    0 <= k < out@.len() && chunk_start(#[trigger] out@[k]) <= p <= chunk_end(
                        out@[k],
                    ) implies #[trigger] self@.contains_key(p) == out@[k].0 by {
                    if k < before.len() {
                        assert(out@[k] == before[k]);
                    } else if k == out@.len() - 1 {
                        lemma_content_at(self.cache@, i as int, p);
                    } else {
                        self.lemma_between(i, p);
                    }
                }
                assert forall|k: int| 0 <= k < out@.len() - 1 implies chunk_end(#[trigger] out@[k])
                    + 1 == chunk_start(out@[k + 1]) && out@[k].0 != out@[k + 1].0 by {
                    if k < before.len() - 1 {
                        assert(out@[k] == before[k] && out@[k + 1] == before[k + 1]);
                    } else if k < before.len() {
                        assert(out@[k] == before[k]);
                    }
                }
            }
            i = i + 1;
        }
        if n == 0 {
            out.push((false, RangeInclusive::new(0, usize::MAX)));
            proof {
                assert forall|k: int, p: int|
                    0 <= k < out@.len() && chunk_start(#[trigger] out@[k]) <= p <= chunk_end(
                        out@[k],
                    ) implies #[trigger] self@.contains_key(p) == out@[k].0 by {
                    self.lemma_past(p);
                }
            }
        } else if self.cache[n - 1].to < usize::MAX {
            let ghost before = out@;
            out.push((false, RangeInclusive::new(self.cache[n - 1].to + 1, usize::MAX)));
            proof {
                assert forall|k: int, p: int|
                    0 <= k < out@.len() && chunk_start(#[trigger] out@[k]) <= p <= chunk_end(
                        out@[k],
                    ) implies #[trigger] self@.contains_key(p) == out@[k].0 by {
                    if k < before.len() {
                        assert(out@[k] == before[k]);
                    } else {
                        self.lemma_past(p);
                    }
                }
                assert forall|k: int| 0 <= k < out@.len() - 1 implies chunk_end(#[trigger] out@[k])
                    + 1 == chunk_start(out@[k + 1]) && out@[k].0 != out@[k + 1].0 by {
                    if k < before.len() - 1 {
                        assert(out@[k] == before[k] && out@[k + 1] == before[k + 1]);
                    } else {
                        assert(out@[k] == before[k]);
                    }
                }
            }
        }
        out
    }

    /// A position with `k` nodes before it and the others after it is not
    /// cached.
    proof fn lemma_parts(&self, k: usize, index: usize)
        requires
            self.parts(k, index),
        ensures
            !self@.contains_key(index as int),
            k <= self.cache@.len(),
            forall|j: int| 0 <= j < k ==> (#[trigger] self.cache@[j]).to < index,
            forall|j: int| k <= j < self.cache@.len() ==> index < (#[trigger] self.cache@[j]).from,
    {
        lemma_content_none(self.cache@, index as int);
    }

    /// The list of nodes.
    closed spec fn nodes(&self) -> Seq<CacheNode<Row>> {
        self.cache@
    }

    /// Takes node `k` out of the list.
    fn take_node(&mut self, k: usize) -> (node: CacheNode<Row>)
        requires
            old(self).wf(),
            k < old(self).nodes().len(),
        ensures
            final(self).wf(),
            node == old(self).nodes()[k as int],
            node.wf(),
            final(self).nodes() == old(self).nodes().remove(k as int),
            final(self)@ == old(self)@.remove_keys(node_rows(node).dom()),
            final(self).spec_len() + node.data@.len() == old(self).spec_len(),
            forall|p: int| #[trigger]
                node.holds(p) ==> old(self)@.contains_key(p) && old(self)@[p] == node.data@[p
                    - node.from],
    {
        proof {
            lemma_remove_node(self.cache@, k as int);
            assert(self.cache@[k as int].wf());
        }
        let node = self.cache.remove(k);
        self.len = self.len - node.data.len();
        node
    }

    /// Puts a new node with the rows `rows` at the positions from `from` on
    /// at place `k` of the list.
    fn add_node(&mut self, k: usize, from: usize, rows: Vec<Row>)
        requires
            old(self).wf(),
            rows@.len() > 0,
            from + rows@.len() <= usize::MAX + 1,
            old(self).spec_len() + rows@.len() <= usize::MAX,
            k <= old(self).nodes().len(),
            k > 0 ==> old(self).nodes()[k - 1].to + 1 < from,
            k < old(self).nodes().len() ==> from + rows@.len() < old(self).nodes()[k as int].from,
        ensures
            final(self).wf(),
            final(self).nodes() == old(self).nodes().insert(k as int, final(self).nodes()[k as int]),
            final(self).nodes()[k as int].from == from,
            final(self).nodes()[k as int].to == from + rows@.len() - 1,
            final(self).nodes()[k as int].data@ == rows@,
            final(self)@ == old(self)@.union_prefer_right(run_rows(from as int, rows@)),
            final(self).spec_len() == old(self).spec_len() + rows@.len(),
    {
        let count: usize = rows.len();
        let node = CacheNode { from, to: from + (count - 1), data: rows };
        proof {
            lemma_insert_node(self.cache@, k as int, node);
            assert(node_rows(node) =~= run_rows(from as int, rows@));
        }
        self.cache.insert(k, node);
        self.len = self.len + count;
    }

    /// Lengthens node `k` by the rows `rows` at the positions after its
    /// last.
    fn extend_back(&mut self, k: usize, rows: Vec<Row>)
        requires
            old(self).wf(),
            rows@.len() > 0,
            old(self).spec_len() + rows@.len() <= usize::MAX,
            k < old(self).nodes().len(),
            old(self).nodes()[k as int].to + rows@.len() <= usize::MAX,
            k + 1 < old(self).nodes().len() ==> old(self).nodes()[k as int].to + rows@.len() + 1
                < old(self).nodes()[k + 1].from,
        ensures
            final(self).wf(),
            final(self).nodes() == old(self).nodes().update(k as int, final(self).nodes()[k as int]),
            final(self).nodes()[k as int].from == old(self).nodes()[k as int].from,
            final(self).nodes()[k as int].to == old(self).nodes()[k as int].to + rows@.len(),
            final(self).nodes()[k as int].data@ == old(self).nodes()[k as int].data@ + rows@,
            final(self)@ == old(self)@.union_prefer_right(
                run_rows(old(self).nodes()[k as int].to + 1, rows@),
            ),
            final(self).spec_len() == old(self).spec_len() + rows@.len(),
    {
        let mut rows = rows;
        let ghost added = rows@;
        let ghost before = self.cache@;
        let count: usize = rows.len();
        proof {
            assert(before[k as int].wf());
        }
        self.cache[k].to = self.cache[k].to + count;
        self.cache[k].data.append(&mut rows);
        self.len = self.len + count;
        proof {
            let low = before[k as int];
            let node = self.cache@[k as int];
            assert(self.cache@ =~= before.update(k as int, node));
            if k > 0 {
                assert(before.remove(k as int)[k - 1] == before[k - 1]);
                assert(before[k - 1].to + 1 < before[k as int].from);
            }
            if k + 1 < before.len() {
                assert(before.remove(k as int)[k as int] == before[k + 1]);
            }
            lemma_replace_node(before, k as int, node);
            assert(node.data@ =~= low.data@ + added);
            assert(node_rows(node) =~= node_rows(low).union_prefer_right(
                run_rows(low.to + 1, added),
            ));
            assert(self@ =~= old(self)@.union_prefer_right(run_rows(low.to + 1, added)));
        }
    }

    /// Lengthens node `k` by the rows `rows` at the positions before its
    /// first.
    fn extend_front(&mut self, k: usize, rows: Vec<Row>)
        requires
            old(self).wf(),
            rows@.len() > 0,
            old(self).spec_len() + rows@.len() <= usize::MAX,
            k < old(self).nodes().len(),
            rows@.len() <= old(self).nodes()[k as int].from,
            k > 0 ==> old(self).nodes()[k - 1].to + 1 + rows@.len() < old(self).nodes()[k as int].from,
        ensures
            final(self).wf(),
            final(self).nodes() == old(self).nodes().update(k as int, final(self).nodes()[k as int]),
            final(self).nodes()[k as int].from == old(self).nodes()[k as int].from - rows@.len(),
            final(self).nodes()[k as int].to == old(self).nodes()[k as int].to,
            final(self).nodes()[k as int].data@ == rows@ + old(self).nodes()[k as int].data@,
            final(self)@ == old(self)@.union_prefer_right(
                run_rows(old(self).nodes()[k as int].from - rows@.len(), rows@),
            ),
            final(self).spec_len() == old(self).spec_len() + rows@.len(),
    {
        let mut rows = rows;
        let ghost added = rows@;
        let ghost before = self.cache@;
        let count: usize = rows.len();
        proof {
            assert(before[k as int].wf());
        }
        rows.append(&mut self.cache[k].data);
        self.cache[k].data = rows;
        self.cache[k].from = self.cache[k].from - count;
        self.len = self.len + count;
        proof {
            let high = before[k as int];
            let node = self.cache@[k as int];
            assert(self.cache@ =~= before.update(k as int, node));
            if k > 0 {
                assert(before.remove(k as int)[k - 1] == before[k - 1]);
            }
            if k + 1 < before.len() {
                assert(before.remove(k as int)[k as int] == before[k + 1]);
                assert(before[k as int].to + 1 < before[k + 1].from);
            }
            lemma_replace_node(before, k as int, node);
            assert(node.data@ =~= added + high.data@);
            assert(node_rows(node) =~= run_rows(high.from - added.len(), added).union_prefer_right(
                node_rows(high),
            ));
            assert(self@ =~= old(self)@.union_prefer_right(
                run_rows(high.from - added.len(), added),
            ));
        }
    }

    /// Cuts node `k` before position `p`, which it holds and which is not
    /// its first: the node keeps the positions before `p`; the rows from `p`
    /// on are handed out.
    fn split_tail(&mut self, k: usize, p: usize) -> (tail: Vec<Row>)
        requires
            old(self).wf(),
            k < old(self).nodes().len(),
            old(self).nodes()[k as int].from < p <= old(self).nodes()[k as int].to,
        ensures
            final(self).wf(),
            final(self).nodes() == old(self).nodes().update(k as int, final(self).nodes()[k as int]),
            final(self).nodes()[k as int].from == old(self).nodes()[k as int].from,
            final(self).nodes()[k as int].to == p - 1,
            tail@.len() == old(self).nodes()[k as int].to - p + 1,
            run_rows(p as int, tail@).submap_of(old(self)@),
            final(self)@ == old(self)@.remove_keys(
                Set::new(|q: int| p <= q <= old(self).nodes()[k as int].to),
            ),
            final(self).spec_len() + tail@.len() == old(self).spec_len(),
    {
        let ghost before = self.cache@;
        proof {
            assert(before[k as int].wf());
            lemma_total_bounds(before, k as int);
        }
        let keep: usize = p - self.cache[k].from;
        let tail = self.cache[k].data.split_off(keep);
        self.cache[k].to = p - 1;
        self.len = self.len - tail.len();
        proof {
            let whole = before[k as int];
            let node = self.cache@[k as int];
            let gone = Set::new(|q: int| p <= q <= whole.to);
            assert(self.cache@ =~= before.update(k as int, node));
            if k > 0 {
                assert(before.remove(k as int)[k - 1] == before[k - 1]);
                assert(before[k - 1].to + 1 < before[k as int].from);
            }
            if k + 1 < before.len() {
                assert(before.remove(k as int)[k as int] == before[k + 1]);
                assert(before[k as int].to + 1 < before[k + 1].from);
            }
            lemma_replace_node(before, k as int, node);
            assert(node.data@ =~= whole.data@.subrange(0, keep as int));
            assert(node_rows(node) =~= node_rows(whole).remove_keys(gone));
            assert(self@ =~= old(self)@.remove_keys(gone));
            assert forall|q: int| #[trigger]
                run_rows(p as int, tail@).dom().contains(q) implies old(self)@.dom().contains(q)
                && run_rows(p as int, tail@)[q] == old(self)@[q] by {
                lemma_content_at(before, k as int, q);
                assert(tail@[q - p] == whole.data@[keep + (q - p)]);
            }
        }
        tail
    }

    /// Cuts node `k` before position `p`, which it holds and which is not
    /// its first: the node keeps the positions from `p` on, the rows before
    /// `p` are forgotten.
    fn drop_head(&mut self, k: usize, p: usize)
        requires
            old(self).wf(),
            k < old(self).nodes().len(),
            old(self).nodes()[k as int].from < p <= old(self).nodes()[k as int].to,
        ensures
            final(self).wf(),
            final(self).nodes() == old(self).nodes().update(k as int, final(self).nodes()[k as int]),
            final(self).nodes()[k as int].from == p,
            final(self).nodes()[k as int].to == old(self).nodes()[k as int].to,
            final(self)@ == old(self)@.remove_keys(
                Set::new(|q: int| old(self).nodes()[k as int].from <= q < p),
            ),
            final(self).spec_len() <= old(self).spec_len(),
    {
        let ghost before = self.cache@;
        proof {
            assert(before[k as int].wf());
            lemma_total_bounds(before, k as int);
        }
        let cut: usize = p - self.cache[k].from;
        let tail = self.cache[k].data.split_off(cut);
        self.cache[k].data = tail;
        self.cache[k].from = p;
        self.len = self.len - cut;
        proof {
            let whole = before[k as int];
            let node = self.cache@[k as int];
            let gone = Set::new(|q: int| whole.from <= q < p);
            assert(self.cache@ =~= before.update(k as int, node));
            if k > 0 {
                assert(before.remove(k as int)[k - 1] == before[k - 1]);
                assert(before[k - 1].to + 1 < before[k as int].from);
            }
            if k + 1 < before.len() {
                assert(before.remove(k as int)[k as int] == before[k + 1]);
                assert(before[k as int].to + 1 < before[k + 1].from);
            }
            lemma_replace_node(before, k as int, node);
            assert(node.data@ =~= whole.data@.subrange(cut as int, whole.data@.len() as int));
            assert(node_rows(node) =~= node_rows(whole).remove_keys(gone));
            assert(self@ =~= old(self)@.remove_keys(gone));
        }
    }

    /// The place in the list for a node that starts at `index`, which is not
    /// cached: the number of nodes before it.
    fn place(&self, index: usize) -> (k: usize)
        requires
            self.wf(),
            !self@.contains_key(index as int),
        ensures
            k <= self.nodes().len(),
            forall|j: int| 0 <= j < k ==> (#[trigger] self.nodes()[j]).to < index,
            forall|j: int| k <= j < self.nodes().len() ==> index < (#[trigger] self.nodes()[j]).from,
    {
        let r = self.frind_first_cache(index);
        proof {
            match r {
                Ok(k) => {
                    lemma_content_at(self.cache@, k as int, index as int);
                },
                Err(k) => {
                    self.lemma_parts(k, index);
                },
            }
        }
        match r {
            Ok(k) => k,
            Err(k) => k,
        }
    }

    /// The first node that ends at or after `index`: the number of nodes
    /// that end before it.
    fn first_from(&self, index: usize) -> (k: usize)
        requires
            self.wf(),
        ensures
            k <= self.nodes().len(),
            forall|j: int| 0 <= j < k ==> (#[trigger] self.nodes()[j]).to < index,
            forall|j: int| k <= j < self.nodes().len() ==> index <= (#[trigger] self.nodes()[j]).to,
    {
        let r = self.frind_first_cache(index);
        proof {
            match r {
                Ok(k) => {
                    let nodes = self.cache@;
                    assert forall|j: int| 0 <= j < k implies (#[trigger] nodes[j]).to < index by {
                        assert(nodes[j].to + 1 < nodes[k as int].from);
                    }
                    assert forall|j: int| k <= j < nodes.len() implies index <= (
                    #[trigger] nodes[j]).to by {
                        if j > k {
                            assert(nodes[k as int].to + 1 < nodes[j].from);
                            assert(nodes[j].wf());
                        }
                    }
                },
                Err(k) => {
                    self.lemma_parts(k, index);
                    let nodes = self.cache@;
                    assert forall|j: int| k <= j < nodes.len() implies index <= (
                    #[trigger] nodes[j]).to by {
                        assert(nodes[j].wf());
                    }
                },
            }
        }
        match r {
            Ok(k) => k,
            Err(k) => k,
        }
    }

    /// Moves the nodes from place `k` on by `amount` positions. All nodes
    /// before that place end before `index`, all from it on start at or after
    /// `index`, and the moved nodes come to lie apart from those that stay.
    fn shift_from(&mut self, k: usize, index: usize, amount: isize)
        requires
            old(self).wf(),
            k <= old(self).nodes().len(),
            forall|j: int| 0 <= j < k ==> (#[trigger] old(self).nodes()[j]).to < index,
            forall|j: int|
                k <= j < old(self).nodes().len() ==> index <= (#[trigger] old(self).nodes()[j]).from
                    && 0 <= old(self).nodes()[j].from + amount && old(self).nodes()[j].to + amount
                    <= usize::MAX,
            k > 0 && k < old(self).nodes().len() ==> old(self).nodes()[k - 1].to + 1 < old(
                self,
            ).nodes()[k as int].from + amount,
            forall|p: int|
                amount < 0 && index <= p < index - amount ==> !old(self)@.contains_key(p),
        ensures
            final(self).wf(),
            final(self).nodes().len() == old(self).nodes().len(),
            forall|j: int| 0 <= j < k ==> final(self).nodes()[j] == old(self).nodes()[j],
            forall|j: int|
                k <= j < old(self).nodes().len() ==> {
                    &&& (#[trigger] final(self).nodes()[j]).from == old(self).nodes()[j].from
                        + amount
                    &&& final(self).nodes()[j].to == old(self).nodes()[j].to + amount
                    &&& final(self).nodes()[j].data == old(self).nodes()[j].data
                },
            final(self)@ == shifted(old(self)@, index as int, amount as int),
            final(self).spec_len() == old(self).spec_len(),
    {
        let ghost before = self.cache@;
        let n: usize = self.cache.len();
        let mut j: usize = k;
        while j < n
            invariant
                k <= j <= n,
                n == before.len(),
                nodes_wf(before),
                self.cache@.len() == n,
                self.len == old(self).len,
                forall|i: int| 0 <= i < k ==> self.cache@[i] == before[i],
                forall|i: int| j <= i < n ==> self.cache@[i] == before[i],
                forall|i: int|
                    k <= i < n ==> 0 <= (#[trigger] before[i]).from + amount && before[i].to
                        + amount <= usize::MAX,
                forall|i: int|
                    k <= i < j ==> {
                        &&& (#[trigger] self.cache@[i]).from == before[i].from + amount
                        &&& self.cache@[i].to == before[i].to + amount
                        &&& self.cache@[i].data == before[i].data
                    },
            decreases n - j,
        {
            proof {
                assert(self.cache@[j as int] == before[j as int]);
                assert(before[j as int].wf());
            }
            let from: usize = self.cache[j].from;
            let to: usize = self.cache[j].to;
            self.cache[j].from = add_size(from, amount);
            self.cache[j].to = add_size(to, amount);
            j = j + 1;
        }
        proof {
            let after = self.cache@;
            let rows = shifted(content(before), index as int, amount as int);
            lemma_content_all(before);
            assert forall|i: int| 0 <= i < after.len() implies (#[trigger] after[i]).wf() by {
                assert(before[i].wf());
            }
            assert forall|a: int, b: int| 0 <= a < b < after.len() implies (#[trigger] after[a]).to
                + 1 < (#[trigger] after[b]).from by {
                assert(before[a].to + 1 < before[b].from);
                if a < k && k <= b {
                    assert(before[k as int].wf());
                    if a < k - 1 {
                        assert(before[a].to + 1 < before[k - 1].from);
                        assert(before[k - 1].wf());
                    }
                    if k < b {
                        assert(before[k as int].to + 1 < before[b].from);
                    }
                }
            }
            assert forall|i: int, p: int| #[trigger] node_holds(after, i, p) implies rows.contains_key(
                p,
            ) && rows[p] == after[i].data@[p - after[i].from] by {
                if i < k {
                    assert(node_holds(before, i, p));
                } else {
                    assert(node_holds(before, i, p - amount));
                }
            }
            assert forall|p: int| #[trigger] rows.contains_key(p) implies exists|i: int|
                node_holds(after, i, p) by {
                if p < index && content(before).contains_key(p) {
                    let c = choose|c: int| node_holds(before, c, p);
                    assert(node_holds(before, c, p));
                    assert(c < k);
                    assert(node_holds(after, c, p));
                } else {
                    let origin = p - amount;
                    let c = choose|c: int| node_holds(before, c, origin);
                    assert(node_holds(before, c, origin));
                    assert(c >= k);
                    assert(node_holds(after, c, p));
                }
            }
            lemma_content_is(after, rows);
            lemma_total_same(before, after);
        }
    }

    /// The nodes from place `k` on, which start at or after `index`, can move
    /// by `amount` when the rows that they hold can.
    proof fn lemma_movable(&self, k: usize, index: usize, amount: isize)
        requires
            self.wf(),
            k <= self.nodes().len(),
            forall|j: int| 0 <= j < k ==> (#[trigger] self.nodes()[j]).to < index,
            forall|j: int| k <= j < self.nodes().len() ==> index <= (#[trigger] self.nodes()[j]).to,
            k < self.nodes().len() ==> index <= self.nodes()[k as int].from,
            forall|p: int|
                amount >= 0 && index <= p && self@.contains_key(p) ==> p + amount <= usize::MAX,
            forall|p: int| amount < 0 && index <= p < index - amount ==> !self@.contains_key(p),
        ensures
            forall|j: int|
                k <= j < self.nodes().len() ==> index <= (#[trigger] self.nodes()[j]).from && 0
                    <= self.nodes()[j].from + amount && self.nodes()[j].to + amount <= usize::MAX,
            k > 0 && k < self.nodes().len() ==> self.nodes()[k - 1].to + 1 <= self.nodes()[k as int].from
                + amount,
            amount >= 0 && k > 0 && k < self.nodes().len() ==> self.nodes()[k - 1].to + 1
                < self.nodes()[k as int].from + amount,
    {
        let nodes = self.cache@;
        assert(self@ == content(nodes));
        assert(nodes == self.nodes());
        assert forall|j: int| k <= j < nodes.len() implies index <= (#[trigger] nodes[j]).from && 0
            <= nodes[j].from + amount && nodes[j].to + amount <= usize::MAX by {
            assert(nodes[j].wf());
            assert(index <= nodes[j].to);
            if j > k {
                assert(nodes[k as int].to + 1 < nodes[j].from);
                assert(nodes[k as int].wf());
            }
            assert(index <= nodes[j].from);
            lemma_content_at(nodes, j, nodes[j].to as int);
            assert(self@.contains_key(nodes[j].to as int));
            lemma_content_at(nodes, j, nodes[j].from as int);
            assert(self@.contains_key(nodes[j].from as int));
            if amount >= 0 {
                assert(nodes[j].to + amount <= usize::MAX);
            } else {
                assert(index - amount <= nodes[j].from);
            }
        }
        if k > 0 && k < nodes.len() {
            assert(nodes[k - 1].to + 1 < nodes[k as int].from);
            assert(nodes[k - 1].wf());
            lemma_content_at(nodes, k - 1, nodes[k - 1].to as int);
            assert(self@.contains_key(nodes[k - 1].to as int));
            assert(nodes[k - 1].to < index);
            assert(nodes[k as int].wf());
            assert(index <= nodes[k as int].from);
            lemma_content_at(nodes, k as int, nodes[k as int].from as int);
            assert(self@.contains_key(nodes[k as int].from as int));
            assert(index <= nodes[k as int].from + amount);
        }
    }

    /// Moves the rows at the positions from `index` on up by `amount`.
    fn move_up(&mut self, index: usize, amount: isize)
        requires
            old(self).wf(),
            amount > 0,
            forall|p: int| index <= p && old(self)@.contains_key(p) ==> p + amount <= usize::MAX,
        ensures
            final(self).wf(),
            final(self)@ == shifted(old(self)@, index as int, amount as int),
            final(self).spec_len() == old(self).spec_len(),
    {
        let k: usize = self.first_from(index);
        let n: usize = self.cache.len();
        if k < n && self.cache[k].from < index {
            let ghost hi = self.cache@[k as int].to;
            proof {
                lemma_total_bounds(self.cache@, k as int);
                assert(self.cache@[k as int].wf());
                lemma_content_at(self.cache@, k as int, hi as int);
            }
            let tail = self.split_tail(k, index);
            let ghost mid = self@;
            proof {
                assert forall|j: int| 0 <= j < k + 1 implies (#[trigger] self.nodes()[j]).to
                    < index by {
                    if j < k {
                        assert(self.nodes()[j] == old(self).nodes()[j]);
                    }
                }
                assert forall|j: int| k + 1 <= j < self.nodes().len() implies index <= (
                #[trigger] self.nodes()[j]).to by {
                    assert(self.nodes()[j] == old(self).nodes()[j]);
                }
                if k + 1 < n {
                    assert(self.nodes()[k + 1] == old(self).nodes()[k + 1]);
                    assert(old(self).nodes()[k as int].to + 1 < old(self).nodes()[k + 1].from);
                }
                self.lemma_movable((k + 1) as usize, index, amount);
            }
            self.shift_from(k + 1, index, amount);
            proof {
                if k + 1 < n {
                    assert(old(self).nodes()[k as int].to + 1 < old(self).nodes()[k + 1].from);
                }
            }
            self.add_node(k + 1, add_size(index, amount), tail);
            proof {
                assert(run_rows(index as int, tail@).dom() =~= Set::new(|q: int| index <= q <= hi));
                lemma_shift_block(old(self)@, index as int, amount as int, index as int, tail@);
            }
        } else {
            proof {
                self.lemma_movable(k, index, amount);
            }
            self.shift_from(k, index, amount);
        }
    }

    /// Moves the rows at the positions from `index` on down by `-amount`.
    fn move_down(&mut self, index: usize, amount: isize)
        requires
            old(self).wf(),
            amount < 0,
            forall|p: int| index <= p < index - amount ==> !old(self)@.contains_key(p),
        ensures
            final(self).wf(),
            final(self)@ == shifted(old(self)@, index as int, amount as int),
            final(self).spec_len() == old(self).spec_len(),
    {
        let k: usize = self.first_from(index);
        let n: usize = self.cache.len();
        proof {
            if k < n && self.cache@[k as int].from < index {
                assert(index <= self.nodes()[k as int].to);
                assert(node_holds(self.cache@, k as int, index as int));
                lemma_content_at(self.cache@, k as int, index as int);
                assert(self@.contains_key(index as int));
            }
            self.lemma_movable(k, index, amount);
        }
        if k > 0 && k < n && self.cache[k - 1].to + 1 == add_size(self.cache[k].from, amount) {
            proof {
                lemma_total_bounds(self.cache@, k as int);
                if k + 1 < n {
                    assert(self.cache@[k as int].to + 1 < self.cache@[k + 1].from);
                }
            }
            let next = self.take_node(k);
            proof {
                assert forall|j: int| k <= j < self.nodes().len() implies index <= (
                #[trigger] self.nodes()[j]).from && 0 <= self.nodes()[j].from + amount
                    && self.nodes()[j].to + amount <= usize::MAX by {
                    assert(self.nodes()[j] == old(self).nodes()[j + 1]);
                }
                assert forall|j: int| 0 <= j < k implies (#[trigger] self.nodes()[j]).to < index by {
                    assert(self.nodes()[j] == old(self).nodes()[j]);
                }
                assert(self.nodes()[k - 1] == old(self).nodes()[k - 1]);
                if k < n - 1 {
                    assert(self.nodes()[k as int] == old(self).nodes()[k + 1]);
                }
                assert(node_rows(next).dom() =~= run_rows(next.from as int, next.data@).dom());
            }
            self.shift_from(k, index, amount);
            proof {
                assert(self.nodes()[k - 1] == old(self).nodes()[k - 1]);
            }
            self.extend_back(k - 1, next.data);
            proof {
                assert(run_rows(next.from as int, next.data@).submap_of(old(self)@)) by {
                    assert forall|q: int| #[trigger]
                        run_rows(next.from as int, next.data@).dom().contains(q) implies old(
                        self,
                    )@.dom().contains(q) && run_rows(next.from as int, next.data@)[q] == old(
                        self,
                    )@[q] by {
                        assert(next.holds(q));
                    }
                }
                lemma_shift_block(
                    old(self)@,
                    index as int,
                    amount as int,
                    next.from as int,
                    next.data@,
                );
            }
        } else {
            self.shift_from(k, index, amount);
        }
    }

    /// Moves the cached rows at the positions from `index` on by `amount`
    /// positions, up or down; the rows before `index` stay. Moving up opens
    /// a gap at `index`: a node that holds `index` and the position before it
    /// is split there, and no row may be carried past the last position.
    /// Moving down closes a gap of `-amount` positions that starts at
    /// `index`, and joins the nodes that meet there.
    pub fn move_cache(&mut self, index: usize, amount: isize)
        requires
            old(self).wf(),
            forall|p: int|
                amount > 0 && index <= p && old(self)@.contains_key(p) ==> p + amount
                    <= usize::MAX,
            forall|p: int|
                amount < 0 && index <= p < index - amount ==> !old(self)@.contains_key(p),
        ensures
            final(self).wf(),
            final(self)@ == shifted(old(self)@, index as int, amount as int),
            final(self).spec_len() == old(self).spec_len(),
    {
        if amount == 0 {
            assert(self@ =~= shifted(old(self)@, index as int, amount as int));
        } else if amount > 0 {
            self.move_up(index, amount);
        } else {
            self.move_down(index, amount);
        }
    }

    /// Caches `rows`, which is not empty, at the positions from `index` on,
    /// none of which is cached.
    fn splice_in(&mut self, index: usize, rows: Vec<Row>)
        requires
            old(self).wf(),
            rows@.len() > 0,
            index + rows@.len() <= usize::MAX + 1,
            forall|p: int| index <= p < index + rows@.len() ==> !old(self)@.contains_key(p),
            old(self).spec_len() + rows@.len() <= usize::MAX,
        ensures
            final(self).wf(),
            final(self)@ == old(self)@.union_prefer_right(run_rows(index as int, rows@)),
            final(self).spec_len() == old(self).spec_len() + rows@.len(),
    {
        let ghost before = self.cache@;
        let count: usize = rows.len();
        let last: usize = index + (count - 1);
        let k: usize = self.place(index);
        let n: usize = self.cache.len();
        proof {
            if k < n {
                assert(before[k as int].wf());
                if before[k as int].from <= last {
                    lemma_content_at(before, k as int, before[k as int].from as int);
                }
            }
            if k > 0 {
                assert(before[k - 1].wf());
            }
            if k + 1 < n {
                assert(before[k as int].to + 1 < before[k + 1].from);
            }
        }
        let left: bool = k > 0 && self.cache[k - 1].to + 1 == index;
        let right: bool = k < n && last < usize::MAX && self.cache[k].from == last + 1;
        if left && right {
            let next = self.take_node(k);
            self.extend_back(k - 1, rows);
            self.extend_back(k - 1, next.data);
            proof {
                assert(run_rows(last + 1, next.data@) =~= node_rows(next));
                assert(self@ =~= old(self)@.union_prefer_right(run_rows(index as int, rows@)));
            }
        } else if left {
            self.extend_back(k - 1, rows);
        } else if right {
            self.extend_front(k, rows);
        } else {
            self.add_node(k, index, rows);
        }
    }

    /// Caches `data` at position `index`, which is not cached.
    pub fn insert(&mut self, index: usize, data: Row)
        requires
            old(self).wf(),
            !old(self)@.contains_key(index as int),
            old(self).spec_len() < usize::MAX,
        ensures
            final(self).wf(),
            final(self)@ == old(self)@.insert(index as int, data),
            final(self).spec_len() == old(self).spec_len() + 1,
    {
        let mut rows: Vec<Row> = Vec::new();
        rows.push(data);
        self.splice_in(index, rows);
        assert(self@ =~= old(self)@.insert(index as int, data));
    }

    /// Caches `datas` at the positions from `index` on, none of which is
    /// cached.
    pub fn inserts(&mut self, index: usize, datas: Vec<Row>)
        requires
            old(self).wf(),
            index + datas@.len() <= usize::MAX + 1,
            forall|p: int| index <= p < index + datas@.len() ==> !old(self)@.contains_key(p),
            old(self).spec_len() + datas@.len() <= usize::MAX,
        ensures
            final(self).wf(),
            final(self)@ == old(self)@.union_prefer_right(run_rows(index as int, datas@)),
            final(self).spec_len() == old(self).spec_len() + datas@.len(),
    {
        if datas.len() == 0 {
            assert(self@ =~= old(self)@.union_prefer_right(run_rows(index as int, datas@)));
        } else {
            self.splice_in(index, datas);
        }
    }

    /// Forgets the rows at the positions from `index` to `last`.
    fn forget(&mut self, index: usize, last: usize)
        requires
            old(self).wf(),
            index <= last,
        ensures
            final(self).wf(),
            final(self)@ == old(self)@.remove_keys(Set::new(|p: int| index <= p <= last)),
            final(self).spec_len() <= old(self).spec_len(),
    {
        let ghost before = self.cache@;
        let ghost range = Set::new(|p: int| index <= p <= last);
        let mut k: usize = self.first_from(index);
        let ghost mut gone: Set<int> = Set::empty();
        proof {
            assert(old(self)@.remove_keys(gone) =~= old(self)@);
        }
        if k < self.cache.len() && self.cache[k].from < index {
            let to: usize = self.cache[k].to;
            proof {
                if k + 1 < before.len() {
                    assert(before[k as int].to + 1 < before[k + 1].from);
                }
            }
            let mut tail = self.split_tail(k, index);
            if to > last {
                let ghost full = tail@;
                let rest = tail.split_off(last + 1 - index);
                proof {
                    assert forall|q: int| #[trigger]
                        run_rows(last + 1, rest@).dom().contains(q) implies old(
                        self,
                    )@.dom().contains(q) && run_rows(last + 1, rest@)[q] == old(self)@[q] by {
                        assert(full.len() == to - index + 1);
                        assert(rest@ == full.subrange(last + 1 - index, full.len() as int));
                        assert(0 <= q - index < full.len());
                        assert(run_rows(index as int, full).dom().contains(q));
                        assert(old(self)@.dom().contains(q));
                        assert(run_rows(index as int, full)[q] == old(self)@[q]);
                        assert(rest@[q - (last + 1)] == full[q - index]);
                    }
                    lemma_total_bounds(before, k as int);
                }
                self.add_node(k + 1, last + 1, rest);
                proof {
                    assert(self@ =~= old(self)@.remove_keys(range));
                }
                return ;
            }
            proof {
                gone = Set::new(|q: int| index <= q <= to);
                assert forall|j: int| k < j < self.cache@.len() implies index <= (
                #[trigger] self.cache@[j]).from by {
                    assert(self.cache@[j] == before[j]);
                    assert(before[k as int].to + 1 < before[j].from);
                }
            }
            k = k + 1;
        } else {
            proof {
                assert forall|j: int| k <= j < self.cache@.len() implies index <= (
                #[trigger] self.cache@[j]).from by {
                    if j > k {
                        assert(before[k as int].to + 1 < before[j].from);
                        assert(before[k as int].wf());
                    }
                }
            }
        }
        while k < self.cache.len() && self.cache[k].to <= last
            invariant
                self.wf(),
                k <= self.cache@.len(),
                self@ == old(self)@.remove_keys(gone),
                gone.subset_of(range),
                range == Set::new(|p: int| index <= p <= last),
                self.spec_len() <= old(self).spec_len(),
                forall|j: int| 0 <= j < k ==> (#[trigger] self.nodes()[j]).to < index,
                forall|j: int| k <= j < self.nodes().len() ==> index <= (#[trigger] self.nodes()[j]).from,
            decreases self.cache@.len() - k,
        {
            let ghost cur = self.cache@;
            let node = self.take_node(k);
            proof {
                let taken = node_rows(node).dom();
                assert(self@ =~= old(self)@.remove_keys(gone.union(taken)));
                gone = gone.union(taken);
                assert forall|j: int| k <= j < self.cache@.len() implies index <= (
                #[trigger] self.nodes()[j]).from by {
                    assert(self.cache@[j] == cur[j + 1]);
                }
                assert forall|j: int| 0 <= j < k implies (#[trigger] self.nodes()[j]).to < index by {
                    assert(self.cache@[j] == cur[j]);
                }
            }
        }
        if k < self.cache.len() && self.cache[k].from <= last {
            let ghost cur = self.cache@;
            let ghost from = cur[k as int].from;
            proof {
                assert(cur[k as int].wf());
            }
            self.drop_head(k, last + 1);
            proof {
                let taken = Set::new(|p: int| from <= p < last + 1);
                assert(self@ =~= old(self)@.remove_keys(gone.union(taken)));
                gone = gone.union(taken);
                assert forall|j: int| 0 <= j < k implies (#[trigger] self.nodes()[j]).to < index by {
                    assert(self.cache@[j] == cur[j]);
                }
            }
        }
        proof {
            let cur = self.cache@;
            lemma_content_all(cur);
            assert forall|p: int| range.contains(p) implies !self@.contains_key(p) by {
                if self@.contains_key(p) {
                    let c = choose|c: int| node_holds(cur, c, p);
                    assert(node_holds(cur, c, p));
                    if c < k {
                        assert(self.nodes()[c].to < index);
                    } else if c > k {
                        assert(cur[k as int].to + 1 < cur[c].from);
                    }
                }
            }
            assert(self@ =~= old(self)@.remove_keys(range));
        }
    }

    /// Forgets the rows at the positions from `index` on: `len` of them, or
    /// all where `len` is `None`. The positions of the other rows stay.
    pub fn remove(&mut self, index: usize, len: Option<usize>)
        requires
            old(self).wf(),
        ensures
            final(self).wf(),
            final(self)@ == old(self)@.remove_keys(span(index, len)),
            final(self).spec_len() <= old(self).spec_len(),
    {
        let last: usize = match len {
            None => usize::MAX,
            Some(n) => {
                if n == 0 {
                    assert(self@ =~= old(self)@.remove_keys(span(index, len)));
                    return ;
                }
                if n - 1 > usize::MAX - index {
                    usize::MAX
                } else {
                    index + (n - 1)
                }
            },
        };
        proof {
            let range = Set::new(|p: int| index <= p <= last);
            assert forall|p: int| old(self)@.contains_key(p) implies (range.contains(p) <==> span(
                index,
                len,
            ).contains(p)) by {
                lemma_content_all(self.cache@);
                let c = choose|c: int| node_holds(self.cache@, c, p);
                assert(node_holds(self.cache@, c, p));
            }
            assert(old(self)@.remove_keys(range) =~= old(self)@.remove_keys(span(index, len)));
        }
        self.forget(index, last);
    }

    /// An empty cache.
    pub fn new() -> (c: Self)
        ensures
            c.wf(),
            c@ == Map::<int, Row>::empty(),
            c.spec_len() == 0,
    {
        let c = Self { len: 0, cache: Vec::new() };
        assert(c@ =~= Map::<int, Row>::empty());
        c
    }

    /// Whether nothing is cached.
    pub fn is_empty(&self) -> (b: bool)
        requires
            self.wf(),
        ensures
            b == (self@ == Map::<int, Row>::empty()),
            b == (self.spec_len() == 0),
    {
        proof {
            if self.cache@.len() > 0 {
                let n = self.cache@[0];
                assert(n.wf());
                lemma_content_at(self.cache@, 0, n.from as int);
                lemma_total_bounds(self.cache@, 0);
            } else {
                assert(self@ =~= Map::<int, Row>::empty());
            }
        }
        self.cache.is_empty()
    }

    /// The count of cached rows is the number of cached positions.
    pub proof fn lemma_len(&self)
        requires
            self.wf(),
        ensures
            self@.dom().finite(),
            self.spec_len() == self@.dom().len(),
    {
        lemma_total_is_count(self.cache@);
    }

    /// The number of cached rows.
    pub fn len(&self) -> (n: usize)
        requires
            self.wf(),
        ensures
            n == self.spec_len(),
    {
        self.len
    }

    /// Forgets everything.
    pub fn clear(&mut self)
        ensures
            final(self).wf(),
            final(self)@ == Map::<int, Row>::empty(),
            final(self).spec_len() == 0,
    {
        self.len = 0;
        self.cache.clear();
        assert(self@ =~= Map::<int, Row>::empty());
    }
}

/// Lists whose nodes have as many rows each have as many rows in all.
pub proof fn lemma_total_same<Row>(a: Seq<CacheNode<Row>>, b: Seq<CacheNode<Row>>)
    requires
        a.len() == b.len(),
        forall|i: int| 0 <= i < a.len() ==> (#[trigger] a[i]).data@.len() == b[i].data@.len(),
    ensures
        total(a) == total(b),
    decreases a.len(),
{
    if a.len() > 0 {
        assert forall|i: int| 0 <= i < a.len() - 1 implies (#[trigger] a.drop_last()[i]).data@.len()
            == b.drop_last()[i].data@.len() by {
            assert(a.drop_last()[i] == a[i]);
            assert(b.drop_last()[i] == b[i]);
        }
        lemma_total_same(a.drop_last(), b.drop_last());
        assert(a.last() == a[a.len() - 1]);
    }
}

/// A position moved by a signed number of positions.
pub fn add_size(a: usize, b: isize) -> (r: usize)
    requires
        0 <= a + b <= usize::MAX,
    ensures
        r == a + b,
{
    if b < 0 {
        let back: usize = (-(b + 1)) as usize;
        a - back - 1
    } else {
        a + b as usize
    }
}

/// The rows of one node are among the rows of all.
pub proof fn lemma_total_bounds<Row>(nodes: Seq<CacheNode<Row>>, k: int)
    requires
        0 <= k < nodes.len(),
    ensures
        nodes[k].data@.len() <= total(nodes),
    decreases nodes.len(),
{
    if k < nodes.len() - 1 {
        lemma_total_bounds(nodes.drop_last(), k);
    }
}

} // verus!
