//! The delta tree: one node per pack entry, and an edge from each base to every
//! offset delta that is encoded against it.
use crate::header::{parse_header, Header, HeaderError, HeaderView};
use petgraph::graph::{Graph, NodeIndex};
use petgraph::{Directed, Direction};
use std::collections::BTreeMap;
use vstd::prelude::*;

verus! {

broadcast use vstd::std_specs::btree::group_btree_axioms;

#[verifier::external_type_specification]
#[verifier::external_body]
#[verifier::reject_recursive_types(N)]
#[verifier::reject_recursive_types(E)]
#[verifier::reject_recursive_types(Ty)]
#[verifier::reject_recursive_types(Ix)]
pub struct ExGraph<N, E, Ty, Ix>(Graph<N, E, Ty, Ix>);

#[verifier::external_type_specification]
#[verifier::external_body]
pub struct ExDirected(Directed);

#[verifier::external_type_specification]
#[verifier::external_body]
pub struct ExIoError(std::io::Error);

/// The node weights of a graph, by node index.
pub uninterp spec fn graph_nodes(g: Graph<u64, (), Directed, u32>) -> Seq<u64>;

/// The edges of a graph, as (source, target) node indices in the order of their addition.
pub uninterp spec fn graph_edges(g: Graph<u64, (), Directed, u32>) -> Seq<(u32, u32)>;

/// Targets of the edges in `es` that leave `a`, the most recently added first.
pub open spec fn targets_latest_first(es: Seq<(u32, u32)>, a: u32) -> Seq<u32>
    decreases es.len(),
{
    if es.len() == 0 {
        Seq::empty()
    } else {
        let rest = targets_latest_first(es.drop_last(), a);
        if es.last().0 == a {
            seq![es.last().1] + rest
        } else {
            rest
        }
    }
}

/// Some edge of `es` enters `a`.
pub open spec fn enters(es: Seq<(u32, u32)>, a: u32) -> bool {
    exists|k: int| 0 <= k < es.len() && (#[trigger] es[k]).1 == a
}

/// Relies on petgraph's `Graph::new`: a directed graph without nodes or edges.
#[verifier::external_body]
fn graph_new() -> (g: Graph<u64, (), Directed, u32>)
    ensures
        graph_nodes(g) == Seq::<u64>::empty(),
        graph_edges(g) == Seq::<(u32, u32)>::empty(),
{
    Graph::new()
}

/// Relies on petgraph's `Graph::add_node`: the new node takes the next index and
/// keeps its weight; the edges stay. It panics only when the index would be `u32::MAX`.
#[verifier::external_body]
fn graph_add_node(g: &mut Graph<u64, (), Directed, u32>, weight: u64) -> (i: u32)
    requires
        graph_nodes(*old(g)).len() < u32::MAX,
    ensures
        i == graph_nodes(*old(g)).len(),
        graph_nodes(*final(g)) == graph_nodes(*old(g)).push(weight),
        graph_edges(*final(g)) == graph_edges(*old(g)),
{
    g.add_node(weight).index() as u32
}

/// Relies on petgraph's `Graph::add_edge`: the edge is appended to the edge list
/// and the nodes stay. It panics only on an index out of range or when the edge
/// index would be `u32::MAX`.
#[verifier::external_body]
fn graph_add_edge(g: &mut Graph<u64, (), Directed, u32>, a: u32, b: u32)
    requires
        a < graph_nodes(*old(g)).len(),
        b < graph_nodes(*old(g)).len(),
        graph_edges(*old(g)).len() < u32::MAX,
    ensures
        graph_nodes(*final(g)) == graph_nodes(*old(g)),
        graph_edges(*final(g)) == graph_edges(*old(g)).push((a, b)),
{
    g.add_edge(NodeIndex::new(a as usize), NodeIndex::new(b as usize), ());
}

/// Relies on petgraph's `Graph::node_count`: the length of the node list.
#[verifier::external_body]
fn graph_node_count(g: &Graph<u64, (), Directed, u32>) -> (r: usize)
    ensures
        r == graph_nodes(*g).len(),
{
    g.node_count()
}

/// Relies on petgraph's `Graph::node_weight`: the weight of an existing node.
#[verifier::external_body]
fn graph_node_weight(g: &Graph<u64, (), Directed, u32>, i: u32) -> (r: u64)
    requires
        i < graph_nodes(*g).len(),
    ensures
        r == graph_nodes(*g)[i as int],
{
    *g.node_weight(NodeIndex::new(i as usize)).unwrap()
}

/// Relies on petgraph's `Graph::neighbors_directed` with `Outgoing`: in a directed
/// graph the targets of the edges that leave `a`, the most recently added first.
#[verifier::external_body]
fn graph_outgoing(g: &Graph<u64, (), Directed, u32>, a: u32) -> (r: Vec<u32>)
    requires
        a < graph_nodes(*g).len(),
    ensures
        r@ == targets_latest_first(graph_edges(*g), a),
{
    g.neighbors_directed(NodeIndex::new(a as usize), Direction::Outgoing).map(|i| i.index() as u32).collect()
}

/// Relies on petgraph's `Graph::neighbors_directed` with `Incoming`: it yields
/// something exactly when some edge enters `a`.
#[verifier::external_body]
fn graph_has_incoming(g: &Graph<u64, (), Directed, u32>, a: u32) -> (r: bool)
    requires
        a < graph_nodes(*g).len(),
    ensures
        r == enters(graph_edges(*g), a),
{
    g.neighbors_directed(NodeIndex::new(a as usize), Direction::Incoming).next().is_some()
}

/// Offsets in strictly ascending order.
pub open spec fn strictly_ascending(offs: Seq<u64>) -> bool {
    forall|i: int, j: int| 0 <= i < j < offs.len() ==> offs[i] < offs[j]
}

/// The position of `o` in `offs`.
pub open spec fn index_of(offs: Seq<u64>, o: int) -> int {
    choose|i: int| 0 <= i < offs.len() && offs[i] == o
}

/// The edge that an entry with header `h` adds when it becomes node `n`, after
/// the entries at `offs`.
pub open spec fn edge_of(offs: Seq<u64>, h: HeaderView, n: int) -> Seq<(u32, u32)> {
    match h {
        HeaderView::OfsDelta { pack_offset } => seq![(index_of(offs, pack_offset) as u32, n as u32)],
        _ => Seq::empty(),
    }
}

/// A graph vertex: a pack entry, with its index in the tree that made it.
#[derive(Debug, Clone, Copy)]
pub struct Node {
    /// Where the entry starts in the pack.
    pub pack_offset: u64,
    index: u32,
}

impl Node {
    /// The node's index in its tree.
    pub closed spec fn idx(&self) -> u32 {
        self.index
    }

    /// Where the node's entry starts in the pack.
    pub closed spec fn offset(&self) -> u64 {
        self.pack_offset
    }

    /// Where the node's entry starts in the pack.
    pub fn pack_offset(&self) -> (r: u64)
        ensures
            r == self.offset(),
    {
        self.pack_offset
    }
}

/// The graph of delta dependencies among the entries of one pack.
pub struct DeltaTree {
    inner: Graph<u64, (), Directed, u32>,
}

impl DeltaTree {
    /// The pack offset of each node, by node index.
    pub closed spec fn offsets(&self) -> Seq<u64> {
        graph_nodes(self.inner)
    }

    /// The edges, from base to delta, in the order of their addition.
    pub closed spec fn edges(&self) -> Seq<(u32, u32)> {
        graph_edges(self.inner)
    }

    /// Every edge joins two nodes of the tree.
    pub open spec fn wf(&self) -> bool {
        &&& self.offsets().len() <= u32::MAX
        &&& self.edges().len() <= self.offsets().len()
        &&& forall|k: int|
            0 <= k < self.edges().len() ==> (#[trigger] self.edges()[k]).0 < self.offsets().len()
                && self.edges()[k].1 < self.offsets().len()
    }

    /// Some edge enters node `i`.
    pub open spec fn has_incoming(&self, i: u32) -> bool {
        enters(self.edges(), i)
    }

    /// `n` is the node of index `n.idx()` of this tree.
    pub open spec fn holds(&self, n: Node) -> bool {
        n.idx() < self.offsets().len() && self.offsets()[n.idx() as int] == n.offset()
    }

    /// Indices below `n` of the nodes that no edge enters, ascending.
    pub open spec fn roots_below(&self, n: int) -> Seq<u32>
        decreases n,
    {
        if n <= 0 {
            Seq::empty()
        } else if self.has_incoming((n - 1) as u32) {
            self.roots_below(n - 1)
        } else {
            self.roots_below(n - 1).push((n - 1) as u32)
        }
    }

    /// Indices of the nodes that no edge enters, ascending.
    pub open spec fn roots(&self) -> Seq<u32> {
        self.roots_below(self.offsets().len() as int)
    }

    /// The direct deltas of node `i`, the most recently added first.
    pub open spec fn child_indices(&self, i: u32) -> Seq<u32> {
        targets_latest_first(self.edges(), i)
    }

    /// `out` holds the nodes that no edge enters, in index order.
    pub open spec fn lists_bases(&self, out: Seq<Node>) -> bool {
        &&& out.len() == self.roots().len()
        &&& forall|k: int|
            0 <= k < out.len() ==> (#[trigger] out[k]).idx() == self.roots()[k] && self.holds(out[k])
    }

    /// `out` holds the nodes of the direct deltas of `n`, the most recently added first.
    pub open spec fn lists_children(&self, n: Node, out: Seq<Node>) -> bool {
        &&& out.len() == self.child_indices(n.idx()).len()
        &&& forall|k: int|
            0 <= k < out.len() ==> (#[trigger] out[k]).idx() == self.child_indices(n.idx())[k]
                && self.holds(out[k])
    }
}


/// Some edge of `es` runs from `a` to `b`.
pub open spec fn has_edge(es: Seq<(u32, u32)>, a: u32, b: u32) -> bool {
    exists|m: int| 0 <= m < es.len() && #[trigger] es[m] == (a, b)
}

/// Lemma: every listed child is the target of an edge that leaves `a`.
proof fn lemma_targets_are_edges(es: Seq<(u32, u32)>, a: u32)
    ensures
        forall|k: int|
            0 <= k < targets_latest_first(es, a).len() ==> has_edge(
                es,
                a,
                #[trigger] targets_latest_first(es, a)[k],
            ),
    decreases es.len(),
{
    if es.len() > 0 {
        let rest = es.drop_last();
        lemma_targets_are_edges(rest, a);
        let t = targets_latest_first(es, a);
        let tr = targets_latest_first(rest, a);
        assert forall|k: int| 0 <= k < t.len() implies has_edge(es, a, #[trigger] t[k]) by {
            if es.last().0 == a && k == 0 {
                assert(es[es.len() - 1] == (a, t[k]));
            } else {
                let j = if es.last().0 == a { k - 1 } else { k };
                assert(t[k] == tr[j]);
                assert(has_edge(rest, a, tr[j]));
                let m = choose|m: int| 0 <= m < rest.len() && #[trigger] rest[m] == (a, tr[j]);
                assert(es[m] == (a, t[k]));
            }
        }
    }
}

impl DeltaTree {
    /// The number of nodes.
    pub fn node_count(&self) -> (r: usize)
        ensures
            r == self.offsets().len(),
    {
        graph_node_count(&self.inner)
    }

    /// The nodes that no edge enters, in index order: the entries that need no
    /// other entry of the pack to be resolved first.
    pub fn bases(&self) -> (r: Vec<Node>)
        requires
            self.wf(),
        ensures
            self.lists_bases(r@),
    {
        let n = graph_node_count(&self.inner);
        let mut out: Vec<Node> = Vec::new();
        let mut i: usize = 0;
        while i < n
            invariant
                self.wf(),
                n == self.offsets().len(),
                i <= n,
                out@.len() == self.roots_below(i as int).len(),
                forall|k: int|
                    0 <= k < out@.len() ==> (#[trigger] out@[k]).idx() == self.roots_below(
                        i as int,
                    )[k] && self.holds(out@[k]),
            decreases n - i,
        {
            let idx = i as u32;
            if !graph_has_incoming(&self.inner, idx) {
                let pack_offset = graph_node_weight(&self.inner, idx);
                out.push(Node { pack_offset, index: idx });
            }
            i = i + 1;
        }
        out
    }

    /// Replaces the contents of `out` by the direct deltas of `n`, the most
    /// recently added first.
    pub fn children(&self, n: Node, out: &mut Vec<Node>)
        requires
            self.wf(),
            self.holds(n),
        ensures
            self.lists_children(n, final(out)@),
    {
        out.clear();
        let targets = graph_outgoing(&self.inner, n.index);
        proof {
            lemma_targets_are_edges(self.edges(), n.idx());
        }
        let mut k: usize = 0;
        while k < targets.len()
            invariant
                self.wf(),
                targets@ == self.child_indices(n.idx()),
                k <= targets@.len(),
                out@.len() == k,
                forall|j: int| 0 <= j < targets@.len() ==> has_edge(self.edges(), n.idx(), #[trigger] targets@[j]),
                forall|j: int|
                    0 <= j < k ==> (#[trigger] out@[j]).idx() == targets@[j] && self.holds(out@[j]),
            decreases targets@.len() - k,
        {
            let t = targets[k];
            proof {
                assert(has_edge(self.edges(), n.idx(), targets@[k as int]));
                let m = choose|m: int| 0 <= m < self.edges().len() && #[trigger] self.edges()[m] == (n.idx(), targets@[k as int]);
                assert(self.edges()[m].1 < self.offsets().len());
            }
            let pack_offset = graph_node_weight(&self.inner, t);
            out.push(Node { pack_offset, index: t });
            k = k + 1;
        }
    }
}


/// The base of an offset delta `h` is among `offs`; every other kind needs nothing.
pub open spec fn base_known(offs: Seq<u64>, h: HeaderView) -> bool {
    match h {
        HeaderView::OfsDelta { pack_offset } => exists|i: int| 0 <= i < offs.len() && offs[i] == pack_offset,
        _ => true,
    }
}

/// What reading the pack at one entry's offset gave.
pub enum EntryRead {
    /// The bytes of the pack from the entry's offset on; at least its header.
    Bytes(Vec<u8>),
    /// Seeking to the entry's offset failed.
    SeekFailed(std::io::Error),
    /// Reading at the entry's offset failed.
    ReadFailed(std::io::Error),
}

/// Why a delta tree could not be built.
#[derive(Debug)]
pub enum Error {
    /// Seeking to an entry failed.
    Seek { pack_offset: u64, source: std::io::Error },
    /// Reading an entry's header failed.
    Read { pack_offset: u64, source: std::io::Error },
    /// An entry's header is truncated or malformed.
    Header { pack_offset: u64, error: HeaderError },
    /// An offset delta comes before its base, or its base is not an entry.
    MissingBase { pack_offset: u64, base_offset: u64 },
}

impl Error {
    /// What went wrong, in a few words: seeking, or reading a header.
    pub fn message(&self) -> (r: &'static str)
        ensures
            self is Seek ==> r@ == "Seek to next offset failed"@,
            self is Read || self is Header ==> r@ == "EOF while parsing header"@,
            self is MissingBase ==> r@ == "Delta base is not an earlier entry"@,
    {
        match self {
            Error::Seek { .. } => "Seek to next offset failed",
            Error::Read { .. } | Error::Header { .. } => "EOF while parsing header",
            Error::MissingBase { .. } => "Delta base is not an earlier entry",
        }
    }
}

/// An `Error` without the underlying I/O error.
pub enum ErrorView {
    Seek { pack_offset: u64 },
    Read { pack_offset: u64 },
    Header { pack_offset: u64, error: HeaderError },
    MissingBase { pack_offset: u64, base_offset: u64 },
}

impl View for Error {
    type V = ErrorView;

    open spec fn view(&self) -> ErrorView {
        match self {
            Error::Seek { pack_offset, .. } => ErrorView::Seek { pack_offset: *pack_offset },
            Error::Read { pack_offset, .. } => ErrorView::Read { pack_offset: *pack_offset },
            Error::Header { pack_offset, error } => ErrorView::Header {
                pack_offset: *pack_offset,
                error: *error,
            },
            Error::MissingBase { pack_offset, base_offset } => ErrorView::MissingBase {
                pack_offset: *pack_offset,
                base_offset: *base_offset,
            },
        }
    }
}

/// The error of an offset delta `h` at `pack_offset` whose base is unknown.
pub open spec fn missing_base(pack_offset: u64, h: HeaderView) -> ErrorView {
    match h {
        HeaderView::OfsDelta { pack_offset: b } => ErrorView::MissingBase { pack_offset, base_offset: b as u64 },
        _ => ErrorView::Seek { pack_offset },
    }
}

/// The header that entry `i` parses to; `Tree` where there is none.
pub open spec fn header_at(offs: Seq<u64>, reads: Seq<EntryRead>, i: int) -> HeaderView {
    match reads[i] {
        EntryRead::Bytes(b) => match parse_header(b@, offs[i] as int) {
            Ok((h, _, _)) => h,
            Err(_) => HeaderView::Tree,
        },
        _ => HeaderView::Tree,
    }
}

/// Entry `i` was read, its header parses, and its base, if it is an offset
/// delta, is an earlier entry.
pub open spec fn entry_ok(offs: Seq<u64>, reads: Seq<EntryRead>, i: int) -> bool {
    match reads[i] {
        EntryRead::Bytes(b) => parse_header(b@, offs[i] as int) is Ok && base_known(
            offs.take(i),
            header_at(offs, reads, i),
        ),
        _ => false,
    }
}

/// The error that entry `i` gives, where it is not `entry_ok`.
pub open spec fn entry_error(offs: Seq<u64>, reads: Seq<EntryRead>, i: int) -> ErrorView {
    match reads[i] {
        EntryRead::SeekFailed(_) => ErrorView::Seek { pack_offset: offs[i] },
        EntryRead::ReadFailed(_) => ErrorView::Read { pack_offset: offs[i] },
        EntryRead::Bytes(b) => match parse_header(b@, offs[i] as int) {
            Err(e) => ErrorView::Header { pack_offset: offs[i], error: e },
            Ok((h, _, _)) => missing_base(offs[i], h),
        },
    }
}

/// The edges that the first `n` entries add, in order.
pub open spec fn expected_edges(offs: Seq<u64>, reads: Seq<EntryRead>, n: int) -> Seq<(u32, u32)>
    decreases n,
{
    if n <= 0 {
        Seq::empty()
    } else {
        expected_edges(offs, reads, n - 1) + edge_of(offs.take(n - 1), header_at(offs, reads, n - 1), n - 1)
    }
}

/// A delta tree under construction, with the node of each offset seen so far.
pub struct DeltaTreeBuilder {
    inner: Graph<u64, (), Directed, u32>,
    offsets_to_node: BTreeMap<u64, u32>,
}

impl DeltaTreeBuilder {
    /// The pack offset of each node, by node index.
    pub closed spec fn offsets(&self) -> Seq<u64> {
        graph_nodes(self.inner)
    }

    /// The edges, from base to delta, in the order of their addition.
    pub closed spec fn edges(&self) -> Seq<(u32, u32)> {
        graph_edges(self.inner)
    }

    /// Offsets ascend, edges join nodes, and the table maps each offset to its node.
    pub closed spec fn wf(&self) -> bool {
        let offs = self.offsets();
        let m = self.offsets_to_node@;
        &&& strictly_ascending(offs)
        &&& offs.len() <= u32::MAX
        &&& self.edges().len() <= offs.len()
        &&& forall|k: int|
            0 <= k < self.edges().len() ==> (#[trigger] self.edges()[k]).0 < offs.len()
                && self.edges()[k].1 < offs.len()
        &&& forall|o: u64| #[trigger]
            m.contains_key(o) ==> m[o] < offs.len() && offs[m[o] as int] == o
        &&& forall|i: int| 0 <= i < offs.len() ==> m.contains_key(#[trigger] offs[i])
    }

    /// An empty builder.
    pub fn new() -> (r: Self)
        ensures
            r.wf(),
            r.offsets() == Seq::<u64>::empty(),
            r.edges() == Seq::<(u32, u32)>::empty(),
    {
        DeltaTreeBuilder { inner: graph_new(), offsets_to_node: BTreeMap::new() }
    }

    /// Adds the entry at `pack_offset` with header `header`: a new node, and for
    /// an offset delta an edge from its base. Fails, changing nothing, where the
    /// base of an offset delta has not been added.
    pub fn add(&mut self, pack_offset: u64, header: &Header) -> (r: Result<(), Error>)
        requires
            old(self).wf(),
            old(self).offsets().len() < u32::MAX,
            forall|i: int| 0 <= i < old(self).offsets().len() ==> old(self).offsets()[i] < pack_offset,
        ensures
            final(self).wf(),
            r is Ok <==> base_known(old(self).offsets(), header@),
            r is Ok ==> final(self).offsets() == old(self).offsets().push(pack_offset)
                && final(self).edges() == old(self).edges() + edge_of(
                old(self).offsets(),
                header@,
                old(self).offsets().len() as int,
            ),
            r is Err ==> *final(self) == *old(self),
            r matches Err(e) ==> e@ == missing_base(pack_offset, header@),
    {
        let ghost offs = self.offsets();
        match header {
            Header::OfsDelta { pack_offset: base_offset } => {
                let base = match self.offsets_to_node.get(base_offset) {
                    Some(b) => *b,
                    None => {
                        proof {
                            assert forall|i: int| 0 <= i < offs.len() implies offs[i] != *base_offset by {
                                assert(self.offsets_to_node@.contains_key(offs[i]));
                            }
                        }
                        return Err(Error::MissingBase { pack_offset, base_offset: *base_offset });
                    },
                };
                proof {
                    let i = index_of(offs, *base_offset as int);
                    assert(offs[base as int] == *base_offset);
                    assert(offs[i] == *base_offset);
                    assert(i == base) by {
                        if i < base {
                            assert(offs[i] < offs[base as int]);
                        } else if i > base {
                            assert(offs[base as int] < offs[i]);
                        }
                    }
                }
                let child = graph_add_node(&mut self.inner, pack_offset);
                self.offsets_to_node.insert(pack_offset, child);
                graph_add_edge(&mut self.inner, base, child);
                proof {
                    assert(self.edges() =~= graph_edges(old(self).inner) + edge_of(offs, header@, offs.len() as int));
                }
            },
            _ => {
                let node = graph_add_node(&mut self.inner, pack_offset);
                self.offsets_to_node.insert(pack_offset, node);
                proof {
                    assert(self.edges() =~= graph_edges(old(self).inner) + edge_of(offs, header@, offs.len() as int));
                }
            },
        }
        proof {
            let m = self.offsets_to_node@;
            let no = self.offsets();
            assert forall|i: int| 0 <= i < no.len() implies m.contains_key(#[trigger] no[i]) by {
                if i < offs.len() {
                    assert(old(self).offsets_to_node@.contains_key(offs[i]));
                }
            }
        }
        Ok(())
    }

    /// The finished tree.
    pub fn finish(self) -> (t: DeltaTree)
        requires
            self.wf(),
        ensures
            t.wf(),
            t.offsets() == self.offsets(),
            t.edges() == self.edges(),
    {
        DeltaTree { inner: self.inner }
    }
}

impl DeltaTree {
    /// Builds the tree of the entries at `offsets`, which ascend strictly, where
    /// `entries[i]` is what reading the pack at `offsets[i]` gave. Each entry
    /// becomes a node, in order; each offset delta gets an edge from its base.
    /// The first entry that was not read, does not parse, or is an offset delta
    /// whose base is not an earlier entry ends the build with its error.
    pub fn from_sorted_offsets(offsets: &Vec<u64>, entries: Vec<EntryRead>) -> (r: Result<DeltaTree, Error>)
        requires
            offsets.len() == entries.len(),
            offsets.len() < u32::MAX,
            strictly_ascending(offsets@),
        ensures
            r is Ok <==> forall|i: int| 0 <= i < offsets.len() ==> #[trigger] entry_ok(offsets@, entries@, i),
            r matches Ok(t) ==> t.wf() && built_from(t, offsets@, entries@),
            r matches Err(e) ==> exists|i: int|
                0 <= i < offsets.len() && (forall|j: int| 0 <= j < i ==> #[trigger] entry_ok(offsets@, entries@, j))
                    && !entry_ok(offsets@, entries@, i) && e@ == entry_error(offsets@, entries@, i)
                    && (e matches Error::Seek { source, .. } ==> entries@[i] == EntryRead::SeekFailed(source))
                    && (e matches Error::Read { source, .. } ==> entries@[i] == EntryRead::ReadFailed(source)),
    {
        let ghost offs = offsets@;
        let ghost rs = entries@;
        let mut reads = entries;
        let mut builder = DeltaTreeBuilder::new();
        let mut i: usize = 0;
        while i < offsets.len()
            invariant
                offs == offsets@,
                rs == reads@,
                rs == entries@,
                offs.len() == rs.len(),
                offs.len() < u32::MAX,
                strictly_ascending(offs),
                i <= offs.len(),
                builder.wf(),
                builder.offsets() == offs.take(i as int),
                builder.edges() == expected_edges(offs, rs, i as int),
                forall|j: int| 0 <= j < i ==> #[trigger] entry_ok(offs, rs, j),
            decreases offs.len() - i,
        {
            let pack_offset = offsets[i];
            let parsed = match &reads[i] {
                EntryRead::Bytes(bytes) => Some(Header::from_bytes(bytes.as_slice(), pack_offset)),
                _ => None,
            };
            match parsed {
                Some(Ok((header, _size, _len))) => {
                    assert(header@ == header_at(offs, rs, i as int));
                    match builder.add(pack_offset, &header) {
                        Ok(()) => {},
                        Err(e) => {
                            proof {
                                assert(builder.offsets() == offs.take(i as int));
                                assert(!base_known(offs.take(i as int), header_at(offs, rs, i as int)));
                                assert(!entry_ok(offs, rs, i as int));
                                assert(e@ == entry_error(offs, rs, i as int));
                            }
                            return Err(e);
                        },
                    }
                    assert(offs.take(i + 1) =~= offs.take(i as int).push(pack_offset));
                },
                Some(Err(error)) => {
                    assert(!entry_ok(offs, rs, i as int));
                    return Err(Error::Header { pack_offset, error });
                },
                None => {
                    // the entry holds an I/O error: take it out to hand it on
                    assert(!entry_ok(offs, rs, i as int));
                    let failed = reads.remove(i);
                    return match failed {
                        EntryRead::SeekFailed(source) => Err(Error::Seek { pack_offset, source }),
                        EntryRead::ReadFailed(source) => Err(Error::Read { pack_offset, source }),
                        EntryRead::Bytes(_) => {
                            proof {
                                assert(false);
                            }
                            Err(Error::MissingBase { pack_offset, base_offset: pack_offset })
                        },
                    };
                },
            }
            i = i + 1;
        }
        assert(offs.take(offs.len() as int) =~= offs);
        Ok(builder.finish())
    }
}


/// `t` is the tree of the entries at `offs`, read as `reads`, all of which build.
pub open spec fn built_from(t: DeltaTree, offs: Seq<u64>, reads: Seq<EntryRead>) -> bool {
    &&& strictly_ascending(offs)
    &&& offs.len() == reads.len()
    &&& offs.len() < u32::MAX
    &&& forall|i: int| 0 <= i < offs.len() ==> #[trigger] entry_ok(offs, reads, i)
    &&& t.offsets() == offs
    &&& t.edges() == expected_edges(offs, reads, offs.len() as int)
}

/// The node index of the base of entry `j`, where it is an offset delta.
pub open spec fn base_index(offs: Seq<u64>, reads: Seq<EntryRead>, j: int) -> int {
    match header_at(offs, reads, j) {
        HeaderView::OfsDelta { pack_offset } => index_of(offs, pack_offset),
        _ => -1,
    }
}

/// Lemma: in ascending offsets, an offset found before `i` has one position.
proof fn lemma_index_in_prefix(offs: Seq<u64>, i: int, o: int)
    requires
        strictly_ascending(offs),
        0 <= i <= offs.len(),
        exists|k: int| 0 <= k < offs.take(i).len() && offs.take(i)[k] == o,
    ensures
        index_of(offs.take(i), o) == index_of(offs, o),
        0 <= index_of(offs, o) < i,
        offs[index_of(offs, o)] == o,
{
    let a = index_of(offs.take(i), o);
    assert(offs[a] == o);
    let b = index_of(offs, o);
    assert(0 <= b < offs.len() && offs[b] == o);
    if a < b {
        assert(offs[a] < offs[b]);
    } else if b < a {
        assert(offs[b] < offs[a]);
    }
}

/// Lemma: the edges of the first `n` entries run from each offset delta's base
/// to the delta, one per delta, and enter no other entry.
proof fn lemma_expected_edges(offs: Seq<u64>, reads: Seq<EntryRead>, n: int)
    requires
        strictly_ascending(offs),
        offs.len() == reads.len(),
        offs.len() < u32::MAX,
        0 <= n <= offs.len(),
        forall|i: int| 0 <= i < offs.len() ==> #[trigger] entry_ok(offs, reads, i),
    ensures
        forall|k: int|
            0 <= k < expected_edges(offs, reads, n).len() ==> {
                let e = #[trigger] expected_edges(offs, reads, n)[k];
                &&& (e.1 as int) < n
                &&& header_at(offs, reads, e.1 as int) is OfsDelta
                &&& e.0 as int == base_index(offs, reads, e.1 as int)
            },
        forall|j: int|
            0 <= j < n && (#[trigger] header_at(offs, reads, j)) is OfsDelta ==> {
                &&& 0 <= base_index(offs, reads, j) < j
                &&& offs[base_index(offs, reads, j)] == header_at(offs, reads, j)->pack_offset
                &&& has_edge(expected_edges(offs, reads, n), base_index(offs, reads, j) as u32, j as u32)
            },
    decreases n,
{
    if n > 0 {
        lemma_expected_edges(offs, reads, n - 1);
        let prev = expected_edges(offs, reads, n - 1);
        let h = header_at(offs, reads, n - 1);
        let es = expected_edges(offs, reads, n);
        assert(entry_ok(offs, reads, n - 1));
        if let HeaderView::OfsDelta { pack_offset } = h {
            lemma_index_in_prefix(offs, n - 1, pack_offset);
        }
        assert forall|k: int| 0 <= k < es.len() implies {
            let e = #[trigger] es[k];
            &&& (e.1 as int) < n
            &&& header_at(offs, reads, e.1 as int) is OfsDelta
            &&& e.0 as int == base_index(offs, reads, e.1 as int)
        } by {
            if k < prev.len() {
                assert(es[k] == prev[k]);
            }
        }
        assert forall|j: int|
            0 <= j < n && (#[trigger] header_at(offs, reads, j)) is OfsDelta implies {
                &&& 0 <= base_index(offs, reads, j) < j
                &&& offs[base_index(offs, reads, j)] == header_at(offs, reads, j)->pack_offset
                &&& has_edge(es, base_index(offs, reads, j) as u32, j as u32)
            } by {
            if j < n - 1 {
                let m = choose|m: int|
                    0 <= m < prev.len() && #[trigger] prev[m] == (base_index(offs, reads, j) as u32, j as u32);
                assert(es[m] == prev[m]);
            } else {
                assert(es[prev.len() as int] == (base_index(offs, reads, j) as u32, j as u32));
            }
        }
    }
}

/// In a tree built from the entries at `offsets`, an offset delta at position `j`
/// has an edge from the node of its base, an earlier entry that starts at the
/// delta's base offset, and every edge that enters the delta comes from there.
pub proof fn lemma_offset_delta_edges(t: DeltaTree, offsets: Seq<u64>, entries: Seq<EntryRead>, j: int)
    requires
        built_from(t, offsets, entries),
        0 <= j < offsets.len(),
        header_at(offsets, entries, j) is OfsDelta,
    ensures
        0 <= base_index(offsets, entries, j) < j,
        t.offsets()[base_index(offsets, entries, j)] == header_at(offsets, entries, j)->pack_offset,
        has_edge(t.edges(), base_index(offsets, entries, j) as u32, j as u32),
        forall|k: int|
            0 <= k < t.edges().len() && (#[trigger] t.edges()[k]).1 == j as u32 ==> t.edges()[k].0
                == base_index(offsets, entries, j) as u32,
{
    lemma_expected_edges(offsets, entries, offsets.len() as int);
    assert(header_at(offsets, entries, j) is OfsDelta);
}

/// In a tree built from the entries at `offsets`, an edge enters the node of
/// entry `j` exactly when that entry is an offset delta: self-contained entries
/// and reference deltas are roots.
pub proof fn lemma_roots_are_not_offset_deltas(t: DeltaTree, offsets: Seq<u64>, entries: Seq<EntryRead>, j: int)
    requires
        built_from(t, offsets, entries),
        0 <= j < offsets.len(),
    ensures
        t.has_incoming(j as u32) <==> header_at(offsets, entries, j) is OfsDelta,
{
    lemma_expected_edges(offsets, entries, offsets.len() as int);
    if t.has_incoming(j as u32) {
        let k = choose|k: int| 0 <= k < t.edges().len() && (#[trigger] t.edges()[k]).1 == j as u32;
        assert(t.edges()[k] == expected_edges(offsets, entries, offsets.len() as int)[k]);
    }
    if header_at(offsets, entries, j) is OfsDelta {
        let m = choose|m: int|
            0 <= m < t.edges().len() && #[trigger] t.edges()[m] == (base_index(offsets, entries, j) as u32, j as u32);
        assert(t.edges()[m].1 == j as u32);
    }
}

/// In a tree built from the entries at `offsets`, every edge runs from a node
/// to a later node at a larger offset.
pub proof fn lemma_edges_run_forward(t: DeltaTree, offsets: Seq<u64>, entries: Seq<EntryRead>)
    requires
        built_from(t, offsets, entries),
    ensures
        forall|k: int|
            0 <= k < t.edges().len() ==> (#[trigger] t.edges()[k]).0 < t.edges()[k].1 < offsets.len()
                && offsets[t.edges()[k].0 as int] < offsets[t.edges()[k].1 as int],
{
    lemma_expected_edges(offsets, entries, offsets.len() as int);
    assert forall|k: int| 0 <= k < t.edges().len() implies (#[trigger] t.edges()[k]).0 < t.edges()[k].1 < offsets.len()
        && offsets[t.edges()[k].0 as int] < offsets[t.edges()[k].1 as int] by {
        let e = t.edges()[k];
        assert(e == expected_edges(offsets, entries, offsets.len() as int)[k]);
        assert(header_at(offsets, entries, e.1 as int) is OfsDelta);
    }
}

/// Two listings of the bases of one tree are equal.
pub proof fn lemma_bases_repeatable(t: DeltaTree, first: Seq<Node>, second: Seq<Node>)
    requires
        t.lists_bases(first),
        t.lists_bases(second),
    ensures
        first == second,
{
    assert forall|k: int| 0 <= k < first.len() implies first[k] == second[k] by {
        assert(first[k].idx() == second[k].idx());
        assert(t.holds(first[k]) && t.holds(second[k]));
    }
    assert(first =~= second);
}

/// Listing the children of a node gives the same nodes every time, whatever
/// the buffer held before.
pub proof fn lemma_children_repeatable(t: DeltaTree, n: Node, first: Seq<Node>, second: Seq<Node>)
    requires
        t.lists_children(n, first),
        t.lists_children(n, second),
    ensures
        first == second,
{
    assert forall|k: int| 0 <= k < first.len() implies first[k] == second[k] by {
        assert(first[k].idx() == second[k].idx());
        assert(t.holds(first[k]) && t.holds(second[k]));
    }
    assert(first =~= second);
}

} // verus!
