//! The graph construction pipeline: a staging structure that ingests ways
//! and node coordinates as plain values, counts node usage, splits ways at
//! shared intersections and optionally re-stitches collinear edges.

use crate::categorize::EdgeProperties;
use crate::merge::{merge_stable, merger_run};
use crate::models::{Coord, Edge, Node, Tag};
use std::collections::{HashMap, HashSet};
use vstd::prelude::*;

verus! {

broadcast use vstd::std_specs::hash::group_hash_axioms;

/// A way as represented in OpenStreetMap: an ordered list of node
/// identifiers with the categorized properties and the retained tags.
pub struct Way {
    pub id: i64,
    pub nodes: Vec<i64>,
    pub properties: EdgeProperties,
    pub tags: Vec<Tag>,
}

/// The failure of a graph construction run.
#[derive(Clone, Copy, Debug, PartialEq, Eq, Structural)]
pub enum GraphError {
    /// A retained way references this node identifier, but no node with it
    /// was ever ingested.
    MissingNode(i64),
}

impl GraphError {
    /// The failure as text.
    pub fn message(&self) -> (r: String)
        ensures
            (match *self {
                GraphError::MissingNode(id) => r@ == "Missing node, id: "@ + crate::text::dec_int(
                    id as int,
                ),
            }),
    {
        match *self {
            GraphError::MissingNode(id) => {
                let mut s = "Missing node, id: ".to_owned();
                let digits = crate::text::i64_dec(id);
                vstd::string::StringExecFns::append(&mut s, digits.as_str());
                s
            },
        }
    }
}

/// The node table: nodes in ingestion order, with a hash index from node
/// identifier to position.
pub(crate) struct NodeStore {
    pub(crate) index: HashMap<i64, usize>,
    pub(crate) items: Vec<Node>,
}

impl NodeStore {
    /// The index maps exactly the stored identifiers, each to the position
    /// holding it.
    pub open(crate) spec fn wf(self) -> bool {
        &&& forall|i: int|
            0 <= i < self.items@.len() ==> self.index@.contains_key(#[trigger] self.items@[i].id)
                && self.index@[self.items@[i].id] == i
        &&& forall|k: i64|
            #[trigger] self.index@.contains_key(k) ==> self.index@[k] < self.items@.len()
                && self.items@[self.index@[k] as int].id == k
    }

    /// The stored nodes, keyed by identifier.
    #[verifier::opaque]
    pub open(crate) spec fn as_map(self) -> Map<i64, Node> {
        Map::new(
            |k: i64| self.index@.contains_key(k),
            |k: i64| self.items@[self.index@[k] as int],
        )
    }

    /// The stored nodes in order.
    pub open(crate) spec fn seq(self) -> Seq<Node> {
        self.items@
    }

    pub(crate) proof fn lemma_seq_map(self)
        requires
            self.wf(),
        ensures
            forall|i: int|
                0 <= i < self.seq().len() ==> self.as_map().contains_key(#[trigger] self.seq()[i].id)
                    && self.as_map()[self.seq()[i].id] == self.seq()[i],
            forall|k: i64| #[trigger]
                self.as_map().contains_key(k) ==> exists|i: int|
                    0 <= i < self.seq().len() && #[trigger] self.seq()[i].id == k,
    {
        reveal(NodeStore::as_map);
        assert forall|k: i64| #[trigger] self.as_map().contains_key(k) implies exists|i: int|
            0 <= i < self.seq().len() && #[trigger] self.seq()[i].id == k by {
            let i = self.index@[k] as int;
            assert(0 <= i < self.seq().len() && self.seq()[i].id == k);
        }
    }

    pub(crate) fn new() -> (r: NodeStore)
        ensures
            r.wf(),
            r.as_map() =~= Map::<i64, Node>::empty(),
            r.seq() =~= Seq::<Node>::empty(),
    {
        proof {
            reveal(NodeStore::as_map);
        }
        NodeStore { index: HashMap::new(), items: Vec::new() }
    }

    pub(crate) fn len(&self) -> (r: usize)
        ensures
            r == self.seq().len(),
    {
        self.items.len()
    }

    pub(crate) fn contains(&self, id: i64) -> (r: bool)
        requires
            self.wf(),
        ensures
            r == self.as_map().contains_key(id),
    {
        proof {
            reveal(NodeStore::as_map);
        }
        self.index.contains_key(&id)
    }

    /// The stored node with this identifier, if any.
    pub(crate) fn get(&self, id: i64) -> (r: Option<Node>)
        requires
            self.wf(),
        ensures
            (match r {
                Some(n) => self.as_map().contains_key(id) && n == self.as_map()[id],
                None => !self.as_map().contains_key(id),
            }),
    {
        proof {
            reveal(NodeStore::as_map);
        }
        match self.index.get(&id) {
            Some(i) => Some(self.items[*i]),
            None => None,
        }
    }

    /// Adds a node whose identifier is not stored yet.
    pub(crate) fn insert(&mut self, node: Node)
        requires
            old(self).wf(),
            !old(self).as_map().contains_key(node.id),
        ensures
            final(self).wf(),
            final(self).as_map() =~= old(self).as_map().insert(node.id, node),
            final(self).seq() == old(self).seq().push(node),
    {
        proof {
            reveal(NodeStore::as_map);
        }
        let i = self.items.len();
        self.items.push(node);
        self.index.insert(node.id, i);
        proof {
            assert forall|j: int| 0 <= j < self.items@.len() implies self.index@.contains_key(
                #[trigger] self.items@[j].id,
            ) && self.index@[self.items@[j].id] == j by {
                if j < i {
                    assert(self.items@[j] == old(self).items@[j]);
                }
            }
        }
    }

    /// Raises the usage count of a stored node by one or two, saturating at
    /// the top of the counter's range.
    pub(crate) fn add_uses(&mut self, id: i64, extremity: bool)
        requires
            old(self).wf(),
            old(self).as_map().contains_key(id),
        ensures
            final(self).wf(),
            final(self).seq().len() == old(self).seq().len(),
            forall|j: int|
                0 <= j < old(self).seq().len() ==> {
                    let prev = old(self).seq()[j];
                    let cur = #[trigger] final(self).seq()[j];
                    &&& cur.id == prev.id
                    &&& cur.coord == prev.coord
                    &&& prev.id != id ==> cur.uses == prev.uses
                    &&& prev.id == id ==> cur.uses == sat16(
                        prev.uses + (if extremity {
                            2int
                        } else {
                            1int
                        }),
                    )
                },
            final(self).as_map().dom() =~= old(self).as_map().dom(),
            forall|k: i64|
                #[trigger] old(self).as_map().contains_key(k) ==> {
                    let prev = old(self).as_map()[k];
                    let cur = final(self).as_map()[k];
                    &&& cur.id == prev.id
                    &&& cur.coord == prev.coord
                    &&& k != id ==> cur == prev
                    &&& k == id ==> cur.uses == sat16(
                        prev.uses + (if extremity {
                            2int
                        } else {
                            1int
                        }),
                    )
                },
    {
        proof {
            reveal(NodeStore::as_map);
        }
        let amount: i16 = if extremity {
            2
        } else {
            1
        };
        if let Some(i) = self.index.get(&id) {
            let ix = *i;
            let cur = self.items[ix].uses;
            let bumped = match cur.checked_add(amount) {
                Some(v) => v,
                None => i16::MAX,
            };
            self.items[ix].uses = bumped;
            proof {
                assert forall|k: i64| #[trigger]
                    self.index@.contains_key(k) implies self.index@[k] < self.items@.len()
                    && self.items@[self.index@[k] as int].id == k by {
                    assert(old(self).items@[old(self).index@[k] as int].id == k);
                }
                assert(self.as_map().dom() =~= old(self).as_map().dom());
            }
        } else {
            proof {
                assert(false);
            }
        }
    }

    /// Zeroes the usage count of a stored node, taking it out of the
    /// retained output set.
    pub(crate) fn clear_uses(&mut self, id: i64)
        requires
            old(self).wf(),
            old(self).as_map().contains_key(id),
        ensures
            final(self).wf(),
            final(self).seq().len() == old(self).seq().len(),
            forall|j: int|
                0 <= j < old(self).seq().len() ==> {
                    let prev = old(self).seq()[j];
                    let cur = #[trigger] final(self).seq()[j];
                    &&& cur.id == prev.id
                    &&& cur.coord == prev.coord
                    &&& prev.id != id ==> cur == prev
                    &&& prev.id == id ==> cur.uses == 0
                },
            final(self).as_map().dom() =~= old(self).as_map().dom(),
            forall|k: i64|
                #[trigger] old(self).as_map().contains_key(k) ==> {
                    let prev = old(self).as_map()[k];
                    let cur = final(self).as_map()[k];
                    &&& cur.id == prev.id
                    &&& cur.coord == prev.coord
                    &&& k != id ==> cur == prev
                    &&& k == id ==> cur.uses == 0
                },
    {
        proof {
            reveal(NodeStore::as_map);
        }
        if let Some(i) = self.index.get(&id) {
            let ix = *i;
            self.items[ix].uses = 0;
            proof {
                assert forall|k: i64| #[trigger]
                    self.index@.contains_key(k) implies self.index@[k] < self.items@.len()
                    && self.items@[self.index@[k] as int].id == k by {
                    assert(old(self).items@[old(self).index@[k] as int].id == k);
                }
                assert(self.as_map().dom() =~= old(self).as_map().dom());
            }
        } else {
            proof {
                assert(false);
            }
        }
    }

}

/// Saturation of a usage count at the top of the `i16` range.
pub open spec fn sat16(x: int) -> int {
    if x > i16::MAX {
        i16::MAX as int
    } else {
        x
    }
}

/// The weight a node occurrence contributes to its usage count: way
/// extremities count double, so that dead-ends survive pruning.
pub open spec fn occurrence_weight(len: int, i: int) -> int {
    if i == 0 || i == len - 1 {
        2
    } else {
        1
    }
}

/// What the first `upto` positions of one way's node list contribute to the
/// usage count of node `id`.
pub open spec fn way_uses_upto(ns: Seq<i64>, upto: int, id: i64) -> int
    decreases upto,
{
    if upto <= 0 {
        0
    } else {
        way_uses_upto(ns, upto - 1, id) + (if ns[upto - 1] == id {
            occurrence_weight(ns.len() as int, upto - 1)
        } else {
            0
        })
    }
}

/// What one way contributes to the usage count of node `id`.
pub open spec fn way_uses(ns: Seq<i64>, id: i64) -> int {
    way_uses_upto(ns, ns.len() as int, id)
}

/// What the first `upto` ways contribute to the usage count of node `id`.
pub open spec fn ways_uses_upto(ways: Seq<Way>, upto: int, id: i64) -> int
    decreases upto,
{
    if upto <= 0 {
        0
    } else {
        ways_uses_upto(ways, upto - 1, id) + way_uses(ways[upto - 1].nodes@, id)
    }
}

/// What all retained ways contribute to the usage count of node `id`.
pub open spec fn ways_uses(ways: Seq<Way>, id: i64) -> int {
    ways_uses_upto(ways, ways.len() as int, id)
}

/// The staging structure of graph construction.  A caller configures it,
/// feeds it ways and node coordinates as plain values, and builds the graph.
pub struct Reader {
    pub(crate) nodes: NodeStore,
    pub(crate) ways: Vec<Way>,
    pub(crate) nodes_to_keep: HashSet<i64>,
    pub(crate) forbidden_tags: Vec<Tag>,
    pub(crate) required_tags: Vec<Tag>,
    pub(crate) tags_to_read: Vec<String>,
    pub(crate) should_merge_ways: bool,
}

impl Reader {
    /// The internal node table is sound.
    pub open(crate) spec fn wf(self) -> bool {
        self.nodes.wf()
    }

    /// The ingested nodes, keyed by identifier.
    pub open(crate) spec fn node_map(self) -> Map<i64, Node> {
        self.nodes.as_map()
    }

    /// The ingested nodes in ingestion order.
    pub open(crate) spec fn node_seq(self) -> Seq<Node> {
        self.nodes.seq()
    }

    /// The retained ways in ingestion order.
    pub open(crate) spec fn way_seq(self) -> Seq<Way> {
        self.ways@
    }

    /// The identifiers of nodes still awaited by the second ingestion pass.
    pub open(crate) spec fn keep_set(self) -> Set<i64> {
        self.nodes_to_keep@
    }

    /// The configured `reject` rules.
    pub open(crate) spec fn forbidden_seq(self) -> Seq<Tag> {
        self.forbidden_tags@
    }

    /// The configured `require` rules.
    pub open(crate) spec fn required_seq(self) -> Seq<Tag> {
        self.required_tags@
    }

    /// The configured tag keys to keep on edges.
    pub open(crate) spec fn read_keys(self) -> Seq<String> {
        self.tags_to_read@
    }

    /// Whether the edge merger runs after splitting.
    pub open(crate) spec fn merge_enabled(self) -> bool {
        self.should_merge_ways
    }

    /// The node table, ordered, agrees with the node map.
    pub proof fn lemma_nodes_agree(self)
        requires
            self.wf(),
        ensures
            forall|i: int|
                0 <= i < self.node_seq().len() ==> self.node_map().contains_key(
                    #[trigger] self.node_seq()[i].id,
                ) && self.node_map()[self.node_seq()[i].id] == self.node_seq()[i],
            forall|k: i64| #[trigger]
                self.node_map().contains_key(k) ==> exists|i: int|
                    0 <= i < self.node_seq().len() && #[trigger] self.node_seq()[i].id == k,
    {
        self.nodes.lemma_seq_map();
        assert forall|k: i64| #[trigger] self.node_map().contains_key(k) implies exists|i: int|
            0 <= i < self.node_seq().len() && #[trigger] self.node_seq()[i].id == k by {
            let i = choose|i: int|
                0 <= i < self.nodes.seq().len() && #[trigger] self.nodes.seq()[i].id == k;
            assert(0 <= i < self.node_seq().len() && self.node_seq()[i].id == k);
        }
    }

    /// A fresh reader: nothing configured, nothing ingested.
    pub fn new() -> (r: Reader)
        ensures
            r.wf(),
            r.node_map() =~= Map::<i64, Node>::empty(),
            r.node_seq() =~= Seq::<Node>::empty(),
            r.way_seq() =~= Seq::<Way>::empty(),
            r.keep_set() =~= Set::<i64>::empty(),
            r.forbidden_seq() =~= Seq::<Tag>::empty(),
            r.required_seq() =~= Seq::<Tag>::empty(),
            r.read_keys() =~= Seq::<String>::empty(),
            !r.merge_enabled(),
    {
        Reader {
            nodes: NodeStore::new(),
            ways: Vec::new(),
            nodes_to_keep: HashSet::new(),
            forbidden_tags: Vec::new(),
            required_tags: Vec::new(),
            tags_to_read: Vec::new(),
            should_merge_ways: false,
        }
    }

    /// Drops every way carrying this tag; the value `*` is a wildcard.
    pub fn reject(self, key: &str, value: &str) -> (r: Reader)
        ensures
            r.forbidden_seq().len() == self.forbidden_seq().len() + 1,
            r.forbidden_seq() == self.forbidden_seq().push(r.forbidden_seq().last()),
            r.forbidden_seq().last().key@ == key@,
            r.forbidden_seq().last().value@ == value@,
            r.wf() == self.wf(),
            r.node_map() == self.node_map(),
            r.node_seq() == self.node_seq(),
            r.way_seq() == self.way_seq(),
            r.keep_set() == self.keep_set(),
            r.required_seq() == self.required_seq(),
            r.read_keys() == self.read_keys(),
            r.merge_enabled() == self.merge_enabled(),
    {
        let mut r = self;
        r.forbidden_tags.push(Tag { key: key.to_owned(), value: value.to_owned() });
        proof {
            assert(r.forbidden_tags@ =~= self.forbidden_tags@.push(r.forbidden_tags@.last()));
        }
        r
    }

    /// Drops every way lacking a matching tag; several calls for one key
    /// accept any of the values, and the value `*` is a wildcard.
    pub fn require(self, key: &str, value: &str) -> (r: Reader)
        ensures
            r.required_seq().len() == self.required_seq().len() + 1,
            r.required_seq() == self.required_seq().push(r.required_seq().last()),
            r.required_seq().last().key@ == key@,
            r.required_seq().last().value@ == value@,
            r.wf() == self.wf(),
            r.node_map() == self.node_map(),
            r.node_seq() == self.node_seq(),
            r.way_seq() == self.way_seq(),
            r.keep_set() == self.keep_set(),
            r.forbidden_seq() == self.forbidden_seq(),
            r.read_keys() == self.read_keys(),
            r.merge_enabled() == self.merge_enabled(),
    {
        let mut r = self;
        r.required_tags.push(Tag { key: key.to_owned(), value: value.to_owned() });
        proof {
            assert(r.required_tags@ =~= self.required_tags@.push(r.required_tags@.last()));
        }
        r
    }

    /// Keeps this tag on the edges split out of each way.
    pub fn read_tag(self, key: &str) -> (r: Reader)
        ensures
            r.read_keys().len() == self.read_keys().len() + 1,
            r.read_keys() == self.read_keys().push(r.read_keys().last()),
            r.read_keys().last()@ == key@,
            r.wf() == self.wf(),
            r.node_map() == self.node_map(),
            r.node_seq() == self.node_seq(),
            r.way_seq() == self.way_seq(),
            r.keep_set() == self.keep_set(),
            r.forbidden_seq() == self.forbidden_seq(),
            r.required_seq() == self.required_seq(),
            r.merge_enabled() == self.merge_enabled(),
    {
        let mut r = self;
        r.tags_to_read.push(key.to_owned());
        proof {
            assert(r.tags_to_read@ =~= self.tags_to_read@.push(r.tags_to_read@.last()));
        }
        r
    }

    /// Enables the edge merger.
    pub fn merge_ways(self) -> (r: Reader)
        ensures
            r.merge_enabled(),
            r.wf() == self.wf(),
            r.node_map() == self.node_map(),
            r.node_seq() == self.node_seq(),
            r.way_seq() == self.way_seq(),
            r.keep_set() == self.keep_set(),
            r.forbidden_seq() == self.forbidden_seq(),
            r.required_seq() == self.required_seq(),
            r.read_keys() == self.read_keys(),
    {
        let mut r = self;
        r.should_merge_ways = true;
        r
    }

    /// Appends a way unconditionally, bypassing categorization and filters:
    /// the primitive under `process_way`, also the entry point of ingestion
    /// paths whose data was categorized beforehand.
    pub fn push_way(&mut self, id: i64, nodes: Vec<i64>, properties: EdgeProperties, tags: Vec<Tag>)
        ensures
            final(self).way_seq().len() == old(self).way_seq().len() + 1,
            final(self).way_seq() == old(self).way_seq().push(final(self).way_seq().last()),
            final(self).way_seq().last().id == id,
            final(self).way_seq().last().nodes@ == nodes@,
            final(self).way_seq().last().properties == properties,
            final(self).way_seq().last().tags@ == tags@,
            final(self).wf() == old(self).wf(),
            final(self).node_map() == old(self).node_map(),
            final(self).node_seq() == old(self).node_seq(),
            final(self).keep_set() == old(self).keep_set(),
            final(self).forbidden_seq() == old(self).forbidden_seq(),
            final(self).required_seq() == old(self).required_seq(),
            final(self).read_keys() == old(self).read_keys(),
            final(self).merge_enabled() == old(self).merge_enabled(),
    {
        self.ways.push(Way { id, nodes, properties, tags });
        proof {
            assert(self.ways@ =~= old(self).ways@.push(self.ways@.last()));
        }
    }

    /// Stores a node unconditionally if its identifier is new, and takes the
    /// identifier off the awaited set: the primitive under `process_node`.
    pub fn push_node(&mut self, node: Node)
        requires
            old(self).wf(),
        ensures
            final(self).wf(),
            final(self).keep_set() == old(self).keep_set().remove(node.id),
            !old(self).node_map().contains_key(node.id) ==> {
                &&& final(self).node_map() == old(self).node_map().insert(node.id, node)
                &&& final(self).node_seq() == old(self).node_seq().push(node)
            },
            old(self).node_map().contains_key(node.id) ==> {
                &&& final(self).node_map() == old(self).node_map()
                &&& final(self).node_seq() == old(self).node_seq()
            },
            final(self).way_seq() == old(self).way_seq(),
            final(self).forbidden_seq() == old(self).forbidden_seq(),
            final(self).required_seq() == old(self).required_seq(),
            final(self).read_keys() == old(self).read_keys(),
            final(self).merge_enabled() == old(self).merge_enabled(),
    {
        self.nodes_to_keep.remove(&node.id);
        if !self.nodes.contains(node.id) {
            self.nodes.insert(node);
            proof {
                assert(self.nodes.as_map() =~= old(self).nodes.as_map().insert(node.id, node));
            }
        }
    }

    /// The second ingestion pass, one node record at a time: a node is
    /// materialized with zero uses exactly when a retained way awaits it.
    pub fn process_node(&mut self, id: i64, coord: Coord)
        requires
            old(self).wf(),
        ensures
            final(self).wf(),
            old(self).keep_set().contains(id) ==> {
                &&& final(self).keep_set() == old(self).keep_set().remove(id)
                &&& (!old(self).node_map().contains_key(id) ==> {
                    &&& final(self).node_map() == old(self).node_map().insert(
                        id,
                        Node { id, coord, uses: 0 },
                    )
                    &&& final(self).node_seq() == old(self).node_seq().push(
                        Node { id, coord, uses: 0 },
                    )
                })
                &&& (old(self).node_map().contains_key(id) ==> {
                    &&& final(self).node_map() == old(self).node_map()
                    &&& final(self).node_seq() == old(self).node_seq()
                })
            },
            !old(self).keep_set().contains(id) ==> {
                &&& final(self).keep_set() == old(self).keep_set()
                &&& final(self).node_map() == old(self).node_map()
                &&& final(self).node_seq() == old(self).node_seq()
            },
            final(self).way_seq() == old(self).way_seq(),
            final(self).forbidden_seq() == old(self).forbidden_seq(),
            final(self).required_seq() == old(self).required_seq(),
            final(self).read_keys() == old(self).read_keys(),
            final(self).merge_enabled() == old(self).merge_enabled(),
    {
        if self.nodes_to_keep.contains(&id) {
            self.push_node(Node { id, coord, uses: 0 });
        } else {
            proof {
                assert(final(self).keep_set() =~= old(self).keep_set());
            }
        }
    }

    /// The stored node with this identifier, if any.
    pub fn get_node(&self, id: i64) -> (r: Option<Node>)
        requires
            self.wf(),
        ensures
            (match r {
                Some(n) => self.node_map().contains_key(id) && n == self.node_map()[id],
                None => !self.node_map().contains_key(id),
            }),
    {
        self.nodes.get(id)
    }

    /// The retained nodes of the graph: exactly those used more than once,
    /// in ingestion order.  Every returned node has at least two uses.
    pub fn nodes(&self) -> (r: Vec<Node>)
        requires
            self.wf(),
        ensures
            r@ == self.node_seq().filter(|n: Node| n.uses > 1),
            forall|i: int| 0 <= i < r@.len() ==> #[trigger] r@[i].uses >= 2,
            forall|i: int|
                0 <= i < r@.len() ==> self.node_map().contains_key(#[trigger] r@[i].id)
                    && self.node_map()[r@[i].id] == r@[i],
    {
        let mut out: Vec<Node> = Vec::new();
        let n = self.nodes.len();
        let mut i: usize = 0;
        while i < n
            invariant
                i <= n,
                n == self.node_seq().len(),
                out@ == self.node_seq().subrange(0, i as int).filter(|n: Node| n.uses > 1),
            decreases n - i,
        {
            let node = self.nodes.items[i];
            proof {
                reveal(Seq::filter);
                assert(self.node_seq().subrange(0, i as int + 1).drop_last() =~= self.node_seq()
                    .subrange(0, i as int));
                assert(self.node_seq().subrange(0, i as int + 1).last() == node);
            }
            if node.uses > 1 {
                out.push(node);
            }
            i = i + 1;
        }
        proof {
            assert(self.node_seq().subrange(0, n as int) =~= self.node_seq());
            let res = self.node_seq().filter(|n: Node| n.uses > 1);
            assert forall|j: int| 0 <= j < res.len() implies #[trigger] res[j].uses >= 2 by {
                self.node_seq().lemma_filter_pred(|n: Node| n.uses > 1, j);
            }
            self.lemma_nodes_agree();
            assert forall|j: int| 0 <= j < res.len() implies self.node_map().contains_key(
                #[trigger] res[j].id,
            ) && self.node_map()[res[j].id] == res[j] by {
                lemma_filter_element_of(self.node_seq(), |n: Node| n.uses > 1, j);
                let w = choose|w: int|
                    0 <= w < self.node_seq().len() && self.node_seq()[w] == res[j];
                assert(self.node_map().contains_key(self.node_seq()[w].id));
            }
        }
        out
    }
    /// Counts, for every stored node, how many ways use it, extremities
    /// twice.  Rather than overflow, the count saturates at the top of the
    /// `i16` range; every threshold the pipeline reads (more than one use,
    /// exactly four uses) lies far below that, so saturation never changes
    /// an outcome.  Fails with the offending identifier when a retained
    /// way references a node that was never ingested.
    pub fn count_nodes_uses(&mut self) -> (r: Result<(), GraphError>)
        requires
            old(self).wf(),
        ensures
            final(self).wf(),
            final(self).way_seq() == old(self).way_seq(),
            final(self).keep_set() == old(self).keep_set(),
            final(self).forbidden_seq() == old(self).forbidden_seq(),
            final(self).required_seq() == old(self).required_seq(),
            final(self).read_keys() == old(self).read_keys(),
            final(self).merge_enabled() == old(self).merge_enabled(),
            final(self).node_seq().len() == old(self).node_seq().len(),
            final(self).node_map().dom() =~= old(self).node_map().dom(),
            forall|t: int|
                0 <= t < old(self).node_seq().len() ==> {
                    let cur = #[trigger] final(self).node_seq()[t];
                    let prev = old(self).node_seq()[t];
                    cur.id == prev.id && cur.coord == prev.coord
                },
            forall|k: i64|
                #[trigger] old(self).node_map().contains_key(k) ==> final(self).node_map()[k].id
                    == old(self).node_map()[k].id && final(self).node_map()[k].coord == old(
                    self,
                ).node_map()[k].coord,
            r is Ok ==> forall|t: int|
                0 <= t < old(self).node_seq().len() ==> {
                    let cur = #[trigger] final(self).node_seq()[t];
                    let prev = old(self).node_seq()[t];
                    cur.uses == sat16(prev.uses + ways_uses(old(self).way_seq(), prev.id))
                },
            r is Ok ==> forall|k: i64|
                #[trigger] old(self).node_map().contains_key(k) ==> final(self).node_map()[k].uses
                    == sat16(old(self).node_map()[k].uses + ways_uses(old(self).way_seq(), k)),
            r is Ok ==> forall|w: int, i: int|
                0 <= w < old(self).way_seq().len() && 0 <= i < old(
                    self,
                ).way_seq()[w].nodes@.len() ==> old(self).node_map().contains_key(
                    #[trigger] old(self).way_seq()[w].nodes@[i],
                ),
            (match r {
                Ok(()) => true,
                Err(GraphError::MissingNode(id)) => !old(self).node_map().contains_key(id)
                    && exists|w: int, i: int|
                    0 <= w < old(self).way_seq().len() && 0 <= i < old(
                        self,
                    ).way_seq()[w].nodes@.len() && #[trigger] old(self).way_seq()[w].nodes@[i]
                        == id,
            }),
    {
        let way_count = self.ways.len();
        let mut w: usize = 0;
        while w < way_count
            invariant
                self.wf(),
                way_count == self.ways@.len(),
                w <= way_count,
                self.ways@ == old(self).ways@,
                self.nodes_to_keep@ == old(self).nodes_to_keep@,
                self.forbidden_tags@ == old(self).forbidden_tags@,
                self.required_tags@ == old(self).required_tags@,
                self.tags_to_read@ == old(self).tags_to_read@,
                self.should_merge_ways == old(self).should_merge_ways,
                self.node_seq().len() == old(self).node_seq().len(),
                self.node_map().dom() =~= old(self).node_map().dom(),
                forall|t: int|
                    0 <= t < old(self).node_seq().len() ==> {
                        let cur = #[trigger] self.node_seq()[t];
                        let prev = old(self).node_seq()[t];
                        cur.id == prev.id && cur.coord == prev.coord && cur.uses == sat16(
                            prev.uses + ways_uses_upto(old(self).way_seq(), w as int, prev.id),
                        )
                    },
                forall|k: i64|
                    #[trigger] old(self).node_map().contains_key(k) ==> self.node_map()[k].id
                        == old(self).node_map()[k].id && self.node_map()[k].coord == old(
                        self,
                    ).node_map()[k].coord && self.node_map()[k].uses == sat16(
                        old(self).node_map()[k].uses + ways_uses_upto(
                            old(self).way_seq(),
                            w as int,
                            k,
                        ),
                    ),
                forall|w2: int, i: int|
                    0 <= w2 < w && 0 <= i < old(self).way_seq()[w2].nodes@.len() ==> old(
                        self,
                    ).node_map().contains_key(#[trigger] old(self).way_seq()[w2].nodes@[i]),
            decreases way_count - w,
        {
            let node_count = self.ways[w].nodes.len();
            let ghost ns = self.ways@[w as int].nodes@;
            let mut i: usize = 0;
            while i < node_count
                invariant
                    self.wf(),
                    way_count == self.ways@.len(),
                    w < way_count,
                    node_count == ns.len(),
                    i <= node_count,
                    ns == self.ways@[w as int].nodes@,
                    self.ways@ == old(self).ways@,
                    self.nodes_to_keep@ == old(self).nodes_to_keep@,
                    self.forbidden_tags@ == old(self).forbidden_tags@,
                    self.required_tags@ == old(self).required_tags@,
                    self.tags_to_read@ == old(self).tags_to_read@,
                    self.should_merge_ways == old(self).should_merge_ways,
                    self.node_seq().len() == old(self).node_seq().len(),
                    self.node_map().dom() =~= old(self).node_map().dom(),
                    forall|t: int|
                        0 <= t < old(self).node_seq().len() ==> {
                            let cur = #[trigger] self.node_seq()[t];
                            let prev = old(self).node_seq()[t];
                            cur.id == prev.id && cur.coord == prev.coord && cur.uses == sat16(
                                prev.uses + ways_uses_upto(old(self).way_seq(), w as int, prev.id)
                                    + way_uses_upto(ns, i as int, prev.id),
                            )
                        },
                    forall|k: i64|
                        #[trigger] old(self).node_map().contains_key(k) ==> self.node_map()[k].id
                            == old(self).node_map()[k].id && self.node_map()[k].coord == old(
                            self,
                        ).node_map()[k].coord && self.node_map()[k].uses == sat16(
                            old(self).node_map()[k].uses + ways_uses_upto(
                                old(self).way_seq(),
                                w as int,
                                k,
                            ) + way_uses_upto(ns, i as int, k),
                        ),
                    forall|w2: int, i2: int|
                        0 <= w2 < w && 0 <= i2 < old(self).way_seq()[w2].nodes@.len() ==> old(
                            self,
                        ).node_map().contains_key(#[trigger] old(self).way_seq()[w2].nodes@[i2]),
                    forall|i2: int|
                        0 <= i2 < i ==> old(self).node_map().contains_key(#[trigger] ns[i2]),
                decreases node_count - i,
            {
                let id = self.ways[w].nodes[i];
                if !self.nodes.contains(id) {
                    return Err(GraphError::MissingNode(id));
                }
                let extremity = i == 0 || i == node_count - 1;
                self.nodes.add_uses(id, extremity);
                i = i + 1;
            }
            proof {
                assert forall|t: int| 0 <= t < old(self).node_seq().len() implies {
                    let cur = #[trigger] self.node_seq()[t];
                    let prev = old(self).node_seq()[t];
                    cur.uses == sat16(
                        prev.uses + ways_uses_upto(old(self).way_seq(), w as int + 1, prev.id),
                    )
                } by {
                    let prev = old(self).node_seq()[t];
                    assert(way_uses_upto(ns, node_count as int, prev.id) == way_uses(ns, prev.id));
                }
                assert forall|k: i64| #[trigger]
                    old(self).node_map().contains_key(k) implies self.node_map()[k].uses == sat16(
                    old(self).node_map()[k].uses + ways_uses_upto(
                        old(self).way_seq(),
                        w as int + 1,
                        k,
                    ),
                ) by {
                    assert(way_uses_upto(ns, node_count as int, k) == way_uses(ns, k));
                }
            }
            w = w + 1;
        }
        Ok(())
    }

    /// The stored node with this identifier, which must exist.
    pub(crate) fn node_at(&self, id: i64) -> (r: Node)
        requires
            self.wf(),
            self.node_map().contains_key(id),
        ensures
            r == self.node_map()[id],
    {
        match self.nodes.get(id) {
            Some(n) => n,
            None => {
                proof {
                    assert(false);
                }
                Node::new()
            },
        }
    }

    /// Splits one way into edges: a cut falls on every interior node used
    /// by more than one way, and on the way's last node.  Edge `k` gets the
    /// identifier `"{way id}-{k}"`; a way of fewer than two nodes yields
    /// nothing.
    #[verifier::rlimit(100)]
    fn split_way(&self, way: &Way) -> (r: Vec<Edge>)
        requires
            self.wf(),
            forall|i: int|
                0 <= i < way.nodes@.len() ==> self.node_map().contains_key(
                    #[trigger] way.nodes@[i],
                ),
        ensures
            way.nodes@.len() < 2 ==> r@.len() == 0,
            way.nodes@.len() >= 2 ==> r@.len() >= 1,
            r@.len() == way_edge_count(*way, self.node_map()),
            forall|k: int| 0 <= k < r@.len() ==> (#[trigger] r@[k]).wf(),
            forall|k: int|
                0 <= k < r@.len() ==> (#[trigger] r@[k]).osm_id == way.id && r@[k].properties
                    == way.properties && r@[k].tags@ == way.tags@ && r@[k].id@
                    == crate::text::edge_id_seq(way.id as int, k),
            forall|k: int|
                0 <= k < r@.len() ==> edge_geometry_matches(#[trigger] r@[k], self.node_map())
                    && edge_interior_private(r@[k], self.node_map()),
            split_shape(*way, self.node_map(), r@),
    {
        let mut result: Vec<Edge> = Vec::new();
        let n = way.nodes.len();
        if n == 0 {
            proof {
                assert(split_shape(*way, self.node_map(), result@)) by {
                    reveal(split_shape);
                }
            }
            return result;
        }
        let mut source = way.nodes[0];
        let first = self.node_at(source);
        let mut seg_nodes: Vec<i64> = Vec::new();
        let mut seg_geom: Vec<Coord> = Vec::new();
        seg_nodes.push(source);
        seg_geom.push(first.coord);
        let ghost mut start: int = 0;
        let mut i: usize = 1;
        while i < n
            invariant
                self.wf(),
                n == way.nodes@.len(),
                1 <= i <= n,
                0 <= start < i,
                forall|t: int|
                    0 <= t < way.nodes@.len() ==> self.node_map().contains_key(
                        #[trigger] way.nodes@[t],
                    ),
                source == way.nodes@[start],
                seg_nodes@ == way.nodes@.subrange(start, i as int),
                seg_geom@.len() == seg_nodes@.len(),
                forall|t: int|
                    0 <= t < seg_nodes@.len() ==> self.node_map().contains_key(
                        #[trigger] seg_nodes@[t],
                    ) && seg_geom@[t] == self.node_map()[seg_nodes@[t]].coord,
                forall|t: int| start < t < i ==> self.node_map()[#[trigger] way.nodes@[t]].uses <= 1,
                i as int == n ==> n < 2 || start == n as int - 1,
                i as int <= 1 ==> result@.len() == 0 && start == 0,
                result@.len() == cut_count_upto(way.nodes@, self.node_map(), i as int),
                start == 0 || result@.len() > 0,
                forall|k: int| 0 <= k < result@.len() ==> (#[trigger] result@[k]).wf(),
                forall|k: int|
                    0 <= k < result@.len() ==> (#[trigger] result@[k]).osm_id == way.id
                        && result@[k].properties == way.properties && result@[k].tags@ == way.tags@
                        && result@[k].id@ == crate::text::edge_id_seq(way.id as int, k),
                forall|k: int|
                    0 <= k < result@.len() ==> edge_geometry_matches(
                        #[trigger] result@[k],
                        self.node_map(),
                    ) && edge_interior_private(result@[k], self.node_map()),
                forall|k: int|
                    0 <= k < result@.len() ==> self.node_map()[(
                    #[trigger] result@[k]).target].uses > 1 || (i as int == n && k == result@.len()
                        - 1),
                forall|k: int|
                    0 <= k < result@.len() - 1 ==> (#[trigger] result@[k]).target == result@[k
                        + 1].source,
                result@.len() > 0 ==> result@[0].source == way.nodes@[0],
                result@.len() > 0 ==> result@[result@.len() - 1].target == way.nodes@[start],
                result@.len() > 0 ==> nodes_chain(result@) == way.nodes@.subrange(0, start + 1),
            decreases n - i,
        {
            let nid = way.nodes[i];
            let nd = self.node_at(nid);
            seg_nodes.push(nid);
            seg_geom.push(nd.coord);
            proof {
                assert(seg_nodes@ =~= way.nodes@.subrange(start, i as int + 1));
            }
            if nd.uses > 1 || i == n - 1 {
                let e = Edge {
                    id: crate::text::edge_id_string(way.id, result.len()),
                    osm_id: way.id,
                    source,
                    target: nid,
                    geometry: seg_geom,
                    properties: way.properties,
                    nodes: seg_nodes,
                    tags: crate::models::tags_dup(&way.tags),
                };
                proof {
                    assert(e.nodes@.len() >= 2);
                    assert(e.nodes@[0] == source);
                    assert(e.nodes@.last() == nid);
                    assert(e.wf());
                    assert(edge_geometry_matches(e, self.node_map()));
                    assert(edge_interior_private(e, self.node_map())) by {
                        assert forall|t: int| 0 < t < e.nodes@.len() - 1 implies self.node_map()[(
                        #[trigger] e.nodes@[t])].uses <= 1 by {
                            assert(e.nodes@[t] == way.nodes@[start + t]);
                        }
                    }
                    lemma_chain_push(result@, e, way.nodes@, start, i as int + 1);
                }
                result.push(e);
                source = nid;
                seg_nodes = Vec::new();
                seg_geom = Vec::new();
                seg_nodes.push(nid);
                seg_geom.push(nd.coord);
                proof {
                    start = i as int;
                    assert(seg_nodes@ =~= way.nodes@.subrange(start, i as int + 1));
                }
            }
            i = i + 1;
        }
        proof {
            if n >= 2 {
                assert(start == n - 1);
                assert(result@.len() > 0);
                assert(nodes_chain(result@) == way.nodes@.subrange(0, n as int));
                assert(way.nodes@.subrange(0, n as int) =~= way.nodes@);
            }
            assert(split_shape(*way, self.node_map(), result@)) by {
                reveal(split_shape);
            }
        }
        result
    }

    /// Splits way `w` and appends its edges to the running list, keeping
    /// every accumulated guarantee of `edges`.
    #[verifier::rlimit(100)]
    fn append_way_edges(&self, result: &mut Vec<Edge>, w: usize)
        requires
            self.wf(),
            w < self.way_seq().len(),
            forall|w2: int, i: int|
                0 <= w2 < self.way_seq().len() && 0 <= i < self.way_seq()[w2].nodes@.len()
                    ==> self.node_map().contains_key(#[trigger] self.way_seq()[w2].nodes@[i]),
            old(result)@.len() == block_start(self.way_seq(), self.node_map(), w as int),
            forall|k: int| 0 <= k < old(result)@.len() ==> (#[trigger] old(result)@[k]).wf(),
            forall|k: int|
                0 <= k < old(result)@.len() ==> edge_geometry_matches(
                    #[trigger] old(result)@[k],
                    self.node_map(),
                ) && edge_interior_private(old(result)@[k], self.node_map()),
            forall|k: int|
                0 <= k < old(result)@.len() ==> edge_from(
                    #[trigger] old(result)@[k],
                    self.way_seq(),
                    w as int,
                ),
            forall|w2: int|
                0 <= w2 < w ==> #[trigger] way_block(
                    self.way_seq(),
                    self.node_map(),
                    old(result)@,
                    w2,
                ),
            distinct_way_ids(self.way_seq()) ==> distinct_edge_ids(old(result)@),
        ensures
            final(result)@.len() == block_start(self.way_seq(), self.node_map(), w as int + 1),
            forall|k: int| 0 <= k < final(result)@.len() ==> (#[trigger] final(result)@[k]).wf(),
            forall|k: int|
                0 <= k < final(result)@.len() ==> edge_geometry_matches(
                    #[trigger] final(result)@[k],
                    self.node_map(),
                ) && edge_interior_private(final(result)@[k], self.node_map()),
            forall|k: int|
                0 <= k < final(result)@.len() ==> edge_from(
                    #[trigger] final(result)@[k],
                    self.way_seq(),
                    w as int + 1,
                ),
            forall|w2: int|
                0 <= w2 < w as int + 1 ==> #[trigger] way_block(
                    self.way_seq(),
                    self.node_map(),
                    final(result)@,
                    w2,
                ),
            distinct_way_ids(self.way_seq()) ==> distinct_edge_ids(final(result)@),
    {
        let mut part = self.split_way(&self.ways[w]);
        let ghost part0 = part@;
        let ghost res0 = result@;
        result.append(&mut part);
        proof {
            assert(part0.len() > 0 ==> part0[0].source == self.way_seq()[w as int].nodes@[0]) by {
                reveal(split_shape);
            }
            lemma_edges_append(self.way_seq(), self.node_map(), w as int, res0, part0, result@);
        }
    }

    /// Splits every retained way into edges, in way order.  Every edge is
    /// structurally sound and walks coordinates of stored nodes; when no
    /// two ways share an identifier, no two edges do either.
    #[verifier::rlimit(100)]
    pub fn edges(&self) -> (r: Vec<Edge>)
        requires
            self.wf(),
            forall|w: int, i: int|
                0 <= w < self.way_seq().len() && 0 <= i < self.way_seq()[w].nodes@.len()
                    ==> self.node_map().contains_key(#[trigger] self.way_seq()[w].nodes@[i]),
        ensures
            forall|k: int| 0 <= k < r@.len() ==> (#[trigger] r@[k]).wf(),
            forall|k: int|
                0 <= k < r@.len() ==> edge_geometry_matches(#[trigger] r@[k], self.node_map())
                    && edge_interior_private(r@[k], self.node_map()),
            forall|k: int|
                0 <= k < r@.len() ==> edge_from(
                    #[trigger] r@[k],
                    self.way_seq(),
                    self.way_seq().len() as int,
                ),
            r@.len() == block_start(self.way_seq(), self.node_map(), self.way_seq().len() as int),
            forall|w: int|
                0 <= w < self.way_seq().len() ==> #[trigger] way_block(
                    self.way_seq(),
                    self.node_map(),
                    r@,
                    w,
                ),
            forall|w: int|
                #![trigger self.way_seq()[w]]
                0 <= w < self.way_seq().len() && self.way_seq()[w].nodes@.len() >= 2
                    ==> exists|k: int|
                    0 <= k < r@.len() && (#[trigger] r@[k]).osm_id == self.way_seq()[w].id
                        && r@[k].source == self.way_seq()[w].nodes@[0] && r@[k].id@
                        == crate::text::edge_id_seq(self.way_seq()[w].id as int, 0),
            distinct_way_ids(self.way_seq()) ==> distinct_edge_ids(r@),
    {
        let mut result: Vec<Edge> = Vec::new();
        let wn = self.ways.len();
        proof {
            reveal(edge_from);
            reveal(distinct_edge_ids);
        }
        let mut w: usize = 0;
        while w < wn
            invariant
                self.wf(),
                wn == self.way_seq().len(),
                w <= wn,
                forall|w2: int, i: int|
                    0 <= w2 < self.way_seq().len() && 0 <= i < self.way_seq()[w2].nodes@.len()
                        ==> self.node_map().contains_key(#[trigger] self.way_seq()[w2].nodes@[i]),
                forall|k: int| 0 <= k < result@.len() ==> (#[trigger] result@[k]).wf(),
                forall|k: int|
                    0 <= k < result@.len() ==> edge_geometry_matches(
                        #[trigger] result@[k],
                        self.node_map(),
                    ) && edge_interior_private(result@[k], self.node_map()),
                forall|k: int|
                    0 <= k < result@.len() ==> edge_from(
                        #[trigger] result@[k],
                        self.way_seq(),
                        w as int,
                    ),
                result@.len() == block_start(self.way_seq(), self.node_map(), w as int),
                forall|w2: int|
                    0 <= w2 < w ==> #[trigger] way_block(
                        self.way_seq(),
                        self.node_map(),
                        result@,
                        w2,
                    ),
                distinct_way_ids(self.way_seq()) ==> distinct_edge_ids(result@),
            decreases wn - w,
        {
            self.append_way_edges(&mut result, w);
            w = w + 1;
        }
        proof {
            assert forall|w2: int|
                0 <= w2 < self.way_seq().len() && (#[trigger] self.way_seq()[w2]).nodes@.len()
                    >= 2 implies exists|k: int|
                0 <= k < result@.len() && (#[trigger] result@[k]).osm_id == self.way_seq()[w2].id
                    && result@[k].source == self.way_seq()[w2].nodes@[0] && result@[k].id@
                    == crate::text::edge_id_seq(self.way_seq()[w2].id as int, 0) by {
                let ways = self.way_seq();
                let m = self.node_map();
                lemma_cut_count_positive(ways[w2].nodes@, m);
                lemma_block_nonneg(ways, m, w2);
                lemma_block_start_bound(ways, m, w2, ways.len() as int);
                let k0 = block_start(ways, m, w2);
                assert(way_block(ways, m, result@, w2));
                assert(0 <= k0 < result@.len() && result@[k0 + 0].osm_id == ways[w2].id
                    && result@[k0 + 0].source == ways[w2].nodes@[0] && result@[k0 + 0].id@
                    == crate::text::edge_id_seq(ways[w2].id as int, 0));
            }
        }
        result
    }

    /// Builds the graph from what was ingested: counts node uses, splits
    /// every way at shared nodes, optionally merges collinear edges, and
    /// returns the retained nodes with the edges.  Fails exactly when a
    /// retained way references a node that was never ingested, naming it.
    #[verifier::rlimit(100)]
    pub fn build(&mut self) -> (r: Result<(Vec<Node>, Vec<Edge>), GraphError>)
        requires
            old(self).wf(),
        ensures
            final(self).wf(),
            final(self).way_seq() == old(self).way_seq(),
            (match r {
                Ok(pair) => build_ok(*old(self), *final(self), pair.0@, pair.1@),
                Err(GraphError::MissingNode(id)) => !old(self).node_map().contains_key(id)
                    && exists|w: int, i: int|
                    0 <= w < old(self).way_seq().len() && 0 <= i < old(
                        self,
                    ).way_seq()[w].nodes@.len() && #[trigger] old(self).way_seq()[w].nodes@[i]
                        == id,
            }),
    {
        match self.count_nodes_uses() {
            Err(e) => Err(e),
            Ok(()) => {
                let edge_list = self.edges();
                let ghost el = edge_list@;
                let ghost m_mid = self.node_map();
                let final_edges = if self.should_merge_ways {
                    proof {
                        assert forall|k: int| 0 <= k < edge_list@.len() implies self.node_map()
                            .contains_key((#[trigger] edge_list@[k]).source) && self.node_map()
                            .contains_key(edge_list@[k].target) by {
                            let e = edge_list@[k];
                            assert(edge_geometry_matches(e, self.node_map()));
                            assert(self.node_map().contains_key(e.nodes@[0]));
                            assert(self.node_map().contains_key(
                                e.nodes@[e.nodes@.len() - 1],
                            ));
                        }
                    }
                    self.do_merge_edges(edge_list)
                } else {
                    edge_list
                };
                proof {
                    if old(self).merge_enabled() {
                        let s2 = choose|s2: nat| #[trigger]
                            merger_run(el, m_mid, final_edges@, self.node_map(), s2);
                        assert(el.len() == block_start(
                            old(self).way_seq(),
                            m_mid,
                            old(self).way_seq().len() as int,
                        ));
                        assert forall|w: int|
                            0 <= w < old(self).way_seq().len() implies #[trigger] way_block(
                            old(self).way_seq(),
                            m_mid,
                            el,
                            w,
                        ) by {
                            assert(way_block(self.way_seq(), m_mid, el, w));
                        }
                        assert(merger_run(el, m_mid, final_edges@, self.node_map(), s2));
                    }
                    if !old(self).merge_enabled() {
                        assert(final_edges@.len() == block_start(
                            old(self).way_seq(),
                            self.node_map(),
                            old(self).way_seq().len() as int,
                        ));
                        assert forall|w: int|
                            0 <= w < old(self).way_seq().len() implies #[trigger] way_block(
                            old(self).way_seq(),
                            self.node_map(),
                            final_edges@,
                            w,
                        ) by {
                            assert(way_block(self.way_seq(), self.node_map(), el, w));
                        }
                        assert forall|w: int|
                            0 <= w < old(self).way_seq().len() && (#[trigger] old(
                                self,
                            ).way_seq()[w]).nodes@.len() >= 2 implies exists|k: int|
                            0 <= k < final_edges@.len() && (#[trigger] final_edges@[k]).osm_id
                                == old(self).way_seq()[w].id && final_edges@[k].source == old(
                                self,
                            ).way_seq()[w].nodes@[0] && final_edges@[k].id@
                                == crate::text::edge_id_seq(
                                old(self).way_seq()[w].id as int,
                                0,
                            ) by {
                            assert(self.way_seq()[w] == old(self).way_seq()[w]);
                            let k0 = choose|k0: int|
                                0 <= k0 < el.len() && (#[trigger] el[k0]).osm_id
                                    == self.way_seq()[w].id && el[k0].source
                                    == self.way_seq()[w].nodes@[0] && el[k0].id@
                                    == crate::text::edge_id_seq(self.way_seq()[w].id as int, 0);
                            assert(final_edges@[k0].osm_id == old(self).way_seq()[w].id);
                        }
                    }
                }
                let node_list = self.nodes();
                proof {
                    assert(build_ok(*old(self), *self, node_list@, final_edges@)) by {
                        reveal(build_ok);
                    }
                }
                Ok((node_list, final_edges))
            },
        }
    }

    /// Decides whether the configured filters drop a way with these tags.
    fn is_user_rejected(&self, tags: &Vec<Tag>) -> (r: bool)
        ensures
            r == spec_rejected(self.required_seq(), self.forbidden_seq(), tags@),
    {
        let meets_required = self.required_tags.len() == 0 || rules_match(
            &self.required_tags,
            tags,
        );
        let has_forbidden = rules_match(&self.forbidden_tags, tags);
        !meets_required || has_forbidden
    }

    /// Whether this key is one the caller asked to keep.
    fn key_read(&self, key: &str) -> (r: bool)
        ensures
            r == key_is_read(self.read_keys(), key@),
    {
        let n = self.tags_to_read.len();
        let mut i: usize = 0;
        while i < n
            invariant
                i <= n,
                n == self.tags_to_read@.len(),
                forall|i2: int| 0 <= i2 < i ==> #[trigger] self.tags_to_read@[i2]@ != key@,
            decreases n - i,
        {
            if crate::text::str_eq(self.tags_to_read[i].as_str(), key) {
                return true;
            }
            i = i + 1;
        }
        false
    }

    /// The first ingestion pass, one way record at a time.  The tags are
    /// categorized and the user filters applied; a retained way is stored
    /// with its normalized properties and the tags the caller asked to
    /// keep, and its node identifiers join the awaited set.
    pub fn process_way(&mut self, id: i64, nodes: Vec<i64>, tags: Vec<Tag>)
        requires
            old(self).wf(),
        ensures
            final(self).wf(),
            final(self).node_map() == old(self).node_map(),
            final(self).node_seq() == old(self).node_seq(),
            final(self).forbidden_seq() == old(self).forbidden_seq(),
            final(self).required_seq() == old(self).required_seq(),
            final(self).read_keys() == old(self).read_keys(),
            final(self).merge_enabled() == old(self).merge_enabled(),
            way_retained(old(self).required_seq(), old(self).forbidden_seq(), tags@) ==> {
                &&& final(self).way_seq().len() == old(self).way_seq().len() + 1
                &&& final(self).way_seq() == old(self).way_seq().push(
                    final(self).way_seq().last(),
                )
                &&& final(self).way_seq().last().id == id
                &&& final(self).way_seq().last().nodes@ == nodes@
                &&& final(self).way_seq().last().properties == way_properties(tags@)
                &&& final(self).way_seq().last().tags@ == tags@.filter(
                    |t: Tag| key_is_read(old(self).read_keys(), t.key@),
                )
                &&& final(self).keep_set() =~= old(self).keep_set() + nodes@.to_set()
            },
            !way_retained(old(self).required_seq(), old(self).forbidden_seq(), tags@) ==> {
                &&& final(self).way_seq() == old(self).way_seq()
                &&& final(self).keep_set() == old(self).keep_set()
            },
    {
        let mut properties = EdgeProperties::default();
        let mut kept: Vec<Tag> = Vec::new();
        let tag_count = tags.len();
        let mut i: usize = 0;
        while i < tag_count
            invariant
                i <= tag_count,
                tag_count == tags@.len(),
                *self == *old(self),
                self.wf(),
                properties == fold_tags(EdgeProperties::spec_default(), tags@.subrange(0, i as int)),
                kept@ == tags@.subrange(0, i as int).filter(
                    |t: Tag| key_is_read(old(self).read_keys(), t.key@),
                ),
            decreases tag_count - i,
        {
            proof {
                reveal(Seq::filter);
                assert(tags@.subrange(0, i as int + 1).drop_last() =~= tags@.subrange(0, i as int));
                assert(tags@.subrange(0, i as int + 1).last() == tags@[i as int]);
            }
            properties.update_with_str(tags[i].key.as_str(), tags[i].value.as_str());
            if self.key_read(tags[i].key.as_str()) {
                kept.push(tags[i].dup());
            }
            i = i + 1;
        }
        proof {
            assert(tags@.subrange(0, tag_count as int) =~= tags@);
        }
        properties.normalize();
        if properties.accessible() && !self.is_user_rejected(&tags) {
            let node_count = nodes.len();
            let mut j: usize = 0;
            while j < node_count
                invariant
                    j <= node_count,
                    node_count == nodes@.len(),
                    self.nodes == old(self).nodes,
                    self.ways@ == old(self).ways@,
                    self.forbidden_tags@ == old(self).forbidden_tags@,
                    self.required_tags@ == old(self).required_tags@,
                    self.tags_to_read@ == old(self).tags_to_read@,
                    self.should_merge_ways == old(self).should_merge_ways,
                    self.nodes_to_keep@ =~= old(self).nodes_to_keep@ + nodes@.subrange(
                        0,
                        j as int,
                    ).to_set(),
                decreases node_count - j,
            {
                self.nodes_to_keep.insert(nodes[j]);
                proof {
                    let prefix = nodes@.subrange(0, j as int);
                    let prefix1 = nodes@.subrange(0, j as int + 1);
                    assert(prefix1.drop_last() =~= prefix);
                    assert(prefix1.last() == nodes@[j as int]);
                    assert(prefix.to_set().insert(nodes@[j as int]) =~= prefix1.to_set());
                }
                j = j + 1;
            }
            proof {
                assert(nodes@.subrange(0, node_count as int) =~= nodes@);
            }
            self.push_way(id, nodes, properties, kept);
        }
    }
}

/// The node identifiers a chain of edges traverses: the first edge whole,
/// every following edge without its first node, which it shares with its
/// predecessor.
#[verifier::opaque]
pub open spec fn nodes_chain(es: Seq<Edge>) -> Seq<i64>
    decreases es.len(),
{
    if es.len() == 0 {
        Seq::empty()
    } else if es.len() == 1 {
        es[0].nodes@
    } else {
        nodes_chain(es.drop_last()) + es.last().nodes@.drop_first()
    }
}

/// The edge's geometry walks exactly its node list, point for point, with
/// the coordinates the node table holds.
pub open spec fn edge_geometry_matches(e: Edge, m: Map<i64, Node>) -> bool {
    &&& e.geometry@.len() == e.nodes@.len()
    &&& forall|i: int|
        0 <= i < e.nodes@.len() ==> m.contains_key(#[trigger] e.nodes@[i]) && e.geometry@[i]
            == m[e.nodes@[i]].coord
}

/// No interior node of the edge is used by more than one way: cuts fell on
/// every shared node.
pub open spec fn edge_interior_private(e: Edge, m: Map<i64, Node>) -> bool {
    forall|i: int| 0 < i < e.nodes@.len() - 1 ==> m[#[trigger] e.nodes@[i]].uses <= 1
}

/// No two ways share an identifier.
#[verifier::opaque]
pub open spec fn distinct_way_ids(ways: Seq<Way>) -> bool {
    forall|a: int, b: int|
        #![trigger ways[a], ways[b]]
        0 <= a < b < ways.len() ==> ways[a].id != ways[b].id
}

/// No two edges share an identifier.
#[verifier::opaque]
pub open spec fn distinct_edge_ids(es: Seq<Edge>) -> bool {
    forall|a: int, b: int|
        #![trigger es[a], es[b]]
        0 <= a < b < es.len() ==> es[a].id@ != es[b].id@
}

/// The edge was split out of this way: it carries the way's identifier,
/// properties and retained tags, and its own identifier is the way's with
/// some split index.
#[verifier::opaque]
pub open spec fn split_from(e: Edge, way: Way) -> bool {
    &&& e.osm_id == way.id
    &&& e.properties == way.properties
    &&& e.tags@ == way.tags@
    &&& exists|j: int| 0 <= j && e.id@ == #[trigger] crate::text::edge_id_seq(way.id as int, j)
}

/// The edge was split out of one of the first `upto` ways of the list.
#[verifier::opaque]
pub open spec fn edge_from(e: Edge, ways: Seq<Way>, upto: int) -> bool {
    exists|w: int| 0 <= w < upto && #[trigger] split_from(e, ways[w])
}

/// The split's shape: consecutive edges chain head to tail, the walk
/// starts and ends at the way's extremities, every inner cut lands on a
/// node used more than once, and the edges' node lists concatenate back to
/// the way's own list.
#[verifier::opaque]
pub open spec fn split_shape(way: Way, m: Map<i64, Node>, r: Seq<Edge>) -> bool {
    &&& forall|k: int| 0 <= k < r.len() - 1 ==> (#[trigger] r[k]).target == r[k + 1].source
    &&& forall|k: int| 0 <= k < r.len() - 1 ==> m[(#[trigger] r[k]).target].uses > 1
    &&& r.len() > 0 ==> r[0].source == way.nodes@[0] && r[r.len() - 1].target
        == way.nodes@.last()
    &&& way.nodes@.len() >= 2 ==> nodes_chain(r) == way.nodes@
}

/// How many edges the splitter cuts out of the first `upto` positions of a
/// node list: one per position that ends a segment — an interior node used
/// by more than one way, or the last node of the way.
pub open spec fn cut_count_upto(ns: Seq<i64>, m: Map<i64, Node>, upto: int) -> int
    decreases upto,
{
    if upto <= 1 {
        0
    } else {
        cut_count_upto(ns, m, upto - 1) + (if m[ns[upto - 1]].uses > 1 || upto - 1 == ns.len()
            - 1 {
            1int
        } else {
            0int
        })
    }
}

/// How many edges the splitter cuts out of this way.
pub open spec fn way_edge_count(way: Way, m: Map<i64, Node>) -> int {
    cut_count_upto(way.nodes@, m, way.nodes@.len() as int)
}

/// Where the edges of way `w` start in the full edge list: the sum of the
/// edge counts of the ways before it.
pub open spec fn block_start(ways: Seq<Way>, m: Map<i64, Node>, w: int) -> int
    decreases w,
{
    if w <= 0 {
        0
    } else {
        block_start(ways, m, w - 1) + way_edge_count(ways[w - 1], m)
    }
}

/// The edge list carries way `w`'s edges as one block: edge `k` of the way
/// stands at position `block_start + k` with the way's identifier, the
/// `k`-th split identifier, and the way's properties and retained tags.
pub open spec fn way_block(ways: Seq<Way>, m: Map<i64, Node>, es: Seq<Edge>, w: int) -> bool {
    forall|k: int|
        0 <= k < way_edge_count(ways[w], m) ==> {
            let e = #[trigger] es[block_start(ways, m, w) + k];
            &&& e.osm_id == ways[w].id
            &&& e.id@ == crate::text::edge_id_seq(ways[w].id as int, k)
            &&& e.properties == ways[w].properties
            &&& e.tags@ == ways[w].tags@
            &&& k == 0 ==> e.source == ways[w].nodes@[0]
        }
}

/// A split never yields a negative number of edges.
proof fn lemma_cut_count_nonneg(ns: Seq<i64>, m: Map<i64, Node>, upto: int)
    ensures
        cut_count_upto(ns, m, upto) >= 0,
    decreases upto,
{
    if upto > 1 {
        lemma_cut_count_nonneg(ns, m, upto - 1);
    }
}

/// Block starts are never negative.
proof fn lemma_block_nonneg(ways: Seq<Way>, m: Map<i64, Node>, w: int)
    ensures
        block_start(ways, m, w) >= 0,
    decreases w,
{
    if w > 0 {
        lemma_block_nonneg(ways, m, w - 1);
        lemma_cut_count_nonneg(ways[w - 1].nodes@, m, ways[w - 1].nodes@.len() as int);
    }
}

/// A way of two or more nodes always yields at least one edge.
proof fn lemma_cut_count_positive(ns: Seq<i64>, m: Map<i64, Node>)
    requires
        ns.len() >= 2,
    ensures
        cut_count_upto(ns, m, ns.len() as int) >= 1,
{
    lemma_cut_count_nonneg(ns, m, ns.len() as int - 1);
}

/// A way's block ends no later than any later way's block starts.
proof fn lemma_block_start_bound(ways: Seq<Way>, m: Map<i64, Node>, a: int, b: int)
    requires
        0 <= a < b <= ways.len(),
    ensures
        block_start(ways, m, a) + way_edge_count(ways[a], m) <= block_start(ways, m, b),
    decreases b,
{
    if b == a + 1 {
    } else {
        lemma_block_start_bound(ways, m, a, b - 1);
        lemma_cut_count_nonneg(ways[b - 1].nodes@, m, ways[b - 1].nodes@.len() as int);
    }
}

/// Everything a successful build promises: structurally sound edges, only
/// shared nodes retained, and — without the merger — exact provenance,
/// coverage and identifier distinctness; with it, a merge-stable result.
#[verifier::opaque]
pub open spec fn build_ok(pre: Reader, post: Reader, ns: Seq<Node>, es: Seq<Edge>) -> bool {
    &&& forall|k: int| 0 <= k < es.len() ==> (#[trigger] es[k]).wf()
    &&& forall|i: int| 0 <= i < ns.len() ==> (#[trigger] ns[i]).uses >= 2
    &&& ns == post.node_seq().filter(|n: Node| n.uses > 1)
    &&& !pre.merge_enabled() ==> distinct_way_ids(pre.way_seq()) ==> distinct_edge_ids(es)
    &&& !pre.merge_enabled() ==> forall|k: int|
        0 <= k < es.len() ==> edge_geometry_matches(#[trigger] es[k], post.node_map())
            && edge_interior_private(es[k], post.node_map()) && edge_from(
            es[k],
            pre.way_seq(),
            pre.way_seq().len() as int,
        )
    &&& !pre.merge_enabled() ==> forall|w: int|
        0 <= w < pre.way_seq().len() && (#[trigger] pre.way_seq()[w]).nodes@.len() >= 2
            ==> exists|k: int|
            0 <= k < es.len() && (#[trigger] es[k]).osm_id == pre.way_seq()[w].id && es[k].source
                == pre.way_seq()[w].nodes@[0] && es[k].id@ == crate::text::edge_id_seq(
                pre.way_seq()[w].id as int,
                0,
            )
    &&& pre.merge_enabled() ==> merge_stable(es, post.node_map())
    &&& post.node_seq().len() == pre.node_seq().len()
    &&& forall|j: int|
        0 <= j < pre.node_seq().len() ==> {
            let p0 = pre.node_seq()[j];
            let p1 = #[trigger] post.node_seq()[j];
            &&& p1.id == p0.id
            &&& p1.coord == p0.coord
            &&& {
                let counted = sat16(p0.uses + ways_uses(pre.way_seq(), p0.id));
                p1.uses == counted || (pre.merge_enabled() && p1.uses == 0 && counted == 4)
            }
        }
    &&& !pre.merge_enabled() ==> es.len() == block_start(
        pre.way_seq(),
        post.node_map(),
        pre.way_seq().len() as int,
    )
    &&& !pre.merge_enabled() ==> forall|w: int|
        0 <= w < pre.way_seq().len() ==> #[trigger] way_block(
            pre.way_seq(),
            post.node_map(),
            es,
            w,
        )
    &&& pre.merge_enabled() ==> exists|split_list: Seq<Edge>, mmid: Map<i64, Node>, steps: nat|
        {
            &&& split_list.len() == block_start(
                pre.way_seq(),
                mmid,
                pre.way_seq().len() as int,
            )
            &&& forall|w: int|
                0 <= w < pre.way_seq().len() ==> #[trigger] way_block(
                    pre.way_seq(),
                    mmid,
                    split_list,
                    w,
                )
            &&& #[trigger] merger_run(split_list, mmid, es, post.node_map(), steps)
        }
}

/// Appending the edges split out of way `w` to the edges of the first `w`
/// ways preserves provenance, per-way coverage, and identifier
/// distinctness.
proof fn lemma_edges_append(
    ways: Seq<Way>,
    m: Map<i64, Node>,
    w: int,
    res0: Seq<Edge>,
    part0: Seq<Edge>,
    combined: Seq<Edge>,
)
    requires
        0 <= w < ways.len(),
        combined == res0 + part0,
        forall|k: int| 0 <= k < res0.len() ==> edge_from(#[trigger] res0[k], ways, w),
        forall|k: int|
            0 <= k < res0.len() ==> (#[trigger] res0[k]).wf() && edge_geometry_matches(
                res0[k],
                m,
            ) && edge_interior_private(res0[k], m),
        distinct_way_ids(ways) ==> distinct_edge_ids(res0),
        res0.len() == block_start(ways, m, w),
        forall|w2: int| 0 <= w2 < w ==> #[trigger] way_block(ways, m, res0, w2),
        ways[w].nodes@.len() >= 2 ==> part0.len() >= 1,
        part0.len() == way_edge_count(ways[w], m),
        forall|k: int|
            0 <= k < part0.len() ==> (#[trigger] part0[k]).wf() && edge_geometry_matches(
                part0[k],
                m,
            ) && edge_interior_private(part0[k], m),
        forall|k: int|
            0 <= k < part0.len() ==> (#[trigger] part0[k]).osm_id == ways[w].id
                && part0[k].properties == ways[w].properties && part0[k].tags@ == ways[w].tags@
                && part0[k].id@ == crate::text::edge_id_seq(ways[w].id as int, k),
        part0.len() > 0 ==> part0[0].source == ways[w].nodes@[0],
    ensures
        forall|k: int| 0 <= k < combined.len() ==> edge_from(#[trigger] combined[k], ways, w + 1),
        forall|k: int|
            0 <= k < combined.len() ==> (#[trigger] combined[k]).wf() && edge_geometry_matches(
                combined[k],
                m,
            ) && edge_interior_private(combined[k], m),
        distinct_way_ids(ways) ==> distinct_edge_ids(combined),
        combined.len() == block_start(ways, m, w + 1),
        forall|w2: int| 0 <= w2 < w + 1 ==> #[trigger] way_block(ways, m, combined, w2),
{
    assert forall|w2: int| 0 <= w2 < w + 1 implies #[trigger] way_block(
        ways,
        m,
        combined,
        w2,
    ) by {
        if w2 < w {
            assert forall|k: int| 0 <= k < way_edge_count(ways[w2], m) implies {
                let e = #[trigger] combined[block_start(ways, m, w2) + k];
                &&& e.osm_id == ways[w2].id
                &&& e.id@ == crate::text::edge_id_seq(ways[w2].id as int, k)
                &&& e.properties == ways[w2].properties
                &&& e.tags@ == ways[w2].tags@
                &&& k == 0 ==> e.source == ways[w2].nodes@[0]
            } by {
                lemma_block_start_bound(ways, m, w2, w);
                lemma_cut_count_nonneg(ways[w2].nodes@, m, ways[w2].nodes@.len() as int);
                assert(block_start(ways, m, w2) >= 0) by {
                    lemma_block_nonneg(ways, m, w2);
                }
                assert(combined[block_start(ways, m, w2) + k] == res0[block_start(ways, m, w2)
                    + k]);
                assert(way_block(ways, m, res0, w2));
            }
        } else {
            assert forall|k: int| 0 <= k < way_edge_count(ways[w2], m) implies {
                let e = #[trigger] combined[block_start(ways, m, w2) + k];
                &&& e.osm_id == ways[w2].id
                &&& e.id@ == crate::text::edge_id_seq(ways[w2].id as int, k)
                &&& e.properties == ways[w2].properties
                &&& e.tags@ == ways[w2].tags@
                &&& k == 0 ==> e.source == ways[w2].nodes@[0]
            } by {
                assert(combined[block_start(ways, m, w2) + k] == part0[k]);
            }
        }
    }
    reveal(split_from);
    reveal(edge_from);
    reveal(distinct_way_ids);
    reveal(distinct_edge_ids);
    let wid = ways[w].id;
    assert forall|k: int| 0 <= k < combined.len() implies edge_from(
        #[trigger] combined[k],
        ways,
        w + 1,
    ) by {
        if k < res0.len() {
            assert(edge_from(res0[k], ways, w));
            let wx = choose|wx: int| 0 <= wx < w && #[trigger] split_from(res0[k], ways[wx]);
            assert(split_from(combined[k], ways[wx]));
        } else {
            let j = k - res0.len();
            assert(part0[j].id@ == crate::text::edge_id_seq(wid as int, j));
            assert(split_from(part0[j], ways[w]));
        }
    }
    if distinct_way_ids(ways) {
        assert forall|a: int, b: int|
            #![trigger combined[a], combined[b]]
            0 <= a < b < combined.len() implies combined[a].id@ != combined[b].id@ by {
            if b < res0.len() {
                assert(res0[a].id@ != res0[b].id@);
            } else if a >= res0.len() {
                let a2 = a - res0.len();
                let b2 = b - res0.len();
                if combined[a].id@ == combined[b].id@ {
                    crate::text::lemma_edge_id_injective(wid as int, a2, wid as int, b2);
                    assert(false);
                }
            } else {
                let b2 = b - res0.len();
                assert(edge_from(res0[a], ways, w));
                let wx = choose|wx: int| 0 <= wx < w && #[trigger] split_from(res0[a], ways[wx]);
                let widx = ways[wx].id;
                let jx = choose|jx: int|
                    0 <= jx && res0[a].id@ == #[trigger] crate::text::edge_id_seq(widx as int, jx);
                if combined[a].id@ == combined[b].id@ {
                    crate::text::lemma_edge_id_injective(widx as int, jx, wid as int, b2);
                    assert(widx == wid);
                    assert(false);
                }
            }
        }
    }
}

/// Appending one more segment to a chain of edges extends the walked node
/// list by the segment without its first node.
proof fn lemma_chain_push(es: Seq<Edge>, e: Edge, w: Seq<i64>, start: int, end: int)
    requires
        es.len() > 0 ==> nodes_chain(es) == w.subrange(0, start + 1),
        es.len() == 0 ==> start == 0,
        0 <= start < end <= w.len(),
        end - start >= 2,
        e.nodes@ == w.subrange(start, end),
    ensures
        nodes_chain(es.push(e)) == w.subrange(0, end),
{
    reveal(nodes_chain);
    let extended = es.push(e);
    assert(extended.drop_last() =~= es);
    if es.len() == 0 {
        assert(nodes_chain(extended) == e.nodes@);
        assert(e.nodes@ =~= w.subrange(0, end));
    } else {
        assert(nodes_chain(extended) == nodes_chain(es) + e.nodes@.drop_first());
        assert(e.nodes@.drop_first() =~= w.subrange(start + 1, end));
        assert(nodes_chain(es) + e.nodes@.drop_first() =~= w.subrange(0, end));
    }
}

/// One filter rule applies to one tag: the keys agree and the values agree,
/// or the rule's value is the `*` wildcard.
pub open spec fn tag_rule_matches(rule: Tag, t: Tag) -> bool {
    rule.key@ == t.key@ && (rule.value@ == t.value@ || rule.value@ == "*"@)
}

/// Some rule of the list applies to some tag of the way.
pub open spec fn any_rule_matches(rules: Seq<Tag>, tags: Seq<Tag>) -> bool {
    exists|i: int, j: int|
        0 <= i < rules.len() && 0 <= j < tags.len() && #[trigger] tag_rule_matches(
            rules[i],
            tags[j],
        )
}

/// A way is rejected when a required tag is missing (an empty requirement
/// list requires nothing) or a forbidden tag is present.
pub open spec fn spec_rejected(required: Seq<Tag>, forbidden: Seq<Tag>, tags: Seq<Tag>) -> bool {
    !(required.len() == 0 || any_rule_matches(required, tags)) || any_rule_matches(forbidden, tags)
}

/// The key is one of those the caller asked to keep.
pub open spec fn key_is_read(keys: Seq<String>, k: Seq<char>) -> bool {
    exists|i: int| 0 <= i < keys.len() && #[trigger] keys[i]@ == k
}

/// The accessibility model after every tag of the list was applied in
/// order.
pub open spec fn fold_tags(p: EdgeProperties, tags: Seq<Tag>) -> EdgeProperties
    decreases tags.len(),
{
    if tags.len() == 0 {
        p
    } else {
        fold_tags(p, tags.drop_last()).spec_update(tags.last().key@, tags.last().value@)
    }
}

/// The categorized properties of a way with these tags: every tag applied
/// in order, then defaults filled in.
pub open spec fn way_properties(tags: Seq<Tag>) -> EdgeProperties {
    fold_tags(EdgeProperties::spec_default(), tags).spec_normalize()
}

/// Whether a way with these tags is retained under this configuration:
/// some mode can use it, and the user filters let it pass.
pub open spec fn way_retained(required: Seq<Tag>, forbidden: Seq<Tag>, tags: Seq<Tag>) -> bool {
    way_properties(tags).spec_accessible() && !spec_rejected(required, forbidden, tags)
}

/// Decides whether some rule of the list applies to some tag of the way.
fn rules_match(rules: &Vec<Tag>, tags: &Vec<Tag>) -> (r: bool)
    ensures
        r == any_rule_matches(rules@, tags@),
{
    let rn = rules.len();
    let tn = tags.len();
    let mut i: usize = 0;
    while i < rn
        invariant
            i <= rn,
            rn == rules@.len(),
            tn == tags@.len(),
            forall|i2: int, j2: int|
                0 <= i2 < i && 0 <= j2 < tn ==> !#[trigger] tag_rule_matches(
                    rules@[i2],
                    tags@[j2],
                ),
        decreases rn - i,
    {
        let mut j: usize = 0;
        while j < tn
            invariant
                i < rn,
                j <= tn,
                rn == rules@.len(),
                tn == tags@.len(),
                forall|j2: int|
                    0 <= j2 < j ==> !#[trigger] tag_rule_matches(rules@[i as int], tags@[j2]),
            decreases tn - j,
        {
            let rule = &rules[i];
            let t = &tags[j];
            if crate::text::str_eq(rule.key.as_str(), t.key.as_str()) && (crate::text::str_eq(
                rule.value.as_str(),
                t.value.as_str(),
            ) || crate::text::str_eq(rule.value.as_str(), "*")) {
                proof {
                    assert(tag_rule_matches(rules@[i as int], tags@[j as int]));
                }
                return true;
            }
            j = j + 1;
        }
        i = i + 1;
    }
    false
}

/// Every element of a filtered sequence is an element of the original.
proof fn lemma_filter_element_of<A>(s: Seq<A>, pred: spec_fn(A) -> bool, i: int)
    requires
        0 <= i < s.filter(pred).len(),
    ensures
        s.contains(s.filter(pred)[i]),
    decreases s.len(),
{
    reveal(Seq::filter);
    if s.len() > 0 {
        let sub = s.drop_last().filter(pred);
        if pred(s.last()) && i == sub.len() {
            assert(s.filter(pred)[i] == s.last());
            assert(s[s.len() - 1] == s.last());
        } else {
            lemma_filter_element_of(s.drop_last(), pred, i);
            let w = choose|w: int| 0 <= w < s.drop_last().len() && s.drop_last()[w] == sub[i];
            assert(s[w] == sub[i]);
        }
    }
}

} // verus!
