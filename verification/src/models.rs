//! The data model of the output graph: coordinates, nodes, tags and edges,
//! with the operations the edge merger needs.

use crate::categorize::EdgeProperties;
use vstd::prelude::*;
use vstd::string::StringExecFns;

verus! {

/// A WGS84 position, both axes in decimicro degrees (ten-millionths of a
/// degree), the resolution OSM stores natively.
#[derive(Clone, Copy, Debug, PartialEq, Eq, Structural)]
pub struct Coord {
    pub decimicro_lon: i32,
    pub decimicro_lat: i32,
}

/// An OSM node: its identifier, its position, and how many ways use it
/// (way extremities count double).
#[derive(Clone, Copy, Debug, PartialEq, Eq, Structural)]
pub struct Node {
    pub id: i64,
    pub coord: Coord,
    pub uses: i16,
}

impl Node {
    /// A node with zeroed identifier, position and usage count.
    pub fn new() -> (r: Node)
        ensures
            r.id == 0,
            r.coord == (Coord { decimicro_lon: 0, decimicro_lat: 0 }),
            r.uses == 0,
    {
        Node { id: 0, coord: Coord { decimicro_lon: 0, decimicro_lat: 0 }, uses: 0 }
    }
}

/// One key/value pair kept from a way's tags.
#[derive(Debug)]
pub struct Tag {
    pub key: String,
    pub value: String,
}

impl Tag {
    /// An exact copy.
    pub fn dup(&self) -> (r: Tag)
        ensures
            r == *self,
    {
        Tag { key: self.key.clone(), value: self.value.clone() }
    }
}

/// The list holds a tag with this key and value.
pub open spec fn tag_in(b: Seq<Tag>, t: Tag) -> bool {
    exists|j: int| 0 <= j < b.len() && (#[trigger] b[j]).key@ == t.key@ && b[j].value@ == t.value@
}

/// Two retained tag lists hold the same set of key/value pairs, whatever
/// their order: each side is as long as the other and every pair of one
/// occurs in the other.  On lists without repeated keys this is equality
/// of the tag maps.
pub open spec fn tag_sets_match(a: Seq<Tag>, b: Seq<Tag>) -> bool {
    &&& a.len() == b.len()
    &&& forall|i: int| 0 <= i < a.len() ==> tag_in(b, #[trigger] a[i])
    &&& forall|j: int| 0 <= j < b.len() ==> tag_in(a, #[trigger] b[j])
}

/// Decides whether the list holds a tag with the given key and value.
fn tag_list_contains(v: &Vec<Tag>, t: &Tag) -> (r: bool)
    ensures
        r == tag_in(v@, *t),
{
    let n = v.len();
    let mut i: usize = 0;
    while i < n
        invariant
            i <= n,
            n == v@.len(),
            forall|j: int|
                0 <= j < i ==> !((#[trigger] v@[j]).key@ == t.key@ && v@[j].value@ == t.value@),
        decreases n - i,
    {
        if crate::text::str_eq(v[i].key.as_str(), t.key.as_str()) && crate::text::str_eq(
            v[i].value.as_str(),
            t.value.as_str(),
        ) {
            return true;
        }
        i = i + 1;
    }
    false
}

/// Decides whether two tag lists hold the same set of key/value pairs,
/// whatever their order.
pub fn tags_set_eq(a: &Vec<Tag>, b: &Vec<Tag>) -> (r: bool)
    ensures
        r == tag_sets_match(a@, b@),
{
    if a.len() != b.len() {
        return false;
    }
    let n = a.len();
    let mut i: usize = 0;
    while i < n
        invariant
            i <= n,
            n == a@.len(),
            n == b@.len(),
            forall|j: int| 0 <= j < i ==> tag_in(b@, #[trigger] a@[j]),
        decreases n - i,
    {
        if !tag_list_contains(b, &a[i]) {
            return false;
        }
        i = i + 1;
    }
    let mut j: usize = 0;
    while j < n
        invariant
            j <= n,
            n == a@.len(),
            n == b@.len(),
            forall|i2: int| 0 <= i2 < n ==> tag_in(b@, #[trigger] a@[i2]),
            forall|j2: int| 0 <= j2 < j ==> tag_in(a@, #[trigger] b@[j2]),
        decreases n - j,
    {
        if !tag_list_contains(a, &b[j]) {
            return false;
        }
        j = j + 1;
    }
    true
}

/// An exact copy of a tag list.
pub fn tags_dup(v: &Vec<Tag>) -> (r: Vec<Tag>)
    ensures
        r@ == v@,
{
    let mut out: Vec<Tag> = Vec::new();
    let n = v.len();
    let mut i: usize = 0;
    while i < n
        invariant
            i <= n,
            n == v@.len(),
            out@ =~= v@.subrange(0, i as int),
        decreases n - i,
    {
        out.push(v[i].dup());
        i = i + 1;
    }
    proof {
        assert(out@ =~= v@);
    }
    out
}

/// An exact copy of a vector of copyable values.
pub fn copy_vec<T: Copy>(v: &Vec<T>) -> (r: Vec<T>)
    ensures
        r@ == v@,
{
    let mut out: Vec<T> = Vec::new();
    let n = v.len();
    let mut i: usize = 0;
    while i < n
        invariant
            i <= n,
            n == v@.len(),
            out@ =~= v@.subrange(0, i as int),
        decreases n - i,
    {
        out.push(v[i]);
        i = i + 1;
    }
    proof {
        assert(out@ =~= v@);
    }
    out
}

/// A vector of copyable values in reverse order.
pub fn reversed_vec<T: Copy>(v: &Vec<T>) -> (r: Vec<T>)
    ensures
        r@ == v@.reverse(),
{
    let mut out: Vec<T> = Vec::new();
    let mut i: usize = v.len();
    while i > 0
        invariant
            i <= v@.len(),
            out@.len() == v@.len() - i,
            forall|j: int| 0 <= j < out@.len() ==> out@[j] == v@[v@.len() - 1 - j],
        decreases i,
    {
        i = i - 1;
        out.push(v[i]);
    }
    proof {
        assert(out@ =~= v@.reverse());
    }
    out
}

/// A topological arc of the output graph: at most one edge stands between
/// two adjacent intersections, and it carries its full geometry.
#[derive(Debug)]
pub struct Edge {
    /// Identifier, unique in one run: `"{osm_id}-{split_index}"`, with the
    /// identifiers of both parents joined by `-` after a merge.
    pub id: String,
    /// The identifier of the OSM way the edge was split from.
    pub osm_id: i64,
    /// The node identifier of the first point.
    pub source: i64,
    /// The node identifier of the last point.
    pub target: i64,
    /// The coordinates of every traversed node.
    pub geometry: Vec<Coord>,
    /// What can travel on this edge.
    pub properties: EdgeProperties,
    /// The identifiers of every traversed node, one per geometry point.
    pub nodes: Vec<i64>,
    /// The tags the caller asked to keep, in source order.
    pub tags: Vec<Tag>,
}

impl Edge {
    /// Structural soundness: geometry and node list walk the same points,
    /// at least two of them, from `source` to `target`.
    pub open spec fn wf(self) -> bool {
        &&& self.geometry@.len() == self.nodes@.len()
        &&& self.nodes@.len() >= 2
        &&& self.nodes@[0] == self.source
        &&& self.nodes@.last() == self.target
    }

    /// An exact copy.
    pub fn dup(&self) -> (r: Edge)
        ensures
            r.id == self.id,
            r.osm_id == self.osm_id,
            r.source == self.source,
            r.target == self.target,
            r.geometry@ == self.geometry@,
            r.properties == self.properties,
            r.nodes@ == self.nodes@,
            r.tags@ == self.tags@,
    {
        Edge {
            id: self.id.clone(),
            osm_id: self.osm_id,
            source: self.source,
            target: self.target,
            geometry: copy_vec(&self.geometry),
            properties: self.properties,
            nodes: copy_vec(&self.nodes),
            tags: tags_dup(&self.tags),
        }
    }

    /// The same edge walked the other way: node list and geometry reversed,
    /// source and target swapped.
    pub fn reverse(self) -> (r: Edge)
        ensures
            r.id == self.id,
            r.osm_id == self.osm_id,
            r.source == self.target,
            r.target == self.source,
            r.geometry@ == self.geometry@.reverse(),
            r.properties == self.properties,
            r.nodes@ == self.nodes@.reverse(),
            r.tags == self.tags,
            self.wf() ==> r.wf(),
    {
        let r = Edge {
            id: self.id,
            osm_id: self.osm_id,
            source: self.target,
            target: self.source,
            geometry: reversed_vec(&self.geometry),
            properties: self.properties,
            nodes: reversed_vec(&self.nodes),
            tags: self.tags,
        };
        r
    }

    /// The node list of `e` oriented so that its walk ends at `node`.
    pub open spec fn nodes_into(e: Edge, node: i64) -> Seq<i64> {
        if e.target == node {
            e.nodes@
        } else {
            e.nodes@.reverse()
        }
    }

    /// The geometry of `e` oriented so that its walk ends at `node`.
    pub open spec fn geometry_into(e: Edge, node: i64) -> Seq<Coord> {
        if e.target == node {
            e.geometry@
        } else {
            e.geometry@.reverse()
        }
    }

    /// The node list of `e` oriented so that its walk starts at `node`.
    pub open spec fn nodes_out_of(e: Edge, node: i64) -> Seq<i64> {
        if e.source == node {
            e.nodes@
        } else {
            e.nodes@.reverse()
        }
    }

    /// The geometry of `e` oriented so that its walk starts at `node`.
    pub open spec fn geometry_out_of(e: Edge, node: i64) -> Seq<Coord> {
        if e.source == node {
            e.geometry@
        } else {
            e.geometry@.reverse()
        }
    }

    /// `r` is the stitching of `e1` and `e2` at `n`, exactly as
    /// [`Edge::merge`] builds it: identifiers joined by `-`, walks oriented
    /// through `n` and concatenated without repeating the junction point.
    pub open spec fn merged_of(r: Edge, e1: Edge, e2: Edge, n: i64) -> bool {
        &&& r.id@ == e1.id@ + seq!['-'] + e2.id@
        &&& r.osm_id == e1.osm_id
        &&& r.source == (if e1.target == n {
            e1.source
        } else {
            e1.target
        })
        &&& r.target == (if e2.source == n {
            e2.target
        } else {
            e2.source
        })
        &&& r.nodes@ == Edge::nodes_into(e1, n) + Edge::nodes_out_of(e2, n).drop_first()
        &&& r.geometry@ == Edge::geometry_into(e1, n) + Edge::geometry_out_of(e2, n).drop_first()
        &&& r.properties == e1.properties
        &&& r.tags@ == e1.tags@
    }

    /// Stitches two edges together at `node`, a common extremity of both:
    /// the first is oriented to end there, the second to start there, and
    /// the walks are concatenated without repeating the junction point.
    pub fn merge(edge1: &Edge, edge2: &Edge, node: i64) -> (r: Edge)
        requires
            edge1.wf(),
            edge2.wf(),
            edge1.source == node || edge1.target == node,
            edge2.source == node || edge2.target == node,
        ensures
            r.wf(),
            r.id@ == edge1.id@ + seq!['-'] + edge2.id@,
            r.osm_id == edge1.osm_id,
            r.source == (if edge1.target == node {
                edge1.source
            } else {
                edge1.target
            }),
            r.target == (if edge2.source == node {
                edge2.target
            } else {
                edge2.source
            }),
            r.nodes@ == Edge::nodes_into(*edge1, node) + Edge::nodes_out_of(
                *edge2,
                node,
            ).drop_first(),
            r.geometry@ == Edge::geometry_into(*edge1, node) + Edge::geometry_out_of(
                *edge2,
                node,
            ).drop_first(),
            r.properties == edge1.properties,
            r.tags@ == edge1.tags@,
            Edge::merged_of(r, *edge1, *edge2, node),
    {
        let e1 = if edge1.target == node {
            edge1.dup()
        } else {
            edge1.dup().reverse()
        };
        let e2 = if edge2.source == node {
            edge2.dup()
        } else {
            edge2.dup().reverse()
        };
        let mut id = e1.id;
        proof {
            reveal_strlit("-");
        }
        id.append("-");
        id.append(e2.id.as_str());
        let mut nodes = e1.nodes;
        let mut geometry = e1.geometry;
        let mut i: usize = 1;
        let n2 = e2.nodes.len();
        while i < n2
            invariant
                1 <= i <= n2,
                n2 == e2.nodes@.len(),
                n2 == e2.geometry@.len(),
                nodes@ =~= Edge::nodes_into(*edge1, node) + e2.nodes@.subrange(1, i as int),
                geometry@ =~= Edge::geometry_into(*edge1, node) + e2.geometry@.subrange(
                    1,
                    i as int,
                ),
            decreases n2 - i,
        {
            nodes.push(e2.nodes[i]);
            geometry.push(e2.geometry[i]);
            i = i + 1;
        }
        proof {
            assert(e2.nodes@.subrange(1, n2 as int) =~= e2.nodes@.drop_first());
            assert(e2.geometry@.subrange(1, n2 as int) =~= e2.geometry@.drop_first());
        }
        let r = Edge {
            id,
            osm_id: e1.osm_id,
            source: e1.source,
            target: e2.target,
            geometry,
            properties: e1.properties,
            nodes,
            tags: e1.tags,
        };
        proof {
            assert(r.nodes@.last() == e2.nodes@.last());
            assert(r.nodes@[0] == Edge::nodes_into(*edge1, node)[0]);
            assert(r.id@ == edge1.id@ + seq!['-'] + edge2.id@);
            assert(r.nodes@ == Edge::nodes_into(*edge1, node) + Edge::nodes_out_of(
                *edge2,
                node,
            ).drop_first());
            assert(r.geometry@ == Edge::geometry_into(*edge1, node) + Edge::geometry_out_of(
                *edge2,
                node,
            ).drop_first());
            assert(Edge::merged_of(r, *edge1, *edge2, node));
        }
        r
    }
}

} // verus!
