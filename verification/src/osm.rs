//! Loading a stream of raw map records into a dataset with dense point indices.

use crate::geom::Point;
use crate::tags::TagSet;
use std::collections::HashMap;
use vstd::prelude::*;

verus! {

broadcast use vstd::std_specs::hash::group_hash_axioms;

/// One record of a raw map stream.
#[derive(Debug)]
pub enum Element {
    /// A point with its external id, its position and its tags.
    Node { id: i64, pos: Point, tags: TagSet },
    /// A way: the external ids of its points, in order.
    Way { refs: Vec<i64> },
    /// Any other record; it is passed over.
    Relation,
}

/// A point of a loaded dataset.
#[derive(Debug)]
struct Node {
    pos: Point,
    tags: TagSet,
}

/// A loaded dataset: points addressed by dense index, ways as sequences of such
/// indices, and the bounding box of the points.
#[derive(Debug)]
pub struct OSM {
    nodes: Vec<Node>,
    min: Point,
    max: Point,
    ways: Vec<Vec<usize>>,
    small_ways: usize,
    dangling_refs: u128,
}

/// The positions of the points of a stream, in stream order.
pub open spec fn stream_points(s: Seq<Element>) -> Seq<Point>
    decreases s.len(),
{
    if s.len() == 0 {
        Seq::empty()
    } else {
        let rest = stream_points(s.drop_last());
        match s.last() {
            Element::Node { pos, .. } => rest.push(pos),
            _ => rest,
        }
    }
}

/// The tag sets of the points of a stream, in stream order.
pub open spec fn stream_tags(s: Seq<Element>) -> Seq<TagSet>
    decreases s.len(),
{
    if s.len() == 0 {
        Seq::empty()
    } else {
        let rest = stream_tags(s.drop_last());
        match s.last() {
            Element::Node { tags, .. } => rest.push(tags),
            _ => rest,
        }
    }
}

/// The dense index of each external id of a stream. Each point gets the next index;
/// where an id occurs twice, the later point has it.
pub open spec fn stream_ids(s: Seq<Element>) -> Map<i64, usize>
    decreases s.len(),
{
    if s.len() == 0 {
        Map::empty()
    } else {
        let rest = stream_ids(s.drop_last());
        match s.last() {
            Element::Node { id, .. } => rest.insert(
                id,
                stream_points(s.drop_last()).len() as usize,
            ),
            _ => rest,
        }
    }
}

/// The reference lists of the ways of a stream, in stream order.
pub open spec fn stream_refs(s: Seq<Element>) -> Seq<Seq<i64>>
    decreases s.len(),
{
    if s.len() == 0 {
        Seq::empty()
    } else {
        let rest = stream_refs(s.drop_last());
        match s.last() {
            Element::Way { refs } => rest.push(refs@),
            _ => rest,
        }
    }
}

/// The dense indices of the references that `ids` knows, in order; the others are left out.
pub open spec fn resolve(ids: Map<i64, usize>, refs: Seq<i64>) -> Seq<usize>
    decreases refs.len(),
{
    if refs.len() == 0 {
        Seq::empty()
    } else {
        let rest = resolve(ids, refs.drop_last());
        if ids.contains_key(refs.last()) {
            rest.push(ids[refs.last()])
        } else {
            rest
        }
    }
}

/// The ways that are kept: each reference list resolved, and those with more than two
/// resolved references, in order.
pub open spec fn kept_ways(ids: Map<i64, usize>, refs: Seq<Seq<i64>>) -> Seq<Seq<usize>>
    decreases refs.len(),
{
    if refs.len() == 0 {
        Seq::empty()
    } else {
        let rest = kept_ways(ids, refs.drop_last());
        let way = resolve(ids, refs.last());
        if way.len() > 2 {
            rest.push(way)
        } else {
            rest
        }
    }
}

/// The number of ways that are rejected for having at most two resolved references.
pub open spec fn rejected_ways(ids: Map<i64, usize>, refs: Seq<Seq<i64>>) -> nat {
    (refs.len() - kept_ways(ids, refs).len()) as nat
}

/// The number of references, over all ways, that `ids` does not know.
pub open spec fn dangling_refs(ids: Map<i64, usize>, refs: Seq<Seq<i64>>) -> nat
    decreases refs.len(),
{
    if refs.len() == 0 {
        0
    } else {
        let way = refs.last();
        (dangling_refs(ids, refs.drop_last()) + way.len() - resolve(ids, way).len()) as nat
    }
}

/// The corner of the bounding box with the least coordinates. With no point it is the
/// greatest position there is.
pub open spec fn min_corner(points: Seq<Point>) -> Point
    decreases points.len(),
{
    if points.len() == 0 {
        Point { x: i32::MAX, y: i32::MAX }
    } else {
        let m = min_corner(points.drop_last());
        let p = points.last();
        Point { x: if p.x < m.x { p.x } else { m.x }, y: if p.y < m.y { p.y } else { m.y } }
    }
}

/// The corner of the bounding box with the greatest coordinates. With no point it is the
/// least position there is.
pub open spec fn max_corner(points: Seq<Point>) -> Point
    decreases points.len(),
{
    if points.len() == 0 {
        Point { x: i32::MIN, y: i32::MIN }
    } else {
        let m = max_corner(points.drop_last());
        let p = points.last();
        Point { x: if p.x > m.x { p.x } else { m.x }, y: if p.y > m.y { p.y } else { m.y } }
    }
}

/// Every index of every way is below `n`.
pub open spec fn ways_in_range(ways: Seq<Seq<usize>>, n: nat) -> bool {
    forall|w: int, i: int|
        0 <= w < ways.len() && 0 <= i < ways[w].len() ==> (#[trigger] ways[w][i]) < n
}

/// Every way has at least three indices.
pub open spec fn ways_long(ways: Seq<Seq<usize>>) -> bool {
    forall|w: int| 0 <= w < ways.len() ==> (#[trigger] ways[w]).len() >= 3
}

/// The bounding box holds every point: each lies between the two corners.
pub proof fn lemma_bounds_hold_points(points: Seq<Point>, i: int)
    requires
        0 <= i < points.len(),
    ensures
        min_corner(points).x <= points[i].x <= max_corner(points).x,
        min_corner(points).y <= points[i].y <= max_corner(points).y,
    decreases points.len(),
{
    if i < points.len() - 1 {
        lemma_bounds_hold_points(points.drop_last(), i);
    }
}

proof fn lemma_points_len(s: Seq<Element>)
    ensures
        stream_points(s).len() <= s.len(),
    decreases s.len(),
{
    if s.len() > 0 {
        lemma_points_len(s.drop_last());
    }
}

/// Every id of a stream stands for the index of one of its points.
pub proof fn lemma_ids_in_range(s: Seq<Element>, id: i64)
    requires
        s.len() <= usize::MAX,
        stream_ids(s).contains_key(id),
    ensures
        stream_ids(s)[id] < stream_points(s).len(),
    decreases s.len(),
{
    if s.len() > 0 {
        let init = s.drop_last();
        lemma_points_len(init);
        match s.last() {
            Element::Node { id: last, .. } => {
                if last != id {
                    lemma_ids_in_range(init, id);
                }
            },
            _ => {
                lemma_ids_in_range(init, id);
            },
        }
    }
}

/// Every resolved reference is a value of the id mapping, and no more references come
/// out than went in.
pub proof fn lemma_resolve_values(ids: Map<i64, usize>, refs: Seq<i64>, i: int)
    requires
        0 <= i < resolve(ids, refs).len(),
    ensures
        exists|id: i64| ids.contains_key(id) && #[trigger] ids[id] == resolve(ids, refs)[i],
        resolve(ids, refs).len() <= refs.len(),
    decreases refs.len(),
{
    let rest = resolve(ids, refs.drop_last());
    if rest.len() > 0 {
        lemma_resolve_values(ids, refs.drop_last(), 0);
    }
    if i < rest.len() {
        lemma_resolve_values(ids, refs.drop_last(), i);
    } else {
        assert(ids.contains_key(refs.last()));
        assert(ids[refs.last()] == resolve(ids, refs)[i]);
    }
}

/// The ways of a stream that are kept hold only indices of points of the stream, and
/// none of them has fewer than three.
pub proof fn lemma_kept_ways_sound(s: Seq<Element>, refs: Seq<Seq<i64>>)
    requires
        s.len() <= usize::MAX,
    ensures
        ways_in_range(kept_ways(stream_ids(s), refs), stream_points(s).len()),
        ways_long(kept_ways(stream_ids(s), refs)),
    decreases refs.len(),
{
    let ids = stream_ids(s);
    let kept = kept_ways(ids, refs);
    if refs.len() > 0 {
        let rest = kept_ways(ids, refs.drop_last());
        lemma_kept_ways_sound(s, refs.drop_last());
        let way = resolve(ids, refs.last());
        assert forall|w: int, i: int| 0 <= w < kept.len() && 0 <= i < kept[w].len() implies (
        #[trigger] kept[w][i]) < stream_points(s).len() by {
            if w < rest.len() {
                assert(kept[w] == rest[w]);
                assert(rest[w][i] < stream_points(s).len());
            } else {
                lemma_resolve_values(ids, refs.last(), i);
                let id = choose|id: i64| ids.contains_key(id) && #[trigger] ids[id] == way[i];
                lemma_ids_in_range(s, id);
            }
        }
        assert forall|w: int| 0 <= w < kept.len() implies (#[trigger] kept[w]).len() >= 3 by {
            if w < rest.len() {
                assert(kept[w] == rest[w]);
            }
        }
    }
}

proof fn lemma_kept_len(ids: Map<i64, usize>, refs: Seq<Seq<i64>>)
    ensures
        kept_ways(ids, refs).len() <= refs.len(),
    decreases refs.len(),
{
    if refs.len() > 0 {
        lemma_kept_len(ids, refs.drop_last());
    }
}

impl OSM {
    /// The positions of the points, by dense index.
    pub closed spec fn points(&self) -> Seq<Point> {
        Seq::new(self.nodes@.len(), |i: int| self.nodes@[i].pos)
    }

    /// The tag sets of the points, by dense index.
    pub closed spec fn tag_sets(&self) -> Seq<TagSet> {
        Seq::new(self.nodes@.len(), |i: int| self.nodes@[i].tags)
    }

    /// The ways, each a sequence of dense indices.
    pub closed spec fn way_seqs(&self) -> Seq<Seq<usize>> {
        Seq::new(self.ways@.len(), |i: int| self.ways@[i]@)
    }

    /// The two corners of the bounding box: the least one, then the greatest.
    pub closed spec fn bounds(&self) -> (Point, Point) {
        (self.min, self.max)
    }

    /// The number of ways that loading rejected.
    pub closed spec fn small_way_count(&self) -> nat {
        self.small_ways as nat
    }

    /// The number of way references that loading dropped.
    pub closed spec fn dangling_ref_count(&self) -> nat {
        self.dangling_refs as nat
    }

    /// The dataset is consistent: way indices address points, no way is shorter than
    /// three points, the bounding box is that of the points, and tag keys are unique.
    pub open spec fn wf(&self) -> bool {
        &&& self.tag_sets().len() == self.points().len()
        &&& ways_in_range(self.way_seqs(), self.points().len())
        &&& ways_long(self.way_seqs())
        &&& self.bounds() == (min_corner(self.points()), max_corner(self.points()))
        &&& forall|i: int| 0 <= i < self.tag_sets().len() ==> (#[trigger] self.tag_sets()[i]).wf()
    }

    /// The number of points.
    pub fn node_count(&self) -> (n: usize)
        ensures
            n == self.points().len(),
    {
        self.nodes.len()
    }

    /// The position of the point with dense index `i`.
    pub fn position(&self, i: usize) -> (p: Point)
        requires
            i < self.points().len(),
        ensures
            p == self.points()[i as int],
    {
        self.nodes[i].pos
    }

    /// The tag set of the point with dense index `i`.
    pub fn tags(&self, i: usize) -> (t: &TagSet)
        requires
            i < self.points().len(),
        ensures
            *t == self.tag_sets()[i as int],
    {
        &self.nodes[i].tags
    }

    /// The ways, each a list of dense indices.
    pub fn ways(&self) -> (ways: &Vec<Vec<usize>>)
        ensures
            ways@.len() == self.way_seqs().len(),
            forall|w: int| 0 <= w < ways@.len() ==> (#[trigger] ways@[w])@ == self.way_seqs()[w],
    {
        &self.ways
    }

    /// The corner of the bounding box with the least coordinates.
    pub fn min(&self) -> (p: Point)
        ensures
            p == self.bounds().0,
    {
        self.min
    }

    /// The corner of the bounding box with the greatest coordinates.
    pub fn max(&self) -> (p: Point)
        ensures
            p == self.bounds().1,
    {
        self.max
    }

    /// The number of ways that loading rejected for having at most two resolved references.
    pub fn small_ways(&self) -> (n: usize)
        ensures
            n == self.small_way_count(),
    {
        self.small_ways
    }

    /// The number of way references that loading dropped because no point has the id.
    pub fn dangling_refs(&self) -> (n: u128)
        ensures
            n == self.dangling_ref_count(),
    {
        self.dangling_refs
    }

    /// Takes the tag "name" out of point `i`, and returns its value, if the point has
    /// the tag.
    pub(crate) fn take_name(&mut self, i: usize) -> (name: Option<String>)
        requires
            old(self).wf(),
            i < old(self).points().len(),
        ensures
            final(self).wf(),
            final(self).points() == old(self).points(),
            final(self).way_seqs() == old(self).way_seqs(),
            final(self).bounds() == old(self).bounds(),
            final(self).small_way_count() == old(self).small_way_count(),
            final(self).dangling_ref_count() == old(self).dangling_ref_count(),
            final(self).tag_sets().len() == old(self).tag_sets().len(),
            forall|j: int|
                0 <= j < final(self).tag_sets().len() && j != i ==> final(self).tag_sets()[j]
                    == old(self).tag_sets()[j],
            final(self).tag_sets()[i as int]@ == old(self).tag_sets()[i as int]@.remove("name"@),
            match name {
                Some(n) => old(self).tag_sets()[i as int]@.contains_key("name"@) && n@ == old(
                    self,
                ).tag_sets()[i as int]@["name"@],
                None => !old(self).tag_sets()[i as int]@.contains_key("name"@),
            },
    {
        proof {
            assert(old(self).tag_sets()[i as int].wf());
        }
        let name = self.nodes[i].tags.remove("name");
        proof {
            assert(final(self).points() =~= old(self).points());
            assert(final(self).way_seqs() =~= old(self).way_seqs());
            assert forall|j: int| 0 <= j < final(self).tag_sets().len() implies (
            #[trigger] final(self).tag_sets()[j]).wf() by {
                if j != i {
                    assert(final(self).tag_sets()[j] == old(self).tag_sets()[j]);
                }
            }
        }
        name
    }

    /// Builds the dataset of a stream of records. Each point gets the next dense index.
    /// Way references are resolved through the ids of the whole stream: a reference to
    /// an unknown id is dropped, and a way that keeps at most two references is rejected.
    pub fn load(stream: Vec<Element>) -> (osm: OSM)
        requires
            forall|i: int|
                0 <= i < stream@.len() ==> (#[trigger] stream@[i] matches Element::Node {
                    tags,
                    ..
                } ==> tags.wf()),
        ensures
            osm.wf(),
            ways_in_range(osm.way_seqs(), osm.points().len()),
            ways_long(osm.way_seqs()),
            osm.points() == stream_points(stream@),
            osm.tag_sets() == stream_tags(stream@),
            osm.way_seqs() == kept_ways(stream_ids(stream@), stream_refs(stream@)),
            osm.small_way_count() == rejected_ways(stream_ids(stream@), stream_refs(stream@)),
            osm.dangling_ref_count() == dangling_refs(stream_ids(stream@), stream_refs(stream@)),
    {
        let mut ids: HashMap<i64, usize> = HashMap::new();
        let mut nodes: Vec<Node> = Vec::new();
        let mut raw: Vec<Vec<i64>> = Vec::new();
        let mut min = Point { x: i32::MAX, y: i32::MAX };
        let mut max = Point { x: i32::MIN, y: i32::MIN };
        for e in it: stream
            invariant
                it.seq() == stream@,
                forall|i: int|
                    0 <= i < stream@.len() ==> (#[trigger] stream@[i] matches Element::Node {
                        tags,
                        ..
                    } ==> tags.wf()),
                Seq::new(nodes@.len(), |i: int| nodes@[i].pos) == stream_points(
                    stream@.take(it.index() as int),
                ),
                Seq::new(nodes@.len(), |i: int| nodes@[i].tags) == stream_tags(
                    stream@.take(it.index() as int),
                ),
                ids@ == stream_ids(stream@.take(it.index() as int)),
                Seq::new(raw@.len(), |i: int| raw@[i]@) == stream_refs(
                    stream@.take(it.index() as int),
                ),
                min == min_corner(stream_points(stream@.take(it.index() as int))),
                max == max_corner(stream_points(stream@.take(it.index() as int))),
                forall|k: i64| ids@.contains_key(k) ==> (#[trigger] ids@[k]) < nodes@.len(),
                forall|i: int| 0 <= i < nodes@.len() ==> (#[trigger] nodes@[i]).tags.wf(),
        {
            let ghost k = it.index() as int;
            let ghost before = stream@.take(k);
            let ghost after = stream@.take(k + 1);
            proof {
                assert(after.drop_last() =~= before);
                assert(after.last() == stream@[k]);
                assert(stream@[k] == e);
            }
            let ghost old_nodes = nodes@;
            let ghost old_raw = raw@;
            match e {
                Element::Node { id, pos, tags } => {
                    ids.insert(id, nodes.len());
                    if pos.x < min.x {
                        min.x = pos.x;
                    }
                    if pos.y < min.y {
                        min.y = pos.y;
                    }
                    if pos.x > max.x {
                        max.x = pos.x;
                    }
                    if pos.y > max.y {
                        max.y = pos.y;
                    }
                    nodes.push(Node { pos, tags });
                    proof {
                        assert(stream_points(after) == stream_points(before).push(pos));
                        assert(stream_points(after).drop_last() =~= stream_points(before));
                        assert(stream_points(after).last() == pos);
                        assert(Seq::new(nodes@.len(), |i: int| nodes@[i].pos) =~= Seq::new(
                            old_nodes.len(),
                            |i: int| old_nodes[i].pos,
                        ).push(pos));
                        assert(Seq::new(nodes@.len(), |i: int| nodes@[i].tags) =~= Seq::new(
                            old_nodes.len(),
                            |i: int| old_nodes[i].tags,
                        ).push(tags));
                    }
                },
                Element::Way { refs } => {
                    raw.push(refs);
                    proof {
                        assert(Seq::new(raw@.len(), |i: int| raw@[i]@) =~= Seq::new(
                            old_raw.len(),
                            |i: int| old_raw[i]@,
                        ).push(refs@));
                    }
                },
                Element::Relation => {},
            }
        }
        proof {
            assert(stream@.take(stream@.len() as int) =~= stream@);
        }
        let ghost all_ids = ids@;
        let ghost all_refs = Seq::new(raw@.len(), |i: int| raw@[i]@);
        let mut ways: Vec<Vec<usize>> = Vec::new();
        let mut small_ways: usize = 0;
        let mut dangling: u128 = 0;
        let mut w: usize = 0;
        while w < raw.len()
            invariant
                w <= raw@.len(),
                ids@ == all_ids,
                all_refs == Seq::new(raw@.len(), |i: int| raw@[i]@),
                forall|k: i64| ids@.contains_key(k) ==> (#[trigger] ids@[k]) < nodes@.len(),
                Seq::new(ways@.len(), |i: int| ways@[i]@) == kept_ways(
                    all_ids,
                    all_refs.take(w as int),
                ),
                small_ways == rejected_ways(all_ids, all_refs.take(w as int)),
                dangling == dangling_refs(all_ids, all_refs.take(w as int)),
                dangling <= w * 0x1_0000_0000_0000_0000,
                ways_in_range(Seq::new(ways@.len(), |i: int| ways@[i]@), nodes@.len() as nat),
                ways_long(Seq::new(ways@.len(), |i: int| ways@[i]@)),
            decreases raw@.len() - w,
        {
            let refs = &raw[w];
            let mut way: Vec<usize> = Vec::new();
            let mut r: usize = 0;
            while r < refs.len()
                invariant
                    r <= refs@.len(),
                    ids@ == all_ids,
                    forall|k: i64| ids@.contains_key(k) ==> (#[trigger] ids@[k]) < nodes@.len(),
                    way@ == resolve(all_ids, refs@.take(r as int)),
                    forall|i: int| 0 <= i < way@.len() ==> (#[trigger] way@[i]) < nodes@.len(),
                    way@.len() <= r,
                decreases refs@.len() - r,
            {
                proof {
                    assert(refs@.take(r + 1).drop_last() =~= refs@.take(r as int));
                    assert(refs@.take(r + 1).last() == refs@[r as int]);
                }
                match ids.get(&refs[r]) {
                    Some(index) => {
                        way.push(*index);
                    },
                    None => {},
                }
                r += 1;
            }
            proof {
                assert(refs@.take(refs@.len() as int) =~= refs@);
                assert(all_refs.take(w + 1).drop_last() =~= all_refs.take(w as int));
                assert(all_refs.take(w + 1).last() == refs@);
                lemma_kept_len(all_ids, all_refs.take(w as int));
                lemma_kept_len(all_ids, all_refs.take(w + 1));
            }
            let missing: usize = refs.len() - way.len();
            dangling = dangling + missing as u128;
            let ghost old_ways = ways@;
            if way.len() > 2 {
                ways.push(way);
                proof {
                    assert(Seq::new(ways@.len(), |i: int| ways@[i]@) =~= Seq::new(
                        old_ways.len(),
                        |i: int| old_ways[i]@,
                    ).push(way@));
                }
            } else {
                small_ways += 1;
            }
            w += 1;
        }
        proof {
            assert(all_refs.take(raw@.len() as int) =~= all_refs);
        }
        OSM { nodes, min, max, ways, small_ways, dangling_refs: dangling }
    }
}

} // verus!
