//! The dynamically built trail network.
//!
//! Trail topology lives in an append-only arena: each entry holds a
//! coordinate, a segment descriptor (a plain waypoint with a width, or a
//! connection onto another trail at a distance along it), and the indices
//! of its adjacent entries.  References are arena indices, never pointers;
//! they stay valid for the arena's lifetime.  The arena keeps two
//! invariants: every stored reference is in bounds, and adjacency is
//! mutual — if entry A references entry B, entry B references entry A.

use crate::coord::GridCoord;
use crate::graph::{GraphLayer, SpecialPoint};
use crate::terrain::TerrainPoint;
use vstd::prelude::*;

verus! {

/// A stable reference to a trail arena entry.
#[derive(Clone, Copy, Debug, PartialEq, Eq, Structural, PartialOrd, Ord)]
pub struct TrailRef {
    index: usize,
}

impl TrailRef {
    /// The arena slot this reference names.
    pub closed spec fn idx(self) -> int {
        self.index as int
    }
}

/// What kind of trail entry this is.
#[derive(Clone, Copy, Debug, PartialEq, Eq, Structural)]
pub enum TrailSegment {
    /// A plain waypoint with the trail's width there.
    Segment { radius: u32 },
    /// A branch onto another trail: which entry it joins, how far along
    /// that trail the join sits, and the width of the branch.
    Connection { connected: TrailRef, connected_distance: u32, radius: u32 },
}

/// Why a trail edit was rejected.
#[derive(Clone, Copy, Debug, PartialEq, Eq, Structural)]
pub enum TrailError {
    /// The given reference names no entry of this arena.
    RefDoesNotExist(TrailRef),
    InvalidSegmentType,
    ToFarDownTrail,
}

/// One arena entry.
struct TrailNode {
    coord: GridCoord,
    references: Vec<TrailRef>,
    segment: TrailSegment,
}

/// The mathematical shape of an arena entry: its coordinate, the indices
/// of its neighbors, and its segment descriptor.
pub struct TrailNodeModel {
    pub coord: GridCoord,
    pub references: Seq<int>,
    pub segment: TrailSegment,
}

impl View for TrailNode {
    type V = TrailNodeModel;

    closed spec fn view(&self) -> TrailNodeModel {
        TrailNodeModel {
            coord: self.coord,
            references: self.references@.map_values(|r: TrailRef| r.idx()),
            segment: self.segment,
        }
    }
}

/// Every stored reference is in bounds, and adjacency is mutual: if entry
/// `i` references entry `r`, entry `r` references entry `i` back.
pub open spec fn trails_wf(s: Seq<TrailNodeModel>) -> bool {
    &&& forall|i: int, j: int|
        0 <= i < s.len() && 0 <= j < s[i].references.len() ==> 0 <= #[trigger] s[i].references[j]
            < s.len()
    &&& forall|i: int, j: int|
        0 <= i < s.len() && 0 <= j < s[i].references.len() ==> s[#[trigger] s[i].references[j]].references.contains(
            i,
        )
}

/// The arena index of the first entry stored at `coord`, scanning from
/// slot `from`.
pub open spec fn first_at(s: Seq<TrailNodeModel>, coord: GridCoord, from: int) -> Option<int>
    decreases s.len() - from,
{
    if from < 0 || from >= s.len() {
        None
    } else if s[from].coord == coord {
        Some(from)
    } else {
        first_at(s, coord, from + 1)
    }
}

/// The width stored in a segment descriptor.
pub open spec fn radius_of(seg: TrailSegment) -> u32 {
    match seg {
        TrailSegment::Segment { radius } => radius,
        TrailSegment::Connection { radius, .. } => radius,
    }
}

/// The children contributed by the trail network at `coord`, scanning
/// entries from slot `from`: the coordinates of all entries adjacent (by
/// stored reference, not spatial distance) to any entry whose stored
/// coordinate equals `coord`, in arena order.
pub open spec fn trail_children_from(
    s: Seq<TrailNodeModel>,
    coord: GridCoord,
    from: int,
) -> Seq<(GridCoord, TerrainPoint)>
    decreases s.len() - from,
{
    if from < 0 || from >= s.len() {
        Seq::empty()
    } else {
        let here = if s[from].coord == coord {
            s[from].references.map_values(|r: int| (s[r].coord, TerrainPoint::Trail))
        } else {
            Seq::empty()
        };
        here + trail_children_from(s, coord, from + 1)
    }
}

/// The children contributed by the trail network at `coord`: the union,
/// over every entry stored at `coord`, of that entry's neighbors.
pub open spec fn trail_children(s: Seq<TrailNodeModel>, coord: GridCoord) -> Seq<
    (GridCoord, TerrainPoint),
> {
    trail_children_from(s, coord, 0)
}

/// A scan that finds no entry at `coord` passed none.
pub proof fn lemma_first_at_none(s: Seq<TrailNodeModel>, coord: GridCoord, from: int)
    requires
        0 <= from <= s.len(),
        first_at(s, coord, from) is None,
    ensures
        forall|i: int| from <= i < s.len() ==> (#[trigger] s[i]).coord != coord,
    decreases s.len() - from,
{
    if from < s.len() {
        lemma_first_at_none(s, coord, from + 1);
    }
}

/// The arena after `add_trail`: two new mutually referencing waypoints.
pub open spec fn spec_add_trail(
    s: Seq<TrailNodeModel>,
    start: GridCoord,
    start_radius: u32,
    end: GridCoord,
    end_radius: u32,
) -> Seq<TrailNodeModel> {
    s.push(
        TrailNodeModel {
            coord: start,
            references: seq![s.len() as int + 1],
            segment: TrailSegment::Segment { radius: start_radius },
        },
    ).push(
        TrailNodeModel {
            coord: end,
            references: seq![s.len() as int],
            segment: TrailSegment::Segment { radius: end_radius },
        },
    )
}

/// The arena after a successful `append_trail`: one new waypoint
/// referencing `src`, and `src` referencing it back.
pub open spec fn spec_append_trail(
    s: Seq<TrailNodeModel>,
    src: int,
    coord: GridCoord,
    radius: u32,
) -> Seq<TrailNodeModel> {
    s.update(
        src,
        TrailNodeModel { references: s[src].references.push(s.len() as int), ..s[src] },
    ).push(
        TrailNodeModel {
            coord,
            references: seq![src],
            segment: TrailSegment::Segment { radius },
        },
    )
}

/// The arena after a successful `connect_trail`: one new connection entry
/// at the target's coordinate referencing both ends, and both ends
/// referencing it back.
pub open spec fn spec_connect_trail(
    s: Seq<TrailNodeModel>,
    src: int,
    onto: int,
    onto_ref: TrailRef,
    distance: u32,
    radius: u32,
) -> Seq<TrailNodeModel> {
    let k = s.len() as int;
    let s1 = s.update(
        onto,
        TrailNodeModel { references: s[onto].references.push(k), ..s[onto] },
    );
    let s2 = s1.update(
        src,
        TrailNodeModel { references: s1[src].references.push(k), ..s1[src] },
    );
    s2.push(
        TrailNodeModel {
            coord: s[onto].coord,
            references: seq![onto, src],
            segment: TrailSegment::Connection {
                connected: onto_ref,
                connected_distance: distance,
                radius,
            },
        },
    )
}

/// The undirected connecting segments of the arena as coordinate pairs,
/// scanning entries from `i` and entry `i`'s references from `j`, with
/// `visited` holding the directed index pairs already walked.  Each
/// undirected pair is emitted exactly once because both directions are
/// recorded when one is emitted; connection entries are walked like plain
/// waypoints.
pub open spec fn paths_from(
    s: Seq<TrailNodeModel>,
    i: int,
    j: int,
    visited: Set<(int, int)>,
) -> Seq<(GridCoord, GridCoord)>
    decreases s.len() - i, ref_count(s, i) - j,
{
    if i < 0 || i >= s.len() {
        Seq::empty()
    } else if j < 0 || j >= s[i].references.len() {
        paths_from(s, i + 1, 0, visited)
    } else {
        let r = s[i].references[j];
        if visited.contains((i, r)) {
            paths_from(s, i, j + 1, visited)
        } else {
            seq![(s[i].coord, s[r].coord)] + paths_from(
                s,
                i,
                j + 1,
                visited.insert((i, r)).insert((r, i)),
            )
        }
    }
}

/// The number of references of entry `i` (zero out of range).
pub open spec fn ref_count(s: Seq<TrailNodeModel>, i: int) -> int {
    if 0 <= i < s.len() {
        s[i].references.len() as int
    } else {
        0
    }
}

/// All connecting segments of the arena, each undirected edge once.
pub open spec fn spec_iter_paths(s: Seq<TrailNodeModel>) -> Seq<(GridCoord, GridCoord)> {
    paths_from(s, 0, 0, Set::empty())
}

/// The ghost visited set holds exactly the pairs recorded in the vector.
spec fn visited_matches(vs: Seq<(usize, usize)>, vset: Set<(int, int)>) -> bool {
    forall|p: (int, int)|
        #[trigger] vset.contains(p) <==> exists|k: int|
            0 <= k < vs.len() && (#[trigger] vs[k]).0 == p.0 && vs[k].1 == p.1
}

/// A collection of trails.
pub struct TrailCollection {
    arena: Vec<TrailNode>,
}

impl View for TrailCollection {
    type V = Seq<TrailNodeModel>;

    closed spec fn view(&self) -> Seq<TrailNodeModel> {
        self.arena@.map_values(|n: TrailNode| n@)
    }
}

impl TrailCollection {
    /// The arena's invariants always hold.
    #[verifier::type_invariant]
    spec fn inv(self) -> bool {
        trails_wf(self@)
    }

    /// The number of arena entries.
    pub fn len(&self) -> (r: usize)
        ensures
            r == self@.len(),
    {
        self.arena.len()
    }

    /// Adds a small set of trails to the map: two connected waypoints,
    /// returning a reference to each.
    pub fn add_trail(
        &mut self,
        start: GridCoord,
        start_radius: u32,
        end: GridCoord,
        end_radius: u32,
    ) -> (r: (TrailRef, TrailRef))
        ensures
            final(self)@ == spec_add_trail(old(self)@, start, start_radius, end, end_radius),
            r.0.idx() == old(self)@.len(),
            r.1.idx() == old(self)@.len() + 1,
    {
        proof {
            use_type_invariant(&*self);
        }
        let mut arena: Vec<TrailNode> = Vec::new();
        std::mem::swap(&mut arena, &mut self.arena);
        let ghost s0 = arena@.map_values(|n: TrailNode| n@);
        let n = arena.len();
        let start_index = TrailRef { index: n };
        arena.push(
            TrailNode {
                coord: start,
                references: Vec::new(),
                segment: TrailSegment::Segment { radius: start_radius },
            },
        );
        let end_index = TrailRef { index: arena.len() };
        let mut end_refs: Vec<TrailRef> = Vec::new();
        end_refs.push(start_index);
        arena.push(
            TrailNode {
                coord: end,
                references: end_refs,
                segment: TrailSegment::Segment { radius: end_radius },
            },
        );
        let start_node = &mut arena[start_index.index];
        start_node.references.push(end_index);
        proof {
            let s2 = arena@.map_values(|n: TrailNode| n@);
            assert(s2 =~= spec_add_trail(s0, start, start_radius, end, end_radius)) by {
                assert(s2[s0.len() as int].references =~= seq![s0.len() as int + 1]);
                assert(s2[s0.len() as int + 1].references =~= seq![s0.len() as int]);
                assert forall|i: int| 0 <= i < s0.len() implies s2[i] == s0[i] by {
                    assert(arena@[i]@ == s0[i]);
                }
            }
            assert(trails_wf(s2)) by {
                lemma_wf_add_trail(s0, start, start_radius, end, end_radius);
            }
        }
        std::mem::swap(&mut arena, &mut self.arena);
        (start_index, end_index)
    }

    /// Extends the trail with a new waypoint connected to `src`; fails
    /// with `RefDoesNotExist` exactly when `src` names no entry.  On
    /// failure the collection is unchanged.
    pub fn append_trail(&mut self, src: TrailRef, coord: GridCoord, radius: u32) -> (r: Result<
        TrailRef,
        TrailError,
    >)
        ensures
            r is Ok <==> src.idx() < old(self)@.len(),
            match r {
                Ok(t) => {
                    &&& t.idx() == old(self)@.len()
                    &&& final(self)@ == spec_append_trail(old(self)@, src.idx(), coord, radius)
                },
                Err(e) => {
                    &&& e == TrailError::RefDoesNotExist(src)
                    &&& final(self)@ == old(self)@
                },
            },
    {
        proof {
            use_type_invariant(&*self);
        }
        if src.index >= self.arena.len() {
            return Err(TrailError::RefDoesNotExist(src));
        }
        let mut arena: Vec<TrailNode> = Vec::new();
        std::mem::swap(&mut arena, &mut self.arena);
        let ghost s0 = arena@.map_values(|n: TrailNode| n@);
        let n = arena.len();
        let new_node = TrailRef { index: n };
        arena.push(
            TrailNode {
                coord,
                references: vec![src],
                segment: TrailSegment::Segment { radius },
            },
        );
        let src_node = &mut arena[src.index];
        src_node.references.push(new_node);
        proof {
            let s2 = arena@.map_values(|n: TrailNode| n@);
            assert(s2 =~= spec_append_trail(s0, src.idx(), coord, radius)) by {
                assert(arena@[src.idx()]@.references =~= s0[src.idx()].references.push(
                    s0.len() as int,
                ));
                assert(s2[s0.len() as int].references =~= seq![src.idx()]);
                assert forall|i: int| 0 <= i < s0.len() && i != src.idx() implies s2[i] == s0[i] by {
                    assert(arena@[i]@ == s0[i]);
                }
            }
            lemma_wf_append_trail(s0, src.idx(), coord, radius);
        }
        std::mem::swap(&mut arena, &mut self.arena);
        Ok(new_node)
    }

    /// Connects the trail at `src_segment` onto the trail at
    /// `connected_to`, creating a branch entry that references both ends;
    /// fails with `RefDoesNotExist` naming the first invalid reference,
    /// leaving the collection unchanged.
    pub fn connect_trail(
        &mut self,
        src_segment: TrailRef,
        connected_to: TrailRef,
        distance: u32,
        radius: u32,
    ) -> (r: Result<TrailRef, TrailError>)
        ensures
            r is Ok <==> (src_segment.idx() < old(self)@.len() && connected_to.idx() < old(
                self,
            )@.len()),
            match r {
                Ok(t) => {
                    &&& t.idx() == old(self)@.len()
                    &&& final(self)@ == spec_connect_trail(
                        old(self)@,
                        src_segment.idx(),
                        connected_to.idx(),
                        connected_to,
                        distance,
                        radius,
                    )
                },
                Err(e) => {
                    &&& final(self)@ == old(self)@
                    &&& (if connected_to.idx() >= old(self)@.len() {
                        e == TrailError::RefDoesNotExist(connected_to)
                    } else {
                        e == TrailError::RefDoesNotExist(src_segment)
                    })
                },
            },
    {
        proof {
            use_type_invariant(&*self);
        }
        if connected_to.index >= self.arena.len() {
            return Err(TrailError::RefDoesNotExist(connected_to));
        }
        if src_segment.index >= self.arena.len() {
            return Err(TrailError::RefDoesNotExist(src_segment));
        }
        let mut arena: Vec<TrailNode> = Vec::new();
        std::mem::swap(&mut arena, &mut self.arena);
        let ghost s0 = arena@.map_values(|n: TrailNode| n@);
        let n = arena.len();
        let trail_connection = TrailRef { index: n };
        let end_segment_coord = arena[connected_to.index].coord;
        let mut refs: Vec<TrailRef> = Vec::new();
        refs.push(connected_to);
        refs.push(src_segment);
        arena.push(
            TrailNode {
                coord: end_segment_coord,
                references: refs,
                segment: TrailSegment::Connection {
                    connected: connected_to,
                    connected_distance: distance,
                    radius,
                },
            },
        );
        let onto_node = &mut arena[connected_to.index];
        onto_node.references.push(trail_connection);
        let src_node = &mut arena[src_segment.index];
        src_node.references.push(trail_connection);
        proof {
            let s2 = arena@.map_values(|n: TrailNode| n@);
            let model = spec_connect_trail(
                s0,
                src_segment.idx(),
                connected_to.idx(),
                connected_to,
                distance,
                radius,
            );
            assert(s2 =~= model) by {
                assert(s2[s0.len() as int].references =~= seq![
                    connected_to.idx(),
                    src_segment.idx(),
                ]);
                if src_segment.idx() == connected_to.idx() {
                    assert(arena@[src_segment.idx()]@.references
                        =~= s0[src_segment.idx()].references.push(s0.len() as int).push(
                        s0.len() as int,
                    ));
                } else {
                    assert(arena@[connected_to.idx()]@.references
                        =~= s0[connected_to.idx()].references.push(s0.len() as int));
                    assert(arena@[src_segment.idx()]@.references
                        =~= s0[src_segment.idx()].references.push(s0.len() as int));
                }
                assert forall|i: int|
                    0 <= i < s0.len() && i != src_segment.idx() && i
                        != connected_to.idx() implies s2[i] == s0[i] by {
                    assert(arena@[i]@ == s0[i]);
                }
            }
            lemma_wf_connect_trail(
                s0,
                src_segment.idx(),
                connected_to.idx(),
                connected_to,
                distance,
                radius,
            );
        }
        std::mem::swap(&mut arena, &mut self.arena);
        Ok(trail_connection)
    }

    /// All waypoint coordinates with their widths, in arena order.
    pub fn iter_trails(&self) -> (r: Vec<(GridCoord, u32)>)
        ensures
            r@ == self@.map_values(
                |n: TrailNodeModel| (n.coord, radius_of(n.segment)),
            ),
    {
        let mut out: Vec<(GridCoord, u32)> = Vec::new();
        let n = self.arena.len();
        let mut i: usize = 0;
        while i < n
            invariant
                i <= n,
                n == self@.len(),
                self@.len() == self.arena@.len(),
                forall|k: int|
                    0 <= k < self@.len() ==> #[trigger] self@[k] == self.arena@[k]@,
                out@ =~= self@.take(i as int).map_values(
                    |m: TrailNodeModel| (m.coord, radius_of(m.segment)),
                ),
            decreases n - i,
        {
            let node = &self.arena[i];
            let radius = match node.segment {
                TrailSegment::Connection { radius, .. } => radius,
                TrailSegment::Segment { radius } => radius,
            };
            out.push((node.coord, radius));
            proof {
                assert(self@.take(i as int + 1).map_values(
                    |m: TrailNodeModel| (m.coord, radius_of(m.segment)),
                ) =~= self@.take(i as int).map_values(
                    |m: TrailNodeModel| (m.coord, radius_of(m.segment)),
                ).push((self@[i as int].coord, radius_of(self@[i as int].segment))));
            }
            i = i + 1;
        }
        proof {
            assert(self@.take(n as int) =~= self@);
        }
        out
    }

    /// All distinct connecting segments as coordinate pairs, visiting each
    /// undirected edge exactly once; branch-connection entries are walked
    /// like plain waypoints.
    pub fn iter_paths(&self) -> (r: Vec<(GridCoord, GridCoord)>)
        ensures
            r@ == spec_iter_paths(self@),
    {
        proof {
            use_type_invariant(self);
        }
        let ghost s = self@;
        let mut out: Vec<(GridCoord, GridCoord)> = Vec::new();
        let mut visited: Vec<(usize, usize)> = Vec::new();
        let ghost vset = Set::<(int, int)>::empty();
        let mut vset_token: Ghost<Set<(int, int)>> = Ghost(vset);
        let n = self.arena.len();
        let mut i: usize = 0;
        while i < n
            invariant
                i <= n,
                n == s.len(),
                s == self@,
                trails_wf(s),
                self@.len() == self.arena@.len(),
                forall|k: int|
                    0 <= k < self@.len() ==> #[trigger] self@[k] == self.arena@[k]@,
                spec_iter_paths(s) =~= out@ + paths_from(s, i as int, 0, vset_token@),
                visited_matches(visited@, vset_token@),
            decreases n - i,
        {
            let nrefs = self.arena[i].references.len();
            let mut j: usize = 0;
            while j < nrefs
                invariant
                    j <= nrefs,
                    i < n,
                    n == s.len(),
                    s == self@,
                    trails_wf(s),
                    self@.len() == self.arena@.len(),
                    forall|k: int|
                        0 <= k < self@.len() ==> #[trigger] self@[k] == self.arena@[k]@,
                    nrefs == s[i as int].references.len(),
                    spec_iter_paths(s) =~= out@ + paths_from(s, i as int, j as int, vset_token@),
                    visited_matches(visited@, vset_token@),
                decreases nrefs - j,
            {
                let r = self.arena[i].references[j];
                proof {
                    assert(s[i as int].references[j as int] == r.idx());
                    assert(0 <= r.idx() < s.len());
                }
                let mut seen = false;
                let mut k: usize = 0;
                let nv = visited.len();
                while k < nv
                    invariant
                        k <= nv,
                        nv == visited@.len(),
                        i < n,
                        seen == exists|t: int|
                            0 <= t < k && (#[trigger] visited@[t]).0 == i && visited@[t].1
                                == r.index,
                    decreases nv - k,
                {
                    let (va, vb) = visited[k];
                    if va == i && vb == r.index {
                        seen = true;
                    }
                    k = k + 1;
                }
                proof {
                    if seen {
                        assert(vset_token@.contains((i as int, r.idx())));
                    } else {
                        if vset_token@.contains((i as int, r.idx())) {
                            let t = choose|t: int|
                                0 <= t < visited@.len() && (#[trigger] visited@[t]).0 == i as int
                                    && visited@[t].1 == r.idx();
                            assert(visited@[t].0 == i && visited@[t].1 == r.index);
                            assert(false);
                        }
                    }
                }
                if !seen {
                    let ghost old_visited = visited@;
                    let ghost old_vset = vset_token@;
                    out.push((self.arena[i].coord, self.arena[r.index].coord));
                    visited.push((i, r.index));
                    visited.push((r.index, i));
                    proof {
                        vset_token@ = old_vset.insert((i as int, r.idx())).insert(
                            (r.idx(), i as int),
                        );
                    }
                    proof {
                        assert(visited_matches(visited@, vset_token@)) by {
                            assert forall|p: (int, int)| #[trigger] vset_token@.contains(p)
                                implies exists|k2: int|
                                0 <= k2 < visited@.len() && (#[trigger] visited@[k2]).0 == p.0
                                    && visited@[k2].1 == p.1 by {
                                let l = visited@.len();
                                if p == (i as int, r.idx()) {
                                    assert(visited@[l - 2].0 == p.0 && visited@[l - 2].1 == p.1);
                                } else if p == (r.idx(), i as int) {
                                    assert(visited@[l - 1].0 == p.0 && visited@[l - 1].1 == p.1);
                                } else {
                                    assert(old_vset.contains(p));
                                    let k2 = choose|k2: int|
                                        0 <= k2 < old_visited.len() && (
                                        #[trigger] old_visited[k2]).0 == p.0 && old_visited[k2].1
                                            == p.1;
                                    assert(visited@[k2].0 == p.0 && visited@[k2].1 == p.1);
                                }
                            }
                            assert forall|p: (int, int)|
                                (exists|k2: int|
                                    0 <= k2 < visited@.len() && (#[trigger] visited@[k2]).0 == p.0
                                        && visited@[k2].1 == p.1) implies #[trigger] vset_token@.contains(
                                p,
                            ) by {
                                let k2 = choose|k2: int|
                                    0 <= k2 < visited@.len() && (#[trigger] visited@[k2]).0 == p.0
                                        && visited@[k2].1 == p.1;
                                let l = visited@.len();
                                if k2 < l - 2 {
                                    assert(old_visited[k2].0 == p.0 && old_visited[k2].1 == p.1);
                                    assert(old_vset.contains(p));
                                }
                            }
                        }
                    }
                }
                j = j + 1;
            }
            i = i + 1;
        }
        proof {
            assert(paths_from(s, n as int, 0, vset_token@) =~= Seq::<(GridCoord, GridCoord)>::empty());
        }
        out
    }
}

impl Default for TrailCollection {
    /// An empty trail network.
    fn default() -> (r: Self)
        ensures
            r@ =~= Seq::<TrailNodeModel>::empty(),
    {
        TrailCollection { arena: Vec::new() }
    }
}

/// `add_trail` preserves the arena invariants.
proof fn lemma_wf_add_trail(
    s: Seq<TrailNodeModel>,
    start: GridCoord,
    start_radius: u32,
    end: GridCoord,
    end_radius: u32,
)
    requires
        trails_wf(s),
    ensures
        trails_wf(spec_add_trail(s, start, start_radius, end, end_radius)),
{
    let s2 = spec_add_trail(s, start, start_radius, end, end_radius);
    assert forall|i: int, j: int|
        0 <= i < s2.len() && 0 <= j < s2[i].references.len() implies s2[#[trigger] s2[i].references[j]].references.contains(
        i,
    ) by {
        if i < s.len() {
            assert(s2[i] == s[i]);
            assert(s[s[i].references[j]].references.contains(i));
            assert(s2[s[i].references[j]] == s[s[i].references[j]]);
        } else if i == s.len() {
            assert(s2[i].references[j] == s.len() as int + 1);
            assert(s2[s.len() as int + 1].references[0] == i);
        } else {
            assert(s2[i].references[j] == s.len() as int);
            assert(s2[s.len() as int].references[0] == i);
        }
    }
}

/// `append_trail` preserves the arena invariants.
proof fn lemma_wf_append_trail(s: Seq<TrailNodeModel>, src: int, coord: GridCoord, radius: u32)
    requires
        trails_wf(s),
        0 <= src < s.len(),
    ensures
        trails_wf(spec_append_trail(s, src, coord, radius)),
{
    let s2 = spec_append_trail(s, src, coord, radius);
    let k = s.len() as int;
    assert forall|i: int, j: int|
        0 <= i < s2.len() && 0 <= j < s2[i].references.len() implies s2[#[trigger] s2[i].references[j]].references.contains(
        i,
    ) by {
        if i == k {
            assert(s2[i].references[j] == src);
            assert(s2[src].references.last() == k);
        } else if i == src {
            if j < s[src].references.len() {
                let r = s[src].references[j];
                assert(s[r].references.contains(i));
                if r == src {
                    assert(s2[r].references.contains(i)) by {
                        let t = choose|t: int|
                            0 <= t < s[r].references.len() && s[r].references[t] == i;
                        assert(s2[r].references[t] == i);
                    }
                } else {
                    assert(s2[r] == s[r]);
                }
            } else {
                assert(s2[i].references[j] == k);
                assert(s2[k].references[0] == src);
            }
        } else {
            assert(s2[i] == s[i]);
            let r = s[i].references[j];
            assert(s[r].references.contains(i));
            if r == src {
                let t = choose|t: int| 0 <= t < s[r].references.len() && s[r].references[t] == i;
                assert(s2[r].references[t] == i);
            } else {
                assert(s2[r] == s[r]);
            }
        }
    }
}

/// `connect_trail` preserves the arena invariants.
proof fn lemma_wf_connect_trail(
    s: Seq<TrailNodeModel>,
    src: int,
    onto: int,
    onto_ref: TrailRef,
    distance: u32,
    radius: u32,
)
    requires
        trails_wf(s),
        0 <= src < s.len(),
        0 <= onto < s.len(),
    ensures
        trails_wf(spec_connect_trail(s, src, onto, onto_ref, distance, radius)),
{
    let s2 = spec_connect_trail(s, src, onto, onto_ref, distance, radius);
    let k = s.len() as int;
    assert forall|i: int, j: int|
        0 <= i < s2.len() && 0 <= j < s2[i].references.len() implies s2[#[trigger] s2[i].references[j]].references.contains(
        i,
    ) by {
        if i == k {
            if j == 0 {
                assert(s2[i].references[j] == onto);
                assert(s2[onto].references.contains(k)) by {
                    assert(s2[onto].references.last() == k
                        || s2[onto].references[s[onto].references.len() as int] == k);
                }
            } else {
                assert(s2[i].references[j] == src);
                assert(s2[src].references.last() == k);
            }
        } else {
            let r = s2[i].references[j];
            if (i == onto || i == src) && j >= s[i].references.len() {
                assert(r == k);
                assert(s2[k].references[0] == onto && s2[k].references[1] == src);
            } else {
                assert(r == s[i].references[j]);
                assert(s[r].references.contains(i));
                if r == onto || r == src {
                    let t = choose|t: int|
                        0 <= t < s[r].references.len() && s[r].references[t] == i;
                    assert(s2[r].references[t] == i);
                } else {
                    assert(s2[r] == s[r]);
                }
            }
        }
    }
}

impl GraphLayer<TerrainPoint> for TrailCollection {
    /// Every trail waypoint is a special point.
    open spec fn spec_special_points(&self) -> Seq<(SpecialPoint, GridCoord)> {
        self@.map_values(|n: TrailNodeModel| (SpecialPoint::Trail, n.coord))
    }

    open spec fn spec_children(&self, coord: GridCoord) -> Seq<(GridCoord, TerrainPoint)> {
        trail_children(self@, coord)
    }

    open spec fn spec_node(&self, coord: GridCoord) -> Option<TerrainPoint> {
        if first_at(self@, coord, 0) is Some {
            Some(TerrainPoint::Trail)
        } else {
            None
        }
    }

    fn get_special_pooints(&self) -> (r: Vec<(SpecialPoint, GridCoord)>) {
        let mut out: Vec<(SpecialPoint, GridCoord)> = Vec::new();
        let n = self.arena.len();
        let mut i: usize = 0;
        while i < n
            invariant
                i <= n,
                n == self@.len(),
                self@.len() == self.arena@.len(),
                forall|k: int|
                    0 <= k < self@.len() ==> #[trigger] self@[k] == self.arena@[k]@,
                out@ =~= self@.take(i as int).map_values(
                    |m: TrailNodeModel| (SpecialPoint::Trail, m.coord),
                ),
            decreases n - i,
        {
            out.push((SpecialPoint::Trail, self.arena[i].coord));
            proof {
                assert(self@.take(i as int + 1).map_values(
                    |m: TrailNodeModel| (SpecialPoint::Trail, m.coord),
                ) =~= self@.take(i as int).map_values(
                    |m: TrailNodeModel| (SpecialPoint::Trail, m.coord),
                ).push((SpecialPoint::Trail, self@[i as int].coord)));
            }
            i = i + 1;
        }
        proof {
            assert(self@.take(n as int) =~= self@);
        }
        out
    }

    fn get_children(&self, coord: GridCoord) -> (r: Vec<(GridCoord, TerrainPoint)>) {
        proof {
            use_type_invariant(self);
        }
        let ghost s = self@;
        let n = self.arena.len();
        let mut out: Vec<(GridCoord, TerrainPoint)> = Vec::new();
        let mut i: usize = 0;
        while i < n
            invariant
                i <= n,
                n == s.len(),
                s == self@,
                trails_wf(s),
                self@.len() == self.arena@.len(),
                forall|k: int|
                    0 <= k < self@.len() ==> #[trigger] self@[k] == self.arena@[k]@,
                trail_children(s, coord) =~= out@ + trail_children_from(s, coord, i as int),
            decreases n - i,
        {
            if self.arena[i].coord == coord {
                let refs_len = self.arena[i].references.len();
                let mut j: usize = 0;
                while j < refs_len
                    invariant
                        j <= refs_len,
                        i < n,
                        n == s.len(),
                        s == self@,
                        trails_wf(s),
                        self@.len() == self.arena@.len(),
                        forall|k: int|
                            0 <= k < self@.len() ==> #[trigger] self@[k] == self.arena@[k]@,
                        s[i as int].coord == coord,
                        refs_len == s[i as int].references.len(),
                        trail_children(s, coord) =~= out@ + s[i as int].references.skip(
                            j as int,
                        ).map_values(|r: int| (s[r].coord, TerrainPoint::Trail))
                            + trail_children_from(s, coord, i as int + 1),
                    decreases refs_len - j,
                {
                    let r = self.arena[i].references[j];
                    proof {
                        assert(s[i as int].references[j as int] == r.idx());
                        assert(0 <= r.idx() < s.len());
                        assert(s[i as int].references.skip(j as int).map_values(
                            |t: int| (s[t].coord, TerrainPoint::Trail),
                        ) =~= seq![(s[r.idx()].coord, TerrainPoint::Trail)] + s[i as int].references.skip(
                            j as int + 1,
                        ).map_values(|t: int| (s[t].coord, TerrainPoint::Trail)));
                    }
                    out.push((self.arena[r.index].coord, TerrainPoint::Trail));
                    j = j + 1;
                }
                proof {
                    assert(s[i as int].references.skip(refs_len as int).map_values(
                        |t: int| (s[t].coord, TerrainPoint::Trail),
                    ) =~= Seq::<(GridCoord, TerrainPoint)>::empty());
                }
            }
            i = i + 1;
        }
        proof {
            assert(trail_children_from(s, coord, n as int)
                =~= Seq::<(GridCoord, TerrainPoint)>::empty());
        }
        out
    }

    fn get_node(&self, coord: GridCoord) -> (r: Option<TerrainPoint>) {
        let ghost s = self@;
        let n = self.arena.len();
        let mut i: usize = 0;
        while i < n
            invariant
                i <= n,
                n == s.len(),
                s == self@,
                self@.len() == self.arena@.len(),
                forall|k: int|
                    0 <= k < self@.len() ==> #[trigger] self@[k] == self.arena@[k]@,
                first_at(s, coord, 0) == first_at(s, coord, i as int),
            decreases n - i,
        {
            if self.arena[i].coord == coord {
                return Some(TerrainPoint::Trail);
            }
            i = i + 1;
        }
        None
    }
}

/// After adding a trail from `a` to `b` to a collection with no entry at
/// either coordinate, the children of `a` are exactly `b` and the
/// children of `b` are exactly `a`: a fresh trail is symmetric.
pub proof fn lemma_add_trail_children(
    s: Seq<TrailNodeModel>,
    a: GridCoord,
    wa: u32,
    b: GridCoord,
    wb: u32,
)
    requires
        a != b,
        first_at(s, a, 0) is None,
        first_at(s, b, 0) is None,
    ensures
        trail_children(spec_add_trail(s, a, wa, b, wb), a) =~= seq![(b, TerrainPoint::Trail)],
        trail_children(spec_add_trail(s, a, wa, b, wb), b) =~= seq![(a, TerrainPoint::Trail)],
{
    let s2 = spec_add_trail(s, a, wa, b, wb);
    let n = s.len() as int;
    assert(s2.len() == n + 2);
    assert forall|i: int| 0 <= i < s.len() implies s2[i] == s[i] by {}
    lemma_first_at_none(s, a, 0);
    lemma_first_at_none(s, b, 0);
    assert forall|i: int| 0 <= i < n implies (#[trigger] s2[i]).coord != a && s2[i].coord != b by {
        assert(s2[i] == s[i]);
    }
    lemma_trail_children_skip(s2, a, 0, n);
    lemma_trail_children_skip(s2, b, 0, n);
    assert(s2[n].coord == a);
    assert(s2[n + 1].coord == b);
    assert(s2[n].references =~= seq![n + 1]);
    assert(s2[n + 1].references =~= seq![n]);
    assert(trail_children_from(s2, a, n + 2) =~= Seq::<(GridCoord, TerrainPoint)>::empty());
    assert(trail_children_from(s2, b, n + 2) =~= Seq::<(GridCoord, TerrainPoint)>::empty());
    assert(trail_children_from(s2, a, n + 1) =~= Seq::<(GridCoord, TerrainPoint)>::empty());
    assert(trail_children_from(s2, b, n + 1) =~= seq![n].map_values(
        |r: int| (s2[r].coord, TerrainPoint::Trail),
    ));
    assert(seq![n + 1].map_values(|r: int| (s2[r].coord, TerrainPoint::Trail)) =~= seq![
        (b, TerrainPoint::Trail),
    ]);
    assert(seq![n].map_values(|r: int| (s2[r].coord, TerrainPoint::Trail)) =~= seq![
        (a, TerrainPoint::Trail),
    ]);
    assert(trail_children_from(s2, a, n) =~= seq![(b, TerrainPoint::Trail)]);
    assert(trail_children_from(s2, b, n) =~= seq![(a, TerrainPoint::Trail)]);
}

/// Entries that do not sit at `coord` contribute no children: the scan
/// may start past them.
proof fn lemma_trail_children_skip(
    s: Seq<TrailNodeModel>,
    coord: GridCoord,
    from: int,
    to: int,
)
    requires
        0 <= from <= to <= s.len(),
        forall|i: int| from <= i < to ==> (#[trigger] s[i]).coord != coord,
    ensures
        trail_children_from(s, coord, from) =~= trail_children_from(s, coord, to),
    decreases to - from,
{
    if from < to {
        lemma_trail_children_skip(s, coord, from + 1, to);
        assert(trail_children_from(s, coord, from) =~= Seq::<(GridCoord, TerrainPoint)>::empty()
            + trail_children_from(s, coord, from + 1));
    }
}


} // verus!
