//! The connectivity grouping algorithm: merges the raw pairwise wire list
//! into disjoint groups of electrically shorted pins, the connected
//! components of the wiring graph.

use vstd::prelude::*;

use crate::pins::ChipPin;
use crate::pins::pin_eq;

verus! {

/// Whether some member of group `g` has identity `id`.
pub open spec fn id_in_group(g: Seq<ChipPin>, id: (Seq<char>, Seq<char>)) -> bool {
    exists|m: int| 0 <= m < g.len() && g[m]@ == id
}

/// Whether `id` is an endpoint of some wire in `edges`.
pub open spec fn id_in_edges(edges: Seq<(ChipPin, ChipPin)>, id: (Seq<char>, Seq<char>)) -> bool {
    exists|k: int| 0 <= k < edges.len() && ((edges[k].0)@ == id || (edges[k].1)@ == id)
}

/// No two wires in `edges` join a pin to itself.
pub open spec fn edges_irreflexive(edges: Seq<(ChipPin, ChipPin)>) -> bool {
    forall|k: int| 0 <= k < edges.len() ==> (#[trigger] edges[k]).0@ != edges[k].1@
}

/// Whether some group of `groups` holds a pin with identity `id`.
pub open spec fn covered_by(groups: Seq<Vec<ChipPin>>, id: (Seq<char>, Seq<char>)) -> bool {
    exists|g: int| 0 <= g < groups.len() && id_in_group(groups[g]@, id)
}

/// Whether one group of `groups` holds pins with both identities.
pub open spec fn grouped_together(
    groups: Seq<Vec<ChipPin>>,
    a: (Seq<char>, Seq<char>),
    b: (Seq<char>, Seq<char>),
) -> bool {
    exists|g: int|
        0 <= g < groups.len() && id_in_group(groups[g]@, a) && id_in_group(groups[g]@, b)
}

/// `groups` partitions exactly the pins that occur in `edges`: every
/// endpoint lies in some group, every group member is an endpoint,
/// distinct groups share no pin, no group repeats a pin, the two ends of
/// every wire lie in one common group, and every group holds at least two
/// pins.
pub open spec fn valid_grouping(groups: Seq<Vec<ChipPin>>, edges: Seq<(ChipPin, ChipPin)>) -> bool {
    &&& forall|id: (Seq<char>, Seq<char>)| #[trigger] id_in_edges(edges, id)
            ==> covered_by(groups, id)
    &&& forall|g: int, m: int| 0 <= g < groups.len() && 0 <= m < groups[g]@.len()
            ==> id_in_edges(edges, (#[trigger] groups[g]@[m])@)
    &&& forall|g1: int, g2: int, m1: int, m2: int|
            0 <= g1 < groups.len() && 0 <= g2 < groups.len() && g1 != g2 && 0 <= m1
                < groups[g1]@.len() && 0 <= m2 < groups[g2]@.len()
            ==> (#[trigger] groups[g1]@[m1])@ != (#[trigger] groups[g2]@[m2])@
    &&& forall|g: int, m1: int, m2: int|
            0 <= g < groups.len() && 0 <= m1 < groups[g]@.len() && 0 <= m2 < groups[g]@.len()
                && m1 != m2
            ==> (#[trigger] groups[g]@[m1])@ != (#[trigger] groups[g]@[m2])@
    &&& forall|k: int| 0 <= k < edges.len()
            ==> grouped_together(groups, (#[trigger] edges[k]).0@, edges[k].1@)
    &&& forall|g: int, m1: int, m2: int|
            0 <= g < groups.len() && 0 <= m1 < groups[g]@.len() && 0 <= m2 < groups[g]@.len()
            ==> connected_ids(edges, (#[trigger] groups[g]@[m1])@, (#[trigger] groups[g]@[m2])@)
    &&& forall|g: int| 0 <= g < groups.len() ==> (#[trigger] groups[g])@.len() >= 2
}

/// Whether a single wire joins the identities `a` and `b`, in either
/// orientation.
pub open spec fn is_linked(
    edges: Seq<(ChipPin, ChipPin)>,
    a: (Seq<char>, Seq<char>),
    b: (Seq<char>, Seq<char>),
) -> bool {
    exists|k: int|
        0 <= k < edges.len() && (((#[trigger] edges[k]).0@ == a && edges[k].1@ == b) || (
        edges[k].0@ == b && edges[k].1@ == a))
}

/// Whether consecutive entries of `p` are each joined by a wire.
pub open spec fn is_path(edges: Seq<(ChipPin, ChipPin)>, p: Seq<(Seq<char>, Seq<char>)>) -> bool {
    forall|i: int| 0 <= i < p.len() - 1 ==> is_linked(edges, #[trigger] p[i], p[i + 1])
}

/// Whether a path of direct wires joins the identities `a` and `b`.
pub open spec fn connected_ids(
    edges: Seq<(ChipPin, ChipPin)>,
    a: (Seq<char>, Seq<char>),
    b: (Seq<char>, Seq<char>),
) -> bool {
    a == b || exists|p: Seq<(Seq<char>, Seq<char>)>|
        p.len() >= 2 && p[0] == a && p[p.len() - 1] == b && is_path(edges, p)
}

/// Two pins joined by a path of direct wires end in one common group:
/// the grouping respects the transitive closure of "directly wired to".
pub proof fn lemma_path_shares_group(
    groups: Seq<Vec<ChipPin>>,
    edges: Seq<(ChipPin, ChipPin)>,
    p: Seq<(Seq<char>, Seq<char>)>,
)
    requires
        valid_grouping(groups, edges),
        p.len() >= 2,
        is_path(edges, p),
    ensures
        grouped_together(groups, p[0], p[p.len() - 1]),
    decreases p.len(),
{
    if p.len() == 2 {
        assert(is_linked(edges, p[0], p[1]));
        let k = choose|k: int|
            0 <= k < edges.len() && (((edges[k]).0@ == p[0] && edges[k].1@ == p[1]) || (
            edges[k].0@ == p[1] && edges[k].1@ == p[0]));
        assert(grouped_together(groups, edges[k].0@, edges[k].1@));
        let g = choose|g: int|
            0 <= g < groups.len() && id_in_group(groups[g]@, edges[k].0@) && id_in_group(
                groups[g]@,
                edges[k].1@,
            );
        assert(id_in_group(groups[g]@, p[0]) && id_in_group(groups[g]@, p[1]));
    } else {
        let q = p.drop_last();
        assert(q.len() == p.len() - 1);
        assert forall|i: int| 0 <= i < q.len() - 1 implies is_linked(edges, #[trigger] q[i], q[i + 1]) by {
            assert(q[i] == p[i] && q[i + 1] == p[i + 1]);
            assert(is_linked(edges, p[i], p[i + 1]));
        };
        lemma_path_shares_group(groups, edges, q);
        let mid = p[p.len() - 2];
        let g1 = choose|g: int|
            0 <= g < groups.len() && id_in_group(groups[g]@, q[0]) && id_in_group(groups[g]@, mid);
        assert(is_linked(edges, p[p.len() - 2], p[p.len() - 1]));
        let k = choose|k: int|
            0 <= k < edges.len() && (((edges[k]).0@ == mid && edges[k].1@ == p[p.len() - 1]) || (
            edges[k].0@ == p[p.len() - 1] && edges[k].1@ == mid));
        assert(grouped_together(groups, edges[k].0@, edges[k].1@));
        let g2 = choose|g: int|
            0 <= g < groups.len() && id_in_group(groups[g]@, edges[k].0@) && id_in_group(
                groups[g]@,
                edges[k].1@,
            );
        assert(id_in_group(groups[g2]@, mid) && id_in_group(groups[g2]@, p[p.len() - 1]));
        // the group holding `mid` is unique, so both paths land in it
        lemma_pin_in_exactly_one_group(groups, edges, mid);
        assert(g1 == g2);
        assert(id_in_group(groups[g1]@, p[0]) && id_in_group(groups[g1]@, p[p.len() - 1]));
    }
}

/// Every pin referenced by a wire lies in exactly one group, and a pin
/// never wired lies in no group at all.
pub proof fn lemma_pin_in_exactly_one_group(
    groups: Seq<Vec<ChipPin>>,
    edges: Seq<(ChipPin, ChipPin)>,
    id: (Seq<char>, Seq<char>),
)
    requires
        valid_grouping(groups, edges),
    ensures
        id_in_edges(edges, id) ==> covered_by(groups, id),
        forall|g1: int, g2: int|
            0 <= g1 < groups.len() && 0 <= g2 < groups.len() && id_in_group(
                (#[trigger] groups[g1])@,
                id,
            ) && id_in_group((#[trigger] groups[g2])@, id) ==> g1 == g2,
        !id_in_edges(edges, id) ==> (forall|g: int|
            0 <= g < groups.len() ==> !id_in_group((#[trigger] groups[g])@, id)),
{
    assert forall|g1: int, g2: int|
        0 <= g1 < groups.len() && 0 <= g2 < groups.len() && id_in_group(
            (#[trigger] groups[g1])@,
            id,
        ) && id_in_group((#[trigger] groups[g2])@, id) implies g1 == g2 by {
        let m1 = choose|m: int| 0 <= m < groups[g1]@.len() && groups[g1]@[m]@ == id;
        let m2 = choose|m: int| 0 <= m < groups[g2]@.len() && groups[g2]@[m]@ == id;
        if g1 != g2 {
            assert(groups[g1]@[m1]@ != groups[g2]@[m2]@);
            assert(false);
        }
    };
    if !id_in_edges(edges, id) {
        assert forall|g: int| 0 <= g < groups.len() implies !id_in_group(
            (#[trigger] groups[g])@,
            id,
        ) by {
            if id_in_group(groups[g]@, id) {
                let m = choose|m: int| 0 <= m < groups[g]@.len() && groups[g]@[m]@ == id;
                assert(id_in_edges(edges, groups[g]@[m]@));
                assert(false);
            }
        };
    }
}

/// Whether one index wire of `ie` joins positions `x` and `y`, in
/// either orientation.
spec fn idx_linked(ie: Seq<(usize, usize)>, x: int, y: int) -> bool {
    exists|k: int|
        0 <= k < ie.len() && (((#[trigger] ie[k]).0 == x && ie[k].1 == y) || (ie[k].0 == y
            && ie[k].1 == x))
}

/// Whether consecutive entries of `p` are each joined by an index wire.
spec fn idx_path(ie: Seq<(usize, usize)>, p: Seq<int>) -> bool {
    forall|i: int| 0 <= i < p.len() - 1 ==> idx_linked(ie, #[trigger] p[i], p[i + 1])
}

/// Whether a chain of index wires joins `x` and `y`.
spec fn idx_connected(ie: Seq<(usize, usize)>, x: int, y: int) -> bool {
    x == y || exists|p: Seq<int>|
        p.len() >= 2 && p[0] == x && p[p.len() - 1] == y && idx_path(ie, p)
}

proof fn lemma_idx_linked_connected(ie: Seq<(usize, usize)>, x: int, y: int)
    requires
        idx_linked(ie, x, y),
    ensures
        idx_connected(ie, x, y),
{
    let p = seq![x, y];
    assert forall|i: int| 0 <= i < p.len() - 1 implies idx_linked(ie, #[trigger] p[i], p[i + 1]) by {
        assert(p[i] == x && p[i + 1] == y);
    };
    assert(idx_path(ie, p));
    assert(p[0] == x && p[p.len() - 1] == y);
    assert(idx_connected(ie, x, y));
}

proof fn lemma_idx_sym(ie: Seq<(usize, usize)>, x: int, y: int)
    requires
        idx_connected(ie, x, y),
    ensures
        idx_connected(ie, y, x),
{
    if x != y {
        let p = choose|p: Seq<int>|
            p.len() >= 2 && p[0] == x && p[p.len() - 1] == y && idx_path(ie, p);
        let n = p.len() as int;
        let q = Seq::new(p.len(), |i: int| p[n - 1 - i]);
        assert(q[0] == y && q[q.len() - 1] == x);
        assert forall|i: int| 0 <= i < q.len() - 1 implies idx_linked(
            ie,
            #[trigger] q[i],
            q[i + 1],
        ) by {
            let j = n - 2 - i;
            assert(q[i] == p[j + 1] && q[i + 1] == p[j]);
            assert(idx_linked(ie, p[j], p[j + 1]));
            let k = choose|k: int|
                0 <= k < ie.len() && ((ie[k].0 == p[j] && ie[k].1 == p[j + 1]) || (ie[k].0 == p[j
                    + 1] && ie[k].1 == p[j]));
            assert(idx_linked(ie, p[j + 1], p[j]));
        };
        assert(idx_path(ie, q));
        assert(idx_connected(ie, y, x));
    }
}

proof fn lemma_idx_trans(ie: Seq<(usize, usize)>, x: int, y: int, z: int)
    requires
        idx_connected(ie, x, y),
        idx_connected(ie, y, z),
    ensures
        idx_connected(ie, x, z),
{
    if x != y && y != z && x != z {
        let p1 = choose|p: Seq<int>|
            p.len() >= 2 && p[0] == x && p[p.len() - 1] == y && idx_path(ie, p);
        let p2 = choose|p: Seq<int>|
            p.len() >= 2 && p[0] == y && p[p.len() - 1] == z && idx_path(ie, p);
        let l1 = p1.len() as int;
        let tail = p2.subrange(1, p2.len() as int);
        let q = p1 + tail;
        assert(q.len() == l1 + p2.len() - 1);
        assert(q[0] == p1[0]);
        assert(q[q.len() - 1] == tail[tail.len() - 1]);
        assert(tail[tail.len() - 1] == p2[p2.len() - 1]);
        assert forall|i: int| 0 <= i < q.len() - 1 implies idx_linked(
            ie,
            #[trigger] q[i],
            q[i + 1],
        ) by {
            if i < l1 - 1 {
                assert(q[i] == p1[i] && q[i + 1] == p1[i + 1]);
                assert(idx_linked(ie, p1[i], p1[i + 1]));
            } else if i == l1 - 1 {
                assert(q[i] == p1[l1 - 1]);
                assert(q[i + 1] == tail[0]);
                assert(tail[0] == p2[1]);
                assert(p1[l1 - 1] == y && p2[0] == y);
                assert(idx_linked(ie, p2[0], p2[1]));
            } else {
                let j = i - l1 + 1;
                assert(q[i] == tail[i - l1]);
                assert(tail[i - l1] == p2[j]);
                assert(q[i + 1] == tail[i + 1 - l1]);
                assert(tail[i + 1 - l1] == p2[j + 1]);
                assert(idx_linked(ie, p2[j], p2[j + 1]));
            }
        };
        assert(idx_path(ie, q));
        assert(idx_connected(ie, x, z));
    }
}

/// A chain of index wires, read back through the pin table, is a chain
/// of direct wires between the pins themselves.
proof fn lemma_idx_connected_ids(
    edges: Seq<(ChipPin, ChipPin)>,
    ie: Seq<(usize, usize)>,
    pins: Seq<ChipPin>,
    x: int,
    y: int,
)
    requires
        idx_connected(ie, x, y),
        0 <= x < pins.len(),
        0 <= y < pins.len(),
        ie.len() == edges.len(),
        forall|k: int|
            0 <= k < edges.len() ==> (#[trigger] ie[k]).0 < pins.len() && ie[k].1 < pins.len()
                && pins[ie[k].0 as int]@ == (edges[k].0)@ && pins[ie[k].1 as int]@ == (
            edges[k].1)@,
    ensures
        connected_ids(edges, pins[x]@, pins[y]@),
{
    if x != y {
        let p = choose|p: Seq<int>|
            p.len() >= 2 && p[0] == x && p[p.len() - 1] == y && idx_path(ie, p);
        assert forall|i: int| 0 <= i < p.len() implies 0 <= #[trigger] p[i] < pins.len() by {
            if i < p.len() - 1 {
                assert(idx_linked(ie, p[i], p[i + 1]));
                let k = choose|k: int|
                    0 <= k < ie.len() && ((ie[k].0 == p[i] && ie[k].1 == p[i + 1]) || (ie[k].0
                        == p[i + 1] && ie[k].1 == p[i]));
                assert(ie[k].0 < pins.len() && ie[k].1 < pins.len());
            } else {
                assert(p[i] == y);
            }
        };
        let q = Seq::new(p.len(), |i: int| pins[p[i]]@);
        assert(q[0] == pins[x]@ && q[q.len() - 1] == pins[y]@);
        assert forall|i: int| 0 <= i < q.len() - 1 implies is_linked(
            edges,
            #[trigger] q[i],
            q[i + 1],
        ) by {
            assert(idx_linked(ie, p[i], p[i + 1]));
            let k = choose|k: int|
                0 <= k < ie.len() && ((ie[k].0 == p[i] && ie[k].1 == p[i + 1]) || (ie[k].0 == p[i
                    + 1] && ie[k].1 == p[i]));
            assert(pins[ie[k].0 as int]@ == (edges[k].0)@ && pins[ie[k].1 as int]@ == (
            edges[k].1)@);
            assert(q[i] == pins[p[i]]@ && q[i + 1] == pins[p[i + 1]]@);
        };
        assert(is_path(edges, q));
        assert(connected_ids(edges, pins[x]@, pins[y]@));
    }
}

/// No two entries of `pins` share an identity.
pub open spec fn pins_distinct(pins: Seq<ChipPin>) -> bool {
    forall|i: int, j: int| 0 <= i < pins.len() && 0 <= j < pins.len() && i != j
        ==> (#[trigger] pins[i])@ != (#[trigger] pins[j])@
}

/// Finds the position of the pin with identity `p@` in `pins`, if any.
fn find_pin(pins: &Vec<ChipPin>, p: &ChipPin) -> (r: Option<usize>)
    ensures
        match r {
            Some(i) => i < pins@.len() && pins@[i as int]@ == p@,
            None => forall|i: int| 0 <= i < pins@.len() ==> (#[trigger] pins@[i])@ != p@,
        },
{
    let mut i: usize = 0;
    while i < pins.len()
        invariant
            i <= pins@.len(),
            forall|j: int| 0 <= j < i ==> (#[trigger] pins@[j])@ != p@,
        decreases pins@.len() - i,
    {
        if pin_eq(&pins[i], p) {
            return Some(i);
        }
        i = i + 1;
    }
    None
}

/// Gathers the distinct pins occurring in `edges` and rewrites each wire
/// as a pair of indices into that table.
fn collect_pins(edges: &Vec<(ChipPin, ChipPin)>) -> (r: (Vec<ChipPin>, Vec<(usize, usize)>))
    ensures
        pins_distinct(r.0@),
        r.1@.len() == edges@.len(),
        forall|k: int|
            0 <= k < edges@.len() ==> {
                &&& (#[trigger] r.1@[k]).0 < r.0@.len()
                &&& r.1@[k].1 < r.0@.len()
                &&& r.0@[r.1@[k].0 as int]@ == (edges@[k].0)@
                &&& r.0@[r.1@[k].1 as int]@ == (edges@[k].1)@
            },
        forall|i: int| 0 <= i < r.0@.len() ==> id_in_edges(edges@, (#[trigger] r.0@[i])@),
{
    let mut pins: Vec<ChipPin> = Vec::new();
    let mut ie: Vec<(usize, usize)> = Vec::new();
    let mut k: usize = 0;
    while k < edges.len()
        invariant
            k <= edges@.len(),
            pins_distinct(pins@),
            ie@.len() == k,
            forall|t: int|
                0 <= t < k ==> {
                    &&& (#[trigger] ie@[t]).0 < pins@.len()
                    &&& ie@[t].1 < pins@.len()
                    &&& pins@[ie@[t].0 as int]@ == (edges@[t].0)@
                    &&& pins@[ie@[t].1 as int]@ == (edges@[t].1)@
                },
            forall|i: int| 0 <= i < pins@.len() ==> id_in_edges(edges@, (#[trigger] pins@[i])@),
        decreases edges@.len() - k,
    {
        let i0 = match find_pin(&pins, &edges[k].0) {
            Some(i) => i,
            None => {
                let i: usize = pins.len();
                pins.push(edges[k].0.clone());
                proof {
                    assert((edges@[k as int].0)@ == pins@[i as int]@);
                    assert(id_in_edges(edges@, pins@[i as int]@));
                }
                i
            },
        };
        let i1 = match find_pin(&pins, &edges[k].1) {
            Some(i) => i,
            None => {
                let i: usize = pins.len();
                pins.push(edges[k].1.clone());
                proof {
                    assert((edges@[k as int].1)@ == pins@[i as int]@);
                    assert(id_in_edges(edges@, pins@[i as int]@));
                }
                i
            },
        };
        ie.push((i0, i1));
        k = k + 1;
    }
    (pins, ie)
}

/// Assigns every pin a component label: two pins receive the same label
/// exactly when the processed wires join them, directly or transitively.
/// Labels are canonical: each label is the index of a pin carrying its
/// own label.
fn compute_labels(n: usize, ie: &Vec<(usize, usize)>) -> (labels: Vec<usize>)
    requires
        forall|k: int| 0 <= k < ie@.len() ==> (#[trigger] ie@[k]).0 < n && ie@[k].1 < n,
    ensures
        labels@.len() == n,
        forall|i: int| 0 <= i < n ==> (#[trigger] labels@[i]) < n,
        forall|i: int| 0 <= i < n ==> labels@[(#[trigger] labels@[i]) as int] == labels@[i],
        forall|k: int|
            0 <= k < ie@.len() ==> labels@[(#[trigger] ie@[k]).0 as int] == labels@[ie@[k].1 as int],
        forall|x: int, y: int|
            0 <= x < n && 0 <= y < n && labels@[x] == labels@[y] ==> idx_connected(ie@, x, y),
{
    let mut labels: Vec<usize> = Vec::new();
    let mut i: usize = 0;
    while i < n
        invariant
            i <= n,
            labels@.len() == i,
            forall|j: int| 0 <= j < i ==> (#[trigger] labels@[j]) == j,
        decreases n - i,
    {
        labels.push(i);
        i = i + 1;
    }
    proof {
        assert forall|x: int, y: int|
            0 <= x < n && 0 <= y < n && labels@[x] == labels@[y] implies idx_connected(
            ie@,
            x,
            y,
        ) by {
            assert(x == y);
        };
    }
    let mut k: usize = 0;
    while k < ie.len()
        invariant
            k <= ie@.len(),
            labels@.len() == n,
            forall|t: int| 0 <= t < ie@.len() ==> (#[trigger] ie@[t]).0 < n && ie@[t].1 < n,
            forall|i2: int| 0 <= i2 < n ==> (#[trigger] labels@[i2]) < n,
            forall|i2: int| 0 <= i2 < n ==> labels@[(#[trigger] labels@[i2]) as int] == labels@[i2],
            forall|t: int|
                0 <= t < k ==> labels@[(#[trigger] ie@[t]).0 as int] == labels@[ie@[t].1 as int],
            forall|x: int, y: int|
                0 <= x < n && 0 <= y < n && labels@[x] == labels@[y] ==> idx_connected(ie@, x, y),
        decreases ie@.len() - k,
    {
        let u = ie[k].0;
        let v = ie[k].1;
        let lu = labels[u];
        let lv = labels[v];
        if lu != lv {
            let ghost pre = labels@;
            let mut j: usize = 0;
            while j < n
                invariant
                    j <= n,
                    labels@.len() == n,
                    lu < n,
                    lv < n,
                    lu != lv,
                    pre.len() == n,
                    pre[lu as int] == lu,
                    forall|x: int| 0 <= x < n ==> (#[trigger] pre[x]) < n,
                    forall|x: int| 0 <= x < n ==> pre[(#[trigger] pre[x]) as int] == pre[x],
                    forall|x: int|
                        0 <= x < j ==> (#[trigger] labels@[x]) == (if pre[x] == lv {
                            lu
                        } else {
                            pre[x]
                        }),
                    forall|x: int| j <= x < n ==> (#[trigger] labels@[x]) == pre[x],
                decreases n - j,
            {
                if labels[j] == lv {
                    labels[j] = lu;
                }
                j = j + 1;
            }
            proof {
                assert forall|i2: int| 0 <= i2 < n implies labels@[(#[trigger] labels@[i2]) as int]
                    == labels@[i2] by {
                    if pre[i2] == lv {
                        assert(labels@[i2] == lu as int);
                        assert(pre[lu as int] == lu);
                        assert(labels@[lu as int] == lu as int);
                    } else {
                        assert(labels@[i2] == pre[i2]);
                        assert(pre[pre[i2] as int] == pre[i2]);
                        assert(labels@[pre[i2] as int] == pre[i2]);
                    }
                };
                assert forall|t: int| 0 <= t <= k implies labels@[(ie@[t]).0 as int]
                    == labels@[ie@[t].1 as int] by {
                    let a = ie@[t].0 as int;
                    let b = ie@[t].1 as int;
                    if t < k {
                        assert(pre[a] == pre[b]);
                    } else {
                        assert(pre[a] == lu && pre[b] == lv);
                    }
                };
                assert(pre[u as int] == lu && pre[v as int] == lv);
                assert(idx_linked(ie@, u as int, v as int)) by {
                    assert(0 <= k < ie@.len() && ie@[k as int].0 == u && ie@[k as int].1 == v);
                };
                assert forall|x: int, y: int|
                    0 <= x < n && 0 <= y < n && labels@[x] == labels@[y] implies idx_connected(
                    ie@,
                    x,
                    y,
                ) by {
                    if pre[x] == pre[y] {
                        assert(idx_connected(ie@, x, y));
                    } else if pre[x] == lv && pre[y] == lu {
                        assert(idx_connected(ie@, x, v as int));
                        lemma_idx_linked_connected(ie@, u as int, v as int);
                        lemma_idx_sym(ie@, u as int, v as int);
                        assert(idx_connected(ie@, u as int, y));
                        lemma_idx_trans(ie@, x, v as int, u as int);
                        lemma_idx_trans(ie@, x, u as int, y);
                    } else if pre[x] == lu && pre[y] == lv {
                        assert(idx_connected(ie@, y, v as int));
                        lemma_idx_linked_connected(ie@, u as int, v as int);
                        lemma_idx_sym(ie@, u as int, v as int);
                        assert(idx_connected(ie@, u as int, x));
                        lemma_idx_trans(ie@, y, v as int, u as int);
                        lemma_idx_trans(ie@, y, u as int, x);
                        lemma_idx_sym(ie@, y, x);
                    } else {
                        assert(labels@[x] == (if pre[x] == lv {
                            lu
                        } else {
                            pre[x]
                        }));
                        assert(labels@[y] == (if pre[y] == lv {
                            lu
                        } else {
                            pre[y]
                        }));
                        assert(false);
                    }
                };
            }
        }
        k = k + 1;
    }
    labels
}

/// How the emitted groups relate to the label assignment: each group is
/// identified by a canonical representative label and holds exactly the
/// pins carrying that label, none of them twice.  `srcs` names, for every
/// group member, the index of the pin it came from, and `gof` names, for
/// every canonical label, the index of its group.
pub open spec fn groups_by_labels(
    groups: Seq<Vec<ChipPin>>,
    reps: Seq<int>,
    srcs: Seq<Seq<int>>,
    gof: Seq<int>,
    pins: Seq<ChipPin>,
    labels: Seq<usize>,
) -> bool {
    &&& reps.len() == groups.len()
    &&& srcs.len() == groups.len()
    &&& gof.len() == labels.len()
    &&& forall|g: int|
        0 <= g < groups.len() ==> 0 <= (#[trigger] reps[g]) < labels.len() && labels[reps[g]]
            == reps[g]
    &&& forall|g1: int, g2: int|
        0 <= g1 < groups.len() && 0 <= g2 < groups.len() && g1 != g2 ==> (#[trigger] reps[g1])
            != (#[trigger] reps[g2])
    &&& forall|g: int| 0 <= g < groups.len() ==> (#[trigger] srcs[g]).len() == groups[g]@.len()
    &&& forall|g: int, m: int|
        0 <= g < groups.len() && 0 <= m < groups[g]@.len() ==> 0 <= (#[trigger] srcs[g][m])
            < pins.len() && pins[srcs[g][m]]@ == groups[g]@[m]@ && labels[srcs[g][m]] == reps[g]
    &&& forall|g: int, i: int|
        0 <= g < groups.len() && 0 <= i < pins.len() && labels[i] == reps[g] ==> id_in_group(
            (#[trigger] groups[g])@,
            (#[trigger] pins[i])@,
        )
    &&& forall|c: int|
        0 <= c < labels.len() && (#[trigger] labels[c]) == c ==> 0 <= gof[c] < groups.len()
            && reps[gof[c]] == c
    &&& forall|g: int, m1: int, m2: int|
        0 <= g < groups.len() && 0 <= m1 < groups[g]@.len() && 0 <= m2 < groups[g]@.len() && m1
            != m2 ==> (#[trigger] groups[g]@[m1])@ != (#[trigger] groups[g]@[m2])@
}

/// Emits one group per canonical label, holding every pin that carries
/// that label.
fn build_groups(pins: &Vec<ChipPin>, labels: &Vec<usize>) -> (groups: Vec<Vec<ChipPin>>)
    requires
        labels@.len() == pins@.len(),
        pins_distinct(pins@),
        forall|i: int| 0 <= i < labels@.len() ==> (#[trigger] labels@[i]) < labels@.len(),
        forall|i: int|
            0 <= i < labels@.len() ==> labels@[(#[trigger] labels@[i]) as int] == labels@[i],
    ensures
        exists|reps: Seq<int>, srcs: Seq<Seq<int>>, gof: Seq<int>|
            groups_by_labels(groups@, reps, srcs, gof, pins@, labels@),
{
    let n: usize = pins.len();
    let mut groups: Vec<Vec<ChipPin>> = Vec::new();
    let ghost mut reps: Seq<int> = Seq::empty();
    let ghost mut srcs_all: Seq<Seq<int>> = Seq::empty();
    let ghost mut gof: Seq<int> = Seq::new(n as nat, |x: int| 0);
    let mut i: usize = 0;
    while i < n
        invariant
            i <= n,
            n == pins@.len(),
            labels@.len() == n,
            pins_distinct(pins@),
            forall|x: int| 0 <= x < n ==> (#[trigger] labels@[x]) < n,
            forall|x: int| 0 <= x < n ==> labels@[(#[trigger] labels@[x]) as int] == labels@[x],
            reps.len() == groups@.len(),
            srcs_all.len() == groups@.len(),
            gof.len() == n,
            forall|g: int|
                0 <= g < groups@.len() ==> 0 <= (#[trigger] reps[g]) < i && labels@[reps[g]]
                    == reps[g],
            forall|g1: int, g2: int|
                0 <= g1 < groups@.len() && 0 <= g2 < groups@.len() && g1 != g2
                    ==> (#[trigger] reps[g1]) != (#[trigger] reps[g2]),
            forall|g: int| 0 <= g < groups@.len() ==> (#[trigger] srcs_all[g]).len()
                == groups@[g]@.len(),
            forall|g: int, m: int|
                0 <= g < groups@.len() && 0 <= m < groups@[g]@.len() ==> 0 <= (
                #[trigger] srcs_all[g][m]) < n && pins@[srcs_all[g][m]]@ == groups@[g]@[m]@
                    && labels@[srcs_all[g][m]] == reps[g],
            forall|g: int, x: int|
                0 <= g < groups@.len() && 0 <= x < n && labels@[x] == reps[g]
                    ==> id_in_group((#[trigger] groups@[g])@, (#[trigger] pins@[x])@),
            forall|c: int|
                0 <= c < i && (#[trigger] labels@[c]) == c ==> 0 <= gof[c] < groups@.len()
                    && reps[gof[c]] == c,
            forall|g: int, m1: int, m2: int|
                0 <= g < groups@.len() && 0 <= m1 < groups@[g]@.len() && 0 <= m2 < groups@[g]@.len()
                    && m1 != m2 ==> (#[trigger] groups@[g]@[m1])@ != (#[trigger] groups@[g]@[m2])@,
        decreases n - i,
    {
        if labels[i] == i {
            let mut grp: Vec<ChipPin> = Vec::new();
            let ghost mut srcs: Seq<int> = Seq::empty();
            let mut t: usize = 0;
            while t < n
                invariant
                    t <= n,
                    i < n,
                    n == pins@.len(),
                    labels@.len() == n,
                    pins_distinct(pins@),
                    srcs.len() == grp@.len(),
                    forall|m: int|
                        0 <= m < grp@.len() ==> 0 <= (#[trigger] srcs[m]) < t
                            && pins@[srcs[m]]@ == grp@[m]@ && labels@[srcs[m]] == i as int,
                    forall|m1: int, m2: int|
                        0 <= m1 < m2 < srcs.len() ==> (#[trigger] srcs[m1]) < (#[trigger] srcs[m2]),
                    forall|x: int|
                        0 <= x < t && labels@[x] == i as int ==> id_in_group(
                            grp@,
                            (#[trigger] pins@[x])@,
                        ),
                decreases n - t,
            {
                if labels[t] == i {
                    let ghost pre_grp = grp@;
                    grp.push(pins[t].clone());
                    proof {
                        srcs = srcs.push(t as int);
                        assert(pins@[t as int]@ == grp@[grp@.len() - 1]@);
                        assert forall|x: int| 0 <= x < t + 1 && labels@[x] == i as int implies
                            id_in_group(grp@, (#[trigger] pins@[x])@) by {
                            if x < t {
                                let m = choose|m: int| 0 <= m < pre_grp.len() && pre_grp[m]@
                                    == pins@[x]@;
                                assert(grp@[m]@ == pins@[x]@);
                            } else {
                                assert(grp@[grp@.len() - 1]@ == pins@[x]@);
                            }
                        };
                    }
                }
                t = t + 1;
            }
            let ghost pre_groups = groups@;
            let ghost pre_reps = reps;
            groups.push(grp);
            proof {
                reps = reps.push(i as int);
                srcs_all = srcs_all.push(srcs);
                gof = gof.update(i as int, groups@.len() - 1);
                assert(groups@[groups@.len() - 1]@ == grp@);
                assert(reps[reps.len() - 1] == i as int);
                assert(srcs_all[srcs_all.len() - 1] == srcs);
                assert forall|g: int| 0 <= g < pre_groups.len() implies groups@[g] == pre_groups[g]
                    && reps[g] == pre_reps[g] by {}
                assert forall|g: int, m: int|
                    0 <= g < groups@.len() && 0 <= m < groups@[g]@.len() implies 0 <= (
                #[trigger] srcs_all[g][m]) < n && pins@[srcs_all[g][m]]@ == groups@[g]@[m]@
                    && labels@[srcs_all[g][m]] == reps[g] by {
                    if g < pre_groups.len() {
                        assert(groups@[g] == pre_groups[g]);
                    } else {
                        assert(groups@[g]@ == grp@);
                        assert(srcs_all[g] == srcs);
                        assert(0 <= srcs[m] < n && pins@[srcs[m]]@ == grp@[m]@ && labels@[srcs[m]]
                            == i as int);
                    }
                };
                assert forall|g: int, m1: int, m2: int|
                    0 <= g < groups@.len() && 0 <= m1 < groups@[g]@.len() && 0 <= m2
                        < groups@[g]@.len() && m1 != m2 implies (#[trigger] groups@[g]@[m1])@
                    != (#[trigger] groups@[g]@[m2])@ by {
                    if g < pre_groups.len() {
                        assert(groups@[g] == pre_groups[g]);
                    } else {
                        assert(groups@[g]@ == grp@);
                        assert(pins@[srcs[m1]]@ == grp@[m1]@);
                        assert(pins@[srcs[m2]]@ == grp@[m2]@);
                        assert(srcs[m1] != srcs[m2]);
                        assert(pins@[srcs[m1]]@ != pins@[srcs[m2]]@);
                    }
                };
                assert forall|c: int|
                    0 <= c < i + 1 && (#[trigger] labels@[c]) == c implies 0 <= gof[c]
                        < groups@.len() && reps[gof[c]] == c by {
                    if c == i as int {
                        assert(gof[c] == groups@.len() - 1);
                    }
                };
                assert forall|g: int, x: int|
                    0 <= g < groups@.len() && 0 <= x < n && labels@[x] == reps[g] implies
                    id_in_group((#[trigger] groups@[g])@, (#[trigger] pins@[x])@) by {
                    if g < pre_groups.len() {
                        assert(id_in_group(pre_groups[g]@, pins@[x]@));
                    } else {
                        assert(id_in_group(grp@, pins@[x]@));
                    }
                };
            }
        }
        i = i + 1;
    }
    proof {
        assert(groups_by_labels(groups@, reps, srcs_all, gof, pins@, labels@));
        assert(exists|r: Seq<int>, s: Seq<Seq<int>>, f: Seq<int>|
            groups_by_labels(groups@, r, s, f, pins@, labels@));
    }
    groups
}


/// Merges the raw pairwise wire list into disjoint groups of electrically
/// shorted pins.  Two pins end in one group exactly when a path of direct
/// wires joins them; the result partitions the pins occurring in the
/// wire list.
pub fn group_connected_pins(edges: &Vec<(ChipPin, ChipPin)>) -> (groups: Vec<Vec<ChipPin>>)
    requires
        edges_irreflexive(edges@),
    ensures
        valid_grouping(groups@, edges@),
{
    let (pins, ie) = collect_pins(edges);
    let labels = compute_labels(pins.len(), &ie);
    let groups = build_groups(&pins, &labels);
    proof {
        let (reps, srcs, gof) = choose|reps: Seq<int>, srcs: Seq<Seq<int>>, gof: Seq<int>|
            groups_by_labels(groups@, reps, srcs, gof, pins@, labels@);
        assert(groups_by_labels(groups@, reps, srcs, gof, pins@, labels@));
        let pinsv = pins@;
        let labelsv = labels@;
        let groupsv = groups@;
        let edgesv = edges@;
        let iev = ie@;
        // every endpoint is covered by some group
        assert forall|id: (Seq<char>, Seq<char>)| #[trigger] id_in_edges(edgesv, id) implies
            covered_by(groupsv, id) by {
            let k = choose|k: int|
                0 <= k < edgesv.len() && ((edgesv[k].0)@ == id || (edgesv[k].1)@ == id);
            let x = if (edgesv[k].0)@ == id {
                iev[k].0 as int
            } else {
                iev[k].1 as int
            };
            assert(0 <= x < pinsv.len() && pinsv[x]@ == id);
            let c = labelsv[x] as int;
            assert(labelsv[c] == c);
            let g = gof[c];
            assert(0 <= g < groupsv.len() && reps[g] == c);
            assert(id_in_group(groupsv[g]@, pinsv[x]@));
        };
        // every group member is an endpoint
        assert forall|g: int, m: int|
            0 <= g < groupsv.len() && 0 <= m < groupsv[g]@.len() implies id_in_edges(
            edgesv,
            (#[trigger] groupsv[g]@[m])@,
        ) by {
            let x = srcs[g][m];
            assert(0 <= x < pinsv.len() && pinsv[x]@ == groupsv[g]@[m]@);
            assert(id_in_edges(edgesv, pinsv[x]@));
        };
        // distinct groups share no pin
        assert forall|g1: int, g2: int, m1: int, m2: int|
            0 <= g1 < groupsv.len() && 0 <= g2 < groupsv.len() && g1 != g2 && 0 <= m1
                < groupsv[g1]@.len() && 0 <= m2 < groupsv[g2]@.len() implies (
        #[trigger] groupsv[g1]@[m1])@ != (#[trigger] groupsv[g2]@[m2])@ by {
            if groupsv[g1]@[m1]@ == groupsv[g2]@[m2]@ {
                let x1 = srcs[g1][m1];
                let x2 = srcs[g2][m2];
                assert(pinsv[x1]@ == pinsv[x2]@);
                assert(x1 == x2);
                assert(reps[g1] == reps[g2]);
                assert(false);
            }
        };
        // pins in one group are joined by a path of wires
        assert forall|g: int, m1: int, m2: int|
            0 <= g < groupsv.len() && 0 <= m1 < groupsv[g]@.len() && 0 <= m2
                < groupsv[g]@.len() implies connected_ids(
            edgesv,
            (#[trigger] groupsv[g]@[m1])@,
            (#[trigger] groupsv[g]@[m2])@,
        ) by {
            let x1 = srcs[g][m1];
            let x2 = srcs[g][m2];
            assert(0 <= x1 < pinsv.len() && pinsv[x1]@ == groupsv[g]@[m1]@ && labelsv[x1]
                == reps[g]);
            assert(0 <= x2 < pinsv.len() && pinsv[x2]@ == groupsv[g]@[m2]@ && labelsv[x2]
                == reps[g]);
            assert(idx_connected(iev, x1, x2));
            lemma_idx_connected_ids(edgesv, iev, pinsv, x1, x2);
        };
        // the two ends of every wire share a group
        assert forall|k: int| 0 <= k < edgesv.len() implies grouped_together(
            groupsv,
            (#[trigger] edgesv[k]).0@,
            edgesv[k].1@,
        ) by {
            let a = iev[k].0 as int;
            let b = iev[k].1 as int;
            assert(labelsv[a] == labelsv[b]);
            let c = labelsv[a] as int;
            assert(labelsv[c] == c);
            let g = gof[c];
            assert(0 <= g < groupsv.len() && reps[g] == c);
            assert(id_in_group(groupsv[g]@, pinsv[a]@));
            assert(id_in_group(groupsv[g]@, pinsv[b]@));
        };
        // every group holds at least two pins
        assert forall|g: int| 0 <= g < groupsv.len() implies (#[trigger] groupsv[g])@.len()
            >= 2 by {
            let rg = reps[g];
            assert(labelsv[rg] == rg);
            assert(id_in_group(groupsv[g]@, pinsv[rg]@));
            assert(id_in_edges(edgesv, pinsv[rg]@));
            let k = choose|k: int|
                0 <= k < edgesv.len() && ((edgesv[k].0)@ == pinsv[rg]@ || (edgesv[k].1)@
                    == pinsv[rg]@);
            let a = iev[k].0 as int;
            let b = iev[k].1 as int;
            let other: int = if (edgesv[k].0)@ == pinsv[rg]@ {
                assert(pinsv[a]@ == pinsv[rg]@);
                assert(a == rg);
                b
            } else {
                assert(pinsv[b]@ == pinsv[rg]@);
                assert(b == rg);
                a
            };
            assert(labelsv[other] == labelsv[rg]);
            assert(id_in_group(groupsv[g]@, pinsv[other]@));
            assert(pinsv[other]@ != pinsv[rg]@) by {
                assert((edgesv[k].0)@ != (edgesv[k].1)@);
                assert(pinsv[a]@ == (edgesv[k].0)@ && pinsv[b]@ == (edgesv[k].1)@);
            };
            let m1 = choose|m: int| 0 <= m < groupsv[g]@.len() && groupsv[g]@[m]@ == pinsv[rg]@;
            let m2 = choose|m: int| 0 <= m < groupsv[g]@.len() && groupsv[g]@[m]@ == pinsv[other]@;
            assert(m1 != m2);
        };
    }
    groups
}

} // verus!
