//! Layering "as late as possible": every node moves to the layer just before the shallowest node it feeds, so inputs
//! end up next to the operation they feed, while a node that feeds nothing keeps its longest-path depth.

use vstd::prelude::*;

use crate::graph::ValidatedGraph;
use crate::text::{lemma_text_lt_strict, lemma_text_lt_total, lemma_text_lt_trans, same_text, text_less, text_lt};

verus! {

// - - - - - - - - - - - - - - - - - - - - - - - - - - - - - - - - - - - - - - - - - - - - - - - - - - - - - - - - - - -
// The model
// - - - - - - - - - - - - - - - - - - - - - - - - - - - - - - - - - - - - - - - - - - - - - - - - - - - - - - - - - - -

/// The names of a list of strings.
pub open spec fn names_view(v: Vec<String>) -> Seq<Seq<char>> {
    v@.map_values(|s: String| s@)
}

/// The longest-path layering of a graph, as names.
pub open spec fn layers_view(g: ValidatedGraph) -> Seq<Seq<Seq<char>>> {
    g.layers@.map_values(|l: Vec<String>| names_view(l))
}

/// The node-to-node edges of a graph, as `(source, target)` names.
pub open spec fn edges_view(g: ValidatedGraph) -> Seq<(Seq<char>, Seq<char>)> {
    g.edges@.map_values(|e: (String, String)| (e.0@, e.1@))
}

/// The targets of the edges out of `name`, in edge order.
pub open spec fn succs_of(edges: Seq<(Seq<char>, Seq<char>)>, name: Seq<char>) -> Seq<Seq<char>>
    decreases edges.len(),
{
    if edges.len() == 0 {
        Seq::empty()
    } else if edges.last().0 == name {
        succs_of(edges.drop_last(), name).push(edges.last().1)
    } else {
        succs_of(edges.drop_last(), name)
    }
}

/// The smallest depth that `depth` gives to the names of a non-empty sequence.
pub open spec fn min_depth(depth: Map<Seq<char>, nat>, names: Seq<Seq<char>>) -> nat
    decreases names.len(),
{
    if names.len() <= 1 {
        depth[names[0]]
    } else {
        let m = min_depth(depth, names.drop_last());
        let d = depth[names.last()];
        if d < m {
            d
        } else {
            m
        }
    }
}

/// The index of the last layer that lists `name` (0 if none does): its longest-path depth.
pub open spec fn asap_of(lv: Seq<Seq<Seq<char>>>, name: Seq<char>) -> nat
    decreases lv.len(),
{
    if lv.len() == 0 {
        0
    } else if lv.last().contains(name) {
        (lv.len() - 1) as nat
    } else {
        asap_of(lv.drop_last(), name)
    }
}

/// The depth of `name` placed as late as possible: one before its shallowest successor (never below 0), or its
/// longest-path depth when it feeds nothing.
pub open spec fn late_depth(
    depth: Map<Seq<char>, nat>,
    name: Seq<char>,
    edges: Seq<(Seq<char>, Seq<char>)>,
    lv: Seq<Seq<Seq<char>>>,
) -> nat {
    let s = succs_of(edges, name);
    if s.len() > 0 {
        let m = min_depth(depth, s);
        if m >= 1 {
            (m - 1) as nat
        } else {
            0
        }
    } else {
        asap_of(lv, name)
    }
}

/// The depths after placing the names of `layer`, in order, on top of `depth`; a name placed again takes its new
/// depth.
pub open spec fn place_layer(
    depth: Map<Seq<char>, nat>,
    layer: Seq<Seq<char>>,
    edges: Seq<(Seq<char>, Seq<char>)>,
    lv: Seq<Seq<Seq<char>>>,
) -> Map<Seq<char>, nat>
    decreases layer.len(),
{
    if layer.len() == 0 {
        depth
    } else {
        let d = place_layer(depth, layer.drop_last(), edges, lv);
        d.insert(layer.last(), late_depth(d, layer.last(), edges, lv))
    }
}

/// The depths after placing the layers from the last down to layer `t`, so that every node is placed after the nodes
/// it feeds.
pub open spec fn place_from(lv: Seq<Seq<Seq<char>>>, edges: Seq<(Seq<char>, Seq<char>)>, t: int) -> Map<
    Seq<char>,
    nat,
>
    decreases lv.len() - t,
{
    if t < 0 || t >= lv.len() {
        Map::empty()
    } else {
        place_layer(place_from(lv, edges, t + 1), lv[t], edges, lv)
    }
}

/// The as-late-as-possible depth of every node of the layering.
pub open spec fn alap_depths(g: ValidatedGraph) -> Map<Seq<char>, nat> {
    place_from(layers_view(g), edges_view(g), 0)
}

/// Every successor of a listed node is placed before it: listed in a later layer, or earlier in the same layer. (A
/// longest-path layering, where every edge leads to a later layer, has this property.)
pub open spec fn resolvable(g: ValidatedGraph) -> bool {
    let lv = layers_view(g);
    let ev = edges_view(g);
    forall|li: int, j: int, e: int|
        0 <= li < lv.len() && 0 <= j < lv[li].len() && 0 <= e < ev.len() && #[trigger] ev[e].0 == #[trigger] lv[li][j]
            ==> (exists|l2: int, j2: int| li < l2 < lv.len() && 0 <= j2 < lv[l2].len() && lv[l2][j2] == ev[e].1) || (
        exists|j2: int| 0 <= j2 < j && lv[li][j2] == ev[e].1)
}

/// `out` lists the nodes of `depth` by depth: one non-empty layer per depth in use, shallowest first, each holding the
/// names of that depth in ascending order.
pub open spec fn is_layering(depth: Map<Seq<char>, nat>, out: Seq<Seq<Seq<char>>>) -> bool {
    &&& forall|k: int| 0 <= k < out.len() ==> (#[trigger] out[k]).len() > 0
    &&& forall|k: int, i: int|
        0 <= k < out.len() && 0 <= i < out[k].len() ==> depth.contains_key(#[trigger] out[k][i]) && depth[out[k][i]]
            == depth[out[k][0]]
    &&& forall|k: int, i: int, j: int|
        0 <= k < out.len() && 0 <= i < j < out[k].len() ==> text_lt(#[trigger] out[k][i], #[trigger] out[k][j])
    &&& forall|a: int, b: int|
        0 <= a < b < out.len() ==> depth[(#[trigger] out[a])[0]] < depth[(#[trigger] out[b])[0]]
    &&& forall|n: Seq<char>|
        depth.contains_key(n) ==> exists|k: int, i: int| 0 <= k < out.len() && 0 <= i < out[k].len() && #[trigger] out[k][i] == n
}

// - - - - - - - - - - - - - - - - - - - - - - - - - - - - - - - - - - - - - - - - - - - - - - - - - - - - - - - - - - -
// Facts about the model
// - - - - - - - - - - - - - - - - - - - - - - - - - - - - - - - - - - - - - - - - - - - - - - - - - - - - - - - - - - -

/// Placing a layer keeps every name already placed, and places each name of the layer.
proof fn lemma_place_layer_dom(
    depth: Map<Seq<char>, nat>,
    layer: Seq<Seq<char>>,
    edges: Seq<(Seq<char>, Seq<char>)>,
    lv: Seq<Seq<Seq<char>>>,
)
    ensures
        forall|n: Seq<char>| depth.contains_key(n) ==> #[trigger] place_layer(depth, layer, edges, lv).contains_key(n),
        forall|j: int| 0 <= j < layer.len() ==> place_layer(depth, layer, edges, lv).contains_key(#[trigger] layer[j]),
    decreases layer.len(),
{
    if layer.len() > 0 {
        lemma_place_layer_dom(depth, layer.drop_last(), edges, lv);
        assert forall|n: Seq<char>| depth.contains_key(n) implies #[trigger] place_layer(
            depth,
            layer,
            edges,
            lv,
        ).contains_key(n) by {
            assert(place_layer(depth, layer.drop_last(), edges, lv).contains_key(n));
        }
        assert forall|j: int| 0 <= j < layer.len() implies place_layer(depth, layer, edges, lv).contains_key(
            #[trigger] layer[j],
        ) by {
            if j < layer.len() - 1 {
                assert(layer.drop_last()[j] == layer[j]);
            }
        }
    }
}

/// After placing the layers down to `t`, every name of those layers is placed.
proof fn lemma_place_from_dom(lv: Seq<Seq<Seq<char>>>, edges: Seq<(Seq<char>, Seq<char>)>, t: int)
    requires
        0 <= t,
    ensures
        forall|l: int, j: int|
            t <= l < lv.len() && 0 <= j < lv[l].len() ==> place_from(lv, edges, t).contains_key(#[trigger] lv[l][j]),
    decreases lv.len() - t,
{
    if t < lv.len() {
        lemma_place_from_dom(lv, edges, t + 1);
        lemma_place_layer_dom(place_from(lv, edges, t + 1), lv[t], edges, lv);
    }
}

// - - - - - - - - - - - - - - - - - - - - - - - - - - - - - - - - - - - - - - - - - - - - - - - - - - - - - - - - - - -
// Depths in the making
// - - - - - - - - - - - - - - - - - - - - - - - - - - - - - - - - - - - - - - - - - - - - - - - - - - - - - - - - - - -

/// Depths assigned so far: a list of `(name, depth)` records, a later record of a name replacing an earlier one.
struct Depths {
    entries: Vec<(String, usize)>,
}

/// The map of names to depths that a list of records denotes.
spec fn depth_map(s: Seq<(String, usize)>) -> Map<Seq<char>, nat>
    decreases s.len(),
{
    if s.len() == 0 {
        Map::empty()
    } else {
        depth_map(s.drop_last()).insert(s.last().0@, s.last().1 as nat)
    }
}

/// Records after position `k` that are not about `name` leave its depth unchanged.
proof fn lemma_depth_map_suffix(s: Seq<(String, usize)>, k: int, name: Seq<char>)
    requires
        0 <= k <= s.len(),
        forall|j: int| k <= j < s.len() ==> (#[trigger] s[j]).0@ != name,
    ensures
        depth_map(s).contains_key(name) == depth_map(s.take(k)).contains_key(name),
        depth_map(s).contains_key(name) ==> depth_map(s)[name] == depth_map(s.take(k))[name],
    decreases s.len(),
{
    if k < s.len() {
        let t = s.drop_last();
        assert forall|j: int| k <= j < t.len() implies (#[trigger] t[j]).0@ != name by {
            assert(t[j] == s[j]);
        }
        lemma_depth_map_suffix(t, k, name);
        assert(t.take(k) =~= s.take(k));
    } else {
        assert(s.take(k) =~= s);
    }
}

/// The names with a depth are exactly the names of the records.
proof fn lemma_depth_map_keys(s: Seq<(String, usize)>)
    ensures
        forall|n: Seq<char>|
            depth_map(s).contains_key(n) <==> exists|i: int| 0 <= i < s.len() && (#[trigger] s[i]).0@ == n,
    decreases s.len(),
{
    if s.len() > 0 {
        let t = s.drop_last();
        lemma_depth_map_keys(t);
        assert forall|n: Seq<char>|
            depth_map(s).contains_key(n) <==> exists|i: int| 0 <= i < s.len() && (#[trigger] s[i]).0@ == n by {
            if depth_map(s).contains_key(n) {
                if n == s.last().0@ {
                    assert(s[s.len() - 1].0@ == n);
                } else {
                    assert(depth_map(t).contains_key(n));
                    let i = choose|i: int| 0 <= i < t.len() && (#[trigger] t[i]).0@ == n;
                    assert(s[i] == t[i]);
                }
            }
            if exists|i: int| 0 <= i < s.len() && (#[trigger] s[i]).0@ == n {
                let i = choose|i: int| 0 <= i < s.len() && (#[trigger] s[i]).0@ == n;
                if i < s.len() - 1 {
                    assert(t[i] == s[i]);
                    assert(depth_map(t).contains_key(n));
                }
            }
        }
    }
}

impl Depths {
    fn new() -> (r: Depths)
        ensures
            depth_map(r.entries@) == Map::<Seq<char>, nat>::empty(),
    {
        Depths { entries: Vec::new() }
    }

    fn insert(&mut self, name: String, depth: usize)
        ensures
            depth_map(final(self).entries@) == depth_map(old(self).entries@).insert(name@, depth as nat),
    {
        self.entries.push((name, depth));
        proof {
            assert(self.entries@.drop_last() =~= old(self).entries@);
        }
    }

    fn get(&self, name: &str) -> (r: Option<usize>)
        ensures
            r matches Some(d) ==> depth_map(self.entries@).contains_key(name@) && depth_map(self.entries@)[name@]
                == d as nat,
            r is None ==> !depth_map(self.entries@).contains_key(name@),
    {
        let mut i = self.entries.len();
        while i > 0
            invariant
                i <= self.entries@.len(),
                forall|j: int| i <= j < self.entries@.len() ==> (#[trigger] self.entries@[j]).0@ != name@,
            decreases i,
        {
            if same_text(self.entries[i - 1].0.as_str(), name) {
                proof {
                    let s = self.entries@;
                    lemma_depth_map_suffix(s, i as int, name@);
                    assert(s.take(i as int).drop_last() =~= s.take(i - 1));
                }
                return Some(self.entries[i - 1].1);
            }
            i -= 1;
        }
        proof {
            lemma_depth_map_suffix(self.entries@, 0, name@);
        }
        None
    }
}

// - - - - - - - - - - - - - - - - - - - - - - - - - - - - - - - - - - - - - - - - - - - - - - - - - - - - - - - - - - -
// Placing the nodes
// - - - - - - - - - - - - - - - - - - - - - - - - - - - - - - - - - - - - - - - - - - - - - - - - - - - - - - - - - - -

/// Whether a list of names holds `name`.
fn lists(layer: &Vec<String>, name: &str) -> (r: bool)
    ensures
        r == names_view(*layer).contains(name@),
{
    let mut i: usize = 0;
    while i < layer.len()
        invariant
            i <= layer@.len(),
            forall|j: int| 0 <= j < i ==> (#[trigger] layer@[j])@ != name@,
        decreases layer.len() - i,
    {
        if same_text(layer[i].as_str(), name) {
            proof {
                assert(names_view(*layer)[i as int] == name@);
            }
            return true;
        }
        i += 1;
    }
    proof {
        if names_view(*layer).contains(name@) {
            let j = choose|j: int| 0 <= j < names_view(*layer).len() && names_view(*layer)[j] == name@;
            assert(layer@[j]@ == name@);
        }
    }
    false
}

/// The longest-path depth of `name` (see [`asap_of`]).
fn asap_index(graph: &ValidatedGraph, name: &str) -> (r: usize)
    ensures
        r as nat == asap_of(layers_view(*graph), name@),
{
    let ghost lv = layers_view(*graph);
    let mut i = graph.layers.len();
    proof {
        assert(lv.take(i as int) =~= lv);
    }
    while i > 0
        invariant
            i <= graph.layers@.len(),
            lv == layers_view(*graph),
            asap_of(lv, name@) == asap_of(lv.take(i as int), name@),
        decreases i,
    {
        proof {
            let t = lv.take(i as int);
            assert(t.drop_last() =~= lv.take(i - 1));
            assert(t.last() == names_view(graph.layers@[i - 1]));
        }
        if lists(&graph.layers[i - 1], name) {
            return i - 1;
        }
        i -= 1;
    }
    0
}

/// The depth to give `name`, at position `j` of layer `li`, once every layer after `li` and the names before it in
/// layer `li` are placed (see [`late_depth`]).
fn depth_for(graph: &ValidatedGraph, depths: &Depths, name: &String, Ghost(li): Ghost<int>, Ghost(j): Ghost<int>) -> (r:
    usize)
    requires
        resolvable(*graph),
        0 <= li < layers_view(*graph).len(),
        0 <= j < layers_view(*graph)[li].len(),
        layers_view(*graph)[li][j] == name@,
        forall|l2: int, j2: int|
            li < l2 < layers_view(*graph).len() && 0 <= j2 < layers_view(*graph)[l2].len()
                ==> depth_map(depths.entries@).contains_key(#[trigger] layers_view(*graph)[l2][j2]),
        forall|j2: int|
            0 <= j2 < j ==> depth_map(depths.entries@).contains_key(#[trigger] layers_view(*graph)[li][j2]),
    ensures
        r as nat == late_depth(depth_map(depths.entries@), name@, edges_view(*graph), layers_view(*graph)),
{
    let ghost ev = edges_view(*graph);
    let ghost lv = layers_view(*graph);
    let ghost dm = depth_map(depths.entries@);
    let mut found = false;
    let mut best: usize = 0;
    let mut e: usize = 0;
    while e < graph.edges.len()
        invariant
            e <= graph.edges@.len(),
            ev == edges_view(*graph),
            lv == layers_view(*graph),
            dm == depth_map(depths.entries@),
            resolvable(*graph),
            0 <= li < lv.len(),
            0 <= j < lv[li].len(),
            lv[li][j] == name@,
            forall|l2: int, j2: int|
                li < l2 < lv.len() && 0 <= j2 < lv[l2].len() ==> dm.contains_key(#[trigger] lv[l2][j2]),
            forall|j2: int| 0 <= j2 < j ==> dm.contains_key(#[trigger] lv[li][j2]),
            found == (succs_of(ev.take(e as int), name@).len() > 0),
            found ==> best as nat == min_depth(dm, succs_of(ev.take(e as int), name@)),
        decreases graph.edges.len() - e,
    {
        proof {
            let t = ev.take(e + 1);
            assert(t.drop_last() =~= ev.take(e as int));
            assert(t.last() == ev[e as int]);
            assert(ev[e as int] == (graph.edges@[e as int].0@, graph.edges@[e as int].1@));
        }
        if same_text(graph.edges[e].0.as_str(), name.as_str()) {
            proof {
                assert(ev[e as int].0 == lv[li][j]);
            }
            let d = match depths.get(graph.edges[e].1.as_str()) {
                Some(d) => d,
                None => {
                    proof {
                        assert(ev[e as int].0 == lv[li][j]);
                        if exists|l2: int, j2: int|
                            li < l2 < lv.len() && 0 <= j2 < lv[l2].len() && lv[l2][j2] == ev[e as int].1 {
                            let (l2, j2) = choose|l2: int, j2: int|
                                li < l2 < lv.len() && 0 <= j2 < lv[l2].len() && lv[l2][j2] == ev[e as int].1;
                            assert(dm.contains_key(lv[l2][j2]));
                        } else {
                            let j2 = choose|j2: int| 0 <= j2 < j && lv[li][j2] == ev[e as int].1;
                            assert(dm.contains_key(lv[li][j2]));
                        }
                    }
                    0
                },
            };
            let ghost before = succs_of(ev.take(e as int), name@);
            let ghost target = ev[e as int].1;
            if !found || d < best {
                best = d;
            }
            found = true;
            proof {
                let after = succs_of(ev.take(e + 1), name@);
                assert(after == before.push(target));
                assert(after.drop_last() =~= before);
                assert(dm[target] == d as nat);
            }
        }
        e += 1;
    }
    proof {
        assert(ev.take(e as int) =~= ev);
    }
    if found {
        if best >= 1 {
            best - 1
        } else {
            0
        }
    } else {
        asap_index(graph, name.as_str())
    }
}

/// The as-late-as-possible depths of every node of the layering (see [`alap_depths`]).
fn assign_depths(graph: &ValidatedGraph) -> (r: Depths)
    requires
        resolvable(*graph),
    ensures
        depth_map(r.entries@) == alap_depths(*graph),
{
    let ghost lv = layers_view(*graph);
    let ghost ev = edges_view(*graph);
    let mut depths = Depths::new();
    let mut li = graph.layers.len();
    while li > 0
        invariant
            li <= graph.layers@.len(),
            lv == layers_view(*graph),
            ev == edges_view(*graph),
            resolvable(*graph),
            depth_map(depths.entries@) == place_from(lv, ev, li as int),
        decreases li,
    {
        li -= 1;
        let layer = &graph.layers[li];
        let ghost below = place_from(lv, ev, li + 1);
        proof {
            lemma_place_from_dom(lv, ev, li + 1);
            assert(lv[li as int] == names_view(*layer));
        }
        let mut j: usize = 0;
        while j < layer.len()
            invariant
                li < graph.layers@.len(),
                *layer == graph.layers@[li as int],
                lv == layers_view(*graph),
                ev == edges_view(*graph),
                resolvable(*graph),
                lv[li as int] == names_view(*layer),
                below == place_from(lv, ev, li + 1),
                forall|l: int, j2: int|
                    li + 1 <= l < lv.len() && 0 <= j2 < lv[l].len() ==> below.contains_key(#[trigger] lv[l][j2]),
                j <= layer@.len(),
                depth_map(depths.entries@) == place_layer(below, lv[li as int].take(j as int), ev, lv),
            decreases layer.len() - j,
        {
            proof {
                lemma_place_layer_dom(below, lv[li as int].take(j as int), ev, lv);
                assert forall|j2: int| 0 <= j2 < j implies depth_map(depths.entries@).contains_key(
                    #[trigger] lv[li as int][j2],
                ) by {
                    assert(lv[li as int].take(j as int)[j2] == lv[li as int][j2]);
                }
                assert(lv[li as int][j as int] == layer@[j as int]@);
            }
            let d = depth_for(graph, &depths, &layer[j], Ghost(li as int), Ghost(j as int));
            depths.insert(layer[j].clone(), d);
            proof {
                let t = lv[li as int].take(j + 1);
                assert(t.drop_last() =~= lv[li as int].take(j as int));
                assert(t.last() == layer@[j as int]@);
            }
            j += 1;
        }
        proof {
            assert(lv[li as int].take(j as int) =~= lv[li as int]);
        }
    }
    depths
}

// - - - - - - - - - - - - - - - - - - - - - - - - - - - - - - - - - - - - - - - - - - - - - - - - - - - - - - - - - - -
// Ordering the placed nodes
// - - - - - - - - - - - - - - - - - - - - - - - - - - - - - - - - - - - - - - - - - - - - - - - - - - - - - - - - - - -

/// The model of a `(name, depth)` record.
spec fn pair_view(p: (String, usize)) -> (Seq<char>, nat) {
    (p.0@, p.1 as nat)
}

/// The models of a list of `(name, depth)` records.
spec fn pairs_view(s: Seq<(String, usize)>) -> Seq<(Seq<char>, nat)> {
    s.map_values(|p: (String, usize)| pair_view(p))
}

/// Order of `(name, depth)` records: by depth, then by name.
spec fn pair_lt(a: (Seq<char>, nat), b: (Seq<char>, nat)) -> bool {
    a.1 < b.1 || (a.1 == b.1 && text_lt(a.0, b.0))
}

proof fn lemma_pair_lt_trans(a: (Seq<char>, nat), b: (Seq<char>, nat), c: (Seq<char>, nat))
    requires
        pair_lt(a, b),
        pair_lt(b, c),
    ensures
        pair_lt(a, c),
{
    if a.1 == b.1 && b.1 == c.1 {
        lemma_text_lt_trans(a.0, b.0, c.0);
    }
}

proof fn lemma_pair_lt_total(a: (Seq<char>, nat), b: (Seq<char>, nat))
    requires
        a.0 != b.0,
    ensures
        pair_lt(a, b) || pair_lt(b, a),
{
    lemma_text_lt_total(a.0, b.0);
}

/// The records of a depth map: distinct names, each with its depth, covering every name of the map.
spec fn lists_depths(p: Seq<(Seq<char>, nat)>, dm: Map<Seq<char>, nat>) -> bool {
    &&& forall|a: int, b: int| 0 <= a < b < p.len() ==> (#[trigger] p[a]).0 != (#[trigger] p[b]).0
    &&& forall|q: int| 0 <= q < p.len() ==> dm.contains_key((#[trigger] p[q]).0) && dm[p[q].0] == p[q].1
    &&& forall|n: Seq<char>| dm.contains_key(n) ==> exists|q: int| 0 <= q < p.len() && (#[trigger] p[q]).0 == n
}

/// Whether record `k` is the last record of its name.
spec fn last_of(s: Seq<(String, usize)>, k: int) -> bool {
    forall|j: int| k < j < s.len() ==> (#[trigger] s[j]).0@ != s[k].0@
}

/// A name that has a record has a last one.
proof fn lemma_last_record(s: Seq<(String, usize)>, n: Seq<char>)
    requires
        exists|i: int| 0 <= i < s.len() && (#[trigger] s[i]).0@ == n,
    ensures
        exists|i: int| 0 <= i < s.len() && (#[trigger] s[i]).0@ == n && last_of(s, i),
    decreases s.len(),
{
    if s.last().0@ != n {
        let t = s.drop_last();
        let i = choose|i: int| 0 <= i < s.len() && (#[trigger] s[i]).0@ == n;
        assert(t[i] == s[i]);
        lemma_last_record(t, n);
        let k = choose|k: int| 0 <= k < t.len() && (#[trigger] t[k]).0@ == n && last_of(t, k);
        assert(s[k] == t[k]);
        assert forall|j: int| k < j < s.len() implies (#[trigger] s[j]).0@ != s[k].0@ by {
            if j < t.len() {
                assert(t[j] == s[j]);
            }
        }
        assert(last_of(s, k));
    } else {
        assert(s[s.len() - 1].0@ == n);
        assert(last_of(s, s.len() - 1));
    }
}

/// The last record of each name, in record order: one `(name, depth)` per name with a depth.
fn final_records(depths: &Depths) -> (r: Vec<(String, usize)>)
    ensures
        lists_depths(pairs_view(r@), depth_map(depths.entries@)),
{
    let ghost s = depths.entries@;
    let ghost dm = depth_map(s);
    let n = depths.entries.len();
    let mut out: Vec<(String, usize)> = Vec::new();
    let ghost mut idx: Seq<int> = Seq::empty();
    let mut i: usize = 0;
    while i < n
        invariant
            n == s.len(),
            s == depths.entries@,
            dm == depth_map(s),
            i <= n,
            idx.len() == out@.len(),
            forall|q: int| 0 <= q < idx.len() ==> 0 <= #[trigger] idx[q] < i,
            forall|a: int, b: int| 0 <= a < b < idx.len() ==> #[trigger] idx[a] < #[trigger] idx[b],
            forall|q: int| 0 <= q < idx.len() ==> pair_view(#[trigger] out@[q]) == pair_view(s[idx[q]]) && last_of(s, idx[q]),
            forall|k: int| 0 <= k < i && #[trigger] last_of(s, k) ==> exists|q: int| 0 <= q < idx.len() && #[trigger] idx[q] == k,
        decreases n - i,
    {
        let mut last = true;
        let mut j = i + 1;
        while j < n
            invariant
                n == s.len(),
                s == depths.entries@,
                i < j <= n,
                last == forall|t: int| i < t < j ==> (#[trigger] s[t]).0@ != s[i as int].0@,
            decreases n - j,
        {
            if same_text(depths.entries[j].0.as_str(), depths.entries[i].0.as_str()) {
                last = false;
            }
            j += 1;
        }
        assert(last == last_of(s, i as int));
        let ghost old_idx = idx;
        if last {
            out.push((depths.entries[i].0.clone(), depths.entries[i].1));
            proof {
                idx = idx.push(i as int);
                assert(idx[idx.len() - 1] == i);
            }
        }
        proof {
            assert forall|k: int| 0 <= k < i + 1 && #[trigger] last_of(s, k) implies exists|q: int|
                0 <= q < idx.len() && #[trigger] idx[q] == k by {
                if k == i {
                    assert(idx[idx.len() - 1] == i);
                } else {
                    let q = choose|q: int| 0 <= q < old_idx.len() && #[trigger] old_idx[q] == k;
                    assert(idx[q] == old_idx[q]);
                }
            }
        }
        i += 1;
    }
    proof {
        let p = pairs_view(out@);
        assert forall|a: int, b: int| 0 <= a < b < p.len() implies (#[trigger] p[a]).0 != (#[trigger] p[b]).0 by {
            assert(idx[a] < idx[b]);
            assert(p[a] == pair_view(out@[a]));
            assert(p[b] == pair_view(out@[b]));
            assert(last_of(s, idx[a]));
            assert(s[idx[b]].0@ != s[idx[a]].0@);
        }
        assert forall|q: int| 0 <= q < p.len() implies dm.contains_key((#[trigger] p[q]).0) && dm[p[q].0] == p[q].1 by {
            let k = idx[q];
            assert(p[q] == pair_view(out@[q]));
            assert(last_of(s, k));
            lemma_depth_map_suffix(s, k + 1, s[k].0@);
            assert(s.take(k + 1).drop_last() =~= s.take(k));
            assert(s.take(k + 1).last() == s[k]);
        }
        assert forall|nm: Seq<char>| dm.contains_key(nm) implies exists|q: int|
            0 <= q < p.len() && (#[trigger] p[q]).0 == nm by {
            lemma_depth_map_keys(s);
            lemma_last_record(s, nm);
            let k = choose|k: int| 0 <= k < s.len() && (#[trigger] s[k]).0@ == nm && last_of(s, k);
            let q = choose|q: int| 0 <= q < idx.len() && #[trigger] idx[q] == k;
            assert(p[q] == pair_view(out@[q]));
        }
    }
    out
}

/// Whether record `a` comes before record `b`: by depth, then by name.
fn record_less(a: &(String, usize), b: &(String, usize)) -> (r: bool)
    ensures
        r == pair_lt(pair_view(*a), pair_view(*b)),
{
    if a.1 != b.1 {
        a.1 < b.1
    } else {
        text_less(a.0.as_str(), b.0.as_str())
    }
}

/// Whether a sequence of records is in strictly increasing order.
spec fn ascending(p: Seq<(Seq<char>, nat)>) -> bool {
    forall|a: int, b: int| 0 <= a < b < p.len() ==> pair_lt(#[trigger] p[a], #[trigger] p[b])
}

/// Inserting a record at the place where it fits keeps a sequence in increasing order.
proof fn lemma_insert_ascending(before: Seq<(Seq<char>, nat)>, p: int, x: (Seq<char>, nat))
    requires
        0 <= p <= before.len(),
        ascending(before),
        forall|a: int| 0 <= a < p ==> pair_lt(#[trigger] before[a], x),
        forall|a: int| p <= a < before.len() ==> pair_lt(x, #[trigger] before[a]),
    ensures
        ascending(before.insert(p, x)),
{
    let after = before.insert(p, x);
    assert forall|a: int, b: int| 0 <= a < b < after.len() implies pair_lt(#[trigger] after[a], #[trigger] after[b]) by {
        if b < p {
            assert(after[a] == before[a] && after[b] == before[b]);
        } else if b == p {
            assert(after[a] == before[a]);
        } else if a < p {
            assert(after[a] == before[a] && after[b] == before[b - 1]);
            lemma_pair_lt_trans(before[a], x, before[b - 1]);
        } else if a == p {
            assert(after[b] == before[b - 1]);
        } else {
            assert(after[a] == before[a - 1] && after[b] == before[b - 1]);
        }
    }
}

/// Whether `out` holds exactly the records `src[0..i]`, each once.
spec fn holds_first(out: Seq<(Seq<char>, nat)>, src: Seq<(Seq<char>, nat)>, i: int) -> bool {
    &&& out.len() == i
    &&& forall|a: int| 0 <= a < out.len() ==> exists|q: int| 0 <= q < i && #[trigger] src[q] == #[trigger] out[a]
    &&& forall|q: int| 0 <= q < i ==> exists|a: int| 0 <= a < out.len() && #[trigger] src[q] == #[trigger] out[a]
}

/// Inserting record `i` into a sequence holding the records before it gives one holding the records up to it.
proof fn lemma_insert_holds(before: Seq<(Seq<char>, nat)>, p: int, src: Seq<(Seq<char>, nat)>, i: int)
    requires
        0 <= p <= before.len(),
        0 <= i < src.len(),
        holds_first(before, src, i),
    ensures
        holds_first(before.insert(p, src[i]), src, i + 1),
{
    let after = before.insert(p, src[i]);
    assert forall|a: int| 0 <= a < after.len() implies exists|q: int| 0 <= q < i + 1 && #[trigger] src[q] == #[trigger] after[a] by {
        if a < p {
            assert(after[a] == before[a]);
            let q = choose|q: int| 0 <= q < i && #[trigger] src[q] == #[trigger] before[a];
        } else if a == p {
            assert(src[i] == after[a]);
        } else {
            assert(after[a] == before[a - 1]);
            let q = choose|q: int| 0 <= q < i && #[trigger] src[q] == #[trigger] before[a - 1];
        }
    }
    assert forall|q: int| 0 <= q < i + 1 implies exists|a: int| 0 <= a < after.len() && #[trigger] src[q] == #[trigger] after[a] by {
        if q == i {
            assert(src[q] == after[p]);
        } else {
            let a = choose|a: int| 0 <= a < before.len() && #[trigger] src[q] == #[trigger] before[a];
            if a < p {
                assert(after[a] == before[a]);
            } else {
                assert(after[a + 1] == before[a]);
            }
        }
    }
}

/// Inserting record `i` before the first record placed so far that comes after it keeps the records placed in
/// increasing order, and holding the records up to `i`.
proof fn lemma_insert_step(
    bv: Seq<(Seq<char>, nat)>,
    p: int,
    src: Seq<(Seq<char>, nat)>,
    i: int,
    dm: Map<Seq<char>, nat>,
)
    requires
        lists_depths(src, dm),
        0 <= i < src.len(),
        holds_first(bv, src, i),
        ascending(bv),
        0 <= p <= bv.len(),
        forall|a: int| 0 <= a < p ==> !pair_lt(src[i], #[trigger] bv[a]),
        p < bv.len() ==> pair_lt(src[i], bv[p]),
    ensures
        ascending(bv.insert(p, src[i])),
        holds_first(bv.insert(p, src[i]), src, i + 1),
{
    let x = src[i];
    // The new record differs by name from every record placed so far.
    assert forall|a: int| 0 <= a < bv.len() implies (#[trigger] bv[a]).0 != x.0 by {
        let q = choose|q: int| 0 <= q < i && #[trigger] src[q] == #[trigger] bv[a];
        assert(src[q].0 != src[i].0);
    }
    assert forall|a: int| 0 <= a < p implies pair_lt(#[trigger] bv[a], x) by {
        lemma_pair_lt_total(bv[a], x);
    }
    if p < bv.len() {
        assert forall|a: int| p <= a < bv.len() implies pair_lt(x, #[trigger] bv[a]) by {
            if a > p {
                lemma_pair_lt_trans(x, bv[p], bv[a]);
            }
        }
    }
    lemma_insert_ascending(bv, p, x);
    lemma_insert_holds(bv, p, src, i);
}

/// The records sorted by depth, then by name.
#[verifier::rlimit(40)]
fn sort_records(recs: &Vec<(String, usize)>, Ghost(dm): Ghost<Map<Seq<char>, nat>>) -> (r: Vec<(String, usize)>)
    requires
        lists_depths(pairs_view(recs@), dm),
    ensures
        lists_depths(pairs_view(r@), dm),
        ascending(pairs_view(r@)),
{
    let ghost src = pairs_view(recs@);
    let mut out: Vec<(String, usize)> = Vec::new();
    let mut i: usize = 0;
    proof {
        assert(holds_first(pairs_view(out@), src, 0));
    }
    while i < recs.len()
        invariant
            i <= recs@.len(),
            src == pairs_view(recs@),
            lists_depths(src, dm),
            ascending(pairs_view(out@)),
            holds_first(pairs_view(out@), src, i as int),
        decreases recs.len() - i,
    {
        let item = (recs[i].0.clone(), recs[i].1);
        let ghost x = pair_view(item);
        let ghost bv = pairs_view(out@);
        assert(x == src[i as int]);
        let mut p: usize = 0;
        while p < out.len() && !record_less(&item, &out[p])
            invariant
                p <= out@.len(),
                bv == pairs_view(out@),
                forall|a: int| 0 <= a < p ==> !pair_lt(x, #[trigger] bv[a]),
                x == pair_view(item),
            decreases out.len() - p,
        {
            p += 1;
        }
        proof {
            lemma_insert_step(bv, p as int, src, i as int, dm);
        }
        out.insert(p, item);
        proof {
            assert(pairs_view(out@) =~= bv.insert(p as int, x));
        }
        i += 1;
    }
    proof {
        let ov = pairs_view(out@);
        assert forall|a: int, b: int| 0 <= a < b < ov.len() implies (#[trigger] ov[a]).0 != (#[trigger] ov[b]).0 by {
            assert(pair_lt(ov[a], ov[b]));
            if ov[a].0 == ov[b].0 {
                lemma_text_lt_strict(ov[a].0, ov[b].0);
            }
        }
        assert forall|q: int| 0 <= q < ov.len() implies dm.contains_key((#[trigger] ov[q]).0) && dm[ov[q].0] == ov[q].1 by {
            let k = choose|k: int| 0 <= k < recs@.len() && #[trigger] src[k] == #[trigger] ov[q];
        }
        assert forall|nm: Seq<char>| dm.contains_key(nm) implies exists|q: int| 0 <= q < ov.len() && (#[trigger] ov[q]).0 == nm by {
            let k = choose|k: int| 0 <= k < src.len() && (#[trigger] src[k]).0 == nm;
            let a = choose|a: int| 0 <= a < ov.len() && #[trigger] src[k] == #[trigger] ov[a];
        }
    }
    out
}

// - - - - - - - - - - - - - - - - - - - - - - - - - - - - - - - - - - - - - - - - - - - - - - - - - - - - - - - - - - -
// Grouping by depth
// - - - - - - - - - - - - - - - - - - - - - - - - - - - - - - - - - - - - - - - - - - - - - - - - - - - - - - - - - - -

/// The names of a list of layers.
pub open spec fn layers_out(v: Vec<Vec<String>>) -> Seq<Seq<Seq<char>>> {
    v@.map_values(|l: Vec<String>| names_view(l))
}

/// Completed layers: non-empty, layer `k` holding names of depth `vals[k]` in ascending order, depths increasing.
spec fn layers_ok(o: Seq<Seq<Seq<char>>>, vals: Seq<nat>, dm: Map<Seq<char>, nat>) -> bool {
    &&& o.len() == vals.len()
    &&& forall|k: int| 0 <= k < o.len() ==> (#[trigger] o[k]).len() > 0
    &&& forall|k: int, t: int|
        0 <= k < o.len() && 0 <= t < o[k].len() ==> dm.contains_key(#[trigger] o[k][t]) && dm[o[k][t]] == vals[k]
    &&& forall|k: int, t1: int, t2: int|
        0 <= k < o.len() && 0 <= t1 < t2 < o[k].len() ==> text_lt(#[trigger] o[k][t1], #[trigger] o[k][t2])
    &&& forall|a: int, b: int| 0 <= a < b < vals.len() ==> #[trigger] vals[a] < #[trigger] vals[b]
}

/// The layer being filled: names of depth `cd` in ascending order.
spec fn run_ok(c: Seq<Seq<char>>, cd: nat, dm: Map<Seq<char>, nat>) -> bool {
    &&& forall|t: int| 0 <= t < c.len() ==> dm.contains_key(#[trigger] c[t]) && dm[c[t]] == cd
    &&& forall|t1: int, t2: int| 0 <= t1 < t2 < c.len() ==> text_lt(#[trigger] c[t1], #[trigger] c[t2])
}

/// Whether some completed layer lists `n`.
spec fn in_layers(o: Seq<Seq<Seq<char>>>, n: Seq<char>) -> bool {
    exists|k: int, t: int| 0 <= k < o.len() && 0 <= t < o[k].len() && o[k][t] == n
}

/// The first `i` records are listed in a completed layer or in the layer being filled.
spec fn covers(o: Seq<Seq<Seq<char>>>, c: Seq<Seq<char>>, sv: Seq<(Seq<char>, nat)>, i: int) -> bool {
    forall|q: int| 0 <= q < i ==> in_layers(o, (#[trigger] sv[q]).0) || c.contains(sv[q].0)
}

/// Closing the layer being filled, when the next record is deeper.
proof fn lemma_close_layer(
    o: Seq<Seq<Seq<char>>>,
    vals: Seq<nat>,
    c: Seq<Seq<char>>,
    cd: nat,
    dm: Map<Seq<char>, nat>,
    sv: Seq<(Seq<char>, nat)>,
    i: int,
)
    requires
        layers_ok(o, vals, dm),
        run_ok(c, cd, dm),
        c.len() > 0,
        vals.len() > 0 ==> vals.last() < cd,
        covers(o, c, sv, i),
    ensures
        layers_ok(o.push(c), vals.push(cd), dm),
        covers(o.push(c), Seq::empty(), sv, i),
{
    let o2 = o.push(c);
    let v2 = vals.push(cd);
    assert forall|k: int| 0 <= k < o2.len() implies (#[trigger] o2[k]).len() > 0 by {
        if k < o.len() {
            assert(o2[k] == o[k]);
        }
    }
    assert forall|k: int, t: int| 0 <= k < o2.len() && 0 <= t < o2[k].len() implies dm.contains_key(
        #[trigger] o2[k][t],
    ) && dm[o2[k][t]] == v2[k] by {
        if k < o.len() {
            assert(o2[k] == o[k]);
        } else {
            assert(o2[k] == c);
        }
    }
    assert forall|k: int, t1: int, t2: int| 0 <= k < o2.len() && 0 <= t1 < t2 < o2[k].len() implies text_lt(
        #[trigger] o2[k][t1],
        #[trigger] o2[k][t2],
    ) by {
        if k < o.len() {
            assert(o2[k] == o[k]);
        } else {
            assert(o2[k] == c);
        }
    }
    assert forall|a: int, b: int| 0 <= a < b < v2.len() implies #[trigger] v2[a] < #[trigger] v2[b] by {
        if b < vals.len() {
            assert(v2[a] == vals[a] && v2[b] == vals[b]);
        } else {
            assert(v2[a] == vals[a]);
            if a < vals.len() - 1 {
                assert(vals[a] < vals[vals.len() - 1]);
            }
        }
    }
    assert forall|q: int| 0 <= q < i implies in_layers(o2, (#[trigger] sv[q]).0) || Seq::<Seq<char>>::empty().contains(
        sv[q].0,
    ) by {
        if in_layers(o, sv[q].0) {
            let (k, t) = choose|k: int, t: int| 0 <= k < o.len() && 0 <= t < o[k].len() && o[k][t] == sv[q].0;
            assert(o2[k] == o[k]);
        } else {
            let t = choose|t: int| 0 <= t < c.len() && c[t] == sv[q].0;
            assert(o2[o.len() as int] == c);
            assert(o2[o.len() as int][t] == sv[q].0);
        }
    }
}

/// Adding the next record to the layer being filled, when it is the first record or as deep as that layer.
proof fn lemma_extend_layer(
    o: Seq<Seq<Seq<char>>>,
    c: Seq<Seq<char>>,
    cd: nat,
    dm: Map<Seq<char>, nat>,
    sv: Seq<(Seq<char>, nat)>,
    i: int,
)
    requires
        lists_depths(sv, dm),
        ascending(sv),
        0 <= i < sv.len(),
        run_ok(c, cd, dm),
        c.len() > 0 ==> c.last() == sv[i - 1].0 && cd == sv[i - 1].1 && sv[i].1 == cd,
        c.len() > 0 ==> i > 0,
        covers(o, c, sv, i),
    ensures
        run_ok(c.push(sv[i].0), sv[i].1, dm),
        covers(o, c.push(sv[i].0), sv, i + 1),
{
    let c2 = c.push(sv[i].0);
    assert(dm.contains_key(sv[i].0) && dm[sv[i].0] == sv[i].1);
    assert forall|t: int| 0 <= t < c2.len() implies dm.contains_key(#[trigger] c2[t]) && dm[c2[t]] == sv[i].1 by {
        if t < c.len() {
            assert(c2[t] == c[t]);
        }
    }
    if c.len() > 0 {
        assert(pair_lt(sv[i - 1], sv[i]));
    }
    assert forall|t1: int, t2: int| 0 <= t1 < t2 < c2.len() implies text_lt(#[trigger] c2[t1], #[trigger] c2[t2]) by {
        if t2 < c.len() {
            assert(c2[t1] == c[t1] && c2[t2] == c[t2]);
        } else {
            assert(c2[t1] == c[t1]);
            if t1 < c.len() - 1 {
                lemma_text_lt_trans(c[t1], c[c.len() - 1], sv[i].0);
            }
        }
    }
    assert forall|q: int| 0 <= q < i + 1 implies in_layers(o, (#[trigger] sv[q]).0) || c2.contains(sv[q].0) by {
        if q == i {
            assert(c2[c.len() as int] == sv[q].0);
        } else if c.contains(sv[q].0) {
            let t = choose|t: int| 0 <= t < c.len() && c[t] == sv[q].0;
            assert(c2[t] == c[t]);
        }
    }
}

/// Completed layers that hold every record are the layering of the depths.
proof fn lemma_grouped(o: Seq<Seq<Seq<char>>>, vals: Seq<nat>, dm: Map<Seq<char>, nat>, sv: Seq<(Seq<char>, nat)>)
    requires
        layers_ok(o, vals, dm),
        covers(o, Seq::empty(), sv, sv.len() as int),
        lists_depths(sv, dm),
    ensures
        is_layering(dm, o),
{
    assert forall|k: int, i: int| 0 <= k < o.len() && 0 <= i < o[k].len() implies dm.contains_key(#[trigger] o[k][i])
        && dm[o[k][i]] == dm[o[k][0]] by {
        assert(dm[o[k][0]] == vals[k]);
    }
    assert forall|a: int, b: int| 0 <= a < b < o.len() implies dm[(#[trigger] o[a])[0]] < dm[(#[trigger] o[b])[0]] by {
        assert(o[a].len() > 0 && o[b].len() > 0);
        assert(dm[o[a][0]] == vals[a]);
        assert(dm[o[b][0]] == vals[b]);
    }
    assert forall|n: Seq<char>| dm.contains_key(n) implies exists|k: int, i: int|
        0 <= k < o.len() && 0 <= i < o[k].len() && #[trigger] o[k][i] == n by {
        let q = choose|q: int| 0 <= q < sv.len() && (#[trigger] sv[q]).0 == n;
        assert(in_layers(o, sv[q].0) || Seq::<Seq<char>>::empty().contains(sv[q].0));
        let (k, t) = choose|k: int, t: int| 0 <= k < o.len() && 0 <= t < o[k].len() && o[k][t] == sv[q].0;
        assert(o[k][t] == n);
    }
}

/// Groups records sorted by depth and name into layers, one per depth.
fn group_by_depth(sorted: &Vec<(String, usize)>, Ghost(dm): Ghost<Map<Seq<char>, nat>>) -> (r: Vec<Vec<String>>)
    requires
        lists_depths(pairs_view(sorted@), dm),
        ascending(pairs_view(sorted@)),
    ensures
        is_layering(dm, layers_out(r)),
{
    let ghost sv = pairs_view(sorted@);
    let mut out: Vec<Vec<String>> = Vec::new();
    let mut cur: Vec<String> = Vec::new();
    let mut cur_depth: usize = 0;
    let ghost mut vals: Seq<nat> = Seq::empty();
    let mut i: usize = 0;
    proof {
        assert(layers_out(out) =~= Seq::<Seq<Seq<char>>>::empty());
        assert(names_view(cur) =~= Seq::<Seq<char>>::empty());
    }
    while i < sorted.len()
        invariant
            i <= sorted@.len(),
            sv == pairs_view(sorted@),
            lists_depths(sv, dm),
            ascending(sv),
            layers_ok(layers_out(out), vals, dm),
            run_ok(names_view(cur), cur_depth as nat, dm),
            (i > 0) == (cur@.len() > 0),
            cur@.len() > 0 ==> names_view(cur).last() == sv[i - 1].0 && cur_depth == sv[i - 1].1,
            cur@.len() > 0 && vals.len() > 0 ==> vals.last() < cur_depth,
            cur@.len() == 0 ==> vals.len() == 0,
            covers(layers_out(out), names_view(cur), sv, i as int),
        decreases sorted.len() - i,
    {
        let d = sorted[i].1;
        assert(sv[i as int] == pair_view(sorted@[i as int]));
        if cur.len() > 0 && d != cur_depth {
            proof {
                assert(pair_lt(sv[i - 1], sv[i as int]));
                assert(cur_depth < d);
                lemma_close_layer(layers_out(out), vals, names_view(cur), cur_depth as nat, dm, sv, i as int);
            }
            let ghost before = layers_out(out);
            let ghost c = names_view(cur);
            out.push(cur);
            cur = Vec::new();
            proof {
                assert(layers_out(out) =~= before.push(c));
                vals = vals.push(cur_depth as nat);
                assert(names_view(cur) =~= Seq::<Seq<char>>::empty());
            }
        }
        proof {
            lemma_extend_layer(layers_out(out), names_view(cur), cur_depth as nat, dm, sv, i as int);
        }
        let ghost c = names_view(cur);
        cur.push(sorted[i].0.clone());
        cur_depth = d;
        proof {
            assert(names_view(cur) =~= c.push(sv[i as int].0));
        }
        i += 1;
    }
    if cur.len() > 0 {
        proof {
            lemma_close_layer(layers_out(out), vals, names_view(cur), cur_depth as nat, dm, sv, i as int);
        }
        let ghost before = layers_out(out);
        let ghost c = names_view(cur);
        out.push(cur);
        proof {
            assert(layers_out(out) =~= before.push(c));
            vals = vals.push(cur_depth as nat);
        }
    } else {
        proof {
            assert(names_view(cur) =~= Seq::<Seq<char>>::empty());
        }
    }
    proof {
        lemma_grouped(layers_out(out), vals, dm, sv);
    }
    out
}

/// Re-layers the graph "as late as possible": every node moves to the layer just before its earliest successor, so
/// inputs end up adjacent to the operation they feed. Nodes with no successors keep their longest-path depth (their
/// layer in [`ValidatedGraph::layers`]). Empty layers are dropped, and each layer lists its nodes in ascending order.
pub fn alap_layers(graph: &ValidatedGraph) -> (r: Vec<Vec<String>>)
    requires
        resolvable(*graph),
    ensures
        is_layering(alap_depths(*graph), layers_out(r)),
{
    let depths = assign_depths(graph);
    let recs = final_records(&depths);
    let sorted = sort_records(&recs, Ghost(alap_depths(*graph)));
    group_by_depth(&sorted, Ghost(alap_depths(*graph)))
}

// - - - - - - - - - - - - - - - - - - - - - - - - - - - - - - - - - - - - - - - - - - - - - - - - - - - - - - - - - - -
// The placement is settled
// - - - - - - - - - - - - - - - - - - - - - - - - - - - - - - - - - - - - - - - - - - - - - - - - - - - - - - - - - - -

/// Every node of the layering is listed at one position only.
pub open spec fn listed_once(g: ValidatedGraph) -> bool {
    let lv = layers_view(g);
    forall|l1: int, j1: int, l2: int, j2: int|
        0 <= l1 < lv.len() && 0 <= j1 < lv[l1].len() && 0 <= l2 < lv.len() && 0 <= j2 < lv[l2].len() && (l1 != l2
            || j1 != j2) ==> #[trigger] lv[l1][j1] != #[trigger] lv[l2][j2]
}

/// Depths in which every placed node's successors are placed, and every placed node sits where [`late_depth`] puts
/// it.
spec fn settled(m: Map<Seq<char>, nat>, ev: Seq<(Seq<char>, Seq<char>)>, lv: Seq<Seq<Seq<char>>>) -> bool {
    forall|k: Seq<char>|
        #[trigger] m.contains_key(k) ==> (forall|s: Seq<char>| #[trigger] succs_of(ev, k).contains(s) ==> m.contains_key(s))
            && m[k] == late_depth(m, k, ev, lv)
}

/// The successors of `n` are the targets of the edges out of `n`.
proof fn lemma_succs_of(ev: Seq<(Seq<char>, Seq<char>)>, n: Seq<char>)
    ensures
        forall|s: Seq<char>|
            #[trigger] succs_of(ev, n).contains(s) <==> exists|e: int| 0 <= e < ev.len() && ev[e].0 == n && ev[e].1 == s,
    decreases ev.len(),
{
    if ev.len() > 0 {
        let t = ev.drop_last();
        lemma_succs_of(t, n);
        let sv = succs_of(ev, n);
        let st = succs_of(t, n);
        assert forall|s: Seq<char>| #[trigger] sv.contains(s) <==> exists|e: int|
            0 <= e < ev.len() && ev[e].0 == n && ev[e].1 == s by {
            if sv.contains(s) {
                let i = choose|i: int| 0 <= i < sv.len() && sv[i] == s;
                if ev.last().0 == n && i == st.len() {
                    assert(ev[ev.len() - 1].0 == n && ev[ev.len() - 1].1 == s);
                } else {
                    assert(st[i] == s);
                    assert(st.contains(s));
                    let e = choose|e: int| 0 <= e < t.len() && t[e].0 == n && t[e].1 == s;
                    assert(ev[e] == t[e]);
                }
            }
            if exists|e: int| 0 <= e < ev.len() && ev[e].0 == n && ev[e].1 == s {
                let e = choose|e: int| 0 <= e < ev.len() && ev[e].0 == n && ev[e].1 == s;
                if e == ev.len() - 1 {
                    assert(sv[sv.len() - 1] == s);
                } else {
                    assert(t[e] == ev[e]);
                    assert(st.contains(s));
                    let i = choose|i: int| 0 <= i < st.len() && st[i] == s;
                    assert(sv[i] == s);
                }
            }
        }
    }
}

/// Two depth maps that agree on some names agree on their smallest depth.
proof fn lemma_min_depth_agree(m1: Map<Seq<char>, nat>, m2: Map<Seq<char>, nat>, names: Seq<Seq<char>>)
    requires
        forall|i: int| 0 <= i < names.len() ==> m1[#[trigger] names[i]] == m2[names[i]],
    ensures
        names.len() >= 1 ==> min_depth(m1, names) == min_depth(m2, names),
    decreases names.len(),
{
    if names.len() > 1 {
        let t = names.drop_last();
        assert forall|i: int| 0 <= i < t.len() implies m1[#[trigger] t[i]] == m2[t[i]] by {
            assert(t[i] == names[i]);
        }
        lemma_min_depth_agree(m1, m2, t);
        assert(m1[names[names.len() - 1]] == m2[names[names.len() - 1]]);
    } else if names.len() == 1 {
        assert(m1[names[0]] == m2[names[0]]);
    }
}

/// The depth of a node depends only on the depths of its successors.
proof fn lemma_late_depth_agree(
    m1: Map<Seq<char>, nat>,
    m2: Map<Seq<char>, nat>,
    n: Seq<char>,
    ev: Seq<(Seq<char>, Seq<char>)>,
    lv: Seq<Seq<Seq<char>>>,
)
    requires
        forall|s: Seq<char>| #[trigger] succs_of(ev, n).contains(s) ==> m1[s] == m2[s],
    ensures
        late_depth(m1, n, ev, lv) == late_depth(m2, n, ev, lv),
{
    let names = succs_of(ev, n);
    assert forall|i: int| 0 <= i < names.len() implies m1[#[trigger] names[i]] == m2[names[i]] by {
        assert(names.contains(names[i]));
    }
    lemma_min_depth_agree(m1, m2, names);
}

/// Placing a node whose successors are all placed keeps the depths settled.
proof fn lemma_insert_settled(
    m: Map<Seq<char>, nat>,
    n: Seq<char>,
    ev: Seq<(Seq<char>, Seq<char>)>,
    lv: Seq<Seq<Seq<char>>>,
)
    requires
        settled(m, ev, lv),
        !m.contains_key(n),
        forall|s: Seq<char>| #[trigger] succs_of(ev, n).contains(s) ==> m.contains_key(s),
    ensures
        settled(m.insert(n, late_depth(m, n, ev, lv)), ev, lv),
{
    let m2 = m.insert(n, late_depth(m, n, ev, lv));
    assert forall|k: Seq<char>| #[trigger] m2.contains_key(k) implies (forall|s: Seq<char>|
        #[trigger] succs_of(ev, k).contains(s) ==> m2.contains_key(s)) && m2[k] == late_depth(m2, k, ev, lv) by {
        if k == n {
            assert forall|s: Seq<char>| #[trigger] succs_of(ev, n).contains(s) implies m[s] == m2[s] by {
                assert(s != n);
            }
            lemma_late_depth_agree(m, m2, n, ev, lv);
        } else {
            assert(m.contains_key(k));
            assert forall|s: Seq<char>| #[trigger] succs_of(ev, k).contains(s) implies m[s] == m2[s] by {
                assert(m.contains_key(s));
                assert(s != n);
            }
            lemma_late_depth_agree(m, m2, k, ev, lv);
        }
    }
}

/// Placing a layer of new nodes, each of whose successors is placed already or earlier in the layer, keeps the
/// depths settled, and places exactly the nodes of the layer besides those placed before.
proof fn lemma_place_layer_settled(
    m: Map<Seq<char>, nat>,
    layer: Seq<Seq<char>>,
    ev: Seq<(Seq<char>, Seq<char>)>,
    lv: Seq<Seq<Seq<char>>>,
)
    requires
        settled(m, ev, lv),
        forall|i: int| 0 <= i < layer.len() ==> !m.contains_key(#[trigger] layer[i]),
        forall|i1: int, i2: int| 0 <= i1 < i2 < layer.len() ==> #[trigger] layer[i1] != #[trigger] layer[i2],
        forall|i: int, s: Seq<char>|
            0 <= i < layer.len() && #[trigger] succs_of(ev, layer[i]).contains(s) ==> m.contains_key(s) || exists|i2: int|
                0 <= i2 < i && layer[i2] == s,
    ensures
        settled(place_layer(m, layer, ev, lv), ev, lv),
        forall|k: Seq<char>| #[trigger] place_layer(m, layer, ev, lv).contains_key(k) <==> m.contains_key(k) || layer.contains(k),
    decreases layer.len(),
{
    if layer.len() > 0 {
        let t = layer.drop_last();
        let n = layer.last();
        assert forall|i: int| 0 <= i < t.len() implies !m.contains_key(#[trigger] t[i]) by {
            assert(t[i] == layer[i]);
        }
        assert forall|i1: int, i2: int| 0 <= i1 < i2 < t.len() implies #[trigger] t[i1] != #[trigger] t[i2] by {
            assert(t[i1] == layer[i1] && t[i2] == layer[i2]);
        }
        assert forall|i: int, s: Seq<char>| 0 <= i < t.len() && #[trigger] succs_of(ev, t[i]).contains(s) implies m.contains_key(
            s,
        ) || exists|i2: int| 0 <= i2 < i && t[i2] == s by {
            assert(t[i] == layer[i]);
            if !m.contains_key(s) {
                let i2 = choose|i2: int| 0 <= i2 < i && layer[i2] == s;
                assert(t[i2] == layer[i2]);
            }
        }
        lemma_place_layer_settled(m, t, ev, lv);
        let d = place_layer(m, t, ev, lv);
        assert(!d.contains_key(n)) by {
            assert(!m.contains_key(layer[layer.len() - 1]));
            if t.contains(n) {
                let i = choose|i: int| 0 <= i < t.len() && t[i] == n;
                assert(layer[i] == t[i]);
                assert(layer[i] != layer[layer.len() - 1]);
            }
        }
        assert forall|s: Seq<char>| #[trigger] succs_of(ev, n).contains(s) implies d.contains_key(s) by {
            assert(succs_of(ev, layer[layer.len() - 1]).contains(s));
            if !m.contains_key(s) {
                let i2 = choose|i2: int| 0 <= i2 < layer.len() - 1 && layer[i2] == s;
                assert(t[i2] == s);
                assert(t.contains(s));
            }
        }
        lemma_insert_settled(d, n, ev, lv);
        assert forall|k: Seq<char>| #[trigger] place_layer(m, layer, ev, lv).contains_key(k) <==> m.contains_key(k)
            || layer.contains(k) by {
            if layer.contains(k) && k != n {
                let i = choose|i: int| 0 <= i < layer.len() && layer[i] == k;
                assert(t[i] == k);
                assert(t.contains(k));
            }
            if t.contains(k) {
                let i = choose|i: int| 0 <= i < t.len() && t[i] == k;
                assert(layer[i] == k);
            }
            if k == n {
                assert(layer[layer.len() - 1] == k);
            }
        }
    } else {
        assert forall|k: Seq<char>| #[trigger] place_layer(m, layer, ev, lv).contains_key(k) <==> m.contains_key(k)
            || layer.contains(k) by {
        }
    }
}

/// Placing the layers from the last down to layer `t` settles the depths of exactly the nodes of those layers.
proof fn lemma_place_from_settled(g: ValidatedGraph, t: int)
    requires
        resolvable(g),
        listed_once(g),
        0 <= t,
    ensures
        settled(place_from(layers_view(g), edges_view(g), t), edges_view(g), layers_view(g)),
        forall|k: Seq<char>| #[trigger] place_from(layers_view(g), edges_view(g), t).contains_key(k) <==> exists|l: int, j: int|
            t <= l < layers_view(g).len() && 0 <= j < layers_view(g)[l].len() && layers_view(g)[l][j] == k,
    decreases layers_view(g).len() - t,
{
    let lv = layers_view(g);
    let ev = edges_view(g);
    if t >= lv.len() {
        assert(settled(Map::<Seq<char>, nat>::empty(), ev, lv));
    } else {
        lemma_place_from_settled(g, t + 1);
        let m = place_from(lv, ev, t + 1);
        let layer = lv[t];
        assert forall|i: int| 0 <= i < layer.len() implies !m.contains_key(#[trigger] layer[i]) by {
            if m.contains_key(layer[i]) {
                let (l, j) = choose|l: int, j: int| t + 1 <= l < lv.len() && 0 <= j < lv[l].len() && lv[l][j] == layer[i];
                assert(lv[t][i] != lv[l][j]);
            }
        }
        assert forall|i1: int, i2: int| 0 <= i1 < i2 < layer.len() implies #[trigger] layer[i1] != #[trigger] layer[i2] by {
            assert(lv[t][i1] != lv[t][i2]);
        }
        assert forall|i: int, s: Seq<char>| 0 <= i < layer.len() && #[trigger] succs_of(ev, layer[i]).contains(s) implies m.contains_key(
            s,
        ) || exists|i2: int| 0 <= i2 < i && layer[i2] == s by {
            lemma_succs_of(ev, layer[i]);
            let e = choose|e: int| 0 <= e < ev.len() && ev[e].0 == layer[i] && ev[e].1 == s;
            assert(ev[e].0 == lv[t][i]);
            if exists|l2: int, j2: int| t < l2 < lv.len() && 0 <= j2 < lv[l2].len() && lv[l2][j2] == ev[e].1 {
                let (l2, j2) = choose|l2: int, j2: int| t < l2 < lv.len() && 0 <= j2 < lv[l2].len() && lv[l2][j2] == ev[e].1;
                assert(m.contains_key(lv[l2][j2]));
            }
        }
        lemma_place_layer_settled(m, layer, ev, lv);
        assert forall|k: Seq<char>| #[trigger] place_from(lv, ev, t).contains_key(k) <==> exists|l: int, j: int|
            t <= l < lv.len() && 0 <= j < lv[l].len() && lv[l][j] == k by {
            if layer.contains(k) {
                let j = choose|j: int| 0 <= j < layer.len() && layer[j] == k;
                assert(lv[t][j] == k);
            }
            if m.contains_key(k) {
                let (l, j) = choose|l: int, j: int| t + 1 <= l < lv.len() && 0 <= j < lv[l].len() && lv[l][j] == k;
                assert(lv[l][j] == k);
            }
            if exists|l: int, j: int| t <= l < lv.len() && 0 <= j < lv[l].len() && lv[l][j] == k {
                let (l, j) = choose|l: int, j: int| t <= l < lv.len() && 0 <= j < lv[l].len() && lv[l][j] == k;
                if l == t {
                    assert(layer[j] == k);
                    assert(layer.contains(k));
                } else {
                    assert(m.contains_key(k));
                }
            }
        }
    }
}

/// The as-late-as-possible placement is settled: every node of the layering gets a depth, and each sits one layer
/// before the shallowest node it feeds (in the first layer when that node is in the first layer), while a node that
/// feeds nothing keeps its longest-path depth. It holds when every node is listed once and the layering lets every
/// node be placed after the nodes it feeds.
pub proof fn lemma_alap_settled(g: ValidatedGraph)
    requires
        resolvable(g),
        listed_once(g),
    ensures
        forall|n: Seq<char>|
            #[trigger] alap_depths(g).contains_key(n) <==> exists|l: int, j: int|
                0 <= l < layers_view(g).len() && 0 <= j < layers_view(g)[l].len() && layers_view(g)[l][j] == n,
        forall|n: Seq<char>|
            #[trigger] alap_depths(g).contains_key(n) ==> alap_depths(g)[n] == late_depth(
                alap_depths(g),
                n,
                edges_view(g),
                layers_view(g),
            ),
{
    lemma_place_from_settled(g, 0);
}

// - - - - - - - - - - - - - - - - - - - - - - - - - - - - - - - - - - - - - - - - - - - - - - - - - - - - - - - - - - -
// Every wire points to a later layer
// - - - - - - - - - - - - - - - - - - - - - - - - - - - - - - - - - - - - - - - - - - - - - - - - - - - - - - - - - - -

/// Every edge out of a listed node leads to a node listed in a later layer, as in a longest-path layering.
#[verifier::opaque]
pub open spec fn edges_go_forward(g: ValidatedGraph) -> bool {
    let lv = layers_view(g);
    let ev = edges_view(g);
    forall|li: int, j: int, e: int|
        0 <= li < lv.len() && 0 <= j < lv[li].len() && 0 <= e < ev.len() && #[trigger] ev[e].0 == #[trigger] lv[li][j]
            ==> exists|l2: int, j2: int| li < l2 < lv.len() && 0 <= j2 < lv[l2].len() && lv[l2][j2] == ev[e].1
}

/// Some wire out of `n` leads to a node exactly one depth deeper than `n`.
pub open spec fn feeds_next_depth(m: Map<Seq<char>, nat>, ev: Seq<(Seq<char>, Seq<char>)>, n: Seq<char>) -> bool {
    exists|e2: int| 0 <= e2 < ev.len() && ev[e2].0 == n && m[ev[e2].1] == m[n] + 1
}

/// The smallest depth of a non-empty list of names is the depth of one of them and no larger than any of them.
proof fn lemma_min_depth_bounds(depth: Map<Seq<char>, nat>, names: Seq<Seq<char>>)
    requires
        names.len() >= 1,
    ensures
        forall|i: int| 0 <= i < names.len() ==> min_depth(depth, names) <= depth[#[trigger] names[i]],
        exists|i: int| 0 <= i < names.len() && min_depth(depth, names) == depth[names[i]],
    decreases names.len(),
{
    if names.len() > 1 {
        let t = names.drop_last();
        lemma_min_depth_bounds(depth, t);
        assert forall|i: int| 0 <= i < names.len() implies min_depth(depth, names) <= depth[#[trigger] names[i]] by {
            if i < t.len() {
                assert(t[i] == names[i]);
            }
        }
        let k = choose|i: int| 0 <= i < t.len() && min_depth(depth, t) == depth[t[i]];
        assert(t[k] == names[k]);
        if depth[names.last()] < min_depth(depth, t) {
            assert(min_depth(depth, names) == depth[names[names.len() - 1]]);
        } else {
            assert(min_depth(depth, names) == depth[names[k]]);
        }
    } else {
        assert(min_depth(depth, names) == depth[names[0]]);
    }
}

/// The last layer listing a name listed in layer `l` and in no later layer is layer `l`.
proof fn lemma_asap_of_listed(lv: Seq<Seq<Seq<char>>>, n: Seq<char>, l: int)
    requires
        0 <= l < lv.len(),
        lv[l].contains(n),
        forall|l2: int| l < l2 < lv.len() ==> !(#[trigger] lv[l2]).contains(n),
    ensures
        asap_of(lv, n) == l,
    decreases lv.len(),
{
    if l < lv.len() - 1 {
        let t = lv.drop_last();
        assert(!lv[lv.len() - 1].contains(n));
        assert forall|l2: int| l < l2 < t.len() implies !(#[trigger] t[l2]).contains(n) by {
            assert(t[l2] == lv[l2]);
        }
        assert(t[l] == lv[l]);
        lemma_asap_of_listed(t, n, l);
    }
}

/// A node listed in layer `l` is placed at depth `l` or later.
proof fn lemma_alap_at_least_layer(g: ValidatedGraph, l: int, j: int)
    requires
        listed_once(g),
        edges_go_forward(g),
        0 <= l < layers_view(g).len(),
        0 <= j < layers_view(g)[l].len(),
    ensures
        alap_depths(g).contains_key(layers_view(g)[l][j]),
        alap_depths(g)[layers_view(g)[l][j]] >= l,
    decreases layers_view(g).len() - l,
{
    reveal(edges_go_forward);
    let lv = layers_view(g);
    let ev = edges_view(g);
    let m = alap_depths(g);
    let n = lv[l][j];
    assert(resolvable(g)) by {
        assert forall|li: int, j1: int, e: int|
            0 <= li < lv.len() && 0 <= j1 < lv[li].len() && 0 <= e < ev.len() && #[trigger] ev[e].0
                == #[trigger] lv[li][j1] implies (exists|l2: int, j2: int|
            li < l2 < lv.len() && 0 <= j2 < lv[l2].len() && lv[l2][j2] == ev[e].1) || (exists|j2: int|
            0 <= j2 < j1 && lv[li][j2] == ev[e].1) by {}
    }
    lemma_alap_settled(g);
    assert(m.contains_key(n));
    assert(m[n] == late_depth(m, n, ev, lv));
    let s = succs_of(ev, n);
    if s.len() > 0 {
        lemma_min_depth_bounds(m, s);
        let k = choose|i: int| 0 <= i < s.len() && min_depth(m, s) == m[s[i]];
        lemma_succs_of(ev, n);
        assert(s.contains(s[k]));
        let e = choose|e: int| 0 <= e < ev.len() && ev[e].0 == n && ev[e].1 == s[k];
        assert(ev[e].0 == lv[l][j]);
        let (l2, j2) = choose|l2: int, j2: int| l < l2 < lv.len() && 0 <= j2 < lv[l2].len() && lv[l2][j2] == ev[e].1;
        lemma_alap_at_least_layer(g, l2, j2);
    } else {
        assert(lv[l].contains(n));
        assert forall|l2: int| l < l2 < lv.len() implies !(#[trigger] lv[l2]).contains(n) by {
            if lv[l2].contains(n) {
                let j2 = choose|j2: int| 0 <= j2 < lv[l2].len() && lv[l2][j2] == n;
                assert(lv[l][j] != lv[l2][j2]);
            }
        }
        lemma_asap_of_listed(lv, n, l);
    }
}

/// As late as possible, and no later: every wire out of a laid-out node leads to a laid-out node at a strictly greater
/// depth, and each node that feeds anything sits exactly one depth before the shallowest node it feeds (some wire out
/// of it leads to the very next depth). It holds when every node is listed once and every wire points to a later layer
/// of the longest-path layering.
pub proof fn lemma_alap_just_before_successors(g: ValidatedGraph)
    requires
        listed_once(g),
        edges_go_forward(g),
    ensures
        forall|e: int|
            0 <= e < edges_view(g).len() && #[trigger] alap_depths(g).contains_key(edges_view(g)[e].0) ==> alap_depths(
                g,
            ).contains_key(edges_view(g)[e].1) && alap_depths(g)[edges_view(g)[e].0] < alap_depths(g)[edges_view(
                g,
            )[e].1],
        forall|e: int|
            0 <= e < edges_view(g).len() && #[trigger] alap_depths(g).contains_key(edges_view(g)[e].0)
                ==> feeds_next_depth(alap_depths(g), edges_view(g), edges_view(g)[e].0),
{
    reveal(edges_go_forward);
    let lv = layers_view(g);
    let ev = edges_view(g);
    let m = alap_depths(g);
    assert(resolvable(g)) by {
        assert forall|li: int, j1: int, e: int|
            0 <= li < lv.len() && 0 <= j1 < lv[li].len() && 0 <= e < ev.len() && #[trigger] ev[e].0
                == #[trigger] lv[li][j1] implies (exists|l2: int, j2: int|
            li < l2 < lv.len() && 0 <= j2 < lv[l2].len() && lv[l2][j2] == ev[e].1) || (exists|j2: int|
            0 <= j2 < j1 && lv[li][j2] == ev[e].1) by {}
    }
    lemma_alap_settled(g);
    assert forall|e: int| 0 <= e < ev.len() && #[trigger] m.contains_key(ev[e].0) implies m.contains_key(ev[e].1)
        && m[ev[e].0] < m[ev[e].1] && feeds_next_depth(m, ev, ev[e].0) by {
        let u = ev[e].0;
        let (l, j) = choose|l: int, j: int| 0 <= l < lv.len() && 0 <= j < lv[l].len() && lv[l][j] == u;
        assert(ev[e].0 == lv[l][j]);
        let (l1, j1) = choose|l2: int, j2: int| l < l2 < lv.len() && 0 <= j2 < lv[l2].len() && lv[l2][j2] == ev[e].1;
        lemma_alap_at_least_layer(g, l1, j1);
        let s = succs_of(ev, u);
        lemma_succs_of(ev, u);
        assert(s.contains(ev[e].1));
        lemma_min_depth_bounds(m, s);
        let vi = choose|i: int| 0 <= i < s.len() && s[i] == ev[e].1;
        assert(min_depth(m, s) <= m[s[vi]]);
        let k = choose|i: int| 0 <= i < s.len() && min_depth(m, s) == m[s[i]];
        assert(s.contains(s[k]));
        let e2 = choose|e2: int| 0 <= e2 < ev.len() && ev[e2].0 == u && ev[e2].1 == s[k];
        assert(ev[e2].0 == lv[l][j]);
        let (l3, j3) = choose|l2: int, j2: int| l < l2 < lv.len() && 0 <= j2 < lv[l2].len() && lv[l2][j2] == ev[e2].1;
        lemma_alap_at_least_layer(g, l3, j3);
        assert(m[s[k]] >= 1);
        assert(m[u] == late_depth(m, u, ev, lv));
        assert(m[ev[e2].1] == m[u] + 1);
    }
}

/// A node that feeds nothing keeps its longest-path depth: listed in layer `l`, it is placed at depth `l`.
pub proof fn lemma_alap_sinks_stay(g: ValidatedGraph, l: int, j: int)
    requires
        resolvable(g),
        listed_once(g),
        0 <= l < layers_view(g).len(),
        0 <= j < layers_view(g)[l].len(),
        forall|e: int| 0 <= e < edges_view(g).len() ==> (#[trigger] edges_view(g)[e]).0 != layers_view(g)[l][j],
    ensures
        alap_depths(g).contains_key(layers_view(g)[l][j]),
        alap_depths(g)[layers_view(g)[l][j]] == l,
{
    let lv = layers_view(g);
    let ev = edges_view(g);
    let n = lv[l][j];
    lemma_alap_settled(g);
    assert(alap_depths(g).contains_key(n));
    lemma_succs_of(ev, n);
    let s = succs_of(ev, n);
    if s.len() > 0 {
        assert(s.contains(s[0]));
        let e = choose|e: int| 0 <= e < ev.len() && ev[e].0 == n && ev[e].1 == s[0];
        assert(ev[e].0 != n);
    }
    assert(lv[l].contains(n));
    assert forall|l2: int| l < l2 < lv.len() implies !(#[trigger] lv[l2]).contains(n) by {
        if lv[l2].contains(n) {
            let j2 = choose|j2: int| 0 <= j2 < lv[l2].len() && lv[l2][j2] == n;
            assert(lv[l][j] != lv[l2][j2]);
        }
    }
    lemma_asap_of_listed(lv, n, l);
}

/// In a layering by depth, a name of smaller depth is listed in an earlier layer, and a name one depth deeper in the
/// very next layer.
proof fn lemma_layer_index(depth: Map<Seq<char>, nat>, out: Seq<Seq<Seq<char>>>, a: int, i: int, b: int, i2: int)
    requires
        is_layering(depth, out),
        0 <= a < out.len(),
        0 <= i < out[a].len(),
        0 <= b < out.len(),
        0 <= i2 < out[b].len(),
    ensures
        depth[out[a][i]] < depth[out[b][i2]] ==> a < b,
        depth[out[a][i]] + 1 == depth[out[b][i2]] ==> b == a + 1,
{
    assert(depth[out[a][i]] == depth[out[a][0]]);
    assert(depth[out[b][i2]] == depth[out[b][0]]);
    if b < a {
        assert(depth[out[b][0]] < depth[out[a][0]]);
    }
    if b > a + 1 {
        assert(depth[out[a][0]] < depth[out[a + 1][0]]);
        assert(depth[out[a + 1][0]] < depth[out[b][0]]);
    }
}

/// Depths under which every wire leads deeper and every node that feeds anything has a wire to the very next depth
/// give, in any layering by those depths, wires that lead to later layers and a fed node in the very next layer.
proof fn lemma_wires_forward_in_layers(m: Map<Seq<char>, nat>, ev: Seq<(Seq<char>, Seq<char>)>, out: Seq<Seq<Seq<char>>>)
    requires
        is_layering(m, out),
        forall|e: int|
            0 <= e < ev.len() && #[trigger] m.contains_key(ev[e].0) ==> m.contains_key(ev[e].1) && m[ev[e].0]
                < m[ev[e].1],
        forall|e: int| 0 <= e < ev.len() && #[trigger] m.contains_key(ev[e].0) ==> feeds_next_depth(m, ev, ev[e].0),
    ensures
        forall|e: int, a: int, i: int, b: int, i2: int|
            #![trigger out[a][i], out[b][i2], ev[e]]
            0 <= e < ev.len() && 0 <= a < out.len() && 0 <= i < out[a].len() && 0 <= b < out.len() && 0 <= i2
                < out[b].len() && out[a][i] == ev[e].0 && out[b][i2] == ev[e].1 ==> a < b,
        forall|e: int, a: int, i: int|
            #![trigger out[a][i], ev[e]]
            0 <= e < ev.len() && 0 <= a < out.len() && 0 <= i < out[a].len() && out[a][i] == ev[e].0 ==> a + 1
                < out.len() && exists|e2: int, i2: int|
                #![trigger ev[e2], out[a + 1][i2]]
                0 <= e2 < ev.len() && 0 <= i2 < out[a + 1].len() && ev[e2].0 == out[a][i] && out[a + 1][i2]
                    == ev[e2].1,
{
    assert forall|e: int, a: int, i: int, b: int, i2: int|
        #![trigger out[a][i], out[b][i2], ev[e]]
        0 <= e < ev.len() && 0 <= a < out.len() && 0 <= i < out[a].len() && 0 <= b < out.len() && 0 <= i2
            < out[b].len() && out[a][i] == ev[e].0 && out[b][i2] == ev[e].1 implies a < b by {
        assert(m.contains_key(out[a][i]));
        assert(m.contains_key(ev[e].0));
        lemma_layer_index(m, out, a, i, b, i2);
    }
    assert forall|e: int, a: int, i: int|
        #![trigger out[a][i], ev[e]]
        0 <= e < ev.len() && 0 <= a < out.len() && 0 <= i < out[a].len() && out[a][i]
            == ev[e].0 implies a + 1 < out.len() && exists|e2: int, i2: int|
        #![trigger ev[e2], out[a + 1][i2]]
        0 <= e2 < ev.len() && 0 <= i2 < out[a + 1].len() && ev[e2].0 == out[a][i] && out[a + 1][i2] == ev[e2].1 by {
        assert(m.contains_key(out[a][i]));
        assert(m.contains_key(ev[e].0));
        let e2 = choose|e2: int| 0 <= e2 < ev.len() && ev[e2].0 == ev[e].0 && m[ev[e2].1] == m[ev[e].0] + 1;
        assert(m.contains_key(ev[e2].0));
        let v = ev[e2].1;
        assert(m.contains_key(v));
        let (b, i2) = choose|b: int, i2: int| 0 <= b < out.len() && 0 <= i2 < out[b].len() && out[b][i2] == v;
        lemma_layer_index(m, out, a, i, b, i2);
        assert(out[a + 1][i2] == ev[e2].1);
    }
}

/// The same law over the layers [`alap_layers`] returns: every wire between laid-out nodes leads from a layer to a
/// strictly later one, and each node that feeds anything has a node it feeds in the very next layer.
#[verifier::spinoff_prover]
#[verifier::rlimit(40)]
pub proof fn lemma_alap_layers_wires_forward(g: ValidatedGraph, out: Seq<Seq<Seq<char>>>)
    requires
        listed_once(g),
        edges_go_forward(g),
        is_layering(alap_depths(g), out),
    ensures
        forall|e: int, a: int, i: int, b: int, i2: int|
            #![trigger out[a][i], out[b][i2], edges_view(g)[e]]
            0 <= e < edges_view(g).len() && 0 <= a < out.len() && 0 <= i < out[a].len() && 0 <= b < out.len() && 0
                <= i2 < out[b].len() && out[a][i] == edges_view(g)[e].0 && out[b][i2] == edges_view(g)[e].1 ==> a < b,
        forall|e: int, a: int, i: int|
            #![trigger out[a][i], edges_view(g)[e]]
            0 <= e < edges_view(g).len() && 0 <= a < out.len() && 0 <= i < out[a].len() && out[a][i]
                == edges_view(g)[e].0 ==> a + 1 < out.len() && exists|e2: int, i2: int|
                #![trigger edges_view(g)[e2], out[a + 1][i2]]
                0 <= e2 < edges_view(g).len() && 0 <= i2 < out[a + 1].len() && edges_view(g)[e2].0 == out[a][i]
                    && out[a + 1][i2] == edges_view(g)[e2].1,
{
    lemma_alap_just_before_successors(g);
    lemma_wires_forward_in_layers(alap_depths(g), edges_view(g), out);
}

} // verus!
