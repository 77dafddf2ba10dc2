//! The particle store, its construction from instance parameters, one
//! simulation sub-step, and picking and dragging particles.
use vstd::prelude::*;
use rayon::iter::{IndexedParallelIterator, IntoParallelRefIterator, IntoParallelRefMutIterator, ParallelIterator};
use vstd::arithmetic::div_mod::lemma_fundamental_div_mod_converse;
use crate::grid::{corner_pinned, grid_links, lemma_link_ends_in_grid, link_count, link_ends};
use crate::partition::{covers, owned, lemma_partition_exact, lemma_prefix_monotone, partition_ranges, prefix_sum, range_of, as_ints};

verus! {

/// One point mass. Its velocity is implicit in `pos - last_pos`.
#[derive(Clone, Copy, Debug)]
pub struct Node<P> {
    pub pos: P,
    pub last_pos: P,
    pub pinned: bool,
}

/// A distance constraint between two particles.
#[derive(Clone, Copy, Debug)]
pub struct Link<S> {
    pub node1: usize,
    pub node2: usize,
    pub resting_distance: S,
}

/// One cloth instance: its grid size and its links, once with indices local
/// to the instance and once offset into the shared particle store.
pub struct Flag<S> {
    pub width: usize,
    pub height: usize,
    pub links: Vec<Link<S>>,
    pub offset_links: Vec<Link<S>>,
}

/// What an instance is built from.
pub struct FlagParams<P, S> {
    pub size: S,
    pub corner: P,
    pub width: usize,
    pub height: usize,
}

/// The vector arithmetic the simulation runs in: `P` is a point, `S` a
/// scalar. The simulation decides which particles are touched and in which
/// order; an implementation decides the numbers. Each operation is a
/// function of its arguments (and of the implementation's own settings),
/// named by the matching spec function.
pub trait Kinematics<P, S> {
    /// Initial position of cell `(x, y)` of an instance.
    spec fn place_spec(&self, corner: P, size: S, width: usize, x: usize, y: usize) -> P;

    /// Distance between two points.
    spec fn distance_spec(&self, a: P, b: P) -> S;

    /// Position after one integration step from `pos`, previous position `last_pos`.
    spec fn advance_spec(&self, pos: P, last_pos: P) -> P;

    /// Position pulled back toward the simulation area.
    spec fn confine_spec(&self, pos: P) -> P;

    /// Correction that moves `a` toward its resting distance from `b`.
    spec fn correction_spec(&self, a: P, b: P, resting: S) -> P;

    /// `p` moved by `n`.
    spec fn shift_spec(&self, p: P, n: P) -> P;

    /// `p` moved by the opposite of `n`.
    spec fn unshift_spec(&self, p: P, n: P) -> P;

    /// Whether a particle at `node` is close enough to `cursor` to be picked.
    spec fn picks_spec(&self, node: P, cursor: P) -> bool;

    /// Position pushed out of a round obstacle of radius `size` at `center`.
    spec fn repel_spec(&self, pos: P, center: P, size: S) -> P;

    fn place(&self, corner: &P, size: &S, width: usize, x: usize, y: usize) -> (r: P)
        ensures
            r == self.place_spec(*corner, *size, width, x, y),
    ;

    fn distance(&self, a: &P, b: &P) -> (r: S)
        ensures
            r == self.distance_spec(*a, *b),
    ;

    fn advance(&self, pos: &P, last_pos: &P) -> (r: P)
        ensures
            r == self.advance_spec(*pos, *last_pos),
    ;

    fn confine(&self, pos: &P) -> (r: P)
        ensures
            r == self.confine_spec(*pos),
    ;

    fn correction(&self, a: &P, b: &P, resting: &S) -> (r: P)
        ensures
            r == self.correction_spec(*a, *b, *resting),
    ;

    fn shift(&self, p: &P, n: &P) -> (r: P)
        ensures
            r == self.shift_spec(*p, *n),
    ;

    fn unshift(&self, p: &P, n: &P) -> (r: P)
        ensures
            r == self.unshift_spec(*p, *n),
    ;

    fn picks(&self, node: &P, cursor: &P) -> (r: bool)
        ensures
            r == self.picks_spec(*node, *cursor),
    ;

    fn repel(&self, pos: &P, center: &P, size: &S) -> (r: P)
        ensures
            r == self.repel_spec(*pos, *center, *size),
    ;
}

/// The whole simulation: one flat particle store shared by all instances.
pub struct Physics<P, S> {
    nodes: Vec<Node<P>>,
    flags: Vec<Flag<S>>,
    ranges: Vec<(usize, usize)>,
    selected_nodes: Option<Vec<usize>>,
}

/// Particle count of each instance that `params` describe.
pub open spec fn param_counts<P, S>(params: Seq<FlagParams<P, S>>) -> Seq<int> {
    params.map_values(|p: FlagParams<P, S>| p.width * p.height)
}

/// Particle count of each instance.
pub open spec fn flag_counts<S>(flags: Seq<Flag<S>>) -> Seq<int> {
    flags.map_values(|f: Flag<S>| f.width * f.height)
}

/// An instance whose particles start at `start` in the store has the grid's
/// links, in order, both local and offset by `start`.
pub open spec fn flag_wf<S>(f: Flag<S>, start: int) -> bool {
    let w = f.width as int;
    let h = f.height as int;
    &&& w >= 1
    &&& h >= 1
    &&& f.links.len() == link_count(w, h)
    &&& f.offset_links.len() == f.links.len()
    &&& forall|k: int| 0 <= k < f.links.len() ==> {
        let l = #[trigger] f.links[k];
        &&& l.node1 == link_ends(w, h, k).0
        &&& l.node2 == link_ends(w, h, k).1
        &&& l.node1 < w * h
        &&& l.node2 < w * h
        &&& l.node1 != l.node2
        &&& f.offset_links[k].node1 == l.node1 + start
        &&& f.offset_links[k].node2 == l.node2 + start
        &&& f.offset_links[k].resting_distance == l.resting_distance
    }
}

/// A particle store `nodes` shared by `flags`: `ranges` are the instances'
/// ranges, laid end to end from 0 in order and covering the store; each
/// instance holds its grid's links; exactly the two left corners of each
/// grid are pinned; and a selection holds indices into the store.
pub open spec fn store_wf<P, S>(
    nodes: Seq<Node<P>>,
    flags: Seq<Flag<S>>,
    ranges: Seq<(usize, usize)>,
    sel: Option<Seq<usize>>,
) -> bool {
    let counts = flag_counts(flags);
    &&& ranges.len() == flags.len()
    &&& nodes.len() == prefix_sum(counts, counts.len() as int)
    &&& selection_in(sel, nodes.len())
    &&& (forall|f: int| 0 <= f < flags.len() ==> {
        let r = #[trigger] ranges[f];
        &&& r.0 == range_of(counts, f).0
        &&& r.1 == range_of(counts, f).1
        &&& r.0 + flags[f].width * flags[f].height == r.1
        &&& r.1 <= nodes.len()
        &&& flag_wf(flags[f], r.0 as int)
    })
    &&& (forall|f: int, j: int|
        0 <= f < flags.len() && 0 <= j < flags[f].width * flags[f].height ==>
        (#[trigger] nodes[ranges[f].0 + j]).pinned
            == corner_pinned(flags[f].width as int, flags[f].height as int, j))
}

/// Every selected index is below `n`.
pub open spec fn selection_in(sel: Option<Seq<usize>>, n: nat) -> bool {
    match sel {
        Some(v) => forall|j: int| 0 <= j < v.len() ==> #[trigger] v[j] < n,
        None => true,
    }
}

/// A well-formed selection holds indices into the store.
proof fn lemma_selection_in_store<P, S>(
    nodes: Seq<Node<P>>,
    flags: Seq<Flag<S>>,
    ranges: Seq<(usize, usize)>,
    v: Seq<usize>,
)
    requires
        store_wf(nodes, flags, ranges, Some(v)),
    ensures
        forall|j: int| 0 <= j < v.len() ==> #[trigger] v[j] < nodes.len(),
{
    let sel = Some(v);
    assert(selection_in(sel, nodes.len()));
    assert(sel->0 == v);
}

/// Particles that are pinned keep their whole state, and no pin flag changes.
pub open spec fn moves_only_free<P>(before: Seq<Node<P>>, after: Seq<Node<P>>) -> bool {
    &&& after.len() == before.len()
    &&& forall|i: int| 0 <= i < before.len() ==> (#[trigger] after[i]).pinned == before[i].pinned
    &&& forall|i: int| 0 <= i < before.len() && before[i].pinned ==> #[trigger] after[i] == before[i]
}

/// No particle's previous position changes.
pub open spec fn keeps_last_pos<P>(before: Seq<Node<P>>, after: Seq<Node<P>>) -> bool {
    &&& after.len() == before.len()
    &&& forall|i: int| 0 <= i < before.len() ==> (#[trigger] after[i]).last_pos == before[i].last_pos
}

/// Every free particle after one integration step; pinned ones as they were.
pub open spec fn advance_all<P, S, K: Kinematics<P, S>>(k: &K, nodes: Seq<Node<P>>) -> Seq<Node<P>> {
    Seq::new(
        nodes.len(),
        |i: int|
            if nodes[i].pinned {
                nodes[i]
            } else {
                Node { pos: k.advance_spec(nodes[i].pos, nodes[i].last_pos), last_pos: nodes[i].pos, pinned: false }
            },
    )
}

/// Every free particle pulled back toward the simulation area.
pub open spec fn confine_all<P, S, K: Kinematics<P, S>>(k: &K, nodes: Seq<Node<P>>) -> Seq<Node<P>> {
    Seq::new(
        nodes.len(),
        |i: int|
            if nodes[i].pinned {
                nodes[i]
            } else {
                Node { pos: k.confine_spec(nodes[i].pos), last_pos: nodes[i].last_pos, pinned: false }
            },
    )
}

/// Every free particle pushed out of the obstacle of radius `size` at `center`.
pub open spec fn repel_all<P, S, K: Kinematics<P, S>>(k: &K, nodes: Seq<Node<P>>, center: P, size: S) -> Seq<Node<P>> {
    Seq::new(
        nodes.len(),
        |i: int|
            if nodes[i].pinned {
                nodes[i]
            } else {
                Node { pos: k.repel_spec(nodes[i].pos, center, size), last_pos: nodes[i].last_pos, pinned: false }
            },
    )
}

/// One link relaxed: the correction `n` is computed from both current
/// positions; endpoint A moves by `n` and then endpoint B by the opposite
/// of `n`, each only when it is not pinned.
pub open spec fn relax_link<P, S, K: Kinematics<P, S>>(k: &K, nodes: Seq<Node<P>>, l: Link<S>) -> Seq<Node<P>> {
    let a = nodes[l.node1 as int];
    let n = k.correction_spec(a.pos, nodes[l.node2 as int].pos, l.resting_distance);
    let s1 = if a.pinned {
        nodes
    } else {
        nodes.update(l.node1 as int, Node { pos: k.shift_spec(a.pos, n), last_pos: a.last_pos, pinned: false })
    };
    let b = s1[l.node2 as int];
    if b.pinned {
        s1
    } else {
        s1.update(l.node2 as int, Node { pos: k.unshift_spec(b.pos, n), last_pos: b.last_pos, pinned: false })
    }
}

/// The links relaxed one after another, in order, each seeing the
/// corrections of the ones before it.
pub open spec fn relax_seq<P, S, K: Kinematics<P, S>>(k: &K, nodes: Seq<Node<P>>, links: Seq<Link<S>>) -> Seq<Node<P>>
    decreases links.len(),
{
    if links.len() == 0 {
        nodes
    } else {
        relax_link(k, relax_seq(k, nodes, links.drop_last()), links.last())
    }
}

/// When neither endpoint of a link is pinned, relaxing it hands both the
/// same correction `n`: endpoint A moves by `n` and endpoint B by its
/// opposite. Nothing else changes.
pub proof fn lemma_link_correction_opposite<P, S, K: Kinematics<P, S>>(k: &K, nodes: Seq<Node<P>>, l: Link<S>)
    requires
        l.node1 < nodes.len(),
        l.node2 < nodes.len(),
        l.node1 != l.node2,
        !nodes[l.node1 as int].pinned,
        !nodes[l.node2 as int].pinned,
    ensures
        ({
            let n = k.correction_spec(nodes[l.node1 as int].pos, nodes[l.node2 as int].pos, l.resting_distance);
            let r = relax_link(k, nodes, l);
            &&& r.len() == nodes.len()
            &&& r[l.node1 as int].pos == k.shift_spec(nodes[l.node1 as int].pos, n)
            &&& r[l.node2 as int].pos == k.unshift_spec(nodes[l.node2 as int].pos, n)
            &&& forall|i: int| 0 <= i < nodes.len() && i != l.node1 && i != l.node2 ==> #[trigger] r[i] == nodes[i]
        }),
{
}

/// `after` is `before` with each instance's range relaxed by that
/// instance's links, in order.
pub open spec fn relaxed_by_instances<P, S, K: Kinematics<P, S>>(
    k: &K,
    before: Seq<Node<P>>,
    after: Seq<Node<P>>,
    flags: Seq<Flag<S>>,
    ranges: Seq<(usize, usize)>,
) -> bool {
    &&& after.len() == before.len()
    &&& forall|g: int| 0 <= g < flags.len() ==>
        after.subrange(ranges[g].0 as int, ranges[g].1 as int)
            == relax_seq(k, before.subrange(ranges[g].0 as int, ranges[g].1 as int), (#[trigger] flags[g]).links@)
}

/// `after` is `before` advanced by one sub-step: integration, the boundary
/// pull, then one relaxation pass per instance.
pub open spec fn stepped<P, S, K: Kinematics<P, S>>(
    k: &K,
    before: Seq<Node<P>>,
    after: Seq<Node<P>>,
    flags: Seq<Flag<S>>,
    ranges: Seq<(usize, usize)>,
) -> bool {
    relaxed_by_instances(k, confine_all(k, advance_all(k, before)), after, flags, ranges)
}

/// `trace` runs from `trace[0]` through one sub-step between each pair of
/// neighbours.
pub open spec fn step_trace<P, S, K: Kinematics<P, S>>(
    k: &K,
    trace: Seq<Seq<Node<P>>>,
    flags: Seq<Flag<S>>,
    ranges: Seq<(usize, usize)>,
) -> bool {
    forall|i: int| 0 <= i < trace.len() - 1 ==> stepped(k, #[trigger] trace[i], trace[i + 1], flags, ranges)
}

/// Indices of the hits, in increasing order.
pub open spec fn hit_indices(hits: Seq<bool>) -> Seq<usize>
    decreases hits.len(),
{
    if hits.len() == 0 {
        seq![]
    } else {
        let r = hit_indices(hits.drop_last());
        if hits.last() {
            r.push((hits.len() - 1) as usize)
        } else {
            r
        }
    }
}

/// The selection a pick makes: the hit indices, or none when nothing was hit.
pub open spec fn pick(hits: Seq<bool>) -> Option<Seq<usize>> {
    if hit_indices(hits).len() == 0 {
        None
    } else {
        Some(hit_indices(hits))
    }
}

/// The particles after dragging the selection to `cursor`: each selected
/// particle's position becomes `cursor`, and nothing else changes.
pub open spec fn drag<P>(nodes: Seq<Node<P>>, sel: Option<Seq<usize>>, cursor: P) -> Seq<Node<P>> {
    match sel {
        None => nodes,
        Some(s) => Seq::new(
            nodes.len(),
            |i: int|
                if s.contains(i as usize) {
                    Node { pos: cursor, last_pos: nodes[i].last_pos, pinned: nodes[i].pinned }
                } else {
                    nodes[i]
                },
        ),
    }
}

/// Endpoint indices of `links`, two per link, in order.
pub open spec fn link_index_seq<S>(links: Seq<Link<S>>) -> Seq<int>
    decreases links.len(),
{
    if links.len() == 0 {
        seq![]
    } else {
        link_index_seq(links.drop_last()) + seq![links.last().node1 as int, links.last().node2 as int]
    }
}

/// Endpoint indices of the offset links of all `flags`, instance by instance.
pub open spec fn all_link_indices<S>(flags: Seq<Flag<S>>) -> Seq<int>
    decreases flags.len(),
{
    if flags.len() == 0 {
        seq![]
    } else {
        all_link_indices(flags.drop_last()) + link_index_seq(flags.last().offset_links@)
    }
}

/// Number of links of the first `n` instances.
pub open spec fn total_links<S>(flags: Seq<Flag<S>>, n: int) -> int
    decreases n,
{
    if n <= 0 {
        0
    } else {
        total_links(flags, n - 1) + flags[n - 1].links.len()
    }
}


/// The selection a pick with these per-particle hits makes: the indices of
/// the hits in increasing order, or `None` when there is none.
pub fn select_hits(hits: &Vec<bool>) -> (r: Option<Vec<usize>>)
    ensures
        match r {
            Some(v) => pick(hits@) == Some(v@),
            None => pick(hits@) is None,
        },
        r matches Some(v) ==> forall|j: int| 0 <= j < v.len() ==> #[trigger] v[j] < hits.len(),
{
    let mut out: Vec<usize> = Vec::new();
    let mut i: usize = 0;
    while i < hits.len()
        invariant
            i <= hits.len(),
            out@ == hit_indices(hits@.subrange(0, i as int)),
            forall|j: int| 0 <= j < out.len() ==> #[trigger] out[j] < i,
        decreases hits.len() - i,
    {
        proof {
            assert(hits@.subrange(0, i as int + 1).drop_last() =~= hits@.subrange(0, i as int));
        }
        if hits[i] {
            out.push(i);
        }
        i = i + 1;
    }
    proof {
        assert(hits@.subrange(0, hits.len() as int) =~= hits@);
    }
    if out.len() == 0 {
        None
    } else {
        Some(out)
    }
}

/// A pick that hits nothing leaves no selection, and dragging with no
/// selection leaves every particle as it was.
pub proof fn lemma_missed_pick_then_drag_is_noop<P>(hits: Seq<bool>, nodes: Seq<Node<P>>, cursor: P)
    requires
        forall|i: int| 0 <= i < hits.len() ==> !#[trigger] hits[i],
    ensures
        pick(hits) is None,
        drag(nodes, pick(hits), cursor) == nodes,
    decreases hits.len(),
{
    if hits.len() > 0 {
        lemma_missed_pick_then_drag_is_noop(hits.drop_last(), nodes, cursor);
    }
}

/// Link totals never decrease as instances are added.
pub proof fn lemma_total_links_monotone<S>(flags: Seq<Flag<S>>, i: int, j: int)
    requires
        0 <= i <= j,
    ensures
        total_links(flags, i) <= total_links(flags, j),
    decreases j - i,
{
    if i < j {
        lemma_total_links_monotone(flags, i, j - 1);
    }
}


/// Relaxes the links of one instance, in order, on that instance's own
/// particles: both endpoints of a link get the same correction, in opposite
/// directions, and a pinned endpoint gets none.
pub fn relax_instance<P: Copy, S: Copy, K: Kinematics<P, S>>(k: &K, nodes: &mut Vec<Node<P>>, links: &Vec<Link<S>>)
    requires
        forall|l: int| 0 <= l < links.len() ==>
            (#[trigger] links[l]).node1 < old(nodes).len() && links[l].node2 < old(nodes).len(),
    ensures
        moves_only_free(old(nodes)@, final(nodes)@),
        keeps_last_pos(old(nodes)@, final(nodes)@),
        final(nodes)@ == relax_seq(k, old(nodes)@, links@),
{
    let ghost before = nodes@;
    let mut l: usize = 0;
    while l < links.len()
        invariant
            l <= links.len(),
            before == old(nodes)@,
            forall|l: int| 0 <= l < links.len() ==>
                (#[trigger] links[l]).node1 < before.len() && links[l].node2 < before.len(),
            moves_only_free(before, nodes@),
            keeps_last_pos(before, nodes@),
            nodes@ == relax_seq(k, before, links@.subrange(0, l as int)),
        decreases links.len() - l,
    {
        proof {
            assert(links@.subrange(0, l as int + 1).drop_last() =~= links@.subrange(0, l as int));
        }
        let link = links[l];
        let na = nodes[link.node1];
        let n = k.correction(&na.pos, &nodes[link.node2].pos, &link.resting_distance);
        if !na.pinned {
            let pos = k.shift(&na.pos, &n);
            nodes.set(link.node1, Node { pos, last_pos: na.last_pos, pinned: false });
        }
        let nb = nodes[link.node2];
        if !nb.pinned {
            let pos = k.unshift(&nb.pos, &n);
            nodes.set(link.node2, Node { pos, last_pos: nb.last_pos, pinned: false });
        }
        l = l + 1;
    }
    proof {
        assert(links@.subrange(0, links.len() as int) =~= links@);
    }
}

/// Relies on rayon's `par_iter_mut`, `zip` and `for_each`: the closure runs
/// exactly once on each pair of a chunk and the instance at the same
/// position, each chunk handed out to one task only, and `for_each` returns
/// after all have run. So each chunk ends as `relax_instance` leaves it.
#[verifier::external_body]
fn relax_in_parallel<P: Copy + Send, S: Copy + Sync, K: Kinematics<P, S> + Sync>(
    k: &K,
    chunks: &mut Vec<Vec<Node<P>>>,
    flags: &Vec<Flag<S>>,
)
    requires
        old(chunks).len() == flags.len(),
        forall|g: int, l: int| 0 <= g < old(chunks).len() && 0 <= l < flags[g].links.len() ==>
            (#[trigger] flags[g].links[l]).node1 < old(chunks)[g].len()
            && flags[g].links[l].node2 < old(chunks)[g].len(),
    ensures
        final(chunks).len() == old(chunks).len(),
        forall|g: int| 0 <= g < old(chunks).len() ==>
            moves_only_free((#[trigger] old(chunks)[g])@, final(chunks)[g]@)
            && keeps_last_pos(old(chunks)[g]@, final(chunks)[g]@)
            && final(chunks)[g]@ == relax_seq(k, old(chunks)[g]@, flags[g].links@),
{
    chunks.par_iter_mut().zip(flags.par_iter()).for_each(|(c, f)| relax_instance(k, c, &f.links));
}

/// Appends the particles of one `width` by `height` instance to `nodes`,
/// which holds exactly `start` particles, and returns the instance.
fn build_flag<P: Copy, S: Copy, K: Kinematics<P, S>>(
    k: &K,
    nodes: &mut Vec<Node<P>>,
    start: usize,
    p: &FlagParams<P, S>,
) -> (f: Flag<S>)
    requires
        old(nodes).len() == start,
        p.width >= 1,
        p.height >= 1,
        start + p.width * p.height <= usize::MAX,
    ensures
        final(nodes).len() == start + p.width * p.height,
        forall|i: int| 0 <= i < start ==> #[trigger] final(nodes)[i] == old(nodes)[i],
        forall|j: int| 0 <= j < p.width * p.height ==>
            (#[trigger] final(nodes)[start + j]).pinned == corner_pinned(p.width as int, p.height as int, j),
        forall|i: int| start <= i < final(nodes).len() ==> (#[trigger] final(nodes)[i]).pos == final(nodes)[i].last_pos,
        forall|j: int| 0 <= j < p.width * p.height ==>
            (#[trigger] final(nodes)[start + j]).pos == k.place_spec(p.corner, p.size, p.width, (j % p.width as int) as usize, (j / p.width as int) as usize),
        forall|l: int| 0 <= l < f.links.len() ==>
            (#[trigger] f.links[l]).resting_distance
                == k.distance_spec(final(nodes)[start + f.links[l].node1].pos, final(nodes)[start + f.links[l].node2].pos),
        f.width == p.width,
        f.height == p.height,
        flag_wf(f, start as int),
{
    let width = p.width;
    let height = p.height;
    let ghost w = width as int;
    let ghost h = height as int;
    let mut y: usize = 0;
    while y < height
        invariant
            w == width, h == height, w >= 1, h >= 1, width == p.width, height == p.height,
            start + w * h <= usize::MAX,
            y <= height,
            nodes.len() == start + y * w,
            forall|i: int| 0 <= i < start ==> #[trigger] nodes@[i] == old(nodes)@[i],
            forall|j: int| 0 <= j < y * w ==>
                (#[trigger] nodes[start + j]).pinned == corner_pinned(w, h, j),
            forall|i: int| start <= i < nodes.len() ==> (#[trigger] nodes[i]).pos == nodes[i].last_pos,
            forall|j: int| 0 <= j < y * w ==> (#[trigger] nodes[start + j]).pos == k.place_spec(p.corner, p.size, p.width, (j % p.width as int) as usize, (j / p.width as int) as usize),
        decreases height - y,
    {
        let mut x: usize = 0;
        while x < width
            invariant
                w == width, h == height, w >= 1, h >= 1, width == p.width, height == p.height,
                start + w * h <= usize::MAX,
                y < height,
                x <= width,
                nodes.len() == start + y * w + x,
                forall|i: int| 0 <= i < start ==> #[trigger] nodes@[i] == old(nodes)@[i],
                forall|j: int| 0 <= j < y * w + x ==>
                    (#[trigger] nodes[start + j]).pinned == corner_pinned(w, h, j),
                forall|i: int| start <= i < nodes.len() ==> (#[trigger] nodes[i]).pos == nodes[i].last_pos,
                forall|j: int| 0 <= j < y * w + x ==> (#[trigger] nodes[start + j]).pos == k.place_spec(p.corner, p.size, p.width, (j % p.width as int) as usize, (j / p.width as int) as usize),
            decreases width - x,
        {
            proof {
                lemma_fundamental_div_mod_converse(y * w + x, w, y as int, x as int);
                assert(y * w + x < w * h) by (nonlinear_arith)
                    requires x < w, y < h;
                assert(((y * w + x) % (p.width as int)) as usize == x);
                assert(((y * w + x) / (p.width as int)) as usize == y);
            }
            let pos = k.place(&p.corner, &p.size, width, x, y);
            nodes.push(Node { pos, last_pos: pos, pinned: x == 0 && (y == 0 || y == height - 1) });
            x = x + 1;
        }
        proof {
            assert(y * w + x == (y + 1) * w) by (nonlinear_arith)
                requires x == w;
        }
        y = y + 1;
    }
    assert(y * w == w * h) by (nonlinear_arith)
        requires y == h;
    let ghost final_nodes = nodes@;
    let ends = grid_links(width, height);
    let mut links: Vec<Link<S>> = Vec::new();
    let mut offset_links: Vec<Link<S>> = Vec::new();
    let mut i: usize = 0;
    while i < ends.len()
        invariant
            w == width, h == height, w >= 1, h >= 1,
            start + w * h <= usize::MAX,
            nodes.len() == start + w * h,
            nodes@ == final_nodes,
            ends.len() == link_count(w, h),
            forall|k: int| 0 <= k < ends.len() ==>
                (#[trigger] ends[k]).0 == link_ends(w, h, k).0 && ends[k].1 == link_ends(w, h, k).1,
            i <= ends.len(),
            links.len() == i,
            offset_links.len() == i,
            forall|q: int| 0 <= q < i ==> {
                let l = #[trigger] links[q];
                &&& l.node1 == link_ends(w, h, q).0
                &&& l.node2 == link_ends(w, h, q).1
                &&& l.node1 < w * h
                &&& l.node2 < w * h
                &&& l.node1 != l.node2
                &&& offset_links[q].node1 == l.node1 + start
                &&& offset_links[q].node2 == l.node2 + start
                &&& offset_links[q].resting_distance == l.resting_distance
                &&& l.resting_distance == k.distance_spec(nodes[start + l.node1].pos, nodes[start + l.node2].pos)
            },
        decreases ends.len() - i,
    {
        let (a, b) = ends[i];
        proof {
            lemma_link_ends_in_grid(w, h, i as int);
        }
        let resting_distance = k.distance(&nodes[start + a].pos, &nodes[start + b].pos);
        links.push(Link { node1: a, node2: b, resting_distance });
        offset_links.push(Link { node1: a + start, node2: b + start, resting_distance });
        i = i + 1;
    }
    Flag { width, height, links, offset_links }
}

impl<P: Copy, S: Copy> Physics<P, S> {
    /// The particles, in store order.
    pub closed spec fn nodes_view(&self) -> Seq<Node<P>> {
        self.nodes@
    }

    /// The instances, in registration order.
    pub closed spec fn flags_view(&self) -> Seq<Flag<S>> {
        self.flags@
    }

    /// The range `[start, end)` of the store that each instance owns.
    pub closed spec fn ranges_view(&self) -> Seq<(usize, usize)> {
        self.ranges@
    }

    /// The current selection, if any.
    pub closed spec fn selection_view(&self) -> Option<Seq<usize>> {
        match self.selected_nodes {
            Some(v) => Some(v@),
            None => None,
        }
    }

    /// The store is partitioned into the instances' ranges in order, each
    /// instance holds its grid's links, exactly the left corners of each
    /// grid are pinned, and the selection holds indices into the store.
    pub open spec fn wf(&self) -> bool {
        store_wf(self.nodes_view(), self.flags_view(), self.ranges_view(), self.selection_view())
    }

    /// Builds every instance described by `flag_sizes`, in order, into one
    /// particle store. Particle `(x, y)` of an instance is placed by
    /// `k.place`, starts at rest, and is pinned when it is a left corner of
    /// its grid; each link's resting distance is `k.distance` of its
    /// endpoints' initial positions. Nothing is selected.
    pub fn new<K: Kinematics<P, S>>(k: &K, flag_sizes: &Vec<FlagParams<P, S>>) -> (r: Self)
        requires
            forall|i: int| 0 <= i < flag_sizes.len() ==> #[trigger] flag_sizes[i].width >= 1 && flag_sizes[i].height >= 1,
            prefix_sum(param_counts(flag_sizes@), flag_sizes.len() as int) <= usize::MAX,
        ensures
            r.wf(),
            r.flags_view().len() == flag_sizes.len(),
            forall|i: int| 0 <= i < flag_sizes.len() ==>
                (#[trigger] r.flags_view()[i]).width == flag_sizes[i].width
                && r.flags_view()[i].height == flag_sizes[i].height,
            r.nodes_view().len() == prefix_sum(param_counts(flag_sizes@), flag_sizes.len() as int),
            forall|i: int| 0 <= i < r.nodes_view().len() ==>
                (#[trigger] r.nodes_view()[i]).pos == r.nodes_view()[i].last_pos,
            r.selection_view() is None,
            forall|i: int, j: int| 0 <= i < flag_sizes.len() && 0 <= j < flag_sizes[i].width * flag_sizes[i].height ==>
                (#[trigger] r.nodes_view()[r.ranges_view()[i].0 + j]).pos == k.place_spec(flag_sizes[i].corner, flag_sizes[i].size, flag_sizes[i].width, (j % flag_sizes[i].width as int) as usize, (j / flag_sizes[i].width as int) as usize),
            forall|i: int, l: int| 0 <= i < flag_sizes.len() && 0 <= l < r.flags_view()[i].links.len() ==>
                (#[trigger] r.flags_view()[i].links[l]).resting_distance == k.distance_spec(
                    r.nodes_view()[r.ranges_view()[i].0 + r.flags_view()[i].links[l].node1].pos,
                    r.nodes_view()[r.ranges_view()[i].0 + r.flags_view()[i].links[l].node2].pos,
                ),
    {
        let ghost pc = param_counts(flag_sizes@);
        let mut counts: Vec<usize> = Vec::new();
        let mut i: usize = 0;
        while i < flag_sizes.len()
            invariant
                pc == param_counts(flag_sizes@),
                prefix_sum(pc, pc.len() as int) <= usize::MAX,
                forall|i: int| 0 <= i < flag_sizes.len() ==> #[trigger] flag_sizes[i].width >= 1 && flag_sizes[i].height >= 1,
                i <= flag_sizes.len(),
                counts.len() == i,
                forall|j: int| 0 <= j < i ==> #[trigger] counts[j] == pc[j],
            decreases flag_sizes.len() - i,
        {
            proof {
                assert(pc[i as int] >= 0) by (nonlinear_arith)
                    requires pc[i as int] == flag_sizes[i as int].width * flag_sizes[i as int].height;
                assert forall|j: int| 0 <= j < pc.len() implies pc[j] >= 0 by {
                    assert(pc[j] >= 0) by (nonlinear_arith)
                        requires pc[j] == flag_sizes[j].width * flag_sizes[j].height;
                }
                lemma_prefix_monotone(pc, i as int + 1, pc.len() as int);
                lemma_prefix_monotone(pc, 0, i as int);
            }
            counts.push(flag_sizes[i].width * flag_sizes[i].height);
            i = i + 1;
        }
        proof {
            assert(as_ints(counts@) =~= pc);
        }
        let ranges = partition_ranges(&counts);
        let mut nodes: Vec<Node<P>> = Vec::new();
        let mut flags: Vec<Flag<S>> = Vec::new();
        let mut f: usize = 0;
        while f < flag_sizes.len()
            invariant
                pc == param_counts(flag_sizes@),
                forall|j: int| 0 <= j < pc.len() ==> pc[j] >= 0,
                prefix_sum(pc, pc.len() as int) <= usize::MAX,
                forall|i: int| 0 <= i < flag_sizes.len() ==> #[trigger] flag_sizes[i].width >= 1 && flag_sizes[i].height >= 1,
                ranges.len() == flag_sizes.len(),
                forall|i: int| 0 <= i < ranges.len() ==>
                    #[trigger] ranges[i].0 == range_of(pc, i).0 && ranges[i].1 == range_of(pc, i).1,
                f <= flag_sizes.len(),
                flags.len() == f,
                nodes.len() == prefix_sum(pc, f as int),
                forall|i: int| 0 <= i < f ==>
                    (#[trigger] flags[i]).width == flag_sizes[i].width && flags[i].height == flag_sizes[i].height
                    && flag_wf(flags[i], ranges[i].0 as int),
                forall|i: int, j: int|
                    0 <= i < f && 0 <= j < flags[i].width * flags[i].height ==>
                    (#[trigger] nodes[ranges[i].0 + j]).pinned
                        == corner_pinned(flags[i].width as int, flags[i].height as int, j),
                forall|i: int| 0 <= i < nodes.len() ==> (#[trigger] nodes[i]).pos == nodes[i].last_pos,
                forall|i: int, j: int| 0 <= i < f && 0 <= j < flag_sizes[i].width * flag_sizes[i].height ==>
                    (#[trigger] nodes[ranges[i].0 + j]).pos == k.place_spec(flag_sizes[i].corner, flag_sizes[i].size, flag_sizes[i].width, (j % flag_sizes[i].width as int) as usize, (j / flag_sizes[i].width as int) as usize),
                forall|i: int, l: int| 0 <= i < f && 0 <= l < flags[i].links.len() ==>
                    (#[trigger] flags[i].links[l]).resting_distance == k.distance_spec(
                        nodes[ranges[i].0 + flags[i].links[l].node1].pos,
                        nodes[ranges[i].0 + flags[i].links[l].node2].pos,
                    ),
            decreases flag_sizes.len() - f,
        {
            proof {
                lemma_prefix_monotone(pc, f as int + 1, pc.len() as int);
            }
            let ghost before = nodes@;
            let flag = build_flag(k, &mut nodes, ranges[f].0, &flag_sizes[f]);
            proof {
                assert forall|i: int, j: int|
                    0 <= i < f + 1 && 0 <= j < flags@.push(flag)[i].width * flags@.push(flag)[i].height implies
                    (#[trigger] nodes[ranges[i].0 + j]).pinned
                        == corner_pinned(flags@.push(flag)[i].width as int, flags@.push(flag)[i].height as int, j) by {
                    if i < f {
                        lemma_prefix_monotone(pc, i + 1, f as int);
                        assert(nodes@[ranges[i].0 + j] == before[ranges[i].0 + j]);
                    }
                }
                assert forall|i: int, j: int| 0 <= i < f + 1 && 0 <= j < flag_sizes[i].width * flag_sizes[i].height implies
                    (#[trigger] nodes[ranges[i].0 + j]).pos == k.place_spec(flag_sizes[i].corner, flag_sizes[i].size, flag_sizes[i].width, (j % flag_sizes[i].width as int) as usize, (j / flag_sizes[i].width as int) as usize) by {
                    if i < f {
                        lemma_prefix_monotone(pc, i + 1, f as int);
                        assert(nodes@[ranges[i].0 + j] == before[ranges[i].0 + j]);
                    }
                }
                assert forall|i: int, l: int| 0 <= i < f + 1 && 0 <= l < flags@.push(flag)[i].links.len() implies
                    (#[trigger] flags@.push(flag)[i].links[l]).resting_distance == k.distance_spec(
                        nodes[ranges[i].0 + flags@.push(flag)[i].links[l].node1].pos,
                        nodes[ranges[i].0 + flags@.push(flag)[i].links[l].node2].pos,
                    ) by {
                    if i < f {
                        lemma_prefix_monotone(pc, i + 1, f as int);
                        let lk = flags[i].links[l];
                        assert(flag_wf(flags[i], ranges[i].0 as int));
                        assert(nodes@[ranges[i].0 + lk.node1] == before[ranges[i].0 + lk.node1]);
                        assert(nodes@[ranges[i].0 + lk.node2] == before[ranges[i].0 + lk.node2]);
                    }
                }
                assert forall|i: int| 0 <= i < nodes.len() implies (#[trigger] nodes[i]).pos == nodes[i].last_pos by {
                    if i < before.len() {
                        assert(nodes@[i] == before[i]);
                    }
                }
            }
            flags.push(flag);
            f = f + 1;
        }
        proof {
            assert(flag_counts(flags@) =~= pc);
            lemma_partition_exact(pc);
            assert forall|f: int| 0 <= f < flags.len() implies
                (#[trigger] ranges[f]).1 <= nodes.len()
                && ranges[f].0 + flags[f].width * flags[f].height == ranges[f].1 by {
                lemma_prefix_monotone(pc, f + 1, pc.len() as int);
            }
        }
        Physics { nodes, flags, ranges, selected_nodes: None }
    }

    /// The store may change, but only in what `moves_only_free` allows.
    proof fn lemma_wf_frame(&self, other: &Self)
        requires
            self.wf(),
            other.flags@ == self.flags@,
            other.ranges@ == self.ranges@,
            other.selected_nodes == self.selected_nodes,
            moves_only_free(self.nodes@, other.nodes@),
        ensures
            other.wf(),
    {
        self.lemma_wf_pins(other);
    }

    /// Well-formedness depends on the particles only through their pin flags.
    proof fn lemma_wf_pins(&self, other: &Self)
        requires
            self.wf(),
            other.flags@ == self.flags@,
            other.ranges@ == self.ranges@,
            other.selection_view() == self.selection_view(),
            other.nodes.len() == self.nodes.len(),
            forall|i: int| 0 <= i < self.nodes.len() ==> (#[trigger] other.nodes@[i]).pinned == self.nodes@[i].pinned,
        ensures
            other.wf(),
    {
        match other.selected_nodes {
            Some(v) => {
                assert(self.selected_nodes matches Some(u) && u@ == v@);
            },
            None => {},
        }
        assert forall|f: int, j: int|
            0 <= f < other.flags.len() && 0 <= j < other.flags[f].width * other.flags[f].height implies
            (#[trigger] other.nodes[other.ranges[f].0 + j]).pinned
                == corner_pinned(other.flags[f].width as int, other.flags[f].height as int, j) by {
            assert(self.nodes[self.ranges[f].0 + j].pinned
                == corner_pinned(self.flags[f].width as int, self.flags[f].height as int, j));
        }
    }

    /// Moves every free particle by one integration step; its previous
    /// position becomes its current one.
    fn update_pos<K: Kinematics<P, S>>(&mut self, k: &K)
        requires
            old(self).wf(),
        ensures
            final(self).wf(),
            final(self).flags@ == old(self).flags@,
            final(self).ranges@ == old(self).ranges@,
            final(self).selected_nodes == old(self).selected_nodes,
            moves_only_free(old(self).nodes@, final(self).nodes@),
            final(self).nodes@ == advance_all(k, old(self).nodes@),
    {
        let ghost before = self.nodes@;
        let mut i: usize = 0;
        while i < self.nodes.len()
            invariant
                i <= self.nodes.len(),
                before == old(self).nodes@,
                self.flags@ == old(self).flags@,
                self.ranges@ == old(self).ranges@,
                self.selected_nodes == old(self).selected_nodes,
                moves_only_free(before, self.nodes@),
                forall|j: int| 0 <= j < i ==> #[trigger] self.nodes@[j] == advance_all(k, before)[j],
                forall|j: int| i <= j < before.len() ==> #[trigger] self.nodes@[j] == before[j],
            decreases self.nodes.len() - i,
        {
            let n = self.nodes[i];
            if !n.pinned {
                let pos = k.advance(&n.pos, &n.last_pos);
                self.nodes.set(i, Node { pos, last_pos: n.pos, pinned: false });
            }
            i = i + 1;
        }
        proof {
            assert(self.nodes@ =~= advance_all(k, before));
            old(self).lemma_wf_frame(self);
        }
    }

    /// Pulls every free particle back toward the simulation area.
    fn apply_constraint<K: Kinematics<P, S>>(&mut self, k: &K)
        requires
            old(self).wf(),
        ensures
            final(self).wf(),
            final(self).flags@ == old(self).flags@,
            final(self).ranges@ == old(self).ranges@,
            final(self).selected_nodes == old(self).selected_nodes,
            moves_only_free(old(self).nodes@, final(self).nodes@),
            keeps_last_pos(old(self).nodes@, final(self).nodes@),
            final(self).nodes@ == confine_all(k, old(self).nodes@),
    {
        let ghost before = self.nodes@;
        let mut i: usize = 0;
        while i < self.nodes.len()
            invariant
                i <= self.nodes.len(),
                before == old(self).nodes@,
                self.flags@ == old(self).flags@,
                self.ranges@ == old(self).ranges@,
                self.selected_nodes == old(self).selected_nodes,
                moves_only_free(before, self.nodes@),
                keeps_last_pos(before, self.nodes@),
                forall|j: int| 0 <= j < i ==> #[trigger] self.nodes@[j] == confine_all(k, before)[j],
                forall|j: int| i <= j < before.len() ==> #[trigger] self.nodes@[j] == before[j],
            decreases self.nodes.len() - i,
        {
            let n = self.nodes[i];
            if !n.pinned {
                let pos = k.confine(&n.pos);
                self.nodes.set(i, Node { pos, last_pos: n.last_pos, pinned: false });
            }
            i = i + 1;
        }
        proof {
            assert(self.nodes@ =~= confine_all(k, before));
            old(self).lemma_wf_frame(self);
        }
    }

    /// One relaxation pass. Each instance's particles are copied out of
    /// its range of the store, the instances are relaxed in parallel, each
    /// on its own particles only, and the store is put back together.
    fn apply_links<K: Kinematics<P, S> + Sync>(&mut self, k: &K)
        where P: Send, S: Sync,
        requires
            old(self).wf(),
        ensures
            final(self).wf(),
            final(self).flags@ == old(self).flags@,
            final(self).ranges@ == old(self).ranges@,
            final(self).selected_nodes == old(self).selected_nodes,
            moves_only_free(old(self).nodes@, final(self).nodes@),
            keeps_last_pos(old(self).nodes@, final(self).nodes@),
            relaxed_by_instances(k, old(self).nodes@, final(self).nodes@, old(self).flags@, old(self).ranges@),
    {
        let ghost before = self.nodes@;
        let mut chunks: Vec<Vec<Node<P>>> = Vec::new();
        let mut f: usize = 0;
        while f < self.flags.len()
            invariant
                f <= self.flags.len(),
                old(self).wf(),
                self.flags@ == old(self).flags@,
                self.ranges@ == old(self).ranges@,
                self.nodes@ == before,
                before == old(self).nodes@,
                chunks.len() == f,
                forall|g: int| 0 <= g < f ==>
                    (#[trigger] chunks[g])@ == before.subrange(self.ranges[g].0 as int, self.ranges[g].1 as int),
            decreases self.flags.len() - f,
        {
            let (start, end) = self.ranges[f];
            let mut chunk: Vec<Node<P>> = Vec::new();
            let mut i: usize = start;
            while i < end
                invariant
                    start <= i <= end,
                    end <= before.len(),
                    self.nodes@ == before,
                    chunk@ == before.subrange(start as int, i as int),
                decreases end - i,
            {
                chunk.push(self.nodes[i]);
                proof {
                    assert(chunk@ =~= before.subrange(start as int, i + 1));
                }
                i = i + 1;
            }
            chunks.push(chunk);
            f = f + 1;
        }
        let ghost split = chunks@;
        proof {
            assert forall|g: int, l: int| 0 <= g < chunks.len() && 0 <= l < self.flags[g].links.len() implies
                (#[trigger] self.flags[g].links[l]).node1 < chunks[g].len()
                && self.flags[g].links[l].node2 < chunks[g].len() by {
                assert(flag_wf(self.flags[g], self.ranges[g].0 as int));
            }
        }
        relax_in_parallel(k, &mut chunks, &self.flags);
        let mut nodes: Vec<Node<P>> = Vec::new();
        let mut g: usize = 0;
        while g < chunks.len()
            invariant
                g <= chunks.len(),
                chunks.len() == split.len(),
                split.len() == self.flags.len(),
                old(self).wf(),
                self.flags@ == old(self).flags@,
                self.ranges@ == old(self).ranges@,
                before == old(self).nodes@,
                forall|h: int| 0 <= h < split.len() ==>
                    (#[trigger] split[h])@ == before.subrange(self.ranges[h].0 as int, self.ranges[h].1 as int),
                forall|h: int| 0 <= h < split.len() ==>
                    moves_only_free((#[trigger] split[h])@, chunks[h]@) && keeps_last_pos(split[h]@, chunks[h]@)
                    && chunks[h]@ == relax_seq(k, split[h]@, self.flags[h].links@),
                forall|h: int| 0 <= h < g ==>
                    nodes@.subrange(self.ranges[h].0 as int, self.ranges[h].1 as int) == (#[trigger] chunks[h])@,
                g < chunks.len() ==> nodes.len() == self.ranges[g as int].0,
                g == chunks.len() ==> nodes.len() == before.len(),
                forall|i: int| 0 <= i < nodes.len() ==> {
                    &&& (#[trigger] nodes@[i]).pinned == before[i].pinned
                    &&& (before[i].pinned ==> nodes@[i] == before[i])
                    &&& nodes@[i].last_pos == before[i].last_pos
                },
            decreases chunks.len() - g,
        {
            let ghost start = self.ranges[g as int].0 as int;
            let ghost base = nodes.len();
            proof {
                old(self).lemma_ranges_tile_store();
                assert(old(self).ranges@[g as int].1 <= before.len());
            }
            let mut j: usize = 0;
            while j < chunks[g].len()
                invariant
                    g < chunks.len(),
                    chunks.len() == split.len(),
                    j <= chunks[g as int].len(),
                    base == start,
                    nodes.len() == start + j,
                    chunks[g as int].len() == split[g as int].len(),
                    moves_only_free(split[g as int]@, chunks[g as int]@),
                    keeps_last_pos(split[g as int]@, chunks[g as int]@),
                    split[g as int]@ == before.subrange(start, self.ranges[g as int].1 as int),
                    0 <= start <= self.ranges[g as int].1 <= before.len(),
                    forall|j2: int| 0 <= j2 < j ==> #[trigger] nodes@[start + j2] == chunks[g as int]@[j2],
                    forall|h: int| 0 <= h < g ==> self.ranges[h].1 <= start,
                    split.len() == self.flags.len(),
                    self.ranges@ == old(self).ranges@,
                    self.flags@ == old(self).flags@,
                    old(self).wf(),
                    forall|h: int| 0 <= h < g ==>
                        nodes@.subrange(self.ranges[h].0 as int, self.ranges[h].1 as int) == (#[trigger] chunks[h])@,
                    forall|i: int| 0 <= i < nodes.len() ==> {
                        &&& (#[trigger] nodes@[i]).pinned == before[i].pinned
                        &&& (before[i].pinned ==> nodes@[i] == before[i])
                        &&& nodes@[i].last_pos == before[i].last_pos
                    },
                decreases chunks[g as int].len() - j,
            {
                proof {
                    assert(split[g as int]@[j as int] == before[start + j]);
                }
                let ghost prev = nodes@;
                nodes.push(chunks[g][j]);
                proof {
                    old(self).lemma_ranges_tile_store();
                    assert forall|h: int| 0 <= h < g implies
                        nodes@.subrange(self.ranges[h].0 as int, self.ranges[h].1 as int) == (#[trigger] chunks[h])@ by {
                        assert(old(self).ranges_view()[h].0 <= old(self).ranges_view()[h].1);
                        assert(self.ranges[h].1 <= start);
                        assert(nodes@.subrange(self.ranges[h].0 as int, self.ranges[h].1 as int)
                            =~= prev.subrange(self.ranges[h].0 as int, self.ranges[h].1 as int));
                    }
                }
                j = j + 1;
            }
            proof {
                assert(chunks[g as int]@.len() == self.ranges[g as int].1 - start);
                assert forall|j2: int| 0 <= j2 < chunks[g as int]@.len() implies
                    nodes@.subrange(start, self.ranges[g as int].1 as int)[j2] == #[trigger] chunks[g as int]@[j2] by {
                    assert(nodes@[start + j2] == chunks[g as int]@[j2]);
                }
                assert(nodes@.subrange(start, self.ranges[g as int].1 as int) =~= chunks[g as int]@);
                if g + 1 < chunks.len() {
                    assert(self.ranges[g as int].1 == self.ranges[g + 1].0);
                }
            }
            g = g + 1;
        }
        self.nodes = nodes;
        proof {
            old(self).lemma_wf_frame(self);
            assert forall|g: int| 0 <= g < self.flags.len() implies
                self.nodes@.subrange(self.ranges[g].0 as int, self.ranges[g].1 as int)
                    == relax_seq(k, before.subrange(self.ranges[g].0 as int, self.ranges[g].1 as int), (#[trigger] self.flags[g]).links@) by {
                assert(split[g]@ == before.subrange(self.ranges[g].0 as int, self.ranges[g].1 as int));
            }
        }
    }

    /// Advances the simulation by one sub-step: integration, then the
    /// boundary pull, then one relaxation pass over all links. Pinned
    /// particles keep their position and previous position; each free
    /// particle's previous position becomes its position before the step.
    /// No pin flag, link or range changes, and the selection is left as it was.
    pub fn step<K: Kinematics<P, S> + Sync>(&mut self, k: &K)
        where P: Send, S: Sync,
        requires
            old(self).wf(),
        ensures
            final(self).wf(),
            final(self).flags_view() == old(self).flags_view(),
            final(self).ranges_view() == old(self).ranges_view(),
            final(self).selection_view() == old(self).selection_view(),
            moves_only_free(old(self).nodes_view(), final(self).nodes_view()),
            forall|i: int| 0 <= i < old(self).nodes_view().len() && (#[trigger] old(self).nodes_view()[i]).pinned ==>
                final(self).nodes_view()[i].pos == old(self).nodes_view()[i].pos,
            forall|i: int| 0 <= i < old(self).nodes_view().len() && !(#[trigger] old(self).nodes_view()[i]).pinned ==>
                final(self).nodes_view()[i].last_pos == old(self).nodes_view()[i].pos,
            stepped(k, old(self).nodes_view(), final(self).nodes_view(), old(self).flags_view(), old(self).ranges_view()),
    {
        self.update_pos(k);
        self.apply_constraint(k);
        self.apply_links(k);
        proof {
            assert forall|i: int| 0 <= i < old(self).nodes_view().len() && (#[trigger] old(self).nodes_view()[i]).pinned implies
                self.nodes_view()[i].pos == old(self).nodes_view()[i].pos by {
                assert(self.nodes@[i] == old(self).nodes@[i]);
            }
        }
    }

    /// One visual frame: `sub_steps` sub-steps, then, while a drag is held,
    /// the selection moved to `cursor`.
    pub fn frame<K: Kinematics<P, S> + Sync>(&mut self, k: &K, sub_steps: usize, dragging: bool, cursor: P)
        where P: Send, S: Sync,
        requires
            old(self).wf(),
        ensures
            final(self).wf(),
            final(self).flags_view() == old(self).flags_view(),
            final(self).ranges_view() == old(self).ranges_view(),
            final(self).selection_view() == old(self).selection_view(),
            exists|trace: Seq<Seq<Node<P>>>| {
                &&& trace.len() == sub_steps + 1
                &&& trace[0] == old(self).nodes_view()
                &&& #[trigger] step_trace(k, trace, old(self).flags_view(), old(self).ranges_view())
                &&& final(self).nodes_view() == if dragging {
                    drag(trace.last(), old(self).selection_view(), cursor)
                } else {
                    trace.last()
                }
            },
    {
        let ghost trace: Seq<Seq<Node<P>>> = seq![self.nodes@];
        let mut i: usize = 0;
        while i < sub_steps
            invariant
                i <= sub_steps,
                self.wf(),
                self.flags@ == old(self).flags@,
                self.ranges@ == old(self).ranges@,
                self.selection_view() == old(self).selection_view(),
                trace.len() == i + 1,
                trace[0] == old(self).nodes@,
                trace.last() == self.nodes@,
                step_trace(k, trace, old(self).flags@, old(self).ranges@),
            decreases sub_steps - i,
        {
            self.step(k);
            proof {
                let t2 = trace.push(self.nodes@);
                assert forall|j: int| 0 <= j < t2.len() - 1 implies
                    stepped(k, #[trigger] t2[j], t2[j + 1], old(self).flags@, old(self).ranges@) by {
                    if j < trace.len() - 1 {
                        assert(t2[j] == trace[j] && t2[j + 1] == trace[j + 1]);
                    }
                }
                trace = t2;
            }
            i = i + 1;
        }
        if dragging {
            self.move_selected_nodes(cursor);
        }
        assert(step_trace(k, trace, old(self).flags_view(), old(self).ranges_view()));
    }

    /// Pushes every free particle out of a round obstacle of radius `size`
    /// at `center`. Pinned particles, all previous positions, links, ranges
    /// and the selection are left as they were.
    pub fn avoid_obstacle<K: Kinematics<P, S>>(&mut self, k: &K, center: &P, size: &S)
        requires
            old(self).wf(),
        ensures
            final(self).wf(),
            final(self).flags_view() == old(self).flags_view(),
            final(self).ranges_view() == old(self).ranges_view(),
            final(self).selection_view() == old(self).selection_view(),
            moves_only_free(old(self).nodes_view(), final(self).nodes_view()),
            keeps_last_pos(old(self).nodes_view(), final(self).nodes_view()),
            final(self).nodes_view() == repel_all(k, old(self).nodes_view(), *center, *size),
    {
        let ghost before = self.nodes@;
        let mut i: usize = 0;
        while i < self.nodes.len()
            invariant
                i <= self.nodes.len(),
                before == old(self).nodes@,
                self.flags@ == old(self).flags@,
                self.ranges@ == old(self).ranges@,
                self.selected_nodes == old(self).selected_nodes,
                moves_only_free(before, self.nodes@),
                keeps_last_pos(before, self.nodes@),
                forall|j: int| 0 <= j < i ==> #[trigger] self.nodes@[j] == repel_all(k, before, *center, *size)[j],
                forall|j: int| i <= j < before.len() ==> #[trigger] self.nodes@[j] == before[j],
            decreases self.nodes.len() - i,
        {
            let n = self.nodes[i];
            if !n.pinned {
                let pos = k.repel(&n.pos, center, size);
                self.nodes.set(i, Node { pos, last_pos: n.last_pos, pinned: false });
            }
            i = i + 1;
        }
        proof {
            assert(self.nodes@ =~= repel_all(k, before, *center, *size));
            old(self).lemma_wf_frame(self);
        }
    }

    /// Replaces the selection with the particles that `k.picks` near
    /// `cursor`, in store order; when none is, the selection is cleared.
    /// The particles are left as they were.
    pub fn select_nodes<K: Kinematics<P, S>>(&mut self, k: &K, cursor: &P)
        requires
            old(self).wf(),
        ensures
            final(self).wf(),
            final(self).nodes_view() == old(self).nodes_view(),
            final(self).flags_view() == old(self).flags_view(),
            final(self).ranges_view() == old(self).ranges_view(),
            final(self).selection_view() == pick(
                Seq::new(old(self).nodes_view().len(), |i: int| k.picks_spec(old(self).nodes_view()[i].pos, *cursor)),
            ),
    {
        let mut hits: Vec<bool> = Vec::new();
        let mut i: usize = 0;
        while i < self.nodes.len()
            invariant
                i <= self.nodes.len(),
                hits.len() == i,
                forall|j: int| 0 <= j < i ==> #[trigger] hits@[j] == k.picks_spec(self.nodes@[j].pos, *cursor),
            decreases self.nodes.len() - i,
        {
            hits.push(k.picks(&self.nodes[i].pos, cursor));
            i = i + 1;
        }
        self.selected_nodes = select_hits(&hits);
        assert(hits@ =~= Seq::new(self.nodes@.len(), |i: int| k.picks_spec(self.nodes@[i].pos, *cursor)));
    }

    /// Moves every selected particle's position (not its previous position)
    /// to `cursor`, pinned or not; with no selection nothing changes.
    pub fn move_selected_nodes(&mut self, cursor: P)
        requires
            old(self).wf(),
        ensures
            final(self).wf(),
            final(self).nodes_view() == drag(old(self).nodes_view(), old(self).selection_view(), cursor),
            final(self).flags_view() == old(self).flags_view(),
            final(self).ranges_view() == old(self).ranges_view(),
            final(self).selection_view() == old(self).selection_view(),
    {
        match &self.selected_nodes {
            None => {},
            Some(sel) => {
                let ghost before = self.nodes@;
                proof {
                    assert(old(self).selection_view() == Some(sel@));
                    lemma_selection_in_store(old(self).nodes_view(), old(self).flags_view(), old(self).ranges_view(), sel@);
                    assert(old(self).nodes_view() == before);
                }
                let mut j: usize = 0;
                while j < sel.len()
                    invariant
                        j <= sel.len(),
                        self.nodes.len() == before.len(),
                        forall|t: int| 0 <= t < sel.len() ==> #[trigger] sel[t] < before.len(),
                        forall|t: int| 0 <= t < before.len() ==> (#[trigger] self.nodes@[t]).pinned == before[t].pinned,
                        before == old(self).nodes@,
                        self.flags@ == old(self).flags@,
                        self.ranges@ == old(self).ranges@,
                        Some(sel@) == old(self).selection_view(),
                        self.selected_nodes == old(self).selected_nodes,
                        self.nodes@ == drag(before, Some(sel@.subrange(0, j as int)), cursor),
                    decreases sel.len() - j,
                {
                    let i = sel[j];
                    let n = self.nodes[i];
                    self.nodes.set(i, Node { pos: cursor, last_pos: n.last_pos, pinned: n.pinned });
                    proof {
                        let s1 = sel@.subrange(0, j as int + 1);
                        assert forall|t: int| 0 <= t < before.len() implies
                            (#[trigger] s1.contains(t as usize) <==> (sel@.subrange(0, j as int).contains(t as usize) || t == i)) by {
                            if t == i {
                                assert(s1[j as int] == i);
                            }
                            if sel@.subrange(0, j as int).contains(t as usize) {
                                let q = choose|q: int| 0 <= q < j && sel@.subrange(0, j as int)[q] == t as usize;
                                assert(s1[q] == t as usize);
                            }
                        }
                        assert(self.nodes@ =~= drag(before, Some(s1), cursor));
                    }
                    j = j + 1;
                }
                proof {
                    assert(sel@.subrange(0, sel.len() as int) =~= sel@);
                }
            },
        }
        proof {
            old(self).lemma_wf_pins(self);
        }
    }

    /// The position of every particle, in store order.
    pub fn get_points(&self) -> (r: Vec<P>)
        ensures
            r.len() == self.nodes_view().len(),
            forall|i: int| 0 <= i < r.len() ==> #[trigger] r[i] == self.nodes_view()[i].pos,
    {
        let mut r: Vec<P> = Vec::new();
        let mut i: usize = 0;
        while i < self.nodes.len()
            invariant
                i <= self.nodes.len(),
                r.len() == i,
                forall|j: int| 0 <= j < i ==> #[trigger] r[j] == self.nodes[j].pos,
            decreases self.nodes.len() - i,
        {
            r.push(self.nodes[i].pos);
            i = i + 1;
        }
        r
    }

    /// The endpoints of every link as indices into the store, two per link,
    /// instance by instance, as an `i16` index buffer holds them.
    pub fn get_indices(&self) -> (r: Vec<i16>)
        requires
            self.wf(),
            self.nodes_view().len() <= 32768,
        ensures
            r@.map_values(|v: i16| v as int) == all_link_indices(self.flags_view()),
    {
        let mut r: Vec<i16> = Vec::new();
        let mut f: usize = 0;
        while f < self.flags.len()
            invariant
                self.wf(),
                self.nodes@.len() <= 32768,
                f <= self.flags.len(),
                r@.map_values(|v: i16| v as int) == all_link_indices(self.flags@.subrange(0, f as int)),
            decreases self.flags.len() - f,
        {
            let ghost base = r@.map_values(|v: i16| v as int);
            let links = &self.flags[f].offset_links;
            let ghost start = self.ranges@[f as int].0 as int;
            let mut l: usize = 0;
            while l < links.len()
                invariant
                    self.wf(),
                    self.nodes@.len() <= 32768,
                    f < self.flags.len(),
                    links@ == self.flags@[f as int].offset_links@,
                    start == self.ranges@[f as int].0,
                    l <= links.len(),
                    r@.map_values(|v: i16| v as int) == base + link_index_seq(links@.subrange(0, l as int)),
                decreases links.len() - l,
            {
                proof {
                    assert(links@.subrange(0, l as int + 1).drop_last() =~= links@.subrange(0, l as int));
                    let fl = self.flags@[f as int];
                    assert(flag_wf(fl, start));
                    assert(fl.links[l as int].node1 < fl.width * fl.height);
                    assert(fl.links[l as int].node2 < fl.width * fl.height);
                }
                let ghost prev = r@;
                let a = links[l].node1 as i16;
                let b = links[l].node2 as i16;
                r.push(a);
                r.push(b);
                proof {
                    assert(r@.map_values(|v: i16| v as int) =~= prev.map_values(|v: i16| v as int)
                        + seq![links@[l as int].node1 as int, links@[l as int].node2 as int]);
                    assert(r@.map_values(|v: i16| v as int) =~= base + link_index_seq(links@.subrange(0, l as int + 1)));
                }
                l = l + 1;
            }
            proof {
                assert(links@.subrange(0, links.len() as int) =~= links@);
                assert(self.flags@.subrange(0, f as int + 1).drop_last() =~= self.flags@.subrange(0, f as int));
            }
            f = f + 1;
        }
        proof {
            assert(self.flags@.subrange(0, self.flags.len() as int) =~= self.flags@);
        }
        r
    }

    /// Total number of links over all instances.
    pub fn num_links(&self) -> (r: i32)
        requires
            total_links(self.flags_view(), self.flags_view().len() as int) <= i32::MAX,
        ensures
            r == total_links(self.flags_view(), self.flags_view().len() as int),
    {
        let mut total: i32 = 0;
        let mut f: usize = 0;
        while f < self.flags.len()
            invariant
                f <= self.flags.len(),
                total == total_links(self.flags@, f as int),
                total_links(self.flags@, self.flags.len() as int) <= i32::MAX,
            decreases self.flags.len() - f,
        {
            proof {
                lemma_total_links_monotone(self.flags@, f as int + 1, self.flags.len() as int);
                lemma_total_links_monotone(self.flags@, 0, f as int);
                assert(total_links(self.flags@, f as int + 1)
                    == total_links(self.flags@, f as int) + self.flags@[f as int].links.len());
            }
            let n = self.flags[f].links.len() as i32;
            total = total + n;
            f = f + 1;
        }
        total
    }

    /// The particles, in store order.
    pub fn nodes(&self) -> (r: &Vec<Node<P>>)
        ensures
            r@ == self.nodes_view(),
    {
        &self.nodes
    }

    /// The instances, in registration order.
    pub fn flags(&self) -> (r: &Vec<Flag<S>>)
        ensures
            r@ == self.flags_view(),
    {
        &self.flags
    }

    /// The range `[start, end)` of the store that each instance owns.
    pub fn ranges(&self) -> (r: &Vec<(usize, usize)>)
        ensures
            r@ == self.ranges_view(),
    {
        &self.ranges
    }

    /// The current selection, if any.
    pub fn selection(&self) -> (r: Option<&Vec<usize>>)
        ensures
            match r {
                Some(v) => self.selection_view() == Some(v@),
                None => self.selection_view() is None,
            },
    {
        match &self.selected_nodes {
            Some(v) => Some(v),
            None => None,
        }
    }

    /// The instances' ranges tile the store: each ends no later than the
    /// next starts, they are laid end to end from index 0 to the end of the
    /// store, and every particle lies in one of them.
    pub proof fn lemma_ranges_tile_store(&self)
        requires
            self.wf(),
        ensures
            forall|i: int, j: int| 0 <= i < j < self.ranges_view().len() ==>
                #[trigger] self.ranges_view()[i].1 <= #[trigger] self.ranges_view()[j].0,
            forall|i: int| 0 <= i < self.ranges_view().len() ==>
                (#[trigger] self.ranges_view()[i]).0 <= self.ranges_view()[i].1,
            forall|i: int| 0 <= i < self.ranges_view().len() - 1 ==>
                (#[trigger] self.ranges_view()[i]).1 == self.ranges_view()[i + 1].0,
            self.ranges_view().len() > 0 ==> self.ranges_view()[0].0 == 0
                && self.ranges_view().last().1 == self.nodes_view().len(),
            forall|n: int| 0 <= n < self.nodes_view().len() ==> #[trigger] covers(self.ranges_view(), n),
    {
        let counts = flag_counts(self.flags@);
        assert forall|k: int| 0 <= k < counts.len() implies counts[k] >= 0 by {
            assert(counts[k] >= 0) by (nonlinear_arith)
                requires counts[k] == self.flags@[k].width * self.flags@[k].height;
        }
        lemma_partition_exact(counts);
        assert forall|i: int, j: int| 0 <= i < j < self.ranges_view().len() implies
            #[trigger] self.ranges_view()[i].1 <= #[trigger] self.ranges_view()[j].0 by {
            assert(range_of(counts, i).1 <= range_of(counts, j).0);
        }
        assert forall|i: int| 0 <= i < self.ranges_view().len() - 1 implies
            (#[trigger] self.ranges_view()[i]).1 == self.ranges_view()[i + 1].0 by {
            assert(range_of(counts, i).1 == range_of(counts, i + 1).0);
        }
        assert forall|n: int| 0 <= n < self.nodes_view().len() implies #[trigger] covers(self.ranges_view(), n) by {
            assert(owned(counts, n));
            let i = choose|i: int| 0 <= i < counts.len() && range_of(counts, i).0 <= n < #[trigger] range_of(counts, i).1;
            assert(self.ranges@[i].0 <= n < self.ranges@[i].1);
        }
    }
}

} // verus!
