//! The cluster-feature tree: nodes, configuration, insertion and splitting.
//!
//! A node owns an ordered sequence of entries; an entry owns a summary and
//! optionally a child node. A node is a leaf iff every entry is childless.
//! Insertion descends to the closest entry, absorbs the point into a leaf
//! summary when the threshold allows it, appends a new entry otherwise,
//! and splits any node that reaches its capacity, seeding the two sides
//! with the farthest pair of entries.
//!
//! Every operation is pinned against a ghost mirror of the tree
//! ([`SNode`]) and mirror functions ([`spec_insert`], [`spec_build`]) that
//! restate the insertion protocol over views.

use vstd::prelude::*;

verus! {

use crate::cfeature::CFeature;
use crate::point::Point;
use crate::point::Scalar;

/// Inclusive bounds on how many entries a node may hold.
#[derive(Debug, Clone)]
pub struct Capacity {
    /// The fewest entries allowed.
    pub min: usize,
    /// The most entries allowed.
    pub max: usize,
}

/// A configuration was asked for with unordered capacities, a capacity
/// too small to split, or a negative threshold.
#[derive(Debug, PartialEq, Eq, Structural)]
pub struct ConfigInvalid;

/// The ghost configuration: capacities and threshold as mathematical
/// values.
pub struct SpecConfig {
    /// Fewest entries of a branch node.
    pub node_min: int,
    /// Most entries of a branch node.
    pub node_max: int,
    /// Fewest entries of a leaf node.
    pub leaf_min: int,
    /// Most entries of a leaf node.
    pub leaf_max: int,
    /// Absorption threshold compared against `diam2`.
    pub threshold: int,
}

impl SpecConfig {
    /// Capacities are ordered, large enough to split, small enough to
    /// leave slack for one transient extra entry, and the threshold is a
    /// representable nonnegative scalar.
    pub open spec fn valid(self) -> bool {
        &&& 1 <= self.node_min <= self.node_max
        &&& 2 <= self.node_max < usize::MAX
        &&& 1 <= self.leaf_min <= self.leaf_max
        &&& 2 <= self.leaf_max < usize::MAX
        &&& 0 <= self.threshold <= i128::MAX
    }
}

/// What a tree builder needs from its configuration.
pub trait TreeConfig: Sized {
    /// The configuration as ghost values.
    spec fn spec_config(&self) -> SpecConfig;

    /// Bounds for branch-level nodes.
    fn node_capacity(&self) -> (r: &Capacity)
        ensures
            r.min == self.spec_config().node_min,
            r.max == self.spec_config().node_max,
    ;

    /// Bounds for leaf nodes.
    fn leaf_capacity(&self) -> (r: &Capacity)
        ensures
            r.min == self.spec_config().leaf_min,
            r.max == self.spec_config().leaf_max,
    ;

    /// The absorption threshold.
    fn threshold(&self) -> (r: Scalar)
        ensures
            r == self.spec_config().threshold,
    ;
}

/// A configuration with one capacity for branches and leaves alike.
#[derive(Debug, Clone)]
pub struct BasicConfig {
    /// Bounds on entries per node.
    pub capacity: Capacity,
    /// Absorption threshold compared against `diam2`.
    pub threshold: Scalar,
}

impl BasicConfig {
    /// Validates and builds a configuration. Fails iff the bounds are
    /// unordered, the maximum leaves no room to split, or the threshold
    /// is negative.
    pub fn new(capacity: Capacity, threshold: Scalar) -> (r: Result<BasicConfig, ConfigInvalid>)
        ensures
            (capacity.min >= 1 && capacity.min <= capacity.max && capacity.max >= 2
                && capacity.max < usize::MAX && threshold >= 0) <==> r is Ok,
            r matches Ok(c) ==> c.spec_config() == (SpecConfig {
                node_min: capacity.min as int,
                node_max: capacity.max as int,
                leaf_min: capacity.min as int,
                leaf_max: capacity.max as int,
                threshold: threshold as int,
            }) && c.spec_config().valid(),
    {
        if capacity.min < 1 || capacity.min > capacity.max || capacity.max < 2 || capacity.max
            == usize::MAX || threshold < 0 {
            return Err(ConfigInvalid);
        }
        Ok(BasicConfig { capacity, threshold })
    }
}

impl TreeConfig for BasicConfig {
    open spec fn spec_config(&self) -> SpecConfig {
        SpecConfig {
            node_min: self.capacity.min as int,
            node_max: self.capacity.max as int,
            leaf_min: self.capacity.min as int,
            leaf_max: self.capacity.max as int,
            threshold: self.threshold as int,
        }
    }

    fn node_capacity(&self) -> (r: &Capacity) {
        &self.capacity
    }

    fn leaf_capacity(&self) -> (r: &Capacity) {
        &self.capacity
    }

    fn threshold(&self) -> (r: Scalar) {
        self.threshold
    }
}

/// The ghost mirror of a node: its entries' views in order.
#[verifier::ext_equal]
pub struct SNode<F> {
    /// The entries' views, in the node's order.
    pub entries: Seq<SEntry<F>>,
}

/// The ghost mirror of an entry: a summary view and an optional child.
#[verifier::ext_equal]
pub struct SEntry<F> {
    /// The summary's view.
    pub feature: F,
    /// The child's mirror, if the entry has one.
    pub child: Option<SNode<F>>,
}

/// A tree node: an ordered sequence of entries.
pub struct Node<C> {
    /// The entries, in insertion-determined order.
    pub entries: Vec<NodeEntry<C>>,
}

/// A tree entry: a summary and an optional child node.
pub struct NodeEntry<C> {
    /// The summary of every point below this entry.
    pub feature: C,
    /// The subtree this entry summarizes, absent for leaf entries.
    pub child: Option<Node<C>>,
}

impl<C: CFeature> View for NodeEntry<C> {
    type V = SEntry<C::V>;

    open spec fn view(&self) -> SEntry<C::V> {
        entry_view(*self)
    }
}

impl<C: CFeature> View for Node<C> {
    type V = SNode<C::V>;

    open spec fn view(&self) -> SNode<C::V> {
        node_view(*self)
    }
}

/// The ghost mirror of an entry.
pub open spec fn entry_view<C: CFeature>(e: NodeEntry<C>) -> SEntry<C::V>
    decreases e,
{
    SEntry {
        feature: e.feature@,
        child: match e.child {
            Some(c) => Some(node_view(c)),
            None => None,
        },
    }
}

/// The ghost mirrors of a sequence of entries, in order.
pub open spec fn entries_view<C: CFeature>(es: Seq<NodeEntry<C>>) -> Seq<SEntry<C::V>>
    decreases es,
{
    if es.len() == 0 {
        Seq::empty()
    } else {
        entries_view(es.drop_last()).push(entry_view(es.last()))
    }
}

/// The ghost mirror of a node.
pub open spec fn node_view<C: CFeature>(n: Node<C>) -> SNode<C::V>
    decreases n,
{
    SNode { entries: entries_view(n.entries@) }
}

/// The mirror of an entry sequence mirrors it elementwise.
pub proof fn lemma_entries_view<C: CFeature>(es: Seq<NodeEntry<C>>)
    ensures
        entries_view(es).len() == es.len(),
        forall|i: int| 0 <= i < es.len() ==> entries_view(es)[i] == entry_view(#[trigger] es[i]),
    decreases es,
{
    if es.len() > 0 {
        lemma_entries_view(es.drop_last());
        assert forall|i: int| 0 <= i < es.len() implies entries_view(es)[i] == entry_view(
            #[trigger] es[i],
        ) by {
            if i < es.len() - 1 {
                assert(es.drop_last()[i] == es[i]);
                assert(entries_view(es)[i] == entries_view(es.drop_last())[i]);
            } else {
                assert(es[i] == es.last());
            }
        }
    }
}

/// The height of an entry: its child's height, or zero for a leaf entry.
pub open spec fn entry_height<C: CFeature>(e: SEntry<C::V>) -> nat
    decreases e,
{
    match e.child {
        Some(c) => node_height::<C>(c),
        None => 0,
    }
}

/// The greatest entry height in a sequence.
pub open spec fn entries_max_height<C: CFeature>(es: Seq<SEntry<C::V>>) -> nat
    decreases es,
{
    if es.len() == 0 {
        0
    } else {
        let rest = entries_max_height::<C>(es.drop_last());
        let last = entry_height::<C>(es.last());
        if last > rest {
            last
        } else {
            rest
        }
    }
}

/// The height of a node: one more than its tallest entry; an empty node
/// has height one.
pub open spec fn node_height<C: CFeature>(n: SNode<C::V>) -> nat
    decreases n,
{
    1 + entries_max_height::<C>(n.entries)
}

/// The fold of a sequence of entry summaries, left to right from the
/// empty summary.
pub open spec fn fold_features<C: CFeature>(es: Seq<SEntry<C::V>>, dim: int) -> C::V
    decreases es.len(),
{
    if es.len() == 0 {
        C::v_zero(dim)
    } else {
        C::v_add(fold_features::<C>(es.drop_last(), dim), es.last().feature)
    }
}

/// The sum of the summary sizes of a sequence of entries.
pub open spec fn sum_sizes<C: CFeature>(es: Seq<SEntry<C::V>>) -> int
    decreases es.len(),
{
    if es.len() == 0 {
        0
    } else {
        sum_sizes::<C>(es.drop_last()) + C::v_size(es.last().feature)
    }
}

/// How many inserted points an entry's subtree holds.
pub open spec fn entry_points<C: CFeature>(e: SEntry<C::V>) -> int
    decreases e,
{
    match e.child {
        Some(c) => node_points::<C>(c),
        None => C::v_size(e.feature),
    }
}

/// How many inserted points a sequence of entries holds below it.
pub open spec fn entries_points<C: CFeature>(es: Seq<SEntry<C::V>>) -> int
    decreases es,
{
    if es.len() == 0 {
        0
    } else {
        entries_points::<C>(es.drop_last()) + entry_points::<C>(es.last())
    }
}

/// How many inserted points a node holds below it.
pub open spec fn node_points<C: CFeature>(n: SNode<C::V>) -> int
    decreases n,
{
    entries_points::<C>(n.entries)
}

/// Whether every entry of the node is childless.
pub open spec fn is_leaf<C: CFeature>(n: SNode<C::V>) -> bool {
    forall|i: int| 0 <= i < n.entries.len() ==> (#[trigger] n.entries[i].child) is None
}

/// Well-formedness of one entry: a valid, non-empty summary of the
/// node's dimension; an internal entry's summary is exactly the fold of
/// its child's summaries, a leaf entry's dispersion is within the
/// threshold.
pub open spec fn entry_wf<C: CFeature>(e: SEntry<C::V>, dim: int, cfg: SpecConfig) -> bool
    decreases e,
{
    &&& C::v_inv(e.feature)
    &&& C::v_dim(e.feature) == dim
    &&& C::v_size(e.feature) >= 1
    &&& match e.child {
        Some(c) => {
            &&& node_wf::<C>(c, dim, cfg)
            &&& c.entries.len() >= 1
            &&& e.feature == fold_features::<C>(c.entries, dim)
        },
        None => C::v_diam2(e.feature) <= cfg.threshold,
    }
}

/// Well-formedness of a sequence of entries.
pub open spec fn entries_wf<C: CFeature>(es: Seq<SEntry<C::V>>, dim: int, cfg: SpecConfig) -> bool
    decreases es,
{
    if es.len() == 0 {
        true
    } else {
        entries_wf::<C>(es.drop_last(), dim, cfg) && entry_wf::<C>(es.last(), dim, cfg)
    }
}

/// Well-formedness of a node: well-formed entries, all of one height,
/// within the capacity that applies to the node, and a representable
/// point count.
pub open spec fn node_wf<C: CFeature>(n: SNode<C::V>, dim: int, cfg: SpecConfig) -> bool
    decreases n,
{
    &&& entries_wf::<C>(n.entries, dim, cfg)
    &&& n.entries.len() <= (if is_leaf::<C>(n) {
        cfg.leaf_max
    } else {
        cfg.node_max
    })
    &&& forall|i: int|
        0 <= i < n.entries.len() ==> entry_height::<C>(#[trigger] n.entries[i]) == entry_height::<
            C,
        >(n.entries[0])
    &&& node_points::<C>(n) <= usize::MAX
}

/// The first index among the first `n` entries whose summary is closest
/// to the point; on ties the earlier index is kept.
pub open spec fn closest_upto<C: CFeature>(
    es: Seq<SEntry<C::V>>,
    p: Seq<int>,
    n: int,
) -> int
    recommends
        1 <= n <= es.len(),
    decreases n,
{
    if n <= 1 {
        0
    } else {
        let b = closest_upto::<C>(es, p, n - 1);
        if C::v_dist2_pt(es[n - 1].feature, p) < C::v_dist2_pt(es[b].feature, p) {
            n - 1
        } else {
            b
        }
    }
}

/// The entry the insertion descends into: the first closest one.
pub open spec fn closest_entry<C: CFeature>(es: Seq<SEntry<C::V>>, p: Seq<int>) -> int {
    closest_upto::<C>(es, p, es.len() as int)
}

/// The closest-entry scan stays within the scanned prefix.
pub proof fn lemma_closest_upto_bounds<C: CFeature>(es: Seq<SEntry<C::V>>, p: Seq<int>, n: int)
    requires
        1 <= n <= es.len(),
    ensures
        0 <= closest_upto::<C>(es, p, n) < n,
    decreases n,
{
    if n > 1 {
        lemma_closest_upto_bounds::<C>(es, p, n - 1);
    }
}

/// The selected entry is a first minimizer: no entry is strictly
/// closer, and every earlier entry is strictly farther.
pub proof fn lemma_closest_is_min<C: CFeature>(es: Seq<SEntry<C::V>>, p: Seq<int>, n: int)
    requires
        1 <= n <= es.len(),
    ensures
        ({
            let i = closest_upto::<C>(es, p, n);
            &&& 0 <= i < n
            &&& forall|j: int|
                0 <= j < n ==> C::v_dist2_pt((#[trigger] es[j]).feature, p) >= C::v_dist2_pt(
                    es[i].feature,
                    p,
                )
            &&& forall|j: int|
                0 <= j < i ==> C::v_dist2_pt((#[trigger] es[j]).feature, p) > C::v_dist2_pt(
                    es[i].feature,
                    p,
                )
        }),
    decreases n,
{
    if n > 1 {
        lemma_closest_is_min::<C>(es, p, n - 1);
    }
}

/// One row of the farthest-pair scan: pairs `(i, j)` for `j` upward,
/// keeping the accumulator unless a pair is strictly farther.
pub open spec fn far_row<C: CFeature>(
    es: Seq<SEntry<C::V>>,
    i: int,
    j: int,
    acc: (int, int),
) -> (int, int)
    decreases es.len() - j,
{
    if j >= es.len() {
        acc
    } else {
        let acc2 = if C::v_dist2(es[i].feature, es[j].feature) > C::v_dist2(
            es[acc.0].feature,
            es[acc.1].feature,
        ) {
            (i, j)
        } else {
            acc
        };
        far_row::<C>(es, i, j + 1, acc2)
    }
}

/// The farthest-pair scan from row `i` downward.
pub open spec fn far_rows<C: CFeature>(es: Seq<SEntry<C::V>>, i: int, acc: (int, int)) -> (
    int,
    int,
)
    decreases es.len() - i,
{
    if i >= es.len() {
        acc
    } else {
        far_rows::<C>(es, i + 1, far_row::<C>(es, i, i + 1, acc))
    }
}

/// The pair of entry indices whose summaries lie farthest apart; the
/// first such pair in lexicographic order is kept on ties.
pub open spec fn farthest_pair<C: CFeature>(es: Seq<SEntry<C::V>>) -> (int, int)
    recommends
        es.len() >= 2,
{
    far_rows::<C>(es, 0, (0, 1))
}

/// One row of the scan never loses distance, and dominates every pair
/// of its own row from `j` on.
proof fn lemma_far_row_max<C: CFeature>(es: Seq<SEntry<C::V>>, i: int, j: int, acc: (int, int))
    requires
        0 <= acc.0 < acc.1 < es.len(),
        0 <= i < es.len(),
        i < j,
    ensures
        ({
            let r = far_row::<C>(es, i, j, acc);
            &&& C::v_dist2(es[r.0].feature, es[r.1].feature) >= C::v_dist2(
                es[acc.0].feature,
                es[acc.1].feature,
            )
            &&& forall|b: int|
                j <= b < es.len() ==> C::v_dist2(es[i].feature, (#[trigger] es[b]).feature)
                    <= C::v_dist2(es[r.0].feature, es[r.1].feature)
        }),
    decreases es.len() - j,
{
    if j < es.len() {
        let acc2 = if C::v_dist2(es[i].feature, es[j].feature) > C::v_dist2(
            es[acc.0].feature,
            es[acc.1].feature,
        ) {
            (i, j)
        } else {
            acc
        };
        lemma_far_row_bounds::<C>(es, i, j, acc);
        lemma_far_row_max::<C>(es, i, j + 1, acc2);
    }
}

/// The scan from row `i` on never loses distance, and dominates every
/// pair whose first index is at least `i`.
proof fn lemma_far_rows_max<C: CFeature>(es: Seq<SEntry<C::V>>, i: int, acc: (int, int))
    requires
        0 <= acc.0 < acc.1 < es.len(),
        0 <= i,
    ensures
        ({
            let r = far_rows::<C>(es, i, acc);
            &&& C::v_dist2(es[r.0].feature, es[r.1].feature) >= C::v_dist2(
                es[acc.0].feature,
                es[acc.1].feature,
            )
            &&& forall|a: int, b: int|
                i <= a < b < es.len() ==> C::v_dist2(
                    (#[trigger] es[a]).feature,
                    (#[trigger] es[b]).feature,
                ) <= C::v_dist2(es[r.0].feature, es[r.1].feature)
        }),
    decreases es.len() - i,
{
    if i < es.len() {
        lemma_far_row_max::<C>(es, i, i + 1, acc);
        lemma_far_row_bounds::<C>(es, i, i + 1, acc);
        lemma_far_rows_max::<C>(es, i + 1, far_row::<C>(es, i, i + 1, acc));
    }
}

/// The kept pair is maximal: no pair of entries lies strictly farther
/// apart.
pub proof fn lemma_farthest_is_max<C: CFeature>(es: Seq<SEntry<C::V>>)
    requires
        es.len() >= 2,
    ensures
        ({
            let r = farthest_pair::<C>(es);
            forall|a: int, b: int|
                0 <= a < b < es.len() ==> C::v_dist2(
                    (#[trigger] es[a]).feature,
                    (#[trigger] es[b]).feature,
                ) <= C::v_dist2(es[r.0].feature, es[r.1].feature)
        }),
{
    lemma_far_rows_max::<C>(es, 0, (0, 1));
}

/// Whether entry `k` joins the left side of a split seeded by the pair
/// `(li, ri)`: the left seed itself, or an entry strictly closer to the
/// left seed than to the right one.
pub open spec fn goes_left<C: CFeature>(es: Seq<SEntry<C::V>>, li: int, ri: int, k: int) -> bool {
    k == li || (k != ri && C::v_dist2(es[li].feature, es[k].feature) < C::v_dist2(
        es[ri].feature,
        es[k].feature,
    ))
}

/// The entries of one side of a split, keeping the original order, taken
/// from the first `n` entries.
pub open spec fn split_side<C: CFeature>(
    es: Seq<SEntry<C::V>>,
    li: int,
    ri: int,
    left: bool,
    n: int,
) -> Seq<SEntry<C::V>>
    decreases n,
{
    if n <= 0 {
        Seq::empty()
    } else {
        let rest = split_side::<C>(es, li, ri, left, n - 1);
        if goes_left::<C>(es, li, ri, n - 1) == left {
            rest.push(es[n - 1])
        } else {
            rest
        }
    }
}

/// The outcome of inserting into a node, over ghost mirrors.
pub enum SIns<F> {
    /// The node absorbed the point; this is its replacement.
    Single(SNode<F>),
    /// The node split; these are the two sides, left then right.
    Split(SNode<F>, SNode<F>),
}

/// The capacity that applies to a node: the leaf capacity for a leaf,
/// the branch capacity otherwise.
pub open spec fn applicable_max<C: CFeature>(n: SNode<C::V>, cfg: SpecConfig) -> int {
    if is_leaf::<C>(n) {
        cfg.leaf_max
    } else {
        cfg.node_max
    }
}

/// The split check: a node at or past its capacity is split by the
/// farthest-pair rule, any other node is kept.
pub open spec fn spec_check_split<C: CFeature>(n: SNode<C::V>, cfg: SpecConfig) -> SIns<C::V> {
    if n.entries.len() >= applicable_max::<C>(n, cfg) {
        let pr = farthest_pair::<C>(n.entries);
        SIns::Split(
            SNode { entries: split_side::<C>(n.entries, pr.0, pr.1, true, n.entries.len() as int) },
            SNode {
                entries: split_side::<C>(n.entries, pr.0, pr.1, false, n.entries.len() as int),
            },
        )
    } else {
        SIns::Single(n)
    }
}

/// The singleton summary of a point.
pub open spec fn v_from_pt<C: CFeature>(p: Seq<int>) -> C::V {
    C::v_add_pt(C::v_zero(p.len() as int), p)
}

/// The recursive insertion protocol over mirrors.
///
/// An empty node gains a singleton leaf entry. Otherwise the point
/// descends into the first closest entry: into its child if it has one
/// (refreshing the entry's summary from the replacement child, and
/// appending the right side of a child split as a new entry), else the
/// leaf summary absorbs the point when the absorbed dispersion stays
/// within the threshold, and a new singleton entry is appended when it
/// does not. Any append ends with the split check.
pub open spec fn spec_insert<C: CFeature>(n: SNode<C::V>, p: Seq<int>, cfg: SpecConfig) -> SIns<
    C::V,
>
    decreases n,
    via spec_insert_decreases::<C>
{
    if n.entries.len() == 0 {
        SIns::Single(
            SNode { entries: seq![SEntry { feature: v_from_pt::<C>(p), child: None }] },
        )
    } else {
        let i = closest_entry::<C>(n.entries, p);
        match n.entries[i].child {
            Some(c) => {
                match spec_insert::<C>(c, p, cfg) {
                    SIns::Single(c2) => SIns::Single(
                        SNode {
                            entries: n.entries.update(
                                i,
                                SEntry {
                                    feature: fold_features::<C>(c2.entries, p.len() as int),
                                    child: Some(c2),
                                },
                            ),
                        },
                    ),
                    SIns::Split(l, r) => {
                        let updated = n.entries.update(
                            i,
                            SEntry {
                                feature: fold_features::<C>(l.entries, p.len() as int),
                                child: Some(l),
                            },
                        ).push(
                            SEntry {
                                feature: fold_features::<C>(r.entries, p.len() as int),
                                child: Some(r),
                            },
                        );
                        spec_check_split::<C>(SNode { entries: updated }, cfg)
                    },
                }
            },
            None => {
                let f2 = C::v_add_pt(n.entries[i].feature, p);
                if C::v_diam2(f2) <= cfg.threshold {
                    SIns::Single(
                        SNode {
                            entries: n.entries.update(i, SEntry { feature: f2, child: None }),
                        },
                    )
                } else {
                    spec_check_split::<C>(
                        SNode {
                            entries: n.entries.push(
                                SEntry { feature: v_from_pt::<C>(p), child: None },
                            ),
                        },
                        cfg,
                    )
                }
            },
        }
    }
}

#[via_fn]
proof fn spec_insert_decreases<C: CFeature>(n: SNode<C::V>, p: Seq<int>, cfg: SpecConfig) {
    if n.entries.len() > 0 {
        lemma_closest_upto_bounds::<C>(n.entries, p, n.entries.len() as int);
        let i = closest_entry::<C>(n.entries, p);
        if n.entries[i].child is Some {
            assert(decreases_to!(n => n.entries[i].child->0));
        }
    }
}

/// Root promotion: a kept node stays the root; a split pair becomes the
/// two entries of a new root.
pub open spec fn spec_promote<C: CFeature>(r: SIns<C::V>, dim: int) -> SNode<C::V> {
    match r {
        SIns::Single(n) => n,
        SIns::Split(l, rr) => SNode {
            entries: seq![
                SEntry { feature: fold_features::<C>(l.entries, dim), child: Some(l) },
                SEntry { feature: fold_features::<C>(rr.entries, dim), child: Some(rr) },
            ],
        },
    }
}

/// The tree built by inserting a stream of points, in order, into an
/// initially empty root.
pub open spec fn spec_build<C: CFeature>(points: Seq<Seq<int>>, dim: int, cfg: SpecConfig) -> SNode<
    C::V,
>
    decreases points.len(),
{
    if points.len() == 0 {
        SNode { entries: Seq::empty() }
    } else {
        spec_promote::<C>(
            spec_insert::<C>(spec_build::<C>(points.drop_last(), dim, cfg), points.last(), cfg),
            dim,
        )
    }
}

/// Every well-formed entry sequence is well formed at each index.
pub proof fn lemma_entries_wf_index<C: CFeature>(es: Seq<SEntry<C::V>>, dim: int, cfg: SpecConfig)
    requires
        entries_wf::<C>(es, dim, cfg),
    ensures
        forall|i: int| 0 <= i < es.len() ==> entry_wf::<C>(#[trigger] es[i], dim, cfg),
    decreases es,
{
    if es.len() > 0 {
        lemma_entries_wf_index::<C>(es.drop_last(), dim, cfg);
        assert forall|i: int| 0 <= i < es.len() implies entry_wf::<C>(#[trigger] es[i], dim, cfg) by {
            if i < es.len() - 1 {
                assert(es.drop_last()[i] == es[i]);
            } else {
                assert(es[i] == es.last());
            }
        }
    }
}

/// No entry is taller than the tallest of its sequence.
pub proof fn lemma_entry_height_le_max<C: CFeature>(es: Seq<SEntry<C::V>>)
    ensures
        forall|i: int|
            0 <= i < es.len() ==> entry_height::<C>(#[trigger] es[i]) <= entries_max_height::<C>(
                es,
            ),
    decreases es,
{
    if es.len() > 0 {
        lemma_entry_height_le_max::<C>(es.drop_last());
        assert forall|i: int|
            0 <= i < es.len() implies entry_height::<C>(#[trigger] es[i]) <= entries_max_height::<
            C,
        >(es) by {
            if i < es.len() - 1 {
                assert(es.drop_last()[i] == es[i]);
            } else {
                assert(es[i] == es.last());
            }
        }
    }
}

/// A prefix of an entry sequence sums to at most the whole, sizes being
/// nonnegative.
pub proof fn lemma_sum_sizes_take_le<C: CFeature>(es: Seq<SEntry<C::V>>, k: int)
    requires
        forall|i: int| 0 <= i < es.len() ==> C::v_inv((#[trigger] es[i]).feature),
        0 <= k <= es.len(),
    ensures
        0 <= sum_sizes::<C>(es.take(k)) <= sum_sizes::<C>(es),
    decreases es.len(),
{
    if k == es.len() {
        assert(es.take(k) =~= es);
        lemma_sum_sizes_nonneg::<C>(es);
    } else {
        C::lem_size_bounds(es.last().feature);
        assert(es.drop_last().take(k) =~= es.take(k));
        assert forall|i: int|
            0 <= i < es.drop_last().len() implies C::v_inv(
            (#[trigger] es.drop_last()[i]).feature,
        ) by {
            assert(es.drop_last()[i] == es[i]);
        }
        lemma_sum_sizes_take_le::<C>(es.drop_last(), k);
    }
}

/// Sizes are nonnegative, so their sum is too.
pub proof fn lemma_sum_sizes_nonneg<C: CFeature>(es: Seq<SEntry<C::V>>)
    requires
        forall|i: int| 0 <= i < es.len() ==> C::v_inv((#[trigger] es[i]).feature),
    ensures
        sum_sizes::<C>(es) >= 0,
    decreases es,
{
    if es.len() > 0 {
        C::lem_size_bounds(es.last().feature);
        assert forall|i: int|
            0 <= i < es.drop_last().len() implies C::v_inv(
            (#[trigger] es.drop_last()[i]).feature,
        ) by {
            assert(es.drop_last()[i] == es[i]);
        }
        lemma_sum_sizes_nonneg::<C>(es.drop_last());
    }
}

/// The fold of well-formed summaries is well formed, keeps the
/// dimension, and its size is the sum of the folded sizes.
pub proof fn lemma_fold_inv<C: CFeature>(es: Seq<SEntry<C::V>>, dim: int)
    requires
        dim >= 0,
        forall|i: int| 0 <= i < es.len() ==> C::v_inv((#[trigger] es[i]).feature),
        forall|i: int| 0 <= i < es.len() ==> C::v_dim((#[trigger] es[i]).feature) == dim,
        sum_sizes::<C>(es) <= usize::MAX,
    ensures
        C::v_inv(fold_features::<C>(es, dim)),
        C::v_dim(fold_features::<C>(es, dim)) == dim,
        C::v_size(fold_features::<C>(es, dim)) == sum_sizes::<C>(es),
    decreases es.len(),
{
    if es.len() == 0 {
        C::lem_zero(dim);
    } else {
        let prefix = es.drop_last();
        assert forall|i: int|
            0 <= i < prefix.len() implies C::v_inv((#[trigger] prefix[i]).feature) && C::v_dim(
            prefix[i].feature,
        ) == dim by {
            assert(prefix[i] == es[i]);
        }
        C::lem_size_bounds(es.last().feature);
        lemma_sum_sizes_nonneg::<C>(prefix);
        lemma_fold_inv::<C>(prefix, dim);
        C::lem_add(fold_features::<C>(prefix, dim), es.last().feature);
    }
}

/// The farthest-pair row scan keeps its accumulator ordered and in
/// bounds.
pub proof fn lemma_far_row_bounds<C: CFeature>(es: Seq<SEntry<C::V>>, i: int, j: int, acc: (
    int,
    int,
))
    requires
        0 <= acc.0 < acc.1 < es.len(),
        0 <= i < es.len(),
        i < j,
    ensures
        ({
            let r = far_row::<C>(es, i, j, acc);
            0 <= r.0 < r.1 < es.len()
        }),
    decreases es.len() - j,
{
    if j < es.len() {
        let acc2 = if C::v_dist2(es[i].feature, es[j].feature) > C::v_dist2(
            es[acc.0].feature,
            es[acc.1].feature,
        ) {
            (i, j)
        } else {
            acc
        };
        lemma_far_row_bounds::<C>(es, i, j + 1, acc2);
    }
}

/// The farthest-pair scan keeps its accumulator ordered and in bounds.
pub proof fn lemma_far_rows_bounds<C: CFeature>(es: Seq<SEntry<C::V>>, i: int, acc: (int, int))
    requires
        0 <= acc.0 < acc.1 < es.len(),
        0 <= i,
    ensures
        ({
            let r = far_rows::<C>(es, i, acc);
            0 <= r.0 < r.1 < es.len()
        }),
    decreases es.len() - i,
{
    if i < es.len() {
        lemma_far_row_bounds::<C>(es, i, i + 1, acc);
        lemma_far_rows_bounds::<C>(es, i + 1, far_row::<C>(es, i, i + 1, acc));
    }
}

/// The farthest pair is an ordered pair of distinct entry indices.
pub proof fn lemma_farthest_bounds<C: CFeature>(es: Seq<SEntry<C::V>>)
    requires
        es.len() >= 2,
    ensures
        0 <= farthest_pair::<C>(es).0 < farthest_pair::<C>(es).1 < es.len(),
{
    lemma_far_rows_bounds::<C>(es, 0, (0, 1));
}

/// A well-formed entry appended to a well-formed sequence keeps it well
/// formed.
pub proof fn lemma_entries_wf_push<C: CFeature>(
    es: Seq<SEntry<C::V>>,
    e: SEntry<C::V>,
    dim: int,
    cfg: SpecConfig,
)
    requires
        entries_wf::<C>(es, dim, cfg),
        entry_wf::<C>(e, dim, cfg),
    ensures
        entries_wf::<C>(es.push(e), dim, cfg),
{
    assert(es.push(e).drop_last() =~= es);
    assert(es.push(e).last() == e);
}

/// Replacing one entry by a well-formed one keeps the sequence well
/// formed.
pub proof fn lemma_entries_wf_update<C: CFeature>(
    es: Seq<SEntry<C::V>>,
    i: int,
    e: SEntry<C::V>,
    dim: int,
    cfg: SpecConfig,
)
    requires
        entries_wf::<C>(es, dim, cfg),
        entry_wf::<C>(e, dim, cfg),
        0 <= i < es.len(),
    ensures
        entries_wf::<C>(es.update(i, e), dim, cfg),
    decreases es,
{
    if i == es.len() - 1 {
        assert(es.update(i, e).drop_last() =~= es.drop_last());
        assert(es.update(i, e).last() == e);
    } else {
        lemma_entries_wf_update::<C>(es.drop_last(), i, e, dim, cfg);
        assert(es.update(i, e).drop_last() =~= es.drop_last().update(i, e));
        assert(es.update(i, e).last() == es.last());
    }
}

/// A well-formed entry's summary size equals its subtree's point count;
/// the sum over a well-formed sequence does too.
pub proof fn lemma_entry_sizes<C: CFeature>(e: SEntry<C::V>, dim: int, cfg: SpecConfig)
    requires
        dim >= 0,
        entry_wf::<C>(e, dim, cfg),
    ensures
        C::v_size(e.feature) == entry_points::<C>(e),
        1 <= entry_points::<C>(e) <= usize::MAX,
    decreases e,
{
    C::lem_size_bounds(e.feature);
    match e.child {
        Some(c) => {
            lemma_entries_sizes::<C>(c.entries, dim, cfg);
            lemma_entries_wf_index::<C>(c.entries, dim, cfg);
            assert forall|i: int|
                0 <= i < c.entries.len() implies C::v_inv((#[trigger] c.entries[i]).feature)
                && C::v_dim(c.entries[i].feature) == dim by {}
            lemma_fold_inv::<C>(c.entries, dim);
        },
        None => {},
    }
}

/// See [`lemma_entry_sizes`].
pub proof fn lemma_entries_sizes<C: CFeature>(es: Seq<SEntry<C::V>>, dim: int, cfg: SpecConfig)
    requires
        dim >= 0,
        entries_wf::<C>(es, dim, cfg),
    ensures
        sum_sizes::<C>(es) == entries_points::<C>(es),
        entries_points::<C>(es) >= 0,
        es.len() >= 1 ==> entries_points::<C>(es) >= 1,
        forall|i: int|
            0 <= i < es.len() ==> 1 <= entry_points::<C>(#[trigger] es[i])
                == C::v_size(es[i].feature),
    decreases es,
{
    if es.len() > 0 {
        lemma_entries_sizes::<C>(es.drop_last(), dim, cfg);
        lemma_entry_sizes::<C>(es.last(), dim, cfg);
        assert forall|i: int|
            0 <= i < es.len() implies 1 <= entry_points::<C>(#[trigger] es[i]) == C::v_size(
            es[i].feature,
        ) by {
            if i < es.len() - 1 {
                assert(es.drop_last()[i] == es[i]);
            } else {
                assert(es[i] == es.last());
            }
        }
    }
}

/// Each entry's subtree holds at most the whole sequence's points.
pub proof fn lemma_entry_points_le<C: CFeature>(
    es: Seq<SEntry<C::V>>,
    i: int,
    dim: int,
    cfg: SpecConfig,
)
    requires
        dim >= 0,
        entries_wf::<C>(es, dim, cfg),
        0 <= i < es.len(),
    ensures
        entry_points::<C>(es[i]) <= entries_points::<C>(es),
    decreases es,
{
    lemma_entries_sizes::<C>(es, dim, cfg);
    if i == es.len() - 1 {
        lemma_entries_sizes::<C>(es.drop_last(), dim, cfg);
        assert(es[i] == es.last());
    } else {
        lemma_entry_sizes::<C>(es.last(), dim, cfg);
        lemma_entries_sizes::<C>(es.drop_last(), dim, cfg);
        assert(es.drop_last()[i] == es[i]);
        lemma_entry_points_le::<C>(es.drop_last(), i, dim, cfg);
    }
}

/// Point counts under one replaced entry.
pub proof fn lemma_entries_points_update<C: CFeature>(
    es: Seq<SEntry<C::V>>,
    i: int,
    e: SEntry<C::V>,
)
    requires
        0 <= i < es.len(),
    ensures
        entries_points::<C>(es.update(i, e)) == entries_points::<C>(es) - entry_points::<C>(es[i])
            + entry_points::<C>(e),
    decreases es,
{
    if i == es.len() - 1 {
        assert(es.update(i, e).drop_last() =~= es.drop_last());
        assert(es.update(i, e).last() == e);
    } else {
        lemma_entries_points_update::<C>(es.drop_last(), i, e);
        assert(es.update(i, e).drop_last() =~= es.drop_last().update(i, e));
        assert(es.update(i, e).last() == es.last());
        assert(es.drop_last()[i] == es[i]);
    }
}

/// Point counts under one appended entry.
pub proof fn lemma_entries_points_push<C: CFeature>(es: Seq<SEntry<C::V>>, e: SEntry<C::V>)
    ensures
        entries_points::<C>(es.push(e)) == entries_points::<C>(es) + entry_points::<C>(e),
{
    assert(es.push(e).drop_last() =~= es);
    assert(es.push(e).last() == e);
}

/// A non-empty sequence of entries of one height has that height as its
/// maximum.
pub proof fn lemma_max_height_uniform<C: CFeature>(es: Seq<SEntry<C::V>>, h: nat)
    requires
        es.len() >= 1,
        forall|i: int| 0 <= i < es.len() ==> entry_height::<C>(#[trigger] es[i]) == h,
    ensures
        entries_max_height::<C>(es) == h,
    decreases es,
{
    if es.len() == 1 {
        assert(entry_height::<C>(es[0]) == h);
        assert(es[0] == es.last());
        assert(es.drop_last().len() == 0);
        assert(entries_max_height::<C>(es.drop_last()) == 0);
    } else {
        assert forall|i: int|
            0 <= i < es.drop_last().len() implies entry_height::<C>(#[trigger] es.drop_last()[i])
            == h by {
            assert(es.drop_last()[i] == es[i]);
        }
        lemma_max_height_uniform::<C>(es.drop_last(), h);
        assert(entry_height::<C>(es[es.len() - 1]) == h);
        assert(es.last() == es[es.len() - 1]);
    }
}

/// Under well-formedness, an entry is childless exactly when its height
/// is zero.
pub proof fn lemma_childless_iff_height_zero<C: CFeature>(e: SEntry<C::V>)
    ensures
        (e.child is None) <==> entry_height::<C>(e) == 0,
{
}

/// One side of a split: well formed, ordered as before, bounded in
/// length, and partitioning the points with the other side.
pub proof fn lemma_split_side<C: CFeature>(
    es: Seq<SEntry<C::V>>,
    li: int,
    ri: int,
    n_: int,
    h: nat,
    dim: int,
    cfg: SpecConfig,
)
    requires
        dim >= 0,
        entries_wf::<C>(es, dim, cfg),
        0 <= li < ri < es.len(),
        0 <= n_ <= es.len(),
        forall|i: int| 0 <= i < es.len() ==> entry_height::<C>(#[trigger] es[i]) == h,
    ensures
        ({
            let l = split_side::<C>(es, li, ri, true, n_);
            let r = split_side::<C>(es, li, ri, false, n_);
            &&& entries_wf::<C>(l, dim, cfg)
            &&& entries_wf::<C>(r, dim, cfg)
            &&& forall|j: int| 0 <= j < l.len() ==> entry_height::<C>(#[trigger] l[j]) == h
            &&& forall|j: int| 0 <= j < r.len() ==> entry_height::<C>(#[trigger] r[j]) == h
            &&& l.len() + r.len() == n_
            &&& entries_points::<C>(l) + entries_points::<C>(r) == entries_points::<C>(
                es.take(n_),
            )
            &&& (li < n_ ==> l.len() >= 1)
            &&& (ri < n_ ==> r.len() >= 1)
            &&& (ri < n_ ==> l.len() <= n_ - 1)
            &&& (li < n_ ==> r.len() <= n_ - 1)
            &&& entries_points::<C>(l) >= 0
            &&& entries_points::<C>(r) >= 0
        }),
    decreases n_,
{
    lemma_entries_wf_index::<C>(es, dim, cfg);
    let l = split_side::<C>(es, li, ri, true, n_);
    let r = split_side::<C>(es, li, ri, false, n_);
    if n_ <= 0 {
        assert(es.take(0) =~= Seq::<SEntry<C::V>>::empty());
        lemma_entries_sizes::<C>(l, dim, cfg);
        lemma_entries_sizes::<C>(r, dim, cfg);
    } else {
        lemma_split_side::<C>(es, li, ri, n_ - 1, h, dim, cfg);
        let lp = split_side::<C>(es, li, ri, true, n_ - 1);
        let rp = split_side::<C>(es, li, ri, false, n_ - 1);
        let e = es[n_ - 1];
        assert(entry_wf::<C>(e, dim, cfg));
        assert(es.take(n_).drop_last() =~= es.take(n_ - 1));
        assert(es.take(n_).last() == e);
        lemma_entry_sizes::<C>(e, dim, cfg);
        if goes_left::<C>(es, li, ri, n_ - 1) {
            assert(l == lp.push(e));
            assert(r == rp);
            lemma_entries_wf_push::<C>(lp, e, dim, cfg);
            lemma_entries_points_push::<C>(lp, e);
            assert forall|j: int| 0 <= j < l.len() implies entry_height::<C>(#[trigger] l[j])
                == h by {
                if j < lp.len() {
                    assert(l[j] == lp[j]);
                } else {
                    assert(l[j] == e);
                }
            }
        } else {
            assert(r == rp.push(e));
            assert(l == lp);
            lemma_entries_wf_push::<C>(rp, e, dim, cfg);
            lemma_entries_points_push::<C>(rp, e);
            assert forall|j: int| 0 <= j < r.len() implies entry_height::<C>(#[trigger] r[j])
                == h by {
                if j < rp.len() {
                    assert(r[j] == rp[j]);
                } else {
                    assert(r[j] == e);
                }
            }
        }
        lemma_entries_sizes::<C>(l, dim, cfg);
        lemma_entries_sizes::<C>(r, dim, cfg);
    }
}

/// What every insertion outcome guarantees: the sides are well formed,
/// non-empty, of the original height, and together hold exactly one more
/// point than the original node.
pub open spec fn insertion_ok<C: CFeature>(
    r: SIns<C::V>,
    n: SNode<C::V>,
    dim: int,
    cfg: SpecConfig,
) -> bool {
    match r {
        SIns::Single(m) => {
            &&& node_wf::<C>(m, dim, cfg)
            &&& m.entries.len() >= 1
            &&& node_points::<C>(m) == node_points::<C>(n) + 1
            &&& node_height::<C>(m) == node_height::<C>(n)
        },
        SIns::Split(l, r2) => {
            &&& node_wf::<C>(l, dim, cfg)
            &&& node_wf::<C>(r2, dim, cfg)
            &&& l.entries.len() >= 1
            &&& r2.entries.len() >= 1
            &&& node_points::<C>(l) + node_points::<C>(r2) == node_points::<C>(n) + 1
            &&& node_height::<C>(l) == node_height::<C>(n)
            &&& node_height::<C>(r2) == node_height::<C>(n)
        },
    }
}

/// The split check turns one node of tolerable overflow into one or two
/// well-formed nodes of the same height holding the same points.
pub proof fn lemma_check_split<C: CFeature>(n: SNode<C::V>, dim: int, h: nat, cfg: SpecConfig)
    requires
        dim >= 0,
        cfg.valid(),
        entries_wf::<C>(n.entries, dim, cfg),
        1 <= n.entries.len() <= applicable_max::<C>(n, cfg) + 1,
        forall|i: int| 0 <= i < n.entries.len() ==> entry_height::<C>(#[trigger] n.entries[i]) == h,
        entries_points::<C>(n.entries) <= usize::MAX,
    ensures
        ({
            match spec_check_split::<C>(n, cfg) {
                SIns::Single(m) => {
                    &&& m == n
                    &&& node_wf::<C>(m, dim, cfg)
                    &&& node_points::<C>(m) == node_points::<C>(n)
                    &&& node_height::<C>(m) == node_height::<C>(n)
                },
                SIns::Split(l, r) => {
                    &&& node_wf::<C>(l, dim, cfg)
                    &&& node_wf::<C>(r, dim, cfg)
                    &&& l.entries.len() >= 1
                    &&& r.entries.len() >= 1
                    &&& node_points::<C>(l) + node_points::<C>(r) == node_points::<C>(n)
                    &&& node_height::<C>(l) == node_height::<C>(n)
                    &&& node_height::<C>(r) == node_height::<C>(n)
                },
            }
        }),
{
    let es = n.entries;
    let len = es.len() as int;
    lemma_entries_wf_index::<C>(es, dim, cfg);
    lemma_entries_sizes::<C>(es, dim, cfg);
    lemma_max_height_uniform::<C>(es, h);
    if len >= applicable_max::<C>(n, cfg) {
        lemma_farthest_bounds::<C>(es);
        let pr = farthest_pair::<C>(es);
        lemma_split_side::<C>(es, pr.0, pr.1, len, h, dim, cfg);
        let l = SNode::<C::V> { entries: split_side::<C>(es, pr.0, pr.1, true, len) };
        let r = SNode::<C::V> { entries: split_side::<C>(es, pr.0, pr.1, false, len) };
        assert(es.take(len) =~= es);
        lemma_entries_sizes::<C>(l.entries, dim, cfg);
        lemma_entries_sizes::<C>(r.entries, dim, cfg);
        lemma_max_height_uniform::<C>(l.entries, h);
        lemma_max_height_uniform::<C>(r.entries, h);
        // Each side is a leaf exactly when the original node was one.
        if h == 0 {
            assert forall|j: int| 0 <= j < l.entries.len() implies (#[trigger] l.entries[j].child)
                is None by {
                lemma_childless_iff_height_zero::<C>(l.entries[j]);
            }
            assert forall|j: int| 0 <= j < r.entries.len() implies (#[trigger] r.entries[j].child)
                is None by {
                lemma_childless_iff_height_zero::<C>(r.entries[j]);
            }
            assert forall|i: int| 0 <= i < es.len() implies (#[trigger] es[i].child) is None by {
                lemma_childless_iff_height_zero::<C>(es[i]);
            }
            assert(is_leaf::<C>(n));
            assert(is_leaf::<C>(l));
            assert(is_leaf::<C>(r));
        } else {
            lemma_childless_iff_height_zero::<C>(es[0]);
            assert(!is_leaf::<C>(n));
            lemma_childless_iff_height_zero::<C>(l.entries[0]);
            assert(!is_leaf::<C>(l));
            lemma_childless_iff_height_zero::<C>(r.entries[0]);
            assert(!is_leaf::<C>(r));
        }
        assert(node_wf::<C>(l, dim, cfg));
        assert(node_wf::<C>(r, dim, cfg));
    }
}

/// The insertion protocol sends every well-formed node with room for one
/// more point to a well-formed outcome: [`insertion_ok`].
pub proof fn lemma_spec_insert<C: CFeature>(n: SNode<C::V>, p: Seq<int>, cfg: SpecConfig)
    requires
        cfg.valid(),
        crate::point::pt_in_range(p),
        node_wf::<C>(n, p.len() as int, cfg),
        node_points::<C>(n) + 1 <= usize::MAX,
    ensures
        insertion_ok::<C>(spec_insert::<C>(n, p, cfg), n, p.len() as int, cfg),
    decreases n,
{
    let dim = p.len() as int;
    let es = n.entries;
    let len = es.len() as int;
    lemma_entries_wf_index::<C>(es, dim, cfg);
    lemma_entries_sizes::<C>(es, dim, cfg);
    if len == 0 {
        C::lem_zero(dim);
        C::lem_add_pt(C::v_zero(dim), p);
        C::lem_singleton_diam2(p);
        let e = SEntry::<C::V> { feature: v_from_pt::<C>(p), child: None };
        assert(entry_wf::<C>(e, dim, cfg));
        let m = SNode::<C::V> { entries: seq![e] };
        assert(m.entries.len() == 1);
        assert(m.entries.drop_last() =~= Seq::<SEntry<C::V>>::empty());
        assert(m.entries.last() == e);
        assert(entries_wf::<C>(Seq::<SEntry<C::V>>::empty(), dim, cfg));
        assert(entries_points::<C>(Seq::<SEntry<C::V>>::empty()) == 0);
        assert(entries_wf::<C>(m.entries, dim, cfg));
        assert(entry_height::<C>(e) == 0);
        lemma_max_height_uniform::<C>(m.entries, 0);
        assert(entries_max_height::<C>(es) == 0);
        assert(is_leaf::<C>(m));
        assert(entries_points::<C>(m.entries) == entry_points::<C>(e));
        assert(node_wf::<C>(m, dim, cfg));
    } else {
        lemma_closest_upto_bounds::<C>(es, p, len);
        let i = closest_entry::<C>(es, p);
        let h = entry_height::<C>(es[0]);
        assert(entry_height::<C>(es[i]) == h);
        assert(entry_wf::<C>(es[i], dim, cfg));
        lemma_entry_points_le::<C>(es, i, dim, cfg);
        match es[i].child {
            Some(c) => {
                lemma_childless_iff_height_zero::<C>(es[i]);
                assert(!is_leaf::<C>(n));
                assert(len <= cfg.node_max);
                assert(node_points::<C>(c) == entry_points::<C>(es[i]));
                assert(decreases_to!(n => n.entries[i].child->0));
                lemma_spec_insert::<C>(c, p, cfg);
                lemma_max_height_uniform::<C>(es, h);
                match spec_insert::<C>(c, p, cfg) {
                    SIns::Single(c2) => {
                        lemma_entries_wf_index::<C>(c2.entries, dim, cfg);
                        lemma_entries_sizes::<C>(c2.entries, dim, cfg);
                        lemma_fold_inv::<C>(c2.entries, dim);
                        let e2 = SEntry::<C::V> {
                            feature: fold_features::<C>(c2.entries, dim),
                            child: Some(c2),
                        };
                        assert(entry_wf::<C>(e2, dim, cfg));
                        let m = SNode::<C::V> { entries: es.update(i, e2) };
                        lemma_entries_wf_update::<C>(es, i, e2, dim, cfg);
                        lemma_entries_points_update::<C>(es, i, e2);
                        assert(entry_height::<C>(e2) == h);
                        assert forall|j: int|
                            0 <= j < m.entries.len() implies entry_height::<C>(
                            #[trigger] m.entries[j],
                        ) == h by {
                            if j != i {
                                assert(m.entries[j] == es[j]);
                            }
                        }
                        lemma_max_height_uniform::<C>(m.entries, h);
                        assert(m.entries[i].child is Some);
                        assert(!is_leaf::<C>(m));
                        assert(node_wf::<C>(m, dim, cfg));
                    },
                    SIns::Split(l, r) => {
                        lemma_entries_wf_index::<C>(l.entries, dim, cfg);
                        lemma_entries_sizes::<C>(l.entries, dim, cfg);
                        lemma_fold_inv::<C>(l.entries, dim);
                        lemma_entries_wf_index::<C>(r.entries, dim, cfg);
                        lemma_entries_sizes::<C>(r.entries, dim, cfg);
                        lemma_fold_inv::<C>(r.entries, dim);
                        let e_l = SEntry::<C::V> {
                            feature: fold_features::<C>(l.entries, dim),
                            child: Some(l),
                        };
                        let e_r = SEntry::<C::V> {
                            feature: fold_features::<C>(r.entries, dim),
                            child: Some(r),
                        };
                        assert(entry_wf::<C>(e_l, dim, cfg));
                        assert(entry_wf::<C>(e_r, dim, cfg));
                        let updated = es.update(i, e_l).push(e_r);
                        lemma_entries_wf_update::<C>(es, i, e_l, dim, cfg);
                        lemma_entries_wf_push::<C>(es.update(i, e_l), e_r, dim, cfg);
                        lemma_entries_points_update::<C>(es, i, e_l);
                        lemma_entries_points_push::<C>(es.update(i, e_l), e_r);
                        let m = SNode::<C::V> { entries: updated };
                        assert(entry_height::<C>(e_l) == h);
                        assert(entry_height::<C>(e_r) == h);
                        assert forall|j: int|
                            0 <= j < m.entries.len() implies entry_height::<C>(
                            #[trigger] m.entries[j],
                        ) == h by {
                            if j < es.len() && j != i {
                                assert(m.entries[j] == es[j]);
                            }
                        }
                        assert(m.entries[i] == e_l);
                        assert(m.entries[i].child is Some);
                        assert(!is_leaf::<C>(m));
                        assert(applicable_max::<C>(m, cfg) == cfg.node_max);
                        assert(entries_points::<C>(m.entries) == node_points::<C>(n) + 1);
                        lemma_check_split::<C>(m, dim, h, cfg);
                        lemma_max_height_uniform::<C>(m.entries, h);
                    },
                }
            },
            None => {
                lemma_childless_iff_height_zero::<C>(es[i]);
                assert(h == 0);
                assert forall|j: int| 0 <= j < es.len() implies (#[trigger] es[j].child)
                    is None by {
                    lemma_childless_iff_height_zero::<C>(es[j]);
                }
                assert(is_leaf::<C>(n));
                assert(len <= cfg.leaf_max);
                lemma_max_height_uniform::<C>(es, 0);
                C::lem_size_bounds(es[i].feature);
                C::lem_add_pt(es[i].feature, p);
                let f2 = C::v_add_pt(es[i].feature, p);
                if C::v_diam2(f2) <= cfg.threshold {
                    let e2 = SEntry::<C::V> { feature: f2, child: None };
                    assert(entry_wf::<C>(e2, dim, cfg));
                    let m = SNode::<C::V> { entries: es.update(i, e2) };
                    lemma_entries_wf_update::<C>(es, i, e2, dim, cfg);
                    lemma_entries_points_update::<C>(es, i, e2);
                    assert forall|j: int|
                        0 <= j < m.entries.len() implies entry_height::<C>(
                        #[trigger] m.entries[j],
                    ) == 0 by {
                        if j != i {
                            assert(m.entries[j] == es[j]);
                        }
                    }
                    lemma_max_height_uniform::<C>(m.entries, 0);
                    assert forall|j: int| 0 <= j < m.entries.len() implies (
                    #[trigger] m.entries[j].child) is None by {
                        if j != i {
                            assert(m.entries[j] == es[j]);
                        }
                    }
                    assert(is_leaf::<C>(m));
                    assert(node_wf::<C>(m, dim, cfg));
                } else {
                    C::lem_zero(dim);
                    C::lem_add_pt(C::v_zero(dim), p);
                    C::lem_singleton_diam2(p);
                    let e_new = SEntry::<C::V> { feature: v_from_pt::<C>(p), child: None };
                    assert(entry_wf::<C>(e_new, dim, cfg));
                    let pushed = es.push(e_new);
                    lemma_entries_wf_push::<C>(es, e_new, dim, cfg);
                    lemma_entries_points_push::<C>(es, e_new);
                    let m = SNode::<C::V> { entries: pushed };
                    assert forall|j: int|
                        0 <= j < m.entries.len() implies entry_height::<C>(
                        #[trigger] m.entries[j],
                    ) == 0 by {
                        if j < es.len() {
                            assert(m.entries[j] == es[j]);
                        } else {
                            assert(m.entries[j] == e_new);
                        }
                    }
                    assert forall|j: int| 0 <= j < m.entries.len() implies (
                    #[trigger] m.entries[j].child) is None by {
                        if j < es.len() {
                            assert(m.entries[j] == es[j]);
                        } else {
                            assert(m.entries[j] == e_new);
                        }
                    }
                    assert(is_leaf::<C>(m));
                    assert(applicable_max::<C>(m, cfg) == cfg.leaf_max);
                    assert(entries_points::<C>(m.entries) == node_points::<C>(n) + 1);
                    lemma_check_split::<C>(m, dim, 0, cfg);
                    lemma_max_height_uniform::<C>(m.entries, 0);
                }
            },
        }
    }
}

/// Root promotion keeps the tree well formed: the root grows by one
/// level exactly when the old root split.
pub proof fn lemma_promote<C: CFeature>(r: SIns<C::V>, n: SNode<C::V>, dim: int, cfg: SpecConfig)
    requires
        dim >= 0,
        cfg.valid(),
        insertion_ok::<C>(r, n, dim, cfg),
        node_points::<C>(n) + 1 <= usize::MAX,
    ensures
        ({
            let m = spec_promote::<C>(r, dim);
            &&& node_wf::<C>(m, dim, cfg)
            &&& m.entries.len() >= 1
            &&& node_points::<C>(m) == node_points::<C>(n) + 1
            &&& node_height::<C>(n) <= node_height::<C>(m) <= node_height::<C>(n) + 1
        }),
{
    match r {
        SIns::Single(m) => {},
        SIns::Split(l, r2) => {
            lemma_entries_wf_index::<C>(l.entries, dim, cfg);
            lemma_entries_sizes::<C>(l.entries, dim, cfg);
            lemma_fold_inv::<C>(l.entries, dim);
            lemma_entries_wf_index::<C>(r2.entries, dim, cfg);
            lemma_entries_sizes::<C>(r2.entries, dim, cfg);
            lemma_fold_inv::<C>(r2.entries, dim);
            let e_l = SEntry::<C::V> {
                feature: fold_features::<C>(l.entries, dim),
                child: Some(l),
            };
            let e_r = SEntry::<C::V> {
                feature: fold_features::<C>(r2.entries, dim),
                child: Some(r2),
            };
            assert(entry_wf::<C>(e_l, dim, cfg));
            assert(entry_wf::<C>(e_r, dim, cfg));
            let m = spec_promote::<C>(r, dim);
            assert(m.entries =~= seq![e_l, e_r]);
            assert(m.entries.drop_last() =~= seq![e_l]);
            assert(seq![e_l].drop_last() =~= Seq::<SEntry<C::V>>::empty());
            assert(entries_wf::<C>(Seq::<SEntry<C::V>>::empty(), dim, cfg));
            assert(entries_points::<C>(Seq::<SEntry<C::V>>::empty()) == 0);
            assert(m.entries.last() == e_r);
            assert(seq![e_l].last() == e_l);
            assert(entries_wf::<C>(seq![e_l], dim, cfg));
            assert(entries_points::<C>(seq![e_l]) == entry_points::<C>(e_l));
            assert(entries_wf::<C>(m.entries, dim, cfg));
            let h = node_height::<C>(n);
            assert(entry_height::<C>(e_l) == h);
            assert(entry_height::<C>(e_r) == h);
            assert forall|j: int|
                0 <= j < m.entries.len() implies entry_height::<C>(#[trigger] m.entries[j])
                == h by {
                if j == 0 {
                    assert(m.entries[j] == e_l);
                } else {
                    assert(m.entries[j] == e_r);
                }
            }
            lemma_max_height_uniform::<C>(m.entries, h);
            assert(m.entries[0].child is Some);
            assert(!is_leaf::<C>(m));
            assert(entries_points::<C>(m.entries) == entry_points::<C>(e_l) + entry_points::<C>(
                e_r,
            ));
            assert(node_wf::<C>(m, dim, cfg));
        },
    }
}

/// A built tree is well formed, holds exactly the inserted points, and
/// is no taller than one level per point plus the empty root.
pub proof fn lemma_spec_build<C: CFeature>(ps: Seq<Seq<int>>, dim: int, cfg: SpecConfig)
    requires
        dim >= 0,
        cfg.valid(),
        ps.len() <= usize::MAX,
        forall|i: int| 0 <= i < ps.len() ==> (#[trigger] ps[i]).len() == dim,
        forall|i: int| 0 <= i < ps.len() ==> crate::point::pt_in_range(#[trigger] ps[i]),
    ensures
        ({
            let t = spec_build::<C>(ps, dim, cfg);
            &&& node_wf::<C>(t, dim, cfg)
            &&& node_points::<C>(t) == ps.len()
            &&& node_height::<C>(t) <= ps.len() + 1
        }),
    decreases ps.len(),
{
    if ps.len() == 0 {
        let t = spec_build::<C>(ps, dim, cfg);
        assert(entries_wf::<C>(t.entries, dim, cfg));
        assert(entries_points::<C>(t.entries) == 0);
        assert(entries_max_height::<C>(t.entries) == 0);
        assert(node_wf::<C>(t, dim, cfg));
    } else {
        let prefix = ps.drop_last();
        assert forall|i: int|
            0 <= i < prefix.len() implies (#[trigger] prefix[i]).len() == dim
            && crate::point::pt_in_range(prefix[i]) by {
            assert(prefix[i] == ps[i]);
        }
        lemma_spec_build::<C>(prefix, dim, cfg);
        let t0 = spec_build::<C>(prefix, dim, cfg);
        assert(ps.last().len() == dim);
        assert(crate::point::pt_in_range(ps.last()));
        lemma_spec_insert::<C>(t0, ps.last(), cfg);
        lemma_promote::<C>(spec_insert::<C>(t0, ps.last(), cfg), t0, dim, cfg);
    }
}

/// Replacing one executable entry mirrors as replacing its view.
pub proof fn lemma_view_update<C: CFeature>(es: Seq<NodeEntry<C>>, i: int, e: NodeEntry<C>)
    requires
        0 <= i < es.len(),
    ensures
        entries_view(es.update(i, e)) == entries_view(es).update(i, entry_view(e)),
{
    lemma_entries_view(es);
    lemma_entries_view(es.update(i, e));
    assert forall|j: int|
        0 <= j < es.len() implies entries_view(es.update(i, e))[j] == entries_view(es).update(
        i,
        entry_view(e),
    )[j] by {
        if j == i {
            assert(es.update(i, e)[j] == e);
        } else {
            assert(es.update(i, e)[j] == es[j]);
        }
    }
    assert(entries_view(es.update(i, e)) =~= entries_view(es).update(i, entry_view(e)));
}

/// Appending an executable entry mirrors as appending its view.
pub proof fn lemma_view_push<C: CFeature>(es: Seq<NodeEntry<C>>, e: NodeEntry<C>)
    ensures
        entries_view(es.push(e)) == entries_view(es).push(entry_view(e)),
{
    assert(es.push(e).drop_last() =~= es);
    assert(es.push(e).last() == e);
}

/// The outcome of trying to absorb a point into one entry.
#[derive(Debug)]
pub enum EntryInsertion<P> {
    /// The entry absorbed the point.
    Success,
    /// The entry was left untouched; the point is handed back.
    Failure(P),
}

/// The outcome of inserting into a node.
#[derive(Debug)]
pub enum NodeInsertion<T> {
    /// The node absorbed the point; this is its replacement.
    Single(T),
    /// The node split; these are the two sides, left then right.
    Split(T, T),
}

/// The ghost mirror of an insertion outcome.
pub open spec fn ins_view<C: CFeature>(r: NodeInsertion<Node<C>>) -> SIns<C::V> {
    match r {
        NodeInsertion::Single(n) => SIns::Single(n@),
        NodeInsertion::Split(l, rr) => SIns::Split(l@, rr@),
    }
}

impl<C: CFeature> Node<C> {
    /// An empty node, with room reserved for one entry past the branch
    /// capacity so a transient overflow can exist before the split check.
    pub fn new<TC: TreeConfig>(config: &TC) -> (r: Node<C>)
        requires
            config.spec_config().valid(),
        ensures
            r@ == (SNode::<C::V> { entries: Seq::empty() }),
    {
        let r = Node { entries: Vec::with_capacity(config.node_capacity().max + 1) };
        proof {
            assert(r@ =~= (SNode::<C::V> { entries: Seq::empty() }));
        }
        r
    }

    /// A node owning exactly the given entries.
    pub fn with_entries(entries: Vec<NodeEntry<C>>) -> (r: Node<C>)
        ensures
            r@ == (SNode::<C::V> { entries: entries_view(entries@) }),
    {
        Node { entries }
    }

    /// The height: one more than the tallest entry; an empty node has
    /// height one.
    pub fn height(&self) -> (r: usize)
        requires
            node_height::<C>(self@) <= usize::MAX,
        ensures
            r == node_height::<C>(self@),
        decreases node_height::<C>(self@), 0int,
    {
        let n = self.entries.len();
        let mut tallest: usize = 0;
        proof {
            lemma_entries_view(self.entries@);
            assert(self@.entries.take(0) =~= Seq::<SEntry<C::V>>::empty());
        }
        for k in 0..n
            invariant
                n == self.entries@.len(),
                node_height::<C>(self@) <= usize::MAX,
                tallest == entries_max_height::<C>(self@.entries.take(k as int)),
            decreases n - k,
        {
            proof {
                lemma_entries_view(self.entries@);
                lemma_entry_height_le_max::<C>(self@.entries);
                assert(self@.entries[k as int] == entry_view(self.entries@[k as int]));
            }
            let h = self.entries[k].height();
            if h > tallest {
                tallest = h;
            }
            proof {
                assert(self@.entries.take(k + 1).drop_last() =~= self@.entries.take(k as int));
                assert(self@.entries.take(k + 1).last() == self@.entries[k as int]);
            }
        }
        proof {
            assert(self@.entries.take(n as int) =~= self@.entries);
        }
        1 + tallest
    }

    /// The fold of this node's entry summaries, left to right from the
    /// empty summary of the given dimension.
    pub fn compute_feature(&self, dim: usize) -> (r: C)
        requires
            forall|i: int|
                0 <= i < self@.entries.len() ==> C::v_inv((#[trigger] self@.entries[i]).feature),
            forall|i: int|
                0 <= i < self@.entries.len() ==> C::v_dim((#[trigger] self@.entries[i]).feature)
                    == dim,
            sum_sizes::<C>(self@.entries) <= usize::MAX,
        ensures
            r@ == fold_features::<C>(self@.entries, dim as int),
    {
        let n = self.entries.len();
        let mut acc = C::zero(dim);
        proof {
            lemma_entries_view(self.entries@);
            assert(self@.entries.take(0) =~= Seq::<SEntry<C::V>>::empty());
            C::lem_zero(dim as int);
        }
        for k in 0..n
            invariant
                n == self.entries@.len(),
                forall|i: int|
                    0 <= i < self@.entries.len() ==> C::v_inv(
                        (#[trigger] self@.entries[i]).feature,
                    ),
                forall|i: int|
                    0 <= i < self@.entries.len() ==> C::v_dim(
                        (#[trigger] self@.entries[i]).feature,
                    ) == dim,
                sum_sizes::<C>(self@.entries) <= usize::MAX,
                acc@ == fold_features::<C>(self@.entries.take(k as int), dim as int),
            decreases n - k,
        {
            proof {
                lemma_entries_view(self.entries@);
                let prefix = self@.entries.take(k as int);
                assert forall|i: int|
                    0 <= i < prefix.len() implies C::v_inv((#[trigger] prefix[i]).feature)
                    && C::v_dim(prefix[i].feature) == dim by {
                    assert(prefix[i] == self@.entries[i]);
                }
                lemma_sum_sizes_take_le::<C>(self@.entries, k as int);
                lemma_fold_inv::<C>(prefix, dim as int);
                assert(self@.entries.take(k + 1).drop_last() =~= prefix);
                assert(self@.entries.take(k + 1).last() == self@.entries[k as int]);
                lemma_sum_sizes_take_le::<C>(self@.entries, k + 1);
                C::lem_size_bounds(self@.entries[k as int].feature);
                assert(sum_sizes::<C>(self@.entries.take(k + 1)) == sum_sizes::<C>(prefix)
                    + C::v_size(self@.entries[k as int].feature));
                assert(self.entries@[k as int]@ == self@.entries[k as int]);
            }
            acc = acc.add(&self.entries[k].feature);
        }
        proof {
            assert(self@.entries.take(n as int) =~= self@.entries);
        }
        acc
    }
}

impl<C: CFeature> Node<C> {
    /// The pair of entries whose summaries lie farthest apart, scanning
    /// all unordered pairs in lexicographic order; a strictly farther
    /// pair displaces the kept one.
    fn farthest(&self, Ghost(dim): Ghost<int>) -> (r: (usize, usize))
        requires
            self@.entries.len() >= 2,
            forall|i: int|
                0 <= i < self@.entries.len() ==> C::v_inv((#[trigger] self@.entries[i]).feature),
            forall|i: int|
                0 <= i < self@.entries.len() ==> C::v_dim((#[trigger] self@.entries[i]).feature)
                    == dim,
        ensures
            r.0 < r.1 < self@.entries.len(),
            (r.0 as int, r.1 as int) == farthest_pair::<C>(self@.entries),
    {
        let ghost es = self@.entries;
        let n = self.entries.len();
        proof {
            lemma_entries_view(self.entries@);
        }
        let mut li: usize = 0;
        let mut ri: usize = 1;
        let mut best = self.entries[0].feature.dist2_cf(&self.entries[1].feature);
        let mut i: usize = 0;
        while i < n
            invariant
                n == es.len(),
                n == self.entries@.len(),
                es == self@.entries,
                forall|k: int| 0 <= k < n ==> C::v_inv((#[trigger] es[k]).feature),
                forall|k: int| 0 <= k < n ==> C::v_dim((#[trigger] es[k]).feature) == dim,
                li < ri < n,
                i <= n,
                best == C::v_dist2(es[li as int].feature, es[ri as int].feature),
                far_rows::<C>(es, i as int, (li as int, ri as int)) == farthest_pair::<C>(es),
            decreases n - i,
        {
            let mut j: usize = i + 1;
            while j < n
                invariant
                    n == es.len(),
                    n == self.entries@.len(),
                    es == self@.entries,
                    forall|k: int| 0 <= k < n ==> C::v_inv((#[trigger] es[k]).feature),
                    forall|k: int| 0 <= k < n ==> C::v_dim((#[trigger] es[k]).feature) == dim,
                    li < ri < n,
                    i < n,
                    i < j,
                    best == C::v_dist2(es[li as int].feature, es[ri as int].feature),
                    far_rows::<C>(
                        es,
                        i + 1,
                        far_row::<C>(es, i as int, j as int, (li as int, ri as int)),
                    ) == farthest_pair::<C>(es),
                decreases n - j,
            {
                proof {
                    lemma_entries_view(self.entries@);
                    assert(self.entries@[i as int]@ == es[i as int]);
                    assert(self.entries@[j as int]@ == es[j as int]);
                }
                let d = self.entries[i].feature.dist2_cf(&self.entries[j].feature);
                if d > best {
                    li = i;
                    ri = j;
                    best = d;
                }
                j = j + 1;
            }
            i = i + 1;
        }
        (li, ri)
    }

    /// Splits the node when it has reached the capacity that applies to
    /// it, and keeps it otherwise. The two sides are seeded with the
    /// farthest pair; every other entry joins the side whose seed is
    /// strictly closer, preferring the right one, in the original order.
    fn check_split<TC: TreeConfig>(self, config: &TC, Ghost(dim): Ghost<int>) -> (r: NodeInsertion<
        Node<C>,
    >)
        requires
            config.spec_config().valid(),
            dim >= 0,
            entries_wf::<C>(self@.entries, dim, config.spec_config()),
            1 <= self@.entries.len(),
            self@.entries.len() <= applicable_max::<C>(self@, config.spec_config()) + 1,
            forall|i: int|
                0 <= i < self@.entries.len() ==> entry_height::<C>(#[trigger] self@.entries[i])
                    == entry_height::<C>(self@.entries[0]),
            entries_points::<C>(self@.entries) <= usize::MAX,
        ensures
            ins_view::<C>(r) == spec_check_split::<C>(self@, config.spec_config()),
    {
        let ghost es = self@.entries;
        let ghost cfgv = config.spec_config();
        let n = self.entries.len();
        proof {
            lemma_entries_view(self.entries@);
            lemma_entries_wf_index::<C>(es, dim, cfgv);
            assert forall|j: int| 0 <= j < es.len() implies ((#[trigger] es[j].child) is None
                <==> es[0].child is None) by {
                lemma_childless_iff_height_zero::<C>(es[j]);
                lemma_childless_iff_height_zero::<C>(es[0]);
            }
        }
        let cap = if self.entries[0].child.is_none() {
            proof {
                assert(is_leaf::<C>(self@));
            }
            config.leaf_capacity().max
        } else {
            proof {
                assert(!is_leaf::<C>(self@));
            }
            config.node_capacity().max
        };
        if n < cap {
            return NodeInsertion::Single(self);
        }
        let (li, ri) = self.farthest(Ghost(dim));
        let mut flags: Vec<bool> = Vec::with_capacity(n);
        for k in 0..n
            invariant
                n == es.len(),
                n == self.entries@.len(),
                es == self@.entries,
                li < ri < n,
                (li as int, ri as int) == farthest_pair::<C>(es),
                forall|m: int| 0 <= m < es.len() ==> C::v_inv((#[trigger] es[m]).feature),
                forall|m: int| 0 <= m < es.len() ==> C::v_dim((#[trigger] es[m]).feature) == dim,
                flags@.len() == k,
                forall|m: int| 0 <= m < k ==> flags@[m] == goes_left::<C>(es, li as int, ri as int, m),
            decreases n - k,
        {
            proof {
                lemma_entries_view(self.entries@);
            }
            let f = if k == li {
                true
            } else if k == ri {
                false
            } else {
                let dl = self.entries[li].feature.dist2_cf(&self.entries[k].feature);
                let dr = self.entries[ri].feature.dist2_cf(&self.entries[k].feature);
                dl < dr
            };
            flags.push(f);
        }
        let mut rest = self.entries;
        let mut left_entries: Vec<NodeEntry<C>> = Vec::new();
        let mut right_entries: Vec<NodeEntry<C>> = Vec::new();
        proof {
            assert(rest@.skip(0) =~= rest@);
            assert(entries_view::<C>(left_entries@) =~= split_side::<C>(
                es,
                li as int,
                ri as int,
                true,
                0,
            ));
            assert(entries_view::<C>(right_entries@) =~= split_side::<C>(
                es,
                li as int,
                ri as int,
                false,
                0,
            ));
        }
        let ghost orig = rest@;
        for k in 0..n
            invariant
                n == orig.len(),
                es == entries_view::<C>(orig),
                li < ri < n,
                (li as int, ri as int) == farthest_pair::<C>(es),
                flags@.len() == n,
                forall|m: int| 0 <= m < n ==> flags@[m] == goes_left::<C>(es, li as int, ri as int, m),
                rest@ == orig.skip(k as int),
                entries_view::<C>(left_entries@) == split_side::<C>(
                    es,
                    li as int,
                    ri as int,
                    true,
                    k as int,
                ),
                entries_view::<C>(right_entries@) == split_side::<C>(
                    es,
                    li as int,
                    ri as int,
                    false,
                    k as int,
                ),
            decreases n - k,
        {
            let e = rest.remove(0);
            proof {
                assert(e == orig[k as int]);
                lemma_entries_view(orig);
                assert(e@ == es[k as int]);
                assert(orig.skip(k as int).remove(0) =~= orig.skip(k + 1));
            }
            if flags[k] {
                proof {
                    lemma_view_push::<C>(left_entries@, e);
                }
                left_entries.push(e);
            } else {
                proof {
                    lemma_view_push::<C>(right_entries@, e);
                }
                right_entries.push(e);
            }
        }
        let left = Node::with_entries(left_entries);
        let right = Node::with_entries(right_entries);
        NodeInsertion::Split(left, right)
    }
}

impl<C: CFeature> Node<C> {
    /// Inserts one point, consuming the node: the replacement node comes
    /// back, or the two sides of a split. The point descends into the
    /// first closest entry; a leaf entry absorbs it when the threshold
    /// allows, and an appended entry may split the node. A non-empty node
    /// always selects an entry.
    #[verifier::rlimit(100)]
    pub fn insert<TC: TreeConfig>(self, p: Point, config: &TC) -> (r: NodeInsertion<Node<C>>)
        requires
            config.spec_config().valid(),
            node_wf::<C>(self@, p@.len() as int, config.spec_config()),
            node_points::<C>(self@) + 1 <= usize::MAX,
        ensures
            ins_view::<C>(r) == spec_insert::<C>(self@, p@, config.spec_config()),
        decreases node_height::<C>(self@),
    {
        let ghost orig = self@;
        let ghost es = orig.entries;
        let ghost cfgv = config.spec_config();
        let ghost dim = p@.len() as int;
        let ghost pv = p@;
        proof {
            p.lemma_view_in_range();
            lemma_entries_view(self.entries@);
            lemma_entries_wf_index::<C>(es, dim, cfgv);
            lemma_entries_sizes::<C>(es, dim, cfgv);
        }
        let dim_exec = p.dim();
        let mut node = self;
        let n = node.entries.len();
        if n == 0 {
            let e = NodeEntry::<C>::with_point(p);
            proof {
                lemma_view_push::<C>(node.entries@, e);
            }
            node.entries.push(e);
            proof {
                assert(node@.entries =~= seq![
                    SEntry::<C::V> { feature: v_from_pt::<C>(pv), child: None },
                ]);
            }
            return NodeInsertion::Single(node);
        }
        let mut best: usize = 0;
        proof {
            assert(node.entries@[0]@ == es[0]);
            assert(C::v_inv(es[0].feature));
            assert(C::v_dim(es[0].feature) == dim);
        }
        let mut best_d = node.entries[0].feature.dist2_pt(&p);
        for k in 1..n
            invariant
                n == es.len(),
                n == node.entries@.len(),
                es == node@.entries,
                pv == p@,
                forall|m: int| 0 <= m < n ==> C::v_inv((#[trigger] es[m]).feature),
                forall|m: int| 0 <= m < n ==> C::v_dim((#[trigger] es[m]).feature) == dim,
                dim == pv.len() as int,
                best < k,
                k <= n,
                best as int == closest_upto::<C>(es, pv, k as int),
                best_d == C::v_dist2_pt(es[best as int].feature, pv),
            decreases n - k,
        {
            proof {
                lemma_entries_view(node.entries@);
                assert(node.entries@[k as int]@ == es[k as int]);
                assert((node.entries@[k as int].feature)@ == es[k as int].feature);
                assert(C::v_inv(es[k as int].feature));
                assert(C::v_dim(es[k as int].feature) == dim);
                assert(dim == p@.len() as int);
            }
            let d = node.entries[k].feature.dist2_pt(&p);
            if d < best_d {
                best = k;
                best_d = d;
            }
        }
        let ghost i = best as int;
        proof {
            assert(i == closest_entry::<C>(es, pv));
            lemma_closest_upto_bounds::<C>(es, pv, n as int);
            lemma_entry_points_le::<C>(es, i, dim, cfgv);
        }
        let ghost old_vec = node.entries@;
        let mut entry = node.entries.remove(best);
        proof {
            assert(entry == old_vec[i]);
            assert(entry@ == es[i]);
        }
        let child_opt = entry.child.take();
        match child_opt {
            Some(child) => {
                proof {
                    assert(es[i].child == Some(child@));
                    assert(node_wf::<C>(child@, dim, cfgv));
                    assert(node_points::<C>(child@) == entry_points::<C>(es[i]));
                    lemma_entry_height_le_max::<C>(es);
                    assert(entry_height::<C>(es[i]) == node_height::<C>(child@));
                    assert(node_height::<C>(child@) < node_height::<C>(orig));
                    lemma_spec_insert::<C>(child@, pv, cfgv);
                }
                let sub = child.insert(p, config);
                match sub {
                    NodeInsertion::Single(c2) => {
                        proof {
                            assert(spec_insert::<C>(child@, pv, cfgv) == SIns::Single(c2@));
                            assert(node_wf::<C>(c2@, dim, cfgv));
                            lemma_entries_wf_index::<C>(c2@.entries, dim, cfgv);
                            lemma_entries_sizes::<C>(c2@.entries, dim, cfgv);
                        }
                        let f = c2.compute_feature(dim_exec);
                        entry.feature = f;
                        entry.child = Some(c2);
                        node.entries.insert(best, entry);
                        proof {
                            assert(node.entries@ =~= old_vec.update(i, entry));
                            lemma_view_update::<C>(old_vec, i, entry);
                            assert(entry@ == (SEntry::<C::V> {
                                feature: fold_features::<C>(c2@.entries, dim),
                                child: Some(c2@),
                            }));
                            assert(node@ =~= (SNode::<C::V> {
                                entries: es.update(
                                    i,
                                    SEntry::<C::V> {
                                        feature: fold_features::<C>(c2@.entries, dim),
                                        child: Some(c2@),
                                    },
                                ),
                            }));
                        }
                        NodeInsertion::Single(node)
                    },
                    NodeInsertion::Split(l, r2) => {
                        proof {
                            assert(spec_insert::<C>(child@, pv, cfgv) == SIns::Split(l@, r2@));
                            assert(node_wf::<C>(l@, dim, cfgv));
                            assert(node_wf::<C>(r2@, dim, cfgv));
                            lemma_entries_wf_index::<C>(l@.entries, dim, cfgv);
                            lemma_entries_sizes::<C>(l@.entries, dim, cfgv);
                            lemma_entries_wf_index::<C>(r2@.entries, dim, cfgv);
                            lemma_entries_sizes::<C>(r2@.entries, dim, cfgv);
                            lemma_fold_inv::<C>(l@.entries, dim);
                            lemma_fold_inv::<C>(r2@.entries, dim);
                        }
                        let fl = l.compute_feature(dim_exec);
                        entry.feature = fl;
                        entry.child = Some(l);
                        node.entries.insert(best, entry);
                        let fr = r2.compute_feature(dim_exec);
                        let e_r = NodeEntry { feature: fr, child: Some(r2) };
                        proof {
                            lemma_view_push::<C>(node.entries@, e_r);
                        }
                        node.entries.push(e_r);
                        proof {
                            let ghost e_lv = SEntry::<C::V> {
                                feature: fold_features::<C>(l@.entries, dim),
                                child: Some(l@),
                            };
                            let ghost e_rv = SEntry::<C::V> {
                                feature: fold_features::<C>(r2@.entries, dim),
                                child: Some(r2@),
                            };
                            assert(node.entries@ =~= old_vec.update(i, entry).push(e_r));
                            lemma_view_update::<C>(old_vec, i, entry);
                            assert(entry@ == e_lv);
                            assert(e_r@ == e_rv);
                            lemma_view_push::<C>(old_vec.update(i, entry), e_r);
                            let ghost m_entries = es.update(i, e_lv).push(e_rv);
                            assert(node@ =~= (SNode::<C::V> { entries: m_entries }));
                            // the overfull node meets the split check's demands
                            assert(entry_wf::<C>(e_lv, dim, cfgv));
                            assert(entry_wf::<C>(e_rv, dim, cfgv));
                            lemma_entries_wf_update::<C>(es, i, e_lv, dim, cfgv);
                            lemma_entries_wf_push::<C>(es.update(i, e_lv), e_rv, dim, cfgv);
                            lemma_entries_points_update::<C>(es, i, e_lv);
                            lemma_entries_points_push::<C>(es.update(i, e_lv), e_rv);
                            let ghost h = entry_height::<C>(es[0]);
                            assert(entry_height::<C>(es[i]) == h);
                            assert(entry_height::<C>(e_lv) == h);
                            assert(entry_height::<C>(e_rv) == h);
                            assert forall|j: int|
                                0 <= j < m_entries.len() implies entry_height::<C>(
                                #[trigger] m_entries[j],
                            ) == h by {
                                if j < es.len() && j != i {
                                    assert(m_entries[j] == es[j]);
                                } else if j == i {
                                    assert(m_entries[j] == e_lv);
                                } else {
                                    assert(m_entries[j] == e_rv);
                                }
                            }
                            assert forall|j: int|
                                0 <= j < m_entries.len() implies entry_height::<C>(
                                #[trigger] m_entries[j],
                            ) == entry_height::<C>(m_entries[0]) by {}
                            assert(m_entries[i] == e_lv);
                            assert(m_entries[i].child is Some);
                            assert(!is_leaf::<C>(node@));
                            lemma_childless_iff_height_zero::<C>(es[i]);
                            assert(!is_leaf::<C>(orig));
                            assert(es.len() <= cfgv.node_max);
                            assert(applicable_max::<C>(node@, cfgv) == cfgv.node_max);
                            assert(entries_points::<C>(m_entries) == node_points::<C>(orig) + 1);
                        }
                        let out = node.check_split(config, Ghost(dim));
                        proof {
                            assert(spec_insert::<C>(orig, pv, cfgv) == spec_check_split::<C>(
                                node@,
                                cfgv,
                            ));
                        }
                        out
                    },
                }
            },
            None => {
                proof {
                    assert(es[i].child is None);
                    assert(entry@ == es[i]);
                    assert(C::v_size(es[i].feature) == entry_points::<C>(es[i]));
                }
                let outcome = entry.insert(p, config);
                match outcome {
                    EntryInsertion::Success => {
                        node.entries.insert(best, entry);
                        proof {
                            let ghost f2 = C::v_add_pt(es[i].feature, pv);
                            assert(node.entries@ =~= old_vec.update(i, entry));
                            lemma_view_update::<C>(old_vec, i, entry);
                            assert(entry@ == (SEntry::<C::V> { feature: f2, child: None }));
                            assert(node@ =~= (SNode::<C::V> {
                                entries: es.update(i, SEntry::<C::V> { feature: f2, child: None }),
                            }));
                        }
                        NodeInsertion::Single(node)
                    },
                    EntryInsertion::Failure(q) => {
                        proof {
                            q.lemma_view_in_range();
                        }
                        node.entries.insert(best, entry);
                        proof {
                            assert(entry@ == es[i]);
                            assert(node.entries@ =~= old_vec.update(i, entry));
                            lemma_view_update::<C>(old_vec, i, entry);
                            assert(node@.entries =~= es);
                            assert(node@ =~= orig);
                        }
                        let e_new = NodeEntry::<C>::with_point(q);
                        proof {
                            lemma_view_push::<C>(node.entries@, e_new);
                        }
                        node.entries.push(e_new);
                        proof {
                            let ghost e_nv = SEntry::<C::V> {
                                feature: v_from_pt::<C>(pv),
                                child: None,
                            };
                            let ghost m_entries = es.push(e_nv);
                            assert(e_new@ == e_nv);
                            assert(node@ =~= (SNode::<C::V> { entries: m_entries }));
                            C::lem_zero(dim);
                            C::lem_add_pt(C::v_zero(dim), pv);
                            C::lem_singleton_diam2(pv);
                            assert(entry_wf::<C>(e_nv, dim, cfgv));
                            lemma_entries_wf_push::<C>(es, e_nv, dim, cfgv);
                            lemma_entries_points_push::<C>(es, e_nv);
                            lemma_childless_iff_height_zero::<C>(es[i]);
                            assert(entry_height::<C>(es[i]) == 0);
                            assert(entry_height::<C>(es[0]) == 0);
                            assert forall|j: int|
                                0 <= j < m_entries.len() implies entry_height::<C>(
                                #[trigger] m_entries[j],
                            ) == 0 by {
                                if j < es.len() {
                                    assert(m_entries[j] == es[j]);
                                } else {
                                    assert(m_entries[j] == e_nv);
                                }
                            }
                            assert forall|j: int| 0 <= j < m_entries.len() implies (
                            #[trigger] m_entries[j].child) is None by {
                                lemma_childless_iff_height_zero::<C>(m_entries[j]);
                            }
                            assert(is_leaf::<C>(node@));
                            assert forall|j: int| 0 <= j < es.len() implies (#[trigger] es[j].child)
                                is None by {
                                lemma_childless_iff_height_zero::<C>(es[j]);
                            }
                            assert(is_leaf::<C>(orig));
                            assert(es.len() <= cfgv.leaf_max);
                            assert(applicable_max::<C>(node@, cfgv) == cfgv.leaf_max);
                            assert(entries_points::<C>(m_entries) == node_points::<C>(orig) + 1);
                        }
                        let out = node.check_split(config, Ghost(dim));
                        proof {
                            assert(spec_insert::<C>(orig, pv, cfgv) == spec_check_split::<C>(
                                node@,
                                cfgv,
                            ));
                        }
                        out
                    },
                }
            },
        }
    }
}

impl<C: CFeature> Node<C> {
    /// Builds a tree by inserting a stream of equal-dimension points, in
    /// order, into an initially empty root; whenever the root splits, a
    /// new two-entry root is promoted above the pair.
    pub fn from_iter<TC: TreeConfig>(points: Vec<Point>, config: &TC) -> (r: Node<C>)
        requires
            config.spec_config().valid(),
            forall|i: int|
                0 <= i < points@.len() ==> (#[trigger] points@[i])@.len() == points@[0]@.len(),
        ensures
            ({
                let pvs = points@.map_values(|q: Point| q@);
                let d = if points@.len() > 0 {
                    points@[0]@.len() as int
                } else {
                    0
                };
                &&& r@ == spec_build::<C>(pvs, d, config.spec_config())
                &&& node_wf::<C>(r@, d, config.spec_config())
                &&& node_points::<C>(r@) == points@.len()
                &&& node_height::<C>(r@) <= points@.len() + 1
            }),
    {
        let ghost cfgv = config.spec_config();
        let ghost pvs = points@.map_values(|q: Point| q@);
        let ghost d: int = if points@.len() > 0 {
            points@[0]@.len() as int
        } else {
            0
        };
        proof {
            assert forall|i: int| 0 <= i < pvs.len() implies (#[trigger] pvs[i]).len() == d
                && crate::point::pt_in_range(pvs[i]) by {
                assert(pvs[i] == points@[i]@);
                points@[i].lemma_view_in_range();
            }
        }
        let n = points.len();
        let mut rest = points;
        let mut root = Node::<C>::new(config);
        proof {
            assert(rest@ =~= points@.skip(0));
            assert(pvs.take(0) =~= Seq::<Seq<int>>::empty());
            assert(root@ == spec_build::<C>(pvs.take(0), d, cfgv));
            lemma_spec_build::<C>(pvs.take(0), d, cfgv);
        }
        for k in 0..n
            invariant
                n == pvs.len(),
                pvs == points@.map_values(|q: Point| q@),
                d >= 0,
                d == (if points@.len() > 0 {
                    points@[0]@.len() as int
                } else {
                    0
                }),
                cfgv == config.spec_config(),
                cfgv.valid(),
                forall|i: int| 0 <= i < pvs.len() ==> (#[trigger] pvs[i]).len() == d,
                forall|i: int| 0 <= i < pvs.len() ==> crate::point::pt_in_range(#[trigger] pvs[i]),
                rest@ == points@.skip(k as int),
                root@ == spec_build::<C>(pvs.take(k as int), d, cfgv),
                node_wf::<C>(root@, d, cfgv),
                node_points::<C>(root@) == k,
                node_height::<C>(root@) <= k + 1,
            decreases n - k,
        {
            let p = rest.remove(0);
            proof {
                assert(p == points@[k as int]);
                assert(p@ == pvs[k as int]);
                assert(points@.skip(k as int).remove(0) =~= points@.skip(k + 1));
                assert(p@.len() as int == d);
                lemma_spec_insert::<C>(root@, p@, cfgv);
                lemma_promote::<C>(spec_insert::<C>(root@, p@, cfgv), root@, d, cfgv);
                assert(pvs.take(k + 1).drop_last() =~= pvs.take(k as int));
                assert(pvs.take(k + 1).last() == pvs[k as int]);
            }
            let pd = p.dim();
            let ghost root_old = root@;
            match root.insert(p, config) {
                NodeInsertion::Single(m) => {
                    proof {
                        assert(spec_insert::<C>(root_old, pvs[k as int], cfgv) == SIns::Single(
                            m@,
                        ));
                        assert(spec_promote::<C>(SIns::Single(m@), d) == m@);
                    }
                    root = m;
                },
                NodeInsertion::Split(l, r2) => {
                    proof {
                        assert(spec_insert::<C>(root_old, pvs[k as int], cfgv) == SIns::Split(
                            l@,
                            r2@,
                        ));
                        assert(node_wf::<C>(l@, d, cfgv));
                        assert(node_wf::<C>(r2@, d, cfgv));
                        lemma_entries_wf_index::<C>(l@.entries, d, cfgv);
                        lemma_entries_sizes::<C>(l@.entries, d, cfgv);
                        lemma_entries_wf_index::<C>(r2@.entries, d, cfgv);
                        lemma_entries_sizes::<C>(r2@.entries, d, cfgv);
                    }
                    let fl = l.compute_feature(pd);
                    let fr = r2.compute_feature(pd);
                    let mut entries: Vec<NodeEntry<C>> = Vec::with_capacity(2);
                    let e_l = NodeEntry { feature: fl, child: Some(l) };
                    proof {
                        lemma_view_push::<C>(entries@, e_l);
                    }
                    entries.push(e_l);
                    let e_r = NodeEntry { feature: fr, child: Some(r2) };
                    proof {
                        lemma_view_push::<C>(entries@, e_r);
                    }
                    entries.push(e_r);
                    let promoted = Node::<C>::with_entries(entries);
                    proof {
                        let ghost sp = spec_promote::<C>(SIns::Split(l@, r2@), d);
                        assert(entries_view::<C>(Seq::<NodeEntry<C>>::empty())
                            =~= Seq::<SEntry<C::V>>::empty());
                        assert(promoted@.entries =~= sp.entries);
                        assert(promoted@ =~= sp);
                    }
                    root = promoted;
                },
            }
        }
        proof {
            assert(pvs.take(n as int) =~= pvs);
        }
        root
    }
}

impl<C: CFeature> NodeEntry<C> {
    /// A leaf entry summarizing one point.
    pub fn with_point(orig: Point) -> (r: NodeEntry<C>)
        ensures
            r@ == (SEntry::<C::V> { feature: v_from_pt::<C>(orig@), child: None }),
    {
        NodeEntry { feature: C::from_point(&orig), child: None }
    }

    /// The height of the entry: its child's height, or zero.
    pub fn height(&self) -> (r: usize)
        requires
            entry_height::<C>(self@) <= usize::MAX,
        ensures
            r == entry_height::<C>(self@),
        decreases entry_height::<C>(self@), 1int,
    {
        match &self.child {
            Some(c) => c.height(),
            None => 0,
        }
    }

    /// Tries to absorb the point into this entry's summary: the summary
    /// is replaced iff its absorbed dispersion stays within the
    /// threshold, and the point is handed back untouched otherwise.
    pub fn insert<TC: TreeConfig>(&mut self, p: Point, config: &TC) -> (r: EntryInsertion<Point>)
        requires
            C::v_inv(old(self)@.feature),
            C::v_dim(old(self)@.feature) == p@.len(),
            C::v_size(old(self)@.feature) + 1 <= usize::MAX,
        ensures
            ({
                let f2 = C::v_add_pt(old(self)@.feature, p@);
                if C::v_diam2(f2) <= config.spec_config().threshold {
                    &&& r is Success
                    &&& final(self)@ == (SEntry { feature: f2, child: old(self)@.child })
                } else {
                    &&& r matches EntryInsertion::Failure(q) && q@ == p@
                    &&& final(self)@ == old(self)@
                }
            }),
    {
        let feature_with_point = self.feature.add_point(&p);
        proof {
            p.lemma_view_in_range();
            C::lem_add_pt(self@.feature, p@);
        }
        if feature_with_point.diam2() <= config.threshold() {
            self.feature = feature_with_point;
            EntryInsertion::Success
        } else {
            EntryInsertion::Failure(p)
        }
    }
}

} // verus!
