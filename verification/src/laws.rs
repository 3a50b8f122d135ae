//! The engine's structural laws, stated and proved over the tree mirror.
//!
//! Each law quantifies over every tree that the builder can produce: the
//! well-formedness that insertion maintains is unfolded here into the
//! separately named guarantees — balance, leaf threshold, count
//! conservation, feature consistency and the capacity bound — together
//! with the identity laws of the summary algebra and the degeneracy of a
//! stream that repeats one point.

use vstd::prelude::*;

verus! {

use crate::cfeature::CFeature;
use crate::cfeature::betula;
use crate::cfeature::birch;
use crate::cfeature::birch::BirchView;
use crate::cfeature::betula::BetulaView;
use crate::cftree::SEntry;
use crate::cftree::SNode;
use crate::cftree::SpecConfig;
use crate::cftree::entries_wf;
use crate::cftree::entry_height;
use crate::cftree::entry_wf;
use crate::cftree::fold_features;
use crate::cftree::applicable_max;
use crate::cftree::lemma_entries_wf_index;
use crate::cftree::lemma_max_height_uniform;
use crate::cftree::node_height;
use crate::cftree::node_points;
use crate::cftree::node_wf;
use crate::cftree::spec_build;
use crate::point::pt_in_range;

/// Every leaf entry below this entry lies exactly `d` levels under it.
pub open spec fn entry_leaves_at<C: CFeature>(e: SEntry<C::V>, d: nat) -> bool
    decreases e,
{
    match e.child {
        None => d == 0,
        Some(c) => d >= 1 && node_leaves_at::<C>(c, (d - 1) as nat),
    }
}

/// See [`entry_leaves_at`], over a sequence of entries.
pub open spec fn entries_leaves_at<C: CFeature>(es: Seq<SEntry<C::V>>, d: nat) -> bool
    decreases es,
{
    if es.len() == 0 {
        true
    } else {
        entries_leaves_at::<C>(es.drop_last(), d) && entry_leaves_at::<C>(es.last(), d)
    }
}

/// Every leaf entry of the node lies exactly `d` levels below it.
pub open spec fn node_leaves_at<C: CFeature>(n: SNode<C::V>, d: nat) -> bool
    decreases n,
{
    entries_leaves_at::<C>(n.entries, d)
}

/// Every leaf entry's summary stays within the threshold, at any depth.
pub open spec fn entry_leaf_diam_ok<C: CFeature>(e: SEntry<C::V>, t: int) -> bool
    decreases e,
{
    match e.child {
        None => C::v_diam2(e.feature) <= t,
        Some(c) => node_leaf_diam_ok::<C>(c, t),
    }
}

/// See [`entry_leaf_diam_ok`], over a sequence of entries.
pub open spec fn entries_leaf_diam_ok<C: CFeature>(es: Seq<SEntry<C::V>>, t: int) -> bool
    decreases es,
{
    if es.len() == 0 {
        true
    } else {
        entries_leaf_diam_ok::<C>(es.drop_last(), t) && entry_leaf_diam_ok::<C>(es.last(), t)
    }
}

/// See [`entry_leaf_diam_ok`], over a whole node.
pub open spec fn node_leaf_diam_ok<C: CFeature>(n: SNode<C::V>, t: int) -> bool
    decreases n,
{
    entries_leaf_diam_ok::<C>(n.entries, t)
}

/// Every internal entry's summary equals the fold of its child's entry
/// summaries, at any depth.
pub open spec fn entry_consistent<C: CFeature>(e: SEntry<C::V>, dim: int) -> bool
    decreases e,
{
    match e.child {
        None => true,
        Some(c) => e.feature == fold_features::<C>(c.entries, dim) && node_consistent::<C>(c, dim),
    }
}

/// See [`entry_consistent`], over a sequence of entries.
pub open spec fn entries_consistent<C: CFeature>(es: Seq<SEntry<C::V>>, dim: int) -> bool
    decreases es,
{
    if es.len() == 0 {
        true
    } else {
        entries_consistent::<C>(es.drop_last(), dim) && entry_consistent::<C>(es.last(), dim)
    }
}

/// See [`entry_consistent`], over a whole node.
pub open spec fn node_consistent<C: CFeature>(n: SNode<C::V>, dim: int) -> bool
    decreases n,
{
    entries_consistent::<C>(n.entries, dim)
}

/// Every node holds at most the entry capacity that applies to it, at
/// any depth.
pub open spec fn entry_within_capacity<C: CFeature>(e: SEntry<C::V>, cfg: SpecConfig) -> bool
    decreases e,
{
    match e.child {
        None => true,
        Some(c) => node_within_capacity::<C>(c, cfg),
    }
}

/// See [`entry_within_capacity`], over a sequence of entries.
pub open spec fn entries_within_capacity<C: CFeature>(es: Seq<SEntry<C::V>>, cfg: SpecConfig) -> bool
    decreases es,
{
    if es.len() == 0 {
        true
    } else {
        entries_within_capacity::<C>(es.drop_last(), cfg) && entry_within_capacity::<C>(
            es.last(),
            cfg,
        )
    }
}

/// See [`entry_within_capacity`], over a whole node.
pub open spec fn node_within_capacity<C: CFeature>(n: SNode<C::V>, cfg: SpecConfig) -> bool
    decreases n,
{
    entries_within_capacity::<C>(n.entries, cfg) && n.entries.len() <= applicable_max::<C>(n, cfg)
}

/// Balance: in a well-formed tree every leaf entry lies at one depth,
/// namely one less than the tree's height.
pub proof fn lemma_balanced<C: CFeature>(n: SNode<C::V>, dim: int, cfg: SpecConfig)
    requires
        dim >= 0,
        cfg.valid(),
        node_wf::<C>(n, dim, cfg),
    ensures
        node_leaves_at::<C>(n, (node_height::<C>(n) - 1) as nat),
    decreases n,
{
    let es = n.entries;
    let h = node_height::<C>(n);
    lemma_entries_wf_index::<C>(es, dim, cfg);
    if es.len() == 0 {
    } else {
        assert(forall|i: int|
            0 <= i < es.len() ==> entry_height::<C>(#[trigger] es[i]) == entry_height::<C>(
                es[0],
            ));
        lemma_max_height_uniform::<C>(es, entry_height::<C>(es[0]));
        assert(h == 1 + entry_height::<C>(es[0]));
        lemma_balanced_entries::<C>(es, dim, cfg, (h - 1) as nat);
    }
}

/// See [`lemma_balanced`]: the induction over a suffix of the entries.
proof fn lemma_balanced_entries<C: CFeature>(
    es: Seq<SEntry<C::V>>,
    dim: int,
    cfg: SpecConfig,
    d: nat,
)
    requires
        dim >= 0,
        cfg.valid(),
        entries_wf::<C>(es, dim, cfg),
        forall|i: int| 0 <= i < es.len() ==> entry_height::<C>(#[trigger] es[i]) == d,
    ensures
        entries_leaves_at::<C>(es, d),
    decreases es,
{
    if es.len() > 0 {
        assert forall|i: int|
            0 <= i < es.drop_last().len() implies entry_height::<C>(#[trigger] es.drop_last()[i])
            == d by {
            assert(es.drop_last()[i] == es[i]);
        }
        lemma_balanced_entries::<C>(es.drop_last(), dim, cfg, d);
        let e = es.last();
        assert(entry_height::<C>(es[es.len() - 1]) == d);
        match e.child {
            None => {
                assert(d == 0);
                assert(entry_leaves_at::<C>(e, d));
            },
            Some(c) => {
                assert(entry_wf::<C>(e, dim, cfg));
                assert(node_wf::<C>(c, dim, cfg));
                assert(entries_wf::<C>(c.entries, dim, cfg));
                assert(c.entries.len() >= 1);
                assert(node_height::<C>(c) == d);
                lemma_entries_wf_index::<C>(c.entries, dim, cfg);
                assert(forall|i: int|
                    0 <= i < c.entries.len() ==> entry_height::<C>(#[trigger] c.entries[i])
                        == entry_height::<C>(c.entries[0]));
                lemma_max_height_uniform::<C>(c.entries, entry_height::<C>(c.entries[0]));
                assert(d == 1 + entry_height::<C>(c.entries[0]));
                assert(d >= 1);
                lemma_balanced_entries::<C>(c.entries, dim, cfg, (d - 1) as nat);
                assert(node_leaves_at::<C>(c, (d - 1) as nat));
                assert(entry_leaves_at::<C>(e, d));
            },
        }
        assert(entries_leaves_at::<C>(es.drop_last(), d) && entry_leaves_at::<C>(es.last(), d));
    }
}

/// Leaf threshold: in a well-formed tree every leaf entry's dispersion
/// stays within the configured threshold.
pub proof fn lemma_leaf_threshold<C: CFeature>(n: SNode<C::V>, dim: int, cfg: SpecConfig)
    requires
        dim >= 0,
        cfg.valid(),
        node_wf::<C>(n, dim, cfg),
    ensures
        node_leaf_diam_ok::<C>(n, cfg.threshold),
    decreases n,
{
    lemma_leaf_threshold_entries::<C>(n.entries, dim, cfg);
}

/// See [`lemma_leaf_threshold`].
proof fn lemma_leaf_threshold_entries<C: CFeature>(
    es: Seq<SEntry<C::V>>,
    dim: int,
    cfg: SpecConfig,
)
    requires
        dim >= 0,
        cfg.valid(),
        entries_wf::<C>(es, dim, cfg),
    ensures
        entries_leaf_diam_ok::<C>(es, cfg.threshold),
    decreases es,
{
    if es.len() > 0 {
        lemma_leaf_threshold_entries::<C>(es.drop_last(), dim, cfg);
        assert(entry_wf::<C>(es.last(), dim, cfg));
        match es.last().child {
            None => {
                assert(entry_leaf_diam_ok::<C>(es.last(), cfg.threshold));
            },
            Some(c) => {
                assert(node_wf::<C>(c, dim, cfg));
                assert(entries_wf::<C>(c.entries, dim, cfg));
                lemma_leaf_threshold_entries::<C>(c.entries, dim, cfg);
                assert(node_leaf_diam_ok::<C>(c, cfg.threshold));
                assert(entry_leaf_diam_ok::<C>(es.last(), cfg.threshold));
            },
        }
    }
}

/// Count conservation: a tree built from any stream holds, summed over
/// its leaf summaries, exactly as many points as were inserted.
pub proof fn lemma_count_conservation<C: CFeature>(ps: Seq<Seq<int>>, dim: int, cfg: SpecConfig)
    requires
        dim >= 0,
        cfg.valid(),
        ps.len() <= usize::MAX,
        forall|i: int| 0 <= i < ps.len() ==> (#[trigger] ps[i]).len() == dim,
        forall|i: int| 0 <= i < ps.len() ==> pt_in_range(#[trigger] ps[i]),
    ensures
        node_points::<C>(spec_build::<C>(ps, dim, cfg)) == ps.len(),
{
    crate::cftree::lemma_spec_build::<C>(ps, dim, cfg);
}

/// Feature consistency: in a well-formed tree every internal entry's
/// summary is exactly the fold of its child's entry summaries.
pub proof fn lemma_feature_consistency<C: CFeature>(n: SNode<C::V>, dim: int, cfg: SpecConfig)
    requires
        dim >= 0,
        cfg.valid(),
        node_wf::<C>(n, dim, cfg),
    ensures
        node_consistent::<C>(n, dim),
    decreases n,
{
    lemma_feature_consistency_entries::<C>(n.entries, dim, cfg);
}

/// See [`lemma_feature_consistency`].
proof fn lemma_feature_consistency_entries<C: CFeature>(
    es: Seq<SEntry<C::V>>,
    dim: int,
    cfg: SpecConfig,
)
    requires
        dim >= 0,
        cfg.valid(),
        entries_wf::<C>(es, dim, cfg),
    ensures
        entries_consistent::<C>(es, dim),
    decreases es,
{
    if es.len() > 0 {
        lemma_feature_consistency_entries::<C>(es.drop_last(), dim, cfg);
        assert(entry_wf::<C>(es.last(), dim, cfg));
        match es.last().child {
            None => {
                assert(entry_consistent::<C>(es.last(), dim));
            },
            Some(c) => {
                assert(node_wf::<C>(c, dim, cfg));
                assert(entries_wf::<C>(c.entries, dim, cfg));
                lemma_feature_consistency_entries::<C>(c.entries, dim, cfg);
                assert(node_consistent::<C>(c, dim));
                assert(entry_consistent::<C>(es.last(), dim));
            },
        }
    }
}

/// Capacity bound: in a well-formed tree every node holds at most the
/// maximum that applies to it.
pub proof fn lemma_capacity_bound<C: CFeature>(n: SNode<C::V>, dim: int, cfg: SpecConfig)
    requires
        dim >= 0,
        cfg.valid(),
        node_wf::<C>(n, dim, cfg),
    ensures
        node_within_capacity::<C>(n, cfg),
    decreases n,
{
    lemma_capacity_bound_entries::<C>(n.entries, dim, cfg);
}

/// See [`lemma_capacity_bound`].
proof fn lemma_capacity_bound_entries<C: CFeature>(es: Seq<SEntry<C::V>>, dim: int, cfg: SpecConfig)
    requires
        dim >= 0,
        cfg.valid(),
        entries_wf::<C>(es, dim, cfg),
    ensures
        entries_within_capacity::<C>(es, cfg),
    decreases es,
{
    if es.len() > 0 {
        lemma_capacity_bound_entries::<C>(es.drop_last(), dim, cfg);
        assert(entry_wf::<C>(es.last(), dim, cfg));
        match es.last().child {
            None => {
                assert(entry_within_capacity::<C>(es.last(), cfg));
            },
            Some(c) => {
                assert(node_wf::<C>(c, dim, cfg));
                assert(entries_wf::<C>(c.entries, dim, cfg));
                lemma_capacity_bound_entries::<C>(c.entries, dim, cfg);
                assert(node_within_capacity::<C>(c, cfg));
                assert(entry_within_capacity::<C>(es.last(), cfg));
            },
        }
    }
}

/// A built tree enjoys every structural law at once: balance, leaf
/// threshold, count conservation, feature consistency and the capacity
/// bound.
pub proof fn lemma_build_invariants<C: CFeature>(ps: Seq<Seq<int>>, dim: int, cfg: SpecConfig)
    requires
        dim >= 0,
        cfg.valid(),
        ps.len() <= usize::MAX,
        forall|i: int| 0 <= i < ps.len() ==> (#[trigger] ps[i]).len() == dim,
        forall|i: int| 0 <= i < ps.len() ==> pt_in_range(#[trigger] ps[i]),
    ensures
        ({
            let t = spec_build::<C>(ps, dim, cfg);
            &&& node_wf::<C>(t, dim, cfg)
            &&& node_leaves_at::<C>(t, (node_height::<C>(t) - 1) as nat)
            &&& node_leaf_diam_ok::<C>(t, cfg.threshold)
            &&& node_points::<C>(t) == ps.len()
            &&& node_consistent::<C>(t, dim)
            &&& node_within_capacity::<C>(t, cfg)
        }),
{
    crate::cftree::lemma_spec_build::<C>(ps, dim, cfg);
    let t = spec_build::<C>(ps, dim, cfg);
    lemma_balanced::<C>(t, dim, cfg);
    lemma_leaf_threshold::<C>(t, dim, cfg);
    lemma_feature_consistency::<C>(t, dim, cfg);
    lemma_capacity_bound::<C>(t, dim, cfg);
}

/// The summary of the stable variant after absorbing `k` copies of one
/// point: the count alone grows; the mean sits on the point and the
/// deviations stay zero.
pub open spec fn betula_uniform(p: Seq<int>, k: int) -> BetulaView {
    BetulaView { n: k, mu: p, s: Seq::new(p.len(), |i: int| 0) }
}

/// Absorbing the same point again leaves the stable summary's mean and
/// deviations untouched and its dispersion at zero.
pub proof fn lemma_betula_absorb_same(p: Seq<int>, k: int)
    requires
        pt_in_range(p),
        1 <= k < usize::MAX,
    ensures
        betula::CFeature::v_add_pt(betula_uniform(p, k), p) == betula_uniform(p, k + 1),
        betula::CFeature::v_diam2(betula_uniform(p, k + 1)) == 0,
{
    let f = betula_uniform(p, k);
    let single = BetulaView { n: 1, mu: p, s: Seq::new(p.len(), |i: int| 0) };
    let merged = betula::CFeature::v_add_pt(f, p);
    let mu = betula::merged_mu(f, single, k + 1);
    assert forall|i: int| 0 <= i < p.len() implies mu[i] == p[i] by {
        assert(crate::point::sat_sub(p[i], p[i]) == 0);
        assert(crate::point::sat_mul(0, 1) == 0);
        assert(crate::point::div_trunc(0, k + 1) == 0);
        assert(crate::point::sat_add(p[i], 0) == p[i]);
    }
    assert(mu =~= p);
    let sv = betula::merged_s(f, single, mu);
    assert forall|i: int| 0 <= i < sv.len() implies sv[i] == 0 by {
        let z = crate::point::sat_sub(p[i], p[i]);
        assert(z == 0);
        let w = crate::point::sat_mul(z, 1);
        assert(w == 0);
        assert(crate::point::sat_sub(mu[i], p[i]) == 0);
        assert(crate::point::sat_mul(w, crate::point::sat_sub(mu[i], p[i])) == 0);
        assert(f.s[i] == 0);
        assert(single.s[i] == 0);
        assert(crate::point::sat_add(0, 0) == 0);
        assert(sv[i] == crate::point::sat_add(
            crate::point::sat_add(f.s[i], single.s[i]),
            crate::point::sat_mul(
                crate::point::sat_mul(crate::point::sat_sub(f.mu[i], single.mu[i]), single.n),
                crate::point::sat_sub(mu[i], single.mu[i]),
            ),
        ));
    }
    assert(sv =~= Seq::new(p.len(), |i: int| 0));
    assert(merged =~= betula_uniform(p, k + 1));
    betula::lemma_norm2_of_zeros(Seq::new(p.len(), |i: int| 0));
    assert(crate::point::sat_mul(2, 0) == 0);
    assert(crate::point::div_trunc(0, k + 1) == 0);
}

/// Singleton degeneracy for the stable variant: a tree built from `k`
/// copies of one point is a single node with a single leaf entry whose
/// summary holds all `k` points with dispersion exactly zero.
pub proof fn lemma_singleton_degeneracy_betula(p: Seq<int>, k: int, cfg: SpecConfig)
    requires
        cfg.valid(),
        pt_in_range(p),
        0 <= k <= usize::MAX,
    ensures
        ({
            let t = spec_build::<betula::CFeature>(
                Seq::new(k as nat, |i: int| p),
                p.len() as int,
                cfg,
            );
            k >= 1 ==> {
                &&& t.entries.len() == 1
                &&& t.entries[0].child is None
                &&& t.entries[0].feature == betula_uniform(p, k)
                &&& betula::CFeature::v_size(t.entries[0].feature) == k
                &&& betula::CFeature::v_diam2(t.entries[0].feature) == 0
            }
        }),
    decreases k,
{
    let dim = p.len() as int;
    let ps = Seq::new(k as nat, |i: int| p);
    if k >= 1 {
        let prev = Seq::new((k - 1) as nat, |i: int| p);
        assert(ps.drop_last() =~= prev);
        assert(ps.last() == p);
        lemma_singleton_degeneracy_betula(p, k - 1, cfg);
        let t0 = spec_build::<betula::CFeature>(prev, dim, cfg);
        let step = crate::cftree::spec_insert::<betula::CFeature>(t0, p, cfg);
        if k == 1 {
            // the empty root gains one singleton entry
            assert(t0.entries.len() == 0);
            let f1 = crate::cftree::v_from_pt::<betula::CFeature>(p);
            let z = betula::CFeature::v_zero(dim);
            let single = BetulaView { n: 1, mu: p, s: Seq::new(p.len(), |i: int| 0) };
            let mu = betula::merged_mu(z, single, 1);
            assert forall|i: int| 0 <= i < p.len() implies mu[i] == p[i] by {
                assert(crate::point::sat_sub(p[i], 0) == p[i]);
                assert(crate::point::sat_mul(p[i], 1) == p[i]);
                assert(crate::point::div_trunc(p[i], 1) == p[i]);
                assert(crate::point::sat_add(0, p[i]) == p[i]);
            }
            assert(mu =~= p);
            let sv = betula::merged_s(z, single, mu);
            assert forall|i: int| 0 <= i < sv.len() implies sv[i] == 0 by {
                assert(crate::point::sat_sub(mu[i], p[i]) == 0);
            }
            assert(sv =~= Seq::new(p.len(), |i: int| 0));
            assert(f1 =~= betula_uniform(p, 1));
            assert(step == crate::cftree::SIns::Single(
                SNode::<BetulaView> {
                    entries: seq![SEntry::<BetulaView> { feature: f1, child: None }],
                },
            ));
            betula::lemma_norm2_of_zeros(Seq::new(p.len(), |i: int| 0));
        } else {
            // one entry, childless: the closest scan picks it and the
            // absorbed dispersion is zero, within any valid threshold
            assert(t0.entries.len() == 1);
            assert(crate::cftree::closest_entry::<betula::CFeature>(t0.entries, p) == 0);
            lemma_betula_absorb_same(p, k - 1);
            let f2 = betula::CFeature::v_add_pt(t0.entries[0].feature, p);
            assert(f2 == betula_uniform(p, k));
            assert(betula::CFeature::v_diam2(f2) == 0);
            assert(betula::CFeature::v_diam2(f2) <= cfg.threshold);
            assert(step == crate::cftree::SIns::Single(
                SNode::<BetulaView> {
                    entries: t0.entries.update(
                        0,
                        SEntry::<BetulaView> { feature: f2, child: None },
                    ),
                },
            ));
            let t = crate::cftree::spec_promote::<betula::CFeature>(step, dim);
            assert(t.entries[0] == (SEntry::<BetulaView> { feature: f2, child: None }));
        }
    }
}

/// Identity law: a classical summary absorbs the empty summary without
/// change.
pub proof fn lemma_birch_add_zero(v: BirchView)
    requires
        birch::CFeature::v_inv(v),
    ensures
        birch::CFeature::v_add(v, birch::CFeature::v_zero(v.ls.len() as int)) == v,
{
    let z = birch::CFeature::v_zero(v.ls.len() as int);
    let r = birch::CFeature::v_add(v, z);
    assert forall|i: int| 0 <= i < v.ls.len() implies r.ls[i] == v.ls[i] by {
        assert(crate::point::in_scalar_range(v.ls[i]));
        assert(z.ls[i] == 0);
    }
    assert(r.ls =~= v.ls);
    assert(r =~= v);
}

/// Identity law: the empty summary absorbs a classical summary whole.
pub proof fn lemma_birch_zero_add(v: BirchView)
    requires
        birch::CFeature::v_inv(v),
    ensures
        birch::CFeature::v_add(birch::CFeature::v_zero(v.ls.len() as int), v) == v,
{
    let z = birch::CFeature::v_zero(v.ls.len() as int);
    let r = birch::CFeature::v_add(z, v);
    assert forall|i: int| 0 <= i < v.ls.len() implies r.ls[i] == v.ls[i] by {
        assert(crate::point::in_scalar_range(v.ls[i]));
        assert(z.ls[i] == 0);
    }
    assert(r.ls =~= v.ls);
    assert(r =~= v);
}

/// Identity law: a non-empty stable summary absorbs the empty summary
/// without change.
pub proof fn lemma_betula_add_zero(v: BetulaView)
    requires
        betula::CFeature::v_inv(v),
        v.n > 0,
    ensures
        betula::CFeature::v_add(v, betula::CFeature::v_zero(v.mu.len() as int)) == v,
{
    let z = betula::CFeature::v_zero(v.mu.len() as int);
    let r = betula::CFeature::v_add(v, z);
    let mu = betula::merged_mu(v, z, v.n);
    assert forall|i: int| 0 <= i < v.mu.len() implies mu[i] == v.mu[i] by {
        assert(z.mu[i] == 0);
        assert(crate::point::sat_mul(crate::point::sat_sub(0, v.mu[i]), 0) == 0);
        assert(crate::point::div_trunc(0, v.n) == 0);
        assert(crate::point::in_scalar_range(v.mu[i]));
    }
    assert(mu =~= v.mu);
    let sv = betula::merged_s(v, z, mu);
    assert forall|i: int| 0 <= i < v.s.len() implies sv[i] == v.s[i] by {
        assert(z.s[i] == 0);
        assert(z.mu[i] == 0);
        assert(crate::point::in_scalar_range(v.s[i]));
        assert(crate::point::sat_add(v.s[i], 0) == v.s[i]);
        assert(crate::point::sat_mul(crate::point::sat_sub(v.mu[i], 0), 0) == 0);
        assert(crate::point::sat_mul(0, crate::point::sat_sub(mu[i], 0)) == 0);
    }
    assert(sv =~= v.s);
    assert(r =~= v);
}

/// Identity law: the empty summary absorbs a non-empty stable summary
/// whole, as long as the count times each mean coordinate is
/// representable.
pub proof fn lemma_betula_zero_add(v: BetulaView)
    requires
        betula::CFeature::v_inv(v),
        v.n > 0,
        forall|i: int|
            0 <= i < v.mu.len() ==> crate::point::in_scalar_range(v.n * #[trigger] v.mu[i]),
    ensures
        betula::CFeature::v_add(betula::CFeature::v_zero(v.mu.len() as int), v) == v,
{
    let z = betula::CFeature::v_zero(v.mu.len() as int);
    let r = betula::CFeature::v_add(z, v);
    let mu = betula::merged_mu(z, v, v.n);
    assert forall|i: int| 0 <= i < v.mu.len() implies mu[i] == v.mu[i] by {
        assert(z.mu[i] == 0);
        assert(crate::point::in_scalar_range(v.mu[i]));
        assert(crate::point::sat_sub(v.mu[i], 0) == v.mu[i]);
        assert(v.mu[i] * v.n == v.n * v.mu[i]) by (nonlinear_arith);
        assert(crate::point::sat_mul(v.mu[i], v.n) == v.mu[i] * v.n);
        if v.mu[i] >= 0 {
            assert(v.mu[i] * v.n >= 0) by (nonlinear_arith)
                requires
                    v.mu[i] >= 0 && v.n > 0,
            ;
            vstd::arithmetic::div_mod::lemma_div_multiples_vanish(v.mu[i], v.n);
            assert(v.n * v.mu[i] == v.mu[i] * v.n) by (nonlinear_arith);
            assert(crate::point::div_trunc(v.mu[i] * v.n, v.n) == v.mu[i]);
        } else {
            assert(v.mu[i] * v.n < 0) by (nonlinear_arith)
                requires
                    v.mu[i] < 0 && v.n > 0,
            ;
            vstd::arithmetic::div_mod::lemma_div_multiples_vanish(-v.mu[i], v.n);
            assert(-(v.mu[i] * v.n) == v.n * (-v.mu[i])) by (nonlinear_arith);
            assert(crate::point::div_trunc(v.mu[i] * v.n, v.n) == v.mu[i]);
        }
        assert(crate::point::sat_add(0, v.mu[i]) == v.mu[i]);
    }
    assert(mu =~= v.mu);
    let sv = betula::merged_s(z, v, mu);
    assert forall|i: int| 0 <= i < v.s.len() implies sv[i] == v.s[i] by {
        assert(z.s[i] == 0);
        assert(z.mu[i] == 0);
        assert(crate::point::in_scalar_range(v.s[i]));
        assert(crate::point::sat_add(0, v.s[i]) == v.s[i]);
        assert(crate::point::sat_sub(mu[i], v.mu[i]) == 0);
        assert(crate::point::sat_mul(
            crate::point::sat_mul(crate::point::sat_sub(0, v.mu[i]), v.n),
            0,
        ) == 0);
    }
    assert(sv =~= v.s);
    assert(r =~= v);
}

/// The exact sum of squares of a coordinate sequence.
pub open spec fn sum_sq(s: Seq<int>) -> int
    decreases s.len(),
{
    if s.len() == 0 {
        0
    } else {
        sum_sq(s.drop_last()) + s.last() * s.last()
    }
}

/// Coordinates bounded in magnitude by `m`.
pub open spec fn pt_bounded(s: Seq<int>, m: int) -> bool {
    forall|i: int| 0 <= i < s.len() ==> -m <= #[trigger] s[i] <= m
}

/// Under a magnitude bound the saturating squared norm is the exact sum
/// of squares, itself bounded by the length times the squared bound.
pub proof fn lemma_norm2_exact(s: Seq<int>, m: int)
    requires
        0 <= m,
        pt_bounded(s, m),
        s.len() * (m * m) <= i128::MAX,
    ensures
        crate::point::spec_norm2(s) == sum_sq(s),
        0 <= sum_sq(s) <= s.len() * (m * m),
    decreases s.len(),
{
    if s.len() == 0 {
    } else {
        let prefix = s.drop_last();
        assert forall|i: int| 0 <= i < prefix.len() implies -m <= #[trigger] prefix[i] <= m by {
            assert(prefix[i] == s[i]);
        }
        assert(prefix.len() * (m * m) <= s.len() * (m * m)) by (nonlinear_arith)
            requires
                0 <= m && prefix.len() <= s.len(),
        ;
        lemma_norm2_exact(prefix, m);
        let x = s.last();
        assert(-m <= s[s.len() - 1] <= m);
        assert(0 <= x * x <= m * m) by (nonlinear_arith)
            requires
                -m <= x <= m,
        ;
        assert(sum_sq(s) == sum_sq(prefix) + x * x);
        assert(prefix.len() * (m * m) + m * m == s.len() * (m * m)) by (nonlinear_arith)
            requires
                prefix.len() + 1 == s.len(),
        ;
        assert(crate::point::sat_add(sum_sq(prefix), crate::point::sat_mul(x, x)) == sum_sq(s));
    }
}

/// The coordinates of one point, each scaled by `k`.
pub open spec fn scaled(p: Seq<int>, k: int) -> Seq<int> {
    Seq::new(p.len(), |i: int| k * p[i])
}

/// The classical summary after absorbing `k` copies of one point, all
/// arithmetic staying exact.
pub open spec fn birch_uniform(p: Seq<int>, k: int) -> BirchView {
    BirchView { ls: scaled(p, k), ss: k * sum_sq(p), n: k }
}

/// Magnitude bounds under which `k` absorptions of one point stay exact:
/// at most a thousand coordinates of at most a thousand million mantissa
/// units, absorbed at most a million times.
pub open spec fn birch_uniform_bounds(p: Seq<int>, k: int) -> bool {
    &&& p.len() <= 1000
    &&& pt_bounded(p, 1000000000)
    &&& 0 <= k <= 1000000
}

/// Absorbing the same point again scales the classical summary exactly,
/// and its dispersion stays zero.
pub proof fn lemma_birch_absorb_same(p: Seq<int>, k: int)
    requires
        birch_uniform_bounds(p, k + 1),
        k >= 0,
    ensures
        birch::CFeature::v_add_pt(birch_uniform(p, k), p) == birch_uniform(p, k + 1),
        k >= 0 ==> birch::CFeature::v_diam2(birch_uniform(p, k + 1)) == 0,
{
    let m = 1000000000int;
    let f = birch_uniform(p, k);
    let merged = birch::CFeature::v_add_pt(f, p);
    assert(p.len() * (m * m) <= i128::MAX) by (nonlinear_arith)
        requires
            p.len() <= 1000 && m == 1000000000,
    ;
    lemma_norm2_exact(p, m);
    let s2 = sum_sq(p);
    // the linear sum scales
    assert forall|i: int| 0 <= i < p.len() implies merged.ls[i] == (k + 1) * p[i] by {
        assert(-m <= p[i] <= m);
        let pi = p[i];
        assert(-(1000001 * m) <= k * pi + pi <= 1000001 * m && k * pi + pi == (k + 1) * pi)
            by (nonlinear_arith)
            requires
                -m <= pi <= m && 0 <= k <= 1000000 && m == 1000000000,
        ;
        assert(crate::point::sat_add(f.ls[i], p[i]) == k * p[i] + p[i]);
    }
    assert(merged.ls =~= scaled(p, k + 1));
    // the squared sum scales
    assert(0 <= s2 <= 1000 * (m * m));
    assert(k * s2 + s2 == (k + 1) * s2 && 0 <= (k + 1) * s2 <= 1000001 * 1000 * (m * m)) by (nonlinear_arith)
        requires
            0 <= s2 <= 1000 * (m * m) && 0 <= k <= 1000000 && m == 1000000000,
    ;
    assert(merged.ss == crate::point::sat_add(k * s2, crate::point::spec_norm2(p)));
    assert(merged =~= birch_uniform(p, k + 1));
    lemma_birch_uniform_diam2(p, k + 1);
}

/// The dispersion of an exactly scaled classical summary is zero.
pub proof fn lemma_birch_uniform_diam2(p: Seq<int>, k: int)
    requires
        birch_uniform_bounds(p, k),
        k >= 1,
    ensures
        birch::CFeature::v_diam2(birch_uniform(p, k)) == 0,
{
    let m = 1000000000int;
    let f = birch_uniform(p, k);
    assert(p.len() * (m * m) <= i128::MAX) by (nonlinear_arith)
        requires
            p.len() <= 1000 && m == 1000000000,
    ;
    lemma_norm2_exact(p, m);
    let s2 = sum_sq(p);
    // the squared norm of the scaled linear sum is the scaled square
    lemma_sum_sq_scaled(p, k, m);
    assert(crate::point::spec_norm2(f.ls) == k * k * s2) by {
        assert(pt_bounded(f.ls, k * m)) by {
            assert forall|i: int| 0 <= i < f.ls.len() implies -(k * m) <= #[trigger] f.ls[i] <= k
                * m by {
                assert(-m <= p[i] <= m);
                assert(-(k * m) <= k * p[i] <= k * m) by (nonlinear_arith)
                    requires
                        -m <= p[i] <= m && k >= 1,
                ;
            }
        }
        assert(f.ls.len() * ((k * m) * (k * m)) <= i128::MAX) by (nonlinear_arith)
            requires
                f.ls.len() <= 1000 && 1 <= k <= 1000000 && m == 1000000000,
        ;
        assert(k * m >= 0) by (nonlinear_arith)
            requires
                k >= 1 && m > 0,
        ;
        lemma_norm2_exact(f.ls, k * m);
    }
    // the numerator cancels exactly
    let two_n = crate::point::sat_mul(2, k);
    assert(two_n == 2 * k);
    assert(2 * k * (k * s2) == 2 * (k * k * s2) && 0 <= 2 * (k * k * s2) <= i128::MAX) by (nonlinear_arith)
        requires
            0 <= s2 <= 1000 * (m * m) && 1 <= k <= 1000000 && m == 1000000000,
    ;
    assert(crate::point::sat_mul(two_n, f.ss) == 2 * (k * k * s2));
    assert(crate::point::sat_mul(2, crate::point::spec_norm2(f.ls)) == 2 * (k * k * s2));
    assert(crate::point::sat_sub(2 * (k * k * s2), 2 * (k * k * s2)) == 0);
    assert(birch::CFeature::v_diam2(f) == crate::point::div_trunc(0, birch::diam2_divisor(k)));
    assert(birch::diam2_divisor(k) >= 1) by {
        if k >= 2 {
            assert(k * (k - 1) >= 2) by (nonlinear_arith)
                requires
                    k >= 2,
            ;
        }
    }
}

/// Squares of a scaled sequence sum to the square of the factor times
/// the original sum.
pub proof fn lemma_sum_sq_scaled(p: Seq<int>, k: int, m: int)
    requires
        0 <= m,
        pt_bounded(p, m),
        k >= 0,
    ensures
        sum_sq(scaled(p, k)) == k * k * sum_sq(p),
    decreases p.len(),
{
    if p.len() == 0 {
        assert(scaled(p, k) =~= Seq::<int>::empty());
    } else {
        let prefix = p.drop_last();
        assert forall|i: int| 0 <= i < prefix.len() implies -m <= #[trigger] prefix[i] <= m by {
            assert(prefix[i] == p[i]);
        }
        lemma_sum_sq_scaled(prefix, k, m);
        assert(scaled(p, k).drop_last() =~= scaled(prefix, k));
        assert(scaled(p, k).last() == k * p.last());
        let x = p.last();
        assert((k * x) * (k * x) == k * k * (x * x)) by (nonlinear_arith);
        assert(k * k * sum_sq(prefix) + k * k * (x * x) == k * k * (sum_sq(prefix) + x * x))
            by (nonlinear_arith);
    }
}

/// Singleton degeneracy for the classical variant: within the exactness
/// bounds, a tree built from `k` copies of one point is a single node
/// with a single leaf entry holding all `k` points with dispersion
/// exactly zero.
pub proof fn lemma_singleton_degeneracy_birch(p: Seq<int>, k: int, cfg: SpecConfig)
    requires
        cfg.valid(),
        birch_uniform_bounds(p, k),
    ensures
        ({
            let t = spec_build::<birch::CFeature>(
                Seq::new(k as nat, |i: int| p),
                p.len() as int,
                cfg,
            );
            k >= 1 ==> {
                &&& t.entries.len() == 1
                &&& t.entries[0].child is None
                &&& t.entries[0].feature == birch_uniform(p, k)
                &&& birch::CFeature::v_size(t.entries[0].feature) == k
                &&& birch::CFeature::v_diam2(t.entries[0].feature) == 0
            }
        }),
    decreases k,
{
    let dim = p.len() as int;
    let ps = Seq::new(k as nat, |i: int| p);
    if k >= 1 {
        let prev = Seq::new((k - 1) as nat, |i: int| p);
        assert(ps.drop_last() =~= prev);
        assert(ps.last() == p);
        lemma_singleton_degeneracy_birch(p, k - 1, cfg);
        let t0 = spec_build::<birch::CFeature>(prev, dim, cfg);
        let step = crate::cftree::spec_insert::<birch::CFeature>(t0, p, cfg);
        if k == 1 {
            assert(t0.entries.len() == 0);
            let f1 = crate::cftree::v_from_pt::<birch::CFeature>(p);
            let m = 1000000000int;
            assert(p.len() * (m * m) <= i128::MAX) by (nonlinear_arith)
                requires
                    p.len() <= 1000 && m == 1000000000,
            ;
            lemma_norm2_exact(p, m);
            assert forall|i: int| 0 <= i < p.len() implies f1.ls[i] == 1 * p[i] by {
                assert(-m <= p[i] <= m);
                assert(crate::point::sat_add(0, p[i]) == p[i]);
                assert(1 * p[i] == p[i]) by (nonlinear_arith);
            }
            assert(f1.ls =~= scaled(p, 1));
            assert(f1.ss == crate::point::sat_add(0, crate::point::spec_norm2(p)));
            assert(1 * sum_sq(p) == sum_sq(p)) by (nonlinear_arith);
            assert(f1 =~= birch_uniform(p, 1));
            assert(step == crate::cftree::SIns::Single(
                SNode::<BirchView> {
                    entries: seq![SEntry::<BirchView> { feature: f1, child: None }],
                },
            ));
            lemma_birch_uniform_diam2(p, 1);
        } else {
            assert(t0.entries.len() == 1);
            assert(crate::cftree::closest_entry::<birch::CFeature>(t0.entries, p) == 0);
            lemma_birch_absorb_same(p, k - 1);
            let f2 = birch::CFeature::v_add_pt(t0.entries[0].feature, p);
            assert(f2 == birch_uniform(p, k));
            assert(birch::CFeature::v_diam2(f2) == 0);
            assert(birch::CFeature::v_diam2(f2) <= cfg.threshold);
            assert(step == crate::cftree::SIns::Single(
                SNode::<BirchView> {
                    entries: t0.entries.update(
                        0,
                        SEntry::<BirchView> { feature: f2, child: None },
                    ),
                },
            ));
            let t = crate::cftree::spec_promote::<birch::CFeature>(step, dim);
            assert(t.entries[0] == (SEntry::<BirchView> { feature: f2, child: None }));
        }
    }
}

} // verus!
