use vstd::prelude::*;
use crate::config::{Config, Package, Source};
use crate::ids::IdSet;
use crate::log::BuildLog;
use crate::tree::{dep_views, DepModel, Dependency};
use crate::version::{SemanticVersion, VersionModel};

verus! {

/// The (identity, version) pairs of the first `n` packages of a ledger, in
/// identity order and then version order.
pub open spec fn pairs_upto(log: &BuildLog, n: int) -> Seq<DepModel>
    decreases n,
{
    if n <= 0 {
        seq![]
    } else {
        pairs_upto(log, n - 1) + package_pairs(log, n - 1)
    }
}

/// The pairs of the package at position `i` of a ledger.
pub open spec fn package_pairs(log: &BuildLog, i: int) -> Seq<DepModel> {
    let id = log.packages.key_seq()[i];
    log.packages.val_seq()[i].versions.items().map_values(|v: VersionModel| DepModel { id, version: v })
}

/// Every (identity, version) pair of a ledger, in order.
pub open spec fn log_pairs(log: &BuildLog) -> Seq<DepModel> {
    pairs_upto(log, log.packages.key_seq().len() as int)
}

/// The pairs that no tree entry matches, in order.
pub open spec fn unmatched(ps: Seq<DepModel>, tree: Seq<DepModel>) -> Seq<DepModel>
    decreases ps.len(),
{
    if ps.len() == 0 {
        seq![]
    } else if tree.contains(ps.last()) {
        unmatched(ps.drop_last(), tree)
    } else {
        unmatched(ps.drop_last(), tree).push(ps.last())
    }
}

/// A tree entry that the ledger does not account for.
pub enum TreeMismatch {
    /// The ledger has no package of this identity.
    UnknownPackage(String),
    /// The ledger has the package, not at this version.
    UnknownVersion(Dependency),
}

/// Plain model of a `TreeMismatch`.
pub enum MismatchModel {
    UnknownPackage(Seq<char>),
    UnknownVersion(DepModel),
}

impl TreeMismatch {
    pub open spec fn model(&self) -> MismatchModel {
        match self {
            TreeMismatch::UnknownPackage(id) => MismatchModel::UnknownPackage(id@),
            TreeMismatch::UnknownVersion(d) => MismatchModel::UnknownVersion(d@),
        }
    }
}

/// The tree entries that the ledger does not account for, in tree order.
pub open spec fn tree_mismatches(log: &BuildLog, tree: Seq<DepModel>) -> Seq<MismatchModel>
    decreases tree.len(),
{
    if tree.len() == 0 {
        seq![]
    } else {
        let rest = tree_mismatches(log, tree.drop_last());
        let d = tree.last();
        if !log@.contains_key(d.id) {
            rest.push(MismatchModel::UnknownPackage(d.id))
        } else if !log@[d.id].versions.contains(d.version) {
            rest.push(MismatchModel::UnknownVersion(d))
        } else {
            rest
        }
    }
}

/// Both directions of the difference between a ledger and a tree.
pub struct TreeDiff {
    /// Tree entries missing from the ledger, in tree order.
    pub tree_only: Vec<TreeMismatch>,
    /// Ledger pairs missing from the tree, in ledger order.
    pub log_only: Vec<Dependency>,
}

/// Copies a dependency.
fn copy_dep(id: &str, version: &SemanticVersion) -> (r: Dependency)
    ensures
        r@ == (DepModel { id: id@, version: version@ }),
{
    Dependency { id: id.to_string(), version: version.clone() }
}

/// Whether some tree entry has this identity and version.
pub fn tree_has(tree: &Vec<Dependency>, id: &str, version: &SemanticVersion) -> (r: bool)
    ensures
        r == dep_views(tree@).contains(DepModel { id: id@, version: version@ }),
{
    let ghost target = DepModel { id: id@, version: version@ };
    let mut i: usize = 0;
    while i < tree.len()
        invariant
            i <= tree.len(),
            target == (DepModel { id: id@, version: version@ }),
            forall|j: int| 0 <= j < i ==> dep_views(tree@)[j] != target,
        decreases tree.len() - i,
    {
        if crate::ids::same_id(tree[i].id.as_str(), id) && tree[i].version.same(version) {
            proof {
                assert(dep_views(tree@)[i as int] == target);
            }
            return true;
        }
        proof {
            assert(dep_views(tree@)[i as int] == tree@[i as int]@);
        }
        i += 1;
    }
    false
}

/// The symmetric difference of a ledger and a tree: each tree entry whose
/// identity or version the ledger lacks, and each ledger pair that no tree
/// entry matches.
pub fn diff_tree(log: &BuildLog, tree: &Vec<Dependency>) -> (r: TreeDiff)
    requires
        log.wf(),
    ensures
        r.tree_only@.map_values(|m: TreeMismatch| m.model()) == tree_mismatches(log, dep_views(tree@)),
        dep_views(r.log_only@) == unmatched(log_pairs(log), dep_views(tree@)),
{
    let ghost tv = dep_views(tree@);
    let mut tree_only: Vec<TreeMismatch> = Vec::new();
    let mut i: usize = 0;
    proof {
        assert(tv.subrange(0, 0) =~= Seq::<DepModel>::empty());
        assert(tree_only@.map_values(|m: TreeMismatch| m.model()) =~= Seq::<MismatchModel>::empty());
    }
    while i < tree.len()
        invariant
            log.wf(),
            i <= tree.len(),
            tv == dep_views(tree@),
            tree_only@.map_values(|m: TreeMismatch| m.model()) == tree_mismatches(log, tv.subrange(0, i as int)),
        decreases tree.len() - i,
    {
        let dep = &tree[i];
        let ghost before = tree_only@;
        proof {
            assert(tv.subrange(0, i + 1).drop_last() =~= tv.subrange(0, i as int));
            assert(tv.subrange(0, i + 1).last() == dep@);
        }
        match log.packages.get(dep.id.as_str()) {
            None => {
                tree_only.push(TreeMismatch::UnknownPackage(dep.id.clone()));
                proof {
                    assert(tree_only@.map_values(|m: TreeMismatch| m.model()) =~= before.map_values(|m: TreeMismatch| m.model()).push(MismatchModel::UnknownPackage(dep.id@)));
                }
            },
            Some(usage) => {
                proof {
                    assert(log@[dep.id@] == usage@);
                    assert(log.packages@.contains_key(dep.id@));
                }
                if !usage.versions.contains(&dep.version) {
                    tree_only.push(TreeMismatch::UnknownVersion(copy_dep(dep.id.as_str(), &dep.version)));
                    proof {
                        assert(tree_only@.map_values(|m: TreeMismatch| m.model()) =~= before.map_values(|m: TreeMismatch| m.model()).push(MismatchModel::UnknownVersion(dep@)));
                    }
                }
            },
        }
        i += 1;
    }
    proof {
        assert(tv.subrange(0, i as int) =~= tv);
    }
    let mut log_only: Vec<Dependency> = Vec::new();
    let mut k: usize = 0;
    proof {
        assert(dep_views(log_only@) =~= Seq::<DepModel>::empty());
    }
    while k < log.packages.len()
        invariant
            log.wf(),
            k <= log.packages.key_seq().len(),
            tv == dep_views(tree@),
            dep_views(log_only@) == unmatched(pairs_upto(log, k as int), tv),
        decreases log.packages.key_seq().len() - k,
    {
        let id = log.packages.key_at(k);
        let usage = log.packages.value_at(k);
        proof {
            log.packages.lemma_view_at(k as int);
        }
        let values = usage.versions.values();
        let ghost pp = package_pairs(log, k as int);
        let ghost base = pairs_upto(log, k as int);
        let mut j: usize = 0;
        proof {
            assert(base + pp.subrange(0, 0) =~= base);
        }
        while j < values.len()
            invariant
                log.wf(),
                j <= values.len(),
                k < log.packages.key_seq().len(),
                tv == dep_views(tree@),
                id@ == log.packages.key_seq()[k as int],
                values@.map_values(|v: SemanticVersion| v@) == usage.versions.items(),
                *usage == log.packages.val_seq()[k as int],
                pp == package_pairs(log, k as int),
                dep_views(log_only@) == unmatched(base + pp.subrange(0, j as int), tv),
            decreases values.len() - j,
        {
            let v = &values[j];
            proof {
                assert(usage.versions.items()[j as int] == v@);
                assert(pp[j as int] == (DepModel { id: id@, version: v@ }));
                assert((base + pp.subrange(0, j + 1)).drop_last() =~= base + pp.subrange(0, j as int));
                assert((base + pp.subrange(0, j + 1)).last() == pp[j as int]);
            }
            let ghost before = log_only@;
            if !tree_has(tree, id, v) {
                log_only.push(copy_dep(id, v));
                proof {
                    assert(dep_views(log_only@) =~= dep_views(before).push(pp[j as int]));
                }
            }
            j += 1;
        }
        proof {
            assert(pp.subrange(0, j as int) =~= pp);
            assert(pairs_upto(log, k + 1) == base + pp);
        }
        k += 1;
    }
    TreeDiff { tree_only, log_only }
}

/// Identities with a pair in `ps` that the tree has.
pub open spec fn ids_in_tree(ps: Seq<DepModel>, tree: Seq<DepModel>) -> Set<Seq<char>> {
    Set::new(
        |id: Seq<char>|
            exists|v: VersionModel|
                #[trigger] ps.contains(DepModel { id, version: v }) && tree.contains(
                    DepModel { id, version: v },
                ),
    )
}

/// Identities with a pair in `ps` that the tree lacks.
pub open spec fn ids_not_in_tree(ps: Seq<DepModel>, tree: Seq<DepModel>) -> Set<Seq<char>> {
    Set::new(
        |id: Seq<char>|
            exists|v: VersionModel|
                #[trigger] ps.contains(DepModel { id, version: v }) && !tree.contains(
                    DepModel { id, version: v },
                ),
    )
}

/// A third-party entry with no license yet, to be filled in by hand.
pub open spec fn is_skeleton(p: Package, id: Seq<char>) -> bool {
    &&& p.id@ == id
    &&& p.source is CratesIo
    &&& p.licenses@.len() == 0
}

proof fn lemma_ids_push(ps: Seq<DepModel>, p: DepModel, tree: Seq<DepModel>)
    ensures
        ids_in_tree(ps.push(p), tree) == (if tree.contains(p) {
            ids_in_tree(ps, tree).insert(p.id)
        } else {
            ids_in_tree(ps, tree)
        }),
        ids_not_in_tree(ps.push(p), tree) == (if tree.contains(p) {
            ids_not_in_tree(ps, tree)
        } else {
            ids_not_in_tree(ps, tree).insert(p.id)
        }),
{
    let qs = ps.push(p);
    assert forall|d: DepModel| qs.contains(d) <==> ps.contains(d) || d == p by {
        if qs.contains(d) && d != p {
            let j = choose|j: int| 0 <= j < qs.len() && qs[j] == d;
            assert(ps[j] == d);
        }
        if ps.contains(d) {
            let j = choose|j: int| 0 <= j < ps.len() && ps[j] == d;
            assert(qs[j] == d);
        }
        if d == p {
            assert(qs[ps.len() as int] == p);
        }
    }
    assert(DepModel { id: p.id, version: p.version } == p);
    assert(ids_in_tree(qs, tree) =~= (if tree.contains(p) {
        ids_in_tree(ps, tree).insert(p.id)
    } else {
        ids_in_tree(ps, tree)
    })) by {
        if tree.contains(p) {
            assert(qs.contains(DepModel { id: p.id, version: p.version }));
        }
    }
    assert(ids_not_in_tree(qs, tree) =~= (if tree.contains(p) {
        ids_not_in_tree(ps, tree)
    } else {
        ids_not_in_tree(ps, tree).insert(p.id)
    })) by {
        if !tree.contains(p) {
            assert(qs.contains(DepModel { id: p.id, version: p.version }));
        }
    }
}

/// A first draft of an allow-list: each identity with a ledger pair that the
/// tree has becomes a third-party entry without licenses; each identity none
/// of whose ledger pairs the tree has becomes build-only. No identity is in
/// both.
pub fn generate_config(log: &BuildLog, tree: &Vec<Dependency>) -> (r: Config)
    requires
        log.wf(),
    ensures
        r.wf(),
        r.targets@ == Map::<Seq<char>, crate::config::TargetInfo>::empty(),
        r.vendor@ == Map::<Seq<char>, crate::config::VendorPackage>::empty(),
        r.build_only@ == ids_not_in_tree(log_pairs(log), dep_views(tree@)).difference(
            ids_in_tree(log_pairs(log), dep_views(tree@)),
        ),
        r.third_party@.dom() == ids_in_tree(log_pairs(log), dep_views(tree@)),
        r.build_only@.disjoint(r.third_party@.dom()),
        forall|id: Seq<char>| #[trigger] r.third_party@.contains_key(id) ==> is_skeleton(r.third_party@[id], id),
{
    let ghost tv = dep_views(tree@);
    let mut config = Config::new();
    let mut k: usize = 0;
    proof {
        assert(ids_in_tree(pairs_upto(log, 0), tv) =~= Set::<Seq<char>>::empty());
        assert(ids_not_in_tree(pairs_upto(log, 0), tv) =~= Set::<Seq<char>>::empty());
        assert(config.third_party@.dom() =~= Set::<Seq<char>>::empty());
    }
    while k < log.packages.len()
        invariant
            log.wf(),
            config.wf(),
            k <= log.packages.key_seq().len(),
            tv == dep_views(tree@),
            config.targets@ == Map::<Seq<char>, crate::config::TargetInfo>::empty(),
            config.vendor@ == Map::<Seq<char>, crate::config::VendorPackage>::empty(),
            config.build_only@ == ids_not_in_tree(pairs_upto(log, k as int), tv),
            config.third_party@.dom() == ids_in_tree(pairs_upto(log, k as int), tv),
            forall|id: Seq<char>| #[trigger] config.third_party@.contains_key(id) ==> is_skeleton(config.third_party@[id], id),
        decreases log.packages.key_seq().len() - k,
    {
        let id = log.packages.key_at(k);
        let usage = log.packages.value_at(k);
        let values = usage.versions.values();
        let ghost pp = package_pairs(log, k as int);
        let ghost base = pairs_upto(log, k as int);
        let mut j: usize = 0;
        proof {
            assert(base + pp.subrange(0, 0) =~= base);
        }
        while j < values.len()
            invariant
                log.wf(),
                config.wf(),
                j <= values.len(),
                k < log.packages.key_seq().len(),
                tv == dep_views(tree@),
                id@ == log.packages.key_seq()[k as int],
                values@.map_values(|v: SemanticVersion| v@) == usage.versions.items(),
                *usage == log.packages.val_seq()[k as int],
                pp == package_pairs(log, k as int),
                config.targets@ == Map::<Seq<char>, crate::config::TargetInfo>::empty(),
                config.vendor@ == Map::<Seq<char>, crate::config::VendorPackage>::empty(),
                config.build_only@ == ids_not_in_tree(base + pp.subrange(0, j as int), tv),
                config.third_party@.dom() == ids_in_tree(base + pp.subrange(0, j as int), tv),
                forall|id: Seq<char>| #[trigger] config.third_party@.contains_key(id) ==> is_skeleton(config.third_party@[id], id),
            decreases values.len() - j,
        {
            let v = &values[j];
            let ghost p = DepModel { id: id@, version: v@ };
            proof {
                assert(usage.versions.items()[j as int] == v@);
                assert(pp[j as int] == p);
                assert(base + pp.subrange(0, j + 1) =~= (base + pp.subrange(0, j as int)).push(p));
                lemma_ids_push(base + pp.subrange(0, j as int), p, tv);
            }
            if tree_has(tree, id, v) {
                let pkg = Package { id: id.to_string(), source: Source::CratesIo, licenses: Vec::new() };
                proof {
                    assert(is_skeleton(pkg, id@));
                }
                config.third_party.insert(id.to_string(), pkg);
                proof {
                    assert(config.third_party@.dom() =~= ids_in_tree(base + pp.subrange(0, j + 1), tv));
                }
            } else {
                config.build_only.insert(id.to_string());
            }
            j += 1;
        }
        proof {
            assert(pp.subrange(0, j as int) =~= pp);
            assert(pairs_upto(log, k + 1) == base + pp);
        }
        k += 1;
    }
    let candidates = config.build_only;
    let mut build_only = IdSet::new();
    let mut c: usize = 0;
    proof {
        candidates.lemma_sorted();
        assert(candidates.ids().subrange(0, 0).to_set() =~= Set::<Seq<char>>::empty());
        assert(build_only@ =~= candidates.ids().subrange(0, 0).to_set().difference(config.third_party@.dom()));
    }
    while c < candidates.len()
        invariant
            candidates.wf(),
            config.third_party.wf(),
            build_only.wf(),
            c <= candidates.ids().len(),
            build_only@ == candidates.ids().subrange(0, c as int).to_set().difference(config.third_party@.dom()),
        decreases candidates.ids().len() - c,
    {
        let id = candidates.id_at(c);
        let ghost pre = candidates.ids().subrange(0, c as int);
        let ghost post = candidates.ids().subrange(0, c + 1);
        proof {
            assert(post =~= pre.push(id@));
            assert forall|x: Seq<char>| post.contains(x) <==> pre.contains(x) || x == id@ by {
                if post.contains(x) && x != id@ {
                    let j = choose|j: int| 0 <= j < post.len() && post[j] == x;
                    assert(pre[j] == x);
                }
                if pre.contains(x) {
                    let j = choose|j: int| 0 <= j < pre.len() && pre[j] == x;
                    assert(post[j] == x);
                }
                if x == id@ {
                    assert(post[c as int] == x);
                }
            }
        }
        if !config.third_party.contains_key(id) {
            build_only.insert(id.to_string());
        }
        proof {
            assert(build_only@ =~= post.to_set().difference(config.third_party@.dom()));
        }
        c += 1;
    }
    proof {
        assert(candidates.ids().subrange(0, c as int) =~= candidates.ids());
        assert(build_only@ =~= ids_not_in_tree(log_pairs(log), tv).difference(ids_in_tree(log_pairs(log), tv)));
    }
    config.build_only = build_only;
    config
}

} // verus!
