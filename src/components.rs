use vstd::prelude::*;
use crate::config::Config;
use crate::ids::IdMap;
use crate::version::{semver_parse, SemanticVersion, VersionModel, Versions};

verus! {

/// A component listed in a bill-of-materials file: its name and, if given,
/// its version text.
pub struct Component {
    pub name: String,
    pub version: Option<String>,
}

/// Why components could not be gathered.
pub enum ExtractError {
    /// The file lists no components at all.
    MissingComponents,
    /// The component has no version.
    MissingVersion(String),
    /// The version text is not a semantic version.
    BadVersion(String),
}

/// Plain model of an `ExtractError`.
pub enum ExtractFault {
    MissingComponents,
    MissingVersion(Seq<char>),
    BadVersion(Seq<char>),
}

impl ExtractError {
    pub open spec fn fault(&self) -> ExtractFault {
        match self {
            ExtractError::MissingComponents => ExtractFault::MissingComponents,
            ExtractError::MissingVersion(s) => ExtractFault::MissingVersion(s@),
            ExtractError::BadVersion(s) => ExtractFault::BadVersion(s@),
        }
    }
}

/// A map of version sets whose sets are all well formed.
pub open spec fn versions_wf(m: &IdMap<Versions>) -> bool {
    &&& m.wf()
    &&& forall|k: Seq<char>| #[trigger] m@.contains_key(k) ==> m@[k].wf()
}

/// The version sets of a map, as sets.
pub open spec fn version_sets(m: &IdMap<Versions>) -> Map<Seq<char>, Set<VersionModel>> {
    m@.map_values(|v: Versions| v@)
}

/// Adds a version to the set of an identity.
pub open spec fn add_version(
    m: Map<Seq<char>, Set<VersionModel>>,
    id: Seq<char>,
    v: VersionModel,
) -> Map<Seq<char>, Set<VersionModel>> {
    m.insert(
        id,
        if m.contains_key(id) {
            m[id].insert(v)
        } else {
            Set::empty().insert(v)
        },
    )
}

/// Gathers components in order: each must carry a semantic version;
/// build-only and vendor components are then skipped; the rest add their
/// version to their identity.
pub open spec fn gather(cs: Seq<Component>, config: &Config) -> Result<
    Map<Seq<char>, Set<VersionModel>>,
    ExtractFault,
>
    decreases cs.len(),
{
    if cs.len() == 0 {
        Ok(Map::empty())
    } else {
        match gather(cs.drop_last(), config) {
            Err(e) => Err(e),
            Ok(m) => {
                let c = cs.last();
                match c.version {
                    None => Err(ExtractFault::MissingVersion(c.name@)),
                    Some(t) => match semver_parse(t@) {
                        None => Err(ExtractFault::BadVersion(t@)),
                        Some(v) => if config.build_only@.contains(c.name@)
                            || config.vendor@.contains_key(c.name@) {
                            Ok(m)
                        } else {
                            Ok(add_version(m, c.name@, v))
                        },
                    },
                }
            },
        }
    }
}

proof fn lemma_gather_error_sticks(cs: Seq<Component>, config: &Config, j: int)
    requires
        0 <= j <= cs.len(),
        gather(cs.subrange(0, j), config) is Err,
    ensures
        gather(cs, config) == gather(cs.subrange(0, j), config),
    decreases cs.len() - j,
{
    if j < cs.len() {
        assert(cs.subrange(0, j + 1).drop_last() =~= cs.subrange(0, j));
        lemma_gather_error_sticks(cs, config, j + 1);
    } else {
        assert(cs.subrange(0, j) =~= cs);
    }
}

/// Adds a version to the set of an identity in a map of version sets.
pub fn add_to(m: &mut IdMap<Versions>, id: &str, v: SemanticVersion)
    requires
        versions_wf(old(m)),
    ensures
        versions_wf(final(m)),
        version_sets(final(m)) == add_version(version_sets(old(m)), id@, v@),
{
    let ghost vm = v@;
    match m.remove(id) {
        Some(cur) => {
            let mut cur = cur;
            cur.insert(v);
            m.insert(id.to_string(), cur);
            proof {
                assert(version_sets(m) =~= add_version(version_sets(old(m)), id@, vm));
            }
        },
        None => {
            let set = Versions::from_version(v);
            m.insert(id.to_string(), set);
            proof {
                assert(version_sets(m) =~= add_version(version_sets(old(m)), id@, vm));
            }
        },
    }
}

/// The versions of the distributed components of a bill-of-materials file,
/// by identity.
pub fn extract_deps(components: &Option<Vec<Component>>, config: &Config) -> (r: Result<
    IdMap<Versions>,
    ExtractError,
>)
    requires
        config.wf(),
    ensures
        match components {
            None => r matches Err(x) && x.fault() == ExtractFault::MissingComponents,
            Some(cs) => match gather(cs@, config) {
                Ok(m) => r matches Ok(deps) && versions_wf(&deps) && version_sets(&deps) == m,
                Err(e) => r matches Err(x) && x.fault() == e,
            },
        },
{
    match components {
        None => Err(ExtractError::MissingComponents),
        Some(cs) => extract_from(cs, config),
    }
}

/// The versions of the distributed components of a list, by identity.
pub fn extract_from(cs: &Vec<Component>, config: &Config) -> (r: Result<IdMap<Versions>, ExtractError>)
    requires
        config.wf(),
    ensures
        match gather(cs@, config) {
            Ok(m) => r matches Ok(deps) && versions_wf(&deps) && version_sets(&deps) == m,
            Err(e) => r matches Err(x) && x.fault() == e,
        },
{
    let mut deps: IdMap<Versions> = IdMap::new();
    let mut i: usize = 0;
    proof {
        assert(version_sets(&deps) =~= Map::<Seq<char>, Set<VersionModel>>::empty());
        assert(cs@.subrange(0, 0) =~= Seq::<Component>::empty());
    }
    while i < cs.len()
        invariant
            config.wf(),
            versions_wf(&deps),
            i <= cs.len(),
            gather(cs@.subrange(0, i as int), config) == Ok::<Map<Seq<char>, Set<VersionModel>>, ExtractFault>(version_sets(&deps)),
        decreases cs.len() - i,
    {
        let c = &cs[i];
        proof {
            assert(cs@.subrange(0, i + 1).drop_last() =~= cs@.subrange(0, i as int));
            assert(cs@.subrange(0, i + 1).last() == *c);
        }
        let text = match &c.version {
            None => {
                proof {
                    lemma_gather_error_sticks(cs@, config, i + 1);
                }
                return Err(ExtractError::MissingVersion(c.name.clone()));
            },
            Some(t) => t,
        };
        let version = match SemanticVersion::parse(text.as_str()) {
            None => {
                proof {
                    lemma_gather_error_sticks(cs@, config, i + 1);
                }
                return Err(ExtractError::BadVersion(text.clone()));
            },
            Some(v) => v,
        };
        if !config.build_only.contains(c.name.as_str()) && !config.vendor.contains_key(c.name.as_str()) {
            add_to(&mut deps, c.name.as_str(), version);
        }
        i += 1;
    }
    proof {
        assert(cs@.subrange(0, i as int) =~= cs@);
    }
    Ok(deps)
}

/// The union of two maps of version sets, identity by identity.
pub open spec fn union_sets(
    a: Map<Seq<char>, Set<VersionModel>>,
    b: Map<Seq<char>, Set<VersionModel>>,
) -> Map<Seq<char>, Set<VersionModel>> {
    Map::new(
        |k: Seq<char>| a.contains_key(k) || b.contains_key(k),
        |k: Seq<char>|
            (if a.contains_key(k) {
                a[k]
            } else {
                Set::empty()
            }).union(
                if b.contains_key(k) {
                    b[k]
                } else {
                    Set::empty()
                },
            ),
    )
}

/// Merges the component versions of another file into those gathered so
/// far.
pub fn merge_components(acc: &mut IdMap<Versions>, more: &IdMap<Versions>)
    requires
        versions_wf(old(acc)),
        versions_wf(more),
    ensures
        versions_wf(final(acc)),
        version_sets(final(acc)) == union_sets(version_sets(old(acc)), version_sets(more)),
{
    let ghost ks = more.key_seq();
    let mut i: usize = 0;
    proof {
        more.lemma_dom();
        let a = version_sets(old(acc));
        assert(ks.subrange(0, 0).to_set() =~= Set::<Seq<char>>::empty());
        assert forall|k: Seq<char>| a.contains_key(k) implies a[k].union(Set::<VersionModel>::empty()) =~= a[k] by {}
        assert(union_sets(a, version_sets(more).restrict(ks.subrange(0, 0).to_set())) =~= a);
    }
    while i < more.len()
        invariant
            versions_wf(acc),
            versions_wf(more),
            ks == more.key_seq(),
            i <= ks.len(),
            version_sets(acc) == union_sets(version_sets(old(acc)), version_sets(more).restrict(ks.subrange(0, i as int).to_set())),
        decreases ks.len() - i,
    {
        let k = more.key_at(i);
        let v = more.value_at(i);
        proof {
            more.lemma_view_at(i as int);
            more.lemma_dom();
        }
        let ghost before = version_sets(acc);
        let ghost before_acc = *acc;
        proof {
            assert(v.wf());
        }
        match acc.remove(k) {
            Some(cur) => {
                let ghost mid = *acc;
                let mut cur = cur;
                cur.union_with(v);
                let ghost c = cur;
                acc.insert(k.to_string(), cur);
                proof {
                    assert(acc@ == mid@.insert(k@, c));
                    assert(forall|x: Seq<char>| x != k@ ==> #[trigger] acc@.contains_key(x) == before_acc@.contains_key(x));
                    assert(forall|x: Seq<char>| x != k@ && acc@.contains_key(x) ==> #[trigger] acc@[x] == before_acc@[x]);
                    assert(acc@[k@] == c && c.wf());
                }
            },
            None => {
                let ghost mid = *acc;
                let copy = v.clone();
                let ghost c = copy;
                proof {
                    assert(copy@ == v@);
                }
                acc.insert(k.to_string(), copy);
                proof {
                    assert(acc@ == mid@.insert(k@, c));
                    assert(forall|x: Seq<char>| x != k@ ==> #[trigger] acc@.contains_key(x) == before_acc@.contains_key(x));
                    assert(forall|x: Seq<char>| x != k@ && acc@.contains_key(x) ==> #[trigger] acc@[x] == before_acc@[x]);
                    assert(acc@[k@] == c && c.wf());
                }
            },
        }
        proof {
            let pre = ks.subrange(0, i as int);
            let post = ks.subrange(0, i + 1);
            assert(post =~= pre.push(k@));
            assert forall|x: Seq<char>| post.contains(x) <==> pre.contains(x) || x == k@ by {
                if post.contains(x) && x != k@ {
                    let j = choose|j: int| 0 <= j < post.len() && post[j] == x;
                    assert(pre[j] == x);
                }
                if pre.contains(x) {
                    let j = choose|j: int| 0 <= j < pre.len() && pre[j] == x;
                    assert(post[j] == x);
                }
                if x == k@ {
                    assert(post[i as int] == x);
                }
            }
            assert(!pre.contains(k@)) by {
                if pre.contains(k@) {
                    let j = choose|j: int| 0 <= j < pre.len() && pre[j] == k@;
                    assert(ks[j] == ks[i as int]);
                }
            }
            assert forall|x: Seq<char>| #[trigger] acc@.contains_key(x) implies acc@[x].wf() by {
                if x != k@ {
                    assert(before_acc@.contains_key(x));
                    assert(acc@[x] == before_acc@[x]);
                }
            }
            let a = version_sets(old(acc));
            let target = union_sets(a, version_sets(more).restrict(post.to_set()));
            let oldk = if a.contains_key(k@) {
                a[k@]
            } else {
                Set::<VersionModel>::empty()
            };
            assert(version_sets(more)[k@] == v@);
            assert(before.contains_key(k@) ==> before[k@] =~= oldk.union(Set::<VersionModel>::empty()));
            assert(version_sets(acc)[k@] =~= target[k@]) by {
                if before.contains_key(k@) {
                    assert(before[k@] =~= oldk);
                } else {
                    assert(!a.contains_key(k@));
                }
            }
            assert forall|x: Seq<char>| x != k@ implies (#[trigger] version_sets(acc).contains_key(x) == target.contains_key(x)
                && (version_sets(acc).contains_key(x) ==> version_sets(acc)[x] == target[x])) by {
                assert(post.to_set().contains(x) == pre.to_set().contains(x));
                let vm = version_sets(more);
                let rpre = vm.restrict(pre.to_set());
                let rpost = vm.restrict(post.to_set());
                assert(rpre.contains_key(x) == rpost.contains_key(x));
                assert(rpre.contains_key(x) ==> rpre[x] == rpost[x]);
                assert(before == union_sets(a, rpre));
                assert(target == union_sets(a, rpost));
                assert(before.contains_key(x) == target.contains_key(x));
                assert(before.contains_key(x) ==> before[x] == target[x]);
                assert(acc@.contains_key(x) == before_acc@.contains_key(x));
                assert(version_sets(acc).contains_key(x) == acc@.contains_key(x));
                assert(before.contains_key(x) == before_acc@.contains_key(x));
                if acc@.contains_key(x) {
                    assert(acc@[x] == before_acc@[x]);
                    assert(version_sets(acc)[x] == before[x]);
                }
            }
            assert(version_sets(acc) =~= target);
        }
        i += 1;
    }
    proof {
        assert(ks.subrange(0, i as int) =~= ks);
        assert(version_sets(more).restrict(ks.to_set()) =~= version_sets(more));
    }
}

} // verus!
