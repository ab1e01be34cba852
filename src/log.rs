use vstd::prelude::*;
use crate::config::Config;
use crate::ids::{same_id, IdMap};
use crate::version::{semver_parse, SemanticVersion, VersionModel, Versions};
use crate::words::{split_words, texts, words};

verus! {

/// The field of a package descriptor.
#[derive(PartialEq, Eq, Structural, Clone, Copy, Debug)]
pub enum EventField {
    Id,
    Version,
    Source,
}

/// Why ingesting build events failed.
pub enum LogError {
    /// A descriptor lacks a field.
    MalformedEvent(EventField),
    /// The version field is not a semantic version.
    BadVersion(String),
    /// One identity was seen with two origins: the new one, then the one
    /// already recorded.
    OriginConflict { id: String, found: String, existing: String },
}

/// Plain model of a `LogError`.
pub enum LogFault {
    MalformedEvent(EventField),
    BadVersion(Seq<char>),
    OriginConflict(Seq<char>, Seq<char>, Seq<char>),
}

impl LogError {
    pub open spec fn fault(&self) -> LogFault {
        match self {
            LogError::MalformedEvent(f) => LogFault::MalformedEvent(*f),
            LogError::BadVersion(s) => LogFault::BadVersion(s@),
            LogError::OriginConflict { id, found, existing } => LogFault::OriginConflict(
                id@,
                found@,
                existing@,
            ),
        }
    }
}

/// Plain model of a package descriptor.
pub struct InfoModel {
    pub id: Seq<char>,
    pub version: VersionModel,
    pub source: Seq<char>,
}

/// What a descriptor `<identity> <version> <source>` denotes: its first
/// three words; later words are ignored.
pub open spec fn descriptor(s: Seq<char>) -> Result<InfoModel, LogFault> {
    let w = words(s);
    if w.len() == 0 {
        Err(LogFault::MalformedEvent(EventField::Id))
    } else if w.len() == 1 {
        Err(LogFault::MalformedEvent(EventField::Version))
    } else if w.len() == 2 {
        Err(LogFault::MalformedEvent(EventField::Source))
    } else {
        match semver_parse(w[1]) {
            None => Err(LogFault::BadVersion(w[1])),
            Some(v) => Ok(InfoModel { id: w[0], version: v, source: w[2] }),
        }
    }
}

/// A package named by a build event.
pub struct PackageInfo {
    pub id: String,
    pub version: SemanticVersion,
    pub source: String,
}

impl View for PackageInfo {
    type V = InfoModel;

    open spec fn view(&self) -> InfoModel {
        InfoModel { id: self.id@, version: self.version@, source: self.source@ }
    }
}

impl PackageInfo {
    /// Parses a package descriptor.
    pub fn from_str(s: &str) -> (r: Result<PackageInfo, LogError>)
        ensures
            match descriptor(s@) {
                Ok(m) => r matches Ok(p) && p@ == m,
                Err(e) => r matches Err(x) && x.fault() == e,
            },
    {
        let w = split_words(s);
        if w.len() == 0 {
            return Err(LogError::MalformedEvent(EventField::Id));
        }
        if w.len() == 1 {
            return Err(LogError::MalformedEvent(EventField::Version));
        }
        if w.len() == 2 {
            return Err(LogError::MalformedEvent(EventField::Source));
        }
        proof {
            assert(texts(w@)[1] == w@[1]@);
            assert(texts(w@)[0] == w@[0]@);
            assert(texts(w@)[2] == w@[2]@);
        }
        match SemanticVersion::parse(w[1].as_str()) {
            None => Err(LogError::BadVersion(w[1].clone())),
            Some(version) => Ok(PackageInfo { id: w[0].clone(), version, source: w[2].clone() }),
        }
    }
}

/// Plain model of what the ledger records for one identity.
pub struct UsageModel {
    pub versions: Set<VersionModel>,
    pub source: Seq<char>,
}

/// The versions and the origin recorded for one identity.
pub struct PackageUsage {
    pub versions: Versions,
    pub source: String,
}

impl View for PackageUsage {
    type V = UsageModel;

    open spec fn view(&self) -> UsageModel {
        UsageModel { versions: self.versions@, source: self.source@ }
    }
}

impl PackageUsage {
    /// The usage of a package seen once.
    pub fn from_info(info: PackageInfo) -> (r: PackageUsage)
        ensures
            r.versions.wf(),
            r@ == (UsageModel { versions: Set::empty().insert(info.version@), source: info.source@ }),
    {
        PackageUsage { versions: Versions::from_version(info.version), source: info.source }
    }
}

/// The ledger as a map from identity to usage.
pub type LedgerModel = Map<Seq<char>, UsageModel>;

/// Merges one descriptor into a ledger: a new identity is added; a known one
/// must keep its origin, and then gains the version.
pub open spec fn merge_spec(m: LedgerModel, info: InfoModel) -> Result<LedgerModel, LogFault> {
    if m.contains_key(info.id) {
        if m[info.id].source != info.source {
            Err(LogFault::OriginConflict(info.id, info.source, m[info.id].source))
        } else {
            Ok(
                m.insert(
                    info.id,
                    UsageModel {
                        versions: m[info.id].versions.insert(info.version),
                        source: info.source,
                    },
                ),
            )
        }
    } else {
        Ok(
            m.insert(
                info.id,
                UsageModel { versions: Set::empty().insert(info.version), source: info.source },
            ),
        )
    }
}

/// Merges descriptors in order; the first failure ends the ingestion.
pub open spec fn ingest_spec(m: LedgerModel, ds: Seq<Seq<char>>) -> Result<LedgerModel, LogFault>
    decreases ds.len(),
{
    if ds.len() == 0 {
        Ok(m)
    } else {
        match ingest_spec(m, ds.drop_last()) {
            Err(e) => Err(e),
            Ok(m2) => match descriptor(ds.last()) {
                Err(e) => Err(e),
                Ok(info) => merge_spec(m2, info),
            },
        }
    }
}

/// A ledger of the packages seen in build events.
pub struct BuildLog {
    pub packages: IdMap<PackageUsage>,
}

impl View for BuildLog {
    type V = LedgerModel;

    open spec fn view(&self) -> LedgerModel {
        self.packages@.map_values(|u: PackageUsage| u@)
    }
}

impl BuildLog {
    pub open spec fn wf(&self) -> bool {
        &&& self.packages.wf()
        &&& forall|k: Seq<char>| #[trigger] self.packages@.contains_key(k) ==> self.packages@[k].versions.wf()
    }

    /// An empty ledger.
    pub fn new() -> (r: BuildLog)
        ensures
            r.wf(),
            r@ == LedgerModel::empty(),
    {
        let r = BuildLog { packages: IdMap::new() };
        proof {
            assert(r@ =~= LedgerModel::empty());
        }
        r
    }

    /// Merges one package into the ledger. On an origin conflict the ledger
    /// is left as it was.
    pub fn merge(&mut self, info: PackageInfo) -> (r: Result<(), LogError>)
        requires
            old(self).wf(),
        ensures
            final(self).wf(),
            match merge_spec(old(self)@, info@) {
                Ok(m) => r is Ok && final(self)@ == m,
                Err(e) => r matches Err(x) && x.fault() == e && final(self)@ == old(self)@,
            },
    {
        let ghost im = info@;
        let PackageInfo { id, version, source } = info;
        match self.packages.get(id.as_str()) {
            Some(existing) => {
                if !same_id(existing.source.as_str(), source.as_str()) {
                    let existing_source = existing.source.clone();
                    return Err(LogError::OriginConflict { id, found: source, existing: existing_source });
                }
            },
            None => {},
        }
        let ghost vm = version@;
        let ghost sm = source@;
        match self.packages.remove(id.as_str()) {
            Some(usage) => {
                let mut usage = usage;
                usage.versions.insert(version);
                let ghost nu = usage;
                self.packages.insert(id, usage);
                proof {
                    assert(nu@ == (UsageModel {
                        versions: old(self)@[im.id].versions.insert(vm),
                        source: sm,
                    }));
                    assert(self@ =~= old(self)@.insert(im.id, nu@));
                }
            },
            None => {
                let usage = PackageUsage { versions: Versions::from_version(version), source };
                let ghost nu = usage;
                self.packages.insert(id, usage);
                proof {
                    assert(self@ =~= old(self)@.insert(im.id, nu@));
                }
            },
        }
        Ok(())
    }

    /// Merges the packages of a stream of descriptors, in order.
    pub fn ingest(&mut self, descriptors: &Vec<String>) -> (r: Result<(), LogError>)
        requires
            old(self).wf(),
        ensures
            final(self).wf(),
            match ingest_spec(old(self)@, texts(descriptors@)) {
                Ok(m) => r is Ok && final(self)@ == m,
                Err(e) => r matches Err(x) && x.fault() == e,
            },
    {
        let ghost ds = texts(descriptors@);
        let mut i: usize = 0;
        while i < descriptors.len()
            invariant
                self.wf(),
                i <= descriptors.len(),
                ds == texts(descriptors@),
                ingest_spec(old(self)@, ds.subrange(0, i as int)) == Ok::<LedgerModel, LogFault>(self@),
            decreases descriptors.len() - i,
        {
            proof {
                assert(ds.subrange(0, i + 1).drop_last() =~= ds.subrange(0, i as int));
                assert(ds.subrange(0, i + 1).last() == descriptors@[i as int]@);
            }
            let info = PackageInfo::from_str(descriptors[i].as_str());
            match info {
                Err(e) => {
                    proof {
                        lemma_ingest_error_sticks(old(self)@, ds, i as int + 1);
                    }
                    return Err(e);
                },
                Ok(info) => {
                    let m = self.merge(info);
                    match m {
                        Err(e) => {
                            proof {
                                lemma_ingest_error_sticks(old(self)@, ds, i as int + 1);
                            }
                            return Err(e);
                        },
                        Ok(()) => {},
                    }
                },
            }
            i += 1;
        }
        proof {
            assert(ds.subrange(0, i as int) =~= ds);
        }
        Ok(())
    }

    /// A ledger built from a stream of descriptors; no ledger on failure.
    pub fn from_descriptors(descriptors: &Vec<String>) -> (r: Result<BuildLog, LogError>)
        ensures
            match ingest_spec(LedgerModel::empty(), texts(descriptors@)) {
                Ok(m) => r matches Ok(log) && log.wf() && log@ == m,
                Err(e) => r matches Err(x) && x.fault() == e,
            },
    {
        let mut log = BuildLog::new();
        match log.ingest(descriptors) {
            Ok(()) => Ok(log),
            Err(e) => Err(e),
        }
    }

    /// Drops the packages that the configuration lists as vendor packages.
    pub fn remove_vendor_deps(&mut self, config: &Config)
        requires
            old(self).wf(),
            config.wf(),
        ensures
            final(self).wf(),
            final(self)@ == old(self)@.remove_keys(config.vendor@.dom()),
            final(self).packages@ == old(self).packages@.remove_keys(config.vendor@.dom()),
    {
        self.packages.remove_keys_of(&config.vendor);
        proof {
            assert(self@ =~= old(self)@.remove_keys(config.vendor@.dom()));
        }
    }

    /// Drops the packages that the configuration lists as build-only.
    pub fn remove_build_deps(&mut self, config: &Config)
        requires
            old(self).wf(),
            config.wf(),
        ensures
            final(self).wf(),
            final(self)@ == old(self)@.remove_keys(config.build_only@),
            final(self).packages@ == old(self).packages@.remove_keys(config.build_only@),
    {
        self.packages.remove_keys_of(config.build_only.as_map());
        proof {
            assert(self@ =~= old(self)@.remove_keys(config.build_only@));
        }
    }
}

/// Once a prefix of the descriptors fails, every longer prefix fails the
/// same way.
proof fn lemma_ingest_error_sticks(m: LedgerModel, ds: Seq<Seq<char>>, j: int)
    requires
        0 <= j <= ds.len(),
        ingest_spec(m, ds.subrange(0, j)) is Err,
    ensures
        ingest_spec(m, ds) == ingest_spec(m, ds.subrange(0, j)),
    decreases ds.len() - j,
{
    if j < ds.len() {
        assert(ds.subrange(0, j + 1).drop_last() =~= ds.subrange(0, j));
        lemma_ingest_error_sticks(m, ds, j + 1);
    } else {
        assert(ds.subrange(0, j) =~= ds);
    }
}


/// The descriptor names the identity.
pub open spec fn names(d: Seq<char>, id: Seq<char>) -> bool {
    descriptor(d) matches Ok(info) && info.id == id
}

/// The descriptor names the identity at the version.
pub open spec fn carries(d: Seq<char>, id: Seq<char>, v: VersionModel) -> bool {
    descriptor(d) matches Ok(info) && info.id == id && info.version == v
}

/// The versions that the descriptors naming an identity carry.
pub open spec fn event_versions(ds: Seq<Seq<char>>, id: Seq<char>) -> Set<VersionModel> {
    Set::new(
        |v: VersionModel|
            exists|i: int|
                0 <= i < ds.len() && #[trigger] carries(ds[i], id, v),
    )
}

proof fn lemma_ingest_accumulates(m0: LedgerModel, ds: Seq<Seq<char>>)
    ensures
        ingest_spec(m0, ds) matches Ok(m) ==> forall|id: Seq<char>|
            {
                &&& #[trigger] m.contains_key(id) <==> (m0.contains_key(id) || exists|i: int|
                    0 <= i < ds.len() && #[trigger] names(ds[i], id))
                &&& m.contains_key(id) ==> m[id].versions == (if m0.contains_key(id) {
                    m0[id].versions
                } else {
                    Set::empty()
                }).union(event_versions(ds, id))
            },
    decreases ds.len(),
{
    if ds.len() == 0 {
        assert forall|id: Seq<char>| event_versions(ds, id) =~= Set::<VersionModel>::empty() by {}
        assert forall|id: Seq<char>| #![auto] (if m0.contains_key(id) {
            m0[id].versions
        } else {
            Set::empty()
        }).union(Set::<VersionModel>::empty()) =~= (if m0.contains_key(id) {
            m0[id].versions
        } else {
            Set::empty()
        }) by {}
    } else {
        let pre = ds.drop_last();
        let d = ds.last();
        lemma_ingest_accumulates(m0, pre);
        if let Ok(m) = ingest_spec(m0, ds) {
            let m1 = ingest_spec(m0, pre)->Ok_0;
            let info = descriptor(d)->Ok_0;
            assert forall|id: Seq<char>|
                {
                    &&& m.contains_key(id) <==> (m0.contains_key(id) || exists|i: int|
                        0 <= i < ds.len() && #[trigger] names(ds[i], id))
                    &&& m.contains_key(id) ==> m[id].versions == (if m0.contains_key(id) {
                        m0[id].versions
                    } else {
                        Set::empty()
                    }).union(event_versions(ds, id))
                } by {
                let base = if m0.contains_key(id) {
                    m0[id].versions
                } else {
                    Set::<VersionModel>::empty()
                };
                if exists|i: int| 0 <= i < pre.len() && #[trigger] names(pre[i], id) {
                    let i = choose|i: int| 0 <= i < pre.len() && #[trigger] names(pre[i], id);
                    assert(names(ds[i], id));
                }
                if exists|i: int| 0 <= i < ds.len() && #[trigger] names(ds[i], id) {
                    let i = choose|i: int| 0 <= i < ds.len() && #[trigger] names(ds[i], id);
                    if i < pre.len() {
                        assert(names(pre[i], id));
                    }
                }
                if id == info.id {
                    assert(names(ds[ds.len() - 1], id));
                    assert(event_versions(ds, id) =~= event_versions(pre, id).insert(info.version)) by {
                        assert forall|v: VersionModel| event_versions(ds, id).contains(v) implies event_versions(pre, id).insert(info.version).contains(v) by {
                            let i = choose|i: int| 0 <= i < ds.len() && #[trigger] carries(ds[i], id, v);
                            if i < pre.len() {
                                assert(descriptor(pre[i]) == descriptor(ds[i]));
                                assert(carries(pre[i], id, v));
                            } else {
                                assert(descriptor(ds[i]) == descriptor(d));
                            }
                        }
                        assert forall|v: VersionModel| event_versions(pre, id).contains(v) implies event_versions(ds, id).contains(v) by {
                            let i = choose|i: int| 0 <= i < pre.len() && #[trigger] carries(pre[i], id, v);
                            assert(descriptor(ds[i]) == descriptor(pre[i]));
                            assert(carries(ds[i], id, v));
                        }
                        assert(descriptor(ds[ds.len() - 1]) == descriptor(d));
                        assert(carries(ds[ds.len() - 1], id, info.version));
                    }
                    if m1.contains_key(id) {
                        assert(m[id].versions =~= base.union(event_versions(ds, id)));
                    } else {
                        assert(!m0.contains_key(id));
                        assert(event_versions(pre, id) =~= Set::<VersionModel>::empty()) by {
                            assert forall|v: VersionModel| !event_versions(pre, id).contains(v) by {
                                if event_versions(pre, id).contains(v) {
                                    let i = choose|i: int| 0 <= i < pre.len() && #[trigger] carries(pre[i], id, v);
                                    assert(names(pre[i], id));
                                }
                            }
                        }
                        assert(m[id].versions =~= base.union(event_versions(ds, id)));
                    }
                } else {
                    assert(event_versions(ds, id) =~= event_versions(pre, id)) by {
                        assert forall|v: VersionModel| event_versions(ds, id).contains(v) implies event_versions(pre, id).contains(v) by {
                            let i = choose|i: int| 0 <= i < ds.len() && #[trigger] carries(ds[i], id, v);
                            if i < pre.len() {
                                assert(descriptor(pre[i]) == descriptor(ds[i]));
                            } else {
                                assert(descriptor(ds[i]) == descriptor(d));
                            }
                        }
                        assert forall|v: VersionModel| event_versions(pre, id).contains(v) implies event_versions(ds, id).contains(v) by {
                            let i = choose|i: int| 0 <= i < pre.len() && #[trigger] carries(pre[i], id, v);
                            assert(descriptor(ds[i]) == descriptor(pre[i]));
                        }
                    }
                    if exists|i: int| 0 <= i < ds.len() && #[trigger] names(ds[i], id) {
                        let i = choose|i: int| 0 <= i < ds.len() && #[trigger] names(ds[i], id);
                        if i == pre.len() {
                            assert(descriptor(ds[i]) == descriptor(d));
                        }
                    }
                }
            }
        }
    }
}

/// The versions that ingestion records for an identity are exactly the
/// versions of the events that name it, whatever their order and however
/// often one repeats; an identity is recorded exactly when an event names it.
pub proof fn lemma_versions_are_union_of_events(ds: Seq<Seq<char>>)
    ensures
        ingest_spec(LedgerModel::empty(), ds) matches Ok(m) ==> forall|id: Seq<char>|
            {
                &&& #[trigger] m.contains_key(id) <==> exists|i: int| 0 <= i < ds.len() && #[trigger] names(ds[i], id)
                &&& m.contains_key(id) ==> m[id].versions == event_versions(ds, id)
            },
{
    lemma_ingest_accumulates(LedgerModel::empty(), ds);
    if let Ok(m) = ingest_spec(LedgerModel::empty(), ds) {
        assert forall|id: Seq<char>| m.contains_key(id) implies m[id].versions == event_versions(ds, id) by {
            assert(Set::<VersionModel>::empty().union(event_versions(ds, id)) =~= event_versions(ds, id));
        }
    }
}

/// Two event streams holding the same events, in any order and with any
/// repetition, that both ingest successfully record the same identities
/// with the same version sets and origins.
pub proof fn lemma_event_order_irrelevant(ds1: Seq<Seq<char>>, ds2: Seq<Seq<char>>)
    requires
        ds1.to_set() == ds2.to_set(),
    ensures
        ingest_spec(LedgerModel::empty(), ds1) matches Ok(m1) ==> ingest_spec(LedgerModel::empty(), ds2) matches Ok(m2) ==> {
            &&& m1.dom() == m2.dom()
            &&& forall|id: Seq<char>| #[trigger] m1.contains_key(id) ==> m1[id].versions == m2[id].versions
                && m1[id].source == m2[id].source
        },
{
    lemma_versions_are_union_of_events(ds1);
    lemma_versions_are_union_of_events(ds2);
    lemma_ingest_sources(ds1);
    lemma_ingest_sources(ds2);
    assert forall|d: Seq<char>| ds1.contains(d) <==> ds2.contains(d) by {
        assert(ds1.to_set().contains(d) == ds1.contains(d));
        assert(ds2.to_set().contains(d) == ds2.contains(d));
    }
    if let Ok(m1) = ingest_spec(LedgerModel::empty(), ds1) {
        if let Ok(m2) = ingest_spec(LedgerModel::empty(), ds2) {
            assert forall|id: Seq<char>| m1.contains_key(id) <==> #[trigger] m2.contains_key(id) by {
                if exists|i: int| 0 <= i < ds1.len() && #[trigger] names(ds1[i], id) {
                    let i = choose|i: int| 0 <= i < ds1.len() && #[trigger] names(ds1[i], id);
                    assert(ds1.contains(ds1[i]));
                    let j = choose|j: int| 0 <= j < ds2.len() && ds2[j] == ds1[i];
                    assert(names(ds2[j], id));
                }
                if exists|i: int| 0 <= i < ds2.len() && #[trigger] names(ds2[i], id) {
                    let i = choose|i: int| 0 <= i < ds2.len() && #[trigger] names(ds2[i], id);
                    assert(ds2.contains(ds2[i]));
                    let j = choose|j: int| 0 <= j < ds1.len() && ds1[j] == ds2[i];
                    assert(names(ds1[j], id));
                }
            }
            assert(m1.dom() =~= m2.dom());
            assert forall|id: Seq<char>| #[trigger] m1.contains_key(id) implies m1[id].versions == m2[id].versions
                && m1[id].source == m2[id].source by {
                let i = choose|i: int| 0 <= i < ds1.len() && #[trigger] names(ds1[i], id);
                assert(ds1.contains(ds1[i]));
                let j = choose|j: int| 0 <= j < ds2.len() && ds2[j] == ds1[i];
                assert(descriptor(ds1[i]) is Ok);
                assert(descriptor(ds2[j]) is Ok);
                assert(event_versions(ds1, id) =~= event_versions(ds2, id)) by {
                    assert forall|v: VersionModel| event_versions(ds1, id).contains(v) implies event_versions(ds2, id).contains(v) by {
                        let i = choose|i: int| 0 <= i < ds1.len() && #[trigger] carries(ds1[i], id, v);
                        assert(ds1.contains(ds1[i]));
                        let j = choose|j: int| 0 <= j < ds2.len() && ds2[j] == ds1[i];
                        assert(descriptor(ds2[j]) == descriptor(ds1[i]));
                    }
                    assert forall|v: VersionModel| event_versions(ds2, id).contains(v) implies event_versions(ds1, id).contains(v) by {
                        let i = choose|i: int| 0 <= i < ds2.len() && #[trigger] carries(ds2[i], id, v);
                        assert(ds2.contains(ds2[i]));
                        let j = choose|j: int| 0 <= j < ds1.len() && ds1[j] == ds2[i];
                        assert(descriptor(ds1[j]) == descriptor(ds2[i]));
                    }
                }
            }
        }
    }
}

/// Two events for one identity with different origins never ingest: the
/// second fails with an origin conflict, or the first already did.
pub proof fn lemma_origin_conflict(m: LedgerModel, da: Seq<char>, db: Seq<char>)
    requires
        descriptor(da) matches Ok(a) && descriptor(db) matches Ok(b) && a.id == b.id && a.source != b.source,
    ensures
        ingest_spec(m, seq![da, db]) matches Err(e) && e is OriginConflict,
{
    let s = seq![da, db];
    let a = descriptor(da)->Ok_0;
    let b = descriptor(db)->Ok_0;
    assert(s.drop_last() =~= seq![da]);
    assert(seq![da].drop_last() =~= Seq::<Seq<char>>::empty());
    assert(ingest_spec(m, Seq::<Seq<char>>::empty()) == Ok::<LedgerModel, LogFault>(m));
    assert(ingest_spec(m, seq![da]) == merge_spec(m, a));
    match merge_spec(m, a) {
        Ok(m2) => {
            assert(m2.contains_key(a.id) && m2[a.id].source == a.source);
            assert(ingest_spec(m, s) == merge_spec(m2, b));
        },
        Err(e) => {
            assert(ingest_spec(m, s) == Err::<LedgerModel, LogFault>(e));
        },
    }
}


/// Every descriptor of the stream parses.
pub open spec fn well_formed(ds: Seq<Seq<char>>) -> bool {
    forall|i: int| 0 <= i < ds.len() ==> #[trigger] descriptor(ds[i]) is Ok
}

/// Descriptors that name the same identity carry the same origin.
pub open spec fn origin_consistent(ds: Seq<Seq<char>>) -> bool {
    forall|i: int, j: int|
        0 <= i < ds.len() && 0 <= j < ds.len() && #[trigger] descriptor(ds[i]) is Ok
            && #[trigger] descriptor(ds[j]) is Ok && descriptor(ds[i])->Ok_0.id == descriptor(
            ds[j],
        )->Ok_0.id ==> descriptor(ds[i])->Ok_0.source == descriptor(ds[j])->Ok_0.source
}

/// The descriptor names the identity with the origin.
pub open spec fn carries_origin(d: Seq<char>, id: Seq<char>, source: Seq<char>) -> bool {
    descriptor(d) matches Ok(info) && info.id == id && info.source == source
}

/// The failure is an origin conflict between two different origins, each
/// carried by some descriptor of the stream for that identity.
pub open spec fn conflict_witnessed(ds: Seq<Seq<char>>, e: LogFault) -> bool {
    e matches LogFault::OriginConflict(id, found, existing) && found != existing && (exists|i: int|
        0 <= i < ds.len() && #[trigger] carries_origin(ds[i], id, found)) && (exists|j: int|
        0 <= j < ds.len() && #[trigger] carries_origin(ds[j], id, existing))
}

/// After a successful ingestion every parsed descriptor's identity is
/// recorded with that descriptor's origin.
proof fn lemma_ingest_sources(ds: Seq<Seq<char>>)
    ensures
        ingest_spec(LedgerModel::empty(), ds) matches Ok(m) ==> forall|i: int|
            0 <= i < ds.len() && #[trigger] descriptor(ds[i]) is Ok ==> m.contains_key(
                descriptor(ds[i])->Ok_0.id,
            ) && m[descriptor(ds[i])->Ok_0.id].source == descriptor(ds[i])->Ok_0.source,
    decreases ds.len(),
{
    if ds.len() > 0 {
        let pre = ds.drop_last();
        lemma_ingest_sources(pre);
        if let Ok(m) = ingest_spec(LedgerModel::empty(), ds) {
            let m1 = ingest_spec(LedgerModel::empty(), pre)->Ok_0;
            let info = descriptor(ds.last())->Ok_0;
            assert(merge_spec(m1, info) == Ok::<LedgerModel, LogFault>(m));
            assert forall|i: int| 0 <= i < ds.len() && #[trigger] descriptor(ds[i]) is Ok implies m.contains_key(
                descriptor(ds[i])->Ok_0.id,
            ) && m[descriptor(ds[i])->Ok_0.id].source == descriptor(ds[i])->Ok_0.source by {
                if i < pre.len() {
                    assert(pre[i] == ds[i]);
                    assert(descriptor(pre[i]) is Ok);
                }
            }
        }
    }
}

/// A well-formed, origin-consistent stream always ingests.
proof fn lemma_consistent_ingests(ds: Seq<Seq<char>>)
    requires
        well_formed(ds),
        origin_consistent(ds),
    ensures
        ingest_spec(LedgerModel::empty(), ds) is Ok,
    decreases ds.len(),
{
    if ds.len() > 0 {
        let pre = ds.drop_last();
        assert forall|i: int| 0 <= i < pre.len() implies #[trigger] descriptor(pre[i]) is Ok by {
            assert(pre[i] == ds[i]);
        }
        assert forall|i: int, j: int|
            0 <= i < pre.len() && 0 <= j < pre.len() && #[trigger] descriptor(pre[i]) is Ok
                && #[trigger] descriptor(pre[j]) is Ok && descriptor(pre[i])->Ok_0.id == descriptor(
                pre[j],
            )->Ok_0.id implies descriptor(pre[i])->Ok_0.source == descriptor(pre[j])->Ok_0.source by {
            assert(pre[i] == ds[i] && pre[j] == ds[j]);
        }
        lemma_consistent_ingests(pre);
        lemma_ingest_accumulates(LedgerModel::empty(), pre);
        lemma_ingest_sources(pre);
        let m1 = ingest_spec(LedgerModel::empty(), pre)->Ok_0;
        let last = ds.len() - 1;
        assert(descriptor(ds[last]) is Ok);
        let info = descriptor(ds[last])->Ok_0;
        if m1.contains_key(info.id) {
            let i = choose|i: int| 0 <= i < pre.len() && #[trigger] names(pre[i], info.id);
            assert(pre[i] == ds[i]);
            assert(descriptor(ds[i]) is Ok);
            assert(m1[info.id].source == descriptor(ds[i])->Ok_0.source);
        }
    }
}

/// In a stream whose descriptors all parse, ingestion can only fail by an
/// origin conflict that two descriptors of the stream witness.
proof fn lemma_ingest_conflict_witnesses(ds: Seq<Seq<char>>)
    requires
        well_formed(ds),
    ensures
        ingest_spec(LedgerModel::empty(), ds) matches Err(e) ==> conflict_witnessed(ds, e),
    decreases ds.len(),
{
    if ds.len() > 0 {
        let pre = ds.drop_last();
        assert forall|i: int| 0 <= i < pre.len() implies #[trigger] descriptor(pre[i]) is Ok by {
            assert(pre[i] == ds[i]);
        }
        lemma_ingest_conflict_witnesses(pre);
        if let Err(e) = ingest_spec(LedgerModel::empty(), ds) {
            match ingest_spec(LedgerModel::empty(), pre) {
                Err(e1) => {
                    assert(e == e1);
                    let id = e->OriginConflict_0;
                    let a = e->OriginConflict_1;
                    let b = e->OriginConflict_2;
                    let i = choose|i: int| 0 <= i < pre.len() && #[trigger] carries_origin(pre[i], id, a);
                    let j = choose|j: int| 0 <= j < pre.len() && #[trigger] carries_origin(pre[j], id, b);
                    assert(pre[i] == ds[i] && pre[j] == ds[j]);
                    assert(carries_origin(ds[i], id, a));
                    assert(carries_origin(ds[j], id, b));
                },
                Ok(m1) => {
                    let last = ds.len() - 1;
                    assert(descriptor(ds[last]) is Ok);
                    let info = descriptor(ds[last])->Ok_0;
                    lemma_ingest_accumulates(LedgerModel::empty(), pre);
                    lemma_ingest_sources(pre);
                    assert(m1.contains_key(info.id));
                    let i = choose|i: int| 0 <= i < pre.len() && #[trigger] names(pre[i], info.id);
                    assert(pre[i] == ds[i]);
                    assert(descriptor(pre[i]) is Ok);
                    assert(carries_origin(ds[i], info.id, m1[info.id].source));
                    assert(carries_origin(ds[last], info.id, info.source));
                },
            }
        }
    }
}

/// A well-formed stream in which descriptors of one identity agree on the
/// origin always ingests: the ledger records exactly the identities named,
/// each with the union of the versions of its descriptors (never empty) and
/// with their common origin.
pub proof fn lemma_consistent_stream_ingests(ds: Seq<Seq<char>>)
    requires
        well_formed(ds),
        origin_consistent(ds),
    ensures
        ingest_spec(LedgerModel::empty(), ds) matches Ok(m) && (forall|id: Seq<char>|
            {
                &&& #[trigger] m.contains_key(id) <==> exists|i: int| 0 <= i < ds.len() && #[trigger] names(ds[i], id)
                &&& m.contains_key(id) ==> m[id].versions == event_versions(ds, id) && m[id].versions.len() > 0
            }) && (forall|i: int|
            0 <= i < ds.len() ==> #[trigger] m[descriptor(ds[i])->Ok_0.id].source == descriptor(ds[i])->Ok_0.source),
{
    lemma_consistent_ingests(ds);
    lemma_versions_are_union_of_events(ds);
    lemma_ingest_sources(ds);
    let m = ingest_spec(LedgerModel::empty(), ds)->Ok_0;
    assert forall|id: Seq<char>| #[trigger] m.contains_key(id) implies m[id].versions.len() > 0 by {
        let i = choose|i: int| 0 <= i < ds.len() && #[trigger] names(ds[i], id);
        let v = descriptor(ds[i])->Ok_0.version;
        assert(carries(ds[i], id, v));
        assert(event_versions(ds, id).contains(v));
        assert(m[id].versions.contains(v));
        assert(m[id].versions.finite()) by {
            lemma_versions_finite(ds, id);
        }
    }
    assert forall|i: int| 0 <= i < ds.len() implies #[trigger] m[descriptor(ds[i])->Ok_0.id].source == descriptor(ds[i])->Ok_0.source by {
        assert(descriptor(ds[i]) is Ok);
    }
}

/// The versions of the descriptors of one identity form a finite set.
proof fn lemma_versions_finite(ds: Seq<Seq<char>>, id: Seq<char>)
    ensures
        event_versions(ds, id).finite(),
{
    let f = |i: int| descriptor(ds[i])->Ok_0.version;
    let idx = Set::new(|i: int| 0 <= i < ds.len());
    assert(idx =~= vstd::set_lib::set_int_range(0, ds.len() as int));
    vstd::set_lib::lemma_int_range(0, ds.len() as int);
    let img = idx.map(f);
    idx.lemma_map_finite(f);
    assert forall|v: VersionModel| event_versions(ds, id).contains(v) implies img.contains(v) by {
        let i = choose|i: int| 0 <= i < ds.len() && #[trigger] carries(ds[i], id, v);
        assert(idx.contains(i));
        assert(f(i) == v);
    }
    vstd::set_lib::lemma_len_subset(event_versions(ds, id), img);
}

/// A well-formed stream in which two descriptors name one identity with
/// different origins never ingests: it fails with an origin conflict between
/// two different origins that descriptors of the stream carry for one
/// identity.
pub proof fn lemma_conflicting_origins_fail(ds: Seq<Seq<char>>, i: int, j: int)
    requires
        well_formed(ds),
        0 <= i < ds.len(),
        0 <= j < ds.len(),
        descriptor(ds[i])->Ok_0.id == descriptor(ds[j])->Ok_0.id,
        descriptor(ds[i])->Ok_0.source != descriptor(ds[j])->Ok_0.source,
    ensures
        ingest_spec(LedgerModel::empty(), ds) matches Err(e) && conflict_witnessed(ds, e),
{
    lemma_ingest_sources(ds);
    assert(descriptor(ds[i]) is Ok && descriptor(ds[j]) is Ok);
    lemma_ingest_conflict_witnesses(ds);
}

/// Ingesting two streams one after the other is ingesting their
/// concatenation, so laws about one stream hold of several files merged into
/// one ledger.
pub proof fn lemma_ingest_concat(m: LedgerModel, a: Seq<Seq<char>>, b: Seq<Seq<char>>)
    ensures
        ingest_spec(m, a + b) == match ingest_spec(m, a) {
            Ok(m1) => ingest_spec(m1, b),
            Err(e) => Err(e),
        },
    decreases b.len(),
{
    if b.len() == 0 {
        assert(a + b =~= a);
    } else {
        lemma_ingest_concat(m, a, b.drop_last());
        assert((a + b).drop_last() =~= a + b.drop_last());
        assert((a + b).last() == b.last());
    }
}

} // verus!
