use vstd::prelude::*;
use crate::config::{copyright_of, crates_io_url, is_known, lines_view, spdx_of, Config, License};
use crate::log::{BuildLog, PackageUsage};
use crate::version::{SemanticVersion, VersionModel};

verus! {

/// Type of binary.
#[derive(PartialEq, Eq, Structural, Clone, Copy, Debug)]
pub enum BinaryType {
    Application,
    Library,
}

/// An open source license of a dependency.
pub struct OpenSource {
    /// SPDX short identifier.
    pub spdx_short: String,
    /// Copyright lines provided by the author(s), for kinds that carry them.
    pub copyrights: Option<Vec<String>>,
}

/// How a dependency is licensed.
pub enum LicenseType {
    /// Under the vendor's custom license agreement.
    Vendor,
    /// Under one or more open source licenses.
    OpenSource(Vec<OpenSource>),
}

/// A moment in time: seconds and nanoseconds since the Unix epoch, UTC.
#[derive(PartialEq, Eq, Structural, Clone, Copy, Debug)]
pub struct Timestamp {
    pub seconds: i64,
    pub nanos: u32,
}

/// The subject of a bill of materials.
pub struct Subject {
    /// The crate name.
    pub crate_name: String,
    /// URL of the subject crate.
    pub url: String,
    /// Its version.
    pub version: SemanticVersion,
}

/// A dependency linked into the subject.
pub struct Dependency {
    pub crate_name: String,
    pub url: String,
    /// The versions linked, ascending.
    pub versions: Vec<SemanticVersion>,
    pub license: LicenseType,
}

/// Bill of materials.
pub struct Bom {
    pub timestamp: Timestamp,
    pub subject: Subject,
    pub dependencies: Vec<Dependency>,
}

/// Why a bill of materials could not be made.
pub enum BomError {
    /// The subject is not a vendor package of the allow-list.
    SubjectNotVendor(String),
    /// The subject is not in the ledger (after build-only packages are
    /// dropped).
    SubjectNotInLog(String),
    /// The ledger has no version of the subject.
    SubjectWithoutVersion(String),
    /// A dependency is neither a vendor nor a third-party package.
    UnknownDependency(String),
    /// A third-party dependency has an unclassified license.
    UnknownLicense(String),
}

/// Plain model of a `BomError`.
pub enum BomFault {
    SubjectNotVendor(Seq<char>),
    SubjectNotInLog(Seq<char>),
    SubjectWithoutVersion(Seq<char>),
    UnknownDependency(Seq<char>),
    UnknownLicense(Seq<char>),
}

impl BomError {
    pub open spec fn fault(&self) -> BomFault {
        match self {
            BomError::SubjectNotVendor(s) => BomFault::SubjectNotVendor(s@),
            BomError::SubjectNotInLog(s) => BomFault::SubjectNotInLog(s@),
            BomError::SubjectWithoutVersion(s) => BomFault::SubjectWithoutVersion(s@),
            BomError::UnknownDependency(s) => BomFault::UnknownDependency(s@),
            BomError::UnknownLicense(s) => BomFault::UnknownLicense(s@),
        }
    }
}

/// Plain model of a license entry of a dependency.
pub struct OpenSourceModel {
    pub spdx_short: Seq<char>,
    pub copyrights: Option<Seq<Seq<char>>>,
}

/// Plain model of a `LicenseType`.
pub enum LicenseModel {
    Vendor,
    OpenSource(Seq<OpenSourceModel>),
}

/// Plain model of a `Dependency`.
pub struct DependencyModel {
    pub crate_name: Seq<char>,
    pub url: Seq<char>,
    pub versions: Seq<VersionModel>,
    pub license: LicenseModel,
}

pub open spec fn version_views(v: Seq<SemanticVersion>) -> Seq<VersionModel> {
    v.map_values(|x: SemanticVersion| x@)
}

impl OpenSource {
    pub open spec fn model(&self) -> OpenSourceModel {
        OpenSourceModel { spdx_short: self.spdx_short@, copyrights: lines_view(self.copyrights) }
    }
}

impl Dependency {
    pub open spec fn model(&self) -> DependencyModel {
        DependencyModel {
            crate_name: self.crate_name@,
            url: self.url@,
            versions: version_views(self.versions@),
            license: match self.license {
                LicenseType::Vendor => LicenseModel::Vendor,
                LicenseType::OpenSource(v) => LicenseModel::OpenSource(
                    v@.map_values(|o: OpenSource| o.model()),
                ),
            },
        }
    }
}

/// The license entry for one open source license.
pub open spec fn open_source_of(l: License) -> OpenSourceModel {
    OpenSourceModel { spdx_short: spdx_of(&l), copyrights: copyright_of(&l) }
}

/// The bill-of-materials entry for a ledger package: a vendor package, a
/// third-party one with its licenses, or a failure.
pub open spec fn dependency_of(id: Seq<char>, usage: PackageUsage, config: &Config) -> Result<
    DependencyModel,
    BomFault,
> {
    if config.vendor@.contains_key(id) {
        Ok(
            DependencyModel {
                crate_name: id,
                url: config.vendor@[id].url@,
                versions: usage.versions.items(),
                license: LicenseModel::Vendor,
            },
        )
    } else if !config.third_party@.contains_key(id) {
        Err(BomFault::UnknownDependency(id))
    } else {
        let pkg = config.third_party@[id];
        if exists|j: int| 0 <= j < pkg.licenses@.len() && !is_known(&#[trigger] pkg.licenses@[j]) {
            Err(BomFault::UnknownLicense(id))
        } else {
            Ok(
                DependencyModel {
                    crate_name: id,
                    url: crates_io_url(pkg.id@),
                    versions: usage.versions.items(),
                    license: LicenseModel::OpenSource(
                        pkg.licenses@.map_values(|l: License| open_source_of(l)),
                    ),
                },
            )
        }
    }
}

/// The entries for the first `n` packages of the ledger, leaving out
/// build-only packages and the subject; the first failure ends it.
pub open spec fn deps_upto(log: &BuildLog, config: &Config, subject: Seq<char>, n: int) -> Result<
    Seq<DependencyModel>,
    BomFault,
>
    decreases n,
{
    if n <= 0 {
        Ok(seq![])
    } else {
        match deps_upto(log, config, subject, n - 1) {
            Err(e) => Err(e),
            Ok(ds) => {
                let id = log.packages.key_seq()[n - 1];
                if config.build_only@.contains(id) || id == subject {
                    Ok(ds)
                } else {
                    match dependency_of(id, log.packages.val_seq()[n - 1], config) {
                        Err(e) => Err(e),
                        Ok(d) => Ok(ds.push(d)),
                    }
                }
            },
        }
    }
}

/// Copies of a list of versions.
fn copy_versions(v: &Vec<SemanticVersion>) -> (r: Vec<SemanticVersion>)
    ensures
        version_views(r@) == version_views(v@),
{
    let mut r: Vec<SemanticVersion> = Vec::new();
    let mut i: usize = 0;
    while i < v.len()
        invariant
            i <= v.len(),
            r@.len() == i,
            forall|k: int| 0 <= k < i ==> r@[k]@ == v@[k]@,
        decreases v.len() - i,
    {
        r.push(v[i].clone());
        i += 1;
    }
    proof {
        assert(version_views(r@) =~= version_views(v@));
    }
    r
}

/// The bill-of-materials entry for one ledger package.
pub fn dependency_for(id: &str, usage: &PackageUsage, config: &Config) -> (r: Result<Dependency, BomError>)
    requires
        config.wf(),
    ensures
        match dependency_of(id@, *usage, config) {
            Ok(d) => r matches Ok(x) && x.model() == d,
            Err(e) => r matches Err(x) && x.fault() == e,
        },
{
    let values = usage.versions.values();
    proof {
        assert(version_views(values@) =~= usage.versions.items());
    }
    match config.vendor.get(id) {
        Some(pkg) => {
            return Ok(Dependency {
                crate_name: id.to_string(),
                url: pkg.url.clone(),
                versions: values,
                license: LicenseType::Vendor,
            });
        },
        None => {},
    }
    let pkg = match config.third_party.get(id) {
        Some(p) => p,
        None => {
            return Err(BomError::UnknownDependency(id.to_string()));
        },
    };
    let ghost ls = pkg.licenses@;
    let mut licenses: Vec<OpenSource> = Vec::new();
    let mut j: usize = 0;
    while j < pkg.licenses.len()
        invariant
            config.wf(),
            config.third_party@.contains_key(id@),
            !config.vendor@.contains_key(id@),
            *pkg == config.third_party@[id@],
            ls == pkg.licenses@,
            j <= ls.len(),
            forall|q: int| 0 <= q < j ==> is_known(&#[trigger] ls[q]),
            licenses@.len() == j,
            forall|q: int| 0 <= q < j ==> (#[trigger] licenses@[q]).model() == open_source_of(ls[q]),
            licenses@.map_values(|o: OpenSource| o.model()) == ls.subrange(0, j as int).map_values(
                |l: License| open_source_of(l),
            ),
        decreases ls.len() - j,
    {
        let lic = &pkg.licenses[j];
        if !lic.known() {
            proof {
                assert(!is_known(&ls[j as int]));
            }
            return Err(BomError::UnknownLicense(id.to_string()));
        }
        let entry = OpenSource { spdx_short: lic.spdx_short().to_string(), copyrights: lic.copyright() };
        let ghost before = licenses@;
        proof {
            assert(entry.model() == open_source_of(ls[j as int]));
            assert(ls.subrange(0, j + 1) =~= ls.subrange(0, j as int).push(ls[j as int]));
        }
        licenses.push(entry);
        proof {
            assert(licenses@ =~= before.push(entry));
            let lhs = licenses@.map_values(|o: OpenSource| o.model());
            let rhs = ls.subrange(0, j + 1).map_values(|l: License| open_source_of(l));
            assert forall|k: int| 0 <= k < j + 1 implies lhs[k] == rhs[k] by {
                if k < j {
                    assert(licenses@[k] == before[k]);
                }
            }
            assert(licenses@.map_values(|o: OpenSource| o.model()) =~= ls.subrange(0, j + 1).map_values(
                |l: License| open_source_of(l),
            ));
        }
        j += 1;
    }
    proof {
        assert(ls.subrange(0, j as int) =~= ls);
        assert(!exists|q: int| 0 <= q < ls.len() && !is_known(&#[trigger] ls[q]));
    }
    Ok(Dependency {
        crate_name: id.to_string(),
        url: pkg.url(),
        versions: values,
        license: LicenseType::OpenSource(licenses),
    })
}


/// Creates a bill of materials for a subject that is a vendor package of the
/// allow-list. Build-only packages are left out; the subject is recorded
/// with its lowest version; every other package of the ledger becomes a
/// dependency, in identity order.
pub fn create_bom(subject_name: String, log: BuildLog, config: Config, timestamp: Timestamp) -> (r:
    Result<Bom, BomError>)
    requires
        log.wf(),
        config.wf(),
    ensures
        ({
            let s = subject_name@;
            if !config.vendor@.contains_key(s) {
                r matches Err(x) && x.fault() == BomFault::SubjectNotVendor(s)
            } else if config.build_only@.contains(s) || !log.packages@.contains_key(s) {
                r matches Err(x) && x.fault() == BomFault::SubjectNotInLog(s)
            } else if log.packages@[s].versions.items().len() == 0 {
                r matches Err(x) && x.fault() == BomFault::SubjectWithoutVersion(s)
            } else {
                match deps_upto(&log, &config, s, log.packages.key_seq().len() as int) {
                    Err(e) => r matches Err(x) && x.fault() == e,
                    Ok(ds) => r matches Ok(b) && b.timestamp == timestamp && b.subject.crate_name@ == s
                        && b.subject.url@ == config.vendor@[s].url@
                        && b.subject.version@ == log.packages@[s].versions.items()[0]
                        && b.dependencies@.map_values(|d: Dependency| d.model()) == ds,
                }
            }
        }),
{
    let ghost s = subject_name@;
    let subject_pkg = match config.vendor.get(subject_name.as_str()) {
        None => {
            return Err(BomError::SubjectNotVendor(subject_name));
        },
        Some(p) => p,
    };
    if config.build_only.contains(subject_name.as_str()) {
        return Err(BomError::SubjectNotInLog(subject_name));
    }
    let subject_usage = match log.packages.get(subject_name.as_str()) {
        None => {
            return Err(BomError::SubjectNotInLog(subject_name));
        },
        Some(u) => u,
    };
    let subject_version = match subject_usage.versions.first() {
        None => {
            return Err(BomError::SubjectWithoutVersion(subject_name));
        },
        Some(v) => v,
    };
    let subject = Subject {
        crate_name: subject_name.clone(),
        url: subject_pkg.url.clone(),
        version: subject_version,
    };
    let mut dependencies: Vec<Dependency> = Vec::new();
    let mut i: usize = 0;
    proof {
        assert(dependencies@.map_values(|d: Dependency| d.model()) =~= Seq::<DependencyModel>::empty());
    }
    while i < log.packages.len()
        invariant
            log.wf(),
            config.wf(),
            subject_name@ == s,
            config.vendor@.contains_key(s),
            !config.build_only@.contains(s),
            log.packages@.contains_key(s),
            log.packages@[s].versions.items().len() > 0,
            subject.crate_name@ == s,
            subject.url@ == config.vendor@[s].url@,
            subject.version@ == log.packages@[s].versions.items()[0],
            i <= log.packages.key_seq().len(),
            deps_upto(&log, &config, s, i as int) == Ok::<Seq<DependencyModel>, BomFault>(
                dependencies@.map_values(|d: Dependency| d.model()),
            ),
        decreases log.packages.key_seq().len() - i,
    {
        let id = log.packages.key_at(i);
        let usage = log.packages.value_at(i);
        if !config.build_only.contains(id) && !crate::ids::same_id(id, subject_name.as_str()) {
            match dependency_for(id, usage, &config) {
                Err(e) => {
                    proof {
                        lemma_deps_error_sticks(&log, &config, s, i as int + 1);
                    }
                    return Err(e);
                },
                Ok(d) => {
                    let ghost before = dependencies@;
                    dependencies.push(d);
                    proof {
                        assert(dependencies@.map_values(|d: Dependency| d.model()) =~= before.map_values(|d: Dependency| d.model()).push(d.model()));
                    }
                },
            }
        }
        i += 1;
    }
    Ok(Bom { timestamp, subject, dependencies })
}

proof fn lemma_deps_error_sticks(log: &BuildLog, config: &Config, subject: Seq<char>, j: int)
    requires
        0 <= j <= log.packages.key_seq().len(),
        deps_upto(log, config, subject, j) is Err,
    ensures
        deps_upto(log, config, subject, log.packages.key_seq().len() as int) == deps_upto(log, config, subject, j),
    decreases log.packages.key_seq().len() - j,
{
    if j < log.packages.key_seq().len() {
        lemma_deps_error_sticks(log, config, subject, j + 1);
    }
}

} // verus!
