use vstd::prelude::*;

verus! {

/// Plain model of a semantic version: numeric triple, pre-release and
/// build metadata text.
pub struct VersionModel {
    pub major: u64,
    pub minor: u64,
    pub patch: u64,
    pub pre: Seq<char>,
    pub build: Seq<char>,
}

#[verifier::external_type_specification]
#[verifier::external_body]
pub struct ExSemverVersion(semver::Version);

/// semver's `Version` derives `Clone`, which copies every field.
pub assume_specification[ <semver::Version as Clone>::clone ](v: &semver::Version) -> (r:
    semver::Version)
    ensures
        r == *v,
;

/// What `semver::Version::parse` yields for a text, as a model.
pub uninterp spec fn semver_parse(s: Seq<char>) -> Option<VersionModel>;

/// The total order that semver's derived `Ord` gives on two versions.
pub uninterp spec fn semver_order(a: VersionModel, b: VersionModel) -> core::cmp::Ordering;

/// Decimal digits of a natural number, most significant first.
pub open spec fn decimal(n: nat) -> Seq<char>
    decreases n,
{
    let d = (('0' as u32) + (n % 10) as u32) as char;
    if n < 10 {
        seq![d]
    } else {
        decimal(n / 10).push(d)
    }
}

/// The canonical text of a version: `major.minor.patch[-pre][+build]`.
pub open spec fn version_text(m: VersionModel) -> Seq<char> {
    let core = decimal(m.major as nat) + seq!['.'] + decimal(m.minor as nat) + seq!['.']
        + decimal(m.patch as nat);
    let with_pre = if m.pre.len() == 0 {
        core
    } else {
        core + seq!['-'] + m.pre
    };
    if m.build.len() == 0 {
        with_pre
    } else {
        with_pre + seq!['+'] + m.build
    }
}

/// Lexicographic comparison of the numeric triples of two versions.
pub open spec fn triple_order(a: VersionModel, b: VersionModel) -> core::cmp::Ordering {
    if a.major != b.major {
        if a.major < b.major { core::cmp::Ordering::Less } else { core::cmp::Ordering::Greater }
    } else if a.minor != b.minor {
        if a.minor < b.minor { core::cmp::Ordering::Less } else { core::cmp::Ordering::Greater }
    } else if a.patch != b.patch {
        if a.patch < b.patch { core::cmp::Ordering::Less } else { core::cmp::Ordering::Greater }
    } else {
        core::cmp::Ordering::Equal
    }
}

/// `a` strictly precedes `b`.
pub open spec fn precedes(a: VersionModel, b: VersionModel) -> bool {
    semver_order(a, b) == core::cmp::Ordering::Less
}

/// A semantic version. The plain fields mirror the semver value held beside
/// them; both are only ever set together.
pub struct SemanticVersion {
    major: u64,
    minor: u64,
    patch: u64,
    pre: String,
    build: String,
    inner: semver::Version,
}

impl View for SemanticVersion {
    type V = VersionModel;

    closed spec fn view(&self) -> VersionModel {
        VersionModel {
            major: self.major,
            minor: self.minor,
            patch: self.patch,
            pre: self.pre@,
            build: self.build@,
        }
    }
}

/// Relies on `semver::Version::new`: the three numbers, empty pre-release and
/// build metadata.
#[verifier::external_body]
fn semver_new(major: u64, minor: u64, patch: u64) -> (r: SemanticVersion)
    ensures
        r@ == (VersionModel { major, minor, patch, pre: Seq::empty(), build: Seq::empty() }),
{
    let v = semver::Version::new(major, minor, patch);
    SemanticVersion { major, minor, patch, pre: String::new(), build: String::new(), inner: v }
}

/// Relies on `semver::Version::parse`: the version that the text denotes, if
/// any; the empty text denotes none.
#[verifier::external_body]
fn semver_parse_text(s: &str) -> (r: Option<SemanticVersion>)
    ensures
        semver_parse(s@) == (match r {
            Some(v) => Some(v@),
            None => None::<VersionModel>,
        }),
        s@.len() == 0 ==> r is None,
{
    match semver::Version::parse(s) {
        Ok(v) => Some(SemanticVersion {
            major: v.major,
            minor: v.minor,
            patch: v.patch,
            pre: v.pre.as_str().to_string(),
            build: v.build.as_str().to_string(),
            inner: v,
        }),
        Err(_) => None,
    }
}

/// Relies on semver's derived `Ord` for `Version`: fields compared in order
/// (major, minor, patch numerically, then pre-release, then build metadata),
/// a total order consistent with equality.
#[verifier::external_body]
fn semver_cmp(a: &SemanticVersion, b: &SemanticVersion) -> (r: core::cmp::Ordering)
    ensures
        r == semver_order(a@, b@),
        (r == core::cmp::Ordering::Equal) == (a@ == b@),
        (r == core::cmp::Ordering::Less) == (semver_order(b@, a@) == core::cmp::Ordering::Greater),
        (r == core::cmp::Ordering::Greater) == (semver_order(b@, a@) == core::cmp::Ordering::Less),
        triple_order(a@, b@) != core::cmp::Ordering::Equal ==> r == triple_order(a@, b@),
{
    a.inner.cmp(&b.inner)
}

/// Relies on semver's `Display` for `Version`: `major.minor.patch`, then
/// `-pre` and `+build` when present.
#[verifier::external_body]
fn semver_to_string(v: &SemanticVersion) -> (r: String)
    ensures
        r@ == version_text(v@),
{
    v.inner.to_string()
}

impl Clone for SemanticVersion {
    fn clone(&self) -> (r: Self)
        ensures
            r == *self,
    {
        SemanticVersion {
            major: self.major,
            minor: self.minor,
            patch: self.patch,
            pre: self.pre.clone(),
            build: self.build.clone(),
            inner: self.inner.clone(),
        }
    }
}

impl SemanticVersion {
    /// The release version `major.minor.patch`.
    pub fn new(major: u64, minor: u64, patch: u64) -> (r: SemanticVersion)
        ensures
            r@ == (VersionModel { major, minor, patch, pre: Seq::empty(), build: Seq::empty() }),
    {
        semver_new(major, minor, patch)
    }

    /// Parses a semantic version; `None` when the text is not one.
    pub fn parse(s: &str) -> (r: Option<SemanticVersion>)
        ensures
            semver_parse(s@) == (match r {
                Some(v) => Some(v@),
                None => None::<VersionModel>,
            }),
    {
        semver_parse_text(s)
    }

    pub fn major(&self) -> (r: u64)
        ensures
            r == self@.major,
    {
        self.major
    }

    pub fn minor(&self) -> (r: u64)
        ensures
            r == self@.minor,
    {
        self.minor
    }

    pub fn patch(&self) -> (r: u64)
        ensures
            r == self@.patch,
    {
        self.patch
    }

    pub fn pre(&self) -> (r: &str)
        ensures
            r@ == self@.pre,
    {
        self.pre.as_str()
    }

    pub fn build(&self) -> (r: &str)
        ensures
            r@ == self@.build,
    {
        self.build.as_str()
    }

    /// Compares two versions by semver precedence (build metadata breaking
    /// ties).
    pub fn compare(&self, other: &SemanticVersion) -> (r: core::cmp::Ordering)
        ensures
            r == semver_order(self@, other@),
            (r == core::cmp::Ordering::Equal) == (self@ == other@),
            triple_order(self@, other@) != core::cmp::Ordering::Equal ==> r == triple_order(
                self@,
                other@,
            ),
    {
        semver_cmp(self, other)
    }

    /// Same version.
    pub fn same(&self, other: &SemanticVersion) -> (r: bool)
        ensures
            r == (self@ == other@),
    {
        match semver_cmp(self, other) {
            core::cmp::Ordering::Equal => true,
            _ => false,
        }
    }

    /// The canonical text of the version.
    pub fn to_text(&self) -> (r: String)
        ensures
            r@ == version_text(self@),
    {
        semver_to_string(self)
    }
}


/// Adjacent versions strictly ascend by semver precedence, and no version
/// occurs twice.
pub open spec fn ascending(s: Seq<VersionModel>) -> bool {
    &&& forall|i: int| 0 <= i < s.len() - 1 ==> #[trigger] precedes(s[i], s[i + 1])
    &&& s.no_duplicates()
}

/// Texts joined with a separator between neighbours.
pub open spec fn joined(parts: Seq<Seq<char>>, sep: Seq<char>) -> Seq<char>
    decreases parts.len(),
{
    if parts.len() == 0 {
        Seq::empty()
    } else if parts.len() == 1 {
        parts[0]
    } else {
        joined(parts.drop_last(), sep) + sep + parts.last()
    }
}

/// The texts of a sequence of versions.
pub open spec fn version_texts(s: Seq<VersionModel>) -> Seq<Seq<char>> {
    s.map_values(|m: VersionModel| version_text(m))
}

/// The set of versions observed for one package, without duplicates and in
/// ascending order.
pub struct Versions {
    inner: Vec<SemanticVersion>,
}

impl View for Versions {
    type V = Set<VersionModel>;

    open spec fn view(&self) -> Set<VersionModel> {
        self.items().to_set()
    }
}

impl Versions {
    /// The versions in ascending order.
    pub closed spec fn items(&self) -> Seq<VersionModel> {
        self.inner@.map_values(|v: SemanticVersion| v@)
    }

    pub open spec fn wf(&self) -> bool {
        ascending(self.items())
    }

    /// No version yet.
    pub fn new() -> (r: Versions)
        ensures
            r.wf(),
            r.items() == Seq::<VersionModel>::empty(),
            r@ == Set::<VersionModel>::empty(),
    {
        let r = Versions { inner: Vec::new() };
        proof {
            assert(r.items() =~= Seq::<VersionModel>::empty());
        }
        r
    }

    /// Exactly one version.
    pub fn from_version(v: SemanticVersion) -> (r: Versions)
        ensures
            r.wf(),
            r.items() == seq![v@],
            r@ == Set::<VersionModel>::empty().insert(v@),
    {
        let r = Versions { inner: vec![v] };
        proof {
            assert(r.items() =~= seq![v@]);
            assert(r@ =~= Set::<VersionModel>::empty().insert(v@)) by {
                assert(r.items()[0] == v@);
            }
        }
        r
    }

    pub fn len(&self) -> (r: usize)
        ensures
            r == self.items().len(),
    {
        self.inner.len()
    }

    /// Exact membership.
    pub fn contains(&self, v: &SemanticVersion) -> (r: bool)
        ensures
            r == self@.contains(v@),
    {
        let mut i: usize = 0;
        while i < self.inner.len()
            invariant
                i <= self.inner.len(),
                forall|j: int| 0 <= j < i ==> self.items()[j] != v@,
            decreases self.inner.len() - i,
        {
            if self.inner[i].same(v) {
                proof {
                    assert(self.items()[i as int] == v@);
                }
                return true;
            }
            i += 1;
        }
        proof {
            if self.items().contains(v@) {
                let k = choose|k: int| 0 <= k < self.items().len() && self.items()[k] == v@;
                assert(self.items()[k] == v@);
            }
        }
        false
    }

    /// Adds a version; a version already present leaves the set unchanged.
    pub fn insert(&mut self, v: SemanticVersion)
        requires
            old(self).wf(),
        ensures
            final(self).wf(),
            final(self)@ == old(self)@.insert(v@),
    {
        if self.contains(&v) {
            proof {
                assert(self@ =~= old(self)@.insert(v@));
            }
            return;
        }
        let ghost vm = v@;
        let ghost before = self.items();
        let mut i: usize = 0;
        while i < self.inner.len()
            invariant
                i <= self.inner.len(),
                self.items() == before,
                self.inner@.len() == before.len(),
                !before.contains(vm),
                v@ == vm,
                forall|j: int| 0 <= j < i ==> #[trigger] precedes(before[j], vm),
            ensures
                i <= self.inner.len(),
                self.items() == before,
                forall|j: int| 0 <= j < i ==> #[trigger] precedes(before[j], vm),
                i < self.inner.len() ==> precedes(vm, before[i as int]),
            decreases self.inner.len() - i,
        {
            proof {
                assert(self.items()[i as int] == self.inner@[i as int]@);
                assert(before.contains(before[i as int]));
            }
            let o = semver_cmp(&v, &self.inner[i]);
            match o {
                core::cmp::Ordering::Less => {
                    break;
                },
                core::cmp::Ordering::Equal => {
                    return;
                },
                core::cmp::Ordering::Greater => {
                    i += 1;
                },
            }
        }
        self.inner.insert(i, v);
        proof {
            let after = self.items();
            assert(after =~= before.insert(i as int, vm));
            assert(!before.contains(vm));
            assert forall|k: int| 0 <= k < after.len() - 1 implies #[trigger] precedes(after[k], after[k + 1]) by {
                if k < i - 1 {
                    assert(precedes(before[k], before[k + 1]));
                    assert(after[k] == before[k] && after[k + 1] == before[k + 1]);
                } else if k == i - 1 {
                } else if k == i {
                } else {
                    assert(precedes(before[k - 1], before[(k - 1) + 1]));
                }
            }
            assert forall|a: int, b: int| 0 <= a < b < after.len() implies after[a] != after[b] by {
                if a < i && b < i {
                } else if a < i && b == i {
                    assert(before.contains(before[a]));
                } else if a < i {
                } else if a == i {
                    assert(before.contains(after[b]));
                } else {
                }
            }
            assert(self@ =~= old(self)@.insert(vm)) by {
                assert forall|x: VersionModel| self@.contains(x) <==> old(self)@.insert(vm).contains(x) by {
                    if self@.contains(x) {
                        let k = choose|k: int| 0 <= k < after.len() && after[k] == x;
                        if k < i {
                            assert(before[k] == x);
                        } else if k > i {
                            assert(before[k - 1] == x);
                        }
                    }
                    if old(self)@.contains(x) && x != vm {
                        let k = choose|k: int| 0 <= k < before.len() && before[k] == x;
                        if k < i {
                            assert(after[k] == x);
                        } else {
                            assert(after[k + 1] == x);
                        }
                    }
                    if x == vm {
                        assert(after[i as int] == vm);
                    }
                }
            }
        }
    }

    /// The versions in ascending order.
    pub fn values(&self) -> (r: Vec<SemanticVersion>)
        ensures
            r@.map_values(|v: SemanticVersion| v@) == self.items(),
    {
        let mut r: Vec<SemanticVersion> = Vec::new();
        let mut i: usize = 0;
        while i < self.inner.len()
            invariant
                i <= self.inner.len(),
                r@.len() == i,
                forall|k: int| 0 <= k < i ==> r@[k]@ == self.items()[k],
            decreases self.inner.len() - i,
        {
            let v = self.inner[i].clone();
            proof {
                assert(self.items()[i as int] == self.inner@[i as int]@);
            }
            r.push(v);
            i += 1;
        }
        proof {
            assert(r@.map_values(|v: SemanticVersion| v@) =~= self.items());
        }
        r
    }

    /// The lowest version, if any.
    pub fn first(&self) -> (r: Option<SemanticVersion>)
        ensures
            r is None <==> self.items().len() == 0,
            r matches Some(v) ==> v@ == self.items()[0],
    {
        if self.inner.len() == 0 {
            None
        } else {
            Some(self.inner[0].clone())
        }
    }

    /// The version texts in ascending order, joined by `", "`.
    pub fn joined_text(&self) -> (r: String)
        ensures
            r@ == joined(version_texts(self.items()), seq![',', ' ']),
    {
        let mut body = String::new();
        let mut i: usize = 0;
        while i < self.inner.len()
            invariant
                i <= self.inner.len(),
                body@ == joined(version_texts(self.items()).subrange(0, i as int), seq![',', ' ']),
            decreases self.inner.len() - i,
        {
            let t = self.inner[i].to_text();
            proof {
                let parts = version_texts(self.items());
                assert(self.items()[i as int] == self.inner@[i as int]@);
                assert(parts[i as int] == t@);
                assert(parts.subrange(0, i + 1).drop_last() =~= parts.subrange(0, i as int));
                assert(parts.subrange(0, i + 1).last() == t@);
                if i == 0 {
                    assert(parts.subrange(0, 1) =~= seq![t@]);
                }
            }
            if i > 0 {
                body.append(", ");
                proof {
                    reveal_strlit(", ");
                }
            }
            body.append(t.as_str());
            i += 1;
        }
        proof {
            assert(version_texts(self.items()).subrange(0, i as int) =~= version_texts(self.items()));
        }
        body
    }

    /// The version texts in ascending order, joined by `", "` and bracketed.
    pub fn to_text(&self) -> (r: String)
        ensures
            r@ == seq!['['] + joined(version_texts(self.items()), seq![',', ' ']) + seq![']'],
    {
        let body = self.joined_text();
        let mut r = String::new();
        r.append("[");
        r.append(body.as_str());
        r.append("]");
        proof {
            reveal_strlit("[");
            reveal_strlit("]");
            assert(r@ =~= seq!['['] + body@ + seq![']']);
        }
        r
    }
}

impl Versions {
    /// Adds every version of another set.
    pub fn union_with(&mut self, other: &Versions)
        requires
            old(self).wf(),
        ensures
            final(self).wf(),
            final(self)@ == old(self)@.union(other@),
    {
        let mut i: usize = 0;
        while i < other.inner.len()
            invariant
                self.wf(),
                i <= other.inner.len(),
                self@ == old(self)@.union(other.items().subrange(0, i as int).to_set()),
            decreases other.inner.len() - i,
        {
            let v = other.inner[i].clone();
            let ghost vm = v@;
            self.insert(v);
            proof {
                let pre = other.items().subrange(0, i as int);
                let post = other.items().subrange(0, i + 1);
                assert(post =~= pre.push(vm));
                assert(post.to_set() =~= pre.to_set().insert(vm)) by {
                    assert forall|x: VersionModel| post.contains(x) <==> pre.contains(x) || x == vm by {
                        if post.contains(x) && x != vm {
                            let j = choose|j: int| 0 <= j < post.len() && post[j] == x;
                            assert(pre[j] == x);
                        }
                        if pre.contains(x) {
                            let j = choose|j: int| 0 <= j < pre.len() && pre[j] == x;
                            assert(post[j] == x);
                        }
                        if x == vm {
                            assert(post[i as int] == vm);
                        }
                    }
                }
                assert(self@ =~= old(self)@.union(post.to_set()));
            }
            i += 1;
        }
        proof {
            assert(other.items().subrange(0, i as int) =~= other.items());
        }
    }
}

impl Clone for Versions {
    fn clone(&self) -> (r: Self)
        ensures
            r.items() == self.items(),
    {
        let r = Versions { inner: self.inner.clone() };
        proof {
            assert forall|k: int| 0 <= k < self.inner@.len() implies r.inner@[k] == self.inner@[k] by {
                assert(cloned::<SemanticVersion>(self.inner[k], r.inner[k]));
            }
            assert(r.items() =~= self.items());
        }
        r
    }
}

} // verus!
