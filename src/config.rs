use vstd::prelude::*;
use crate::ids::{IdMap, IdSet};

verus! {

/// The line that stands for a copyright statement the author did not give.
pub const NO_COPYRIGHT_LINE: &'static str = "No copyright statement was provided by the author even though they license may refer to it";

/// A copyright statement associated with a license.
pub enum Copyright {
    /// The statement, one or more lines.
    Lines(Vec<String>),
    /// The author gave no statement.
    NotPresent,
}

/// The lines of a copyright as texts.
pub open spec fn copyright_lines(c: &Copyright) -> Seq<Seq<char>> {
    match c {
        Copyright::Lines(v) => v@.map_values(|s: String| s@),
        Copyright::NotPresent => seq![NO_COPYRIGHT_LINE@],
    }
}

/// Copies of a list of texts.
pub fn copy_lines(v: &Vec<String>) -> (r: Vec<String>)
    ensures
        r@.map_values(|s: String| s@) == v@.map_values(|s: String| s@),
{
    let mut r: Vec<String> = Vec::new();
    let mut i: usize = 0;
    while i < v.len()
        invariant
            i <= v.len(),
            r@.len() == i,
            forall|k: int| 0 <= k < i ==> r@[k]@ == v@[k]@,
        decreases v.len() - i,
    {
        r.push(v[i].clone());
        i += 1;
    }
    proof {
        assert(r@.map_values(|s: String| s@) =~= v@.map_values(|s: String| s@));
    }
    r
}

impl Copyright {
    /// The lines to print: the statement, or the fixed placeholder line.
    pub fn lines(&self) -> (r: Vec<String>)
        ensures
            r@.map_values(|s: String| s@) == copyright_lines(self),
    {
        match self {
            Copyright::Lines(x) => copy_lines(x),
            Copyright::NotPresent => {
                let r = vec![NO_COPYRIGHT_LINE.to_string()];
                proof {
                    assert(r@.map_values(|s: String| s@) =~= copyright_lines(self));
                }
                r
            },
        }
    }
}

/// Where information about a crate can be found.
pub enum Source {
    /// The crate came from crates.io.
    CratesIo,
}

/// Information about a license.
pub struct LicenseInfo {
    /// URL of the license.
    pub url: String,
    /// Text of the license.
    pub text: String,
}

/// The full license texts, one per known license, loaded once.
pub struct LicenseTexts {
    pub isc: String,
    pub mit: String,
    pub openssl: String,
    pub bsl1: String,
    pub mpl2: String,
    pub bsd3: String,
    pub unicode_dfs_2016: String,
}

impl LicenseTexts {
    /// Every text is present.
    pub open spec fn wf(&self) -> bool {
        &&& self.isc@.len() > 0
        &&& self.mit@.len() > 0
        &&& self.openssl@.len() > 0
        &&& self.bsl1@.len() > 0
        &&& self.mpl2@.len() > 0
        &&& self.bsd3@.len() > 0
        &&& self.unicode_dfs_2016@.len() > 0
    }

    /// Whether every text is present.
    pub fn all_present(&self) -> (r: bool)
        ensures
            r == self.wf(),
    {
        !self.isc.as_str().is_empty() && !self.mit.as_str().is_empty()
            && !self.openssl.as_str().is_empty() && !self.bsl1.as_str().is_empty()
            && !self.mpl2.as_str().is_empty() && !self.bsd3.as_str().is_empty()
            && !self.unicode_dfs_2016.as_str().is_empty()
    }
}

/// A license, some kinds with a copyright statement.
pub enum License {
    /// A license that has not been classified yet.
    Unknown,
    Isc { copyright: Copyright },
    Mit { copyright: Copyright },
    /// OpenSSL / SSLeay license.
    OpenSsl,
    /// Boost software license v1.
    Bsl1,
    /// Mozilla Public License 2.0.
    Mpl2,
    /// 3-clause BSD.
    Bsd3 { copyright: Copyright },
    /// Unicode License Agreement - Data Files and Software (2016).
    UnicodeDfs2016,
}

/// The license is one of the known kinds.
pub open spec fn is_known(l: &License) -> bool {
    !(l is Unknown)
}

/// SPDX short identifier of a license.
pub open spec fn spdx_of(l: &License) -> Seq<char> {
    match l {
        License::Isc { .. } => "ISC"@,
        License::Mit { .. } => "MIT"@,
        License::OpenSsl => "OpenSSL"@,
        License::Bsl1 => "BSL-1.0"@,
        License::Mpl2 => "MPL-2.0"@,
        License::Bsd3 { .. } => "BSD-3-Clause"@,
        License::UnicodeDfs2016 => "Unicode-DFS-2016"@,
        License::Unknown => Seq::empty(),
    }
}

/// Reference URL of a license.
pub open spec fn url_of(l: &License) -> Seq<char> {
    match l {
        License::Isc { .. } => "https://spdx.org/licenses/ISC.html"@,
        License::Mit { .. } => "https://spdx.org/licenses/MIT.html"@,
        License::OpenSsl => "https://spdx.org/licenses/OpenSSL.html"@,
        License::Bsl1 => "https://spdx.org/licenses/BSL-1.0.html"@,
        License::Mpl2 => "https://spdx.org/licenses/MPL-2.0.html"@,
        License::Bsd3 { .. } => "https://spdx.org/licenses/BSD-3-Clause.html"@,
        License::UnicodeDfs2016 => "https://spdx.org/licenses/Unicode-DFS-2016.html"@,
        License::Unknown => Seq::empty(),
    }
}

/// Full text of a license, from the loaded texts.
pub open spec fn text_of(l: &License, texts: &LicenseTexts) -> Seq<char> {
    match l {
        License::Isc { .. } => texts.isc@,
        License::Mit { .. } => texts.mit@,
        License::OpenSsl => texts.openssl@,
        License::Bsl1 => texts.bsl1@,
        License::Mpl2 => texts.mpl2@,
        License::Bsd3 { .. } => texts.bsd3@,
        License::UnicodeDfs2016 => texts.unicode_dfs_2016@,
        License::Unknown => Seq::empty(),
    }
}

/// Copyright lines that a license contributes; `None` for kinds without a
/// copyright statement.
pub open spec fn copyright_of(l: &License) -> Option<Seq<Seq<char>>> {
    match l {
        License::Isc { copyright } => Some(copyright_lines(copyright)),
        License::Mit { copyright } => Some(copyright_lines(copyright)),
        License::Bsd3 { copyright } => Some(copyright_lines(copyright)),
        _ => None,
    }
}

/// Optional lines in a form that an exec result can be held to.
pub open spec fn lines_view(r: Option<Vec<String>>) -> Option<Seq<Seq<char>>> {
    match r {
        Some(v) => Some(v@.map_values(|s: String| s@)),
        None => None,
    }
}

impl License {
    /// URL and text of the license.
    pub fn info(&self, texts: &LicenseTexts) -> (r: LicenseInfo)
        requires
            is_known(self),
            texts.wf(),
        ensures
            r.url@ == url_of(self),
            r.text@ == text_of(self, texts),
            r.text@.len() > 0,
    {
        LicenseInfo { url: self.url().to_string(), text: self.text(texts).to_string() }
    }

    /// Copyright lines provided by the author(s), for the kinds that carry
    /// them.
    pub fn copyright(&self) -> (r: Option<Vec<String>>)
        ensures
            lines_view(r) == copyright_of(self),
    {
        match self {
            License::Isc { copyright } => Some(copyright.lines()),
            License::Mit { copyright } => Some(copyright.lines()),
            License::Bsd3 { copyright } => Some(copyright.lines()),
            _ => None,
        }
    }

    /// Same as `copyright`, for a license known to be classified.
    pub fn copyrights(&self) -> (r: Option<Vec<String>>)
        requires
            is_known(self),
        ensures
            lines_view(r) == copyright_of(self),
    {
        self.copyright()
    }

    /// The full text of the license.
    pub fn text<'a>(&self, texts: &'a LicenseTexts) -> (r: &'a str)
        requires
            is_known(self),
            texts.wf(),
        ensures
            r@ == text_of(self, texts),
            r@.len() > 0,
    {
        match self {
            License::Isc { .. } => texts.isc.as_str(),
            License::Mit { .. } => texts.mit.as_str(),
            License::OpenSsl => texts.openssl.as_str(),
            License::Bsl1 => texts.bsl1.as_str(),
            License::Mpl2 => texts.mpl2.as_str(),
            License::Bsd3 { .. } => texts.bsd3.as_str(),
            License::UnicodeDfs2016 => texts.unicode_dfs_2016.as_str(),
            License::Unknown => texts.isc.as_str(),
        }
    }

    /// SPDX short identifier of the license.
    pub fn spdx_short(&self) -> (r: &'static str)
        requires
            is_known(self),
        ensures
            r@ == spdx_of(self),
    {
        proof {
            reveal_strlit("ISC");
            reveal_strlit("MIT");
            reveal_strlit("OpenSSL");
            reveal_strlit("BSL-1.0");
            reveal_strlit("MPL-2.0");
            reveal_strlit("BSD-3-Clause");
            reveal_strlit("Unicode-DFS-2016");
        }
        match self {
            License::Isc { .. } => "ISC",
            License::Mit { .. } => "MIT",
            License::OpenSsl => "OpenSSL",
            License::Bsl1 => "BSL-1.0",
            License::Mpl2 => "MPL-2.0",
            License::Bsd3 { .. } => "BSD-3-Clause",
            License::UnicodeDfs2016 => "Unicode-DFS-2016",
            License::Unknown => "",
        }
    }

    /// The URL with information about the license.
    pub fn url(&self) -> (r: &'static str)
        requires
            is_known(self),
        ensures
            r@ == url_of(self),
    {
        match self {
            License::Isc { .. } => "https://spdx.org/licenses/ISC.html",
            License::Mit { .. } => "https://spdx.org/licenses/MIT.html",
            License::OpenSsl => "https://spdx.org/licenses/OpenSSL.html",
            License::Bsl1 => "https://spdx.org/licenses/BSL-1.0.html",
            License::Mpl2 => "https://spdx.org/licenses/MPL-2.0.html",
            License::Bsd3 { .. } => "https://spdx.org/licenses/BSD-3-Clause.html",
            License::UnicodeDfs2016 => "https://spdx.org/licenses/Unicode-DFS-2016.html",
            License::Unknown => "",
        }
    }

    /// Whether the license is one of the known kinds.
    pub fn known(&self) -> (r: bool)
        ensures
            r == is_known(self),
    {
        match self {
            License::Unknown => false,
            _ => true,
        }
    }
}

/// Information about an allowed third-party package.
pub struct Package {
    /// Identity of the package.
    pub id: String,
    /// Where the package came from.
    pub source: Source,
    /// Its licenses, in order.
    pub licenses: Vec<License>,
}

/// The page of a crates.io package.
pub open spec fn crates_io_url(id: Seq<char>) -> Seq<char> {
    "https://crates.io/crates/"@ + id
}

impl Package {
    /// Where the package can be found.
    pub fn url(&self) -> (r: String)
        ensures
            r@ == crates_io_url(self.id@),
    {
        match self.source {
            Source::CratesIo => {
                let mut r = "https://crates.io/crates/".to_string();
                r.append(self.id.as_str());
                r
            },
        }
    }
}

#[verifier::external_type_specification]
#[verifier::external_body]
pub struct ExLicenseChoice(cyclonedx_bom::models::license::LicenseChoice);

#[verifier::external_type_specification]
#[verifier::external_body]
pub struct ExNormalizedString(cyclonedx_bom::external_models::normalized_string::NormalizedString);

#[verifier::external_type_specification]
#[verifier::external_body]
pub struct ExUri(cyclonedx_bom::external_models::uri::Uri);

/// The license choice that cyclonedx-bom's lax SPDX parsing makes of a text,
/// if it accepts it.
pub uninterp spec fn spdx_lax_choice(s: Seq<char>) -> Option<cyclonedx_bom::models::license::LicenseChoice>;

/// The URI that cyclonedx-bom makes of a text, if it accepts it.
pub uninterp spec fn uri_from_text(s: Seq<char>) -> Option<cyclonedx_bom::external_models::uri::Uri>;

/// The normalized string that cyclonedx-bom makes of a text.
pub uninterp spec fn normalized_text(s: Seq<char>) -> cyclonedx_bom::external_models::normalized_string::NormalizedString;

/// The license record named by a text, with a URL and nothing else.
pub uninterp spec fn named_license_choice(
    name: cyclonedx_bom::external_models::normalized_string::NormalizedString,
    url: cyclonedx_bom::external_models::uri::Uri,
) -> cyclonedx_bom::models::license::LicenseChoice;

/// Relies on `cyclonedx_bom::external_models::spdx::SpdxExpression::parse_lax`:
/// the outcome depends on the text alone; an accepted expression becomes a
/// license choice.
#[verifier::external_body]
fn spdx_expression_choice(s: &str) -> (r: Option<cyclonedx_bom::models::license::LicenseChoice>)
    ensures
        r == spdx_lax_choice(s@),
{
    cyclonedx_bom::external_models::spdx::SpdxExpression::parse_lax(s.to_string()).ok().map(
        cyclonedx_bom::models::license::LicenseChoice::Expression,
    )
}

/// Relies on `cyclonedx_bom::external_models::normalized_string::NormalizedString::new`:
/// the result depends on the text alone.
#[verifier::external_body]
fn normalized(s: &str) -> (r: cyclonedx_bom::external_models::normalized_string::NormalizedString)
    ensures
        r == normalized_text(s@),
{
    cyclonedx_bom::external_models::normalized_string::NormalizedString::new(s)
}

/// Relies on `TryFrom<String>` for `cyclonedx_bom::external_models::uri::Uri`:
/// the outcome depends on the text alone.
#[verifier::external_body]
fn uri_of(s: &str) -> (r: Option<cyclonedx_bom::external_models::uri::Uri>)
    ensures
        r == uri_from_text(s@),
{
    cyclonedx_bom::external_models::uri::Uri::try_from(s.to_string()).ok()
}

/// Relies on cyclonedx-bom's `License` record: a license named by text,
/// with a URL and nothing else.
#[verifier::external_body]
fn named_license(
    name: cyclonedx_bom::external_models::normalized_string::NormalizedString,
    url: cyclonedx_bom::external_models::uri::Uri,
) -> (r: cyclonedx_bom::models::license::LicenseChoice)
    ensures
        r == named_license_choice(name, url),
{
    cyclonedx_bom::models::license::LicenseChoice::License(cyclonedx_bom::models::license::License {
        bom_ref: None,
        license_identifier: cyclonedx_bom::models::license::LicenseIdentifier::Name(name),
        text: None,
        url: Some(url),
        licensing: None,
        properties: None,
    })
}

/// Why license records for a bill of materials could not be made.
pub enum LicenseError {
    /// The SPDX identifier was not accepted as an expression.
    InvalidSpdx(String),
    /// The license URL was not accepted as a URI.
    InvalidUri(String),
}

/// The copyright lines of a package's licenses, license by license.
pub open spec fn package_copyright_lines(ls: Seq<License>) -> Seq<Seq<char>>
    decreases ls.len(),
{
    if ls.len() == 0 {
        seq![]
    } else {
        package_copyright_lines(ls.drop_last()) + match copyright_of(&ls.last()) {
            Some(lines) => lines,
            None => seq![],
        }
    }
}

/// Lines joined with a line feed between neighbours.
pub open spec fn lines_joined(parts: Seq<Seq<char>>) -> Seq<char>
    decreases parts.len(),
{
    if parts.len() == 0 {
        Seq::empty()
    } else if parts.len() == 1 {
        parts[0]
    } else {
        lines_joined(parts.drop_last()) + seq!['\n'] + parts.last()
    }
}

/// Every license of the list is classified.
pub open spec fn all_known(ls: Seq<License>) -> bool {
    forall|j: int| 0 <= j < ls.len() ==> is_known(&#[trigger] ls[j])
}

impl Package {
    /// One SPDX expression per license, in order; fails on the first
    /// identifier that is not accepted.
    pub fn licenses(&self) -> (r: Result<Vec<cyclonedx_bom::models::license::LicenseChoice>, LicenseError>)
        requires
            all_known(self.licenses@),
        ensures
            r is Ok <==> forall|j: int| 0 <= j < self.licenses@.len() ==> spdx_lax_choice(
                spdx_of(&#[trigger] self.licenses@[j]),
            ) is Some,
            r matches Ok(v) ==> v@.len() == self.licenses@.len() && forall|j: int|
                0 <= j < v@.len() ==> spdx_lax_choice(spdx_of(&#[trigger] self.licenses@[j])) == Some(
                    v@[j],
                ),
            r matches Err(LicenseError::InvalidSpdx(s)) ==> exists|j: int| 0 <= j < self.licenses@.len()
                && s@ == spdx_of(&#[trigger] self.licenses@[j]) && spdx_lax_choice(s@) is None,
    {
        let mut out: Vec<cyclonedx_bom::models::license::LicenseChoice> = Vec::new();
        let mut i: usize = 0;
        while i < self.licenses.len()
            invariant
                all_known(self.licenses@),
                i <= self.licenses@.len(),
                out@.len() == i,
                forall|j: int| 0 <= j < i ==> spdx_lax_choice(spdx_of(&#[trigger] self.licenses@[j])) == Some(
                    out@[j],
                ),
            decreases self.licenses@.len() - i,
        {
            let spdx = self.licenses[i].spdx_short();
            match spdx_expression_choice(spdx) {
                Some(choice) => out.push(choice),
                None => {
                    return Err(LicenseError::InvalidSpdx(spdx.to_string()));
                },
            }
            i += 1;
        }
        proof {
            assert forall|j: int| 0 <= j < self.licenses@.len() implies spdx_lax_choice(
                spdx_of(&#[trigger] self.licenses@[j]),
            ) is Some by {
                assert(spdx_lax_choice(spdx_of(&self.licenses@[j])) == Some(out@[j]));
            }
        }
        Ok(out)
    }

    /// The copyright lines of all licenses, joined by line feeds; `None`
    /// when there are none.
    pub fn copyright_text(&self) -> (r: Option<String>)
        requires
            all_known(self.licenses@),
        ensures
            match r {
                None => package_copyright_lines(self.licenses@).len() == 0,
                Some(t) => package_copyright_lines(self.licenses@).len() > 0 && t@ == lines_joined(
                    package_copyright_lines(self.licenses@),
                ),
            },
    {
        let ghost ls = self.licenses@;
        let mut text = String::new();
        let mut any = false;
        let mut i: usize = 0;
        proof {
            assert(ls.subrange(0, 0) =~= Seq::<License>::empty());
        }
        while i < self.licenses.len()
            invariant
                ls == self.licenses@,
                all_known(ls),
                i <= ls.len(),
                any == (package_copyright_lines(ls.subrange(0, i as int)).len() > 0),
                text@ == lines_joined(package_copyright_lines(ls.subrange(0, i as int))),
            decreases ls.len() - i,
        {
            let ghost done = package_copyright_lines(ls.subrange(0, i as int));
            proof {
                assert(ls.subrange(0, i + 1).drop_last() =~= ls.subrange(0, i as int));
                assert(ls.subrange(0, i + 1).last() == ls[i as int]);
            }
            match self.licenses[i].copyrights() {
                Some(lines) => {
                    let ghost new_lines = lines@.map_values(|s: String| s@);
                    let mut j: usize = 0;
                    proof {
                        assert(done + new_lines.subrange(0, 0) =~= done);
                    }
                    while j < lines.len()
                        invariant
                            j <= lines@.len(),
                            new_lines == lines@.map_values(|s: String| s@),
                            any == ((done + new_lines.subrange(0, j as int)).len() > 0),
                            text@ == lines_joined(done + new_lines.subrange(0, j as int)),
                        decreases lines@.len() - j,
                    {
                        let ghost prev = done + new_lines.subrange(0, j as int);
                        let ghost next = done + new_lines.subrange(0, j + 1);
                        proof {
                            assert(next.drop_last() =~= prev);
                            assert(next.last() == lines@[j as int]@);
                            if prev.len() == 0 {
                                assert(next =~= seq![lines@[j as int]@]);
                            }
                        }
                        if any {
                            text.append("\n");
                            proof {
                                reveal_strlit("\n");
                            }
                        }
                        text.append(lines[j].as_str());
                        any = true;
                        j += 1;
                    }
                    proof {
                        assert(new_lines.subrange(0, j as int) =~= new_lines);
                    }
                },
                None => {
                    proof {
                        assert(done + Seq::<Seq<char>>::empty() =~= done);
                    }
                },
            }
            i += 1;
        }
        proof {
            assert(ls.subrange(0, i as int) =~= ls);
        }
        if !any {
            None
        } else {
            Some(text)
        }
    }

    /// The copyright lines of all licenses as one normalized string; `None`
    /// when there are none.
    pub fn copyright(&self) -> (r: Option<cyclonedx_bom::external_models::normalized_string::NormalizedString>)
        requires
            all_known(self.licenses@),
        ensures
            match r {
                None => package_copyright_lines(self.licenses@).len() == 0,
                Some(n) => package_copyright_lines(self.licenses@).len() > 0 && n == normalized_text(
                    lines_joined(package_copyright_lines(self.licenses@)),
                ),
            },
    {
        match self.copyright_text() {
            None => None,
            Some(t) => Some(normalized(t.as_str())),
        }
    }
}

/// Text naming the vendor's custom license in license records.
pub const CUSTOM_LICENSE_NAME: &'static str = "Custom non-commercial license";

impl TargetInfo {
    /// The vendor's custom license, with the target's license URL.
    pub fn vendor_licenses(&self) -> (r: Result<Vec<cyclonedx_bom::models::license::LicenseChoice>, LicenseError>)
        ensures
            r is Ok <==> uri_from_text(self.license_url@) is Some,
            r matches Ok(v) ==> v@ == seq![
                named_license_choice(
                    normalized_text(CUSTOM_LICENSE_NAME@),
                    uri_from_text(self.license_url@)->Some_0,
                ),
            ],
            r matches Err(e) ==> e matches LicenseError::InvalidUri(u) && u@ == self.license_url@,
    {
        match uri_of(self.license_url.as_str()) {
            None => Err(LicenseError::InvalidUri(self.license_url.clone())),
            Some(url) => {
                let choice = named_license(normalized(CUSTOM_LICENSE_NAME), url);
                Ok(vec![choice])
            },
        }
    }
}

/// A package licensed by the vendor under a custom license.
pub struct VendorPackage {
    /// SCM URL where the package is located.
    pub url: String,
}

/// Metadata of a build target.
pub struct TargetInfo {
    pub name: String,
    pub version: String,
    pub license_url: String,
}

/// The allow-list of a project.
pub struct Config {
    /// Information about the targets.
    pub targets: IdMap<TargetInfo>,
    /// Build-only packages: not linked, not distributed.
    pub build_only: IdSet,
    /// Packages distributed under the vendor's custom license.
    pub vendor: IdMap<VendorPackage>,
    /// Third-party packages that may be linked.
    pub third_party: IdMap<Package>,
}

impl Config {
    pub open spec fn wf(&self) -> bool {
        &&& self.targets.wf()
        &&& self.build_only.wf()
        &&& self.vendor.wf()
        &&& self.third_party.wf()
    }

    /// A configuration with nothing in it.
    pub fn new() -> (r: Config)
        ensures
            r.wf(),
            r.targets@ == Map::<Seq<char>, TargetInfo>::empty(),
            r.build_only@ == Set::<Seq<char>>::empty(),
            r.vendor@ == Map::<Seq<char>, VendorPackage>::empty(),
            r.third_party@ == Map::<Seq<char>, Package>::empty(),
    {
        Config {
            targets: IdMap::new(),
            build_only: IdSet::new(),
            vendor: IdMap::new(),
            third_party: IdMap::new(),
        }
    }
}

} // verus!
