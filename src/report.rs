use vstd::prelude::*;
use crate::config::{
    copyright_of, crates_io_url, is_known, spdx_of, text_of, url_of, Config, License,
    LicenseInfo, LicenseTexts, Package,
};
use crate::ids::IdMap;
use crate::log::BuildLog;
use crate::version::{joined, version_texts, Versions};
use crate::words::texts;

verus! {

/// First line of a license report.
pub const REPORT_HEADER: &'static str = "This distribution contains open source dependencies under the following licenses:";

/// Line between the license summary and the packages.
pub const COPIES_NOTE: &'static str = "Copies of these licenses are provided at the end of this document. They may also be obtained from the URLs above.";

/// Why a license report could not be made.
pub enum ReportError {
    /// These identities, ascending, are not third-party packages of the
    /// allow-list.
    AllowListViolation(Vec<String>),
    /// The package's licenses include one not yet classified.
    UnknownLicense(String),
    /// The package lists no license.
    NoLicenseSpecified(String),
}

/// The identities of `ks` outside `allowed`, in order.
pub open spec fn missing_ids(ks: Seq<Seq<char>>, allowed: Set<Seq<char>>) -> Seq<Seq<char>>
    decreases ks.len(),
{
    if ks.len() == 0 {
        seq![]
    } else if allowed.contains(ks.last()) {
        missing_ids(ks.drop_last(), allowed)
    } else {
        missing_ids(ks.drop_last(), allowed).push(ks.last())
    }
}

proof fn lemma_none_missing(ks: Seq<Seq<char>>, allowed: Set<Seq<char>>)
    requires
        missing_ids(ks, allowed).len() == 0,
    ensures
        forall|i: int| 0 <= i < ks.len() ==> allowed.contains(#[trigger] ks[i]),
    decreases ks.len(),
{
    if ks.len() > 0 {
        lemma_none_missing(ks.drop_last(), allowed);
        assert forall|i: int| 0 <= i < ks.len() implies allowed.contains(#[trigger] ks[i]) by {
            if i < ks.len() - 1 {
                assert(ks.drop_last()[i] == ks[i]);
            }
        }
    }
}

/// The components that the allow-list does not name as third-party
/// packages, ascending.
pub fn disallowed(components: &IdMap<Versions>, config: &Config) -> (r: Vec<String>)
    requires
        components.wf(),
        config.wf(),
    ensures
        texts(r@) == missing_ids(components.key_seq(), config.third_party@.dom()),
{
    let ghost ks = components.key_seq();
    let mut r: Vec<String> = Vec::new();
    let mut i: usize = 0;
    proof {
        assert(texts(r@) =~= missing_ids(ks.subrange(0, 0), config.third_party@.dom()));
    }
    while i < components.len()
        invariant
            components.wf(),
            config.wf(),
            ks == components.key_seq(),
            i <= ks.len(),
            texts(r@) == missing_ids(ks.subrange(0, i as int), config.third_party@.dom()),
        decreases ks.len() - i,
    {
        let k = components.key_at(i);
        proof {
            assert(ks.subrange(0, i + 1).drop_last() =~= ks.subrange(0, i as int));
        }
        if !config.third_party.contains_key(k) {
            let ghost before = r@;
            r.push(k.to_string());
            proof {
                assert(texts(r@) =~= texts(before).push(k@));
            }
        }
        i += 1;
    }
    proof {
        assert(ks.subrange(0, i as int) =~= ks);
    }
    r
}

/// The licenses of the packages of the first `n` components, in order.
pub open spec fn refs_upto(
    components: &IdMap<Versions>,
    tp: Map<Seq<char>, Package>,
    n: int,
) -> Seq<License>
    decreases n,
{
    if n <= 0 {
        seq![]
    } else {
        refs_upto(components, tp, n - 1) + tp[components.key_seq()[n - 1]].licenses@
    }
}

/// The licenses that the components refer to through the allow-list.
pub open spec fn all_refs(components: &IdMap<Versions>, tp: Map<Seq<char>, Package>) -> Seq<License> {
    refs_upto(components, tp, components.key_seq().len() as int)
}

/// The license list holds one not yet classified.
pub open spec fn has_unknown(ls: Seq<License>) -> bool {
    exists|j: int| 0 <= j < ls.len() && !is_known(&#[trigger] ls[j])
}

/// The first identity whose package has an unclassified license.
pub open spec fn first_unknown(ks: Seq<Seq<char>>, tp: Map<Seq<char>, Package>) -> Option<Seq<char>>
    decreases ks.len(),
{
    if ks.len() == 0 {
        None
    } else if has_unknown(tp[ks[0]].licenses@) {
        Some(ks[0])
    } else {
        first_unknown(ks.drop_first(), tp)
    }
}

/// The first identity whose package lists no license.
pub open spec fn first_unlicensed(ks: Seq<Seq<char>>, tp: Map<Seq<char>, Package>) -> Option<Seq<char>>
    decreases ks.len(),
{
    if ks.len() == 0 {
        None
    } else if tp[ks[0]].licenses@.len() == 0 {
        Some(ks[0])
    } else {
        first_unlicensed(ks.drop_first(), tp)
    }
}

/// The summary holds one entry per SPDX identifier referenced, with the URL
/// and text of a license of that identifier.
pub open spec fn summary_of(
    summary: &IdMap<LicenseInfo>,
    refs: Seq<License>,
    lt: &LicenseTexts,
) -> bool {
    &&& summary.wf()
    &&& summary@.dom() == Set::new(|s: Seq<char>| exists|j: int| 0 <= j < refs.len() && spdx_of(&#[trigger] refs[j]) == s)
    &&& forall|s: Seq<char>| #[trigger] summary@.contains_key(s) ==> exists|j: int| 0 <= j < refs.len()
        && spdx_of(&#[trigger] refs[j]) == s && summary@[s].url@ == url_of(&refs[j])
        && summary@[s].text@ == text_of(&refs[j], lt)
}

/// Collects the distinct licenses referenced by the components, keyed by
/// SPDX identifier; fails on the first package with an unclassified license.
pub fn summarize(components: &IdMap<Versions>, config: &Config, lt: &LicenseTexts) -> (r: Result<
    IdMap<LicenseInfo>,
    ReportError,
>)
    requires
        components.wf(),
        config.wf(),
        lt.wf(),
        forall|k: Seq<char>| #[trigger] components@.contains_key(k) ==> config.third_party@.contains_key(k),
    ensures
        match first_unknown(components.key_seq(), config.third_party@) {
            Some(id) => r matches Err(ReportError::UnknownLicense(x)) && x@ == id,
            None => r matches Ok(summary) && summary_of(&summary, all_refs(components, config.third_party@), lt),
        },
{
    let ghost ks = components.key_seq();
    let ghost tp = config.third_party@;
    let mut summary: IdMap<LicenseInfo> = IdMap::new();
    let mut i: usize = 0;
    proof {
        assert(ks.subrange(0, ks.len() as int) =~= ks);
        assert(summary@.dom() =~= Set::new(|s: Seq<char>| exists|j: int| 0 <= j < refs_upto(components, tp, 0).len() && spdx_of(&#[trigger] refs_upto(components, tp, 0)[j]) == s));
    }
    while i < components.len()
        invariant
            components.wf(),
            lt.wf(),
            config.wf(),
            ks == components.key_seq(),
            tp == config.third_party@,
            forall|k: Seq<char>| #[trigger] components@.contains_key(k) ==> tp.contains_key(k),
            i <= ks.len(),
            first_unknown(ks, tp) == first_unknown(ks.subrange(i as int, ks.len() as int), tp),
            summary_of(&summary, refs_upto(components, tp, i as int), lt),
        decreases ks.len() - i,
    {
        let k = components.key_at(i);
        proof {
            components.lemma_view_at(i as int);
            let rest = ks.subrange(i as int, ks.len() as int);
            assert(rest[0] == k@);
            assert(rest.drop_first() =~= ks.subrange(i + 1, ks.len() as int));
            assert(components@.contains_key(k@));
            assert(tp.contains_key(k@));
        }
        let pkg = match config.third_party.get(k) {
            Some(p) => p,
            None => {
                return Err(ReportError::UnknownLicense(k.to_string()));
            },
        };
        let ghost prev = refs_upto(components, tp, i as int);
        let ghost ls = pkg.licenses@;
        let mut j: usize = 0;
        proof {
            assert(prev + ls.subrange(0, 0) =~= prev);
        }
        while j < pkg.licenses.len()
            invariant
                components.wf(),
                lt.wf(),
                config.wf(),
                ks == components.key_seq(),
                tp == config.third_party@,
                forall|k: Seq<char>| #[trigger] components@.contains_key(k) ==> tp.contains_key(k),
                i < ks.len(),
                k@ == ks[i as int],
                tp.contains_key(k@),
                *pkg == tp[k@],
                prev == refs_upto(components, tp, i as int),
                first_unknown(ks, tp) == first_unknown(ks.subrange(i as int, ks.len() as int), tp),
                summary_of(&summary, prev + ls.subrange(0, j as int), lt),
                ls == pkg.licenses@,
                j <= ls.len(),
                forall|q: int| 0 <= q < j ==> is_known(&#[trigger] ls[q]),
            decreases ls.len() - j,
        {
            let lic = &pkg.licenses[j];
            if !lic.known() {
                proof {
                    assert(!is_known(&ls[j as int]));
                    assert(has_unknown(ls));
                    assert(*pkg == tp[k@]);
                    assert(ks.subrange(i as int, ks.len() as int)[0] == k@);
                    assert(first_unknown(ks.subrange(i as int, ks.len() as int), tp) == Some(k@));
                }
                return Err(ReportError::UnknownLicense(k.to_string()));
            }
            let ghost before = summary;
            let ghost refs0 = prev + ls.subrange(0, j as int);
            let ghost refs1 = prev + ls.subrange(0, j + 1);
            let spdx = lic.spdx_short();
            let info = lic.info(lt);
            summary.insert(spdx.to_string(), info);
            proof {
                assert(refs1 =~= refs0.push(*lic));
                assert(refs1[refs0.len() as int] == *lic);
                assert(summary@.dom() =~= Set::new(|s: Seq<char>| exists|q: int| 0 <= q < refs1.len() && spdx_of(&#[trigger] refs1[q]) == s)) by {
                    assert forall|s: Seq<char>| summary@.contains_key(s) implies exists|q: int| 0 <= q < refs1.len() && spdx_of(&#[trigger] refs1[q]) == s by {
                        if s != spdx@ {
                            let q = choose|q: int| 0 <= q < refs0.len() && spdx_of(&#[trigger] refs0[q]) == s;
                            assert(refs1[q] == refs0[q]);
                        }
                    }
                    assert forall|s: Seq<char>| (exists|q: int| 0 <= q < refs1.len() && spdx_of(&#[trigger] refs1[q]) == s) implies summary@.contains_key(s) by {
                        let q = choose|q: int| 0 <= q < refs1.len() && spdx_of(&#[trigger] refs1[q]) == s;
                        if q < refs0.len() {
                            assert(refs0[q] == refs1[q]);
                        }
                    }
                }
                assert forall|s: Seq<char>| #[trigger] summary@.contains_key(s) implies exists|q: int| 0 <= q < refs1.len()
                    && spdx_of(&#[trigger] refs1[q]) == s && summary@[s].url@ == url_of(&refs1[q])
                    && summary@[s].text@ == text_of(&refs1[q], lt) by {
                    if s == spdx@ {
                        assert(spdx_of(&refs1[refs0.len() as int]) == s);
                    } else {
                        assert(before@.contains_key(s));
                        let q = choose|q: int| 0 <= q < refs0.len()
                            && spdx_of(&#[trigger] refs0[q]) == s && before@[s].url@ == url_of(&refs0[q])
                            && before@[s].text@ == text_of(&refs0[q], lt);
                        assert(refs1[q] == refs0[q]);
                    }
                }
            }
            j += 1;
        }
        proof {
            assert(ls.subrange(0, j as int) =~= ls);
            assert(refs_upto(components, tp, i + 1) == prev + ls);
            assert(!has_unknown(ls));
        }
        i += 1;
    }
    proof {
        assert(ks.subrange(i as int, ks.len() as int) =~= Seq::<Seq<char>>::empty());
    }
    Ok(summary)
}


/// The SPDX identifiers of a license list.
pub open spec fn spdx_list(ls: Seq<License>) -> Seq<Seq<char>> {
    ls.map_values(|l: License| spdx_of(&l))
}

/// The copyright lines of a license list, license by license.
pub open spec fn copyright_block(ls: Seq<License>) -> Seq<Seq<char>>
    decreases ls.len(),
{
    if ls.len() == 0 {
        seq![]
    } else {
        copyright_block(ls.drop_last()) + match copyright_of(&ls.last()) {
            Some(lines) => lines,
            None => seq![],
        }
    }
}

/// The lines of the report on one package.
pub open spec fn package_block(versions: Seq<crate::version::VersionModel>, p: Package) -> Seq<Seq<char>> {
    seq![
        "crate: "@ + p.id@,
        "version(s): "@ + joined(version_texts(versions), seq![',', ' ']),
        "url: "@ + crates_io_url(p.id@),
        "license(s): "@ + joined(spdx_list(p.licenses@), " AND "@),
    ] + copyright_block(p.licenses@) + seq![Seq::empty()]
}

/// Two texts one after the other.
fn concat(a: &str, b: &str) -> (r: String)
    ensures
        r@ == a@ + b@,
{
    let mut r = a.to_string();
    r.append(b);
    r
}

fn push_line(lines: &mut Vec<String>, s: String)
    ensures
        texts(final(lines)@) == texts(old(lines)@).push(s@),
{
    let ghost s_v = s@;
    lines.push(s);
    proof {
        assert(texts(lines@) =~= texts(old(lines)@).push(s_v));
    }
}

fn extend_lines(lines: &mut Vec<String>, more: Vec<String>)
    ensures
        texts(final(lines)@) == texts(old(lines)@) + texts(more@),
{
    let mut i: usize = 0;
    while i < more.len()
        invariant
            i <= more.len(),
            texts(lines@) == texts(old(lines)@) + texts(more@).subrange(0, i as int),
        decreases more.len() - i,
    {
        let ghost before = texts(lines@);
        push_line(lines, more[i].clone());
        proof {
            assert(texts(more@).subrange(0, i + 1) =~= texts(more@).subrange(0, i as int).push(more@[i as int]@));
            assert(texts(lines@) =~= texts(old(lines)@) + texts(more@).subrange(0, i + 1));
        }
        i += 1;
    }
    proof {
        assert(texts(more@).subrange(0, i as int) =~= texts(more@));
    }
}

/// The report lines on one package: identity, versions, URL, SPDX
/// identifiers joined by `AND`, copyright lines, then a blank line.
pub fn package_lines_for(versions: &Versions, pkg: &Package) -> (r: Vec<String>)
    requires
        forall|q: int| 0 <= q < pkg.licenses@.len() ==> is_known(&#[trigger] pkg.licenses@[q]),
    ensures
        texts(r@) == package_block(versions.items(), *pkg),
{
    let mut r: Vec<String> = Vec::new();
    push_line(&mut r, concat("crate: ", pkg.id.as_str()));
    let vt = versions.joined_text();
    push_line(&mut r, concat("version(s): ", vt.as_str()));
    let url = pkg.url();
    push_line(&mut r, concat("url: ", url.as_str()));
    let ghost ls = pkg.licenses@;
    let mut ids = String::new();
    let mut i: usize = 0;
    while i < pkg.licenses.len()
        invariant
            ls == pkg.licenses@,
            forall|q: int| 0 <= q < ls.len() ==> is_known(&#[trigger] ls[q]),
            i <= ls.len(),
            ids@ == joined(spdx_list(ls).subrange(0, i as int), " AND "@),
        decreases ls.len() - i,
    {
        let t = pkg.licenses[i].spdx_short();
        proof {
            let parts = spdx_list(ls);
            assert(parts[i as int] == t@);
            assert(parts.subrange(0, i + 1).drop_last() =~= parts.subrange(0, i as int));
            assert(parts.subrange(0, i + 1).last() == t@);
            if i == 0 {
                assert(parts.subrange(0, 1) =~= seq![t@]);
            }
        }
        if i > 0 {
            ids.append(" AND ");
        }
        ids.append(t);
        i += 1;
    }
    proof {
        assert(spdx_list(ls).subrange(0, i as int) =~= spdx_list(ls));
    }
    push_line(&mut r, concat("license(s): ", ids.as_str()));
    let ghost head = texts(r@);
    let mut j: usize = 0;
    proof {
        assert(ls.subrange(0, 0) =~= Seq::<License>::empty());
        assert(head + copyright_block(ls.subrange(0, 0)) =~= head);
    }
    while j < pkg.licenses.len()
        invariant
            ls == pkg.licenses@,
            j <= ls.len(),
            texts(r@) == head + copyright_block(ls.subrange(0, j as int)),
        decreases ls.len() - j,
    {
        let ghost before = texts(r@);
        proof {
            assert(ls.subrange(0, j + 1).drop_last() =~= ls.subrange(0, j as int));
            assert(ls.subrange(0, j + 1).last() == ls[j as int]);
        }
        match pkg.licenses[j].copyright() {
            Some(lines) => {
                extend_lines(&mut r, lines);
            },
            None => {
                proof {
                    assert(before + Seq::<Seq<char>>::empty() =~= before);
                }
            },
        }
        proof {
            assert(texts(r@) =~= head + copyright_block(ls.subrange(0, j + 1)));
        }
        j += 1;
    }
    proof {
        assert(ls.subrange(0, j as int) =~= ls);
    }
    push_line(&mut r, String::new());
    proof {
        reveal_strlit("crate: ");
        reveal_strlit("version(s): ");
        reveal_strlit("url: ");
        reveal_strlit("license(s): ");
        assert(texts(r@) =~= package_block(versions.items(), *pkg));
    }
    r
}


/// Summary lines of the first `n` licenses: identifier, then URL.
pub open spec fn summary_lines(summary: &IdMap<LicenseInfo>, n: int) -> Seq<Seq<char>>
    decreases n,
{
    if n <= 0 {
        seq![]
    } else {
        summary_lines(summary, n - 1) + seq![
            "  * "@ + summary.key_seq()[n - 1],
            "      - "@ + summary.val_seq()[n - 1].url@,
        ]
    }
}

/// Full texts of the first `n` licenses, each followed by a blank line.
pub open spec fn text_lines(summary: &IdMap<LicenseInfo>, n: int) -> Seq<Seq<char>>
    decreases n,
{
    if n <= 0 {
        seq![]
    } else {
        text_lines(summary, n - 1) + seq![summary.val_seq()[n - 1].text@, Seq::empty()]
    }
}

/// Package sections of the first `n` components.
pub open spec fn package_lines(
    components: &IdMap<Versions>,
    tp: Map<Seq<char>, Package>,
    n: int,
) -> Seq<Seq<char>>
    decreases n,
{
    if n <= 0 {
        seq![]
    } else {
        package_lines(components, tp, n - 1) + package_block(
            components.val_seq()[n - 1].items(),
            tp[components.key_seq()[n - 1]],
        )
    }
}

/// The whole report: header, license summary, packages, license texts.
pub open spec fn report_lines(
    components: &IdMap<Versions>,
    tp: Map<Seq<char>, Package>,
    summary: &IdMap<LicenseInfo>,
) -> Seq<Seq<char>> {
    let n = summary.key_seq().len() as int;
    seq![REPORT_HEADER@, Seq::empty()] + summary_lines(summary, n) + seq![
        Seq::empty(),
        COPIES_NOTE@,
        Seq::empty(),
    ] + package_lines(components, tp, components.key_seq().len() as int) + text_lines(summary, n)
}

/// A license report: the distinct licenses referenced, and the lines.
pub struct LicenseReport {
    pub summary: IdMap<LicenseInfo>,
    pub lines: Vec<String>,
}

/// What the report on the components is: an error, in this order of
/// precedence, when the allow-list lacks components (all are named), when a
/// package has an unclassified license, or when a package lists no license;
/// else the summary of the licenses referenced and the report lines.
pub open spec fn report_outcome(
    components: &IdMap<Versions>,
    config: &Config,
    lt: &LicenseTexts,
    r: Result<LicenseReport, ReportError>,
) -> bool {
    let ks = components.key_seq();
    let tp = config.third_party@;
    let missing = missing_ids(ks, tp.dom());
    if missing.len() > 0 {
        r matches Err(ReportError::AllowListViolation(v)) && texts(v@) == missing
    } else if first_unknown(ks, tp) is Some {
        r matches Err(ReportError::UnknownLicense(x)) && first_unknown(ks, tp) == Some(x@)
    } else if first_unlicensed(ks, tp) is Some {
        r matches Err(ReportError::NoLicenseSpecified(x)) && first_unlicensed(ks, tp) == Some(x@)
    } else {
        r matches Ok(rep) && summary_of(&rep.summary, all_refs(components, tp), lt)
            && texts(rep.lines@) == report_lines(components, tp, &rep.summary)
    }
}

/// The license report for the components (identity to observed versions).
/// Fails, in this order of precedence, when the allow-list lacks components
/// (all are named), when a package has an unclassified license, or when a
/// package lists no license.
pub fn gen_licenses_for(components: &IdMap<Versions>, config: &Config, lt: &LicenseTexts) -> (r: Result<
    LicenseReport,
    ReportError,
>)
    requires
        components.wf(),
        config.wf(),
        lt.wf(),
    ensures
        report_outcome(components, config, lt, r),
{
    let ghost ks = components.key_seq();
    let ghost tp = config.third_party@;
    let missing = disallowed(components, config);
    if missing.len() > 0 {
        return Err(ReportError::AllowListViolation(missing));
    }
    proof {
        lemma_none_missing(ks, tp.dom());
        assert forall|k: Seq<char>| #[trigger] components@.contains_key(k) implies tp.contains_key(k) by {
            components.lemma_dom();
            let i = choose|i: int| 0 <= i < ks.len() && ks[i] == k;
            assert(tp.dom().contains(ks[i]));
        }
    }
    let summary = match summarize(components, config, lt) {
        Ok(s) => s,
        Err(e) => {
            return Err(e);
        },
    };
    let mut lines: Vec<String> = Vec::new();
    push_line(&mut lines, REPORT_HEADER.to_string());
    push_line(&mut lines, String::new());
    let n = summary.len();
    let mut i: usize = 0;
    let ghost start = texts(lines@);
    proof {
        assert(start + summary_lines(&summary, 0) =~= start);
    }
    while i < n
        invariant
            summary.wf(),
            n == summary.key_seq().len(),
            i <= n,
            texts(lines@) == start + summary_lines(&summary, i as int),
        decreases n - i,
    {
        let k = summary.key_at(i);
        let info = summary.value_at(i);
        push_line(&mut lines, concat("  * ", k));
        push_line(&mut lines, concat("      - ", info.url.as_str()));
        proof {
            assert(texts(lines@) =~= start + summary_lines(&summary, i + 1));
        }
        i += 1;
    }
    push_line(&mut lines, String::new());
    push_line(&mut lines, COPIES_NOTE.to_string());
    push_line(&mut lines, String::new());
    let ghost mid = texts(lines@);
    let mut c: usize = 0;
    proof {
        assert(mid + package_lines(components, tp, 0) =~= mid);
        assert(ks.subrange(0, ks.len() as int) =~= ks);
    }
    while c < components.len()
        invariant
            components.wf(),
            config.wf(),
            ks == components.key_seq(),
            tp == config.third_party@,
            forall|k: Seq<char>| #[trigger] components@.contains_key(k) ==> tp.contains_key(k),
            first_unknown(ks, tp) is None,
            missing_ids(ks, tp.dom()).len() == 0,
            c <= ks.len(),
            first_unknown(ks.subrange(c as int, ks.len() as int), tp) is None,
            first_unlicensed(ks, tp) == first_unlicensed(ks.subrange(c as int, ks.len() as int), tp),
            texts(lines@) == mid + package_lines(components, tp, c as int),
        decreases ks.len() - c,
    {
        let k = components.key_at(c);
        let versions = components.value_at(c);
        proof {
            components.lemma_view_at(c as int);
            let rest = ks.subrange(c as int, ks.len() as int);
            assert(rest[0] == k@);
            assert(rest.drop_first() =~= ks.subrange(c + 1, ks.len() as int));
            assert(tp.contains_key(k@));
        }
        let pkg = match config.third_party.get(k) {
            Some(p) => p,
            None => {
                return Err(ReportError::NoLicenseSpecified(k.to_string()));
            },
        };
        if pkg.licenses.len() == 0 {
            proof {
                assert(*pkg == tp[k@]);
                assert(ks.subrange(c as int, ks.len() as int)[0] == k@);
                assert(first_unlicensed(ks.subrange(c as int, ks.len() as int), tp) == Some(k@));
            }
            return Err(ReportError::NoLicenseSpecified(k.to_string()));
        }
        proof {
            assert(!has_unknown(pkg.licenses@));
            assert forall|q: int| 0 <= q < pkg.licenses@.len() implies is_known(&#[trigger] pkg.licenses@[q]) by {
                if !is_known(&pkg.licenses@[q]) {
                    assert(has_unknown(pkg.licenses@));
                }
            }
        }
        let block = package_lines_for(versions, pkg);
        extend_lines(&mut lines, block);
        proof {
            assert(texts(lines@) =~= mid + package_lines(components, tp, c + 1));
        }
        c += 1;
    }
    let ghost before_texts = texts(lines@);
    let mut t: usize = 0;
    proof {
        assert(before_texts + text_lines(&summary, 0) =~= before_texts);
    }
    while t < n
        invariant
            summary.wf(),
            n == summary.key_seq().len(),
            t <= n,
            texts(lines@) == before_texts + text_lines(&summary, t as int),
        decreases n - t,
    {
        let info = summary.value_at(t);
        push_line(&mut lines, info.text.clone());
        push_line(&mut lines, String::new());
        proof {
            assert(texts(lines@) =~= before_texts + text_lines(&summary, t + 1));
        }
        t += 1;
    }
    proof {
        assert(ks.subrange(c as int, ks.len() as int) =~= Seq::<Seq<char>>::empty());
        assert(texts(lines@) =~= report_lines(components, tp, &summary));
    }
    Ok(LicenseReport { summary, lines })
}


/// The version sets of a ledger, in the same identity order.
pub fn ledger_components(log: &BuildLog) -> (r: IdMap<Versions>)
    requires
        log.wf(),
    ensures
        r.wf(),
        r.key_seq() == log.packages.key_seq(),
        forall|i: int| 0 <= i < r.key_seq().len() ==> (#[trigger] r.val_seq()[i]).items() == log.packages.val_seq()[i].versions.items(),
{
    let mut r: IdMap<Versions> = IdMap::new();
    let mut i: usize = 0;
    proof {
        assert(r.key_seq() =~= log.packages.key_seq().subrange(0, 0));
    }
    while i < log.packages.len()
        invariant
            log.wf(),
            r.wf(),
            i <= log.packages.key_seq().len(),
            r.key_seq() == log.packages.key_seq().subrange(0, i as int),
            r.val_seq().len() == i,
            forall|q: int| 0 <= q < i ==> (#[trigger] r.val_seq()[q]).items() == log.packages.val_seq()[q].versions.items(),
        decreases log.packages.key_seq().len() - i,
    {
        let k = log.packages.key_at(i);
        let usage = log.packages.value_at(i);
        proof {
            if i > 0 {
                assert(crate::ids::sorted_ids(log.packages.key_seq()));
                assert(r.key_seq().last() == log.packages.key_seq()[i - 1]);
                assert(crate::ids::id_lt(log.packages.key_seq()[i - 1], log.packages.key_seq()[i as int]));
            }
        }
        r.push_last(k.to_string(), usage.versions.clone());
        proof {
            assert(r.key_seq() =~= log.packages.key_seq().subrange(0, i + 1));
        }
        i += 1;
    }
    proof {
        assert(log.packages.key_seq().subrange(0, i as int) =~= log.packages.key_seq());
    }
    r
}

/// The license report for the packages of a ledger: build-only and vendor
/// packages are dropped, and the rest reported with their observed versions.
pub fn gen_licenses(log: BuildLog, config: &Config, lt: &LicenseTexts) -> (r: Result<LicenseReport, ReportError>)
    requires
        log.wf(),
        config.wf(),
        lt.wf(),
    ensures
        exists|c: IdMap<Versions>|
            {
                &&& c.wf()
                &&& c@.dom() == log@.remove_keys(config.build_only@).remove_keys(config.vendor@.dom()).dom()
                &&& forall|k: Seq<char>| #[trigger] c@.contains_key(k) ==> c@[k].items() == log.packages@[k].versions.items()
                &&& report_outcome(&c, config, lt, r)
            },
{
    let ghost orig = log;
    let mut log = log;
    log.remove_build_deps(config);
    log.remove_vendor_deps(config);
    let components = ledger_components(&log);
    proof {
        components.lemma_dom();
        log.packages.lemma_dom();
        assert forall|k: Seq<char>| #[trigger] components@.contains_key(k) implies components@[k].items() == log.packages@[k].versions.items() by {
            let i = choose|i: int| 0 <= i < components.key_seq().len() && components.key_seq()[i] == k;
            components.lemma_view_at(i);
            log.packages.lemma_view_at(i);
        }
    }
    let r = gen_licenses_for(&components, config, lt);
    proof {
        assert(components@.dom() =~= log@.dom());
        assert(log@ == orig@.remove_keys(config.build_only@).remove_keys(config.vendor@.dom()));
        assert(forall|k: Seq<char>| #[trigger] components@.contains_key(k) ==> log.packages@[k] == orig.packages@[k]);
        assert(components.wf() && components@.dom() == orig@.remove_keys(config.build_only@).remove_keys(config.vendor@.dom()).dom()
            && (forall|k: Seq<char>| #[trigger] components@.contains_key(k) ==> components@[k].items() == orig.packages@[k].versions.items())
            && report_outcome(&components, config, lt, r));
    }
    r
}

} // verus!
