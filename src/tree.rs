use vstd::prelude::*;
use crate::version::{semver_parse, SemanticVersion, VersionModel};
use crate::words::{split_words, texts, words};

verus! {

/// Why a line of a dependency tree did not parse.
pub enum TreeError {
    /// No word of the line is an identity.
    MissingIdentity,
    /// Nothing follows the identity.
    MissingVersion,
    /// The word after the identity does not begin with `v`.
    BadVersionPrefix(String),
    /// The text after `v` is not a semantic version.
    BadVersion(String),
}

/// Plain model of a `TreeError`.
pub enum TreeFault {
    MissingIdentity,
    MissingVersion,
    BadVersionPrefix(Seq<char>),
    BadVersion(Seq<char>),
}

impl TreeError {
    pub open spec fn fault(&self) -> TreeFault {
        match self {
            TreeError::MissingIdentity => TreeFault::MissingIdentity,
            TreeError::MissingVersion => TreeFault::MissingVersion,
            TreeError::BadVersionPrefix(s) => TreeFault::BadVersionPrefix(s@),
            TreeError::BadVersion(s) => TreeFault::BadVersion(s@),
        }
    }
}

/// A character that may stand in an identity: ASCII letter or digit, `_`,
/// `-`.
pub open spec fn is_id_char(c: char) -> bool {
    ('a' <= c && c <= 'z') || ('A' <= c && c <= 'Z') || ('0' <= c && c <= '9') || c == '_' || c
        == '-'
}

/// A word made only of identity characters.
pub open spec fn is_id_word(w: Seq<char>) -> bool {
    forall|i: int| 0 <= i < w.len() ==> #[trigger] is_id_char(w[i])
}

/// The position of the first identity word, if any.
pub open spec fn first_id(ws: Seq<Seq<char>>) -> Option<int>
    decreases ws.len(),
{
    if ws.len() == 0 {
        None
    } else if is_id_word(ws[0]) {
        Some(0)
    } else {
        match first_id(ws.drop_first()) {
            Some(i) => Some(i + 1),
            None => None,
        }
    }
}

/// Plain model of a tree entry.
pub struct DepModel {
    pub id: Seq<char>,
    pub version: VersionModel,
}

/// What one line of a tree dump denotes: the first identity word, then the
/// word after it with its leading `v` removed as the version. Words after
/// that are ignored.
pub open spec fn tree_line(s: Seq<char>) -> Result<DepModel, TreeFault> {
    let ws = words(s);
    match first_id(ws) {
        None => Err(TreeFault::MissingIdentity),
        Some(i) => if i + 1 >= ws.len() {
            Err(TreeFault::MissingVersion)
        } else if ws[i + 1][0] != 'v' {
            Err(TreeFault::BadVersionPrefix(ws[i + 1]))
        } else {
            let text = ws[i + 1].drop_first();
            match semver_parse(text) {
                None => Err(TreeFault::BadVersion(text)),
                Some(v) => Ok(DepModel { id: ws[i], version: v }),
            }
        },
    }
}

/// Every word is non-empty.
proof fn lemma_words_nonempty(s: Seq<char>, cur: Seq<char>)
    ensures
        forall|i: int|
            0 <= i < crate::words::words_from(s, cur).len() ==> #[trigger] crate::words::words_from(
                s,
                cur,
            )[i].len() > 0,
    decreases s.len(),
{
    if s.len() > 0 {
        if crate::words::is_ascii_ws(s[0]) {
            lemma_words_nonempty(s.drop_first(), seq![]);
            let pre: Seq<Seq<char>> = if cur.len() > 0 {
                seq![cur]
            } else {
                seq![]
            };
            let rest = crate::words::words_from(s.drop_first(), seq![]);
            assert(crate::words::words_from(s, cur) == pre + rest);
            assert forall|i: int| 0 <= i < (pre + rest).len() implies #[trigger] (pre + rest)[i].len() > 0 by {
                if i >= pre.len() {
                    assert((pre + rest)[i] == rest[i - pre.len()]);
                }
            }
        } else {
            lemma_words_nonempty(s.drop_first(), cur.push(s[0]));
            assert(crate::words::words_from(s, cur) == crate::words::words_from(
                s.drop_first(),
                cur.push(s[0]),
            ));
        }
    } else {
        if cur.len() > 0 {
            assert(crate::words::words_from(s, cur) == seq![cur]);
        } else {
            assert(crate::words::words_from(s, cur).len() == 0);
        }
    }
}

/// Whether a word is made only of identity characters.
fn id_word(w: &str) -> (r: bool)
    ensures
        r == is_id_word(w@),
{
    let n = w.unicode_len();
    let mut i: usize = 0;
    while i < n
        invariant
            n == w@.len(),
            i <= n,
            forall|j: int| 0 <= j < i ==> #[trigger] is_id_char(w@[j]),
        decreases n - i,
    {
        let c = w.get_char(i);
        if !(('a' <= c && c <= 'z') || ('A' <= c && c <= 'Z') || ('0' <= c && c <= '9') || c == '_'
            || c == '-') {
            proof {
                assert(!is_id_char(w@[i as int]));
            }
            return false;
        }
        i += 1;
    }
    true
}

/// The position of the first word that is an identity.
pub fn get_package_id(ws: &Vec<String>) -> (r: Option<usize>)
    ensures
        match r {
            Some(i) => first_id(texts(ws@)) == Some(i as int) && i < ws@.len(),
            None => first_id(texts(ws@)) is None,
        },
{
    let ghost all = texts(ws@);
    let mut i: usize = 0;
    proof {
        assert(all.subrange(0, all.len() as int) =~= all);
    }
    while i < ws.len()
        invariant
            i <= ws.len(),
            all == texts(ws@),
            first_id(all) == (match first_id(all.subrange(i as int, all.len() as int)) {
                Some(k) => Some(k + i),
                None => None,
            }),
        decreases ws.len() - i,
    {
        let ghost rest = all.subrange(i as int, all.len() as int);
        proof {
            assert(rest[0] == ws@[i as int]@);
            assert(rest.drop_first() =~= all.subrange(i + 1, all.len() as int));
        }
        if id_word(ws[i].as_str()) {
            return Some(i);
        }
        i += 1;
    }
    proof {
        assert(all.subrange(i as int, all.len() as int) =~= Seq::<Seq<char>>::empty());
    }
    None
}

/// One entry of a dependency tree.
pub struct Dependency {
    pub id: String,
    pub version: SemanticVersion,
}

impl View for Dependency {
    type V = DepModel;

    open spec fn view(&self) -> DepModel {
        DepModel { id: self.id@, version: self.version@ }
    }
}

impl Dependency {
    /// Parses one line of a tree dump.
    pub fn from_str(s: &str) -> (r: Result<Dependency, TreeError>)
        ensures
            match tree_line(s@) {
                Ok(m) => r matches Ok(d) && d@ == m,
                Err(e) => r matches Err(x) && x.fault() == e,
            },
    {
        let ws = split_words(s);
        proof {
            lemma_words_nonempty(s@, seq![]);
        }
        let found = get_package_id(&ws);
        let i = match found {
            None => {
                return Err(TreeError::MissingIdentity);
            },
            Some(i) => i,
        };
        proof {
            assert(found == Some(i));
            assert(i < ws@.len());
        }
        if i >= ws.len() - 1 {
            return Err(TreeError::MissingVersion);
        }
        let word = ws[i + 1].as_str();
        proof {
            assert(texts(ws@)[i + 1] == word@);
            assert(texts(ws@)[i as int] == ws@[i as int]@);
            assert(word@.len() > 0);
        }
        if word.get_char(0) != 'v' {
            return Err(TreeError::BadVersionPrefix(word.to_string()));
        }
        let n = word.unicode_len();
        let text = word.substring_char(1, n);
        proof {
            assert(text@ =~= word@.drop_first());
        }
        match SemanticVersion::parse(text) {
            None => Err(TreeError::BadVersion(text.to_string())),
            Some(version) => Ok(Dependency { id: ws[i].clone(), version }),
        }
    }
}

/// Parses the lines after the root, in order; the first bad line ends it.
pub open spec fn tree_entries(ls: Seq<Seq<char>>) -> Result<Seq<DepModel>, TreeFault>
    decreases ls.len(),
{
    if ls.len() == 0 {
        Ok(seq![])
    } else {
        match tree_entries(ls.drop_last()) {
            Err(e) => Err(e),
            Ok(ds) => match tree_line(ls.last()) {
                Err(e) => Err(e),
                Ok(d) => Ok(ds.push(d)),
            },
        }
    }
}

/// What a tree dump denotes: its first line is the root and is skipped.
pub open spec fn tree_spec(lines: Seq<Seq<char>>) -> Result<Seq<DepModel>, TreeFault> {
    if lines.len() == 0 {
        Ok(seq![])
    } else {
        tree_entries(lines.drop_first())
    }
}

/// The models of a list of entries.
pub open spec fn dep_views(v: Seq<Dependency>) -> Seq<DepModel> {
    v.map_values(|d: Dependency| d@)
}

proof fn lemma_tree_error_sticks(ls: Seq<Seq<char>>, j: int)
    requires
        0 <= j <= ls.len(),
        tree_entries(ls.subrange(0, j)) is Err,
    ensures
        tree_entries(ls) == tree_entries(ls.subrange(0, j)),
    decreases ls.len() - j,
{
    if j < ls.len() {
        assert(ls.subrange(0, j + 1).drop_last() =~= ls.subrange(0, j));
        lemma_tree_error_sticks(ls, j + 1);
    } else {
        assert(ls.subrange(0, j) =~= ls);
    }
}

/// Parses a tree dump given as its lines; every line after the root must
/// parse.
pub fn parse_tree(lines: &Vec<String>) -> (r: Result<Vec<Dependency>, TreeError>)
    ensures
        match tree_spec(texts(lines@)) {
            Ok(m) => r matches Ok(v) && dep_views(v@) == m,
            Err(e) => r matches Err(x) && x.fault() == e,
        },
{
    let ghost all = texts(lines@);
    let mut deps: Vec<Dependency> = Vec::new();
    if lines.len() == 0 {
        proof {
            assert(dep_views(deps@) =~= Seq::<DepModel>::empty());
        }
        return Ok(deps);
    }
    let ghost ls = all.drop_first();
    let mut i: usize = 1;
    proof {
        assert(ls.subrange(0, 0) =~= Seq::<Seq<char>>::empty());
        assert(dep_views(deps@) =~= Seq::<DepModel>::empty());
    }
    while i < lines.len()
        invariant
            1 <= i <= lines.len(),
            all == texts(lines@),
            ls == all.drop_first(),
            tree_entries(ls.subrange(0, i - 1)) == Ok::<Seq<DepModel>, TreeFault>(dep_views(deps@)),
        decreases lines.len() - i,
    {
        proof {
            assert(ls.subrange(0, i as int).drop_last() =~= ls.subrange(0, i - 1));
            assert(ls.subrange(0, i as int).last() == lines@[i as int]@);
        }
        match Dependency::from_str(lines[i].as_str()) {
            Err(e) => {
                proof {
                    lemma_tree_error_sticks(ls, i as int);
                }
                return Err(e);
            },
            Ok(d) => {
                let ghost before = deps@;
                deps.push(d);
                proof {
                    assert(dep_views(deps@) =~= dep_views(before).push(d@));
                }
            },
        }
        i += 1;
    }
    proof {
        assert(ls.subrange(0, i - 1) =~= ls);
    }
    Ok(deps)
}

/// Parsing depends on the dump alone: two parses of the same lines give the
/// same entries in the same order, or the same failure.
pub proof fn lemma_parse_tree_repeatable(lines1: Seq<Seq<char>>, lines2: Seq<Seq<char>>)
    requires
        lines1 == lines2,
    ensures
        tree_spec(lines1) == tree_spec(lines2),
{
}

} // verus!
