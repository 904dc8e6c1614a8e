//! A filesystem that presents the files of another under rewritten paths,
//! chosen by glob rules over the host paths.
use vstd::prelude::*;

use wax::Pattern;

use crate::fs::rewrite::{
    digit_value, drop_leading, drop_trailing, field, field_text, replace_all, replace_str,
    trim_end_char, trim_start_char,
};
use crate::fs::hierarchy::child_path;
use crate::fs::{DirModel, FileEntry, FileModel, FileType, FilesystemCopier, FilesystemHierarchy};
use crate::path::pathref::{display_string, PathRef};
use crate::path::pathtrie::{holds_default, is_proper_prefix, PathPrefixTree};
use crate::path::pathvec::{components_after, is_root_string, pathvec_string, PathVec};
use crate::path::trie_iter::{lists_sorted, shortlex_lt};
use crate::path::{components, lemma_components_concat};

verus! {

#[verifier::external_type_specification]
#[verifier::external_body]
pub struct ExBuildError(wax::BuildError);

#[verifier::external_type_specification]
#[verifier::external_body]
pub struct ExGlob<'t>(wax::Glob<'t>);

#[verifier::external_type_specification]
#[verifier::external_body]
pub struct ExAny<'t>(wax::Any<'t>);

/// Host-to-image path rules: a glob over host paths, and the image path
/// its matches are rewritten to. A glob starting with `!` excludes what it
/// matches.
#[derive(Clone, Debug)]
pub struct RemapOverlayConfig {
    pub map_rules: Vec<(String, String)>,
}

/// What is wrong with a `{n}` field of a rewrite.
#[derive(Debug, Copy, Clone, Eq, PartialEq, Structural)]
pub enum InvalidRewriteSubstitutionKind {
    NonDigitCharacter,
    UnclosedBrace,
}

/// Why a remapping filesystem cannot be built.
#[derive(Debug)]
pub enum RemapOverlayFilesystemBuildingError<E> {
    /// A glob does not compile.
    GlobBuildingError(wax::BuildError),
    /// A rewrite has a malformed field: where, the rewrite, and what is wrong.
    InvalidRewriteSubstitution(usize, String, InvalidRewriteSubstitutionKind),
    /// The underlying filesystem failed.
    FilesystemError(E),
}

/// The fields of the rewrite `s` from position `i` on, given whether a field
/// is open and the number read so far in it: the numbers of the closed
/// fields after `acc`, or where and how the rewrite is malformed. An
/// unclosed field is reported at `last`, the position of the last byte of
/// the rewrite.
pub open spec fn scan_fields(
    s: Seq<char>,
    i: int,
    matching: bool,
    cur: int,
    acc: Seq<int>,
    last: int,
) -> Result<Seq<int>, (int, InvalidRewriteSubstitutionKind)>
    decreases s.len() - i,
{
    if i < 0 || i >= s.len() {
        if matching {
            Err((last, InvalidRewriteSubstitutionKind::UnclosedBrace))
        } else {
            Ok(acc)
        }
    } else if s[i] == '{' {
        scan_fields(s, i + 1, true, cur, acc, last)
    } else if !matching {
        scan_fields(s, i + 1, false, cur, acc, last)
    } else if s[i] == '}' {
        scan_fields(s, i + 1, false, 0, acc.push(cur), last)
    } else if digit_value(s[i]) is Some {
        scan_fields(s, i + 1, true, cur * 10 + digit_value(s[i])->0, acc, last)
    } else {
        Err((i, InvalidRewriteSubstitutionKind::NonDigitCharacter))
    }
}

/// The numbers of the fields of `s`, from position `i` on, stay within
/// `usize`.
pub open spec fn fields_fit(s: Seq<char>, i: int, matching: bool, cur: int) -> bool
    decreases s.len() - i,
{
    if i < 0 || i >= s.len() {
        true
    } else if s[i] == '{' {
        fields_fit(s, i + 1, true, cur)
    } else if !matching {
        fields_fit(s, i + 1, false, cur)
    } else if s[i] == '}' {
        fields_fit(s, i + 1, false, 0)
    } else if digit_value(s[i]) is Some {
        cur * 10 + digit_value(s[i])->0 <= usize::MAX && fields_fit(s, i + 1, true, cur * 10 + digit_value(s[i])->0)
    } else {
        true
    }
}

/// The numbers of the fields of the rewrite `s`, in order, or where and how
/// it is malformed; `byte_len` is its length in bytes.
pub open spec fn rewrite_fields(s: Seq<char>, byte_len: int) -> Result<Seq<int>, (int, InvalidRewriteSubstitutionKind)> {
    scan_fields(s, 0, false, 0, Seq::empty(), if byte_len > 0 { byte_len - 1 } else { 0 })
}

/// Whether the glob expression compiles (`wax::Glob::new` succeeds).
pub uninterp spec fn glob_builds(expression: Seq<char>) -> bool;

/// Whether the glob of `expression` matches the path text `path`
/// (`wax::Pattern::matched` gives a match).
pub uninterp spec fn glob_matches(expression: Seq<char>, path: Seq<char>) -> bool;

/// The text that capture `index` of the glob of `expression` takes in a
/// match of `path` (`wax::MatchedText::get`); capture zero is the whole
/// path.
pub uninterp spec fn glob_capture(expression: Seq<char>, path: Seq<char>, index: int) -> Option<Seq<char>>;

/// Whether the globs of `expressions` combine into one pattern
/// (`wax::any` succeeds).
pub uninterp spec fn globs_combine(expressions: Seq<Seq<char>>) -> bool;

/// A compiled glob, with the expression it was compiled from.
pub struct GlobKey<'t> {
    expression: &'t str,
    glob: wax::Glob<'t>,
}

impl<'t> GlobKey<'t> {
    /// The expression the glob was compiled from.
    pub closed spec fn expression(&self) -> Seq<char> {
        self.expression@
    }

    /// Compiles the glob `expression`.
    pub fn new(expression: &'t str) -> (r: Result<Self, wax::BuildError>)
        ensures
            r is Ok <==> glob_builds(expression@),
            r matches Ok(k) ==> k.expression() == expression@,
    {
        match compile_glob(expression) {
            Ok(glob) => Ok(GlobKey { expression, glob }),
            Err(e) => Err(e),
        }
    }
}

/// `wax::Glob::new`: compiles a glob expression; it succeeds exactly where
/// `glob_builds` says.
#[verifier::external_body]
fn compile_glob<'t>(expression: &'t str) -> (r: Result<wax::Glob<'t>, wax::BuildError>)
    ensures
        r is Ok <==> glob_builds(expression@),
{
    wax::Glob::new(expression)
}

/// The globs of a list of keys, combined into one pattern that matches
/// where any of them does.
pub struct GlobSet<'t> {
    any: wax::Any<'t>,
    expressions: Ghost<Seq<Seq<char>>>,
}

impl<'t> GlobSet<'t> {
    /// The expressions of the combined globs.
    pub closed spec fn expressions(&self) -> Seq<Seq<char>> {
        self.expressions@
    }

    /// Combines the globs of `keys`.
    pub fn new(keys: &[GlobKey<'t>]) -> (r: Result<Self, wax::BuildError>)
        ensures
            r is Ok <==> globs_combine(key_expressions(keys@)),
            r matches Ok(g) ==> g.expressions() == key_expressions(keys@),
    {
        match combine_globs(keys) {
            Ok(any) => Ok(GlobSet { any, expressions: Ghost(key_expressions(keys@)) }),
            Err(e) => Err(e),
        }
    }

    /// Whether any of the globs matches `path`.
    pub fn is_match(&self, path: &str) -> (r: bool)
        ensures
            r == any_matches(self.expressions(), path@),
    {
        any_is_match(self, path)
    }
}

/// `wax::any` over clones of the globs of `keys`: succeeds exactly where
/// `globs_combine` says.
#[verifier::external_body]
fn combine_globs<'t>(keys: &[GlobKey<'t>]) -> (r: Result<wax::Any<'t>, wax::BuildError>)
    ensures
        r is Ok <==> globs_combine(key_expressions(keys@)),
{
    wax::any(keys.iter().map(|k| k.glob.clone()))
}

/// `wax::Pattern::is_match` of a combined pattern: it matches `path` where
/// any of the combined globs does. `wax::any` of no globs builds an
/// alternation without branches, which matches the empty path and nothing
/// else; `any_matches` says so.
#[verifier::external_body]
fn any_is_match(set: &GlobSet, path: &str) -> (r: bool)
    ensures
        r == any_matches(set.expressions(), path@),
{
    set.any.is_match(path)
}

/// The combination of the globs of `expressions` matches `path`: some of
/// them matches it; where there are none, only the empty path matches.
pub open spec fn any_matches(expressions: Seq<Seq<char>>, path: Seq<char>) -> bool {
    if expressions.len() == 0 {
        path.len() == 0
    } else {
        exists|i: int| 0 <= i < expressions.len() && #[trigger] glob_matches(expressions[i], path)
    }
}

/// The text of a capture, where there is one.
pub open spec fn captured(o: Option<String>) -> Option<Seq<char>> {
    match o {
        Some(t) => Some(t@),
        None => None,
    }
}

/// `wax::Pattern::matched` of the glob of `key` on `path`, then
/// `wax::MatchedText::get` of each of `indices`: whether the glob matches,
/// as `glob_matches` says, and then the captures, as `glob_capture` says.
/// Capture zero is the whole matched text, which is the whole path, since
/// the glob is matched against the whole path.
#[verifier::external_body]
fn glob_matched(key: &GlobKey, path: &str, indices: &[usize]) -> (r: Option<Vec<Option<String>>>)
    ensures
        r is Some <==> glob_matches(key.expression(), path@),
        r is Some ==> glob_capture(key.expression(), path@, 0) == Some(path@),
        r matches Some(v) ==> v@.len() == indices@.len() && forall|i: int|
            0 <= i < v@.len() ==> #[trigger] captured(v@[i]) == glob_capture(
                key.expression(),
                path@,
                indices@[i] as int,
            ),
{
    let candidate = wax::CandidatePath::from(path);
    key.glob.matched(&candidate).map(|m| indices.iter().map(|i| m.get(*i).map(String::from)).collect())
}

/// The glob of a rule: its host pattern without the `!` that excludes.
pub open spec fn rule_glob(rule: (String, String)) -> Seq<char> {
    drop_leading(rule.0@, '!')
}

/// The rule excludes what it matches.
pub open spec fn rule_excludes(rule: (String, String)) -> bool {
    rule.0@.len() > 0 && rule.0@[0] == '!'
}

/// The text that capture `index` takes, or nothing.
pub open spec fn capture_text(expression: Seq<char>, path: Seq<char>, index: int) -> Seq<char> {
    match glob_capture(expression, path, index) {
        Some(t) => t,
        None => Seq::empty(),
    }
}

/// `template` with the fields `fields[k..]` replaced, one after the other,
/// by the captures of the glob of `expression` on `path`.
pub open spec fn substitute(
    template: Seq<char>,
    expression: Seq<char>,
    path: Seq<char>,
    fields: Seq<int>,
    k: int,
) -> Seq<char>
    decreases fields.len() - k,
{
    if k < 0 || k >= fields.len() {
        template
    } else {
        substitute(
            replace_all(template, field(fields[k] as nat), capture_text(expression, path, fields[k])),
            expression,
            path,
            fields,
            k + 1,
        )
    }
}

/// The image path a rule gives for a host path: the rewrite with its fields
/// filled in, then the part of the host path below the matched prefix, if
/// any, and leading dots and slashes removed.
pub open spec fn rule_rewrite(
    template: Seq<char>,
    expression: Seq<char>,
    path: Seq<char>,
    fields: Seq<int>,
    suffix: Seq<char>,
) -> Seq<char> {
    let filled = substitute(template, expression, path, fields, 0);
    let full = if is_root_string(suffix) {
        filled
    } else {
        drop_trailing(filled, '/') + seq!['/'] + suffix
    };
    pathvec_string(drop_leading(drop_leading(full, '.'), '/'))
}

/// Length of the UTF-8 encoding of a text, as `str::len` gives it.
pub open spec fn byte_len(s: Seq<char>) -> int {
    vstd::utf8::encode_utf8(s).len() as usize as int
}

/// The image path that the rules from `k` on give to a host path whose
/// matched prefix reads `path` and whose part below it is `suffix`, given
/// `acc` from the rules before: a rule that matches and excludes drops the
/// path, the first rule that matches and does not exclude gives it, and a
/// malformed rewrite of that rule is an error.
pub open spec fn rewritten_from(
    rules: Seq<(String, String)>,
    expressions: Seq<Seq<char>>,
    path: Seq<char>,
    suffix: Seq<char>,
    k: int,
    acc: Option<Seq<char>>,
) -> Result<Option<Seq<char>>, (int, Seq<char>, InvalidRewriteSubstitutionKind)>
    decreases expressions.len() - k,
{
    if k < 0 || k >= expressions.len() {
        Ok(acc)
    } else if !glob_matches(expressions[k], path) {
        rewritten_from(rules, expressions, path, suffix, k + 1, acc)
    } else if rule_excludes(rules[k]) {
        rewritten_from(rules, expressions, path, suffix, k + 1, None)
    } else if acc is Some {
        rewritten_from(rules, expressions, path, suffix, k + 1, acc)
    } else {
        match rewrite_fields(rules[k].1@, byte_len(rules[k].1@)) {
            Err((at, kind)) => Err((at, rules[k].1@, kind)),
            Ok(fields) => rewritten_from(
                rules,
                expressions,
                path,
                suffix,
                k + 1,
                Some(rule_rewrite(rules[k].1@, expressions[k], path, fields, suffix)),
            ),
        }
    }
}

/// Rules before `j` that match `path` all exclude, so the result from `k`
/// on, with nothing given yet, is the result from `j` on.
proof fn lemma_rewritten_skips_excluded(
    rules: Seq<(String, String)>,
    expressions: Seq<Seq<char>>,
    path: Seq<char>,
    suffix: Seq<char>,
    k: int,
    j: int,
)
    requires
        0 <= k <= j < expressions.len(),
        forall|i: int| k <= i < j && #[trigger] glob_matches(expressions[i], path) ==> rule_excludes(rules[i]),
    ensures
        rewritten_from(rules, expressions, path, suffix, k, None) == rewritten_from(
            rules,
            expressions,
            path,
            suffix,
            j,
            None,
        ),
    decreases j - k,
{
    if k < j {
        lemma_rewritten_skips_excluded(rules, expressions, path, suffix, k + 1, j);
    }
}

/// Where no rule from `k` on both matches `path` and excludes, a path
/// already given stays as given.
proof fn lemma_rewritten_keeps_given(
    rules: Seq<(String, String)>,
    expressions: Seq<Seq<char>>,
    path: Seq<char>,
    suffix: Seq<char>,
    k: int,
    given: Seq<char>,
)
    requires
        0 <= k,
        forall|i: int| k <= i < expressions.len() && #[trigger] glob_matches(expressions[i], path) ==> !rule_excludes(rules[i]),
    ensures
        rewritten_from(rules, expressions, path, suffix, k, Some(given)) == Ok::<
            Option<Seq<char>>,
            (int, Seq<char>, InvalidRewriteSubstitutionKind),
        >(Some(given)),
    decreases expressions.len() - k,
{
    if k < expressions.len() {
        lemma_rewritten_keeps_given(rules, expressions, path, suffix, k + 1, given);
    }
}

/// The first matching rule that does not exclude gives the image path,
/// whatever later rules also match: where rule `j` is that rule, its
/// rewrite is well formed, and no excluding rule after it matches, the
/// path is rule `j`'s rewrite.
pub proof fn law_first_matching_rule_wins(
    rules: Seq<(String, String)>,
    expressions: Seq<Seq<char>>,
    path: Seq<char>,
    suffix: Seq<char>,
    j: int,
    fields: Seq<int>,
)
    requires
        0 <= j < expressions.len(),
        glob_matches(expressions[j], path),
        !rule_excludes(rules[j]),
        forall|i: int| 0 <= i < j && #[trigger] glob_matches(expressions[i], path) ==> rule_excludes(rules[i]),
        forall|i: int| j < i < expressions.len() && #[trigger] glob_matches(expressions[i], path) ==> !rule_excludes(rules[i]),
        rewrite_fields(rules[j].1@, byte_len(rules[j].1@)) == Ok::<Seq<int>, (int, InvalidRewriteSubstitutionKind)>(fields),
    ensures
        rewritten_from(rules, expressions, path, suffix, 0, None) == Ok::<
            Option<Seq<char>>,
            (int, Seq<char>, InvalidRewriteSubstitutionKind),
        >(Some(rule_rewrite(rules[j].1@, expressions[j], path, fields, suffix))),
{
    lemma_rewritten_skips_excluded(rules, expressions, path, suffix, 0, j);
    lemma_rewritten_keeps_given(
        rules,
        expressions,
        path,
        suffix,
        j + 1,
        rule_rewrite(rules[j].1@, expressions[j], path, fields, suffix),
    );
}

/// A path that the last matching rule excludes is given no image path,
/// whatever the rules before it give.
pub proof fn law_last_excluding_rule_drops(
    rules: Seq<(String, String)>,
    expressions: Seq<Seq<char>>,
    path: Seq<char>,
    suffix: Seq<char>,
    k: int,
    acc: Option<Seq<char>>,
    j: int,
)
    requires
        0 <= k <= j < expressions.len(),
        glob_matches(expressions[j], path),
        rule_excludes(rules[j]),
        forall|i: int| j < i < expressions.len() ==> !#[trigger] glob_matches(expressions[i], path),
        forall|i: int| k <= i < j ==> (#[trigger] glob_matches(expressions[i], path) && !rule_excludes(rules[i])) ==> rewrite_fields(
            rules[i].1@,
            byte_len(rules[i].1@),
        ) is Ok,
    ensures
        rewritten_from(rules, expressions, path, suffix, k, acc) == Ok::<
            Option<Seq<char>>,
            (int, Seq<char>, InvalidRewriteSubstitutionKind),
        >(None),
    decreases j - k,
{
    if k < j {
        if glob_matches(expressions[k], path) && !rule_excludes(rules[k]) && acc is None {
            let fields = rewrite_fields(rules[k].1@, byte_len(rules[k].1@))->Ok_0;
            law_last_excluding_rule_drops(
                rules,
                expressions,
                path,
                suffix,
                k + 1,
                Some(rule_rewrite(rules[k].1@, expressions[k], path, fields, suffix)),
                j,
            );
        } else if glob_matches(expressions[k], path) && rule_excludes(rules[k]) {
            law_last_excluding_rule_drops(rules, expressions, path, suffix, k + 1, None, j);
        } else {
            law_last_excluding_rule_drops(rules, expressions, path, suffix, k + 1, acc, j);
        }
    } else {
        lemma_rewritten_drops_after(rules, expressions, path, suffix, j + 1);
    }
}

/// Where no rule from `k` on matches, nothing given is the result.
proof fn lemma_rewritten_drops_after(
    rules: Seq<(String, String)>,
    expressions: Seq<Seq<char>>,
    path: Seq<char>,
    suffix: Seq<char>,
    k: int,
)
    requires
        0 <= k,
        forall|i: int| k <= i < expressions.len() ==> !#[trigger] glob_matches(expressions[i], path),
    ensures
        rewritten_from(rules, expressions, path, suffix, k, None) == Ok::<
            Option<Seq<char>>,
            (int, Seq<char>, InvalidRewriteSubstitutionKind),
        >(None),
    decreases expressions.len() - k,
{
    if k < expressions.len() {
        lemma_rewritten_drops_after(rules, expressions, path, suffix, k + 1);
    }
}

/// The text of a path, where there is one.
pub open spec fn opt_path(o: Option<PathVec>) -> Option<Seq<char>> {
    match o {
        Some(p) => Some(p@),
        None => None,
    }
}

/// The expressions of a list of globs.
pub open spec fn key_expressions(keys: Seq<GlobKey>) -> Seq<Seq<char>> {
    Seq::new(keys.len(), |i: int| keys[i].expression())
}

/// Why a remapping filesystem cannot answer.
#[non_exhaustive]
#[derive(Clone, Debug)]
pub enum RemapOverlayError<E> {
    /// No host path is mapped to this image path.
    NoSuchFile(String),
    /// The underlying filesystem failed.
    UnderlyingError(E),
}

/// What an image path is mapped to: a directory made up to hold mapped
/// paths, or an entry of the host filesystem.
#[derive(Clone, Debug)]
pub enum MapEntry {
    GeneratedDir,
    HostEntry { host_path: PathVec, host_entry: FileEntry },
}

impl Default for MapEntry {
    fn default() -> (r: Self)
        ensures
            r is GeneratedDir,
    {
        MapEntry::GeneratedDir
    }
}

/// The listing entry of `e` under the name `name`: a generated directory
/// is an empty directory, a host entry keeps its type and length.
pub open spec fn map_listing(f: FileEntry, name: Seq<char>, e: MapEntry) -> bool {
    &&& f.name@ == name
    &&& match e {
        MapEntry::GeneratedDir => f.file_type == FileType::Directory && f.len == 0,
        MapEntry::HostEntry { host_entry, .. } => f.file_type == host_entry.file_type && f.len
            == host_entry.len,
    }
}

impl MapEntry {
    /// The listing entry of this entry under the name `name`.
    pub fn as_file_entry(&self, name: String) -> (r: FileEntry)
        ensures
            map_listing(r, name@, *self),
    {
        match self {
            MapEntry::GeneratedDir => FileEntry { name, file_type: FileType::Directory, len: 0 },
            MapEntry::HostEntry { host_entry, .. } => FileEntry {
                name,
                file_type: host_entry.file_type,
                len: host_entry.len,
            },
        }
    }
}

/// A filesystem that presents entries of the filesystem `FS` under image
/// paths given by rules.
pub struct RemapOverlayFilesystem<FS> {
    img_to_host: PathPrefixTree<MapEntry>,
    fs: FS,
}

/// The components of `a` are the first components of `b`.
pub open spec fn leads(a: Seq<char>, b: Seq<char>) -> bool {
    &&& components(a).len() <= components(b).len()
    &&& forall|i: int| 0 <= i < components(a).len() ==> #[trigger] components(a)[i] == components(b)[i]
}

/// The path of the entry `name` of the directory `dir` starts with the
/// components of `dir`.
proof fn lemma_child_leads(dir: Seq<char>, name: Seq<char>, child: Seq<char>)
    requires
        child == (if is_root_string(dir) {
            dir + name
        } else {
            dir + seq!['/'] + name
        }),
    ensures
        leads(dir, child),
{
    if is_root_string(dir) {
        if dir.len() == 0 {
            assert(components(dir) =~= Seq::<Seq<char>>::empty()) by {
                reveal_with_fuel(crate::path::components_from, 2);
            }
        } else {
            assert(components(dir) =~= Seq::<Seq<char>>::empty()) by {
                reveal_with_fuel(crate::path::components_from, 3);
            }
        }
    } else {
        lemma_components_concat(dir, name);
    }
}

/// A directory still to be walked, with the matched path above it, if any:
/// that path starts it and matches one of the globs.
pub open spec fn pending_ok(e: (PathVec, Option<PathVec>), expressions: Seq<Seq<char>>) -> bool {
    match e.1 {
        Some(p) => leads(p@, e.0@) && any_matches(expressions, drop_leading(p@, '/')),
        None => true,
    }
}

/// A host path found while matching: the entry, and the matched path it
/// lies under, which starts it and matches one of the globs.
pub open spec fn host_match_ok(m: (PathVec, FileEntry, PathVec), expressions: Seq<Seq<char>>) -> bool {
    &&& leads(m.2@, m.0@)
    &&& any_matches(expressions, drop_leading(m.2@, '/'))
}

impl<FS> RemapOverlayFilesystem<FS> {
    /// The numbers of the `{n}` fields of `rewrite`, in order. A field is
    /// opened by `{` and closed by `}` and holds decimal digits; anything
    /// else in it, or a field left open, is an error.
    pub fn find_match_indices<E>(rewrite: &str) -> (r: Result<Vec<usize>, RemapOverlayFilesystemBuildingError<E>>)
        requires
            fields_fit(rewrite@, 0, false, 0),
        ensures
            match rewrite_fields(rewrite@, rewrite.len() as int) {
                Ok(fields) => r matches Ok(v) && v@.len() == fields.len() && forall|k: int|
                    0 <= k < fields.len() ==> v@[k] as int == #[trigger] fields[k],
                Err((at, kind)) => r matches Err(
                    RemapOverlayFilesystemBuildingError::InvalidRewriteSubstitution(p, t, k),
                ) && p == at && t@ == rewrite@ && k == kind,
            },
    {
        let n = rewrite.unicode_len();
        let byte_len = rewrite.len();
        let ghost s = rewrite@;
        let mut match_indices: Vec<usize> = Vec::new();
        let mut match_index: usize = 0;
        let mut matching = false;
        let mut idx: usize = 0;
        let last = if byte_len > 0 {
            byte_len - 1
        } else {
            0
        };
        proof {
            assert(match_indices@.map_values(|v: usize| v as int) =~= Seq::<int>::empty());
        }
        while idx < n
            invariant
                idx <= n,
                n == s.len(),
                s == rewrite@,
                byte_len == rewrite.len(),
                last == (if byte_len > 0 { byte_len - 1 } else { 0 }),
                fields_fit(s, idx as int, matching, match_index as int),
                rewrite_fields(s, byte_len as int) == scan_fields(
                    s,
                    idx as int,
                    matching,
                    match_index as int,
                    match_indices@.map_values(|v: usize| v as int),
                    last as int,
                ),
            decreases n - idx,
        {
            let c = rewrite.get_char(idx);
            let ghost acc = match_indices@.map_values(|v: usize| v as int);
            if c == '{' {
                matching = true;
            } else if !matching {
            } else if c == '}' {
                matching = false;
                match_indices.push(match_index);
                proof {
                    assert(match_indices@.map_values(|v: usize| v as int) =~= acc.push(match_index as int));
                }
                match_index = 0;
            } else if '0' <= c && c <= '9' {
                let d = (c as u32 - '0' as u32) as usize;
                assert(d as int == digit_value(c)->0);
                match_index = match_index * 10 + d;
            } else {
                return Err(
                    RemapOverlayFilesystemBuildingError::InvalidRewriteSubstitution(
                        idx,
                        String::from_str(rewrite),
                        InvalidRewriteSubstitutionKind::NonDigitCharacter,
                    ),
                );
            }
            idx = idx + 1;
        }
        if matching {
            return Err(
                RemapOverlayFilesystemBuildingError::InvalidRewriteSubstitution(
                    last,
                    String::from_str(rewrite),
                    InvalidRewriteSubstitutionKind::UnclosedBrace,
                ),
            );
        }
        Ok(match_indices)
    }
}

impl<FS> RemapOverlayFilesystem<FS> {
    /// The image path that the rules give to the host path `path`, whose
    /// first matched prefix is `prefix`: see `rewritten_from`. `None` where
    /// no rule gives one.
    pub fn get_rewritten_path<E>(
        cfg: &RemapOverlayConfig,
        glob_keys: &Vec<GlobKey>,
        path: &PathVec,
        prefix: &PathVec,
    ) -> (r: Result<Option<PathVec>, RemapOverlayFilesystemBuildingError<E>>)
        requires
            glob_keys@.len() <= cfg.map_rules@.len(),
            forall|k: int| 0 <= k < glob_keys@.len() ==> #[trigger] glob_keys@[k].expression() == rule_glob(cfg.map_rules@[k]),
            forall|k: int| 0 <= k < cfg.map_rules@.len() ==> fields_fit(#[trigger] cfg.map_rules@[k].1@, 0, false, 0),
            forall|i: int|
                0 <= i < components(path@).len() && 0 <= i < components(prefix@).len() ==> (
                #[trigger] components(path@)[i]) == components(prefix@)[i],
        ensures
            ({
                let text = drop_leading(prefix@, '/');
                let suffix = crate::path::join_slash(components_after(components(path@), components(prefix@)));
                match rewritten_from(cfg.map_rules@, key_expressions(glob_keys@), text, suffix, 0, None) {
                    Ok(Some(p)) => r matches Ok(Some(v)) && v@ == p,
                    Ok(None) => r matches Ok(None),
                    Err((at, t, kind)) => r matches Err(
                        RemapOverlayFilesystemBuildingError::InvalidRewriteSubstitution(a, u, q),
                    ) && a == at && u@ == t && q == kind,
                }
            }),
    {
        let suffix = path.suffix(prefix);
        let prefix_str = prefix.as_string();
        let text = trim_start_char(prefix_str.as_str(), '/');
        proof {
            assert(drop_leading(seq!['/'] + prefix@, '/') == drop_leading(prefix@, '/')) by {
                assert((seq!['/'] + prefix@).drop_first() =~= prefix@);
            }
        }
        let ghost exprs = key_expressions(glob_keys@);
        let ghost rules = cfg.map_rules@;
        let ghost goal = rewritten_from(rules, exprs, text@, suffix@, 0, None);
        let mut rewritten: Option<PathVec> = None;
        let no_fields: [usize; 0] = [];
        let mut idx: usize = 0;
        while idx < glob_keys.len()
            invariant
                idx <= glob_keys@.len(),
                glob_keys@.len() <= rules.len(),
                rules == cfg.map_rules@,
                exprs == key_expressions(glob_keys@),
                goal == rewritten_from(
                    cfg.map_rules@,
                    key_expressions(glob_keys@),
                    drop_leading(prefix@, '/'),
                    crate::path::join_slash(components_after(components(path@), components(prefix@))),
                    0,
                    None,
                ),
                forall|k: int| 0 <= k < rules.len() ==> fields_fit(#[trigger] rules[k].1@, 0, false, 0),
                goal == rewritten_from(
                    rules,
                    exprs,
                    text@,
                    suffix@,
                    idx as int,
                    opt_path(rewritten),
                ),
            decreases glob_keys@.len() - idx,
        {
            let key = &glob_keys[idx];
            let rule = &cfg.map_rules[idx];
            assert(exprs[idx as int] == key.expression());
            assert(*rule == rules[idx as int]);
            let ghost acc = opt_path(rewritten);
            if glob_matched(key, text, &no_fields).is_none() {
                idx = idx + 1;
                continue;
            }
            let excludes = rule.0.as_str().unicode_len() > 0 && rule.0.as_str().get_char(0) == '!';
            if excludes {
                rewritten = None;
                idx = idx + 1;
                continue;
            }
            if rewritten.is_some() {
                idx = idx + 1;
                continue;
            }
            let template = rule.1.as_str();
            assert(template@ == rules[idx as int].1@);
            assert(template.len() as int == byte_len(rules[idx as int].1@));
            assert(glob_matches(exprs[idx as int], text@));
            assert(!rule_excludes(rules[idx as int]));
            assert(acc is None);
            let fields = match Self::find_match_indices::<E>(template) {
                Ok(f) => f,
                Err(e) => {
                    proof {
                        let rf = rewrite_fields(rules[idx as int].1@, byte_len(rules[idx as int].1@));
                        assert(rf is Err);
                        assert(goal == rewritten_from(rules, exprs, text@, suffix@, idx as int, None));
                        assert(rewritten_from(rules, exprs, text@, suffix@, idx as int, None) == Err::<
                            Option<Seq<char>>,
                            (int, Seq<char>, InvalidRewriteSubstitutionKind),
                        >((rf->Err_0.0, rules[idx as int].1@, rf->Err_0.1)));
                        assert(rewrite_fields(template@, template.len() as int) == rf);
                        assert(e matches RemapOverlayFilesystemBuildingError::InvalidRewriteSubstitution(p, t, k)
                            && p == rf->Err_0.0 && t@ == rules[idx as int].1@ && k == rf->Err_0.1);
                    }
                    return Err(e);
                },
            };
            let ghost fs = match rewrite_fields(rule.1@, byte_len(rule.1@)) {
                Ok(f) => f,
                Err(_) => Seq::empty(),
            };
            let captures = match glob_matched(key, text, fields.as_slice()) {
                Some(c) => c,
                None => {
                    proof {
                        assert(false);
                    }
                    Vec::new()
                },
            };
            let mut rewrite = rule.1.clone();
            let mut k: usize = 0;
            while k < fields.len()
                invariant
                    k <= fields@.len(),
                    fields@.len() == fs.len(),
                    captures@.len() == fields@.len(),
                    forall|j: int| 0 <= j < fs.len() ==> fields@[j] as int == #[trigger] fs[j],
                    forall|j: int|
                        0 <= j < captures@.len() ==> #[trigger] captured(captures@[j]) == glob_capture(
                            key.expression(),
                            text@,
                            fields@[j] as int,
                        ),
                    substitute(rewrite@, key.expression(), text@, fs, k as int) == substitute(
                        rule.1@,
                        key.expression(),
                        text@,
                        fs,
                        0,
                    ),
                decreases fields@.len() - k,
            {
                let pat = field_text(fields[k]);
                let rep: &str = match &captures[k] {
                    Some(t) => t.as_str(),
                    None => "",
                };
                proof {
                    assert(captured(captures@[k as int]) == glob_capture(key.expression(), text@, fs[k as int]));
                    reveal_strlit("");
                    assert(rep@ == capture_text(key.expression(), text@, fs[k as int]));
                }
                rewrite = replace_str(rewrite.as_str(), pat.as_str(), rep);
                k = k + 1;
            }
            let ghost filled = rewrite@;
            assert(filled == substitute(rule.1@, key.expression(), text@, fs, 0));
            if !suffix.is_root() {
                let head = trim_end_char(rewrite.as_str(), '/');
                let mut joined = String::from_str(head);
                joined.append(suffix.as_string().as_str());
                rewrite = joined;
            }
            let ghost full = rewrite@;
            proof {
                reveal_strlit("/");
                if is_root_string(suffix@) {
                    assert(full == filled);
                } else {
                    assert(full == drop_trailing(filled, '/') + seq!['/'] + suffix@);
                }
            }
            let t1 = trim_start_char(rewrite.as_str(), '.');
            let t2 = trim_start_char(t1, '/');
            let result = PathVec::from_str_path(t2);
            proof {
                assert(rewrite_fields(rules[idx as int].1@, byte_len(rules[idx as int].1@)) == Ok::<
                    Seq<int>,
                    (int, InvalidRewriteSubstitutionKind),
                >(fs));
                assert(result@ == rule_rewrite(rules[idx as int].1@, exprs[idx as int], text@, fs, suffix@));
            }
            rewritten = Some(result);
            idx = idx + 1;
        }
        Ok(rewritten)
    }
}

/// A directory the walk listed: its path, the nearest matched path above
/// it, if any, and the listing it got.
pub type WalkStep = (Seq<char>, Option<Seq<char>>, Seq<FileEntry>);

/// The path of entry `j` of the directory listed at step `t`.
pub open spec fn walk_child(trace: Seq<WalkStep>, t: int, j: int) -> Seq<char> {
    child_path(trace[t].0, trace[t].2[j].name@)
}

/// The nearest matched path at or above entry `j` of the directory listed
/// at step `t`: the entry's own path where a glob matches it, else the one
/// of its directory.
pub open spec fn walk_prefix(expressions: Seq<Seq<char>>, trace: Seq<WalkStep>, t: int, j: int) -> Option<Seq<char>> {
    if any_matches(expressions, drop_leading(walk_child(trace, t, j), '/')) {
        Some(walk_child(trace, t, j))
    } else {
        trace[t].1
    }
}

/// The directory `c`, under the matched path `p`, was listed by the walk.
pub open spec fn dir_walked(trace: Seq<WalkStep>, c: Seq<char>, p: Option<Seq<char>>) -> bool {
    exists|t: int| 0 <= t < trace.len() && (#[trigger] trace[t]).0 == c && trace[t].1 == p
}

/// The directory `c`, under the matched path `p`, waits to be listed.
pub open spec fn dir_pending(stack: Seq<(PathVec, Option<PathVec>)>, c: Seq<char>, p: Option<Seq<char>>) -> bool {
    exists|i: int| 0 <= i < stack.len() && (#[trigger] stack[i]).0@ == c && opt_path(stack[i].1) == p
}

/// The entry `e` at path `c`, under the matched path `p`, was collected.
pub open spec fn entry_found(v: Seq<(PathVec, FileEntry, PathVec)>, c: Seq<char>, e: FileEntry, p: Seq<char>) -> bool {
    exists|i: int| 0 <= i < v.len() && (#[trigger] v[i]).0@ == c && v[i].1 == e && v[i].2@ == p
}

/// Entry `j` of the directory listed at step `t` is dealt with: a
/// directory is listed or waits to be, and an entry under a matched path is
/// collected.
pub open spec fn entry_settled(
    expressions: Seq<Seq<char>>,
    trace: Seq<WalkStep>,
    t: int,
    j: int,
    stack: Seq<(PathVec, Option<PathVec>)>,
    v: Seq<(PathVec, FileEntry, PathVec)>,
) -> bool {
    &&& trace[t].2[j].file_type == FileType::Directory ==> dir_walked(
        trace,
        walk_child(trace, t, j),
        walk_prefix(expressions, trace, t, j),
    ) || dir_pending(stack, walk_child(trace, t, j), walk_prefix(expressions, trace, t, j))
    &&& walk_prefix(expressions, trace, t, j) matches Some(p) ==> entry_found(
        v,
        walk_child(trace, t, j),
        trace[t].2[j],
        p,
    )
}

/// The walk is complete: every directory entry of a listed directory was
/// listed in turn, and every entry under a matched path was collected.
pub open spec fn walk_complete(expressions: Seq<Seq<char>>, trace: Seq<WalkStep>, v: Seq<(PathVec, FileEntry, PathVec)>) -> bool {
    forall|t: int, j: int|
        0 <= t < trace.len() && 0 <= j < trace[t].2.len() ==> #[trigger] entry_settled(
            expressions,
            trace,
            t,
            j,
            Seq::empty(),
            v,
        )
}

/// The walk starts at the root, under no matched path.
pub open spec fn walk_starts(trace: Seq<WalkStep>) -> bool {
    trace.len() > 0 ==> trace[0].0 == Seq::<char>::empty() && trace[0].1 is None
}

/// Entry `o.1` of the directory listed at step `o.0` is a directory, at the
/// path `c` under the matched path `p`.
pub open spec fn found_at(
    expressions: Seq<Seq<char>>,
    trace: Seq<WalkStep>,
    o: (int, int),
    c: Seq<char>,
    p: Option<Seq<char>>,
) -> bool {
    &&& 0 <= o.0 < trace.len()
    &&& 0 <= o.1 < trace[o.0].2.len()
    &&& trace[o.0].2[o.1].file_type == FileType::Directory
    &&& c == walk_child(trace, o.0, o.1)
    &&& p == walk_prefix(expressions, trace, o.0, o.1)
}

/// Every step after the first lists a directory that an earlier step found,
/// `origins` telling which entry of which step, and no entry is listed
/// twice.
pub open spec fn walk_linked(expressions: Seq<Seq<char>>, trace: Seq<WalkStep>, origins: Seq<(int, int)>) -> bool {
    &&& origins.len() == trace.len()
    &&& forall|t: int|
        1 <= t < trace.len() ==> (#[trigger] origins[t]).0 < t && found_at(
            expressions,
            trace,
            origins[t],
            trace[t].0,
            trace[t].1,
        )
    &&& forall|t1: int, t2: int| 1 <= t1 < t2 < trace.len() ==> #[trigger] origins[t1] != #[trigger] origins[t2]
}

/// Settled entries stay settled as the stack and the collection grow.
proof fn lemma_settled_grow(
    expressions: Seq<Seq<char>>,
    trace: Seq<WalkStep>,
    t: int,
    j: int,
    s1: Seq<(PathVec, Option<PathVec>)>,
    s2: Seq<(PathVec, Option<PathVec>)>,
    v1: Seq<(PathVec, FileEntry, PathVec)>,
    v2: Seq<(PathVec, FileEntry, PathVec)>,
)
    requires
        entry_settled(expressions, trace, t, j, s1, v1),
        s1.len() <= s2.len(),
        forall|i: int| 0 <= i < s1.len() ==> s2[i] == s1[i],
        v1.len() <= v2.len(),
        forall|i: int| 0 <= i < v1.len() ==> v2[i] == v1[i],
    ensures
        entry_settled(expressions, trace, t, j, s2, v2),
{
    let c = walk_child(trace, t, j);
    let p = walk_prefix(expressions, trace, t, j);
    if dir_pending(s1, c, p) {
        let i = choose|i: int| 0 <= i < s1.len() && (#[trigger] s1[i]).0@ == c && opt_path(s1[i].1) == p;
        assert(s2[i] == s1[i]);
    }
    if p is Some && entry_found(v1, c, trace[t].2[j], p->0) {
        let i = choose|i: int| 0 <= i < v1.len() && (#[trigger] v1[i]).0@ == c && v1[i].1 == trace[t].2[j] && v1[i].2@ == p->0;
        assert(v2[i] == v1[i]);
    }
}

impl<FS: FilesystemHierarchy> RemapOverlayFilesystem<FS> {
    /// Walks the host filesystem depth first, from the root, and collects
    /// every entry whose path, or the path of a directory above it, matches
    /// one of the globs, with the nearest such path. Gives up after listing
    /// `usize::MAX` directories. Where the filesystem describes its
    /// directories, the walk is described by the directories it listed, the
    /// root first and each other one found as an entry of an earlier listing,
    /// no entry twice: each listing is one the filesystem gives, and unless
    /// it gave up, every directory found was listed and every entry under a
    /// matched path was collected.
    pub fn get_host_paths_matching_globs(fs: &mut FS, glob_keys: &Vec<GlobKey>) -> (r: Result<
        Vec<(PathVec, FileEntry, PathVec)>,
        RemapOverlayFilesystemBuildingError<FS::Error>,
    >)
        ensures
            !globs_combine(key_expressions(glob_keys@)) ==> r matches Err(
                RemapOverlayFilesystemBuildingError::GlobBuildingError(_),
            ),
            r matches Err(RemapOverlayFilesystemBuildingError::GlobBuildingError(_)) ==> !globs_combine(
                key_expressions(glob_keys@),
            ),
            !(r matches Err(RemapOverlayFilesystemBuildingError::InvalidRewriteSubstitution(..))),
            r matches Ok(v) ==> forall|i: int|
                0 <= i < v@.len() ==> host_match_ok(#[trigger] v@[i], key_expressions(glob_keys@)),
            r matches Ok(v) ==> exists|trace: Seq<WalkStep>, origins: Seq<(int, int)>|
                walk_starts(trace) && #[trigger] walk_linked(key_expressions(glob_keys@), trace, origins) && (
                FS::obeys_dir_model() ==> forall|t: int|
                    0 <= t < trace.len() ==> (*old(fs)).lists(components(#[trigger] trace[t].0), trace[t].2))
                    && (trace.len() < usize::MAX ==> trace.len() > 0 && walk_complete(
                    key_expressions(glob_keys@),
                    trace,
                    v@,
                )),
    {
        let all_globs = match GlobSet::new(glob_keys.as_slice()) {
            Ok(g) => g,
            Err(e) => return Err(RemapOverlayFilesystemBuildingError::GlobBuildingError(e)),
        };
        let ghost exprs = key_expressions(glob_keys@);
        let mut stack: Vec<(PathVec, Option<PathVec>)> = Vec::new();
        stack.push((PathVec::new(), None));
        let mut matches: Vec<(PathVec, FileEntry, PathVec)> = Vec::new();
        let mut budget: usize = usize::MAX;
        let ghost mut trace: Seq<WalkStep> = Seq::empty();
        let ghost mut origins: Seq<(int, int)> = Seq::empty();
        let ghost mut stack_orig: Seq<(int, int)> = seq![(-1int, -1int)];
        while budget > 0
            invariant_except_break
                trace.len() + budget == usize::MAX,
            invariant
                walk_linked(exprs, trace, origins),
                stack_orig.len() == stack@.len(),
                trace.len() > 0 ==> forall|i: int|
                    0 <= i < stack@.len() ==> found_at(exprs, trace, #[trigger] stack_orig[i], stack@[i].0@, opt_path(stack@[i].1)),
                forall|i1: int, i2: int| 0 <= i1 < i2 < stack_orig.len() ==> #[trigger] stack_orig[i1] != #[trigger] stack_orig[i2],
                forall|t: int, i: int|
                    1 <= t < origins.len() && 0 <= i < stack_orig.len() ==> #[trigger] origins[t] != #[trigger] stack_orig[i],
                all_globs.expressions() == exprs,
                exprs == key_expressions(glob_keys@),
                globs_combine(exprs),
                forall|i: int| 0 <= i < stack@.len() ==> pending_ok(#[trigger] stack@[i], exprs),
                forall|i: int| 0 <= i < matches@.len() ==> host_match_ok(#[trigger] matches@[i], exprs),
                walk_starts(trace),
                trace.len() == 0 ==> stack@.len() == 1 && stack@[0].0@ == Seq::<char>::empty() && stack@[0].1 is None,
                FS::obeys_dir_model() ==> forall|p: Seq<Seq<char>>, l: Seq<FileEntry>|
                    #[trigger] (*fs).lists(p, l) == (*old(fs)).lists(p, l),
                FS::obeys_dir_model() ==> forall|t: int|
                    0 <= t < trace.len() ==> (*old(fs)).lists(components(#[trigger] trace[t].0), trace[t].2),
                forall|t: int, j: int|
                    0 <= t < trace.len() && 0 <= j < trace[t].2.len() ==> #[trigger] entry_settled(
                        exprs,
                        trace,
                        t,
                        j,
                        stack@,
                        matches@,
                    ),
            ensures
                (stack@.len() == 0 && trace.len() > 0) || trace.len() == usize::MAX,
                walk_starts(trace),
                walk_linked(exprs, trace, origins),
                forall|i: int| 0 <= i < matches@.len() ==> host_match_ok(#[trigger] matches@[i], exprs),
                FS::obeys_dir_model() ==> forall|t: int|
                    0 <= t < trace.len() ==> (*old(fs)).lists(components(#[trigger] trace[t].0), trace[t].2),
                forall|t: int, j: int|
                    0 <= t < trace.len() && 0 <= j < trace[t].2.len() ==> #[trigger] entry_settled(
                        exprs,
                        trace,
                        t,
                        j,
                        stack@,
                        matches@,
                    ),
            decreases budget,
        {
            budget = budget - 1;
            let ghost s0 = stack@;
            let (dir, parent_match_prefix) = match stack.pop() {
                Some(t) => t,
                None => break,
            };
            let listing = match fs.read_dir(dir.as_path_ref()) {
                Ok(l) => l,
                Err(e) => return Err(RemapOverlayFilesystemBuildingError::FilesystemError(e)),
            };
            let ghost old_trace = trace;
            let ghost old_origins = origins;
            let ghost old_stack_orig = stack_orig;
            proof {
                trace = trace.push((dir@, opt_path(parent_match_prefix), listing@));
                origins = origins.push(stack_orig.last());
                stack_orig = stack_orig.drop_last();
                let sb = stack@;
                assert(sb =~= s0.drop_last());
                assert forall|t: int| 1 <= t < trace.len() implies (#[trigger] origins[t]).0 < t && found_at(
                    exprs,
                    trace,
                    origins[t],
                    trace[t].0,
                    trace[t].1,
                ) by {
                    if t < old_trace.len() {
                        assert(old_origins[t] == origins[t]);
                        assert(trace[origins[t].0] == old_trace[origins[t].0]);
                    } else {
                        let o = old_stack_orig.last();
                        assert(found_at(exprs, old_trace, old_stack_orig[old_stack_orig.len() - 1], s0[s0.len() - 1].0@, opt_path(s0[s0.len() - 1].1)));
                        assert(trace[o.0] == old_trace[o.0]);
                    }
                }
                assert forall|t1: int, t2: int| 1 <= t1 < t2 < trace.len() implies #[trigger] origins[t1] != #[trigger] origins[t2] by {
                    if t2 == old_trace.len() {
                        assert(old_origins[t1] != old_stack_orig[old_stack_orig.len() - 1]);
                    } else {
                        assert(old_origins[t1] != old_origins[t2]);
                    }
                }
                assert(walk_linked(exprs, trace, origins));
                assert forall|i: int| 0 <= i < stack@.len() implies found_at(exprs, trace, #[trigger] stack_orig[i], stack@[i].0@, opt_path(stack@[i].1)) by {
                    assert(stack_orig[i] == old_stack_orig[i]);
                    assert(stack@[i] == s0[i]);
                    assert(found_at(exprs, old_trace, old_stack_orig[i], s0[i].0@, opt_path(s0[i].1)));
                    assert(trace[stack_orig[i].0] == old_trace[stack_orig[i].0]);
                }
                assert forall|t: int, i: int|
                    1 <= t < origins.len() && 0 <= i < stack_orig.len() implies #[trigger] origins[t] != #[trigger] stack_orig[i] by {
                    assert(stack_orig[i] == old_stack_orig[i]);
                    if t == old_trace.len() {
                        assert(old_stack_orig[i] != old_stack_orig[old_stack_orig.len() - 1]);
                    } else {
                        assert(old_origins[t] == origins[t]);
                    }
                }
                assert forall|t: int, j: int|
                    0 <= t < old_trace.len() && 0 <= j < trace[t].2.len() implies #[trigger] entry_settled(
                    exprs,
                    trace,
                    t,
                    j,
                    sb,
                    matches@,
                ) by {
                    assert(trace[t] == old_trace[t]);
                    assert(entry_settled(exprs, old_trace, t, j, s0, matches@));
                    let c = walk_child(trace, t, j);
                    let p = walk_prefix(exprs, trace, t, j);
                    assert(c == walk_child(old_trace, t, j));
                    assert(p == walk_prefix(exprs, old_trace, t, j));
                    if old_trace[t].2[j].file_type == FileType::Directory {
                        if dir_walked(old_trace, c, p) {
                            let t2 = choose|t2: int| 0 <= t2 < old_trace.len() && (#[trigger] old_trace[t2]).0 == c && old_trace[t2].1 == p;
                            assert(trace[t2] == old_trace[t2]);
                        } else {
                            let i = choose|i: int| 0 <= i < s0.len() && (#[trigger] s0[i]).0@ == c && opt_path(s0[i].1) == p;
                            if i == s0.len() - 1 {
                                assert(trace[old_trace.len() as int].0 == c);
                            } else {
                                assert(sb[i] == s0[i]);
                            }
                        }
                    }
                }
            }
            let ghost sb = stack@;
            let ghost mb = matches@;
            let ghost tt = old_trace.len() as int;
            proof {
                assert forall|i: int| 0 <= i < sb.len() implies (#[trigger] stack_orig[i]).0 < tt by {
                    assert(found_at(exprs, trace, stack_orig[i], stack@[i].0@, opt_path(stack@[i].1)));
                }
            }
            let mut j: usize = 0;
            while j < listing.len()
                invariant
                    walk_linked(exprs, trace, origins),
                    stack_orig.len() == stack@.len(),
                    forall|i: int|
                        0 <= i < stack@.len() ==> found_at(exprs, trace, #[trigger] stack_orig[i], stack@[i].0@, opt_path(stack@[i].1)),
                    forall|i: int| 0 <= i < sb.len() ==> (#[trigger] stack_orig[i]).0 < tt,
                    forall|i: int|
                        sb.len() <= i < stack@.len() ==> (#[trigger] stack_orig[i]).0 == tt && stack_orig[i].1 < j,
                    forall|i1: int, i2: int| 0 <= i1 < i2 < stack_orig.len() ==> #[trigger] stack_orig[i1] != #[trigger] stack_orig[i2],
                    forall|t: int, i: int|
                        1 <= t < origins.len() && 0 <= i < stack_orig.len() ==> #[trigger] origins[t] != #[trigger] stack_orig[i],
                    all_globs.expressions() == exprs,
                    pending_ok((dir, parent_match_prefix), exprs),
                    forall|i: int| 0 <= i < stack@.len() ==> pending_ok(#[trigger] stack@[i], exprs),
                    forall|i: int| 0 <= i < matches@.len() ==> host_match_ok(#[trigger] matches@[i], exprs),
                    tt == trace.len() - 1,
                    0 <= tt,
                    trace[tt] == (dir@, opt_path(parent_match_prefix), listing@),
                    j <= listing@.len(),
                    sb.len() <= stack@.len(),
                    forall|i: int| 0 <= i < sb.len() ==> stack@[i] == sb[i],
                    mb.len() <= matches@.len(),
                    forall|i: int| 0 <= i < mb.len() ==> matches@[i] == mb[i],
                    forall|t: int, k: int|
                        0 <= t < tt && 0 <= k < trace[t].2.len() ==> #[trigger] entry_settled(exprs, trace, t, k, sb, mb),
                    forall|k: int| 0 <= k < j ==> #[trigger] entry_settled(exprs, trace, tt, k, stack@, matches@),
                decreases listing@.len() - j,
            {
                let entry = &listing[j];
                let path = PathVec::from_base(dir.clone_path(), entry.name.as_str());
                proof {
                    lemma_child_leads(dir@, entry.name@, path@);
                    assert(path@ == walk_child(trace, tt, j as int));
                }
                let text_owned = path.as_string();
                let text = trim_start_char(text_owned.as_str(), '/');
                proof {
                    assert(drop_leading(seq!['/'] + path@, '/') == drop_leading(path@, '/')) by {
                        assert((seq!['/'] + path@).drop_first() =~= path@);
                    }
                }
                let match_prefix: Option<PathVec> = if all_globs.is_match(text) {
                    proof {
                        assert(components(path@) =~= components(path@));
                    }
                    Some(path.clone_path())
                } else {
                    match &parent_match_prefix {
                        Some(p) => Some(p.clone_path()),
                        None => None,
                    }
                };
                proof {
                    assert(opt_path(match_prefix) == walk_prefix(exprs, trace, tt, j as int));
                    if match_prefix is Some {
                        let p = match_prefix->0;
                        if p == path {
                        } else {
                            let q = parent_match_prefix->0;
                            assert(leads(q@, dir@));
                            assert(leads(dir@, path@));
                            assert forall|i: int| 0 <= i < components(q@).len() implies #[trigger] components(q@)[i]
                                == components(path@)[i] by {
                                assert(components(q@)[i] == components(dir@)[i]);
                            }
                        }
                    }
                }
                let ghost st1 = stack@;
                let ghost mt1 = matches@;
                if entry.file_type == FileType::Directory {
                    let child = PathVec::from_base(dir.clone_path(), entry.name.as_str());
                    let child_prefix = match &match_prefix {
                        Some(p) => Some(p.clone_path()),
                        None => None,
                    };
                    stack.push((child, child_prefix));
                    proof {
                        let old_so = stack_orig;
                        stack_orig = stack_orig.push((tt, j as int));
                        let last = stack@.len() - 1;
                        assert(stack@[last].0@ == walk_child(trace, tt, j as int));
                        assert(opt_path(stack@[last].1) == walk_prefix(exprs, trace, tt, j as int));
                        assert(trace[tt].2[j as int] == *entry);
                        assert(stack_orig[last] == (tt, j as int));
                        assert(0 <= tt < trace.len());
                        assert(0 <= j < trace[tt].2.len());
                        assert(trace[tt].2[j as int].file_type == FileType::Directory);
                        assert(found_at(exprs, trace, stack_orig[last], stack@[last].0@, opt_path(stack@[last].1)));
                        assert forall|i: int| 0 <= i < stack@.len() implies found_at(
                            exprs,
                            trace,
                            #[trigger] stack_orig[i],
                            stack@[i].0@,
                            opt_path(stack@[i].1),
                        ) by {
                            if i < last {
                                assert(stack_orig[i] == old_so[i]);
                                assert(stack@[i] == st1[i]);
                            }
                        }
                        assert forall|i1: int, i2: int| 0 <= i1 < i2 < stack_orig.len() implies #[trigger] stack_orig[i1]
                            != #[trigger] stack_orig[i2] by {
                            assert(stack_orig[i1] == old_so[i1]);
                            if i2 < last {
                                assert(stack_orig[i2] == old_so[i2]);
                            }
                        }
                        assert forall|t: int, i: int|
                            1 <= t < origins.len() && 0 <= i < stack_orig.len() implies #[trigger] origins[t]
                            != #[trigger] stack_orig[i] by {
                            if i < last {
                                assert(stack_orig[i] == old_so[i]);
                            } else {
                                assert(origins[t].0 < t);
                            }
                        }
                        assert(dir_pending(stack@, walk_child(trace, tt, j as int), walk_prefix(exprs, trace, tt, j as int)));
                    }
                }
                match &match_prefix {
                    Some(prefix) => {
                        let copy = FileEntry {
                            name: entry.name.clone(),
                            file_type: entry.file_type,
                            len: entry.len,
                        };
                        matches.push((path.clone_path(), copy, prefix.clone_path()));
                        proof {
                            let last = matches@.len() - 1;
                            assert(matches@[last].1 == *entry);
                            assert(entry_found(matches@, walk_child(trace, tt, j as int), trace[tt].2[j as int], prefix@));
                        }
                    },
                    None => {},
                }
                proof {
                    assert forall|k: int| 0 <= k < j + 1 implies #[trigger] entry_settled(exprs, trace, tt, k, stack@, matches@) by {
                        if k < j {
                            lemma_settled_grow(exprs, trace, tt, k, st1, stack@, mt1, matches@);
                        }
                    }
                }
                j = j + 1;
            }
            proof {
                assert forall|t: int, k: int|
                    0 <= t < trace.len() && 0 <= k < trace[t].2.len() implies #[trigger] entry_settled(
                    exprs,
                    trace,
                    t,
                    k,
                    stack@,
                    matches@,
                ) by {
                    if t < tt {
                        lemma_settled_grow(exprs, trace, t, k, sb, stack@, mb, matches@);
                    }
                }
            }
        }
        proof {
            if trace.len() < usize::MAX {
                assert forall|t: int, j: int|
                    0 <= t < trace.len() && 0 <= j < trace[t].2.len() implies #[trigger] entry_settled(
                    exprs,
                    trace,
                    t,
                    j,
                    Seq::empty(),
                    matches@,
                ) by {
                    assert(entry_settled(exprs, trace, t, j, stack@, matches@));
                    assert(stack@ =~= Seq::<(PathVec, Option<PathVec>)>::empty());
                }
            }
            assert(walk_starts(trace));
        }
        Ok(matches)
    }
}

/// `listing` lists the records of `dir`, in shortlex order of their names,
/// each once, as the listing entries of what they map to.
pub open spec fn lists_map(dir: PathPrefixTree<MapEntry>, listing: Seq<FileEntry>) -> bool {
    &&& forall|i: int|
        #![trigger listing[i]]
        0 <= i < listing.len() ==> dir.record_at(listing[i].name@) is Some && map_listing(
            listing[i],
            listing[i].name@,
            dir.record_at(listing[i].name@).unwrap().0,
        )
    &&& forall|s: Seq<char>|
        #[trigger] dir.record_at(s) is Some ==> exists|i: int| 0 <= i < listing.len() && listing[i].name@ == s
    &&& forall|i: int, j: int|
        #![trigger listing[i], listing[j]]
        0 <= i < j < listing.len() ==> shortlex_lt(listing[i].name@, listing[j].name@)
}

impl<FS> RemapOverlayFilesystem<FS> {
    /// The tree of image paths and what they map to.
    pub closed spec fn tree(&self) -> PathPrefixTree<MapEntry> {
        self.img_to_host
    }

    /// The host filesystem that the image paths are mapped into.
    pub closed spec fn source(&self) -> FS {
        self.fs
    }

    /// The entries of the image directory at `path`, or `None` where no
    /// directory is mapped there.
    fn list(&self, path: PathRef) -> (r: Option<Vec<FileEntry>>)
        ensures
            match self.tree().subdir_comps(path@) {
                Some(dir) => r matches Some(v) && lists_map(dir, v@),
                None => r is None,
            },
    {
        let dir = match self.img_to_host.lookup_subdir(path) {
            Some(d) => d,
            None => return None,
        };
        let entries = dir.iter().collect_entries();
        proof {
            assert(lists_sorted(*dir, entries@));
        }
        let mut out: Vec<FileEntry> = Vec::new();
        let mut k: usize = 0;
        while k < entries.len()
            invariant
                k <= entries@.len(),
                out@.len() == k,
                forall|i: int|
                    #![trigger out@[i]]
                    0 <= i < k ==> map_listing(out@[i], entries@[i].0@, *entries@[i].1),
            decreases entries@.len() - k,
        {
            let name = entries[k].0.clone();
            let entry: &MapEntry = entries[k].1;
            out.push(entry.as_file_entry(name));
            k = k + 1;
        }
        proof {
            let listing = out@;
            assert forall|i: int|
                #![trigger listing[i]]
                0 <= i < listing.len() implies dir.record_at(listing[i].name@) is Some && map_listing(
                listing[i],
                listing[i].name@,
                dir.record_at(listing[i].name@).unwrap().0,
            ) by {
                assert(entries@[i].0@ == listing[i].name@);
            }
            assert forall|s: Seq<char>| #[trigger] dir.record_at(s) is Some implies exists|i: int|
                0 <= i < listing.len() && listing[i].name@ == s by {
                let i = choose|i: int| 0 <= i < entries@.len() && entries@[i].0@ == s;
                assert(listing[i].name@ == entries@[i].0@);
            }
            assert forall|i: int, j: int|
                #![trigger listing[i], listing[j]]
                0 <= i < j < listing.len() implies shortlex_lt(listing[i].name@, listing[j].name@) by {
                assert(listing[i].name@ == entries@[i].0@);
                assert(listing[j].name@ == entries@[j].0@);
            }
        }
        Some(out)
    }

    /// The host path and image path of host entries of the tree, depth
    /// first from the root: each pair is a host entry stored in the tree
    /// under its image path, and every host entry at the top of the tree is
    /// listed. Gives up after visiting `usize::MAX` directories.
    pub fn dump(&self) -> (r: Vec<(PathVec, PathVec)>)
        ensures
            forall|i: int| 0 <= i < r@.len() ==> dumped_entry(self.tree(), (#[trigger] r@[i]).0@, r@[i].1@),
            lists_top_host_entries(self.tree(), r@),
    {
        let ghost tree = self.img_to_host;
        let mut queue: Vec<PathVec> = Vec::new();
        queue.push(PathVec::new());
        let mut output: Vec<(PathVec, PathVec)> = Vec::new();
        let mut budget: usize = usize::MAX;
        while budget > 0
            invariant
                tree == self.img_to_host,
                forall|i: int| 0 <= i < output@.len() ==> dumped_entry(tree, (#[trigger] output@[i]).0@, output@[i].1@),
                budget == usize::MAX ==> queue@.len() == 1 && queue@[0]@ == Seq::<char>::empty(),
                budget < usize::MAX ==> lists_top_host_entries(tree, output@),
            ensures
                budget < usize::MAX,
            decreases budget,
        {
            let ghost first = budget == usize::MAX;
            budget = budget - 1;
            let path = match queue.pop() {
                Some(p) => p,
                None => break,
            };
            proof {
                if first {
                    assert(components(path@) =~= Seq::<Seq<char>>::empty());
                }
            }
            let listing = match self.img_to_host.lookup_subdir(path.as_path_ref()) {
                Some(d) => d,
                None => continue,
            };
            let ghost dir = components(path@);
            let ghost before = output@;
            proof {
                assert(PathRef::PathVec(&path)@ == dir);
            }
            let entries = listing.iter().collect_entries();
            let mut k: usize = 0;
            while k < entries.len()
                invariant
                    tree == self.img_to_host,
                    tree.subdir_comps(dir) == Some(*listing),
                    dir == components(path@),
                    lists_sorted(*listing, entries@),
                    forall|i: int| 0 <= i < output@.len() ==> dumped_entry(tree, (#[trigger] output@[i]).0@, output@[i].1@),
                    output@.len() >= before.len(),
                    forall|i: int| 0 <= i < before.len() ==> #[trigger] output@[i] == before[i],
                    first ==> *listing == tree && path@ == Seq::<char>::empty(),
                    first ==> forall|j: int|
                        0 <= j < k ==> entry_listed(*(#[trigger] entries@[j]).1, entries@[j].0@, output@),
                decreases entries@.len() - k,
            {
                let child = PathVec::from_base(path.clone_path(), entries[k].0.as_str());
                let ghost out_before = output@;
                match entries[k].1 {
                    MapEntry::GeneratedDir => {
                        queue.push(child);
                    },
                    MapEntry::HostEntry { host_path, host_entry } => {
                        proof {
                            let name = entries@[k as int].0@;
                            assert(listing.record_at(name) is Some);
                            crate::path::pathtrie::lemma_get_child(tree, dir, name);
                            assert(child@ == child_path(path@, name));
                            assert(tree.get_comps(components(path@).push(name)) == Some(*entries@[k as int].1));
                        }
                        output.push((host_path.clone_path(), child.clone_path()));
                        proof {
                            if first {
                                assert(child@ =~= entries@[k as int].0@);
                                let last = output@.len() - 1;
                                assert(output@[last].0@ == host_path@ && output@[last].1@ == entries@[k as int].0@);
                            }
                        }
                        if host_entry.file_type == FileType::Directory {
                            queue.push(child);
                        }
                    },
                }
                proof {
                    if first {
                        assert forall|j: int|
                            0 <= j < k + 1 implies entry_listed(*(#[trigger] entries@[j]).1, entries@[j].0@, output@) by {
                            if j < k {
                                assert(entry_listed(*entries@[j].1, entries@[j].0@, out_before));
                                if *entries@[j].1 is HostEntry {
                                    let i = choose|i: int|
                                        0 <= i < out_before.len() && out_before[i].0@ == entries@[j].1->host_path@
                                            && out_before[i].1@ == entries@[j].0@;
                                    assert(output@[i] == out_before[i]);
                                }
                            }
                        }
                    }
                }
                k = k + 1;
            }
            proof {
                if first {
                    assert forall|name: Seq<char>| #[trigger] tree.record_at(name) is Some implies host_entry_listed(
                        tree.record_at(name),
                        name,
                        output@,
                    ) by {
                        let j = choose|j: int| 0 <= j < entries@.len() && entries@[j].0@ == name;
                        assert(*entries@[j].1 == tree.record_at(name).unwrap().0);
                        assert(entry_listed(*entries@[j].1, entries@[j].0@, output@));
                    }
                } else {
                    assert forall|name: Seq<char>| #[trigger] tree.record_at(name) is Some implies host_entry_listed(
                        tree.record_at(name),
                        name,
                        output@,
                    ) by {
                        assert(host_entry_listed(tree.record_at(name), name, before));
                        if tree.record_at(name).unwrap().0 is HostEntry {
                            let i = choose|i: int|
                                0 <= i < before.len() && before[i].0@ == tree.record_at(name).unwrap().0->host_path@
                                    && before[i].1@ == name;
                            assert(output@[i] == before[i]);
                        }
                    }
                }
            }
        }
        output
    }
}

/// Every host entry at the top of `tree` is listed in `out` with its host
/// path and its name as image path.
pub open spec fn lists_top_host_entries(tree: PathPrefixTree<MapEntry>, out: Seq<(PathVec, PathVec)>) -> bool {
    forall|name: Seq<char>| #![trigger tree.record_at(name)] host_entry_listed(tree.record_at(name), name, out)
}

/// Where `record` holds a host entry, `out` lists its host path with the
/// image path `p`.
pub open spec fn host_entry_listed(
    record: Option<(MapEntry, Box<PathPrefixTree<MapEntry>>)>,
    p: Seq<char>,
    out: Seq<(PathVec, PathVec)>,
) -> bool {
    record matches Some((MapEntry::HostEntry { host_path, .. }, _)) ==> exists|i: int|
        0 <= i < out.len() && out[i].0@ == host_path@ && out[i].1@ == p
}

/// Where `entry` is a host entry, `out` lists its host path with the
/// image path `p`.
pub open spec fn entry_listed(entry: MapEntry, p: Seq<char>, out: Seq<(PathVec, PathVec)>) -> bool {
    entry matches MapEntry::HostEntry { host_path, .. } ==> exists|i: int|
        0 <= i < out.len() && out[i].0@ == host_path@ && out[i].1@ == p
}

/// `h` and `p` are the host path and image path of a host entry of `tree`:
/// `p` is a name under a directory, and the components of that directory
/// followed by the name lead to an entry mapped from `h`.
pub open spec fn dumped_entry(tree: PathPrefixTree<MapEntry>, h: Seq<char>, p: Seq<char>) -> bool {
    exists|dir: Seq<char>, name: Seq<char>|
        p == child_path(dir, name) && (#[trigger] tree.get_comps(components(dir).push(name)) matches Some(
            MapEntry::HostEntry { host_path, .. },
        ) && host_path@ == h)
}

/// The image path `p` is what the rules give to the host path `h` found
/// under the matched path `prefix`: `prefix` starts `h` and matches one of
/// the globs, and the rules map `h` to a path whose components are `p`.
pub open spec fn remapped_from(
    rules: Seq<(String, String)>,
    expressions: Seq<Seq<char>>,
    h: Seq<char>,
    prefix: Seq<char>,
    p: Seq<Seq<char>>,
) -> bool {
    &&& leads(prefix, h)
    &&& any_matches(expressions, drop_leading(prefix, '/'))
    &&& rewritten_from(
        rules,
        expressions,
        drop_leading(prefix, '/'),
        crate::path::join_slash(components_after(components(h), components(prefix))),
        0,
        None,
    ) matches Ok(Some(q)) && components(q) == p
}

/// Every host entry that `tree` maps an image path to was found under a
/// matched path and placed where the rules put it.
pub open spec fn maps_remapped(
    tree: PathPrefixTree<MapEntry>,
    rules: Seq<(String, String)>,
    expressions: Seq<Seq<char>>,
) -> bool {
    forall|p: Seq<Seq<char>>|
        #![trigger tree.get_comps(p)]
        p.len() > 0 && (tree.get_comps(p) matches Some(MapEntry::HostEntry { .. })) ==> exists|prefix: Seq<char>|
            remapped_from(rules, expressions, tree.get_comps(p)->0->host_path@, prefix, p)
}

/// The globs of the rules, in order.
pub open spec fn rule_globs(rules: Seq<(String, String)>) -> Seq<Seq<char>> {
    Seq::new(rules.len(), |k: int| rule_glob(rules[k]))
}

/// The image path that the rules give to a collected host entry, if any.
pub open spec fn remap_target(
    rules: Seq<(String, String)>,
    expressions: Seq<Seq<char>>,
    m: (PathVec, FileEntry, PathVec),
) -> Option<Seq<char>> {
    match rewritten_from(
        rules,
        expressions,
        drop_leading(m.2@, '/'),
        crate::path::join_slash(components_after(components(m.0@), components(m.2@))),
        0,
        None,
    ) {
        Ok(Some(q)) => Some(q),
        _ => None,
    }
}

/// The rules give every collected entry a well-formed result, and every
/// collected entry that they give an image path with components has
/// something mapped at that path.
pub open spec fn all_mapped(
    tree: PathPrefixTree<MapEntry>,
    rules: Seq<(String, String)>,
    expressions: Seq<Seq<char>>,
    v: Seq<(PathVec, FileEntry, PathVec)>,
) -> bool {
    forall|i: int|
        0 <= i < v.len() ==> rewritten_from(
            rules,
            expressions,
            drop_leading((#[trigger] v[i]).2@, '/'),
            crate::path::join_slash(components_after(components(v[i].0@), components(v[i].2@))),
            0,
            None,
        ) is Ok && match remap_target(rules, expressions, v[i]) {
            Some(q) => components(q).len() > 0 ==> tree.get_comps(components(q)) is Some,
            None => true,
        }
}

/// A path written as the root has no components.
proof fn lemma_root_no_components(s: Seq<char>)
    requires
        is_root_string(s),
    ensures
        components(s).len() == 0,
{
    if s.len() == 0 {
        assert(components(s) =~= Seq::<Seq<char>>::empty()) by {
            reveal_with_fuel(crate::path::components_from, 2);
        }
    } else {
        assert(components(s) =~= Seq::<Seq<char>>::empty()) by {
            reveal_with_fuel(crate::path::components_from, 3);
        }
    }
}

/// A malformed rewrite that the rules report is the rewrite of one of them.
proof fn lemma_rewrite_error_source(
    rules: Seq<(String, String)>,
    expressions: Seq<Seq<char>>,
    path: Seq<char>,
    suffix: Seq<char>,
    k: int,
    acc: Option<Seq<char>>,
)
    requires
        expressions.len() <= rules.len(),
        rewritten_from(rules, expressions, path, suffix, k, acc) is Err,
    ensures
        ({
            let (at, t, kind) = rewritten_from(rules, expressions, path, suffix, k, acc)->Err_0;
            exists|j: int|
                0 <= j < rules.len() && t == (#[trigger] rules[j]).1@ && rewrite_fields(rules[j].1@, byte_len(rules[j].1@))
                    == Err::<Seq<int>, (int, InvalidRewriteSubstitutionKind)>((at, kind))
        }),
    decreases expressions.len() - k,
{
    if k < 0 || k >= expressions.len() {
    } else if !glob_matches(expressions[k], path) {
        lemma_rewrite_error_source(rules, expressions, path, suffix, k + 1, acc);
    } else if rule_excludes(rules[k]) {
        lemma_rewrite_error_source(rules, expressions, path, suffix, k + 1, None);
    } else if acc is Some {
        lemma_rewrite_error_source(rules, expressions, path, suffix, k + 1, acc);
    } else {
        match rewrite_fields(rules[k].1@, byte_len(rules[k].1@)) {
            Err((at, kind)) => {
                assert(rules[k].1@ == rules[k].1@);
            },
            Ok(fields) => {
                lemma_rewrite_error_source(
                    rules,
                    expressions,
                    path,
                    suffix,
                    k + 1,
                    Some(rule_rewrite(rules[k].1@, expressions[k], path, fields, suffix)),
                );
            },
        }
    }
}

impl<FS: FilesystemHierarchy> RemapOverlayFilesystem<FS> {
    /// Builds the remapping of `fs` by the rules of `cfg`: every host entry
    /// under a path that a rule's glob matches is placed at the image path
    /// that the rules give it, in the order the walk finds them; paths that
    /// rewrite to the root are left out. A later entry placed at or under
    /// the same image path takes its place, as storing in the prefix tree
    /// does. The result is described by the walk: the directories it listed,
    /// the root first and each other one found as an entry of an earlier
    /// listing, no entry twice; the entries it collected,
    /// each given a well-formed image path by the rules and something mapped
    /// there, and, where the filesystem describes its directories and the
    /// walk did not give up, every entry under a matched path.
    pub fn new(fs: FS, cfg: RemapOverlayConfig) -> (r: Result<Self, RemapOverlayFilesystemBuildingError<FS::Error>>)
        requires
            forall|k: int| 0 <= k < cfg.map_rules@.len() ==> fields_fit(#[trigger] cfg.map_rules@[k].1@, 0, false, 0),
        ensures
            r is Ok ==> (forall|k: int|
                0 <= k < cfg.map_rules@.len() ==> glob_builds(#[trigger] rule_glob(cfg.map_rules@[k]))),
            r matches Err(RemapOverlayFilesystemBuildingError::GlobBuildingError(_)) ==> (exists|k: int|
                0 <= k < cfg.map_rules@.len() && !glob_builds(#[trigger] rule_glob(cfg.map_rules@[k])))
                || !globs_combine(Seq::new(cfg.map_rules@.len(), |k: int| rule_glob(cfg.map_rules@[k]))),
            r matches Err(RemapOverlayFilesystemBuildingError::InvalidRewriteSubstitution(a, u, q)) ==> exists|k: int|
                0 <= k < cfg.map_rules@.len() && u@ == (#[trigger] cfg.map_rules@[k]).1@ && rewrite_fields(
                    cfg.map_rules@[k].1@,
                    byte_len(cfg.map_rules@[k].1@),
                ) == Err::<Seq<int>, (int, InvalidRewriteSubstitutionKind)>((a as int, q)),
            r matches Ok(o) ==> maps_remapped(
                o.tree(),
                cfg.map_rules@,
                Seq::new(cfg.map_rules@.len(), |k: int| rule_glob(cfg.map_rules@[k])),
            ),
            r matches Ok(o) ==> exists|trace: Seq<WalkStep>, origins: Seq<(int, int)>, v: Seq<(PathVec, FileEntry, PathVec)>|
                walk_starts(trace) && #[trigger] walk_linked(rule_globs(cfg.map_rules@), trace, origins)
                    && #[trigger] all_mapped(o.tree(), cfg.map_rules@, rule_globs(cfg.map_rules@), v)
                    && (FS::obeys_dir_model() ==> forall|t: int|
                    0 <= t < trace.len() ==> fs.lists(components(#[trigger] trace[t].0), trace[t].2))
                    && (trace.len() < usize::MAX ==> trace.len() > 0 && walk_complete(
                    rule_globs(cfg.map_rules@),
                    trace,
                    v,
                )),
    {
        let ghost fs0 = fs;
        let mut fs = fs;
        let mut glob_keys: Vec<GlobKey> = Vec::new();
        let n = cfg.map_rules.len();
        let mut i: usize = 0;
        while i < n
            invariant
                i <= n,
                n == cfg.map_rules@.len(),
                glob_keys@.len() == i,
                forall|k: int| 0 <= k < i ==> #[trigger] glob_keys@[k].expression() == rule_glob(cfg.map_rules@[k]),
                forall|k: int| 0 <= k < i ==> glob_builds(#[trigger] rule_glob(cfg.map_rules@[k])),
            decreases n - i,
        {
            let pattern = trim_start_char(cfg.map_rules[i].0.as_str(), '!');
            match GlobKey::new(pattern) {
                Ok(k) => glob_keys.push(k),
                Err(e) => {
                    proof {
                        assert(pattern@ == rule_glob(cfg.map_rules@[i as int]));
                        assert(!glob_builds(rule_glob(cfg.map_rules@[i as int])));
                    }
                    return Err(RemapOverlayFilesystemBuildingError::GlobBuildingError(e));
                },
            }
            i = i + 1;
        }
        proof {
            assert(key_expressions(glob_keys@) =~= Seq::new(cfg.map_rules@.len(), |k: int| rule_glob(cfg.map_rules@[k])));
        }
        let matches = match Self::get_host_paths_matching_globs(&mut fs, &glob_keys) {
            Ok(m) => m,
            Err(e) => return Err(e),
        };
        let ghost exprs = key_expressions(glob_keys@);
        let ghost (wtrace, worigins) = choose|trace: Seq<WalkStep>, origins: Seq<(int, int)>|
            walk_starts(trace) && #[trigger] walk_linked(exprs, trace, origins) && (FS::obeys_dir_model() ==> forall|t: int|
                0 <= t < trace.len() ==> fs0.lists(components(#[trigger] trace[t].0), trace[t].2)) && (trace.len()
                < usize::MAX ==> trace.len() > 0 && walk_complete(exprs, trace, matches@));
        proof {
            assert(exprs =~= rule_globs(cfg.map_rules@));
        }
        let mut img_to_host: PathPrefixTree<MapEntry> = PathPrefixTree::new();
        proof {
            assert forall|p: Seq<Seq<char>>|
                #![trigger img_to_host.get_comps(p)]
                p.len() > 0 implies img_to_host.get_comps(p) is None by {
                PathPrefixTree::<MapEntry>::lemma_empty_get(p);
            }
        }
        let mut j: usize = 0;
        while j < matches.len()
            invariant
                j <= matches@.len(),
                exprs == key_expressions(glob_keys@),
                exprs == Seq::new(cfg.map_rules@.len(), |k: int| rule_glob(cfg.map_rules@[k])),
                maps_remapped(img_to_host, cfg.map_rules@, exprs),
                all_mapped(img_to_host, cfg.map_rules@, exprs, matches@.take(j as int)),
                exprs == rule_globs(cfg.map_rules@),
                walk_starts(wtrace) && walk_linked(exprs, wtrace, worigins) && (FS::obeys_dir_model() ==> forall|t: int|
                    0 <= t < wtrace.len() ==> fs0.lists(components(#[trigger] wtrace[t].0), wtrace[t].2))
                    && (wtrace.len() < usize::MAX ==> wtrace.len() > 0 && walk_complete(exprs, wtrace, matches@)),
                n == cfg.map_rules@.len(),
                glob_keys@.len() == n,
                forall|k: int| 0 <= k < n ==> #[trigger] glob_keys@[k].expression() == rule_glob(cfg.map_rules@[k]),
                forall|k: int| 0 <= k < n ==> glob_builds(#[trigger] rule_glob(cfg.map_rules@[k])),
                forall|k: int| 0 <= k < n ==> fields_fit(#[trigger] cfg.map_rules@[k].1@, 0, false, 0),
                forall|q: int| 0 <= q < matches@.len() ==> host_match_ok(#[trigger] matches@[q], key_expressions(glob_keys@)),
            decreases matches@.len() - j,
        {
            let (path, entry, prefix) = &matches[j];
            proof {
                assert(host_match_ok(matches@[j as int], key_expressions(glob_keys@)));
                assert(leads(prefix@, path@));
            }
            let rewritten = match Self::get_rewritten_path::<FS::Error>(&cfg, &glob_keys, path, prefix) {
                Ok(rw) => rw,
                Err(e) => {
                    proof {
                        let text = drop_leading(prefix@, '/');
                        let suffix = crate::path::join_slash(components_after(components(path@), components(prefix@)));
                        lemma_rewrite_error_source(cfg.map_rules@, exprs, text, suffix, 0, None);
                    }
                    return Err(e);
                },
            };
            let ghost tree_before = img_to_host;
            match rewritten {
                Some(rw) => {
                    if !rw.is_root() {
                        let copy = FileEntry { name: entry.name.clone(), file_type: entry.file_type, len: entry.len };
                        let ghost before = img_to_host;
                        let host_path = path.clone_path();
                        img_to_host.insert_path(
                            rw.as_path_ref(),
                            MapEntry::HostEntry { host_path, host_entry: copy },
                        );
                        proof {
                            let target = components(rw@);
                            assert(PathRef::PathVec(&rw)@ == target);
                            assert(remapped_from(cfg.map_rules@, exprs, path@, prefix@, target));
                            let after = img_to_host;
                            if target.len() > 0 {
                                assert forall|p: Seq<Seq<char>>|
                                    #![trigger after.get_comps(p)]
                                    p.len() > 0 && (after.get_comps(p) matches Some(MapEntry::HostEntry { .. }))
                                        implies exists|pre: Seq<char>|
                                    remapped_from(cfg.map_rules@, exprs, after.get_comps(p)->0->host_path@, pre, p) by {
                                    if p == target {
                                        assert(remapped_from(cfg.map_rules@, exprs, after.get_comps(p)->0->host_path@, prefix@, p));
                                    } else if is_proper_prefix(p, target) {
                                        assert(holds_default(after.get_comps(p)));
                                        let v = after.get_comps(p).unwrap();
                                        assert(call_ensures(MapEntry::default, (), v));
                                    } else {
                                        assert(after.get_comps(p) == before.get_comps(p));
                                    }
                                }
                            }
                        }
                    }
                },
                None => {},
            }
            proof {
                let tree_after = img_to_host;
                let mj = matches@[j as int];
                let vj1 = matches@.take(j + 1);
                let vj = matches@.take(j as int);
                assert forall|i: int|
                    0 <= i < vj1.len() implies rewritten_from(
                    cfg.map_rules@,
                    exprs,
                    drop_leading((#[trigger] vj1[i]).2@, '/'),
                    crate::path::join_slash(components_after(components(vj1[i].0@), components(vj1[i].2@))),
                    0,
                    None,
                ) is Ok && match remap_target(cfg.map_rules@, exprs, vj1[i]) {
                        Some(q) => components(q).len() > 0 ==> tree_after.get_comps(components(q)) is Some,
                        None => true,
                    } by {
                    if i < j {
                        assert(vj1[i] == vj[i]);
                    } else {
                        assert(vj1[i] == mj);
                    }
                    let tq = remap_target(cfg.map_rules@, exprs, vj1[i]);
                    if tq is Some && components(tq->0).len() > 0 {
                        let q = tq->0;
                        if i == j {
                            assert(vj1[i] == mj);
                            let rw = rewritten->0;
                            assert(rw@ == q);
                            if is_root_string(q) {
                                lemma_root_no_components(q);
                            }
                            assert(PathRef::PathVec(&rw)@ == components(q));
                        } else {
                            assert(vj1[i] == vj[i]);
                            assert(tree_before.get_comps(components(q)) is Some);
                            if rewritten is Some {
                                let rw = rewritten->0;
                                if !is_root_string(rw@) && components(rw@).len() > 0 {
                                    let target = components(rw@);
                                    if components(q) == target {
                                    } else if is_proper_prefix(components(q), target) {
                                        assert(holds_default(tree_after.get_comps(components(q))));
                                    } else {
                                        assert(tree_after.get_comps(components(q)) == tree_before.get_comps(components(q)));
                                    }
                                }
                            }
                        }
                    }
                }
            }
            j = j + 1;
        }
        proof {
            assert(matches@.take(matches@.len() as int) =~= matches@);
            assert(all_mapped(img_to_host, cfg.map_rules@, rule_globs(cfg.map_rules@), matches@));
            assert(walk_starts(wtrace));
            assert(walk_linked(rule_globs(cfg.map_rules@), wtrace, worigins));
        }
        Ok(RemapOverlayFilesystem { img_to_host, fs })
    }
}

/// The directories of a remapping are the subtrees of its image paths,
/// listed as `lists_map` says.
impl<F> DirModel for RemapOverlayFilesystem<F> {
    open spec fn obeys_dir_model() -> bool {
        true
    }

    open spec fn dir_exists(&self, path: Seq<Seq<char>>) -> bool {
        self.tree().subdir_comps(path) is Some
    }

    open spec fn lists(&self, path: Seq<Seq<char>>, listing: Seq<FileEntry>) -> bool {
        self.tree().subdir_comps(path) matches Some(dir) && lists_map(dir, listing)
    }
}

impl<F: FilesystemHierarchy> FilesystemHierarchy for RemapOverlayFilesystem<F> {
    type Error = RemapOverlayError<F::Error>;

    /// The entries mapped under the image directory at `path`; an error
    /// naming the path where none is mapped.
    fn read_dir(&mut self, path: PathRef) -> (r: Result<Vec<FileEntry>, RemapOverlayError<F::Error>>)
        ensures
            final(self).tree() == old(self).tree(),
            match old(self).tree().subdir_comps(path@) {
                Some(dir) => r matches Ok(v) && lists_map(dir, v@),
                None => r matches Err(RemapOverlayError::NoSuchFile(s)) && s@ == display_string(path),
            },
    {
        match self.list(path) {
            Some(v) => Ok(v),
            None => Err(RemapOverlayError::NoSuchFile(path.to_string())),
        }
    }
}

/// The image path `src` is mapped to a host entry.
pub open spec fn maps_host_entry(tree: PathPrefixTree<MapEntry>, src: PathRef) -> bool {
    tree.get_comps(src@) matches Some(MapEntry::HostEntry { .. })
}

/// The host path, as components, that the image path `path` is mapped to,
/// where a host entry is mapped there.
pub open spec fn mapped_host(tree: PathPrefixTree<MapEntry>, path: Seq<Seq<char>>) -> Option<Seq<Seq<char>>> {
    match tree.get_comps(path) {
        Some(MapEntry::HostEntry { host_path, host_entry }) => Some(PathRef::PathVec(&host_path)@),
        _ => None,
    }
}

/// The files of a remapping are the host files its image paths are mapped
/// to.
impl<FS: FileModel> FileModel for RemapOverlayFilesystem<FS> {
    open spec fn obeys_file_model() -> bool {
        FS::obeys_file_model()
    }

    open spec fn file_model(&self, path: Seq<Seq<char>>) -> Option<Seq<u8>> {
        match mapped_host(self.tree(), path) {
            Some(h) => self.source().file_model(h),
            None => None,
        }
    }
}

impl<BDW: crate::blockdev::BlockDeviceWrite + ?Sized, FS: FilesystemCopier<BDW>> FilesystemCopier<BDW> for RemapOverlayFilesystem<FS> {
    type Error = RemapOverlayError<FS::Error>;

    /// Copies the host file that the image path `src` is mapped to; an
    /// error naming the path where it is mapped to none.
    fn copy_file_in(
        &mut self,
        src: PathRef,
        dest: &mut BDW,
        input_offset: u64,
        output_offset: u64,
        size: u64,
    ) -> (r: Result<u64, RemapOverlayError<FS::Error>>)
        ensures
            final(self).tree() == old(self).tree(),
            !maps_host_entry(old(self).tree(), src) ==> (r matches Err(RemapOverlayError::NoSuchFile(s)) && s@
                == display_string(src)),
            maps_host_entry(old(self).tree(), src) ==> !(r matches Err(RemapOverlayError::NoSuchFile(_))),
            FS::obeys_copy_log() ==> (*final(self)).source().copy_log() == match mapped_host(old(self).tree(), src@) {
                Some(h) => (*old(self)).source().copy_log().push((h, input_offset, output_offset, size)),
                None => (*old(self)).source().copy_log(),
            },
    {
        let entry = match self.img_to_host.get(src) {
            Some(e) => e,
            None => return Err(RemapOverlayError::NoSuchFile(src.to_string())),
        };
        match entry {
            MapEntry::GeneratedDir => Err(RemapOverlayError::NoSuchFile(src.to_string())),
            MapEntry::HostEntry { host_path, .. } => {
                match self.fs.copy_file_in(host_path.as_path_ref(), dest, input_offset, output_offset, size) {
                    Ok(n) => Ok(n),
                    Err(e) => Err(RemapOverlayError::UnderlyingError(e)),
                }
            },
        }
    }
}

} // verus!
