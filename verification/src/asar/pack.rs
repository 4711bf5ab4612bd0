//! Planning an archive: which files go to the `.unpacked` sidecar, the
//! header tree with each packed file's offset, and recording integrity
//! metadata once the files have been streamed.
//!
//! Packed files are laid out back to back in the data region, in the order
//! in which they are listed.

use vstd::prelude::*;

use super::error::{AsarError, HeaderProblem};
use super::integrity::{placeholder, placeholder_view, to_json, texts, integrity_view, Integrity};
use super::json::{find_member, jview, lemma_member_index, mview, Json, JsonNumber, JsonValue};
use super::tree::{
    dir_files, dir_or_absent, diverge, insert_files, insert_path, jget, jindex, jset,
    lemma_index_view, lemma_insert_frame, lemma_insert_ok, lemma_insert_then_lookup,
    lemma_lookup_empty, lemma_mview_update, lemma_remove_insert, lookup, names, proper_prefix,
    with_files,
};
use crate::text::{chars_of, decimal, decimal_text, owned};

verus! {

/// The longest unpack glob handled, in characters, once `globset` has
/// accepted it. A glob this long never compiles within the 10 MiB automaton
/// size that `globset` allows its regexes (`Glob::compile_matcher` panics on
/// it), and below it the literal automata that `GlobSet` builds stay far
/// under their state limit of `i32::MAX` states.
pub const GLOB_MAX_CHARS: usize = 0x1000_0000;

/// Whether `s` holds a backslash. `globset` reads a backslash in a glob,
/// and in a name it matches, differently on Windows and elsewhere; on text
/// without one it answers the same on every platform.
pub open spec fn has_backslash(s: Seq<char>) -> bool {
    s.contains('\\')
}

/// Whether `s` holds a backslash.
pub fn holds_backslash(s: &str) -> (r: bool)
    ensures
        r == has_backslash(s@),
{
    let cs = chars_of(s);
    let mut i: usize = 0;
    while i < cs.len()
        invariant
            i <= cs@.len(),
            cs@ == s@,
            forall|j: int| 0 <= j < i ==> cs@[j] != '\\',
        decreases cs.len() - i,
    {
        if cs[i] == '\\' {
            assert(s@[i as int] == '\\');
            return true;
        }
        i += 1;
    }
    false
}

/// Whether `globset::Glob::new` accepts the backslash-free glob `pattern`.
pub uninterp spec fn glob_parses(pattern: Seq<char>) -> bool;

/// Whether the backslash-free glob `pattern` is accepted and the set of it
/// alone is built: `globset::Glob::new`, then `globset::GlobSet::new`.
pub uninterp spec fn glob_builds(pattern: Seq<char>) -> bool;

/// Whether the set built of the one backslash-free glob `pattern` matches
/// the backslash-free name `name` (`globset::GlobSet::is_match`).
pub uninterp spec fn glob_selects(pattern: Seq<char>, name: Seq<char>) -> bool;

/// `globset::Glob::new`: whether it accepts `pattern`, and its error
/// otherwise. For a glob that holds a backslash, the answer depends on the
/// platform and is not stated.
#[verifier::external_body]
fn glob_parse(pattern: &str) -> (r: Result<(), globset::Error>)
    ensures
        !has_backslash(pattern@) ==> (r is Ok <==> glob_parses(pattern@)),
{
    match globset::Glob::new(pattern) {
        Ok(_) => Ok(()),
        Err(e) => Err(e),
    }
}

/// `globset::Glob::new`, then `globset::GlobSet::new` on that glob: keeps
/// only whether both succeed, and the first error otherwise. For a glob
/// that holds a backslash, the answer depends on the platform and is not
/// stated.
#[verifier::external_body]
fn glob_new(pattern: &str) -> (r: Result<(), globset::Error>)
    requires
        pattern@.len() <= GLOB_MAX_CHARS,
    ensures
        !has_backslash(pattern@) ==> (r is Ok <==> glob_builds(pattern@)),
{
    match globset::Glob::new(pattern) {
        Ok(g) => match globset::GlobSet::new([g]) {
            Ok(_) => Ok(()),
            Err(e) => Err(e),
        },
        Err(e) => Err(e),
    }
}

/// `globset::GlobSet::is_match` on the set built of the one glob `pattern`
/// (false when it is not built). Where the glob or the name holds a
/// backslash, the answer depends on the platform and is not stated.
#[verifier::external_body]
fn glob_is_match(pattern: &str, name: &str) -> (r: bool)
    requires
        pattern@.len() <= GLOB_MAX_CHARS,
    ensures
        !has_backslash(pattern@) && !has_backslash(name@) && glob_builds(pattern@) ==> r
            == glob_selects(pattern@, name@),
{
    match globset::Glob::new(pattern) {
        Ok(g) => match globset::GlobSet::new([g]) {
            Ok(set) => set.is_match(name),
            Err(_) => false,
        },
        Err(_) => false,
    }
}

/// Options for packing.
#[derive(Debug, Clone, Default)]
pub struct PackOptions {
    /// Basename glob. A file whose name matches is stored in the `.unpacked`
    /// sidecar tree rather than inside the archive. The match is applied to
    /// the file's basename only.
    pub unpack: Option<String>,
}

/// A checked unpack glob.
pub struct UnpackRule {
    pattern: Option<String>,
}

impl UnpackRule {
    /// The glob, if any.
    pub closed spec fn pattern(&self) -> Option<Seq<char>> {
        match self.pattern {
            Some(p) => Some(p@),
            None => None,
        }
    }

    pub closed spec fn wf(&self) -> bool {
        self.pattern matches Some(p) ==> p@.len() <= GLOB_MAX_CHARS && (!has_backslash(p@)
            ==> glob_builds(p@))
    }

    /// Whether a file named `basename` goes to the sidecar tree: never
    /// without a glob; as `globset` matches, where neither the glob nor the
    /// name holds a backslash.
    pub fn selects(&self, basename: &str) -> (r: bool)
        requires
            self.wf(),
        ensures
            self.pattern() is None ==> !r,
            self.pattern() matches Some(p) ==> (!has_backslash(p) && !has_backslash(basename@) ==> r
                == glob_selects(p, basename@)),
    {
        match &self.pattern {
            Some(p) => glob_is_match(p.as_str(), basename),
            None => false,
        }
    }
}

/// `r` is the outcome of checking the unpack glob of `opts`: no glob gives a
/// rule without one; a glob gives a rule holding it, or `BadGlob`, as
/// `globset` builds it or not (stated where it holds no backslash).
pub open spec fn rule_checked(opts: PackOptions, r: Result<UnpackRule, AsarError>) -> bool {
    match opts.unpack {
        None => r matches Ok(rule) && rule.wf() && rule.pattern() is None,
        Some(p) => {
            &&& r is Ok ==> (r matches Ok(rule) && rule.wf() && rule.pattern() == Some(p@))
            &&& r is Err ==> (r matches Err(AsarError::BadGlob(_)))
            &&& !has_backslash(p@) ==> (r is Ok <==> glob_builds(p@))
        },
    }
}

/// Checks the unpack glob of `opts`: `BadGlob` where `globset` refuses it
/// or cannot build its matcher. For a glob that holds a backslash, which
/// of the two comes is not stated.
pub fn unpack_rule(opts: &PackOptions) -> (r: Result<UnpackRule, AsarError>)
    requires
        opts.unpack matches Some(p) ==> p@.len() <= GLOB_MAX_CHARS,
    ensures
        rule_checked(*opts, r),
{
    match &opts.unpack {
        None => Ok(UnpackRule { pattern: None }),
        Some(p) => match glob_new(p.as_str()) {
            Ok(()) => Ok(UnpackRule { pattern: Some(p.clone()) }),
            Err(e) => Err(AsarError::BadGlob(e)),
        },
    }
}

/// Checks the unpack glob of `opts`, of any length: a glob that `globset`
/// refuses gives `BadGlob`; one that it accepts but that is longer than
/// `GLOB_MAX_CHARS`, whose matcher can never be compiled, gives nothing;
/// any other is checked as `unpack_rule` checks it.
pub fn unpack_rule_checked(opts: &PackOptions) -> (r: Option<Result<UnpackRule, AsarError>>)
    ensures
        match opts.unpack {
            Some(p) if p@.len() > GLOB_MAX_CHARS => {
                &&& r is None || (r matches Some(Err(AsarError::BadGlob(_))))
                &&& !has_backslash(p@) ==> (r is None <==> glob_parses(p@))
            },
            _ => r matches Some(x) && rule_checked(*opts, x),
        },
{
    match &opts.unpack {
        Some(p) => {
            if p.unicode_len() > GLOB_MAX_CHARS {
                match glob_parse(p.as_str()) {
                    Ok(()) => None,
                    Err(e) => Some(Err(AsarError::BadGlob(e))),
                }
            } else {
                Some(unpack_rule(opts))
            }
        },
        None => Some(unpack_rule(opts)),
    }
}

/// A file to pack: its path components below the source root, its size,
/// and whether it goes to the sidecar tree.
#[derive(Debug)]
pub struct FileEntry {
    pub components: Vec<String>,
    pub size: u64,
    pub unpacked: bool,
}

/// The last component of a path, or nothing.
pub open spec fn basename(cs: Seq<String>) -> Seq<char> {
    if cs.len() == 0 {
        Seq::empty()
    } else {
        cs.last()@
    }
}

/// The entry for a file found at `components` with `size` bytes.
pub fn file_entry(components: Vec<String>, size: u64, rule: &UnpackRule) -> (f: FileEntry)
    requires
        rule.wf(),
    ensures
        f.components@ == components@,
        f.size == size,
        rule.pattern() is None ==> !f.unpacked,
        rule.pattern() matches Some(p) ==> (!has_backslash(p) && !has_backslash(basename(components@))
            ==> f.unpacked == glob_selects(p, basename(components@))),
{
    proof {
        if components@.len() == 0 {
            reveal_strlit("");
            assert(""@ =~= basename(components@));
        }
    }
    let unpacked = if components.len() == 0 {
        rule.selects("")
    } else {
        rule.selects(components[components.len() - 1].as_str())
    };
    proof {
        if components@.len() == 0 {
            reveal_strlit("");
            assert(""@ =~= Seq::<char>::empty());
        }
    }
    FileEntry { components, size, unpacked }
}

/// Total size of the packed files among the first `k` of `fs`: the offset,
/// within the data region, of the next packed file.
pub open spec fn packed_before(fs: Seq<FileEntry>, k: int) -> int
    decreases k,
{
    if k <= 0 {
        0
    } else {
        packed_before(fs, k - 1) + if fs[k - 1].unpacked {
            0
        } else {
            fs[k - 1].size as int
        }
    }
}

/// Total size of the first `k` files.
pub open spec fn size_before(fs: Seq<FileEntry>, k: int) -> int
    decreases k,
{
    if k <= 0 {
        0
    } else {
        size_before(fs, k - 1) + fs[k - 1].size
    }
}

pub proof fn lemma_packed_le_size(fs: Seq<FileEntry>, k: int)
    ensures
        0 <= packed_before(fs, k) <= size_before(fs, k),
    decreases k,
{
    if k > 0 {
        lemma_packed_le_size(fs, k - 1);
    }
}

pub proof fn lemma_size_mono(fs: Seq<FileEntry>, j: int, k: int)
    requires
        0 <= j <= k,
    ensures
        size_before(fs, j) <= size_before(fs, k),
    decreases k - j,
{
    if j < k {
        lemma_size_mono(fs, j, k - 1);
    }
}

/// The header node of a file of `size` bytes: its size, where its bytes
/// are, and a placeholder integrity object.
pub open spec fn leaf_view(size: u64, unpacked: bool, offset: int) -> Json {
    Json::Object(
        seq![
            ("size"@, Json::Unsigned(size)),
            if unpacked {
                ("unpacked"@, Json::Bool(true))
            } else {
                ("offset"@, Json::Str(decimal_text(offset as nat)))
            },
            ("integrity"@, placeholder_view(size as int)),
        ],
    )
}

/// The children of the root after storing the first `k` files of `fs`.
pub open spec fn tree_after(fs: Seq<FileEntry>, k: int) -> Result<Seq<(Seq<char>, Json)>, Seq<char>>
    decreases k,
{
    if k <= 0 {
        Ok(Seq::empty())
    } else {
        match tree_after(fs, k - 1) {
            Ok(t) => insert_path(
                t,
                names(fs[k - 1].components@),
                leaf_view(fs[k - 1].size, fs[k - 1].unpacked, packed_before(fs, k - 1)),
            ),
            Err(e) => Err(e),
        }
    }
}

/// The root node whose children are `files`.
pub open spec fn root_view(files: Seq<(Seq<char>, Json)>) -> Json {
    Json::Object(seq![("files"@, Json::Object(files))])
}

/// The header node of a file.
fn leaf(size: u64, unpacked: bool, offset: u64) -> (v: JsonValue)
    ensures
        jview(v) == leaf_view(size, unpacked, offset as int),
{
    let where_ = if unpacked {
        (owned("unpacked"), JsonValue::Bool(true))
    } else {
        (owned("offset"), JsonValue::Str(decimal(offset)))
    };
    let v = JsonValue::Object(
        vec![
            (owned("size"), JsonValue::Number(JsonNumber::Unsigned(size))),
            where_,
            (owned("integrity"), placeholder(size)),
        ],
    );
    proof {
        let m = v->Object_0;
        assert(mview(m@) =~= leaf_view(size, unpacked, offset as int)->Object_0);
    }
    v
}

/// Stores `leaf` at the path `components` of the tree `tree`, creating
/// missing directories.
pub fn insert_at_path(tree: JsonValue, components: &Vec<String>, leaf: JsonValue) -> (r: Result<
    JsonValue,
    AsarError,
>)
    ensures
        match dir_files(jview(tree)) {
            None => r matches Err(AsarError::MalformedHeader(HeaderProblem::RootFilesMissing)),
            Some(files) => match insert_path(files, names(components@), jview(leaf)) {
                Ok(f) => r matches Ok(t) && jview(t) == with_files(jview(tree), f),
                Err(n) => r matches Err(AsarError::MalformedHeader(HeaderProblem::NotADirectory(s)))
                    && s@ == n,
            },
        },
{
    match tree {
        JsonValue::Object(mut m) => {
            proof {
                lemma_index_view(m@, "files"@);
                lemma_member_index(m@, "files"@);
            }
            match find_member(&m, "files") {
                Some(fi) => {
                    let ghost mbefore = m@;
                    let (fk, fv) = m.remove(fi);
                    match fv {
                        JsonValue::Object(files) => {
                            assert(names(components@).skip(0) =~= names(components@));
                            match insert_files(files, components, 0, leaf) {
                                Ok(files2) => {
                                    let ghost entry = (fk, JsonValue::Object(files2));
                                    m.insert(fi, (fk, JsonValue::Object(files2)));
                                    proof {
                                        lemma_remove_insert(mbefore, fi as int, entry);
                                        lemma_mview_update(mbefore, fi as int, entry);
                                    }
                                    Ok(JsonValue::Object(m))
                                },
                                Err(name) => Err(
                                    AsarError::MalformedHeader(HeaderProblem::NotADirectory(name)),
                                ),
                            }
                        },
                        _ => Err(AsarError::MalformedHeader(HeaderProblem::RootFilesMissing)),
                    }
                },
                None => Err(AsarError::MalformedHeader(HeaderProblem::RootFilesMissing)),
            }
        },
        _ => Err(AsarError::MalformedHeader(HeaderProblem::RootFilesMissing)),
    }
}

/// Builds the header tree of the files `files`, in order: each packed file
/// is given the offset right after the packed files before it.
pub fn pack_tree(files: &Vec<FileEntry>) -> (r: Result<JsonValue, AsarError>)
    requires
        size_before(files@, files@.len() as int) <= u64::MAX,
    ensures
        match tree_after(files@, files@.len() as int) {
            Ok(t) => r matches Ok(v) && jview(v) == root_view(t),
            Err(n) => r matches Err(AsarError::MalformedHeader(HeaderProblem::NotADirectory(s)))
                && s@ == n,
        },
{
    let mut tree = super::tree::new_dir();
    assert(super::tree::empty_dir() == root_view(Seq::empty()));
    let mut offset: u64 = 0;
    let mut i: usize = 0;
    while i < files.len()
        invariant
            i <= files@.len(),
            size_before(files@, files@.len() as int) <= u64::MAX,
            offset == packed_before(files@, i as int),
            tree_after(files@, i as int) matches Ok(t) && jview(tree) == root_view(t),
        decreases files@.len() - i,
    {
        let f = &files[i];
        let ghost t = tree_after(files@, i as int)->Ok_0;
        proof {
            lemma_jindex_files(t);
        }
        let node = leaf(f.size, f.unpacked, offset);
        match insert_at_path(tree, &f.components, node) {
            Ok(t2) => {
                tree = t2;
                proof {
                    let f2 = tree_after(files@, i + 1)->Ok_0;
                    lemma_jindex_files(f2);
                }
            },
            Err(e) => {
                proof {
                    lemma_tree_after_err(files@, i + 1, files@.len() as int);
                }
                return Err(e);
            },
        }
        proof {
            lemma_packed_le_size(files@, i + 1);
            lemma_size_mono(files@, i + 1, files@.len() as int);
        }
        if !f.unpacked {
            offset = offset + f.size;
        }
        i += 1;
    }
    Ok(tree)
}

proof fn lemma_tree_after_err(fs: Seq<FileEntry>, k: int, m: int)
    requires
        0 <= k <= m,
        tree_after(fs, k) is Err,
    ensures
        tree_after(fs, m) == tree_after(fs, k),
    decreases m - k,
{
    if k < m {
        lemma_tree_after_err(fs, k, m - 1);
    }
}

proof fn lemma_jindex_files(t: Seq<(Seq<char>, Json)>)
    ensures
        jindex(seq![("files"@, Json::Object(t))], "files"@) == Some(0int),
        dir_files(root_view(t)) == Some(t),
        forall|f: Seq<(Seq<char>, Json)>| #[trigger] with_files(root_view(t), f) == root_view(f),
{
    let s = seq![("files"@, Json::Object(t))];
    assert(s[0].0 == "files"@);
    assert forall|f: Seq<(Seq<char>, Json)>| #[trigger] with_files(root_view(t), f) == root_view(f) by {
        assert(s.update(0, ("files"@, Json::Object(f))) =~= seq![("files"@, Json::Object(f))]);
    }
}

/// Number of bytes and of files, as announced when packing starts.
pub fn totals(files: &Vec<FileEntry>) -> (r: (u64, u64))
    requires
        size_before(files@, files@.len() as int) <= u64::MAX,
    ensures
        r.0 == size_before(files@, files@.len() as int),
        r.1 == files@.len(),
{
    let mut total: u64 = 0;
    let mut i: usize = 0;
    while i < files.len()
        invariant
            i <= files@.len(),
            size_before(files@, files@.len() as int) <= u64::MAX,
            total == size_before(files@, i as int),
        decreases files@.len() - i,
    {
        proof {
            lemma_size_mono(files@, i + 1, files@.len() as int);
        }
        total = total + files[i].size;
        i += 1;
    }
    (total, files.len() as u64)
}

/// Paths of distinct files: none is empty, and any two differ at some
/// position that both have (so neither is a prefix of the other), as for the
/// files of any directory tree.
pub open spec fn separate_paths(fs: Seq<FileEntry>) -> bool {
    &&& forall|k: int| 0 <= k < fs.len() ==> (#[trigger] names(fs[k].components@)).len() > 0
    &&& forall|k: int, l: int|
        0 <= k < fs.len() && 0 <= l < fs.len() && k != l ==> diverge(
            #[trigger] names(fs[k].components@),
            #[trigger] names(fs[l].components@),
        )
}

/// The node stored for file `k` of `fs`.
pub open spec fn node_of(fs: Seq<FileEntry>, k: int) -> Json {
    leaf_view(fs[k].size, fs[k].unpacked, packed_before(fs, k))
}

/// After the first `i` files are stored, the tree is built, each of them is
/// found at its path, and every proper prefix of a later file's path is a
/// folder or absent.
pub proof fn lemma_pack_prefix(fs: Seq<FileEntry>, i: int)
    requires
        separate_paths(fs),
        0 <= i <= fs.len(),
    ensures
        tree_after(fs, i) is Ok,
        forall|k: int|
            0 <= k < i ==> lookup(tree_after(fs, i)->Ok_0, #[trigger] names(fs[k].components@))
                == Some(node_of(fs, k)),
        forall|l: int, q: Seq<Seq<char>>|
            i <= l < fs.len() && proper_prefix(q, #[trigger] names(fs[l].components@))
                ==> dir_or_absent(#[trigger] lookup(tree_after(fs, i)->Ok_0, q)),
    decreases i,
{
    if i == 0 {
        assert forall|l: int, q: Seq<Seq<char>>|
            i <= l < fs.len() && proper_prefix(q, #[trigger] names(fs[l].components@))
                implies dir_or_absent(#[trigger] lookup(tree_after(fs, i)->Ok_0, q)) by {
            lemma_lookup_empty(q);
        }
    } else {
        lemma_pack_prefix(fs, i - 1);
        let t = tree_after(fs, i - 1)->Ok_0;
        let c = names(fs[i - 1].components@);
        let leaf = node_of(fs, i - 1);
        assert forall|q: Seq<Seq<char>>| proper_prefix(q, c) implies dir_or_absent(
            #[trigger] lookup(t, q),
        ) by {}
        lemma_insert_ok(t, c, leaf);
        let t2 = insert_path(t, c, leaf)->Ok_0;
        assert(tree_after(fs, i) == Ok::<Seq<(Seq<char>, Json)>, Seq<char>>(t2));
        lemma_insert_then_lookup(t, c, leaf);
        assert forall|k: int| 0 <= k < i implies lookup(t2, #[trigger] names(fs[k].components@))
            == Some(node_of(fs, k)) by {
            if k < i - 1 {
                let q = names(fs[k].components@);
                assert(diverge(q, c));
                lemma_insert_frame(t, c, leaf, q);
            }
        }
        assert forall|l: int, q: Seq<Seq<char>>|
            i <= l < fs.len() && proper_prefix(q, #[trigger] names(fs[l].components@))
                implies dir_or_absent(#[trigger] lookup(t2, q)) by {
            let nl = names(fs[l].components@);
            lemma_insert_frame(t, c, leaf, q);
            assert(diverge(nl, c));
            if !diverge(q, c) {
                let j = choose|j: int| 0 <= j < nl.len() && j < c.len() && nl[j] != c[j];
                if j < q.len() {
                    assert(q[j] == nl[j]);
                    assert(diverge(q, c));
                }
                assert(proper_prefix(q, c));
            }
        }
    }
}

/// Every file that packing stores is found again at its path, its node
/// recording its size and where its bytes are.
pub proof fn lemma_pack_tree_finds_every_file(fs: Seq<FileEntry>)
    requires
        separate_paths(fs),
    ensures
        tree_after(fs, fs.len() as int) is Ok,
        forall|k: int|
            0 <= k < fs.len() ==> lookup(
                tree_after(fs, fs.len() as int)->Ok_0,
                #[trigger] names(fs[k].components@),
            ) == Some(node_of(fs, k)),
{
    lemma_pack_prefix(fs, fs.len() as int);
}

/// Packed files occupy consecutive, non-overlapping ranges of the data
/// region, in the order in which they are listed.
pub proof fn lemma_packed_ranges_disjoint(fs: Seq<FileEntry>, k: int, l: int)
    requires
        0 <= k < l <= fs.len(),
        !fs[k].unpacked,
    ensures
        packed_before(fs, k) + fs[k].size <= packed_before(fs, l),
    decreases l - k,
{
    if l > k + 1 {
        lemma_packed_ranges_disjoint(fs, k, l - 1);
    }
}

/// Why recording a file's integrity fails.
pub enum PatchFault {
    LeafNotObject(Seq<char>),
    IntermediateMissing(Seq<char>),
}

/// The children `files` with the member `integrity` of the file at `comps`
/// set to `integ`.
pub open spec fn patch_path(files: Seq<(Seq<char>, Json)>, comps: Seq<Seq<char>>, integ: Json) -> Result<
    Seq<(Seq<char>, Json)>,
    PatchFault,
>
    decreases comps.len(),
{
    if comps.len() == 0 {
        Ok(files)
    } else if comps.len() == 1 {
        match jget(files, comps[0]) {
            Some(Json::Object(m)) => Ok(
                jset(files, comps[0], Json::Object(jset(m, "integrity"@, integ))),
            ),
            _ => Err(PatchFault::LeafNotObject(comps[0])),
        }
    } else {
        match jget(files, comps[0]) {
            Some(child) => match dir_files(child) {
                Some(sub) => match patch_path(sub, comps.drop_first(), integ) {
                    Ok(s2) => Ok(jset(files, comps[0], with_files(child, s2))),
                    Err(e) => Err(e),
                },
                None => Err(PatchFault::IntermediateMissing(comps[0])),
            },
            None => Err(PatchFault::IntermediateMissing(comps[0])),
        }
    }
}

/// The problem reported for a patch fault.
pub open spec fn patch_problem(p: HeaderProblem, f: PatchFault) -> bool {
    match f {
        PatchFault::LeafNotObject(n) => p matches HeaderProblem::LeafNotObject(s) && s@ == n,
        PatchFault::IntermediateMissing(n) => p matches HeaderProblem::IntermediateMissing(s) && s@
            == n,
    }
}

fn patch_files(files: Vec<(String, JsonValue)>, comps: &Vec<String>, i: usize, integ: JsonValue) -> (r:
    Result<Vec<(String, JsonValue)>, HeaderProblem>)
    requires
        i <= comps@.len(),
    ensures
        match patch_path(mview(files@), names(comps@).skip(i as int), jview(integ)) {
            Ok(f) => r matches Ok(x) && mview(x@) == f,
            Err(e) => r matches Err(p) && patch_problem(p, e),
        },
    decreases comps@.len() - i,
{
    let ghost cs = names(comps@).skip(i as int);
    let mut files = files;
    if i == comps.len() {
        return Ok(files);
    }
    assert(cs[0] == comps@[i as int]@);
    assert(cs.drop_first() =~= names(comps@).skip(i + 1));
    let name = &comps[i];
    proof {
        lemma_index_view(files@, name@);
        lemma_member_index(files@, name@);
    }
    let idx = match find_member(&files, name.as_str()) {
        Some(k) => k,
        None => {
            if i + 1 == comps.len() {
                return Err(HeaderProblem::LeafNotObject(name.clone()));
            } else {
                return Err(HeaderProblem::IntermediateMissing(name.clone()));
            }
        },
    };
    let ghost before = files@;
    let (key, child) = files.remove(idx);
    if i + 1 == comps.len() {
        match child {
            JsonValue::Object(mut m) => {
                super::tree::set_member(&mut m, owned("integrity"), integ);
                let ghost node = (key, JsonValue::Object(m));
                files.insert(idx, (key, JsonValue::Object(m)));
                proof {
                    lemma_remove_insert(before, idx as int, node);
                    lemma_mview_update(before, idx as int, node);
                }
                return Ok(files);
            },
            _ => {
                return Err(HeaderProblem::LeafNotObject(name.clone()));
            },
        }
    }
    match child {
        JsonValue::Object(mut m) => {
            proof {
                lemma_index_view(m@, "files"@);
                lemma_member_index(m@, "files"@);
            }
            match find_member(&m, "files") {
                Some(fi) => {
                    let ghost mbefore = m@;
                    let (fk, fv) = m.remove(fi);
                    match fv {
                        JsonValue::Object(sub) => {
                            match patch_files(sub, comps, i + 1, integ) {
                                Ok(sub2) => {
                                    let ghost entry = (fk, JsonValue::Object(sub2));
                                    m.insert(fi, (fk, JsonValue::Object(sub2)));
                                    let ghost node = (key, JsonValue::Object(m));
                                    files.insert(idx, (key, JsonValue::Object(m)));
                                    proof {
                                        lemma_remove_insert(mbefore, fi as int, entry);
                                        lemma_mview_update(mbefore, fi as int, entry);
                                        lemma_remove_insert(before, idx as int, node);
                                        lemma_mview_update(before, idx as int, node);
                                    }
                                    Ok(files)
                                },
                                Err(e) => Err(e),
                            }
                        },
                        _ => Err(HeaderProblem::IntermediateMissing(name.clone())),
                    }
                },
                None => Err(HeaderProblem::IntermediateMissing(name.clone())),
            }
        },
        _ => Err(HeaderProblem::IntermediateMissing(name.clone())),
    }
}

/// Records the integrity metadata `integrity` in the node of the file at
/// `components`.
pub fn patch_integrity(tree: JsonValue, components: &Vec<String>, integrity: &Integrity) -> (r: Result<
    JsonValue,
    AsarError,
>)
    ensures
        match dir_files(jview(tree)) {
            None => r matches Err(AsarError::MalformedHeader(HeaderProblem::RootFilesMissing)),
            Some(files) => match patch_path(
                files,
                names(components@),
                integrity_view(integrity.hash@, texts(integrity.blocks@)),
            ) {
                Ok(f) => r matches Ok(t) && jview(t) == with_files(jview(tree), f),
                Err(e) => r matches Err(AsarError::MalformedHeader(p)) && patch_problem(p, e),
            },
        },
{
    let integ = to_json(integrity);
    match tree {
        JsonValue::Object(mut m) => {
            proof {
                lemma_index_view(m@, "files"@);
                lemma_member_index(m@, "files"@);
            }
            match find_member(&m, "files") {
                Some(fi) => {
                    let ghost mbefore = m@;
                    let (fk, fv) = m.remove(fi);
                    match fv {
                        JsonValue::Object(files) => {
                            assert(names(components@).skip(0) =~= names(components@));
                            match patch_files(files, components, 0, integ) {
                                Ok(files2) => {
                                    let ghost entry = (fk, JsonValue::Object(files2));
                                    m.insert(fi, (fk, JsonValue::Object(files2)));
                                    proof {
                                        lemma_remove_insert(mbefore, fi as int, entry);
                                        lemma_mview_update(mbefore, fi as int, entry);
                                    }
                                    Ok(JsonValue::Object(m))
                                },
                                Err(p) => Err(AsarError::MalformedHeader(p)),
                            }
                        },
                        _ => Err(AsarError::MalformedHeader(HeaderProblem::RootFilesMissing)),
                    }
                },
                None => Err(AsarError::MalformedHeader(HeaderProblem::RootFilesMissing)),
            }
        },
        _ => Err(AsarError::MalformedHeader(HeaderProblem::RootFilesMissing)),
    }
}

/// Checks that the final header has the byte length reserved for it.
pub fn check_header_len(was: usize, now: usize) -> (r: Result<(), AsarError>)
    ensures
        was == now ==> r is Ok,
        was != now ==> (r matches Err(
            AsarError::MalformedHeader(HeaderProblem::LengthChanged { was: w, now: n }),
        ) && w == was && n == now),
{
    if was != now {
        Err(AsarError::MalformedHeader(HeaderProblem::LengthChanged { was, now }))
    } else {
        Ok(())
    }
}

} // verus!
