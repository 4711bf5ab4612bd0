//! A second archive reader and writer: extraction walks the directory tree
//! directly, and packing selects sidecar files with several wildcard
//! patterns and records executable files.

use vstd::prelude::*;

use super::glob::glob_match;
use super::glob::glob_accepts;
use super::header::{field, frame_header, frame_spec, lemma_frame_roundtrip, pad_for, u32_le_at};
use super::json::{find_member, get_member, jview, lemma_member_index, member, member_index, mview, Json, JsonNumber, JsonValue};
use super::tree::{
    diverge, dir_files, dir_or_absent, empty_dir, insert_path, jget, jindex, jset, lemma_empty_dir,
    lemma_index_view, lemma_insert_frame, lemma_insert_ok, lemma_insert_then_lookup, lemma_jindex,
    lemma_lookup_empty, lemma_mview_push, lemma_mview_update, lemma_remove_insert, lookup, names,
    new_dir, proper_prefix, set_member,
};
use crate::text::{decimal, decimal_text, owned, parse_u64, push_char, u64_of_text};
use vstd::utf8::encode_utf8;

verus! {

/// Why extraction or packing stops.
#[derive(Debug, Clone, Copy, PartialEq, Eq, Structural)]
pub enum ArchiveFault {
    /// The outer pickle size is not 4.
    BadPickleSize,
    /// The header has no `files` object.
    MissingFiles,
    /// A packed file has no string offset.
    MissingOffset,
    /// A packed file's offset does not parse as a `u64`.
    BadOffset,
    /// The header would not fit a 32-bit length field.
    HeaderTooLarge,
    /// The caller asked to stop.
    Cancelled,
}

/// Asks `cancel` whether to stop.
pub fn check_cancel<F: Fn() -> bool>(cancel: &F) -> (r: Result<(), ArchiveFault>)
    requires
        cancel.requires(()),
    ensures
        r is Ok ==> cancel.ensures((), false),
        r is Err ==> r == Err::<(), ArchiveFault>(ArchiveFault::Cancelled) && cancel.ensures(
            (),
            true,
        ),
{
    if cancel() {
        Err(ArchiveFault::Cancelled)
    } else {
        Ok(())
    }
}

/// The sidecar directory of the archive at `asar_path`.
pub fn unpacked_dir_for(asar_path: &str) -> (r: String)
    ensures
        r@ == asar_path@ + ".unpacked"@,
{
    let mut s = owned(asar_path);
    s.append(".unpacked");
    s
}

/// The JSON length and the start of the file data recorded in the 16-byte
/// prefix `b`; only the outer pickle size is checked.
pub open spec fn archive_prefix(b: Seq<u8>) -> Result<(usize, u64), ArchiveFault> {
    if field(b, 0) != 4 {
        Err(ArchiveFault::BadPickleSize)
    } else {
        Ok((field(b, 12) as usize, (8 + field(b, 4)) as u64))
    }
}

/// Reads the 16-byte prefix of an archive.
pub fn read_archive_prefix(prefix: &[u8]) -> (r: Result<(usize, u64), ArchiveFault>)
    requires
        prefix@.len() == 16,
    ensures
        r == archive_prefix(prefix@),
{
    if u32_le_at(prefix, 0) != 4 {
        return Err(ArchiveFault::BadPickleSize);
    }
    let pickle2_total = u32_le_at(prefix, 4) as u64;
    let json_len = u32_le_at(prefix, 12) as usize;
    Ok((json_len, 8 + pickle2_total))
}

/// Reading back the prefix of a frame gives what was framed: for every JSON
/// text, the first 16 bytes of its frame give its length and, as the start
/// of the file data, the whole frame's length, padding included.
pub proof fn lemma_prefix_of_frame(json: Seq<u8>)
    requires
        8 + json.len() + pad_for(json.len() as int) <= u32::MAX,
    ensures
        frame_spec(json).len() >= 16,
        archive_prefix(frame_spec(json).take(16)) == Ok::<(usize, u64), ArchiveFault>(
            (json.len() as usize, frame_spec(json).len() as u64),
        ),
{
    let f = frame_spec(json);
    lemma_frame_roundtrip(json);
    let b = f.take(16);
    assert(b.subrange(0, 4) =~= f.subrange(0, 4));
    assert(b.subrange(4, 8) =~= f.subrange(4, 8));
    assert(b.subrange(12, 16) =~= f.subrange(12, 16));
    assert(field(b, 0) == field(f, 0));
    assert(field(b, 4) == field(f, 4));
    assert(field(b, 12) == field(f, 12));
}

/// The members of the `files` object of the header `header`.
pub fn files_object(header: &JsonValue) -> (r: Result<&Vec<(String, JsonValue)>, ArchiveFault>)
    ensures
        match header {
            JsonValue::Object(m) => match member(m@, "files"@) {
                Some(JsonValue::Object(f)) => r matches Ok(x) && *x == f,
                _ => r == Err::<&Vec<(String, JsonValue)>, ArchiveFault>(ArchiveFault::MissingFiles),
            },
            _ => r == Err::<&Vec<(String, JsonValue)>, ArchiveFault>(ArchiveFault::MissingFiles),
        },
{
    match header {
        JsonValue::Object(m) => match get_member(m, "files") {
            Some(JsonValue::Object(f)) => Ok(f),
            _ => Err(ArchiveFault::MissingFiles),
        },
        _ => Err(ArchiveFault::MissingFiles),
    }
}

/// One step of extraction, for one entry of the tree; `rel` is the entry's
/// path as components.
#[derive(Debug)]
pub enum ExtractOp {
    /// A directory: create it.
    Dir { rel: Vec<String> },
    /// A link: nothing is written.
    Link { rel: Vec<String> },
    /// A file in the sidecar tree: copy it from there.
    Unpacked { rel: Vec<String> },
    /// A packed file: copy `size` bytes from `offset` past the start of the
    /// file data.
    Packed { rel: Vec<String>, offset: u64, size: u64 },
    /// The entry is refused; extraction stops here.
    Fail { rel: Vec<String>, fault: ArchiveFault },
}

pub enum OpView {
    Dir(Seq<Seq<char>>),
    Link(Seq<Seq<char>>),
    Unpacked(Seq<Seq<char>>),
    Packed(Seq<Seq<char>>, u64, u64),
    Fail(Seq<Seq<char>>, ArchiveFault),
}

impl View for ExtractOp {
    type V = OpView;

    open spec fn view(&self) -> OpView {
        match self {
            ExtractOp::Dir { rel } => OpView::Dir(names(rel@)),
            ExtractOp::Link { rel } => OpView::Link(names(rel@)),
            ExtractOp::Unpacked { rel } => OpView::Unpacked(names(rel@)),
            ExtractOp::Packed { rel, offset, size } => OpView::Packed(names(rel@), *offset, *size),
            ExtractOp::Fail { rel, fault } => OpView::Fail(names(rel@), *fault),
        }
    }
}

pub open spec fn op_views(s: Seq<ExtractOp>) -> Seq<OpView> {
    s.map_values(|o: ExtractOp| o@)
}

/// The steps end with a refusal.
pub open spec fn stops(s: Seq<OpView>) -> bool {
    s.len() > 0 && s.last() is Fail
}

/// The value of the member `key` of `v`, when `v` is an object.
pub open spec fn get(v: JsonValue, key: Seq<char>) -> Option<JsonValue> {
    match v {
        JsonValue::Object(m) => member(m@, key),
        _ => None,
    }
}

/// The step for a file entry `entry` at `rel`.
pub open spec fn file_op(entry: JsonValue, rel: Seq<Seq<char>>) -> OpView {
    let size = match get(entry, "size"@) {
        Some(JsonValue::Number(JsonNumber::Unsigned(n))) => n,
        _ => 0,
    };
    let unpacked = match get(entry, "unpacked"@) {
        Some(JsonValue::Bool(b)) => b,
        _ => false,
    };
    if unpacked {
        OpView::Unpacked(rel)
    } else {
        match get(entry, "offset"@) {
            Some(JsonValue::Str(s)) => match u64_of_text(s@) {
                Some(o) => OpView::Packed(rel, o, size),
                None => OpView::Fail(rel, ArchiveFault::BadOffset),
            },
            _ => OpView::Fail(rel, ArchiveFault::MissingOffset),
        }
    }
}

/// The steps for the members `ms` of a directory at `rel`, in order,
/// stopping at the first refusal.
pub open spec fn member_ops(ms: Seq<(String, JsonValue)>, rel: Seq<Seq<char>>) -> Seq<OpView>
    decreases ms, 0int,
{
    if ms.len() == 0 {
        Seq::empty()
    } else {
        let first = entry_ops(ms[0].1, rel.push(ms[0].0@));
        if stops(first) {
            first
        } else {
            first + member_ops(ms.subrange(1, ms.len() as int), rel)
        }
    }
}

/// The steps for one entry `entry` at `rel`: a directory is created and
/// then extracted, a link is passed over, a file is copied.
pub open spec fn entry_ops(entry: JsonValue, rel: Seq<Seq<char>>) -> Seq<OpView>
    decreases entry, 1int,
{
    match entry {
        JsonValue::Object(m) => {
            proof {
                lemma_member_index(m@, "files"@);
            }
            match member_index(m@, "files"@) {
                Some(i) => match m@[i].1 {
                    JsonValue::Object(sub) => seq![OpView::Dir(rel)] + member_ops(sub@, rel),
                    _ => if member(m@, "link"@) is Some {
                        seq![OpView::Link(rel)]
                    } else {
                        seq![file_op(entry, rel)]
                    },
                },
                None => if member(m@, "link"@) is Some {
                    seq![OpView::Link(rel)]
                } else {
                    seq![file_op(entry, rel)]
                },
            }
        },
        _ => seq![file_op(entry, rel)],
    }
}

/// The member `key` of `v`, when `v` is an object.
fn get_value<'a>(v: &'a JsonValue, key: &str) -> (r: Option<&'a JsonValue>)
    ensures
        match get(*v, key@) {
            Some(x) => r matches Some(y) && *y == x,
            None => r is None,
        },
{
    match v {
        JsonValue::Object(m) => get_member(m, key),
        _ => None,
    }
}

/// The path `rel` extended by `name`.
pub fn push_rel(rel: &Vec<String>, name: &String) -> (r: Vec<String>)
    ensures
        names(r@) == names(rel@).push(name@),
{
    let mut r: Vec<String> = Vec::new();
    let mut i: usize = 0;
    while i < rel.len()
        invariant
            i <= rel@.len(),
            r@.len() == i,
            forall|k: int| 0 <= k < i ==> (#[trigger] r@[k])@ == rel@[k]@,
        decreases rel@.len() - i,
    {
        r.push(rel[i].clone());
        i += 1;
    }
    r.push(name.clone());
    assert(names(r@) =~= names(rel@).push(name@));
    r
}

fn file_step(entry: &JsonValue, rel: Vec<String>) -> (op: ExtractOp)
    ensures
        op@ == file_op(*entry, names(rel@)),
{
    let size = match get_value(entry, "size") {
        Some(JsonValue::Number(JsonNumber::Unsigned(n))) => *n,
        _ => 0,
    };
    let unpacked = match get_value(entry, "unpacked") {
        Some(JsonValue::Bool(b)) => *b,
        _ => false,
    };
    if unpacked {
        ExtractOp::Unpacked { rel }
    } else {
        match get_value(entry, "offset") {
            Some(JsonValue::Str(s)) => match parse_u64(s.as_str()) {
                Some(offset) => ExtractOp::Packed { rel, offset, size },
                None => ExtractOp::Fail { rel, fault: ArchiveFault::BadOffset },
            },
            _ => ExtractOp::Fail { rel, fault: ArchiveFault::MissingOffset },
        }
    }
}

proof fn lemma_stops_concat(a: Seq<OpView>, b: Seq<OpView>)
    ensures
        stops(a + b) == if b.len() > 0 {
            stops(b)
        } else {
            stops(a)
        },
{
    if b.len() == 0 {
        assert(a + b =~= a);
    } else {
        assert((a + b).last() == b.last());
    }
}

fn push_op(out: &mut Vec<ExtractOp>, op: ExtractOp)
    ensures
        op_views(final(out)@) == op_views(old(out)@).push(op@),
{
    let ghost v = op@;
    out.push(op);
    assert(op_views(out@) =~= op_views(old(out)@).push(v));
}

fn plan_entry(entry: &JsonValue, rel: Vec<String>, out: &mut Vec<ExtractOp>) -> (stopped: bool)
    ensures
        op_views(final(out)@) == op_views(old(out)@) + entry_ops(*entry, names(rel@)),
        stopped == stops(entry_ops(*entry, names(rel@))),
    decreases entry, 1int,
{
    let ghost r = names(rel@);
    match entry {
        JsonValue::Object(m) => {
            proof {
                lemma_member_index(m@, "files"@);
            }
            let link = get_member(m, "link").is_some();
            match find_member(m, "files") {
                Some(i) => match &m[i].1 {
                    JsonValue::Object(sub) => {
                        push_op(out, ExtractOp::Dir { rel: rel.clone() });
                        let ghost mid = op_views(out@);
                        assert(decreases_to!(entry => m@[i as int].1));
                        let stopped = plan_members(sub, &rel, out);
                        proof {
                            lemma_stops_concat(seq![OpView::Dir(r)], member_ops(sub@, r));
                            assert(op_views(out@) =~= op_views(old(out)@) + entry_ops(*entry, r));
                        }
                        return stopped;
                    },
                    _ => {},
                },
                None => {},
            }
            if link {
                push_op(out, ExtractOp::Link { rel });
                assert(op_views(out@) =~= op_views(old(out)@) + entry_ops(*entry, r));
                false
            } else {
                let op = file_step(entry, rel);
                let stopped = op.is_fail();
                push_op(out, op);
                assert(op_views(out@) =~= op_views(old(out)@) + entry_ops(*entry, r));
                stopped
            }
        },
        _ => {
            let op = file_step(entry, rel);
            let stopped = op.is_fail();
            push_op(out, op);
            assert(op_views(out@) =~= op_views(old(out)@) + entry_ops(*entry, r));
            stopped
        },
    }
}

impl ExtractOp {
    /// Whether this step is a refusal.
    pub fn is_fail(&self) -> (r: bool)
        ensures
            r == (self@ is Fail),
    {
        match self {
            ExtractOp::Fail { .. } => true,
            _ => false,
        }
    }
}

fn plan_members(ms: &Vec<(String, JsonValue)>, rel: &Vec<String>, out: &mut Vec<ExtractOp>) -> (stopped: bool)
    ensures
        op_views(final(out)@) == op_views(old(out)@) + member_ops(ms@, names(rel@)),
        stopped == stops(member_ops(ms@, names(rel@))),
    decreases ms, 0int,
{
    let ghost r = names(rel@);
    let ghost start = op_views(out@);
    let ghost mut acc: Seq<OpView> = Seq::empty();
    let n = ms.len();
    let mut i: usize = 0;
    assert(ms@.subrange(0, n as int) =~= ms@);
    while i < n
        invariant
            i <= n,
            n == ms@.len(),
            r == names(rel@),
            op_views(out@) == start + acc,
            start == op_views(old(out)@),
            !stops(acc),
            member_ops(ms@, r) == acc + member_ops(ms@.subrange(i as int, n as int), r),
        decreases n - i,
    {
        let ghost rest = ms@.subrange(i as int, n as int);
        assert(rest[0] == ms@[i as int]);
        assert(rest.subrange(1, rest.len() as int) =~= ms@.subrange(i + 1, n as int));
        let rel2 = push_rel(rel, &ms[i].0);
        let ghost before = op_views(out@);
        assert(decreases_to!(ms => ms@[i as int].1));
        let stopped = plan_entry(&ms[i].1, rel2, out);
        let ghost first = entry_ops(ms@[i as int].1, r.push(ms@[i as int].0@));
        if stopped {
            proof {
                assert(member_ops(rest, r) == first);
                assert(op_views(out@) =~= start + (acc + first));
                lemma_stops_concat(acc, first);
            }
            return true;
        }
        proof {
            assert(member_ops(rest, r) == first + member_ops(ms@.subrange(i + 1, n as int), r));
            assert(acc + (first + member_ops(ms@.subrange(i + 1, n as int), r)) =~= (acc + first)
                + member_ops(ms@.subrange(i + 1, n as int), r));
            assert(op_views(out@) =~= start + (acc + first));
            lemma_stops_concat(acc, first);
            acc = acc + first;
        }
        i += 1;
    }
    proof {
        assert(acc + Seq::<OpView>::empty() =~= acc);
    }
    false
}

/// The steps that extract the members `files` of the header's `files`
/// object, in order; the last one is a refusal if any entry is refused.
pub fn plan_extract(files: &Vec<(String, JsonValue)>) -> (ops: Vec<ExtractOp>)
    ensures
        op_views(ops@) == member_ops(files@, Seq::empty()),
{
    let mut ops: Vec<ExtractOp> = Vec::new();
    let rel: Vec<String> = Vec::new();
    assert(names(rel@) =~= Seq::<Seq<char>>::empty());
    plan_members(files, &rel, &mut ops);
    assert(op_views(Seq::<ExtractOp>::empty()) =~= Seq::<OpView>::empty());
    assert(Seq::<OpView>::empty() + member_ops(files@, Seq::empty()) =~= member_ops(files@, Seq::empty()));
    ops
}

/// Whether a file named `name` goes to the sidecar tree: some pattern
/// matches it.
pub open spec fn selected(patterns: Seq<String>, name: Seq<char>) -> bool {
    exists|k: int|
        0 <= k < patterns.len() && glob_accepts(encode_utf8(#[trigger] patterns[k]@), encode_utf8(name))
}

/// Whether the file `name` goes to the sidecar tree under `patterns`.
pub fn is_unpacked(patterns: &Vec<String>, name: &str) -> (r: bool)
    ensures
        r == selected(patterns@, name@),
{
    let mut i: usize = 0;
    while i < patterns.len()
        invariant
            i <= patterns@.len(),
            forall|k: int| 0 <= k < i ==> !glob_accepts(encode_utf8(#[trigger] patterns@[k]@), encode_utf8(name@)),
        decreases patterns@.len() - i,
    {
        if glob_match(patterns[i].as_str(), name) {
            return true;
        }
        i += 1;
    }
    false
}

/// How many bytes to move next when `remaining` are left and the buffer
/// holds `buf_len`.
pub fn chunk_len(remaining: u64, buf_len: usize) -> (r: usize)
    ensures
        r == if remaining < buf_len as u64 { remaining as usize } else { buf_len },
{
    if remaining < buf_len as u64 {
        remaining as usize
    } else {
        buf_len
    }
}

/// A file to pack.
#[derive(Debug)]
pub struct ArchiveFile {
    pub components: Vec<String>,
    pub size: u64,
    pub unpacked: bool,
    pub executable: bool,
}

/// Total size of the packed files among the first `k` of `fs`.
pub open spec fn cursor_before(fs: Seq<ArchiveFile>, k: int) -> int
    decreases k,
{
    if k <= 0 {
        0
    } else {
        cursor_before(fs, k - 1) + if fs[k - 1].unpacked {
            0
        } else {
            fs[k - 1].size as int
        }
    }
}

/// Fewer files take no more room.
pub proof fn lemma_cursor_mono(fs: Seq<ArchiveFile>, j: int, k: int)
    requires
        0 <= j <= k,
    ensures
        cursor_before(fs, j) <= cursor_before(fs, k),
    decreases k - j,
{
    if j < k {
        lemma_cursor_mono(fs, j, k - 1);
    }
}

/// The header node of a file.
pub open spec fn archive_leaf(size: u64, unpacked: bool, executable: bool, offset: int) -> Json {
    let base = seq![
        ("size"@, Json::Unsigned(size)),
        if unpacked {
            ("unpacked"@, Json::Bool(true))
        } else {
            ("offset"@, Json::Str(decimal_text(offset as nat)))
        },
    ];
    Json::Object(
        if executable {
            base.push(("executable"@, Json::Bool(true)))
        } else {
            base
        },
    )
}

/// `files` with `leaf` stored at `parts`: a missing directory on the way is
/// created, a directory without `files` gets an empty one, and a node on the
/// way that is not an object leaves the leaf unstored.
pub open spec fn tree_insert(files: Seq<(Seq<char>, Json)>, parts: Seq<Seq<char>>, leaf: Json) -> Seq<
    (Seq<char>, Json),
>
    decreases parts.len(),
{
    if parts.len() == 0 {
        files
    } else if parts.len() == 1 {
        jset(files, parts[0], leaf)
    } else {
        let entry = match jget(files, parts[0]) {
            Some(e) => e,
            None => empty_dir(),
        };
        match entry {
            Json::Object(m) => {
                let m1 = if jindex(m, "files"@) is Some {
                    m
                } else {
                    jset(m, "files"@, Json::Object(Seq::empty()))
                };
                match jget(m1, "files"@) {
                    Some(Json::Object(sub)) => jset(
                        files,
                        parts[0],
                        Json::Object(
                            jset(
                                m1,
                                "files"@,
                                Json::Object(tree_insert(sub, parts.drop_first(), leaf)),
                            ),
                        ),
                    ),
                    _ => jset(files, parts[0], Json::Object(m1)),
                }
            },
            _ => jset(files, parts[0], entry),
        }
    }
}

/// The members of the root `files` object after storing the first `k`
/// files of `fs`.
pub open spec fn archive_tree_after(fs: Seq<ArchiveFile>, k: int) -> Seq<(Seq<char>, Json)>
    decreases k,
{
    if k <= 0 {
        Seq::empty()
    } else {
        tree_insert(
            archive_tree_after(fs, k - 1),
            names(fs[k - 1].components@),
            archive_leaf(fs[k - 1].size, fs[k - 1].unpacked, fs[k - 1].executable, cursor_before(fs, k - 1)),
        )
    }
}

/// Stores `leaf` at `parts[i..]` below the members `files`.
fn insert_into(files: Vec<(String, JsonValue)>, parts: &Vec<String>, i: usize, leaf: JsonValue) -> (r: Vec<
    (String, JsonValue),
>)
    requires
        i <= parts@.len(),
    ensures
        mview(r@) == tree_insert(mview(files@), names(parts@).skip(i as int), jview(leaf)),
    decreases parts@.len() - i,
{
    let ghost ps = names(parts@).skip(i as int);
    let mut files = files;
    if i == parts.len() {
        return files;
    }
    assert(ps[0] == parts@[i as int]@);
    if i + 1 == parts.len() {
        set_member(&mut files, parts[i].clone(), leaf);
        return files;
    }
    assert(ps.drop_first() =~= names(parts@).skip(i + 1));
    let name = &parts[i];
    let ghost orig = mview(files@);
    proof {
        lemma_index_view(files@, name@);
        lemma_member_index(files@, name@);
    }
    let idx = match find_member(&files, name.as_str()) {
        Some(k) => k,
        None => {
            let d = new_dir();
            files.push((name.clone(), d));
            files.len() - 1
        },
    };
    let ghost before = files@;
    let (key, entry) = files.remove(idx);
    match entry {
        JsonValue::Object(mut m) => {
            proof {
                lemma_index_view(m@, "files"@);
                lemma_member_index(m@, "files"@);
            }
            if find_member(&m, "files").is_none() {
                set_member(&mut m, owned("files"), JsonValue::Object(Vec::new()));
                assert(mview(Seq::<(String, JsonValue)>::empty()) =~= Seq::<(Seq<char>, Json)>::empty());
            }
            proof {
                lemma_index_view(m@, "files"@);
                lemma_member_index(m@, "files"@);
            }
            let ghost m1 = m@;
            match find_member(&m, "files") {
                Some(fi) => {
                    let (fk, fv) = m.remove(fi);
                    match fv {
                        JsonValue::Object(sub) => {
                            let sub2 = insert_into(sub, parts, i + 1, leaf);
                            let ghost e = (fk, JsonValue::Object(sub2));
                            m.insert(fi, (fk, JsonValue::Object(sub2)));
                            proof {
                                lemma_remove_insert(m1, fi as int, e);
                                lemma_mview_update(m1, fi as int, e);
                            }
                        },
                        other => {
                            let ghost e = (fk, other);
                            m.insert(fi, (fk, other));
                            proof {
                                lemma_remove_insert(m1, fi as int, e);
                                assert(m1.update(fi as int, e) =~= m1);
                            }
                        },
                    }
                },
                None => {},
            }
            let ghost node = (key, JsonValue::Object(m));
            files.insert(idx, (key, JsonValue::Object(m)));
            proof {
                lemma_remove_insert(before, idx as int, node);
                lemma_mview_update(before, idx as int, node);
                if orig.len() < before.len() {
                    lemma_mview_push(files@.drop_last(), node);
                    assert(files@.drop_last() =~= before.drop_last());
                    assert(mview(before.drop_last()) =~= orig);
                }
            }
        },
        other => {
            let ghost node = (key, other);
            files.insert(idx, (key, other));
            proof {
                lemma_remove_insert(before, idx as int, node);
                assert(before.update(idx as int, node) =~= before);
                lemma_mview_update(before, idx as int, node);
            }
        },
    }
    files
}

fn archive_leaf_node(size: u64, unpacked: bool, executable: bool, offset: u64) -> (v: JsonValue)
    ensures
        jview(v) == archive_leaf(size, unpacked, executable, offset as int),
{
    let mut m: Vec<(String, JsonValue)> = Vec::new();
    m.push((owned("size"), JsonValue::Number(JsonNumber::Unsigned(size))));
    if unpacked {
        m.push((owned("unpacked"), JsonValue::Bool(true)));
    } else {
        m.push((owned("offset"), JsonValue::Str(decimal(offset))));
    }
    if executable {
        m.push((owned("executable"), JsonValue::Bool(true)));
    }
    assert(mview(m@) =~= archive_leaf(size, unpacked, executable, offset as int)->Object_0);
    JsonValue::Object(m)
}

/// The header `{"files": ...}` listing the files `fs`, packed files at
/// consecutive offsets in order.
pub fn archive_tree(fs: &Vec<ArchiveFile>) -> (v: JsonValue)
    requires
        cursor_before(fs@, fs@.len() as int) <= u64::MAX,
    ensures
        jview(v) == Json::Object(
            seq![("files"@, Json::Object(archive_tree_after(fs@, fs@.len() as int)))],
        ),
{
    let mut root: Vec<(String, JsonValue)> = Vec::new();
    assert(mview(root@) =~= Seq::<(Seq<char>, Json)>::empty());
    let mut cursor: u64 = 0;
    let mut i: usize = 0;
    while i < fs.len()
        invariant
            i <= fs@.len(),
            cursor_before(fs@, fs@.len() as int) <= u64::MAX,
            cursor == cursor_before(fs@, i as int),
            mview(root@) == archive_tree_after(fs@, i as int),
        decreases fs@.len() - i,
    {
        let f = &fs[i];
        let node = archive_leaf_node(f.size, f.unpacked, f.executable, cursor);
        assert(names(f.components@).skip(0) =~= names(f.components@));
        root = insert_into(root, &f.components, 0, node);
        proof {
            lemma_cursor_mono(fs@, i + 1, fs@.len() as int);
        }
        if !f.unpacked {
            cursor = cursor + f.size;
        }
        i += 1;
    }
    let v = JsonValue::Object(vec![(owned("files"), JsonValue::Object(root))]);
    proof {
        let m = v->Object_0;
        assert(mview(m@) =~= seq![("files"@, Json::Object(archive_tree_after(fs@, fs@.len() as int)))]);
    }
    v
}

/// Frames the serialized header `json`, refusing one whose length would not
/// fit the 32-bit fields.
pub fn frame_archive(json: &[u8]) -> (r: Result<Vec<u8>, ArchiveFault>)
    ensures
        8 + json@.len() + pad_for(json@.len() as int) <= u32::MAX ==> (r matches Ok(b) && b@
            == frame_spec(json@)),
        8 + json@.len() + pad_for(json@.len() as int) > u32::MAX ==> r == Err::<Vec<u8>, ArchiveFault>(
            ArchiveFault::HeaderTooLarge,
        ),
{
    let json_len = json.len() as u64;
    if json_len > u32::MAX as u64 {
        return Err(ArchiveFault::HeaderTooLarge);
    }
    let padding = (4 - json_len % 4) % 4;
    let pickle2_total = 8 + json_len + padding;
    if pickle2_total > u32::MAX as u64 {
        return Err(ArchiveFault::HeaderTooLarge);
    }
    let (bytes, _) = frame_header(json);
    Ok(bytes)
}

/// Where every directory on the way to `c` exists or may be created,
/// storing by `tree_insert` agrees with `insert_path`.
proof fn lemma_tree_insert_agrees(files: Seq<(Seq<char>, Json)>, c: Seq<Seq<char>>, leaf: Json)
    requires
        forall|q: Seq<Seq<char>>| proper_prefix(q, c) ==> dir_or_absent(#[trigger] lookup(files, q)),
    ensures
        insert_path(files, c, leaf) is Ok,
        tree_insert(files, c, leaf) == insert_path(files, c, leaf)->Ok_0,
    decreases c.len(),
{
    lemma_insert_ok(files, c, leaf);
    if c.len() >= 2 {
        let q0 = c.take(1);
        assert(proper_prefix(q0, c));
        assert(lookup(files, q0) == jget(files, c[0]));
        let child = match jget(files, c[0]) {
            Some(x) => x,
            None => empty_dir(),
        };
        if jget(files, c[0]) is None {
            lemma_empty_dir();
        }
        let sub = dir_files(child)->Some_0;
        let m = child->Object_0;
        lemma_jindex(m, "files"@);
        assert(jindex(m, "files"@) is Some);
        assert forall|q: Seq<Seq<char>>| proper_prefix(q, c.drop_first()) implies dir_or_absent(
            #[trigger] lookup(sub, q),
        ) by {
            let q2 = seq![c[0]] + q;
            assert(proper_prefix(q2, c));
            assert(q2.drop_first() =~= q);
            if jget(files, c[0]) is None {
                lemma_lookup_empty(q);
            } else {
                assert(lookup(files, q2) == lookup(sub, q));
            }
        }
        lemma_tree_insert_agrees(sub, c.drop_first(), leaf);
    }
}

/// Paths of distinct files: none is empty, and any two differ at some
/// position that both have.
pub open spec fn separate_files(fs: Seq<ArchiveFile>) -> bool {
    &&& forall|k: int| 0 <= k < fs.len() ==> (#[trigger] names(fs[k].components@)).len() > 0
    &&& forall|k: int, l: int|
        0 <= k < fs.len() && 0 <= l < fs.len() && k != l ==> diverge(
            #[trigger] names(fs[k].components@),
            #[trigger] names(fs[l].components@),
        )
}

/// The node recorded for file `k` of `fs`.
pub open spec fn archive_node(fs: Seq<ArchiveFile>, k: int) -> Json {
    archive_leaf(fs[k].size, fs[k].unpacked, fs[k].executable, cursor_before(fs, k))
}

/// After the first `i` files are stored, each of them is found at its path,
/// and every proper prefix of a later file's path is a folder or absent.
pub proof fn lemma_archive_prefix(fs: Seq<ArchiveFile>, i: int)
    requires
        separate_files(fs),
        0 <= i <= fs.len(),
    ensures
        forall|k: int|
            0 <= k < i ==> lookup(archive_tree_after(fs, i), #[trigger] names(fs[k].components@))
                == Some(archive_node(fs, k)),
        forall|l: int, q: Seq<Seq<char>>|
            i <= l < fs.len() && proper_prefix(q, #[trigger] names(fs[l].components@))
                ==> dir_or_absent(#[trigger] lookup(archive_tree_after(fs, i), q)),
    decreases i,
{
    if i == 0 {
        assert forall|l: int, q: Seq<Seq<char>>|
            i <= l < fs.len() && proper_prefix(q, #[trigger] names(fs[l].components@))
                implies dir_or_absent(#[trigger] lookup(archive_tree_after(fs, i), q)) by {
            lemma_lookup_empty(q);
        }
    } else {
        lemma_archive_prefix(fs, i - 1);
        let t = archive_tree_after(fs, i - 1);
        let c = names(fs[i - 1].components@);
        let leaf = archive_node(fs, i - 1);
        assert forall|q: Seq<Seq<char>>| proper_prefix(q, c) implies dir_or_absent(
            #[trigger] lookup(t, q),
        ) by {}
        lemma_tree_insert_agrees(t, c, leaf);
        let t2 = insert_path(t, c, leaf)->Ok_0;
        assert(archive_tree_after(fs, i) == t2);
        lemma_insert_then_lookup(t, c, leaf);
        assert forall|k: int| 0 <= k < i implies lookup(t2, #[trigger] names(fs[k].components@))
            == Some(archive_node(fs, k)) by {
            if k < i - 1 {
                let q = names(fs[k].components@);
                assert(diverge(q, c));
                lemma_insert_frame(t, c, leaf, q);
            }
        }
        assert forall|l: int, q: Seq<Seq<char>>|
            i <= l < fs.len() && proper_prefix(q, #[trigger] names(fs[l].components@))
                implies dir_or_absent(#[trigger] lookup(t2, q)) by {
            let nl = names(fs[l].components@);
            lemma_insert_frame(t, c, leaf, q);
            assert(diverge(nl, c));
            if !diverge(q, c) {
                let j = choose|j: int| 0 <= j < nl.len() && j < c.len() && nl[j] != c[j];
                if j < q.len() {
                    assert(q[j] == nl[j]);
                    assert(diverge(q, c));
                }
                assert(proper_prefix(q, c));
            }
        }
    }
}

/// Every file that the second packer records is found again at its path,
/// with its size, its place (its offset in the data region, or the sidecar
/// folder) and whether it is executable.
pub proof fn lemma_archive_tree_finds_every_file(fs: Seq<ArchiveFile>)
    requires
        separate_files(fs),
    ensures
        forall|k: int|
            0 <= k < fs.len() ==> lookup(
                archive_tree_after(fs, fs.len() as int),
                #[trigger] names(fs[k].components@),
            ) == Some(archive_node(fs, k)),
{
    lemma_archive_prefix(fs, fs.len() as int);
}

} // verus!
