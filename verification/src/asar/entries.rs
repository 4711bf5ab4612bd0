//! The file entries listed by an asar directory tree, in the order in which
//! extraction visits them.

use vstd::prelude::*;

use super::json::{lemma_member_index, member, member_index, JsonNumber, JsonValue, find_member};
use crate::text::{parse_u64, push_char, u64_of_text, utf8_len};

verus! {

/// Where an entry's bytes come from.
#[derive(Debug)]
pub enum EntryKind {
    /// Stored in the archive body at `offset` from the start of the data region.
    Packed { offset: u64 },
    /// Stored in the `.unpacked` sidecar tree.
    Unpacked,
    /// A symbolic link; extracted as a plain file holding the target.
    Link { target: String },
}

/// A file of the archive: its `/`-separated path, its size and its source.
#[derive(Debug)]
pub struct Entry {
    pub path: String,
    pub size: u64,
    pub kind: EntryKind,
}

/// Why an entry of the directory tree is refused.
#[derive(Debug, Clone)]
pub enum EntryFault {
    ExpectedObject,
    MissingFiles,
    MissingSize,
    MissingOffset,
    /// The offset is a string that does not parse as a `u64`.
    OffsetNotU64(String),
    /// The offset is a number outside the `u64` range.
    OffsetOutOfRange,
    /// The offset is neither a string nor a number.
    OffsetWrongType,
    /// A file found while packing lies outside the source folder.
    OutsideRoot,
}

/// A refused entry and the reason.
#[derive(Debug)]
pub struct EntryError {
    pub path: String,
    pub reason: EntryFault,
}

pub enum EntryKindView {
    Packed { offset: u64 },
    Unpacked,
    Link { target: Seq<char> },
}

pub struct EntryView {
    pub path: Seq<char>,
    pub size: u64,
    pub kind: EntryKindView,
}

pub enum EntryFaultView {
    ExpectedObject,
    MissingFiles,
    MissingSize,
    MissingOffset,
    OffsetNotU64(Seq<char>),
    OffsetOutOfRange,
    OffsetWrongType,
    OutsideRoot,
}

impl View for EntryKind {
    type V = EntryKindView;

    open spec fn view(&self) -> EntryKindView {
        match self {
            EntryKind::Packed { offset } => EntryKindView::Packed { offset: *offset },
            EntryKind::Unpacked => EntryKindView::Unpacked,
            EntryKind::Link { target } => EntryKindView::Link { target: target@ },
        }
    }
}

impl View for Entry {
    type V = EntryView;

    open spec fn view(&self) -> EntryView {
        EntryView { path: self.path@, size: self.size, kind: self.kind@ }
    }
}

impl View for EntryFault {
    type V = EntryFaultView;

    open spec fn view(&self) -> EntryFaultView {
        match self {
            EntryFault::ExpectedObject => EntryFaultView::ExpectedObject,
            EntryFault::MissingFiles => EntryFaultView::MissingFiles,
            EntryFault::MissingSize => EntryFaultView::MissingSize,
            EntryFault::MissingOffset => EntryFaultView::MissingOffset,
            EntryFault::OffsetNotU64(s) => EntryFaultView::OffsetNotU64(s@),
            EntryFault::OffsetOutOfRange => EntryFaultView::OffsetOutOfRange,
            EntryFault::OffsetWrongType => EntryFaultView::OffsetWrongType,
            EntryFault::OutsideRoot => EntryFaultView::OutsideRoot,
        }
    }
}

impl View for EntryError {
    type V = (Seq<char>, EntryFaultView);

    open spec fn view(&self) -> (Seq<char>, EntryFaultView) {
        (self.path@, self.reason@)
    }
}

/// The views of a sequence of entries.
pub open spec fn views(s: Seq<Entry>) -> Seq<EntryView> {
    s.map_values(|e: Entry| e@)
}

/// Path of the member `name` of the directory at `prefix`.
pub open spec fn child_path(prefix: Seq<char>, name: Seq<char>) -> Seq<char> {
    if prefix.len() == 0 {
        name
    } else {
        prefix + seq!['/'] + name
    }
}

/// The offset recorded for a packed entry: a decimal string or a number.
pub open spec fn offset_of(v: Option<JsonValue>) -> Result<u64, EntryFaultView> {
    match v {
        None => Err(EntryFaultView::MissingOffset),
        Some(JsonValue::Str(s)) => match u64_of_text(s@) {
            Some(o) => Ok(o),
            None => Err(EntryFaultView::OffsetNotU64(s@)),
        },
        Some(JsonValue::Number(JsonNumber::Unsigned(o))) => Ok(o),
        Some(JsonValue::Number(_)) => Err(EntryFaultView::OffsetOutOfRange),
        Some(_) => Err(EntryFaultView::OffsetWrongType),
    }
}

/// The entry described by the leaf object `obj` at `path`.
pub open spec fn leaf_entry(obj: Seq<(String, JsonValue)>, path: Seq<char>) -> Result<
    EntryView,
    (Seq<char>, EntryFaultView),
> {
    match member(obj, "link"@) {
        Some(JsonValue::Str(l)) => Ok(
            EntryView {
                path,
                size: utf8_len(l@),
                kind: EntryKindView::Link { target: l@ },
            },
        ),
        _ => match member(obj, "size"@) {
            Some(JsonValue::Number(JsonNumber::Unsigned(size))) => {
                let unpacked = match member(obj, "unpacked"@) {
                    Some(JsonValue::Bool(b)) => b,
                    _ => false,
                };
                if unpacked {
                    Ok(EntryView { path, size, kind: EntryKindView::Unpacked })
                } else {
                    match offset_of(member(obj, "offset"@)) {
                        Ok(offset) => Ok(
                            EntryView { path, size, kind: EntryKindView::Packed { offset } },
                        ),
                        Err(f) => Err((path, f)),
                    }
                }
            },
            _ => Err((path, EntryFaultView::MissingSize)),
        },
    }
}

/// The entries under the directory node `node` at `prefix`: the members of
/// its `files` object in order, each directory replaced by its own entries.
pub open spec fn walk_dir(node: JsonValue, prefix: Seq<char>) -> Result<
    Seq<EntryView>,
    (Seq<char>, EntryFaultView),
>
    decreases node, 0int,
{
    match node {
        JsonValue::Object(m) => {
            proof {
                lemma_member_index(m@, "files"@);
            }
            match member_index(m@, "files"@) {
                Some(i) => match m@[i].1 {
                    JsonValue::Object(files) => walk_members(files@, prefix),
                    _ => Err((prefix, EntryFaultView::MissingFiles)),
                },
                None => Err((prefix, EntryFaultView::MissingFiles)),
            }
        },
        _ => Err((prefix, EntryFaultView::ExpectedObject)),
    }
}

/// The entries of the members `ms` of a directory at `prefix`.
pub open spec fn walk_members(ms: Seq<(String, JsonValue)>, prefix: Seq<char>) -> Result<
    Seq<EntryView>,
    (Seq<char>, EntryFaultView),
>
    decreases ms, 1int,
{
    if ms.len() == 0 {
        Ok(Seq::empty())
    } else {
        match walk_member(ms[0].1, child_path(prefix, ms[0].0@)) {
            Err(e) => Err(e),
            Ok(first) => match walk_members(ms.subrange(1, ms.len() as int), prefix) {
                Err(e) => Err(e),
                Ok(rest) => Ok(first + rest),
            },
        }
    }
}

/// The entries of one member `child` found at `path`.
pub open spec fn walk_member(child: JsonValue, path: Seq<char>) -> Result<
    Seq<EntryView>,
    (Seq<char>, EntryFaultView),
>
    decreases child, 1int,
{
    match child {
        JsonValue::Object(obj) => if member_index(obj@, "files"@) is Some {
            walk_dir(child, path)
        } else {
            match leaf_entry(obj@, path) {
                Ok(e) => Ok(seq![e]),
                Err(e) => Err(e),
            }
        },
        _ => Err((path, EntryFaultView::ExpectedObject)),
    }
}

/// The entries that walking the directory node `node` at `prefix` lists
/// before it stops: all of them, or those of the file nodes visited before
/// the first refused node.
pub open spec fn seen_dir(node: JsonValue, prefix: Seq<char>) -> Seq<EntryView>
    decreases node, 0int,
{
    match node {
        JsonValue::Object(m) => {
            proof {
                lemma_member_index(m@, "files"@);
            }
            match member_index(m@, "files"@) {
                Some(i) => match m@[i].1 {
                    JsonValue::Object(files) => seen_members(files@, prefix),
                    _ => seq![],
                },
                None => seq![],
            }
        },
        _ => seq![],
    }
}

/// The entries listed from the members `ms` at `prefix` before walking
/// them stops.
pub open spec fn seen_members(ms: Seq<(String, JsonValue)>, prefix: Seq<char>) -> Seq<EntryView>
    decreases ms, 1int,
{
    if ms.len() == 0 {
        seq![]
    } else {
        match walk_member(ms[0].1, child_path(prefix, ms[0].0@)) {
            Err(_) => seen_member(ms[0].1, child_path(prefix, ms[0].0@)),
            Ok(first) => first + seen_members(ms.subrange(1, ms.len() as int), prefix),
        }
    }
}

/// The entries listed from the member `child` at `path` before walking it
/// stops.
pub open spec fn seen_member(child: JsonValue, path: Seq<char>) -> Seq<EntryView>
    decreases child, 1int,
{
    match child {
        JsonValue::Object(obj) => if member_index(obj@, "files"@) is Some {
            seen_dir(child, path)
        } else {
            match leaf_entry(obj@, path) {
                Ok(e) => seq![e],
                Err(_) => seq![],
            }
        },
        _ => seq![],
    }
}

/// Combines the entries `acc` already found with the outcome `r` of the rest.
pub open spec fn prepend(acc: Seq<EntryView>, r: Result<Seq<EntryView>, (Seq<char>, EntryFaultView)>) -> Result<
    Seq<EntryView>,
    (Seq<char>, EntryFaultView),
> {
    match r {
        Ok(rest) => Ok(acc + rest),
        Err(e) => Err(e),
    }
}

fn child_path_of(prefix: &String, name: &String) -> (r: String)
    ensures
        r@ == child_path(prefix@, name@),
{
    if prefix.as_str().is_empty() {
        name.clone()
    } else {
        let mut p = prefix.clone();
        push_char(&mut p, '/');
        p.append(name.as_str());
        assert(p@ =~= prefix@ + seq!['/'] + name@);
        p
    }
}

fn entry_error(path: &String, reason: EntryFault) -> (r: EntryError)
    ensures
        r@ == (path@, reason@),
{
    EntryError { path: path.clone(), reason }
}

/// The offset recorded in `v`.
fn read_offset(v: Option<&JsonValue>) -> (r: Result<u64, EntryFault>)
    ensures
        match offset_of(
            match v {
                Some(x) => Some(*x),
                None => None,
            },
        ) {
            Ok(o) => r == Ok::<u64, EntryFault>(o),
            Err(f) => r matches Err(x) && x@ == f,
        },
{
    match v {
        None => Err(EntryFault::MissingOffset),
        Some(JsonValue::Str(s)) => match parse_u64(s.as_str()) {
            Some(o) => Ok(o),
            None => Err(EntryFault::OffsetNotU64(s.clone())),
        },
        Some(JsonValue::Number(JsonNumber::Unsigned(o))) => Ok(*o),
        Some(JsonValue::Number(_)) => Err(EntryFault::OffsetOutOfRange),
        Some(_) => Err(EntryFault::OffsetWrongType),
    }
}

fn opt_member<'a>(obj: &'a Vec<(String, JsonValue)>, key: &str) -> (r: Option<&'a JsonValue>)
    ensures
        match member(obj@, key@) {
            Some(v) => r matches Some(w) && *w == v,
            None => r is None,
        },
{
    super::json::get_member(obj, key)
}

/// The entry described by the leaf object `obj` at `path`.
fn leaf(obj: &Vec<(String, JsonValue)>, path: String) -> (r: Result<Entry, EntryError>)
    ensures
        match leaf_entry(obj@, path@) {
            Ok(e) => r matches Ok(x) && x@ == e,
            Err(e) => r matches Err(x) && x@ == e,
        },
{
    if let Some(JsonValue::Str(l)) = opt_member(obj, "link") {
        let size = l.as_str().len() as u64;
        return Ok(Entry { path, size, kind: EntryKind::Link { target: l.clone() } });
    }
    let size = match opt_member(obj, "size") {
        Some(JsonValue::Number(JsonNumber::Unsigned(size))) => *size,
        _ => {
            return Err(EntryError { path, reason: EntryFault::MissingSize });
        },
    };
    let unpacked = match opt_member(obj, "unpacked") {
        Some(JsonValue::Bool(b)) => *b,
        _ => false,
    };
    if unpacked {
        Ok(Entry { path, size, kind: EntryKind::Unpacked })
    } else {
        match read_offset(opt_member(obj, "offset")) {
            Ok(offset) => Ok(Entry { path, size, kind: EntryKind::Packed { offset } }),
            Err(reason) => Err(EntryError { path, reason }),
        }
    }
}

/// Appends to `out` the entries under the directory node `node` at `prefix`.
fn walk(node: &JsonValue, prefix: &String, out: &mut Vec<Entry>) -> (r: Result<(), EntryError>)
    ensures
        views(final(out)@) == views(old(out)@) + seen_dir(*node, prefix@),
        match walk_dir(*node, prefix@) {
            Ok(es) => r is Ok && views(final(out)@) == views(old(out)@) + es,
            Err(e) => r matches Err(x) && x@ == e,
        },
    decreases node, 0int,
{
    match node {
        JsonValue::Object(m) => {
            proof {
                lemma_member_index(m@, "files"@);
            }
            match find_member(m, "files") {
                Some(i) => match &m[i].1 {
                    JsonValue::Object(files) => {
                        assert(decreases_to!(node => m@[i as int].1));
                        walk_files(files, prefix, out)
                    },
                    _ => {
                        assert(views(out@) =~= views(old(out)@) + Seq::<EntryView>::empty());
                        Err(entry_error(prefix, EntryFault::MissingFiles))
                    },
                },
                None => {
                    assert(views(out@) =~= views(old(out)@) + Seq::<EntryView>::empty());
                    Err(entry_error(prefix, EntryFault::MissingFiles))
                },
            }
        },
        _ => {
            assert(views(out@) =~= views(old(out)@) + Seq::<EntryView>::empty());
            Err(entry_error(prefix, EntryFault::ExpectedObject))
        },
    }
}

/// Appends to `out` the entries of the members `files` of the directory at
/// `prefix`.
fn walk_files(files: &Vec<(String, JsonValue)>, prefix: &String, out: &mut Vec<Entry>) -> (r: Result<
    (),
    EntryError,
>)
    ensures
        views(final(out)@) == views(old(out)@) + seen_members(files@, prefix@),
        match walk_members(files@, prefix@) {
            Ok(es) => r is Ok && views(final(out)@) == views(old(out)@) + es,
            Err(e) => r matches Err(x) && x@ == e,
        },
    decreases files, 1int,
{
    let ghost start = views(out@);
    let ghost mut acc: Seq<EntryView> = Seq::empty();
    let n = files.len();
    let mut i: usize = 0;
    assert(files@.subrange(0, n as int) =~= files@);
    while i < n
        invariant
            i <= n,
            n == files@.len(),
            views(out@) == start + acc,
            start == views(old(out)@),
            walk_members(files@, prefix@) == prepend(
                acc,
                walk_members(files@.subrange(i as int, n as int), prefix@),
            ),
            seen_members(files@, prefix@) == acc + seen_members(files@.subrange(i as int, n as int), prefix@),
        decreases n - i,
    {
        let ghost rest = files@.subrange(i as int, n as int);
        assert(rest[0] == files@[i as int]);
        assert(rest.subrange(1, rest.len() as int) =~= files@.subrange(i + 1, n as int));
        let path = child_path_of(prefix, &files[i].0);
        let ghost before = views(out@);
        assert(decreases_to!(files => files@[i as int].1));
        match walk_file(&files[i].1, path, out) {
            Err(e) => {
                proof {
                    let first = views(out@).subrange(before.len() as int, views(out@).len() as int);
                    assert(views(out@) =~= before + first);
                    assert(seen_members(rest, prefix@) == seen_member(files@[i as int].1, path@));
                    assert(views(out@) =~= start + (acc + seen_members(rest, prefix@)));
                    assert(views(out@) =~= start + seen_members(files@, prefix@));
                    assert(start == views(old(out)@));
                }
                return Err(e);
            },
            Ok(()) => {},
        }
        proof {
            let first = views(out@).subrange(before.len() as int, views(out@).len() as int);
            assert(views(out@) =~= before + first);
            let w = walk_member(files@[i as int].1, path@);
            assert(w is Ok);
            assert(w->Ok_0 =~= first);
            assert(walk_members(rest, prefix@) == prepend(first, walk_members(files@.subrange(i + 1, n as int), prefix@)));
            assert(seen_members(rest, prefix@) == first + seen_members(files@.subrange(i + 1, n as int), prefix@));
            assert(acc + (first + seen_members(files@.subrange(i + 1, n as int), prefix@)) =~= (acc + first)
                + seen_members(files@.subrange(i + 1, n as int), prefix@));
            assert((acc + first) + Seq::<EntryView>::empty() =~= acc + first);
            assert forall|w: Result<Seq<EntryView>, (Seq<char>, EntryFaultView)>|
                #![auto]
                prepend(acc, prepend(first, w)) == prepend(acc + first, w) by {
                if let Ok(x) = w {
                    assert(acc + (first + x) =~= (acc + first) + x);
                }
            }
            acc = acc + first;
        }
        i += 1;
    }
    assert(acc + Seq::<EntryView>::empty() =~= acc);
    assert(files@.subrange(n as int, n as int).len() == 0);
    Ok(())
}

/// Appends to `out` the entries of one member `child` found at `path`.
fn walk_file(child: &JsonValue, path: String, out: &mut Vec<Entry>) -> (r: Result<(), EntryError>)
    ensures
        views(final(out)@) == views(old(out)@) + seen_member(*child, path@),
        match walk_member(*child, path@) {
            Ok(es) => r is Ok && views(final(out)@) == views(old(out)@) + es,
            Err(e) => r matches Err(x) && x@ == e,
        },
    decreases child, 1int,
{
    match child {
        JsonValue::Object(obj) => {
            if find_member(obj, "files").is_some() {
                walk(child, &path, out)
            } else {
                match leaf(obj, path) {
                    Ok(e) => {
                        let ghost ev = e@;
                        out.push(e);
                        assert(views(out@) =~= views(old(out)@) + seq![ev]);
                        Ok(())
                    },
                    Err(e) => {
                        assert(views(out@) =~= views(old(out)@) + Seq::<EntryView>::empty());
                        Err(e)
                    },
                }
            }
        },
        _ => {
            assert(views(out@) =~= views(old(out)@) + Seq::<EntryView>::empty());
            Err(EntryError { path, reason: EntryFault::ExpectedObject })
        },
    }
}

/// Lists the entries of the directory tree `tree` (the header JSON), or the
/// first entry that is refused.
pub fn collect_entries(tree: &JsonValue) -> (r: Result<Vec<Entry>, EntryError>)
    ensures
        match walk_dir(*tree, Seq::empty()) {
            Ok(es) => r matches Ok(v) && views(v@) == es,
            Err(e) => r matches Err(x) && x@ == e,
        },
{
    let mut out: Vec<Entry> = Vec::new();
    let prefix = String::new();
    match walk(tree, &prefix, &mut out) {
        Ok(()) => {
            assert(views(Seq::<Entry>::empty()) =~= Seq::<EntryView>::empty());
            Ok(out)
        },
        Err(e) => Err(e),
    }
}

/// `s` with every `'/'` replaced by `sep`.
pub open spec fn with_separator(s: Seq<char>, sep: char) -> Seq<char> {
    s.map_values(|c: char| if c == '/' { sep } else { c })
}

impl Entry {
    /// The entry's path with the platform's separator `sep` in place of
    /// `'/'`.
    pub fn as_rel_path(&self, sep: char) -> (p: String)
        ensures
            p@ == with_separator(self.path@, sep),
    {
        let cs = crate::text::chars_of(self.path.as_str());
        let mut out = String::new();
        let mut i: usize = 0;
        while i < cs.len()
            invariant
                cs@ == self.path@,
                i <= cs.len(),
                out@ == with_separator(self.path@.take(i as int), sep),
            decreases cs.len() - i,
        {
            let c = if cs[i] == '/' {
                sep
            } else {
                cs[i]
            };
            push_char(&mut out, c);
            assert(with_separator(self.path@.take(i + 1), sep) =~= with_separator(
                self.path@.take(i as int),
                sep,
            ).push(c));
            i = i + 1;
        }
        assert(self.path@.take(cs.len() as int) =~= self.path@);
        out
    }
}

/// The name of an archive's sidecar folder, given the archive's file name:
/// the name with `.unpacked` appended, or `app.asar.unpacked` without one.
pub fn unpacked_name(file_name: Option<&str>) -> (n: String)
    ensures
        n@ == match file_name {
            Some(f) => f@ + ".unpacked"@,
            None => "app.asar.unpacked"@,
        },
{
    match file_name {
        Some(f) => {
            let mut n = crate::text::owned(f);
            n.append(".unpacked");
            n
        },
        None => crate::text::owned("app.asar.unpacked"),
    }
}

/// The total size of the first `k` entries.
pub open spec fn entry_bytes(es: Seq<Entry>, k: int) -> int
    decreases k,
{
    if k <= 0 {
        0
    } else {
        entry_bytes(es, k - 1) + es[k - 1].size
    }
}

proof fn lemma_entry_bytes_mono(es: Seq<Entry>, i: int, j: int)
    requires
        0 <= i <= j <= es.len(),
    ensures
        entry_bytes(es, i) <= entry_bytes(es, j),
    decreases j - i,
{
    if i < j {
        lemma_entry_bytes_mono(es, i, j - 1);
    }
}

/// Number of bytes and of files, as announced when extraction starts.
pub fn entry_totals(entries: &Vec<Entry>) -> (r: (u64, u64))
    requires
        entry_bytes(entries@, entries@.len() as int) <= u64::MAX,
    ensures
        r.0 == entry_bytes(entries@, entries@.len() as int),
        r.1 == entries@.len(),
{
    let mut total: u64 = 0;
    let mut i: usize = 0;
    while i < entries.len()
        invariant
            i <= entries@.len(),
            entry_bytes(entries@, entries@.len() as int) <= u64::MAX,
            total == entry_bytes(entries@, i as int),
        decreases entries@.len() - i,
    {
        proof {
            lemma_entry_bytes_mono(entries@, i + 1, entries@.len() as int);
        }
        total = total + entries[i].size;
        i += 1;
    }
    (total, entries.len() as u64)
}

} // verus!
