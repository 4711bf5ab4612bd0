//! What extraction finds in a header that packing built: every packed file,
//! at its path, with its size and where its bytes are, and nothing else.

use vstd::prelude::*;

use super::entries::{child_path, leaf_entry, offset_of, walk_dir, walk_member, walk_members, EntryFaultView, EntryKindView, EntryView};
use super::json::{jview, lemma_member_index, member, member_index, mview, Json, JsonNumber, JsonValue};
use super::tree::{
    dir_files, empty_dir, insert_path, jget, jindex, jset, lemma_index_view, lemma_jindex, lemma_jindex_none,
    lemma_jset_jget, lookup, with_files,
};
use super::pack::{
    lemma_pack_prefix, lemma_pack_tree_finds_every_file, lemma_packed_le_size, lemma_size_mono, leaf_view, node_of,
    packed_before, patch_path, root_view, separate_paths, size_before, tree_after, FileEntry, PatchFault,
};
use super::tree::{insert_path as insert_at, names};
use crate::text::{lemma_decimal_roundtrip, u64_of_text, utf8_len};

verus! {

/// The offset recorded for a packed entry, read from a JSON view.
pub open spec fn joffset_of(v: Option<Json>) -> Result<u64, EntryFaultView> {
    match v {
        None => Err(EntryFaultView::MissingOffset),
        Some(Json::Str(s)) => match u64_of_text(s) {
            Some(o) => Ok(o),
            None => Err(EntryFaultView::OffsetNotU64(s)),
        },
        Some(Json::Unsigned(o)) => Ok(o),
        Some(Json::Negative(_)) | Some(Json::Float(_)) => Err(EntryFaultView::OffsetOutOfRange),
        Some(_) => Err(EntryFaultView::OffsetWrongType),
    }
}

/// The entry described by the leaf object `obj` at `path`, read from a JSON
/// view.
pub open spec fn jleaf_entry(obj: Seq<(Seq<char>, Json)>, path: Seq<char>) -> Result<
    EntryView,
    (Seq<char>, EntryFaultView),
> {
    match jget(obj, "link"@) {
        Some(Json::Str(l)) => Ok(
            EntryView { path, size: utf8_len(l), kind: EntryKindView::Link { target: l } },
        ),
        _ => match jget(obj, "size"@) {
            Some(Json::Unsigned(size)) => {
                let unpacked = match jget(obj, "unpacked"@) {
                    Some(Json::Bool(b)) => b,
                    _ => false,
                };
                if unpacked {
                    Ok(EntryView { path, size, kind: EntryKindView::Unpacked })
                } else {
                    match joffset_of(jget(obj, "offset"@)) {
                        Ok(offset) => Ok(EntryView { path, size, kind: EntryKindView::Packed { offset } }),
                        Err(f) => Err((path, f)),
                    }
                }
            },
            _ => Err((path, EntryFaultView::MissingSize)),
        },
    }
}

/// The entries under the directory node `node` at `prefix`, from a view.
pub open spec fn jwalk_dir(node: Json, prefix: Seq<char>) -> Result<Seq<EntryView>, (Seq<char>, EntryFaultView)>
    decreases node, 0int,
{
    match node {
        Json::Object(m) => match jindex(m, "files"@) {
            Some(i) => if 0 <= i < m.len() {
                match m[i].1 {
                    Json::Object(files) => jwalk_members(files, prefix),
                    _ => Err((prefix, EntryFaultView::MissingFiles)),
                }
            } else {
                Err((prefix, EntryFaultView::MissingFiles))
            },
            None => Err((prefix, EntryFaultView::MissingFiles)),
        },
        _ => Err((prefix, EntryFaultView::ExpectedObject)),
    }
}

/// The entries of the members `ms` of a directory at `prefix`, from a view.
pub open spec fn jwalk_members(ms: Seq<(Seq<char>, Json)>, prefix: Seq<char>) -> Result<
    Seq<EntryView>,
    (Seq<char>, EntryFaultView),
>
    decreases ms, 1int,
{
    if ms.len() == 0 {
        Ok(Seq::empty())
    } else {
        match jwalk_member(ms[0].1, child_path(prefix, ms[0].0)) {
            Err(e) => Err(e),
            Ok(first) => match jwalk_members(ms.subrange(1, ms.len() as int), prefix) {
                Err(e) => Err(e),
                Ok(rest) => Ok(first + rest),
            },
        }
    }
}

/// The entries of one member `child` found at `path`, from a view.
pub open spec fn jwalk_member(child: Json, path: Seq<char>) -> Result<
    Seq<EntryView>,
    (Seq<char>, EntryFaultView),
>
    decreases child, 1int,
{
    match child {
        Json::Object(obj) => if jindex(obj, "files"@) is Some {
            jwalk_dir(child, path)
        } else {
            match jleaf_entry(obj, path) {
                Ok(e) => Ok(seq![e]),
                Err(e) => Err(e),
            }
        },
        _ => Err((path, EntryFaultView::ExpectedObject)),
    }
}

proof fn lemma_member_view(m: Seq<(String, JsonValue)>, k: Seq<char>)
    ensures
        jget(mview(m), k) == match member(m, k) {
            Some(v) => Some(jview(v)),
            None => None,
        },
{
    lemma_index_view(m, k);
    lemma_member_index(m, k);
}

proof fn lemma_leaf_view(obj: Seq<(String, JsonValue)>, path: Seq<char>)
    ensures
        leaf_entry(obj, path) == jleaf_entry(mview(obj), path),
{
    lemma_member_view(obj, "link"@);
    lemma_member_view(obj, "size"@);
    lemma_member_view(obj, "unpacked"@);
    lemma_member_view(obj, "offset"@);
    match member(obj, "offset"@) {
        Some(JsonValue::Number(n)) => {
            match n {
                JsonNumber::Unsigned(_) => {},
                JsonNumber::Negative(_) => {},
                JsonNumber::Float(_) => {},
            }
        },
        _ => {},
    }
    assert(offset_of(member(obj, "offset"@)) == joffset_of(jget(mview(obj), "offset"@)));
}

proof fn lemma_mview_rest(m: Seq<(String, JsonValue)>)
    requires
        m.len() > 0,
    ensures
        mview(m.subrange(1, m.len() as int)) == mview(m).subrange(1, mview(m).len() as int),
{
    assert(mview(m.subrange(1, m.len() as int)) =~= mview(m).subrange(1, mview(m).len() as int));
}

/// Walking a header and walking its view agree.
pub proof fn lemma_walk_view(v: JsonValue, prefix: Seq<char>)
    ensures
        walk_dir(v, prefix) == jwalk_dir(jview(v), prefix),
        walk_member(v, prefix) == jwalk_member(jview(v), prefix),
    decreases v, 0int,
{
    match v {
        JsonValue::Object(m) => {
            lemma_index_view(m@, "files"@);
            lemma_member_index(m@, "files"@);
            match member_index(m@, "files"@) {
                Some(i) => {
                    assert(mview(m@)[i].1 == jview(m@[i].1));
                    match m@[i].1 {
                        JsonValue::Object(files) => {
                            lemma_walk_members_view(files@, prefix);
                        },
                        _ => {},
                    }
                },
                None => {
                    lemma_leaf_view(m@, prefix);
                },
            }
        },
        _ => {},
    }
}

proof fn lemma_walk_members_view(ms: Seq<(String, JsonValue)>, prefix: Seq<char>)
    ensures
        walk_members(ms, prefix) == jwalk_members(mview(ms), prefix),
    decreases ms, 1int,
{
    if ms.len() > 0 {
        assert(mview(ms)[0] == (ms[0].0@, jview(ms[0].1)));
        lemma_walk_view(ms[0].1, child_path(prefix, ms[0].0@));
        lemma_walk_members_view(ms.subrange(1, ms.len() as int), prefix);
        lemma_mview_rest(ms);
    }
}

// ---------------------------------------------------------------------------
// Trees as packing builds them

/// A file node: an object without `files`, describing an entry.
pub open spec fn leaf_ok(n: Json) -> bool {
    n matches Json::Object(m) && jindex(m, "files"@) is None && forall|p: Seq<char>|
        #[trigger] jleaf_entry(m, p) is Ok
}

/// The entry of a file node at `path`.
pub open spec fn leaf_of(n: Json, path: Seq<char>) -> EntryView {
    jleaf_entry(n->Object_0, path)->Ok_0
}

/// Members that are directories (an object whose only member is an object
/// `files`) with members of the same kind, or file nodes.
pub open spec fn good_members(ms: Seq<(Seq<char>, Json)>) -> bool
    decreases ms, 1int,
{
    ms.len() == 0 || (good_member(ms[0].1) && good_members(ms.subrange(1, ms.len() as int)))
}

/// A directory with good members, or a file node.
pub open spec fn good_member(n: Json) -> bool
    decreases n, 1int,
{
    match n {
        Json::Object(m) => if m.len() == 1 && m[0].0 == "files"@ {
            match m[0].1 {
                Json::Object(sub) => good_members(sub),
                _ => false,
            }
        } else {
            leaf_ok(n)
        },
        _ => false,
    }
}

/// The entries of the file nodes below the members `ms` at `prefix`, in
/// order.
pub open spec fn leaves_members(ms: Seq<(Seq<char>, Json)>, prefix: Seq<char>) -> Seq<EntryView>
    decreases ms, 1int,
{
    if ms.len() == 0 {
        seq![]
    } else {
        leaves_member(ms[0].1, child_path(prefix, ms[0].0)) + leaves_members(
            ms.subrange(1, ms.len() as int),
            prefix,
        )
    }
}

/// The entries of the file nodes at or below `n`, found at `path`.
pub open spec fn leaves_member(n: Json, path: Seq<char>) -> Seq<EntryView>
    decreases n, 1int,
{
    match n {
        Json::Object(m) => if m.len() == 1 && m[0].0 == "files"@ {
            match m[0].1 {
                Json::Object(sub) => leaves_members(sub, path),
                _ => seq![],
            }
        } else {
            seq![leaf_of(n, path)]
        },
        _ => seq![],
    }
}

/// A good tree is walked without error, to its file nodes' entries.
proof fn lemma_walk_good(ms: Seq<(Seq<char>, Json)>, prefix: Seq<char>)
    requires
        good_members(ms),
    ensures
        jwalk_members(ms, prefix) == Ok::<Seq<EntryView>, (Seq<char>, EntryFaultView)>(
            leaves_members(ms, prefix),
        ),
    decreases ms, 1int,
{
    if ms.len() > 0 {
        lemma_walk_good_member(ms[0].1, child_path(prefix, ms[0].0));
        lemma_walk_good(ms.subrange(1, ms.len() as int), prefix);
    }
}

proof fn lemma_walk_good_member(n: Json, path: Seq<char>)
    requires
        good_member(n),
    ensures
        jwalk_member(n, path) == Ok::<Seq<EntryView>, (Seq<char>, EntryFaultView)>(
            leaves_member(n, path),
        ),
    decreases n, 1int,
{
    match n {
        Json::Object(m) => {
            lemma_jindex(m, "files"@);
            if m.len() == 1 && m[0].0 == "files"@ {
                assert(jindex(m, "files"@) == Some(0int));
                match m[0].1 {
                    Json::Object(sub) => lemma_walk_good(sub, path),
                    _ => {},
                }
            } else {
                assert(jleaf_entry(m, path) is Ok);
            }
        },
        _ => {},
    }
}

/// An element of the leaves of `ms` comes from one of its members.
proof fn lemma_leaves_in(ms: Seq<(Seq<char>, Json)>, prefix: Seq<char>, x: EntryView)
    ensures
        leaves_members(ms, prefix).contains(x) <==> exists|i: int|
            0 <= i < ms.len() && #[trigger] leaves_member(ms[i].1, child_path(prefix, ms[i].0)).contains(x),
    decreases ms.len(),
{
    if ms.len() > 0 {
        let rest = ms.subrange(1, ms.len() as int);
        lemma_leaves_in(rest, prefix, x);
        let a = leaves_member(ms[0].1, child_path(prefix, ms[0].0));
        let b = leaves_members(rest, prefix);
        assert(leaves_members(ms, prefix) == a + b);
        if (a + b).contains(x) {
            let j = choose|j: int| 0 <= j < (a + b).len() && (a + b)[j] == x;
            if j < a.len() {
                assert(a[j] == x);
                assert(leaves_member(ms[0].1, child_path(prefix, ms[0].0)).contains(x));
            } else {
                assert(b[j - a.len()] == x);
                assert(b.contains(x));
                let i = choose|i: int|
                    0 <= i < rest.len() && #[trigger] leaves_member(rest[i].1, child_path(prefix, rest[i].0)).contains(x);
                assert(rest[i] == ms[i + 1]);
                assert(leaves_member(ms[i + 1].1, child_path(prefix, ms[i + 1].0)).contains(x));
            }
        }
        if exists|i: int|
            0 <= i < ms.len() && #[trigger] leaves_member(ms[i].1, child_path(prefix, ms[i].0)).contains(x) {
            let i = choose|i: int|
                0 <= i < ms.len() && #[trigger] leaves_member(ms[i].1, child_path(prefix, ms[i].0)).contains(x);
            if i == 0 {
                let j = choose|j: int| 0 <= j < a.len() && a[j] == x;
                assert((a + b)[j] == x);
            } else {
                assert(rest[i - 1] == ms[i]);
                assert(leaves_member(rest[i - 1].1, child_path(prefix, rest[i - 1].0)).contains(x));
                assert(b.contains(x));
                let j = choose|j: int| 0 <= j < b.len() && b[j] == x;
                assert((a + b)[a.len() + j] == x);
            }
        }
    }
}

/// Good members, one by one.
proof fn lemma_good_each(ms: Seq<(Seq<char>, Json)>)
    ensures
        good_members(ms) <==> forall|i: int| 0 <= i < ms.len() ==> #[trigger] good_member(ms[i].1),
    decreases ms.len(),
{
    if ms.len() > 0 {
        let rest = ms.subrange(1, ms.len() as int);
        lemma_good_each(rest);
        assert forall|i: int| 1 <= i < ms.len() implies ms[i] == rest[i - 1] by {}
        if forall|i: int| 0 <= i < ms.len() ==> #[trigger] good_member(ms[i].1) {
            assert(good_member(ms[0].1));
            assert forall|i: int| 0 <= i < rest.len() implies #[trigger] good_member(rest[i].1) by {
                assert(rest[i] == ms[i + 1]);
            }
        }
    }
}

/// The path of the components `c` below `prefix`, `/`-separated.
pub open spec fn joined_path(prefix: Seq<char>, c: Seq<Seq<char>>) -> Seq<char>
    decreases c.len(),
{
    if c.len() == 0 {
        prefix
    } else {
        joined_path(child_path(prefix, c[0]), c.drop_first())
    }
}

/// A good node that has children is a directory of good members.
proof fn lemma_dir_child(child: Json)
    requires
        good_member(child),
        dir_files(child) is Some,
    ensures
        child->Object_0.len() == 1,
        child->Object_0[0].0 == "files"@,
        child->Object_0[0].1 == Json::Object(dir_files(child)->Some_0),
        good_members(dir_files(child)->Some_0),
        leaves_member(child, seq![]) == leaves_members(dir_files(child)->Some_0, seq![]),
        forall|p: Seq<char>| #[trigger] leaves_member(child, p) == leaves_members(dir_files(child)->Some_0, p),
{
    let m = child->Object_0;
    lemma_jindex(m, "files"@);
    if !(m.len() == 1 && m[0].0 == "files"@) {
        assert(leaf_ok(child));
        assert(false);
    }
    assert(jindex(m, "files"@) == Some(0int));
}

/// The directory built for a good set of children.
proof fn lemma_with_files_dir(child: Json, sub2: Seq<(Seq<char>, Json)>)
    requires
        child->Object_0.len() == 1,
        child->Object_0[0].0 == "files"@,
        child is Object,
        good_members(sub2),
    ensures
        good_member(with_files(child, sub2)),
        forall|p: Seq<char>| #[trigger] leaves_member(with_files(child, sub2), p) == leaves_members(sub2, p),
{
    let m = child->Object_0;
    lemma_jindex(m, "files"@);
    assert(jindex(m, "files"@) == Some(0int));
    let m2 = jset(m, "files"@, Json::Object(sub2));
    assert(m2 == m.update(0, ("files"@, Json::Object(sub2))));
    assert(m2.len() == 1 && m2[0].0 == "files"@ && m2[0].1 == Json::Object(sub2));
}

proof fn lemma_empty_dir_shape()
    ensures
        empty_dir()->Object_0.len() == 1,
        empty_dir()->Object_0[0].0 == "files"@,
        dir_files(empty_dir()) == Some(Seq::<(Seq<char>, Json)>::empty()),
{
    let m = empty_dir()->Object_0;
    lemma_jindex(m, "files"@);
    assert(jindex(m, "files"@) == Some(0int));
}

/// Setting a good member keeps the members good, and its leaves are the
/// old ones and the new member's.
proof fn lemma_jset_good(ms: Seq<(Seq<char>, Json)>, k: Seq<char>, v: Json, p: Seq<char>)
    requires
        good_members(ms),
        good_member(v),
    ensures
        good_members(jset(ms, k, v)),
        forall|x: EntryView|
            #[trigger] leaves_members(jset(ms, k, v), p).contains(x) ==> leaves_members(ms, p).contains(x)
                || leaves_member(v, child_path(p, k)).contains(x),
{
    let ms2 = jset(ms, k, v);
    lemma_good_each(ms);
    lemma_jindex(ms, k);
    assert forall|i: int| 0 <= i < ms2.len() implies #[trigger] good_member(ms2[i].1) by {
        if i < ms.len() && ms2[i] == ms[i] {
        }
    }
    lemma_good_each(ms2);
    assert forall|x: EntryView|
        #[trigger] leaves_members(ms2, p).contains(x) implies leaves_members(ms, p).contains(x)
            || leaves_member(v, child_path(p, k)).contains(x) by {
        lemma_leaves_in(ms2, p, x);
        lemma_leaves_in(ms, p, x);
        let i = choose|i: int|
            0 <= i < ms2.len() && #[trigger] leaves_member(ms2[i].1, child_path(p, ms2[i].0)).contains(x);
        if ms2[i] != (k, v) {
            assert(i < ms.len() && ms2[i] == ms[i]);
            assert(leaves_member(ms[i].1, child_path(p, ms[i].0)).contains(x));
        }
    }
}

/// Storing a file node keeps a good tree good; its leaves are the old ones
/// and the new file's.
proof fn lemma_insert_good(t: Seq<(Seq<char>, Json)>, c: Seq<Seq<char>>, leaf: Json, p: Seq<char>)
    requires
        good_members(t),
        leaf_ok(leaf),
        c.len() > 0,
        insert_path(t, c, leaf) is Ok,
    ensures
        good_members(insert_path(t, c, leaf)->Ok_0),
        forall|x: EntryView|
            #[trigger] leaves_members(insert_path(t, c, leaf)->Ok_0, p).contains(x) ==> leaves_members(
                t,
                p,
            ).contains(x) || x == leaf_of(leaf, joined_path(p, c)),
    decreases c.len(),
{
    let t2 = insert_path(t, c, leaf)->Ok_0;
    let m = leaf->Object_0;
    lemma_jindex(m, "files"@);
    assert(!(m.len() == 1 && m[0].0 == "files"@)) by {
        if m.len() == 1 && m[0].0 == "files"@ {
            assert(jindex(m, "files"@) == Some(0int));
        }
    }
    assert(good_member(leaf));
    if c.len() == 1 {
        lemma_jset_good(t, c[0], leaf, p);
        assert(c.drop_first().len() == 0);
        assert(joined_path(p, c) == child_path(p, c[0]));
    } else {
        let child = match jget(t, c[0]) {
            Some(x) => x,
            None => empty_dir(),
        };
        let sub = dir_files(child)->Some_0;
        let sub2 = insert_path(sub, c.drop_first(), leaf)->Ok_0;
        let q = child_path(p, c[0]);
        lemma_jindex(t, c[0]);
        lemma_good_each(t);
        if jget(t, c[0]) is Some {
            let i = jindex(t, c[0])->Some_0;
            assert(good_member(t[i].1));
            lemma_dir_child(child);
        } else {
            lemma_empty_dir_shape();
        }
        assert(good_members(sub));
        lemma_insert_good(sub, c.drop_first(), leaf, q);
        lemma_with_files_dir(child, sub2);
        let node = with_files(child, sub2);
        lemma_jset_good(t, c[0], node, p);
        assert(t2 == jset(t, c[0], node));
        assert forall|x: EntryView| #[trigger] leaves_members(t2, p).contains(x) implies leaves_members(
            t,
            p,
        ).contains(x) || x == leaf_of(leaf, joined_path(p, c)) by {
            if !leaves_members(t, p).contains(x) {
                assert(leaves_member(node, q).contains(x));
                assert(leaves_members(sub2, q).contains(x));
                if x != leaf_of(leaf, joined_path(q, c.drop_first())) {
                    assert(leaves_members(sub, q).contains(x));
                    if jget(t, c[0]) is Some {
                        let i = jindex(t, c[0])->Some_0;
                        assert(leaves_member(t[i].1, child_path(p, t[i].0)).contains(x));
                        lemma_leaves_in(t, p, x);
                    } else {
                        assert(sub.len() == 0);
                        assert(leaves_members(sub, q).len() == 0);
                    }
                }
            }
        }
    }
}

/// A file node found by looking its path up is among the leaves.
proof fn lemma_lookup_leaf(t: Seq<(Seq<char>, Json)>, c: Seq<Seq<char>>, n: Json, p: Seq<char>)
    requires
        good_members(t),
        lookup(t, c) == Some(n),
        leaf_ok(n),
    ensures
        leaves_members(t, p).contains(leaf_of(n, joined_path(p, c))),
    decreases c.len(),
{
    lemma_jindex(t, c[0]);
    lemma_good_each(t);
    let i = jindex(t, c[0])->Some_0;
    let q = child_path(p, c[0]);
    let x = leaf_of(n, joined_path(p, c));
    if c.len() == 1 {
        assert(t[i].1 == n);
        let m = n->Object_0;
        lemma_jindex(m, "files"@);
        assert(!(m.len() == 1 && m[0].0 == "files"@)) by {
            if m.len() == 1 && m[0].0 == "files"@ {
                assert(jindex(m, "files"@) == Some(0int));
            }
        }
        assert(c.drop_first().len() == 0);
        assert(leaves_member(n, q) == seq![leaf_of(n, q)]);
        assert(leaves_member(t[i].1, child_path(p, t[i].0)).contains(x)) by {
            assert(leaves_member(t[i].1, child_path(p, t[i].0))[0] == x);
        }
        lemma_leaves_in(t, p, x);
    } else {
        let child = t[i].1;
        assert(good_member(child));
        lemma_dir_child(child);
        let sub = dir_files(child)->Some_0;
        lemma_lookup_leaf(sub, c.drop_first(), n, q);
        assert(leaves_member(t[i].1, child_path(p, t[i].0)).contains(x));
        lemma_leaves_in(t, p, x);
    }
}

// ---------------------------------------------------------------------------
// Packing, then extracting

/// The entry that extraction finds for file `k` of `fs`: its path, its
/// size, and the sidecar or its offset in the data region.
pub open spec fn packed_entry(fs: Seq<FileEntry>, k: int) -> EntryView {
    EntryView {
        path: joined_path(seq![], names(fs[k].components@)),
        size: fs[k].size,
        kind: if fs[k].unpacked {
            EntryKindView::Unpacked
        } else {
            EntryKindView::Packed { offset: packed_before(fs, k) as u64 }
        },
    }
}

/// The node stored for a file is a file node, read back as the file's
/// entry.
proof fn lemma_node_leaf(size: u64, unpacked: bool, offset: u64)
    ensures
        leaf_ok(leaf_view(size, unpacked, offset as int)),
        forall|p: Seq<char>|
            #[trigger] leaf_of(leaf_view(size, unpacked, offset as int), p) == (EntryView {
                path: p,
                size,
                kind: if unpacked {
                    EntryKindView::Unpacked
                } else {
                    EntryKindView::Packed { offset }
                },
            }),
{
    let m = leaf_view(size, unpacked, offset as int)->Object_0;
    lemma_jindex(m, "files"@);
    lemma_jindex(m, "link"@);
    lemma_jindex(m, "size"@);
    lemma_jindex(m, "unpacked"@);
    lemma_jindex(m, "offset"@);
    reveal_strlit("files");
    reveal_strlit("link");
    reveal_strlit("size");
    reveal_strlit("unpacked");
    reveal_strlit("offset");
    reveal_strlit("integrity");
    assert(m[0].0 == "size"@);
    assert(m[2].0 == "integrity"@);
    assert(jindex(m, "size"@) == Some(0int));
    assert("size"@ != "files"@ && "size"@[0] != "link"@[0]);
    assert("unpacked"@.len() != "files"@.len() && "unpacked"@.len() != "link"@.len());
    assert("offset"@.len() != "files"@.len() && "offset"@.len() != "link"@.len());
    assert("integrity"@.len() != "files"@.len() && "integrity"@.len() != "link"@.len());
    lemma_jindex_none(m, "files"@);
    lemma_jindex_none(m, "link"@);
    if unpacked {
        assert(jindex(m, "unpacked"@) == Some(1int));
    } else {
        assert(jindex(m, "unpacked"@) is None);
        assert(jindex(m, "offset"@) == Some(1int));
        lemma_decimal_roundtrip(offset);
    }
    assert forall|p: Seq<char>| #[trigger] jleaf_entry(m, p) is Ok by {}
}

/// The tree after the first `i` files is good, and its leaves are entries
/// of those files.
proof fn lemma_tree_leaves(fs: Seq<FileEntry>, i: int)
    requires
        separate_paths(fs),
        0 <= i <= fs.len(),
        size_before(fs, fs.len() as int) <= u64::MAX,
    ensures
        tree_after(fs, i) is Ok,
        good_members(tree_after(fs, i)->Ok_0),
        forall|x: EntryView|
            #[trigger] leaves_members(tree_after(fs, i)->Ok_0, seq![]).contains(x) ==> exists|k: int|
                0 <= k < i && x == packed_entry(fs, k),
    decreases i,
{
    lemma_pack_tree_finds_every_file(fs);
    if i == 0 {
        assert(leaves_members(Seq::<(Seq<char>, Json)>::empty(), seq![]) =~= Seq::<EntryView>::empty());
    } else {
        lemma_tree_leaves(fs, i - 1);
        let t = tree_after(fs, i - 1)->Ok_0;
        let c = names(fs[i - 1].components@);
        let leaf = node_of(fs, i - 1);
        lemma_packed_le_size(fs, i - 1);
        lemma_size_mono(fs, i - 1, fs.len() as int);
        let o = packed_before(fs, i - 1) as u64;
        lemma_node_leaf(fs[i - 1].size, fs[i - 1].unpacked, o);
        assert(leaf == leaf_view(fs[i - 1].size, fs[i - 1].unpacked, o as int));
        lemma_pack_prefix(fs, i);
        assert(insert_at(t, c, leaf) is Ok);
        lemma_insert_good(t, c, leaf, seq![]);
        assert(tree_after(fs, i)->Ok_0 == insert_at(t, c, leaf)->Ok_0);
        assert forall|x: EntryView|
            #[trigger] leaves_members(tree_after(fs, i)->Ok_0, seq![]).contains(x) implies exists|k: int|
                0 <= k < i && x == packed_entry(fs, k) by {
            if !leaves_members(t, seq![]).contains(x) {
                assert(x == leaf_of(leaf, joined_path(seq![], c)));
                assert(x == packed_entry(fs, i - 1));
            }
        }
    }
}

/// Extraction finds exactly the files that packing stored: walking a header
/// whose tree packing built from files with distinct paths succeeds, every
/// file appears among the entries with its path, size and place (its offset
/// in the data region, or the sidecar folder), and every entry is one of
/// the files.
pub proof fn lemma_pack_then_walk(fs: Seq<FileEntry>, v: JsonValue)
    requires
        separate_paths(fs),
        size_before(fs, fs.len() as int) <= u64::MAX,
        tree_after(fs, fs.len() as int) is Ok,
        jview(v) == root_view(tree_after(fs, fs.len() as int)->Ok_0),
    ensures
        walk_dir(v, seq![]) is Ok,
        forall|k: int|
            0 <= k < fs.len() ==> (walk_dir(v, seq![])->Ok_0).contains(#[trigger] packed_entry(fs, k)),
        forall|x: EntryView|
            #[trigger] (walk_dir(v, seq![])->Ok_0).contains(x) ==> exists|k: int|
                0 <= k < fs.len() && x == packed_entry(fs, k),
{
    let n = fs.len() as int;
    let t = tree_after(fs, n)->Ok_0;
    lemma_tree_leaves(fs, n);
    lemma_walk_view(v, seq![]);
    lemma_walk_good(t, seq![]);
    let rm = seq![("files"@, Json::Object(t))];
    lemma_jindex(rm, "files"@);
    assert(jindex(rm, "files"@) == Some(0int));
    assert(jwalk_dir(root_view(t), seq![]) == jwalk_members(t, seq![]));
    lemma_pack_tree_finds_every_file(fs);
    assert forall|k: int| 0 <= k < fs.len() implies (walk_dir(v, seq![])->Ok_0).contains(
        #[trigger] packed_entry(fs, k),
    ) by {
        lemma_packed_le_size(fs, k);
        lemma_size_mono(fs, k, n);
        let o = packed_before(fs, k) as u64;
        lemma_node_leaf(fs[k].size, fs[k].unpacked, o);
        assert(node_of(fs, k) == leaf_view(fs[k].size, fs[k].unpacked, o as int));
        lemma_lookup_leaf(t, names(fs[k].components@), node_of(fs, k), seq![]);
    }
}

// ---------------------------------------------------------------------------
// Recording integrity, then extracting

/// A file node is not shaped as a directory.
proof fn lemma_leaf_not_dir(n: Json)
    requires
        leaf_ok(n),
    ensures
        !(n->Object_0.len() == 1 && n->Object_0[0].0 == "files"@),
        good_member(n),
        dir_files(n) is None,
        forall|q: Seq<char>| #[trigger] leaves_member(n, q) == seq![leaf_of(n, q)],
{
    let m = n->Object_0;
    lemma_jindex(m, "files"@);
    if m.len() == 1 && m[0].0 == "files"@ {
        assert(jindex(m, "files"@) == Some(0int));
    }
}

/// Recording integrity in a file node keeps it a file node with the same
/// entry.
proof fn lemma_leaf_patch(m: Seq<(Seq<char>, Json)>, integ: Json)
    requires
        leaf_ok(Json::Object(m)),
    ensures
        leaf_ok(Json::Object(jset(m, "integrity"@, integ))),
        forall|q: Seq<char>|
            #[trigger] leaf_of(Json::Object(jset(m, "integrity"@, integ)), q) == leaf_of(
                Json::Object(m),
                q,
            ),
{
    let m2 = jset(m, "integrity"@, integ);
    reveal_strlit("integrity");
    reveal_strlit("files");
    reveal_strlit("link");
    reveal_strlit("size");
    reveal_strlit("unpacked");
    reveal_strlit("offset");
    assert("integrity"@.len() == 9);
    assert("files"@ != "integrity"@ && "link"@ != "integrity"@ && "size"@ != "integrity"@);
    assert("unpacked"@ != "integrity"@ && "offset"@ != "integrity"@);
    lemma_jset_jget(m, "integrity"@, integ, "files"@);
    lemma_jset_jget(m, "integrity"@, integ, "link"@);
    lemma_jset_jget(m, "integrity"@, integ, "size"@);
    lemma_jset_jget(m, "integrity"@, integ, "unpacked"@);
    lemma_jset_jget(m, "integrity"@, integ, "offset"@);
    lemma_jindex(m, "files"@);
    lemma_jindex(m2, "files"@);
    assert forall|q: Seq<char>| #[trigger] jleaf_entry(m2, q) == jleaf_entry(m, q) by {}
}

/// Replacing member `i` by a good node with the same entries keeps the
/// members good and their entries unchanged.
proof fn lemma_update_same(ms: Seq<(Seq<char>, Json)>, i: int, v: Json, p: Seq<char>)
    requires
        good_members(ms),
        0 <= i < ms.len(),
        good_member(v),
        forall|q: Seq<char>| #[trigger] leaves_member(v, q) == leaves_member(ms[i].1, q),
    ensures
        good_members(ms.update(i, (ms[i].0, v))),
        leaves_members(ms.update(i, (ms[i].0, v)), p) == leaves_members(ms, p),
    decreases ms.len(),
{
    let ms2 = ms.update(i, (ms[i].0, v));
    let r = ms.subrange(1, ms.len() as int);
    if i == 0 {
        assert(ms2.subrange(1, ms2.len() as int) =~= r);
        assert(leaves_member(v, child_path(p, ms[0].0)) == leaves_member(ms[0].1, child_path(p, ms[0].0)));
        assert(leaves_members(ms2, p) == leaves_member(v, child_path(p, ms[0].0)) + leaves_members(r, p));
    } else {
        lemma_update_same(r, i - 1, v, p);
        assert(ms2.subrange(1, ms2.len() as int) =~= r.update(i - 1, (r[i - 1].0, v)));
        assert(ms2[0] == ms[0]);
    }
}

/// The path `c` leads to a file node below `t`.
pub open spec fn leaf_at(t: Seq<(Seq<char>, Json)>, c: Seq<Seq<char>>) -> bool {
    lookup(t, c) matches Some(n) && leaf_ok(n)
}

/// Recording integrity at a path that leads to a file node succeeds, keeps
/// the tree good, its entries unchanged, and every path that led to a file
/// node still leads to one.
proof fn lemma_patch_good(t: Seq<(Seq<char>, Json)>, c: Seq<Seq<char>>, integ: Json, p: Seq<char>)
    requires
        good_members(t),
        leaf_at(t, c),
    ensures
        patch_path(t, c, integ) is Ok,
        good_members(patch_path(t, c, integ)->Ok_0),
        leaves_members(patch_path(t, c, integ)->Ok_0, p) == leaves_members(t, p),
        forall|c2: Seq<Seq<char>>|
            #[trigger] leaf_at(t, c2) ==> leaf_at(patch_path(t, c, integ)->Ok_0, c2),
    decreases c.len(),
{
    lemma_jindex(t, c[0]);
    lemma_good_each(t);
    let i = jindex(t, c[0])->Some_0;
    let child = t[i].1;
    if c.len() == 1 {
        let m = child->Object_0;
        let n2 = Json::Object(jset(m, "integrity"@, integ));
        lemma_leaf_patch(m, integ);
        lemma_leaf_not_dir(child);
        lemma_leaf_not_dir(n2);
        assert(jset(t, c[0], n2) == t.update(i, (t[i].0, n2)));
        lemma_update_same(t, i, n2, p);
        let r = jset(t, c[0], n2);
        assert forall|c2: Seq<Seq<char>>| #[trigger] leaf_at(t, c2) implies leaf_at(r, c2) by {
            lemma_jset_jget(t, c[0], n2, c2[0]);
            if c2.len() > 1 && c2[0] == c[0] {
                assert(lookup(t, c2) is None);
            }
        }
    } else {
        lemma_dir_child(child);
        let sub = dir_files(child)->Some_0;
        assert(lookup(sub, c.drop_first()) == lookup(t, c));
        lemma_patch_good(sub, c.drop_first(), integ, child_path(p, c[0]));
        let sub2 = patch_path(sub, c.drop_first(), integ)->Ok_0;
        let n2 = with_files(child, sub2);
        lemma_with_files_dir(child, sub2);
        assert forall|q: Seq<char>| #[trigger] leaves_member(n2, q) == leaves_member(child, q) by {
            lemma_patch_good(sub, c.drop_first(), integ, q);
        }
        assert(jset(t, c[0], n2) == t.update(i, (t[i].0, n2)));
        lemma_update_same(t, i, n2, p);
        let r = jset(t, c[0], n2);
        let m2 = n2->Object_0;
        lemma_jindex(m2, "files"@);
        assert(jindex(m2, "files"@) == Some(0int));
        assert(dir_files(n2) == Some(sub2));
        assert forall|c2: Seq<Seq<char>>| #[trigger] leaf_at(t, c2) implies leaf_at(r, c2) by {
            lemma_jset_jget(t, c[0], n2, c2[0]);
            if c2[0] == c[0] {
                if c2.len() == 1 {
                    lemma_leaf_not_dir(child);
                } else {
                    assert(lookup(t, c2) == lookup(sub, c2.drop_first()));
                    assert(leaf_at(sub, c2.drop_first()));
                    assert(lookup(r, c2) == lookup(sub2, c2.drop_first()));
                }
            }
        }
    }
}

/// The children `t` after recording, in order, the integrity objects
/// `integs` in the nodes at the paths `cs`.
pub open spec fn patch_all(
    t: Seq<(Seq<char>, Json)>,
    cs: Seq<Seq<Seq<char>>>,
    integs: Seq<Json>,
) -> Result<Seq<(Seq<char>, Json)>, PatchFault>
    decreases cs.len(),
{
    if cs.len() == 0 {
        Ok(t)
    } else {
        match patch_all(t, cs.drop_last(), integs.drop_last()) {
            Ok(t2) => patch_path(t2, cs.last(), integs.last()),
            Err(e) => Err(e),
        }
    }
}

proof fn lemma_patch_all_good(
    t: Seq<(Seq<char>, Json)>,
    cs: Seq<Seq<Seq<char>>>,
    integs: Seq<Json>,
    p: Seq<char>,
)
    requires
        good_members(t),
        cs.len() == integs.len(),
        forall|j: int| 0 <= j < cs.len() ==> leaf_at(t, #[trigger] cs[j]),
    ensures
        patch_all(t, cs, integs) is Ok,
        good_members(patch_all(t, cs, integs)->Ok_0),
        leaves_members(patch_all(t, cs, integs)->Ok_0, p) == leaves_members(t, p),
        forall|c2: Seq<Seq<char>>|
            #[trigger] leaf_at(t, c2) ==> leaf_at(patch_all(t, cs, integs)->Ok_0, c2),
    decreases cs.len(),
{
    if cs.len() > 0 {
        let cs1 = cs.drop_last();
        assert forall|j: int| 0 <= j < cs1.len() implies leaf_at(t, #[trigger] cs1[j]) by {
            assert(cs1[j] == cs[j]);
        }
        lemma_patch_all_good(t, cs1, integs.drop_last(), p);
        let t1 = patch_all(t, cs1, integs.drop_last())->Ok_0;
        assert(leaf_at(t, cs[cs.len() - 1]));
        lemma_patch_good(t1, cs.last(), integs.last(), p);
    }
}

/// Recording integrity in the root's children: the root keeps its shape.
pub proof fn lemma_patch_root(t: Seq<(Seq<char>, Json)>, f: Seq<(Seq<char>, Json)>)
    ensures
        dir_files(root_view(t)) == Some(t),
        with_files(root_view(t), f) == root_view(f),
{
    let m = seq![("files"@, Json::Object(t))];
    lemma_jindex(m, "files"@);
    assert(jindex(m, "files"@) == Some(0int));
    assert(jset(m, "files"@, Json::Object(f)) =~= seq![("files"@, Json::Object(f))]);
}

/// Extraction finds exactly the files that packing stored also once their
/// integrity is recorded: after recording integrity objects, in any order,
/// at paths of packed files, walking the header succeeds, every file appears
/// among the entries with its path, size and place, and every entry is one
/// of the files.
pub proof fn lemma_pack_patch_then_walk(
    fs: Seq<FileEntry>,
    cs: Seq<Seq<Seq<char>>>,
    integs: Seq<Json>,
    v: JsonValue,
)
    requires
        separate_paths(fs),
        size_before(fs, fs.len() as int) <= u64::MAX,
        cs.len() == integs.len(),
        forall|j: int|
            0 <= j < cs.len() ==> exists|k: int|
                0 <= k < fs.len() && #[trigger] cs[j] == #[trigger] names(fs[k].components@),
        jview(v) == root_view(patch_all(tree_after(fs, fs.len() as int)->Ok_0, cs, integs)->Ok_0),
    ensures
        tree_after(fs, fs.len() as int) is Ok,
        patch_all(tree_after(fs, fs.len() as int)->Ok_0, cs, integs) is Ok,
        walk_dir(v, seq![]) is Ok,
        forall|k: int|
            0 <= k < fs.len() ==> (walk_dir(v, seq![])->Ok_0).contains(#[trigger] packed_entry(fs, k)),
        forall|x: EntryView|
            #[trigger] (walk_dir(v, seq![])->Ok_0).contains(x) ==> exists|k: int|
                0 <= k < fs.len() && x == packed_entry(fs, k),
{
    let n = fs.len() as int;
    lemma_tree_leaves(fs, n);
    lemma_pack_tree_finds_every_file(fs);
    let t = tree_after(fs, n)->Ok_0;
    assert forall|k: int| 0 <= k < fs.len() implies leaf_at(t, #[trigger] names(fs[k].components@))
        && leaves_members(t, seq![]).contains(packed_entry(fs, k)) by {
        lemma_packed_le_size(fs, k);
        lemma_size_mono(fs, k, n);
        let o = packed_before(fs, k) as u64;
        lemma_node_leaf(fs[k].size, fs[k].unpacked, o);
        assert(node_of(fs, k) == leaf_view(fs[k].size, fs[k].unpacked, o as int));
        lemma_lookup_leaf(t, names(fs[k].components@), node_of(fs, k), seq![]);
    }
    assert forall|j: int| 0 <= j < cs.len() implies leaf_at(t, #[trigger] cs[j]) by {
        let k = choose|k: int| 0 <= k < fs.len() && cs[j] == names(fs[k].components@);
        assert(leaf_at(t, names(fs[k].components@)));
    }
    lemma_patch_all_good(t, cs, integs, seq![]);
    let r = patch_all(t, cs, integs)->Ok_0;
    lemma_walk_view(v, seq![]);
    lemma_walk_good(r, seq![]);
    let rm = seq![("files"@, Json::Object(r))];
    lemma_jindex(rm, "files"@);
    assert(jindex(rm, "files"@) == Some(0int));
    assert(jwalk_dir(root_view(r), seq![]) == jwalk_members(r, seq![]));
}

} // verus!
