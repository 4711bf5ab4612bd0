//! What extraction plans for a header that the second packer built: no
//! refusal, and for every file the step that copies it back from where
//! packing put it.

use vstd::prelude::*;

use super::archive::{
    archive_leaf, archive_node, archive_tree_after, cursor_before, entry_ops, file_op, get,
    lemma_archive_prefix, lemma_archive_tree_finds_every_file, member_ops, separate_files, stops,
    tree_insert, ArchiveFault, ArchiveFile, OpView,
};
use super::json::{jview, lemma_member_index, member, member_index, mview, Json, JsonNumber, JsonValue};
use super::tree::{
    dir_files, dir_or_absent, empty_dir, jget, jindex, jset, lemma_index_view, lemma_jindex,
    lemma_jset_jget, lookup, names, proper_prefix,
};
use crate::text::{decimal_text, u64_of_text};

verus! {

// ---------------------------------------------------------------------------
// The steps, read from a view

/// The member `k` of the node `n`, when it is an object.
pub open spec fn jget_of(n: Json, k: Seq<char>) -> Option<Json> {
    match n {
        Json::Object(m) => jget(m, k),
        _ => None,
    }
}

/// The step for a file node `n` at `rel`, read from a view.
pub open spec fn jfile_op(n: Json, rel: Seq<Seq<char>>) -> OpView {
    let size = match jget_of(n, "size"@) {
        Some(Json::Unsigned(s)) => s,
        _ => 0,
    };
    let unpacked = match jget_of(n, "unpacked"@) {
        Some(Json::Bool(b)) => b,
        _ => false,
    };
    if unpacked {
        OpView::Unpacked(rel)
    } else {
        match jget_of(n, "offset"@) {
            Some(Json::Str(s)) => match u64_of_text(s) {
                Some(o) => OpView::Packed(rel, o, size),
                None => OpView::Fail(rel, ArchiveFault::BadOffset),
            },
            _ => OpView::Fail(rel, ArchiveFault::MissingOffset),
        }
    }
}

/// The steps for the members `ms` at `rel`, read from a view.
pub open spec fn jmember_ops(ms: Seq<(Seq<char>, Json)>, rel: Seq<Seq<char>>) -> Seq<OpView>
    decreases ms, 0int,
{
    if ms.len() == 0 {
        Seq::empty()
    } else {
        let first = jentry_ops(ms[0].1, rel.push(ms[0].0));
        if stops(first) {
            first
        } else {
            first + jmember_ops(ms.subrange(1, ms.len() as int), rel)
        }
    }
}

/// The steps for one node `n` at `rel`, read from a view.
pub open spec fn jentry_ops(n: Json, rel: Seq<Seq<char>>) -> Seq<OpView>
    decreases n, 1int,
{
    match n {
        Json::Object(m) => match jindex(m, "files"@) {
            Some(i) => if 0 <= i < m.len() {
                match m[i].1 {
                    Json::Object(sub) => seq![OpView::Dir(rel)] + jmember_ops(sub, rel),
                    _ => if jget(m, "link"@) is Some {
                        seq![OpView::Link(rel)]
                    } else {
                        seq![jfile_op(n, rel)]
                    },
                }
            } else {
                seq![jfile_op(n, rel)]
            },
            None => if jget(m, "link"@) is Some {
                seq![OpView::Link(rel)]
            } else {
                seq![jfile_op(n, rel)]
            },
        },
        _ => seq![jfile_op(n, rel)],
    }
}

proof fn lemma_member_view(m: Seq<(String, JsonValue)>, k: Seq<char>)
    ensures
        jget(mview(m), k) == match member(m, k) {
            Some(v) => Some(jview(v)),
            None => None,
        },
{
    lemma_index_view(m, k);
    lemma_member_index(m, k);
}

proof fn lemma_file_op_view(v: JsonValue, rel: Seq<Seq<char>>)
    ensures
        file_op(v, rel) == jfile_op(jview(v), rel),
{
    match v {
        JsonValue::Object(m) => {
            lemma_member_view(m@, "size"@);
            lemma_member_view(m@, "unpacked"@);
            lemma_member_view(m@, "offset"@);
            match member(m@, "size"@) {
                Some(JsonValue::Number(n)) => match n {
                    JsonNumber::Unsigned(_) => {},
                    JsonNumber::Negative(_) => {},
                    JsonNumber::Float(_) => {},
                },
                _ => {},
            }
        },
        _ => {},
    }
}

/// Planning from a header and from its view agree.
pub proof fn lemma_ops_view(v: JsonValue, rel: Seq<Seq<char>>)
    ensures
        entry_ops(v, rel) == jentry_ops(jview(v), rel),
    decreases v, 1int,
{
    lemma_file_op_view(v, rel);
    match v {
        JsonValue::Object(m) => {
            lemma_index_view(m@, "files"@);
            lemma_member_index(m@, "files"@);
            lemma_member_view(m@, "link"@);
            match member_index(m@, "files"@) {
                Some(i) => {
                    assert(mview(m@)[i].1 == jview(m@[i].1));
                    match m@[i].1 {
                        JsonValue::Object(sub) => {
                            assert(decreases_to!(v => m@[i].1));
                            lemma_members_view(sub@, rel);
                        },
                        _ => {},
                    }
                },
                None => {},
            }
        },
        _ => {},
    }
}

/// Planning the members of a header and of its view agree.
pub proof fn lemma_members_view(ms: Seq<(String, JsonValue)>, rel: Seq<Seq<char>>)
    ensures
        member_ops(ms, rel) == jmember_ops(mview(ms), rel),
    decreases ms, 0int,
{
    if ms.len() > 0 {
        assert(mview(ms)[0] == (ms[0].0@, jview(ms[0].1)));
        lemma_ops_view(ms[0].1, rel.push(ms[0].0@));
        lemma_members_view(ms.subrange(1, ms.len() as int), rel);
        assert(mview(ms.subrange(1, ms.len() as int)) =~= mview(ms).subrange(1, mview(ms).len() as int));
    }
}

// ---------------------------------------------------------------------------
// Trees as the second packer builds them

/// No step of `s` is a refusal.
pub open spec fn no_fail(s: Seq<OpView>) -> bool {
    forall|j: int| 0 <= j < s.len() ==> !(#[trigger] s[j] is Fail)
}

/// A file node: an object without `files` or `link`, whose step is never
/// a refusal.
pub open spec fn aleaf(n: Json) -> bool {
    &&& n is Object
    &&& jindex(n->Object_0, "files"@) is None
    &&& jget(n->Object_0, "link"@) is None
    &&& forall|rel: Seq<Seq<char>>| !(#[trigger] jfile_op(n, rel) is Fail)
}

/// Members that are folders (with an object `files` of the same kind of
/// members) or file nodes.
pub open spec fn agood_members(ms: Seq<(Seq<char>, Json)>) -> bool
    decreases ms, 1int,
{
    ms.len() == 0 || (agood_member(ms[0].1) && agood_members(ms.subrange(1, ms.len() as int)))
}

/// A folder of good members, or a file node.
pub open spec fn agood_member(n: Json) -> bool
    decreases n, 0int,
{
    match n {
        Json::Object(m) => match jindex(m, "files"@) {
            Some(i) => if 0 <= i < m.len() {
                match m[i].1 {
                    Json::Object(sub) => agood_members(sub),
                    _ => false,
                }
            } else {
                false
            },
            None => aleaf(n),
        },
        _ => false,
    }
}

proof fn lemma_agood_each(ms: Seq<(Seq<char>, Json)>)
    ensures
        agood_members(ms) <==> forall|i: int| 0 <= i < ms.len() ==> #[trigger] agood_member(ms[i].1),
    decreases ms.len(),
{
    if ms.len() > 0 {
        let rest = ms.subrange(1, ms.len() as int);
        lemma_agood_each(rest);
        assert forall|i: int| 1 <= i < ms.len() implies ms[i] == rest[i - 1] by {}
        if forall|i: int| 0 <= i < ms.len() ==> #[trigger] agood_member(ms[i].1) {
            assert(agood_member(ms[0].1));
            assert forall|i: int| 0 <= i < rest.len() implies #[trigger] agood_member(rest[i].1) by {
                assert(rest[i] == ms[i + 1]);
            }
        }
    }
}

/// The steps of good members refuse nothing, and hold the steps of each
/// member.
proof fn lemma_ops_good(ms: Seq<(Seq<char>, Json)>, rel: Seq<Seq<char>>)
    requires
        agood_members(ms),
    ensures
        no_fail(jmember_ops(ms, rel)),
        forall|i: int, x: OpView|
            0 <= i < ms.len() && #[trigger] jentry_ops(ms[i].1, rel.push(ms[i].0)).contains(x)
                ==> jmember_ops(ms, rel).contains(x),
    decreases ms, 1int,
{
    if ms.len() > 0 {
        let rest = ms.subrange(1, ms.len() as int);
        lemma_entry_good(ms[0].1, rel.push(ms[0].0));
        lemma_ops_good(rest, rel);
        let first = jentry_ops(ms[0].1, rel.push(ms[0].0));
        let r = jmember_ops(rest, rel);
        assert(!stops(first));
        assert(jmember_ops(ms, rel) == first + r);
        assert forall|j: int| 0 <= j < (first + r).len() implies !(#[trigger] (first + r)[j] is Fail) by {
            if j >= first.len() {
                assert((first + r)[j] == r[j - first.len()]);
            }
        }
        assert forall|i: int, x: OpView|
            0 <= i < ms.len() && #[trigger] jentry_ops(ms[i].1, rel.push(ms[i].0)).contains(x)
                implies (first + r).contains(x) by {
            if i == 0 {
                let j = choose|j: int| 0 <= j < first.len() && first[j] == x;
                assert((first + r)[j] == x);
            } else {
                assert(ms[i] == rest[i - 1]);
                assert(r.contains(x));
                let j = choose|j: int| 0 <= j < r.len() && r[j] == x;
                assert((first + r)[first.len() + j] == x);
            }
        }
    }
}

proof fn lemma_entry_good(n: Json, rel: Seq<Seq<char>>)
    requires
        agood_member(n),
    ensures
        no_fail(jentry_ops(n, rel)),
        !stops(jentry_ops(n, rel)),
    decreases n, 0int,
{
    let m = n->Object_0;
    match jindex(m, "files"@) {
        Some(i) => {
            let sub = m[i].1->Object_0;
            lemma_ops_good(sub, rel);
            let r = jmember_ops(sub, rel);
            let s = seq![OpView::Dir(rel)] + r;
            assert forall|j: int| 0 <= j < s.len() implies !(#[trigger] s[j] is Fail) by {
                if j > 0 {
                    assert(s[j] == r[j - 1]);
                }
            }
        },
        None => {
            assert(!(jfile_op(n, rel) is Fail));
        },
    }
}

/// A file node found by looking its path up has its step among the steps.
proof fn lemma_lookup_op(t: Seq<(Seq<char>, Json)>, c: Seq<Seq<char>>, n: Json, rel: Seq<Seq<char>>)
    requires
        agood_members(t),
        lookup(t, c) == Some(n),
        aleaf(n),
    ensures
        jmember_ops(t, rel).contains(jfile_op(n, rel + c)),
    decreases c.len(),
{
    lemma_jindex(t, c[0]);
    lemma_agood_each(t);
    lemma_ops_good(t, rel);
    let i = jindex(t, c[0])->Some_0;
    let child = t[i].1;
    assert(agood_member(child));
    let q = rel.push(c[0]);
    assert(t[i].0 == c[0]);
    if c.len() == 1 {
        assert(child == n);
        assert(q =~= rel + c);
        assert(jentry_ops(n, q) == seq![jfile_op(n, q)]);
        assert(jentry_ops(t[i].1, rel.push(t[i].0))[0] == jfile_op(n, rel + c));
        assert(jentry_ops(t[i].1, rel.push(t[i].0)).contains(jfile_op(n, rel + c)));
    } else {
        let m = child->Object_0;
        lemma_jindex(m, "files"@);
        let sub = dir_files(child)->Some_0;
        let k = jindex(m, "files"@)->Some_0;
        assert(m[k].1 == Json::Object(sub));
        lemma_lookup_op(sub, c.drop_first(), n, q);
        assert(q + c.drop_first() =~= rel + c);
        let r = jmember_ops(sub, q);
        let x = jfile_op(n, rel + c);
        assert(r.contains(x));
        let j = choose|j: int| 0 <= j < r.len() && r[j] == x;
        let s = seq![OpView::Dir(q)] + r;
        assert(s[j + 1] == x);
        assert(jentry_ops(t[i].1, rel.push(t[i].0)).contains(x));
    }
}

/// Setting a good member keeps the members good.
proof fn lemma_jset_agood(t: Seq<(Seq<char>, Json)>, k: Seq<char>, v: Json)
    requires
        agood_members(t),
        agood_member(v),
    ensures
        agood_members(jset(t, k, v)),
{
    lemma_agood_each(t);
    lemma_jindex(t, k);
    let t2 = jset(t, k, v);
    assert forall|i: int| 0 <= i < t2.len() implies #[trigger] agood_member(t2[i].1) by {
        if i < t.len() && t2[i] == t[i] {
        }
    }
    lemma_agood_each(t2);
}

/// The node recorded for a file is a file node.
proof fn lemma_archive_leaf(size: u64, unpacked: bool, executable: bool, offset: u64)
    ensures
        aleaf(archive_leaf(size, unpacked, executable, offset as int)),
        agood_member(archive_leaf(size, unpacked, executable, offset as int)),
        forall|rel: Seq<Seq<char>>|
            #[trigger] jfile_op(archive_leaf(size, unpacked, executable, offset as int), rel) == if unpacked {
                OpView::Unpacked(rel)
            } else {
                OpView::Packed(rel, offset, size)
            },
{
    let n = archive_leaf(size, unpacked, executable, offset as int);
    let m = n->Object_0;
    reveal_strlit("files");
    reveal_strlit("link");
    reveal_strlit("size");
    reveal_strlit("unpacked");
    reveal_strlit("offset");
    reveal_strlit("executable");
    lemma_jindex(m, "files"@);
    lemma_jindex(m, "link"@);
    lemma_jindex(m, "size"@);
    lemma_jindex(m, "unpacked"@);
    lemma_jindex(m, "offset"@);
    assert(m[0].0 == "size"@);
    assert(jindex(m, "size"@) == Some(0int));
    assert("size"@ != "files"@ && "size"@[0] != "link"@[0]);
    assert("unpacked"@.len() != "files"@.len() && "unpacked"@.len() != "link"@.len());
    assert("offset"@.len() != "files"@.len() && "offset"@.len() != "link"@.len());
    assert("executable"@.len() != "files"@.len() && "executable"@.len() != "link"@.len());
    assert("executable"@.len() != "unpacked"@.len() && "executable"@.len() != "offset"@.len());
    assert("size"@ != "unpacked"@ && "size"@ != "offset"@);
    if unpacked {
        assert(m[1].0 == "unpacked"@);
        super::tree::lemma_jindex_unique(m, "unpacked"@, 1);
    } else {
        assert(m[1].0 == "offset"@);
        super::tree::lemma_jindex_unique(m, "offset"@, 1);
        assert(jindex(m, "unpacked"@) is None);
        crate::text::lemma_decimal_roundtrip(offset);
    }
    assert(jindex(m, "files"@) is None);
    assert(jget(m, "link"@) is None);
}

/// Storing a file node where every proper prefix of its path is a folder or
/// absent keeps a good tree good.
proof fn lemma_insert_agood(t: Seq<(Seq<char>, Json)>, parts: Seq<Seq<char>>, leaf: Json)
    requires
        agood_members(t),
        agood_member(leaf),
        parts.len() > 0,
        forall|q: Seq<Seq<char>>| proper_prefix(q, parts) ==> dir_or_absent(#[trigger] lookup(t, q)),
    ensures
        agood_members(tree_insert(t, parts, leaf)),
    decreases parts.len(),
{
    if parts.len() == 1 {
        lemma_jset_agood(t, parts[0], leaf);
    } else {
        let p0 = parts[0];
        let q0 = seq![p0];
        assert(proper_prefix(q0, parts));
        assert(lookup(t, q0) == jget(t, p0));
        lemma_jindex(t, p0);
        lemma_agood_each(t);
        let entry = match jget(t, p0) {
            Some(e) => e,
            None => empty_dir(),
        };
        let m = entry->Object_0;
        lemma_jindex(m, "files"@);
        if jget(t, p0) is None {
            reveal_strlit("files");
            assert(m == seq![("files"@, Json::Object(Seq::<(Seq<char>, Json)>::empty()))]);
            assert(jindex(m, "files"@) == Some(0int));
        } else {
            let i = jindex(t, p0)->Some_0;
            assert(agood_member(t[i].1));
        }
        let k = jindex(m, "files"@)->Some_0;
        let sub = m[k].1->Object_0;
        assert(agood_members(sub));
        assert forall|q: Seq<Seq<char>>| proper_prefix(q, parts.drop_first()) implies dir_or_absent(
            #[trigger] lookup(sub, q),
        ) by {
            let q2 = seq![p0] + q;
            assert(proper_prefix(q2, parts)) by {
                assert forall|j: int| 0 <= j < q2.len() implies q2[j] == parts[j] by {
                    if j > 0 {
                        assert(q2[j] == q[j - 1]);
                    }
                }
            }
            assert(q2.drop_first() =~= q);
            if jget(t, p0) is None {
                assert(sub.len() == 0);
                super::tree::lemma_lookup_empty(q);
            } else {
                assert(lookup(t, q2) == lookup(sub, q));
            }
        }
        lemma_insert_agood(sub, parts.drop_first(), leaf);
        let sub2 = tree_insert(sub, parts.drop_first(), leaf);
        let m2 = jset(m, "files"@, Json::Object(sub2));
        assert(m2 == m.update(k, ("files"@, Json::Object(sub2))));
        lemma_jindex(m2, "files"@);
        super::tree::lemma_jindex_unique(m2, "files"@, k);
        assert(agood_member(Json::Object(m2)));
        assert(jget(m, "files"@) == Some(Json::Object(sub)));
        assert(tree_insert(t, parts, leaf) == jset(t, p0, Json::Object(m2)));
        lemma_jset_agood(t, p0, Json::Object(m2));
    }
}

/// The tree after the first `i` files is good.
proof fn lemma_archive_good(fs: Seq<ArchiveFile>, i: int)
    requires
        separate_files(fs),
        0 <= i <= fs.len(),
        cursor_before(fs, fs.len() as int) <= u64::MAX,
    ensures
        agood_members(archive_tree_after(fs, i)),
    decreases i,
{
    if i > 0 {
        lemma_archive_good(fs, i - 1);
        lemma_archive_prefix(fs, i - 1);
        super::archive::lemma_cursor_mono(fs, i - 1, fs.len() as int);
        super::archive::lemma_cursor_mono(fs, 0, i - 1);
        let o = cursor_before(fs, i - 1) as u64;
        lemma_archive_leaf(fs[i - 1].size, fs[i - 1].unpacked, fs[i - 1].executable, o);
        assert forall|q: Seq<Seq<char>>| proper_prefix(q, names(fs[i - 1].components@)) implies dir_or_absent(
            #[trigger] lookup(archive_tree_after(fs, i - 1), q),
        ) by {}
        lemma_insert_agood(
            archive_tree_after(fs, i - 1),
            names(fs[i - 1].components@),
            archive_leaf(fs[i - 1].size, fs[i - 1].unpacked, fs[i - 1].executable, o as int),
        );
    }
}

// ---------------------------------------------------------------------------
// Packing, then planning extraction

/// The step that extracts file `k` of `fs`: a copy from the sidecar folder,
/// or of its bytes at its offset in the data region.
pub open spec fn archive_op(fs: Seq<ArchiveFile>, k: int) -> OpView {
    if fs[k].unpacked {
        OpView::Unpacked(names(fs[k].components@))
    } else {
        OpView::Packed(names(fs[k].components@), cursor_before(fs, k) as u64, fs[k].size)
    }
}

/// Extraction brings back every file that the second packer stored:
/// planning the extraction of the `files` of a header that packing built
/// from files with distinct paths refuses nothing, and holds for every
/// file the step that copies it to its path, from the sidecar folder or
/// from its offset in the data region, with its size.
pub proof fn lemma_archive_then_plan(fs: Seq<ArchiveFile>, files: Seq<(String, JsonValue)>)
    requires
        separate_files(fs),
        cursor_before(fs, fs.len() as int) <= u64::MAX,
        mview(files) == archive_tree_after(fs, fs.len() as int),
    ensures
        no_fail(member_ops(files, Seq::empty())),
        forall|k: int|
            0 <= k < fs.len() ==> member_ops(files, Seq::empty()).contains(#[trigger] archive_op(fs, k)),
{
    let n = fs.len() as int;
    let t = archive_tree_after(fs, n);
    lemma_members_view(files, Seq::empty());
    lemma_archive_good(fs, n);
    lemma_ops_good(t, Seq::empty());
    lemma_archive_tree_finds_every_file(fs);
    assert forall|k: int| 0 <= k < fs.len() implies member_ops(files, Seq::empty()).contains(
        #[trigger] archive_op(fs, k),
    ) by {
        super::archive::lemma_cursor_mono(fs, k, n);
        super::archive::lemma_cursor_mono(fs, 0, k);
        let o = cursor_before(fs, k) as u64;
        lemma_archive_leaf(fs[k].size, fs[k].unpacked, fs[k].executable, o);
        let c = names(fs[k].components@);
        assert(archive_node(fs, k) == archive_leaf(fs[k].size, fs[k].unpacked, fs[k].executable, o as int));
        lemma_lookup_op(t, c, archive_node(fs, k), Seq::empty());
        assert(Seq::<Seq<char>>::empty() + c =~= c);
    }
}

} // verus!
