//! Building and editing the JSON directory tree of an archive.
//!
//! A directory is an object whose member `files` is an object mapping names
//! to the directory's children; a file is any other object.

use vstd::prelude::*;

use super::json::{find_member, member, jview, lemma_member_index, member_index, mview, Json, JsonValue};
use crate::text::owned;

verus! {

/// Index of the first member named `k`.
pub open spec fn jindex(ms: Seq<(Seq<char>, Json)>, k: Seq<char>) -> Option<int>
    decreases ms.len(),
{
    if ms.len() == 0 {
        None
    } else if ms[0].0 == k {
        Some(0)
    } else {
        match jindex(ms.drop_first(), k) {
            Some(i) => Some(i + 1),
            None => None,
        }
    }
}

/// The member named `k`.
pub open spec fn jget(ms: Seq<(Seq<char>, Json)>, k: Seq<char>) -> Option<Json> {
    match jindex(ms, k) {
        Some(i) => Some(ms[i].1),
        None => None,
    }
}

/// `ms` with the member `k` set to `v`: replaced where it is, or added last.
pub open spec fn jset(ms: Seq<(Seq<char>, Json)>, k: Seq<char>, v: Json) -> Seq<(Seq<char>, Json)> {
    match jindex(ms, k) {
        Some(i) => ms.update(i, (k, v)),
        None => ms.push((k, v)),
    }
}

/// The children of `node`, when it is a directory.
pub open spec fn dir_files(node: Json) -> Option<Seq<(Seq<char>, Json)>> {
    match node {
        Json::Object(m) => match jget(m, "files"@) {
            Some(Json::Object(f)) => Some(f),
            _ => None,
        },
        _ => None,
    }
}

/// An empty directory.
pub open spec fn empty_dir() -> Json {
    Json::Object(seq![("files"@, Json::Object(Seq::empty()))])
}

/// The directory `node` with its children replaced by `f`.
pub open spec fn with_files(node: Json, f: Seq<(Seq<char>, Json)>) -> Json {
    match node {
        Json::Object(m) => Json::Object(jset(m, "files"@, Json::Object(f))),
        _ => node,
    }
}

/// The names of the components `cs`.
pub open spec fn names(cs: Seq<String>) -> Seq<Seq<char>> {
    cs.map_values(|c: String| c@)
}

/// The children `files` with `leaf` stored at the path `comps` below them,
/// missing directories created on the way; or the name of the first
/// component on the way that is not a directory.
pub open spec fn insert_path(files: Seq<(Seq<char>, Json)>, comps: Seq<Seq<char>>, leaf: Json) -> Result<
    Seq<(Seq<char>, Json)>,
    Seq<char>,
>
    decreases comps.len(),
{
    if comps.len() == 0 {
        Ok(files)
    } else if comps.len() == 1 {
        Ok(jset(files, comps[0], leaf))
    } else {
        let child = match jget(files, comps[0]) {
            Some(c) => c,
            None => empty_dir(),
        };
        match dir_files(child) {
            Some(sub) => match insert_path(sub, comps.drop_first(), leaf) {
                Ok(sub2) => Ok(jset(files, comps[0], with_files(child, sub2))),
                Err(e) => Err(e),
            },
            None => Err(comps[0]),
        }
    }
}

/// The node at the path `comps` below the children `files`.
pub open spec fn lookup(files: Seq<(Seq<char>, Json)>, comps: Seq<Seq<char>>) -> Option<Json>
    decreases comps.len(),
{
    if comps.len() == 0 {
        None
    } else if comps.len() == 1 {
        jget(files, comps[0])
    } else {
        match jget(files, comps[0]) {
            Some(child) => match dir_files(child) {
                Some(sub) => lookup(sub, comps.drop_first()),
                None => None,
            },
            None => None,
        }
    }
}

pub proof fn lemma_jindex(ms: Seq<(Seq<char>, Json)>, k: Seq<char>)
    ensures
        jindex(ms, k) matches Some(i) ==> 0 <= i < ms.len() && ms[i].0 == k && forall|j: int|
            0 <= j < i ==> ms[j].0 != k,
        jindex(ms, k) is None ==> forall|j: int| 0 <= j < ms.len() ==> ms[j].0 != k,
    decreases ms.len(),
{
    if ms.len() > 0 && ms[0].0 != k {
        lemma_jindex(ms.drop_first(), k);
        assert forall|j: int| 1 <= j < ms.len() implies ms[j] == ms.drop_first()[j - 1] by {}
    }
}

/// The first index with key `k` is determined by the keys alone.
pub proof fn lemma_jindex_unique(ms: Seq<(Seq<char>, Json)>, k: Seq<char>, i: int)
    requires
        0 <= i < ms.len(),
        ms[i].0 == k,
        forall|j: int| 0 <= j < i ==> ms[j].0 != k,
    ensures
        jindex(ms, k) == Some(i),
    decreases ms.len(),
{
    if i > 0 {
        assert forall|j: int| 0 <= j < i - 1 implies ms.drop_first()[j].0 != k by {
            assert(ms.drop_first()[j] == ms[j + 1]);
        }
        lemma_jindex_unique(ms.drop_first(), k, i - 1);
    }
}

pub proof fn lemma_jindex_none(ms: Seq<(Seq<char>, Json)>, k: Seq<char>)
    requires
        forall|j: int| 0 <= j < ms.len() ==> ms[j].0 != k,
    ensures
        jindex(ms, k) is None,
    decreases ms.len(),
{
    if ms.len() > 0 {
        assert forall|j: int| 0 <= j < ms.len() - 1 implies ms.drop_first()[j].0 != k by {
            assert(ms.drop_first()[j] == ms[j + 1]);
        }
        lemma_jindex_none(ms.drop_first(), k);
    }
}

/// Looking a key up in an object and in its view agree.
pub proof fn lemma_index_view(m: Seq<(String, JsonValue)>, k: Seq<char>)
    ensures
        jindex(mview(m), k) == member_index(m, k),
{
    lemma_member_index(m, k);
    let v = mview(m);
    match member_index(m, k) {
        Some(i) => {
            lemma_jindex_unique(v, k, i);
        },
        None => {
            lemma_jindex_none(v, k);
        },
    }
}

pub proof fn lemma_mview_update(m: Seq<(String, JsonValue)>, i: int, x: (String, JsonValue))
    requires
        0 <= i < m.len(),
    ensures
        mview(m.update(i, x)) == mview(m).update(i, (x.0@, jview(x.1))),
{
    assert(mview(m.update(i, x)) =~= mview(m).update(i, (x.0@, jview(x.1))));
}

pub proof fn lemma_mview_push(m: Seq<(String, JsonValue)>, x: (String, JsonValue))
    ensures
        mview(m.push(x)) == mview(m).push((x.0@, jview(x.1))),
{
    assert(mview(m.push(x)) =~= mview(m).push((x.0@, jview(x.1))));
}

/// Sets the member `key` of `ms` to `v`.
pub fn set_member(ms: &mut Vec<(String, JsonValue)>, key: String, v: JsonValue)
    ensures
        mview(final(ms)@) == jset(mview(old(ms)@), key@, jview(v)),
{
    proof {
        lemma_index_view(ms@, key@);
        lemma_member_index(ms@, key@);
    }
    match find_member(ms, key.as_str()) {
        Some(i) => {
            let ghost x = (key, v);
            proof {
                lemma_mview_update(ms@, i as int, x);
            }
            ms.set(i, (key, v));
        },
        None => {
            let ghost x = (key, v);
            proof {
                lemma_mview_push(ms@, x);
            }
            ms.push((key, v));
        },
    }
}

/// An empty directory node.
pub fn new_dir() -> (v: JsonValue)
    ensures
        jview(v) == empty_dir(),
{
    let inner: Vec<(String, JsonValue)> = Vec::new();
    proof {
        assert(mview(inner@) =~= Seq::<(Seq<char>, Json)>::empty());
    }
    let v = JsonValue::Object(vec![(owned("files"), JsonValue::Object(inner))]);
    proof {
        let m = v->Object_0;
        assert(mview(m@) =~= seq![("files"@, Json::Object(Seq::empty()))]);
    }
    v
}

/// `q` and `c` differ at some position that both have.
pub open spec fn diverge(q: Seq<Seq<char>>, c: Seq<Seq<char>>) -> bool {
    exists|j: int| 0 <= j < q.len() && j < c.len() && q[j] != c[j]
}

/// `q` is a proper, non-empty prefix of `c`.
pub open spec fn proper_prefix(q: Seq<Seq<char>>, c: Seq<Seq<char>>) -> bool {
    &&& 0 < q.len() < c.len()
    &&& forall|i: int| 0 <= i < q.len() ==> q[i] == c[i]
}

/// The node found is a directory, or there is none.
pub open spec fn dir_or_absent(o: Option<Json>) -> bool {
    o matches Some(n) ==> dir_files(n) is Some
}

pub proof fn lemma_jset_jget(ms: Seq<(Seq<char>, Json)>, k: Seq<char>, v: Json, k2: Seq<char>)
    ensures
        jget(jset(ms, k, v), k2) == if k2 == k {
            Some(v)
        } else {
            jget(ms, k2)
        },
{
    lemma_jindex(ms, k);
    lemma_jindex(ms, k2);
    let s = jset(ms, k, v);
    match jindex(ms, k) {
        Some(i) => {
            if k2 == k {
                lemma_jindex_unique(s, k, i);
            } else {
                match jindex(ms, k2) {
                    Some(j) => lemma_jindex_unique(s, k2, j),
                    None => lemma_jindex_none(s, k2),
                }
            }
        },
        None => {
            if k2 == k {
                lemma_jindex_unique(s, k, ms.len() as int);
            } else {
                match jindex(ms, k2) {
                    Some(j) => lemma_jindex_unique(s, k2, j),
                    None => lemma_jindex_none(s, k2),
                }
            }
        },
    }
}

proof fn lemma_with_files(child: Json, f: Seq<(Seq<char>, Json)>)
    requires
        child is Object,
    ensures
        dir_files(with_files(child, f)) == Some(f),
{
    lemma_jset_jget(child->Object_0, "files"@, Json::Object(f), "files"@);
}

pub proof fn lemma_lookup_empty(q: Seq<Seq<char>>)
    ensures
        lookup(Seq::empty(), q) is None,
{
    lemma_jindex_none(Seq::empty(), q[0]);
}

pub proof fn lemma_empty_dir()
    ensures
        dir_files(empty_dir()) == Some(Seq::<(Seq<char>, Json)>::empty()),
{
    lemma_jindex_unique(seq![("files"@, Json::Object(Seq::empty()))], "files"@, 0);
}

/// After storing `leaf` at `c`, looking `c` up finds it.
pub proof fn lemma_insert_then_lookup(files: Seq<(Seq<char>, Json)>, c: Seq<Seq<char>>, leaf: Json)
    requires
        c.len() > 0,
        insert_path(files, c, leaf) is Ok,
    ensures
        lookup(insert_path(files, c, leaf)->Ok_0, c) == Some(leaf),
    decreases c.len(),
{
    let t2 = insert_path(files, c, leaf)->Ok_0;
    if c.len() == 1 {
        lemma_jset_jget(files, c[0], leaf, c[0]);
    } else {
        let child = match jget(files, c[0]) {
            Some(x) => x,
            None => empty_dir(),
        };
        let sub = dir_files(child)->Some_0;
        let sub2 = insert_path(sub, c.drop_first(), leaf)->Ok_0;
        lemma_jset_jget(files, c[0], with_files(child, sub2), c[0]);
        lemma_with_files(child, sub2);
        lemma_insert_then_lookup(sub, c.drop_first(), leaf);
    }
}

/// Storing at `c` leaves every path that diverges from `c` as it was, and
/// makes every proper prefix of `c` a directory.
pub proof fn lemma_insert_frame(files: Seq<(Seq<char>, Json)>, c: Seq<Seq<char>>, leaf: Json, q: Seq<Seq<char>>)
    requires
        insert_path(files, c, leaf) is Ok,
    ensures
        diverge(q, c) ==> lookup(insert_path(files, c, leaf)->Ok_0, q) == lookup(files, q),
        proper_prefix(q, c) ==> dir_or_absent(lookup(insert_path(files, c, leaf)->Ok_0, q))
            && lookup(insert_path(files, c, leaf)->Ok_0, q) is Some,
    decreases c.len(),
{
    let t2 = insert_path(files, c, leaf)->Ok_0;
    if c.len() == 0 {
    } else if c.len() == 1 {
        if q.len() > 0 {
            lemma_jset_jget(files, c[0], leaf, q[0]);
        }
        if diverge(q, c) {
            assert(q[0] != c[0]);
        }
    } else {
        let child = match jget(files, c[0]) {
            Some(x) => x,
            None => empty_dir(),
        };
        let sub = dir_files(child)->Some_0;
        let sub2 = insert_path(sub, c.drop_first(), leaf)->Ok_0;
        lemma_with_files(child, sub2);
        if q.len() > 0 {
            lemma_jset_jget(files, c[0], with_files(child, sub2), q[0]);
        }
        lemma_insert_frame(sub, c.drop_first(), leaf, q.drop_first());
        if diverge(q, c) {
            let j = choose|j: int| 0 <= j < q.len() && j < c.len() && q[j] != c[j];
            if q[0] == c[0] {
                assert(j > 0);
                assert(q.drop_first()[j - 1] != c.drop_first()[j - 1]);
                assert(diverge(q.drop_first(), c.drop_first()));
                if q.len() >= 2 {
                    if jget(files, c[0]) is None {
                        lemma_empty_dir();
                        lemma_lookup_empty(q.drop_first());
                    }
                }
            }
        }
        if proper_prefix(q, c) && q.len() >= 2 {
            assert(proper_prefix(q.drop_first(), c.drop_first()));
        }
    }
}

/// Storing at `c` succeeds when every proper prefix of `c` is a directory or
/// absent.
pub proof fn lemma_insert_ok(files: Seq<(Seq<char>, Json)>, c: Seq<Seq<char>>, leaf: Json)
    requires
        forall|q: Seq<Seq<char>>| proper_prefix(q, c) ==> dir_or_absent(#[trigger] lookup(files, q)),
    ensures
        insert_path(files, c, leaf) is Ok,
    decreases c.len(),
{
    if c.len() >= 2 {
        let q0 = c.take(1);
        assert(proper_prefix(q0, c));
        assert(lookup(files, q0) == jget(files, c[0]));
        let child = match jget(files, c[0]) {
            Some(x) => x,
            None => empty_dir(),
        };
        if jget(files, c[0]) is None {
            lemma_empty_dir();
        }
        let sub = dir_files(child)->Some_0;
        assert forall|q: Seq<Seq<char>>| proper_prefix(q, c.drop_first()) implies dir_or_absent(
            #[trigger] lookup(sub, q),
        ) by {
            let q2 = seq![c[0]] + q;
            assert(proper_prefix(q2, c));
            assert(q2.drop_first() =~= q);
            if jget(files, c[0]) is None {
                lemma_lookup_empty(q);
            } else {
                assert(lookup(files, q2) == lookup(sub, q));
            }
        }
        lemma_insert_ok(sub, c.drop_first(), leaf);
    }
}

pub proof fn lemma_remove_insert<T>(s: Seq<T>, i: int, x: T)
    requires
        0 <= i < s.len(),
    ensures
        s.remove(i).insert(i, x) == s.update(i, x),
{
    assert(s.remove(i).insert(i, x) =~= s.update(i, x));
}

/// Stores `leaf` at the path `comps[i..]` below the children `files`,
/// creating missing directories; or returns the name of the first component
/// on the way that is not a directory.
pub(crate) fn insert_files(files: Vec<(String, JsonValue)>, comps: &Vec<String>, i: usize, leaf: JsonValue) -> (r:
    Result<Vec<(String, JsonValue)>, String>)
    requires
        i <= comps@.len(),
    ensures
        match insert_path(mview(files@), names(comps@).skip(i as int), jview(leaf)) {
            Ok(f) => r matches Ok(x) && mview(x@) == f,
            Err(n) => r matches Err(x) && x@ == n,
        },
    decreases comps@.len() - i,
{
    let ghost cs = names(comps@).skip(i as int);
    let mut files = files;
    if i == comps.len() {
        return Ok(files);
    }
    assert(cs[0] == comps@[i as int]@);
    if i + 1 == comps.len() {
        set_member(&mut files, comps[i].clone(), leaf);
        return Ok(files);
    }
    assert(cs.drop_first() =~= names(comps@).skip(i + 1));
    let name = &comps[i];
    let ghost orig = mview(files@);
    proof {
        lemma_index_view(files@, name@);
        lemma_member_index(files@, name@);
    }
    let idx = match find_member(&files, name.as_str()) {
        Some(k) => k,
        None => {
            let d = new_dir();
            files.push((name.clone(), d));
            files.len() - 1
        },
    };
    let ghost before = files@;
    let (key, child) = files.remove(idx);
    match child {
        JsonValue::Object(mut m) => {
            proof {
                lemma_index_view(m@, "files"@);
                lemma_member_index(m@, "files"@);
            }
            match find_member(&m, "files") {
                Some(fi) => {
                    let ghost mbefore = m@;
                    let (fk, fv) = m.remove(fi);
                    match fv {
                        JsonValue::Object(sub) => {
                            match insert_files(sub, comps, i + 1, leaf) {
                                Ok(sub2) => {
                                    let ghost entry = (fk, JsonValue::Object(sub2));
                                    m.insert(fi, (fk, JsonValue::Object(sub2)));
                                    let ghost node = (key, JsonValue::Object(m));
                                    files.insert(idx, (key, JsonValue::Object(m)));
                                    proof {
                                        lemma_remove_insert(mbefore, fi as int, entry);
                                        lemma_mview_update(mbefore, fi as int, entry);
                                        lemma_remove_insert(before, idx as int, node);
                                        lemma_mview_update(before, idx as int, node);
                                        if orig.len() < before.len() {
                                            lemma_mview_push(files@.drop_last(), node);
                                            assert(files@.drop_last() =~= before.drop_last());
                                            assert(mview(before.drop_last()) =~= orig);
                                        }
                                    }
                                    Ok(files)
                                },
                                Err(e) => Err(e),
                            }
                        },
                        _ => Err(name.clone()),
                    }
                },
                None => Err(name.clone()),
            }
        },
        _ => Err(name.clone()),
    }
}

} // verus!
