//! Paths compared as `std::path` compares them: by their components, in the
//! order of the `Component` kinds (a drive prefix, the root, `.`, `..`, then
//! names), names by their characters. A path is held as pieces joined the
//! way `PathBuf::push` joins them.
//!
//! Components follow `Path::components`: repeated separators are ignored, a
//! trailing separator is dropped, and `.` counts only at the start of a path
//! without a root. On Windows (`win`), `\` is a separator too and a drive
//! letter followed by `:` is a prefix.

use vstd::prelude::*;

use crate::steam::{copy_path, paths_view, pview};
use crate::text::{chars_of, string_of};

verus! {

/// A component of a path.
pub enum Part {
    Prefix(char),
    Root,
    Here,
    Up,
    Name(String),
}

/// A component, its name as characters.
pub enum PartView {
    Prefix(char),
    Root,
    Here,
    Up,
    Name(Seq<char>),
}

pub open spec fn part_view(p: Part) -> PartView {
    match p {
        Part::Prefix(c) => PartView::Prefix(c),
        Part::Root => PartView::Root,
        Part::Here => PartView::Here,
        Part::Up => PartView::Up,
        Part::Name(s) => PartView::Name(s@),
    }
}

pub open spec fn parts_view(ps: Seq<Part>) -> Seq<PartView> {
    ps.map_values(|p: Part| part_view(p))
}

/// Whether `c` separates components.
pub open spec fn is_sep(c: char, win: bool) -> bool {
    c == '/' || (win && c == '\\')
}

pub open spec fn is_letter(c: char) -> bool {
    ('a' <= c && c <= 'z') || ('A' <= c && c <= 'Z')
}

/// Whether `t` begins with a drive prefix such as `C:`.
pub open spec fn has_prefix(t: Seq<char>, win: bool) -> bool {
    win && t.len() >= 2 && is_letter(t[0]) && t[1] == ':'
}

/// Where the part after a drive prefix begins.
pub open spec fn after_prefix(t: Seq<char>, win: bool) -> int {
    if has_prefix(t, win) {
        2
    } else {
        0
    }
}

/// Whether `t` has a root: a separator right after its prefix, if any.
pub open spec fn has_root(t: Seq<char>, win: bool) -> bool {
    after_prefix(t, win) < t.len() && is_sep(t[after_prefix(t, win)], win)
}

/// Whether pushing `t` replaces the path it is pushed onto.
pub open spec fn starts_absolute(t: Seq<char>, win: bool) -> bool {
    (t.len() > 0 && is_sep(t[0], win)) || has_prefix(t, win)
}

/// The text of the path made of the pieces `ps`, each pushed onto the
/// ones before.
pub open spec fn join_pieces(ps: Seq<Seq<char>>, win: bool) -> Seq<char>
    decreases ps.len(),
{
    if ps.len() == 0 {
        seq![]
    } else {
        let acc = join_pieces(ps.drop_last(), win);
        if acc.len() == 0 || starts_absolute(ps.last(), win) {
            ps.last()
        } else {
            acc + seq!['/'] + ps.last()
        }
    }
}

/// The components before the first name: the prefix and the root.
pub open spec fn head_parts(t: Seq<char>, win: bool) -> Seq<PartView> {
    (if has_prefix(t, win) {
        seq![PartView::Prefix(t[0])]
    } else {
        seq![]
    }) + (if has_root(t, win) {
        seq![PartView::Root]
    } else {
        seq![]
    })
}

/// Where the names of `t` begin.
pub open spec fn head_len(t: Seq<char>, win: bool) -> int {
    after_prefix(t, win) + if has_root(t, win) {
        1int
    } else {
        0
    }
}

/// The components `parts` after the segment `seg` ends; `lead` tells
/// whether a `.` still counts.
pub open spec fn flush(parts: Seq<PartView>, seg: Seq<char>, lead: bool) -> (Seq<PartView>, bool) {
    if seg.len() == 0 {
        (parts, lead)
    } else if seg == seq!['.'] {
        if lead {
            (parts.push(PartView::Here), false)
        } else {
            (parts, false)
        }
    } else if seg == seq!['.', '.'] {
        (parts.push(PartView::Up), false)
    } else {
        (parts.push(PartView::Name(seg)), false)
    }
}

/// The components found, the segment being read and whether a `.` still
/// counts, after reading the first `n` characters of `t`.
pub open spec fn scan(t: Seq<char>, win: bool, n: int, parts0: Seq<PartView>, lead0: bool) -> (
    Seq<PartView>,
    Seq<char>,
    bool,
)
    decreases n,
{
    if n <= 0 {
        (parts0, seq![], lead0)
    } else {
        let s = scan(t, win, n - 1, parts0, lead0);
        if is_sep(t[n - 1], win) {
            let f = flush(s.0, s.1, s.2);
            (f.0, seq![], f.1)
        } else {
            (s.0, s.1.push(t[n - 1]), s.2)
        }
    }
}

/// The components of the path text `t`.
pub open spec fn parts_of(t: Seq<char>, win: bool) -> Seq<PartView> {
    let body = t.skip(head_len(t, win));
    let s = scan(body, win, body.len() as int, head_parts(t, win), !has_root(t, win));
    flush(s.0, s.1, s.2).0
}

/// The components of the path made of the pieces `p`.
#[verifier::opaque]
pub open spec fn path_key(p: Seq<Seq<char>>, win: bool) -> Seq<PartView> {
    parts_of(join_pieces(p, win), win)
}

// ---------------------------------------------------------------------------
// The order

/// `a` comes before `b`, comparing from position `i` on.
pub open spec fn chars_lt_from(a: Seq<char>, b: Seq<char>, i: int) -> bool
    decreases a.len() - i,
{
    if i < 0 || i >= a.len() {
        i >= 0 && i < b.len()
    } else if i >= b.len() {
        false
    } else if a[i] != b[i] {
        a[i] < b[i]
    } else {
        chars_lt_from(a, b, i + 1)
    }
}

/// `a` comes before `b` in the order of their characters.
pub open spec fn chars_lt(a: Seq<char>, b: Seq<char>) -> bool {
    chars_lt_from(a, b, 0)
}

pub open spec fn rank(p: PartView) -> int {
    match p {
        PartView::Prefix(_) => 0,
        PartView::Root => 1,
        PartView::Here => 2,
        PartView::Up => 3,
        PartView::Name(_) => 4,
    }
}

/// The component `a` comes before `b`.
pub open spec fn part_lt(a: PartView, b: PartView) -> bool {
    if rank(a) != rank(b) {
        rank(a) < rank(b)
    } else {
        match (a, b) {
            (PartView::Prefix(x), PartView::Prefix(y)) => x < y,
            (PartView::Name(x), PartView::Name(y)) => chars_lt(x, y),
            _ => false,
        }
    }
}

/// The components `a` come before `b`, comparing from position `i` on.
pub open spec fn key_lt_from(a: Seq<PartView>, b: Seq<PartView>, i: int) -> bool
    decreases a.len() - i,
{
    if i < 0 || i >= a.len() {
        i >= 0 && i < b.len()
    } else if i >= b.len() {
        false
    } else if a[i] != b[i] {
        part_lt(a[i], b[i])
    } else {
        key_lt_from(a, b, i + 1)
    }
}

/// The path with components `a` comes before the one with components `b`.
#[verifier::opaque]
pub open spec fn key_lt(a: Seq<PartView>, b: Seq<PartView>) -> bool {
    key_lt_from(a, b, 0)
}

proof fn lemma_chars_irrefl(a: Seq<char>, i: int)
    requires
        0 <= i,
    ensures
        !chars_lt_from(a, a, i),
    decreases a.len() - i,
{
    if i < a.len() {
        lemma_chars_irrefl(a, i + 1);
    }
}

proof fn lemma_chars_asym(a: Seq<char>, b: Seq<char>, i: int)
    requires
        0 <= i,
    ensures
        chars_lt_from(a, b, i) ==> !chars_lt_from(b, a, i),
    decreases a.len() - i,
{
    if i < a.len() && i < b.len() && a[i] == b[i] {
        lemma_chars_asym(a, b, i + 1);
    }
}

proof fn lemma_chars_total(a: Seq<char>, b: Seq<char>, i: int)
    requires
        0 <= i <= a.len(),
        i <= b.len(),
    ensures
        chars_lt_from(a, b, i) || chars_lt_from(b, a, i) || a.skip(i) =~= b.skip(i),
    decreases a.len() - i,
{
    if i < a.len() && i < b.len() && a[i] == b[i] {
        lemma_chars_total(a, b, i + 1);
        if a.skip(i + 1) =~= b.skip(i + 1) {
            assert forall|j: int| 0 <= j < a.skip(i).len() implies a.skip(i)[j] == b.skip(i)[j] by {
                if j > 0 {
                    assert(a.skip(i)[j] == a.skip(i + 1)[j - 1]);
                    assert(b.skip(i)[j] == b.skip(i + 1)[j - 1]);
                }
            }
        }
    }
}

proof fn lemma_chars_trans(a: Seq<char>, b: Seq<char>, c: Seq<char>, i: int)
    requires
        0 <= i,
    ensures
        chars_lt_from(a, b, i) && chars_lt_from(b, c, i) ==> chars_lt_from(a, c, i),
    decreases a.len() - i,
{
    if i < a.len() && i < b.len() && i < c.len() && a[i] == b[i] && b[i] == c[i] {
        lemma_chars_trans(a, b, c, i + 1);
    }
}

/// The order of characters is a strict total order.
pub proof fn lemma_chars_lt(a: Seq<char>, b: Seq<char>, c: Seq<char>)
    ensures
        !chars_lt(a, a),
        chars_lt(a, b) ==> !chars_lt(b, a),
        a == b || chars_lt(a, b) || chars_lt(b, a),
        chars_lt(a, b) && chars_lt(b, c) ==> chars_lt(a, c),
{
    lemma_chars_irrefl(a, 0);
    lemma_chars_asym(a, b, 0);
    lemma_chars_total(a, b, 0);
    lemma_chars_trans(a, b, c, 0);
    assert(a.skip(0) =~= a);
    assert(b.skip(0) =~= b);
}

proof fn lemma_part_lt(a: PartView, b: PartView, c: PartView)
    ensures
        !part_lt(a, a),
        part_lt(a, b) ==> !part_lt(b, a),
        a == b || part_lt(a, b) || part_lt(b, a),
        part_lt(a, b) && part_lt(b, c) ==> part_lt(a, c),
{
    match (a, b, c) {
        (PartView::Name(x), PartView::Name(y), PartView::Name(z)) => lemma_chars_lt(x, y, z),
        (PartView::Name(x), PartView::Name(y), _) => lemma_chars_lt(x, y, y),
        (PartView::Name(x), _, PartView::Name(z)) => lemma_chars_lt(x, z, z),
        (_, PartView::Name(y), PartView::Name(z)) => lemma_chars_lt(y, z, z),
        (PartView::Name(x), _, _) => lemma_chars_lt(x, x, x),
        _ => {},
    }
}

proof fn lemma_key_irrefl(a: Seq<PartView>, i: int)
    requires
        0 <= i,
    ensures
        !key_lt_from(a, a, i),
    decreases a.len() - i,
{
    if i < a.len() {
        lemma_key_irrefl(a, i + 1);
    }
}

proof fn lemma_key_asym(a: Seq<PartView>, b: Seq<PartView>, i: int)
    requires
        0 <= i,
    ensures
        key_lt_from(a, b, i) ==> !key_lt_from(b, a, i),
    decreases a.len() - i,
{
    if i < a.len() && i < b.len() {
        lemma_part_lt(a[i], b[i], b[i]);
        if a[i] == b[i] {
            lemma_key_asym(a, b, i + 1);
        }
    }
}

proof fn lemma_key_total(a: Seq<PartView>, b: Seq<PartView>, i: int)
    requires
        0 <= i <= a.len(),
        i <= b.len(),
    ensures
        key_lt_from(a, b, i) || key_lt_from(b, a, i) || a.skip(i) =~= b.skip(i),
    decreases a.len() - i,
{
    if i < a.len() && i < b.len() {
        lemma_part_lt(a[i], b[i], b[i]);
        if a[i] == b[i] {
            lemma_key_total(a, b, i + 1);
            if a.skip(i + 1) =~= b.skip(i + 1) {
                assert forall|j: int| 0 <= j < a.skip(i).len() implies a.skip(i)[j] == b.skip(i)[j] by {
                    if j > 0 {
                        assert(a.skip(i)[j] == a.skip(i + 1)[j - 1]);
                        assert(b.skip(i)[j] == b.skip(i + 1)[j - 1]);
                    }
                }
            }
        }
    }
}

proof fn lemma_key_trans(a: Seq<PartView>, b: Seq<PartView>, c: Seq<PartView>, i: int)
    requires
        0 <= i,
    ensures
        key_lt_from(a, b, i) && key_lt_from(b, c, i) ==> key_lt_from(a, c, i),
    decreases a.len() - i,
{
    if i < a.len() && i < b.len() && i < c.len() {
        lemma_part_lt(a[i], b[i], c[i]);
        lemma_part_lt(a[i], c[i], c[i]);
        lemma_part_lt(b[i], c[i], c[i]);
        if a[i] == b[i] && b[i] == c[i] {
            lemma_key_trans(a, b, c, i + 1);
        }
    }
}

/// The order of paths is a strict total order.
pub proof fn lemma_key_lt(a: Seq<PartView>, b: Seq<PartView>, c: Seq<PartView>)
    ensures
        !key_lt(a, a),
        key_lt(a, b) ==> !key_lt(b, a),
        a == b || key_lt(a, b) || key_lt(b, a),
        key_lt(a, b) && key_lt(b, c) ==> key_lt(a, c),
{
    reveal(key_lt);
    lemma_key_irrefl(a, 0);
    lemma_key_asym(a, b, 0);
    lemma_key_total(a, b, 0);
    lemma_key_trans(a, b, c, 0);
    assert(a.skip(0) =~= a);
    assert(b.skip(0) =~= b);
}

// ---------------------------------------------------------------------------
// Computing components

fn sep(c: char, win: bool) -> (r: bool)
    ensures
        r == is_sep(c, win),
{
    c == '/' || (win && c == '\\')
}

fn starts_with_prefix(t: &Vec<char>, win: bool) -> (r: bool)
    ensures
        r == has_prefix(t@, win),
{
    win && t.len() >= 2 && (('a' <= t[0] && t[0] <= 'z') || ('A' <= t[0] && t[0] <= 'Z')) && t[1] == ':'
}

fn append_chars(t: &mut Vec<char>, cs: &Vec<char>)
    ensures
        final(t)@ == old(t)@ + cs@,
{
    let mut i: usize = 0;
    while i < cs.len()
        invariant
            i <= cs@.len(),
            t@ == old(t)@ + cs@.take(i as int),
        decreases cs.len() - i,
    {
        t.push(cs[i]);
        i += 1;
        assert(t@ =~= old(t)@ + cs@.take(i as int));
    }
    assert(cs@.take(cs@.len() as int) =~= cs@);
}

/// The text of the path made of the pieces `p`.
fn join_chars(p: &Vec<String>, win: bool) -> (t: Vec<char>)
    ensures
        t@ == join_pieces(pview(*p), win),
{
    let mut t: Vec<char> = Vec::new();
    let mut i: usize = 0;
    while i < p.len()
        invariant
            i <= p@.len(),
            t@ == join_pieces(pview(*p).take(i as int), win),
        decreases p.len() - i,
    {
        let cs = chars_of(p[i].as_str());
        let abs = (cs.len() > 0 && sep(cs[0], win)) || starts_with_prefix(&cs, win);
        proof {
            let ps = pview(*p).take(i + 1);
            assert(ps.drop_last() =~= pview(*p).take(i as int));
            assert(ps.last() == p@[i as int]@);
        }
        if t.len() == 0 || abs {
            t = cs;
        } else {
            t.push('/');
            append_chars(&mut t, &cs);
        }
        i += 1;
    }
    assert(pview(*p).take(p@.len() as int) =~= pview(*p));
    t
}

/// Ends the segment `seg`: `parts` and `lead` as `flush` gives them.
fn flush_segment(parts: &mut Vec<Part>, seg: &Vec<char>, lead: &mut bool)
    ensures
        (parts_view(final(parts)@), *final(lead)) == flush(parts_view(old(parts)@), seg@, *old(lead)),
{
    let ghost before = parts@;
    if seg.len() == 0 {
        return;
    }
    if seg.len() == 1 && seg[0] == '.' {
        assert(seg@ =~= seq!['.']);
        if *lead {
            parts.push(Part::Here);
            assert(parts_view(parts@) =~= parts_view(before).push(PartView::Here));
        }
        *lead = false;
        return;
    }
    assert(seg@ != seq!['.']);
    if seg.len() == 2 && seg[0] == '.' && seg[1] == '.' {
        assert(seg@ =~= seq!['.', '.']);
        parts.push(Part::Up);
        assert(parts_view(parts@) =~= parts_view(before).push(PartView::Up));
        *lead = false;
        return;
    }
    assert(seg@ != seq!['.', '.']);
    let name = string_of(seg.as_slice());
    parts.push(Part::Name(name));
    assert(parts_view(parts@) =~= parts_view(before).push(PartView::Name(seg@)));
    *lead = false;
}

/// The components of the path text `t`.
fn parts_of_chars(t: &Vec<char>, win: bool) -> (r: Vec<Part>)
    ensures
        parts_view(r@) == parts_of(t@, win),
{
    let mut parts: Vec<Part> = Vec::new();
    let mut i: usize = 0;
    if starts_with_prefix(t, win) {
        parts.push(Part::Prefix(t[0]));
        i = 2;
    }
    let root = i < t.len() && sep(t[i], win);
    if root {
        parts.push(Part::Root);
        i += 1;
    }
    let ghost h = i as int;
    let ghost body = t@.skip(h);
    let ghost hp = head_parts(t@, win);
    assert(h == head_len(t@, win));
    assert(parts_view(parts@) =~= hp);
    let mut seg: Vec<char> = Vec::new();
    let mut lead = !root;
    while i < t.len()
        invariant
            0 <= h <= i <= t@.len(),
            body == t@.skip(h),
            scan(body, win, i - h, hp, !has_root(t@, win)).0 == parts_view(parts@),
            scan(body, win, i - h, hp, !has_root(t@, win)).1 == seg@,
            scan(body, win, i - h, hp, !has_root(t@, win)).2 == lead,
        decreases t.len() - i,
    {
        let c = t[i];
        assert(body.len() == t@.len() - h);
        assert(t@.skip(h)[i - h] == t@[i as int]);
        assert(body[i - h] == c);
        if sep(c, win) {
            flush_segment(&mut parts, &seg, &mut lead);
            seg = Vec::new();
        } else {
            seg.push(c);
        }
        i += 1;
    }
    assert(body.len() == i - h);
    flush_segment(&mut parts, &seg, &mut lead);
    parts
}

/// The components of the path made of the pieces `p`.
pub fn key_of(p: &Vec<String>, win: bool) -> (r: Vec<Part>)
    ensures
        parts_view(r@) == path_key(pview(*p), win),
{
    reveal(path_key);
    let t = join_chars(p, win);
    parts_of_chars(&t, win)
}

// ---------------------------------------------------------------------------
// Comparing

/// Negative, zero or positive as `a` comes before, equals or comes after `b`.
fn compare_chars(a: &Vec<char>, b: &Vec<char>) -> (r: i8)
    ensures
        (r < 0) == chars_lt(a@, b@),
        (r == 0) == (a@ == b@),
        (r > 0) == chars_lt(b@, a@),
{
    proof {
        lemma_chars_lt(a@, b@, b@);
    }
    let mut i: usize = 0;
    while i < a.len() && i < b.len() && a[i] == b[i]
        invariant
            i <= a@.len(),
            i <= b@.len(),
            forall|j: int| 0 <= j < i ==> a@[j] == b@[j],
            chars_lt(a@, b@) == chars_lt_from(a@, b@, i as int),
            chars_lt(b@, a@) == chars_lt_from(b@, a@, i as int),
        decreases a.len() - i,
    {
        i += 1;
    }
    if i < a.len() && i < b.len() {
        if a[i] < b[i] {
            -1
        } else {
            1
        }
    } else if i < b.len() {
        -1
    } else if i < a.len() {
        1
    } else {
        assert(a@ =~= b@);
        0
    }
}

fn rank_of(p: &Part) -> (r: u8)
    ensures
        r == rank(part_view(*p)),
{
    match p {
        Part::Prefix(_) => 0,
        Part::Root => 1,
        Part::Here => 2,
        Part::Up => 3,
        Part::Name(_) => 4,
    }
}

/// Negative, zero or positive as the component `a` comes before, equals or
/// comes after `b`.
fn compare_parts(a: &Part, b: &Part) -> (r: i8)
    ensures
        (r < 0) == part_lt(part_view(*a), part_view(*b)),
        (r == 0) == (part_view(*a) == part_view(*b)),
        (r > 0) == part_lt(part_view(*b), part_view(*a)),
{
    proof {
        lemma_part_lt(part_view(*a), part_view(*b), part_view(*b));
    }
    let ra = rank_of(a);
    let rb = rank_of(b);
    if ra < rb {
        return -1;
    }
    if rb < ra {
        return 1;
    }
    match (a, b) {
        (Part::Prefix(x), Part::Prefix(y)) => {
            if *x < *y {
                -1
            } else if *y < *x {
                1
            } else {
                0
            }
        },
        (Part::Name(x), Part::Name(y)) => {
            let xs = chars_of(x.as_str());
            let ys = chars_of(y.as_str());
            compare_chars(&xs, &ys)
        },
        _ => 0,
    }
}

/// The view of a list of keys.
pub open spec fn keys_view(ks: Seq<Vec<Part>>) -> Seq<Seq<PartView>> {
    ks.map_values(|k: Vec<Part>| parts_view(k@))
}

/// Negative, zero or positive as the path with components `a` comes before,
/// equals or comes after the one with components `b`.
fn compare_keys(a: &Vec<Part>, b: &Vec<Part>) -> (r: i8)
    ensures
        (r < 0) == key_lt(parts_view(a@), parts_view(b@)),
        (r == 0) == (parts_view(a@) == parts_view(b@)),
        (r > 0) == key_lt(parts_view(b@), parts_view(a@)),
{
    let ghost av = parts_view(a@);
    let ghost bv = parts_view(b@);
    proof {
        lemma_key_lt(av, bv, bv);
        reveal(key_lt);
    }
    let mut i: usize = 0;
    while i < a.len() && i < b.len()
        invariant
            av == parts_view(a@),
            bv == parts_view(b@),
            i <= a@.len(),
            i <= b@.len(),
            forall|j: int| 0 <= j < i ==> av[j] == bv[j],
            key_lt(av, bv) == key_lt_from(av, bv, i as int),
            key_lt(bv, av) == key_lt_from(bv, av, i as int),
            !key_lt(av, bv) || !key_lt(bv, av),
            av == bv || key_lt(av, bv) || key_lt(bv, av),
            !key_lt(av, av),
        decreases a.len() - i,
    {
        let c = compare_parts(&a[i], &b[i]);
        assert(av[i as int] == part_view(a@[i as int]));
        assert(bv[i as int] == part_view(b@[i as int]));
        if c != 0 {
            if c < 0 {
                return -1;
            } else {
                return 1;
            }
        }
        i += 1;
    }
    if i < b.len() {
        -1
    } else if i < a.len() {
        1
    } else {
        assert(av =~= bv);
        0
    }
}

/// The path `ps[k]` is the first of `ps` with its components.
pub open spec fn first_of_key(ps: Seq<Seq<Seq<char>>>, k: int, win: bool) -> bool {
    forall|j: int| 0 <= j < k ==> path_key(#[trigger] ps[j], win) != path_key(ps[k], win)
}

/// `p` is among the first `k` paths of `ps`, the first there with its
/// components.
pub open spec fn listed_before(ps: Seq<Seq<Seq<char>>>, k: int, p: Seq<Seq<char>>, win: bool) -> bool {
    exists|k2: int| 0 <= k2 < k && first_of_key(ps, k2, win) && p == #[trigger] ps[k2]
}

/// Some path of `out` has the components of `p`.
pub open spec fn key_held(out: Seq<Seq<Seq<char>>>, p: Seq<Seq<char>>, win: bool) -> bool {
    exists|i: int| 0 <= i < out.len() && path_key(#[trigger] out[i], win) == path_key(p, win)
}

/// `out` holds the paths `ps` as `std` holds them in an ordered set of
/// paths: strictly increasing in the order of paths, one path for each
/// distinct path of `ps` (the first of `ps` with its components), and no
/// other.
pub open spec fn is_path_set(out: Seq<Seq<Seq<char>>>, ps: Seq<Seq<Seq<char>>>, win: bool) -> bool {
    &&& forall|i: int, j: int|
        #![trigger out[i], out[j]]
        0 <= i < j < out.len() ==> key_lt(path_key(out[i], win), path_key(out[j], win))
    &&& forall|i: int| 0 <= i < out.len() ==> listed_before(ps, ps.len() as int, #[trigger] out[i], win)
    &&& forall|k: int| 0 <= k < ps.len() ==> key_held(out, #[trigger] ps[k], win)
}

/// `ov` and their components `kv` are the ordered set of the first `k`
/// paths of `ps`.
#[verifier::opaque]
pub open spec fn set_so_far(
    ov: Seq<Seq<Seq<char>>>,
    kv: Seq<Seq<PartView>>,
    ps: Seq<Seq<Seq<char>>>,
    k: int,
    win: bool,
) -> bool {
    &&& 0 <= k <= ps.len()
    &&& ov.len() == kv.len()
    &&& forall|i: int| 0 <= i < ov.len() ==> #[trigger] kv[i] == path_key(ov[i], win)
    &&& forall|i: int, j: int|
        #![trigger kv[i], kv[j]]
        0 <= i < j < kv.len() ==> key_lt(kv[i], kv[j])
    &&& forall|i: int| 0 <= i < ov.len() ==> listed_before(ps, k, #[trigger] ov[i], win)
    &&& forall|k2: int|
        #![trigger ps[k2]]
        0 <= k2 < k ==> exists|i: int|
            0 <= i < kv.len() && #[trigger] kv[i] == path_key(#[trigger] ps[k2], win)
}

/// Adding the path `ps[k]`, whose components are new, at its place `j`.
#[verifier::spinoff_prover]
#[verifier::rlimit(80)]
proof fn lemma_insert_new(
    ov: Seq<Seq<Seq<char>>>,
    kv: Seq<Seq<PartView>>,
    ps: Seq<Seq<Seq<char>>>,
    k: int,
    j: int,
    key_v: Seq<PartView>,
    win: bool,
)
    requires
        set_so_far(ov, kv, ps, k, win),
        k < ps.len(),
        0 <= j <= kv.len(),
        key_v == path_key(ps[k], win),
        forall|i: int| 0 <= i < j ==> key_lt(#[trigger] kv[i], key_v),
        j < kv.len() ==> key_lt(key_v, kv[j]),
    ensures
        set_so_far(ov.insert(j, ps[k]), kv.insert(j, key_v), ps, k + 1, win),
{
    reveal(set_so_far);
    assert forall|i: int| 0 <= i < kv.len() implies #[trigger] kv[i] != key_v by {
        lemma_key_lt(kv[i], key_v, key_v);
        if i >= j {
            lemma_key_lt(key_v, kv[j], kv[i]);
            lemma_key_lt(kv[i], kv[i], kv[i]);
        }
    }
    assert forall|k2: int| 0 <= k2 < k implies path_key(#[trigger] ps[k2], win) != path_key(ps[k], win) by {
        let i = choose|i: int| 0 <= i < kv.len() && #[trigger] kv[i] == path_key(ps[k2], win);
        assert(kv[i] != key_v);
    }
    assert(first_of_key(ps, k, win));
    let nov = ov.insert(j, ps[k]);
    let nkv = kv.insert(j, key_v);
    assert forall|i: int, m: int| #![trigger nkv[i], nkv[m]] 0 <= i < m < nkv.len() implies key_lt(
        nkv[i],
        nkv[m],
    ) by {
        if m == j {
            assert(nkv[i] == kv[i]);
        } else if i == j {
            assert(nkv[m] == kv[m - 1]);
            lemma_key_lt(key_v, kv[j], kv[m - 1]);
            if m - 1 > j {
                assert(key_lt(kv[j], kv[m - 1]));
            }
        } else {
            let i0 = if i < j {
                i
            } else {
                i - 1
            };
            let m0 = if m < j {
                m
            } else {
                m - 1
            };
            assert(nkv[i] == kv[i0] && nkv[m] == kv[m0]);
            assert(key_lt(kv[i0], kv[m0]));
        }
    }
    assert forall|i: int| 0 <= i < nov.len() implies #[trigger] nkv[i] == path_key(nov[i], win) by {
        if i < j {
            assert(nkv[i] == kv[i] && nov[i] == ov[i]);
        } else if i > j {
            assert(nkv[i] == kv[i - 1] && nov[i] == ov[i - 1]);
        }
    }
    assert forall|i: int| 0 <= i < nov.len() implies listed_before(ps, k + 1, #[trigger] nov[i], win) by {
        if i == j {
            assert(nov[i] == ps[k]);
        } else {
            let i0 = if i < j {
                i
            } else {
                i - 1
            };
            assert(nov[i] == ov[i0]);
            assert(listed_before(ps, k, ov[i0], win));
            let k2 = choose|k2: int| 0 <= k2 < k && first_of_key(ps, k2, win) && ov[i0] == #[trigger] ps[k2];
            assert(nov[i] == ps[k2]);
        }
    }
    assert forall|k2: int| 0 <= k2 < k + 1 implies exists|i: int|
        0 <= i < nkv.len() && #[trigger] nkv[i] == path_key(#[trigger] ps[k2], win) by {
        if k2 == k {
            assert(nkv[j] == path_key(ps[k2], win));
        } else {
            let i = choose|i: int| 0 <= i < kv.len() && #[trigger] kv[i] == path_key(ps[k2], win);
            if i < j {
                assert(nkv[i] == kv[i]);
            } else {
                assert(nkv[i + 1] == kv[i]);
            }
        }
    }
}

/// Passing over the path `ps[k]`, whose components are already held.
proof fn lemma_skip_known(
    ov: Seq<Seq<Seq<char>>>,
    kv: Seq<Seq<PartView>>,
    ps: Seq<Seq<Seq<char>>>,
    k: int,
    j: int,
    win: bool,
)
    requires
        set_so_far(ov, kv, ps, k, win),
        k < ps.len(),
        0 <= j < kv.len(),
        kv[j] == path_key(ps[k], win),
    ensures
        set_so_far(ov, kv, ps, k + 1, win),
{
    reveal(set_so_far);
    assert forall|i: int| 0 <= i < ov.len() implies listed_before(ps, k + 1, #[trigger] ov[i], win) by {
        assert(listed_before(ps, k, ov[i], win));
        let k2 = choose|k2: int| 0 <= k2 < k && first_of_key(ps, k2, win) && ov[i] == #[trigger] ps[k2];
        assert(ov[i] == ps[k2]);
    }
}

proof fn lemma_set_done(ov: Seq<Seq<Seq<char>>>, kv: Seq<Seq<PartView>>, ps: Seq<Seq<Seq<char>>>, win: bool)
    requires
        set_so_far(ov, kv, ps, ps.len() as int, win),
    ensures
        is_path_set(ov, ps, win),
{
    reveal(set_so_far);
    assert forall|i: int, j: int| #![trigger ov[i], ov[j]] 0 <= i < j < ov.len() implies key_lt(
        path_key(ov[i], win),
        path_key(ov[j], win),
    ) by {
        assert(kv[i] == path_key(ov[i], win));
        assert(kv[j] == path_key(ov[j], win));
    }
    assert forall|k2: int| 0 <= k2 < ps.len() implies key_held(ov, #[trigger] ps[k2], win) by {
        let i = choose|i: int| 0 <= i < kv.len() && #[trigger] kv[i] == path_key(ps[k2], win);
        assert(kv[i] == path_key(ov[i], win));
    }
}

/// The paths `paths`, ordered as `std` orders paths, each distinct path
/// once: the first of `paths` with its components.
pub fn path_set(paths: &Vec<Vec<String>>, win: bool) -> (r: Vec<Vec<String>>)
    ensures
        is_path_set(paths_view(r), paths_view(*paths), win),
{
    let ghost ps = paths_view(*paths);
    let mut out: Vec<Vec<String>> = Vec::new();
    let mut keys: Vec<Vec<Part>> = Vec::new();
    let mut k: usize = 0;
    assert(paths_view(out) =~= Seq::<Seq<Seq<char>>>::empty());
    assert(keys_view(keys@) =~= Seq::<Seq<PartView>>::empty());
    proof {
        reveal(set_so_far);
    }
    while k < paths.len()
        invariant
            ps == paths_view(*paths),
            out@.len() == keys@.len(),
            set_so_far(paths_view(out), keys_view(keys@), ps, k as int, win),
        decreases paths.len() - k,
    {
        let key = key_of(&paths[k], win);
        let ghost kv = keys_view(keys@);
        let ghost ov = paths_view(out);
        let ghost key_v = parts_view(key@);
        assert(ps[k as int] == pview(paths@[k as int]));
        let mut j: usize = 0;
        while j < keys.len() && compare_keys(&keys[j], &key) < 0
            invariant
                kv == keys_view(keys@),
                key_v == parts_view(key@),
                j <= keys@.len(),
                forall|i: int| 0 <= i < j ==> key_lt(#[trigger] kv[i], key_v),
            decreases keys.len() - j,
        {
            assert(kv[j as int] == parts_view(keys@[j as int]@));
            j += 1;
        }
        let same = j < keys.len() && compare_keys(&keys[j], &key) == 0;
        if j < keys.len() {
            assert(kv[j as int] == parts_view(keys@[j as int]@));
        }
        if !same {
            proof {
                lemma_insert_new(ov, kv, ps, k as int, j as int, key_v, win);
            }
            let p = copy_path(&paths[k]);
            out.insert(j, p);
            keys.insert(j, key);
            assert(paths_view(out) =~= ov.insert(j as int, ps[k as int]));
            assert(keys_view(keys@) =~= kv.insert(j as int, key_v));
        } else {
            proof {
                lemma_skip_known(ov, kv, ps, k as int, j as int, win);
            }
        }
        k += 1;
    }
    proof {
        lemma_set_done(paths_view(out), keys_view(keys@), ps, win);
    }
    out
}

} // verus!
