//! Basename wildcard matching: `*` matches any run of bytes, `?` any one
//! byte, every other byte itself.

use vstd::prelude::*;
use vstd::utf8::encode_utf8;

verus! {

/// A state of the matcher: the next pattern byte `pi`, the next text byte
/// `ti`, and the last `*` seen (`star`) with the text position it was last
/// tried from (`st`).
pub open spec fn state_ok(p: Seq<u8>, t: Seq<u8>, pi: int, ti: int, star: Option<int>, st: int) -> bool {
    &&& 0 <= pi <= p.len()
    &&& 0 <= ti <= t.len()
    &&& 0 <= st <= ti
    &&& (star matches Some(sp) ==> 0 <= sp < p.len() && p[sp] == 42u8)
}

/// The remaining pattern from `pi` on is all `*`.
pub open spec fn only_stars(p: Seq<u8>, pi: int) -> bool {
    forall|k: int| pi <= k < p.len() ==> p[k] == 42u8
}

/// The answer the matcher reaches from a state: it consumes the text left
/// to right, takes a pattern byte that equals the text byte (or is `?`) as a
/// one-byte match, records a `*` and first lets it match nothing, and on a
/// mismatch lets the last `*` absorb one more byte and resumes after it.
pub open spec fn scan(p: Seq<u8>, t: Seq<u8>, pi: int, ti: int, star: Option<int>, st: int) -> bool
    decreases (t.len() + 1 - (if star is Some { st } else { -1 })) as nat, (t.len() - ti) as nat, (
    p.len() - pi) as nat,
    when state_ok(p, t, pi, ti, star, st)
{
    if ti >= t.len() {
        only_stars(p, pi)
    } else if pi < p.len() && (p[pi] == 63u8 || p[pi] == t[ti]) {
        scan(p, t, pi + 1, ti + 1, star, st)
    } else if pi < p.len() && p[pi] == 42u8 {
        scan(p, t, pi + 1, ti, Some(pi), ti)
    } else if let Some(sp) = star {
        scan(p, t, sp + 1, st + 1, star, st + 1)
    } else {
        false
    }
}

/// Whether the text bytes `t` match the pattern bytes `p`.
pub open spec fn glob_accepts(p: Seq<u8>, t: Seq<u8>) -> bool {
    scan(p, t, 0, 0, None, 0)
}

/// Wildcard matching of the pattern from byte `i` against the text from byte
/// `j`: `*` matches any run of bytes, `?` any one byte, any other byte itself.
pub open spec fn wild(p: Seq<u8>, t: Seq<u8>, i: int, j: int) -> bool
    decreases (p.len() - i) + (t.len() - j),
    when 0 <= i <= p.len() && 0 <= j <= t.len()
{
    if i >= p.len() {
        j >= t.len()
    } else if p[i] == 42u8 {
        wild(p, t, i + 1, j) || (j < t.len() && wild(p, t, i, j + 1))
    } else {
        j < t.len() && (p[i] == 63u8 || p[i] == t[j]) && wild(p, t, i + 1, j + 1)
    }
}

/// The whole text `t` matches the whole pattern `p`.
pub open spec fn wildcard(p: Seq<u8>, t: Seq<u8>) -> bool {
    wild(p, t, 0, 0)
}

/// `t` holds no `*` byte.
pub open spec fn star_free(t: Seq<u8>) -> bool {
    forall|k: int| 0 <= k < t.len() ==> t[k] != 42u8
}

/// A `*` at `i` matches from `j` exactly when the rest of the pattern matches
/// from some later position.
proof fn lemma_star(p: Seq<u8>, t: Seq<u8>, i: int, j: int)
    requires
        0 <= i < p.len(),
        p[i] == 42u8,
        0 <= j <= t.len(),
    ensures
        wild(p, t, i, j) == exists|k: int| j <= k <= t.len() && #[trigger] wild(p, t, i + 1, k),
    decreases t.len() - j,
{
    if j < t.len() {
        lemma_star(p, t, i, j + 1);
        assert(wild(p, t, i, j) == (wild(p, t, i + 1, j) || wild(p, t, i, j + 1)));
        if wild(p, t, i + 1, j) {
            assert(j <= j <= t.len() && wild(p, t, i + 1, j));
        }
        if wild(p, t, i, j + 1) {
            let k = choose|k: int| j + 1 <= k <= t.len() && #[trigger] wild(p, t, i + 1, k);
            assert(j <= k <= t.len() && wild(p, t, i + 1, k));
        }
        if exists|k: int| j <= k <= t.len() && #[trigger] wild(p, t, i + 1, k) {
            let k = choose|k: int| j <= k <= t.len() && #[trigger] wild(p, t, i + 1, k);
            if k > j {
                assert(j + 1 <= k <= t.len() && wild(p, t, i + 1, k));
                assert(wild(p, t, i, j + 1));
            }
        }
    } else {
        assert(wild(p, t, i, j) == wild(p, t, i + 1, j));
        if wild(p, t, i + 1, j) {
            assert(j <= j <= t.len() && wild(p, t, i + 1, j));
        }
        if exists|k: int| j <= k <= t.len() && #[trigger] wild(p, t, i + 1, k) {
            let k = choose|k: int| j <= k <= t.len() && #[trigger] wild(p, t, i + 1, k);
            assert(k == j);
        }
    }
}

/// At the end of the text the pattern matches exactly when only `*` remain.
proof fn lemma_end(p: Seq<u8>, t: Seq<u8>, i: int)
    requires
        0 <= i <= p.len(),
    ensures
        wild(p, t, i, t.len() as int) == only_stars(p, i),
    decreases p.len() - i,
{
    if i < p.len() {
        lemma_end(p, t, i + 1);
    }
}

/// A run of pattern bytes without `*` consumes exactly its length.
proof fn lemma_segment(p: Seq<u8>, t: Seq<u8>, a: int, pi: int, j: int)
    requires
        0 <= a <= pi <= p.len(),
        0 <= j <= t.len(),
        forall|k: int| a <= k < pi ==> p[k] != 42u8,
        wild(p, t, a, j),
    ensures
        j + (pi - a) <= t.len(),
        wild(p, t, pi, j + (pi - a)),
    decreases pi - a,
{
    if a < pi {
        lemma_segment(p, t, a + 1, pi, j + 1);
    }
}

/// The position from which the last `*` would next absorb a byte, if any.
pub open spec fn pending(p: Seq<u8>, t: Seq<u8>, star: Option<int>, st: int) -> bool {
    match star {
        Some(sp) => later_match(p, t, sp + 1, st),
        None => false,
    }
}

/// The pattern from `i` matches the text from some position after `st`.
pub open spec fn later_match(p: Seq<u8>, t: Seq<u8>, i: int, st: int) -> bool {
    exists|j: int| st < j <= t.len() && #[trigger] wild(p, t, i, j)
}

/// Since the last `*` (or the start), pattern and text advanced together over
/// bytes that are not `*`.
pub open spec fn segment_ok(p: Seq<u8>, pi: int, ti: int, star: Option<int>, st: int) -> bool {
    let a = match star {
        Some(sp) => sp + 1,
        None => 0,
    };
    let b = match star {
        Some(_) => st,
        None => 0,
    };
    &&& a <= pi
    &&& pi - a == ti - b
    &&& forall|k: int| a <= k < pi ==> p[k] != 42u8
}

proof fn lemma_scan(p: Seq<u8>, t: Seq<u8>, pi: int, ti: int, star: Option<int>, st: int)
    requires
        state_ok(p, t, pi, ti, star, st),
        segment_ok(p, pi, ti, star, st),
        star_free(t),
    ensures
        scan(p, t, pi, ti, star, st) == (wild(p, t, pi, ti) || pending(p, t, star, st)),
    decreases (t.len() + 1 - (if star is Some { st } else { -1 })) as nat, (t.len() - ti) as nat, (
    p.len() - pi) as nat,
{
    let a = match star {
        Some(sp) => sp + 1,
        None => 0,
    };
    if ti >= t.len() {
        lemma_end(p, t, pi);
        if let Some(sp) = star {
            if pending(p, t, star, st) {
                let j = choose|j: int| st < j <= t.len() && #[trigger] wild(p, t, sp + 1, j);
                lemma_segment(p, t, sp + 1, pi, j);
            }
        }
    } else if pi < p.len() && (p[pi] == 63u8 || p[pi] == t[ti]) {
        assert(p[pi] != 42u8);
        lemma_scan(p, t, pi + 1, ti + 1, star, st);
    } else if pi < p.len() && p[pi] == 42u8 {
        lemma_scan(p, t, pi + 1, ti, Some(pi), ti);
        lemma_star(p, t, pi, ti);
        if wild(p, t, pi + 1, ti) {
            assert(exists|k: int| ti <= k <= t.len() && #[trigger] wild(p, t, pi + 1, k));
        }
        if exists|k: int| ti <= k <= t.len() && #[trigger] wild(p, t, pi + 1, k) {
            let k = choose|k: int| ti <= k <= t.len() && #[trigger] wild(p, t, pi + 1, k);
            if k > ti {
                assert(ti < k <= t.len() && wild(p, t, pi + 1, k));
                assert(later_match(p, t, pi + 1, ti));
                assert(pending(p, t, Some(pi), ti));
            }
        }
        if let Some(sp) = star {
            if pending(p, t, star, st) {
                let j = choose|j: int| st < j <= t.len() && #[trigger] wild(p, t, sp + 1, j);
                lemma_segment(p, t, sp + 1, pi, j);
                let k0 = j + (pi - (sp + 1));
                lemma_star(p, t, pi, k0);
                let k = choose|k: int| k0 <= k <= t.len() && #[trigger] wild(p, t, pi + 1, k);
                assert(ti <= k <= t.len() && wild(p, t, pi + 1, k));
            }
        }
    } else if let Some(sp) = star {
        lemma_scan(p, t, sp + 1, st + 1, star, st + 1);
        if pending(p, t, star, st) {
            let j = choose|j: int| st < j <= t.len() && #[trigger] wild(p, t, sp + 1, j);
            if j > st + 1 {
                assert(pending(p, t, star, st + 1));
            }
        }
        if pending(p, t, star, st + 1) {
            let j = choose|j: int| st + 1 < j <= t.len() && #[trigger] wild(p, t, sp + 1, j);
            assert(pending(p, t, star, st));
        }
        if wild(p, t, sp + 1, st + 1) {
            assert(pending(p, t, star, st));
        }
    } else {
    }
}

/// On a text without `*`, the matcher answers exactly the wildcard question.
pub proof fn lemma_glob_is_wildcard(p: Seq<u8>, t: Seq<u8>)
    requires
        star_free(t),
    ensures
        glob_accepts(p, t) == wildcard(p, t),
{
    lemma_scan(p, t, 0, 0, None, 0);
}

/// A recorded position as an integer.
pub open spec fn opt_int(s: Option<usize>) -> Option<int> {
    match s {
        Some(x) => Some(x as int),
        None => None,
    }
}

/// Whether `text` matches the wildcard `pattern` (bytewise).
pub fn glob_match(pattern: &str, text: &str) -> (r: bool)
    ensures
        r == glob_accepts(encode_utf8(pattern@), encode_utf8(text@)),
        star_free(encode_utf8(text@)) ==> r == wildcard(encode_utf8(pattern@), encode_utf8(text@)),
{
    proof {
        if star_free(encode_utf8(text@)) {
            lemma_glob_is_wildcard(encode_utf8(pattern@), encode_utf8(text@));
        }
    }
    let p = pattern.as_bytes();
    let t = text.as_bytes();
    let mut pi: usize = 0;
    let mut ti: usize = 0;
    let mut star_p: Option<usize> = None;
    let mut star_t: usize = 0;
    while ti < t.len()
        invariant
            p@ == encode_utf8(pattern@),
            t@ == encode_utf8(text@),
            state_ok(p@, t@, pi as int, ti as int, opt_int(star_p), star_t as int),
            star_free(t@) ==> glob_accepts(p@, t@) == wildcard(p@, t@),
            scan(p@, t@, 0, 0, None, 0) == scan(
                p@,
                t@,
                pi as int,
                ti as int,
                opt_int(star_p),
                star_t as int,
            ),
        decreases (t.len() + 1 - (if star_p is Some { star_t as int } else { -1 })) as nat, (t.len()
            - ti) as nat, (p.len() - pi) as nat,
    {
        if pi < p.len() && (p[pi] == 63u8 || p[pi] == t[ti]) {
            pi += 1;
            ti += 1;
        } else if pi < p.len() && p[pi] == 42u8 {
            star_p = Some(pi);
            star_t = ti;
            pi += 1;
        } else if let Some(sp) = star_p {
            pi = sp + 1;
            star_t += 1;
            ti = star_t;
        } else {
            return false;
        }
    }
    while pi < p.len() && p[pi] == 42u8
        invariant
            p@ == encode_utf8(pattern@),
            t@ == encode_utf8(text@),
            ti >= t.len(),
            pi <= p.len(),
            state_ok(p@, t@, 0, ti as int, None, 0),
            star_free(t@) ==> glob_accepts(p@, t@) == wildcard(p@, t@),
            scan(p@, t@, 0, 0, None, 0) == only_stars(p@, pi as int),
        decreases p.len() - pi,
    {
        pi += 1;
    }
    pi == p.len()
}

} // verus!
