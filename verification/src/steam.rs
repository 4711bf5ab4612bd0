//! Locating the game's Steam install: the Steam roots of each platform, the
//! library folders listed in `libraryfolders.vdf`, the checks that make a
//! folder the game's, and whether the game is running.
//!
//! A path is a list of components: the first as given, each later one
//! joined onto it. Whatever needs the file system (whether a path is a file
//! or a directory, the contents of a file) is asked of a probe the caller
//! hands in; every contract holds whatever the probes answer.

use vstd::prelude::*;

use crate::text::{chars_of, contains_text, occurs, owned, push_char, str_eq};
use crate::path_order::{is_path_set, path_set};

verus! {

/// The name of the game's install folder.
pub const GAME_DIR: &'static str = "でびるコネクショん";

/// The macOS application bundle inside the install folder.
pub const MAC_APP_DIR: &'static str = "DevilConnection.app";

// ---------------------------------------------------------------------------
// Quoted fields of a VDF line

/// The quoted fields of `s` outside any quote: the text between the first
/// and second quote, the third and fourth, and so on. A quote left open at
/// the end yields no field.
pub open spec fn fields(s: Seq<char>) -> Seq<Seq<char>>
    decreases s.len(), 0int,
{
    if s.len() == 0 {
        seq![]
    } else if s[0] == '"' {
        open_field(s.drop_first(), seq![])
    } else {
        fields(s.drop_first())
    }
}

/// The quoted fields of `s` when a quote is open and `cur` has been read
/// inside it so far.
pub open spec fn open_field(s: Seq<char>, cur: Seq<char>) -> Seq<Seq<char>>
    decreases s.len(), 1int,
{
    if s.len() == 0 {
        seq![]
    } else if s[0] == '"' {
        seq![cur] + fields(s.drop_first())
    } else {
        open_field(s.drop_first(), cur.push(s[0]))
    }
}

/// The quoted fields of `s` after a scan in state (`in_quote`, `cur`).
pub open spec fn fields_from(in_quote: bool, cur: Seq<char>, s: Seq<char>) -> Seq<Seq<char>> {
    if in_quote {
        open_field(s, cur)
    } else {
        fields(s)
    }
}

/// The quoted fields of one line of a VDF file.
pub fn quoted_fields(line: &str) -> (out: Vec<String>)
    ensures
        out@.map_values(|f: String| f@) == fields(line@),
{
    let mut out: Vec<String> = Vec::new();
    let mut in_quote = false;
    let mut current = String::new();
    let ghost s = line@;
    assert(s.skip(0) =~= s);
    assert(out@.map_values(|f: String| f@) =~= Seq::<Seq<char>>::empty());
    for ch in it: line.chars()
        invariant
            it.seq() == s,
            s == line@,
            in_quote || current@ == Seq::<char>::empty(),
            fields(s) == out@.map_values(|f: String| f@) + fields_from(
                in_quote,
                current@,
                s.skip(it.index() as int),
            ),
    {
        let ghost i = it.index() as int;
        let ghost rest = s.skip(i);
        assert(rest.drop_first() =~= s.skip(i + 1));
        assert(rest[0] == ch);
        if ch == '"' {
            if in_quote {
                let ghost before = out@;
                out.push(current.clone());
                assert(out@.map_values(|f: String| f@) =~= before.map_values(|f: String| f@).push(
                    current@,
                ));
                current = String::new();
            }
            in_quote = !in_quote;
        } else if in_quote {
            push_char(&mut current, ch);
        }
    }
    assert(s.skip(s.len() as int) =~= Seq::<char>::empty());
    out
}

// ---------------------------------------------------------------------------
// Escaped backslashes in VDF paths

/// `s` with each pair of backslashes, read from the left, made one.
pub open spec fn unescape(s: Seq<char>) -> Seq<char>
    decreases s.len(),
{
    if s.len() >= 2 && s[0] == '\\' && s[1] == '\\' {
        seq!['\\'] + unescape(s.skip(2))
    } else if s.len() >= 1 {
        seq![s[0]] + unescape(s.skip(1))
    } else {
        seq![]
    }
}

/// Collapses the doubled backslashes with which VDF files escape paths.
pub fn unescape_vdf_path(path: &str) -> (r: String)
    ensures
        r@ == unescape(path@),
{
    let cs = crate::text::chars_of(path);
    let mut out = String::new();
    let mut i: usize = 0;
    assert(path@.skip(0) =~= path@);
    while i < cs.len()
        invariant
            cs@ == path@,
            i <= cs.len(),
            unescape(path@) == out@ + unescape(path@.skip(i as int)),
        decreases cs.len() - i,
    {
        let ghost rest = path@.skip(i as int);
        if i + 1 < cs.len() && cs[i] == '\\' && cs[i + 1] == '\\' {
            assert(rest.skip(2) =~= path@.skip(i + 2));
            push_char(&mut out, '\\');
            i = i + 2;
        } else {
            assert(rest.skip(1) =~= path@.skip(i + 1));
            push_char(&mut out, cs[i]);
            i = i + 1;
        }
    }
    assert(path@.skip(i as int) =~= Seq::<char>::empty());
    out
}

// ---------------------------------------------------------------------------
// Library folders listed in libraryfolders.vdf

/// The lines of `s`, split at each `'\n'`; the last one is what follows the
/// last `'\n'` (empty if `s` ends with one).
pub open spec fn split_lines(s: Seq<char>) -> Seq<Seq<char>>
    decreases s.len(),
{
    if s.len() == 0 {
        seq![seq![]]
    } else {
        let r = split_lines(s.drop_last());
        if s.last() == '\n' {
            r.push(seq![])
        } else {
            r.update(r.len() - 1, r.last().push(s.last()))
        }
    }
}

/// The library folder a line names, if it is a `"path" "<folder>"` line.
pub open spec fn line_library(line: Seq<char>) -> Seq<Seq<char>> {
    let f = fields(line);
    if f.len() >= 2 && f[0] == "path"@ {
        seq![unescape(f[1])]
    } else {
        seq![]
    }
}

/// The library folders named by the lines `ls`, in order.
pub open spec fn libraries_of_lines(ls: Seq<Seq<char>>) -> Seq<Seq<char>>
    decreases ls.len(),
{
    if ls.len() == 0 {
        seq![]
    } else {
        libraries_of_lines(ls.drop_last()) + line_library(ls.last())
    }
}

/// The library folders that the text of a `libraryfolders.vdf` file names.
pub open spec fn vdf_libraries(s: Seq<char>) -> Seq<Seq<char>> {
    libraries_of_lines(split_lines(s))
}

proof fn lemma_split_lines_nonempty(s: Seq<char>)
    ensures
        split_lines(s).len() >= 1,
    decreases s.len(),
{
    if s.len() > 0 {
        lemma_split_lines_nonempty(s.drop_last());
    }
}

/// The folder a line names, if any.
fn library_of_line(line: &str) -> (r: Option<String>)
    ensures
        match r {
            Some(p) => line_library(line@) == seq![p@],
            None => line_library(line@) == Seq::<Seq<char>>::empty(),
        },
{
    let parts = quoted_fields(line);
    proof {
        assert(parts@.len() == fields(line@).len());
    }
    if parts.len() >= 2 && str_eq(parts[0].as_str(), "path") {
        proof {
            assert(parts@[0]@ == fields(line@)[0]);
        }
        Some(unescape_vdf_path(parts[1].as_str()))
    } else {
        proof {
            if parts@.len() >= 2 {
                assert(parts@[0]@ == fields(line@)[0]);
            }
        }
        None
    }
}

/// The library folders listed in the text of a `libraryfolders.vdf` file:
/// each line whose first two quoted fields are `path` and a folder names
/// that folder, with doubled backslashes collapsed.
pub fn library_paths(contents: &str) -> (out: Vec<String>)
    ensures
        out@.map_values(|p: String| p@) == vdf_libraries(contents@),
{
    let cs = crate::text::chars_of(contents);
    let mut out: Vec<String> = Vec::new();
    let mut line: Vec<char> = Vec::new();
    let mut i: usize = 0;
    while i < cs.len()
        invariant
            cs@ == contents@,
            i <= cs.len(),
            split_lines(contents@.take(i as int)).len() >= 1,
            out@.map_values(|p: String| p@) == libraries_of_lines(
                split_lines(contents@.take(i as int)).drop_last(),
            ),
            line@ == split_lines(contents@.take(i as int)).last(),
        decreases cs.len() - i,
    {
        let ghost pre = contents@.take(i as int);
        let ghost next = contents@.take(i + 1);
        assert(next.drop_last() =~= pre);
        proof {
            lemma_split_lines_nonempty(pre);
        }
        if cs[i] == '\n' {
            let text = crate::text::string_of(line.as_slice());
            let lib = library_of_line(text.as_str());
            let ghost before = out@;
            match lib {
                Some(p) => {
                    out.push(p);
                },
                None => {},
            }
            assert(split_lines(next).drop_last() =~= split_lines(pre));
            assert(split_lines(pre).drop_last().push(split_lines(pre).last()) =~= split_lines(pre));
            assert(out@.map_values(|p: String| p@) =~= before.map_values(|p: String| p@)
                + line_library(line@));
            line = Vec::new();
        } else {
            line.push(cs[i]);
            assert(split_lines(next).drop_last() =~= split_lines(pre).drop_last());
        }
        i = i + 1;
    }
    assert(contents@.take(cs.len() as int) =~= contents@);
    let text = crate::text::string_of(line.as_slice());
    let lib = library_of_line(text.as_str());
    let ghost before = out@;
    match lib {
        Some(p) => {
            out.push(p);
        },
        None => {},
    }
    proof {
        let ls = split_lines(contents@);
        assert(ls.drop_last().push(ls.last()) =~= ls);
        assert(out@.map_values(|p: String| p@) =~= before.map_values(|p: String| p@)
            + line_library(line@));
    }
    out
}

// ---------------------------------------------------------------------------
// Paths and probes

/// A path as its components' texts.
pub open spec fn pview(p: Vec<String>) -> Seq<Seq<char>> {
    p@.map_values(|c: String| c@)
}

/// The probe `f` has answered `b` for a path whose components are `p`.
pub open spec fn answered<F: Fn(&Vec<String>) -> bool>(f: F, p: Seq<Seq<char>>, b: bool) -> bool {
    exists|q: &Vec<String>| #[trigger] f.ensures((q,), b) && pview(*q) == p
}

/// `base` with the component `c` joined on.
pub fn joined(base: &Vec<String>, c: &str) -> (r: Vec<String>)
    ensures
        pview(r) == pview(*base).push(c@),
{
    let mut r: Vec<String> = base.clone();
    proof {
        assert(pview(r) =~= pview(*base)) by {
            assert forall|i: int| 0 <= i < r@.len() implies r@[i]@ == base@[i]@ by {
                assert(r@[i] == base@[i]);
            }
        }
    }
    let ghost before = r;
    r.push(owned(c));
    assert(pview(r) =~= pview(before).push(c@));
    r
}

/// Asks the probe about a path.
pub fn probe<F: Fn(&Vec<String>) -> bool>(f: &F, p: &Vec<String>) -> (b: bool)
    requires
        forall|q: &Vec<String>| f.requires((q,)),
    ensures
        answered(*f, pview(*p), b),
{
    let b = f(p);
    assert(f.ensures((p,), b));
    b
}

/// A found path as its components' texts.
pub open spec fn oview(r: Option<Vec<String>>) -> Option<Seq<Seq<char>>> {
    match r {
        Some(p) => Some(pview(p)),
        None => None,
    }
}

/// Where macOS keeps `app.asar` under the install folder `game`.
pub open spec fn mac_asar(game: Seq<Seq<char>>) -> Seq<Seq<char>> {
    game + seq![MAC_APP_DIR@, "Contents/Resources/app.asar"@]
}

/// Where Windows and Linux keep `app.asar` under the install folder `game`.
pub open spec fn plain_asar(game: Seq<Seq<char>>) -> Seq<Seq<char>> {
    game + seq!["resources/app.asar"@]
}

/// `r` is what a search for `app.asar` under `game` gives when `is_file`
/// answered as it did: the macOS location if it is a file, else the other
/// one if that is a file, else nothing.
pub open spec fn asar_answer<F: Fn(&Vec<String>) -> bool>(
    is_file: F,
    game: Seq<Seq<char>>,
    r: Option<Seq<Seq<char>>>,
) -> bool {
    match r {
        Some(p) => (p == mac_asar(game) && answered(is_file, mac_asar(game), true)) || (p
            == plain_asar(game) && answered(is_file, mac_asar(game), false) && answered(
            is_file,
            plain_asar(game),
            true,
        )),
        None => answered(is_file, mac_asar(game), false) && answered(
            is_file,
            plain_asar(game),
            false,
        ),
    }
}

/// The game's `app.asar` under the install folder `game`: the macOS bundle's
/// first, then the plain `resources` one; the first that `is_file` accepts.
pub fn find_app_asar<F: Fn(&Vec<String>) -> bool>(game: &Vec<String>, is_file: &F) -> (r: Option<
    Vec<String>,
>)
    requires
        forall|q: &Vec<String>| is_file.requires((q,)),
    ensures
        asar_answer(*is_file, pview(*game), oview(r)),
{
    let bundle = joined(game, MAC_APP_DIR);
    let mac = joined(&bundle, "Contents/Resources/app.asar");
    assert(pview(mac) =~= mac_asar(pview(*game)));
    if probe(is_file, &mac) {
        return Some(mac);
    }
    let plain = joined(game, "resources/app.asar");
    assert(pview(plain) =~= plain_asar(pview(*game)));
    if probe(is_file, &plain) {
        Some(plain)
    } else {
        None
    }
}

/// `is_dir` answered as it would for a folder laid out as the game's: the
/// macOS bundle or a `resources` folder is a directory (`b`), or neither is
/// (`!b`).
pub open spec fn layout_answer<D: Fn(&Vec<String>) -> bool>(
    is_dir: D,
    game: Seq<Seq<char>>,
    b: bool,
) -> bool {
    let mac = game + seq![MAC_APP_DIR@];
    let res = game + seq!["resources"@];
    if b {
        answered(is_dir, mac, true) || (answered(is_dir, mac, false) && answered(is_dir, res, true))
    } else {
        answered(is_dir, mac, false) && answered(is_dir, res, false)
    }
}

/// `r` is what the check of the folder `game`, named `name`, gives when the
/// probes answered as they did: the game's folder is named `GAME_DIR`, is
/// laid out as the game's and holds an `app.asar`.
pub open spec fn valid_answer<D: Fn(&Vec<String>) -> bool, F: Fn(&Vec<String>) -> bool>(
    name: Option<Seq<char>>,
    is_dir: D,
    is_file: F,
    game: Seq<Seq<char>>,
    r: bool,
) -> bool {
    if r {
        &&& name == Some(GAME_DIR@)
        &&& layout_answer(is_dir, game, true)
        &&& (asar_answer(is_file, game, Some(mac_asar(game))) || asar_answer(
            is_file,
            game,
            Some(plain_asar(game)),
        ))
    } else {
        ||| name != Some(GAME_DIR@)
        ||| layout_answer(is_dir, game, false)
        ||| asar_answer(is_file, game, None)
    }
}

/// The view of an optional name.
pub open spec fn name_view(name: Option<&str>) -> Option<Seq<char>> {
    match name {
        Some(n) => Some(n@),
        None => None,
    }
}

/// Whether `game`, whose last component is named `name`, is the game's
/// install folder: it has the game's name, a macOS bundle or a `resources`
/// folder, and an `app.asar` where `find_app_asar` looks.
pub fn is_valid_game_dir<D: Fn(&Vec<String>) -> bool, F: Fn(&Vec<String>) -> bool>(
    name: Option<&str>,
    game: &Vec<String>,
    is_dir: &D,
    is_file: &F,
) -> (r: bool)
    requires
        forall|q: &Vec<String>| is_dir.requires((q,)),
        forall|q: &Vec<String>| is_file.requires((q,)),
    ensures
        valid_answer(name_view(name), *is_dir, *is_file, pview(*game), r),
{
    let named = match name {
        Some(n) => crate::text::str_eq(n, GAME_DIR),
        None => false,
    };
    if !named {
        return false;
    }
    let mac = joined(game, MAC_APP_DIR);
    assert(pview(mac) =~= pview(*game) + seq![MAC_APP_DIR@]);
    let layout = if probe(is_dir, &mac) {
        true
    } else {
        let res = joined(game, "resources");
        assert(pview(res) =~= pview(*game) + seq!["resources"@]);
        probe(is_dir, &res)
    };
    if !layout {
        return false;
    }
    let found = find_app_asar(game, is_file);
    found.is_some()
}

/// The folder under a Steam library where the game would be installed.
pub open spec fn library_game_dir(library: Seq<Seq<char>>) -> Seq<Seq<char>> {
    library + seq!["steamapps/common"@, GAME_DIR@]
}

/// The first of the Steam libraries `libraries` whose game folder passes
/// `is_valid_game_dir`, as that folder.
pub fn auto_detect<D: Fn(&Vec<String>) -> bool, F: Fn(&Vec<String>) -> bool>(
    libraries: &Vec<Vec<String>>,
    is_dir: &D,
    is_file: &F,
) -> (r: Option<Vec<String>>)
    requires
        forall|q: &Vec<String>| is_dir.requires((q,)),
        forall|q: &Vec<String>| is_file.requires((q,)),
    ensures
        match r {
            Some(p) => exists|k: int|
                0 <= k < libraries@.len() && pview(p) == library_game_dir(pview(libraries@[k]))
                    && valid_answer(
                    Some(GAME_DIR@),
                    *is_dir,
                    *is_file,
                    library_game_dir(pview(libraries@[k])),
                    true,
                ) && forall|j: int|
                    0 <= j < k ==> valid_answer(
                        Some(GAME_DIR@),
                        *is_dir,
                        *is_file,
                        library_game_dir(pview(#[trigger] libraries@[j])),
                        false,
                    ),
            None => forall|j: int|
                0 <= j < libraries@.len() ==> valid_answer(
                    Some(GAME_DIR@),
                    *is_dir,
                    *is_file,
                    library_game_dir(pview(#[trigger] libraries@[j])),
                    false,
                ),
        },
{
    let mut i: usize = 0;
    while i < libraries.len()
        invariant
            i <= libraries@.len(),
            forall|q: &Vec<String>| is_dir.requires((q,)),
            forall|q: &Vec<String>| is_file.requires((q,)),
            forall|j: int|
                0 <= j < i ==> valid_answer(
                    Some(GAME_DIR@),
                    *is_dir,
                    *is_file,
                    library_game_dir(pview(#[trigger] libraries@[j])),
                    false,
                ),
        decreases libraries.len() - i,
    {
        let common = joined(&libraries[i], "steamapps/common");
        let candidate = joined(&common, GAME_DIR);
        assert(pview(candidate) =~= library_game_dir(pview(libraries@[i as int])));
        if is_valid_game_dir(Some(GAME_DIR), &candidate, is_dir, is_file) {
            return Some(candidate);
        }
        i = i + 1;
    }
    None
}

// ---------------------------------------------------------------------------
// Steam roots of each platform

/// The drive letter of bit `i` of a logical-drive mask.
pub open spec fn drive_letter(i: int) -> char {
    (65 + i) as char
}

/// Whether bit `i` of `mask` is set.
pub open spec fn bit_set(mask: u32, i: u32) -> bool {
    mask & (1u32 << i) != 0
}

/// The drive letters among the first `n` bits of `mask` that are set, `C`
/// left out, in order.
pub open spec fn drives_of(mask: u32, n: nat) -> Seq<char>
    decreases n,
{
    if n == 0 {
        seq![]
    } else {
        let i = (n - 1) as nat;
        drives_of(mask, i) + if bit_set(mask, i as u32) && i != 2 {
            seq![drive_letter(i as int)]
        } else {
            seq![]
        }
    }
}

/// The drives other than `C:` that the logical-drive mask `mask` reports.
pub fn other_drives(mask: u32) -> (out: Vec<char>)
    ensures
        out@ == drives_of(mask, 26),
{
    let mut out: Vec<char> = Vec::new();
    let mut i: u32 = 0;
    while i < 26
        invariant
            i <= 26,
            out@ == drives_of(mask, i as nat),
        decreases 26 - i,
    {
        if mask & (1u32 << i) != 0 && i != 2 {
            let c = (65u8 + i as u8) as char;
            out.push(c);
        }
        assert(drives_of(mask, (i + 1) as nat) == drives_of(mask, i as nat) + if bit_set(mask, i)
            && i != 2 {
            seq![drive_letter(i as int)]
        } else {
            seq![]
        });
        i = i + 1;
    }
    out
}

/// A path of one component.
pub open spec fn single(s: Seq<char>) -> Seq<Seq<char>> {
    seq![s]
}

/// The four Steam roots that may sit on drive `d`.
pub open spec fn drive_roots(d: char) -> Seq<Seq<Seq<char>>> {
    seq![
        single(seq![d] + ":\\Steam"@),
        single(seq![d] + ":\\Program Files (x86)\\Steam"@),
        single(seq![d] + ":\\Program Files\\Steam"@),
        single(seq![d] + ":\\SteamLibrary"@),
    ]
}

/// The Steam roots of every drive in `ds`, drive by drive.
pub open spec fn drives_roots(ds: Seq<char>) -> Seq<Seq<Seq<char>>>
    decreases ds.len(),
{
    if ds.len() == 0 {
        seq![]
    } else {
        drives_roots(ds.drop_last()) + drive_roots(ds.last())
    }
}

/// The Steam roots Windows may have: the two standard install folders on
/// `C:`, then four places on each further drive.
pub open spec fn windows_roots(ds: Seq<char>) -> Seq<Seq<Seq<char>>> {
    seq![
        single("C:\\Program Files (x86)\\Steam"@),
        single("C:\\Program Files\\Steam"@),
    ] + drives_roots(ds)
}

/// The views of a list of paths.
pub open spec fn paths_view(ps: Vec<Vec<String>>) -> Seq<Seq<Seq<char>>> {
    ps@.map_values(|p: Vec<String>| pview(p))
}

/// A copy of the path `p`.
pub fn copy_path(p: &Vec<String>) -> (r: Vec<String>)
    ensures
        pview(r) == pview(*p),
{
    let r = p.clone();
    assert(pview(r) =~= pview(*p)) by {
        assert forall|i: int| 0 <= i < r@.len() implies r@[i]@ == p@[i]@ by {
            assert(r@[i] == p@[i]);
        }
    }
    r
}

/// A path of one component `s`.
fn single_path(s: String) -> (p: Vec<String>)
    ensures
        pview(p) == single(s@),
{
    let mut p: Vec<String> = Vec::new();
    p.push(s);
    assert(pview(p) =~= single(s@));
    p
}

/// `d` followed by `rest`.
fn on_drive(d: char, rest: &str) -> (s: String)
    ensures
        s@ == seq![d] + rest@,
{
    let mut s = String::new();
    push_char(&mut s, d);
    s.append(rest);
    s
}

/// Appends a path to a list of paths.
pub fn push_path(ps: &mut Vec<Vec<String>>, p: Vec<String>)
    ensures
        paths_view(*final(ps)) == paths_view(*old(ps)).push(pview(p)),
{
    let ghost before = *ps;
    ps.push(p);
    assert(paths_view(*ps) =~= paths_view(before).push(pview(p)));
}

/// The Steam roots to search on Windows, given the further drives `drives`.
pub fn steam_roots_windows(drives: &Vec<char>) -> (roots: Vec<Vec<String>>)
    ensures
        paths_view(roots) == windows_roots(drives@),
{
    let mut roots: Vec<Vec<String>> = Vec::new();
    push_path(&mut roots, single_path(owned("C:\\Program Files (x86)\\Steam")));
    push_path(&mut roots, single_path(owned("C:\\Program Files\\Steam")));
    let mut i: usize = 0;
    while i < drives.len()
        invariant
            i <= drives@.len(),
            paths_view(roots) == windows_roots(drives@.take(i as int)),
        decreases drives.len() - i,
    {
        let d = drives[i];
        push_path(&mut roots, single_path(on_drive(d, ":\\Steam")));
        push_path(&mut roots, single_path(on_drive(d, ":\\Program Files (x86)\\Steam")));
        push_path(&mut roots, single_path(on_drive(d, ":\\Program Files\\Steam")));
        push_path(&mut roots, single_path(on_drive(d, ":\\SteamLibrary")));
        assert(drives@.take(i + 1).drop_last() =~= drives@.take(i as int));
        assert(paths_view(roots) =~= windows_roots(drives@.take(i + 1)));
        i = i + 1;
    }
    assert(drives@.take(drives.len() as int) =~= drives@);
    roots
}

proof fn lemma_drives_roots(ds: Seq<char>)
    ensures
        drives_roots(ds).len() == 4 * ds.len(),
        forall|i: int, j: int|
            0 <= i < ds.len() && 0 <= j < 4 ==> #[trigger] drives_roots(ds)[4 * i + j] == drive_roots(
                ds[i],
            )[j],
    decreases ds.len(),
{
    if ds.len() > 0 {
        let d = ds.drop_last();
        lemma_drives_roots(d);
        assert forall|i: int, j: int|
            0 <= i < ds.len() && 0 <= j < 4 implies #[trigger] drives_roots(ds)[4 * i + j] == drive_roots(
                ds[i],
            )[j] by {
            if i < d.len() {
                assert(drives_roots(d)[4 * i + j] == drive_roots(d[i])[j]);
                assert(d[i] == ds[i]);
            } else {
                assert(4 * i + j - 4 * d.len() == j);
            }
        }
    }
}

/// The text after the drive letter of the `j`-th root on a further drive.
pub open spec fn root_suffix(j: int) -> Seq<char> {
    if j == 0 {
        ":\\Steam"@
    } else if j == 1 {
        ":\\Program Files (x86)\\Steam"@
    } else if j == 2 {
        ":\\Program Files\\Steam"@
    } else {
        ":\\SteamLibrary"@
    }
}

/// The Steam roots searched on Windows with the further drives `ds`: the
/// two standard install folders on `C:`, then for each drive `d`, in
/// order, `d:\Steam`, `d:\Program Files (x86)\Steam`, `d:\Program
/// Files\Steam` and `d:\SteamLibrary`, each a single piece.
pub proof fn lemma_windows_roots(ds: Seq<char>)
    ensures
        windows_roots(ds).len() == 2 + 4 * ds.len(),
        windows_roots(ds)[0] == seq!["C:\\Program Files (x86)\\Steam"@],
        windows_roots(ds)[1] == seq!["C:\\Program Files\\Steam"@],
        forall|i: int|
            #![trigger ds[i]]
            0 <= i < ds.len() ==> {
                &&& windows_roots(ds)[2 + 4 * i] == seq![seq![ds[i]] + ":\\Steam"@]
                &&& windows_roots(ds)[3 + 4 * i] == seq![seq![ds[i]] + ":\\Program Files (x86)\\Steam"@]
                &&& windows_roots(ds)[4 + 4 * i] == seq![seq![ds[i]] + ":\\Program Files\\Steam"@]
                &&& windows_roots(ds)[5 + 4 * i] == seq![seq![ds[i]] + ":\\SteamLibrary"@]
            },
{
    lemma_drives_roots(ds);
    let w = windows_roots(ds);
    assert forall|k: int| 0 <= k < 4 * ds.len() implies w[2 + k] == drives_roots(ds)[k] by {}
    assert forall|i: int| #![trigger ds[i]] 0 <= i < ds.len() implies {
        &&& w[2 + 4 * i] == seq![seq![ds[i]] + ":\\Steam"@]
        &&& w[3 + 4 * i] == seq![seq![ds[i]] + ":\\Program Files (x86)\\Steam"@]
        &&& w[4 + 4 * i] == seq![seq![ds[i]] + ":\\Program Files\\Steam"@]
        &&& w[5 + 4 * i] == seq![seq![ds[i]] + ":\\SteamLibrary"@]
    } by {
        assert(drives_roots(ds)[4 * i + 0] == drive_roots(ds[i])[0]);
        assert(drives_roots(ds)[4 * i + 1] == drive_roots(ds[i])[1]);
        assert(drives_roots(ds)[4 * i + 2] == drive_roots(ds[i])[2]);
        assert(drives_roots(ds)[4 * i + 3] == drive_roots(ds[i])[3]);
    }
}

/// Root `2 + 4 * i + j` is the `j`-th on drive `ds[i]`.
proof fn lemma_root_at(ds: Seq<char>, i: int, j: int)
    requires
        0 <= i < ds.len(),
        0 <= j < 4,
    ensures
        windows_roots(ds)[2 + 4 * i + j] == seq![seq![ds[i]] + root_suffix(j)],
{
    lemma_windows_roots(ds);
}

/// With distinct further drives other than `C`, the Windows roots are
/// pairwise distinct: no place is searched twice.
pub proof fn lemma_windows_roots_distinct(ds: Seq<char>)
    requires
        forall|i: int, j: int| 0 <= i < j < ds.len() ==> ds[i] != ds[j],
        forall|i: int| 0 <= i < ds.len() ==> ds[i] != 'C',
    ensures
        forall|a: int, b: int|
            0 <= a < b < windows_roots(ds).len() ==> windows_roots(ds)[a] != windows_roots(ds)[b],
{
    lemma_windows_roots(ds);
    let w = windows_roots(ds);
    reveal_strlit("C:\\Program Files (x86)\\Steam");
    reveal_strlit("C:\\Program Files\\Steam");
    reveal_strlit(":\\Steam");
    reveal_strlit(":\\Program Files (x86)\\Steam");
    reveal_strlit(":\\Program Files\\Steam");
    reveal_strlit(":\\SteamLibrary");
    assert(root_suffix(0).len() == 7 && root_suffix(1).len() == 27 && root_suffix(2).len() == 21
        && root_suffix(3).len() == 14);
    assert forall|a: int, b: int| 0 <= a < b < w.len() implies w[a] != w[b] by {
        if a < 2 && b < 2 {
            assert(w[a][0].len() != w[b][0].len());
        } else {
            let k = (b - 2) / 4;
            let jb = (b - 2) % 4;
            assert(b == 2 + 4 * k + jb && 0 <= jb < 4 && 0 <= k < ds.len());
            lemma_root_at(ds, k, jb);
            if a < 2 {
                assert(w[a][0][0] == 'C');
                assert(w[b][0][0] == ds[k]);
            } else {
                let i = (a - 2) / 4;
                let ja = (a - 2) % 4;
                assert(a == 2 + 4 * i + ja && 0 <= ja < 4 && 0 <= i < ds.len());
                lemma_root_at(ds, i, ja);
                if i != k {
                    assert(w[a][0][0] == ds[i]);
                    assert(w[b][0][0] == ds[k]);
                } else {
                    assert(ja != jb);
                    assert(w[a][0].len() != w[b][0].len());
                }
            }
        }
    }
}

proof fn lemma_drives_of(mask: u32, n: nat)
    requires
        n <= 26,
    ensures
        forall|k: int| 0 <= k < drives_of(mask, n).len() ==> 65 <= (#[trigger] drives_of(mask, n)[k]) as int
            && (drives_of(mask, n)[k] as int) < 65 + n && drives_of(mask, n)[k] != 'C',
        forall|a: int, b: int|
            0 <= a < b < drives_of(mask, n).len() ==> (drives_of(mask, n)[a] as int) < (drives_of(
                mask,
                n,
            )[b] as int),
    decreases n,
{
    if n > 0 {
        let i = (n - 1) as nat;
        lemma_drives_of(mask, i);
        let p = drives_of(mask, i);
        let t: Seq<char> = if bit_set(mask, i as u32) && i != 2 {
            seq![drive_letter(i as int)]
        } else {
            seq![]
        };
        assert(drives_of(mask, n) == p + t);
        assert(drive_letter(i as int) as int == 65 + i);
        assert forall|k: int| 0 <= k < (p + t).len() implies 65 <= (#[trigger] (p + t)[k]) as int && ((p
            + t)[k] as int) < 65 + n && (p + t)[k] != 'C' by {
            if k >= p.len() {
                assert((p + t)[k] == drive_letter(i as int));
                assert('C' as int == 67);
            } else {
                assert((p + t)[k] == p[k]);
            }
        }
        assert forall|a: int, b: int| 0 <= a < b < (p + t).len() implies ((p + t)[a] as int) < ((p
            + t)[b] as int) by {
            assert((p + t)[a] == p[a]);
            if b >= p.len() {
                assert((p + t)[b] == drive_letter(i as int));
            } else {
                assert((p + t)[b] == p[b]);
            }
        }
    }
}

/// On Windows no Steam root is searched twice: the further drives read
/// from the drive mask are distinct and leave out `C`, so every root of
/// `steam_roots_windows(&other_drives(mask))` is distinct.
pub proof fn lemma_tauri_roots_distinct(mask: u32)
    ensures
        forall|a: int, b: int|
            0 <= a < b < windows_roots(drives_of(mask, 26)).len() ==> windows_roots(drives_of(mask, 26))[a]
                != windows_roots(drives_of(mask, 26))[b],
{
    let ds = drives_of(mask, 26);
    lemma_drives_of(mask, 26);
    assert forall|i: int, j: int| 0 <= i < j < ds.len() implies ds[i] != ds[j] by {
        assert((ds[i] as int) < (ds[j] as int));
    }
    lemma_windows_roots_distinct(ds);
}

/// A path of two components.
pub fn pair_path(a: &str, b: &str) -> (p: Vec<String>)
    ensures
        pview(p) == seq![a@, b@],
{
    let mut p: Vec<String> = Vec::new();
    p.push(owned(a));
    p.push(owned(b));
    assert(pview(p) =~= seq![a@, b@]);
    p
}

/// The Steam root to search on macOS, under the home folder `home`.
pub fn steam_roots_macos(home: &str) -> (roots: Vec<Vec<String>>)
    ensures
        paths_view(roots) == seq![seq![home@, "Library/Application Support/Steam"@]],
{
    let mut roots: Vec<Vec<String>> = Vec::new();
    push_path(&mut roots, pair_path(home, "Library/Application Support/Steam"));
    assert(paths_view(roots) =~= seq![seq![home@, "Library/Application Support/Steam"@]]);
    roots
}

/// The places a Linux Steam install may live, relative to the home folder:
/// native, Flatpak and Snap.
pub open spec fn linux_root_dirs() -> Seq<Seq<char>> {
    seq![
        ".local/share/Steam"@,
        ".steam/steam"@,
        ".var/app/com.valvesoftware.Steam/.local/share/Steam"@,
        ".var/app/com.valvesoftware.Steam/.steam/steam"@,
        "snap/steam/common/.local/share/Steam"@,
        "snap/steam/common/.steam/steam"@,
    ]
}

/// The Steam roots to search on Linux, under the home folder `home`.
pub fn steam_roots_linux(home: &str) -> (roots: Vec<Vec<String>>)
    ensures
        paths_view(roots) == linux_root_dirs().map_values(|d: Seq<char>| seq![home@, d]),
{
    let mut roots: Vec<Vec<String>> = Vec::new();
    push_path(&mut roots, pair_path(home, ".local/share/Steam"));
    push_path(&mut roots, pair_path(home, ".steam/steam"));
    push_path(&mut roots, pair_path(home, ".var/app/com.valvesoftware.Steam/.local/share/Steam"));
    push_path(&mut roots, pair_path(home, ".var/app/com.valvesoftware.Steam/.steam/steam"));
    push_path(&mut roots, pair_path(home, "snap/steam/common/.local/share/Steam"));
    push_path(&mut roots, pair_path(home, "snap/steam/common/.steam/steam"));
    assert(paths_view(roots) =~= linux_root_dirs().map_values(|d: Seq<char>| seq![home@, d]));
    roots
}

// ---------------------------------------------------------------------------
// Steam libraries

/// The file in which a Steam root lists its library folders.
pub open spec fn vdf_file(root: Seq<Seq<char>>) -> Seq<Seq<char>> {
    root + seq!["steamapps/libraryfolders.vdf"@]
}

/// The view of an optional string.
pub open spec fn ostr(o: Option<String>) -> Option<Seq<char>> {
    match o {
        Some(t) => Some(t@),
        None => None,
    }
}

/// The reader `read` has answered `a` for a path whose components are `p`.
pub open spec fn read_answer<R: Fn(&Vec<String>) -> Option<String>>(
    read: R,
    p: Seq<Seq<char>>,
    a: Option<Seq<char>>,
) -> bool {
    exists|q: &Vec<String>, o: Option<String>| #[trigger] read.ensures((q,), o) && pview(*q) == p
        && ostr(o) == a
}

/// A root followed by the libraries that its `libraryfolders.vdf` text `a`
/// lists (none when the file could not be read).
pub open spec fn root_libraries(root: Seq<Seq<char>>, a: Option<Seq<char>>) -> Seq<
    Seq<Seq<char>>,
> {
    seq![root] + match a {
        Some(c) => vdf_libraries(c).map_values(|l: Seq<char>| single(l)),
        None => seq![],
    }
}

/// The roots `roots`, each followed by its libraries, given what was read
/// of each root's `libraryfolders.vdf`.
pub open spec fn collect_libraries(
    roots: Seq<Seq<Seq<char>>>,
    answers: Seq<Option<Seq<char>>>,
) -> Seq<Seq<Seq<char>>>
    decreases roots.len(),
{
    if roots.len() == 0 {
        seq![]
    } else {
        collect_libraries(roots.drop_last(), answers.drop_last()) + root_libraries(
            roots.last(),
            answers.last(),
        )
    }
}

/// Each Steam root of `roots` followed by the library folders that its
/// `libraryfolders.vdf` lists, as `read` gives the file (nothing where it
/// gives nothing), in that order.
pub fn library_candidates<R: Fn(&Vec<String>) -> Option<String>>(
    roots: &Vec<Vec<String>>,
    read: &R,
) -> (libraries: Vec<Vec<String>>)
    requires
        forall|q: &Vec<String>| read.requires((q,)),
    ensures
        exists|answers: Seq<Option<Seq<char>>>|
            #![trigger collect_libraries(paths_view(*roots), answers)]
            answers.len() == roots@.len() && (forall|k: int|
                0 <= k < roots@.len() ==> read_answer(
                    *read,
                    vdf_file(pview(#[trigger] roots@[k])),
                    answers[k],
                )) && paths_view(libraries) == collect_libraries(paths_view(*roots), answers),
{
    let mut libraries: Vec<Vec<String>> = Vec::new();
    let ghost mut answers: Seq<Option<Seq<char>>> = seq![];
    let mut i: usize = 0;
    while i < roots.len()
        invariant
            i <= roots@.len(),
            forall|q: &Vec<String>| read.requires((q,)),
            answers.len() == i,
            forall|k: int|
                0 <= k < i ==> read_answer(*read, vdf_file(pview(#[trigger] roots@[k])), answers[k]),
            paths_view(libraries) == collect_libraries(paths_view(*roots).take(i as int), answers),
        decreases roots.len() - i,
    {
        let root = &roots[i];
        push_path(&mut libraries, copy_path(root));
        let file = joined(root, "steamapps/libraryfolders.vdf");
        let contents = read(&file);
        let ghost a = ostr(contents);
        assert(read.ensures((&file,), contents));
        assert(pview(file) =~= vdf_file(pview(*root)));
        assert(read_answer(*read, vdf_file(pview(*root)), a));
        let ghost base = paths_view(libraries);
        match contents {
            Some(text) => {
                let libs = library_paths(text.as_str());
                let mut j: usize = 0;
                while j < libs.len()
                    invariant
                        j <= libs@.len(),
                        libs@.map_values(|p: String| p@) == vdf_libraries(text@),
                        paths_view(libraries) == base + vdf_libraries(text@).take(j as int).map_values(
                            |l: Seq<char>| single(l),
                        ),
                    decreases libs.len() - j,
                {
                    let ghost before = paths_view(libraries);
                    push_path(&mut libraries, single_path(libs[j].clone()));
                    assert(libs@.map_values(|p: String| p@)[j as int] == libs@[j as int]@);
                    assert(vdf_libraries(text@).take(j + 1) =~= vdf_libraries(text@).take(
                        j as int,
                    ).push(vdf_libraries(text@)[j as int]));
                    assert(paths_view(libraries) =~= base + vdf_libraries(text@).take(j + 1).map_values(
                        |l: Seq<char>| single(l),
                    ));
                    j = j + 1;
                }
                assert(vdf_libraries(text@).take(libs@.len() as int) =~= vdf_libraries(text@));
            },
            None => {},
        }
        proof {
            let rv = paths_view(*roots);
            assert(rv.take(i + 1).drop_last() =~= rv.take(i as int));
            assert(answers.push(a).drop_last() =~= answers);
            assert(rv[i as int] == pview(*root));
            answers = answers.push(a);
            assert(paths_view(libraries) =~= collect_libraries(rv.take(i + 1), answers));
        }
        i = i + 1;
    }
    assert(paths_view(*roots).take(roots@.len() as int) =~= paths_view(*roots));
    libraries
}

/// The Steam roots of `roots` and the library folders that their
/// `libraryfolders.vdf` files list, as `read` gives them: each distinct
/// path once, in the order in which `std` orders paths (`win`: Windows
/// paths), as an ordered set of paths holds them.
pub fn steam_libraries<R: Fn(&Vec<String>) -> Option<String>>(
    roots: &Vec<Vec<String>>,
    read: &R,
    win: bool,
) -> (libraries: Vec<Vec<String>>)
    requires
        forall|q: &Vec<String>| read.requires((q,)),
    ensures
        exists|answers: Seq<Option<Seq<char>>>|
            #![trigger collect_libraries(paths_view(*roots), answers)]
            answers.len() == roots@.len() && (forall|k: int|
                0 <= k < roots@.len() ==> read_answer(
                    *read,
                    vdf_file(pview(#[trigger] roots@[k])),
                    answers[k],
                )) && is_path_set(paths_view(libraries), collect_libraries(paths_view(*roots), answers), win),
{
    let candidates = library_candidates(roots, read);
    path_set(&candidates, win)
}

// ---------------------------------------------------------------------------
// With probes that give one answer per path

/// The probe `f` answers for each path as the predicate `p` says: one
/// answer per path, as the file system gives while it does not change.
pub open spec fn probes_as<F: Fn(&Vec<String>) -> bool>(f: F, p: spec_fn(Seq<Seq<char>>) -> bool) -> bool {
    forall|q: &Vec<String>, b: bool| #[trigger] f.ensures((q,), b) ==> b == p(pview(*q))
}

/// The reader `read` gives for each path what `p` says.
pub open spec fn reads_as<R: Fn(&Vec<String>) -> Option<String>>(
    read: R,
    p: spec_fn(Seq<Seq<char>>) -> Option<Seq<char>>,
) -> bool {
    forall|q: &Vec<String>, o: Option<String>| #[trigger] read.ensures((q,), o) ==> ostr(o) == p(pview(*q))
}

/// Where `app.asar` is under `game`, with `file` telling which paths are
/// files: the macOS bundle's, else the plain one, else nowhere.
pub open spec fn asar_in(file: spec_fn(Seq<Seq<char>>) -> bool, game: Seq<Seq<char>>) -> Option<
    Seq<Seq<char>>,
> {
    if file(mac_asar(game)) {
        Some(mac_asar(game))
    } else if file(plain_asar(game)) {
        Some(plain_asar(game))
    } else {
        None
    }
}

/// Whether `game`, named `name`, is the game's install folder, with `dir`
/// and `file` telling which paths are folders and files: it is named
/// `GAME_DIR`, holds the macOS bundle or a `resources` folder, and holds an
/// `app.asar`.
pub open spec fn game_dir_ok(
    name: Option<Seq<char>>,
    dir: spec_fn(Seq<Seq<char>>) -> bool,
    file: spec_fn(Seq<Seq<char>>) -> bool,
    game: Seq<Seq<char>>,
) -> bool {
    &&& name == Some(GAME_DIR@)
    &&& (dir(game + seq![MAC_APP_DIR@]) || dir(game + seq!["resources"@]))
    &&& asar_in(file, game) is Some
}

proof fn lemma_answered<F: Fn(&Vec<String>) -> bool>(
    f: F,
    pred: spec_fn(Seq<Seq<char>>) -> bool,
    path: Seq<Seq<char>>,
    b: bool,
)
    requires
        probes_as(f, pred),
        answered(f, path, b),
    ensures
        b == pred(path),
{
    let q = choose|q: &Vec<String>| #[trigger] f.ensures((q,), b) && pview(*q) == path;
}

/// With a probe that gives one answer per path, `find_app_asar` finds
/// `app.asar` exactly where it is.
pub proof fn lemma_asar_fixed<F: Fn(&Vec<String>) -> bool>(
    is_file: F,
    file: spec_fn(Seq<Seq<char>>) -> bool,
    game: Seq<Seq<char>>,
    r: Option<Seq<Seq<char>>>,
)
    requires
        probes_as(is_file, file),
        asar_answer(is_file, game, r),
    ensures
        r == asar_in(file, game),
{
    match r {
        Some(p) => {
            if p == mac_asar(game) && answered(is_file, mac_asar(game), true) {
                lemma_answered(is_file, file, mac_asar(game), true);
            } else {
                lemma_answered(is_file, file, mac_asar(game), false);
                lemma_answered(is_file, file, plain_asar(game), true);
            }
        },
        None => {
            lemma_answered(is_file, file, mac_asar(game), false);
            lemma_answered(is_file, file, plain_asar(game), false);
        },
    }
}

/// With probes that give one answer per path, `is_valid_game_dir` answers
/// exactly whether the folder is the game's install folder.
pub proof fn lemma_valid_dir_fixed<D: Fn(&Vec<String>) -> bool, F: Fn(&Vec<String>) -> bool>(
    name: Option<Seq<char>>,
    is_dir: D,
    is_file: F,
    dir: spec_fn(Seq<Seq<char>>) -> bool,
    file: spec_fn(Seq<Seq<char>>) -> bool,
    game: Seq<Seq<char>>,
    r: bool,
)
    requires
        probes_as(is_dir, dir),
        probes_as(is_file, file),
        valid_answer(name, is_dir, is_file, game, r),
    ensures
        r == game_dir_ok(name, dir, file, game),
{
    let mac = game + seq![MAC_APP_DIR@];
    let res = game + seq!["resources"@];
    if r {
        if answered(is_dir, mac, true) {
            lemma_answered(is_dir, dir, mac, true);
        } else {
            lemma_answered(is_dir, dir, res, true);
        }
        if asar_answer(is_file, game, Some(mac_asar(game))) {
            lemma_asar_fixed(is_file, file, game, Some(mac_asar(game)));
        } else {
            lemma_asar_fixed(is_file, file, game, Some(plain_asar(game)));
        }
    } else {
        if layout_answer(is_dir, game, false) {
            lemma_answered(is_dir, dir, mac, false);
            lemma_answered(is_dir, dir, res, false);
        }
        if asar_answer(is_file, game, None) {
            lemma_asar_fixed(is_file, file, game, None);
        }
    }
}

/// With probes that give one answer per path, `auto_detect` gives the game
/// folder of the first library that holds a valid one, and nothing when
/// none does.
pub proof fn lemma_auto_detect_fixed<D: Fn(&Vec<String>) -> bool, F: Fn(&Vec<String>) -> bool>(
    libraries: Seq<Seq<Seq<char>>>,
    is_dir: D,
    is_file: F,
    dir: spec_fn(Seq<Seq<char>>) -> bool,
    file: spec_fn(Seq<Seq<char>>) -> bool,
    r: Option<Seq<Seq<char>>>,
)
    requires
        probes_as(is_dir, dir),
        probes_as(is_file, file),
        match r {
            Some(p) => exists|k: int|
                0 <= k < libraries.len() && p == library_game_dir(libraries[k]) && valid_answer(
                    Some(GAME_DIR@),
                    is_dir,
                    is_file,
                    library_game_dir(libraries[k]),
                    true,
                ) && forall|j: int|
                    0 <= j < k ==> valid_answer(
                        Some(GAME_DIR@),
                        is_dir,
                        is_file,
                        library_game_dir(#[trigger] libraries[j]),
                        false,
                    ),
            None => forall|j: int|
                0 <= j < libraries.len() ==> valid_answer(
                    Some(GAME_DIR@),
                    is_dir,
                    is_file,
                    library_game_dir(#[trigger] libraries[j]),
                    false,
                ),
        },
    ensures
        match r {
            Some(p) => exists|k: int|
                0 <= k < libraries.len() && p == library_game_dir(libraries[k]) && game_dir_ok(
                    Some(GAME_DIR@),
                    dir,
                    file,
                    library_game_dir(libraries[k]),
                ) && forall|j: int|
                    0 <= j < k ==> !game_dir_ok(
                        Some(GAME_DIR@),
                        dir,
                        file,
                        library_game_dir(#[trigger] libraries[j]),
                    ),
            None => forall|j: int|
                0 <= j < libraries.len() ==> !game_dir_ok(
                    Some(GAME_DIR@),
                    dir,
                    file,
                    library_game_dir(#[trigger] libraries[j]),
                ),
        },
{
    match r {
        Some(p) => {
            let k = choose|k: int|
                0 <= k < libraries.len() && p == library_game_dir(libraries[k]) && valid_answer(
                    Some(GAME_DIR@),
                    is_dir,
                    is_file,
                    library_game_dir(libraries[k]),
                    true,
                ) && forall|j: int|
                    0 <= j < k ==> valid_answer(
                        Some(GAME_DIR@),
                        is_dir,
                        is_file,
                        library_game_dir(#[trigger] libraries[j]),
                        false,
                    );
            lemma_valid_dir_fixed(Some(GAME_DIR@), is_dir, is_file, dir, file, library_game_dir(libraries[k]), true);
            assert forall|j: int| 0 <= j < k implies !game_dir_ok(
                Some(GAME_DIR@),
                dir,
                file,
                library_game_dir(#[trigger] libraries[j]),
            ) by {
                lemma_valid_dir_fixed(Some(GAME_DIR@), is_dir, is_file, dir, file, library_game_dir(libraries[j]), false);
            }
        },
        None => {
            assert forall|j: int| 0 <= j < libraries.len() implies !game_dir_ok(
                Some(GAME_DIR@),
                dir,
                file,
                library_game_dir(#[trigger] libraries[j]),
            ) by {
                lemma_valid_dir_fixed(Some(GAME_DIR@), is_dir, is_file, dir, file, library_game_dir(libraries[j]), false);
            }
        },
    }
}

/// What each root's `libraryfolders.vdf` holds, as `text` tells.
pub open spec fn vdf_texts(
    roots: Seq<Seq<Seq<char>>>,
    text: spec_fn(Seq<Seq<char>>) -> Option<Seq<char>>,
) -> Seq<Option<Seq<char>>> {
    Seq::new(roots.len(), |k: int| text(vdf_file(roots[k])))
}

/// With a reader that gives one answer per path, `steam_libraries` gives
/// the ordered set of the roots and of the libraries that their files list.
pub proof fn lemma_libraries_fixed<R: Fn(&Vec<String>) -> Option<String>>(
    roots: Seq<Seq<Seq<char>>>,
    read: R,
    text: spec_fn(Seq<Seq<char>>) -> Option<Seq<char>>,
    answers: Seq<Option<Seq<char>>>,
    out: Seq<Seq<Seq<char>>>,
    win: bool,
)
    requires
        reads_as(read, text),
        answers.len() == roots.len(),
        forall|k: int| 0 <= k < roots.len() ==> read_answer(read, vdf_file(#[trigger] roots[k]), answers[k]),
        is_path_set(out, collect_libraries(roots, answers), win),
    ensures
        is_path_set(out, collect_libraries(roots, vdf_texts(roots, text)), win),
{
    assert forall|k: int| 0 <= k < roots.len() implies answers[k] == #[trigger] vdf_texts(roots, text)[k] by {
        assert(read_answer(read, vdf_file(roots[k]), answers[k]));
        let (q, o) = choose|q: &Vec<String>, o: Option<String>|
            #[trigger] read.ensures((q,), o) && pview(*q) == vdf_file(roots[k]) && ostr(o) == answers[k];
    }
    assert(answers =~= vdf_texts(roots, text));
}

// ---------------------------------------------------------------------------
// Whether the game is running

/// What `str::to_lowercase` gives for `s`.
pub uninterp spec fn lowercase_of(s: Seq<char>) -> Seq<char>;

/// Whether `c` has the Unicode property White_Space.
pub open spec fn is_white_space(c: char) -> bool {
    ('\u{9}' <= c && c <= '\u{d}') || c == ' ' || c == '\u{85}' || c == '\u{a0}' || c == '\u{1680}'
        || ('\u{2000}' <= c && c <= '\u{200a}') || c == '\u{2028}' || c == '\u{2029}' || c
        == '\u{202f}' || c == '\u{205f}' || c == '\u{3000}'
}

/// `s` without its leading White_Space characters.
pub open spec fn trim_start_of(s: Seq<char>) -> Seq<char>
    decreases s.len(),
{
    if s.len() > 0 && is_white_space(s[0]) {
        trim_start_of(s.drop_first())
    } else {
        s
    }
}

/// `s` without its trailing White_Space characters.
pub open spec fn trim_end_of(s: Seq<char>) -> Seq<char>
    decreases s.len(),
{
    if s.len() > 0 && is_white_space(s.last()) {
        trim_end_of(s.drop_last())
    } else {
        s
    }
}

/// `s` without leading and trailing White_Space characters.
pub open spec fn trimmed_of(s: Seq<char>) -> Seq<char> {
    trim_end_of(trim_start_of(s))
}

/// `s` in lower case (`str::to_lowercase`, full Unicode case mapping); the
/// result is named, not stated.
#[verifier::external_body]
fn to_lowercase(s: &str) -> (r: String)
    ensures
        r@ == lowercase_of(s@),
{
    s.to_lowercase()
}

/// Whether `c` has the Unicode property White_Space.
fn white(c: char) -> (r: bool)
    ensures
        r == is_white_space(c),
{
    ('\u{9}' <= c && c <= '\u{d}') || c == ' ' || c == '\u{85}' || c == '\u{a0}' || c == '\u{1680}'
        || ('\u{2000}' <= c && c <= '\u{200a}') || c == '\u{2028}' || c == '\u{2029}' || c
        == '\u{202f}' || c == '\u{205f}' || c == '\u{3000}'
}

/// `s` without leading and trailing whitespace, the characters with the
/// Unicode property White_Space, as `str::trim` gives it.
pub fn trim_text(s: &str) -> (r: &str)
    ensures
        r@ == trimmed_of(s@),
{
    let cs = chars_of(s);
    let n = cs.len();
    let mut a: usize = 0;
    assert(s@.subrange(0, n as int) =~= s@);
    while a < n && white(cs[a])
        invariant
            a <= n,
            n == s@.len(),
            cs@ == s@,
            trim_start_of(s@) == trim_start_of(s@.subrange(a as int, n as int)),
        decreases n - a,
    {
        assert(s@.subrange(a as int, n as int).drop_first() =~= s@.subrange(a + 1, n as int));
        a += 1;
    }
    if a == n {
        assert(s@.subrange(a as int, n as int) =~= Seq::<char>::empty());
    }
    let ghost t1 = s@.subrange(a as int, n as int);
    assert(trim_start_of(s@) == t1);
    let mut b: usize = n;
    assert(s@.subrange(a as int, b as int) =~= t1);
    while b > a && white(cs[b - 1])
        invariant
            a <= b <= n,
            n == s@.len(),
            cs@ == s@,
            t1 == s@.subrange(a as int, n as int),
            trim_end_of(t1) == trim_end_of(s@.subrange(a as int, b as int)),
        decreases b,
    {
        assert(s@.subrange(a as int, b as int).drop_last() =~= s@.subrange(a as int, b - 1));
        b -= 1;
    }
    if b == a {
        assert(s@.subrange(a as int, b as int) =~= Seq::<char>::empty());
    }
    s.substring_char(a, b)
}

/// A process line, already trimmed and in lower case, names the game: it
/// is not empty and holds the game's path, in lower case.
pub open spec fn line_hit(line: Seq<char>, game: Seq<char>) -> bool {
    line.len() > 0 && occurs(line, game)
}

/// Whether the trimmed, lower-case process line `line` holds the lower-case
/// game path `game`.
pub fn line_matches(line: &str, game: &str) -> (r: bool)
    ensures
        r == line_hit(line@, game@),
{
    line.unicode_len() > 0 && contains_text(line, game)
}

/// Some line of the process listing `output` names the game at `game_path`.
pub open spec fn listing_names_game(output: Seq<char>, game_path: Seq<char>) -> bool {
    let game = lowercase_of(game_path);
    let lines = split_lines(output);
    game.len() > 0 && exists|k: int|
        0 <= k < lines.len() && #[trigger] line_hit(lowercase_of(trimmed_of(lines[k])), game)
}

/// Whether the line `line` of a listing names `game`.
fn line_names_game(line: &Vec<char>, game: &str) -> (r: bool)
    ensures
        r == line_hit(lowercase_of(trimmed_of(line@)), game@),
{
    let text = crate::text::string_of(line.as_slice());
    let lower = to_lowercase(trim_text(text.as_str()));
    line_matches(lower.as_str(), game)
}

/// Whether the process listing `output`, one command or executable path per
/// line, names the game installed at `game_path`, case ignored.
pub fn process_output_matches_game(output: &str, game_path: &str) -> (r: bool)
    ensures
        r == listing_names_game(output@, game_path@),
{
    let game = to_lowercase(game_path);
    if game.unicode_len() == 0 {
        return false;
    }
    let cs = crate::text::chars_of(output);
    let mut line: Vec<char> = Vec::new();
    let mut i: usize = 0;
    while i < cs.len()
        invariant
            cs@ == output@,
            game@ == lowercase_of(game_path@),
            game@.len() > 0,
            i <= cs.len(),
            split_lines(output@.take(i as int)).len() >= 1,
            line@ == split_lines(output@.take(i as int)).last(),
            forall|k: int|
                0 <= k < split_lines(output@.take(i as int)).len() - 1 ==> !#[trigger] line_hit(
                    lowercase_of(trimmed_of(split_lines(output@.take(i as int))[k])),
                    game@,
                ),
        decreases cs.len() - i,
    {
        let ghost pre = output@.take(i as int);
        let ghost next = output@.take(i + 1);
        assert(next.drop_last() =~= pre);
        proof {
            lemma_split_lines_nonempty(pre);
        }
        if cs[i] == '\n' {
            if line_names_game(&line, game.as_str()) {
                proof {
                    let ls = split_lines(output@);
                    lemma_split_lines_prefix(output@, i as int + 1);
                    assert(split_lines(next)[split_lines(pre).len() - 1] == line@);
                    assert(ls[split_lines(pre).len() - 1] == line@);
                    assert(line_hit(lowercase_of(trimmed_of(ls[split_lines(pre).len() - 1])), game@));
                }
                return true;
            }
            line = Vec::new();
            assert forall|k: int|
                0 <= k < split_lines(next).len() - 1 implies !#[trigger] line_hit(
                lowercase_of(trimmed_of(split_lines(next)[k])),
                game@,
            ) by {
                assert(split_lines(next)[k] == split_lines(pre)[k]);
            }
        } else {
            line.push(cs[i]);
            assert forall|k: int|
                0 <= k < split_lines(next).len() - 1 implies !#[trigger] line_hit(
                lowercase_of(trimmed_of(split_lines(next)[k])),
                game@,
            ) by {
                assert(split_lines(next)[k] == split_lines(pre)[k]);
            }
        }
        i = i + 1;
    }
    assert(output@.take(cs.len() as int) =~= output@);
    line_names_game(&line, game.as_str())
}

/// The lines of a prefix of `s` that end before the prefix does are lines
/// of `s`.
proof fn lemma_split_lines_prefix(s: Seq<char>, n: int)
    requires
        0 <= n <= s.len(),
    ensures
        split_lines(s.take(n)).len() <= split_lines(s).len(),
        forall|k: int|
            0 <= k < split_lines(s.take(n)).len() - 1 ==> split_lines(s)[k] == #[trigger] split_lines(
                s.take(n),
            )[k],
    decreases s.len() - n,
{
    if n < s.len() {
        let next = s.take(n + 1);
        assert(next.drop_last() =~= s.take(n));
        lemma_split_lines_nonempty(s.take(n));
        lemma_split_lines_prefix(s, n + 1);
        assert forall|k: int| 0 <= k < split_lines(s.take(n)).len() - 1 implies split_lines(s)[k]
            == #[trigger] split_lines(s.take(n))[k] by {
            assert(split_lines(next)[k] == split_lines(s.take(n))[k]);
        }
    } else {
        assert(s.take(n) =~= s);
    }
}

/// Whether the game at `game_path` is running, judged from the process
/// listing `listing`; without a listing, it is taken as not running.
pub fn is_game_running(listing: Option<&str>, game_path: &str) -> (r: bool)
    ensures
        r == match listing {
            Some(o) => listing_names_game(o@, game_path@),
            None => false,
        },
{
    match listing {
        Some(o) => process_output_matches_game(o, game_path),
        None => false,
    }
}

// ---------------------------------------------------------------------------
// The first of several paths that a probe accepts

/// `r` is what asking `f` about `cands` in order gives: the first path it
/// accepted, all before it refused; or nothing, all refused.
pub open spec fn first_answer<P: Fn(&Vec<String>) -> bool>(
    f: P,
    cands: Seq<Seq<Seq<char>>>,
    r: Option<Seq<Seq<char>>>,
) -> bool {
    match r {
        Some(p) => exists|k: int|
            0 <= k < cands.len() && p == cands[k] && answered(f, cands[k], true) && forall|j: int|
                0 <= j < k ==> answered(f, #[trigger] cands[j], false),
        None => forall|j: int| 0 <= j < cands.len() ==> answered(f, #[trigger] cands[j], false),
    }
}

/// The first of `cands` that `f` accepts.
pub fn first_accepted<P: Fn(&Vec<String>) -> bool>(cands: &Vec<Vec<String>>, f: &P) -> (r: Option<
    Vec<String>,
>)
    requires
        forall|q: &Vec<String>| f.requires((q,)),
    ensures
        first_answer(*f, paths_view(*cands), oview(r)),
{
    let mut i: usize = 0;
    while i < cands.len()
        invariant
            i <= cands@.len(),
            forall|q: &Vec<String>| f.requires((q,)),
            forall|j: int| 0 <= j < i ==> answered(*f, #[trigger] paths_view(*cands)[j], false),
        decreases cands.len() - i,
    {
        if probe(f, &cands[i]) {
            let found = copy_path(&cands[i]);
            assert(paths_view(*cands)[i as int] == pview(found));
            return Some(found);
        }
        i = i + 1;
    }
    None
}

} // verus!
