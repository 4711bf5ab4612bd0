//! Finding the game on Windows by walking every drive for a Steam folder,
//! and the location of its `app.asar`.

use vstd::prelude::*;

use crate::steam::{
    answered, first_accepted, first_answer, joined, oview, paths_view, probe,
    pview, single, steam_roots_windows, windows_roots, GAME_DIR,
};

verus! {

/// The drive letters whose Steam folders are searched: `B` to `Z`.
pub open spec fn drive_range() -> Seq<char> {
    Seq::new(25, |i: int| (66 + i) as char)
}

/// The letters of `ls` whose answer in `bs` is yes, in order.
pub open spec fn select(ls: Seq<char>, bs: Seq<bool>) -> Seq<char>
    decreases ls.len(),
{
    if ls.len() == 0 || bs.len() == 0 {
        seq![]
    } else {
        select(ls.drop_last(), bs.drop_last()) + if bs.last() {
            seq![ls.last()]
        } else {
            seq![]
        }
    }
}

/// The root folder of drive `d`.
pub open spec fn drive_root(d: char) -> Seq<Seq<char>> {
    single(seq![d] + ":\\"@)
}

/// The drives of `B` to `Z` whose root `exists` accepts.
fn present_drives<P: Fn(&Vec<String>) -> bool>(exists: &P) -> (ds: Vec<char>)
    requires
        forall|q: &Vec<String>| exists.requires((q,)),
    ensures
        exists|bs: Seq<bool>|
            #![trigger select(drive_range(), bs)]
            bs.len() == 25 && (forall|i: int|
                0 <= i < 25 ==> answered(*exists, drive_root(#[trigger] drive_range()[i]), bs[i]))
                && ds@ == select(drive_range(), bs),
{
    let mut ds: Vec<char> = Vec::new();
    let ghost mut bs: Seq<bool> = seq![];
    let mut i: u8 = 0;
    while i < 25
        invariant
            i <= 25,
            forall|q: &Vec<String>| exists.requires((q,)),
            bs.len() == i,
            forall|k: int|
                0 <= k < i ==> answered(*exists, drive_root(#[trigger] drive_range()[k]), bs[k]),
            ds@ == select(drive_range().take(i as int), bs),
        decreases 25 - i,
    {
        let d = (66u8 + i) as char;
        let mut root_text = String::new();
        crate::text::push_char(&mut root_text, d);
        root_text.append(":\\");
        let mut root: Vec<String> = Vec::new();
        root.push(root_text);
        assert(pview(root) =~= drive_root(d));
        let present = probe(exists, &root);
        if present {
            ds.push(d);
        }
        proof {
            assert(drive_range()[i as int] == d);
            assert(drive_range().take(i + 1).drop_last() =~= drive_range().take(i as int));
            assert(bs.push(present).drop_last() =~= bs);
            bs = bs.push(present);
        }
        i = i + 1;
    }
    assert(drive_range().take(25) =~= drive_range());
    ds
}

/// Where the game sits under a Steam root.
pub open spec fn game_under(root: Seq<Seq<char>>) -> Seq<Seq<char>> {
    root + seq!["steamapps"@, "common"@, GAME_DIR@]
}

/// The game folders under each of `roots`.
pub fn game_candidates(roots: &Vec<Vec<String>>) -> (c: Vec<Vec<String>>)
    ensures
        paths_view(c) == paths_view(*roots).map_values(|r: Seq<Seq<char>>| game_under(r)),
{
    let mut c: Vec<Vec<String>> = Vec::new();
    let mut i: usize = 0;
    while i < roots.len()
        invariant
            i <= roots@.len(),
            paths_view(c) == paths_view(*roots).take(i as int).map_values(
                |r: Seq<Seq<char>>| game_under(r),
            ),
        decreases roots.len() - i,
    {
        let a = joined(&roots[i], "steamapps");
        let b = joined(&a, "common");
        let g = joined(&b, GAME_DIR);
        let ghost before = c;
        c.push(g);
        assert(pview(g) =~= game_under(pview(roots@[i as int])));
        assert(paths_view(c) =~= paths_view(before).push(pview(g)));
        assert(paths_view(*roots).take(i + 1) =~= paths_view(*roots).take(i as int).push(
            pview(roots@[i as int]),
        ));
        assert(paths_view(c) =~= paths_view(*roots).take(i + 1).map_values(
            |r: Seq<Seq<char>>| game_under(r),
        ));
        i = i + 1;
    }
    assert(paths_view(*roots).take(roots@.len() as int) =~= paths_view(*roots));
    c
}

/// The game's install folder on Windows: the Steam roots are the two
/// standard ones on `C:` and four places on each drive from `B` to `Z` whose
/// root `exists` accepts; the first root under which the game folder exists
/// is taken.
pub fn find_game<P: Fn(&Vec<String>) -> bool>(exists: &P) -> (r: Option<Vec<String>>)
    requires
        forall|q: &Vec<String>| exists.requires((q,)),
    ensures
        exists|bs: Seq<bool>|
            #![trigger select(drive_range(), bs)]
            bs.len() == 25 && (forall|i: int|
                0 <= i < 25 ==> answered(*exists, drive_root(#[trigger] drive_range()[i]), bs[i]))
                && first_answer(
                *exists,
                windows_roots(select(drive_range(), bs)).map_values(
                    |r: Seq<Seq<char>>| game_under(r),
                ),
                oview(r),
            ),
{
    let ds = present_drives(exists);
    let roots = steam_roots_windows(&ds);
    let cands = game_candidates(&roots);
    first_accepted(&cands, exists)
}

/// Where the game keeps `app.asar` under its install folder.
pub open spec fn resources_asar(game: Seq<Seq<char>>) -> Seq<Seq<char>> {
    game + seq!["resources"@, "app.asar"@]
}

/// The game's `app.asar` under the install folder `game`, if `is_file`
/// accepts it.
pub fn find_app_asar<F: Fn(&Vec<String>) -> bool>(game: &Vec<String>, is_file: &F) -> (r: Option<
    Vec<String>,
>)
    requires
        forall|q: &Vec<String>| is_file.requires((q,)),
    ensures
        match r {
            Some(p) => pview(p) == resources_asar(pview(*game)) && answered(
                *is_file,
                resources_asar(pview(*game)),
                true,
            ),
            None => answered(*is_file, resources_asar(pview(*game)), false),
        },
{
    let res = joined(game, "resources");
    let candidate = joined(&res, "app.asar");
    assert(pview(candidate) =~= resources_asar(pview(*game)));
    if probe(is_file, &candidate) {
        Some(candidate)
    } else {
        None
    }
}

} // verus!
