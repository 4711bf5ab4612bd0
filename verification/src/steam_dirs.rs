//! A shorter search for the game: only the Steam roots themselves are
//! looked in, and a folder counts as soon as it exists.

use vstd::prelude::*;

use crate::steam::{
    first_accepted, first_answer, joined, library_game_dir, oview, pair_path, paths_view,
    pview, push_path, GAME_DIR,
};

verus! {

/// The places `app.asar` may be under the install folder `game`, in the
/// order they are tried.
pub open spec fn asar_places(game: Seq<Seq<char>>) -> Seq<Seq<Seq<char>>> {
    seq![
        game + seq!["DevilConnection.app/Contents/Resources/app.asar"@],
        game + seq!["resources/app.asar"@],
    ]
}

/// The game's `app.asar` under `game`: the first of its places that
/// `is_file` accepts.
pub fn find_app_asar<F: Fn(&Vec<String>) -> bool>(game: &Vec<String>, is_file: &F) -> (r: Option<
    Vec<String>,
>)
    requires
        forall|q: &Vec<String>| is_file.requires((q,)),
    ensures
        first_answer(*is_file, asar_places(pview(*game)), oview(r)),
{
    let mut cands: Vec<Vec<String>> = Vec::new();
    let mac = joined(game, "DevilConnection.app/Contents/Resources/app.asar");
    let plain = joined(game, "resources/app.asar");
    assert(pview(mac) =~= asar_places(pview(*game))[0]);
    assert(pview(plain) =~= asar_places(pview(*game))[1]);
    push_path(&mut cands, mac);
    push_path(&mut cands, plain);
    assert(paths_view(cands) =~= asar_places(pview(*game)));
    first_accepted(&cands, is_file)
}

/// The Steam roots to search on Linux under the home folder `home`.
pub fn steam_roots_linux(home: &str) -> (roots: Vec<Vec<String>>)
    ensures
        paths_view(roots) == seq![
            seq![home@, ".local/share/Steam"@],
            seq![home@, ".steam/steam"@],
        ],
{
    let mut roots: Vec<Vec<String>> = Vec::new();
    push_path(&mut roots, pair_path(home, ".local/share/Steam"));
    push_path(&mut roots, pair_path(home, ".steam/steam"));
    assert(paths_view(roots) =~= seq![
        seq![home@, ".local/share/Steam"@],
        seq![home@, ".steam/steam"@],
    ]);
    roots
}

/// The game folder under the first of `roots` where `is_dir` accepts it.
pub fn auto_detect<D: Fn(&Vec<String>) -> bool>(roots: &Vec<Vec<String>>, is_dir: &D) -> (r: Option<
    Vec<String>,
>)
    requires
        forall|q: &Vec<String>| is_dir.requires((q,)),
    ensures
        first_answer(
            *is_dir,
            paths_view(*roots).map_values(|l: Seq<Seq<char>>| library_game_dir(l)),
            oview(r),
        ),
{
    let mut cands: Vec<Vec<String>> = Vec::new();
    let mut i: usize = 0;
    while i < roots.len()
        invariant
            i <= roots@.len(),
            paths_view(cands) == paths_view(*roots).take(i as int).map_values(
                |l: Seq<Seq<char>>| library_game_dir(l),
            ),
        decreases roots.len() - i,
    {
        let common = joined(&roots[i], "steamapps/common");
        let g = joined(&common, GAME_DIR);
        assert(pview(g) =~= library_game_dir(pview(roots@[i as int])));
        push_path(&mut cands, g);
        assert(paths_view(*roots).take(i + 1) =~= paths_view(*roots).take(i as int).push(
            pview(roots@[i as int]),
        ));
        assert(paths_view(cands) =~= paths_view(*roots).take(i + 1).map_values(
            |l: Seq<Seq<char>>| library_game_dir(l),
        ));
        i = i + 1;
    }
    assert(paths_view(*roots).take(roots@.len() as int) =~= paths_view(*roots));
    first_accepted(&cands, is_dir)
}

} // verus!
