use devil_connection_patcher::detect::{find_app_asar, find_game, game_candidates};
use devil_connection_patcher::steam::GAME_DIR;
use devil_connection_patcher::steam_dirs;

fn s(x: &str) -> String {
    x.to_string()
}

fn p(parts: &[&str]) -> Vec<String> {
    parts.iter().map(|x| s(x)).collect()
}

#[test]
fn find_game_walks_present_drives() {
    let exists = |q: &Vec<String>| {
        q.len() == 1 && q[0] == "E:\\" || q.len() == 4 && q[0] == "E:\\SteamLibrary"
    };
    assert_eq!(
        find_game(&exists),
        Some(p(&["E:\\SteamLibrary", "steamapps", "common", GAME_DIR]))
    );
    let nothing = |_: &Vec<String>| false;
    assert_eq!(find_game(&nothing), None);
    let standard = |q: &Vec<String>| q.len() == 4 && q[0] == "C:\\Program Files\\Steam";
    assert_eq!(
        find_game(&standard),
        Some(p(&["C:\\Program Files\\Steam", "steamapps", "common", GAME_DIR]))
    );
}

#[test]
fn game_candidates_under_roots() {
    let c = game_candidates(&vec![p(&["R"])]);
    assert_eq!(c, vec![p(&["R", "steamapps", "common", GAME_DIR])]);
}

#[test]
fn asar_under_resources() {
    let yes = |_: &Vec<String>| true;
    let no = |_: &Vec<String>| false;
    assert_eq!(find_app_asar(&p(&["/g"]), &yes), Some(p(&["/g", "resources", "app.asar"])));
    assert_eq!(find_app_asar(&p(&["/g"]), &no), None);
}

#[test]
fn short_search() {
    let roots = steam_dirs::steam_roots_linux("/h");
    assert_eq!(roots, vec![p(&["/h", ".local/share/Steam"]), p(&["/h", ".steam/steam"])]);
    let is_dir = |q: &Vec<String>| q[1] == ".steam/steam";
    assert_eq!(
        steam_dirs::auto_detect(&roots, &is_dir),
        Some(p(&["/h", ".steam/steam", "steamapps/common", GAME_DIR]))
    );
    let yes = |_: &Vec<String>| true;
    assert_eq!(
        steam_dirs::find_app_asar(&p(&["/g"]), &yes),
        Some(p(&["/g", "DevilConnection.app/Contents/Resources/app.asar"]))
    );
}
