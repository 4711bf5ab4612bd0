use devil_connection_patcher::steam::trim_text;
use devil_connection_patcher::steam::{
    auto_detect, find_app_asar, is_game_running, is_valid_game_dir, library_paths, other_drives,
    library_candidates, process_output_matches_game, quoted_fields, steam_libraries, steam_roots_linux,
    steam_roots_macos, steam_roots_windows, unescape_vdf_path, GAME_DIR,
};
use devil_connection_patcher::path_order::path_set;
use std::cell::RefCell;

fn s(x: &str) -> String {
    x.to_string()
}

fn p(parts: &[&str]) -> Vec<String> {
    parts.iter().map(|x| s(x)).collect()
}

#[test]
fn quoted_fields_of_vdf_lines() {
    assert_eq!(quoted_fields(r#"		"path"		"C:\\Games\\Steam""#), vec![s("path"), s(r"C:\\Games\\Steam")]);
    assert_eq!(quoted_fields(r#""a" "b" "c"#), vec![s("a"), s("b")]);
    assert_eq!(quoted_fields("no quotes"), Vec::<String>::new());
    assert_eq!(quoted_fields(r#""""#), vec![s("")]);
}

#[test]
fn unescape_collapses_double_backslashes() {
    assert_eq!(unescape_vdf_path(r"C:\\Program Files\\Steam"), r"C:\Program Files\Steam");
    assert_eq!(unescape_vdf_path(r"a\\\b"), r"a\\b");
    assert_eq!(unescape_vdf_path("/home/u/Steam"), "/home/u/Steam");
}

#[test]
fn library_paths_from_vdf() {
    let vdf = "\"libraryfolders\"\n{\n\t\"0\"\n\t{\n\t\t\"path\"\t\t\"C:\\\\Program Files (x86)\\\\Steam\"\n\t\t\"label\"\t\t\"\"\n\t}\n\t\"1\"\n\t{\n\t\t\"path\"\t\t\"D:\\\\SteamLibrary\"\r\n\t}\n}\n";
    assert_eq!(
        library_paths(vdf),
        vec![s(r"C:\Program Files (x86)\Steam"), s(r"D:\SteamLibrary")]
    );
    assert_eq!(library_paths(""), Vec::<String>::new());
    assert_eq!(library_paths("\"path\""), Vec::<String>::new());
}

#[test]
fn drive_letters_from_mask() {
    assert_eq!(other_drives(0b1101), vec!['A', 'D']);
    assert_eq!(other_drives(0), Vec::<char>::new());
    assert_eq!(other_drives(1 << 25), vec!['Z']);
    assert_eq!(other_drives(1 << 26), Vec::<char>::new());
}

#[test]
fn roots_of_each_platform() {
    let w = steam_roots_windows(&vec!['D']);
    assert_eq!(w.len(), 6);
    assert_eq!(w[0], p(&[r"C:\Program Files (x86)\Steam"]));
    assert_eq!(w[1], p(&[r"C:\Program Files\Steam"]));
    assert_eq!(w[2], p(&[r"D:\Steam"]));
    assert_eq!(w[5], p(&[r"D:\SteamLibrary"]));
    assert_eq!(steam_roots_macos("/Users/u"), vec![p(&["/Users/u", "Library/Application Support/Steam"])]);
    let l = steam_roots_linux("/home/u");
    assert_eq!(l.len(), 6);
    assert_eq!(l[0], p(&["/home/u", ".local/share/Steam"]));
    assert_eq!(l[5], p(&["/home/u", "snap/steam/common/.steam/steam"]));
}

#[test]
fn app_asar_prefers_the_mac_bundle() {
    let game = p(&["/g"]);
    let both = |q: &Vec<String>| q.len() > 1;
    assert_eq!(
        find_app_asar(&game, &both),
        Some(p(&["/g", "DevilConnection.app", "Contents/Resources/app.asar"]))
    );
    let plain = |q: &Vec<String>| q.last().map(|x| x == "resources/app.asar").unwrap_or(false);
    assert_eq!(find_app_asar(&game, &plain), Some(p(&["/g", "resources/app.asar"])));
    let none = |_: &Vec<String>| false;
    assert_eq!(find_app_asar(&game, &none), None);
}

#[test]
fn game_dir_checks() {
    let game = p(&["/lib/steamapps/common/でびるコネクショん"]);
    let dir_res = |q: &Vec<String>| q.last().map(|x| x == "resources").unwrap_or(false);
    let file_res = |q: &Vec<String>| q.last().map(|x| x == "resources/app.asar").unwrap_or(false);
    let never = |_: &Vec<String>| false;
    assert!(is_valid_game_dir(Some(GAME_DIR), &game, &dir_res, &file_res));
    assert!(!is_valid_game_dir(Some("other"), &game, &dir_res, &file_res));
    assert!(!is_valid_game_dir(None, &game, &dir_res, &file_res));
    assert!(!is_valid_game_dir(Some(GAME_DIR), &game, &never, &file_res));
    assert!(!is_valid_game_dir(Some(GAME_DIR), &game, &dir_res, &never));
}

#[test]
fn auto_detect_takes_first_valid_library() {
    let libs = vec![p(&["/a"]), p(&["/b"]), p(&["/c"])];
    let is_dir = |q: &Vec<String>| q[0] != "/a" && q.last().map(|x| x == "resources").unwrap_or(false);
    let is_file = |q: &Vec<String>| q.last().map(|x| x == "resources/app.asar").unwrap_or(false);
    assert_eq!(
        auto_detect(&libs, &is_dir, &is_file),
        Some(p(&["/b", "steamapps/common", GAME_DIR]))
    );
    let never = |_: &Vec<String>| false;
    assert_eq!(auto_detect(&libs, &never, &is_file), None);
}

#[test]
fn libraries_follow_their_roots() {
    let roots = vec![p(&["/r1"]), p(&["/r2"])];
    let asked = RefCell::new(Vec::new());
    let read = |q: &Vec<String>| {
        asked.borrow_mut().push(q.clone());
        if q[0] == "/r1" {
            Some(s("\"path\" \"/lib1\"\n\"path\" \"/lib2\""))
        } else {
            None
        }
    };
    let listed = library_candidates(&roots, &read);
    assert_eq!(listed, vec![p(&["/r1"]), p(&["/lib1"]), p(&["/lib2"]), p(&["/r2"])]);
    assert_eq!(asked.borrow()[0], p(&["/r1", "steamapps/libraryfolders.vdf"]));
    let libs = steam_libraries(&roots, &read, false);
    assert_eq!(libs, vec![p(&["/lib1"]), p(&["/lib2"]), p(&["/r1"]), p(&["/r2"])]);
}

#[test]
fn libraries_form_an_ordered_set_of_paths() {
    let roots = vec![p(&["/home/u", ".steam/steam"]), p(&["/a-c"])];
    let read = |q: &Vec<String>| {
        if q[0] == "/home/u" {
            Some(s("\"path\" \"/home/u/.steam/steam/\"\n\"path\" \"/a/b\"\n\"path\" \"/a//b\""))
        } else {
            None
        }
    };
    let libs = steam_libraries(&roots, &read, false);
    assert_eq!(libs, vec![p(&["/a/b"]), p(&["/a-c"]), p(&["/home/u", ".steam/steam"])]);
}

#[test]
fn windows_paths_compare_by_components() {
    let paths = vec![p(&["D:\\Steam Library"]), p(&["C:\\a\\b"]), p(&["C:/a/b"]), p(&["C:\\a b"])];
    let set = path_set(&paths, true);
    assert_eq!(set, vec![p(&["C:\\a\\b"]), p(&["C:\\a b"]), p(&["D:\\Steam Library"])]);
    let unix = path_set(&vec![p(&["./x"]), p(&["x"]), p(&["../x"]), p(&["/x"])], false);
    assert_eq!(unix, vec![p(&["/x"]), p(&["./x"]), p(&["../x"]), p(&["x"])]);
}

#[test]
fn running_game_detection() {
    let out = "/usr/bin/bash\n  /Games/SteamLibrary/steamapps/common/でびるコネクショん/Game.exe  \r\n";
    assert!(process_output_matches_game(out, "/GAMES/steamlibrary/steamapps/common/でびるコネクショん"));
    assert!(!process_output_matches_game(out, "/other"));
    assert!(!process_output_matches_game(out, ""));
    assert!(!process_output_matches_game("", "/x"));
    assert!(!process_output_matches_game("   \n\t\n", " "));
    assert!(process_output_matches_game("a b\n", " "));
    assert!(is_game_running(Some(out), "/games/steamlibrary"));
    assert!(!is_game_running(None, "/games"));
}

#[test]
fn path_set_orders_as_std_orders_paths() {
    let texts = [
        "/a/b", "/a-c", "/a//b/", "./x", "x", "../x", "/x", "a/./b", "a/b", "/", ".", "a/..", "b",
        "/a b", "/a/b/c", "./", ".//x", "a/.", "/.", "..", "/home/u/.steam",
    ];
    let mut paths: Vec<Vec<String>> = texts.iter().map(|t| p(&[t])).collect();
    paths.push(p(&["/home/u", ".steam"]));
    paths.push(p(&["/home/u", "/abs"]));
    let ours: Vec<std::path::PathBuf> = path_set(&paths, false)
        .iter()
        .map(|c| {
            let mut b = std::path::PathBuf::new();
            for part in c {
                b.push(part);
            }
            b
        })
        .collect();
    let mut std_set = std::collections::BTreeSet::new();
    for c in &paths {
        let mut b = std::path::PathBuf::new();
        for part in c {
            b.push(part);
        }
        std_set.insert(b);
    }
    let theirs: Vec<std::path::PathBuf> = std_set.into_iter().collect();
    assert_eq!(ours, theirs);
}

#[test]
fn trimming_removes_unicode_white_space() {
    assert_eq!(trim_text(" \t\u{3000}C:\\게임 \u{a0}\n"), "C:\\게임");
    assert_eq!(trim_text("\u{2028}"), "");
    assert_eq!(trim_text("a b"), "a b");
    for s in [" x ", "\u{85}y\u{205f}", "", "  "] {
        assert_eq!(trim_text(s), s.trim());
    }
}
