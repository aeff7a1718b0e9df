use optimizer_core::paths::{
    dedup_paths, library_paths, normalize_for_dedup, parse_steam_installdir, parse_steam_library_path,
    steam_install_dir, steam_proton_label, ExecutableProbe, SteamLibraryProbe,
};
use optimizer_core::{
    detect_config_paths, launch_candidates_from_steamapps_roots, ConfigCandidate, LaunchCandidateKind,
};

fn library(root: &str, manifest: bool, executables: &[(&str, bool)]) -> SteamLibraryProbe {
    SteamLibraryProbe {
        appmanifest_path: format!("{root}/appmanifest_1297900.acf"),
        appmanifest_is_file: manifest,
        executables: executables
            .iter()
            .map(|(path, is_file)| ExecutableProbe {
                path: path.to_string(),
                is_file: *is_file,
            })
            .collect(),
    }
}

#[test]
fn parses_steam_library_path_lines() {
    assert_eq!(
        parse_steam_library_path(r#""path" "/gaming/SteamLibrary""#),
        Some("/gaming/SteamLibrary".to_string())
    );
    assert_eq!(parse_steam_library_path(r#""apps" "1297900""#), None);
}

#[test]
fn parses_windows_library_paths_and_install_dirs() {
    assert_eq!(
        parse_steam_library_path("\t\t\"path\"\t\t\"D:\\\\SteamLibrary\""),
        Some("D:\\SteamLibrary".to_string())
    );
    assert_eq!(
        parse_steam_installdir("\t\"installdir\"\t\t\"Gothic 1 Remake\""),
        Some("Gothic 1 Remake".to_string())
    );
    assert_eq!(parse_steam_installdir("\"installdir\""), None);
}

#[test]
fn lists_library_paths_of_a_libraryfolders_file() {
    let content = "\"libraryfolders\"\r\n{\r\n\t\"0\"\r\n\t{\r\n\t\t\"path\"\t\t\"/home/user/.local/share/Steam\"\r\n\t}\r\n\t\"1\"\r\n\t{\r\n\t\t\"path\"\t\t\"/mnt/games/SteamLibrary\"\r\n\t}\r\n}\r\n";
    assert_eq!(
        library_paths(content),
        vec!["/home/user/.local/share/Steam".to_string(), "/mnt/games/SteamLibrary".to_string()]
    );
}

#[test]
fn install_dir_defaults_to_the_game_name() {
    assert_eq!(steam_install_dir(None), "Gothic 1 Remake");
    assert_eq!(steam_install_dir(Some("\"appid\" \"1297900\"")), "Gothic 1 Remake");
    assert_eq!(
        steam_install_dir(Some("\"appid\" \"1297900\"\n\"installdir\" \"G1R\"\n\"installdir\" \"Other\"")),
        "G1R"
    );
}

#[test]
fn detects_steam_launch_candidate_from_appmanifest() {
    let candidates = launch_candidates_from_steamapps_roots(
        &vec![library("/games/SteamLibrary/steamapps", true, &[])],
        None,
    );

    assert_eq!(candidates[0].kind, LaunchCandidateKind::Steam);
    assert_eq!(candidates[0].label, "Steam: Gothic 1 Remake");
    assert!(candidates[0].exists);
}

#[test]
fn steam_launch_candidate_is_preferred_over_executable() {
    let root = "/games/SteamLibrary/steamapps";
    let candidates = launch_candidates_from_steamapps_roots(
        &vec![library(
            root,
            true,
            &[
                ("/games/SteamLibrary/steamapps/common/Gothic 1 Remake/G1R.exe", true),
                ("/games/SteamLibrary/steamapps/common/Gothic 1 Remake/Gothic1Remake.exe", false),
            ],
        )],
        None,
    );

    assert_eq!(candidates[0].kind, LaunchCandidateKind::Steam);
    assert!(candidates
        .iter()
        .any(|candidate| candidate.kind == LaunchCandidateKind::Executable));
    assert_eq!(candidates.len(), 2);
}

#[test]
fn includes_valid_manual_executable_candidate() {
    let candidates = launch_candidates_from_steamapps_roots(
        &vec![],
        Some(ExecutableProbe {
            path: "/tmp/G1R.exe".to_string(),
            is_file: true,
        }),
    );

    assert_eq!(candidates[0].kind, LaunchCandidateKind::Executable);
    assert_eq!(candidates[0].source, "manual");
    assert!(candidates[0].exists);
}

#[test]
fn marks_missing_manual_executable_candidate() {
    let candidates = launch_candidates_from_steamapps_roots(
        &vec![],
        Some(ExecutableProbe {
            path: "/tmp/Missing.exe".to_string(),
            is_file: false,
        }),
    );

    assert_eq!(candidates[0].kind, LaunchCandidateKind::Executable);
    assert_eq!(candidates[0].source, "manual");
    assert!(!candidates[0].exists);
}

#[test]
fn launch_candidates_are_listed_once_per_id() {
    let candidates = launch_candidates_from_steamapps_roots(
        &vec![
            library("/games/Lib/steamapps", true, &[]),
            library("/GAMES/lib/steamapps", true, &[]),
            library("/other/steamapps", false, &[("/other/steamapps/common/x/G1R.exe", true)]),
        ],
        Some(ExecutableProbe {
            path: "C:\\Games\\G1R.exe".to_string(),
            is_file: true,
        }),
    );
    let ids: Vec<&str> = candidates.iter().map(|candidate| candidate.id.as_str()).collect();
    assert_eq!(
        ids,
        vec!["steam:/games/lib/steamapps/appmanifest_1297900.acf", "manual:c:/games/g1r.exe"]
    );
}

#[test]
fn normalizes_paths_for_dedup() {
    assert_eq!(normalize_for_dedup("C:\\Users\\Ärger\\Saved"), "c:/users/ärger/saved");
    assert_eq!(
        dedup_paths(&vec![
            "/home/u/.steam/steam/steamapps".to_string(),
            "/HOME/u/.steam/steam/steamapps".to_string(),
            "/mnt/lib/steamapps".to_string(),
        ]),
        vec!["/home/u/.steam/steam/steamapps".to_string(), "/mnt/lib/steamapps".to_string()]
    );
}

#[test]
fn config_paths_are_listed_once_per_folder() {
    let candidate = |label: &str, path: &str| ConfigCandidate {
        label: label.to_string(),
        path: path.to_string(),
        exists: false,
        source: "Steam library".to_string(),
    };
    let candidates = detect_config_paths(&vec![
        candidate("Linux Steam Proton", "/home/u/.steam/steam/steamapps/compatdata/1297900"),
        candidate("Linux Steam Proton", "/home/u/.STEAM/steam/steamapps/compatdata/1297900"),
        candidate("Linux Flatpak Steam Proton", "/home/u/.var/app/x"),
    ]);
    assert_eq!(candidates.len(), 2);
    assert_eq!(candidates[1].label, "Linux Flatpak Steam Proton");
}

#[test]
fn labels_flatpak_steam_libraries() {
    assert_eq!(
        steam_proton_label("/home/u/.var/app/com.valvesoftware.Steam/.local/share/Steam/steamapps"),
        "Linux Flatpak Steam Proton"
    );
    assert_eq!(steam_proton_label("/home/u/.steam/steam/steamapps"), "Linux Steam Proton");
}
