use optimizer_core::manifest::{
    checksum_bytes, classify_modification_state, remove_manifest_files, update_manifest_files,
    InstallManifest, ManifestAction, ManifestFile,
};
use optimizer_core::FileModificationState;

#[test]
fn checksum_is_fnv1a_64_in_hex() {
    let empty: String = checksum_bytes(b"").into_iter().collect();
    assert_eq!(empty, "cbf29ce484222325");
    let a: String = checksum_bytes(b"a").into_iter().collect();
    assert_eq!(a, "af63dc4c8601ec8c");
}

#[test]
fn records_entries_sorted_by_name() {
    let files = vec![
        ManifestFile::from_content("Scalability.ini", "b", 2),
        ManifestFile::from_content("Engine.ini", "a", 1),
    ];
    let manifest = update_manifest_files(None, files);
    let names: Vec<&str> = manifest.files.iter().map(|file| file.file_name.as_str()).collect();
    assert_eq!(names, vec!["Engine.ini", "Scalability.ini"]);
    assert_eq!(manifest.version, 1);
    assert_eq!(manifest.checksum_algorithm, "fnv1a64");
    assert_eq!(manifest.files[0].byte_len, 1);
}

#[test]
fn classifies_files_against_the_manifest() {
    let manifest = update_manifest_files(None, vec![ManifestFile::from_content("Engine.ini", "x=1\n", 5)]);
    let name = "Engine.ini".to_string();
    let same = b"x=1\n".to_vec();
    let other = b"x=2\n".to_vec();
    assert_eq!(
        classify_modification_state(&name, false, None, Some(&manifest)),
        FileModificationState::Missing
    );
    assert_eq!(
        classify_modification_state(&name, true, Some(&same), Some(&manifest)),
        FileModificationState::Unchanged
    );
    assert_eq!(
        classify_modification_state(&name, true, Some(&other), Some(&manifest)),
        FileModificationState::Modified
    );
    assert_eq!(
        classify_modification_state(&name, true, Some(&same), None),
        FileModificationState::Untracked
    );
    assert_eq!(
        classify_modification_state(&"Game.ini".to_string(), true, Some(&same), Some(&manifest)),
        FileModificationState::Untracked
    );
    assert!(FileModificationState::Modified.has_overwrite_risk());
    assert!(!FileModificationState::Missing.has_overwrite_risk());
}

#[test]
fn ignores_manifests_of_another_version() {
    let mut manifest = update_manifest_files(None, vec![ManifestFile::from_content("Engine.ini", "x", 5)]);
    manifest.version = 2;
    assert_eq!(
        classify_modification_state(&"Engine.ini".to_string(), true, Some(&b"x".to_vec()), Some(&manifest)),
        FileModificationState::Untracked
    );
}

#[test]
fn removing_entries_deletes_an_emptied_manifest() {
    let manifest = update_manifest_files(
        None,
        vec![
            ManifestFile::from_content("Engine.ini", "a", 1),
            ManifestFile::from_content("Game.ini", "b", 1),
        ],
    );
    match remove_manifest_files(Some(manifest.clone()), &vec!["Engine.ini".to_string()]) {
        ManifestAction::Write(left) => {
            assert_eq!(left.files.len(), 1);
            assert_eq!(left.files[0].file_name, "Game.ini");
            assert_eq!(
                classify_modification_state(&"Engine.ini".to_string(), true, Some(&b"a".to_vec()), Some(&left)),
                FileModificationState::Untracked
            );
            assert_eq!(
                classify_modification_state(&"Game.ini".to_string(), true, Some(&b"b".to_vec()), Some(&left)),
                FileModificationState::Unchanged
            );
        }
        _ => panic!("expected the manifest to be written back"),
    }
    assert!(matches!(
        remove_manifest_files(
            Some(manifest),
            &vec!["Engine.ini".to_string(), "Game.ini".to_string()]
        ),
        ManifestAction::Delete
    ));
    assert!(matches!(remove_manifest_files(None, &vec![]), ManifestAction::Keep));
    assert_eq!(InstallManifest::empty().files.len(), 0);
}

#[test]
fn a_later_entry_for_the_same_file_wins() {
    let manifest = update_manifest_files(
        None,
        vec![
            ManifestFile::from_content("Engine.ini", "old", 1),
            ManifestFile::from_content("Engine.ini", "new", 2),
        ],
    );
    assert_eq!(manifest.files.len(), 1);
    assert_eq!(manifest.files[0].installed_unix_seconds, 2);
    assert_eq!(
        classify_modification_state(&"Engine.ini".to_string(), true, Some(&b"new".to_vec()), Some(&manifest)),
        FileModificationState::Unchanged
    );
}
