use eventfs::backup::{
    created_backup_identifier, next_replacement, normalize_component, paths_overlap,
    start_replacement, validate_backup_directory, validate_import_database_directory,
    BackupDirectory, BackupIdentifier, BackupReceipt, ImportReceipt, NormalizeStep, PathComponent,
    Replacement,
};
use eventfs::error::{ConfigurationError, FilesystemError};
use eventfs::filesystem::EventSequence;

fn path(components: &[&str]) -> Vec<Vec<u8>> {
    components.iter().map(|component| component.as_bytes().to_vec()).collect()
}

#[test]
fn backup_values_are_checked_and_kept() {
    assert_eq!(BackupDirectory::new(Vec::new()), Err(ConfigurationError::EmptyValue));
    let directory = BackupDirectory::new(b"backups".to_vec()).expect("backup path is valid");
    assert_eq!(directory.as_path(), b"backups");
    assert_eq!(directory.clone(), directory);
    assert_eq!(BackupIdentifier::new(0), Err(ConfigurationError::ZeroValue));
    let identifier = BackupIdentifier::new(3).expect("identifier is valid");
    assert_eq!(identifier.get(), 3);
    let receipt = BackupReceipt::new(identifier, EventSequence::new(9));
    assert_eq!(receipt.backup_identifier(), identifier);
    assert_eq!(receipt.source_event_sequence(), EventSequence::new(9));
    let imported = ImportReceipt::new(identifier, EventSequence::new(8));
    assert_eq!(imported.backup_identifier(), identifier);
    assert_eq!(imported.imported_event_sequence(), EventSequence::new(8));
}

#[test]
fn the_created_backup_is_the_new_one() {
    assert_eq!(
        created_backup_identifier(&[1, 2], &[1, 2, 3]).map(BackupIdentifier::get),
        Ok(3)
    );
    assert_eq!(created_backup_identifier(&[1, 2], &[1, 2]), Err(FilesystemError::Backup));
    assert_eq!(
        created_backup_identifier(&[], &[4, 7, 5]).map(BackupIdentifier::get),
        Ok(7)
    );
}

#[test]
fn backups_stay_out_of_the_database() {
    let database = path(&["data", "database"]);
    assert!(paths_overlap(&database, &path(&["data", "database", "inner"])));
    assert!(paths_overlap(&path(&["data"]), &database));
    assert!(!paths_overlap(&database, &path(&["data", "backups"])));
    assert_eq!(
        validate_backup_directory(&database, &database),
        Err(FilesystemError::Backup)
    );
    assert_eq!(validate_backup_directory(&database, &path(&["backups"])), Ok(()));
    assert_eq!(
        validate_import_database_directory(
            b"target",
            Some(path(&["backups"])),
            Some(path(&["backups", "target"])),
        ),
        Err(FilesystemError::Import)
    );
    assert_eq!(
        validate_import_database_directory(
            b"target",
            Some(path(&["backups"])),
            Some(path(&["target"])),
        ),
        Ok(())
    );
    assert_eq!(
        validate_import_database_directory(b"", None, None),
        Err(FilesystemError::Import)
    );
}

#[test]
fn paths_are_normalized_component_by_component() {
    assert_eq!(
        normalize_component(path(&["a"]), PathComponent::Current),
        NormalizeStep::Settled(path(&["a"]))
    );
    assert_eq!(
        normalize_component(path(&["a", "b"]), PathComponent::Parent),
        NormalizeStep::Settled(path(&["a"]))
    );
}

/// Runs a replacement over names that are there, failing the step with a number.
fn run_replacement(target: bool, failing: Option<usize>) -> (Result<(), FilesystemError>, Vec<&'static str>) {
    let mut there: Vec<&'static str> = vec!["new"];
    if target {
        there.push("target");
    }
    let mut old = false;
    let mut state = start_replacement(target);
    let mut step = 0;
    loop {
        let succeeded = failing != Some(step);
        match state {
            Replacement::MovingOld => {
                if succeeded {
                    there.retain(|name| *name != "target");
                    there.push("old");
                    old = true;
                }
            }
            Replacement::MovingNew => {
                if succeeded {
                    there.retain(|name| *name != "new");
                    there.push("imported");
                }
            }
            Replacement::RollingBack => {
                if succeeded {
                    there.retain(|name| *name != "old");
                    there.push("target");
                }
            }
            Replacement::RemovingOld => {
                if succeeded {
                    there.retain(|name| *name != "old");
                }
            }
            Replacement::Finished(result) => return (result, there),
        }
        state = next_replacement(state, succeeded, old);
        step += 1;
    }
}

#[test]
fn replacements_put_the_new_database_in_place() {
    assert_eq!(run_replacement(false, None), (Ok(()), vec!["imported"]));
    assert_eq!(run_replacement(true, None), (Ok(()), vec!["imported"]));
}

#[test]
fn import_fault_during_replacement_after_old_target_move_rolls_back_target_database() {
    let (result, there) = run_replacement(true, Some(1));
    assert_eq!(result, Err(FilesystemError::Import));
    assert_eq!(there, vec!["new", "target"]);
}
