//! What the commands decide.
use i18n_tasks_rs::commands::{
    check_key_count, check_migration_paths, check_overwrite, check_write_flags, no_gem_config,
    normalize_step, removal_step, requested_locales, ExitStatus, RemovalFlags, WriteStep,
    EXIT_FAILURE,
};
use i18n_tasks_rs::report::Outcome;

fn texts(v: &[&str]) -> Vec<String> {
    v.iter().map(|s| s.to_string()).collect()
}

#[test]
fn exit_codes() {
    assert_eq!(ExitStatus::Passed.code(), 0);
    assert_eq!(ExitStatus::Found.code(), 1);
    assert_eq!(EXIT_FAILURE, 2);
    assert_eq!(ExitStatus::found(true), ExitStatus::Found);
    assert_eq!(ExitStatus::of_outcome(Outcome::Clean), ExitStatus::Passed);
}

#[test]
fn locales_come_from_the_flag_and_from_the_arguments() {
    assert_eq!(
        requested_locales(&texts(&["de", "fr"]), &texts(&["en"])),
        texts(&["de", "fr", "en"])
    );
    assert!(requested_locales(&vec![], &vec![]).is_empty());
}

#[test]
fn a_write_contradicts_a_dry_run() {
    assert_eq!(
        check_write_flags(true, true),
        Err("`--write` and `--dry-run` contradict each other".to_string())
    );
    assert_eq!(check_write_flags(true, false), Ok(()));
    assert_eq!(check_write_flags(false, true), Ok(()));
}

#[test]
fn an_existing_file_is_kept_unless_forced() {
    assert_eq!(
        check_overwrite("a.yml", true, false),
        Err("a.yml already exists. Pass `--force` to overwrite it.".to_string())
    );
    assert_eq!(check_overwrite("a.yml", true, true), Ok(()));
    assert_eq!(check_overwrite("a.yml", false, false), Ok(()));
}

#[test]
fn a_migration_needs_two_files() {
    assert_eq!(
        check_migration_paths("config/a.yml", "config/a.yml"),
        Err("`--from` and `--to` are the same file".to_string())
    );
    assert_eq!(check_migration_paths("a.yml", "b.yml"), Ok(()));
    assert_eq!(
        no_gem_config("/project"),
        "no gem config found. Looked for config/i18n-tasks.yml and config/i18n-tasks.yml.erb \
         under /project. Name one with `--from`."
    );
}

#[test]
fn nothing_is_written_unasked() {
    assert!(matches!(normalize_step(false, true, 3), WriteStep::PlanOnly));
    assert!(matches!(normalize_step(true, false, 0), WriteStep::Apply));
    assert!(matches!(normalize_step(true, true, 3), WriteStep::Apply));
    assert!(matches!(
        normalize_step(true, false, 1),
        WriteStep::Refuse(e)
            if e == "refusing to delete the files listed above. Pass `--allow-delete` to allow it."
    ));
}

#[test]
fn keys_are_not_removed_while_calls_are_unknown() {
    let flags = |write: bool, allow_delete: bool, allow_opaque: bool| RemovalFlags {
        write,
        allow_delete,
        allow_opaque,
    };
    assert!(matches!(removal_step(&flags(false, true, true), 0, 0), WriteStep::PlanOnly));
    assert!(matches!(
        removal_step(&flags(true, true, false), 2, 1),
        WriteStep::Refuse(e) if e.starts_with("refusing to remove keys while 2 translation call(s)")
    ));
    assert!(matches!(
        removal_step(&flags(true, false, true), 2, 1),
        WriteStep::Refuse(e) if e.starts_with("refusing to delete the files")
    ));
    assert!(matches!(removal_step(&flags(true, true, true), 2, 1), WriteStep::Apply));
}

#[test]
fn a_run_without_keys_is_an_error() {
    assert_eq!(
        check_key_count(0),
        Err("no keys detected. Check `data.read` and the working directory.".to_string())
    );
    assert_eq!(check_key_count(1), Ok(()));
}
