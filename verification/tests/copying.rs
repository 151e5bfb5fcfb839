use jarcopy::copier::CopyOutcome;
use jarcopy::copier::copy_outcome;
use jarcopy::copier::dest_path;
use jarcopy::copier::file_name;

#[test]
fn missing_source_is_skipped() {
    assert_eq!(copy_outcome(false, false), CopyOutcome::SkippedMissingSource);
    // A missing source is skipped whatever sits at the destination.
    assert_eq!(copy_outcome(false, true), CopyOutcome::SkippedMissingSource);
}

#[test]
fn existing_destination_is_left_untouched() {
    assert_eq!(copy_outcome(true, true), CopyOutcome::SkippedDestinationExists);
}

#[test]
fn present_source_and_free_destination_copy() {
    assert_eq!(copy_outcome(true, false), CopyOutcome::Copied);
}

#[test]
fn file_name_takes_what_follows_the_last_separator() {
    assert_eq!(
        file_name("/home/u/.m2/repository/junit/junit/4.13.2/junit-4.13.2.jar"),
        "junit-4.13.2.jar"
    );
}

#[test]
fn file_name_of_a_bare_name_is_the_name() {
    assert_eq!(file_name("junit-4.13.2.jar"), "junit-4.13.2.jar");
}

#[test]
fn destination_keeps_the_file_name() {
    assert_eq!(
        dest_path("/dest", "/home/u/.m2/repository/com/google/api/api-common/1.10.4/api-common-1.10.4.jar"),
        "/dest/api-common-1.10.4.jar"
    );
}
