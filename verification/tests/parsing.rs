use jarcopy::copier::file_name;
use jarcopy::parser::Coordinate;
use jarcopy::parser::ParseErrorKind;
use jarcopy::parser::parse;
use jarcopy::parser::parse_all;
use jarcopy::parser::parse_coordinate;
use jarcopy::parser::resolve;
use jarcopy::parser::split_jar_file_name;

const REPO: &str = "/home/u/.m2/repository";

#[test]
fn typical_tree_line_resolves() {
    let r = parse(REPO, "[INFO] +- com.google.api:api-common:jar:1.10.4:compile");
    assert_eq!(
        r.unwrap(),
        "/home/u/.m2/repository/com/google/api/api-common/1.10.4/api-common-1.10.4.jar"
    );
}

#[test]
fn line_without_prefix_resolves() {
    let r = parse(REPO, "com.google.api:api-common:jar:1.10.4:compile");
    assert_eq!(
        r.unwrap(),
        "/home/u/.m2/repository/com/google/api/api-common/1.10.4/api-common-1.10.4.jar"
    );
}

#[test]
fn empty_scope_is_accepted() {
    let r = parse(REPO, "[INFO] \\- org.example:thing:jar:2.3.4:");
    assert_eq!(
        r.unwrap(),
        "/home/u/.m2/repository/org/example/thing/2.3.4/thing-2.3.4.jar"
    );
}

#[test]
fn group_without_dots_resolves() {
    let r = parse(REPO, "[INFO] |  +- junit:junit:jar:4.13.2:test");
    assert_eq!(r.unwrap(), "/home/u/.m2/repository/junit/junit/4.13.2/junit-4.13.2.jar");
}

#[test]
fn first_coordinate_on_the_line_wins() {
    let r = parse("/r", "g1:a1:jar:1:c g2:a2:jar:2:c");
    assert_eq!(r.unwrap(), "/r/g1/a1/1/a1-1.jar");
}

#[test]
fn tokens_before_the_coordinate_are_ignored() {
    let r = parse("/r", "weird.token.with.dots +- com.g:a:jar:1.0:test");
    assert_eq!(r.unwrap(), "/r/com/g/a/1.0/a-1.0.jar");
}

#[test]
fn line_without_jar_is_rejected() {
    let line = "[INFO] com.google.api:api-common:war:1.10.4:compile";
    let e = parse(REPO, line).unwrap_err();
    assert_eq!(e.kind, ParseErrorKind::NotAJarDependency);
    assert_eq!(e.line, line);
}

#[test]
fn jar_without_shape_is_rejected() {
    let line = "this line only mentions a jar";
    let e = parse(REPO, line).unwrap_err();
    assert_eq!(e.kind, ParseErrorKind::RegexNoMatch);
    assert_eq!(e.line, line);
}

#[test]
fn jar_marker_at_token_start_does_not_match() {
    let e = parse(REPO, ":jar:1.10.4:compile").unwrap_err();
    assert_eq!(e.kind, ParseErrorKind::RegexNoMatch);
}

#[test]
fn marker_without_trailing_colon_does_not_match() {
    let e = parse(REPO, "[INFO] +- com.google.api:api-common:jar:1.10.4").unwrap_err();
    assert_eq!(e.kind, ParseErrorKind::RegexNoMatch);
}

#[test]
fn unicode_whitespace_ends_a_run() {
    // A no-break space is whitespace: the marker then starts its token, with
    // nothing before it, so nothing matches.
    let e = parse(REPO, "\u{00a0}:jar:xx:").unwrap_err();
    assert_eq!(e.kind, ParseErrorKind::RegexNoMatch);
    // It also separates tokens: the group starts after it.
    let r = parse("/r", "x\u{00a0}g:a:jar:1:c");
    assert_eq!(r.unwrap(), "/r/g/a/1/a-1.jar");
}

#[test]
fn empty_group_is_rejected() {
    let line = " :a:jar:1:c";
    let e = parse(REPO, line).unwrap_err();
    assert_eq!(e.kind, ParseErrorKind::InvalidFormat);
    assert_eq!(e.line, line);
}

#[test]
fn empty_artifact_is_rejected() {
    let e = parse(REPO, "g::jar:1:c").unwrap_err();
    assert_eq!(e.kind, ParseErrorKind::InvalidFormat);
}

#[test]
fn empty_version_is_rejected() {
    let e = parse(REPO, "aa:jar:x::").unwrap_err();
    assert_eq!(e.kind, ParseErrorKind::InvalidFormat);
}

#[test]
fn six_fields_are_rejected() {
    let line = "[INFO] +- g:a:jar:1.0:compile:extra";
    let e = parse(REPO, line).unwrap_err();
    assert_eq!(e.kind, ParseErrorKind::InvalidFormat);
    assert_eq!(e.line, line);
}

#[test]
fn coordinate_fields_are_extracted() {
    let c = parse_coordinate("[INFO] +- com.google.api:api-common:jar:1.10.4:compile").unwrap();
    assert_eq!(c.group, "com.google.api");
    assert_eq!(c.artifact, "api-common");
    assert_eq!(c.version, "1.10.4");
}

#[test]
fn resolve_joins_the_repository_layout() {
    let c = Coordinate {
        group: String::from("org.apache.maven"),
        artifact: String::from("maven-core"),
        version: String::from("3.9.6"),
    };
    assert_eq!(
        resolve("/repo", &c),
        "/repo/org/apache/maven/maven-core/3.9.6/maven-core-3.9.6.jar"
    );
}

#[test]
fn all_valid_lines_resolve_in_order() {
    let lines = vec![
        String::from("[INFO] +- com.google.api:api-common:jar:1.10.4:compile"),
        String::from("[INFO] |  +- junit:junit:jar:4.13.2:test"),
        String::from("[INFO] \\- org.example:thing:jar:2.3.4:runtime"),
    ];
    let paths = parse_all(REPO, &lines).unwrap();
    assert_eq!(paths.len(), 3);
    assert_eq!(
        paths[0],
        "/home/u/.m2/repository/com/google/api/api-common/1.10.4/api-common-1.10.4.jar"
    );
    assert_eq!(paths[1], "/home/u/.m2/repository/junit/junit/4.13.2/junit-4.13.2.jar");
    assert_eq!(paths[2], "/home/u/.m2/repository/org/example/thing/2.3.4/thing-2.3.4.jar");
}

#[test]
fn one_bad_line_aborts_the_whole_run() {
    let lines = vec![
        String::from("[INFO] +- com.google.api:api-common:jar:1.10.4:compile"),
        String::from("[INFO] a jar with no coordinates"),
        String::from("[INFO] |  +- junit:junit:jar:4.13.2:test"),
    ];
    let e = parse_all(REPO, &lines).unwrap_err();
    assert_eq!(e.kind, ParseErrorKind::RegexNoMatch);
    assert_eq!(e.line, "[INFO] a jar with no coordinates");
}

#[test]
fn no_lines_resolve_to_no_paths() {
    let lines: Vec<String> = Vec::new();
    let paths = parse_all(REPO, &lines).unwrap();
    assert!(paths.is_empty());
}

#[test]
fn resolved_path_round_trips_through_its_file_name() {
    let path = parse(REPO, "[INFO] +- com.google.api:api-common:jar:1.10.4:compile").unwrap();
    let name = file_name(&path);
    assert_eq!(name, "api-common-1.10.4.jar");
    let (artifact, version) = split_jar_file_name(&name).unwrap();
    assert_eq!(artifact, "api-common");
    assert_eq!(version, "1.10.4");
}

#[test]
fn jar_file_name_splits_back() {
    let r = split_jar_file_name("api-common-1.10.4.jar").unwrap();
    assert_eq!(r.0, "api-common");
    assert_eq!(r.1, "1.10.4");
}

#[test]
fn hyphenated_version_splits_at_the_last_hyphen() {
    // A hyphen inside the version cannot be told apart from one inside the
    // artifact: the split point is the last hyphen by convention.
    let r = split_jar_file_name("thing-1.0-SNAPSHOT.jar").unwrap();
    assert_eq!(r.0, "thing-1.0");
    assert_eq!(r.1, "SNAPSHOT");
}

#[test]
fn name_without_jar_suffix_does_not_split() {
    assert!(split_jar_file_name("api-common-1.10.4.war").is_none());
    assert!(split_jar_file_name("jar").is_none());
}

#[test]
fn name_without_hyphen_does_not_split() {
    assert!(split_jar_file_name("apicommon.jar").is_none());
}
