use spritore::cli::{
    has_svg_extension,
    invalid_ratio, judge_source, output_file_name, parse_ratios, render_failure, sanitize_id,
    skip_note, sort_file_names, validate_output_name, CliFailure, IdRegistry, SourceVerdict,
};
use spritore::sheet::{Error, RenderedIcon};

fn failure_message(result: Result<Vec<u8>, CliFailure>) -> (String, bool) {
    match result {
        Ok(_) => panic!("expected a failure"),
        Err(failure) => (failure.message, failure.show_usage),
    }
}

#[test]
fn ratios_parse_in_order() {
    assert_eq!(parse_ratios("1,2").ok().unwrap(), vec![1, 2]);
    assert_eq!(parse_ratios("3").ok().unwrap(), vec![3]);
    assert_eq!(parse_ratios("007,255").ok().unwrap(), vec![7, 255]);
}

#[test]
fn bad_ratios_are_usage_errors() {
    let expected = |value: &str| {
        (
            format!("invalid --ratio `{value}`: expected comma-separated integers from 1 to 255"),
            true,
        )
    };
    for value in ["", "1,", ",1", "1,,2", "0", "256", "a", "1a", "+1", " 1", "99999999999999999999"] {
        assert_eq!(failure_message(parse_ratios(value)), expected(value));
    }
    assert_eq!(
        failure_message(parse_ratios("2,1,2")),
        ("--ratio values must be unique".to_owned(), true)
    );
    assert_eq!(failure_message(parse_ratios("1,1,x")), ("--ratio values must be unique".to_owned(), true));
    assert_eq!(failure_message(parse_ratios("x,1,1")), expected("x,1,1"));
}

#[test]
fn invalid_ratio_names_the_value() {
    let failure = invalid_ratio("9,9");
    assert!(failure.show_usage);
    assert_eq!(
        failure.message,
        "invalid --ratio `9,9`: expected comma-separated integers from 1 to 255"
    );
}

#[test]
fn output_names_are_checked() {
    assert!(validate_output_name("sprite").is_ok());
    let empty = validate_output_name("").err().unwrap();
    assert_eq!(empty.message, "--name must not be empty");
    assert!(empty.show_usage);
    for name in ["a/b", "a\\b", "/"] {
        let failure = validate_output_name(name).err().unwrap();
        assert_eq!(failure.message, "--name must not contain path separators");
        assert!(failure.show_usage);
    }
}

#[test]
fn ids_keep_ascii_letters_digits_and_dashes() {
    assert_eq!(sanitize_id("a b"), "a-b");
    assert_eq!(sanitize_id("Pin_2-x"), "Pin_2-x");
    assert_eq!(sanitize_id("café.v1"), "caf--v1");
    assert_eq!(sanitize_id(""), "");
}

#[test]
fn sanitized_id_collisions_name_both_files() {
    let mut registry = IdRegistry::new();
    assert_eq!(registry.register("a b.svg").ok().unwrap(), "a-b");
    assert_eq!(registry.register("pin.svg").ok().unwrap(), "pin");
    let failure = registry.register("a-b.svg").err().unwrap();
    assert_eq!(
        failure.message,
        "icon id collision `a-b` after sanitizing `a b.svg` and `a-b.svg`"
    );
    assert!(!failure.show_usage);
}

#[test]
fn output_files_carry_the_ratio_suffix() {
    assert_eq!(output_file_name("sprite", 1, "png"), "sprite.png");
    assert_eq!(output_file_name("sprite", 2, "json"), "sprite@2x.json");
    assert_eq!(output_file_name("icons", 255, "png"), "icons@255x.png");
}

#[test]
fn file_names_sort_by_bytes() {
    let names = vec![
        "b.svg".to_owned(),
        "B.svg".to_owned(),
        "a.svg".to_owned(),
        "a-b.svg".to_owned(),
    ];
    assert_eq!(sort_file_names(&names), vec!["B.svg", "a-b.svg", "a.svg", "b.svg"]);
}

#[test]
fn sources_are_kept_skipped_or_fatal() {
    let rendered: Result<RenderedIcon, Error> = Ok(RenderedIcon {
        id: "dot".to_owned(),
        width: 1,
        height: 1,
        pixels: vec![0; 4],
    });
    let invalid: Result<RenderedIcon, Error> = Err(Error::InvalidSvg {
        id: "broken".to_owned(),
        reason: "bad".to_owned(),
    });
    let zero: Result<RenderedIcon, Error> = Err(Error::ZeroSize { id: "z".to_owned() });
    assert!(matches!(judge_source(&rendered, false), SourceVerdict::Keep));
    assert!(matches!(judge_source(&invalid, true), SourceVerdict::Skip));
    assert!(matches!(judge_source(&invalid, false), SourceVerdict::Fail));
    assert!(matches!(judge_source(&zero, true), SourceVerdict::Fail));

    let error = Error::InvalidSvg {
        id: "broken".to_owned(),
        reason: "bad".to_owned(),
    };
    assert_eq!(
        skip_note("broken.svg", &error),
        "skipping `broken.svg`: invalid SVG for icon `broken`: bad"
    );
    let failure = render_failure("broken.svg", &error);
    assert_eq!(
        failure.message,
        "failed to render `broken.svg`: invalid SVG for icon `broken`: bad"
    );
    assert!(!failure.show_usage);
}

#[test]
fn cli_failures_say_whether_usage_follows() {
    let runtime = CliFailure::runtime("boom".to_owned());
    assert_eq!(runtime.message, "boom");
    assert!(!runtime.show_usage);
    let usage = CliFailure::usage("bad flag".to_owned());
    assert_eq!(usage.message, "bad flag");
    assert!(usage.show_usage);
}

#[test]
fn svg_extension_needs_a_name_before_the_dot() {
    assert!(has_svg_extension("pin.svg"));
    assert!(has_svg_extension("a b.svg"));
    assert!(has_svg_extension("..svg"));
    assert!(!has_svg_extension(".svg"));
    assert!(!has_svg_extension("pin.SVG"));
    assert!(!has_svg_extension("pin.svg.png"));
    assert!(!has_svg_extension("svg"));
}
