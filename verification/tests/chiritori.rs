use chiritori::chiritori::{clean, ChiritoriConfiguration, RemovalMarkerConfiguration, TimeLimitedConfiguration};
use chiritori::code::remover::removal_evaluator::time_limited_evaluator::Instant;

fn instant(text: &str) -> Instant {
    let time = chrono::DateTime::parse_from_str(text, "%Y-%m-%d %H:%M:%S %z").unwrap();
    Instant { secs: time.timestamp(), nanos: time.timestamp_subsec_nanos() }
}

fn create_test_config() -> ChiritoriConfiguration {
    let now = chrono::Local::now();
    ChiritoriConfiguration {
        time_limited_configuration: TimeLimitedConfiguration {
            tag_name: String::from("time-limited"),
            current: Instant { secs: now.timestamp(), nanos: now.timestamp_subsec_nanos() },
            time_offset: String::from("+00:00"),
        },
        removal_marker_configuration: RemovalMarkerConfiguration {
            tag_name: String::from("marker"),
            targets: vec![String::from("feature1")],
        },
    }
}

fn config_in_2022(tag_name: &str) -> ChiritoriConfiguration {
    ChiritoriConfiguration {
        time_limited_configuration: TimeLimitedConfiguration {
            tag_name: String::from(tag_name),
            current: instant("2022-06-01 00:00:00 +0000"),
            time_offset: String::from("+00:00"),
        },
        removal_marker_configuration: RemovalMarkerConfiguration {
            tag_name: String::from("marker"),
            targets: vec![String::from("feature1")],
        },
    }
}

#[test]
fn chiritori_test_clean_removes_time_limited_code() {
        let content = String::from(
            r#"
<!DOCTYPE html>
<html>
  <body>
    <h1>Hello World</h1>
    <p>This is a sample page with some code.</p>
    <!-- time-limited to="2019-12-31 23:59:59" -->
      <p>This content is only available until the end of the year.</p>
      <p>After that, it will be removed from the page.</p>
    <!-- /time-limited -->
    <!-- time-limited to="2999-12-31 23:59:59" -->
      Campaign!
      <!-- time-limited to="2001-12-31 23:59:59" -->
        40% off! Only until the 2001/12/31!
      <!-- /time-limited -->
    <!-- /time-limited -->
    <!-- time-limited to="2001-12-31 23:59:59" -->
      <!-- time-limited to="2999-12-31 23:59:59" -->
        Campaign!
      <!-- /time-limited -->
      until the 2001/12/31!
    <!-- /time-limited -->
  </body>
</html>"#,
        );

        let expected = String::from(
            r#"
<!DOCTYPE html>
<html>
  <body>
    <h1>Hello World</h1>
    <p>This is a sample page with some code.</p>
    <!-- time-limited to="2999-12-31 23:59:59" -->
      Campaign!
    <!-- /time-limited -->
  </body>
</html>"#,
        );
        let config = create_test_config();
        let delimiters = (String::from("<!--"), String::from("-->"));
        let result = clean(content.into(), delimiters, config);

        assert_eq!(result, expected);
    }

#[test]
fn chiritori_test_clean_removes_time_limited_code_with_open_structure() {
        let content = String::from(
            r#"
isReleased = async fetchFeature("https://example.test/features/awesome-feature")

/* <time-limited to="2021-01-01 00:00:00" unwrap-block> */
if (isReleased) {
  console.log("Released!")

  /* <time-limited to="2021-01-01 00:00:00"> */
  console.log("Temporary code until 2021/01/01")
  /* </time-limited> */

  /* <time-limited to="9999-01-01 00:00:00"> */
  console.log("Temporary code until 9999/01/01")
  /* </time-limited> */
}
/* </time-limited> */

/* <marker name="feature1"> */
console.log("Temporary code while feature1 is not released")
/* </marker> */

/* <marker name="feature2"> */
console.log("Temporary code while feature2 is not released")
/* </marker> */
"#,
        );
        let expected = String::from(
            r#"
isReleased = async fetchFeature("https://example.test/features/awesome-feature")

console.log("Released!")

/* <time-limited to="9999-01-01 00:00:00"> */
console.log("Temporary code until 9999/01/01")
/* </time-limited> */

/* <marker name="feature2"> */
console.log("Temporary code while feature2 is not released")
/* </marker> */
"#,
        );

        let config = create_test_config();
        let delimiters = (String::from("/* <"), String::from("> */"));
        let result = clean(content.into(), delimiters, config);

        assert_eq!(result, expected);
    }

#[test]
fn clean_removes_an_outer_directive_with_all_inside_it() {
    let content =
        String::from("foo<tl to=\"2000-01-01 00:00:00\">bar<tl to=\"2999-01-01 00:00:00\">baz</tl>qux</tl>end");
    let result = clean(content.into(), (String::from("<"), String::from(">")), config_in_2022("tl"));
    assert_eq!(result, "fooend");
}

#[test]
fn clean_keeps_a_directive_marked_skip() {
    let content = String::from("<!-- time-limited skip to=\"2000-01-01 00:00:00\" -->X<!-- /time-limited -->");
    let result = clean(
        content.clone().into(),
        (String::from("<!--"), String::from("-->")),
        config_in_2022("time-limited"),
    );
    assert_eq!(result, content);
}

#[test]
fn clean_unwraps_a_block() {
    let content = String::from(
        "
/* <time-limited to=\"2021-01-01 00:00:00\" unwrap-block> */
if (isReleased) {
  console.log(\"Released!\")
}
/* </time-limited> */
",
    );
    let result = clean(
        content.into(),
        (String::from("/* <"), String::from("> */")),
        config_in_2022("time-limited"),
    );
    assert_eq!(result, "\nconsole.log(\"Released!\")\n");
}

#[test]
fn clean_unwraps_a_block_at_the_start_of_the_text() {
    let content = String::from(
        "/* <time-limited to=\"2021-01-01 00:00:00\" unwrap-block> */
if (isReleased) {
  console.log(\"Released!\")
}
/* </time-limited> */
",
    );
    let result = clean(
        content.into(),
        (String::from("/* <"), String::from("> */")),
        config_in_2022("time-limited"),
    );
    assert_eq!(result, "console.log(\"Released!\")\n");
}

#[test]
fn clean_leaves_cleaned_text_as_it_is() {
    let content = String::from(
        "a
  <!-- time-limited to=\"2000-01-01 00:00:00\" -->
  gone
  <!-- /time-limited -->

  <!-- time-limited to=\"2999-01-01 00:00:00\" -->
  kept あ
  <!-- /time-limited -->
b
",
    );
    let delimiters = || (String::from("<!--"), String::from("-->"));
    let once = clean(content.into(), delimiters(), config_in_2022("time-limited"));
    let twice = clean(once.clone().into(), delimiters(), config_in_2022("time-limited"));
    assert_eq!(once, twice);
    assert!(!once.contains("gone"));
    assert!(!once.contains("2000-01-01"));
    assert!(once.contains("kept あ"));
}

#[test]
fn clean_keeps_characters_of_several_bytes_whole() {
    let content = String::from("あ<tl to=\"2000-01-01 00:00:00\">い</tl>う\n  <tl to=\"2000-01-01 00:00:00\">え</tl>\nお");
    let result = clean(content.into(), (String::from("<"), String::from(">")), config_in_2022("tl"));
    assert_eq!(result, "あう\nお");
}

#[test]
fn clean_keeps_text_without_directives() {
    let content = String::from("no tags < here >\n\n\n  \n");
    let result = clean(content.clone().into(), (String::from("<!--"), String::from("-->")), config_in_2022("tl"));
    assert_eq!(result, content);
    let result = clean(String::new().into(), (String::from("<"), String::from(">")), config_in_2022("tl"));
    assert_eq!(result, "");
}

#[test]
fn clean_keeps_a_directive_whose_date_stands_without_quotes() {
    let content = String::from("a<tl to=2000-01-01>b</tl>c");
    let result = clean(content.clone().into(), (String::from("<"), String::from(">")), config_in_2022("tl"));
    assert_eq!(result, content);
}

#[test]
fn clean_removes_a_marked_directive_whose_name_stands_without_quotes() {
    let content = String::from("a<marker name=feature1>b</marker>c<marker name=feature2>d</marker>");
    let result = clean(content.into(), (String::from("<"), String::from(">")), config_in_2022("tl"));
    assert_eq!(result, "ac<marker name=feature2>d</marker>");
}

#[test]
fn text_on_both_sides_of_a_removed_directive_may_join_to_spell_its_tag() {
    let tag = "<!-- tl to=\"2000-01-01 00:00:00\" -->";
    let content = format!("<{}{}x<!-- /tl -->{}", &tag[..7], tag, &tag[7..]);
    assert_eq!(content.matches(tag).count(), 1);
    let result = clean(content.into(), (String::from("<!--"), String::from("-->")), config_in_2022("tl"));
    assert_eq!(result, format!("<{}", tag));
}
