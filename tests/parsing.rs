use regex::Regex;
use scriptfile::error::Error;
use scriptfile::parser::parse;
use scriptfile::render::{header_text, render};
use scriptfile::task::Task;

fn strings(v: &[&str]) -> Vec<String> {
    v.iter().map(|s| s.to_string()).collect()
}

#[test]
fn parses_a_single_task() {
    let tasks = parse("greet name\n    echo \"hello $name\"\n").unwrap();
    assert_eq!(
        tasks,
        vec![Task {
            name: "greet".to_string(),
            parameters: strings(&["name"]),
            variadic: false,
            body: strings(&["    echo \"hello $name\""]),
        }]
    );
}

#[test]
fn ellipsis_marks_a_variadic_task() {
    let tasks = parse("build src ...\n  cc $src \"$@\"\n").unwrap();
    assert_eq!(tasks.len(), 1);
    assert_eq!(tasks[0].name, "build");
    assert_eq!(tasks[0].parameters, strings(&["src"]));
    assert!(tasks[0].variadic);
}

#[test]
fn ellipsis_counts_only_as_the_last_word() {
    let tasks = parse("odd ... x\n  true\n").unwrap();
    assert_eq!(tasks[0].parameters, strings(&["...", "x"]));
    assert!(!tasks[0].variadic);
    let tasks = parse("dots ... ...\n").unwrap();
    assert_eq!(tasks[0].parameters, strings(&["..."]));
    assert!(tasks[0].variadic);
}

#[test]
fn comments_and_blank_lines_carry_nothing() {
    let text = "# tasks\n\na\n  x\n\n  y\n\n\n# end of a\n  \nb p q\n z\n";
    let tasks = parse(text).unwrap();
    assert_eq!(tasks.len(), 2);
    assert_eq!(tasks[0].name, "a");
    assert_eq!(tasks[0].body, strings(&["  x", "", "  y"]));
    assert_eq!(tasks[1].name, "b");
    assert_eq!(tasks[1].parameters, strings(&["p", "q"]));
    assert_eq!(tasks[1].body, strings(&[" z"]));
}

#[test]
fn trailing_blank_lines_leave_the_body() {
    let tasks = parse("t\n  one\n   \n\n").unwrap();
    assert_eq!(tasks[0].body, strings(&["  one"]));
}

#[test]
fn empty_text_defines_nothing() {
    assert_eq!(parse("").unwrap(), vec![]);
    assert_eq!(parse("\n# only a comment\n   \n").unwrap(), vec![]);
}

#[test]
fn last_line_needs_no_line_break() {
    let tasks = parse("t\n  echo hi").unwrap();
    assert_eq!(tasks[0].body, strings(&["  echo hi"]));
}

#[test]
fn header_words_split_on_any_whitespace() {
    let tasks = parse("t  a\tb \n").unwrap();
    assert_eq!(tasks[0].name, "t");
    assert_eq!(tasks[0].parameters, strings(&["a", "b"]));
    assert!(tasks[0].body.is_empty());
}

#[test]
fn a_header_may_have_an_empty_body() {
    let tasks = parse("a\nb\n  x\n").unwrap();
    assert_eq!(tasks.len(), 2);
    assert!(tasks[0].body.is_empty());
    assert_eq!(tasks[1].body, strings(&["  x"]));
}

#[test]
fn body_line_before_any_header_is_malformed() {
    assert_eq!(parse("  echo hi\n"), Err(Error::MalformedDefinitionFile));
    assert_eq!(parse("\n# c\n  echo hi\nt\n  x\n"), Err(Error::MalformedDefinitionFile));
}

#[test]
fn body_line_after_a_comment_is_malformed() {
    assert_eq!(parse("t\n  x\n# c\n  y\n"), Err(Error::MalformedDefinitionFile));
}

#[test]
fn well_formed_files_agree_with_the_line_pattern() {
    let comment = r"#.*\n| *\n";
    let task = format!(r"(?:{comment})*([^# ].*\n)((?: .*\n|\n)*)");
    let file = Regex::new(&format!(r"^({task})*({comment})*$")).unwrap();
    let task = Regex::new(&task).unwrap();
    let samples = [
        "greet name\n    echo \"hello $name\"\n",
        "# c\n\na\n  x\n\n  y\n# d\nb p ...\n  z\n\n",
        "a\nb\n  x\n",
        "  x\n",
        "a\n# c\n  x\n",
        "",
    ];
    for text in samples {
        let parsed = parse(text);
        assert_eq!(parsed.is_ok(), file.is_match(text), "{text:?}");
        if let Ok(tasks) = parsed {
            let names: Vec<String> = task
                .captures_iter(text)
                .map(|c| c[1].split_whitespace().next().unwrap().to_string())
                .collect();
            let ours: Vec<String> = tasks.iter().map(|t| t.name.clone()).collect();
            assert_eq!(ours, names);
        }
    }
}

#[test]
fn render_normalises_headers_and_drops_comments() {
    let text = "# c\nbuild  src\t...\n    cc $src\n\n\ngreet name\n  echo hi\n";
    let tasks = parse(text).unwrap();
    assert_eq!(
        render(&tasks),
        "build src ...\n    cc $src\ngreet name\n  echo hi\n"
    );
    assert_eq!(header_text(&tasks[0]), "build src ...");
    assert_eq!(header_text(&tasks[1]), "greet name");
}

#[test]
fn parsing_a_rendering_gives_the_same_tasks() {
    let samples = [
        "greet name\n    echo \"hello $name\"\n",
        "# c\n\na\n  x\n\n  y\n# d\nb p ...\n  z\n\n",
        "a\nb\n  x\n",
        "dots ... ...\n",
        "",
    ];
    for text in samples {
        let tasks = parse(text).unwrap();
        assert_eq!(parse(&render(&tasks)).unwrap(), tasks, "{text:?}");
    }
}
