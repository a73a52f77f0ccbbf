use herdr::output_match::{compile_output_match, match_output, OutputMatch, OutputMatchTracker};

fn substring(value: &str) -> OutputMatch {
    OutputMatch::Substring { value: value.to_string() }
}

fn regex(value: &str) -> OutputMatch {
    OutputMatch::Regex { value: value.to_string() }
}

#[test]
fn substring_matcher_reports_the_first_matching_line() {
    let text = "alpha\nbeta ready\r\ngamma ready";
    assert_eq!(match_output(text, &substring("ready"), None), Some("beta ready".to_string()));
    assert_eq!(match_output(text, &substring("delta"), None), None);
}

#[test]
fn lines_split_like_str_lines() {
    assert_eq!(match_output("abc\r\n", &substring("\r"), None), None);
    assert_eq!(match_output("abc\r", &substring("\r"), None), Some("abc\r".to_string()));
    assert_eq!(match_output("", &substring(""), None), None);
    assert_eq!(match_output("\n", &substring(""), None), Some(String::new()));
    assert_eq!(match_output("x\n\ny", &substring("y"), None), Some("y".to_string()));
}

#[test]
fn regex_matcher_uses_the_compiled_pattern() {
    let matcher = regex("b.t+a$");
    let compiled = match compile_output_match("req", &matcher) {
        Ok(Some(re)) => re,
        _ => panic!("the pattern should compile"),
    };
    assert_eq!(
        match_output("alpha\nbetta\nbeta", &matcher, Some(&compiled)),
        Some("betta".to_string())
    );
    assert_eq!(match_output("alpha\ngamma", &matcher, Some(&compiled)), None);
    assert_eq!(match_output("betta", &matcher, None), None);
}

#[test]
fn invalid_regex_is_answered_with_its_error() {
    match compile_output_match("req-7", &regex("foo(bar")) {
        Err(response) => {
            assert_eq!(response.id, "req-7");
            assert_eq!(response.error.code, "invalid_regex");
            assert_eq!(
                response.error.message,
                regex::Regex::new("foo(bar").err().map(|e| e.to_string()).unwrap_or_default()
            );
            assert!(!response.error.message.is_empty());
        }
        Ok(_) => panic!("an unclosed group must be refused"),
    }
    assert!(matches!(compile_output_match("req", &substring("(")), Ok(None)));
}

#[test]
fn a_match_is_reported_once_per_transition() {
    let mut tracker = OutputMatchTracker::new();
    assert!(tracker.needs_confirmation(true));
    assert_eq!(tracker.confirm(Some("done".to_string())), Some("done".to_string()));
    assert!(!tracker.needs_confirmation(true));
    assert!(!tracker.needs_confirmation(false));
    assert!(tracker.needs_confirmation(true));
    assert_eq!(tracker.confirm(None), None);
    assert!(tracker.needs_confirmation(true));
}
