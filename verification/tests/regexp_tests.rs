use regexp::regexp::CompileError;
use regexp::regexp::Fsm;

#[test]
fn match_any_input() {
    let fsm = Fsm::compile(".bc$").unwrap();

    let inputs = ["Hello, world!", "abc", "dbc", "aaabc"];
    let expects = [false, true, true, false];
    for (i, &input) in inputs.iter().enumerate() {
        assert_eq!(fsm.match_str(input), expects[i]);
    }
}

#[test]
fn match_zero_and_more_times() {
    let fsm = Fsm::compile("a*bc$").unwrap();

    let inputs = ["Hello, world!", "abc", "bc", "dbc", "aaabc"];
    let expects = [false, true, true, false, true];
    for (i, &input) in inputs.iter().enumerate() {
        assert_eq!(fsm.match_str(input), expects[i]);
    }
}

#[test]
fn match_one_and_more_times() {
    let fsm = Fsm::compile("a+bc$").unwrap();

    let inputs = ["Hello, world!", "abc", "bc", "dbc", "aaabc"];
    let expects = [false, true, false, false, true];
    for (i, &input) in inputs.iter().enumerate() {
        assert_eq!(fsm.match_str(input), expects[i]);
    }
}

#[test]
fn match_zero_or_one_time() {
    let fsm = Fsm::compile("a+b?c$").unwrap();

    let inputs = ["Hello, world!", "abc", "bc", "ac", "aaabc"];
    let expects = [false, true, false, true, true];
    for (i, &input) in inputs.iter().enumerate() {
        assert_eq!(fsm.match_str(input), expects[i]);
    }
}

#[test]
fn empty_pattern_accepts_everything() {
    let fsm = Fsm::compile("").unwrap();
    assert!(fsm.match_str(""));
    assert!(fsm.match_str("anything"));
}

#[test]
fn empty_input_always_decides() {
    for pattern in ["", "a", ".", "a*", "a+", "a?", "abc$", "$"] {
        let fsm = Fsm::compile(pattern).unwrap();
        let verdict = fsm.match_str("");
        assert_eq!(verdict, pattern == "" || pattern == "$" || pattern == "a*" || pattern == "a?");
    }
}

#[test]
fn dangling_operator_is_reported() {
    assert!(matches!(Fsm::compile("*ab"), Err(CompileError::DanglingOperator)));
    assert!(matches!(Fsm::compile("+ab"), Err(CompileError::DanglingOperator)));
    assert!(matches!(Fsm::compile("?ab"), Err(CompileError::DanglingOperator)));
    assert!(Fsm::compile("ab*").is_ok());
}

#[test]
fn compiling_twice_matches_alike() {
    let a = Fsm::compile("a*b?c$").unwrap();
    let b = Fsm::compile("a*b?c$").unwrap();
    for input in ["", "abc", "ac", "bc", "aaac", "zzz", "c"] {
        assert_eq!(a.match_str(input), b.match_str(input));
    }
}

#[test]
fn dot_matches_any_printable() {
    let fsm = Fsm::compile(".").unwrap();
    assert!(fsm.match_str("a"));
    assert!(fsm.match_str(" "));
    assert!(fsm.match_str("~"));
    assert!(!fsm.match_str(""));
    assert!(!fsm.match_str("\t"));
}

#[test]
fn literal_prefix_semantics() {
    let fsm = Fsm::compile("abc").unwrap();
    assert!(fsm.match_str("abc"));
    assert!(fsm.match_str("abcdef"));
    assert!(!fsm.match_str("ab"));
    assert!(!fsm.match_str("xabc"));

    let anchored = Fsm::compile("abc$").unwrap();
    assert!(anchored.match_str("abc"));
    assert!(!anchored.match_str("abcdef"));
}

#[test]
fn anchor_after_star_consumes_no_run() {
    // When a starred run reaches the end of the input, only one end-of-input
    // step is taken, so an anchor right after the star is never reached.
    let fsm = Fsm::compile("a*$").unwrap();
    assert!(!fsm.match_str("aaa"));
    assert!(!fsm.match_str(""));
    // With a literal between them the anchor works as expected.
    let fsm = Fsm::compile("a*b$").unwrap();
    assert!(fsm.match_str("aaab"));
    assert!(fsm.match_str("b"));
    assert!(!fsm.match_str("aaa"));
}
