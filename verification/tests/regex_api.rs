use dfa_regex::Regex;

#[test]
fn matches_case1() {
    let regex = Regex::new(r"(p(erl|ython|hp)|ruby)").unwrap();
    assert!(regex.matches("python"));
    assert!(regex.matches("ruby"));
    assert!(!regex.matches("VB"));
}

#[test]
fn matches_case2() {
    let regex = Regex::new(r"山田(太|一|次|三)郎").unwrap();
    assert!(regex.matches("山田太郎"));
    assert!(regex.matches("山田三郎"));
    assert!(!regex.matches("山田郎"));
}

#[test]
fn matches_case3() {
    let regex = Regex::new(r"ｗｗ*|\(笑\)").unwrap();
    assert!(regex.matches("(笑)"));
    assert!(regex.matches("ｗｗｗ"));
    assert!(!regex.matches("笑"));
}

#[test]
fn matches_case4() {
    let regex = Regex::new(r"a\c").unwrap();
    assert!(regex.matches(r"ac"));
    assert!(!regex.matches(r"a\c"));
}

#[test]
fn matches_case5() {
    let regex = Regex::new(r"a\\c").unwrap();
    assert!(regex.matches(r"a\c"));
    assert!(!regex.matches(r"ac"));
}

#[test]
fn matches_case6() {
    let regex = Regex::new(r"a(b|)").unwrap();
    assert!(regex.matches(r"ab"));
    assert!(regex.matches(r"a"));
    assert!(!regex.matches(r"abb"));
}

#[test]
fn syntax_error() {
    for test in [r"ab(cd", r"e(*)f", r")h", r"i|*", r"*"] {
        let regex = Regex::new(test);
        assert!(regex.is_err());
    }
}
