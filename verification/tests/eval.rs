use dotbot::eval::{eval_reply, eval_request, is_supported_lang, resolve_lang, strip_code_fences, trim_output};

#[test]
fn short_names_are_resolved() {
    assert_eq!(resolve_lang("js"), "javascript");
    assert_eq!(resolve_lang("py"), "python");
    assert_eq!(resolve_lang("ts"), "typescript");
    assert_eq!(resolve_lang("node.js"), "nodejs");
    assert_eq!(resolve_lang("c#"), "csharp");
    assert_eq!(resolve_lang("c++"), "c_cpp");
    assert_eq!(resolve_lang("cpp"), "c_cpp");
    assert_eq!(resolve_lang("ruby"), "ruby");
}

#[test]
fn supported_languages() {
    assert!(is_supported_lang("python"));
    assert!(is_supported_lang("bash"));
    assert!(!is_supported_lang("js"));
    assert!(!is_supported_lang("cobol"));
}

#[test]
fn code_fences_are_stripped() {
    assert_eq!(strip_code_fences("```py\nprint(1)\n```"), "print(1)\n");
    assert_eq!(strip_code_fences("`x`"), "x");
    assert_eq!(strip_code_fences("plain"), "plain");
    assert_eq!(strip_code_fences("```"), "");
    assert_eq!(strip_code_fences("a`````"), "a``");
}

#[test]
fn output_is_trimmed() {
    assert_eq!(trim_output("hi\n\n"), "hi\n");
    assert_eq!(trim_output("hi\nx"), "hix");
    assert_eq!(trim_output("a\nb"), "ab");
    assert_eq!(trim_output("hi"), "hi");
    assert_eq!(trim_output(""), "");
}

#[test]
fn reply_is_a_code_block() {
    assert_eq!(eval_reply("python", "1"), "```python\n1```");
}

#[test]
fn request_checks_language() {
    assert_eq!(eval_request("py", "`1+1`"), Some((String::from("python"), String::from("1+1"))));
    assert_eq!(eval_request("cobol", "x"), None);
    // `js` stands for `javascript`, which the service does not list.
    assert_eq!(eval_request("js", "x"), None);
    assert_eq!(eval_request("node.js", "print()"), Some((String::from("nodejs"), String::from("print()"))));
}
