use needlepoint::text::strip_code_blocks;

#[test]
fn fence_with_language_is_stripped() {
    assert_eq!(strip_code_blocks("```go\npackage main\n```"), "package main");
}

#[test]
fn plain_text_is_trimmed_only() {
    assert_eq!(strip_code_blocks("no fence"), "no fence");
    assert_eq!(strip_code_blocks("  \n\tno fence \u{3000}"), "no fence");
    assert_eq!(strip_code_blocks(""), "");
}

#[test]
fn fence_without_language_and_surrounding_space() {
    assert_eq!(strip_code_blocks("\n  ```\nlet x = 1;\n```  \n"), "let x = 1;");
    assert_eq!(strip_code_blocks("```\n\n```"), "");
    assert_eq!(strip_code_blocks("```rust\n  fn f() {}  \n```"), "fn f() {}");
}

#[test]
fn partial_fences_are_kept() {
    assert_eq!(strip_code_blocks("```go\ncode"), "```go\ncode");
    assert_eq!(strip_code_blocks("code\n```"), "code\n```");
    assert_eq!(strip_code_blocks("`````"), "`````");
}

#[test]
fn fence_needs_both_newlines() {
    assert_eq!(strip_code_blocks("``````"), "``````");
    assert_eq!(strip_code_blocks("```abc```"), "```abc```");
    assert_eq!(strip_code_blocks("```\ncode```"), "```\ncode```");
    assert_eq!(strip_code_blocks("```code\n```"), "```code\n```");
    assert_eq!(strip_code_blocks("```ts x\ncode\n```"), "```ts x\ncode\n```");
}

#[test]
fn stripping_twice_is_stripping_once() {
    for s in ["```go\npackage main\n```", "no fence", "  x  ", "```\n\n```", "```rust\nfn main() {}\n```\n"] {
        let once = strip_code_blocks(s);
        assert_eq!(strip_code_blocks(&once), once);
    }
}

#[test]
fn nested_fence_strips_outer_only() {
    let once = strip_code_blocks("```\n```go\ncode\n```\n```");
    assert_eq!(once, "```go\ncode\n```");
    assert_eq!(strip_code_blocks(&once), "code");
}

#[test]
fn unicode_word_tag() {
    assert_eq!(strip_code_blocks("```é\nx\n```"), "x");
    assert_eq!(strip_code_blocks("```c_plus_2\nint x;\n```"), "int x;");
}
