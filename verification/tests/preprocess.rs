use parser_wasm::diagnostics::{Diagnostic, ReportCode};
use parser_wasm::parser_logic::{mask_comments, preprocess};

fn mask(src: &str) -> Result<String, usize> {
    mask_comments(src.as_bytes()).map(|bytes| String::from_utf8(bytes).unwrap())
}

#[test]
fn comments_become_spaces_of_the_same_length() {
    let src = "a /* b\nc */ d // e\nf";
    let out = preprocess(src, 0).unwrap();
    assert_eq!(out.len(), src.len());
    // nine bytes of block comment, the newline in it too, and four of line comment
    assert_eq!(out, format!("a {} d {}\nf", " ".repeat(9), " ".repeat(4)));
    // the newline that ends the line comment stays where it was
    assert_eq!(out.find('\n'), src.rfind('\n'));
}

#[test]
fn code_outside_comments_keeps_its_offsets() {
    let src = "x = 1; // one\ny = 2; /* two */ z = 3;";
    let out = preprocess(src, 0).unwrap();
    for (i, (a, b)) in src.bytes().zip(out.bytes()).enumerate() {
        assert!(a == b || b == b' ', "byte {}", i);
    }
    assert_eq!(out.find("y = 2;"), src.find("y = 2;"));
    assert_eq!(out.find("z = 3;"), src.find("z = 3;"));
    assert!(!out.contains("one") && !out.contains("two"));
}

#[test]
fn unterminated_block_comment_is_pinned_at_its_opener() {
    assert_eq!(
        preprocess("abc /* never closed", 7),
        Err(vec![Diagnostic::UnclosedComment { file_id: 7, start: 4 }])
    );
    assert_eq!(preprocess("/*", 0), Err(vec![Diagnostic::UnclosedComment { file_id: 0, start: 0 }]));
    assert_eq!(
        preprocess("a /* x */ b /* y", 1),
        Err(vec![Diagnostic::UnclosedComment { file_id: 1, start: 12 }])
    );
    assert_eq!(preprocess("/*/", 2), Err(vec![Diagnostic::UnclosedComment { file_id: 2, start: 0 }]));
    assert_eq!(preprocess("x /*", 0).unwrap_err()[0].code(), ReportCode::UnclosedComment);
}

#[test]
fn unterminated_block_comment_at_the_very_end() {
    let src = "component main = A(); /*";
    assert_eq!(
        preprocess(src, 3),
        Err(vec![Diagnostic::UnclosedComment { file_id: 3, start: src.len() - 2 }])
    );
}

#[test]
fn line_comment_ends_before_the_newline() {
    assert_eq!(preprocess("// x\n// y", 0).unwrap(), "    \n    ");
    assert_eq!(preprocess("a // b", 0).unwrap(), "a     ");
    assert_eq!(preprocess("//", 0).unwrap(), "  ");
}

#[test]
fn block_opener_inside_line_comment_opens_nothing() {
    assert_eq!(preprocess("// /* x\ny", 0).unwrap(), "       \ny");
}

#[test]
fn line_opener_inside_block_comment_opens_nothing() {
    assert_eq!(preprocess("/* // */ x", 0).unwrap(), "         x");
}

#[test]
fn lone_slashes_and_stars_are_code() {
    assert_eq!(preprocess("a / b * c", 0).unwrap(), "a / b * c");
    assert_eq!(preprocess("/", 0).unwrap(), "/");
    assert_eq!(preprocess("*/", 0).unwrap(), "*/");
    assert_eq!(preprocess("", 0).unwrap(), "");
}

#[test]
fn block_comment_closes_at_the_first_terminator() {
    assert_eq!(preprocess("/**/x", 0).unwrap(), "    x");
    assert_eq!(preprocess("/***/x", 0).unwrap(), "     x");
    assert_eq!(preprocess("/* a */ b */", 0).unwrap(), "        b */");
}

#[test]
fn characters_of_several_bytes_are_masked_one_space_for_each_byte() {
    let src = "é // ü€\né /* 𝄞 */ ß";
    let out = preprocess(src, 0).unwrap();
    assert_eq!(out.len(), src.len());
    let line = " ".repeat("// ü€".len());
    let block = " ".repeat("/* 𝄞 */".len());
    assert_eq!((line.len(), block.len()), (8, 10));
    assert_eq!(out, format!("é {}\né {} ß", line, block));
}

#[test]
fn characters_of_several_bytes_in_code_are_kept() {
    let src = "signal ñ; // done";
    assert_eq!(preprocess(src, 0).unwrap(), "signal ñ;        ");
}

#[test]
fn bytes_are_masked_as_the_text_is() {
    let src = "a /* b */ c // d\n/";
    assert_eq!(mask(src).unwrap(), preprocess(src, 0).unwrap());
    assert_eq!(mask("x /* y"), Err(2));
    // a buffer that is no text at all is masked byte for byte too
    assert_eq!(mask_comments(&[0xff, b'/', b'/', 0xfe, b'\n', 0x80]), Ok(vec![0xff, 32, 32, 32, b'\n', 0x80]));
}

#[test]
fn no_comment_is_left_in_the_result() {
    for src in ["a // b\n/* c */ d", "/ /", "//*x*/", "/**//", "x /* y */ // z", "/*/ */ /"] {
        let out = preprocess(src, 0).unwrap();
        assert!(!out.contains("//") && !out.contains("/*"), "{:?} gave {:?}", src, out);
    }
}
