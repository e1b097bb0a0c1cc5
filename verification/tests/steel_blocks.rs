use xo::steel_blocks::{
    check_block_result, check_block_source, render_steel_blocks, steel_segments, SteelSegment,
    MAX_BLOCK_BYTES, MAX_RESULT_BYTES,
};

#[test]
fn evaluated_markdown_replaces_the_whole_block() {
    let body = "# Stats\n```steel\n(length books)\n```\n";
    assert_eq!(
        steel_segments(body),
        vec![
            SteelSegment::Text("# Stats\n".to_owned()),
            SteelSegment::Block("(length books)\n".to_owned()),
        ]
    );
    assert_eq!(
        render_steel_blocks(body, &[Ok("Books: 1".to_owned())]),
        "# Stats\nBooks: 1"
    );
}

#[test]
fn unclosed_blocks_are_left_unchanged() {
    assert_eq!(
        steel_segments("```steel\n(+ 1"),
        vec![SteelSegment::Unclosed("(+ 1".to_owned())]
    );
    assert_eq!(render_steel_blocks("```steel\n(+ 1", &[]), "```steel\n(+ 1");
}

#[test]
fn evaluation_errors_are_quoted_in_place() {
    let rendered = render_steel_blocks("```steel\n(+ 1 2)\n```", &[Err("boom".to_owned())]);
    assert!(rendered.contains("Steel block error"));
    assert_eq!(rendered, "> Steel block error: boom\n");
}

#[test]
fn fences_allow_trailing_white_space_and_blocks_follow_each_other() {
    let body = "a\n```steel  \nx\n```\t\nb\n```steel\ny\nz\n```\n";
    assert_eq!(
        steel_segments(body),
        vec![
            SteelSegment::Text("a\n".to_owned()),
            SteelSegment::Block("x\n".to_owned()),
            SteelSegment::Text("b\n".to_owned()),
            SteelSegment::Block("y\nz\n".to_owned()),
        ]
    );
    assert_eq!(
        render_steel_blocks(body, &[Ok("1".to_owned()), Ok("2\n".to_owned())]),
        "a\n1b\n2\n"
    );
}

#[test]
fn other_fences_are_plain_text() {
    let body = "```rust\nfn main() {}\n```\n ```steel\n";
    assert_eq!(
        steel_segments(body),
        vec![
            SteelSegment::Text("```rust\n".to_owned()),
            SteelSegment::Text("fn main() {}\n".to_owned()),
            SteelSegment::Text("```\n".to_owned()),
            SteelSegment::Text(" ```steel\n".to_owned()),
        ]
    );
    assert_eq!(render_steel_blocks(body, &[]), body);
}

#[test]
fn an_unclosed_opening_line_is_rewritten_with_a_line_break() {
    assert_eq!(render_steel_blocks("text\n```steel", &[]), "text\n```steel\n");
    assert_eq!(render_steel_blocks("```steel \n", &[]), "```steel\n");
}

#[test]
fn block_sources_and_results_are_bounded() {
    assert_eq!(MAX_BLOCK_BYTES, 64 * 1024);
    assert_eq!(MAX_RESULT_BYTES, 256 * 1024);
    assert_eq!(check_block_source(&"x".repeat(MAX_BLOCK_BYTES)), Ok(()));
    assert_eq!(
        check_block_source(&"x".repeat(MAX_BLOCK_BYTES + 1)),
        Err("block exceeds the 64 KiB limit".to_owned())
    );
    assert_eq!(
        check_block_source(&"é".repeat(MAX_BLOCK_BYTES / 2 + 1)),
        Err("block exceeds the 64 KiB limit".to_owned())
    );
    let fits = "y".repeat(MAX_RESULT_BYTES);
    assert_eq!(check_block_result(fits.clone()), Ok(fits));
    assert_eq!(
        check_block_result("y".repeat(MAX_RESULT_BYTES + 1)),
        Err("block result exceeds the 256 KiB limit".to_owned())
    );
}
