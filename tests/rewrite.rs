use code_preprocessor::{render_block, rewrite_chapter};

const OPEN: &str = "<span class=\"code-user-input\">";

#[test]
fn text_without_fences_is_unchanged() {
    let text = "# Title\n\nSome text with %% markers but no code.\n";
    assert_eq!(rewrite_chapter(text), text);
    assert_eq!(rewrite_chapter(""), "");
}

#[test]
fn unmatched_fence_is_left_alone() {
    let text = "before\n```\n%%ls%%\nno closing fence";
    assert_eq!(rewrite_chapter(text), text);
}

#[test]
fn block_without_marker_is_unchanged() {
    let text = "a\n```rust\nfn main() {}\n```\nb";
    assert_eq!(rewrite_chapter(text), text);
}

#[test]
fn pair_of_markers_becomes_span() {
    let text = "```\n%%hello%%\n```";
    let expected = format!("<pre><code>{}hello</span>\n</code></pre>\n", OPEN);
    assert_eq!(rewrite_chapter(text), expected);
    assert_eq!(render_block("%%hello%%"), expected);
}

#[test]
fn odd_marker_leaves_span_open() {
    let text = "```\n%%a%%b%%c\n```";
    let expected = format!("<pre><code>{}a</span>b{}c\n</code></pre>\n", OPEN, OPEN);
    assert_eq!(rewrite_chapter(text), expected);
}

#[test]
fn interior_is_trimmed() {
    let text = "x```\n \t %%ls%% -l \n\n```y";
    let expected = format!("x<pre><code>{}ls</span> -l\n</code></pre>\ny", OPEN);
    assert_eq!(rewrite_chapter(text), expected);
}

#[test]
fn marker_in_fence_line_counts() {
    let text = "```%%sh\nls\n```";
    let expected = format!("<pre><code>{}sh\nls\n</code></pre>\n", OPEN);
    assert_eq!(rewrite_chapter(text), expected);
}

#[test]
fn mixed_blocks_in_one_chapter() {
    let text = "A\n```\nplain\n```\nB\n```console\n$ %%make%%\n```\nC";
    let expected = format!(
        "A\n```\nplain\n```\nB\n<pre><code>console\n$ {}make</span>\n</code></pre>\n\nC",
        OPEN
    );
    assert_eq!(rewrite_chapter(text), expected);
}

#[test]
fn block_without_markers_renders_plainly() {
    assert_eq!(render_block(""), "<pre><code>\n</code></pre>\n");
    assert_eq!(render_block("a % b"), "<pre><code>a % b\n</code></pre>\n");
    assert_eq!(
        render_block("%%%x%%"),
        format!("<pre><code>{}%x</span>\n</code></pre>\n", OPEN)
    );
}

#[test]
fn end_to_end_chapter() {
    let text = "Text\n```\n%%cd /tmp%%\nls\n```\nMore text";
    let expected = format!(
        "Text\n<pre><code>{}cd /tmp</span>\nls\n</code></pre>\n\nMore text",
        OPEN
    );
    assert_eq!(rewrite_chapter(text), expected);
}

#[test]
fn second_pass_changes_nothing() {
    let inputs = [
        "Text\n```\n%%cd /tmp%%\nls\n```\nMore text",
        "```\n%%a%%b%%c\n```",
        "A\n```\nplain\n```\nB\n```\n%%x%%\n```\nC```",
        "no fences",
    ];
    for text in inputs {
        let once = rewrite_chapter(text);
        let twice = rewrite_chapter(&once);
        assert_eq!(once, twice);
    }
}
