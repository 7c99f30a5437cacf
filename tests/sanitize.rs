use markxiv::sanitize::{sanitize_markdown, strip_html_tags};

#[test]
fn removes_figure_block() {
    let s = "<figure id=\"fig:concept\">\n<embed src=\"figures/latent_cot.pdf\"/>\n<figcaption>text</figcaption>\n</figure>\n\n# Title\nBody";
    let out = sanitize_markdown(s);
    assert!(out.starts_with("> Figure 1: text\n\n# Title"));
    assert!(!out.contains("<figure"));
}

#[test]
fn math_is_kept_while_tags_are_stripped() {
    assert_eq!(
        sanitize_markdown("text <em>bold</em> $a < b$ end"),
        "text bold $a < b$ end"
    );
}

#[test]
fn block_math_keeps_angle_brackets() {
    assert_eq!(
        strip_html_tags("<p>x</p>\n$$\na<b>c\n$$\n<i>y</i>"),
        "x\n$$\na<b>c\n$$\ny"
    );
}

#[test]
fn unclosed_figure_ends_at_blank_line() {
    assert_eq!(
        sanitize_markdown("intro\n<figure><img>\n\nafter"),
        "intro\n> Figure 1: (no caption)\n\nafter"
    );
}

#[test]
fn unclosed_figure_without_break_runs_to_end() {
    assert_eq!(sanitize_markdown("intro <figure> tail"), "intro > Figure 1: (no caption)");
}

#[test]
fn leading_whitespace_is_trimmed_after_stripping() {
    assert_eq!(sanitize_markdown("<b> x</b>"), "x");
}

#[test]
fn stray_closing_bracket_is_kept() {
    assert_eq!(strip_html_tags("a > b"), "a > b");
}

#[test]
fn sanitize_twice_changes_nothing() {
    let inputs = [
        "text <em>bold</em> $a < b$ end",
        "<b> x</b>",
        "$<figure>$ and <figure>x</figure>\n\nmore",
        "  $$ a <x> $$ <i>b</i>",
        "$$$ odd $ <t> $",
        "",
    ];
    for x in inputs.iter() {
        let once = sanitize_markdown(x);
        assert_eq!(sanitize_markdown(&once), once);
    }
}

#[test]
fn empty_input_sanitizes_to_empty() {
    assert_eq!(sanitize_markdown(""), "");
}

#[test]
fn block_math_delimiters_get_their_own_lines() {
    assert_eq!(sanitize_markdown("a $$x<y$$ b"), "a \n$$\nx<y\n$$\n b");
    assert_eq!(sanitize_markdown("$$\nx\n$$"), "$$\nx\n$$");
}

#[test]
fn figures_are_numbered_with_their_captions() {
    assert_eq!(
        sanitize_markdown("<figure><figcaption> A <i>b</i> </figcaption></figure>\n\n<figure></figure>"),
        "> Figure 1: A b\n\n> Figure 2: (no caption)"
    );
}

#[test]
fn stray_angle_bracket_does_not_hide_math() {
    assert_eq!(sanitize_markdown("x < y $a$"), "x < y $a$");
    assert_eq!(sanitize_markdown("a <b c $x$ d> e"), "a <b c $x$ d> e");
}

#[test]
fn tag_runs_to_first_closing_bracket_before_math() {
    assert_eq!(sanitize_markdown("a < b <i>c</i>"), "a c");
    assert_eq!(sanitize_markdown("a < b"), "a < b");
    assert_eq!(sanitize_markdown("<"), "<");
}

#[test]
fn lone_dollar_does_not_stop_tag_stripping() {
    assert_eq!(sanitize_markdown("$<b>"), "$");
    assert_eq!(sanitize_markdown("cost $5 <i>now</i>"), "cost $5 now");
}

#[test]
fn unmatched_block_delimiter_is_text() {
    assert_eq!(strip_html_tags("$$ a <b>x</b>"), "$$ a x");
}
