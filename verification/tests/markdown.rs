use tab_notes_core::markdown::{heading_lines, render, wrap, LineKind, RenderedLine, Span, SpanKind};

fn kinds(lines: &[RenderedLine]) -> Vec<LineKind> {
    lines.iter().map(|l| l.kind.clone()).collect()
}

fn texts(lines: &[RenderedLine]) -> Vec<String> {
    lines.iter().map(|l| l.text.clone()).collect()
}

#[test]
fn upper_cases_h1_and_follows_it_with_a_rule() {
    let out = render("# Verifica");
    assert_eq!(texts(&out), vec!["VERIFICA", ""]);
    assert_eq!(kinds(&out), vec![LineKind::Heading1, LineKind::Rule]);
}

#[test]
fn keeps_h2_case_and_still_rules_it() {
    let out = render("## Implementazione");
    assert_eq!(texts(&out), vec!["Implementazione", ""]);
    assert_eq!(kinds(&out), vec![LineKind::Heading2, LineKind::Rule]);
}

#[test]
fn does_not_rule_h3() {
    assert_eq!(kinds(&render("### Dettaglio")), vec![LineKind::Heading3]);
}

#[test]
fn a_hash_without_a_space_is_not_a_heading() {
    assert_eq!(kinds(&render("#hashtag")), vec![LineKind::Plain]);
}

#[test]
fn turns_task_markers_into_checkboxes() {
    let out = render("- [ ] Composer 2.5\n- [x] Opus");
    assert_eq!(texts(&out), vec!["☐ Composer 2.5", "☑ Opus"]);
    assert_eq!(
        kinds(&out),
        vec![
            LineKind::Checkbox { done: false },
            LineKind::Checkbox { done: true }
        ]
    );
}

#[test]
fn accepts_an_upper_case_x_as_done() {
    assert_eq!(
        kinds(&render("- [X] Grok")),
        vec![LineKind::Checkbox { done: true }]
    );
}

#[test]
fn turns_plain_list_markers_into_bullets() {
    let out = render("- uno\n* due\n+ tre");
    assert_eq!(texts(&out), vec!["• uno", "• due", "• tre"]);
    assert_eq!(kinds(&out).len(), 3);
}

#[test]
fn marks_quotes() {
    let out = render("> citazione");
    assert_eq!(texts(&out), vec!["│ citazione"]);
    assert_eq!(kinds(&out), vec![LineKind::Quote]);
}

#[test]
fn recognises_horizontal_rules() {
    assert_eq!(kinds(&render("---")), vec![LineKind::Rule]);
    assert_eq!(kinds(&render("***")), vec![LineKind::Rule]);
    assert_eq!(kinds(&render("- - -")), vec![LineKind::Rule]);
    // Two dashes is not a rule, and a lone dash is a bullet marker.
    assert_eq!(kinds(&render("--")), vec![LineKind::Plain]);
}

#[test]
fn keeps_code_blocks_verbatim() {
    let out = render("```rust\n# not a heading\n- [ ] not a checkbox\n```");
    assert_eq!(
        kinds(&out),
        vec![
            LineKind::Rule,
            LineKind::Code,
            LineKind::Code,
            LineKind::Rule
        ]
    );
    assert_eq!(texts(&out)[1], "# not a heading");
}

#[test]
fn strips_strong_markers_and_reports_the_run() {
    let out = render("prima **forte** dopo");
    assert_eq!(out[0].text, "prima forte dopo");
    assert_eq!(
        out[0].spans,
        vec![Span {
            start: 6,
            end: 11,
            kind: SpanKind::Strong
        }]
    );
}

#[test]
fn strips_code_markers_and_reports_the_run() {
    let out = render("usa `cargo test` ora");
    assert_eq!(out[0].text, "usa cargo test ora");
    assert_eq!(
        out[0].spans,
        vec![Span {
            start: 4,
            end: 14,
            kind: SpanKind::Code
        }]
    );
}

#[test]
fn leaves_an_unmatched_marker_alone() {
    let out = render("2 * 3 = 6 e un `backtick");
    assert_eq!(out[0].text, "2 * 3 = 6 e un `backtick");
    assert!(out[0].spans.is_empty());
}

#[test]
fn shifts_spans_past_a_checkbox_glyph() {
    let out = render("- [ ] usa `cargo`");
    assert_eq!(out[0].text, "☐ usa cargo");
    assert_eq!(
        out[0].spans,
        vec![Span {
            start: 6,
            end: 11,
            kind: SpanKind::Code
        }]
    );
}

#[test]
fn wrapping_carries_the_kind_onto_continuations() {
    let lines = render("- [ ] uno due tre quattro");
    let wrapped = wrap(&lines, 10);
    assert!(wrapped.len() > 1);
    assert!(wrapped
        .iter()
        .all(|l| l.kind == LineKind::Checkbox { done: false }));
}

#[test]
fn wrapping_clips_a_span_to_the_segment_holding_it() {
    // "una **frase** lunga da spezzare" -> strong run at chars 4..9
    let lines = render("una **frase** lunga da spezzare");
    let wrapped = wrap(&lines, 12);
    let carrying: Vec<_> = wrapped.iter().filter(|l| !l.spans.is_empty()).collect();
    assert_eq!(carrying.len(), 1, "the run belongs to exactly one segment");
    let span = carrying[0].spans[0];
    let slice: String = carrying[0]
        .text
        .chars()
        .skip(span.start)
        .take(span.end - span.start)
        .collect();
    assert_eq!(slice, "frase");
}

#[test]
fn wrapping_a_zero_width_viewport_produces_nothing() {
    assert!(wrap(&render("qualcosa"), 0).is_empty());
}

#[test]
fn hard_splits_a_word_longer_than_the_width() {
    let wrapped = wrap(&render("aaaaaaa"), 3);
    assert_eq!(texts(&wrapped), vec!["aaa", "aaa", "a"]);
}

#[test]
fn h1_upper_casing_follows_unicode() {
    let out = render("#   straße **già**  ");
    assert_eq!(out[0].text, "STRASSE GIÀ");
    assert_eq!(
        out[0].spans,
        vec![Span {
            start: 8,
            end: 11,
            kind: SpanKind::Strong
        }]
    );
}

#[test]
fn heading_lines_take_the_text_as_given() {
    let out = heading_lines(LineKind::Heading2, "a `b`");
    assert_eq!(texts(&out), vec!["a b", ""]);
    assert_eq!(kinds(&out), vec![LineKind::Heading2, LineKind::Rule]);
    assert_eq!(out[0].spans, vec![Span { start: 2, end: 3, kind: SpanKind::Code }]);
    assert_eq!(kinds(&heading_lines(LineKind::Heading3, "x")), vec![LineKind::Heading3]);
}

#[test]
fn quotes_trim_after_the_marker_and_shift_spans() {
    let out = render("  >    **a** b");
    assert_eq!(out[0].text, "│ a b");
    assert_eq!(out[0].spans, vec![Span { start: 2, end: 3, kind: SpanKind::Strong }]);
}

#[test]
fn plain_lines_keep_leading_spaces_and_drop_trailing_ones() {
    let out = render("   indented   \r\nnext");
    assert_eq!(texts(&out), vec!["   indented", "next"]);
    assert_eq!(kinds(&out), vec![LineKind::Plain, LineKind::Plain]);
}

#[test]
fn an_empty_code_run_is_an_empty_span() {
    let out = render("a``b");
    assert_eq!(out[0].text, "ab");
    assert_eq!(out[0].spans, vec![Span { start: 1, end: 1, kind: SpanKind::Code }]);
}

#[test]
fn tilde_fences_open_and_close_code_blocks() {
    let out = render("~~~\n**x**\n~~~\n**y**");
    assert_eq!(
        kinds(&out),
        vec![LineKind::Rule, LineKind::Code, LineKind::Rule, LineKind::Plain]
    );
    assert_eq!(texts(&out), vec!["", "**x**", "", "y"]);
}

#[test]
fn an_empty_note_renders_to_nothing() {
    assert!(render("").is_empty());
    assert_eq!(kinds(&render("\n")), vec![LineKind::Plain]);
}

#[test]
fn a_long_underscore_rule_with_spaces_is_a_rule() {
    assert_eq!(kinds(&render(" _ _ _ _ ")), vec![LineKind::Rule]);
    assert_eq!(kinds(&render("-*-")), vec![LineKind::Plain]);
}

#[test]
fn wrapped_lines_fit_the_width_and_spans_stay_inside() {
    let lines = render("- **uno** due `tre quattro` cinque sei sette otto");
    for width in 1..12 {
        let wrapped = wrap(&lines, width);
        assert!(wrapped.len() >= lines.len());
        for l in &wrapped {
            assert!(l.text.chars().count() <= width);
            for s in &l.spans {
                assert!(s.start < s.end && s.end <= l.text.chars().count());
            }
        }
    }
}

#[test]
fn wrapping_breaks_at_the_last_space_inside_the_window() {
    let wrapped = wrap(&render("ab cd ef"), 5);
    assert_eq!(texts(&wrapped), vec!["ab", "cd ef"]);
    let wrapped = wrap(&render("abcd efgh"), 4);
    assert_eq!(texts(&wrapped), vec!["abcd", "efgh"]);
}

#[test]
fn a_line_that_fits_is_kept_whole() {
    let wrapped = wrap(&render("a  b"), 4);
    assert_eq!(texts(&wrapped), vec!["a  b"]);
    let rule = wrap(&render("---"), 3);
    assert_eq!(kinds(&rule), vec![LineKind::Rule]);
}

#[test]
fn lines_split_like_the_standard_library() {
    for content in ["a\r\nb\r", "\r\n", "a\n\nb\n", "x\ry", "one", "p\n\r\nq", "\n\n"] {
        let expected: Vec<String> = content.lines().map(|l| l.trim_end().to_string()).collect();
        assert_eq!(texts(&render(content)), expected, "{:?}", content);
    }
}

#[test]
fn a_note_renders_to_its_lines_plus_a_rule_per_major_heading() {
    let content = "# one\n## two\n### three\n```\n# not a heading\n```\ntext";
    let lines = render(content);
    assert_eq!(content.lines().count(), 7);
    assert_eq!(lines.len(), 7 + 2);
    assert_eq!(
        kinds(&lines),
        vec![
            LineKind::Heading1,
            LineKind::Rule,
            LineKind::Heading2,
            LineKind::Rule,
            LineKind::Heading3,
            LineKind::Rule,
            LineKind::Code,
            LineKind::Rule,
            LineKind::Plain,
        ]
    );
}

#[test]
fn rendered_spans_are_in_order_and_rules_and_code_carry_none() {
    let lines = render("**a** and `b` then **c**\n---\n```\n**x**\n```");
    for l in &lines {
        let n = l.text.chars().count();
        for w in l.spans.windows(2) {
            assert!(w[0].end <= w[1].start);
        }
        assert!(l.spans.iter().all(|s| s.start <= s.end && s.end <= n));
        if l.kind == LineKind::Rule {
            assert!(l.text.is_empty() && l.spans.is_empty());
        }
        if l.kind == LineKind::Code {
            assert!(l.spans.is_empty());
        }
    }
    assert_eq!(
        lines[0].spans,
        vec![
            Span { start: 0, end: 1, kind: SpanKind::Strong },
            Span { start: 6, end: 7, kind: SpanKind::Code },
            Span { start: 13, end: 14, kind: SpanKind::Strong },
        ]
    );
}

#[test]
fn each_line_wraps_into_its_own_group_of_pieces() {
    let lines = render("alpha beta gamma\n- one two three");
    let wrapped = wrap(&lines, 6);
    assert_eq!(
        texts(&wrapped),
        vec!["alpha", "beta", "gamma", "• one", "two", "three"]
    );
    assert_eq!(
        kinds(&wrapped),
        vec![
            LineKind::Plain,
            LineKind::Plain,
            LineKind::Plain,
            LineKind::Bullet,
            LineKind::Bullet,
            LineKind::Bullet,
        ]
    );
}

#[test]
fn wrapping_wrapped_lines_again_changes_nothing() {
    let lines = render("una **frase** lunga da spezzare\n- [x] `code` e altro testo\n\n---");
    for width in [0usize, 1, 4, 7, 12, 80] {
        let once = wrap(&lines, width);
        assert_eq!(wrap(&once, width), once, "width {}", width);
    }
}
