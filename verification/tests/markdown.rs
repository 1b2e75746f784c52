use md_view::markdown::{
    block_key, flatten, has_display_math, parse_markdown, spans, tag_list, Align, Block, Inline,
    Span,
};

fn first_block(source: &str) -> Block {
    let mut doc = parse_markdown(source);
    assert_eq!(doc.blocks.len(), 1, "expected one block");
    doc.blocks.pop().unwrap()
}

#[test]
fn heading_levels_and_inline_nesting() {
    let Block::Heading { level, text } = first_block("### Hi *there* **you**\n") else {
        panic!("expected heading");
    };
    assert_eq!(level, 3);
    assert_eq!(text.len(), 4);
    assert!(matches!(text[0], Inline::Text(_)));
    assert!(matches!(text[1], Inline::Emph(_)));
    assert!(matches!(text[3], Inline::Strong(_)));
}

#[test]
fn strikethrough_and_link() {
    let Block::Paragraph(inlines) = first_block("a ~~gone~~ [up](https://x.test/y)\n") else {
        panic!("expected paragraph");
    };
    assert!(matches!(inlines[1], Inline::Strike(_)));
    let Inline::Link { label, url } = &inlines[3] else {
        panic!("expected link, got {inlines:?}");
    };
    assert_eq!(url, "https://x.test/y");
    assert!(matches!(label[0], Inline::Text(_)));
}

#[test]
fn fenced_code_keeps_language_and_literal() {
    let Block::Code { language, text } = first_block("```mermaid\ngraph A-->B\n```\n") else {
        panic!("expected code block");
    };
    assert_eq!(language, "mermaid");
    assert!(text.contains("graph A-->B"), "literal: {text:?}");
}

#[test]
fn task_list_checked_states() {
    let Block::List { ordered, items, .. } = first_block("- [x] done\n- [ ] todo\n- plain\n")
    else {
        panic!("expected list");
    };
    assert!(!ordered);
    let states: Vec<_> = items.iter().map(|item| item.checked).collect();
    assert_eq!(states, vec![Some(true), Some(false), None]);
    assert!(matches!(items[0].blocks[0], Block::Paragraph(_)));
}

#[test]
fn ordered_list_start_number() {
    let Block::List { ordered, start, .. } = first_block("3. three\n4. four\n") else {
        panic!("expected list");
    };
    assert!(ordered);
    assert_eq!(start, 3);
}

#[test]
fn table_header_rows_and_alignment() {
    let Block::Table {
        alignments,
        header,
        rows,
    } = first_block("| a | b | c | d |\n|---|:---|---:|:-:|\n| 1 | 2 | 3 | 4 |\n")
    else {
        panic!("expected table");
    };
    assert_eq!(
        alignments,
        vec![Align::Unaligned, Align::Left, Align::Right, Align::Center]
    );
    assert_eq!(header.len(), 4);
    assert_eq!(rows.len(), 1);
    assert_eq!(rows[0].len(), 4);
}

#[test]
fn front_matter_parses_pairs() {
    let doc = parse_markdown("---\ntitle: Hi\ntags: a, b\n---\n\nBody\n");
    assert_eq!(
        doc.front_matter,
        vec![
            ("title".to_string(), "Hi".to_string()),
            ("tags".to_string(), "a, b".to_string()),
        ]
    );
    assert!(matches!(doc.blocks[0], Block::Paragraph(_)));
}

#[test]
fn yaml_tag_arrays_strip_brackets_and_quotes() {
    assert_eq!(
        tag_list(r#"["markdown", "live-preview", "gfm"]"#),
        vec!["markdown", "live-preview", "gfm"]
    );
    assert_eq!(tag_list("a, b"), vec!["a", "b"]);
}

#[test]
fn html_mark_underline_sub_and_sup() {
    let doc = parse_markdown(
        "use <mark>highlighted text</mark> or <u>underlines</u> H<sub>2</sub>O x<sup>2</sup>\n",
    );
    let Block::Paragraph(inlines) = &doc.blocks[0] else {
        panic!("expected paragraph");
    };
    assert!(
        inlines.iter().any(|i| matches!(i, Inline::Mark(_))),
        "{inlines:?}"
    );
    assert!(
        inlines.iter().any(|i| matches!(i, Inline::Insert(_))),
        "{inlines:?}"
    );
    assert!(
        inlines.iter().any(|i| matches!(i, Inline::Sub(_))),
        "{inlines:?}"
    );
    assert!(
        inlines.iter().any(|i| matches!(i, Inline::Super(_))),
        "{inlines:?}"
    );
    let runs = spans(inlines);
    assert!(
        runs.iter().any(|s| s.mark && s.text.contains("highlighted")),
        "{runs:?}"
    );
    assert!(
        runs.iter().any(|s| s.insert && s.text.contains("underlines")),
        "{runs:?}"
    );
    assert!(
        runs.iter().any(|s| s.text.contains('₂')),
        "subscript: {runs:?}"
    );
    assert!(
        runs.iter().any(|s| s.text.contains('²')),
        "superscript: {runs:?}"
    );
}

#[test]
fn dollar_math_is_a_math_inline() {
    let doc = parse_markdown("Inline equation: $$E = mc^2$$\n");
    let Block::Paragraph(inlines) = &doc.blocks[0] else {
        panic!("expected paragraph");
    };
    assert!(
        inlines.iter().any(|i| matches!(
            i,
            Inline::Math {
                display: true,
                tex
            } if tex.contains("E = mc^2")
        )),
        "{inlines:?}"
    );
    assert!(has_display_math(inlines));
}

#[test]
fn quote_rule_and_skipped_html() {
    let doc = parse_markdown("> quoted\n\n---\n\n<div>x</div>\n");
    assert!(matches!(doc.blocks[0], Block::Quote(_)));
    assert!(matches!(doc.blocks[1], Block::Rule));
    assert_eq!(doc.blocks.len(), 2, "html block must be skipped");
}

#[test]
fn flatten_strips_markup() {
    let doc = parse_markdown("Hi *there* **you** `code`\n");
    let Block::Paragraph(inlines) = &doc.blocks[0] else {
        panic!("expected paragraph");
    };
    assert_eq!(flatten(inlines), "Hi there you code");
}

#[test]
fn flatten_keeps_link_destination() {
    let doc = parse_markdown("See [docs](https://x.test/y) now\n");
    let Block::Paragraph(inlines) = &doc.blocks[0] else {
        panic!("expected paragraph");
    };
    let text = flatten(inlines);
    assert!(
        text.contains("docs (https://x.test/y)"),
        "missing destination: {text:?}"
    );
}

#[test]
fn flatten_covers_heading_task_and_table_cells() {
    let doc = parse_markdown("# T\n\n- [x] a\n\n| h |\n|---|\n| b |\n");
    let Block::Heading { text, .. } = &doc.blocks[0] else {
        panic!("expected heading");
    };
    assert_eq!(flatten(text), "T");
    let Block::List { items, .. } = &doc.blocks[1] else {
        panic!("expected list");
    };
    let Block::Paragraph(inlines) = &items[0].blocks[0] else {
        panic!("expected paragraph");
    };
    assert_eq!(flatten(inlines), "a");
    let Block::Table { header, rows, .. } = &doc.blocks[2] else {
        panic!("expected table");
    };
    assert_eq!(flatten(&header[0]), "h");
    assert_eq!(flatten(&rows[0][0]), "b");
}

#[test]
fn spans_preserve_mark_and_insert() {
    let doc = parse_markdown("a ==mark== b ++ins++ c\n");
    let Block::Paragraph(inlines) = &doc.blocks[0] else {
        panic!("expected paragraph");
    };
    let runs = spans(inlines);
    assert!(
        runs.iter().any(|s| s.mark && s.text == "mark"),
        "runs: {runs:?}"
    );
    assert!(
        runs.iter().any(|s| s.insert && s.text == "ins"),
        "runs: {runs:?}"
    );
    assert!(runs.iter().any(|s| !s.mark && !s.insert && s.text == "a "));
}

#[test]
fn spans_flag_bold_italic_code_and_link() {
    let doc = parse_markdown("**bold** *it* `code` [x](https://y.test)\n");
    let Block::Paragraph(inlines) = &doc.blocks[0] else {
        panic!("expected paragraph");
    };
    let runs = spans(inlines);
    assert!(runs.iter().any(|s| s.bold && s.text == "bold"));
    assert!(runs.iter().any(|s| s.italic && s.text == "it"));
    assert!(runs.iter().any(|s| s.code && s.text == "code"));
    assert!(runs.iter().any(|s| s.link && s.text == "x"));
    assert!(
        runs.iter().all(|s| !s.text.contains("https://y.test")),
        "visual spans must not append the URL: {runs:?}"
    );
}

#[test]
fn spans_merge_adjacent_same_style_runs() {
    let doc = parse_markdown("hello\nworld\n");
    let Block::Paragraph(inlines) = &doc.blocks[0] else {
        panic!("expected paragraph");
    };
    let runs = spans(inlines);
    assert_eq!(
        runs,
        vec![Span {
            text: "hello world".to_string(),
            ..Span::default()
        }]
    );
}

#[test]
fn kbd_becomes_code_and_unclosed_tags_wrap_to_the_end() {
    let doc = parse_markdown("press <kbd>Ctrl *C*</kbd> then <mark>rest\n");
    let Block::Paragraph(inlines) = &doc.blocks[0] else {
        panic!("expected paragraph");
    };
    assert!(
        inlines
            .iter()
            .any(|i| matches!(i, Inline::Code(text) if text == "Ctrl C")),
        "{inlines:?}"
    );
    assert!(
        matches!(inlines.last(), Some(Inline::Mark(inner)) if flatten(inner) == "rest"),
        "{inlines:?}"
    );
}

#[test]
fn code_language_is_first_word_lowercased() {
    let Block::Code { language, .. } = first_block("```Rust ignore\nfn x() {}\n```\n") else {
        panic!("expected code block");
    };
    assert_eq!(language, "rust");
}

#[test]
fn image_alt_collects_text_and_code() {
    let Block::Paragraph(inlines) = first_block("![a `b` *c*](pic.png)\n") else {
        panic!("expected paragraph");
    };
    let Inline::Image { alt, url } = &inlines[0] else {
        panic!("expected image, got {inlines:?}");
    };
    assert_eq!(alt, "a b c");
    assert_eq!(url, "pic.png");
}

#[test]
fn block_keys_follow_content() {
    let doc = parse_markdown("# Title\n\npara text\n\n```rs\nlet x;\n```\n\n- one\n- two\n\n---\n");
    let keys: Vec<String> = doc.blocks.iter().map(block_key).collect();
    assert_eq!(
        keys,
        vec!["h1:Title", "p:para text", "c:rs:let x;", "l:false:one", "---"]
    );
}

#[test]
fn spans_merge_runs_with_the_same_style() {
    let inlines = vec![
        Inline::Text("a".to_string()),
        Inline::Text(String::new()),
        Inline::Text("b".to_string()),
        Inline::Emph(vec![Inline::Text("c".to_string())]),
        Inline::Text("d".to_string()),
    ];
    let out = spans(&inlines);
    let texts: Vec<(&str, bool)> = out.iter().map(|s| (s.text.as_str(), s.italic)).collect();
    assert_eq!(texts, vec![("ab", false), ("c", true), ("d", false)]);
}

fn first_run() -> Vec<Inline> {
    vec![
        Inline::Text("a ".to_string()),
        Inline::Link { label: vec![Inline::Text("l".to_string())], url: "u".to_string() },
    ]
}

fn second_run() -> Vec<Inline> {
    vec![Inline::Break, Inline::Image { alt: "i".to_string(), url: String::new() }]
}

#[test]
fn flattening_runs_one_after_another_concatenates() {
    let mut both = first_run();
    both.extend(second_run());
    assert_eq!(flatten(&both), flatten(&first_run()) + &flatten(&second_run()));
    assert_eq!(flatten(&both), "a l (u) i");
}

#[test]
fn spans_read_as_the_flattened_text() {
    let run = || {
        vec![
            Inline::Strong(vec![Inline::Text("a".to_string())]),
            Inline::Text(" ".to_string()),
            Inline::Emph(vec![Inline::Text("b".to_string())]),
            Inline::Code("c".to_string()),
            Inline::Link { label: vec![Inline::Text("l".to_string())], url: String::new() },
            Inline::Break,
            Inline::Image { alt: "i".to_string(), url: "u".to_string() },
        ]
    };
    let text: String = spans(&run()).iter().map(|s| s.text.as_str()).collect();
    assert_eq!(text, flatten(&run()));
    assert_eq!(text, "a bcl i (u)");
    let linked = vec![Inline::Link { label: vec![Inline::Text("l".to_string())], url: "u".to_string() }];
    let text: String = spans(&linked).iter().map(|s| s.text.as_str()).collect();
    assert_eq!(text, "l");
    assert_eq!(flatten(&linked), "l (u)");
}

#[test]
fn tag_forms_agree() {
    let labels = vec!["rust lang".to_string(), "x".to_string(), "v1.0".to_string()];
    assert_eq!(tag_list("rust lang, x, v1.0"), labels);
    assert_eq!(tag_list("[rust lang, x, v1.0]"), labels);
    assert_eq!(tag_list("[\"rust lang\", \"x\", \"v1.0\"]"), labels);
    assert!(tag_list("").is_empty());
    assert!(tag_list("[]").is_empty());
}
