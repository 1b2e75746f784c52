use md_view::highlight::{
    highlight_code, highlight_document, line_tokens, rgb_channels, tokyo_rules, tokyo_theme, Engine, Fragment, Token,
};
use syntect::parsing::SyntaxSet;
use md_view::markdown::{parse_markdown, Block};
use md_view::theme::{COMMENT, CONSTANT, FG, FUNCTION, KEYWORD, STRING};

fn colors(rows: &[Vec<Token>]) -> Vec<u32> {
    rows.iter().flat_map(|row| row.iter().map(|token| token.color)).collect()
}

fn joined(rows: &[Vec<Token>]) -> String {
    rows.iter()
        .map(|row| row.iter().map(|token| token.text.clone()).collect::<String>())
        .collect::<Vec<_>>()
        .join("\n")
}

fn fragment(text: &str, rgb: (u8, u8, u8), italic: bool) -> Fragment {
    Fragment { text: text.to_string(), red: rgb.0, green: rgb.1, blue: rgb.2, italic }
}

#[test]
fn json_strings_numbers_and_booleans() {
    let rows = highlight_code("json", "{\"name\": \"x\", \"n\": 12, \"ok\": true}");
    let palette = colors(&rows);
    assert!(palette.contains(&STRING), "strings: {rows:?}");
    assert!(palette.contains(&CONSTANT), "numbers: {rows:?}");
    assert_eq!(rows.len(), 1);
}

#[test]
fn rust_comment_keyword_and_function() {
    let rows = highlight_code("rust", "// note\nfn main() {}");
    assert_eq!(rows.len(), 2);
    assert!(rows[0].iter().any(|token| token.color == COMMENT && token.italic));
    assert!(
        rows[1].iter().any(|token| token.color == KEYWORD && token.text == "fn"),
        "keyword: {rows:?}"
    );
    assert!(
        rows[1].iter().any(|token| token.color == FUNCTION && token.text.contains("main")),
        "function: {rows:?}"
    );
}

#[test]
fn unknown_language_falls_back_to_plain() {
    let rows = highlight_code("mermaid", "graph A-->B");
    assert_eq!(rows.len(), 1);
    assert!(rows[0].iter().all(|token| token.color == FG));
    assert_eq!(joined(&rows), "graph A-->B");
}

#[test]
fn blank_and_empty_inputs_keep_shape() {
    assert!(highlight_code("rust", "").is_empty());
    let rows = highlight_code("rust", "a\n\nb\n");
    assert_eq!(rows.len(), 3);
    assert!(rows[1].is_empty());
    assert_eq!(joined(&rows), "a\n\nb");
}

#[test]
fn language_tag_is_trimmed_and_case_folded() {
    let engine = Engine::new();
    let plain = engine.highlight_code("rust", "fn main() {}");
    let shouted = engine.highlight_code("  RUST ", "fn main() {}");
    assert_eq!(plain, shouted);
}

#[test]
fn tokens_never_hold_newlines() {
    let rows = highlight_code("python", "def f():\n    return 1\n\n# done\n");
    assert_eq!(rows.len(), 4);
    for row in &rows {
        for token in row {
            assert!(!token.text.is_empty());
            assert!(!token.text.contains('\n'));
        }
    }
    assert_eq!(joined(&rows), "def f():\n    return 1\n\n# done");
}

#[test]
fn document_highlights_code_blocks_only() {
    let doc = parse_markdown("# Title\n\n```rust\nlet x = 1;\n```\n\ntext\n\n```\nplain\n```\n");
    let map = highlight_document(&doc);
    let mut keys: Vec<usize> = map.keys().copied().collect();
    keys.sort();
    assert_eq!(keys.len(), 2);
    assert_eq!(joined(&map[&keys[0]]), "let x = 1;");
    assert_eq!(joined(&map[&keys[1]]), "plain");
}

#[test]
fn line_tokens_strips_newlines_and_drops_empty_fragments() {
    let line: Vec<char> = "let x\n".chars().collect();
    let frags = vec![
        fragment("let", (0x9d, 0x7c, 0xd8), true),
        fragment("", (1, 2, 3), false),
        fragment(" x\n", (0xc0, 0xca, 0xf5), false),
    ];
    let row = line_tokens(&line, &Some(frags));
    assert_eq!(
        row,
        vec![
            Token { text: "let".to_string(), color: KEYWORD, italic: true },
            Token { text: " x".to_string(), color: FG, italic: false },
        ]
    );
}

#[test]
fn line_tokens_falls_back_to_the_plain_line() {
    let line: Vec<char> = "graph A\n".chars().collect();
    let row = line_tokens(&line, &None);
    assert_eq!(row, vec![Token { text: "graph A".to_string(), color: FG, italic: false }]);
    let blank: Vec<char> = "\n".chars().collect();
    assert!(line_tokens(&blank, &None).is_empty());
    assert!(line_tokens(&blank, &Some(vec![fragment("\n", (1, 1, 1), false)])).is_empty());
}

#[test]
fn theme_rules_follow_the_palette() {
    let rules = tokyo_rules();
    assert_eq!(rules.len(), 21);
    assert_eq!(rules[0].selector, "comment");
    assert_eq!(rules[0].color, COMMENT);
    assert!(rules[0].italic);
    assert_eq!(rules[20].selector, "variable");
    assert_eq!(rules[20].color, FG);
}

#[test]
fn channels_split_a_color() {
    assert_eq!(rgb_channels(0x9d7cd8), (0x9d, 0x7c, 0xd8));
    assert_eq!(rgb_channels(0x000001), (0, 0, 1));
}

#[test]
fn each_row_joins_to_its_line() {
    let text = "fn main() {\n    let x = \"a\"; // c\n}\n";
    let rows = highlight_code("rust", text);
    let lines: Vec<&str> = text.lines().collect();
    assert_eq!(rows.len(), lines.len());
    for (row, line) in rows.iter().zip(lines) {
        assert_eq!(row.iter().map(|t| t.text.as_str()).collect::<String>(), line);
    }
}

#[test]
fn tokyo_theme_holds_the_palette() {
    let theme = tokyo_theme();
    assert_eq!(theme.name.as_deref(), Some("tokyo_custom"));
    let fg = theme.settings.foreground.expect("foreground");
    assert_eq!((fg.r, fg.g, fg.b), rgb_channels(FG));
    assert_eq!(theme.scopes.len(), 21);
    let first = theme.scopes[0].style.foreground.expect("rule color");
    assert_eq!((first.r, first.g, first.b), rgb_channels(COMMENT));
}

#[test]
fn a_set_without_plain_text_leaves_lines_plain() {
    let engine = Engine { syntaxes: SyntaxSet::new(), theme: tokyo_theme() };
    let rows = engine.highlight_code("rust", "fn main() {}

x");
    assert_eq!(rows.len(), 3);
    assert_eq!(rows[0].len(), 1);
    assert_eq!(rows[0][0].text, "fn main() {}");
    assert_eq!(rows[0][0].color, FG);
    assert!(rows[1].is_empty());
    assert_eq!(rows[2][0].text, "x");
}

#[test]
fn the_tag_is_trimmed_and_lower_cased() {
    let plain = highlight_code("rust", "// note");
    assert_eq!(highlight_code("  RUST ", "// note"), plain);
    assert!(plain[0].iter().any(|token| token.color == COMMENT));
    let unknown = highlight_code(" Mermaid ", "graph A-->B");
    assert!(unknown[0].iter().all(|token| token.color == FG));
}

#[test]
fn document_blocks_match_single_blocks() {
    let doc = parse_markdown("```rust\nfn main() {}\n```\n\ntext\n\n```json\n{\"a\": 1}\n```\n");
    let engine = Engine::new();
    let map = engine.highlight_document(&doc);
    assert_eq!(map.len(), 2);
    for (index, block) in doc.blocks.iter().enumerate() {
        if let Block::Code { language, text } = block {
            assert_eq!(map[&index], engine.highlight_code(language, text));
            assert_eq!(map[&index], highlight_code(language, text));
        } else {
            assert!(!map.contains_key(&index));
        }
    }
}
