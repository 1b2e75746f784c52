use md_view::highlight::Engine;
use md_view::markdown::{parse_markdown, Span};
use md_view::mermaid::parse_diagram;
use md_view::theme::{BLOCK_BG, BODY, LINK, MARK_BG, MARK_FG};
use md_view::view::{
    absolute_display_path, banner, block_selected, code_block_text, compact_path, compact_with,
    diagram_cache, half_page, line_highlight, line_index_for_row, map_keystroke, rows_for_lines, path_display,
    path_label, run_style, snap_cursor_if_offscreen, split_highlight, status_line, typed_char, DocView, Input,
    KeyStroke, Modifiers,
};
use md_view::vim::{build_lines, Highlight, Key, Mode, Pos, Vim};
use md_view::watch::{batch_event, WatchEvent};
use std::collections::HashMap;

fn stroke(key: &str, key_char: Option<&str>, control: bool, shift: bool) -> KeyStroke {
    KeyStroke {
        modifiers: Modifiers { control, alt: false, shift, platform: false },
        key: key.to_string(),
        key_char: key_char.map(|c| c.to_string()),
    }
}

#[test]
fn path_bar_splits_filename_and_contracts_home() {
    let home = "/home/alex";
    assert_eq!(
        path_display("/home/alex/docs/notes.md", Some(home)),
        "filename: notes.md    directory: ~/docs"
    );
    assert_eq!(
        path_display("/home/alex2/notes.md", Some(home)),
        "filename: notes.md    directory: /home/alex2"
    );
    assert_eq!(path_display("notes.md", Some(home)), "filename: notes.md    directory: .");
    assert_eq!(absolute_display_path("docs/notes.md", home), "/home/alex/docs/notes.md");
}

#[test]
fn maps_zoom_and_page_keys() {
    assert!(matches!(map_keystroke(&stroke("=", None, true, false)), Some(Input::Zoom(1))));
    assert!(matches!(map_keystroke(&stroke("-", None, true, false)), Some(Input::Zoom(-1))));
    assert!(matches!(
        map_keystroke(&stroke("pagedown", None, false, false)),
        Some(Input::Vim(Key::PageDown))
    ));
    assert!(matches!(map_keystroke(&stroke("tab", None, false, false)), Some(Input::Focus(false))));
    assert!(matches!(map_keystroke(&stroke("tab", None, false, true)), Some(Input::Focus(true))));
}

#[test]
fn character_highlight_segments_keep_unicode_intact() {
    assert_eq!(
        split_highlight("a😀c", 0, Some((1, 2))),
        vec![("a".to_string(), false), ("😀".to_string(), true), ("c".to_string(), false)]
    );
}

#[test]
fn code_copy_text_uses_the_complete_fence() {
    let doc = parse_markdown("```rust\nlet x = 1;\nlet y = 2;\n```\n");
    assert_eq!(code_block_text(&doc, 0), Some("let x = 1;\nlet y = 2;\n"));
}

#[test]
fn copy_text_is_none_for_other_blocks() {
    let doc = parse_markdown("# Title\n\ntext\n");
    assert_eq!(code_block_text(&doc, 0), None);
    assert_eq!(code_block_text(&doc, 1), None);
    assert_eq!(code_block_text(&doc, 7), None);
}

#[test]
fn segments_cover_offsets_and_empty_text() {
    assert_eq!(split_highlight("abcd", 10, Some((11, 13))), vec![
        ("a".to_string(), false),
        ("bc".to_string(), true),
        ("d".to_string(), false),
    ]);
    assert_eq!(split_highlight("abc", 0, None), vec![("abc".to_string(), false)]);
    assert_eq!(split_highlight("", 3, Some((0, 1))), vec![(String::new(), true)]);
    assert_eq!(split_highlight("", 3, None), vec![(String::new(), false)]);
}

#[test]
fn keys_map_to_vim_keys_and_typed_characters() {
    assert!(matches!(map_keystroke(&stroke("d", None, true, false)), Some(Input::Vim(Key::Ctrl('d')))));
    assert!(matches!(map_keystroke(&stroke("d", None, true, true)), None));
    assert!(matches!(map_keystroke(&stroke("c", None, true, false)), Some(Input::Vim(Key::Esc))));
    assert!(matches!(map_keystroke(&stroke("+", None, true, false)), Some(Input::Zoom(1))));
    assert!(matches!(map_keystroke(&stroke("escape", None, false, false)), Some(Input::Vim(Key::Esc))));
    assert!(matches!(map_keystroke(&stroke("space", None, false, false)), Some(Input::Vim(Key::Char(' ')))));
    assert!(matches!(map_keystroke(&stroke("v", Some("V"), false, true)), Some(Input::Vim(Key::Char('V')))));
    assert!(matches!(map_keystroke(&stroke("f1", None, false, false)), None));
    let alt = KeyStroke {
        modifiers: Modifiers { control: false, alt: true, shift: false, platform: false },
        key: "j".to_string(),
        key_char: None,
    };
    assert!(matches!(map_keystroke(&alt), None));
}

#[test]
fn typed_character_prefers_key_char_then_shifted_key() {
    assert_eq!(typed_char(&stroke("v", Some("V"), false, true)), Some('V'));
    assert_eq!(typed_char(&stroke("v", None, false, true)), Some('V'));
    assert_eq!(typed_char(&stroke("v", None, false, false)), Some('v'));
    assert_eq!(typed_char(&stroke("4", None, false, true)), Some('4'));
    assert_eq!(typed_char(&stroke("home", Some("ab"), false, false)), None);
}

#[test]
fn paths_contract_home() {
    assert_eq!(compact_path("", Some("/home/alex")), ".");
    assert_eq!(compact_path("/home/alex", Some("/home/alex")), "~");
    assert_eq!(compact_path("/home/alex/docs", Some("/home/alex")), "~/docs");
    assert_eq!(compact_path("/srv/docs", None), "/srv/docs");
    assert_eq!(compact_with("/home/alex/x", Some("x")), "~/x");
    assert_eq!(path_label("a.md", "~"), "filename: a.md    directory: ~");
    assert_eq!(absolute_display_path("/etc/x.md", "/home/alex"), "/etc/x.md");
}

#[test]
fn half_page_strides() {
    assert_eq!(half_page(0, 0), 20);
    assert_eq!(half_page(5, 3), 20);
    assert_eq!(half_page(3, 4), 1);
    assert_eq!(half_page(10, 40), 15);
}

#[test]
fn banner_and_status_texts() {
    assert_eq!(banner(true, "a.md"), "missing: a.md");
    assert_eq!(banner(false, "a.md"), "");
    let mut vim = Vim::new();
    assert_eq!(status_line(&vim), "-- NORMAL --");
    vim.message = "pattern not found: x".to_string();
    assert_eq!(status_line(&vim), "-- NORMAL --  pattern not found: x");
}

#[test]
fn diagrams_are_cached_by_block() {
    let doc = parse_markdown(
        "```mermaid\ngraph TD\nA-->B\n```\n\n```mermaid\nnot a diagram\n```\n\n```rust\ngraph TD\n```\n",
    );
    let cache = diagram_cache(&doc);
    assert_eq!(cache.len(), 1);
    assert!(cache.contains_key(&0));
    assert!(parse_diagram("graph TD\nA-->B\n").is_some());
}

#[test]
fn rows_skip_continued_diagram_lines() {
    let doc = parse_markdown("# T\n\n```mermaid\ngraph TD\nA-->B\n```\n\nafter\n");
    let lines = build_lines(&doc);
    let cache = diagram_cache(&doc);
    assert_eq!(lines.len(), 4);
    assert_eq!(line_index_for_row(&lines, &cache, 0), 0);
    assert_eq!(line_index_for_row(&lines, &cache, 1), 1);
    assert_eq!(line_index_for_row(&lines, &cache, 2), 3);
    assert_eq!(line_index_for_row(&lines, &cache, 3), 3);
    let empty = HashMap::new();
    assert_eq!(line_index_for_row(&lines, &empty, 2), 2);
    assert_eq!(line_index_for_row(&[], &empty, 3), 0);
}

#[test]
fn snapping_moves_an_offscreen_cursor_to_the_top_row() {
    let doc = parse_markdown("one\n\ntwo\n\nthree\n\nfour\n");
    let lines = build_lines(&doc);
    let cache = HashMap::new();
    let mut vim = Vim::new();
    snap_cursor_if_offscreen(&mut vim, &lines, &cache, 2, 3);
    assert_eq!(vim.cursor, Pos { line: 2, col: 0 });
    snap_cursor_if_offscreen(&mut vim, &lines, &cache, 1, 3);
    assert_eq!(vim.cursor, Pos { line: 2, col: 0 });
}

#[test]
fn selection_shows_per_line_and_per_block() {
    let doc = parse_markdown("alpha\n\nbeta\n");
    let lines = build_lines(&doc);
    let mut vim = Vim::new();
    assert_eq!(line_highlight(&vim, &lines, 0), None);
    vim.mode = Mode::Cursor;
    assert_eq!(line_highlight(&vim, &lines, 0), Some(Highlight::Chars(0, 1)));
    assert!(block_selected(&vim, &lines, lines[0].block));
    assert!(!block_selected(&vim, &lines, lines[1].block));
}

#[test]
fn reload_keeps_the_cursor_on_its_line() {
    let engine = Engine::new();
    let mut view = DocView::load(&engine, "# A\n\nfirst\n\nsecond\n").unwrap();
    let mut vim = Vim::new();
    vim.place_cursor(&view.lines, 2);
    assert!(view.reload(&mut vim, &engine, "# A\n\nnew\n\nfirst\n\nsecond\n"));
    assert_eq!(view.lines.len(), 4);
    assert_eq!(view.lines[vim.cursor.line].text, "second");
}

#[test]
fn watch_batches_report_the_file_state() {
    assert_eq!(batch_event(&[false, true], true), Some(WatchEvent::Modified));
    assert_eq!(batch_event(&[true], false), Some(WatchEvent::Gone));
    assert_eq!(batch_event(&[false, false], true), None);
    assert_eq!(batch_event(&[], false), None);
}

#[test]
fn lines_map_to_their_painted_rows() {
    let doc = parse_markdown("# T\n\n```mermaid\ngraph TD\nA-->B\n```\n\nafter\n");
    let lines = build_lines(&doc);
    let cache = diagram_cache(&doc);
    assert_eq!(rows_for_lines(&lines, &cache), vec![0, 1, 1, 2]);
    assert_eq!(rows_for_lines(&lines, &HashMap::new()), vec![0, 1, 2, 3]);
    let rows = rows_for_lines(&lines, &cache);
    for (i, &row) in rows.iter().enumerate() {
        let first = line_index_for_row(&lines, &cache, row);
        assert!(first <= i);
        assert_eq!(rows[first], row);
    }
}

fn span(text: &str) -> Span {
    Span { text: text.to_string(), ..Default::default() }
}

#[test]
fn runs_paint_span_flags() {
    let plain = run_style(&span("a"));
    assert_eq!((plain.color, plain.background, plain.bold, plain.underline), (BODY, None, false, false));
    let link = run_style(&Span { link: true, bold: true, ..span("a") });
    assert_eq!((link.color, link.background, link.bold), (LINK, None, true));
    let code = run_style(&Span { code: true, italic: true, ..span("a") });
    assert_eq!((code.color, code.background, code.italic), (BODY, Some(BLOCK_BG), true));
    let marked = run_style(&Span { mark: true, link: true, code: true, ..span("a") });
    assert_eq!((marked.color, marked.background), (MARK_FG, Some(MARK_BG)));
    let edited = run_style(&Span { insert: true, strike: true, ..span("a") });
    assert!(edited.underline && edited.strikethrough);
}

#[test]
fn relative_paths_join_the_current_directory() {
    assert_eq!(absolute_display_path("notes.md", "/home/alex"), "/home/alex/notes.md");
    assert_eq!(absolute_display_path("notes.md", "/home/alex/"), "/home/alex/notes.md");
    assert_eq!(absolute_display_path("a/b.md", ""), "a/b.md");
    assert_eq!(path_display("a/b.md", None), "filename: b.md    directory: a");
    assert_eq!(path_display("/b.md", Some("/home/alex")), "filename: b.md    directory: /");
}
