use md_view::markdown::{flatten, parse_markdown, Align};
use md_view::vim::{build_lines, Highlight, Key, Line, Mode, Outcome, Pos, RowContent, Vim};

fn doc_lines(source: &str) -> Vec<Line> {
    build_lines(&parse_markdown(source))
}

fn press(vim: &mut Vim, lines: &[Line], key: Key) -> Outcome {
    vim.handle_key(lines, key, 20)
}

fn chars(s: &str) -> Vec<Key> {
    s.chars().map(Key::Char).collect()
}

#[test]
fn jk_scroll_in_normal_and_move_in_visual() {
    let lines = doc_lines("# a\n\n# b\n\n# c\n");
    let mut vim = Vim::new();
    press(&mut vim, &lines, Key::Char('3'));
    assert!(matches!(
        press(&mut vim, &lines, Key::Char('j')),
        Outcome::Scroll(3)
    ));
    assert_eq!(vim.cursor.line, 0);
    assert!(matches!(
        press(&mut vim, &lines, Key::Char('k')),
        Outcome::Scroll(-1)
    ));
    press(&mut vim, &lines, Key::Char('V'));
    press(&mut vim, &lines, Key::Char('3'));
    press(&mut vim, &lines, Key::Char('j'));
    assert_eq!(vim.cursor.line, 2);
    press(&mut vim, &lines, Key::Char('2'));
    press(&mut vim, &lines, Key::Char('k'));
    assert_eq!(vim.cursor.line, 0);
}

#[test]
fn cursor_mode_uses_character_and_word_motions() {
    let lines = doc_lines("one two\n\nthree\n");
    let mut vim = Vim::new();
    assert!(matches!(
        press(&mut vim, &lines, Key::Char('i')),
        Outcome::Changed
    ));
    assert_eq!(vim.mode, Mode::Cursor);
    assert_eq!(
        vim.highlight_for_line(0, lines[0].text.chars().count()),
        Some(Highlight::Chars(0, 1))
    );
    press(&mut vim, &lines, Key::Char('w'));
    assert_eq!(vim.cursor, Pos { line: 0, col: 4 });
    press(&mut vim, &lines, Key::Char('l'));
    assert_eq!(vim.cursor, Pos { line: 0, col: 5 });
    press(&mut vim, &lines, Key::Char('b'));
    assert_eq!(vim.cursor, Pos { line: 0, col: 4 });
    press(&mut vim, &lines, Key::Char('$'));
    assert_eq!(vim.cursor, Pos { line: 0, col: 6 });
    press(&mut vim, &lines, Key::Char('j'));
    assert_eq!(vim.cursor, Pos { line: 1, col: 4 });
    press(&mut vim, &lines, Key::Char('0'));
    assert_eq!(vim.cursor.col, 0);
}

#[test]
fn page_keys_scroll_normally_and_move_cursor_and_selection() {
    let lines = doc_lines("# 1\n\n# 2\n\n# 3\n\n# 4\n\n# 5\n");
    let mut vim = Vim::new();
    assert!(matches!(
        vim.handle_key(&lines, Key::PageDown, 2),
        Outcome::ScrollPage(1)
    ));
    press(&mut vim, &lines, Key::Char('i'));
    vim.handle_key(&lines, Key::PageDown, 2);
    assert_eq!(vim.cursor.line, 4);
    press(&mut vim, &lines, Key::Char('V'));
    vim.handle_key(&lines, Key::PageUp, 2);
    assert_eq!(vim.cursor.line, 0);
    assert_eq!(vim.selection_lines(), Some((0, 4)));
}

#[test]
fn character_visual_selection_is_inclusive() {
    let lines = doc_lines("abcd\n");
    let mut vim = Vim::new();
    press(&mut vim, &lines, Key::Char('i'));
    press(&mut vim, &lines, Key::Char('l'));
    press(&mut vim, &lines, Key::Char('v'));
    assert_eq!(vim.highlight_for_line(0, 4), Some(Highlight::Chars(1, 2)));
    press(&mut vim, &lines, Key::Char('l'));
    assert_eq!(vim.highlight_for_line(0, 4), Some(Highlight::Chars(1, 3)));
    let Outcome::Yanked(text) = press(&mut vim, &lines, Key::Char('y')) else {
        panic!("expected yank");
    };
    assert_eq!(text, "bc");
}

#[test]
fn visual_selection_covers_items_until_yank() {
    let lines = doc_lines("# a\n\n# b\n\n# c\n");
    let mut vim = Vim::new();
    assert_eq!(vim.selection_lines(), None);
    press(&mut vim, &lines, Key::Char('v'));
    assert_eq!(vim.selection_lines(), Some((0, 0)));
    press(&mut vim, &lines, Key::Char('j'));
    assert_eq!(vim.selection_lines(), Some((0, 1)));
    let Outcome::Yanked(text) = press(&mut vim, &lines, Key::Char('y')) else {
        panic!("expected yank");
    };
    assert_eq!(text, "a\nb");
    assert_eq!(vim.selection_lines(), None);
    assert_eq!(vim.mode, Mode::Cursor);
}

#[test]
fn gg_g_and_goto_line() {
    let lines = doc_lines("# a\n\n# b\n");
    let mut vim = Vim::new();
    press(&mut vim, &lines, Key::Char('G'));
    assert_eq!(vim.cursor.line, 1);
    press(&mut vim, &lines, Key::Char('2'));
    press(&mut vim, &lines, Key::Char('G'));
    assert_eq!(vim.cursor.line, 1);
    for key in chars("gg") {
        press(&mut vim, &lines, key);
    }
    assert_eq!(vim.cursor.line, 0);
}

#[test]
fn stray_g_does_not_latch() {
    let lines = doc_lines("# a\n\n# b\n\n# c\n");
    let mut vim = Vim::new();
    press(&mut vim, &lines, Key::Char('G'));
    assert_eq!(vim.cursor.line, 2);
    press(&mut vim, &lines, Key::Char('g'));
    // `j` is a viewport scroll in normal mode and must clear a pending `g`.
    press(&mut vim, &lines, Key::Char('j'));
    press(&mut vim, &lines, Key::Char('g'));
    assert_eq!(vim.cursor.line, 2);
    press(&mut vim, &lines, Key::Char('g'));
    assert_eq!(vim.cursor.line, 0);
}

#[test]
fn count_survives_first_g() {
    let lines = doc_lines("# 1\n\n# 2\n\n# 3\n\n# 4\n\n# 5\n");
    let mut vim = Vim::new();
    for key in [Key::Char('5'), Key::Char('g'), Key::Char('g')] {
        press(&mut vim, &lines, key);
    }
    assert_eq!(vim.cursor.line, 4);
}

#[test]
fn ctrl_d_u_scroll_viewport_in_normal() {
    let lines = doc_lines("# 1\n\n# 2\n\n# 3\n\n# 4\n\n# 5\n");
    let mut vim = Vim::new();
    assert!(matches!(
        vim.handle_key(&lines, Key::Ctrl('d'), 2),
        Outcome::ScrollHalf(1)
    ));
    assert_eq!(vim.cursor.line, 0);
    assert!(matches!(
        vim.handle_key(&lines, Key::Ctrl('u'), 2),
        Outcome::ScrollHalf(-1)
    ));
    press(&mut vim, &lines, Key::Char('V'));
    vim.handle_key(&lines, Key::Ctrl('d'), 2);
    assert_eq!(vim.cursor.line, 2);
    vim.handle_key(&lines, Key::Ctrl('u'), 2);
    assert_eq!(vim.cursor.line, 0);
}

#[test]
fn visual_char_yank_across_lines() {
    let lines = doc_lines("hello world\n\nsecond line\n");
    let mut vim = Vim::new();
    press(&mut vim, &lines, Key::Char('v'));
    press(&mut vim, &lines, Key::Char('j'));
    let Outcome::Yanked(text) = press(&mut vim, &lines, Key::Char('y')) else {
        panic!("expected yank");
    };
    assert_eq!(text, "hello world\ns");
    assert_eq!(vim.message, "yanked 13 chars");
    assert_eq!(vim.mode, Mode::Cursor);
}

#[test]
fn visual_line_yank_whole_lines() {
    let lines = doc_lines("# a\n\n# b\n\n# c\n");
    let mut vim = Vim::new();
    press(&mut vim, &lines, Key::Char('V'));
    press(&mut vim, &lines, Key::Char('j'));
    let Outcome::Yanked(text) = press(&mut vim, &lines, Key::Char('y')) else {
        panic!("expected yank");
    };
    assert_eq!(text, "a\nb");
    assert_eq!(vim.message, "yanked 2 lines");
}

#[test]
fn yy_yanks_current_line() {
    let lines = doc_lines("# a\n\n# b\n");
    let mut vim = Vim::new();
    press(&mut vim, &lines, Key::Char('G'));
    press(&mut vim, &lines, Key::Char('y'));
    let Outcome::Yanked(text) = press(&mut vim, &lines, Key::Char('y')) else {
        panic!("expected yank");
    };
    assert_eq!(text, "b");
    // A stray `y` arms nothing permanent: viewport scroll clears it.
    press(&mut vim, &lines, Key::Char('y'));
    assert!(matches!(
        press(&mut vim, &lines, Key::Char('k')),
        Outcome::Scroll(-1)
    ));
    assert_eq!(vim.cursor.line, 1);
    assert!(matches!(
        press(&mut vim, &lines, Key::Char('y')),
        Outcome::Changed
    ));
    let Outcome::Yanked(again) = press(&mut vim, &lines, Key::Char('y')) else {
        panic!("expected yank after scroll cleared pending y");
    };
    assert_eq!(again, "b");
}

#[test]
fn search_wrap_n_and_not_found() {
    let lines = doc_lines("alpha\n\nbeta alpha\n");
    let mut vim = Vim::new();
    for key in chars("/alpha") {
        press(&mut vim, &lines, key);
    }
    press(&mut vim, &lines, Key::Enter);
    assert_eq!(vim.cursor, Pos { line: 1, col: 5 });
    press(&mut vim, &lines, Key::Char('n'));
    assert_eq!(vim.cursor, Pos { line: 0, col: 0 });
    press(&mut vim, &lines, Key::Char('n'));
    assert_eq!(vim.cursor, Pos { line: 1, col: 5 });
    press(&mut vim, &lines, Key::Char('N'));
    assert_eq!(vim.cursor, Pos { line: 0, col: 0 });
    for key in chars("/zzz") {
        press(&mut vim, &lines, key);
    }
    press(&mut vim, &lines, Key::Enter);
    assert!(vim.message.contains("pattern not found"));
}

#[test]
fn rebase_tracks_moved_block_and_clamps() {
    let old = build_lines(&parse_markdown("# A\n\n# B\n"));
    let new = build_lines(&parse_markdown("# New\n\n# A\n\n# B\n"));
    let mut vim = Vim::new();
    vim.cursor.line = 1;
    let key = old[1].key.clone();
    vim.rebase(Some(key), &new);
    assert_eq!(vim.cursor.line, 2);
    assert_eq!(vim.mode, Mode::Normal);
    // Gone block: keep the clamped line.
    let shorter = build_lines(&parse_markdown("# A\n"));
    vim.cursor.line = 1;
    vim.rebase(Some("nope".to_string()), &shorter);
    assert_eq!(vim.cursor.line, 0);
}

#[test]
fn code_blocks_keep_lines_and_quote_prefix() {
    let lines = build_lines(&parse_markdown(
        "> hi\n\n```rs\nlet x = 1;\nlet y = 2;\n```\n",
    ));
    assert_eq!(lines[0].text, "> hi");
    assert_eq!(lines[1].text, "let x = 1;");
    assert_eq!(lines[2].text, "let y = 2;");
    // Block ownership underpins per-block highlight/diagram rendering.
    assert_ne!(lines[0].block, lines[1].block);
    assert_eq!(lines[1].block, lines[2].block);
}

#[test]
fn empty_doc_is_safe() {
    let lines: Vec<Line> = Vec::new();
    let mut vim = Vim::new();
    assert!(matches!(
        press(&mut vim, &lines, Key::Char('j')),
        Outcome::Scroll(1)
    ));
    assert!(matches!(
        press(&mut vim, &lines, Key::Char('v')),
        Outcome::Ignored
    ));
    press(&mut vim, &lines, Key::Char('y'));
    press(&mut vim, &lines, Key::Char('y'));
    assert_eq!(vim.message, "nothing to yank");
}

#[test]
fn esc_cancels_modes_and_zero_goes_home() {
    let lines = doc_lines("hello\n");
    let mut vim = Vim::new();
    press(&mut vim, &lines, Key::Char('v'));
    press(&mut vim, &lines, Key::Esc);
    assert_eq!(vim.mode, Mode::Cursor);
    press(&mut vim, &lines, Key::Esc);
    assert_eq!(vim.mode, Mode::Normal);
    for key in chars("/") {
        press(&mut vim, &lines, key);
    }
    press(&mut vim, &lines, Key::Esc);
    assert_eq!(vim.mode, Mode::Normal);
    vim.cursor.col = 3;
    vim.want_col = 3;
    press(&mut vim, &lines, Key::Char('0'));
    assert_eq!(vim.cursor.col, 0);
}

#[test]
fn heading_row_carries_level_and_spans() {
    let lines = doc_lines("### Hi\n");
    let RowContent::Heading { level, spans } = &lines[0].content else {
        panic!("expected heading, got {:?}", lines[0].content);
    };
    assert_eq!(*level, 3);
    assert_eq!(flatten(spans), "Hi");
    assert_eq!(lines[0].quote_depth, 0);
    assert_eq!(lines[0].list_depth, 0);
}

#[test]
fn list_item_row_carries_marker_fields_and_nested_depth() {
    let lines = doc_lines("1. first\n   - nested\n2. second\n- [x] done\n");
    let RowContent::ListItem {
        ordered,
        number,
        checked,
        spans,
    } = &lines[0].content
    else {
        panic!("expected list item, got {:?}", lines[0].content);
    };
    assert!(ordered);
    assert_eq!(*number, 1);
    assert_eq!(*checked, None);
    assert_eq!(flatten(spans), "first");
    assert_eq!(lines[0].list_depth, 0);
    // The nested bullet under item 1 renders one list level deeper.
    assert!(matches!(lines[1].content, RowContent::ListItem { .. }));
    assert_eq!(lines[1].list_depth, 1);
    // A checked task item further down reports its checked state.
    let RowContent::ListItem { checked, .. } = &lines[3].content else {
        panic!("expected list item, got {:?}", lines[3].content);
    };
    assert_eq!(*checked, Some(true));
}

#[test]
fn table_row_carries_cells_alignment_and_header_flag() {
    let lines = doc_lines("| a | b |\n|---|--:|\n| 1 | 2 |\n");
    let RowContent::TableRow {
        cells,
        alignments,
        header,
    } = &lines[0].content
    else {
        panic!("expected table row, got {:?}", lines[0].content);
    };
    assert!(header);
    assert_eq!(cells.len(), 2);
    assert_eq!(alignments, &vec![Align::Unaligned, Align::Right]);
    let RowContent::TableRow { header, .. } = &lines[1].content else {
        panic!("expected table row, got {:?}", lines[1].content);
    };
    assert!(!header);
}

#[test]
fn nested_quote_increments_quote_depth() {
    let lines = doc_lines("> > deep\n");
    assert_eq!(lines[0].text, "> > deep");
    assert_eq!(lines[0].quote_depth, 2);
    assert!(matches!(lines[0].content, RowContent::Paragraph { .. }));
}

#[test]
fn rule_and_code_rows_carry_matching_content() {
    let lines = doc_lines("---\n\n```\nx\n```\n");
    assert!(matches!(lines[0].content, RowContent::Rule));
    assert!(matches!(lines[1].content, RowContent::Code));
}

#[test]
fn lines_follow_their_blocks_in_order() {
    let doc = parse_markdown("# T\n\npara\n\n> q1\n> q2\n\n```\nx\ny\n```\n\n- a\n- b\n");
    let lines = build_lines(&doc);
    assert!(lines.len() >= 6);
    for pair in lines.windows(2) {
        assert!(pair[0].block <= pair[1].block);
    }
    assert!(lines.iter().all(|line| line.block < doc.blocks.len()));
    assert_eq!(lines.last().map(|line| line.block), Some(doc.blocks.len() - 1));
}

#[test]
fn visual_highlight_is_what_y_yanks() {
    let lines = doc_lines("hello world\n\nsecond line\n\nthird\n");
    let mut vim = Vim::new();
    for key in chars("vlllj") {
        press(&mut vim, &lines, key);
    }
    let (first, last) = vim.selection_lines().expect("selection");
    assert_eq!((first, last), (0, 1));
    let picked = |vim: &Vim, l: usize| {
        let text = &lines[l].text;
        match vim.highlight_for_line(l, text.chars().count()) {
            Some(Highlight::Whole) => text.clone(),
            Some(Highlight::Chars(a, b)) => text.chars().skip(a).take(b - a).collect(),
            None => String::new(),
        }
    };
    let shown: Vec<String> = (first..=last).map(|l| picked(&vim, l)).collect();
    assert_eq!(vim.highlight_for_line(2, 5), None);
    let Outcome::Yanked(text) = press(&mut vim, &lines, Key::Char('y')) else {
        panic!("expected yank");
    };
    assert_eq!(text, shown.join("\n"));
    assert_eq!(text, "hello world\nseco");
}
