//! Syntax highlighting of fenced code blocks with syntect.
//!
//! The theme maps syntect's scope families to the Neovim `tokyo_custom`
//! palette. Unknown languages fall back to plain text, never an error.
//! Each code line becomes one row of tokens; newlines end rows and never
//! appear inside tokens.

use vstd::prelude::*;
use std::collections::HashMap;
use syntect::easy::HighlightLines;
use syntect::highlighting::{Color, FontStyle, ScopeSelectors, StyleModifier, Theme, ThemeItem, ThemeSettings};
use syntect::parsing::SyntaxSet;
use crate::markdown::parse::{ascii_lower, ascii_lowercase};
use crate::markdown::{strings_v, Block, Document};
use crate::text::{chars_of, find_char, lowercase, string_of, to_lowercase, trim, trim_end_char, trimmed};
use crate::theme::{BLOCK_BG, COMMENT, CONSTANT, FG, FUNCTION, GREEN, KEYWORD, MAGENTA, OPERATOR, STRING, TYPE};

verus! {

/// One styled run inside a code line.
#[derive(Debug, Clone, PartialEq, Eq)]
pub struct Token {
    pub text: String,
    pub color: u32,
    pub italic: bool,
}

pub struct TokenV {
    pub text: Seq<char>,
    pub color: u32,
    pub italic: bool,
}

pub open spec fn token_v(t: Token) -> TokenV {
    TokenV { text: t.text@, color: t.color, italic: t.italic }
}

pub open spec fn tokens_v(v: Seq<Token>) -> Seq<TokenV> {
    Seq::new(v.len(), |i: int| token_v(v[i]))
}

/// One fragment syntect styles: its text, foreground channels and whether
/// the font is italic.
pub struct Fragment {
    pub text: String,
    pub red: u8,
    pub green: u8,
    pub blue: u8,
    pub italic: bool,
}

pub struct FragmentV {
    pub text: Seq<char>,
    pub red: u8,
    pub green: u8,
    pub blue: u8,
    pub italic: bool,
}

pub open spec fn opt_fragments_v(f: Option<Vec<Fragment>>) -> Option<Seq<FragmentV>> {
    match f {
        Some(f) => Some(fragments_v(f@)),
        None => None,
    }
}

pub open spec fn fragments_v(v: Seq<Fragment>) -> Seq<FragmentV> {
    Seq::new(
        v.len(),
        |i: int| FragmentV { text: v[i].text@, red: v[i].red, green: v[i].green, blue: v[i].blue, italic: v[i].italic },
    )
}

/// The texts of the first `k` fragments, joined.
pub open spec fn frag_concat(f: Seq<FragmentV>, k: int) -> Seq<char>
    decreases k,
{
    if k <= 0 || k > f.len() {
        Seq::empty()
    } else {
        frag_concat(f, k - 1) + f[k - 1].text
    }
}

/// The fragments are consecutive pieces of `line` that together make it.
pub open spec fn pieces_of(f: Seq<FragmentV>, line: Seq<char>) -> bool {
    frag_concat(f, f.len() as int) == line
}

// ---------------------------------------------------------------------------
// syntect
// ---------------------------------------------------------------------------

#[verifier::external_type_specification]
#[verifier::external_body]
pub struct ExSyntaxSet(SyntaxSet);

#[verifier::external_type_specification]
#[verifier::external_body]
pub struct ExTheme(Theme);

/// Wraps `SyntaxSet::load_defaults_newlines`: syntect's bundled grammars,
/// for lines that keep their newline.
#[verifier::external_body]
fn default_syntaxes() -> (set: SyntaxSet) {
    SyntaxSet::load_defaults_newlines()
}

/// What `ScopeSelectors::from_str` makes of a selector text, as a value:
/// texts that parse to the same selectors (syntect splits on `,` and `|`,
/// on white space, and drops a trailing `.` from each scope) have the same
/// value.
pub uninterp spec fn parsed_selector(text: Seq<char>) -> Seq<char>;

/// The scope rules a theme holds, in order, each as its parsed selector
/// (see [`parsed_selector`]), its foreground channels and whether it is
/// italic.
pub uninterp spec fn theme_rules(t: Theme) -> Seq<(Seq<char>, (u8, u8, u8), bool)>;

/// What a theme was made with: its name and its default foreground and
/// background channels.
pub uninterp spec fn theme_header(t: Theme) -> (Seq<char>, (u8, u8, u8), (u8, u8, u8));

/// Wraps `Theme::default`, then sets the name and the default foreground
/// and background (opaque alpha); the default theme has no scope rules.
#[verifier::external_body]
fn new_theme(name: &str, fg: (u8, u8, u8), bg: (u8, u8, u8)) -> (theme: Theme)
    ensures
        theme_header(theme) == (name@, fg, bg),
        theme_rules(theme) == Seq::<(Seq<char>, (u8, u8, u8), bool)>::empty(),
{
    let mut theme = Theme::default();
    theme.name = Some(name.to_string());
    theme.settings = ThemeSettings {
        foreground: Some(Color { r: fg.0, g: fg.1, b: fg.2, a: 0xFF }),
        background: Some(Color { r: bg.0, g: bg.1, b: bg.2, a: 0xFF }),
        ..Default::default()
    };
    theme
}

/// Wraps `ScopeSelectors::from_str` on `selector` and, when syntect accepts
/// it, appends a rule with the parsed selectors that sets the foreground to
/// the given channels (opaque alpha) and the font style to italic or plain.
/// Whether syntect refuses a selector also depends on its process-wide
/// scope repository (it can run out of atom numbers), so nothing is stated
/// of when; the result says which.
#[verifier::external_body]
fn push_rule(theme: &mut Theme, selector: &str, rgb: (u8, u8, u8), italic: bool) -> (ok: bool)
    ensures
        theme_header(*final(theme)) == theme_header(*old(theme)),
        ok ==> theme_rules(*final(theme)) == theme_rules(*old(theme)).push((parsed_selector(selector@), rgb, italic)),
        !ok ==> theme_rules(*final(theme)) == theme_rules(*old(theme)),
{
    let Ok(scope) = selector.parse::<ScopeSelectors>() else { return false };
    let foreground = Some(Color { r: rgb.0, g: rgb.1, b: rgb.2, a: 0xFF });
    let font_style = Some(if italic { FontStyle::ITALIC } else { FontStyle::empty() });
    theme.scopes.push(ThemeItem { scope, style: StyleModifier { foreground, background: None, font_style } });
    true
}

/// The grammars a syntax set holds, in order: each one's name, its file
/// extensions and its compiled rules (as bytes), which together decide how
/// the set highlights.
pub uninterp spec fn syntax_entries(set: SyntaxSet) -> Seq<(Seq<char>, Seq<Seq<char>>, Seq<u8>)>;

/// A grammar's name and file extensions.
pub open spec fn entry_keys(entries: Seq<(Seq<char>, Seq<Seq<char>>, Seq<u8>)>) -> Seq<(Seq<char>, Seq<Seq<char>>)> {
    Seq::new(entries.len(), |i: int| (entries[i].0, entries[i].1))
}

/// Names and file extensions as text.
pub open spec fn list_keys(list: Seq<(String, Vec<String>)>) -> Seq<(Seq<char>, Seq<Seq<char>>)> {
    Seq::new(list.len(), |i: int| (list[i].0@, strings_v(list[i].1@)))
}

/// Wraps `SyntaxSet::syntaxes`: each grammar's name and file extensions,
/// in order.
#[verifier::external_body]
fn syntax_list(set: &SyntaxSet) -> (list: Vec<(String, Vec<String>)>)
    ensures
        list_keys(list@) == entry_keys(syntax_entries(*set)),
{
    set.syntaxes().iter().map(|s| (s.name.clone(), s.file_extensions.clone())).collect()
}

/// `str::eq_ignore_ascii_case`: equal up to ASCII case.
pub open spec fn same_ignoring_ascii_case(a: Seq<char>, b: Seq<char>) -> bool {
    ascii_lower(a) == ascii_lower(b)
}

/// One of `exts` is `ext`, up to ASCII case.
pub open spec fn ext_in(exts: Seq<Seq<char>>, ext: Seq<char>) -> bool {
    exists|j: int| 0 <= j < exts.len() && #[trigger] same_ignoring_ascii_case(exts[j], ext)
}

/// One of the grammar's file extensions is `ext`, up to ASCII case.
pub open spec fn has_extension(key: (Seq<char>, Seq<Seq<char>>), ext: Seq<char>) -> bool {
    ext_in(key.1, ext)
}

proof fn lemma_last_match_range(keys: Seq<(Seq<char>, Seq<Seq<char>>)>, tag: Seq<char>, n: int, by_extension: bool)
    ensures
        last_match(keys, tag, n, by_extension) matches Some(i) ==> 0 <= i < n && i < keys.len(),
    decreases n,
{
    if 0 < n <= keys.len() {
        lemma_last_match_range(keys, tag, n - 1, by_extension);
    }
}

/// The last of the first `n` grammars with `tag` as an extension (or, when
/// not `by_extension`, as its name), up to ASCII case.
pub open spec fn last_match(keys: Seq<(Seq<char>, Seq<Seq<char>>)>, tag: Seq<char>, n: int, by_extension: bool) -> Option<int>
    decreases n,
{
    if n <= 0 || n > keys.len() {
        None
    } else if (if by_extension {
        has_extension(keys[n - 1], tag)
    } else {
        same_ignoring_ascii_case(keys[n - 1].0, tag)
    }) {
        Some(n - 1)
    } else {
        last_match(keys, tag, n - 1, by_extension)
    }
}

/// `SyntaxSet::find_syntax_by_token`: the last grammar with `tag` as an
/// extension, else the last named `tag`, up to ASCII case (its source).
pub open spec fn grammar_for(keys: Seq<(Seq<char>, Seq<Seq<char>>)>, tag: Seq<char>) -> Option<int> {
    match last_match(keys, tag, keys.len() as int, true) {
        Some(i) => Some(i),
        None => last_match(keys, tag, keys.len() as int, false),
    }
}

/// A styled fragment as plain values: text, foreground channels, italic.
pub open spec fn frag_of(t: (Seq<char>, (u8, u8, u8), bool)) -> FragmentV {
    FragmentV { text: t.0, red: t.1.0, green: t.1.1, blue: t.1.2, italic: t.2 }
}

pub open spec fn named_outcome(o: Option<Seq<(Seq<char>, (u8, u8, u8), bool)>>) -> Option<Seq<FragmentV>> {
    match o {
        Some(ts) => Some(Seq::new(ts.len(), |j: int| frag_of(ts[j]))),
        None => None,
    }
}

/// What syntect gives for each of `lines` in turn, highlighted with grammar
/// `index` of a set holding `grammars`, under a theme with `header` and
/// `rules`: each line's styled fragments, or `None` where it reports an
/// error. syntect is deterministic, so this depends on these alone.
pub uninterp spec fn syntect_lines(
    grammars: Seq<(Seq<char>, Seq<Seq<char>>, Seq<u8>)>,
    index: int,
    header: (Seq<char>, (u8, u8, u8), (u8, u8, u8)),
    rules: Seq<(Seq<char>, (u8, u8, u8), bool)>,
    lines: Seq<Seq<char>>,
) -> Seq<Option<Seq<(Seq<char>, (u8, u8, u8), bool)>>>;

/// Wraps `HighlightLines::new` for grammar `index` of `set` under `theme`,
/// then `HighlightLines::highlight_line` on each of `lines` in turn: each
/// line's fragments, converted field by field (text, foreground channels,
/// italic flag), or `None` when syntect reports an error (see
/// [`syntect_lines`]). Its iterator slices each line into consecutive pieces
/// that together make the line, as its documentation says.
#[verifier::external_body]
fn highlight_lines(set: &SyntaxSet, index: usize, theme: &Theme, lines: &Vec<String>) -> (r: Vec<Option<Vec<Fragment>>>)
    requires
        index < syntax_entries(*set).len(),
    ensures
        r@.len() == lines@.len(),
        forall|k: int|
            0 <= k < r@.len() ==> opt_fragments_v(#[trigger] r@[k]) == named_outcome(
                syntect_lines(syntax_entries(*set), index as int, theme_header(*theme), theme_rules(*theme), strings_v(lines@))[k],
            ),
        forall|k: int| 0 <= k < r@.len() ==> outcome_for(opt_fragments_v(#[trigger] r@[k]), lines@[k]@),
{
    let mut h = HighlightLines::new(&set.syntaxes()[index], theme);
    lines.iter().map(|line| {
        let spans = h.highlight_line(line, set).ok()?;
        Some(spans.into_iter().map(|(s, t)| Fragment {
            text: t.to_string(),
            red: s.foreground.r,
            green: s.foreground.g,
            blue: s.foreground.b,
            italic: s.font_style.contains(FontStyle::ITALIC),
        }).collect())
    }).collect()
}

// ---------------------------------------------------------------------------
// Lines and rows
// ---------------------------------------------------------------------------

/// The lines of `s[i..]`, each keeping its `\n` (the last may lack one).
pub open spec fn lines_with_endings_from(s: Seq<char>, i: int) -> Seq<Seq<char>>
    decreases s.len() - i,
{
    if 0 <= i < s.len() {
        let k = find_char(s, i, '\n');
        proof {
            crate::text::lemma_find_char(s, i, '\n');
        }
        if k < s.len() {
            seq![s.subrange(i, k + 1)] + lines_with_endings_from(s, k + 1)
        } else {
            seq![s.subrange(i, s.len() as int)]
        }
    } else {
        Seq::empty()
    }
}

/// `syntect::util::LinesWithEndings`: the lines of `s`, each keeping its
/// `\n`.
pub open spec fn lines_with_endings(s: Seq<char>) -> Seq<Seq<char>> {
    lines_with_endings_from(s, 0)
}

/// `0xRRGGBB` from channels.
pub open spec fn hex(r: u8, g: u8, b: u8) -> u32 {
    (r * 0x10000 + g * 0x100 + b) as u32
}

/// `t` without one trailing `\n`.
pub open spec fn strip_newline(t: Seq<char>) -> Seq<char> {
    if t.len() > 0 && t.last() == '\n' {
        t.drop_last()
    } else {
        t
    }
}

/// Tokens of the first `k` fragments: trailing newline removed, empty
/// fragments dropped.
pub open spec fn fragment_tokens(f: Seq<FragmentV>, k: int) -> Seq<TokenV>
    decreases k,
{
    if k <= 0 || k > f.len() {
        Seq::empty()
    } else {
        let piece = strip_newline(f[k - 1].text);
        fragment_tokens(f, k - 1) + if piece.len() == 0 {
            Seq::empty()
        } else {
            seq![TokenV { text: piece, color: hex(f[k - 1].red, f[k - 1].green, f[k - 1].blue), italic: f[k - 1].italic }]
        }
    }
}

/// The row a code line makes from what syntect gave for it: its tokens,
/// or (when there are none) the whole line in the plain text color.
pub open spec fn row_tokens(line: Seq<char>, frags: Option<Seq<FragmentV>>) -> Seq<TokenV> {
    let toks = match frags {
        Some(f) => fragment_tokens(f, f.len() as int),
        None => Seq::empty(),
    };
    let plain = trim_end_char(line, '\n');
    if toks.len() == 0 && plain.len() > 0 {
        seq![TokenV { text: plain, color: crate::theme::FG, italic: false }]
    } else {
        toks
    }
}

/// A syntect outcome for `line`: an error, or pieces of the line.
pub open spec fn outcome_for(f: Option<Seq<FragmentV>>, line: Seq<char>) -> bool {
    f matches Some(fs) ==> pieces_of(fs, line)
}

/// `row` is what [`row_tokens`] makes of `line` from some syntect outcome.
pub open spec fn row_of(row: Vec<Token>, line: Seq<char>) -> bool {
    exists|f: Option<Seq<FragmentV>>| outcome_for(f, line) && #[trigger] row_tokens(line, f) == tokens_v(row@)
}

/// `rows` are the rows of code `text`: one per line, each made by
/// [`row_tokens`] from whatever syntect gave for that line.
pub open spec fn rows_of(rows: Seq<Vec<Token>>, text: Seq<char>) -> bool {
    &&& rows.len() == lines_with_endings(text).len()
    &&& forall|k: int| 0 <= k < rows.len() ==> #[trigger] row_of(rows[k], lines_with_endings(text)[k])
}

/// The lines of `v`, each keeping its `\n`.
fn split_with_endings(v: &Vec<char>) -> (out: Vec<Vec<char>>)
    ensures
        out@.len() == lines_with_endings(v@).len(),
        forall|k: int| 0 <= k < out@.len() ==> #[trigger] out@[k]@ == lines_with_endings(v@)[k],
{
    let mut out: Vec<Vec<char>> = Vec::new();
    let mut i: usize = 0;
    let ghost mut done: Seq<Seq<char>> = Seq::empty();
    while i < v.len()
        invariant
            i <= v.len(),
            lines_with_endings(v@) == done + lines_with_endings_from(v@, i as int),
            out@.len() == done.len(),
            forall|k: int| 0 <= k < out@.len() ==> #[trigger] out@[k]@ == done[k],
        decreases v.len() - i,
    {
        proof {
            crate::text::lemma_find_char(v@, i as int, '\n');
        }
        let k = crate::text::find_char_from(v, i, '\n');
        let end = if k < v.len() {
            k + 1
        } else {
            k
        };
        let line = crate::text::slice_of(v, i, end);
        proof {
            done = done.push(line@);
        }
        out.push(line);
        assert(lines_with_endings(v@) == done + lines_with_endings_from(v@, end as int));
        i = end;
    }
    assert(lines_with_endings(v@) =~= done);
    out
}

/// `0xRRGGBB` from channels.
fn hex_of(r: u8, g: u8, b: u8) -> (c: u32)
    ensures
        c == hex(r, g, b),
{
    (r as u32) * 0x10000 + (g as u32) * 0x100 + (b as u32)
}

/// The row a code line makes from what syntect gave for it (see
/// [`row_tokens`]).
pub fn line_tokens(line: &Vec<char>, frags: &Option<Vec<Fragment>>) -> (row: Vec<Token>)
    ensures
        tokens_v(row@) == row_tokens(line@, opt_fragments_v(*frags)),
{
    let mut row: Vec<Token> = Vec::new();
    if let Some(f) = frags {
        let ghost fs = fragments_v(f@);
        let mut k: usize = 0;
        while k < f.len()
            invariant
                k <= f.len(),
                fs == fragments_v(f@),
                tokens_v(row@) == fragment_tokens(fs, k as int),
            decreases f.len() - k,
        {
            let cs = chars_of(f[k].text.as_str());
            let n = if cs.len() > 0 && cs[cs.len() - 1] == '\n' {
                cs.len() - 1
            } else {
                cs.len()
            };
            assert(cs@.subrange(0, n as int) =~= strip_newline(fs[k as int].text));
            if n > 0 {
                let text = crate::text::string_of_range(&cs, 0, n);
                let t = Token { text, color: hex_of(f[k].red, f[k].green, f[k].blue), italic: f[k].italic };
                let ghost before = row@;
                row.push(t);
                assert(tokens_v(row@) =~= tokens_v(before).push(token_v(t)));
            }
            assert(tokens_v(row@) =~= fragment_tokens(fs, k + 1));
            k += 1;
        }
    }
    if row.len() == 0 {
        let mut e = line.len();
        assert(line@.subrange(0, line@.len() as int) =~= line@);
        while e > 0 && line[e - 1] == '\n'
            invariant
                e <= line.len(),
                trim_end_char(line@, '\n') == trim_end_char(line@.subrange(0, e as int), '\n'),
            decreases e,
        {
            assert(line@.subrange(0, e as int).drop_last() =~= line@.subrange(0, e - 1));
            e -= 1;
        }
        if e > 0 {
            let t = Token {
                text: crate::text::string_of_range(line, 0, e),
                color: crate::theme::FG,
                italic: false,
            };
            row.push(t);
            assert(tokens_v(row@) =~= seq![token_v(t)]);
        }
    }
    row
}

/// syntect's grammars and the theme that colors them.
pub struct Engine {
    pub syntaxes: SyntaxSet,
    pub theme: Theme,
}

impl Engine {
    /// syntect's bundled grammars with the `tokyo_custom` theme.
    pub fn new() -> (e: Engine)
        ensures
            is_tokyo(e.theme),
    {
        Engine { syntaxes: default_syntaxes(), theme: tokyo_theme() }
    }

    /// Highlight a fenced code block into token rows, one per line, with
    /// the grammar its language tag (trimmed, lower case) names; a tag that
    /// names none gives plain text in the default text color.
    pub fn highlight_code(&self, language: &str, text: &str) -> (rows: Vec<Vec<Token>>)
        ensures
            rows_of(rows@, text@),
            rows_tokens(rows@) == engine_tokens(*self, language@, text@),
    {
        let lang = chars_of(language);
        let tag_chars = trimmed(&lang);
        let tag = to_lowercase(string_of(tag_chars.as_slice()).as_str());
        let tagv = chars_of(tag.as_str());
        assert(tagv@ == fence_tag(language@));
        let list = syntax_list(&self.syntaxes);
        let found = find_grammar(&list, &tagv);
        let ghost grammars = syntax_entries(self.syntaxes);
        let n_list = list.len();
        assert(grammars.len() == list@.len()) by {
            assert(list_keys(list@).len() == entry_keys(grammars).len());
        }
        let v = chars_of(text);
        let ls = split_with_endings(&v);
        let ghost lv = lines_with_endings(text@);
        let ghost target = engine_tokens(*self, language@, text@);
        let mut strs: Vec<String> = Vec::new();
        let mut j: usize = 0;
        while j < ls.len()
            invariant
                j <= ls.len(),
                strs@.len() == j,
                forall|i: int| 0 <= i < j ==> #[trigger] strs@[i]@ == ls@[i]@,
            decreases ls.len() - j,
        {
            strs.push(string_of(ls[j].as_slice()));
            j += 1;
        }
        assert(strings_v(strs@) =~= lv);
        let outs: Vec<Option<Vec<Fragment>>> = match found {
            Some(i) => highlight_lines(&self.syntaxes, i, &self.theme, &strs),
            None => Vec::new(),
        };
        let mut rows: Vec<Vec<Token>> = Vec::new();
        let mut k: usize = 0;
        let none: Option<Vec<Fragment>> = None;
        while k < ls.len()
            invariant
                k <= ls.len(),
                v@ == text@,
                lv == lines_with_endings(text@),
                ls@.len() == lv.len(),
                forall|i: int| 0 <= i < ls@.len() ==> #[trigger] ls@[i]@ == lv[i],
                strings_v(strs@) == lv,
                grammars == syntax_entries(self.syntaxes),
                grammars.len() == n_list,
                found == to_index(grammar_for(entry_keys(grammars), fence_tag(language@))),
                found is Some ==> outs@.len() == lv.len(),
                found matches Some(i) ==> forall|m: int|
                    0 <= m < outs@.len() ==> opt_fragments_v(#[trigger] outs@[m]) == named_outcome(
                        syntect_lines(grammars, i as int, theme_header(self.theme), theme_rules(self.theme), lv)[m],
                    ),
                found is Some ==> forall|m: int| 0 <= m < outs@.len() ==> outcome_for(opt_fragments_v(#[trigger] outs@[m]), lv[m]),
                none is None,
                target == engine_tokens(*self, language@, text@),
                target.len() == lv.len(),
                rows@.len() == k,
                forall|i: int| 0 <= i < k ==> #[trigger] tokens_v(rows@[i]@) == target[i],
                forall|i: int| 0 <= i < k ==> #[trigger] row_of(rows@[i], lv[i]),
            decreases ls.len() - k,
        {
            let row = match found {
                Some(_) => line_tokens(&ls[k], &outs[k]),
                None => line_tokens(&ls[k], &none),
            };
            proof {
                let f = if found is Some { opt_fragments_v(outs@[k as int]) } else { None };
                assert(row_tokens(lv[k as int], f) == tokens_v(row@));
                assert(outcome_for(f, lv[k as int]));
                let keys = entry_keys(grammars);
                lemma_last_match_range(keys, fence_tag(language@), keys.len() as int, true);
                lemma_last_match_range(keys, fence_tag(language@), keys.len() as int, false);
                match grammar_for(keys, fence_tag(language@)) {
                    Some(g) => {
                        assert(keys.len() == grammars.len());
                        assert(found == Some(g as usize));
                        assert(g as usize as int == g);
                        assert(target[k as int] == row_tokens(
                            lv[k as int],
                            named_outcome(syntect_lines(grammars, g, theme_header(self.theme), theme_rules(self.theme), lv)[k as int]),
                        ));
                    },
                    None => {
                        assert(target[k as int] == row_tokens(lv[k as int], None));
                    },
                }
            }
            rows.push(row);
            k += 1;
        }
        proof {
            assert(rows_tokens(rows@) =~= target);
        }
        rows
    }

    /// Highlight every fenced code block in a document, keyed by block
    /// index.
    pub fn highlight_document(&self, doc: &Document) -> (m: HashMap<usize, Vec<Vec<Token>>>)
        ensures
            code_rows(m@, doc.blocks@, *self),
    {
        broadcast use vstd::std_specs::hash::group_hash_axioms;

        let mut m: HashMap<usize, Vec<Vec<Token>>> = HashMap::new();
        let mut i: usize = 0;
        while i < doc.blocks.len()
            invariant
                i <= doc.blocks.len(),
                forall|j: usize| #[trigger] m@.contains_key(j) <==> (j < i && doc.blocks@[j as int] is Code),
                forall|j: usize|
                    #[trigger] m@.contains_key(j) ==> rows_of(m@[j]@, doc.blocks@[j as int]->Code_text@) && rows_tokens(
                        m@[j]@,
                    ) == engine_tokens(*self, doc.blocks@[j as int]->Code_language@, doc.blocks@[j as int]->Code_text@),
            decreases doc.blocks.len() - i,
        {
            if let Block::Code { language, text } = &doc.blocks[i] {
                let rows = self.highlight_code(language.as_str(), text.as_str());
                m.insert(i, rows);
            }
            i += 1;
        }
        m
    }
}

/// Whether `a` and `b` hold the same characters.
fn same_chars(a: &Vec<char>, b: &Vec<char>) -> (r: bool)
    ensures
        r == (a@ == b@),
{
    if a.len() != b.len() {
        return false;
    }
    let mut i: usize = 0;
    while i < a.len()
        invariant
            i <= a.len() == b.len(),
            forall|j: int| 0 <= j < i ==> a@[j] == b@[j],
        decreases a.len() - i,
    {
        if a[i] != b[i] {
            return false;
        }
        i += 1;
    }
    assert(a@ =~= b@);
    true
}

/// Whether `s` is the text whose ASCII lower case is `folded`.
fn same_folded(s: &String, folded: &Vec<char>, Ghost(tag): Ghost<Seq<char>>) -> (r: bool)
    requires
        folded@ == ascii_lower(tag),
    ensures
        r == same_ignoring_ascii_case(s@, tag),
{
    let c = chars_of(s.as_str());
    let l = ascii_lowercase(&c, 0, c.len());
    assert(c@.subrange(0, c@.len() as int) =~= c@);
    same_chars(&l, folded)
}

/// `Some(i)` as an index.
pub open spec fn to_index(o: Option<int>) -> Option<usize> {
    match o {
        Some(i) => Some(i as usize),
        None => None,
    }
}

/// Whether one of `exts` is `tag` up to ASCII case.
fn any_extension(exts: &Vec<String>, folded: &Vec<char>, Ghost(tag): Ghost<Seq<char>>) -> (r: bool)
    requires
        folded@ == ascii_lower(tag),
    ensures
        r == ext_in(strings_v(exts@), tag),
{
    let ghost e = strings_v(exts@);
    let mut j: usize = 0;
    while j < exts.len()
        invariant
            j <= exts@.len(),
            folded@ == ascii_lower(tag),
            e == strings_v(exts@),
            forall|m: int| 0 <= m < j ==> !#[trigger] same_ignoring_ascii_case(e[m], tag),
        decreases exts.len() - j,
    {
        if same_folded(&exts[j], folded, Ghost(tag)) {
            assert(same_ignoring_ascii_case(e[j as int], tag));
            return true;
        }
        j += 1;
    }
    false
}

/// The last of the first `n` grammars of `list` that `tag` names (see
/// [`last_match`]).
fn last_match_in(list: &Vec<(String, Vec<String>)>, folded: &Vec<char>, by_extension: bool, Ghost(tag): Ghost<Seq<char>>) -> (r: Option<usize>)
    requires
        folded@ == ascii_lower(tag),
    ensures
        r == to_index(last_match(list_keys(list@), tag, list@.len() as int, by_extension)),
        r matches Some(i) ==> i < list@.len(),
{
    let ghost keys = list_keys(list@);
    let mut n = list.len();
    while n > 0
        invariant
            n <= list@.len(),
            keys == list_keys(list@),
            folded@ == ascii_lower(tag),
            last_match(keys, tag, list@.len() as int, by_extension) == last_match(keys, tag, n as int, by_extension),
        decreases n,
    {
        assert(keys[n - 1].1 == strings_v(list@[n - 1].1@));
        assert(keys[n - 1].0 == list@[n - 1].0@);
        let hit = if by_extension {
            any_extension(&list[n - 1].1, folded, Ghost(tag))
        } else {
            same_folded(&list[n - 1].0, folded, Ghost(tag))
        };
        if hit {
            return Some(n - 1);
        }
        n -= 1;
    }
    None
}

/// The grammar `tag` names among `list` (see [`grammar_for`]).
fn find_grammar(list: &Vec<(String, Vec<String>)>, tag: &Vec<char>) -> (r: Option<usize>)
    ensures
        r == to_index(grammar_for(list_keys(list@), tag@)),
        r matches Some(i) ==> i < list@.len(),
{
    let folded = ascii_lowercase(tag, 0, tag.len());
    assert(tag@.subrange(0, tag@.len() as int) =~= tag@);
    match last_match_in(list, &folded, true, Ghost(tag@)) {
        Some(i) => Some(i),
        None => last_match_in(list, &folded, false, Ghost(tag@)),
    }
}

/// The tag a fence's language names a grammar by: trimmed, in lower case.
pub open spec fn fence_tag(language: Seq<char>) -> Seq<char> {
    lowercase(trim(language))
}

/// The tokens of each row.
pub open spec fn rows_tokens(rows: Seq<Vec<Token>>) -> Seq<Seq<TokenV>> {
    Seq::new(rows.len(), |k: int| tokens_v(rows[k]@))
}

/// The rows of code `text` fenced with `language`, highlighted with a set
/// of `grammars` under a theme with `header` and `rules`: the grammar the
/// tag names (see [`grammar_for`]) colors each line as syntect does (see
/// [`syntect_lines`] and [`row_tokens`]); with no such grammar every line is
/// plain text in the default text color.
pub open spec fn code_tokens(
    grammars: Seq<(Seq<char>, Seq<Seq<char>>, Seq<u8>)>,
    header: (Seq<char>, (u8, u8, u8), (u8, u8, u8)),
    rules: Seq<(Seq<char>, (u8, u8, u8), bool)>,
    language: Seq<char>,
    text: Seq<char>,
) -> Seq<Seq<TokenV>> {
    let ls = lines_with_endings(text);
    match grammar_for(entry_keys(grammars), fence_tag(language)) {
        Some(i) => Seq::new(
            ls.len(),
            |k: int| row_tokens(ls[k], named_outcome(syntect_lines(grammars, i, header, rules, ls)[k])),
        ),
        None => Seq::new(ls.len(), |k: int| row_tokens(ls[k], None)),
    }
}

/// [`code_tokens`] with an engine's grammars and theme.
pub open spec fn engine_tokens(e: Engine, language: Seq<char>, text: Seq<char>) -> Seq<Seq<TokenV>> {
    code_tokens(syntax_entries(e.syntaxes), theme_header(e.theme), theme_rules(e.theme), language, text)
}

/// `m` holds, for each code block of `blocks` and nothing else, the rows
/// engine `e` highlights it to (see [`engine_tokens`]), keyed by the
/// block's index.
pub open spec fn code_rows(m: Map<usize, Vec<Vec<Token>>>, blocks: Seq<Block>, e: Engine) -> bool {
    &&& forall|i: usize| #[trigger] m.contains_key(i) <==> (i < blocks.len() && blocks[i as int] is Code)
    &&& forall|i: usize|
        #[trigger] m.contains_key(i) ==> rows_of(m[i]@, blocks[i as int]->Code_text@) && rows_tokens(m[i]@)
            == engine_tokens(e, blocks[i as int]->Code_language@, blocks[i as int]->Code_text@)
}

/// Highlight a fenced code block into token rows, one per line, with a
/// fresh [`Engine`]: syntect's bundled grammars under the `tokyo_custom`
/// theme.
pub fn highlight_code(language: &str, text: &str) -> (rows: Vec<Vec<Token>>)
    ensures
        rows_of(rows@, text@),
        exists|e: Engine| is_tokyo(e.theme) && rows_tokens(rows@) == #[trigger] engine_tokens(e, language@, text@),
{
    let e = Engine::new();
    let rows = e.highlight_code(language, text);
    assert(is_tokyo(e.theme) && rows_tokens(rows@) == engine_tokens(e, language@, text@));
    rows
}

/// Highlight every fenced code block in a document, keyed by block index,
/// with one fresh [`Engine`] for all of them.
pub fn highlight_document(doc: &Document) -> (m: HashMap<usize, Vec<Vec<Token>>>)
    ensures
        exists|e: Engine| is_tokyo(e.theme) && #[trigger] code_rows(m@, doc.blocks@, e),
{
    let e = Engine::new();
    let m = e.highlight_document(doc);
    assert(is_tokyo(e.theme) && code_rows(m@, doc.blocks@, e));
    m
}

// ---------------------------------------------------------------------------
// Laws
// ---------------------------------------------------------------------------

/// `\n` occurs in `t` at most as its last character.
pub open spec fn newline_only_last(t: Seq<char>) -> bool {
    forall|i: int| 0 <= i < t.len() - 1 ==> t[i] != '\n'
}

proof fn lemma_lines_newline_last(s: Seq<char>, i: int)
    requires
        0 <= i,
    ensures
        forall|k: int| 0 <= k < lines_with_endings_from(s, i).len() ==> newline_only_last(
            #[trigger] lines_with_endings_from(s, i)[k],
        ),
    decreases s.len() - i,
{
    if 0 <= i < s.len() {
        let k = find_char(s, i, '\n');
        crate::text::lemma_find_char(s, i, '\n');
        if k < s.len() {
            lemma_lines_newline_last(s, k + 1);
        }
        let first = if k < s.len() {
            s.subrange(i, k + 1)
        } else {
            s.subrange(i, s.len() as int)
        };
        assert(newline_only_last(first)) by {
            assert forall|j: int| 0 <= j < first.len() - 1 implies first[j] != '\n' by {
                lemma_find_char_before(s, i, '\n', i + j);
            }
        }
        let rest = lines_with_endings_from(s, k + 1);
        if k < s.len() {
            assert forall|m: int| 0 <= m < lines_with_endings_from(s, i).len() implies newline_only_last(
                #[trigger] lines_with_endings_from(s, i)[m],
            ) by {
                if m > 0 {
                    assert(lines_with_endings_from(s, i)[m] == rest[m - 1]);
                }
            }
        }
    }
}

proof fn lemma_find_char_before(s: Seq<char>, i: int, c: char, j: int)
    requires
        0 <= i <= j < find_char(s, i, c),
        j < s.len(),
    ensures
        s[j] != c,
    decreases j - i,
{
    if i < j {
        lemma_find_char_before(s, i + 1, c, j);
    }
}

proof fn lemma_trim_newlines(t: Seq<char>)
    requires
        newline_only_last(t),
    ensures
        !trim_end_char(t, '\n').contains('\n'),
        trim_end_char(t, '\n').len() <= t.len(),
    decreases t.len(),
{
    if t.len() > 0 && t.last() == '\n' {
        lemma_trim_newlines(t.drop_last());
    } else if t.contains('\n') {
        let i = choose|i: int| 0 <= i < t.len() && t[i] == '\n';
        assert(i == t.len() - 1);
    }
}

proof fn lemma_fragment_tokens_clean(f: Seq<FragmentV>, k: int, line: Seq<char>)
    requires
        0 <= k <= f.len(),
        newline_only_last(line),
        frag_concat(f, f.len() as int).len() <= line.len(),
        line.subrange(0, frag_concat(f, f.len() as int).len() as int) == frag_concat(f, f.len() as int),
    ensures
        forall|j: int|
            0 <= j < fragment_tokens(f, k).len() ==> (#[trigger] fragment_tokens(f, k)[j]).text.len() > 0
                && !fragment_tokens(f, k)[j].text.contains('\n'),
    decreases k,
{
    if k > 0 {
        lemma_fragment_tokens_clean(f, k - 1, line);
        lemma_concat_prefix(f, k, f.len() as int);
        let c = frag_concat(f, k - 1);
        let t = f[k - 1].text;
        let piece = strip_newline(t);
        assert(line.subrange(c.len() as int, (c.len() + t.len()) as int) == t) by {
            assert(frag_concat(f, k) == c + t);
            assert(line.subrange(0, frag_concat(f, k).len() as int) == frag_concat(f, k));
            assert forall|j: int| 0 <= j < t.len() implies line.subrange(c.len() as int, (c.len() + t.len()) as int)[j] == t[j] by {
                assert(line.subrange(0, frag_concat(f, k).len() as int)[c.len() + j] == frag_concat(f, k)[c.len() + j]);
            }
        }
        if piece.contains('\n') {
            let i = choose|i: int| 0 <= i < piece.len() && piece[i] == '\n';
            assert(t[i] == '\n');
            assert(line[c.len() + i] == '\n');
            assert(c.len() + i == line.len() - 1);
            assert(i == t.len() - 1);
            assert(false);
        }
        let head = fragment_tokens(f, k - 1);
        assert forall|j: int|
            0 <= j < fragment_tokens(f, k).len() implies (#[trigger] fragment_tokens(f, k)[j]).text.len() > 0
                && !fragment_tokens(f, k)[j].text.contains('\n') by {
            if j < head.len() {
                assert(fragment_tokens(f, k)[j] == head[j]);
            }
        }
    }
}

proof fn lemma_concat_prefix(f: Seq<FragmentV>, k: int, n: int)
    requires
        0 <= k <= n <= f.len(),
    ensures
        frag_concat(f, k).len() <= frag_concat(f, n).len(),
        frag_concat(f, n).subrange(0, frag_concat(f, k).len() as int) == frag_concat(f, k),
    decreases n - k,
{
    if k < n {
        lemma_concat_prefix(f, k, n - 1);
        let a = frag_concat(f, k);
        let b = frag_concat(f, n - 1);
        assert(frag_concat(f, n) == b + f[n - 1].text);
        assert(frag_concat(f, n).subrange(0, a.len() as int) =~= b.subrange(0, a.len() as int));
    } else {
        assert(frag_concat(f, n).subrange(0, frag_concat(f, n).len() as int) =~= frag_concat(f, n));
    }
}

/// Newlines end rows and never appear inside tokens, and no token is
/// empty: for every row [`highlight_code`] can return.
pub proof fn lemma_rows_clean(rows: Seq<Vec<Token>>, text: Seq<char>)
    requires
        rows_of(rows, text),
    ensures
        forall|k: int, j: int|
            0 <= k < rows.len() && 0 <= j < rows[k]@.len() ==> (#[trigger] rows[k]@[j]).text@.len() > 0
                && !rows[k]@[j].text@.contains('\n'),
{
    let ls = lines_with_endings(text);
    lemma_lines_newline_last(text, 0);
    assert forall|k: int, j: int|
        0 <= k < rows.len() && 0 <= j < rows[k]@.len() implies (#[trigger] rows[k]@[j]).text@.len() > 0
            && !rows[k]@[j].text@.contains('\n') by {
        assert(row_of(rows[k], ls[k]));
        let f = choose|f: Option<Seq<FragmentV>>| outcome_for(f, ls[k]) && #[trigger] row_tokens(ls[k], f) == tokens_v(rows[k]@);
        assert(newline_only_last(ls[k]));
        let toks = match f {
            Some(fs) => fragment_tokens(fs, fs.len() as int),
            None => Seq::empty(),
        };
        if let Some(fs) = f {
            assert(ls[k].subrange(0, ls[k].len() as int) =~= ls[k]);
            lemma_fragment_tokens_clean(fs, fs.len() as int, ls[k]);
        }
        lemma_trim_newlines(ls[k]);
        let plain = trim_end_char(ls[k], '\n');
        let t = rows[k]@[j];
        assert(tokens_v(rows[k]@)[j] == token_v(t));
        assert(row_tokens(ls[k], f)[j] == token_v(t));
        if toks.len() == 0 && plain.len() > 0 {
            assert(tokens_v(rows[k]@).len() == rows[k]@.len());
            assert(row_tokens(ls[k], f).len() == 1);
            assert(j == 0);
            assert(token_v(t).text == plain);
        } else {
            assert(toks[j] == token_v(t));
        }
    }
}

/// The texts of the first `k` tokens, joined.
pub open spec fn token_concat(ts: Seq<TokenV>, k: int) -> Seq<char>
    decreases k,
{
    if k <= 0 || k > ts.len() {
        Seq::empty()
    } else {
        token_concat(ts, k - 1) + ts[k - 1].text
    }
}

/// The texts of a row's tokens, joined.
pub open spec fn row_text(row: Vec<Token>) -> Seq<char> {
    token_concat(tokens_v(row@), row@.len() as int)
}

proof fn lemma_token_concat_push(ts: Seq<TokenV>, t: TokenV, k: int)
    requires
        0 <= k <= ts.len(),
    ensures
        token_concat(ts.push(t), k) == token_concat(ts, k),
    decreases k,
{
    if k > 0 {
        lemma_token_concat_push(ts, t, k - 1);
        assert(ts.push(t)[k - 1] == ts[k - 1]);
    }
}

/// Stripping the newline off each fragment and joining the tokens gives the
/// joined fragments without their newline.
proof fn lemma_fragment_text(f: Seq<FragmentV>, k: int)
    requires
        0 <= k <= f.len(),
        newline_only_last(frag_concat(f, f.len() as int)),
    ensures
        token_concat(fragment_tokens(f, k), fragment_tokens(f, k).len() as int) == strip_newline(frag_concat(f, k)),
    decreases k,
{
    if k > 0 {
        lemma_fragment_text(f, k - 1);
        let line = frag_concat(f, f.len() as int);
        let p = frag_concat(f, k - 1);
        let c = f[k - 1].text;
        let toks = fragment_tokens(f, k - 1);
        lemma_concat_prefix(f, k, f.len() as int);
        assert(frag_concat(f, k) == p + c);
        if c.len() > 0 {
            if p.len() > 0 {
                assert(line.subrange(0, frag_concat(f, k).len() as int)[p.len() - 1] == p[p.len() - 1]);
                assert(line[p.len() - 1] != '\n');
                assert(strip_newline(p) == p);
            } else {
                assert(strip_newline(p) =~= p);
            }
            if c.last() == '\n' {
                assert((p + c).drop_last() =~= p + c.drop_last());
            }
            let piece = strip_newline(c);
            if piece.len() > 0 {
                let t = TokenV { text: piece, color: hex(f[k - 1].red, f[k - 1].green, f[k - 1].blue), italic: f[k - 1].italic };
                assert(fragment_tokens(f, k) == toks.push(t));
                lemma_token_concat_push(toks, t, toks.len() as int);
            } else {
                assert(fragment_tokens(f, k) =~= toks);
                assert(p + piece =~= p);
            }
        } else {
            assert(p + c =~= p);
            assert(fragment_tokens(f, k) =~= toks);
        }
    }
}

proof fn lemma_trim_one_newline(t: Seq<char>)
    requires
        newline_only_last(t),
    ensures
        trim_end_char(t, '\n') == strip_newline(t),
{
    if t.len() > 0 && t.last() == '\n' {
        let d = t.drop_last();
        if d.len() > 0 {
            assert(d.last() == t[t.len() - 2]);
            assert(d.last() != '\n');
        }
        assert(trim_end_char(d, '\n') == d);
    }
}

/// Highlighting only colors code, never changes it: the tokens of each row
/// join to its line without the line break.
pub proof fn lemma_rows_keep_text(rows: Seq<Vec<Token>>, text: Seq<char>)
    requires
        rows_of(rows, text),
    ensures
        forall|k: int| 0 <= k < rows.len() ==> #[trigger] row_text(rows[k]) == trim_end_char(lines_with_endings(text)[k], '\n'),
{
    let ls = lines_with_endings(text);
    lemma_lines_newline_last(text, 0);
    assert forall|k: int| 0 <= k < rows.len() implies #[trigger] row_text(rows[k]) == trim_end_char(ls[k], '\n') by {
        assert(row_of(rows[k], ls[k]));
        let f = choose|f: Option<Seq<FragmentV>>| outcome_for(f, ls[k]) && #[trigger] row_tokens(ls[k], f) == tokens_v(rows[k]@);
        let line = ls[k];
        assert(newline_only_last(line));
        lemma_trim_one_newline(line);
        let plain = trim_end_char(line, '\n');
        let toks = match f {
            Some(fs) => fragment_tokens(fs, fs.len() as int),
            None => Seq::empty(),
        };
        if let Some(fs) = f {
            lemma_fragment_text(fs, fs.len() as int);
        }
        assert(tokens_v(rows[k]@).len() == rows[k]@.len());
        if toks.len() == 0 && plain.len() > 0 {
            let t = TokenV { text: plain, color: crate::theme::FG, italic: false };
            assert(row_tokens(line, f) == seq![t]);
            assert(token_concat(seq![t], 0) == Seq::<char>::empty());
            assert(token_concat(seq![t], 1) =~= plain);
        } else if toks.len() == 0 {
            assert(token_concat(toks, 0) =~= plain);
        }
    }
}

// ---------------------------------------------------------------------------
// The theme
// ---------------------------------------------------------------------------

/// One theme rule: a scope selector and the color (and italics) it gets.
pub struct ThemeRule {
    pub selector: &'static str,
    pub color: u32,
    pub italic: bool,
}

/// The Neovim `tokyo_custom` groups as scope rules, general before
/// specific so ties resolve toward the specific rule. Declaration keywords
/// (`fn`, `struct`, `enum`, `trait`, `impl`, `mod`) share syntect's
/// `storage.type.*` family with primitive type names but are keywords: their
/// selectors are more specific than plain `storage.type`, so they win.
pub open spec fn tokyo_table() -> Seq<(Seq<char>, u32, bool)> {
    seq![
        ("comment"@, COMMENT, true),
        ("string"@, STRING, false),
        ("constant"@, CONSTANT, false),
        ("keyword.operator"@, OPERATOR, false),
        ("keyword"@, KEYWORD, true),
        ("storage.type"@, TYPE, false),
        ("storage"@, KEYWORD, true),
        ("storage.type.function, storage.type.struct, storage.type.enum, storage.type.trait, storage.type.impl, storage.type.module"@, KEYWORD, true),
        ("entity.name.function"@, FUNCTION, true),
        ("entity.name.method"@, FUNCTION, true),
        ("entity.name.type"@, TYPE, false),
        ("entity.name.class"@, TYPE, false),
        ("entity.name.struct"@, TYPE, false),
        ("support.type"@, TYPE, false),
        ("support.class"@, TYPE, false),
        ("entity.name.tag"@, MAGENTA, false),
        ("entity.name.section"@, MAGENTA, false),
        ("variable.member"@, GREEN, false),
        ("variable.property"@, GREEN, false),
        ("punctuation"@, OPERATOR, false),
        ("variable"@, FG, false),
    ]
}

pub open spec fn rules_v(v: Seq<ThemeRule>) -> Seq<(Seq<char>, u32, bool)> {
    Seq::new(v.len(), |i: int| (v[i].selector@, v[i].color, v[i].italic))
}

/// The theme rules (see [`tokyo_table`]).
pub fn tokyo_rules() -> (rules: Vec<ThemeRule>)
    ensures
        rules_v(rules@) == tokyo_table(),
{
    let mut rules: Vec<ThemeRule> = Vec::new();
    rules.push(ThemeRule { selector: "comment", color: COMMENT, italic: true });
    rules.push(ThemeRule { selector: "string", color: STRING, italic: false });
    rules.push(ThemeRule { selector: "constant", color: CONSTANT, italic: false });
    rules.push(ThemeRule { selector: "keyword.operator", color: OPERATOR, italic: false });
    rules.push(ThemeRule { selector: "keyword", color: KEYWORD, italic: true });
    rules.push(ThemeRule { selector: "storage.type", color: TYPE, italic: false });
    rules.push(ThemeRule { selector: "storage", color: KEYWORD, italic: true });
    rules.push(ThemeRule { selector: "storage.type.function, storage.type.struct, storage.type.enum, storage.type.trait, storage.type.impl, storage.type.module", color: KEYWORD, italic: true });
    rules.push(ThemeRule { selector: "entity.name.function", color: FUNCTION, italic: true });
    rules.push(ThemeRule { selector: "entity.name.method", color: FUNCTION, italic: true });
    rules.push(ThemeRule { selector: "entity.name.type", color: TYPE, italic: false });
    rules.push(ThemeRule { selector: "entity.name.class", color: TYPE, italic: false });
    rules.push(ThemeRule { selector: "entity.name.struct", color: TYPE, italic: false });
    rules.push(ThemeRule { selector: "support.type", color: TYPE, italic: false });
    rules.push(ThemeRule { selector: "support.class", color: TYPE, italic: false });
    rules.push(ThemeRule { selector: "entity.name.tag", color: MAGENTA, italic: false });
    rules.push(ThemeRule { selector: "entity.name.section", color: MAGENTA, italic: false });
    rules.push(ThemeRule { selector: "variable.member", color: GREEN, italic: false });
    rules.push(ThemeRule { selector: "variable.property", color: GREEN, italic: false });
    rules.push(ThemeRule { selector: "punctuation", color: OPERATOR, italic: false });
    rules.push(ThemeRule { selector: "variable", color: FG, italic: false });
    assert(rules_v(rules@) =~= tokyo_table());
    rules
}

/// Red, green and blue channels of a `0xRRGGBB` color.
pub fn rgb_channels(color: u32) -> (c: (u8, u8, u8))
    ensures
        (c.0 as int, c.1 as int, c.2 as int) == crate::theme::channels(color),
{
    (((color / 0x10000) % 0x100) as u8, ((color / 0x100) % 0x100) as u8, (color % 0x100) as u8)
}

/// A color's channels as bytes.
pub open spec fn rgb_of(color: u32) -> (u8, u8, u8) {
    (crate::theme::channels(color).0 as u8, crate::theme::channels(color).1 as u8, crate::theme::channels(color).2 as u8)
}

/// The theme rule a table entry makes.
pub open spec fn rule_value(r: (Seq<char>, u32, bool)) -> (Seq<char>, (u8, u8, u8), bool) {
    (parsed_selector(r.0), rgb_of(r.1), r.2)
}

/// The rules among the first `n` entries of `table` that `keep` marks, in
/// order.
pub open spec fn kept_rules(table: Seq<(Seq<char>, u32, bool)>, keep: Seq<bool>, n: int) -> Seq<(Seq<char>, (u8, u8, u8), bool)>
    decreases n,
{
    if n <= 0 {
        Seq::empty()
    } else if keep[n - 1] {
        kept_rules(table, keep, n - 1).push(rule_value(table[n - 1]))
    } else {
        kept_rules(table, keep, n - 1)
    }
}

/// `t` is the `tokyo_custom` theme: its name, the default text color on the
/// block background, and the rules of [`tokyo_table`] in order, each one
/// there unless syntect refused its selector.
pub open spec fn is_tokyo(t: Theme) -> bool {
    &&& theme_header(t) == ("tokyo_custom"@, rgb_of(FG), rgb_of(BLOCK_BG))
    &&& exists|keep: Seq<bool>|
        keep.len() == tokyo_table().len() && theme_rules(t) == #[trigger] kept_rules(tokyo_table(), keep, keep.len() as int)
}

/// The `tokyo_custom` theme (see [`is_tokyo`]).
pub fn tokyo_theme() -> (t: Theme)
    ensures
        is_tokyo(t),
{
    let rules = tokyo_rules();
    proof {
        reveal_strlit("tokyo_custom");
    }
    let mut theme = new_theme("tokyo_custom", rgb_channels(FG), rgb_channels(BLOCK_BG));
    let ghost table = tokyo_table();
    let ghost mut keep: Seq<bool> = Seq::empty();
    let mut k: usize = 0;
    while k < rules.len()
        invariant
            k <= rules.len(),
            rules_v(rules@) == table,
            table == tokyo_table(),
            keep.len() == k,
            theme_header(theme) == ("tokyo_custom"@, rgb_of(FG), rgb_of(BLOCK_BG)),
            theme_rules(theme) == kept_rules(table, keep, k as int),
        decreases rules.len() - k,
    {
        let rule = &rules[k];
        let rgb = rgb_channels(rule.color);
        assert(rgb == rgb_of(rule.color));
        assert(table[k as int] == (rule.selector@, rule.color, rule.italic));
        let ok = push_rule(&mut theme, rule.selector, rgb, rule.italic);
        proof {
            let old_keep = keep;
            keep = keep.push(ok);
            assert(kept_rules(table, keep, k as int) == kept_rules(table, old_keep, k as int)) by {
                lemma_kept_prefix(table, old_keep, ok, k as int);
            }
        }
        k += 1;
    }
    proof {
        assert(kept_rules(table, keep, keep.len() as int) == theme_rules(theme));
    }
    theme
}

proof fn lemma_kept_prefix(table: Seq<(Seq<char>, u32, bool)>, keep: Seq<bool>, b: bool, n: int)
    requires
        0 <= n <= keep.len(),
    ensures
        kept_rules(table, keep.push(b), n) == kept_rules(table, keep, n),
    decreases n,
{
    if n > 0 {
        lemma_kept_prefix(table, keep, b, n - 1);
        assert(keep.push(b)[n - 1] == keep[n - 1]);
    }
}

} // verus!
