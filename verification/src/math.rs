//! Small TeX-math subset used by display/inline `$$...$$`.
//!
//! Covers `\frac`, `\sum`/`\lim` limits, super/subscripts, and a handful of
//! symbols (`\partial`, `\to`). Anything else is emitted as literal text so
//! unknown markup never drops the source.

use vstd::prelude::*;
use crate::text::{
    ascii_alpha, chars_of, is_ascii_alpha, is_whitespace, is_ws, lemma_skip_ws, push_char, range_is,
    skip_spaces, skip_ws, string_of_range,
};

verus! {

/// One laid-out math fragment.
#[derive(Debug)]
pub enum Atom {
    Text(String),
    Row(Vec<Atom>),
    Frac(Box<Atom>, Box<Atom>),
    Scripts {
        base: Box<Atom>,
        sub: Option<Box<Atom>>,
        sup: Option<Box<Atom>>,
        /// Display-style operators put limits above/below instead of beside.
        limits: bool,
    },
}

/// Mathematical value of an [`Atom`].
pub enum AtomV {
    Text(Seq<char>),
    Row(Seq<AtomV>),
    Frac(Box<AtomV>, Box<AtomV>),
    Scripts { base: Box<AtomV>, sub: Option<Box<AtomV>>, sup: Option<Box<AtomV>>, limits: bool },
}

pub open spec fn opt_atom_v(a: Option<Box<Atom>>) -> Option<Box<AtomV>>
    decreases a,
{
    match a {
        Some(b) => Some(Box::new(atom_v(*b))),
        None => None,
    }
}

/// The value an [`Atom`] stands for.
pub open spec fn atom_v(a: Atom) -> AtomV
    decreases a,
{
    match a {
        Atom::Text(s) => AtomV::Text(s@),
        Atom::Row(items) => AtomV::Row(
            Seq::new(
                items@.len(),
                |i: int|
                    if 0 <= i < items@.len() {
                        atom_v(items@[i])
                    } else {
                        AtomV::Text(Seq::empty())
                    },
            ),
        ),
        Atom::Frac(n, d) => AtomV::Frac(Box::new(atom_v(*n)), Box::new(atom_v(*d))),
        Atom::Scripts { base, sub, sup, limits } => AtomV::Scripts {
            base: Box::new(atom_v(*base)),
            sub: match sub {
                Some(b) => Some(Box::new(atom_v(*b))),
                None => None,
            },
            sup: match sup {
                Some(b) => Some(Box::new(atom_v(*b))),
                None => None,
            },
            limits,
        },
    }
}

pub open spec fn atoms_v(items: Seq<Atom>) -> Seq<AtomV> {
    Seq::new(items.len(), |i: int| atom_v(items[i]))
}

pub proof fn lemma_row_v(items: Vec<Atom>)
    ensures
        atom_v(Atom::Row(items)) == AtomV::Row(atoms_v(items@)),
{
    let r = atom_v(Atom::Row(items));
    let s = r->Row_0;
    assert(s =~= atoms_v(items@));
}

// ---------------------------------------------------------------------------
// The grammar, as spec functions over the character sequence. Each returns
// the parsed value and the index just past what it consumed. The `k > i`
// guards never fail (every step consumes input); they make termination
// evident.
// ---------------------------------------------------------------------------

/// A brace group or run of items up to the end or a closing brace.
pub open spec fn spec_row(cs: Seq<char>, i: int, stop_brace: bool) -> (AtomV, int)
    decreases cs.len() - i, 7int,
{
    if 0 <= i <= cs.len() {
        let (items, k) = spec_row_items(cs, i, stop_brace, Seq::empty());
        if items.len() == 0 {
            (AtomV::Text(Seq::empty()), k)
        } else if items.len() == 1 {
            (items[0], k)
        } else {
            (AtomV::Row(items), k)
        }
    } else {
        (AtomV::Text(Seq::empty()), i)
    }
}

pub open spec fn spec_row_items(cs: Seq<char>, i: int, stop_brace: bool, items: Seq<AtomV>) -> (
    Seq<AtomV>,
    int,
)
    decreases cs.len() - i, 6int,
{
    if !(0 <= i < cs.len()) {
        (items, i)
    } else if stop_brace && cs[i] == '}' {
        (items, i)
    } else if is_ws(cs[i]) {
        let j = skip_ws(cs, i);
        proof {
            lemma_skip_ws(cs, i);
            lemma_skip_ws(cs, i + 1);
        }
        spec_row_items(cs, j, stop_brace, items.push(AtomV::Text(seq![' '])))
    } else {
        let (a, k) = spec_scripted(cs, i);
        if i < k <= cs.len() {
            spec_row_items(cs, k, stop_brace, items.push(a))
        } else {
            (items.push(a), k)
        }
    }
}

/// A primary followed by any `^`/`_` scripts.
pub open spec fn spec_scripted(cs: Seq<char>, i: int) -> (AtomV, int)
    decreases cs.len() - i, 5int,
{
    if 0 <= i <= cs.len() {
        let (a, j) = spec_primary(cs, i);
        if i < j <= cs.len() {
            spec_script_loop(cs, j, a)
        } else {
            (a, j)
        }
    } else {
        (AtomV::Text(Seq::empty()), i)
    }
}

pub open spec fn is_script_mark(c: char) -> bool {
    c == '^' || c == '_'
}

/// Whether a scripted base takes display-style limits.
pub open spec fn takes_limits(a: AtomV) -> bool {
    match a {
        AtomV::Text(t) => t == seq!['∑'] || t == seq!['l', 'i', 'm'],
        _ => false,
    }
}

pub open spec fn spec_script_loop(cs: Seq<char>, i: int, atom: AtomV) -> (AtomV, int)
    decreases cs.len() - i, 4int,
{
    if 0 <= i <= cs.len() {
        let b = skip_ws(cs, i);
        proof {
            lemma_skip_ws(cs, i);
        }
        if b < cs.len() && is_script_mark(cs[b]) {
            let (sub, sup, k) = spec_collect(cs, b, None, None);
            let next = AtomV::Scripts {
                base: Box::new(atom),
                sub,
                sup,
                limits: takes_limits(atom),
            };
            if i < k <= cs.len() {
                spec_script_loop(cs, k, next)
            } else {
                (next, k)
            }
        } else {
            (atom, i)
        }
    } else {
        (atom, i)
    }
}

pub open spec fn spec_collect(
    cs: Seq<char>,
    i: int,
    sub: Option<Box<AtomV>>,
    sup: Option<Box<AtomV>>,
) -> (Option<Box<AtomV>>, Option<Box<AtomV>>, int)
    decreases cs.len() - i, 3int,
{
    if 0 <= i < cs.len() && is_script_mark(cs[i]) {
        let is_sup = cs[i] == '^';
        let j = skip_ws(cs, i + 1);
        proof {
            lemma_skip_ws(cs, i + 1);
        }
        let (script, k) = spec_primary(cs, j);
        let sub2 = if is_sup {
            sub
        } else {
            Some(Box::new(script))
        };
        let sup2 = if is_sup {
            Some(Box::new(script))
        } else {
            sup
        };
        if i < k <= cs.len() {
            spec_collect(cs, k, sub2, sup2)
        } else {
            (sub2, sup2, k)
        }
    } else {
        (sub, sup, i)
    }
}

/// A brace group, a command, or one literal character.
pub open spec fn spec_primary(cs: Seq<char>, i: int) -> (AtomV, int)
    decreases cs.len() - i, 2int,
{
    if 0 <= i <= cs.len() {
        let j = skip_ws(cs, i);
        proof {
            lemma_skip_ws(cs, i);
        }
        if j >= cs.len() {
            (AtomV::Text(Seq::empty()), j)
        } else if cs[j] == '{' {
            let (inner, k) = spec_row(cs, j + 1, true);
            if 0 <= k < cs.len() && cs[k] == '}' {
                (inner, k + 1)
            } else {
                (inner, k)
            }
        } else if cs[j] == '\\' {
            spec_command(cs, j)
        } else {
            (AtomV::Text(seq![cs[j]]), j + 1)
        }
    } else {
        (AtomV::Text(Seq::empty()), i)
    }
}

/// End of the run of ASCII letters starting at `i`.
pub open spec fn alpha_end(cs: Seq<char>, i: int) -> int
    decreases cs.len() - i,
{
    if 0 <= i < cs.len() && is_ascii_alpha(cs[i]) {
        alpha_end(cs, i + 1)
    } else {
        i
    }
}

pub proof fn lemma_alpha_end(cs: Seq<char>, i: int)
    requires
        0 <= i <= cs.len(),
    ensures
        i <= alpha_end(cs, i) <= cs.len(),
        forall|k: int| i <= k < alpha_end(cs, i) ==> is_ascii_alpha(#[trigger] cs[k]),
    decreases cs.len() - i,
{
    if i < cs.len() && is_ascii_alpha(cs[i]) {
        lemma_alpha_end(cs, i + 1);
    }
}

/// Symbol a bare command name stands for, if it is one of the known ones.
pub open spec fn command_symbol(name: Seq<char>) -> Option<Seq<char>> {
    if name == seq!['p', 'a', 'r', 't', 'i', 'a', 'l'] {
        Some(seq!['∂'])
    } else if name == seq!['s', 'u', 'm'] {
        Some(seq!['∑'])
    } else if name == seq!['l', 'i', 'm'] {
        Some(seq!['l', 'i', 'm'])
    } else if name == seq!['t', 'o'] {
        Some(seq!['→'])
    } else if name == seq!['i', 'n', 'f', 't', 'y'] {
        Some(seq!['∞'])
    } else if name == seq!['c', 'd', 'o', 't'] {
        Some(seq!['·'])
    } else {
        None
    }
}

/// The symbol commands read as their symbols wherever they stand in a
/// formula: `\partial` is ∂, `\sum` ∑, `\to` →, `\infty` ∞ and `\cdot` ·,
/// each one character and never the command's own name (`\lim` alone keeps
/// its name, as an operator word); parsing goes on after the name.
pub proof fn lemma_symbol_commands(cs: Seq<char>, i: int)
    requires
        0 <= i < cs.len(),
        cs[i] == '\\',
    ensures
        ({
            let k = alpha_end(cs, i + 1);
            let name = cs.subrange(i + 1, k);
            let (a, next) = spec_command(cs, i);
            &&& name == seq!['p', 'a', 'r', 't', 'i', 'a', 'l'] ==> a == AtomV::Text(seq!['∂']) && next == i + 8
            &&& name == seq!['s', 'u', 'm'] ==> a == AtomV::Text(seq!['∑']) && next == i + 4
            &&& name == seq!['t', 'o'] ==> a == AtomV::Text(seq!['→']) && next == i + 3
            &&& name == seq!['i', 'n', 'f', 't', 'y'] ==> a == AtomV::Text(seq!['∞']) && next == i + 6
            &&& name == seq!['c', 'd', 'o', 't'] ==> a == AtomV::Text(seq!['·']) && next == i + 5
            &&& name == seq!['l', 'i', 'm'] ==> a == AtomV::Text(seq!['l', 'i', 'm']) && next == i + 4
        }),
        forall|name: Seq<char>|
            #[trigger] command_symbol(name) matches Some(s) ==> name == seq!['l', 'i', 'm'] || (s.len() == 1 && s != name),
{
    lemma_alpha_end(cs, i + 1);
    let k = alpha_end(cs, i + 1);
    let name = cs.subrange(i + 1, k);
    assert(name.len() == k - i - 1);
    if command_symbol(name) is Some {
        assert(name != seq!['f', 'r', 'a', 'c']);
        assert(spec_command(cs, i) == (AtomV::Text(command_symbol(name)->0), k));
    }
}

/// A `\name` command at `i` (which holds the backslash).
pub open spec fn spec_command(cs: Seq<char>, i: int) -> (AtomV, int)
    decreases cs.len() - i, 1int,
{
    if 0 <= i < cs.len() {
        let k = alpha_end(cs, i + 1);
        proof {
            lemma_alpha_end(cs, i + 1);
        }
        let name = cs.subrange(i + 1, k);
        if name == seq!['f', 'r', 'a', 'c'] {
            let (num, a) = spec_primary(cs, k);
            if i < a <= cs.len() {
                let (den, b) = spec_primary(cs, a);
                (AtomV::Frac(Box::new(num), Box::new(den)), b)
            } else {
                (AtomV::Frac(Box::new(num), Box::new(AtomV::Text(Seq::empty()))), a)
            }
        } else if command_symbol(name) is Some {
            (AtomV::Text(command_symbol(name)->0), k)
        } else if name == seq!['l', 'e', 'f', 't'] || name == seq!['r', 'i', 'g', 'h', 't'] {
            spec_primary(cs, k)
        } else if name.len() == 0 && k < cs.len() {
            (AtomV::Text(seq![cs[k]]), k + 1)
        } else {
            (AtomV::Text(name), k)
        }
    } else {
        (AtomV::Text(Seq::empty()), i)
    }
}

/// The atom tree a TeX fragment parses to.
pub open spec fn spec_parse_tex(src: Seq<char>) -> AtomV {
    spec_row(src, 0, false).0
}

// ---------------------------------------------------------------------------
// Flattening
// ---------------------------------------------------------------------------

pub open spec fn opt_flat(a: Option<Box<AtomV>>, mark: char) -> Seq<char>
    decreases a,
{
    match a {
        Some(b) => seq![mark] + flat_atom(*b),
        None => Seq::empty(),
    }
}

/// Searchable text of an atom: symbols, `(num/den)` fractions, `_sub^sup`.
pub open spec fn flat_atom(a: AtomV) -> Seq<char>
    decreases a,
{
    match a {
        AtomV::Text(t) => t,
        AtomV::Row(items) => flat_row(items, items.len() as int),
        AtomV::Frac(n, d) => seq!['('] + flat_atom(*n) + seq!['/'] + flat_atom(*d) + seq![')'],
        AtomV::Scripts { base, sub, sup, .. } => flat_atom(*base) + match sub {
            Some(b) => seq!['_'] + flat_atom(*b),
            None => Seq::empty(),
        } + match sup {
            Some(b) => seq!['^'] + flat_atom(*b),
            None => Seq::empty(),
        },
    }
}

/// Concatenated flat text of the first `n` items.
pub open spec fn flat_row(items: Seq<AtomV>, n: int) -> Seq<char>
    decreases items, n,
{
    if 0 < n <= items.len() {
        flat_row(items, n - 1) + flat_atom(items[n - 1])
    } else {
        Seq::empty()
    }
}

/// Superscript (or subscript) form of `c`, when Unicode has one.
pub open spec fn script_of(c: char, superscript: bool) -> Option<char> {
    if superscript {
        if c == '0' { Some('⁰') }
        else if c == '1' { Some('¹') }
        else if c == '2' { Some('²') }
        else if c == '3' { Some('³') }
        else if c == '4' { Some('⁴') }
        else if c == '5' { Some('⁵') }
        else if c == '6' { Some('⁶') }
        else if c == '7' { Some('⁷') }
        else if c == '8' { Some('⁸') }
        else if c == '9' { Some('⁹') }
        else if c == '+' { Some('⁺') }
        else if c == '-' { Some('⁻') }
        else if c == '=' { Some('⁼') }
        else if c == '(' { Some('⁽') }
        else if c == ')' { Some('⁾') }
        else if c == 'n' { Some('ⁿ') }
        else if c == 'i' { Some('ⁱ') }
        else { None }
    } else {
        if c == '0' { Some('₀') }
        else if c == '1' { Some('₁') }
        else if c == '2' { Some('₂') }
        else if c == '3' { Some('₃') }
        else if c == '4' { Some('₄') }
        else if c == '5' { Some('₅') }
        else if c == '6' { Some('₆') }
        else if c == '7' { Some('₇') }
        else if c == '8' { Some('₈') }
        else if c == '9' { Some('₉') }
        else if c == '+' { Some('₊') }
        else if c == '-' { Some('₋') }
        else if c == '=' { Some('₌') }
        else if c == '(' { Some('₍') }
        else if c == ')' { Some('₎') }
        else if c == 'n' { Some('ₙ') }
        else if c == 'i' { Some('ᵢ') }
        else if c == 'a' { Some('ₐ') }
        else if c == 'e' { Some('ₑ') }
        else if c == 'o' { Some('ₒ') }
        else if c == 'x' { Some('ₓ') }
        else { None }
    }
}

/// `text` with every character that has a script form replaced by it.
pub open spec fn script_text(text: Seq<char>, superscript: bool) -> Seq<char> {
    Seq::new(
        text.len(),
        |i: int|
            match script_of(text[i], superscript) {
                Some(s) => s,
                None => text[i],
            },
    )
}

// ---------------------------------------------------------------------------
// Executable parser
// ---------------------------------------------------------------------------


// ---------------------------------------------------------------------------
// Executable parser
// ---------------------------------------------------------------------------

/// Parse a TeX math fragment into an [`Atom`] tree.
pub fn parse_tex(src: &str) -> (atom: Atom)
    ensures
        atom_v(atom) == spec_parse_tex(src@),
{
    let chars = chars_of(src);
    let (atom, _) = parse_row(&chars, 0, false);
    atom
}

/// Flatten to a searchable approximation (symbols, no braces).
pub fn flatten_tex(src: &str) -> (s: String)
    ensures
        s@ == flat_atom(spec_parse_tex(src@)),
{
    flatten_atom(&parse_tex(src))
}

fn empty_text() -> (a: Atom)
    ensures
        atom_v(a) == AtomV::Text(Seq::empty()),
{
    Atom::Text(String::new())
}

fn parse_row(cs: &Vec<char>, i: usize, stop_brace: bool) -> (r: (Atom, usize))
    requires
        i <= cs.len(),
    ensures
        atom_v(r.0) == spec_row(cs@, i as int, stop_brace).0,
        r.1 == spec_row(cs@, i as int, stop_brace).1,
        i <= r.1 <= cs.len(),
    decreases cs.len() - i, 7int,
{
    let ghost start = i;
    let mut items: Vec<Atom> = Vec::new();
    let mut k = i;
    assert(atoms_v(items@) =~= Seq::<AtomV>::empty());
    loop
        invariant_except_break
            start == i,
            start <= k <= cs.len(),
            spec_row_items(cs@, start as int, stop_brace, Seq::empty())
                == spec_row_items(cs@, k as int, stop_brace, atoms_v(items@)),
        ensures
            start == i,
            start <= k <= cs.len(),
            spec_row_items(cs@, start as int, stop_brace, Seq::empty()) == (atoms_v(items@), k as int),
        decreases cs.len() - k,
    {
        if k >= cs.len() {
            break;
        }
        if stop_brace && cs[k] == '}' {
            break;
        }
        if is_whitespace(cs[k]) {
            let j = skip_spaces(cs, k);
            proof {
                lemma_skip_ws(cs@, k as int);
                lemma_skip_ws(cs@, k + 1);
            }
            let ghost before = atoms_v(items@);
            let space: &[char] = &[' '];
            assert(space@ =~= seq![' ']);
            items.push(symbol_text(space));
            assert(atoms_v(items@) =~= before.push(AtomV::Text(seq![' '])));
            k = j;
        } else {
            let (a, next) = parse_scripted(cs, k);
            let ghost before = atoms_v(items@);
            let ghost av = atom_v(a);
            items.push(a);
            assert(atoms_v(items@) =~= before.push(av));
            if k < next && next <= cs.len() {
                k = next;
            } else {
                k = next;
                break;
            }
        }
    }
    proof {
        lemma_row_v(items);
    }
    if items.len() == 0 {
        (empty_text(), k)
    } else if items.len() == 1 {
        let a = items.pop().unwrap();
        (a, k)
    } else {
        (Atom::Row(items), k)
    }
}

fn parse_scripted(cs: &Vec<char>, i: usize) -> (r: (Atom, usize))
    requires
        i <= cs.len(),
    ensures
        atom_v(r.0) == spec_scripted(cs@, i as int).0,
        r.1 == spec_scripted(cs@, i as int).1,
        i <= r.1 <= cs.len(),
    decreases cs.len() - i, 5int,
{
    let (a, j) = parse_primary(cs, i);
    if i < j && j <= cs.len() {
        parse_script_loop(cs, j, a)
    } else {
        (a, j)
    }
}

fn base_takes_limits(a: &Atom) -> (b: bool)
    ensures
        b == takes_limits(atom_v(*a)),
{
    match a {
        Atom::Text(t) => {
            let cs = chars_of(t.as_str());
            let sum: &[char] = &['∑'];
            let lim: &[char] = &['l', 'i', 'm'];
            assert(sum@ =~= seq!['∑']);
            assert(lim@ =~= seq!['l', 'i', 'm']);
            assert(cs@.subrange(0, cs@.len() as int) =~= cs@);
            range_is(&cs, 0, cs.len(), sum) || range_is(&cs, 0, cs.len(), lim)
        },
        _ => false,
    }
}

fn parse_script_loop(cs: &Vec<char>, i: usize, atom: Atom) -> (r: (Atom, usize))
    requires
        i <= cs.len(),
    ensures
        atom_v(r.0) == spec_script_loop(cs@, i as int, atom_v(atom)).0,
        r.1 == spec_script_loop(cs@, i as int, atom_v(atom)).1,
        i <= r.1 <= cs.len(),
    decreases cs.len() - i, 4int,
{
    let b = skip_spaces(cs, i);
    proof {
        lemma_skip_ws(cs@, i as int);
    }
    if b < cs.len() && (cs[b] == '^' || cs[b] == '_') {
        let (sub, sup, k) = parse_collect(cs, b, None, None);
        let limits = base_takes_limits(&atom);
        let next = Atom::Scripts { base: Box::new(atom), sub, sup, limits };
        if i < k && k <= cs.len() {
            parse_script_loop(cs, k, next)
        } else {
            (next, k)
        }
    } else {
        (atom, i)
    }
}

fn parse_collect(
    cs: &Vec<char>,
    i: usize,
    sub: Option<Box<Atom>>,
    sup: Option<Box<Atom>>,
) -> (r: (Option<Box<Atom>>, Option<Box<Atom>>, usize))
    requires
        i <= cs.len(),
    ensures
        opt_atom_v(r.0) == spec_collect(cs@, i as int, opt_atom_v(sub), opt_atom_v(sup)).0,
        opt_atom_v(r.1) == spec_collect(cs@, i as int, opt_atom_v(sub), opt_atom_v(sup)).1,
        r.2 == spec_collect(cs@, i as int, opt_atom_v(sub), opt_atom_v(sup)).2,
        i <= r.2 <= cs.len(),
    decreases cs.len() - i, 3int,
{
    if i < cs.len() && (cs[i] == '^' || cs[i] == '_') {
        let is_sup = cs[i] == '^';
        let j = skip_spaces(cs, i + 1);
        proof {
            lemma_skip_ws(cs@, i + 1);
        }
        let (script, k) = parse_primary(cs, j);
        let (sub2, sup2) = if is_sup {
            (sub, Some(Box::new(script)))
        } else {
            (Some(Box::new(script)), sup)
        };
        if i < k && k <= cs.len() {
            parse_collect(cs, k, sub2, sup2)
        } else {
            (sub2, sup2, k)
        }
    } else {
        (sub, sup, i)
    }
}

fn parse_primary(cs: &Vec<char>, i: usize) -> (r: (Atom, usize))
    requires
        i <= cs.len(),
    ensures
        atom_v(r.0) == spec_primary(cs@, i as int).0,
        r.1 == spec_primary(cs@, i as int).1,
        i <= r.1 <= cs.len(),
    decreases cs.len() - i, 2int,
{
    let j = skip_spaces(cs, i);
    proof {
        lemma_skip_ws(cs@, i as int);
    }
    if j >= cs.len() {
        (empty_text(), j)
    } else if cs[j] == '{' {
        let (inner, k) = parse_row(cs, j + 1, true);
        if k < cs.len() && cs[k] == '}' {
            (inner, k + 1)
        } else {
            (inner, k)
        }
    } else if cs[j] == '\\' {
        parse_command(cs, j)
    } else {
        let t = string_of_range(cs, j, j + 1);
        assert(cs@.subrange(j as int, j + 1) =~= seq![cs@[j as int]]);
        (Atom::Text(t), j + 1)
    }
}

fn alpha_run_end(cs: &Vec<char>, i: usize) -> (k: usize)
    requires
        i <= cs.len(),
    ensures
        k == alpha_end(cs@, i as int),
        i <= k <= cs.len(),
{
    let mut k = i;
    while k < cs.len() && ascii_alpha(cs[k])
        invariant
            i <= k <= cs.len(),
            alpha_end(cs@, i as int) == alpha_end(cs@, k as int),
        decreases cs.len() - k,
    {
        k += 1;
    }
    k
}

fn symbol_text(s: &[char]) -> (a: Atom)
    ensures
        atom_v(a) == AtomV::Text(s@),
{
    let mut t = String::new();
    let mut i: usize = 0;
    while i < s.len()
        invariant
            i <= s.len(),
            t@ == s@.take(i as int),
        decreases s.len() - i,
    {
        push_char(&mut t, s[i]);
        assert(s@.take(i as int).push(s@[i as int]) == s@.take(i + 1));
        i += 1;
    }
    assert(s@.take(s@.len() as int) =~= s@);
    Atom::Text(t)
}

fn parse_command(cs: &Vec<char>, i: usize) -> (r: (Atom, usize))
    requires
        i < cs.len(),
    ensures
        atom_v(r.0) == spec_command(cs@, i as int).0,
        r.1 == spec_command(cs@, i as int).1,
        i <= r.1 <= cs.len(),
    decreases cs.len() - i, 1int,
{
    let k = alpha_run_end(cs, i + 1);
    proof {
        lemma_alpha_end(cs@, i + 1);
    }
    let ghost name = cs@.subrange(i + 1, k as int);
    let w_frac: &[char] = &['f', 'r', 'a', 'c'];
    assert(w_frac@ =~= seq!['f', 'r', 'a', 'c']);
    let w_partial: &[char] = &['p', 'a', 'r', 't', 'i', 'a', 'l'];
    assert(w_partial@ =~= seq!['p', 'a', 'r', 't', 'i', 'a', 'l']);
    let w_sum: &[char] = &['s', 'u', 'm'];
    assert(w_sum@ =~= seq!['s', 'u', 'm']);
    let w_lim: &[char] = &['l', 'i', 'm'];
    assert(w_lim@ =~= seq!['l', 'i', 'm']);
    let w_to: &[char] = &['t', 'o'];
    assert(w_to@ =~= seq!['t', 'o']);
    let w_infty: &[char] = &['i', 'n', 'f', 't', 'y'];
    assert(w_infty@ =~= seq!['i', 'n', 'f', 't', 'y']);
    let w_cdot: &[char] = &['c', 'd', 'o', 't'];
    assert(w_cdot@ =~= seq!['c', 'd', 'o', 't']);
    let w_left: &[char] = &['l', 'e', 'f', 't'];
    assert(w_left@ =~= seq!['l', 'e', 'f', 't']);
    let w_right: &[char] = &['r', 'i', 'g', 'h', 't'];
    assert(w_right@ =~= seq!['r', 'i', 'g', 'h', 't']);
    let s_partial: &[char] = &['∂'];
    assert(s_partial@ =~= seq!['∂']);
    let s_sum: &[char] = &['∑'];
    assert(s_sum@ =~= seq!['∑']);
    let s_to: &[char] = &['→'];
    assert(s_to@ =~= seq!['→']);
    let s_infty: &[char] = &['∞'];
    assert(s_infty@ =~= seq!['∞']);
    let s_cdot: &[char] = &['·'];
    assert(s_cdot@ =~= seq!['·']);
    if range_is(cs, i + 1, k, w_frac) {
        let (num, a) = parse_primary(cs, k);
        if i < a && a <= cs.len() {
            let (den, b) = parse_primary(cs, a);
            (Atom::Frac(Box::new(num), Box::new(den)), b)
        } else {
            (Atom::Frac(Box::new(num), Box::new(empty_text())), a)
        }
    } else if range_is(cs, i + 1, k, w_partial) {
        (symbol_text(s_partial), k)
    } else if range_is(cs, i + 1, k, w_sum) {
        (symbol_text(s_sum), k)
    } else if range_is(cs, i + 1, k, w_lim) {
        (symbol_text(w_lim), k)
    } else if range_is(cs, i + 1, k, w_to) {
        (symbol_text(s_to), k)
    } else if range_is(cs, i + 1, k, w_infty) {
        (symbol_text(s_infty), k)
    } else if range_is(cs, i + 1, k, w_cdot) {
        (symbol_text(s_cdot), k)
    } else if range_is(cs, i + 1, k, w_left) || range_is(cs, i + 1, k, w_right) {
        parse_primary(cs, k)
    } else if k == i + 1 && k < cs.len() {
        let t = string_of_range(cs, k, k + 1);
        assert(cs@.subrange(k as int, k + 1) =~= seq![cs@[k as int]]);
        (Atom::Text(t), k + 1)
    } else {
        (Atom::Text(string_of_range(cs, i + 1, k)), k)
    }
}


/// Superscript (or subscript) form of `c`, when Unicode has one.
pub fn script_char(c: char, superscript: bool) -> (r: Option<char>)
    ensures
        r == script_of(c, superscript),
{
    if superscript {
        match c {
            '0' => Some('⁰'),
            '1' => Some('¹'),
            '2' => Some('²'),
            '3' => Some('³'),
            '4' => Some('⁴'),
            '5' => Some('⁵'),
            '6' => Some('⁶'),
            '7' => Some('⁷'),
            '8' => Some('⁸'),
            '9' => Some('⁹'),
            '+' => Some('⁺'),
            '-' => Some('⁻'),
            '=' => Some('⁼'),
            '(' => Some('⁽'),
            ')' => Some('⁾'),
            'n' => Some('ⁿ'),
            'i' => Some('ⁱ'),
            _ => None,
        }
    } else {
        match c {
            '0' => Some('₀'),
            '1' => Some('₁'),
            '2' => Some('₂'),
            '3' => Some('₃'),
            '4' => Some('₄'),
            '5' => Some('₅'),
            '6' => Some('₆'),
            '7' => Some('₇'),
            '8' => Some('₈'),
            '9' => Some('₉'),
            '+' => Some('₊'),
            '-' => Some('₋'),
            '=' => Some('₌'),
            '(' => Some('₍'),
            ')' => Some('₎'),
            'n' => Some('ₙ'),
            'i' => Some('ᵢ'),
            'a' => Some('ₐ'),
            'e' => Some('ₑ'),
            'o' => Some('ₒ'),
            'x' => Some('ₓ'),
            _ => None,
        }
    }
}

/// Map a run of characters to Unicode super/subscripts when possible.
pub fn unicode_script(text: &str, superscript: bool) -> (s: String)
    ensures
        s@ == script_text(text@, superscript),
{
    let cs = chars_of(text);
    let mut out = String::new();
    let mut i: usize = 0;
    while i < cs.len()
        invariant
            i <= cs.len(),
            cs@ == text@,
            out@ =~= script_text(text@, superscript).take(i as int),
        decreases cs.len() - i,
    {
        let c = match script_char(cs[i], superscript) {
            Some(s) => s,
            None => cs[i],
        };
        push_char(&mut out, c);
        i += 1;
    }
    out
}

fn push_str_chars(out: &mut String, s: &String)
    ensures
        final(out)@ == old(out)@ + s@,
{
    out.append(s.as_str());
}

fn push_opt(out: &mut String, a: &Option<Box<Atom>>, mark: char)
    ensures
        final(out)@ == old(out)@ + opt_flat(opt_atom_v(*a), mark),
    decreases *a,
{
    match a {
        Some(b) => {
            push_char(out, mark);
            let inner = flatten_atom(b);
            push_str_chars(out, &inner);
        },
        None => {},
    }
}

/// Flat text of an atom tree.
pub fn flatten_atom(atom: &Atom) -> (s: String)
    ensures
        s@ == flat_atom(atom_v(*atom)),
    decreases *atom,
{
    match atom {
        Atom::Text(text) => text.clone(),
        Atom::Row(items) => {
            proof {
                lemma_row_v(*items);
            }
            let ghost iv = atoms_v(items@);
            let mut out = String::new();
            let mut i: usize = 0;
            while i < items.len()
                invariant
                    i <= items.len(),
                    iv == atoms_v(items@),
                    out@ == flat_row(iv, i as int),
                    forall|k: int| 0 <= k < items@.len() ==> decreases_to!(*atom => items@[k]),
                decreases items.len() - i,
            {
                assert(decreases_to!(*atom => items@[i as int]));
                let piece = flatten_atom(&items[i]);
                push_str_chars(&mut out, &piece);
                i += 1;
            }
            out
        },
        Atom::Frac(num, den) => {
            let mut out = String::new();
            push_char(&mut out, '(');
            let n = flatten_atom(num);
            push_str_chars(&mut out, &n);
            push_char(&mut out, '/');
            let d = flatten_atom(den);
            push_str_chars(&mut out, &d);
            push_char(&mut out, ')');
            assert(out@ =~= flat_atom(atom_v(*atom)));
            out
        },
        Atom::Scripts { base, sub, sup, .. } => {
            let mut out = flatten_atom(base);
            push_opt(&mut out, sub, '_');
            push_opt(&mut out, sup, '^');
            assert(out@ =~= flat_atom(atom_v(*atom)));
            out
        },
    }
}

} // verus!
