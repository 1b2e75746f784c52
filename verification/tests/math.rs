use md_view::math::{flatten_atom, flatten_tex, parse_tex, unicode_script, Atom};

#[test]
fn e_equals_mc_squared() {
    let atom = parse_tex("E = mc^2");
    assert_eq!(flatten_atom(&atom), "E = mc^2");
    match atom {
        Atom::Row(items) => {
            assert!(matches!(&items[0], Atom::Text(t) if t == "E"));
            assert!(
                items.iter().any(|item| matches!(
                    item,
                    Atom::Scripts { sup, .. } if matches!(sup.as_deref(), Some(Atom::Text(t)) if t == "2")
                )),
                "{items:?}"
            );
        }
        other => panic!("expected row, got {other:?}"),
    }
}

#[test]
fn derivative_and_sum() {
    let deriv =
        parse_tex(r"\frac{\partial f}{\partial x} = \lim_{h \to 0} \frac{f(x+h) - f(x)}{h}");
    let flat = flatten_atom(&deriv);
    assert!(flat.contains('∂'), "{flat}");
    assert!(flat.contains("lim"), "{flat}");
    assert!(flat.contains('→'), "{flat}");

    let sum = parse_tex(r"\sum_{i=1}^{n} i^2 = \frac{n(n+1)(2n+1)}{6}");
    let flat = flatten_atom(&sum);
    assert!(flat.contains("∑"), "{flat}");
    assert!(flat.contains("_i=1"), "{flat}");
    assert!(flat.contains("^n"), "{flat}");
    assert!(flat.contains("(n(n+1)(2n+1)/6)"), "{flat}");
}

#[test]
fn unicode_sub_and_sup() {
    assert_eq!(unicode_script("2", false), "₂");
    assert_eq!(unicode_script("2", true), "²");
    assert_eq!(unicode_script("iπ", true), "ⁱπ");
}

#[test]
fn flatten_tex_of_fraction_and_symbols() {
    assert_eq!(flatten_tex(r"\frac{a}{b}"), "(a/b)");
}

#[test]
fn stray_markup_never_fails() {
    for src in ["{", "}", "\\", "^", "_", "a^", "x_", "\\frac{", "{{}", "}}a{"] {
        let _ = parse_tex(src);
        let _ = flatten_tex(src);
    }
}
