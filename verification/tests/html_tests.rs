use otm::html::{classes, tint_name, to_html, trim_end, StyledCell, Tint};

fn cell(symbol: &str, fg: Tint, bold: bool) -> StyledCell {
    StyledCell { symbol: symbol.to_string(), fg, bg: Tint::Other, bold, underlined: false }
}

#[test]
fn class_lists() {
    let c = StyledCell { symbol: "x".to_string(), fg: Tint::Cyan, bg: Tint::Blue, bold: true, underlined: true };
    assert_eq!(classes(&c), "f-cyan b-blue bold ul");
    assert_eq!(classes(&cell("x", Tint::Other, false)), "");
    assert_eq!(classes(&cell("x", Tint::Other, true)), "bold");
    assert_eq!(tint_name(Tint::DarkGray), Some("darkgray"));
    assert_eq!(tint_name(Tint::Other), None);
}

#[test]
fn runs_become_spans() {
    let rows = vec![
        vec![
            cell("a", Tint::Cyan, true),
            cell("b", Tint::Cyan, true),
            cell("<", Tint::Other, false),
            cell(" ", Tint::Other, false),
            cell(" ", Tint::Other, false),
        ],
        vec![cell(" ", Tint::Other, false), cell("\u{2801}", Tint::Green, false)],
    ];
    let html = to_html(&rows, "processes", "a label", false);
    assert_eq!(
        html,
        "<pre class=\"term-screen\" data-screen=\"processes\" role=\"img\" aria-label=\"a label\">\
         <span class=\"f-cyan bold\">ab</span>&lt;\n \
         <span class=\"f-green\"><i>\u{2801}</i></span>\n</pre>"
    );
}

#[test]
fn hidden_screens_and_blank_lines() {
    let rows = vec![vec![cell(" ", Tint::Other, false)], vec![]];
    let html = to_html(&rows, "performance", "graphs", true);
    assert_eq!(
        html,
        "<pre class=\"term-screen\" data-screen=\"performance\" role=\"img\" aria-label=\"graphs\" hidden>\n\n</pre>"
    );
}

#[test]
fn trailing_white_space_is_trimmed() {
    assert_eq!(trim_end("ab \t\n"), "ab");
    assert_eq!(trim_end("  "), "");
    assert_eq!(trim_end(" a b"), " a b");
    assert_eq!(trim_end("x\u{3000}"), "x");
}
