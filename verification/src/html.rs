//! A rendered screen as coloured HTML for a web page: one line per row of cells, one
//! `<span class=…>` per run of identically styled cells.
use crate::text::{escape, escape_text, push_char, push_str, to_chars};
use vstd::prelude::*;
use vstd::string::StrSliceExecFns;

verus! {

/// The colours a cell can have; the page styles the named ones.
#[derive(Clone, Copy, PartialEq, Eq, Structural, Debug)]
pub enum Tint {
    Black,
    Red,
    Green,
    Yellow,
    Blue,
    Magenta,
    Cyan,
    Gray,
    DarkGray,
    LightRed,
    White,
    /// Any other colour, including the terminal's default.
    Other,
}

pub open spec fn tint_names(t: Tint) -> Option<&'static str> {
    match t {
        Tint::Black => Some("black"),
        Tint::Red => Some("red"),
        Tint::Green => Some("green"),
        Tint::Yellow => Some("yellow"),
        Tint::Blue => Some("blue"),
        Tint::Magenta => Some("magenta"),
        Tint::Cyan => Some("cyan"),
        Tint::Gray => Some("gray"),
        Tint::DarkGray => Some("darkgray"),
        Tint::LightRed => Some("lightred"),
        Tint::White => Some("white"),
        Tint::Other => None,
    }
}

/// The class name part of a colour, if the page styles it.
pub fn tint_name(t: Tint) -> (n: Option<&'static str>)
    ensures
        n == tint_names(t),
{
    match t {
        Tint::Black => Some("black"),
        Tint::Red => Some("red"),
        Tint::Green => Some("green"),
        Tint::Yellow => Some("yellow"),
        Tint::Blue => Some("blue"),
        Tint::Magenta => Some("magenta"),
        Tint::Cyan => Some("cyan"),
        Tint::Gray => Some("gray"),
        Tint::DarkGray => Some("darkgray"),
        Tint::LightRed => Some("lightred"),
        Tint::White => Some("white"),
        Tint::Other => None,
    }
}

/// One cell of a rendered screen.
pub struct StyledCell {
    pub symbol: String,
    pub fg: Tint,
    pub bg: Tint,
    pub bold: bool,
    pub underlined: bool,
}

/// `part` added to a space-separated class list.
pub open spec fn with_part(classes: Seq<char>, part: Seq<char>) -> Seq<char> {
    if classes.len() == 0 {
        part
    } else {
        classes + " "@ + part
    }
}

/// The class list of a cell: `f-<colour>`, `b-<colour>`, `bold`, `ul`, for those that apply.
pub open spec fn cell_class(c: StyledCell) -> Seq<char> {
    let a = match tint_names(c.fg) {
        Some(n) => "f-"@ + n@,
        None => Seq::empty(),
    };
    let b = match tint_names(c.bg) {
        Some(n) => with_part(a, "b-"@ + n@),
        None => a,
    };
    let d = if c.bold {
        with_part(b, "bold"@)
    } else {
        b
    };
    if c.underlined {
        with_part(d, "ul"@)
    } else {
        d
    }
}

fn push_part(classes: &mut String, prefix: &str, name: &str)
    ensures
        final(classes)@ == with_part(old(classes)@, prefix@ + name@),
{
    if classes.as_str().unicode_len() > 0 {
        push_str(classes, " ");
    }
    push_str(classes, prefix);
    push_str(classes, name);
    proof {
        assert(classes@ =~= with_part(old(classes)@, prefix@ + name@));
    }
}

/// The class list of a cell.
pub fn classes(cell: &StyledCell) -> (s: String)
    ensures
        s@ == cell_class(*cell),
{
    let mut s = String::new();
    match tint_name(cell.fg) {
        Some(n) => push_part(&mut s, "f-", n),
        None => {},
    }
    match tint_name(cell.bg) {
        Some(n) => push_part(&mut s, "b-", n),
        None => {},
    }
    if cell.bold {
        push_part(&mut s, "bold", "");
    }
    if cell.underlined {
        push_part(&mut s, "ul", "");
    }
    proof {
        reveal_strlit("");
        assert("bold"@ + ""@ =~= "bold"@);
        assert("ul"@ + ""@ =~= "ul"@);
        assert(s@ =~= cell_class(*cell));
    }
    s
}

/// The characters `char::is_whitespace` accepts: those with the Unicode White_Space property.
pub open spec fn is_white_space(c: char) -> bool {
    ||| '\t' <= c <= '\r'
    ||| c == ' '
    ||| c == '\u{85}'
    ||| c == '\u{a0}'
    ||| c == '\u{1680}'
    ||| '\u{2000}' <= c <= '\u{200a}'
    ||| c == '\u{2028}'
    ||| c == '\u{2029}'
    ||| c == '\u{202f}'
    ||| c == '\u{205f}'
    ||| c == '\u{3000}'
}

/// `s` without its trailing white space.
pub open spec fn trimmed_end(s: Seq<char>) -> Seq<char>
    decreases s.len(),
{
    if s.len() > 0 && is_white_space(s.last()) {
        trimmed_end(s.drop_last())
    } else {
        s
    }
}

fn white_space(c: char) -> (r: bool)
    ensures
        r == is_white_space(c),
{
    ('\t' <= c && c <= '\r') || c == ' ' || c == '\u{85}' || c == '\u{a0}' || c == '\u{1680}' || ('\u{2000}'
        <= c && c <= '\u{200a}') || c == '\u{2028}' || c == '\u{2029}' || c == '\u{202f}' || c == '\u{205f}'
        || c == '\u{3000}'
}

/// A text without its trailing white space, as `str::trim_end` gives it.
pub fn trim_end(s: &str) -> (r: String)
    ensures
        r@ == trimmed_end(s@),
{
    let cs = to_chars(s);
    let mut n: usize = cs.len();
    proof {
        assert(cs@.take(n as int) =~= s@);
    }
    while n > 0 && white_space(cs[n - 1])
        invariant
            n <= cs.len(),
            cs@ == s@,
            trimmed_end(cs@.take(n as int)) == trimmed_end(s@),
        decreases n,
    {
        proof {
            assert(cs@.take(n as int).drop_last() =~= cs@.take(n - 1));
        }
        n = n - 1;
    }
    let mut r = String::new();
    let mut i: usize = 0;
    while i < n
        invariant
            i <= n <= cs.len(),
            r@ == cs@.take(i as int),
        decreases n - i,
    {
        push_char(&mut r, cs[i]);
        proof {
            assert(r@ =~= cs@.take(i + 1));
        }
        i = i + 1;
    }
    proof {
        if n == 0 {
            assert(cs@.take(0) =~= Seq::<char>::empty());
        }
        assert(trimmed_end(cs@.take(n as int)) == cs@.take(n as int));
        if n == cs.len() {
            assert(cs@.take(n as int) =~= s@);
        }
    }
    r
}

/// A run of cells: its text escaped, in a span of its class when it has one; nothing when the
/// run is empty.
pub open spec fn run_html(class: Seq<char>, text: Seq<char>) -> Seq<char> {
    if text.len() == 0 {
        Seq::empty()
    } else if class.len() == 0 {
        escape_text(text)
    } else {
        "<span class=\""@ + class + "\">"@ + escape_text(text) + "</span>"@
    }
}

/// The rest of a line, given the run so far (its class and text) and the cells still to come:
/// a cell of another class closes the run and starts a new one; at the end of the line an
/// unstyled run loses its trailing blanks.
pub open spec fn line_rest(cells: Seq<StyledCell>, class: Seq<char>, text: Seq<char>) -> Seq<char>
    decreases cells.len(),
{
    if cells.len() == 0 {
        run_html(
            class,
            if class.len() == 0 {
                trimmed_end(text)
            } else {
                text
            },
        )
    } else {
        let c = cell_class(cells[0]);
        if c != class {
            run_html(class, text) + line_rest(cells.drop_first(), c, cells[0].symbol@)
        } else {
            line_rest(cells.drop_first(), class, text + cells[0].symbol@)
        }
    }
}

/// One row of cells as HTML.
pub open spec fn line_html(cells: Seq<StyledCell>) -> Seq<char> {
    line_rest(cells, Seq::empty(), Seq::empty())
}

fn push_run(out: &mut String, class: &str, text: &str)
    ensures
        final(out)@ == old(out)@ + run_html(class@, text@),
{
    if text.unicode_len() == 0 {
        proof {
            assert(old(out)@ + run_html(class@, text@) =~= old(out)@);
        }
        return;
    }
    let e = escape(text);
    if class.unicode_len() == 0 {
        push_str(out, e.as_str());
    } else {
        push_str(out, "<span class=\"");
        push_str(out, class);
        push_str(out, "\">");
        push_str(out, e.as_str());
        push_str(out, "</span>");
        proof {
            assert(out@ =~= old(out)@ + run_html(class@, text@));
        }
    }
}

/// Appends one row of cells as HTML.
pub fn push_line(out: &mut String, cells: &Vec<StyledCell>)
    ensures
        final(out)@ == old(out)@ + line_html(cells@),
{
    let mut run_class = String::new();
    let mut run_text = String::new();
    let mut x: usize = 0;
    proof {
        assert(cells@.skip(0) =~= cells@);
        assert(old(out)@ + line_html(cells@) == out@ + line_rest(cells@.skip(0), run_class@, run_text@));
    }
    while x < cells.len()
        invariant
            x <= cells.len(),
            out@ + line_rest(cells@.skip(x as int), run_class@, run_text@) == old(out)@ + line_html(cells@),
        decreases cells.len() - x,
    {
        let cell = &cells[x];
        let class = classes(cell);
        let ghost rest = cells@.skip(x as int);
        proof {
            assert(rest[0] == *cell);
            assert(rest.drop_first() =~= cells@.skip(x + 1));
        }
        if class != run_class {
            let ghost before = out@;
            push_run(out, run_class.as_str(), run_text.as_str());
            proof {
                vstd::seq_lib::lemma_concat_associative(
                    before,
                    run_html(run_class@, run_text@),
                    line_rest(cells@.skip(x + 1), class@, cell.symbol@),
                );
            }
            run_text = String::new();
            run_class = class;
            push_str(&mut run_text, cell.symbol.as_str());
            proof {
                assert(run_text@ =~= cell.symbol@);
            }
        } else {
            push_str(&mut run_text, cell.symbol.as_str());
        }
        x = x + 1;
    }
    proof {
        assert(cells@.skip(x as int) =~= Seq::<StyledCell>::empty());
    }
    if run_class.as_str().unicode_len() == 0 {
        let t = trim_end(run_text.as_str());
        push_run(out, run_class.as_str(), t.as_str());
    } else {
        push_run(out, run_class.as_str(), run_text.as_str());
    }
}

/// The opening tag of a screen.
pub open spec fn pre_open(screen: Seq<char>, label: Seq<char>, hidden: bool) -> Seq<char> {
    "<pre class=\"term-screen\" data-screen=\""@ + screen + "\" role=\"img\" aria-label=\""@ + label + "\""@
        + (if hidden {
        " hidden"@
    } else {
        Seq::empty()
    }) + ">"@
}

/// The rows of a screen as HTML lines.
pub open spec fn rows_html(rows: Seq<Vec<StyledCell>>) -> Seq<char>
    decreases rows.len(),
{
    if rows.len() == 0 {
        Seq::empty()
    } else {
        rows_html(rows.drop_last()) + line_html(rows.last()@) + "\n"@
    }
}

/// A whole screen: a `<pre>` element naming the screen and describing it for screen
/// readers, optionally hidden, holding one line per row.
pub open spec fn screen_html_text(rows: Seq<Vec<StyledCell>>, screen: Seq<char>, label: Seq<char>, hidden: bool) -> Seq<char> {
    pre_open(screen, label, hidden) + rows_html(rows) + "</pre>"@
}

/// Renders a screen's rows of cells as a `<pre>` element.
pub fn to_html(rows: &Vec<Vec<StyledCell>>, screen: &str, label: &str, hidden: bool) -> (out: String)
    ensures
        out@ == screen_html_text(rows@, screen@, label@, hidden),
{
    let mut out = String::new();
    push_str(&mut out, "<pre class=\"term-screen\" data-screen=\"");
    push_str(&mut out, screen);
    push_str(&mut out, "\" role=\"img\" aria-label=\"");
    push_str(&mut out, label);
    push_str(&mut out, "\"");
    if hidden {
        push_str(&mut out, " hidden");
    }
    push_str(&mut out, ">");
    let ghost head = out@;
    proof {
        assert(head =~= pre_open(screen@, label@, hidden));
    }
    let mut y: usize = 0;
    while y < rows.len()
        invariant
            y <= rows.len(),
            out@ == head + rows_html(rows@.take(y as int)),
        decreases rows.len() - y,
    {
        push_line(&mut out, &rows[y]);
        push_str(&mut out, "\n");
        proof {
            assert(rows@.take(y + 1).drop_last() =~= rows@.take(y as int));
            assert(out@ =~= head + rows_html(rows@.take(y + 1)));
        }
        y = y + 1;
    }
    push_str(&mut out, "</pre>");
    proof {
        assert(rows@.take(y as int) =~= rows@);
        assert(out@ =~= screen_html_text(rows@, screen@, label@, hidden));
    }
    out
}

} // verus!
