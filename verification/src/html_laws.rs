//! Properties of the HTML rendering: escaping and whole screens.
use crate::html::{
    cell_class, is_white_space, line_html, line_rest, pre_open, rows_html, run_html, screen_html_text, tint_names,
    trimmed_end, with_part, StyledCell, Tint,
};
use crate::text::{escape_char, escape_text, is_braille};
use vstd::prelude::*;

verus! {

/// How many times the tag `<i>` opens in `t`.
pub open spec fn italic_opens(t: Seq<char>) -> nat
    decreases t.len(),
{
    if t.len() < 3 {
        0
    } else {
        italic_opens(t.drop_last()) + if t[t.len() - 3] == '<' && t[t.len() - 2] == 'i' && t[t.len() - 1]
            == '>' {
            1nat
        } else {
            0nat
        }
    }
}

/// How many Braille characters `s` holds.
pub open spec fn braille_count(s: Seq<char>) -> nat
    decreases s.len(),
{
    if s.len() == 0 {
        0
    } else {
        braille_count(s.drop_last()) + if is_braille(s.last()) {
            1nat
        } else {
            0nat
        }
    }
}

/// `t` ends in the middle of what could be an `<i>` tag: with `<` or `<i`.
spec fn open_tail(t: Seq<char>) -> bool {
    ||| (t.len() >= 1 && t[t.len() - 1] == '<')
    ||| (t.len() >= 2 && t[t.len() - 2] == '<' && t[t.len() - 1] == 'i')
}

proof fn lemma_opens_concat(a: Seq<char>, b: Seq<char>)
    requires
        !open_tail(a),
    ensures
        italic_opens(a + b) == italic_opens(a) + italic_opens(b),
    decreases b.len(),
{
    if b.len() == 0 {
        assert(a + b =~= a);
    } else {
        let ab = a + b;
        assert(ab.drop_last() =~= a + b.drop_last());
        lemma_opens_concat(a, b.drop_last());
        let n = ab.len();
        if b.len() >= 3 {
            assert(ab[n - 1] == b[b.len() - 1]);
            assert(ab[n - 2] == b[b.len() - 2]);
            assert(ab[n - 3] == b[b.len() - 3]);
        } else if b.len() == 2 {
            assert(italic_opens(b.drop_last()) == 0);
            if n >= 3 {
                assert(ab[n - 3] == a[a.len() - 1]);
            }
        } else {
            assert(italic_opens(b) == 0);
            if n >= 3 {
                assert(ab[n - 3] == a[a.len() - 2]);
                assert(ab[n - 2] == a[a.len() - 1]);
            }
        }
    }
}

proof fn lemma_escape_char_facts(c: char)
    ensures
        italic_opens(escape_char(c)) == if is_braille(c) {
            1nat
        } else {
            0nat
        },
        escape_char(c).len() >= 1,
        escape_char(c).last() != '<',
        escape_char(c).len() >= 2 ==> escape_char(c)[escape_char(c).len() - 2] != '<',
        escape_char(c).len() == 1 ==> escape_char(c)[0] == c,
{
    reveal_strlit("&amp;");
    reveal_strlit("&lt;");
    reveal_strlit("&gt;");
    reveal_strlit("<i>");
    reveal_strlit("</i>");
    reveal_with_fuel(italic_opens, 8);
    let e = escape_char(c);
    if is_braille(c) {
        let t = "<i>"@ + seq![c] + "</i>"@;
        assert(t =~= seq!['<', 'i', '>', c, '<', '/', 'i', '>']);
        assert(t.drop_last() =~= seq!['<', 'i', '>', c, '<', '/', 'i']);
        assert(t.drop_last().drop_last() =~= seq!['<', 'i', '>', c, '<', '/']);
        assert(t.drop_last().drop_last().drop_last() =~= seq!['<', 'i', '>', c, '<']);
        assert(t.drop_last().drop_last().drop_last().drop_last() =~= seq!['<', 'i', '>', c]);
        assert(t.drop_last().drop_last().drop_last().drop_last().drop_last() =~= seq!['<', 'i', '>']);
    } else if c == '&' {
        assert(e =~= seq!['&', 'a', 'm', 'p', ';']);
        assert(e.drop_last() =~= seq!['&', 'a', 'm', 'p']);
        assert(e.drop_last().drop_last() =~= seq!['&', 'a', 'm']);
    } else if c == '<' {
        assert(e =~= seq!['&', 'l', 't', ';']);
        assert(e.drop_last() =~= seq!['&', 'l', 't']);
    } else if c == '>' {
        assert(e =~= seq!['&', 'g', 't', ';']);
        assert(e.drop_last() =~= seq!['&', 'g', 't']);
    }
}

proof fn lemma_escape_tail(s: Seq<char>)
    ensures
        !open_tail(escape_text(s)),
    decreases s.len(),
{
    if s.len() > 0 {
        let init = s.drop_last();
        lemma_escape_tail(init);
        lemma_escape_char_facts(s.last());
        let a = escape_text(init);
        let e = escape_char(s.last());
        let t = a + e;
        assert(escape_text(s) == t);
        assert(t[t.len() - 1] == e[e.len() - 1]);
        if e.len() >= 2 {
            assert(t[t.len() - 2] == e[e.len() - 2]);
        } else if a.len() >= 1 {
            assert(t[t.len() - 2] == a[a.len() - 1]);
        }
    }
}

/// Escaping opens exactly one `<i>` tag per Braille character of the text.
pub proof fn law_escape_wraps_each_braille(s: Seq<char>)
    ensures
        italic_opens(escape_text(s)) == braille_count(s),
    decreases s.len(),
{
    if s.len() > 0 {
        let init = s.drop_last();
        law_escape_wraps_each_braille(init);
        lemma_escape_tail(init);
        lemma_escape_char_facts(s.last());
        lemma_opens_concat(escape_text(init), escape_char(s.last()));
    }
}

/// How many line breaks `t` holds.
pub open spec fn newlines(t: Seq<char>) -> nat
    decreases t.len(),
{
    if t.len() == 0 {
        0
    } else {
        newlines(t.drop_last()) + if t.last() == '\n' {
            1nat
        } else {
            0nat
        }
    }
}

/// `t` holds no line break.
pub open spec fn no_newline(t: Seq<char>) -> bool {
    forall|i: int| 0 <= i < t.len() ==> t[i] != '\n'
}

proof fn lemma_newlines_concat(a: Seq<char>, b: Seq<char>)
    ensures
        newlines(a + b) == newlines(a) + newlines(b),
    decreases b.len(),
{
    if b.len() == 0 {
        assert(a + b =~= a);
    } else {
        assert((a + b).drop_last() =~= a + b.drop_last());
        lemma_newlines_concat(a, b.drop_last());
    }
}

proof fn lemma_no_newline_count(t: Seq<char>)
    requires
        no_newline(t),
    ensures
        newlines(t) == 0,
    decreases t.len(),
{
    if t.len() > 0 {
        lemma_no_newline_count(t.drop_last());
    }
}

proof fn lemma_escape_no_newline(t: Seq<char>)
    requires
        no_newline(t),
    ensures
        no_newline(escape_text(t)),
    decreases t.len(),
{
    if t.len() > 0 {
        let init = t.drop_last();
        lemma_escape_no_newline(init);
        let c = t.last();
        assert(c != '\n');
        reveal_strlit("&amp;");
        reveal_strlit("&lt;");
        reveal_strlit("&gt;");
        reveal_strlit("<i>");
        reveal_strlit("</i>");
        let e = escape_char(c);
        assert(no_newline(e));
        assert(escape_text(t) == escape_text(init) + e);
    }
}

proof fn lemma_trimmed_prefix(t: Seq<char>)
    ensures
        trimmed_end(t).len() <= t.len(),
        trimmed_end(t) == t.subrange(0, trimmed_end(t).len() as int),
    decreases t.len(),
{
    if t.len() > 0 && is_white_space(t.last()) {
        lemma_trimmed_prefix(t.drop_last());
    } else {
        assert(t.subrange(0, t.len() as int) =~= t);
    }
}

proof fn lemma_class_no_newline(c: StyledCell)
    ensures
        no_newline(cell_class(c)),
{
    reveal_strlit("f-");
    reveal_strlit("b-");
    reveal_strlit("bold");
    reveal_strlit("ul");
    reveal_strlit(" ");
    reveal_strlit("black");
    reveal_strlit("red");
    reveal_strlit("green");
    reveal_strlit("yellow");
    reveal_strlit("blue");
    reveal_strlit("magenta");
    reveal_strlit("cyan");
    reveal_strlit("gray");
    reveal_strlit("darkgray");
    reveal_strlit("lightred");
    reveal_strlit("white");
    assert forall|t: Tint| (#[trigger] tint_names(t)) is Some implies no_newline(tint_names(t)->0@) by {
        match t {
            Tint::Black => {},
            Tint::Red => {},
            Tint::Green => {},
            Tint::Yellow => {},
            Tint::Blue => {},
            Tint::Magenta => {},
            Tint::Cyan => {},
            Tint::Gray => {},
            Tint::DarkGray => {},
            Tint::LightRed => {},
            Tint::White => {},
            Tint::Other => {},
        }
    }
    let a = match tint_names(c.fg) {
        Some(n) => "f-"@ + n@,
        None => Seq::empty(),
    };
    assert(no_newline(a));
    let b = match tint_names(c.bg) {
        Some(n) => with_part(a, "b-"@ + n@),
        None => a,
    };
    assert(no_newline(b));
    let d = if c.bold {
        with_part(b, "bold"@)
    } else {
        b
    };
    assert(no_newline(d));
    assert(no_newline(if c.underlined {
        with_part(d, "ul"@)
    } else {
        d
    }));
}

/// The cells' symbols hold no line break.
pub open spec fn cells_without_newline(cells: Seq<StyledCell>) -> bool {
    forall|k: int| 0 <= k < cells.len() ==> no_newline(#[trigger] cells[k].symbol@)
}

proof fn lemma_run_no_newline(class: Seq<char>, text: Seq<char>)
    requires
        no_newline(class),
        no_newline(text),
    ensures
        no_newline(run_html(class, text)),
{
    reveal_strlit("<span class=\"");
    reveal_strlit("\">");
    reveal_strlit("</span>");
    lemma_escape_no_newline(text);
}

proof fn lemma_line_no_newline(cells: Seq<StyledCell>, class: Seq<char>, text: Seq<char>)
    requires
        cells_without_newline(cells),
        no_newline(class),
        no_newline(text),
    ensures
        no_newline(line_rest(cells, class, text)),
    decreases cells.len(),
{
    if cells.len() == 0 {
        lemma_trimmed_prefix(text);
        lemma_run_no_newline(class, text);
        lemma_run_no_newline(class, trimmed_end(text));
    } else {
        let rest = cells.drop_first();
        assert forall|k: int| 0 <= k < rest.len() implies no_newline(#[trigger] rest[k].symbol@) by {
            assert(rest[k] == cells[k + 1]);
        }
        let sym = cells[0].symbol@;
        assert(no_newline(sym));
        let c = cell_class(cells[0]);
        lemma_class_no_newline(cells[0]);
        if c != class {
            lemma_run_no_newline(class, text);
            lemma_line_no_newline(rest, c, sym);
        } else {
            lemma_line_no_newline(rest, class, text + sym);
        }
    }
}

/// Every row's cells hold no line break.
pub open spec fn rows_without_newline(rows: Seq<Vec<StyledCell>>) -> bool {
    forall|y: int| 0 <= y < rows.len() ==> cells_without_newline(#[trigger] rows[y]@)
}

proof fn lemma_rows_newlines(rows: Seq<Vec<StyledCell>>)
    requires
        rows_without_newline(rows),
    ensures
        newlines(rows_html(rows)) == rows.len(),
    decreases rows.len(),
{
    if rows.len() > 0 {
        let init = rows.drop_last();
        assert forall|y: int| 0 <= y < init.len() implies cells_without_newline(#[trigger] init[y]@) by {
            assert(init[y] == rows[y]);
        }
        lemma_rows_newlines(init);
        assert(cells_without_newline(rows.last()@)) by {
            assert(rows.last() == rows[rows.len() - 1]);
        }
        lemma_line_no_newline(rows.last()@, Seq::empty(), Seq::empty());
        let line = line_html(rows.last()@);
        lemma_no_newline_count(line);
        reveal_strlit("\n");
        lemma_newlines_concat(rows_html(init), line);
        lemma_newlines_concat(rows_html(init) + line, "\n"@);
        reveal_with_fuel(newlines, 2);
    }
}

/// A rendered screen opens with its `<pre>` tag (naming the screen, describing it, hidden
/// when asked), closes with `</pre>`, and holds one line per row of cells: as many line
/// breaks as rows, when no cell, name or description holds one of its own.
pub proof fn law_html_screen_shape(rows: Seq<Vec<StyledCell>>, screen: Seq<char>, label: Seq<char>, hidden: bool)
    requires
        rows_without_newline(rows),
        no_newline(screen),
        no_newline(label),
    ensures
        screen_html_text(rows, screen, label, hidden).subrange(0, pre_open(screen, label, hidden).len() as int)
            == pre_open(screen, label, hidden),
        pre_open(screen, label, hidden) == "<pre class=\"term-screen\" data-screen=\""@ + screen
            + "\" role=\"img\" aria-label=\""@ + label + "\""@ + (if hidden {
            " hidden"@
        } else {
            Seq::empty()
        }) + ">"@,
        screen_html_text(rows, screen, label, hidden).len() >= 6,
        screen_html_text(rows, screen, label, hidden).subrange(
            screen_html_text(rows, screen, label, hidden).len() - 6,
            screen_html_text(rows, screen, label, hidden).len() as int,
        ) == "</pre>"@,
        newlines(screen_html_text(rows, screen, label, hidden)) == rows.len(),
{
    let head = pre_open(screen, label, hidden);
    let body = rows_html(rows);
    let out = screen_html_text(rows, screen, label, hidden);
    reveal_strlit("</pre>");
    reveal_strlit("<pre class=\"term-screen\" data-screen=\"");
    reveal_strlit("\" role=\"img\" aria-label=\"");
    reveal_strlit("\"");
    reveal_strlit(" hidden");
    reveal_strlit(">");
    assert(out == head + body + "</pre>"@);
    assert(out.subrange(0, head.len() as int) =~= head);
    assert(out.subrange(out.len() - 6, out.len() as int) =~= "</pre>"@);
    assert(no_newline(head));
    lemma_no_newline_count(head);
    lemma_no_newline_count("</pre>"@);
    lemma_rows_newlines(rows);
    lemma_newlines_concat(head, body);
    lemma_newlines_concat(head + body, "</pre>"@);
}

} // verus!
