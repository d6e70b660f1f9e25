//! Text helpers: characters of a string, case folding, substring search and HTML escaping.
use vstd::prelude::*;
use vstd::std_specs::iter::IteratorSpec;

verus! {

broadcast use vstd::string::group_string_axioms;

/// Appends one character to a string with `String::push`. Trusted, not proved: the text
/// afterwards is the text before with the character added at the end.
#[verifier::external_body]
pub(crate) fn push_char(s: &mut String, c: char)
    ensures
        final(s)@ == old(s)@.push(c),
{
    s.push(c);
}

/// Removes the last character of a string, if any, with `String::pop`. Trusted, not proved:
/// a non-empty text loses its last character and an empty one stays empty.
#[verifier::external_body]
pub(crate) fn pop_char(s: &mut String)
    ensures
        final(s)@ == if old(s)@.len() > 0 {
            old(s)@.drop_last()
        } else {
            old(s)@
        },
{
    s.pop();
}

/// Appends a string slice to a string.
pub fn push_str(s: &mut String, t: &str)
    ensures
        final(s)@ == old(s)@ + t@,
{
    s.append(t);
}

/// The lowercase form of a text, as `str::to_lowercase` computes it (full Unicode case
/// mapping, which may change the length).
pub uninterp spec fn lowercase(s: Seq<char>) -> Seq<char>;

/// Lowercases a text with `str::to_lowercase`. Trusted, not proved: the result is the
/// lowercase form named `lowercase`, a function of the text alone; what that form is
/// character by character (Unicode's case mapping) is not stated here.
#[verifier::external_body]
pub(crate) fn to_lower(s: &str) -> (r: String)
    ensures
        r@ == lowercase(s@),
{
    s.to_lowercase()
}

/// The characters of a string, in order.
pub fn to_chars(s: &str) -> (v: Vec<char>)
    ensures
        v@ == s@,
{
    let mut v: Vec<char> = Vec::new();
    let mut it = s.chars();
    let ghost total = s@;
    loop
        invariant
            it.obeys_prophetic_iter_laws(),
            v@ + it.remaining() == total,
            total == s@,
            it.decrease() is Some,
        decreases it.decrease()->0,
    {
        let ghost before = it;
        match it.next() {
            Some(c) => {
                proof {
                    assert(v@.push(c) + it.remaining() =~= total);
                }
                v.push(c);
            },
            None => {
                proof {
                    assert(v@ =~= total);
                }
                return v;
            },
        }
    }
}

/// `needle` occurs in `hay` starting at position `i`.
pub open spec fn occurs_at(hay: Seq<char>, needle: Seq<char>, i: int) -> bool {
    0 <= i && i + needle.len() <= hay.len() && hay.subrange(i, i + needle.len()) == needle
}

/// `needle` occurs somewhere in `hay` (the empty text occurs everywhere).
pub open spec fn contains(hay: Seq<char>, needle: Seq<char>) -> bool {
    exists|i: int| occurs_at(hay, needle, i)
}

fn matches_at(hay: &Vec<char>, needle: &Vec<char>, i: usize) -> (r: bool)
    requires
        i + needle.len() <= hay.len(),
    ensures
        r == occurs_at(hay@, needle@, i as int),
{
    let mut k: usize = 0;
    while k < needle.len()
        invariant
            k <= needle.len(),
            i + needle.len() <= hay.len(),
            forall|j: int| 0 <= j < k ==> hay@[i + j] == needle@[j],
        decreases needle.len() - k,
    {
        if hay[i + k] != needle[k] {
            proof {
                assert(hay@.subrange(i as int, i + needle.len())[k as int] != needle@[k as int]);
            }
            return false;
        }
        k = k + 1;
    }
    proof {
        assert(hay@.subrange(i as int, i + needle.len()) =~= needle@);
    }
    true
}

/// Whether `needle` occurs in `hay`.
pub fn contains_chars(hay: &Vec<char>, needle: &Vec<char>) -> (r: bool)
    ensures
        r == contains(hay@, needle@),
{
    if needle.len() > hay.len() {
        return false;
    }
    let last = hay.len() - needle.len();
    let mut i: usize = 0;
    while i <= last
        invariant
            last == hay.len() - needle.len(),
            needle.len() <= hay.len(),
            forall|j: int| 0 <= j < i ==> !occurs_at(hay@, needle@, j),
        decreases last + 1 - i,
    {
        if matches_at(hay, needle, i) {
            return true;
        }
        if i == last {
            return false;
        }
        i = i + 1;
    }
    false
}

/// Whether the text `needle` occurs in the text `hay`.
pub fn contains_str(hay: &str, needle: &str) -> (r: bool)
    ensures
        r == contains(hay@, needle@),
{
    let h = to_chars(hay);
    let n = to_chars(needle);
    contains_chars(&h, &n)
}

/// Whether `needle` occurs in `hay` when both are lowercased.
pub fn contains_ignoring_case(hay: &str, needle: &str) -> (r: bool)
    ensures
        r == contains(lowercase(hay@), lowercase(needle@)),
{
    let h = to_lower(hay);
    let n = to_lower(needle);
    contains_str(h.as_str(), n.as_str())
}

/// Name fragments that mark a process as a background process.
pub open spec fn background_hints() -> Seq<Seq<char>> {
    seq![
        "service"@,
        "svchost"@,
        "daemon"@,
        "helper"@,
        "agent"@,
        "system"@,
        "registry"@,
        "crashpad"@,
        "com surrogate"@,
        "runtime broker"@,
        "window manager"@,
        "explorer"@,
    ]
}

pub open spec fn spec_is_background(name: Seq<char>) -> bool {
    exists|k: int| 0 <= k < background_hints().len() && contains(lowercase(name), #[trigger] background_hints()[k])
}

/// A process counts as a background process when its lowercased name contains one of the
/// hints ("service", "daemon", "helper", ...).
pub fn is_background_process(name: &str) -> (r: bool)
    ensures
        r == spec_is_background(name@),
{
    let lower = to_lower(name);
    let l = to_chars(lower.as_str());
    let hints: [&str; 12] = [
        "service",
        "svchost",
        "daemon",
        "helper",
        "agent",
        "system",
        "registry",
        "crashpad",
        "com surrogate",
        "runtime broker",
        "window manager",
        "explorer",
    ];
    let ghost hs = background_hints();
    proof {
        assert(forall|k: int| 0 <= k < 12 ==> #[trigger] hints@[k]@ == hs[k]);
    }
    let mut k: usize = 0;
    while k < 12
        invariant
            l@ == lowercase(name@),
            hs == background_hints(),
            forall|j: int| 0 <= j < 12 ==> #[trigger] hints@[j]@ == hs[j],
            forall|j: int| 0 <= j < k ==> !contains(l@, #[trigger] hs[j]),
        decreases 12 - k,
    {
        let h = to_chars(hints[k]);
        if contains_chars(&l, &h) {
            return true;
        }
        k = k + 1;
    }
    false
}

/// True for the Braille block, which the graphs are drawn with.
pub open spec fn is_braille(c: char) -> bool {
    '\u{2800}' <= c && c <= '\u{28FF}'
}

/// The HTML text for one character.
pub open spec fn escape_char(c: char) -> Seq<char> {
    if c == '&' {
        "&amp;"@
    } else if c == '<' {
        "&lt;"@
    } else if c == '>' {
        "&gt;"@
    } else if is_braille(c) {
        "<i>"@ + seq![c] + "</i>"@
    } else {
        seq![c]
    }
}

pub open spec fn escape_text(s: Seq<char>) -> Seq<char>
    decreases s.len(),
{
    if s.len() == 0 {
        Seq::empty()
    } else {
        escape_text(s.drop_last()) + escape_char(s.last())
    }
}

/// HTML-escapes `&`, `<` and `>`, and wraps each Braille character (the graphs) in `<i>`, so
/// that a page can pin those glyphs to one cell each.
pub fn escape(s: &str) -> (out: String)
    ensures
        out@ == escape_text(s@),
{
    let cs = to_chars(s);
    let mut out = String::new();
    let mut i: usize = 0;
    while i < cs.len()
        invariant
            i <= cs.len(),
            out@ == escape_text(cs@.subrange(0, i as int)),
        decreases cs.len() - i,
    {
        let c = cs[i];
        proof {
            assert(cs@.subrange(0, i + 1).drop_last() =~= cs@.subrange(0, i as int));
        }
        if c == '&' {
            push_str(&mut out, "&amp;");
        } else if c == '<' {
            push_str(&mut out, "&lt;");
        } else if c == '>' {
            push_str(&mut out, "&gt;");
        } else if '\u{2800}' <= c && c <= '\u{28FF}' {
            push_str(&mut out, "<i>");
            push_char(&mut out, c);
            push_str(&mut out, "</i>");
            proof {
                assert(out@ =~= escape_text(cs@.subrange(0, i as int)) + ("<i>"@ + seq![c] + "</i>"@));
            }
        } else {
            push_char(&mut out, c);
        }
        i = i + 1;
    }
    proof {
        assert(cs@.subrange(0, cs.len() as int) =~= cs@);
    }
    out
}

} // verus!
