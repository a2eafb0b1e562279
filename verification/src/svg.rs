//! SVG building blocks: text escaping, decimal numbers and the document
//! header with the embedded font.
use vstd::prelude::*;
use crate::text::{chars_of, string_of, push_char};
use base64::Engine;

verus! {

/// The escaped form of one character: the five XML special characters become
/// entities, every other character stays.
pub open spec fn escape_xml_char(c: char) -> Seq<char> {
    if c == '&' {
        "&amp;"@
    } else if c == '<' {
        "&lt;"@
    } else if c == '>' {
        "&gt;"@
    } else if c == '"' {
        "&quot;"@
    } else if c == '\'' {
        "&apos;"@
    } else {
        seq![c]
    }
}

/// Text escaped for XML, character by character.
pub open spec fn escape_xml_spec(s: Seq<char>) -> Seq<char>
    decreases s.len(),
{
    if s.len() == 0 {
        Seq::empty()
    } else {
        escape_xml_spec(s.drop_last()) + escape_xml_char(s.last())
    }
}

/// Escapes `&`, `<`, `>`, `"` and `'` as XML entities.
pub fn escape_xml(text: &str) -> (r: String)
    ensures
        r@ == escape_xml_spec(text@),
{
    let cs = chars_of(text);
    let mut out = String::new();
    let mut i: usize = 0;
    assert(cs@.take(0) =~= Seq::<char>::empty());
    while i < cs.len()
        invariant
            i <= cs@.len(),
            out@ == escape_xml_spec(cs@.take(i as int)),
        decreases cs@.len() - i,
    {
        let c = cs[i];
        proof {
            reveal_strlit("&amp;");
            reveal_strlit("&lt;");
            reveal_strlit("&gt;");
            reveal_strlit("&quot;");
            reveal_strlit("&apos;");
        }
        if c == '&' {
            out.append("&amp;");
        } else if c == '<' {
            out.append("&lt;");
        } else if c == '>' {
            out.append("&gt;");
        } else if c == '"' {
            out.append("&quot;");
        } else if c == '\'' {
            out.append("&apos;");
        } else {
            push_char(&mut out, c);
        }
        assert(cs@.take(i + 1).drop_last() =~= cs@.take(i as int));
        assert(cs@.take(i + 1).last() == c);
        i = i + 1;
    }
    assert(cs@.take(cs@.len() as int) =~= cs@);
    out
}

/// The decimal digit for `d < 10`.
pub open spec fn digit_char(d: int) -> char {
    if d == 0 {
        '0'
    } else if d == 1 {
        '1'
    } else if d == 2 {
        '2'
    } else if d == 3 {
        '3'
    } else if d == 4 {
        '4'
    } else if d == 5 {
        '5'
    } else if d == 6 {
        '6'
    } else if d == 7 {
        '7'
    } else if d == 8 {
        '8'
    } else {
        '9'
    }
}

/// The decimal representation of `n`, without leading zeros (`0` for zero).
pub open spec fn decimal_spec(n: nat) -> Seq<char>
    decreases n,
{
    if n < 10 {
        seq![digit_char(n as int)]
    } else {
        decimal_spec(n / 10).push(digit_char((n % 10) as int))
    }
}

fn digit(d: u64) -> (c: char)
    requires
        d < 10,
    ensures
        c == digit_char(d as int),
{
    if d == 0 {
        '0'
    } else if d == 1 {
        '1'
    } else if d == 2 {
        '2'
    } else if d == 3 {
        '3'
    } else if d == 4 {
        '4'
    } else if d == 5 {
        '5'
    } else if d == 6 {
        '6'
    } else if d == 7 {
        '7'
    } else if d == 8 {
        '8'
    } else {
        '9'
    }
}

/// Appends the decimal representation of `n`.
pub fn push_decimal(out: &mut String, n: u64)
    ensures
        final(out)@ == old(out)@ + decimal_spec(n as nat),
    decreases n,
{
    if n < 10 {
        push_char(out, digit(n));
        assert(old(out)@.push(digit_char(n as int)) =~= old(out)@ + seq![digit_char(n as int)]);
    } else {
        push_decimal(out, n / 10);
        push_char(out, digit(n % 10));
        assert(old(out)@ + decimal_spec((n / 10) as nat).push(digit_char((n % 10) as int)) =~= (old(out)@
            + decimal_spec((n / 10) as nat)).push(digit_char((n % 10) as int)));
    }
}

/// The standard base64 encoding (RFC 4648 alphabet, with `=` padding) of
/// `bytes`, as `base64::engine::general_purpose::STANDARD` produces it.
pub uninterp spec fn base64_standard_spec(bytes: Seq<u8>) -> Seq<char>;

/// The length of the padded encoding: four characters per started group of
/// three bytes.
pub open spec fn base64_padded_len(n: nat) -> int {
    n / 3 * 4 + if n % 3 > 0 { 4int } else { 0int }
}

/// `base64::Engine::encode` with the `STANDARD` engine. Its result is named and
/// its length stated (the source sizes the output buffer with `encoded_len`
/// and fills it); the encoding itself is not written out here. The call panics
/// when that length overflows `usize`, which `requires` rules out.
#[verifier::external_body]
fn base64_standard(bytes: &[u8]) -> (r: String)
    requires
        base64_padded_len(bytes@.len()) <= usize::MAX,
    ensures
        r@ == base64_standard_spec(bytes@),
        r@.len() == base64_padded_len(bytes@.len()),
{
    base64::engine::general_purpose::STANDARD.encode(bytes)
}

/// A capacity hint for an SVG that embeds the font: the size of the font's
/// base64 encoding, estimated as four thirds of its bytes.
pub fn roboto_capacity_hint(font: &[u8]) -> (r: usize)
    requires
        font@.len() * 4 <= usize::MAX,
    ensures
        r == font@.len() * 4 / 3,
{
    font.len() * 4 / 3
}

/// The opening of an SVG document of the given size, with the Roboto font
/// embedded as a base64 data URL and `extra_defs` appended inside `<defs>`.
pub open spec fn svg_open_spec(width: u32, height: u32, extra_defs: Seq<char>, font_base64: Seq<char>) -> Seq<char> {
    "<svg xmlns=\"http://www.w3.org/2000/svg\" width=\""@ + decimal_spec(width as nat) + "\" height=\""@
        + decimal_spec(height as nat) + "\" viewBox=\"0 0 "@ + decimal_spec(width as nat) + " "@
        + decimal_spec(height as nat)
        + "\">\n<defs>\n<style>\n@font-face {\n  font-family: 'Roboto';\n  src: url('data:font/ttf;base64,"@
        + font_base64 + "') format('truetype');\n}\n</style>\n"@ + extra_defs + "</defs>\n"@
}

/// Opens an SVG document of the given size whose `<defs>` embed `font` (TrueType)
/// as the `Roboto` font face and then hold `extra_defs`.
pub fn svg_open(width: u32, height: u32, extra_defs: &str, font: &[u8]) -> (r: String)
    requires
        base64_padded_len(font@.len()) <= usize::MAX,
    ensures
        r@ == svg_open_spec(width, height, extra_defs@, base64_standard_spec(font@)),
{
    let font_base64 = base64_standard(font);
    let mut s = String::new();
    s.append("<svg xmlns=\"http://www.w3.org/2000/svg\" width=\"");
    push_decimal(&mut s, width as u64);
    s.append("\" height=\"");
    push_decimal(&mut s, height as u64);
    s.append("\" viewBox=\"0 0 ");
    push_decimal(&mut s, width as u64);
    s.append(" ");
    push_decimal(&mut s, height as u64);
    s.append("\">\n<defs>\n<style>\n@font-face {\n  font-family: 'Roboto';\n  src: url('data:font/ttf;base64,");
    s.append(font_base64.as_str());
    s.append("') format('truetype');\n}\n</style>\n");
    s.append(extra_defs);
    s.append("</defs>\n");
    s
}

/// Escaped text holds none of `<`, `>`, `"` and `'`, so it can stand in an
/// attribute value or in element content.
pub proof fn escaped_has_no_markup(s: Seq<char>)
    ensures
        forall|i: int| 0 <= i < escape_xml_spec(s).len() ==> {
            let c = #[trigger] escape_xml_spec(s)[i];
            c != '<' && c != '>' && c != '"' && c != '\''
        },
    decreases s.len(),
{
    reveal_strlit("&amp;");
    reveal_strlit("&lt;");
    reveal_strlit("&gt;");
    reveal_strlit("&quot;");
    reveal_strlit("&apos;");
    if s.len() > 0 {
        escaped_has_no_markup(s.drop_last());
        let a = escape_xml_spec(s.drop_last());
        let b = escape_xml_char(s.last());
        assert forall|i: int| 0 <= i < (a + b).len() implies {
            let c = #[trigger] (a + b)[i];
            c != '<' && c != '>' && c != '"' && c != '\''
        } by {
            if i >= a.len() {
                assert((a + b)[i] == b[i - a.len()]);
            } else {
                assert((a + b)[i] == a[i]);
            }
        }
    }
}

} // verus!
