//! Quoting text as a JSON string literal, and the drivers' one-line JSON
//! reports.
use vstd::prelude::*;
use vstd::string::StringExecFns;
use crate::text::dec_nat;

verus! {

/// The lowercase hexadecimal digit of `d`.
pub open spec fn hex_digit(d: u32) -> char {
    if d < 10 {
        ((48 + d) as u8) as char
    } else {
        ((87 + d) as u8) as char
    }
}

/// The JSON escape of one character: quote, backslash, newline, carriage
/// return and tab get their short escapes, the other control characters
/// (below `0x20`) the form `\u00XX` in lowercase hexadecimal, and every
/// other character stands for itself.
pub open spec fn escape_char(c: char) -> Seq<char> {
    if c == '"' {
        seq!['\\', '"']
    } else if c == '\\' {
        seq!['\\', '\\']
    } else if c == '\n' {
        seq!['\\', 'n']
    } else if c == '\r' {
        seq!['\\', 'r']
    } else if c == '\t' {
        seq!['\\', 't']
    } else if (c as u32) < 0x20 {
        seq!['\\', 'u', '0', '0', hex_digit((c as u32) / 16), hex_digit((c as u32) % 16)]
    } else {
        seq![c]
    }
}

/// The JSON escapes of all characters of `s`, in order.
pub open spec fn escape_all(s: Seq<char>) -> Seq<char>
    decreases s.len(),
{
    if s.len() == 0 {
        Seq::empty()
    } else {
        escape_all(s.drop_last()) + escape_char(s.last())
    }
}

/// `s` as a JSON string literal: escaped and put between double quotes.
pub open spec fn json_quoted(s: Seq<char>) -> Seq<char> {
    seq!['"'] + escape_all(s) + seq!['"']
}

/// The value of a hexadecimal digit, either case.
pub open spec fn hex_value(c: char) -> Option<u32> {
    let x = c as u32;
    if 48 <= x <= 57 {
        Some((x - 48) as u32)
    } else if 97 <= x <= 102 {
        Some((x - 87) as u32)
    } else if 65 <= x <= 70 {
        Some((x - 55) as u32)
    } else {
        None
    }
}

/// The character and the length of the escape sequence at the start of
/// `t`, which starts with a backslash.  A `\u` escape of a surrogate half is
/// not decoded.
pub open spec fn json_escape_at(t: Seq<char>) -> Option<(char, int)> {
    if t.len() < 2 {
        None
    } else {
        let e = t[1];
        if e == '"' {
            Some(('"', 2))
        } else if e == '\\' {
            Some(('\\', 2))
        } else if e == '/' {
            Some(('/', 2))
        } else if e == 'b' {
            Some(('\u{8}', 2))
        } else if e == 'f' {
            Some(('\u{c}', 2))
        } else if e == 'n' {
            Some(('\n', 2))
        } else if e == 'r' {
            Some(('\r', 2))
        } else if e == 't' {
            Some(('\t', 2))
        } else if e == 'u' && t.len() >= 6 && hex_value(t[2]) is Some && hex_value(t[3]) is Some
            && hex_value(t[4]) is Some && hex_value(t[5]) is Some {
            let v = 4096 * hex_value(t[2])->0 + 256 * hex_value(t[3])->0 + 16 * hex_value(t[4])->0
                + hex_value(t[5])->0;
            if v < 0xD800 || v > 0xDFFF {
                Some((v as char, 6))
            } else {
                None
            }
        } else {
            None
        }
    }
}

/// The text that the body of a JSON string literal (what stands between
/// its quotes) denotes, or `None` where the body is not valid: it holds an
/// unescaped quote or control character, or a malformed escape.
pub open spec fn json_unescape(t: Seq<char>) -> Option<Seq<char>>
    decreases t.len(),
{
    if t.len() == 0 {
        Some(Seq::empty())
    } else if t[0] == '\\' {
        match json_escape_at(t) {
            Some((c, n)) => if 2 <= n <= t.len() {
                match json_unescape(t.skip(n)) {
                    Some(r) => Some(seq![c] + r),
                    None => None,
                }
            } else {
                None
            },
            None => None,
        }
    } else if t[0] == '"' || (t[0] as u32) < 0x20 {
        None
    } else {
        match json_unescape(t.skip(1)) {
            Some(r) => Some(seq![t[0]] + r),
            None => None,
        }
    }
}

/// The text that a JSON string literal denotes, or `None` where `t` is not
/// one.
pub open spec fn json_unquote(t: Seq<char>) -> Option<Seq<char>> {
    if t.len() >= 2 && t[0] == '"' && t[t.len() - 1] == '"' {
        json_unescape(t.subrange(1, t.len() - 1))
    } else {
        None
    }
}

/// A character that stands for itself in a JSON string literal.
pub open spec fn json_plain(c: char) -> bool {
    c != '"' && c != '\\' && (c as u32) >= 0x20
}

/// Escaping distributes over concatenation.
proof fn lemma_escape_all_add(a: Seq<char>, b: Seq<char>)
    ensures
        escape_all(a + b) == escape_all(a) + escape_all(b),
    decreases b.len(),
{
    if b.len() == 0 {
        assert(a + b =~= a);
        assert(escape_all(a) + escape_all(b) =~= escape_all(a));
    } else {
        lemma_escape_all_add(a, b.drop_last());
        assert((a + b).drop_last() =~= a + b.drop_last());
        assert((a + b).last() == b.last());
        assert(escape_all(a) + escape_all(b) =~= escape_all(a) + escape_all(b.drop_last()) + escape_char(b.last()));
    }
}

/// Escaping a non-empty text: the escape of its first character, then the
/// escape of the rest.
proof fn lemma_escape_all_first(s: Seq<char>)
    requires
        s.len() > 0,
    ensures
        escape_all(s) == escape_char(s[0]) + escape_all(s.skip(1)),
{
    lemma_escape_all_add(seq![s[0]], s.skip(1));
    assert(seq![s[0]] + s.skip(1) =~= s);
    let one = seq![s[0]];
    assert(one.drop_last() =~= Seq::<char>::empty());
    assert(one.last() == s[0]);
    assert(escape_all(one.drop_last()) == Seq::<char>::empty());
    assert(escape_all(one) == escape_all(one.drop_last()) + escape_char(one.last()));
    assert(Seq::<char>::empty() + escape_char(s[0]) =~= escape_char(s[0]));
}

/// A hexadecimal digit that this crate writes reads back as its value.
proof fn lemma_hex_round_trip(d: u32)
    requires
        d < 16,
    ensures
        hex_value(hex_digit(d)) == Some(d),
{
    if d < 10 {
        assert(((48 + d) as u8) as char as u32 == 48 + d);
    } else {
        assert(((87 + d) as u8) as char as u32 == 87 + d);
    }
}

/// Decoding the escape of `c` followed by `r` gives `c` followed by what
/// `r` decodes to.
proof fn lemma_unescape_char(c: char, r: Seq<char>)
    ensures
        json_unescape(escape_char(c) + r) == match json_unescape(r) {
            Some(x) => Some(seq![c] + x),
            None => None::<Seq<char>>,
        },
{
    let t = escape_char(c) + r;
    let x = c as u32;
    if c == '"' || c == '\\' || c == '\n' || c == '\r' || c == '\t' {
        assert(t.skip(2) =~= r);
    } else if x < 0x20 {
        lemma_hex_round_trip(x / 16);
        lemma_hex_round_trip(x % 16);
        assert(t[2] == '0' && t[3] == '0');
        assert(hex_value('0') == Some(0u32));
        assert(t.skip(6) =~= r);
        assert(4096 * 0 + 256 * 0 + 16 * (x / 16) + x % 16 == x);
        assert((x as char) == c);
    } else {
        assert(t[0] == c);
        assert(t.skip(1) =~= r);
    }
}

/// Decoding what escaping `s` gives yields `s`.
proof fn lemma_unescape_escape_all(s: Seq<char>)
    ensures
        json_unescape(escape_all(s)) == Some(s),
    decreases s.len(),
{
    if s.len() == 0 {
    } else {
        lemma_escape_all_first(s);
        lemma_unescape_escape_all(s.skip(1));
        lemma_unescape_char(s[0], escape_all(s.skip(1)));
        assert(seq![s[0]] + s.skip(1) =~= s);
    }
}

/// Escaping writes no control character.
proof fn lemma_escape_all_no_control(s: Seq<char>)
    ensures
        forall|i: int| 0 <= i < escape_all(s).len() ==> (#[trigger] escape_all(s)[i] as u32) >= 0x20,
    decreases s.len(),
{
    if s.len() > 0 {
        let t = s.drop_last();
        lemma_escape_all_no_control(t);
        let c = s.last();
        let e = escape_char(c);
        if (c as u32) < 0x20 && c != '\n' && c != '\r' && c != '\t' {
            let x = c as u32;
            lemma_hex_round_trip(x / 16);
            lemma_hex_round_trip(x % 16);
        }
        assert forall|i: int| 0 <= i < e.len() implies (#[trigger] e[i] as u32) >= 0x20 by {}
        assert forall|i: int| 0 <= i < escape_all(s).len() implies (#[trigger] escape_all(s)[i] as u32) >= 0x20 by {
            if i >= escape_all(t).len() {
                assert(escape_all(s)[i] == e[i - escape_all(t).len()]);
            } else {
                assert(escape_all(s)[i] == escape_all(t)[i]);
            }
        }
    }
}

/// A text of plain characters escapes to itself.
proof fn lemma_escape_all_plain(s: Seq<char>)
    requires
        forall|i: int| 0 <= i < s.len() ==> json_plain(#[trigger] s[i]),
    ensures
        escape_all(s) == s,
    decreases s.len(),
{
    if s.len() > 0 {
        let t = s.drop_last();
        assert forall|i: int| 0 <= i < t.len() implies json_plain(#[trigger] t[i]) by {
            assert(t[i] == s[i]);
        }
        lemma_escape_all_plain(t);
        assert(json_plain(s[s.len() - 1]));
        assert(t.push(s.last()) =~= s);
    }
}

/// JSON quoting can be undone: the quoted text is a JSON string literal
/// that denotes exactly the original text, it holds no control character,
/// and a text of plain characters is only put between quotes.
pub proof fn lemma_json_round_trip(s: Seq<char>)
    ensures
        json_unquote(json_quoted(s)) == Some(s),
        json_quoted(s)[0] == '"',
        json_quoted(s)[json_quoted(s).len() - 1] == '"',
        forall|i: int| 0 <= i < json_quoted(s).len() ==> (#[trigger] json_quoted(s)[i] as u32) >= 0x20,
        (forall|i: int| 0 <= i < s.len() ==> json_plain(#[trigger] s[i])) ==> json_quoted(s)
            == seq!['"'] + s + seq!['"'],
{
    let q = json_quoted(s);
    let e = escape_all(s);
    assert(q.subrange(1, q.len() - 1) =~= e);
    lemma_unescape_escape_all(s);
    lemma_escape_all_no_control(s);
    assert forall|i: int| 0 <= i < q.len() implies (#[trigger] q[i] as u32) >= 0x20 by {
        if 0 < i < q.len() - 1 {
            assert(q[i] == e[i - 1]);
        }
    }
    if forall|i: int| 0 <= i < s.len() ==> json_plain(#[trigger] s[i]) {
        lemma_escape_all_plain(s);
    }
}

/// `String::push`: appends the character to the end of the string.
#[verifier::external_body]
fn push_char(s: &mut String, c: char)
    ensures
        final(s)@ == old(s)@.push(c),
{
    s.push(c)
}

/// The lowercase hexadecimal digit of `d`.
fn hex_digit_char(d: u32) -> (c: char)
    requires
        d < 16,
    ensures
        c == hex_digit(d),
{
    if d < 10 {
        ((48 + d) as u8) as char
    } else {
        ((87 + d) as u8) as char
    }
}

/// Appends the JSON escape of `c` to `out`.
fn push_escaped(out: &mut String, c: char)
    ensures
        final(out)@ == old(out)@ + escape_char(c),
{
    let code = c as u32;
    if c == '"' {
        push_char(out, '\\');
        push_char(out, '"');
    } else if c == '\\' {
        push_char(out, '\\');
        push_char(out, '\\');
    } else if c == '\n' {
        push_char(out, '\\');
        push_char(out, 'n');
    } else if c == '\r' {
        push_char(out, '\\');
        push_char(out, 'r');
    } else if c == '\t' {
        push_char(out, '\\');
        push_char(out, 't');
    } else if code < 0x20 {
        push_char(out, '\\');
        push_char(out, 'u');
        push_char(out, '0');
        push_char(out, '0');
        push_char(out, hex_digit_char(code / 16));
        push_char(out, hex_digit_char(code % 16));
    } else {
        push_char(out, c);
    }
    assert(out@ =~= old(out)@ + escape_char(c));
}

/// `s` as a JSON string literal: escaped and put between double quotes.
pub fn json_str(s: &str) -> (res: String)
    ensures
        res@ == json_quoted(s@),
{
    broadcast use vstd::string::axiom_spec_iter;
    let mut out = String::new();
    push_char(&mut out, '"');
    let ghost chars = s@;
    for c in it: s.chars()
        invariant
            it.seq() == chars,
            out@ == seq!['"'] + escape_all(chars.take(it.index() as int)),
    {
        let ghost i = it.index() as int;
        assert(chars.take(i + 1).drop_last() =~= chars.take(i));
        push_escaped(&mut out, c);
    }
    assert(chars.take(chars.len() as int) =~= chars);
    push_char(&mut out, '"');
    out
}

/// A JSON string literal for the text, or `null` where there is none.
pub open spec fn json_or_null(t: Option<Seq<char>>) -> Seq<char> {
    match t {
        Some(x) => json_quoted(x),
        None => "null"@,
    }
}

/// The text of a borrowed string, if any.
pub open spec fn opt_text(t: Option<&str>) -> Option<Seq<char>> {
    match t {
        Some(x) => Some(x@),
        None => None,
    }
}

/// The one-line JSON report of a run: its status, the number of inputs, no
/// discards, the time in microseconds, the counterexample and the error (or
/// `null`), and the tool and property.
pub open spec fn report_text(
    tool: Seq<char>,
    property: Seq<char>,
    status: Seq<char>,
    inputs: u64,
    elapsed_us: u128,
    counterexample: Option<Seq<char>>,
    error: Option<Seq<char>>,
) -> Seq<char> {
    "{\"status\":"@ + json_quoted(status) + ",\"tests\":"@ + dec_nat(inputs as nat)
        + ",\"discards\":0,\"time\":"@ + json_quoted(dec_nat(elapsed_us as nat) + "us"@)
        + ",\"counterexample\":"@ + json_or_null(counterexample) + ",\"error\":"@ + json_or_null(error)
        + ",\"tool\":"@ + json_quoted(tool) + ",\"property\":"@ + json_quoted(property) + "}"@
}

/// The fields of a report line: the status, the count of inputs, no
/// discards, the time, then the counterexample field, which quotes the
/// counterexample (or is `null`), and the error field, which quotes the
/// error (or is `null`), each from its own argument alone, then the tool and
/// the property.
pub proof fn lemma_report_text_fields(
    tool: Seq<char>,
    property: Seq<char>,
    status: Seq<char>,
    inputs: u64,
    elapsed_us: u128,
    counterexample: Option<Seq<char>>,
    error: Option<Seq<char>>,
)
    ensures
        report_text(tool, property, status, inputs, elapsed_us, counterexample, error) == "{\"status\":"@ + json_quoted(status) + ",\"tests\":"@ + dec_nat(inputs as nat)
            + ",\"discards\":0,\"time\":"@ + json_quoted(dec_nat(elapsed_us as nat) + "us"@)
            + ",\"counterexample\":"@ + (match counterexample {
            Some(c) => json_quoted(c),
            None => "null"@,
        }) + ",\"error\":"@ + (match error {
            Some(x) => json_quoted(x),
            None => "null"@,
        }) + ",\"tool\":"@ + json_quoted(tool) + ",\"property\":"@ + json_quoted(property) + "}"@,
{
}

/// `ToString::to_string` of an integer: std writes it in decimal.
#[verifier::external_body]
fn decimal(n: u128) -> (s: String)
    ensures
        s@ == dec_nat(n as nat),
{
    n.to_string()
}

/// Appends `t` as a JSON string literal, or `null` where there is none.
fn push_json_or_null(out: &mut String, t: Option<&str>)
    ensures
        final(out)@ == old(out)@ + json_or_null(opt_text(t)),
{
    match t {
        Some(x) => {
            let q = json_str(x);
            out.append(q.as_str());
        },
        None => {
            out.append("null");
        },
    }
}

/// The one-line JSON report of a run.
pub fn report_line(
    tool: &str,
    property: &str,
    status: &str,
    inputs: u64,
    elapsed_us: u128,
    counterexample: Option<&str>,
    error: Option<&str>,
) -> (line: String)
    ensures
        line@ == report_text(tool@, property@, status@, inputs, elapsed_us, opt_text(counterexample), opt_text(error)),
        line@ == "{\"status\":"@ + json_quoted(status@) + ",\"tests\":"@ + dec_nat(inputs as nat)
                + ",\"discards\":0,\"time\":"@ + json_quoted(dec_nat(elapsed_us as nat) + "us"@)
                + ",\"counterexample\":"@ + (match counterexample {
                Some(c) => json_quoted(c@),
                None => "null"@,
            }) + ",\"error\":"@ + (match error {
                Some(x) => json_quoted(x@),
                None => "null"@,
            }) + ",\"tool\":"@ + json_quoted(tool@) + ",\"property\":"@ + json_quoted(property@) + "}"@,
{
    let mut out = String::new();
    out.append("{\"status\":");
    out.append(json_str(status).as_str());
    out.append(",\"tests\":");
    out.append(decimal(inputs as u128).as_str());
    out.append(",\"discards\":0,\"time\":");
    let mut time = decimal(elapsed_us);
    time.append("us");
    out.append(json_str(time.as_str()).as_str());
    out.append(",\"counterexample\":");
    push_json_or_null(&mut out, counterexample);
    out.append(",\"error\":");
    push_json_or_null(&mut out, error);
    out.append(",\"tool\":");
    out.append(json_str(tool).as_str());
    out.append(",\"property\":");
    out.append(json_str(property).as_str());
    out.append("}");
    assert(out@ =~= report_text(tool@, property@, status@, inputs, elapsed_us, opt_text(counterexample), opt_text(error)));
    proof {
        lemma_report_text_fields(tool@, property@, status@, inputs, elapsed_us, opt_text(counterexample), opt_text(error));
    }
    out
}

} // verus!
