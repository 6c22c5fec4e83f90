//! Output formats and the rendering of results and errors.

use vstd::prelude::*;
use vstd::string::*;
use crate::sso::{hex_value, is_hex_digit};
use crate::text::{
    concat_map, digit, digit_char, lemma_concat_map_take, lemma_take_full, chars_of, push_char,
};

verus! {

/// Output format for the commands.
#[derive(Debug, Clone, Copy, PartialEq, Eq, Structural)]
pub enum OutputFormat {
    /// Human-readable markdown (the default).
    Markdown,
    /// Machine-readable JSON.
    Json,
}

impl Default for OutputFormat {
    fn default() -> (f: Self)
        ensures
            f == OutputFormat::Markdown,
    {
        OutputFormat::Markdown
    }
}

/// Results that can be rendered as markdown.
pub trait Render {
    /// The markdown text of the result.
    spec fn markdown(&self) -> Seq<char>;

    /// Renders the result as markdown.
    fn to_markdown(&self) -> (res: String)
        ensures
            res@ == self.markdown(),
    ;
}

/// A hexadecimal digit, in lower case.
pub open spec fn hex_digit_char(d: nat) -> char {
    if d < 10 {
        digit_char(d)
    } else if d == 10 {
        'a'
    } else if d == 11 {
        'b'
    } else if d == 12 {
        'c'
    } else if d == 13 {
        'd'
    } else if d == 14 {
        'e'
    } else {
        'f'
    }
}

/// The characters that a JSON string cannot hold as they are: the double
/// quote, the backslash and the control characters below U+0020.
pub open spec fn needs_escape(c: char) -> bool {
    c == '"' || c == '\\' || (c as nat) < 32
}

/// One character of an error message inside a JSON string: a double quote
/// and a backslash gain a backslash before them, newline, carriage return
/// and tab become `\n`, `\r` and `\t`, other control characters become
/// `\u00XX`, and every other character stays as it is.
pub open spec fn escaped_char(c: char) -> Seq<char> {
    if c == '"' {
        seq!['\\', '"']
    } else if c == '\\' {
        seq!['\\', '\\']
    } else if c == '\n' {
        seq!['\\', 'n']
    } else if c == '\r' {
        seq!['\\', 'r']
    } else if c == '\t' {
        seq!['\\', 't']
    } else if (c as nat) < 32 {
        seq!['\\', 'u', '0', '0', hex_digit_char(c as nat / 16), hex_digit_char(c as nat % 16)]
    } else {
        seq![c]
    }
}

/// The message as the contents of a JSON string.
pub open spec fn json_string_contents(s: Seq<char>) -> Seq<char> {
    concat_map(s, |c: char| escaped_char(c))
}

fn hex_digit(d: u32) -> (c: char)
    requires
        d < 16,
    ensures
        c == hex_digit_char(d as nat),
{
    if d < 10 {
        digit(d as u64)
    } else if d == 10 {
        'a'
    } else if d == 11 {
        'b'
    } else if d == 12 {
        'c'
    } else if d == 13 {
        'd'
    } else if d == 14 {
        'e'
    } else {
        'f'
    }
}

/// Appends the JSON form of one character.
fn push_escaped(line: &mut String, c: char)
    ensures
        final(line)@ == old(line)@ + escaped_char(c),
{
    if c == '"' {
        push_char(line, '\\');
        push_char(line, '"');
    } else if c == '\\' {
        push_char(line, '\\');
        push_char(line, '\\');
    } else if c == '\n' {
        push_char(line, '\\');
        push_char(line, 'n');
    } else if c == '\r' {
        push_char(line, '\\');
        push_char(line, 'r');
    } else if c == '\t' {
        push_char(line, '\\');
        push_char(line, 't');
    } else if (c as u32) < 32 {
        let v = c as u32;
        push_char(line, '\\');
        push_char(line, 'u');
        push_char(line, '0');
        push_char(line, '0');
        push_char(line, hex_digit(v / 16));
        push_char(line, hex_digit(v % 16));
    } else {
        push_char(line, c);
    }
    assert(final(line)@ =~= old(line)@ + escaped_char(c));
}

/// A message without characters that need escaping goes into the JSON
/// string as it is.
pub proof fn lemma_escape_keeps_plain_text(s: Seq<char>)
    requires
        forall|i: int| 0 <= i < s.len() ==> !needs_escape(s[i]),
    ensures
        json_string_contents(s) == s,
    decreases s.len(),
{
    if s.len() > 0 {
        let t = s.drop_last();
        assert forall|i: int| 0 <= i < t.len() implies !needs_escape(t[i]) by {
            assert(t[i] == s[i]);
        }
        lemma_escape_keeps_plain_text(t);
        assert(s[s.len() - 1] == s.last());
        assert(t.push(s.last()) =~= s);
        assert(escaped_char(s.last()) =~= seq![s.last()]);
    }
}

/// `c` in front of the text that `o` holds, if it holds one.
pub open spec fn prepend(c: char, o: Option<Seq<char>>) -> Option<Seq<char>> {
    match o {
        Some(t) => Some(seq![c] + t),
        None => None,
    }
}

/// The character that a one-letter escape `\e` of a JSON string stands for.
pub open spec fn short_escape(e: char) -> Option<char> {
    if e == '"' {
        Some('"')
    } else if e == '\\' {
        Some('\\')
    } else if e == '/' {
        Some('/')
    } else if e == 'b' {
        Some('\u{8}')
    } else if e == 'f' {
        Some('\u{c}')
    } else if e == 'n' {
        Some('\n')
    } else if e == 'r' {
        Some('\r')
    } else if e == 't' {
        Some('\t')
    } else {
        None
    }
}

/// The value of the four hexadecimal digits of a `\uXXXX` escape at the
/// start of `t`.
pub open spec fn unicode_escape_value(t: Seq<char>) -> nat {
    4096 * hex_value(t[2]) + 256 * hex_value(t[3]) + 16 * hex_value(t[4]) + hex_value(t[5])
}

/// The text that the body of a JSON string (what stands between its
/// quotes) stands for, read as the JSON grammar says: a character other
/// than a double quote, a backslash or a control character stands for
/// itself, `\"`, `\\`, `\/`, `\b`, `\f`, `\n`, `\r`, `\t` for one
/// character each, and `\uXXXX` for the character with that code; `None`
/// where the body is not valid.  A `\uXXXX` of a surrogate half, which
/// stands for a character only as one of a pair, is not read here (`None`).
pub open spec fn json_string_body(t: Seq<char>) -> Option<Seq<char>>
    decreases t.len(),
{
    if t.len() == 0 {
        Some(Seq::empty())
    } else if t[0] == '"' || (t[0] as nat) < 32 {
        None
    } else if t[0] != '\\' {
        prepend(t[0], json_string_body(t.skip(1)))
    } else if t.len() < 2 {
        None
    } else if short_escape(t[1]) is Some {
        prepend(short_escape(t[1])->0, json_string_body(t.skip(2)))
    } else if t[1] == 'u' && t.len() >= 6 && is_hex_digit(t[2]) && is_hex_digit(t[3]) && is_hex_digit(
        t[4],
    ) && is_hex_digit(t[5]) && !(0xD800 <= unicode_escape_value(t) < 0xE000) {
        prepend(unicode_escape_value(t) as char, json_string_body(t.skip(6)))
    } else {
        None
    }
}

proof fn lemma_hex_digit_char(d: nat)
    requires
        d < 16,
    ensures
        is_hex_digit(hex_digit_char(d)),
        hex_value(hex_digit_char(d)) == d,
{
}

/// Reading one escaped character back.
proof fn lemma_read_escaped_char(c: char, rest: Seq<char>)
    ensures
        json_string_body(escaped_char(c) + rest) == prepend(c, json_string_body(rest)),
{
    let t = escaped_char(c) + rest;
    let k = escaped_char(c).len();
    assert(t.skip(k as int) =~= rest);
    if (c as nat) < 32 && c != '\n' && c != '\r' && c != '\t' {
        let n = c as nat;
        lemma_hex_digit_char(n / 16);
        lemma_hex_digit_char(n % 16);
        assert(t[2] == '0' && t[3] == '0');
        assert(unicode_escape_value(t) == n);
        assert((n as char) == c);
    }
}

/// The JSON form of a message starts with the JSON form of its first
/// character.
proof fn lemma_contents_front(s: Seq<char>)
    requires
        s.len() > 0,
    ensures
        json_string_contents(s) == escaped_char(s[0]) + json_string_contents(s.skip(1)),
    decreases s.len(),
{
    let f = |c: char| escaped_char(c);
    if s.len() == 1 {
        assert(s.drop_last() =~= Seq::<char>::empty());
        assert(s.skip(1) =~= Seq::<char>::empty());
        assert(escaped_char(s[0]) + Seq::<char>::empty() =~= escaped_char(s[0]));
    } else {
        let t = s.drop_last();
        lemma_contents_front(t);
        assert(t.skip(1) =~= s.skip(1).drop_last());
        assert(s.skip(1).last() == s.last());
        assert(t[0] == s[0]);
        assert(json_string_contents(s) == json_string_contents(t) + f(s.last()));
        assert(json_string_contents(s.skip(1)) == json_string_contents(s.skip(1).drop_last()) + f(
            s.skip(1).last(),
        ));
        assert(escaped_char(s[0]) + json_string_contents(t.skip(1)) + f(s.last()) =~= escaped_char(s[0])
            + (json_string_contents(t.skip(1)) + f(s.last())));
    }
}

/// An error printed in JSON reads back as the message: the text between
/// the quotes of the `error` field is a valid JSON string body, and it
/// stands for exactly the message.
pub proof fn lemma_json_error_reads_back(error: Seq<char>)
    ensures
        json_string_body(json_string_contents(error)) == Some(error),
    decreases error.len(),
{
    if error.len() == 0 {
        assert(json_string_contents(error) =~= Seq::<char>::empty());
    } else {
        lemma_contents_front(error);
        lemma_json_error_reads_back(error.skip(1));
        lemma_read_escaped_char(error[0], json_string_contents(error.skip(1)));
        assert(seq![error[0]] + error.skip(1) =~= error);
    }
}

/// The line that reports an error in the given format.
pub open spec fn error_line(error: Seq<char>, format: OutputFormat) -> Seq<char> {
    match format {
        OutputFormat::Markdown => "Error: "@ + error,
        OutputFormat::Json => "{\"error\": \""@ + json_string_contents(error) + "\"}"@,
    }
}

/// The line that reports `error` in `format`: `Error: ...` in markdown, a
/// JSON object with an `error` field otherwise.
pub fn render_error(error: &str, format: OutputFormat) -> (line: String)
    ensures
        line@ == error_line(error@, format),
{
    match format {
        OutputFormat::Markdown => {
            let mut line = "Error: ".to_string();
            line.append(error);
            line
        },
        OutputFormat::Json => {
            let mut line = "{\"error\": \"".to_string();
            let cs = chars_of(error);
            let ghost start = line@;
            let mut i: usize = 0;
            while i < cs.len()
                invariant
                    i <= cs@.len(),
                    line@ == start + concat_map(cs@.take(i as int), |c: char| escaped_char(c)),
                decreases cs@.len() - i,
            {
                push_escaped(&mut line, cs[i]);
                proof {
                    lemma_concat_map_take(cs@, |c: char| escaped_char(c), i as int);
                }
                i = i + 1;
            }
            proof {
                lemma_take_full(cs@);
            }
            line.append("\"}");
            line
        },
    }
}

} // verus!
