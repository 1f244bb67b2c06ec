//! Language servers: which server handles which files, how messages are
//! framed, what the editor tells a server about its documents, and the
//! diagnostics the servers report.
use vstd::prelude::*;

use crate::paths::{extension_of, path_extension};
use crate::editor::{col_after_newline, count_char};
use crate::text::{chars_of, concat, is_white_space, push_char, str_eq, strip_prefix, trim, trim_end, trim_end_spec, trim_spec, trim_start_spec};

verus! {

/// How to start the language server for some file extensions.
pub struct ServerSpec {
    pub language_id: String,
    pub command: String,
    pub args: Vec<String>,
    pub extensions: Vec<String>,
}

impl Clone for ServerSpec {
    fn clone(&self) -> (r: Self)
        ensures
            r.language_id@ == self.language_id@,
            r.command@ == self.command@,
            r.args@.map_values(|s: String| s@) == self.args@.map_values(|s: String| s@),
            r.extensions@.map_values(|s: String| s@) == self.extensions@.map_values(|s: String| s@),
    {
        ServerSpec {
            language_id: self.language_id.clone(),
            command: self.command.clone(),
            args: clone_strings(&self.args),
            extensions: clone_strings(&self.extensions),
        }
    }
}

fn clone_strings(v: &Vec<String>) -> (r: Vec<String>)
    ensures
        r@.map_values(|s: String| s@) == v@.map_values(|s: String| s@),
{
    let mut r: Vec<String> = Vec::new();
    let mut i: usize = 0;
    while i < v.len()
        invariant
            i <= v.len(),
            r@.map_values(|s: String| s@) == v@.take(i as int).map_values(|s: String| s@),
        decreases v.len() - i,
    {
        let ghost prev = r@;
        let c = v[i].clone();
        assert(c@ == v@[i as int]@);
        r.push(c);
        assert(r@ == prev.push(c));
        assert(v@.take(i + 1) =~= v@.take(i as int).push(v@[i as int]));
        assert(r@.map_values(|s: String| s@) =~= prev.map_values(|s: String| s@).push(c@));
        assert(v@.take(i + 1).map_values(|s: String| s@) =~= v@.take(i as int).map_values(|s: String| s@).push(v@[i as int]@));
        i = i + 1;
    }
    assert(v@.take(v@.len() as int) =~= v@);
    r
}

/// The plain content of a server spec: language, command, arguments, extensions.
pub open spec fn spec_of(s: ServerSpec) -> (Seq<char>, Seq<char>, Seq<Seq<char>>, Seq<Seq<char>>) {
    (s.language_id@, s.command@, s.args@.map_values(|x: String| x@), s.extensions@.map_values(|x: String| x@))
}

/// The servers the editor knows: rust-analyzer, pylsp,
/// typescript-language-server, gopls and clangd.
pub open spec fn builtin_specs() -> Seq<(Seq<char>, Seq<char>, Seq<Seq<char>>, Seq<Seq<char>>)> {
    seq![
        ("rust"@, "rust-analyzer"@, seq![], seq!["rs"@]),
        ("python"@, "pylsp"@, seq![], seq!["py"@]),
        ("typescript"@, "typescript-language-server"@, seq!["--stdio"@], seq!["ts"@, "tsx"@, "js"@, "jsx"@]),
        ("go"@, "gopls"@, seq![], seq!["go"@]),
        ("c"@, "clangd"@, seq![], seq!["c"@, "h"@, "cpp"@, "hpp"@, "cc"@]),
    ]
}

fn new_strings() -> (v: Vec<String>)
    ensures
        v@.map_values(|s: String| s@) == Seq::<Seq<char>>::empty(),
{
    let v: Vec<String> = Vec::new();
    assert(v@.map_values(|s: String| s@) =~= Seq::<Seq<char>>::empty());
    v
}

fn push_str(v: &mut Vec<String>, x: &str)
    ensures
        final(v)@.map_values(|s: String| s@) == old(v)@.map_values(|s: String| s@).push(x@),
{
    let ghost prev = v@;
    v.push(String::from_str(x));
    assert(v@.map_values(|s: String| s@) =~= prev.map_values(|s: String| s@).push(x@));
}

/// The language servers the editor starts for known file extensions.
pub fn builtin_servers() -> (r: Vec<ServerSpec>)
    ensures
        r@.map_values(|s: ServerSpec| spec_of(s)) == builtin_specs(),
{
    let mut r: Vec<ServerSpec> = Vec::new();

    let mut ext = new_strings();
    push_str(&mut ext, "rs");
    r.push(ServerSpec { language_id: String::from_str("rust"), command: String::from_str("rust-analyzer"), args: new_strings(), extensions: ext });

    let mut ext = new_strings();
    push_str(&mut ext, "py");
    r.push(ServerSpec { language_id: String::from_str("python"), command: String::from_str("pylsp"), args: new_strings(), extensions: ext });

    let mut args = new_strings();
    push_str(&mut args, "--stdio");
    let mut ext = new_strings();
    push_str(&mut ext, "ts");
    push_str(&mut ext, "tsx");
    push_str(&mut ext, "js");
    push_str(&mut ext, "jsx");
    r.push(ServerSpec {
        language_id: String::from_str("typescript"),
        command: String::from_str("typescript-language-server"),
        args,
        extensions: ext,
    });

    let mut ext = new_strings();
    push_str(&mut ext, "go");
    r.push(ServerSpec { language_id: String::from_str("go"), command: String::from_str("gopls"), args: new_strings(), extensions: ext });

    let mut ext = new_strings();
    push_str(&mut ext, "c");
    push_str(&mut ext, "h");
    push_str(&mut ext, "cpp");
    push_str(&mut ext, "hpp");
    push_str(&mut ext, "cc");
    r.push(ServerSpec { language_id: String::from_str("c"), command: String::from_str("clangd"), args: new_strings(), extensions: ext });

    assert(spec_of(r@[0]) == builtin_specs()[0]);
    assert(spec_of(r@[1]) == builtin_specs()[1]);
    assert(spec_of(r@[2]) == builtin_specs()[2]);
    assert(spec_of(r@[3]) == builtin_specs()[3]);
    assert(spec_of(r@[4]) == builtin_specs()[4]);
    assert(r@.map_values(|s: ServerSpec| spec_of(s)) =~= builtin_specs());
    r
}

/// The language of the first server spec that lists extension `ext`.
pub open spec fn language_for_ext(specs: Seq<ServerSpec>, ext: Seq<char>) -> Option<Seq<char>>
    decreases specs.len(),
{
    if specs.len() == 0 {
        None
    } else if spec_of(specs[0]).3.contains(ext) {
        Some(specs[0].language_id@)
    } else {
        language_for_ext(specs.drop_first(), ext)
    }
}

fn lists_extension(spec: &ServerSpec, ext: &str) -> (r: bool)
    ensures
        r == spec_of(*spec).3.contains(ext@),
{
    let mut i: usize = 0;
    while i < spec.extensions.len()
        invariant
            i <= spec.extensions@.len(),
            forall|j: int| 0 <= j < i ==> spec.extensions@[j]@ != ext@,
        decreases spec.extensions@.len() - i,
    {
        if str_eq(spec.extensions[i].as_str(), ext) {
            assert(spec_of(*spec).3[i as int] == ext@);
            return true;
        }
        i = i + 1;
    }
    assert(!spec_of(*spec).3.contains(ext@)) by {
        if spec_of(*spec).3.contains(ext@) {
            let j = choose|j: int| 0 <= j < spec_of(*spec).3.len() && spec_of(*spec).3[j] == ext@;
            assert(spec.extensions@[j]@ == ext@);
        }
    }
    false
}

/// The language whose server handles files of extension `ext`.
pub fn language_for_extension(specs: &Vec<ServerSpec>, ext: &str) -> (r: Option<String>)
    ensures
        match r {
            Some(l) => language_for_ext(specs@, ext@) == Some(l@),
            None => language_for_ext(specs@, ext@) is None,
        },
{
    let mut i: usize = 0;
    assert(specs@.skip(0) =~= specs@);
    while i < specs.len()
        invariant
            i <= specs@.len(),
            language_for_ext(specs@, ext@) == language_for_ext(specs@.skip(i as int), ext@),
        decreases specs@.len() - i,
    {
        assert(specs@.skip(i as int).drop_first() =~= specs@.skip(i + 1));
        if lists_extension(&specs[i], ext) {
            return Some(specs[i].language_id.clone());
        }
        i = i + 1;
    }
    None
}

/// Decimal digits of `c`.
pub open spec fn is_digit(c: char) -> bool {
    '0' <= c && c <= '9'
}

/// Value of the decimal digits `s`.
pub open spec fn digits_value(s: Seq<char>) -> nat
    decreases s.len(),
{
    if s.len() == 0 {
        0
    } else {
        digits_value(s.drop_last()) * 10 + ((s.last() as int) - ('0' as int)) as nat
    }
}

/// What std's `usize::from_str` gives: an optional `+` then at least one
/// ASCII digit, and nothing else; `None` as well when the value does not fit.
pub open spec fn parse_usize_spec(s: Seq<char>) -> Option<usize> {
    let d = unsigned_part(s);
    if d.len() > 0 && all_digits(d) && digits_value(d) <= usize::MAX {
        Some(digits_value(d) as usize)
    } else {
        None
    }
}

/// `s` without its leading `+`, if any.
pub open spec fn unsigned_part(s: Seq<char>) -> Seq<char> {
    if s.len() > 0 && s[0] == '+' { s.drop_first() } else { s }
}

/// Every character of `d` is a decimal digit.
pub open spec fn all_digits(d: Seq<char>) -> bool {
    forall|i: int| 0 <= i < d.len() ==> is_digit(#[trigger] d[i])
}

/// The decimal writing of `n`, without leading zeros.
pub open spec fn decimal_of(n: nat) -> Seq<char>
    decreases n,
{
    if n < 10 {
        seq![((n + 48) as u32) as char]
    } else {
        decimal_of(n / 10).push((((n % 10) + 48) as u32) as char)
    }
}

proof fn lemma_digits_value_mono(s: Seq<char>, k: int)
    requires
        0 <= k <= s.len(),
        forall|i: int| 0 <= i < s.len() ==> is_digit(#[trigger] s[i]),
    ensures
        digits_value(s.take(k)) <= digits_value(s),
    decreases s.len() - k,
{
    if k < s.len() {
        assert(s.drop_last().take(k) =~= s.take(k));
        if k < s.len() - 1 {
            lemma_digits_value_mono(s.drop_last(), k);
        } else {
            assert(s.drop_last() =~= s.take(k));
        }
    } else {
        assert(s.take(k) =~= s);
    }
}

/// Parses a decimal `usize` (std's `str::parse::<usize>`).
pub fn parse_usize(s: &str) -> (r: Option<usize>)
    ensures
        r == parse_usize_spec(s@),
{
    let v = chars_of(s);
    let start: usize = if v.len() > 0 && v[0] == '+' { 1 } else { 0 };
    let ghost d = unsigned_part(s@);
    assert(d =~= v@.skip(start as int));
    if start >= v.len() {
        return None;
    }
    let mut value: usize = 0;
    let mut i: usize = start;
    while i < v.len()
        invariant
            v@ == s@,
            start <= i <= v.len(),
            d == v@.skip(start as int),
            d == unsigned_part(s@),
            forall|j: int| start <= j < i ==> is_digit(#[trigger] v@[j]),
            value == digits_value(v@.subrange(start as int, i as int)),
        decreases v.len() - i,
    {
        let c = v[i];
        if !('0' <= c && c <= '9') {
            assert(!is_digit(d[i - start]));
            return None;
        }
        let digit = (c as u32 - '0' as u32) as usize;
        assert(v@.subrange(start as int, i + 1).drop_last() =~= v@.subrange(start as int, i as int));
        if value > (usize::MAX - digit) / 10 {
            proof {
                assert(value * 10 + digit > usize::MAX) by (nonlinear_arith)
                    requires
                        value > (usize::MAX - digit) / 10,
                        digit <= 9,
                ;
                // every later digit only makes the value larger
                let all = v@.subrange(start as int, v@.len() as int);
                if all_digits(all) {
                    lemma_digits_value_mono(all, (i + 1 - start) as int);
                    assert(all.take((i + 1 - start) as int) =~= v@.subrange(start as int, i + 1));
                }
                assert(all =~= d);
            }
            return None;
        }
        value = value * 10 + digit;
        i = i + 1;
    }
    assert(v@.subrange(start as int, v@.len() as int) =~= d);
    Some(value)
}

proof fn lemma_decimal_of(n: nat)
    ensures
        decimal_of(n).len() > 0,
        forall|i: int| 0 <= i < decimal_of(n).len() ==> is_digit(#[trigger] decimal_of(n)[i]),
        digits_value(decimal_of(n)) == n,
    decreases n,
{
    if n < 10 {
        let d = decimal_of(n);
        assert(((((n + 48) as u32) as char) as int) == n + 48);
        assert(d.drop_last() =~= Seq::<char>::empty());
        assert(digits_value(d.drop_last()) == 0);
        assert(('0' as int) == 48);
        assert(d.last() == (((n + 48) as u32) as char));
        assert(digits_value(d) == n);
    } else {
        lemma_decimal_of(n / 10);
        let d = decimal_of(n);
        assert(d.drop_last() =~= decimal_of(n / 10));
        assert((((((n % 10) + 48) as u32) as char) as int) == (n % 10) + 48);
        assert(n == (n / 10) * 10 + n % 10);
        assert(digits_value(d) == digits_value(decimal_of(n / 10)) * 10 + n % 10);
        assert forall|i: int| 0 <= i < d.len() implies is_digit(#[trigger] d[i]) by {
            if i < d.len() - 1 {
                assert(d[i] == decimal_of(n / 10)[i]);
            }
        }
    }
}

/// Writing a number in decimal and parsing it back gives the number.
pub proof fn lemma_decimal_roundtrip(n: usize)
    ensures
        parse_usize_spec(decimal_of(n as nat)) == Some(n),
{
    lemma_decimal_of(n as nat);
    let d = decimal_of(n as nat);
    assert(d[0] != '+') by {
        assert(is_digit(d[0]));
    }
}

fn push_decimal(out: &mut String, n: usize)
    ensures
        final(out)@ == old(out)@ + decimal_of(n as nat),
    decreases n,
{
    if n >= 10 {
        push_decimal(out, n / 10);
    }
    let d = (n % 10) as u8;
    let c = (48u8 + d) as char;
    assert(c == ((((n as nat) % 10) + 48) as u32) as char);
    let ghost before = out@;
    push_char(out, c);
    if n >= 10 {
        assert(final(out)@ =~= old(out)@ + decimal_of(n as nat));
    } else {
        assert(final(out)@ =~= old(out)@ + decimal_of(n as nat));
    }
}

/// `n` written in decimal.
pub fn decimal_string(n: usize) -> (r: String)
    ensures
        r@ == decimal_of(n as nat),
{
    let mut s = String::new();
    push_decimal(&mut s, n);
    assert(s@ =~= decimal_of(n as nat));
    s
}

/// The header that precedes a message body of `len` bytes.
pub open spec fn header_of(len: usize) -> Seq<char> {
    "Content-Length: "@ + decimal_of(len as nat) + "\r\n\r\n"@
}

/// The header written before a message body of `len` bytes.
pub fn content_length_header(len: usize) -> (r: String)
    ensures
        r@ == header_of(len),
{
    let mut s = concat("Content-Length: ", decimal_string(len).as_str());
    s.append("\r\n\r\n");
    s
}

/// One line of a message's header part, as the reader sees it.
pub enum HeaderLine {
    /// The blank line that ends the header part.
    End,
    /// A `Content-Length:` line, with the length when it parses.
    ContentLength(Option<usize>),
    /// Any other header line.
    Other,
}

/// How a header line is read: without trailing whitespace, an empty line
/// ends the headers; a `Content-Length:` line gives the length that follows.
pub open spec fn header_line_spec(line: Seq<char>) -> HeaderLine {
    let t = trim_end_spec(line);
    let p = "Content-Length:"@;
    if t.len() == 0 {
        HeaderLine::End
    } else if p.len() <= t.len() && t.take(p.len() as int) == p {
        HeaderLine::ContentLength(parse_usize_spec(trim_spec(t.skip(p.len() as int))))
    } else {
        HeaderLine::Other
    }
}

/// The header written for a body of `len` bytes reads back as that length:
/// its first line (with its line break) gives `len`, and the blank line
/// that follows ends the header part.
pub proof fn lemma_header_roundtrip(len: usize)
    ensures
        header_of(len) == ("Content-Length: "@ + decimal_of(len as nat) + "\r\n"@) + "\r\n"@,
        header_line_spec("Content-Length: "@ + decimal_of(len as nat) + "\r\n"@) == HeaderLine::ContentLength(Some(len)),
        header_line_spec("\r\n"@) == HeaderLine::End,
{
    reveal_strlit("Content-Length: ");
    reveal_strlit("Content-Length:");
    reveal_strlit("\r\n");
    reveal_strlit("\r\n\r\n");
    let d = decimal_of(len as nat);
    lemma_decimal_of(len as nat);
    lemma_decimal_roundtrip(len);
    let x = "Content-Length: "@ + d;
    let line = x + "\r\n"@;
    assert(header_of(len) =~= line + "\r\n"@);
    // the line break is trailing whitespace; the last digit is not
    assert(line.drop_last() =~= x.push('\r'));
    assert(x.push('\r').drop_last() =~= x);
    assert(!is_white_space(x.last())) by {
        assert(x.last() == d[d.len() - 1]);
        assert(is_digit(d[d.len() - 1]));
    }
    assert(trim_end_spec(x) == x);
    assert(trim_end_spec(x.push('\r')) == x);
    assert(trim_end_spec(line) == x);
    let p = "Content-Length:"@;
    assert(x.take(p.len() as int) =~= p);
    let rest = x.skip(p.len() as int);
    assert(rest =~= seq![' '] + d);
    assert(rest.drop_first() =~= d);
    assert(!is_white_space(d[0])) by {
        assert(is_digit(d[0]));
    }
    assert(trim_start_spec(d) == d);
    assert(trim_start_spec(rest) == d);
    assert(!is_white_space(d.last())) by {
        assert(is_digit(d[d.len() - 1]));
    }
    assert(trim_end_spec(d) == d);
    assert(trim_spec(rest) == d);
    let blank = "\r\n"@;
    assert(blank.drop_last() =~= seq!['\r']);
    assert(seq!['\r'].drop_last() =~= Seq::<char>::empty());
    assert(trim_end_spec(Seq::<char>::empty()) == Seq::<char>::empty());
    assert(trim_end_spec(seq!['\r']) == Seq::<char>::empty());
    assert(trim_end_spec(blank) == Seq::<char>::empty());
}

/// Reads one header line of a server message.
pub fn parse_header_line(line: &str) -> (r: HeaderLine)
    ensures
        r == header_line_spec(line@),
{
    let t = trim_end(line);
    if t.as_str().is_empty() {
        return HeaderLine::End;
    }
    match strip_prefix(t.as_str(), "Content-Length:") {
        Some(rest) => {
            let n = trim(rest.as_str());
            HeaderLine::ContentLength(parse_usize(n.as_str()))
        },
        None => HeaderLine::Other,
    }
}

/// One step of reading a message's header part: given the length read so
/// far and the next `line`, whether the header part ended, and the length
/// known after the line (a `Content-Length:` line sets it, also to `None`
/// when its value does not parse; other lines keep it).
pub fn header_step(content_length: Option<usize>, line: &str) -> (r: (bool, Option<usize>))
    ensures
        match header_line_spec(line@) {
            HeaderLine::End => r == (true, content_length),
            HeaderLine::ContentLength(n) => r == (false, n),
            HeaderLine::Other => r == (false, content_length),
        },
{
    match parse_header_line(line) {
        HeaderLine::End => (true, content_length),
        HeaderLine::ContentLength(n) => (false, n),
        HeaderLine::Other => (false, content_length),
    }
}

/// What a server message is, from its `method` and `id` members.
pub enum MessageKind {
    /// A notification (or request) from the server, with its method.
    Notification(String),
    /// A response to the request with this id.
    Response(u64),
}

/// Reads what a message is: a notification when it has a `method` text;
/// otherwise a response when it has an unsigned integer `id`; otherwise it
/// is not recognised (`None`).
pub fn classify_message(method: Option<&str>, id: Option<u64>) -> (r: Option<MessageKind>)
    ensures
        match method {
            Some(m) => r matches Some(MessageKind::Notification(n)) && n@ == m@,
            None => match id {
                Some(i) => r matches Some(MessageKind::Response(j)) && j == i,
                None => r is None,
            },
        },
{
    match method {
        Some(m) => Some(MessageKind::Notification(String::from_str(m))),
        None => match id {
            Some(i) => Some(MessageKind::Response(i)),
            None => None,
        },
    }
}

/// What a message body holds, as serde_json decodes it: `None` when it is
/// not JSON; otherwise its `method` member when that is a string, its `id`
/// member when that is an unsigned integer, and whether it has a `result`
/// member and an `error` member.
pub uninterp spec fn message_fields_of(body: Seq<u8>) -> Option<(Option<Seq<char>>, Option<u64>, bool, bool)>;

/// serde_json's `from_slice` into a `Value`, and the members a message is
/// read by; the result is named `message_fields_of(body@)`.
#[verifier::external_body]
pub(crate) fn decode_message_fields(body: &[u8]) -> (r: Option<(Option<String>, Option<u64>, bool, bool)>)
    ensures
        match r {
            Some((m, id, has_result, has_error)) => message_fields_of(body@) == Some((
                match m {
                    Some(x) => Some(x@),
                    None => None,
                },
                id,
                has_result,
                has_error,
            )),
            None => message_fields_of(body@) is None,
        },
{
    let v: serde_json::Value = match serde_json::from_slice(body) {
        Ok(v) => v,
        Err(_) => return None,
    };
    let method = v.get("method").and_then(|m| m.as_str()).map(|m| m.to_string());
    Some((method, v.get("id").and_then(|i| i.as_u64()), v.get("result").is_some(), v.get("error").is_some()))
}

/// What the message with decoded members `f` is, and whether, as a
/// response, it succeeded (it has a `result` and no `error`).
pub open spec fn body_message_spec(f: Option<(Option<Seq<char>>, Option<u64>, bool, bool)>) -> Option<(Option<Seq<char>>, Option<u64>, bool)> {
    match f {
        None => None,
        Some((m, id, has_result, has_error)) => match m {
            Some(x) => Some((Some(x), None, has_result && !has_error)),
            None => match id {
                Some(i) => Some((None, Some(i), has_result && !has_error)),
                None => None,
            },
        },
    }
}

/// Reads a server message body: `None` when it is not JSON or is neither a
/// notification nor a response; otherwise its kind (as `classify_message`
/// reads the `method` and `id` members) and whether it succeeded (it has a
/// `result` member and no `error` member).
pub fn body_message(body: &[u8]) -> (r: Option<(MessageKind, bool)>)
    ensures
        match body_message_spec(message_fields_of(body@)) {
            None => r is None,
            Some((Some(m), _, ok)) => r matches Some((MessageKind::Notification(n), k)) && n@ == m && k == ok,
            Some((None, Some(i), ok)) => r matches Some((MessageKind::Response(j), k)) && j == i && k == ok,
            Some((None, None, _)) => false,
        },
{
    let (m, id, has_result, has_error) = match decode_message_fields(body) {
        Some(f) => f,
        None => return None,
    };
    let ok = has_result && !has_error;
    let kind = match &m {
        Some(x) => classify_message(Some(x.as_str()), id),
        None => classify_message(None, id),
    };
    match kind {
        Some(k) => Some((k, ok)),
        None => None,
    }
}

/// Whether a notification of method `method` publishes diagnostics.
pub fn is_publish_diagnostics(method: &str) -> (r: bool)
    ensures
        r == (method@ == "textDocument/publishDiagnostics"@),
{
    str_eq(method, "textDocument/publishDiagnostics")
}

/// What a `textDocument/publishDiagnostics` message body holds, as
/// serde_json decodes its `params` into lsp-types' `PublishDiagnosticsParams`:
/// `None` when that fails; otherwise the document's URL and, for each
/// diagnostic, its start line and character, end line and character,
/// severity number and message.
pub uninterp spec fn published_diagnostics_of(body: Seq<u8>) -> Option<(Seq<char>, Seq<(u32, u32, u32, u32, Option<i32>, Seq<char>)>)>;

/// A decoded diagnostic as plain values, its message by its view.
pub open spec fn diagnostic_tuple_view(d: (u32, u32, u32, u32, Option<i32>, String)) -> (u32, u32, u32, u32, Option<i32>, Seq<char>) {
    (d.0, d.1, d.2, d.3, d.4, d.5@)
}

/// serde_json's `from_slice`, then `from_value` of the `params` member into
/// lsp-types' `PublishDiagnosticsParams` (a severity is read as the number
/// it serializes to); the result is named `published_diagnostics_of(body@)`.
#[verifier::external_body]
fn decode_published_diagnostics(body: &[u8]) -> (r: Option<(String, Vec<(u32, u32, u32, u32, Option<i32>, String)>)>)
    ensures
        match r {
            Some((u, ds)) => published_diagnostics_of(body@) == Some((u@, ds@.map_values(|d| diagnostic_tuple_view(d)))),
            None => published_diagnostics_of(body@) is None,
        },
{
    let v: serde_json::Value = serde_json::from_slice(body).ok()?;
    let p: lsp_types::PublishDiagnosticsParams = serde_json::from_value(v.get("params")?.clone()).ok()?;
    let sev = |s: lsp_types::DiagnosticSeverity| serde_json::to_value(s).ok()?.as_i64().map(|n| n as i32);
    let ds = p.diagnostics.iter().map(|d| {
        let r = &d.range;
        (r.start.line, r.start.character, r.end.line, r.end.character, d.severity.and_then(sev), d.message.clone())
    }).collect();
    Some((p.uri.to_string(), ds))
}

/// A diagnostic as plain values: start line and character, end line and
/// character, severity, message.
pub open spec fn diagnostic_view(d: Diagnostic) -> (u32, u32, u32, u32, Option<i32>, Seq<char>) {
    (d.range.start.line, d.range.start.character, d.range.end.line, d.range.end.character, d.severity, d.message@)
}

/// The diagnostics a server notification publishes: for a
/// `textDocument/publishDiagnostics` notification whose body decodes, the
/// document's URL and its diagnostics, in order; `None` for any other
/// method, or when the body does not decode.
pub fn notification_diagnostics(method: &str, body: &[u8]) -> (r: Option<(String, Vec<Diagnostic>)>)
    ensures
        method@ != "textDocument/publishDiagnostics"@ ==> r is None,
        method@ == "textDocument/publishDiagnostics"@ ==> match published_diagnostics_of(body@) {
            None => r is None,
            Some((u, ds)) => r matches Some((ru, rd)) && ru@ == u && rd@.map_values(|d: Diagnostic| diagnostic_view(d)) == ds,
        },
{
    if !is_publish_diagnostics(method) {
        return None;
    }
    let (uri, raw) = match decode_published_diagnostics(body) {
        Some(x) => x,
        None => return None,
    };
    let ghost want = raw@.map_values(|d| diagnostic_tuple_view(d));
    let mut out: Vec<Diagnostic> = Vec::new();
    let mut i: usize = 0;
    while i < raw.len()
        invariant
            i <= raw@.len(),
            want == raw@.map_values(|d| diagnostic_tuple_view(d)),
            out@.map_values(|d: Diagnostic| diagnostic_view(d)) == want.take(i as int),
        decreases raw@.len() - i,
    {
        let d = &raw[i];
        let ghost before = out@;
        out.push(Diagnostic {
            range: Range { start: Position { line: d.0, character: d.1 }, end: Position { line: d.2, character: d.3 } },
            severity: d.4,
            message: d.5.clone(),
        });
        assert(out@.map_values(|d: Diagnostic| diagnostic_view(d)) =~= want.take(i + 1)) by {
            assert(out@ == before.push(out@.last()));
            assert(want.take(i + 1) =~= want.take(i as int).push(want[i as int]));
        }
        i = i + 1;
    }
    assert(want.take(raw@.len() as int) =~= want);
    Some((uri, out))
}

/// The file URL of a path, as the url crate's `Url::from_file_path` gives
/// it (`None` when the path has none).
pub uninterp spec fn file_url_of(path: Seq<char>) -> Option<Seq<char>>;

/// The url crate's `Url::from_file_path`, as text; its result is named
/// `file_url_of(path@)`.
#[verifier::external_body]
pub(crate) fn file_url(path: &str) -> (r: Option<String>)
    ensures
        match r {
            Some(u) => file_url_of(path@) == Some(u@),
            None => file_url_of(path@) is None,
        },
{
    url::Url::from_file_path(path).ok().map(|u| u.as_str().to_string())
}

/// The document `path` as a server knows it: the language whose server
/// handles it and its URL. `None` when no server handles its extension or it
/// has no file URL.
pub open spec fn doc_target_spec(specs: Seq<ServerSpec>, path: Seq<char>) -> Option<(Seq<char>, Seq<char>)> {
    match extension_of(path) {
        Some(ext) => match language_for_ext(specs, ext) {
            Some(lang) => match file_url_of(path) {
                Some(u) => Some((lang, u)),
                None => None,
            },
            None => None,
        },
        None => None,
    }
}

/// The language and URL under which the document at `path` is sent to its server.
pub fn doc_target(specs: &Vec<ServerSpec>, path: &str) -> (r: Option<(String, String)>)
    ensures
        match r {
            Some((l, u)) => doc_target_spec(specs@, path@) == Some((l@, u@)),
            None => doc_target_spec(specs@, path@) is None,
        },
{
    let ext = match path_extension(path) {
        Some(e) => e,
        None => return None,
    };
    let lang = match language_for_extension(specs, ext.as_str()) {
        Some(l) => l,
        None => return None,
    };
    match file_url(path) {
        Some(u) => Some((lang, u)),
        None => None,
    }
}

/// The map that a list of (key, value) pairs with distinct keys stands for.
pub open spec fn assoc_map<V>(entries: Seq<(String, V)>) -> Map<Seq<char>, V>
    decreases entries.len(),
{
    if entries.len() == 0 {
        Map::empty()
    } else {
        assoc_map(entries.drop_last()).insert(entries.last().0@, entries.last().1)
    }
}

/// No key is listed twice.
pub open spec fn distinct_keys<V>(entries: Seq<(String, V)>) -> bool {
    forall|i: int, j: int| 0 <= i < entries.len() && 0 <= j < entries.len() && i != j ==> (#[trigger] entries[i]).0@ != (#[trigger] entries[j]).0@
}

/// What the editor has told one language server: request ids used, whether
/// the server is initialized, and which documents are open at which version.
pub struct LspSession {
    language_id: String,
    next_id: u64,
    initialized: bool,
    pending_initialize_id: Option<u64>,
    open_docs: Vec<(String, i32)>,
}

impl LspSession {
    /// The open documents and their versions.
    pub closed spec fn docs(&self) -> Map<Seq<char>, i32> {
        assoc_map(self.open_docs@)
    }

    /// The language of the session's server.
    pub closed spec fn language_spec(&self) -> Seq<char> {
        self.language_id@
    }

    /// The language of the session's server.
    pub fn language_id(&self) -> (r: &String)
        ensures
            r@ == self.language_spec(),
    {
        &self.language_id
    }

    pub closed spec fn initialized_spec(&self) -> bool {
        self.initialized
    }

    pub closed spec fn next_id_spec(&self) -> u64 {
        self.next_id
    }

    pub closed spec fn pending_spec(&self) -> Option<u64> {
        self.pending_initialize_id
    }

    /// The session's bookkeeping is consistent.
    pub closed spec fn wf(&self) -> bool {
        distinct_keys(self.open_docs@)
    }

    /// A session for a server of language `language_id`, before initialization.
    pub fn new(language_id: String) -> (s: Self)
        ensures
            s.wf(),
            s.language_spec() == language_id@,
            s.next_id_spec() == 1,
            !s.initialized_spec(),
            s.pending_spec() is None,
            s.docs() == Map::<Seq<char>, i32>::empty(),
    {
        LspSession { language_id, next_id: 1, initialized: false, pending_initialize_id: None, open_docs: Vec::new() }
    }

    /// Whether another request id can be issued (ids are not reused).
    pub fn has_ids_left(&self) -> (r: bool)
        ensures
            r == (self.next_id_spec() < u64::MAX),
    {
        self.next_id < u64::MAX
    }

    /// The version of the open document `uri`, if it is open.
    pub fn version_of(&self, uri: &str) -> (r: Option<i32>)
        requires
            self.wf(),
        ensures
            match r {
                Some(v) => self.docs().contains_key(uri@) && self.docs()[uri@] == v,
                None => !self.docs().contains_key(uri@),
            },
    {
        match self.find_doc(uri) {
            Some(i) => {
                proof {
                    lemma_docs_map_value(self.open_docs@, i as int);
                }
                Some(self.open_docs[i].1)
            },
            None => None,
        }
    }

    /// Whether the server answered the initialize request.
    pub fn is_initialized(&self) -> (r: bool)
        ensures
            r == self.initialized_spec(),
    {
        self.initialized
    }

    /// A fresh request id.
    pub fn next_id(&mut self) -> (id: u64)
        requires
            old(self).next_id_spec() < u64::MAX,
        ensures
            id == old(self).next_id_spec(),
            final(self).next_id_spec() == id + 1,
            final(self).initialized_spec() == old(self).initialized_spec(),
            final(self).pending_spec() == old(self).pending_spec(),
            final(self).docs() == old(self).docs(),
            final(self).wf() == old(self).wf(),
            final(self).language_spec() == old(self).language_spec(),
    {
        let id = self.next_id;
        self.next_id = self.next_id + 1;
        id
    }

    /// Starts initialization: the id of the `initialize` request to send.
    pub fn send_initialize(&mut self) -> (id: u64)
        requires
            old(self).next_id_spec() < u64::MAX,
        ensures
            id == old(self).next_id_spec(),
            final(self).next_id_spec() == id + 1,
            final(self).pending_spec() == Some(id),
            final(self).initialized_spec() == old(self).initialized_spec(),
            final(self).docs() == old(self).docs(),
            final(self).wf() == old(self).wf(),
            final(self).language_spec() == old(self).language_spec(),
    {
        let id = self.next_id();
        self.pending_initialize_id = Some(id);
        id
    }

    /// A response with id `id` arrived (`ok` when it has a result and no
    /// error). Returns whether the `initialized` notification must be sent:
    /// when it answers the pending initialize request successfully.
    pub fn on_response(&mut self, id: u64, ok: bool) -> (send_initialized: bool)
        ensures
            old(self).pending_spec() == Some(id) ==> {
                &&& final(self).pending_spec() is None
                &&& final(self).initialized_spec() == (old(self).initialized_spec() || ok)
                &&& send_initialized == ok
            },
            old(self).pending_spec() != Some(id) ==> {
                &&& final(self).pending_spec() == old(self).pending_spec()
                &&& final(self).initialized_spec() == old(self).initialized_spec()
                &&& !send_initialized
            },
            final(self).next_id_spec() == old(self).next_id_spec(),
            final(self).docs() == old(self).docs(),
            final(self).wf() == old(self).wf(),
            final(self).language_spec() == old(self).language_spec(),
    {
        if self.pending_initialize_id == Some(id) {
            self.pending_initialize_id = None;
            if ok {
                self.initialized = true;
                return true;
            }
        }
        false
    }

    fn find_doc(&self, uri: &str) -> (r: Option<usize>)
        requires
            self.wf(),
        ensures
            match r {
                Some(i) => i < self.open_docs@.len() && self.open_docs@[i as int].0@ == uri@,
                None => !self.docs().contains_key(uri@),
            },
    {
        let mut i: usize = 0;
        while i < self.open_docs.len()
            invariant
                i <= self.open_docs@.len(),
                forall|j: int| 0 <= j < i ==> self.open_docs@[j].0@ != uri@,
            decreases self.open_docs@.len() - i,
        {
            if str_eq(self.open_docs[i].0.as_str(), uri) {
                return Some(i);
            }
            i = i + 1;
        }
        proof {
            lemma_docs_map_keys(self.open_docs@, uri@);
        }
        None
    }

    /// The document `uri` was opened with some text. Returns the version to
    /// send in `didOpen`: 1, or `None` when nothing is sent (the server is
    /// not initialized, or the document is already open).
    pub fn did_open(&mut self, uri: &str) -> (version: Option<i32>)
        requires
            old(self).wf(),
        ensures
            final(self).wf(),
            (old(self).initialized_spec() && !old(self).docs().contains_key(uri@)) ==> {
                &&& version == Some(1i32)
                &&& final(self).docs() == old(self).docs().insert(uri@, 1)
            },
            !(old(self).initialized_spec() && !old(self).docs().contains_key(uri@)) ==> {
                &&& version is None
                &&& final(self).docs() == old(self).docs()
            },
            final(self).initialized_spec() == old(self).initialized_spec(),
            final(self).next_id_spec() == old(self).next_id_spec(),
            final(self).pending_spec() == old(self).pending_spec(),
            final(self).language_spec() == old(self).language_spec(),
    {
        if !self.initialized {
            return None;
        }
        if self.find_doc(uri).is_some() {
            proof {
                let i = choose|i: int| 0 <= i < self.open_docs@.len() && self.open_docs@[i].0@ == uri@;
                lemma_docs_map_keys(self.open_docs@, uri@);
            }
            return None;
        }
        let ghost before = self.open_docs@;
        self.open_docs.push((String::from_str(uri), 1));
        proof {
            assert(self.open_docs@.drop_last() =~= before);
            assert forall|i: int, j: int| 0 <= i < self.open_docs@.len() && 0 <= j < self.open_docs@.len() && i != j
                implies (#[trigger] self.open_docs@[i]).0@ != (#[trigger] self.open_docs@[j]).0@ by {
                if j == self.open_docs@.len() - 1 {
                    lemma_docs_map_keys(before, self.open_docs@[i].0@);
                    assert(before[i] == self.open_docs@[i]);
                } else if i == self.open_docs@.len() - 1 {
                    lemma_docs_map_keys(before, self.open_docs@[j].0@);
                    assert(before[j] == self.open_docs@[j]);
                } else {
                    assert(before[i] == self.open_docs@[i] && before[j] == self.open_docs@[j]);
                }
            }
        }
        Some(1)
    }

    /// The document `uri` changed. Returns the new version to send in
    /// `didChange`: one more than the last one, or `None` when nothing is
    /// sent (the server is not initialized, or the document is not open).
    pub fn did_change(&mut self, uri: &str) -> (version: Option<i32>)
        requires
            old(self).wf(),
            old(self).initialized_spec() && old(self).docs().contains_key(uri@) ==> old(self).docs()[uri@] < i32::MAX,
        ensures
            final(self).wf(),
            (old(self).initialized_spec() && old(self).docs().contains_key(uri@)) ==> {
                &&& version == Some((old(self).docs()[uri@] + 1) as i32)
                &&& final(self).docs() == old(self).docs().insert(uri@, (old(self).docs()[uri@] + 1) as i32)
            },
            !(old(self).initialized_spec() && old(self).docs().contains_key(uri@)) ==> {
                &&& version is None
                &&& final(self).docs() == old(self).docs()
            },
            final(self).initialized_spec() == old(self).initialized_spec(),
            final(self).next_id_spec() == old(self).next_id_spec(),
            final(self).pending_spec() == old(self).pending_spec(),
            final(self).language_spec() == old(self).language_spec(),
    {
        if !self.initialized {
            return None;
        }
        match self.find_doc(uri) {
            Some(i) => {
                let ghost before = self.open_docs@;
                proof {
                    lemma_docs_map_value(before, i as int);
                }
                let v = self.open_docs[i].1 + 1;
                let key = self.open_docs[i].0.clone();
                self.open_docs.set(i, (key, v));
                proof {
                    lemma_docs_map_set(before, i as int, v);
                }
                Some(v)
            },
            None => None,
        }
    }

    /// The document `uri` was saved. Returns whether `didSave` is sent: when
    /// the server is initialized and the document is open.
    pub fn did_save(&self, uri: &str) -> (send: bool)
        requires
            self.wf(),
        ensures
            send == (self.initialized_spec() && self.docs().contains_key(uri@)),
    {
        if !self.initialized {
            return false;
        }
        match self.find_doc(uri) {
            Some(i) => {
                proof {
                    lemma_docs_map_value(self.open_docs@, i as int);
                }
                true
            },
            None => false,
        }
    }

    /// The document `uri` was closed. Returns whether `didClose` is sent:
    /// when the server is initialized and the document was open; it is no
    /// longer open then.
    pub fn did_close(&mut self, uri: &str) -> (send: bool)
        requires
            old(self).wf(),
        ensures
            final(self).wf(),
            send == (old(self).initialized_spec() && old(self).docs().contains_key(uri@)),
            send ==> final(self).docs() == old(self).docs().remove(uri@),
            !send ==> final(self).docs() == old(self).docs(),
            final(self).initialized_spec() == old(self).initialized_spec(),
            final(self).next_id_spec() == old(self).next_id_spec(),
            final(self).pending_spec() == old(self).pending_spec(),
            final(self).language_spec() == old(self).language_spec(),
    {
        if !self.initialized {
            return false;
        }
        match self.find_doc(uri) {
            Some(i) => {
                let ghost before = self.open_docs@;
                proof {
                    lemma_docs_map_value(before, i as int);
                }
                self.open_docs.remove(i);
                proof {
                    lemma_docs_map_remove(before, i as int);
                }
                true
            },
            None => false,
        }
    }

    /// Shutting the server down: the id of the `shutdown` request to send
    /// (followed by `exit`), or `None` when the server was never initialized.
    pub fn shutdown(&mut self) -> (id: Option<u64>)
        requires
            old(self).initialized_spec() ==> old(self).next_id_spec() < u64::MAX,
        ensures
            old(self).initialized_spec() ==> id == Some(old(self).next_id_spec())
                && final(self).next_id_spec() == old(self).next_id_spec() + 1,
            !old(self).initialized_spec() ==> id is None && final(self).next_id_spec() == old(self).next_id_spec(),
            final(self).docs() == old(self).docs(),
            final(self).wf() == old(self).wf(),
    {
        if self.initialized {
            Some(self.next_id())
        } else {
            None
        }
    }
}

proof fn lemma_docs_map_keys<V>(docs: Seq<(String, V)>, uri: Seq<char>)
    ensures
        assoc_map(docs).contains_key(uri) <==> exists|i: int| 0 <= i < docs.len() && (#[trigger] docs[i]).0@ == uri,
    decreases docs.len(),
{
    if docs.len() > 0 {
        lemma_docs_map_keys(docs.drop_last(), uri);
        if assoc_map(docs.drop_last()).contains_key(uri) {
            let i = choose|i: int| 0 <= i < docs.drop_last().len() && (#[trigger] docs.drop_last()[i]).0@ == uri;
            assert(docs[i] == docs.drop_last()[i]);
        }
        if exists|i: int| 0 <= i < docs.len() && (#[trigger] docs[i]).0@ == uri {
            let i = choose|i: int| 0 <= i < docs.len() && (#[trigger] docs[i]).0@ == uri;
            if i < docs.len() - 1 {
                assert(docs.drop_last()[i] == docs[i]);
            }
        }
    }
}

proof fn lemma_docs_map_value<V>(docs: Seq<(String, V)>, i: int)
    requires
        distinct_keys(docs),
        0 <= i < docs.len(),
    ensures
        assoc_map(docs).contains_key(docs[i].0@),
        assoc_map(docs)[docs[i].0@] == docs[i].1,
    decreases docs.len(),
{
    if i < docs.len() - 1 {
        lemma_distinct_drop_last(docs);
        assert(docs.drop_last()[i] == docs[i]);
        lemma_docs_map_value(docs.drop_last(), i);
        assert(docs[i].0@ != docs.last().0@);
    }
}

proof fn lemma_distinct_drop_last<V>(docs: Seq<(String, V)>)
    requires
        distinct_keys(docs),
        docs.len() > 0,
    ensures
        distinct_keys(docs.drop_last()),
{
    let d = docs.drop_last();
    assert forall|a: int, b: int| 0 <= a < d.len() && 0 <= b < d.len() && a != b
        implies (#[trigger] d[a]).0@ != (#[trigger] d[b]).0@ by {
        assert(d[a] == docs[a]);
        assert(d[b] == docs[b]);
    }
}

proof fn lemma_docs_map_set<V>(docs: Seq<(String, V)>, i: int, v: V)
    requires
        distinct_keys(docs),
        0 <= i < docs.len(),
    ensures
        distinct_keys(docs.update(i, (docs[i].0, v))),
        assoc_map(docs.update(i, (docs[i].0, v))) == assoc_map(docs).insert(docs[i].0@, v),
    decreases docs.len(),
{
    let nd = docs.update(i, (docs[i].0, v));
    assert forall|a: int, b: int| 0 <= a < nd.len() && 0 <= b < nd.len() && a != b implies (#[trigger] nd[a]).0@ != (#[trigger] nd[b]).0@ by {
        assert(nd[a].0 == docs[a].0 && nd[b].0 == docs[b].0);
    }
    lemma_distinct_drop_last(docs);
    if i == docs.len() - 1 {
        assert(nd.drop_last() =~= docs.drop_last());
        assert(assoc_map(nd) =~= assoc_map(docs).insert(docs[i].0@, v));
    } else {
        assert(nd.drop_last() =~= docs.drop_last().update(i, (docs[i].0, v)));
        assert(docs.drop_last()[i] == docs[i]);
        lemma_docs_map_set(docs.drop_last(), i, v);
        assert(docs[i].0@ != docs.last().0@);
        assert(assoc_map(nd) =~= assoc_map(docs).insert(docs[i].0@, v));
    }
}

proof fn lemma_docs_map_remove<V>(docs: Seq<(String, V)>, i: int)
    requires
        distinct_keys(docs),
        0 <= i < docs.len(),
    ensures
        distinct_keys(docs.remove(i)),
        assoc_map(docs.remove(i)) == assoc_map(docs).remove(docs[i].0@),
    decreases docs.len(),
{
    let nd = docs.remove(i);
    assert forall|a: int, b: int| 0 <= a < nd.len() && 0 <= b < nd.len() && a != b implies (#[trigger] nd[a]).0@ != (#[trigger] nd[b]).0@ by {
        let a2 = if a < i { a } else { a + 1 };
        let b2 = if b < i { b } else { b + 1 };
        assert(nd[a] == docs[a2] && nd[b] == docs[b2]);
    }
    lemma_distinct_drop_last(docs);
    if i == docs.len() - 1 {
        assert(nd =~= docs.drop_last());
        lemma_docs_map_keys(docs.drop_last(), docs[i].0@);
        assert(!assoc_map(docs.drop_last()).contains_key(docs[i].0@)) by {
            if assoc_map(docs.drop_last()).contains_key(docs[i].0@) {
                let j = choose|j: int| 0 <= j < docs.drop_last().len() && (#[trigger] docs.drop_last()[j]).0@ == docs[i].0@;
                assert(docs.drop_last()[j] == docs[j]);
            }
        }
        assert(assoc_map(nd) =~= assoc_map(docs).remove(docs[i].0@));
    } else {
        assert(nd.drop_last() =~= docs.drop_last().remove(i));
        assert(nd.last() == docs.last());
        assert(docs.drop_last()[i] == docs[i]);
        lemma_docs_map_remove(docs.drop_last(), i);
        assert(docs[i].0@ != docs.last().0@);
        assert(assoc_map(nd) =~= assoc_map(docs).remove(docs[i].0@));
    }
}

proof fn lemma_assoc_push<V>(docs: Seq<(String, V)>, e: (String, V))
    requires
        distinct_keys(docs),
        !assoc_map(docs).contains_key(e.0@),
    ensures
        distinct_keys(docs.push(e)),
        assoc_map(docs.push(e)) == assoc_map(docs).insert(e.0@, e.1),
{
    let nd = docs.push(e);
    assert(nd.drop_last() =~= docs);
    assert forall|i: int, j: int| 0 <= i < nd.len() && 0 <= j < nd.len() && i != j
        implies (#[trigger] nd[i]).0@ != (#[trigger] nd[j]).0@ by {
        if j == nd.len() - 1 {
            lemma_docs_map_keys(docs, nd[i].0@);
            assert(docs[i] == nd[i]);
        } else if i == nd.len() - 1 {
            lemma_docs_map_keys(docs, nd[j].0@);
            assert(docs[j] == nd[j]);
        } else {
            assert(docs[i] == nd[i] && docs[j] == nd[j]);
        }
    }
}

/// A position in a text document: zero-based line and character.
pub struct Position {
    pub line: u32,
    pub character: u32,
}

/// A range of a text document.
pub struct Range {
    pub start: Position,
    pub end: Position,
}

/// Severity of a diagnostic that counts as an error.
pub const SEVERITY_ERROR: i32 = 1;
/// Severity of a diagnostic that counts as a warning.
pub const SEVERITY_WARNING: i32 = 2;
/// Severity of an informational diagnostic.
pub const SEVERITY_INFORMATION: i32 = 3;
/// Severity of a hint.
pub const SEVERITY_HINT: i32 = 4;

/// A problem a language server reported in a document.
pub struct Diagnostic {
    pub range: Range,
    pub severity: Option<i32>,
    pub message: String,
}

/// Whether `i` is where a position at `line`, `col` lands in `s`: on that
/// line, at that column, or at the line's end when it is shorter.
pub open spec fn position_hit(s: Seq<char>, line: nat, col: nat, i: int) -> bool {
    &&& 0 <= i < s.len()
    &&& count_char(s.take(i), '\n') == line
    &&& (col_after_newline(s.take(i)) == col || s[i] == '\n')
}

/// Character index of the LSP position `pos` in `content`: the first
/// character of line `pos.line` at column `pos.character`, or the end of that
/// line when it is shorter, or the end of `content` when there is no such line.
pub fn position_to_char_idx(content: &str, pos: &Position) -> (r: usize)
    ensures
        r <= content@.len(),
        r < content@.len() ==> position_hit(content@, pos.line as nat, pos.character as nat, r as int),
        forall|j: int| 0 <= j < r ==> !position_hit(content@, pos.line as nat, pos.character as nat, j),
{
    let v = chars_of(content);
    let mut line: usize = 0;
    let mut col: usize = 0;
    let mut i: usize = 0;
    while i < v.len()
        invariant
            v@ == content@,
            i <= v.len(),
            line == count_char(v@.take(i as int), '\n'),
            col == col_after_newline(v@.take(i as int)),
            line <= i,
            col <= i,
            forall|j: int| 0 <= j < i ==> !position_hit(content@, pos.line as nat, pos.character as nat, j),
        decreases v.len() - i,
    {
        if line == pos.line as usize && (col == pos.character as usize || v[i] == '\n') {
            return i;
        }
        assert(v@.take(i + 1).drop_last() =~= v@.take(i as int));
        if v[i] == '\n' {
            line = line + 1;
            col = 0;
        } else {
            col = col + 1;
        }
        i = i + 1;
    }
    i
}

/// Number of diagnostics of `diags` with severity `sev`.
pub open spec fn count_severity(diags: Seq<Diagnostic>, sev: i32) -> nat
    decreases diags.len(),
{
    if diags.len() == 0 {
        0
    } else {
        count_severity(diags.drop_last(), sev) + if diags.last().severity == Some(sev) { 1nat } else { 0nat }
    }
}

/// The severity count is the number of diagnostics whose severity is
/// exactly `Some(sev)`: adding a diagnostic of any other severity (or of
/// none) leaves it unchanged, and adding one of severity `sev` adds one.
pub proof fn lemma_count_severity_exact(diags: Seq<Diagnostic>, sev: i32)
    ensures
        count_severity(diags, sev) == diags.filter(|d: Diagnostic| d.severity == Some(sev)).len(),
        forall|d: Diagnostic| #[trigger] count_severity(diags.push(d), sev)
            == count_severity(diags, sev) + if d.severity == Some(sev) { 1int } else { 0int },
    decreases diags.len(),
{
    reveal_with_fuel(Seq::filter, 1);
    let pred = |d: Diagnostic| d.severity == Some(sev);
    if diags.len() > 0 {
        lemma_count_severity_exact(diags.drop_last(), sev);
        assert(diags.filter(pred) == (if pred(diags.last()) {
            diags.drop_last().filter(pred).push(diags.last())
        } else {
            diags.drop_last().filter(pred)
        }));
    } else {
        assert(diags.filter(pred) =~= Seq::<Diagnostic>::empty());
    }
    assert forall|d: Diagnostic| #[trigger] count_severity(diags.push(d), sev)
        == count_severity(diags, sev) + if d.severity == Some(sev) { 1int } else { 0int } by {
        assert(diags.push(d).drop_last() =~= diags);
    }
}

/// Number of diagnostics with severity `sev` over all documents.
pub open spec fn total_severity(entries: Seq<(String, Vec<Diagnostic>)>, sev: i32) -> nat
    decreases entries.len(),
{
    if entries.len() == 0 {
        0
    } else {
        total_severity(entries.drop_last(), sev) + count_severity(entries.last().1@, sev)
    }
}

/// What to do to have a server for some language.
pub enum ServerStep {
    /// Its server runs.
    Ready,
    /// Start it with this spec (the first start for this language).
    Start(ServerSpec),
    /// There is none: it failed to start before, or no spec names the language.
    Unavailable,
}

/// The language of the first spec whose language is `lang`.
pub open spec fn spec_index_of(specs: Seq<ServerSpec>, lang: Seq<char>) -> Option<int>
    decreases specs.len(),
{
    if specs.len() == 0 {
        None
    } else if specs.last().language_id@ == lang && spec_index_of(specs.drop_last(), lang) is None {
        Some(specs.len() - 1)
    } else {
        spec_index_of(specs.drop_last(), lang)
    }
}

/// Whether `lang` is among `names`.
pub open spec fn has_name(names: Seq<String>, lang: Seq<char>) -> bool {
    exists|i: int| 0 <= i < names.len() && (#[trigger] names[i])@ == lang
}

fn find_name(names: &Vec<String>, lang: &str) -> (r: Option<usize>)
    ensures
        match r {
            Some(i) => i < names@.len() && names@[i as int]@ == lang@,
            None => !has_name(names@, lang@),
        },
{
    let mut i: usize = 0;
    while i < names.len()
        invariant
            i <= names@.len(),
            forall|j: int| 0 <= j < i ==> (#[trigger] names@[j])@ != lang@,
        decreases names@.len() - i,
    {
        if str_eq(names[i].as_str(), lang) {
            return Some(i);
        }
        i = i + 1;
    }
    None
}

/// Every language tried in `a` is still tried in `b`.
pub open spec fn keeps_tried(a: LspManager, b: LspManager) -> bool {
    forall|l: Seq<char>| #[trigger] a.attempted_spec().contains(l) ==> b.attempted_spec().contains(l)
}

/// `server_for(lang)` on `m` would start `lang`'s server: it does not run
/// and was not tried yet.
pub open spec fn may_start(m: LspManager, lang: Seq<char>) -> bool {
    !m.running_spec().contains(lang) && !m.attempted_spec().contains(lang)
}

/// A language's server is started at most once per workspace: in a run of
/// manager states where each step keeps the tried languages (every
/// operation but `set_workspace_root` does), once `lang` is tried no later
/// state may start it again, so a language whose server failed to start, or
/// has no spec, stays unavailable.
pub proof fn lemma_started_at_most_once(ms: Seq<LspManager>, lang: Seq<char>, k: int)
    requires
        0 <= k < ms.len(),
        ms[k].attempted_spec().contains(lang),
        forall|j: int| 0 <= j < ms.len() - 1 ==> keeps_tried(#[trigger] ms[j], ms[j + 1]),
    ensures
        forall|j: int| k <= j < ms.len() ==> !may_start(#[trigger] ms[j], lang),
{
    assert forall|j: int| k <= j < ms.len() implies #[trigger] ms[j].attempted_spec().contains(lang) by {
        lemma_tried_stays(ms, lang, k, j);
    }
}

/// `server_for(lang)` on `m` answers `Unavailable`: `lang` was tried and
/// its server does not run.
pub open spec fn answers_unavailable(m: LspManager, lang: Seq<char>) -> bool {
    m.attempted_spec().contains(lang) && !m.running_spec().contains(lang)
}

/// A language whose server is not running once it was tried (its start
/// failed, or no spec names it) stays unavailable: along a run of manager
/// states where each step keeps the tried languages (every operation but
/// `set_workspace_root` does) and in which no server for `lang` is recorded
/// as started, `server_for(lang)` answers `Unavailable` in every state from
/// the first one in which `lang` was tried.
pub proof fn lemma_stays_unavailable(ms: Seq<LspManager>, lang: Seq<char>, k: int)
    requires
        0 <= k < ms.len(),
        ms[k].attempted_spec().contains(lang),
        forall|j: int| 0 <= j < ms.len() - 1 ==> keeps_tried(#[trigger] ms[j], ms[j + 1]),
        forall|j: int| k <= j < ms.len() ==> !(#[trigger] ms[j]).running_spec().contains(lang),
    ensures
        forall|j: int| k <= j < ms.len() ==> answers_unavailable(#[trigger] ms[j], lang),
{
    assert forall|j: int| k <= j < ms.len() implies answers_unavailable(#[trigger] ms[j], lang) by {
        lemma_tried_stays(ms, lang, k, j);
    }
}

proof fn lemma_tried_stays(ms: Seq<LspManager>, lang: Seq<char>, k: int, j: int)
    requires
        0 <= k <= j < ms.len(),
        ms[k].attempted_spec().contains(lang),
        forall|i: int| 0 <= i < ms.len() - 1 ==> keeps_tried(#[trigger] ms[i], ms[i + 1]),
    ensures
        ms[j].attempted_spec().contains(lang),
    decreases j - k,
{
    if j > k {
        lemma_tried_stays(ms, lang, k, j - 1);
        assert(keeps_tried(ms[j - 1], ms[j - 1 + 1]));
    }
}

/// The editor's side of all language servers: which language servers run,
/// which were tried, and the diagnostics they reported, by document URL.
pub struct LspManager {
    running: Vec<String>,
    diagnostics: Vec<(String, Vec<Diagnostic>)>,
    specs: Vec<ServerSpec>,
    workspace_root: Option<String>,
    last_error: Option<String>,
    spawn_attempted: Vec<String>,
}

impl LspManager {
    /// The server specs known.
    pub closed spec fn specs_spec(&self) -> Seq<ServerSpec> {
        self.specs@
    }

    /// The workspace folder.
    pub closed spec fn root_spec(&self) -> Option<String> {
        self.workspace_root
    }

    /// The last failure to start a server.
    pub closed spec fn last_error_spec(&self) -> Option<String> {
        self.last_error
    }

    /// The server specs known.
    pub fn specs(&self) -> (r: &Vec<ServerSpec>)
        ensures
            r@ == self.specs_spec(),
    {
        &self.specs
    }

    /// The workspace folder.
    pub fn workspace_root(&self) -> (r: &Option<String>)
        ensures
            *r == self.root_spec(),
    {
        &self.workspace_root
    }

    /// The last failure to start a server.
    pub fn last_error(&self) -> (r: &Option<String>)
        ensures
            *r == self.last_error_spec(),
    {
        &self.last_error
    }

    /// The languages whose server runs.
    pub closed spec fn running_spec(&self) -> Seq<Seq<char>> {
        self.running@.map_values(|s: String| s@)
    }

    /// The languages whose server was tried.
    pub closed spec fn attempted_spec(&self) -> Seq<Seq<char>> {
        self.spawn_attempted@.map_values(|s: String| s@)
    }

    /// The reported diagnostics, by document URL.
    pub closed spec fn diagnostics_spec(&self) -> Map<Seq<char>, Vec<Diagnostic>> {
        assoc_map(self.diagnostics@)
    }

    /// The reported diagnostics as stored, one entry per document.
    pub closed spec fn diagnostic_entries(&self) -> Seq<(String, Vec<Diagnostic>)> {
        self.diagnostics@
    }

    /// The manager's bookkeeping is consistent.
    pub closed spec fn wf(&self) -> bool {
        distinct_keys(self.diagnostics@)
    }

    /// No server runs or was tried, no diagnostics; the built-in specs.
    pub fn new() -> (m: Self)
        ensures
            m.wf(),
            m.running_spec() == Seq::<Seq<char>>::empty(),
            m.attempted_spec() == Seq::<Seq<char>>::empty(),
            m.diagnostics_spec() == Map::<Seq<char>, Vec<Diagnostic>>::empty(),
            m.specs_spec().map_values(|s: ServerSpec| spec_of(s)) == builtin_specs(),
            m.root_spec() is None,
            m.last_error_spec() is None,
    {
        let m = LspManager {
            running: Vec::new(),
            diagnostics: Vec::new(),
            specs: builtin_servers(),
            workspace_root: None,
            last_error: None,
            spawn_attempted: Vec::new(),
        };
        assert(m.running_spec() =~= Seq::<Seq<char>>::empty());
        assert(m.attempted_spec() =~= Seq::<Seq<char>>::empty());
        m
    }

    /// A new workspace: every server is dropped, may be tried again, and all
    /// diagnostics are forgotten.
    pub fn set_workspace_root(&mut self, path: String)
        ensures
            final(self).wf(),
            final(self).running_spec() == Seq::<Seq<char>>::empty(),
            final(self).attempted_spec() == Seq::<Seq<char>>::empty(),
            final(self).diagnostics_spec() == Map::<Seq<char>, Vec<Diagnostic>>::empty(),
            final(self).root_spec() matches Some(p) && p@ == path@,
            final(self).specs_spec() == old(self).specs_spec(),
            final(self).last_error_spec() == old(self).last_error_spec(),
    {
        self.running = Vec::new();
        self.spawn_attempted = Vec::new();
        self.diagnostics = Vec::new();
        self.workspace_root = Some(path);
        assert(self.running_spec() =~= Seq::<Seq<char>>::empty());
        assert(self.attempted_spec() =~= Seq::<Seq<char>>::empty());
    }

    /// What it takes to have a server for `lang`. The first time a language
    /// without a running server is asked for, it is marked as tried.
    #[verifier::loop_isolation(false)]
    pub fn server_for(&mut self, lang: &str) -> (step: ServerStep)
        ensures
            answers_unavailable(*old(self), lang@) ==> step is Unavailable,
            keeps_tried(*old(self), *final(self)),
            step is Start ==> may_start(*old(self), lang@) && final(self).attempted_spec().contains(lang@),
            final(self).wf() == old(self).wf(),
            final(self).running_spec() == old(self).running_spec(),
            final(self).diagnostics_spec() == old(self).diagnostics_spec(),
            final(self).specs_spec() == old(self).specs_spec(),
            final(self).root_spec() == old(self).root_spec(),
            final(self).last_error_spec() == old(self).last_error_spec(),
            old(self).running_spec().contains(lang@) ==> step is Ready && final(self).attempted_spec() == old(self).attempted_spec(),
            !old(self).running_spec().contains(lang@) && old(self).attempted_spec().contains(lang@)
                ==> step is Unavailable && final(self).attempted_spec() == old(self).attempted_spec(),
            !old(self).running_spec().contains(lang@) && !old(self).attempted_spec().contains(lang@) ==> {
                &&& final(self).attempted_spec() == old(self).attempted_spec().push(lang@)
                &&& match spec_index_of(old(self).specs_spec(), lang@) {
                    Some(i) => step matches ServerStep::Start(sp) && spec_of(sp) == spec_of(old(self).specs_spec()[i]),
                    None => step is Unavailable,
                }
            },
    {
        proof {
            lemma_names(self.running@, lang@);
            lemma_names(self.spawn_attempted@, lang@);
        }
        if find_name(&self.running, lang).is_some() {
            return ServerStep::Ready;
        }
        if find_name(&self.spawn_attempted, lang).is_some() {
            return ServerStep::Unavailable;
        }
        let ghost before = self.spawn_attempted@;
        self.spawn_attempted.push(String::from_str(lang));
        assert(self.attempted_spec() =~= old(self).attempted_spec().push(lang@)) by {
            assert(self.spawn_attempted@ == before.push(self.spawn_attempted@.last()));
        }
        assert(keeps_tried(*old(self), *self)) by {
            assert forall|l: Seq<char>| #[trigger] old(self).attempted_spec().contains(l)
                implies self.attempted_spec().contains(l) by {
                let k = choose|k: int| 0 <= k < old(self).attempted_spec().len() && old(self).attempted_spec()[k] == l;
                assert(self.attempted_spec()[k] == l);
            }
        }
        assert(self.attempted_spec()[self.attempted_spec().len() - 1] == lang@);
        let mut i: usize = 0;
        while i < self.specs.len()
            invariant
                i <= self.specs@.len(),
                spec_index_of(self.specs@.take(i as int), lang@) is None,
            decreases self.specs@.len() - i,
        {
            proof {
                assert(self.specs@.take(i + 1).drop_last() =~= self.specs@.take(i as int));
            }
            if str_eq(self.specs[i].language_id.as_str(), lang) {
                proof {
                    lemma_spec_index_prefix(self.specs@, (i + 1) as int, lang@);
                }
                return ServerStep::Start(self.specs[i].clone());
            }
            i = i + 1;
        }
        assert(self.specs@.take(self.specs@.len() as int) =~= self.specs@);
        ServerStep::Unavailable
    }

    /// The server for `lang` was started.
    pub fn server_started(&mut self, lang: &str)
        ensures
            keeps_tried(*old(self), *final(self)),
            final(self).wf() == old(self).wf(),
            final(self).running_spec() == old(self).running_spec().push(lang@),
            final(self).attempted_spec() == old(self).attempted_spec(),
            final(self).diagnostics_spec() == old(self).diagnostics_spec(),
            final(self).specs_spec() == old(self).specs_spec(),
            final(self).root_spec() == old(self).root_spec(),
            final(self).last_error_spec() == old(self).last_error_spec(),
    {
        let ghost before = self.running@;
        self.running.push(String::from_str(lang));
        assert(self.running_spec() =~= old(self).running_spec().push(lang@)) by {
            assert(self.running@ == before.push(self.running@.last()));
        }
    }

    /// The server for `lang` failed to start with message `err`.
    pub fn server_failed(&mut self, lang: &str, err: &str)
        ensures
            keeps_tried(*old(self), *final(self)),
            final(self).last_error_spec() matches Some(e) && e@ == lang@ + ": "@ + err@,
            final(self).wf() == old(self).wf(),
            final(self).running_spec() == old(self).running_spec(),
            final(self).attempted_spec() == old(self).attempted_spec(),
            final(self).diagnostics_spec() == old(self).diagnostics_spec(),
            final(self).specs_spec() == old(self).specs_spec(),
            final(self).root_spec() == old(self).root_spec(),
    {
        let mut e = concat(lang, ": ");
        e.append(err);
        self.last_error = Some(e);
    }

    /// The server for `lang` stopped: it no longer runs.
    pub fn server_stopped(&mut self, lang: &str)
        ensures
            keeps_tried(*old(self), *final(self)),
            final(self).running_spec() == old(self).running_spec().filter(|l: Seq<char>| l != lang@),
            final(self).wf() == old(self).wf(),
            final(self).attempted_spec() == old(self).attempted_spec(),
            final(self).diagnostics_spec() == old(self).diagnostics_spec(),
            final(self).specs_spec() == old(self).specs_spec(),
            final(self).root_spec() == old(self).root_spec(),
            final(self).last_error_spec() == old(self).last_error_spec(),
    {
        let ghost pred = |l: Seq<char>| l != lang@;
        let ghost old_run = self.running_spec();
        let mut kept: Vec<String> = Vec::new();
        let mut i: usize = 0;
        while i < self.running.len()
            invariant
                i <= self.running@.len(),
                old_run == self.running_spec(),
                pred == (|l: Seq<char>| l != lang@),
                kept@.map_values(|s: String| s@) == old_run.take(i as int).filter(pred),
            decreases self.running@.len() - i,
        {
            proof {
                reveal_with_fuel(Seq::filter, 1);
                let next = old_run.take(i + 1);
                assert(next.drop_last() =~= old_run.take(i as int));
                assert(old_run[i as int] == self.running@[i as int]@);
            }
            if !str_eq(self.running[i].as_str(), lang) {
                let ghost before = kept@;
                kept.push(self.running[i].clone());
                assert(kept@.map_values(|s: String| s@) =~= before.map_values(|s: String| s@).push(old_run[i as int]));
            }
            i = i + 1;
        }
        assert(old_run.take(old_run.len() as int) =~= old_run);
        self.running = kept;
    }

    /// The server published `diags` for the document `uri`; they replace
    /// what it reported before for that document.
    #[verifier::loop_isolation(false)]
    pub fn apply_diagnostics(&mut self, uri: String, diags: Vec<Diagnostic>)
        requires
            old(self).wf(),
        ensures
            keeps_tried(*old(self), *final(self)),
            final(self).wf(),
            final(self).diagnostics_spec() == old(self).diagnostics_spec().insert(uri@, diags),
            final(self).running_spec() == old(self).running_spec(),
            final(self).attempted_spec() == old(self).attempted_spec(),
            final(self).specs_spec() == old(self).specs_spec(),
            final(self).root_spec() == old(self).root_spec(),
            final(self).last_error_spec() == old(self).last_error_spec(),
    {
        let mut i: usize = 0;
        while i < self.diagnostics.len()
            invariant
                i <= self.diagnostics@.len(),
                *self == *old(self),
                distinct_keys(self.diagnostics@),
                forall|j: int| 0 <= j < i ==> self.diagnostics@[j].0@ != uri@,
            decreases self.diagnostics@.len() - i,
        {
            if str_eq(self.diagnostics[i].0.as_str(), uri.as_str()) {
                let ghost before = self.diagnostics@;
                let key = self.diagnostics[i].0.clone();
                self.diagnostics.set(i, (key, diags));
                proof {
                    lemma_docs_map_set(before, i as int, diags);
                    lemma_docs_map_value(before, i as int);
                }
                return;
            }
            i = i + 1;
        }
        let ghost before = self.diagnostics@;
        proof {
            lemma_docs_map_keys(before, uri@);
        }
        let ghost e = (uri, diags);
        self.diagnostics.push((uri, diags));
        proof {
            lemma_assoc_push(before, e);
        }
    }

    /// The document `uri` was closed: its diagnostics are forgotten.
    #[verifier::loop_isolation(false)]
    pub fn forget_diagnostics(&mut self, uri: &str)
        requires
            old(self).wf(),
        ensures
            keeps_tried(*old(self), *final(self)),
            final(self).wf(),
            final(self).diagnostics_spec() == old(self).diagnostics_spec().remove(uri@),
            final(self).running_spec() == old(self).running_spec(),
            final(self).attempted_spec() == old(self).attempted_spec(),
            final(self).specs_spec() == old(self).specs_spec(),
            final(self).root_spec() == old(self).root_spec(),
            final(self).last_error_spec() == old(self).last_error_spec(),
    {
        let mut i: usize = 0;
        while i < self.diagnostics.len()
            invariant
                i <= self.diagnostics@.len(),
                *self == *old(self),
                distinct_keys(self.diagnostics@),
                forall|j: int| 0 <= j < i ==> self.diagnostics@[j].0@ != uri@,
            decreases self.diagnostics@.len() - i,
        {
            if str_eq(self.diagnostics[i].0.as_str(), uri) {
                let ghost before = self.diagnostics@;
                self.diagnostics.remove(i);
                proof {
                    lemma_docs_map_remove(before, i as int);
                }
                return;
            }
            i = i + 1;
        }
        proof {
            lemma_docs_map_keys(self.diagnostics@, uri@);
            assert(self.diagnostics_spec().remove(uri@) =~= self.diagnostics_spec());
        }
    }

    /// The diagnostics, one entry per document.
    pub fn diagnostics(&self) -> (r: &Vec<(String, Vec<Diagnostic>)>)
        ensures
            r@ == self.diagnostic_entries(),
    {
        &self.diagnostics
    }

    /// Numbers of errors and of warnings over all documents.
    pub fn total_count(&self) -> (r: (usize, usize))
        requires
            total_severity(self.diagnostic_entries(), SEVERITY_ERROR) <= usize::MAX,
            total_severity(self.diagnostic_entries(), SEVERITY_WARNING) <= usize::MAX,
        ensures
            r.0 == total_severity(self.diagnostic_entries(), SEVERITY_ERROR),
            r.1 == total_severity(self.diagnostic_entries(), SEVERITY_WARNING),
    {
        let mut errors: usize = 0;
        let mut warnings: usize = 0;
        let mut i: usize = 0;
        while i < self.diagnostics.len()
            invariant
                i <= self.diagnostics@.len(),
                errors == total_severity(self.diagnostics@.take(i as int), SEVERITY_ERROR),
                warnings == total_severity(self.diagnostics@.take(i as int), SEVERITY_WARNING),
                total_severity(self.diagnostics@, SEVERITY_ERROR) <= usize::MAX,
                total_severity(self.diagnostics@, SEVERITY_WARNING) <= usize::MAX,
            decreases self.diagnostics@.len() - i,
        {
            proof {
                assert(self.diagnostics@.take(i + 1).drop_last() =~= self.diagnostics@.take(i as int));
                lemma_total_prefix(self.diagnostics@, i + 1, SEVERITY_ERROR);
                lemma_total_prefix(self.diagnostics@, i + 1, SEVERITY_WARNING);
            }
            let diags = &self.diagnostics[i].1;
            let mut j: usize = 0;
            let ghost e0 = errors;
            let ghost w0 = warnings;
            while j < diags.len()
                invariant
                    j <= diags@.len(),
                    errors == e0 + count_severity(diags@.take(j as int), SEVERITY_ERROR),
                    warnings == w0 + count_severity(diags@.take(j as int), SEVERITY_WARNING),
                    e0 + count_severity(diags@, SEVERITY_ERROR) <= usize::MAX,
                    w0 + count_severity(diags@, SEVERITY_WARNING) <= usize::MAX,
                decreases diags@.len() - j,
            {
                proof {
                    assert(diags@.take(j + 1).drop_last() =~= diags@.take(j as int));
                    lemma_count_prefix(diags@, j + 1, SEVERITY_ERROR);
                    lemma_count_prefix(diags@, j + 1, SEVERITY_WARNING);
                }
                match diags[j].severity {
                    Some(s) => {
                        if s == SEVERITY_ERROR {
                            errors = errors + 1;
                        } else if s == SEVERITY_WARNING {
                            warnings = warnings + 1;
                        }
                    },
                    None => {},
                }
                j = j + 1;
            }
            assert(diags@.take(diags@.len() as int) =~= diags@);
            i = i + 1;
        }
        assert(self.diagnostics@.take(self.diagnostics@.len() as int) =~= self.diagnostics@);
        (errors, warnings)
    }

    /// The languages whose server runs.
    pub fn active_languages(&self) -> (r: Vec<String>)
        ensures
            r@.map_values(|s: String| s@) == self.running_spec(),
    {
        clone_strings(&self.running)
    }
}

proof fn lemma_names(names: Seq<String>, lang: Seq<char>)
    ensures
        names.map_values(|s: String| s@).contains(lang) <==> has_name(names, lang),
{
    let m = names.map_values(|s: String| s@);
    if m.contains(lang) {
        let i = choose|i: int| 0 <= i < m.len() && m[i] == lang;
        assert(names[i]@ == lang);
    }
    if has_name(names, lang) {
        let i = choose|i: int| 0 <= i < names.len() && (#[trigger] names[i])@ == lang;
        assert(names.map_values(|s: String| s@)[i] == lang);
    }
}

proof fn lemma_spec_index_prefix(specs: Seq<ServerSpec>, k: int, lang: Seq<char>)
    requires
        0 < k <= specs.len(),
        spec_index_of(specs.take(k - 1), lang) is None,
        specs[k - 1].language_id@ == lang,
    ensures
        spec_index_of(specs, lang) == Some(k - 1),
    decreases specs.len() - k,
{
    assert(specs.take(k).drop_last() =~= specs.take(k - 1));
    if k < specs.len() {
        lemma_spec_index_prefix_extend(specs, k, lang);
    } else {
        assert(specs.take(k) =~= specs);
    }
}

proof fn lemma_spec_index_prefix_extend(specs: Seq<ServerSpec>, k: int, lang: Seq<char>)
    requires
        0 < k <= specs.len(),
        spec_index_of(specs.take(k), lang) is Some,
    ensures
        spec_index_of(specs, lang) == spec_index_of(specs.take(k), lang),
    decreases specs.len() - k,
{
    if k < specs.len() {
        assert(specs.take(k + 1).drop_last() =~= specs.take(k));
        lemma_spec_index_prefix_extend(specs, k + 1, lang);
    } else {
        assert(specs.take(k) =~= specs);
    }
}

proof fn lemma_total_prefix(entries: Seq<(String, Vec<Diagnostic>)>, k: int, sev: i32)
    requires
        0 <= k <= entries.len(),
    ensures
        total_severity(entries.take(k), sev) <= total_severity(entries, sev),
    decreases entries.len() - k,
{
    if k < entries.len() {
        assert(entries.take(k + 1).drop_last() =~= entries.take(k));
        lemma_total_prefix(entries, k + 1, sev);
    } else {
        assert(entries.take(k) =~= entries);
    }
}

proof fn lemma_count_prefix(diags: Seq<Diagnostic>, k: int, sev: i32)
    requires
        0 <= k <= diags.len(),
    ensures
        count_severity(diags.take(k), sev) <= count_severity(diags, sev),
    decreases diags.len() - k,
{
    if k < diags.len() {
        assert(diags.take(k + 1).drop_last() =~= diags.take(k));
        lemma_count_prefix(diags, k + 1, sev);
    } else {
        assert(diags.take(k) =~= diags);
    }
}

} // verus!
