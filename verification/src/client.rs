//! The requests and the output of the command-line client.
use vstd::prelude::*;
use vstd::utf8::encode_utf8;

use crate::http::{key_path, kv_path};
use crate::kv::pair_views;

verus! {

// ── Requests ───────────────────────────────────────────────────────────────

/// A byte that stands for itself in a URL.
pub open spec fn is_unreserved(byte: u8) -> bool {
    ||| 48 <= byte <= 57
    ||| 65 <= byte <= 90
    ||| 97 <= byte <= 122
    ||| byte == 45
    ||| byte == 46
    ||| byte == 95
    ||| byte == 126
}

pub open spec fn hex_digit(n: u8) -> char {
    if n < 10 {
        (48 + n) as char
    } else {
        (55 + n) as char
    }
}

/// A byte in a URL: itself, or a percent sign and two hexadecimal digits.
pub open spec fn percent_encoded_byte(byte: u8) -> Seq<char> {
    if is_unreserved(byte) {
        seq![byte as char]
    } else {
        seq!['%', hex_digit(byte / 16), hex_digit(byte % 16)]
    }
}

pub open spec fn percent_encoded(bytes: Seq<u8>) -> Seq<char>
    decreases bytes.len(),
{
    if bytes.len() == 0 {
        Seq::empty()
    } else {
        percent_encoded(bytes.drop_last()) + percent_encoded_byte(bytes.last())
    }
}

/// Calls `urlencoding::encode`: every byte of the text's UTF-8 encoding is percent-encoded except
/// alphanumerics and `-`, `_`, `.`, `~`.
#[verifier::external_body]
fn url_encode(text: &str) -> (encoded: String)
    ensures
        encoded@ == percent_encoded(encode_utf8(text@)),
{
    urlencoding::encode(text).into_owned()
}

/// The URL of a key.
pub fn kv_url(addr: &str, key: &str) -> (url: String)
    ensures
        url@ == addr@ + key_path(key@),
{
    let mut url: String = addr.to_owned();
    let path = kv_path(key);
    url.append(path.as_str());
    url
}

/// The URL of a scan.
pub fn scan_url(addr: &str, prefix: &str) -> (url: String)
    ensures
        url@ == addr@ + "/kv?prefix="@ + percent_encoded(encode_utf8(prefix@)),
{
    let mut url: String = addr.to_owned();
    url.append("/kv?prefix=");
    let encoded = url_encode(prefix);
    url.append(encoded.as_str());
    url
}

/// The URL of the node status.
pub fn status_url(addr: &str) -> (url: String)
    ensures
        url@ == addr@ + "/status"@,
{
    let mut url: String = addr.to_owned();
    url.append("/status");
    url
}

// ── Output ─────────────────────────────────────────────────────────────────

/// The line for one pair of a scan.
pub open spec fn pair_line(pair: (Seq<char>, Seq<char>)) -> Seq<char> {
    pair.0 + " = "@ + pair.1
}

/// The lines for the pairs of a scan, in order; an empty scan says so.
pub open spec fn scan_text(pairs: Seq<(Seq<char>, Seq<char>)>) -> Seq<Seq<char>> {
    if pairs.len() == 0 {
        seq!["(empty)"@]
    } else {
        pairs.map_values(|p: (Seq<char>, Seq<char>)| pair_line(p))
    }
}

pub fn scan_lines(pairs: &[(String, String)]) -> (lines: Vec<String>)
    ensures
        lines@.map_values(|l: String| l@) == scan_text(pair_views(pairs@)),
{
    let mut lines: Vec<String> = Vec::new();
    if pairs.len() == 0 {
        lines.push("(empty)".to_owned());
        assert(lines@.map_values(|l: String| l@) =~= scan_text(pair_views(pairs@)));
        return lines;
    }
    let ghost views = pair_views(pairs@);
    let mut i: usize = 0;
    while i < pairs.len()
        invariant
            i <= pairs@.len(),
            views == pair_views(pairs@),
            lines@.len() == i,
            forall|j: int| 0 <= j < i ==> (#[trigger] lines@[j])@ == pair_line(views[j]),
        decreases pairs@.len() - i,
    {
        let mut line: String = pairs[i].0.clone();
        line.append(" = ");
        line.append(pairs[i].1.as_str());
        assert(views[i as int] == (pairs@[i as int].0@, pairs@[i as int].1@));
        lines.push(line);
        i += 1;
    }
    assert(lines@.map_values(|l: String| l@) =~= scan_text(views));
    lines
}

/// The line for the value of a key.
pub fn value_line(value: Option<String>) -> (line: String)
    ensures
        line@ == (match value {
            Some(v) => v@,
            None => "(not found)"@,
        }),
{
    match value {
        Some(value) => value,
        None => "(not found)".to_owned(),
    }
}

// ── Laws ───────────────────────────────────────────────────────────────────

/// A scan is shown line by line, the key and the value of each pair in the order of the pairs; an
/// empty one is said to be empty.
pub proof fn law_scan_is_shown_line_by_line(pairs: Seq<(Seq<char>, Seq<char>)>)
    ensures
        pairs.len() == 0 ==> scan_text(pairs) == seq!["(empty)"@],
        pairs.len() > 0 ==> {
            &&& scan_text(pairs).len() == pairs.len()
            &&& forall|i: int|
                #![trigger scan_text(pairs)[i]]
                0 <= i < pairs.len() ==> scan_text(pairs)[i] == pairs[i].0 + " = "@ + pairs[i].1
        },
{
}

/// The number that a hexadecimal digit stands for.
pub open spec fn hex_value(c: char) -> int {
    if '0' <= c <= '9' {
        c as int - '0' as int
    } else {
        c as int - 'A' as int + 10
    }
}

/// Letters, digits and four signs stand for themselves in a URL, and every other byte is a percent
/// sign and two hexadecimal digits. The bytes of a text are encoded one by one.
pub proof fn law_urls_are_percent_encoded(first: Seq<u8>, byte: u8)
    ensures
        percent_encoded(first.push(byte)) == percent_encoded(first) + percent_encoded(seq![byte]),
        ('0' <= byte as char <= '9' || 'A' <= byte as char <= 'Z' || 'a' <= byte as char <= 'z'
            || byte as char == '-' || byte as char == '.' || byte as char == '_' || byte as char
            == '~') <==> percent_encoded(seq![byte]) == seq![byte as char],
        percent_encoded(seq![byte]) != seq![byte as char] ==> percent_encoded(seq![byte]).len() == 3
            && percent_encoded(seq![byte])[0] == '%' && hex_value(percent_encoded(seq![byte])[1]) * 16
            + hex_value(percent_encoded(seq![byte])[2]) == byte,
{
    let one = seq![byte];
    assert(one.drop_last() =~= Seq::empty());
    assert(one.last() == byte);
    assert(percent_encoded(Seq::empty()) =~= Seq::empty());
    assert(percent_encoded(one) =~= percent_encoded_byte(byte));
    assert(first.push(byte).drop_last() =~= first);
}

} // verus!
