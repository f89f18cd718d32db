//! Text handling around the chart files: file-name sanitization, the name of
//! a container entry, and the start of the JSON text of a source chart.
use vstd::prelude::*;
use vstd::utf8::{decode_utf8, valid_utf8};

verus! {

/// Relies on `str::chars` collected into a `Vec`: the characters of `s`, in order.
#[verifier::external_body]
pub(crate) fn chars_of(s: &str) -> (r: Vec<char>)
    ensures
        r@ == s@,
{
    s.chars().collect()
}

/// Relies on `String`'s `FromIterator<char>`: the string of exactly these characters.
#[verifier::external_body]
pub(crate) fn string_from_chars(cs: &Vec<char>) -> (r: String)
    ensures
        r@ == cs@,
{
    cs.iter().collect()
}

/// Relies on `std::str::from_utf8`: it succeeds exactly on valid UTF-8 and
/// then yields the decoded characters.
#[verifier::external_body]
fn utf8_to_string(b: &Vec<u8>) -> (r: Option<String>)
    ensures
        r is Some <==> valid_utf8(b@),
        r matches Some(s) ==> s@ == decode_utf8(b@),
{
    match std::str::from_utf8(b.as_slice()) {
        Ok(s) => Some(s.to_string()),
        Err(_) => None,
    }
}

/// The characters that the target ecosystem refuses in file names besides
/// non-ASCII ones: path separators and wildcards.
pub open spec fn is_reserved_char(c: char) -> bool {
    c == '\\' || c == '/' || c == ':' || c == '*' || c == '?' || c == '"' || c == '<' || c == '>'
        || c == '|'
}

pub open spec fn sanitize_char(c: char) -> char {
    if (c as u32) < 128 && !is_reserved_char(c) {
        c
    } else {
        '_'
    }
}

/// A file name with every non-ASCII or reserved character replaced by `_`.
pub open spec fn sanitized(s: Seq<char>) -> Seq<char> {
    s.map_values(|c: char| sanitize_char(c))
}

/// Replaces every non-ASCII or reserved character of `cs` by `_`.
pub fn sanitize_chars(cs: &Vec<char>) -> (r: Vec<char>)
    ensures
        r@ == sanitized(cs@),
{
    let mut out: Vec<char> = Vec::new();
    let mut i: usize = 0;
    while i < cs.len()
        invariant
            i <= cs@.len(),
            out@ == sanitized(cs@.take(i as int)),
        decreases cs@.len() - i,
    {
        let c = cs[i];
        let keep = (c as u32) < 128 && !(c == '\\' || c == '/' || c == ':' || c == '*' || c == '?'
            || c == '"' || c == '<' || c == '>' || c == '|');
        out.push(if keep { c } else { '_' });
        i = i + 1;
        proof {
            assert(out@ =~= sanitized(cs@.take(i as int)));
        }
    }
    proof {
        assert(cs@.take(cs@.len() as int) =~= cs@);
    }
    out
}

/// Sanitizes a file name for the target ecosystem: every non-ASCII character
/// and every path separator or wildcard (`\ / : * ? " < > |`) becomes `_`.
pub fn sanitize_filename(file_name: &str) -> (r: String)
    ensures
        r@ == sanitized(file_name@),
{
    let cs = chars_of(file_name);
    let out = sanitize_chars(&cs);
    string_from_chars(&out)
}

/// Sanitizing twice is sanitizing once.
pub proof fn lemma_sanitize_idempotent(s: Seq<char>)
    ensures
        sanitized(sanitized(s)) == sanitized(s),
{
    assert(sanitized(sanitized(s)) =~= sanitized(s));
}

/// A sanitized name holds only ASCII characters and no reserved one.
pub proof fn lemma_sanitized_is_safe(s: Seq<char>)
    ensures
        forall|i: int| 0 <= i < sanitized(s).len() ==> (#[trigger] sanitized(s)[i] as u32) < 128
            && !is_reserved_char(sanitized(s)[i]),
{
}

/// Index of the first `{` of `s`, or its length when there is none.
pub open spec fn brace_index(s: Seq<char>) -> int
    decreases s.len(),
{
    if s.len() == 0 {
        0
    } else if s[0] == '{' {
        0
    } else {
        1 + brace_index(s.drop_first())
    }
}

/// The JSON text of a source chart file: everything from the first `{` on
/// (what some authoring tools write before it is dropped), or the whole text
/// when it holds no `{`.
pub open spec fn json_text(s: Seq<char>) -> Seq<char> {
    if brace_index(s) < s.len() {
        s.skip(brace_index(s))
    } else {
        s
    }
}

proof fn lemma_brace_index(s: Seq<char>, i: int)
    requires
        0 <= i <= s.len(),
        forall|k: int| 0 <= k < i ==> s[k] != '{',
        i == s.len() || s[i] == '{',
    ensures
        brace_index(s) == i,
    decreases s.len(),
{
    if s.len() > 0 && i > 0 {
        lemma_brace_index(s.drop_first(), i - 1);
    }
}

fn copy_range(cs: &Vec<char>, from: usize, to: usize) -> (r: Vec<char>)
    requires
        from <= to <= cs@.len(),
    ensures
        r@ == cs@.subrange(from as int, to as int),
{
    let mut out: Vec<char> = Vec::new();
    let mut i: usize = from;
    while i < to
        invariant
            from <= i <= to <= cs@.len(),
            out@ == cs@.subrange(from as int, i as int),
        decreases to - i,
    {
        out.push(cs[i]);
        i = i + 1;
        proof {
            assert(out@ =~= cs@.subrange(from as int, i as int));
        }
    }
    out
}

/// Drops whatever precedes the first `{` of a source chart file's text.
pub fn strip_to_json_start(content: &str) -> (r: String)
    ensures
        r@ == json_text(content@),
{
    let cs = chars_of(content);
    let mut i: usize = 0;
    while i < cs.len() && cs[i] != '{'
        invariant
            i <= cs@.len(),
            forall|k: int| 0 <= k < i ==> cs@[k] != '{',
        decreases cs@.len() - i,
    {
        i = i + 1;
    }
    proof {
        lemma_brace_index(cs@, i as int);
    }
    if i < cs.len() {
        let out = copy_range(&cs, i, cs.len());
        proof {
            assert(out@ =~= cs@.skip(i as int));
        }
        string_from_chars(&out)
    } else {
        string_from_chars(&cs)
    }
}

/// The last component of a `/`-separated entry name: what follows the last `/`.
pub open spec fn base_name(s: Seq<char>) -> Seq<char>
    decreases s.len(),
{
    if s.len() == 0 {
        s
    } else if s.last() == '/' {
        seq![]
    } else {
        base_name(s.drop_last()).push(s.last())
    }
}

proof fn lemma_base_name(s: Seq<char>, j: int)
    requires
        0 <= j <= s.len(),
        j == 0 || s[j - 1] == '/',
        forall|k: int| j <= k < s.len() ==> s[k] != '/',
    ensures
        base_name(s) == s.skip(j),
    decreases s.len(),
{
    if s.len() > 0 {
        if j == s.len() {
            assert(s.skip(j) =~= seq![]);
        } else {
            lemma_base_name(s.drop_last(), j);
            assert(s.drop_last().skip(j).push(s.last()) =~= s.skip(j));
        }
    } else {
        assert(s.skip(j) =~= s);
    }
}

/// The name given to a container entry whose raw name is not valid UTF-8.
pub open spec fn invalid_name_placeholder() -> Seq<char> {
    seq!['i', 'n', 'v', 'a', 'l', 'i', 'd', '_', 'u', 't', 'f', '8', '_', 'n', 'a', 'm', 'e']
}

/// The raw name of a container entry as text: decoded when it is valid UTF-8,
/// the placeholder otherwise.
pub open spec fn decoded_entry_name(raw: Seq<u8>) -> Seq<char> {
    if valid_utf8(raw) {
        decode_utf8(raw)
    } else {
        invalid_name_placeholder()
    }
}

/// The file name under which a container entry is extracted: the last
/// component of its name, decoded (or the placeholder), then sanitized.
pub fn entry_file_name(raw: &Vec<u8>) -> (r: String)
    ensures
        r@ == sanitized(base_name(decoded_entry_name(raw@))),
{
    let name: Vec<char> = match utf8_to_string(raw) {
        Some(s) => chars_of(s.as_str()),
        None => vec!['i', 'n', 'v', 'a', 'l', 'i', 'd', '_', 'u', 't', 'f', '8', '_', 'n', 'a', 'm', 'e'],
    };
    proof {
        assert(name@ =~= decoded_entry_name(raw@));
    }
    let mut j: usize = name.len();
    while j > 0 && name[j - 1] != '/'
        invariant
            j <= name@.len(),
            forall|k: int| j <= k < name@.len() ==> name@[k] != '/',
        decreases j,
    {
        j = j - 1;
    }
    proof {
        lemma_base_name(name@, j as int);
    }
    let base = copy_range(&name, j, name.len());
    proof {
        assert(base@ =~= name@.skip(j as int));
    }
    let clean = sanitize_chars(&base);
    string_from_chars(&clean)
}

} // verus!
