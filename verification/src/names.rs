//! The names of registers in a dump.
use crate::hgr::is_digit;
use regex::Regex;
use vstd::prelude::*;

verus! {

/// `text` holds `part` at position `i`.
pub open spec fn holds_at(text: Seq<char>, part: Seq<char>, i: int) -> bool {
    0 <= i && i + part.len() <= text.len() && text.subrange(i, i + part.len()) == part
}

/// Between `i` and `j` stands an underscore and then digits, at least one, and
/// behind them two underscores and `reg`.
pub open spec fn is_mark(text: Seq<char>, i: int, j: int) -> bool {
    &&& 0 <= i
    &&& i + 1 < j <= text.len()
    &&& text[i] == '_'
    &&& forall|k: int| i < k < j ==> is_digit(#[trigger] text[k])
    &&& holds_at(text, seq!['_', '_', 'r', 'e', 'g'], j)
}

/// A name that synthesis made up for a register.
pub open spec fn is_generated(text: Seq<char>) -> bool {
    exists|i: int, j: int| is_mark(text, i, j)
}

/// The characters of array indices.
pub open spec fn is_index_char(c: char) -> bool {
    is_digit(c) || c == ':' || c == '[' || c == ']'
}

/// At `i` stands `_reg`, and behind it array indices up to the end: an opening
/// bracket and at least one more of their characters.
pub open spec fn is_indexed_reg(text: Seq<char>, i: int) -> bool {
    &&& holds_at(text, seq!['_', 'r', 'e', 'g', '['], i)
    &&& i + 5 < text.len()
    &&& forall|k: int| i + 5 <= k < text.len() ==> is_index_char(#[trigger] text[k])
}

/// `Regex::is_match` for the pattern of made-up names: whether there is an
/// underscore, digits, two underscores and `reg` anywhere in the text.
#[verifier::external_body]
fn regex_is_match(pattern: &str, text: &str) -> (r: bool)
    requires
        pattern@ == "_[0-9]+__reg"@,
    ensures
        r == is_generated(text@),
{
    Regex::new(pattern).unwrap().is_match(text)
}

/// `Regex::captures` for the pattern of indexed registers: the group is what
/// stands behind the `_reg` that array indices follow up to the end of the
/// text.
#[verifier::external_body]
fn regex_group(pattern: &str, text: &str) -> (r: Option<String>)
    requires
        pattern@ == "_reg(\\[[0-9:\\[\\]]+\\]*)$"@,
    ensures
        match r {
            Some(group) => exists|i: int| #[trigger]
                is_indexed_reg(text@, i) && group@ == text@.skip(i + 4),
            None => forall|i: int| !#[trigger] is_indexed_reg(text@, i),
        },
{
    Regex::new(pattern).unwrap().captures(text).map(|groups| groups[1].to_owned())
}

/// `Regex::replace` for the pattern of indexed registers: the `_reg` that array
/// indices follow up to the end of the text gives way, together with them, to
/// the replacement, which holds no reference to a group.
#[verifier::external_body]
fn regex_replace(pattern: &str, text: &str, replacement: &str) -> (r: String)
    requires
        pattern@ == "_reg(\\[[0-9:\\[\\]]+\\]*)$"@,
        !replacement@.contains('$'),
    ensures
        forall|i: int| #[trigger] is_indexed_reg(text@, i) ==> r@ == text@.take(i) + replacement@,
        (forall|i: int| !#[trigger] is_indexed_reg(text@, i)) ==> r@ == text@,
{
    Regex::new(pattern).unwrap().replace(text, replacement).into_owned()
}

/// White space.
pub open spec fn is_white(c: char) -> bool {
    ||| '\u{9}' <= c && c <= '\u{d}'
    ||| c == ' '
    ||| c == '\u{85}'
    ||| c == '\u{a0}'
    ||| c == '\u{1680}'
    ||| '\u{2000}' <= c && c <= '\u{200a}'
    ||| c == '\u{2028}'
    ||| c == '\u{2029}'
    ||| c == '\u{202f}'
    ||| c == '\u{205f}'
    ||| c == '\u{3000}'
}

/// A text without the white space at its ends.
pub open spec fn trimmed(s: Seq<char>) -> Seq<char>
    decreases s.len(),
{
    if s.len() == 0 {
        s
    } else if is_white(s[0]) {
        trimmed(s.skip(1))
    } else if is_white(s.last()) {
        trimmed(s.drop_last())
    } else {
        s
    }
}

/// `str::trim`: the text without the white space at its ends, where white space
/// is what Unicode calls so.
#[verifier::external_body]
fn trim(s: &str) -> (r: &str)
    ensures
        r@ == trimmed(s@),
{
    s.trim()
}

/// A text ends with `end`.
pub open spec fn ends_with(s: Seq<char>, end: Seq<char>) -> bool {
    s.len() >= end.len() && s.skip(s.len() - end.len()) == end
}

/// A text without `end` at its end, however often it stands there.
pub open spec fn without_ends(s: Seq<char>, end: Seq<char>) -> Seq<char>
    decreases s.len(),
{
    if end.len() > 0 && ends_with(s, end) {
        without_ends(s.take(s.len() - end.len()), end)
    } else {
        s
    }
}

/// `str::strip_suffix`: the text in front of `end`, where it ends with it.
#[verifier::external_body]
fn strip_suffix<'i>(s: &'i str, end: &str) -> (r: Option<&'i str>)
    ensures
        match r {
            Some(front) => ends_with(s@, end@) && front@ == s@.take(s@.len() - end@.len()),
            None => !ends_with(s@, end@),
        },
{
    s.strip_suffix(end)
}

/// `str::trim_end_matches`: the text without `end` at its end, however often it
/// stands there.
#[verifier::external_body]
fn trim_end_matches<'i>(s: &'i str, end: &str) -> (r: &'i str)
    requires
        end@.len() > 0,
    ensures
        r@ == without_ends(s@, end@),
{
    s.trim_end_matches(end)
}

/// The name of the pin without the name of its port.
pub open spec fn without_port(s: Seq<char>) -> Seq<char> {
    if ends_with(s, seq![':', 'Q']) {
        s.take(s.len() - 2)
    } else {
        s
    }
}

/// A name without the `_reg` that synthesis gives registers: in front of array
/// indices at the end, or at the end itself, however often.
pub open spec fn without_reg(s: Seq<char>) -> Seq<char> {
    if exists|i: int| is_indexed_reg(s, i) {
        let i = choose|i: int| is_indexed_reg(s, i);
        s.take(i) + s.skip(i + 4)
    } else {
        without_ends(s, seq!['_', 'r', 'e', 'g'])
    }
}

/// The name of the signal of a register in the dump, from that of its output
/// pin.
pub open spec fn wire_name_of(pin_name: Seq<char>) -> Seq<char> {
    without_reg(trimmed(without_port(pin_name)))
}

/// Only one `_reg` can be followed by array indices up to the end.
pub proof fn lemma_indexed_reg(s: Seq<char>, i: int, j: int)
    requires
        is_indexed_reg(s, i),
        is_indexed_reg(s, j),
    ensures
        i == j,
{
    let part = seq!['_', 'r', 'e', 'g', '['];
    assert forall|a: int| #[trigger] holds_at(s, part, a) implies s[a] == '_' && s[a + 1] == 'r' && s[a
        + 2] == 'e' && s[a + 3] == 'g' && s[a + 4] == '[' by {
        assert forall|k: int| 0 <= k < 5 implies s[a + k] == part[k] by {
            assert(s.subrange(a, a + 5)[k] == part[k]);
        }
        assert(s[a + 0] == part[0]);
        assert(s[a + 1] == part[1]);
        assert(s[a + 2] == part[2]);
        assert(s[a + 3] == part[3]);
        assert(s[a + 4] == part[4]);
    }
    assert(holds_at(s, part, i) && holds_at(s, part, j));
    if i < j {
        if j >= i + 5 {
            assert(is_index_char(s[j]));
        } else {
            assert(j == i + 1 || j == i + 2 || j == i + 3 || j == i + 4);
        }
    } else if j < i {
        if i >= j + 5 {
            assert(is_index_char(s[i]));
        } else {
            assert(i == j + 1 || i == j + 2 || i == j + 3 || i == j + 4);
        }
    }
}

/// Whether synthesis made up the name of a register.
pub fn is_generated_name(name: &str) -> (r: bool)
    ensures
        r == is_generated(name@),
{
    regex_is_match("_[0-9]+__reg", name)
}

/// The name of the signal of a register in the dump, from that of its output
/// pin.
pub fn wire_name(pin_name: &str) -> (r: String)
    ensures
        r@ == wire_name_of(pin_name@),
{
    proof {
        reveal_strlit(":Q");
        reveal_strlit("_reg");
        assert(":Q"@ =~= seq![':', 'Q']);
        assert("_reg"@ =~= seq!['_', 'r', 'e', 'g']);
    }
    let cell: &str = match strip_suffix(pin_name, ":Q") {
        Some(front) => front,
        None => pin_name,
    };
    let name: &str = trim(cell);
    let ghost s = name@;
    match regex_group("_reg(\\[[0-9:\\[\\]]+\\]*)$", name) {
        Some(indices) => {
            let ghost i = choose|i: int| #[trigger]
                is_indexed_reg(s, i) && indices@ == s.skip(i + 4);
            proof {
                lemma_indexed_reg(s, i, choose|j: int| is_indexed_reg(s, j));
                assert forall|k: int| 0 <= k < indices@.len() implies indices@[k] != '$' by {
                    assert(indices@[k] == s[i + 4 + k]);
                    if k == 0 {
                        assert(s.subrange(i, i + 5)[4] == seq!['_', 'r', 'e', 'g', '['][4]);
                    } else {
                        assert(is_index_char(s[i + 4 + k]));
                    }
                }
            }
            regex_replace("_reg(\\[[0-9:\\[\\]]+\\]*)$", name, indices.as_str())
        },
        None => trim_end_matches(name, "_reg").to_owned(),
    }
}

} // verus!
