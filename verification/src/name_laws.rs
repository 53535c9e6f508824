//! How registers are named in a dump.
use crate::hgr::is_digit;
use crate::names::{
    ends_with, is_generated, is_index_char, is_indexed_reg, is_mark, is_white, trimmed,
    wire_name_of, without_ends, without_reg,
};
use vstd::prelude::*;

verus! {

/// The mark of a register.
pub open spec fn reg() -> Seq<char> {
    seq!['_', 'r', 'e', 'g']
}

/// The port of a register's output.
pub open spec fn q_port() -> Seq<char> {
    seq![':', 'Q']
}

/// A text without white space at its ends.
pub open spec fn is_tight(s: Seq<char>) -> bool {
    s.len() > 0 && !is_white(s[0]) && !is_white(s.last())
}

/// What stands at the end of a text.
proof fn lemma_ends(s: Seq<char>, end: Seq<char>)
    ensures
        ends_with(s + end, end),
        (s + end).take((s + end).len() - end.len()) == s,
{
    assert((s + end).skip(s.len() as int) =~= end);
    assert((s + end).take(s.len() as int) =~= s);
}

/// The wire of a register has the name of the register without the mark that
/// synthesis gives it, and the port does not count: `name_reg:Q` and `name_reg`
/// are both called `name`.  A mark that stands there several times is taken away
/// as often.
pub proof fn wires_are_named_after_their_registers(name: Seq<char>)
    requires
        is_tight(name),
        !ends_with(name, reg()),
    ensures
        wire_name_of(name + reg() + q_port()) == name,
        wire_name_of(name + reg() + reg() + q_port()) == name,
        !ends_with(name, q_port()) && (forall|i: int| !is_indexed_reg(name, i)) ==> wire_name_of(
            name,
        ) == name,
        (forall|i: int| !is_indexed_reg(name, i)) ==> wire_name_of(name + q_port()) == name,
{
    let once = name + reg();
    let twice = once + reg();
    lemma_ends(once, q_port());
    lemma_ends(twice, q_port());
    lemma_ends(name, q_port());
    lemma_ends(name, reg());
    lemma_ends(once, reg());
    lemma_plain(once);
    lemma_plain(twice);
    assert(once[0] == name[0] && twice[0] == name[0]);
    assert(trimmed(once) == once);
    assert(trimmed(twice) == twice);
    assert(trimmed(name) == name);
    reveal_with_fuel(without_ends, 3);
    assert(without_ends(once, reg()) == name);
    assert(without_ends(twice, reg()) == name);
}

/// A text that ends with the mark has no indices behind it.
proof fn lemma_plain(s: Seq<char>)
    requires
        ends_with(s, reg()),
    ensures
        forall|i: int| !is_indexed_reg(s, i),
{
    assert forall|i: int| !is_indexed_reg(s, i) by {
        if is_indexed_reg(s, i) {
            let k = s.len() - 1;
            assert(s.skip(s.len() - 4)[3] == reg()[3]);
            assert(s[k] == 'g');
            assert(is_index_char(s[k]));
        }
    }
}

/// Array indices stay behind the name: `name_reg[3]:Q` is called `name[3]`, whatever
/// the indices are.
pub proof fn wires_keep_their_indices(name: Seq<char>, indices: Seq<char>)
    requires
        name.len() > 0,
        !is_white(name[0]),
        indices.len() >= 2,
        indices[0] == '[',
        forall|k: int| 1 <= k < indices.len() ==> is_index_char(#[trigger] indices[k]),
    ensures
        wire_name_of(name + reg() + indices + q_port()) == name + indices,
{
    let s = name + reg() + indices;
    let n = name.len() as int;
    lemma_ends(s, q_port());
    assert(s[0] == name[0]);
    assert(s.last() == indices.last());
    assert(is_index_char(indices[indices.len() - 1]));
    assert(trimmed(s) == s);
    assert(is_indexed_reg(s, n)) by {
        let mark = seq!['_', 'r', 'e', 'g', '['];
        assert(s.subrange(n, n + 5) =~= mark);
        assert forall|k: int| n + 5 <= k < s.len() implies is_index_char(#[trigger] s[k]) by {
            assert(s[k] == indices[k - n - 4]);
        }
    }
    let i = choose|i: int| is_indexed_reg(s, i);
    crate::names::lemma_indexed_reg(s, i, n);
    assert(s.take(n) =~= name);
    assert(s.skip(n + 4) =~= indices);
    assert(without_reg(s) == name + indices);
}

/// White space around a name does not count, in front of the port either.
pub proof fn white_space_does_not_count(name: Seq<char>, c: char)
    requires
        is_tight(name),
        is_white(c),
    ensures
        trimmed(seq![c] + name) == name,
        trimmed(name + seq![c]) == name,
        trimmed(name) == name,
        wire_name_of(name + seq![c] + q_port()) == wire_name_of(name + q_port()),
{
    let a = seq![c] + name;
    let b = name + seq![c];
    assert(a.skip(1) =~= name);
    assert(b.drop_last() =~= name);
    assert(trimmed(name) == name);
    lemma_ends(b, q_port());
    lemma_ends(name, q_port());
}

/// A name is made up where it holds an underscore, digits, two underscores and
/// `reg`, whatever stands around them.
pub proof fn made_up_names_hold_a_number(a: Seq<char>, digits: Seq<char>, b: Seq<char>)
    requires
        digits.len() > 0,
        forall|k: int| 0 <= k < digits.len() ==> is_digit(#[trigger] digits[k]),
    ensures
        is_generated(a + seq!['_'] + digits + seq!['_', '_', 'r', 'e', 'g'] + b),
{
    let tail = seq!['_', '_', 'r', 'e', 'g'];
    let text = a + seq!['_'] + digits + tail + b;
    let i = a.len() as int;
    let j = i + 1 + digits.len();
    assert(text[i] == '_');
    assert forall|k: int| i < k < j implies is_digit(#[trigger] text[k]) by {
        assert(text[k] == digits[k - i - 1]);
    }
    assert(text.subrange(j, j + 5) =~= tail);
    assert(is_mark(text, i, j));
}

/// A name that is not made up: nowhere does a digit stand behind an underscore.
pub proof fn names_without_numbers_are_not_made_up(text: Seq<char>)
    requires
        forall|i: int|
            0 <= i < text.len() - 1 && #[trigger] text[i] == '_' ==> !is_digit(text[i + 1]),
    ensures
        !is_generated(text),
{
    if is_generated(text) {
        let (i, j) = choose|i: int, j: int| is_mark(text, i, j);
        assert(text[i] == '_');
        assert(is_digit(text[i + 1]));
    }
}

} // verus!
