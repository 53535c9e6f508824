//! Which signals of a design are dumped, and which variables of a dump are read.
use crate::aig::DriverType;

use crate::inputs::{is_bit, lists, num_bits, InputBit};
use crate::names::{is_generated, wire_name_of};
use crate::signals::{
    components, layout_lists_each_input_once, layout_upto, port_of, q_pin, register_of, CellPin,
    OutputPort,
};
use crate::vcd::{scope_at, scope_rest, ReferenceIndex, Scope, ScopeItem, VCDHier, Var};
use crate::words::bits;
use vstd::prelude::*;

verus! {

/// The inputs of a design are laid out in the order of their nodes: ports and
/// flags for clock edges, and nothing else.
pub proof fn inputs_are_laid_out_in_order(drivers: Seq<DriverType>, u: usize, i: int, j: int)
    requires
        drivers.len() <= usize::MAX,
    ensures
        ({
            let layout = layout_upto(drivers, drivers.len() as int);
            &&& layout.contains(u) <==> u < drivers.len() && (drivers[u as int] is InputPort
                || drivers[u as int] is InputClockFlag)
            &&& 0 <= i < j < layout.len() ==> layout[i] < layout[j]
        }),
{
    layout_lists_each_input_once(drivers);
    if 0 <= i < j < layout_upto(drivers, drivers.len() as int).len() {
        lemma_layout_rises(drivers, drivers.len() as int, i, j);
    }
}

/// The layout rises.
proof fn lemma_layout_rises(drivers: Seq<DriverType>, n: int, i: int, j: int)
    requires
        0 <= n <= drivers.len() <= usize::MAX,
        0 <= i < j < layout_upto(drivers, n).len(),
    ensures
        layout_upto(drivers, n)[i] < layout_upto(drivers, n)[j] < n,
    decreases n,
{
    if n > 0 {
        let before = layout_upto(drivers, n - 1);
        if j < before.len() {
            lemma_layout_rises(drivers, n - 1, i, j);
        } else {
            lemma_layout_below(drivers, n - 1, i);
        }
    }
}

/// The layout of the first nodes holds those.
proof fn lemma_layout_below(drivers: Seq<DriverType>, n: int, i: int)
    requires
        0 <= n <= drivers.len() <= usize::MAX,
        0 <= i < layout_upto(drivers, n).len(),
    ensures
        layout_upto(drivers, n)[i] < n,
    decreases n,
{
    if n > 0 {
        if i < layout_upto(drivers, n - 1).len() {
            lemma_layout_below(drivers, n - 1, i);
        }
    }
}

/// What becomes of an output port.  It is left out exactly if an input port
/// drives its node.  Otherwise a constant is dumped as one, and any other
/// literal from the position that it has; it is not dumped where it has none.
pub proof fn outputs_are_dumped_from_their_positions(
    drivers: Seq<DriverType>,
    output_map: Map<usize, u32>,
    aigpin: usize,
)
    requires
        aigpin / 2 < drivers.len(),
    ensures
        port_of(drivers, output_map, aigpin) is PassThrough <==> drivers[(aigpin / 2) as int] is
            InputPort,
        port_of(drivers, output_map, aigpin) is Unmapped <==> !(drivers[(aigpin / 2) as int] is
            InputPort) && aigpin >= 2 && !output_map.contains_key(aigpin),
        port_of(drivers, output_map, aigpin) matches OutputPort::Signal(s) ==> {
            &&& s.aigpin == aigpin
            &&& aigpin < 2 ==> s.pos == 0xffff_ffffu32
            &&& aigpin >= 2 ==> output_map.contains_key(aigpin) && s.pos == output_map[aigpin]
        },
{
}

/// The first pin with the port `Q`.
proof fn lemma_q_pin(pins: Seq<CellPin>, i: int)
    requires
        0 <= i <= pins.len(),
    ensures
        q_pin(pins, i) matches Some(k) ==> i <= k < pins.len() && pins[k].port@ == seq!['Q']
            && forall|j: int| i <= j < k ==> (#[trigger] pins[j]).port@ != seq!['Q'],
        q_pin(pins, i) is None ==> forall|j: int|
            i <= j < pins.len() ==> (#[trigger] pins[j]).port@ != seq!['Q'],
    decreases pins.len() - i,
{
    if i < pins.len() && pins[i].port@ != seq!['Q'] {
        lemma_q_pin(pins, i + 1);
    }
}

/// A register is dumped from the state before a step, under the name of its wire:
/// with pin `k` the first one at port `Q` and `p` the position of its node among
/// the inputs, the signal is read at `p` above the mark 0x8000_0000.  It is left
/// out exactly if its name was made up, its node is 0 or has no position, or no
/// pin is at port `Q`.
pub proof fn registers_are_dumped_from_their_positions(
    cell_name: Seq<char>,
    q: usize,
    pins: Seq<CellPin>,
    input_map: Map<usize, u32>,
    k: int,
)
    requires
        0 <= k < pins.len(),
        pins[k].port@ == seq!['Q'],
        forall|j: int| 0 <= j < k ==> (#[trigger] pins[j]).port@ != seq!['Q'],
    ensures
        register_of(cell_name, q, pins, input_map) is None <==> is_generated(cell_name) || q == 0
            || !input_map.contains_key(q),
        register_of(cell_name, q, pins, input_map) matches Some((s, name)) ==> {
            &&& s.aigpin == q
            &&& name == wire_name_of(pins[k].name@)
            &&& input_map[q] < 0x8000_0000 ==> s.pos == input_map[q] + 0x8000_0000
            &&& input_map[q] >= 0x8000_0000 ==> s.pos == input_map[q]
        },
{
    lemma_q_pin(pins, 0);
    if let Some(j) = q_pin(pins, 0) {
        assert(j == k) by {
            if k < j {
                assert(pins[k].port@ != seq!['Q']);
            }
            if j < k {
                assert(pins[j].port@ != seq!['Q']);
            }
        }
    }
}

/// Registers without a pin at port `Q` are left out.
pub proof fn registers_without_output_are_left_out(
    cell_name: Seq<char>,
    q: usize,
    pins: Seq<CellPin>,
    input_map: Map<usize, u32>,
)
    requires
        forall|j: int| 0 <= j < pins.len() ==> (#[trigger] pins[j]).port@ != seq!['Q'],
    ensures
        register_of(cell_name, q, pins, input_map) is None,
{
    lemma_q_pin(pins, 0);
}

/// No component of a path holds a slash.
pub proof fn components_hold_no_slash(path: Seq<char>, k: int)
    requires
        0 <= k < components(path).len(),
    ensures
        !components(path)[k].contains('/'),
    decreases path.len(),
{
    crate::signals::components_make_the_path(path);
    if path.len() == 0 {
        assert(components(path)[0] =~= Seq::<char>::empty());
    } else {
        let front = path.drop_last();
        crate::signals::components_make_the_path(front);
        let parts = components(front);
        let all = components(path);
        if path.last() == '/' {
            if k < parts.len() {
                components_hold_no_slash(front, k);
            } else {
                assert(all[k] =~= Seq::<char>::empty());
            }
        } else {
            components_hold_no_slash(front, k);
            if k == parts.len() - 1 {
                assert(all[k] == parts[k].push(path.last()));
                assert forall|i: int| 0 <= i < all[k].len() implies all[k][i] != '/' by {
                    if i < parts[k].len() {
                        assert(parts[k].contains(parts[k][i]));
                    }
                }
            } else {
                assert(all[k] == parts[k]);
            }
        }
    }
}

/// Matching one component of a path.  A slash in front does not count.  The
/// component `cur` matches a path that is `cur` itself, with nothing left, and
/// one that goes on with a slash behind `cur`, with what follows left; the empty
/// path is matched by everything, and nothing else matches.
pub proof fn components_match_up_to_a_slash(path: Seq<char>, cur: Seq<char>, rest: Seq<char>)
    requires
        !(path.len() > 0 && path[0] == '/'),
    ensures
        scope_rest(seq!['/'] + path, cur) == scope_rest(path, cur),
        path.len() == 0 ==> scope_rest(path, cur) == Some(Seq::<char>::empty()),
        path == cur ==> scope_rest(path, cur) == Some(Seq::<char>::empty()),
        path.len() > 0 && path == cur + seq!['/'] + rest ==> scope_rest(path, cur) == Some(rest),
        scope_rest(path, cur) matches Some(r) ==> path.len() == 0 || (path == cur && r.len() == 0)
            || path == cur + seq!['/'] + r,
{
    let whole = seq!['/'] + path;
    assert(whole.skip(1) =~= path);
    assert(cur.push('/') =~= cur + seq!['/']);
    if path.len() > 0 && path == cur + seq!['/'] + rest {
        assert(path.len() == cur.len() + 1 + rest.len());
        assert(path.subrange(0, cur.push('/').len() as int) =~= cur.push('/'));
        assert(path.skip(cur.len() as int + 1) =~= rest);
    }
    if let Some(r) = scope_rest(path, cur) {
        if path.len() > 0 && path != cur {
            assert(path =~= cur.push('/') + path.skip(cur.len() as int + 1));
        }
    }
}

/// Where scope `i` is the first one that matches the first component of a path,
/// the path leads to it if nothing is left of the path, and otherwise to where
/// the rest of the path leads inside it; where none matches it leads nowhere.
pub proof fn the_first_scope_that_matches_decides(
    items: Seq<ScopeItem>,
    path: Seq<char>,
    s: int,
    i: int,
)
    requires
        0 <= s <= i <= items.len(),
        forall|k: int|
            s <= k < i ==> (#[trigger] items[k] matches ScopeItem::Scope(scope) ==> scope_rest(
                path,
                scope.identifier@,
            ) is None),
        i < items.len() ==> (items[i] matches ScopeItem::Scope(scope) && scope_rest(
            path,
            scope.identifier@,
        ) is Some),
    ensures
        i == items.len() ==> scope_at(items, path, s) is None,
        i < items.len() ==> (items[i] matches ScopeItem::Scope(scope) ==> {
            let rest = scope_rest(path, scope.identifier@).unwrap();
            scope_at(items, path, s) == if rest.len() == 0 {
                Some(scope)
            } else {
                scope_at(scope.children@, rest, 0)
            }
        }),
    decreases i - s,
{
    if s < i {
        assert(items[s] matches ScopeItem::Scope(scope) ==> scope_rest(path, scope.identifier@) is
            None);
        the_first_scope_that_matches_decides(items, path, s + 1, i);
    }
}

/// The bits of a variable stand together, in the order of a value change, and
/// carry its code.  The bit at place `i` has the index `size - 1 - i` in a
/// variable of several bits without indices, none in one of a single bit, the
/// selected one where one bit is selected, and `a + i` or `a - i` in a range from
/// `a` to `b`, whichever leads from `a` to `b`.
pub proof fn bits_have_their_indices(
    all: Seq<InputBit>,
    items: Seq<ScopeItem>,
    n: int,
    m: int,
    i: int,
    var: Var,
    len: int,
)
    requires
        lists(all, items, n),
        0 <= m < n,
        items[m] == ScopeItem::Var(var),
        len == (match var.index {
            None => var.size as int,
            Some(ReferenceIndex::BitSelect(_)) => 1,
            Some(ReferenceIndex::Range(a, b)) => if a <= b {
                b - a + 1
            } else {
                a - b + 1
            },
        }),
        0 <= i < len,
    ensures
        num_bits(items, m + 1) == num_bits(items, m) + len,
        ({
            let bit = all[num_bits(items, m) + i];
            &&& bit.code == var.code
            &&& bit.item == m
            &&& bit.pos == i
            &&& match var.index {
                None => if var.size == 1 {
                    bit.index is None
                } else {
                    bit.index matches Some(x) && x == var.size - 1 - i
                },
                Some(ReferenceIndex::BitSelect(s)) => bit.index matches Some(x) && x == s,
                Some(ReferenceIndex::Range(a, b)) => bit.index matches Some(x) && x == if a <= b {
                    a + i
                } else {
                    a - i
                },
            }
        }),
{
    assert(is_bit(all[num_bits(items, m) + i], items, m, i));
}

/// Items that are no variables have no bits.
pub proof fn only_variables_have_bits(items: Seq<ScopeItem>, m: int)
    requires
        0 <= m < items.len(),
        !(items[m] is Var),
    ensures
        num_bits(items, m + 1) == num_bits(items, m),
{
}

/// Words hold thirty-two bits each, the lowest first.
pub proof fn words_hold_their_lowest_bit_first(words: Seq<u32>, w: int, i: u32)
    requires
        0 <= w < words.len(),
        i < 32,
    ensures
        bits(words).len() == 32 * words.len(),
        bits(words)[32 * w + i] <==> (words[w] >> i) & 1 == 1,
{
    assert((32 * w + i) / 32 == w && (32 * w + i) % 32 == i as int);
}

/// The names of a hierarchy go from the bottom to the top: first its own, then
/// those of what it lies in, up to the first that has no name.
pub proof fn names_go_from_the_bottom_to_the_top(h: VCDHier, names: Vec<String>, i: int)
    requires
        call_ensures(VCDHier::iter, (&h,), names),
    ensures
        h.cur@.len() == 0 ==> names@.len() == 0,
        h.cur@.len() > 0 ==> names@.len() > 0 && names@[0]@ == h.cur@,
        h.cur@.len() > 0 && h.prev is None ==> names@.len() == 1,
        h.cur@.len() > 0 ==> (h.prev matches Some(prev) ==> names@.len() == 1 + prev.names().len()
            && (0 <= i < prev.names().len() ==> names@[1 + i]@ == prev.names()[i])),
{
    let texts = names@.map_values(|n: String| n@);
    assert(texts.len() == names@.len());
    if h.cur@.len() > 0 {
        assert(texts[0] == names@[0]@);
        if 0 <= i < texts.len() - 1 {
            assert(texts[1 + i] == names@[1 + i]@);
        }
    }
}

} // verus!
