//! The inputs and the signals of a simulated design.
use crate::aig::{node_of, DriverType, AIG};
use crate::dump::{OutputSignal, CONSTANT, INPUT_MARK};
use crate::names::{is_generated, is_generated_name, wire_name, wire_name_of};
use crate::staging::DFF;
use std::collections::HashMap;
use vstd::prelude::*;

verus! {

/// A node whose value comes from outside: a port, or a flag for a clock edge.
pub open spec fn is_outside(d: DriverType) -> bool {
    d is InputPort || d is InputClockFlag
}

/// The nodes among the first `n` whose values come from outside.
pub open spec fn layout_upto(drivers: Seq<DriverType>, n: int) -> Seq<usize>
    decreases n,
{
    if n <= 0 {
        Seq::empty()
    } else if is_outside(drivers[n - 1]) {
        layout_upto(drivers, n - 1).push((n - 1) as usize)
    } else {
        layout_upto(drivers, n - 1)
    }
}

/// The nodes whose values come from outside, in their order.
pub fn input_layout(aig: &AIG) -> (layout: Vec<usize>)
    ensures
        layout@ == layout_upto(aig.drivers@, aig.drivers@.len() as int),
{
    let mut layout: Vec<usize> = Vec::new();
    for i in 0..aig.drivers.len()
        invariant
            layout@ == layout_upto(aig.drivers@, i as int),
    {
        match aig.drivers[i] {
            DriverType::InputPort(_) => {
                layout.push(i);
            },
            DriverType::InputClockFlag(_, _) => {
                layout.push(i);
            },
            _ => {},
        }
    }
    layout
}

/// The layout of the inputs lists each node whose value comes from outside, and
/// lists it once.
pub proof fn layout_lists_each_input_once(drivers: Seq<DriverType>)
    requires
        drivers.len() <= usize::MAX,
    ensures
        layout_upto(drivers, drivers.len() as int).no_duplicates(),
        forall|u: usize| #[trigger]
            layout_upto(drivers, drivers.len() as int).contains(u) <==> (u < drivers.len()
                && is_outside(drivers[u as int])),
{
    lemma_layout(drivers, drivers.len() as int);
}

/// The layout of the first `n` nodes.
proof fn lemma_layout(drivers: Seq<DriverType>, n: int)
    requires
        0 <= n <= drivers.len() <= usize::MAX,
    ensures
        layout_upto(drivers, n).no_duplicates(),
        forall|u: usize| #[trigger]
            layout_upto(drivers, n).contains(u) <==> (u < n && is_outside(drivers[u as int])),
    decreases n,
{
    if n > 0 {
        lemma_layout(drivers, n - 1);
        let before = layout_upto(drivers, n - 1);
        let after = layout_upto(drivers, n);
        let last = (n - 1) as usize;
        if is_outside(drivers[n - 1]) {
            assert(!before.contains(last)) by {
                if before.contains(last) {
                    assert(is_outside(drivers[last as int]));
                }
            }
            assert(after[before.len() as int] == last);
            assert forall|u: usize| #[trigger]
                after.contains(u) <==> (u < n && is_outside(drivers[u as int])) by {
                assert(before.contains(u) <==> (u < n - 1 && is_outside(drivers[u as int])));
                if before.contains(u) {
                    assert(after[before.index_of(u)] == u);
                }
                if after.contains(u) {
                    let k = after.index_of(u);
                    if k < before.len() {
                        assert(before[k] == u);
                    }
                }
            }
            assert forall|i: int, j: int| 0 <= i < after.len() && 0 <= j < after.len() && i
                != j implies after[i] != after[j] by {
                if i < before.len() && j == before.len() {
                    assert(before.contains(before[i]));
                } else if j < before.len() && i == before.len() {
                    assert(before.contains(before[j]));
                }
            }
        } else {
            assert forall|u: usize| #[trigger]
                after.contains(u) <==> (u < n && is_outside(drivers[u as int])) by {
                if u == last {
                    assert(!is_outside(drivers[u as int]));
                }
            }
        }
    }
}

/// What becomes of an output port in the dump.
#[derive(Clone, Copy, Debug, PartialEq, Eq, Structural)]
pub enum OutputPort {
    /// It passes an input port on, and is left out.
    PassThrough,
    /// It is dumped as a signal.
    Signal(OutputSignal),
    /// Its literal has no position in the state.
    Unmapped,
}

/// What becomes of an output port that reads the literal `aigpin`.
pub open spec fn port_of(
    drivers: Seq<DriverType>,
    output_map: Map<usize, u32>,
    aigpin: usize,
) -> OutputPort {
    if drivers[aigpin as int / 2] is InputPort {
        OutputPort::PassThrough
    } else if aigpin <= 1 {
        OutputPort::Signal(OutputSignal { aigpin, pos: CONSTANT })
    } else if output_map.dom().contains(aigpin) {
        OutputPort::Signal(OutputSignal { aigpin, pos: output_map[aigpin] })
    } else {
        OutputPort::Unmapped
    }
}

/// Decides what becomes of an output port that reads the literal `aigpin`.
pub fn output_port(aig: &AIG, output_map: &HashMap<usize, u32>, aigpin: usize) -> (r: OutputPort)
    requires
        aigpin / 2 < aig.drivers@.len(),
    ensures
        r == port_of(aig.drivers@, output_map@, aigpin),
{
    broadcast use vstd::std_specs::hash::group_hash_axioms;

    if let DriverType::InputPort(_) = aig.drivers[node_of(aigpin)] {
        return OutputPort::PassThrough;
    }
    if aigpin <= 1 {
        return OutputPort::Signal(OutputSignal { aigpin, pos: CONSTANT });
    }
    match output_map.get(&aigpin) {
        Some(pos) => OutputPort::Signal(OutputSignal { aigpin, pos: *pos }),
        None => OutputPort::Unmapped,
    }
}

/// A pin of a cell: its port and its full name.
#[derive(Clone, Debug)]
pub struct CellPin {
    pub port: String,
    pub name: String,
}

/// The first pin from `i` on that is the output of a register.
pub open spec fn q_pin(pins: Seq<CellPin>, i: int) -> Option<int>
    decreases pins.len() - i,
{
    if i < 0 || i >= pins.len() {
        None
    } else if pins[i].port@ == seq!['Q'] {
        Some(i)
    } else {
        q_pin(pins, i + 1)
    }
}

/// A position that is read from the state before a step.
pub open spec fn marked(pos: u32) -> u32 {
    if pos >= INPUT_MARK {
        pos
    } else {
        (pos + INPUT_MARK) as u32
    }
}

/// The signal of a register and its name: none where synthesis made the
/// register up, where its output is not used, or where that has no position in
/// the state.
pub open spec fn register_of(
    cell_name: Seq<char>,
    q: usize,
    pins: Seq<CellPin>,
    input_map: Map<usize, u32>,
) -> Option<(OutputSignal, Seq<char>)> {
    if is_generated(cell_name) || q == 0 || !input_map.dom().contains(q) {
        None
    } else {
        match q_pin(pins, 0) {
            Some(i) => Some(
                (OutputSignal { aigpin: q, pos: marked(input_map[q]) }, wire_name_of(pins[i].name@)),
            ),
            None => None,
        }
    }
}

/// Finds the signal of a register and its name.
pub fn register_signal(
    cell_name: &str,
    dff: &DFF,
    pins: &Vec<CellPin>,
    input_map: &HashMap<usize, u32>,
) -> (r: Option<(OutputSignal, String)>)
    ensures
        match r {
            Some((signal, name)) => register_of(cell_name@, dff.q, pins@, input_map@) == Some(
                (signal, name@),
            ),
            None => register_of(cell_name@, dff.q, pins@, input_map@) is None,
        },
{
    broadcast use vstd::std_specs::hash::group_hash_axioms;

    if is_generated_name(cell_name) || dff.q == 0 {
        return None;
    }
    proof {
        reveal_strlit("Q");
        assert("Q"@ =~= seq!['Q']);
    }
    let port: String = "Q".to_owned();
    let mut i: usize = 0;
    while i < pins.len()
        invariant
            port@ == seq!['Q'],
            !is_generated(cell_name@),
            dff.q != 0,
            i <= pins@.len(),
            q_pin(pins@, 0) == q_pin(pins@, i as int),
        decreases pins@.len() - i,
    {
        if pins[i].port == port {
            return match input_map.get(&dff.q) {
                Some(pos) => {
                    let input: u32 = *pos;
                    assert(input | 0x8000_0000u32 == if input >= 0x8000_0000u32 {
                        input
                    } else {
                        (input + 0x8000_0000u32) as u32
                    }) by (bit_vector);
                    let signal = OutputSignal { aigpin: dff.q, pos: input | INPUT_MARK };
                    Some((signal, wire_name(pins[i].name.as_str())))
                },
                None => None,
            };
        }
        i += 1;
    }
    None
}

/// The components of a path: what stands between its slashes.
pub open spec fn components(path: Seq<char>) -> Seq<Seq<char>>
    decreases path.len(),
{
    if path.len() == 0 {
        seq![Seq::empty()]
    } else {
        let front = components(path.drop_last());
        if path.last() == '/' {
            front.push(Seq::empty())
        } else {
            front.drop_last().push(front.last().push(path.last()))
        }
    }
}

/// Texts as they are.
pub open spec fn texts(v: Seq<String>) -> Seq<Seq<char>> {
    v.map_values(|s: String| s@)
}

/// Appends a character: `String::push`.
#[verifier::external_body]
fn push_char(s: &mut String, c: char)
    ensures
        final(s)@ == old(s)@.push(c),
{
    s.push(c)
}

/// Splits a path into its components.
pub fn scope_components(path: &str) -> (v: Vec<String>)
    ensures
        texts(v@) == components(path@),
{
    broadcast use vstd::string::axiom_spec_iter;

    let mut done: Vec<String> = Vec::new();
    let mut cur: String = String::new();
    let ghost t = path@;
    proof {
        assert(t.take(0) =~= Seq::empty());
        assert(texts(done@).push(cur@) =~= components(t.take(0)));
    }
    for c in it: path.chars()
        invariant
            it.seq() == t,
            t == path@,
            texts(done@).push(cur@) == components(t.take(it.index() as int)),
    {
        let ghost n = it.index() as int;
        let ghost front = components(t.take(n));
        let ghost before = done@;
        let ghost was = cur@;
        assert(t.take(n + 1).drop_last() =~= t.take(n));
        assert(t.take(n + 1).last() == c);
        assert(front.last() == was);
        assert(front.drop_last() =~= texts(before));
        if c == '/' {
            done.push(cur);
            cur = String::new();
            assert(cur@ =~= Seq::empty());
            assert(texts(done@) =~= texts(before).push(was));
            assert(texts(done@).push(cur@) =~= front.push(Seq::empty()));
        } else {
            push_char(&mut cur, c);
        }
    }
    assert(t.take(t.len() as int) =~= t);
    let ghost before = done@;
    let ghost was = cur@;
    done.push(cur);
    assert(texts(done@) =~= texts(before).push(was));
    done
}

/// Components with slashes between them.
pub open spec fn joined(parts: Seq<Seq<char>>) -> Seq<char>
    decreases parts.len(),
{
    if parts.len() == 0 {
        Seq::empty()
    } else if parts.len() == 1 {
        parts[0]
    } else {
        joined(parts.drop_last()).push('/') + parts.last()
    }
}

/// The components of a path, with slashes between them, make the path again.
pub proof fn components_make_the_path(path: Seq<char>)
    ensures
        components(path).len() > 0,
        joined(components(path)) == path,
    decreases path.len(),
{
    if path.len() > 0 {
        let front = path.drop_last();
        components_make_the_path(front);
        let parts = components(front);
        let all = components(path);
        if path.last() == '/' {
            assert(all.drop_last() =~= parts);
            assert(joined(all) =~= path);
        } else {
            assert(all.drop_last() =~= parts.drop_last());
            assert(all.last() == parts.last().push(path.last()));
            assert(joined(all) =~= joined(parts).push(path.last()));
            assert(joined(all) =~= path);
        }
    }
}

} // verus!
