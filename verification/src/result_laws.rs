//! What the results of calls that a program makes hold.
use crate::aig::{acyclic, stop_set, AIG};
use crate::analysis::{
    analyze_boomerang_stage, analyze_partition, count_endpoint_kinds, dffs_in_stage,
    ram_block_cells, EndpointCounts, PartitionFigures, StageFigures,
};
use crate::boomerang::taken;
use crate::chunk_laws::{
    chunk_states_are_the_inputs_of_its_steps, chunks_are_as_few_as_fit, chunks_are_even,
};
use crate::chunks::{chunk_input_states, ChunkPlan};
use crate::cone_laws::{is_reached, traversals_list_what_is_reached};
use crate::cut_laws::{depth_is_that_of_the_deepest, parts_list_their_endpoints};
use crate::cut_map::{get_max_partition_depth, run_par};
use crate::dump::OutputSignal;
use crate::figure_laws::{
    active_nodes_are_the_occupied_cells, depth_is_the_highest_occupied_row,
    endpoints_are_counted_by_kind, listed_for, memories_are_named_in_order, memory_of,
    registers_are_listed_where_they_are_written, stage_cells_upto, width_is_that_of_the_fullest_row,
};
use crate::hgr::{goes_to, grouped, parsed_index, parts_from_lines, parts_list_their_lines, texts};
use crate::input_laws::{
    flags_are_at_the_positions_of_their_nodes, missing_ports_are_inputs_that_are_not_set,
    nodes_without_a_position_are_named, the_last_bit_decides_which_pin_is_set, wired_to,
};
use crate::inputs::{
    clock_at, is_given, is_input, ClockPin, Direction, InputBit, InputMap, PinError, PortPin,
    Wiring,
};
use crate::layout::rows;
use crate::merge::views;
use crate::name_laws::{
    is_tight, made_up_names_hold_a_number, names_without_numbers_are_not_made_up, q_port, reg,
    wires_are_named_after_their_registers,
};
use crate::names::{ends_with, is_generated_name, wire_name};
use crate::pe::{BoomerangStage, Partition};
use crate::seqs::tally;
use crate::signal_laws::{
    inputs_are_laid_out_in_order, outputs_are_dumped_from_their_positions,
    registers_without_output_are_left_out,
};
use crate::signals::{input_layout, output_port, register_signal, CellPin, OutputPort};
use crate::staging::{every_id, EndpointGroup, StagedAIG, DFF};
use crate::text_laws::lines_are_numbers_or_empty;
use crate::trace::ClockFlags;
use crate::vcd::VCDHier;
use indexmap::IndexSet;
use std::collections::HashMap;
use vstd::prelude::*;

verus! {

/// A subset has the chosen endpoints, in the order in which they were chosen, and
/// the inputs of the stage.
pub proof fn subsets_hold_the_chosen_endpoints(
    staged: StagedAIG,
    ids: Vec<usize>,
    r: StagedAIG,
    n: usize,
    i: usize,
    a: &EndpointGroup,
    b: &EndpointGroup,
)
    requires
        call_ensures(StagedAIG::to_endpoint_subset, (&staged, &ids), r),
        call_ensures(StagedAIG::num_endpoint_groups, (&r,), n),
        i < ids@.len(),
        call_ensures(StagedAIG::get_endpoint_group, (&r, i), a),
        call_ensures(StagedAIG::get_endpoint_group, (&staged, ids@[i as int]), b),
    ensures
        n == ids@.len(),
        a.kind == b.kind,
        a.inputs@ == b.inputs@,
        r.sources() == staged.sources(),
{
}

/// The chunks follow each other from the first step to the last, and where `f`
/// steps fit, and at least one, none has more than these.
pub proof fn chunks_follow_each_other(
    cycles: usize,
    available: usize,
    size: usize,
    p: ChunkPlan,
    c: usize,
    r: (usize, usize),
    q: (usize, usize),
    f: int,
)
    requires
        call_ensures(ChunkPlan::new, (cycles, available, size), p),
        c < p.num_chunks,
        call_ensures(ChunkPlan::chunk, (&p, c), r),
        c + 1 < p.num_chunks ==> call_ensures(ChunkPlan::chunk, (&p, (c + 1) as usize), q),
        cycles > 0,
        size > 0,
        f > 0,
        f * (4 * size) <= available < (f + 1) * (4 * size),
    ensures
        c == 0 ==> r.0 == 0,
        c + 1 < p.num_chunks ==> r.1 == q.0,
        c + 1 == p.num_chunks ==> r.1 == cycles,
        r.1 - r.0 <= f,
        (p.num_chunks - 1) * f < cycles <= p.num_chunks * f,
{
    chunks_are_as_few_as_fit(cycles as int, available as int, size as int, f);
    chunks_are_even(p, c as int);
    let k = p.num_chunks as int;
    let per = p.cycles_per_chunk as int;
    assert(per <= f) by (nonlinear_arith)
        requires
            (per - 1) * k < cycles <= k * f,
            k > 0,
    ;
    assert(0 * per == 0) by (nonlinear_arith);
}

/// The states of a chunk are the one that it starts with and the inputs of the
/// steps behind.
pub proof fn chunks_start_where_the_last_one_ended(
    carried: Vec<u32>,
    inputs: Vec<u32>,
    size: usize,
    start: usize,
    end: usize,
    v: Vec<u32>,
    t: int,
    i: int,
)
    requires
        call_ensures(chunk_input_states, (&carried, &inputs, size, start, end), v),
        start <= end,
        0 <= i < size,
        carried@.len() == size,
        (end + 1) * size <= inputs@.len(),
        0 <= t <= end - start,
    ensures
        t == 0 ==> v@[t * size + i] == carried@[i],
        t > 0 ==> v@[t * size + i] == inputs@[(start + t) * size + i],
{
    chunk_states_are_the_inputs_of_its_steps(
        carried@,
        inputs@,
        size as int,
        start as int,
        end as int,
        t,
        i,
    );
}

/// The layout of the inputs lists the ports and the flags of clock edges, in the
/// order of their nodes.
pub proof fn layouts_list_the_inputs(aig: AIG, layout: Vec<usize>, u: usize, i: int, j: int)
    requires
        call_ensures(input_layout, (&aig,), layout),
    ensures
        layout@.contains(u) <==> u < aig.drivers@.len() && (aig.drivers@[u as int] is InputPort
            || aig.drivers@[u as int] is InputClockFlag),
        0 <= i < j < layout@.len() ==> layout@[i] < layout@[j],
{
    assert(aig.drivers@.len() == aig.drivers.len());
    inputs_are_laid_out_in_order(aig.drivers@, u, i, j);
}

/// An output port is passed through where an input port drives it, is constant where
/// its literal is, and otherwise is read from the position of its literal.
pub proof fn output_ports_are_read_from_their_positions(
    aig: AIG,
    output_map: HashMap<usize, u32>,
    aigpin: usize,
    r: OutputPort,
)
    requires
        call_ensures(output_port, (&aig, &output_map, aigpin), r),
        aigpin / 2 < aig.drivers@.len(),
    ensures
        r is PassThrough <==> aig.drivers@[(aigpin / 2) as int] is InputPort,
        r is Unmapped <==> !(aig.drivers@[(aigpin / 2) as int] is InputPort) && aigpin >= 2
            && !output_map@.contains_key(aigpin),
        r matches OutputPort::Signal(s) ==> {
            &&& s.aigpin == aigpin
            &&& aigpin < 2 ==> s.pos == 0xffff_ffffu32
            &&& aigpin >= 2 ==> s.pos == output_map@[aigpin]
        },
{
    outputs_are_dumped_from_their_positions(aig.drivers@, output_map@, aigpin);
}

/// A register is read from the state before a step; one without a used output or
/// without a position is left out.
pub proof fn registers_are_read_before_the_step(
    cell_name: &str,
    dff: DFF,
    pins: Vec<CellPin>,
    input_map: HashMap<usize, u32>,
    r: Option<(OutputSignal, String)>,
)
    requires
        call_ensures(register_signal, (cell_name, &dff, &pins, &input_map), r),
    ensures
        dff.q == 0 || !input_map@.contains_key(dff.q) ==> r is None,
        (forall|j: int| 0 <= j < pins@.len() ==> (#[trigger] pins@[j]).port@ != seq!['Q'])
            ==> r is None,
        r matches Some((s, _)) ==> {
            &&& s.aigpin == dff.q
            &&& input_map@[dff.q] < 0x8000_0000 ==> s.pos == input_map@[dff.q] + 0x8000_0000
            &&& input_map@[dff.q] >= 0x8000_0000 ==> s.pos == input_map@[dff.q]
        },
{
    if forall|j: int| 0 <= j < pins@.len() ==> (#[trigger] pins@[j]).port@ != seq!['Q'] {
        registers_without_output_are_left_out(cell_name@, dff.q, pins@, input_map@);
    }
}

/// The ports that a dump leaves open are those that drive the design and that no bit
/// of the dump stands for, in the order of the ports.
pub proof fn open_ports_are_named(map: InputMap, ports: Vec<PortPin>, v: Vec<usize>)
    requires
        call_ensures(InputMap::missing, (&map, &ports), v),
    ensures
        v@ == ports@.filter(
            |p: PortPin|
                (p.direction == Direction::O || p.direction == Direction::Unknown)
                    && !map.given@.contains(p.pin),
        ).map_values(|p: PortPin| p.pin),
{
    missing_ports_are_inputs_that_are_not_set(ports@, map.given@, ports@.len() as int);
    assert(ports@.take(ports@.len() as int) =~= ports@);
}

/// The flags of all clocks are at the positions of their nodes, or a node without a
/// position is named.
pub proof fn clocks_have_their_flags(
    wiring: Wiring,
    r: Result<Vec<ClockFlags>, PinError>,
    c: int,
)
    requires
        call_ensures(Wiring::clock_flags, (&wiring,), r),
        0 <= c < wiring.clocks@.len(),
    ensures
        r matches Ok(flags) ==> {
            let clock = wiring.clocks@[c];
            &&& flags@.len() == wiring.clocks@.len()
            &&& clock.pe == usize::MAX <==> flags@[c].pe is None
            &&& clock.ne == usize::MAX <==> flags@[c].ne is None
            &&& clock.pe != usize::MAX ==> flags@[c].pe.unwrap() == wiring.input_map@[clock.pe]
            &&& clock.ne != usize::MAX ==> flags@[c].ne.unwrap() == wiring.input_map@[clock.ne]
        },
        r matches Err(e) ==> exists|k: int|
            0 <= k < wiring.clocks@.len() && {
                let clock = #[trigger] wiring.clocks@[k];
                ||| clock.pe != usize::MAX && !wiring.input_map@.contains_key(clock.pe) && e
                    == PinError::UnmappedFlag(clock.pe)
                ||| clock.ne != usize::MAX && !wiring.input_map@.contains_key(clock.ne) && e
                    == PinError::UnmappedFlag(clock.ne)
            },
{
    if r is Ok {
        let flags = r->Ok_0;
        let clock = wiring.clocks@[c];
        assert(flags@[c] == flags@[c]);
        nodes_without_a_position_are_named(wiring.input_map@, clock);
        flags_are_at_the_positions_of_their_nodes(wiring.input_map@, clock);
    }
}

/// A pin is found where it is wired to, and nowhere else.
pub proof fn pins_are_found_where_they_are_wired(
    wiring: Wiring,
    pin: usize,
    r: Result<usize, PinError>,
    x: usize,
)
    requires
        call_ensures(Wiring::position, (&wiring, pin), r),
        pin < wiring.pin2aigpin_iv@.len(),
    ensures
        r == Ok::<usize, PinError>(x) <==> wired_to(wiring, pin, x as int),
        r == Err::<usize, PinError>(PinError::Inverted(x)) <==> wiring.pin2aigpin_iv@[pin as int]
            == x && x % 2 == 1,
{
}

/// A traversal lists the nodes that are reached from the endpoints without going on
/// behind an input, each once.
pub proof fn traversals_end_at_the_inputs(
    aig: AIG,
    endpoints: Vec<usize>,
    stops: Option<&IndexSet<usize>>,
    order: Vec<usize>,
    u: usize,
)
    requires
        call_ensures(AIG::topo_traverse_generic, (&aig, &endpoints, stops), order),
        acyclic(aig.drivers@),
        forall|i: int|
            0 <= i < endpoints@.len() ==> #[trigger] endpoints@[i] < aig.drivers@.len(),
    ensures
        order@.contains(u) <==> is_reached(aig.drivers@, stop_set(stops), endpoints@, u),
        order@.no_duplicates(),
{
    traversals_list_what_is_reached(aig.drivers@, stop_set(stops), endpoints@, u);
}

/// The endpoints of a partition are counted by kind.
pub proof fn every_endpoint_is_counted(staged: StagedAIG, ids: Vec<usize>, c: EndpointCounts)
    requires
        call_ensures(count_endpoint_kinds, (&staged, &ids), c),
    ensures
        c.primary_outputs == ids@.filter(
            |e: usize| staged.endpoints@[e as int].kind is PrimaryOutput,
        ).len(),
        c.dffs == ids@.filter(|e: usize| staged.endpoints@[e as int].kind is DFF).len(),
        c.ram_blocks == ids@.filter(|e: usize| staged.endpoints@[e as int].kind is RAMBlock).len(),
        c.staged_io_pins == ids@.filter(
            |e: usize| staged.endpoints@[e as int].kind is StagedIOPin,
        ).len(),
{
    let groups = staged.endpoints@;
    endpoints_are_counted_by_kind(c, groups, ids@);
    assert((|e: usize| groups[e as int].kind is PrimaryOutput) =~= (
    |e: usize| staged.endpoints@[e as int].kind is PrimaryOutput));
}

/// The memories of a partition are named in the order of its endpoints.
pub proof fn every_memory_is_named(staged: StagedAIG, ids: Vec<usize>, cells: Vec<usize>)
    requires
        call_ensures(ram_block_cells, (&staged, &ids), cells),
    ensures
        cells@ == ids@.filter(
            |e: usize| staged.endpoints@[e as int].kind is RAMBlock,
        ).map_values(|e: usize| memory_of(staged.endpoints@[e as int].kind)),
{
    memories_are_named_in_order(staged.endpoints@, ids@, ids@.len() as int);
    assert(ids@.take(ids@.len() as int) =~= ids@);
}

/// The registers of a stage are those whose data node the stage with that number,
/// counted from 1, writes out.
pub proof fn registers_are_those_of_their_stage(
    partition: Partition,
    staged: StagedAIG,
    table: Vec<(usize, DFF)>,
    k: usize,
    r: Option<Vec<usize>>,
    c: usize,
)
    requires
        call_ensures(dffs_in_stage, (&partition, &staged, &table, k), r),
        k >= 1,
    ensures
        r is Some <==> k <= partition.stages@.len(),
        r matches Some(cells) ==> (cells@.contains(c) <==> exists|p: int, q: int| #[trigger]
            listed_for(
                staged.endpoints@,
                partition.endpoints@,
                partition.stages@[k - 1]@,
                table@,
                partition.endpoints@.len() as int,
                c,
                p,
                q,
            )),
{
    if r is Some {
        registers_are_listed_where_they_are_written(
            staged.endpoints@,
            partition.endpoints@,
            partition.stages@[k - 1]@,
            table@,
            partition.endpoints@.len() as int,
            c,
        );
    }
}

/// The figures of a stage are the occupied cells of its fullest row, its highest
/// occupied row and its write-outs.
pub proof fn figures_are_those_of_the_stage(stage: BoomerangStage, f: StageFigures, g: int, i: int)
    requires
        call_ensures(analyze_boomerang_stage, (&stage,), f),
        0 <= g < stage@.hier.len(),
        0 <= i < stage@.hier[g].len(),
    ensures
        taken(stage@.hier[g]) <= f.width,
        f.width == 0 || exists|h: int|
            0 <= h < stage@.hier.len() && taken(#[trigger] stage@.hier[h]) == f.width,
        g > f.depth ==> stage@.hier[g][i] == usize::MAX,
        f.depth > 0 ==> exists|j: int|
            0 <= j < stage@.hier[f.depth as int].len() && #[trigger] stage@.hier[f.depth as int][j]
                != usize::MAX,
        f.write_outs == stage.write_outs@.len(),
{
    width_is_that_of_the_fullest_row(stage@.hier, stage@.hier.len() as int, g);
    depth_is_the_highest_occupied_row(stage@.hier, stage@.hier.len() as int, g, i);
}

/// The figures of a partition are its stages, its endpoints, its occupied cells and
/// all its cells.
pub proof fn figures_are_those_of_the_partition(p: Partition, f: PartitionFigures)
    requires
        call_ensures(analyze_partition, (&p,), f),
    ensures
        f.num_stages == p.stages@.len(),
        f.num_endpoints == p.endpoints@.len(),
        f.active_nodes == tally(
            stage_cells_upto(p@.stages, p@.stages.len() as int),
            |x: usize| x != usize::MAX,
        ),
        f.slots == stage_cells_upto(p@.stages, p@.stages.len() as int).len(),
{
    active_nodes_are_the_occupied_cells(p@.stages, p@.stages.len() as int);
}

/// The depth of partitions is that of the deepest, and zero without any.
pub proof fn partitions_are_as_deep_as_the_deepest(ps: Vec<Partition>, d: usize, k: int)
    requires
        call_ensures(get_max_partition_depth, (&ps,), d),
    ensures
        0 <= k < ps@.len() ==> ps@[k].stages@.len() <= d,
        ps@.len() > 0 ==> exists|i: int| 0 <= i < ps@.len() && (#[trigger] ps@[i]).stages@.len() == d,
        ps@.len() == 0 ==> d == 0,
{
    let vs = views(ps@);
    if ps@.len() > 0 {
        let at = if 0 <= k < ps@.len() {
            k
        } else {
            0
        };
        depth_is_that_of_the_deepest(vs, at);
        assert(vs[at] == ps@[at]@);
        let i = choose|i: int| 0 <= i < vs.len() && (#[trigger] vs[i]).stages.len() == d;
        assert(vs[i] == ps@[i]@);
        assert(ps@[i].stages@.len() == d);
    }
}

/// Each part lists the places that name it, from the first to the last.
pub proof fn parts_list_the_places_that_name_them(
    part_ids: Vec<usize>,
    num_parts: usize,
    parts: Vec<Vec<usize>>,
    p: int,
    i: usize,
)
    requires
        call_ensures(run_par, (&part_ids, num_parts), parts),
        0 <= p < num_parts,
        i < part_ids@.len(),
    ensures
        parts@.len() == num_parts,
        parts@[p]@.contains(i) <==> part_ids@[i as int] == p,
        forall|x: int, y: int|
            0 <= x < y < parts@[p]@.len() ==> #[trigger] parts@[p]@[x] < #[trigger] parts@[p]@[y],
{
    let ids = Seq::new(part_ids@.len(), |k: int| k as usize);
    assert(part_ids@.len() == part_ids.len());
    parts_list_their_endpoints(ids, part_ids@, num_parts as nat, p, i as int);
    assert(rows(parts@)[p] == parts@[p]@);
}

/// The signal of a register has the register's name: that of its output pin without
/// the port and what synthesis put behind the name.
pub proof fn signals_are_named_after_their_registers(
    pin_name: &str,
    name: Seq<char>,
    r: String,
)
    requires
        call_ensures(wire_name, (pin_name,), r),
        pin_name@ == name + seq!['_', 'r', 'e', 'g', ':', 'Q'],
        is_tight(name),
        !ends_with(name, seq!['_', 'r', 'e', 'g']),
    ensures
        r@ == name,
{
    wires_are_named_after_their_registers(name);
    assert(name + seq!['_', 'r', 'e', 'g', ':', 'Q'] =~= name + reg() + q_port());
}

/// The name of a register was made up where a number between underscores stands in
/// front of another underscore and `reg`, and only where some number follows an
/// underscore.
pub proof fn made_up_names_are_found(
    text: &str,
    r: bool,
    a: Seq<char>,
    digits: Seq<char>,
    b: Seq<char>,
)
    requires
        call_ensures(is_generated_name, (text,), r),
    ensures
        digits.len() > 0 && (forall|k: int|
            0 <= k < digits.len() ==> '0' <= #[trigger] digits[k] <= '9') && text@ == a + seq!['_']
            + digits + seq!['_', '_', 'r', 'e', 'g'] + b ==> r,
        (forall|i: int|
            0 <= i < text@.len() - 1 && #[trigger] text@[i] == '_' ==> !('0' <= text@[i + 1]
                <= '9')) ==> !r,
{
    if digits.len() > 0 && (forall|k: int|
        0 <= k < digits.len() ==> '0' <= #[trigger] digits[k] <= '9') {
        made_up_names_hold_a_number(a, digits, b);
    }
    if forall|i: int|
        0 <= i < text@.len() - 1 && #[trigger] text@[i] == '_' ==> !('0' <= text@[i + 1] <= '9') {
        names_without_numbers_are_not_made_up(text@);
    }
}

/// Lines are grouped exactly if each is empty or a number, and then each part lists
/// the lines that name it, from the first to the last.
pub proof fn lines_are_grouped_by_their_parts(
    lines: Vec<String>,
    r: Option<Vec<Vec<usize>>>,
    q: int,
)
    requires
        call_ensures(parts_from_lines, (&lines,), r),
    ensures
        r is Some <==> forall|i: int|
            0 <= i < lines@.len() ==> (#[trigger] texts(lines@)[i]).len() == 0 || (parsed_index(
                texts(lines@)[i],
            ) matches Some(p) && p < usize::MAX),
        r matches Some(parts) ==> (0 <= q < parts@.len() ==> parts@[q]@ == every_id(
            lines@.len(),
        ).filter(goes_to(texts(lines@), q))),
{
    let ts = texts(lines@);
    assert(lines@.len() == lines.len());
    lines_are_numbers_or_empty(ts);
    if let Some(parts) = r {
        parts_list_their_lines(ts);
        if 0 <= q < parts@.len() {
            assert(rows(parts@)[q] == parts@[q]@);
            assert(grouped(ts).unwrap()[q] == every_id(ts.len()).filter(goes_to(ts, q)));
        }
    }
}

/// Only the name of the top module is empty, and it has no cells; the name of one cell
/// has that cell.
pub proof fn names_of_one_cell_have_that_cell(
    cur: String,
    h: VCDHier,
    top: VCDHier,
    a: bool,
    b: bool,
    one: Vec<String>,
    none: Vec<String>,
)
    requires
        call_ensures(VCDHier::single, (cur,), h),
        call_ensures(VCDHier::empty, (), top),
        call_ensures(VCDHier::is_empty, (&h,), a),
        call_ensures(VCDHier::is_empty, (&top,), b),
        call_ensures(VCDHier::iter, (&h,), one),
        call_ensures(VCDHier::iter, (&top,), none),
    ensures
        b,
        a <==> cur@.len() == 0,
        none@.len() == 0,
        cur@.len() > 0 ==> one@.len() == 1 && one@[0]@ == cur@,
{
    let f = |n: String| n@;
    assert(none@.map_values(f).len() == none@.len());
    assert(one@.map_values(f).len() == one@.len());
    if cur@.len() > 0 {
        assert(one@.map_values(f)[0] == cur@);
    }
}

/// A bit of a dump sets the pin that it stands for; of several with the same code and
/// place the last one counts, and nothing else is set.
pub proof fn bits_set_the_pins_that_they_stand_for(
    bits: Vec<InputBit>,
    found: Vec<Option<PortPin>>,
    map: InputMap,
    code: u64,
    pos: usize,
    r: Option<usize>,
    i: int,
    pin: usize,
)
    requires
        call_ensures(InputMap::new, (&bits, &found), map),
        call_ensures(InputMap::get, (&map, code, pos), r),
        bits@.len() == found@.len(),
        -1 <= i < bits@.len(),
        i >= 0 ==> bits@[i].code == code && bits@[i].pos == pos && found@[i] == Some(
            PortPin { pin, direction: Direction::O },
        ),
        forall|j: int|
            i < j < bits@.len() ==> !(bits@[j].code == code && bits@[j].pos == pos && (
            #[trigger] found@[j] matches Some(p) && p.direction == Direction::O)),
    ensures
        i >= 0 ==> r == Some(pin) && map.given@.contains(pin),
        i < 0 ==> r is None,
{
    the_last_bit_decides_which_pin_is_set(
        bits@,
        found@,
        bits@.len() as int,
        code,
        pos,
        i,
        pin,
    );
    assert(map.pin(code, pos) == r);
    if i >= 0 {
        assert(is_input(found@[i]));
        assert(is_given(found@, found@.len() as int, pin));
    }
}

/// The flag of a clock edge is that of the edge: the falling one where the pin was
/// one, and the rising one where it was zero.
pub proof fn flags_are_those_of_the_edge(
    wiring: Wiring,
    pin: usize,
    before: bool,
    r: Result<Option<usize>, PinError>,
    k: int,
)
    requires
        call_ensures(Wiring::edge_flag, (&wiring, pin, before), r),
        -1 <= k < wiring.clocks@.len(),
        k >= 0 ==> wiring.clocks@[k].pin == pin,
        forall|j: int|
            0 <= j < wiring.clocks@.len() && (k < 0 || j < k) ==> (
            #[trigger] wiring.clocks@[j]).pin != pin,
    ensures
        k < 0 ==> r == Ok::<Option<usize>, PinError>(None),
        k >= 0 ==> ({
            let clock = wiring.clocks@[k];
            let node = if before {
                clock.ne
            } else {
                clock.pe
            };
            &&& node == usize::MAX ==> r == Ok::<Option<usize>, PinError>(None)
            &&& node != usize::MAX && wiring.input_map@.contains_key(node) ==> r == Ok::<
                Option<usize>,
                PinError,
            >(Some(wiring.input_map@[node] as usize))
            &&& node != usize::MAX && !wiring.input_map@.contains_key(node) ==> r == Err::<
                Option<usize>,
                PinError,
            >(PinError::UnmappedFlag(node))
        }),
{
    lemma_first_clock(wiring.clocks@, pin, 0, k);
}

/// The first clock with a pin is found.
proof fn lemma_first_clock(clocks: Seq<ClockPin>, pin: usize, i: int, k: int)
    requires
        0 <= i <= clocks.len(),
        k < 0 || i <= k < clocks.len(),
        k >= 0 ==> clocks[k].pin == pin,
        forall|j: int|
            i <= j < clocks.len() && (k < 0 || j < k) ==> (#[trigger] clocks[j]).pin != pin,
    ensures
        clock_at(clocks, pin, i) == if k >= 0 {
            Some(clocks[k])
        } else {
            None
        },
    decreases clocks.len() - i,
{
    if i < clocks.len() && i != k {
        lemma_first_clock(clocks, pin, i + 1, k);
    }
}

} // verus!
