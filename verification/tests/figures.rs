use gem::analysis::{
    analyze_boomerang_stage, analyze_partition, count_endpoint_kinds, dffs_in_stage,
    ram_block_cells, EndpointCounts, PartitionFigures, StageFigures,
};
use gem::pe::{BoomerangStage, Partition};
use gem::staging::{EndpointGroup, EndpointKind, StagedAIG, DFF};

const FREE: usize = usize::MAX;

fn stage() -> BoomerangStage {
    BoomerangStage {
        hier: vec![vec![1, 2, FREE, 4], vec![5, FREE], vec![FREE]],
        write_outs: vec![3, 9],
    }
}

fn staged() -> StagedAIG {
    let dff = |d_iv: usize, q: usize| EndpointGroup {
        kind: EndpointKind::DFF(DFF { d_iv, en_iv: 1, q }),
        inputs: vec![d_iv / 2],
    };
    StagedAIG {
        primary_inputs: None,
        endpoints: vec![
            dff(11, 7),
            dff(12, 8),
            EndpointGroup { kind: EndpointKind::PrimaryOutput(2), inputs: vec![1] },
            EndpointGroup { kind: EndpointKind::RAMBlock(31), inputs: vec![] },
            EndpointGroup { kind: EndpointKind::StagedIOPin(4), inputs: vec![4] },
        ],
    }
}

#[test]
fn stages_have_figures() {
    assert_eq!(
        analyze_boomerang_stage(&stage()),
        StageFigures { width: 3, depth: 1, write_outs: 2 }
    );
    let empty = BoomerangStage { hier: vec![vec![FREE]], write_outs: vec![] };
    assert_eq!(
        analyze_boomerang_stage(&empty),
        StageFigures { width: 0, depth: 0, write_outs: 0 }
    );
}

#[test]
fn partitions_have_figures() {
    let p = Partition { endpoints: vec![0, 1, 2], stages: vec![stage(), stage()] };
    assert_eq!(
        analyze_partition(&p),
        PartitionFigures { num_stages: 2, num_endpoints: 3, active_nodes: 8, slots: 14 }
    );
}

#[test]
fn endpoints_are_counted_by_kind() {
    assert_eq!(
        count_endpoint_kinds(&staged(), &vec![0, 1, 2, 3, 4, 1]),
        EndpointCounts { primary_outputs: 1, dffs: 3, ram_blocks: 1, staged_io_pins: 1 }
    );
}

#[test]
fn memory_blocks_are_named_by_their_own_cells() {
    let ram = |cell: usize| EndpointGroup { kind: EndpointKind::RAMBlock(cell), inputs: vec![] };
    let mut staged = staged();
    staged.endpoints.push(ram(40));
    staged.endpoints.push(ram(12));
    assert_eq!(ram_block_cells(&staged, &vec![6, 0, 3, 5]), vec![12, 31, 40]);
    assert_eq!(ram_block_cells(&staged, &vec![0, 1, 2, 4]), Vec::<usize>::new());
    assert_eq!(count_endpoint_kinds(&staged, &vec![6, 0, 3, 5]).ram_blocks, 3);
}

#[test]
fn registers_are_found_by_the_stage_that_writes_them_out() {
    let mut written = stage();
    // cell 0 of row 1 is in group 0.
    written.write_outs = vec![0];
    let p = Partition { endpoints: vec![0, 1, 2], stages: vec![stage(), written] };
    let table = vec![
        (40, DFF { d_iv: 11, en_iv: 0, q: 7 }),
        (41, DFF { d_iv: 11, en_iv: 1, q: 7 }),
        (42, DFF { d_iv: 12, en_iv: 1, q: 8 }),
    ];
    // node 5 is in both stages, but only the second writes it out.
    assert_eq!(dffs_in_stage(&p, &staged(), &table, 1), Some(vec![]));
    assert_eq!(dffs_in_stage(&p, &staged(), &table, 2), Some(vec![41]));
    assert_eq!(dffs_in_stage(&p, &staged(), &table, 3), None);
}

#[test]
fn nodes_that_a_stage_only_reads_are_not_written_out() {
    let low = BoomerangStage { hier: vec![vec![5, FREE], vec![FREE]], write_outs: vec![0] };
    let p = Partition { endpoints: vec![0], stages: vec![low] };
    let table = vec![(41, DFF { d_iv: 11, en_iv: 1, q: 7 })];
    assert_eq!(dffs_in_stage(&p, &staged(), &table, 1), Some(vec![]));
}
