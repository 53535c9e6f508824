use gem::inputs::{
    list_inputs, value_change, ClockPin, Direction, InputBit, InputMap, PinError, PortPin, Wiring,
};
use gem::names::{is_generated_name, wire_name};
use gem::signals::scope_components;
use gem::trace::{ClockFlags, InputTrace};
use gem::vcd::{
    find_top_scope, list_bits, match_scope_path, ReferenceIndex, Scope, ScopeItem, VCDHier, Var,
    VarBit,
};
use regex::Regex;
use std::collections::hash_map::DefaultHasher;
use std::collections::HashMap;
use std::collections::HashSet;
use std::hash::{Hash, Hasher};
use std::rc::Rc;

#[test]
fn scope_component_is_stripped() {
    assert_eq!(match_scope_path("/top/cpu", "top"), Some("cpu"));
    assert_eq!(match_scope_path("top", "top"), Some(""));
    assert_eq!(match_scope_path("", "top"), Some(""));
    assert_eq!(match_scope_path("/", "top"), Some(""));
    assert_eq!(match_scope_path("topper", "top"), None);
    assert_eq!(match_scope_path("other/top", "top"), None);
    assert_eq!(match_scope_path("top/", "top"), Some(""));
}

fn scope(name: &str, children: Vec<ScopeItem>) -> ScopeItem {
    ScopeItem::Scope(Scope { identifier: name.to_string(), children })
}

fn var(name: &str, code: u64, size: u32, index: Option<ReferenceIndex>) -> ScopeItem {
    ScopeItem::Var(Var { size, code, reference: name.to_string(), index })
}

#[test]
fn scopes_are_found_by_path() {
    let items = vec![
        ScopeItem::Comment,
        var("x", 0, 1, None),
        scope("tb", vec![scope("a", vec![]), scope("dut", vec![var("clk", 1, 1, None)])]),
        scope("tb2", vec![]),
    ];
    assert_eq!(find_top_scope(&items, "tb/dut").unwrap().children.len(), 1);
    assert_eq!(find_top_scope(&items, "").unwrap().identifier, "tb");
    assert_eq!(find_top_scope(&items, "/tb2").unwrap().identifier, "tb2");
    assert!(find_top_scope(&items, "tb/none").is_none());
    assert!(find_top_scope(&items, "none").is_none());
    assert!(find_top_scope(&vec![], "").is_none());
}

#[test]
fn variables_have_their_bits() {
    let bit = |index: Option<isize>, pos: usize| VarBit { index, pos };
    assert_eq!(list_bits(1, None), vec![bit(None, 0)]);
    assert_eq!(list_bits(0, None), vec![]);
    assert_eq!(list_bits(3, None), vec![bit(Some(2), 0), bit(Some(1), 1), bit(Some(0), 2)]);
    assert_eq!(list_bits(1, Some(ReferenceIndex::BitSelect(-4))), vec![bit(Some(-4), 0)]);
    assert_eq!(
        list_bits(3, Some(ReferenceIndex::Range(1, -1))),
        vec![bit(Some(1), 0), bit(Some(0), 1), bit(Some(-1), 2)]
    );
    assert_eq!(
        list_bits(2, Some(ReferenceIndex::Range(4, 5))),
        vec![bit(Some(4), 0), bit(Some(5), 1)]
    );
    assert_eq!(list_bits(1, Some(ReferenceIndex::Range(7, 7))), vec![bit(Some(7), 0)]);
}

#[test]
fn hierarchical_names_go_from_bottom_to_top() {
    assert!(VCDHier::empty().is_empty());
    assert!(VCDHier::empty().iter().is_empty());
    let cpu = VCDHier::single("cpu".to_string());
    assert!(!cpu.is_empty());
    let alu = VCDHier { cur: "alu".to_string(), prev: Some(Rc::new(cpu)) };
    assert_eq!(alu.iter(), vec!["alu".to_string(), "cpu".to_string()]);
    let copy = alu.clone();
    assert_eq!(copy, alu);
    assert!(HashSet::from([alu.clone()]).contains(&copy));
    let hashed = |names: &[&str]| {
        let mut hasher = DefaultHasher::new();
        for name in names {
            name.hash(&mut hasher);
        }
        hasher.finish()
    };
    let hash_of = |name: &VCDHier| {
        let mut hasher = DefaultHasher::new();
        name.hash(&mut hasher);
        hasher.finish()
    };
    assert_eq!(hash_of(&alu), hashed(&["alu", "cpu"]));
    assert_eq!(hash_of(&VCDHier::empty()), hashed(&[]));
    let cut = VCDHier { cur: String::new(), prev: Some(Rc::new(alu)) };
    assert_eq!(hash_of(&cut), hashed(&[]));
    assert!(!cut.is_empty());
    assert!(cut.iter().is_empty());
}

#[test]
fn paths_are_split_at_slashes() {
    for path in ["a", "a/b", "/a//b/", "", "/", "gem_top_module"] {
        let parts = scope_components(path);
        assert_eq!(parts, path.split('/').map(|s| s.to_string()).collect::<Vec<_>>());
        assert_eq!(parts.join("/"), path);
    }
}

fn by_regex(pin_name: &str) -> String {
    let name = pin_name.strip_suffix(":Q").unwrap_or(pin_name).trim().to_string();
    let pattern = Regex::new(r"_reg(\[[0-9:\[\]]+\]*)$").unwrap();
    match pattern.captures(&name) {
        Some(c) => pattern.replace(&name, &c[1]).to_string(),
        None => name.trim_end_matches("_reg").to_string(),
    }
}

#[test]
fn register_names_lose_their_suffix() {
    assert_eq!(wire_name("cpu/pc_reg[3]:Q"), "cpu/pc[3]");
    assert_eq!(wire_name("cpu/valid_reg:Q"), "cpu/valid");
    assert_eq!(wire_name(" cpu/valid_reg \t:Q"), "cpu/valid");
    assert_eq!(wire_name("mem_reg[1][7:0]"), "mem[1][7:0]");
    assert_eq!(wire_name("odd_reg_reg"), "odd");
    assert_eq!(wire_name("a_reg[1]_reg[2]:Q"), "a_reg[1][2]");
    assert_eq!(wire_name("a_reg[x]"), "a_reg[x]");
    assert_eq!(wire_name("a_reg["), "a_reg[");
    assert_eq!(wire_name("\u{3000}b_reg\u{85}"), "b");
    for name in [
        "a_reg[]", "a_reg[[", "a_reg]", "_reg[1]", "_reg", "", ":Q", "x:Q:Q", "a_reg[3]x",
        "a_reg[3]\n", "r_reg[0]_reg", "a_reg_reg[0]", "_reg_reg_reg", "q[2]", "n\u{e9}_reg[1]:Q",
    ] {
        assert_eq!(wire_name(name), by_regex(name), "{}", name);
    }
}

#[test]
fn generated_names_are_recognized() {
    let pattern = Regex::new(r"_[0-9]+__reg").unwrap();
    for name in [
        "_12__reg", "cpu/_0__reg[3]", "_12_reg", "__reg", "_a__reg", "x_1__reg", "_1__re", "",
        "_1_2__reg", "_12__reg_5__reg", "_\u{661}__reg",
    ] {
        assert_eq!(is_generated_name(name), pattern.is_match(name), "{}", name);
    }
    assert!(is_generated_name("_12__reg"));
    assert!(!is_generated_name("pc_reg"));
}

#[test]
fn bits_of_a_scope_are_listed() {
    let top = Scope {
        identifier: "top".to_string(),
        children: vec![
            var("a", 5, 2, None),
            scope("sub", vec![var("hidden", 6, 1, None)]),
            var("b", 7, 1, None),
            ScopeItem::Comment,
            var("a", 5, 1, Some(ReferenceIndex::BitSelect(3))),
        ],
    };
    let bit = |code, item, index, pos| InputBit { code, item, index, pos };
    assert_eq!(
        list_inputs(&top),
        vec![
            bit(5, 0, Some(1), 0),
            bit(5, 0, Some(0), 1),
            bit(7, 2, None, 0),
            bit(5, 4, Some(3), 0),
        ]
    );
}

fn port(pin: usize, direction: Direction) -> Option<PortPin> {
    Some(PortPin { pin, direction })
}

#[test]
fn the_last_name_of_a_code_sets_the_input() {
    let bit = |code, pos| InputBit { code, item: 0, index: None, pos };
    let bits = vec![bit(1, 0), bit(1, 2), bit(2, 0), bit(3, 0), bit(1, 0)];
    let found = vec![
        port(10, Direction::O),
        port(11, Direction::O),
        port(12, Direction::I),
        None,
        port(13, Direction::O),
    ];
    let map = InputMap::new(&bits, &found);
    assert_eq!(map.get(1, 0), Some(13));
    assert_eq!(map.get(1, 1), None);
    assert_eq!(map.get(1, 2), Some(11));
    assert_eq!(map.get(2, 0), None);
    assert_eq!(map.get(3, 0), None);
    assert_eq!(map.get(1, 99), None);
    let ports = vec![
        PortPin { pin: 10, direction: Direction::O },
        PortPin { pin: 12, direction: Direction::I },
        PortPin { pin: 14, direction: Direction::O },
        PortPin { pin: 15, direction: Direction::Unknown },
    ];
    assert_eq!(map.missing(&ports), vec![14, 15]);
}

fn wiring() -> Wiring {
    let mut input_map = HashMap::new();
    input_map.insert(1, 0);
    input_map.insert(2, 33);
    input_map.insert(5, 40);
    input_map.insert(6, 41);
    input_map.insert(8, 64);
    Wiring {
        pin2aigpin_iv: vec![2, 4, 5, 6, 2, 16],
        input_map,
        clocks: vec![ClockPin { pin: 0, pe: 5, ne: usize::MAX }, ClockPin { pin: 4, pe: 6, ne: 7 }],
    }
}

#[test]
fn pins_are_wired_to_the_state() {
    let w = wiring();
    assert_eq!(w.position(0), Ok(0));
    assert_eq!(w.position(1), Ok(33));
    assert_eq!(w.position(2), Err(PinError::Inverted(5)));
    assert_eq!(w.position(3), Err(PinError::Unmapped(3)));
    assert_eq!(w.position(4), Ok(0));
    assert_eq!(w.edge_flag(0, false), Ok(Some(40)));
    assert_eq!(w.edge_flag(0, true), Ok(None));
    assert_eq!(w.edge_flag(1, false), Ok(None));
    assert_eq!(w.edge_flag(4, false), Ok(Some(41)));
    assert_eq!(w.edge_flag(4, true), Err(PinError::UnmappedFlag(7)));
    assert_eq!(w.clock_flags(), Err(PinError::UnmappedFlag(7)));
    let mut ok = wiring();
    ok.clocks.pop();
    assert_eq!(ok.clock_flags(), Ok(vec![ClockFlags { pe: Some(40), ne: None }]));
}

#[test]
fn a_flag_is_looked_up_on_its_edge_only() {
    let mut w = wiring();
    let bit = |code| InputBit { code, item: 0, index: None, pos: 0 };
    let map = InputMap::new(&vec![bit(4)], &vec![port(4, Direction::O)]);
    let mut trace = InputTrace::new(2, vec![], None);
    assert_eq!(value_change(&mut trace, &map, &w, 4, &b"0".to_vec()), None);
    assert_eq!(value_change(&mut trace, &map, &w, 4, &b"1".to_vec()), None);
    assert_eq!(trace.state, vec![0, 1 << 9]);
    assert!(!trace.timestamp(5));
    assert_eq!(trace.state, vec![1, 1 << 9]);
    assert_eq!(value_change(&mut trace, &map, &w, 4, &b"1".to_vec()), None);
    assert_eq!(
        value_change(&mut trace, &map, &w, 4, &b"0".to_vec()),
        Some(PinError::UnmappedFlag(7))
    );
    w.input_map.insert(7, 64);
    assert_eq!(
        value_change(&mut trace, &map, &w, 4, &b"0".to_vec()),
        Some(PinError::OutOfState(4))
    );
    assert_eq!(trace.state, vec![1, 1 << 9]);
    w.input_map.insert(7, 63);
    assert_eq!(value_change(&mut trace, &map, &w, 4, &b"0".to_vec()), None);
    assert_eq!(trace.state, vec![1, 1 << 9 | 1 << 31]);
}

#[test]
fn value_changes_reach_their_inputs() {
    let w = wiring();
    let bit = |code, pos| InputBit { code, item: 0, index: None, pos };
    let map = InputMap::new(
        &vec![bit(1, 0), bit(1, 1), bit(2, 0), bit(3, 0)],
        &vec![
            port(0, Direction::O),
            port(1, Direction::O),
            port(3, Direction::O),
            port(5, Direction::O),
        ],
    );
    let clocks = vec![ClockFlags { pe: Some(40), ne: None }];
    let mut trace = InputTrace::new(2, clocks, None);
    assert_eq!(value_change(&mut trace, &map, &w, 1, &b"11x".to_vec()), None);
    assert!(trace.active);
    assert_eq!(trace.state, vec![0, 1 << 8]);
    assert_eq!(value_change(&mut trace, &map, &w, 9, &b"1".to_vec()), None);
    assert_eq!(
        value_change(&mut trace, &map, &w, 2, &b"0".to_vec()),
        Some(PinError::Unmapped(3))
    );
    assert_eq!(
        value_change(&mut trace, &map, &w, 3, &b"0".to_vec()),
        Some(PinError::OutOfState(5))
    );
    assert!(!trace.timestamp(10));
    assert_eq!(trace.state, vec![1, 2]);
}
