//! Scopes and variables of a value change dump.
use std::hash::{Hash, Hasher};
use std::rc::Rc;
use sverilogparse::SVerilogRange;
use vstd::prelude::*;

verus! {

/// `str::strip_prefix`: the rest of `s` behind `prefix`, where `s` starts with
/// it.
#[verifier::external_body]
fn strip_prefix<'i>(s: &'i str, prefix: &str) -> (rest: Option<&'i str>)
    ensures
        match rest {
            Some(rest) => s@ == prefix@ + rest@,
            None => !prefix@.is_prefix_of(s@),
        },
{
    s.strip_prefix(prefix)
}

/// What is left of the path `scope` once one component has matched `cur`.
pub open spec fn scope_rest(scope: Seq<char>, cur: Seq<char>) -> Option<Seq<char>> {
    let path = if scope.len() > 0 && scope[0] == '/' {
        scope.skip(1)
    } else {
        scope
    };
    if path.len() == 0 || path == cur {
        Some(Seq::empty())
    } else if cur.push('/').is_prefix_of(path) {
        Some(path.skip(cur.len() as int + 1))
    } else {
        None
    }
}

/// Try to match one component in a scope.
///
/// If succeed, returns the remaining scope, which is empty where all of the
/// path has matched.  If fails, returns `None`.
pub fn match_scope_path<'i>(scope: &'i str, cur: &str) -> (rest: Option<&'i str>)
    ensures
        match rest {
            Some(rest) => scope_rest(scope@, cur@) == Some(rest@),
            None => scope_rest(scope@, cur@) is None,
        },
{
    proof {
        reveal_strlit("/");
        reveal_strlit("");
        assert(""@ =~= Seq::<char>::empty());
    }
    let path: &'i str = match strip_prefix(scope, "/") {
        Some(path) => {
            assert(scope@[0] == "/"@[0]);
            assert(path@ =~= scope@.skip(1));
            path
        },
        None => {
            assert(!(scope@.len() > 0 && scope@[0] == '/'));
            scope
        },
    };
    let ghost unrooted = if scope@.len() > 0 && scope@[0] == '/' {
        scope@.skip(1)
    } else {
        scope@
    };
    assert(path@ == unrooted);
    if path.is_empty() {
        return Some("");
    }
    match strip_prefix(path, cur) {
        Some(rest) => {
            if rest.is_empty() {
                assert(path@ =~= cur@);
                return Some("");
            }
            match strip_prefix(rest, "/") {
                Some(after) => {
                    assert(path@[cur@.len() as int] == rest@[0]);
                    assert(rest@ == "/"@ + after@);
                    assert(path@.len() == cur@.len() + 1 + after@.len());
                    assert(path@.subrange(0, cur@.push('/').len() as int) =~= cur@.push('/'));
                    assert(after@ =~= path@.skip(cur@.len() as int + 1));
                    Some(after)
                },
                None => {
                    assert(path@[cur@.len() as int] == rest@[0]);
                    assert(!cur@.push('/').is_prefix_of(path@)) by {
                        if cur@.push('/').is_prefix_of(path@) {
                            assert(cur@.push('/')[cur@.len() as int] == path@[cur@.len() as int]);
                            assert("/"@ =~= rest@.subrange(0, 1));
                        }
                    }
                    None
                },
            }
        },
        None => {
            assert(!cur@.push('/').is_prefix_of(path@) && path@ != cur@) by {
                if cur@.push('/').is_prefix_of(path@) || path@ == cur@ {
                    assert(cur@ =~= path@.subrange(0, cur@.len() as int)) by {
                        if cur@.push('/').is_prefix_of(path@) {
                            assert(cur@ =~= cur@.push('/').subrange(0, cur@.len() as int));
                        }
                    }
                }
            }
            None
        },
    }
}

/// Which bits of a signal a variable stands for.
#[derive(Clone, Copy, Debug, PartialEq, Eq, Structural)]
pub enum ReferenceIndex {
    BitSelect(i32),
    Range(i32, i32),
}

/// A variable.
#[derive(Clone, Debug)]
pub struct Var {
    pub size: u32,
    /// The code that its value changes carry.
    pub code: u64,
    pub reference: String,
    pub index: Option<ReferenceIndex>,
}

/// A scope and what it holds.
#[derive(Debug)]
pub struct Scope {
    pub identifier: String,
    pub children: Vec<ScopeItem>,
}

/// An item in a scope.
#[derive(Debug)]
pub enum ScopeItem {
    Scope(Scope),
    Var(Var),
    Comment,
}

/// The scope that a path leads to, among the items from `i` on.  The first
/// scope that matches the first component decides.
pub open spec fn scope_at(items: Seq<ScopeItem>, path: Seq<char>, i: int) -> Option<Scope>
    decreases items, items.len() - i,
{
    if i < 0 || i >= items.len() {
        None
    } else {
        match items[i] {
            ScopeItem::Scope(scope) => match scope_rest(path, scope.identifier@) {
                Some(rest) => if rest.len() == 0 {
                    Some(scope)
                } else {
                    scope_at(scope.children@, rest, 0)
                },
                None => scope_at(items, path, i + 1),
            },
            _ => scope_at(items, path, i + 1),
        }
    }
}

/// Finds the scope that a path leads to.
pub fn find_top_scope<'i>(items: &'i Vec<ScopeItem>, top_scope: &str) -> (r: Option<&'i Scope>)
    ensures
        match r {
            Some(scope) => scope_at(items@, top_scope@, 0) == Some(*scope),
            None => scope_at(items@, top_scope@, 0) is None,
        },
    decreases items,
{
    let mut i: usize = 0;
    while i < items.len()
        invariant
            i <= items@.len(),
            scope_at(items@, top_scope@, 0) == scope_at(items@, top_scope@, i as int),
        decreases items@.len() - i,
    {
        if let ScopeItem::Scope(scope) = &items[i] {
            if let Some(rest) = match_scope_path(top_scope, scope.identifier.as_str()) {
                if rest.is_empty() {
                    return Some(scope);
                }
                return find_top_scope(&scope.children, rest);
            }
        }
        i += 1;
    }
    None
}

/// The indices of an inclusive range, from its first end to its second.
pub open spec fn verilog_range(a: int, b: int) -> Seq<int> {
    if a <= b {
        Seq::new((b - a + 1) as nat, |i: int| a + i)
    } else {
        Seq::new((a - b + 1) as nat, |i: int| a - i)
    }
}

/// A range that can be listed.
pub open spec fn range_fits(a: int, b: int) -> bool {
    &&& a < isize::MAX
    &&& b < isize::MAX
    &&& (if a <= b {
        b - a
    } else {
        a - b
    }) < isize::MAX
}

/// `SVerilogRange` as an iterator: the indices from the first end to the second,
/// both included, in the direction from one to the other.
#[verifier::external_body]
fn range_indices(a: isize, b: isize) -> (v: Vec<isize>)
    requires
        range_fits(a as int, b as int),
    ensures
        v@.map_values(|x: isize| x as int) == verilog_range(a as int, b as int),
{
    SVerilogRange(a, b).collect()
}

/// One bit of a variable: its index in the signal, if it has one, and its place
/// among the bits of a value change.
#[derive(Clone, Copy, Debug, PartialEq, Eq, Structural)]
pub struct VarBit {
    pub index: Option<isize>,
    pub pos: usize,
}

/// The indices of the bits of a variable, in the order of a value change.  A
/// variable of one bit without an index has none.
pub open spec fn bit_indices(size: u32, index: Option<ReferenceIndex>) -> Seq<Option<int>> {
    match index {
        None => if size == 1 {
            seq![None]
        } else {
            Seq::new(size as nat, |i: int| Some(size - 1 - i))
        },
        Some(ReferenceIndex::BitSelect(i)) => seq![Some(i as int)],
        Some(ReferenceIndex::Range(a, b)) => verilog_range(a as int, b as int).map_values(
            |x: int| Some(x),
        ),
    }
}

/// Bits that stand in their places and have the given indices.
pub open spec fn bits_are(bits: Seq<VarBit>, indices: Seq<Option<int>>) -> bool {
    &&& bits.len() == indices.len()
    &&& forall|i: int|
        0 <= i < bits.len() ==> (#[trigger] bits[i]).pos == i && match bits[i].index {
            Some(x) => indices[i] == Some(x as int),
            None => indices[i] is None,
        }
}

/// Lists the bits of a variable.
pub fn list_bits(size: u32, index: Option<ReferenceIndex>) -> (bits: Vec<VarBit>)
    requires
        index is None ==> size <= isize::MAX,
        index matches Some(ReferenceIndex::Range(a, b)) ==> range_fits(a as int, b as int),
    ensures
        bits_are(bits@, bit_indices(size, index)),
{
    let mut bits: Vec<VarBit> = Vec::new();
    match index {
        None => {
            if size == 1 {
                bits.push(VarBit { index: None, pos: 0 });
            } else {
                let ghost want = bit_indices(size, index);
                let mut pos: usize = 0;
                while pos < size as usize
                    invariant
                        size <= isize::MAX,
                        pos <= size,
                        want == Seq::new(size as nat, |i: int| Some(size - 1 - i)),
                        bits_are(bits@, want.take(pos as int)),
                    decreases size - pos,
                {
                    let i: isize = (size as usize - 1 - pos) as isize;
                    bits.push(VarBit { index: Some(i), pos });
                    pos += 1;
                    assert(want.take(pos as int) =~= want.take(pos - 1).push(want[pos - 1]));
                }
                assert(want.take(pos as int) =~= want);
            }
        },
        Some(ReferenceIndex::BitSelect(i)) => {
            bits.push(VarBit { index: Some(i as isize), pos: 0 });
        },
        Some(ReferenceIndex::Range(a, b)) => {
            let range: Vec<isize> = range_indices(a as isize, b as isize);
            let ghost ints = range@.map_values(|x: isize| x as int);
            let ghost want = bit_indices(size, index);
            assert(want.len() == range@.len()) by {
                assert(ints.len() == range@.len());
            }
            let mut pos: usize = 0;
            while pos < range.len()
                invariant
                    ints == range@.map_values(|x: isize| x as int),
                    want == ints.map_values(|x: int| Some(x)),
                    pos <= range@.len(),
                    bits_are(bits@, want.take(pos as int)),
                decreases range@.len() - pos,
            {
                bits.push(VarBit { index: Some(range[pos]), pos });
                pos += 1;
                assert(want.take(pos as int) =~= want.take(pos - 1).push(want[pos - 1]));
                assert(want[pos - 1] == Some(range@[pos - 1] as int));
            }
            assert(want.take(pos as int) =~= want);
        },
    }
    bits
}

/// Hierarchical name representation in VCD.
#[derive(PartialEq, Eq, Clone, Debug)]
pub struct VCDHier {
    pub cur: String,
    pub prev: Option<Rc<VCDHier>>,
}

impl VCDHier {
    /// The cell names from the bottom to the top module.
    pub open spec fn names(self) -> Seq<Seq<char>>
        decreases self,
    {
        if self.cur@.len() == 0 {
            Seq::empty()
        } else {
            match self.prev {
                Some(prev) => seq![self.cur@] + prev.names(),
                None => seq![self.cur@],
            }
        }
    }

    /// The name of one cell.
    pub fn single(cur: String) -> (h: VCDHier)
        ensures
            h.cur == cur,
            h.prev is None,
            cur@.len() > 0 ==> h.names() == seq![cur@],
    {
        VCDHier { cur, prev: None }
    }

    /// The name of the top module.
    pub fn empty() -> (h: VCDHier)
        ensures
            h.cur@.len() == 0,
            h.prev is None,
            h.names() == Seq::<Seq<char>>::empty(),
    {
        let cur: String = String::new();
        proof {
            reveal_strlit("");
        }
        VCDHier { cur, prev: None }
    }

    /// Whether this is the name of the top module.
    pub fn is_empty(&self) -> (r: bool)
        ensures
            r == (self.cur@.len() == 0 && self.prev is None),
    {
        self.cur.as_str().is_empty() && self.prev.is_none()
    }

    /// The cell names from the bottom to the top module.
    pub fn iter(&self) -> (names: Vec<String>)
        ensures
            names@.map_values(|n: String| n@) == self.names(),
        decreases self,
    {
        let mut names: Vec<String> = Vec::new();
        if !self.cur.as_str().is_empty() {
            names.push(self.cur.clone());
            assert(names@.map_values(|n: String| n@) =~= seq![self.cur@]);
            if let Some(prev) = &self.prev {
                let rest: Vec<String> = prev.iter();
                let ghost r = rest@.map_values(|n: String| n@);
                let mut i: usize = 0;
                while i < rest.len()
                    invariant
                        i <= rest@.len(),
                        r == rest@.map_values(|n: String| n@),
                        names@.map_values(|n: String| n@) == seq![self.cur@] + r.take(i as int),
                    decreases rest@.len() - i,
                {
                    let ghost before = names@.map_values(|n: String| n@);
                    let name: String = rest[i].clone();
                    names.push(name);
                    i += 1;
                    assert(names@.map_values(|n: String| n@) =~= before.push(r[i - 1]));
                    assert(r.take(i as int) =~= r.take(i - 1).push(r[i - 1]));
                    assert(names@.map_values(|n: String| n@) =~= seq![self.cur@] + r.take(i as int));
                }
                assert(r.take(i as int) =~= r);
            }
        } else {
            assert(names@.map_values(|n: String| n@) =~= Seq::<Seq<char>>::empty());
        }
        names
    }
}

/// `String::hash`: feeds a name to a hasher.  Nothing is stated of the hasher,
/// which is the caller's.
#[verifier::external_body]
fn hash_name<H: Hasher>(name: &String, state: &mut H) {
    name.hash(state);
}

impl Hash for VCDHier {
    /// Feeds the cell names to a hasher, from the bottom to the top module.
    fn hash<H: Hasher>(&self, state: &mut H) {
        let names: Vec<String> = self.iter();
        let mut i: usize = 0;
        while i < names.len()
            invariant
                i <= names@.len(),
            decreases names@.len() - i,
        {
            hash_name(&names[i], state);
            i += 1;
        }
    }
}

} // verus!
