//! What the endpoints of a partition ask for.
use crate::aig::node_of;
use crate::boomerang::BOOMERANG_MAX_WRITEOUTS;
use crate::collections::{
    inserted, lemma_inserted, pair_items, pair_set_insert, pair_set_new, set_insert, set_items,
    set_new,
};
use crate::staging::{ids_ok, EndpointGroup, EndpointKind, StagedAIG};
use indexmap::IndexSet;
use vstd::prelude::*;

verus! {

/// The node that an endpoint stores and under which condition: the enable
/// literal, followed by whether the value is inverted.  A memory has none.
pub open spec fn activation(kind: EndpointKind) -> Option<(usize, usize)> {
    match kind {
        EndpointKind::DFF(dff) => Some((dff.d_iv / 2, (dff.en_iv << 1) | (dff.d_iv & 1))),
        EndpointKind::PrimaryOutput(pin) => Some((pin / 2, 2 | (pin & 1))),
        EndpointKind::RAMBlock(_) => None,
        EndpointKind::StagedIOPin(pin) => Some((pin, 2)),
    }
}

/// The activations of endpoints.
pub open spec fn activations(groups: Seq<EndpointGroup>, ids: Seq<usize>) -> Seq<(usize, usize)>
    decreases ids.len(),
{
    if ids.len() == 0 {
        Seq::empty()
    } else {
        let s = activations(groups, ids.drop_last());
        match activation(groups[ids.last() as int].kind) {
            Some(a) => s.push(a),
            None => s,
        }
    }
}

/// The number of memories among endpoints.
pub open spec fn num_srams(groups: Seq<EndpointGroup>, ids: Seq<usize>) -> nat
    decreases ids.len(),
{
    if ids.len() == 0 {
        0
    } else {
        num_srams(groups, ids.drop_last()) + (if groups[ids.last() as int].kind is RAMBlock {
            1nat
        } else {
            0nat
        })
    }
}

/// The nodes that are stored.
pub open spec fn stored_pins(acts: Seq<(usize, usize)>) -> Seq<usize> {
    acts.map_values(|a: (usize, usize)| a.0)
}

/// How often a node is stored again under another condition.
pub open spec fn num_output_dups(acts: Seq<(usize, usize)>) -> int {
    acts.to_set().len() - stored_pins(acts).to_set().len()
}

/// The write-outs that memories and repeated outputs take up.
pub open spec fn reserved_writeouts(srams: int, dups: int) -> int {
    srams + (dups + 31) / 32
}

/// Whether memories and repeated outputs leave room for write-outs.
pub open spec fn fits_writeouts(srams: int, dups: int) -> bool {
    &&& reserved_writeouts(srams, dups) < BOOMERANG_MAX_WRITEOUTS
    &&& srams * 4 + dups <= BOOMERANG_MAX_WRITEOUTS
}

/// A list without repetitions is as long as the set of its values.
proof fn lemma_same_len<T>(s: Seq<T>, t: Seq<T>)
    requires
        s.no_duplicates(),
        forall|x: T| s.contains(x) <==> t.contains(x),
    ensures
        t.to_set().len() == s.len(),
{
    s.unique_seq_to_set();
    assert(s.to_set() =~= t.to_set());
}

/// A longer list holds one more value.
proof fn lemma_push_contains<T>(s: Seq<T>, a: T, x: T)
    ensures
        s.push(a).contains(x) <==> s.contains(x) || x == a,
{
    let t = s.push(a);
    if s.contains(x) {
        assert(t[s.index_of(x)] == x);
    }
    if x == a {
        assert(t[s.len() as int] == x);
    }
    if t.contains(x) && x != a {
        assert(s[t.index_of(x)] == x);
    }
}

/// A node is stored under at least one condition.
pub proof fn lemma_dups_nonnegative(acts: Seq<(usize, usize)>)
    ensures
        num_output_dups(acts) >= 0,
{
    let f = |a: (usize, usize)| a.0;
    let s = acts.to_set();
    vstd::seq_lib::seq_to_set_is_finite(acts);
    vstd::set_lib::lemma_map_size_bound(s, s.map(f), f);
    assert(stored_pins(acts).to_set() =~= s.map(f)) by {
        assert forall|x: usize| stored_pins(acts).to_set().contains(x) <==> s.map(f).contains(x) by {
            if stored_pins(acts).contains(x) {
                let i = stored_pins(acts).index_of(x);
                assert(s.contains(acts[i]));
                assert(f(acts[i]) == x);
            }
            if s.map(f).contains(x) {
                let a = choose|a: (usize, usize)| s.contains(a) && f(a) == x;
                let i = acts.index_of(a);
                assert(stored_pins(acts)[i] == x);
            }
        }
    }
}

/// The activation of an endpoint.
fn activation_of(kind: EndpointKind) -> (a: Option<(usize, usize)>)
    ensures
        a == activation(kind),
{
    match kind {
        EndpointKind::DFF(dff) => Some((node_of(dff.d_iv), (dff.en_iv << 1) | (dff.d_iv & 1))),
        EndpointKind::PrimaryOutput(pin) => Some((node_of(pin), 2 | (pin & 1))),
        EndpointKind::RAMBlock(_) => None,
        EndpointKind::StagedIOPin(pin) => Some((pin, 2)),
    }
}

/// Activations and stored nodes seen so far.
struct Tallies {
    acts: IndexSet<(usize, usize)>,
    pins: IndexSet<usize>,
    num_acts: usize,
    num_pins: usize,
}

impl Tallies {
    /// The sets hold the activations and the nodes of `s`.
    spec fn counts(self, s: Seq<(usize, usize)>) -> bool {
        &&& pair_items(self.acts).no_duplicates()
        &&& set_items(self.pins).no_duplicates()
        &&& forall|a: (usize, usize)| #[trigger] pair_items(self.acts).contains(a) <==> s.contains(a)
        &&& forall|x: usize| #[trigger] set_items(self.pins).contains(x) <==> stored_pins(s).contains(
            x,
        )
        &&& self.num_acts == pair_items(self.acts).len()
        &&& self.num_pins == set_items(self.pins).len()
        &&& self.num_pins <= self.num_acts <= s.len()
    }

    /// Takes one more activation in.
    fn note(&mut self, a: (usize, usize), Ghost(s): Ghost<Seq<(usize, usize)>>)
        requires
            old(self).counts(s),
            s.len() < usize::MAX,
        ensures
            final(self).counts(s.push(a)),
    {
        proof {
            lemma_inserted(pair_items(self.acts), a);
            lemma_inserted(set_items(self.pins), a.0);
            assert(stored_pins(s.push(a)) =~= stored_pins(s).push(a.0));
            if s.contains(a) {
                assert(stored_pins(s)[s.index_of(a)] == a.0);
            }
        }
        let fresh_act: bool = pair_set_insert(&mut self.acts, a);
        let fresh_pin: bool = set_insert(&mut self.pins, a.0);
        if fresh_act {
            self.num_acts += 1;
        }
        if fresh_pin {
            self.num_pins += 1;
        }
        assert forall|x: (usize, usize)| #[trigger]
            pair_items(self.acts).contains(x) <==> s.push(a).contains(x) by {
            lemma_push_contains(s, a, x);
            assert(inserted(pair_items(old(self).acts), a).contains(x) <==> pair_items(
                old(self).acts,
            ).contains(x) || x == a);
        }
        assert forall|x: usize| #[trigger] set_items(self.pins).contains(x) <==> stored_pins(
            s.push(a),
        ).contains(x) by {
            lemma_push_contains(stored_pins(s), a.0, x);
            assert(inserted(set_items(old(self).pins), a.0).contains(x) <==> set_items(
                old(self).pins,
            ).contains(x) || x == a.0);
        }
        assert(fresh_pin ==> fresh_act);
    }
}

impl StagedAIG {
    /// The number of memories among endpoints, and how often a node is stored
    /// again under another condition.
    pub fn count_outputs(&self, ids: &Vec<usize>) -> (r: (usize, usize))
        requires
            ids_ok(self.endpoints@, ids@),
        ensures
            r.0 == num_srams(self.endpoints@, ids@),
            r.1 == num_output_dups(activations(self.endpoints@, ids@)),
    {
        let ghost groups = self.endpoints@;
        let mut t: Tallies = Tallies {
            acts: pair_set_new(),
            pins: set_new(),
            num_acts: 0,
            num_pins: 0,
        };
        let mut srams: usize = 0;
        let mut k: usize = 0;
        assert(ids@.take(0) =~= Seq::empty());
        assert(stored_pins(Seq::empty()) =~= Seq::empty());
        while k < ids.len()
            invariant
                groups == self.endpoints@,
                ids_ok(groups, ids@),
                k <= ids@.len(),
                t.counts(activations(groups, ids@.take(k as int))),
                activations(groups, ids@.take(k as int)).len() <= k,
                srams == num_srams(groups, ids@.take(k as int)),
                srams <= k,
            decreases ids@.len() - k,
        {
            assert(ids@.take(k + 1).drop_last() =~= ids@.take(k as int));
            let kind: EndpointKind = self.get_endpoint_group(ids[k]).kind;
            match activation_of(kind) {
                Some(a) => {
                    t.note(a, Ghost(activations(groups, ids@.take(k as int))));
                },
                None => {
                    srams += 1;
                },
            }
            k += 1;
        }
        assert(ids@.take(k as int) =~= ids@);
        proof {
            let acts = activations(groups, ids@);
            lemma_same_len(pair_items(t.acts), acts);
            lemma_same_len(set_items(t.pins), stored_pins(acts));
        }
        (srams, t.num_acts - t.num_pins)
    }
}

} // verus!
