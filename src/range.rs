//! Sets of block state identifiers, and the extended upper bound on the
//! identifiers accepted beyond the built-in ones.

use std::collections::HashSet;

use vstd::prelude::*;
use vstd::std_specs::hash::spec_hash_keys_iter;
use vstd::std_specs::iter::IteratorSpec;

verus! {

broadcast use vstd::std_specs::hash::group_hash_axioms;

/// The highest block state identifier accepted beyond the built-in range;
/// zero while no extension is in effect.
pub struct ModMaxState {
    max: u32,
}

impl View for ModMaxState {
    type V = u32;

    closed spec fn view(&self) -> u32 {
        self.max
    }
}

impl ModMaxState {
    /// No extension: the bound is zero.
    pub fn new() -> (r: ModMaxState)
        ensures
            r@ == 0,
    {
        ModMaxState { max: 0 }
    }
}

/// Sets the highest block state identifier to accept.
pub fn set_mod_max_state(state: &mut ModMaxState, new_max: u32)
    ensures
        final(state)@ == new_max,
{
    state.max = new_max;
}

/// The highest block state identifier accepted beyond the built-in range.
pub fn get_mod_max_state(state: &ModMaxState) -> (r: u32)
    ensures
        r == state@,
{
    state.max
}

/// A block state, by its numeric identifier.
#[derive(Debug, Clone, Copy, PartialEq, Eq, Structural)]
pub struct BlockState {
    pub id: u32,
}

/// No keys make the empty set.
proof fn lemma_no_keys(keys: Seq<&u32>)
    ensures
        keys.len() == 0 ==> keys.unref().to_set() == Set::<u32>::empty(),
{
    if keys.len() == 0 {
        assert(keys.unref() =~= Seq::<u32>::empty());
        assert(keys.unref().to_set() =~= Set::<u32>::empty());
    }
}

/// A set of block states.
#[derive(Debug)]
pub struct BlockStates {
    set: HashSet<u32>,
}

impl View for BlockStates {
    type V = Set<u32>;

    closed spec fn view(&self) -> Set<u32> {
        self.set@
    }
}

impl BlockStates {
    /// The empty set.
    pub fn new() -> (r: BlockStates)
        ensures
            r@ == Set::<u32>::empty(),
    {
        BlockStates { set: HashSet::new() }
    }

    /// Adds a state to the set.
    pub fn insert(&mut self, state: BlockState)
        ensures
            final(self)@ == old(self)@.insert(state.id),
    {
        self.set.insert(state.id);
    }

    /// The states of both sets.
    pub fn add(self, rhs: BlockStates) -> (r: BlockStates)
        ensures
            r@ == self@.union(rhs@),
    {
        let mut set = self.set;
        let ghost start = set@;
        proof {
            let keys = spec_hash_keys_iter(&rhs.set).remaining();
            assert(keys.unref().to_set() == rhs.set@);
            lemma_no_keys(keys);
            assert(start.union(Set::<u32>::empty()) =~= start);
        }
        for id in it: rhs.set.iter()
            invariant
                set@ == start.union(it.seq().take(it.index()).unref().to_set()),
                it.seq().unref().to_set() == rhs@,
                it.index() == it.seq().len() ==> set@ == start.union(rhs@),
        {
            proof {
                let done = it.seq().take(it.index()).unref();
                let next = it.seq().take(it.index() + 1).unref();
                assert(next =~= done.push(*id));
                assert(next.to_set() =~= done.to_set().insert(*id)) by {
                    assert forall|k: u32| next.contains(k) <==> done.contains(k) || k == *id by {
                        if next.contains(k) {
                            let j = choose|j: int| 0 <= j < next.len() && next[j] == k;
                            if j < done.len() {
                                assert(done[j] == k);
                            }
                        }
                        if done.contains(k) {
                            let j = choose|j: int| 0 <= j < done.len() && done[j] == k;
                            assert(next[j] == k);
                        }
                        if k == *id {
                            assert(next[done.len() as int] == k);
                        }
                    }
                }
            }
            set.insert(*id);
            proof {
                assert(it.seq().take(it.seq().len() as int) =~= it.seq());
            }
        }
        BlockStates { set }
    }

    /// Whether the set holds `state`.
    pub fn contains(&self, state: &BlockState) -> (r: bool)
        ensures
            r == self@.contains(state.id),
    {
        self.set.contains(&state.id)
    }
}

} // verus!
