//! Id generation for objects with unpredictable lifetimes: ids are handed out
//! from a wrapping counter, skipping those still in use.
use vstd::prelude::*;
use std::collections::BTreeSet;

verus! {

broadcast use vstd::std_specs::btree::group_btree_axioms, vstd::laws_cmp::group_laws_cmp;

/// The id `j` steps after `start`, wrapping around the `usize` range.
pub open spec fn id_after(start: usize, j: int) -> usize {
    ((start + j) % (usize::MAX + 1)) as usize
}

proof fn lemma_id_after_next(start: usize, j: int)
    requires
        0 <= j,
    ensures
        id_after(id_after(start, j), 1) == id_after(start, j + 1),
{
    let m = usize::MAX + 1;
    vstd::arithmetic::div_mod::lemma_add_mod_noop(start + j, 1, m as int);
    vstd::arithmetic::div_mod::lemma_small_mod(1, m as nat);
    vstd::arithmetic::div_mod::lemma_mod_bound(start + j, m as int);
}

proof fn lemma_wrapping_next(x: usize)
    ensures
        x.wrapping_add(1) == id_after(x, 1),
        id_after(x, 0) == x,
{
    let m = usize::MAX + 1;
    vstd::arithmetic::div_mod::lemma_small_mod(x as nat, m as nat);
    if x + 1 < m {
        vstd::arithmetic::div_mod::lemma_small_mod((x + 1) as nat, m as nat);
    } else {
        vstd::arithmetic::div_mod::lemma_mod_self_0(m as int);
    }
}

pub struct IdGenerator {
    counter: usize,
    in_use: BTreeSet<usize>,
}

impl IdGenerator {
    /// Ids currently handed out.
    pub closed spec fn in_use(&self) -> Set<usize> {
        self.in_use@
    }

    /// Where the search for the next id starts.
    pub closed spec fn counter(&self) -> usize {
        self.counter
    }

    pub closed spec fn wf(&self) -> bool {
        self.in_use@.finite()
    }

    /// No id in use; the search starts at 0.
    pub fn new() -> (g: Self)
        ensures
            g.wf(),
            g.in_use() == Set::<usize>::empty(),
            g.counter() == 0,
    {
        IdGenerator { counter: 0, in_use: BTreeSet::new() }
    }

    /// Hand out the first id at or after the counter (wrapping) that is not in
    /// use. The counter moves just past it.
    pub fn generate(&mut self) -> (id: usize)
        requires
            old(self).wf(),
        ensures
            final(self).wf(),
            !old(self).in_use().contains(id),
            final(self).in_use() == old(self).in_use().insert(id),
            exists|n: int|
                #![trigger id_after(old(self).counter(), n)]
                0 <= n <= old(self).in_use().len() && id == id_after(old(self).counter(), n) && (
                forall|j: int| 0 <= j < n ==> old(self).in_use().contains(#[trigger] id_after(old(self).counter(), j))),
            final(self).counter() == id_after(id, 1),
    {
        proof {
            self.lemma_in_use_fits();
        }
        let ghost c0 = self.counter;
        let ghost used = self.in_use@;
        let ghost mut visited: Set<usize> = Set::empty();
        let ghost mut steps: int = 0;
        proof {
            lemma_wrapping_next(c0);
        }
        while self.in_use.contains(&self.counter)
            invariant
                self.in_use@ == used,
                used.finite(),
                used.len() <= usize::MAX,
                0 <= steps <= used.len(),
                visited.finite(),
                visited.len() == steps,
                visited.subset_of(used),
                self.counter == id_after(c0, steps),
                forall|j: int| 0 <= j < steps ==> used.contains(#[trigger] id_after(c0, j)),
                forall|x: usize| visited.contains(x) ==> exists|j: int| 0 <= j < steps && x == id_after(c0, j),
            decreases used.len() - steps,
        {
            proof {
                let cur = self.counter;
                if visited.contains(cur) {
                    let j = choose|j: int| 0 <= j < steps && cur == id_after(c0, j);
                    assert(false) by (nonlinear_arith)
                        requires
                            0 <= j < steps,
                            steps <= usize::MAX,
                            (c0 + j) % (usize::MAX + 1) == (c0 + steps) % (usize::MAX + 1),
                            0 <= c0 <= usize::MAX,
                    {
                        assert(c0 + steps - (c0 + j) < usize::MAX + 1);
                    }
                }
                vstd::set_lib::lemma_len_subset(visited.insert(cur), used);
                visited = visited.insert(cur);
                steps = steps + 1;
            }
            proof {
                lemma_wrapping_next(self.counter);
                lemma_id_after_next(c0, steps - 1);
            }
            self.counter = self.counter.wrapping_add(1);
        }
        let out = self.counter;
        self.in_use.insert(out);
        proof {
            lemma_wrapping_next(out);
        }
        self.counter = self.counter.wrapping_add(1);
        proof {
            assert(0 <= steps <= used.len() && out == id_after(c0, steps) && (forall|j: int|
                0 <= j < steps ==> used.contains(#[trigger] id_after(c0, j))));
            assert(c0 == old(self).counter());
            assert(used == old(self).in_use());
            assert(exists|n: int|
                #![trigger id_after(old(self).counter(), n)]
                0 <= n <= old(self).in_use().len() && out == id_after(old(self).counter(), n) && (
                forall|j: int| 0 <= j < n ==> old(self).in_use().contains(#[trigger] id_after(old(self).counter(), j))));
        }
        out
    }

    /// Fewer ids are in use than `usize` can count.
    pub proof fn lemma_in_use_fits(&self)
        ensures
            self.in_use().len() <= usize::MAX,
    {
        assert(vstd::std_specs::btree::spec_btree_set_len(&self.in_use) == self.in_use@.len());
    }

    /// Whether `id` is handed out.
    pub fn is_in_use(&self, id: usize) -> (r: bool)
        ensures
            r == self.in_use().contains(id),
    {
        self.in_use.contains(&id)
    }

    /// Give an id back. Freeing an id that is not in use is a double free,
    /// which the caller must not do.
    pub fn free(&mut self, id: usize)
        requires
            old(self).wf(),
            old(self).in_use().contains(id),
        ensures
            final(self).wf(),
            final(self).in_use() == old(self).in_use().remove(id),
            final(self).counter() == old(self).counter(),
    {
        let removed = self.in_use.remove(&id);
    }
}

/// Freeing a generated id gives back the ids in use before.
pub proof fn law_free_undoes_generate(g0: &IdGenerator, g1: &IdGenerator, g2: &IdGenerator, id: usize)
    requires
        !g0.in_use().contains(id),
        g1.in_use() == g0.in_use().insert(id),
        g2.in_use() == g1.in_use().remove(id),
    ensures
        g2.in_use() == g0.in_use(),
{
    assert(g2.in_use() =~= g0.in_use());
}

} // verus!
