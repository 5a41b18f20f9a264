use vstd::prelude::*;
use crate::namemap::NameMap;
use crate::ast::{Stmt, stmts_model, SStmt};
use crate::liveness::{LivenessAnalyzer, LModel, lprogram, program_steps, slot_assignment, int_vals, lmodel_wf, law_slots_below_variable_count};

verus! {

/// The largest number in a sequence, or 0 for an empty one.
pub open spec fn seq_max_or_zero(s: Seq<usize>) -> nat
    decreases s.len(),
{
    if s.len() == 0 {
        0
    } else {
        let m = seq_max_or_zero(s.drop_last());
        if s.last() > m {
            s.last() as nat
        } else {
            m
        }
    }
}

/// `seq_max_or_zero` bounds every element and is one of them (or 0).
pub proof fn lemma_seq_max_or_zero(s: Seq<usize>)
    ensures
        forall|i: int| 0 <= i < s.len() ==> s[i] <= seq_max_or_zero(s),
        s.len() == 0 ==> seq_max_or_zero(s) == 0,
        s.len() > 0 ==> exists|i: int| 0 <= i < s.len() && s[i] == seq_max_or_zero(s),
    decreases s.len(),
{
    if s.len() > 0 {
        lemma_seq_max_or_zero(s.drop_last());
        if s.len() > 1 && s.last() <= seq_max_or_zero(s.drop_last()) {
            let i = choose|i: int| 0 <= i < s.len() - 1 && s.drop_last()[i] == seq_max_or_zero(s.drop_last());
            assert(s[i] == seq_max_or_zero(s));
        } else {
            assert(s[s.len() - 1] == seq_max_or_zero(s));
        }
        assert forall|i: int| 0 <= i < s.len() implies s[i] <= seq_max_or_zero(s) by {
            if i < s.len() - 1 {
                assert(s[i] == s.drop_last()[i]);
            }
        }
    }
}

/// Memory slots of variables. Every assigned slot lies below the next free
/// one.
pub struct SymbolTable {
    symbols: NameMap<usize>,
    next_slot: usize,
}

impl SymbolTable {
    #[verifier::type_invariant]
    spec fn inv(self) -> bool {
        forall|k: Seq<char>| #[trigger] self.symbols@.contains_key(k) ==> self.symbols@[k] < self.next_slot
    }

    /// The slot of each variable.
    pub closed spec fn view(&self) -> Map<Seq<char>, usize> {
        self.symbols@
    }

    /// The slot the next new variable gets.
    pub closed spec fn next_slot(&self) -> nat {
        self.next_slot as nat
    }

    /// An empty table whose first slot is 0.
    pub fn new() -> (r: Self)
        ensures
            r@ == Map::<Seq<char>, usize>::empty(),
            r.next_slot() == 0,
    {
        Self { symbols: NameMap::new(), next_slot: 0 }
    }

    /// A table with the given assignments; new variables get slots after the
    /// largest assigned one (1 when the assignments are empty).
    pub fn new_with_slots(slot_assignments: NameMap<usize>) -> (r: Self)
        requires
            forall|i: int|
                0 <= i < slot_assignments.vals().len() ==> #[trigger] slot_assignments.vals()[i]
                    < usize::MAX,
        ensures
            r@ == slot_assignments@,
            r.next_slot() == seq_max_or_zero(slot_assignments.vals()) + 1,
            forall|k: Seq<char>| #[trigger] r@.contains_key(k) ==> r@[k] < r.next_slot(),
            r@.dom().len() == 0 ==> r.next_slot() == 1,
            r@.dom().len() > 0 ==> exists|k: Seq<char>| #[trigger] r@.contains_key(k) && r@[k] + 1 == r.next_slot(),
    {
        let n = slot_assignments.len();
        let mut max_slot: usize = 0;
        let mut i: usize = 0;
        while i < n
            invariant
                i <= n,
                n == slot_assignments.vals().len(),
                n == slot_assignments.keys().len(),
                max_slot == seq_max_or_zero(slot_assignments.vals().take(i as int)),
                max_slot < usize::MAX,
                forall|j: int|
                    0 <= j < slot_assignments.vals().len() ==> #[trigger] slot_assignments.vals()[j]
                        < usize::MAX,
            decreases n - i,
        {
            let v = *slot_assignments.value_at(i);
            assert(slot_assignments.vals().take(i + 1).drop_last() =~= slot_assignments.vals().take(
                i as int,
            ));
            if v > max_slot {
                max_slot = v;
            }
            i += 1;
        }
        assert(slot_assignments.vals().take(n as int) =~= slot_assignments.vals());
        proof {
            let vs = slot_assignments.vals();
            lemma_seq_max_or_zero(vs);
            slot_assignments.lemma_dom_len();
            assert forall|k: Seq<char>| #[trigger] slot_assignments@.contains_key(k) implies slot_assignments@[k] < max_slot + 1 by {
                let i = slot_assignments.index_of(k);
                slot_assignments.lemma_view_at(i);
            }
            if n > 0 {
                let i = choose|i: int| 0 <= i < vs.len() && vs[i] == seq_max_or_zero(vs);
                slot_assignments.lemma_view_at(i);
                let k = slot_assignments.keys()[i];
                assert(slot_assignments@.contains_key(k) && slot_assignments@[k] + 1 == max_slot + 1);
            }
        }
        Self { symbols: slot_assignments, next_slot: max_slot + 1 }
    }

    /// The slot of `name`: its existing slot, or else the next free slot,
    /// which is then recorded.
    pub fn declare(&mut self, name: &str) -> (slot: usize)
        requires
            old(self)@.contains_key(name@) || old(self).next_slot() < usize::MAX,
        ensures
            old(self)@.contains_key(name@) ==> slot == old(self)@[name@] && final(self)@ == old(
                self,
            )@ && final(self).next_slot() == old(self).next_slot(),
            !old(self)@.contains_key(name@) ==> slot == old(self).next_slot() && final(self)@
                == old(self)@.insert(name@, slot) && final(self).next_slot() == old(
                self,
            ).next_slot() + 1,
            final(self)@.contains_key(name@) && final(self)@[name@] == slot,
            !old(self)@.contains_key(name@) ==> forall|k: Seq<char>| #[trigger] old(self)@.contains_key(k) ==> old(self)@[k] != slot,
    {
        proof {
            use_type_invariant(&*self);
        }
        let key = name.to_owned();
        match self.symbols.get(&key) {
            Some(s) => *s,
            None => {
                let slot = self.next_slot;
                let mut symbols = NameMap::new();
                std::mem::swap(&mut symbols, &mut self.symbols);
                symbols.insert(key, slot);
                *self = SymbolTable { symbols, next_slot: slot + 1 };
                slot
            },
        }
    }

    /// The slot of a variable that has one.
    pub fn lookup(&self, name: &str) -> (slot: usize)
        requires
            self@.contains_key(name@),
        ensures
            slot == self@[name@],
    {
        let key = name.to_owned();
        match self.symbols.get(&key) {
            Some(s) => *s,
            None => 0,
        }
    }

    /// All slot assignments.
    pub fn all(&self) -> (r: &NameMap<usize>)
        ensures
            r@ == self@,
    {
        &self.symbols
    }
}

/// The analysis state of a whole program, from a fresh analyzer.
pub open spec fn program_liveness(program: Seq<SStmt>) -> LModel {
    lprogram(
        LModel { reads: Map::empty(), wkeys: Seq::empty(), wvals: Seq::empty(), idx: 0 },
        program,
    )
}

/// A symbol table whose slots come from liveness analysis, so that
/// variables with disjoint lifetimes share a slot; also the number of
/// variables and the number of slots used, for reporting.
pub fn build_symbol_table(program: &[Stmt]) -> (r: (SymbolTable, (usize, usize)))
    requires
        program_steps(stmts_model(program@)) < usize::MAX,
    ensures
        int_vals(r.0@) == slot_assignment(program_liveness(stmts_model(program@))),
        r.1.0 == r.0@.dom().len(),
        r.1.1 == r.0.next_slot(),
        r.1.0 > 0 ==> r.1.1 <= r.1.0,
{
    // Use liveness analysis for slot reuse
    let mut analyzer = LivenessAnalyzer::new();
    let slot_assignments = analyzer.analyze_and_assign_slots(program);
    let ghost m = analyzer.model();
    proof {
        assert(m == program_liveness(stmts_model(program@)));
        law_slots_below_variable_count(m);
        slot_assignments.lemma_lens();
        assert forall|i: int| 0 <= i < slot_assignments.vals().len() implies #[trigger] slot_assignments.vals()[i] < usize::MAX by {
            slot_assignments.lemma_view_at(i);
            let k = slot_assignments.keys()[i];
            assert(int_vals(slot_assignments@).contains_key(k));
            assert(slot_assignment(m).contains_key(k));
        }
    }
    let stats = analyzer.get_slot_stats(&slot_assignments);
    proof {
        // reuse never needs more slots than variables
        let vs = slot_assignments.vals();
        let ks = slot_assignments.keys();
        slot_assignments.lemma_dom_len();
        law_slots_below_variable_count(m);
        assert(slot_assignments@.dom() =~= m.wkeys.to_set()) by {
            assert forall|k: Seq<char>| slot_assignments@.dom().contains(k) <==> m.wkeys.to_set().contains(k) by {
                assert(slot_assignments@.dom().contains(k) <==> int_vals(slot_assignments@).contains_key(k));
            }
        }
        m.wkeys.unique_seq_to_set();
        lemma_seq_max_or_zero(vs);
        if vs.len() > 0 {
            let i = choose|i: int| 0 <= i < vs.len() && vs[i] == seq_max_or_zero(vs);
            slot_assignments.lemma_view_at(i);
            assert(int_vals(slot_assignments@).contains_key(ks[i]));
            assert(slot_assignment(m).contains_key(ks[i]));
        }
    }
    let table = SymbolTable::new_with_slots(slot_assignments);
    (table, stats)
}

} // verus!
