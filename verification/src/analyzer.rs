use vstd::prelude::*;
use crate::ast::{AExpression, BExpression, Statement};
use crate::error::{SemanticError, UserDefinedError};
use crate::interpreter::{aexpr_value, bexpr_value, law_run_keeps_variables, run, Fault, Outcome};

verus! {

/// A set of variable names.
pub struct VarSet {
    names: Vec<String>,
    members: Ghost<Set<Seq<char>>>,
}

/// The names are distinct and are exactly the members.
spec fn var_set_parts_wf(names: Seq<String>, members: Set<Seq<char>>) -> bool {
    &&& forall|i: int, j: int|
        0 <= i < j < names.len() ==> #[trigger] names[i]@ != #[trigger] names[j]@
    &&& forall|i: int| 0 <= i < names.len() ==> #[trigger] members.contains(names[i]@)
    &&& forall|k: Seq<char>|
        #[trigger] members.contains(k) ==> exists|i: int| 0 <= i < names.len() && #[trigger] names[i]@ == k
}

impl VarSet {
    #[verifier::type_invariant]
    spec fn wf(self) -> bool {
        var_set_parts_wf(self.names@, self.members@)
    }
}

impl View for VarSet {
    type V = Set<Seq<char>>;

    closed spec fn view(&self) -> Set<Seq<char>> {
        self.members@
    }
}

impl VarSet {
    /// The empty set.
    pub fn new() -> (s: VarSet)
        ensures
            s@ == Set::<Seq<char>>::empty(),
    {
        VarSet { names: Vec::new(), members: Ghost(Set::empty()) }
    }

    /// Whether `name` is a member.
    pub fn contains(&self, name: &String) -> (r: bool)
        ensures
            r == self@.contains(name@),
    {
        proof {
            use_type_invariant(self);
        }
        let mut i: usize = 0;
        while i < self.names.len()
            invariant
                self.wf(),
                i <= self.names@.len(),
                forall|j: int| 0 <= j < i ==> #[trigger] self.names@[j]@ != name@,
            decreases self.names.len() - i,
        {
            if self.names[i] == *name {
                return true;
            }
            i = i + 1;
        }
        proof {
            if self.members@.contains(name@) {
                let j = choose|j: int| 0 <= j < self.names@.len() && #[trigger] self.names@[j]@ == name@;
            }
        }
        false
    }

    /// Adds `name`.
    pub fn insert(&mut self, name: String)
        ensures
            final(self)@ == old(self)@.insert(name@),
    {
        proof {
            use_type_invariant(&*self);
        }
        if self.contains(&name) {
            return;
        }
        let ghost old_names = self.names@;
        let ghost new_members = self.members@.insert(name@);
        let mut taken = VarSet::new();
        std::mem::swap(self, &mut taken);
        let VarSet { mut names, members: _ } = taken;
        names.push(name);
        proof {
            let n = old_names.len() as int;
            assert forall|i: int, j: int| 0 <= i < j < names@.len() implies #[trigger] names@[i]@
                != #[trigger] names@[j]@ by {
                if j == n {
                    assert(old(self).members@.contains(old_names[i]@));
                } else {
                    assert(old_names[i]@ != old_names[j]@);
                }
            }
            assert forall|i: int| 0 <= i < names@.len() implies #[trigger] new_members.contains(
                names@[i]@,
            ) by {
                if i < n {
                    assert(old(self).members@.contains(old_names[i]@));
                }
            }
            assert forall|k: Seq<char>| #[trigger] new_members.contains(k) implies exists|i: int|
                0 <= i < names@.len() && #[trigger] names@[i]@ == k by {
                if k == names@[n]@ {
                } else {
                    assert(old(self).members@.contains(k));
                    let i = choose|i: int|
                        0 <= i < old_names.len() && #[trigger] old_names[i]@ == k;
                    assert(names@[i]@ == k);
                }
            }
        }
        *self = VarSet { names, members: Ghost(new_members) };
    }

    /// The members of both `self` and `other`.
    pub fn intersection(&self, other: &VarSet) -> (r: VarSet)
        ensures
            r@ == self@.intersect(other@),
    {
        proof {
            use_type_invariant(self);
        }
        let mut names: Vec<String> = Vec::new();
        let ghost mut members: Set<Seq<char>> = Set::empty();
        let mut i: usize = 0;
        while i < self.names.len()
            invariant
                self.wf(),
                i <= self.names@.len(),
                var_set_parts_wf(names@, members),
                members == Set::new(
                    |k: Seq<char>|
                        exists|j: int| 0 <= j < i && #[trigger] self.names@[j]@ == k,
                ).intersect(other@),
            decreases self.names.len() - i,
        {
            let ghost prev = members;
            let ghost prev_names = names@;
            let ghost n = names@.len() as int;
            if other.contains(&self.names[i]) {
                let name = self.names[i].clone();
                proof {
                    assert forall|a: int, b: int| 0 <= a < b < names@.push(name).len() implies #[trigger] names@.push(name)[a]@
                        != #[trigger] names@.push(name)[b]@ by {
                        if b == n {
                            assert(prev.contains(names@[a]@));
                            let j = choose|j: int| 0 <= j < i && #[trigger] self.names@[j]@ == names@[a]@;
                            assert(self.names@[j]@ != self.names@[i as int]@);
                        }
                    }
                    members = members.insert(name@);
                }
                names.push(name);
            }
            proof {
                assert(members =~= Set::new(
                    |k: Seq<char>|
                        exists|j: int| 0 <= j < i + 1 && #[trigger] self.names@[j]@ == k,
                ).intersect(other@)) by {
                    assert forall|k: Seq<char>| members.contains(k) <==> Set::new(
                        |k: Seq<char>|
                            exists|j: int| 0 <= j < i + 1 && #[trigger] self.names@[j]@ == k,
                    ).intersect(other@).contains(k) by {
                        if exists|j: int| 0 <= j < i + 1 && #[trigger] self.names@[j]@ == k {
                            let j = choose|j: int| 0 <= j < i + 1 && #[trigger] self.names@[j]@ == k;
                            if j < i {
                                assert(exists|j: int| 0 <= j < i && #[trigger] self.names@[j]@ == k);
                            }
                        }
                        if prev.contains(k) {
                            let j = choose|j: int| 0 <= j < i && #[trigger] self.names@[j]@ == k;
                            assert(0 <= j < i + 1 && self.names@[j]@ == k);
                        }
                    }
                }
                assert forall|j: int| 0 <= j < names@.len() implies #[trigger] members.contains(
                    names@[j]@,
                ) by {
                    if j < n {
                        assert(names@[j] == prev_names[j]);
                        assert(prev.contains(prev_names[j]@));
                    }
                }
                assert forall|k: Seq<char>| #[trigger] members.contains(k) implies exists|j: int|
                    0 <= j < names@.len() && #[trigger] names@[j]@ == k by {
                    if prev.contains(k) {
                        let j = choose|j: int| 0 <= j < prev_names.len() && #[trigger] prev_names[j]@ == k;
                        assert(names@[j] == prev_names[j]);
                    } else {
                        assert(names@[n]@ == k);
                    }
                }
            }
            i = i + 1;
        }
        proof {
            assert(members =~= self@.intersect(other@)) by {
                assert forall|k: Seq<char>| members.contains(k) <==> self@.intersect(other@).contains(k) by {
                    if self.members@.contains(k) {
                        let j = choose|j: int| 0 <= j < self.names@.len() && #[trigger] self.names@[j]@ == k;
                        assert(exists|j: int| 0 <= j < i && #[trigger] self.names@[j]@ == k);
                    }
                    if exists|j: int| 0 <= j < i && #[trigger] self.names@[j]@ == k {
                        let j = choose|j: int| 0 <= j < i && #[trigger] self.names@[j]@ == k;
                        assert(self.members@.contains(self.names@[j]@));
                    }
                }
            }
        }
        VarSet { names, members: Ghost(members) }
    }
}

impl Clone for VarSet {
    /// A set with the same members.
    fn clone(&self) -> (r: VarSet)
        ensures
            r@ == self@,
    {
        proof {
            use_type_invariant(self);
        }
        let mut names: Vec<String> = Vec::new();
        let mut i: usize = 0;
        while i < self.names.len()
            invariant
                self.wf(),
                i <= self.names@.len(),
                names@ == self.names@.subrange(0, i as int),
            decreases self.names.len() - i,
        {
            names.push(self.names[i].clone());
            i = i + 1;
            assert(names@ =~= self.names@.subrange(0, i as int));
        }
        assert(names@ =~= self.names@);
        VarSet { names, members: Ghost(self.members@) }
    }
}

/// The first variable, reading from left to right, that `e` reads and
/// `vars` lacks.
pub open spec fn first_unset_a(e: AExpression, vars: Set<Seq<char>>) -> Option<Seq<char>>
    decreases e,
{
    match e {
        AExpression::Int(_) => None,
        AExpression::Var(x) => if vars.contains(x@) {
            None
        } else {
            Some(x@)
        },
        AExpression::Add(l, r) | AExpression::Sub(l, r) | AExpression::Mul(l, r) => {
            match first_unset_a(*l, vars) {
                Some(v) => Some(v),
                None => first_unset_a(*r, vars),
            }
        },
    }
}

/// The first variable, reading from left to right, that `b` reads and
/// `vars` lacks.
pub open spec fn first_unset_b(b: BExpression, vars: Set<Seq<char>>) -> Option<Seq<char>>
    decreases b,
{
    match b {
        BExpression::True | BExpression::False => None,
        BExpression::Equ(l, r) | BExpression::Leq(l, r) => match first_unset_a(l, vars) {
            Some(v) => Some(v),
            None => first_unset_a(r, vars),
        },
        BExpression::Not(x) => first_unset_b(*x, vars),
        BExpression::And(l, r) => match first_unset_b(*l, vars) {
            Some(v) => Some(v),
            None => first_unset_b(*r, vars),
        },
    }
}

/// The analysis of `s` from the initialised variables `vars`: the
/// uninitialised variable that it reports, if any, and the initialised
/// variables where it stops. An assignment initialises its variable; after
/// `if`, only the variables that both branches initialise count; a loop's
/// body is checked once, and since it may run zero times, what it
/// initialises does not count after the loop.
pub open spec fn analyze(s: Statement, vars: Set<Seq<char>>) -> (Option<Seq<char>>, Set<Seq<char>>)
    decreases s,
{
    match s {
        Statement::Assign(x, e) => match first_unset_a(e, vars) {
            Some(v) => (Some(v), vars),
            None => (None, vars.insert(x@)),
        },
        Statement::Skip => (None, vars),
        Statement::Sequence(a, b) => {
            let (ea, va) = analyze(*a, vars);
            if ea is Some {
                (ea, va)
            } else {
                analyze(*b, va)
            }
        },
        Statement::If(c, a, b) => match first_unset_b(c, vars) {
            Some(v) => (Some(v), vars),
            None => {
                let (ea, va) = analyze(*a, vars);
                if ea is Some {
                    (ea, va)
                } else {
                    let (eb, vb) = analyze(*b, vars);
                    if eb is Some {
                        (eb, vb)
                    } else {
                        (None, va.intersect(vb))
                    }
                }
            },
        },
        Statement::While(c, body) => match first_unset_b(c, vars) {
            Some(v) => (Some(v), vars),
            None => {
                let (eb, vb) = analyze(*body, vars);
                if eb is Some {
                    (eb, vb)
                } else {
                    (None, vars)
                }
            },
        },
    }
}

/// `r` reports the uninitialised variable `v`, or succeeds where there is
/// none.
pub open spec fn reports(r: Result<(), UserDefinedError>, v: Option<Seq<char>>) -> bool {
    match v {
        None => r is Ok,
        Some(x) => r matches Err(UserDefinedError::Semantic(SemanticError::UninitializedVariable(s)))
            && s@ == x,
    }
}

/// Checks that every variable is assigned before it is read.
pub struct SemanticAnalyzer {
    initialized_vars: VarSet,
}

impl View for SemanticAnalyzer {
    type V = Set<Seq<char>>;

    /// The variables known to be initialised.
    closed spec fn view(&self) -> Set<Seq<char>> {
        self.initialized_vars@
    }
}

impl SemanticAnalyzer {
    /// An analyser that knows of no initialised variable.
    pub fn new() -> (a: Self)
        ensures
            a@ == Set::<Seq<char>>::empty(),
    {
        Self { initialized_vars: VarSet::new() }
    }

    /// Analyses `stmt` from the variables initialised so far, and leaves
    /// the analyser with those initialised after it (see `analyze`).
    pub fn visit_stmt(&mut self, stmt: &Statement) -> (r: Result<(), UserDefinedError>)
        ensures
            reports(r, analyze(*stmt, old(self)@).0),
            final(self)@ == analyze(*stmt, old(self)@).1,
        decreases stmt,
    {
        match stmt {
            Statement::Assign(var, expr) => {
                match self.visit_aexpr(expr) {
                    Ok(()) => {},
                    Err(e) => {
                        return Err(e);
                    },
                }
                self.initialized_vars.insert(var.clone());
                Ok(())
            },
            Statement::Sequence(stmt1, stmt2) => {
                match self.visit_stmt(stmt1) {
                    Ok(()) => {},
                    Err(e) => {
                        return Err(e);
                    },
                }
                self.visit_stmt(stmt2)
            },
            Statement::If(condition, stmt1, stmt2) => {
                match self.visit_bexpr(condition) {
                    Ok(()) => {},
                    Err(e) => {
                        return Err(e);
                    },
                }
                let state_before = self.initialized_vars.clone();
                match self.visit_stmt(stmt1) {
                    Ok(()) => {},
                    Err(e) => {
                        return Err(e);
                    },
                }
                let state_after_then = self.initialized_vars.clone();
                self.initialized_vars = state_before;
                match self.visit_stmt(stmt2) {
                    Ok(()) => {},
                    Err(e) => {
                        return Err(e);
                    },
                }
                let state_after_else = self.initialized_vars.clone();
                self.initialized_vars = state_after_then.intersection(&state_after_else);
                Ok(())
            },
            Statement::While(condition, stmt) => {
                match self.visit_bexpr(condition) {
                    Ok(()) => {},
                    Err(e) => {
                        return Err(e);
                    },
                }
                let state_before = self.initialized_vars.clone();
                match self.visit_stmt(stmt) {
                    Ok(()) => {},
                    Err(e) => {
                        return Err(e);
                    },
                }
                self.initialized_vars = state_before;
                Ok(())
            },
            Statement::Skip => Ok(()),
        }
    }

    /// Checks that every variable that `bexpr` reads is initialised; reports
    /// the first one, from left to right, that is not.
    pub fn visit_bexpr(&mut self, bexpr: &BExpression) -> (r: Result<(), UserDefinedError>)
        ensures
            reports(r, first_unset_b(*bexpr, old(self)@)),
            final(self)@ == old(self)@,
        decreases bexpr,
    {
        match bexpr {
            BExpression::True => Ok(()),
            BExpression::False => Ok(()),
            BExpression::And(left, right) => {
                match self.visit_bexpr(left) {
                    Ok(()) => {},
                    Err(e) => {
                        return Err(e);
                    },
                }
                self.visit_bexpr(right)
            },
            BExpression::Equ(left, right) | BExpression::Leq(left, right) => {
                match self.visit_aexpr(left) {
                    Ok(()) => {},
                    Err(e) => {
                        return Err(e);
                    },
                }
                self.visit_aexpr(right)
            },
            BExpression::Not(bxpr) => self.visit_bexpr(bxpr),
        }
    }

    /// Checks that every variable that `aexpr` reads is initialised; reports
    /// the first one, from left to right, that is not.
    pub fn visit_aexpr(&mut self, aexpr: &AExpression) -> (r: Result<(), UserDefinedError>)
        ensures
            reports(r, first_unset_a(*aexpr, old(self)@)),
            final(self)@ == old(self)@,
        decreases aexpr,
    {
        match aexpr {
            AExpression::Int(_) => Ok(()),
            AExpression::Add(stmt1, stmt2)
            | AExpression::Sub(stmt1, stmt2)
            | AExpression::Mul(stmt1, stmt2) => {
                match self.visit_aexpr(stmt1) {
                    Ok(()) => {},
                    Err(e) => {
                        return Err(e);
                    },
                }
                self.visit_aexpr(stmt2)
            },
            AExpression::Var(var) => {
                if self.initialized_vars.contains(var) {
                    Ok(())
                } else {
                    Err(UserDefinedError::Semantic(SemanticError::UninitializedVariable(var.clone())))
                }
            },
        }
    }
}

proof fn lemma_aexpr_reads_set(e: AExpression, vars: Set<Seq<char>>, st: Map<Seq<char>, i64>)
    requires
        first_unset_a(e, vars) is None,
        vars.subset_of(st.dom()),
    ensures
        aexpr_value(e, st) != Err::<i64, Fault>(Fault::Unbound),
    decreases e,
{
    match e {
        AExpression::Add(l, r) | AExpression::Sub(l, r) | AExpression::Mul(l, r) => {
            lemma_aexpr_reads_set(*l, vars, st);
            lemma_aexpr_reads_set(*r, vars, st);
        },
        AExpression::Var(x) => {
            assert(vars.contains(x@));
        },
        _ => {},
    }
}

proof fn lemma_bexpr_reads_set(b: BExpression, vars: Set<Seq<char>>, st: Map<Seq<char>, i64>)
    requires
        first_unset_b(b, vars) is None,
        vars.subset_of(st.dom()),
    ensures
        bexpr_value(b, st) != Err::<bool, Fault>(Fault::Unbound),
    decreases b,
{
    match b {
        BExpression::Equ(l, r) | BExpression::Leq(l, r) => {
            lemma_aexpr_reads_set(l, vars, st);
            lemma_aexpr_reads_set(r, vars, st);
        },
        BExpression::Not(x) => lemma_bexpr_reads_set(*x, vars, st),
        BExpression::And(l, r) => {
            lemma_bexpr_reads_set(*l, vars, st);
            lemma_bexpr_reads_set(*r, vars, st);
        },
        _ => {},
    }
}

proof fn lemma_analysis_sound(s: Statement, vars: Set<Seq<char>>, st: Map<Seq<char>, i64>, fuel: nat)
    requires
        analyze(s, vars).0 is None,
        vars.subset_of(st.dom()),
    ensures
        run(s, st, fuel) != Outcome::Fault(Fault::Unbound),
        run(s, st, fuel) matches Outcome::Done(st2) ==> analyze(s, vars).1.subset_of(st2.dom()),
    decreases fuel, s,
{
    match s {
        Statement::Assign(x, e) => {
            lemma_aexpr_reads_set(e, vars, st);
        },
        Statement::Skip => {},
        Statement::Sequence(a, b) => {
            lemma_analysis_sound(*a, vars, st, fuel);
            if let Outcome::Done(st1) = run(*a, st, fuel) {
                lemma_analysis_sound(*b, analyze(*a, vars).1, st1, fuel);
            }
        },
        Statement::If(c, a, b) => {
            lemma_bexpr_reads_set(c, vars, st);
            match bexpr_value(c, st) {
                Ok(true) => lemma_analysis_sound(*a, vars, st, fuel),
                Ok(false) => lemma_analysis_sound(*b, vars, st, fuel),
                Err(_) => {},
            }
        },
        Statement::While(c, body) => {
            lemma_bexpr_reads_set(c, vars, st);
            if fuel > 0 {
                if let Ok(true) = bexpr_value(c, st) {
                    let f1 = (fuel - 1) as nat;
                    lemma_analysis_sound(*body, vars, st, f1);
                    law_run_keeps_variables(*body, st, f1);
                    if let Outcome::Done(st1) = run(*body, st, f1) {
                        lemma_analysis_sound(s, vars, st1, f1);
                    }
                }
            }
        },
    }
}

/// The analysis keeps its promise: where it reports no uninitialised
/// variable, running the program from a memory that holds every variable
/// it started from never reads a variable without a value, and finishes
/// (where it does) with every variable that the analysis counts as
/// initialised.
pub proof fn law_accepted_programs_read_only_set_variables(
    s: Statement,
    vars: Set<Seq<char>>,
    st: Map<Seq<char>, i64>,
    fuel: nat,
)
    requires
        analyze(s, vars).0 is None,
        vars.subset_of(st.dom()),
    ensures
        run(s, st, fuel) != Outcome::Fault(Fault::Unbound),
        run(s, st, fuel) matches Outcome::Done(st2) ==> analyze(s, vars).1.subset_of(st2.dom()),
{
    lemma_analysis_sound(s, vars, st, fuel);
}

proof fn lemma_aexpr_check_monotone(e: AExpression, v1: Set<Seq<char>>, v2: Set<Seq<char>>)
    requires
        v1.subset_of(v2),
        first_unset_a(e, v1) is None,
    ensures
        first_unset_a(e, v2) is None,
    decreases e,
{
    match e {
        AExpression::Add(l, r) | AExpression::Sub(l, r) | AExpression::Mul(l, r) => {
            lemma_aexpr_check_monotone(*l, v1, v2);
            lemma_aexpr_check_monotone(*r, v1, v2);
        },
        _ => {},
    }
}

proof fn lemma_bexpr_check_monotone(b: BExpression, v1: Set<Seq<char>>, v2: Set<Seq<char>>)
    requires
        v1.subset_of(v2),
        first_unset_b(b, v1) is None,
    ensures
        first_unset_b(b, v2) is None,
    decreases b,
{
    match b {
        BExpression::Equ(l, r) | BExpression::Leq(l, r) => {
            lemma_aexpr_check_monotone(l, v1, v2);
            lemma_aexpr_check_monotone(r, v1, v2);
        },
        BExpression::Not(x) => lemma_bexpr_check_monotone(*x, v1, v2),
        BExpression::And(l, r) => {
            lemma_bexpr_check_monotone(*l, v1, v2);
            lemma_bexpr_check_monotone(*r, v1, v2);
        },
        _ => {},
    }
}

/// The analysis never forgets: where it reports nothing, every variable
/// initialised before a statement is still initialised after it (in
/// particular, a variable assigned before an `if` counts after it and in
/// both branches).
pub proof fn law_analysis_keeps_initialised(s: Statement, vars: Set<Seq<char>>)
    requires
        analyze(s, vars).0 is None,
    ensures
        vars.subset_of(analyze(s, vars).1),
    decreases s,
{
    match s {
        Statement::Sequence(a, b) => {
            law_analysis_keeps_initialised(*a, vars);
            law_analysis_keeps_initialised(*b, analyze(*a, vars).1);
        },
        Statement::If(_, a, b) => {
            law_analysis_keeps_initialised(*a, vars);
            law_analysis_keeps_initialised(*b, vars);
        },
        _ => {},
    }
}

/// Knowing more initialised variables never hurts: a statement that
/// passes the analysis from `v1` passes it from any larger `v2`, and ends
/// with at least as many initialised variables.
pub proof fn law_analysis_monotone(s: Statement, v1: Set<Seq<char>>, v2: Set<Seq<char>>)
    requires
        v1.subset_of(v2),
        analyze(s, v1).0 is None,
    ensures
        analyze(s, v2).0 is None,
        analyze(s, v1).1.subset_of(analyze(s, v2).1),
    decreases s,
{
    match s {
        Statement::Assign(_, e) => {
            lemma_aexpr_check_monotone(e, v1, v2);
        },
        Statement::Sequence(a, b) => {
            law_analysis_monotone(*a, v1, v2);
            law_analysis_monotone(*b, analyze(*a, v1).1, analyze(*a, v2).1);
        },
        Statement::If(c, a, b) => {
            lemma_bexpr_check_monotone(c, v1, v2);
            law_analysis_monotone(*a, v1, v2);
            law_analysis_monotone(*b, v1, v2);
        },
        Statement::While(c, body) => {
            lemma_bexpr_check_monotone(c, v1, v2);
            law_analysis_monotone(*body, v1, v2);
        },
        Statement::Skip => {},
    }
}

} // verus!
