use vstd::prelude::*;
use crate::ast::{AExpression, BExpression, Statement};

verus! {

/// The memory of a running program: each variable with its value.
pub struct Store {
    entries: Vec<(String, i64)>,
    contents: Ghost<Map<Seq<char>, i64>>,
}

impl Store {
    #[verifier::type_invariant]
    spec fn wf(self) -> bool {
        store_parts_wf(self.entries@, self.contents@)
    }
}

/// The entries name each variable once, and the map gives each the value
/// of its entry.
spec fn store_parts_wf(entries: Seq<(String, i64)>, contents: Map<Seq<char>, i64>) -> bool {
    &&& forall|i: int, j: int|
        0 <= i < j < entries.len() ==> #[trigger] entries[i].0@ != #[trigger] entries[j].0@
    &&& forall|i: int|
        0 <= i < entries.len() ==> #[trigger] contents.contains_key(entries[i].0@)
            && contents[entries[i].0@] == entries[i].1
    &&& forall|k: Seq<char>|
        #[trigger] contents.contains_key(k) ==> exists|i: int|
            0 <= i < entries.len() && #[trigger] entries[i].0@ == k
}

proof fn lemma_store_update(
    entries: Seq<(String, i64)>,
    contents: Map<Seq<char>, i64>,
    i: int,
    e: (String, i64),
)
    requires
        store_parts_wf(entries, contents),
        0 <= i < entries.len(),
        entries[i].0@ == e.0@,
    ensures
        store_parts_wf(entries.update(i, e), contents.insert(e.0@, e.1)),
{
    let es = entries.update(i, e);
    let m = contents.insert(e.0@, e.1);
    assert forall|a: int, b: int| 0 <= a < b < es.len() implies #[trigger] es[a].0@
        != #[trigger] es[b].0@ by {
        assert(entries[a].0@ != entries[b].0@);
    }
    assert forall|j: int| 0 <= j < es.len() implies #[trigger] m.contains_key(es[j].0@) && m[es[j].0@]
        == es[j].1 by {
        if j != i {
            if j < i {
                assert(entries[j].0@ != entries[i].0@);
            } else {
                assert(entries[i].0@ != entries[j].0@);
            }
        }
    }
    assert forall|k: Seq<char>| #[trigger] m.contains_key(k) implies exists|j: int|
        0 <= j < es.len() && #[trigger] es[j].0@ == k by {
        if k == e.0@ {
            assert(es[i].0@ == k);
        } else {
            assert(contents.contains_key(k));
            let j = choose|j: int| 0 <= j < entries.len() && #[trigger] entries[j].0@ == k;
            assert(es[j].0@ == k);
        }
    }
}

proof fn lemma_store_push(entries: Seq<(String, i64)>, contents: Map<Seq<char>, i64>, e: (String, i64))
    requires
        store_parts_wf(entries, contents),
        !contents.contains_key(e.0@),
    ensures
        store_parts_wf(entries.push(e), contents.insert(e.0@, e.1)),
{
    let es = entries.push(e);
    let m = contents.insert(e.0@, e.1);
    let n = entries.len() as int;
    assert forall|a: int, b: int| 0 <= a < b < es.len() implies #[trigger] es[a].0@
        != #[trigger] es[b].0@ by {
        if b == n {
            assert(contents.contains_key(entries[a].0@));
        } else {
            assert(entries[a].0@ != entries[b].0@);
        }
    }
    assert forall|j: int| 0 <= j < es.len() implies #[trigger] m.contains_key(es[j].0@) && m[es[j].0@]
        == es[j].1 by {
        if j < n {
            assert(contents.contains_key(entries[j].0@));
        }
    }
    assert forall|k: Seq<char>| #[trigger] m.contains_key(k) implies exists|j: int|
        0 <= j < es.len() && #[trigger] es[j].0@ == k by {
        if k == e.0@ {
            assert(es[n].0@ == k);
        } else {
            assert(contents.contains_key(k));
            let j = choose|j: int| 0 <= j < entries.len() && #[trigger] entries[j].0@ == k;
            assert(es[j].0@ == k);
        }
    }
}

impl View for Store {
    type V = Map<Seq<char>, i64>;

    closed spec fn view(&self) -> Map<Seq<char>, i64> {
        self.contents@
    }
}

impl Store {
    /// The variables in the order in which they were first assigned.
    pub closed spec fn keys(&self) -> Seq<Seq<char>> {
        self.entries@.map_values(|e: (String, i64)| e.0@)
    }

    /// An empty store.
    pub fn new() -> (s: Store)
        ensures
            s@ == Map::<Seq<char>, i64>::empty(),
            s.keys() == Seq::<Seq<char>>::empty(),
    {
        Store { entries: Vec::new(), contents: Ghost(Map::empty()) }
    }

    /// The number of variables in the store.
    pub fn len(&self) -> (n: usize)
        ensures
            n == self@.dom().len(),
            n == self.keys().len(),
    {
        proof {
            use_type_invariant(self);
            self.lemma_len();
        }
        self.entries.len()
    }

    proof fn lemma_len(&self)
        requires
            self.wf(),
        ensures
            self.entries@.len() == self@.dom().len(),
    {
        let keys = self.entries@.map_values(|e: (String, i64)| e.0@);
        assert(keys.no_duplicates()) by {
            assert forall|i: int, j: int|
                0 <= i < keys.len() && 0 <= j < keys.len() && i != j implies keys[i] != keys[j] by {
                if i < j {
                    assert(self.entries@[i].0@ != self.entries@[j].0@);
                } else {
                    assert(self.entries@[j].0@ != self.entries@[i].0@);
                }
            }
        }
        assert(keys.to_set() =~= self@.dom()) by {
            assert forall|k: Seq<char>| keys.to_set().contains(k) <==> self@.dom().contains(k) by {
                if self@.dom().contains(k) {
                    assert(self.contents@.contains_key(k));
                    let i = choose|i: int|
                        0 <= i < self.entries@.len() && #[trigger] self.entries@[i].0@ == k;
                    assert(keys[i] == k);
                }
                if keys.to_set().contains(k) {
                    let i = choose|i: int| 0 <= i < keys.len() && keys[i] == k;
                    assert(self.contents@.contains_key(self.entries@[i].0@));
                }
            }
        }
        keys.unique_seq_to_set();
    }

    /// The variable and value at position `i`, for `i < len()`; the
    /// variables stand in the order in which they were first assigned.
    pub fn entry(&self, i: usize) -> (r: (&String, i64))
        requires
            i < self@.dom().len(),
        ensures
            r.0@ == self.keys()[i as int],
            self@.contains_key(r.0@),
            self@[r.0@] == r.1,
    {
        proof {
            use_type_invariant(self);
            self.lemma_len();
        }
        (&self.entries[i].0, self.entries[i].1)
    }

    fn find(&self, name: &String) -> (r: Option<usize>)
        ensures
            match r {
                Some(i) => i < self.entries@.len() && self.entries@[i as int].0@ == name@,
                None => !self@.contains_key(name@),
            },
    {
        proof {
            use_type_invariant(self);
        }
        let mut i: usize = 0;
        while i < self.entries.len()
            invariant
                self.wf(),
                i <= self.entries@.len(),
                forall|j: int| 0 <= j < i ==> #[trigger] self.entries@[j].0@ != name@,
            decreases self.entries.len() - i,
        {
            if self.entries[i].0 == *name {
                return Some(i);
            }
            i = i + 1;
        }
        proof {
            if self@.contains_key(name@) {
                assert(self.contents@.contains_key(name@));
            }
        }
        None
    }

    /// The value of `name`, if it has one.
    pub fn get(&self, name: &String) -> (r: Option<i64>)
        ensures
            r == self@.get(name@),
    {
        proof {
            use_type_invariant(self);
        }
        match self.find(name) {
            Some(i) => {
                assert(self.contents@.contains_key(self.entries@[i as int].0@));
                Some(self.entries[i].1)
            },
            None => None,
        }
    }

    /// Gives `name` the value `value`.
    pub fn insert(&mut self, name: String, value: i64)
        ensures
            final(self)@ == old(self)@.insert(name@, value),
            final(self).keys() == if old(self)@.contains_key(name@) {
                old(self).keys()
            } else {
                old(self).keys().push(name@)
            },
    {
        proof {
            use_type_invariant(&*self);
        }
        let ghost new_contents = self.contents@.insert(name@, value);
        let ghost old_entries = self.entries@;
        let ghost old_contents = self.contents@;
        let found = self.find(&name);
        let mut taken = Store::new();
        std::mem::swap(self, &mut taken);
        let Store { mut entries, contents: _ } = taken;
        match found {
            Some(i) => {
                proof {
                    lemma_store_update(old_entries, old_contents, i as int, (name, value));
                }
                entries.set(i, (name, value));
            },
            None => {
                proof {
                    lemma_store_push(old_entries, old_contents, (name, value));
                }
                entries.push((name, value));
            },
        }
        proof {
            let ks = entries@.map_values(|e: (String, i64)| e.0@);
            let old_ks = old_entries.map_values(|e: (String, i64)| e.0@);
            match found {
                Some(i) => {
                    assert(ks =~= old_ks);
                },
                None => {
                    assert(ks =~= old_ks.push(name@));
                },
            }
        }
        *self = Store { entries, contents: Ghost(new_contents) };
    }
}

/// Why evaluation stops: a variable without a value, or an `i64`
/// operation whose result does not fit.
#[derive(Debug, PartialEq, Eq, Structural, Clone, Copy)]
pub enum Fault {
    Unbound,
    Overflow,
}

/// The result of an `i64` operation whose exact value is `x`.
pub open spec fn fits(x: int) -> Result<i64, Fault> {
    if i64::MIN <= x <= i64::MAX {
        Ok(x as i64)
    } else {
        Err(Fault::Overflow)
    }
}

/// The value of an arithmetic expression in the memory `st`; the left
/// operand is evaluated first.
pub open spec fn aexpr_value(e: AExpression, st: Map<Seq<char>, i64>) -> Result<i64, Fault>
    decreases e,
{
    match e {
        AExpression::Int(v) => Ok(v),
        AExpression::Var(x) => if st.contains_key(x@) {
            Ok(st[x@])
        } else {
            Err(Fault::Unbound)
        },
        AExpression::Add(l, r) => match aexpr_value(*l, st) {
            Err(f) => Err(f),
            Ok(a) => match aexpr_value(*r, st) {
                Err(f) => Err(f),
                Ok(b) => fits(a + b),
            },
        },
        AExpression::Sub(l, r) => match aexpr_value(*l, st) {
            Err(f) => Err(f),
            Ok(a) => match aexpr_value(*r, st) {
                Err(f) => Err(f),
                Ok(b) => fits(a - b),
            },
        },
        AExpression::Mul(l, r) => match aexpr_value(*l, st) {
            Err(f) => Err(f),
            Ok(a) => match aexpr_value(*r, st) {
                Err(f) => Err(f),
                Ok(b) => fits(a * b),
            },
        },
    }
}

/// The value of a boolean expression in the memory `st`; `&` does not
/// evaluate its right operand when the left one is false.
pub open spec fn bexpr_value(b: BExpression, st: Map<Seq<char>, i64>) -> Result<bool, Fault>
    decreases b,
{
    match b {
        BExpression::True => Ok(true),
        BExpression::False => Ok(false),
        BExpression::Equ(l, r) => match aexpr_value(l, st) {
            Err(f) => Err(f),
            Ok(a) => match aexpr_value(r, st) {
                Err(f) => Err(f),
                Ok(c) => Ok(a == c),
            },
        },
        BExpression::Leq(l, r) => match aexpr_value(l, st) {
            Err(f) => Err(f),
            Ok(a) => match aexpr_value(r, st) {
                Err(f) => Err(f),
                Ok(c) => Ok(a <= c),
            },
        },
        BExpression::Not(x) => match bexpr_value(*x, st) {
            Err(f) => Err(f),
            Ok(v) => Ok(!v),
        },
        BExpression::And(l, r) => match bexpr_value(*l, st) {
            Err(f) => Err(f),
            Ok(false) => Ok(false),
            Ok(true) => bexpr_value(*r, st),
        },
    }
}

/// Where running a statement ends.
pub enum Outcome {
    /// It finishes, with this memory.
    Done(Map<Seq<char>, i64>),
    /// An expression cannot be evaluated.
    Fault(Fault),
    /// It has not finished within the given number of loop iterations.
    OutOfFuel,
}

/// The big-step semantics of statements, with `fuel` bounding the number
/// of loop iterations on any path.
pub open spec fn run(s: Statement, st: Map<Seq<char>, i64>, fuel: nat) -> Outcome
    decreases fuel, s,
{
    match s {
        Statement::Skip => Outcome::Done(st),
        Statement::Assign(x, e) => match aexpr_value(e, st) {
            Err(f) => Outcome::Fault(f),
            Ok(v) => Outcome::Done(st.insert(x@, v)),
        },
        Statement::Sequence(a, b) => match run(*a, st, fuel) {
            Outcome::Done(st1) => run(*b, st1, fuel),
            other => other,
        },
        Statement::If(c, a, b) => match bexpr_value(c, st) {
            Err(f) => Outcome::Fault(f),
            Ok(true) => run(*a, st, fuel),
            Ok(false) => run(*b, st, fuel),
        },
        Statement::While(c, body) => if fuel == 0 {
            Outcome::OutOfFuel
        } else {
            match bexpr_value(c, st) {
                Err(f) => Outcome::Fault(f),
                Ok(false) => Outcome::Done(st),
                Ok(true) => match run(*body, st, (fuel - 1) as nat) {
                    Outcome::Done(st1) => run(
                        Statement::While(c, body),
                        st1,
                        (fuel - 1) as nat,
                    ),
                    other => other,
                },
            }
        },
    }
}

/// Running `s` from `st` finishes, for some bound on loop iterations.
pub open spec fn terminates(s: Statement, st: Map<Seq<char>, i64>) -> bool {
    exists|fuel: nat| #[trigger] run(s, st, fuel) is Done
}

/// The memory in which running `s` from `st` finishes, where it does.
pub open spec fn final_store(s: Statement, st: Map<Seq<char>, i64>) -> Map<Seq<char>, i64> {
    run(s, st, choose|fuel: nat| #[trigger] run(s, st, fuel) is Done)->Done_0
}

/// Evaluates an arithmetic expression in `store`. Every variable that it
/// reads must have a value and no operation may overflow `i64`: those are
/// the inputs on which evaluation panics.
pub fn eval_aexpr(expr: &AExpression, store: &Store) -> (r: i64)
    requires
        aexpr_value(*expr, store@) is Ok,
    ensures
        aexpr_value(*expr, store@) == Ok::<i64, Fault>(r),
    decreases expr,
{
    match expr {
        AExpression::Var(varname) => match store.get(varname) {
            Some(v) => v,
            None => vstd::pervasive::unreached(),
        },
        AExpression::Int(value) => *value,
        AExpression::Add(left, right) => eval_aexpr(left, store) + eval_aexpr(right, store),
        AExpression::Sub(left, right) => eval_aexpr(left, store) - eval_aexpr(right, store),
        AExpression::Mul(left, right) => eval_aexpr(left, store) * eval_aexpr(right, store),
    }
}

/// Evaluates a boolean expression in `store`, on the inputs on which it
/// does not panic (see `eval_aexpr`).
pub fn eval_bexpr(expr: &BExpression, store: &Store) -> (r: bool)
    requires
        bexpr_value(*expr, store@) is Ok,
    ensures
        bexpr_value(*expr, store@) == Ok::<bool, Fault>(r),
    decreases expr,
{
    match expr {
        BExpression::True => true,
        BExpression::False => false,
        BExpression::And(left, right) => eval_bexpr(left, store) && eval_bexpr(right, store),
        BExpression::Equ(left, right) => eval_aexpr(left, store) == eval_aexpr(right, store),
        BExpression::Leq(left, right) => eval_aexpr(left, store) <= eval_aexpr(right, store),
        BExpression::Not(bxpr) => !eval_bexpr(bxpr, store),
    }
}

fn exec_with_fuel(stmt: &Statement, store: &mut Store, Ghost(fuel): Ghost<nat>)
    requires
        run(*stmt, old(store)@, fuel) is Done,
    ensures
        final(store)@ == run(*stmt, old(store)@, fuel)->Done_0,
    decreases fuel, *stmt,
{
    match stmt {
        Statement::Skip => {},
        Statement::Assign(var, expr) => {
            let value = eval_aexpr(expr, store);
            store.insert(var.clone(), value);
        },
        Statement::Sequence(stmt1, stmt2) => {
            exec_with_fuel(stmt1, store, Ghost(fuel));
            exec_with_fuel(stmt2, store, Ghost(fuel));
        },
        Statement::If(cond, then_branch, else_branch) => {
            if eval_bexpr(cond, store) {
                exec_with_fuel(then_branch, store, Ghost(fuel));
            } else {
                exec_with_fuel(else_branch, store, Ghost(fuel));
            }
        },
        Statement::While(cond, body) => {
            let ghost target = run(*stmt, old(store)@, fuel)->Done_0;
            let ghost mut k: nat = fuel;
            while eval_bexpr(cond, store)
                invariant
                    k <= fuel,
                    *stmt == Statement::While(*cond, *body),
                    run(*stmt, store@, k) is Done,
                    run(*stmt, store@, k)->Done_0 == target,
                decreases k,
            {
                assert(k > 0);
                exec_with_fuel(body, store, Ghost((k - 1) as nat));
                proof {
                    k = (k - 1) as nat;
                }
            }
        },
    }
}

/// Runs `stmt` on `store`, on the inputs on which running it finishes
/// without a panic: the store afterwards is the memory in which the
/// big-step semantics finishes.
pub fn exec_stmt(stmt: &Statement, store: &mut Store)
    requires
        terminates(*stmt, old(store)@),
    ensures
        final(store)@ == final_store(*stmt, old(store)@),
{
    let ghost fuel = choose|fuel: nat| #[trigger] run(*stmt, store@, fuel) is Done;
    exec_with_fuel(stmt, store, Ghost(fuel));
}

/// Why a bounded run stops before the statement finishes.
#[derive(Debug, PartialEq, Eq, Structural, Clone, Copy)]
pub enum Halt {
    /// An expression cannot be evaluated.
    Fault(Fault),
    /// The bound on loop iterations is used up.
    OutOfFuel,
}

/// The result of a bounded run that agrees with the big-step semantics:
/// `Ok` with the memory it finishes in, or why it stops.
pub open spec fn agrees_with_run(r: Result<(), Halt>, after: Map<Seq<char>, i64>, o: Outcome) -> bool {
    match o {
        Outcome::Done(m) => r is Ok && after == m,
        Outcome::Fault(f) => r == Err::<(), Halt>(Halt::Fault(f)),
        Outcome::OutOfFuel => r == Err::<(), Halt>(Halt::OutOfFuel),
    }
}

/// Evaluates an arithmetic expression in `store`, reporting an unbound
/// variable or an overflow instead of panicking.
pub fn eval_aexpr_checked(expr: &AExpression, store: &Store) -> (r: Result<i64, Fault>)
    ensures
        r == aexpr_value(*expr, store@),
    decreases expr,
{
    match expr {
        AExpression::Var(varname) => match store.get(varname) {
            Some(v) => Ok(v),
            None => Err(Fault::Unbound),
        },
        AExpression::Int(value) => Ok(*value),
        AExpression::Add(left, right) => {
            let a = eval_aexpr_checked(left, store)?;
            let b = eval_aexpr_checked(right, store)?;
            match a.checked_add(b) {
                Some(v) => Ok(v),
                None => Err(Fault::Overflow),
            }
        },
        AExpression::Sub(left, right) => {
            let a = eval_aexpr_checked(left, store)?;
            let b = eval_aexpr_checked(right, store)?;
            match a.checked_sub(b) {
                Some(v) => Ok(v),
                None => Err(Fault::Overflow),
            }
        },
        AExpression::Mul(left, right) => {
            let a = eval_aexpr_checked(left, store)?;
            let b = eval_aexpr_checked(right, store)?;
            match a.checked_mul(b) {
                Some(v) => Ok(v),
                None => Err(Fault::Overflow),
            }
        },
    }
}

/// Evaluates a boolean expression in `store`, reporting an unbound
/// variable or an overflow instead of panicking.
pub fn eval_bexpr_checked(expr: &BExpression, store: &Store) -> (r: Result<bool, Fault>)
    ensures
        r == bexpr_value(*expr, store@),
    decreases expr,
{
    match expr {
        BExpression::True => Ok(true),
        BExpression::False => Ok(false),
        BExpression::And(left, right) => {
            if eval_bexpr_checked(left, store)? {
                eval_bexpr_checked(right, store)
            } else {
                Ok(false)
            }
        },
        BExpression::Equ(left, right) => {
            let a = eval_aexpr_checked(left, store)?;
            let b = eval_aexpr_checked(right, store)?;
            Ok(a == b)
        },
        BExpression::Leq(left, right) => {
            let a = eval_aexpr_checked(left, store)?;
            let b = eval_aexpr_checked(right, store)?;
            Ok(a <= b)
        },
        BExpression::Not(bxpr) => Ok(!eval_bexpr_checked(bxpr, store)?),
    }
}

/// Runs `stmt` on `store` with at most `fuel` loop iterations on any path,
/// as the big-step semantics `run` says, for every program: where running
/// finishes the store afterwards is the memory it finishes in, and
/// otherwise the result says why it stopped.
pub fn exec_stmt_bounded(stmt: &Statement, store: &mut Store, fuel: u64) -> (r: Result<(), Halt>)
    ensures
        agrees_with_run(r, final(store)@, run(*stmt, old(store)@, fuel as nat)),
    decreases fuel, *stmt,
{
    match stmt {
        Statement::Skip => Ok(()),
        Statement::Assign(var, expr) => match eval_aexpr_checked(expr, store) {
            Ok(value) => {
                store.insert(var.clone(), value);
                Ok(())
            },
            Err(f) => Err(Halt::Fault(f)),
        },
        Statement::Sequence(stmt1, stmt2) => {
            let r1 = exec_stmt_bounded(stmt1, store, fuel);
            match r1 {
                Ok(()) => exec_stmt_bounded(stmt2, store, fuel),
                Err(h) => Err(h),
            }
        },
        Statement::If(cond, then_branch, else_branch) => match eval_bexpr_checked(cond, store) {
            Ok(true) => exec_stmt_bounded(then_branch, store, fuel),
            Ok(false) => exec_stmt_bounded(else_branch, store, fuel),
            Err(f) => Err(Halt::Fault(f)),
        },
        Statement::While(cond, body) => {
            let ghost target = run(*stmt, old(store)@, fuel as nat);
            let mut k: u64 = fuel;
            loop
                invariant
                    k <= fuel,
                    *stmt == Statement::While(*cond, *body),
                    run(*stmt, store@, k as nat) == target,
                    target == run(*stmt, old(store)@, fuel as nat),
                decreases k,
            {
                if k == 0 {
                    return Err(Halt::OutOfFuel);
                }
                match eval_bexpr_checked(cond, store) {
                    Err(f) => {
                        return Err(Halt::Fault(f));
                    },
                    Ok(false) => {
                        return Ok(());
                    },
                    Ok(true) => {
                        match exec_stmt_bounded(body, store, k - 1) {
                            Ok(()) => {},
                            Err(h) => {
                                return Err(h);
                            },
                        }
                    },
                }
                k = k - 1;
            }
        },
    }
}

/// A bound on loop iterations that is large enough changes nothing:
/// where running `s` ends within `fuel` iterations, more fuel ends it the
/// same way.
pub proof fn law_more_fuel_same_outcome(s: Statement, st: Map<Seq<char>, i64>, fuel: nat, more: nat)
    requires
        fuel <= more,
        !(run(s, st, fuel) is OutOfFuel),
    ensures
        run(s, st, more) == run(s, st, fuel),
    decreases fuel, s,
{
    match s {
        Statement::Sequence(a, b) => {
            law_more_fuel_same_outcome(*a, st, fuel, more);
            if let Outcome::Done(st1) = run(*a, st, fuel) {
                law_more_fuel_same_outcome(*b, st1, fuel, more);
            }
        },
        Statement::If(c, a, b) => {
            match bexpr_value(c, st) {
                Ok(true) => law_more_fuel_same_outcome(*a, st, fuel, more),
                Ok(false) => law_more_fuel_same_outcome(*b, st, fuel, more),
                Err(_) => {},
            }
        },
        Statement::While(c, body) => {
            if let Ok(true) = bexpr_value(c, st) {
                law_more_fuel_same_outcome(*body, st, (fuel - 1) as nat, (more - 1) as nat);
                if let Outcome::Done(st1) = run(*body, st, (fuel - 1) as nat) {
                    law_more_fuel_same_outcome(s, st1, (fuel - 1) as nat, (more - 1) as nat);
                }
            }
        },
        _ => {},
    }
}

/// A program that finishes finishes in one memory only: whatever bound on
/// loop iterations lets it finish, it finishes in `final_store`.
pub proof fn law_final_store_unique(s: Statement, st: Map<Seq<char>, i64>, fuel: nat)
    requires
        run(s, st, fuel) is Done,
    ensures
        run(s, st, fuel) == Outcome::Done(final_store(s, st)),
{
    let chosen = choose|f: nat| #[trigger] run(s, st, f) is Done;
    assert(run(s, st, chosen) is Done);
    if fuel <= chosen {
        law_more_fuel_same_outcome(s, st, fuel, chosen);
    } else {
        law_more_fuel_same_outcome(s, st, chosen, fuel);
    }
}

/// Running a statement never removes a variable from the memory.
pub proof fn law_run_keeps_variables(s: Statement, st: Map<Seq<char>, i64>, fuel: nat)
    ensures
        run(s, st, fuel) matches Outcome::Done(st2) ==> st.dom().subset_of(st2.dom()),
    decreases fuel, s,
{
    match s {
        Statement::Sequence(a, b) => {
            law_run_keeps_variables(*a, st, fuel);
            if let Outcome::Done(st1) = run(*a, st, fuel) {
                law_run_keeps_variables(*b, st1, fuel);
            }
        },
        Statement::If(c, a, b) => {
            law_run_keeps_variables(*a, st, fuel);
            law_run_keeps_variables(*b, st, fuel);
        },
        Statement::While(c, body) => {
            if fuel > 0 {
                law_run_keeps_variables(*body, st, (fuel - 1) as nat);
                if let Outcome::Done(st1) = run(*body, st, (fuel - 1) as nat) {
                    law_run_keeps_variables(s, st1, (fuel - 1) as nat);
                }
            }
        },
        _ => {},
    }
}

/// The loop `while b do s end` unfolded once: `if b then (s; while b do s
/// end) else skip end`.
pub open spec fn unfolded(b: BExpression, s: Statement) -> Statement {
    Statement::If(
        b,
        Box::new(Statement::Sequence(Box::new(s), Box::new(Statement::While(b, Box::new(s))))),
        Box::new(Statement::Skip),
    )
}

proof fn lemma_unfold_step(b: BExpression, s: Statement, st: Map<Seq<char>, i64>, fuel: nat)
    ensures
        run(Statement::While(b, Box::new(s)), st, fuel + 1) == run(unfolded(b, s), st, fuel),
{
    let w = Statement::While(b, Box::new(s));
    let q = Statement::Sequence(Box::new(s), Box::new(w));
    assert(run(Statement::Skip, st, fuel) == Outcome::Done(st));
    assert(run(unfolded(b, s), st, fuel) == match bexpr_value(b, st) {
        Err(f) => Outcome::Fault(f),
        Ok(true) => run(q, st, fuel),
        Ok(false) => run(Statement::Skip, st, fuel),
    });
    assert(((fuel + 1) - 1) as nat == fuel);
    assert(run(q, st, fuel) == match run(s, st, fuel) {
        Outcome::Done(st1) => run(w, st1, fuel),
        other => other,
    });
    assert(run(w, st, fuel + 1) == match bexpr_value(b, st) {
        Err(f) => Outcome::Fault(f),
        Ok(false) => Outcome::Done(st),
        Ok(true) => match run(s, st, fuel) {
            Outcome::Done(st1) => run(w, st1, fuel),
            other => other,
        },
    });
}

/// A loop behaves as its one-step unfolding: `while b do s end` finishes
/// from a memory exactly when `if b then (s; while b do s end) else skip
/// end` does, and then in the same memory; where it does not finish, it
/// faults exactly where the unfolding does.
pub proof fn law_while_unfolds(b: BExpression, s: Statement, st: Map<Seq<char>, i64>)
    ensures
        terminates(Statement::While(b, Box::new(s)), st) <==> terminates(unfolded(b, s), st),
        terminates(unfolded(b, s), st) ==> final_store(Statement::While(b, Box::new(s)), st)
            == final_store(unfolded(b, s), st),
        forall|fuel: nat| #[trigger] run(unfolded(b, s), st, fuel) == run(
            Statement::While(b, Box::new(s)),
            st,
            fuel + 1,
        ),
{
    let w = Statement::While(b, Box::new(s));
    let u = unfolded(b, s);
    assert forall|fuel: nat| #[trigger] run(u, st, fuel) == run(w, st, fuel + 1) by {
        lemma_unfold_step(b, s, st, fuel);
    }
    if terminates(w, st) {
        let k = choose|k: nat| #[trigger] run(w, st, k) is Done;
        assert(k > 0);
        lemma_unfold_step(b, s, st, (k - 1) as nat);
        assert(run(u, st, (k - 1) as nat) is Done);
    }
    if terminates(u, st) {
        let k = choose|k: nat| #[trigger] run(u, st, k) is Done;
        lemma_unfold_step(b, s, st, k);
        assert(run(w, st, k + 1) is Done);
        law_final_store_unique(w, st, k + 1);
        law_final_store_unique(u, st, k);
    }
}

/// Comparisons compare values: where both sides have values `a` and `b`,
/// `l = r` is true exactly when `a == b` and `l <= r` exactly when
/// `a <= b`. So `=` is symmetric, holds exactly when `<=` holds both ways,
/// and of `l <= r` and `r <= l` one always holds.
pub proof fn law_comparisons_compare_values(l: AExpression, r: AExpression, st: Map<Seq<char>, i64>)
    requires
        aexpr_value(l, st) is Ok,
        aexpr_value(r, st) is Ok,
    ensures
        bexpr_value(BExpression::Equ(l, r), st) == Ok::<bool, Fault>(
            aexpr_value(l, st)->Ok_0 == aexpr_value(r, st)->Ok_0,
        ),
        bexpr_value(BExpression::Leq(l, r), st) == Ok::<bool, Fault>(
            aexpr_value(l, st)->Ok_0 <= aexpr_value(r, st)->Ok_0,
        ),
        bexpr_value(BExpression::Equ(l, r), st) == bexpr_value(BExpression::Equ(r, l), st),
        bexpr_value(BExpression::Equ(l, r), st) == Ok::<bool, Fault>(true) <==> (bexpr_value(
            BExpression::Leq(l, r),
            st,
        ) == Ok::<bool, Fault>(true) && bexpr_value(BExpression::Leq(r, l), st) == Ok::<
            bool,
            Fault,
        >(true)),
        bexpr_value(BExpression::Leq(l, r), st) == Ok::<bool, Fault>(true) || bexpr_value(
            BExpression::Leq(r, l),
            st,
        ) == Ok::<bool, Fault>(true),
{
}

/// The connectives mean what they say: where `b` has a value, `!b` has
/// the other one; where both sides have values, `l & r` is true exactly
/// when both are.
pub proof fn law_connectives(l: BExpression, r: BExpression, st: Map<Seq<char>, i64>)
    requires
        bexpr_value(l, st) is Ok,
        bexpr_value(r, st) is Ok,
    ensures
        bexpr_value(BExpression::Not(Box::new(l)), st) == Ok::<bool, Fault>(!bexpr_value(l, st)->Ok_0),
        bexpr_value(BExpression::And(Box::new(l), Box::new(r)), st) == Ok::<bool, Fault>(
            bexpr_value(l, st)->Ok_0 && bexpr_value(r, st)->Ok_0,
        ),
        bexpr_value(BExpression::And(Box::new(l), Box::new(r)), st) == bexpr_value(
            BExpression::And(Box::new(r), Box::new(l)),
            st,
        ),
{
}

/// Arithmetic computes with the values: where `e` has the value `a`,
/// `e + 0` and `e * 1` have the value `a` and `e - e` the value 0; sums
/// and products do not depend on the order of their operands; and where
/// both sides have values, `l + r`, `l - r` and `l * r` have the sum,
/// difference and product, where it fits in `i64`.
pub proof fn law_arithmetic_computes_values(l: AExpression, r: AExpression, st: Map<Seq<char>, i64>)
    requires
        aexpr_value(l, st) is Ok,
        aexpr_value(r, st) is Ok,
    ensures
        aexpr_value(AExpression::Add(Box::new(l), Box::new(AExpression::Int(0))), st) == aexpr_value(l, st),
        aexpr_value(AExpression::Mul(Box::new(l), Box::new(AExpression::Int(1))), st) == aexpr_value(l, st),
        aexpr_value(AExpression::Sub(Box::new(l), Box::new(l)), st) == Ok::<i64, Fault>(0),
        aexpr_value(AExpression::Add(Box::new(l), Box::new(r)), st) == aexpr_value(
            AExpression::Add(Box::new(r), Box::new(l)),
            st,
        ),
        aexpr_value(AExpression::Mul(Box::new(l), Box::new(r)), st) == aexpr_value(
            AExpression::Mul(Box::new(r), Box::new(l)),
            st,
        ),
        ({
            let a = aexpr_value(l, st)->Ok_0 as int;
            let b = aexpr_value(r, st)->Ok_0 as int;
            &&& i64::MIN <= a + b <= i64::MAX ==> aexpr_value(AExpression::Add(Box::new(l), Box::new(r)), st)
                == Ok::<i64, Fault>((a + b) as i64)
            &&& i64::MIN <= a - b <= i64::MAX ==> aexpr_value(AExpression::Sub(Box::new(l), Box::new(r)), st)
                == Ok::<i64, Fault>((a - b) as i64)
            &&& i64::MIN <= a * b <= i64::MAX ==> aexpr_value(AExpression::Mul(Box::new(l), Box::new(r)), st)
                == Ok::<i64, Fault>((a * b) as i64)
        }),
{
    let a = aexpr_value(l, st)->Ok_0 as int;
    let b = aexpr_value(r, st)->Ok_0 as int;
    let v = aexpr_value(l, st)->Ok_0;
    assert(aexpr_value(AExpression::Int(0), st) == Ok::<i64, Fault>(0));
    assert(aexpr_value(AExpression::Int(1), st) == Ok::<i64, Fault>(1));
    assert(v * 1 == v as int);
    assert(fits(v + 0) == Ok::<i64, Fault>(v));
    assert(fits(v * 1) == Ok::<i64, Fault>(v));
    assert(a * b == b * a) by (nonlinear_arith);
}

/// The algebra of statements: `skip` changes nothing and is a unit of
/// `;`; `;` is associative; `if true` runs its first branch and
/// `if false` its second; `while false` does nothing; an assignment of a
/// value leaves the variable with that value and every other variable as
/// it was.
pub proof fn law_statement_algebra(
    a: Statement,
    b: Statement,
    c: Statement,
    body: Statement,
    x: String,
    e: AExpression,
    st: Map<Seq<char>, i64>,
    fuel: nat,
)
    ensures
        run(Statement::Skip, st, fuel) == Outcome::Done(st),
        run(Statement::Sequence(Box::new(Statement::Skip), Box::new(a)), st, fuel) == run(a, st, fuel),
        run(Statement::Sequence(Box::new(a), Box::new(Statement::Skip)), st, fuel) == run(a, st, fuel),
        run(
            Statement::Sequence(Box::new(Statement::Sequence(Box::new(a), Box::new(b))), Box::new(c)),
            st,
            fuel,
        ) == run(
            Statement::Sequence(Box::new(a), Box::new(Statement::Sequence(Box::new(b), Box::new(c)))),
            st,
            fuel,
        ),
        run(Statement::If(BExpression::True, Box::new(a), Box::new(b)), st, fuel) == run(a, st, fuel),
        run(Statement::If(BExpression::False, Box::new(a), Box::new(b)), st, fuel) == run(b, st, fuel),
        fuel > 0 ==> run(Statement::While(BExpression::False, Box::new(body)), st, fuel) == Outcome::Done(
            st,
        ),
        aexpr_value(e, st) is Ok ==> (run(Statement::Assign(x, e), st, fuel) matches Outcome::Done(st2)
            && st2.contains_key(x@) && st2[x@] == aexpr_value(e, st)->Ok_0 && forall|y: Seq<char>|
            y != x@ ==> (#[trigger] st2.contains_key(y) == st.contains_key(y) && (st.contains_key(y)
                ==> st2[y] == st[y]))),
{
    let sa = Statement::Sequence(Box::new(a), Box::new(Statement::Skip));
    assert(run(sa, st, fuel) == match run(a, st, fuel) {
        Outcome::Done(st1) => run(Statement::Skip, st1, fuel),
        other => other,
    });
    let ab = Statement::Sequence(Box::new(a), Box::new(b));
    let bc = Statement::Sequence(Box::new(b), Box::new(c));
    assert(run(ab, st, fuel) == match run(a, st, fuel) {
        Outcome::Done(st1) => run(b, st1, fuel),
        other => other,
    });
    match run(a, st, fuel) {
        Outcome::Done(st1) => {
            assert(run(bc, st1, fuel) == match run(b, st1, fuel) {
                Outcome::Done(st2) => run(c, st2, fuel),
                other => other,
            });
        },
        _ => {},
    }
}

} // verus!
