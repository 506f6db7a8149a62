use vstd::prelude::*;
use crate::constraints::{eval_bool, eval_int, holds_all, pairwise_distinct, BoolExpr, IntExpr, IntVar, Valuation};
use crate::grid::Direction;

verus! {

/// Concrete values for every unknown of an encoding, indexed by cell.
pub struct Assignment {
    pub light: Vec<bool>,
    pub region_leader: Vec<i64>,
    pub region_rank: Vec<i64>,
    pub region_size: Vec<i64>,
    pub visible_up: Vec<i64>,
    pub visible_down: Vec<i64>,
    pub visible_left: Vec<i64>,
    pub visible_right: Vec<i64>,
    pub dark_leader: i64,
    pub light_leader: i64,
}

/// Entry `i` of `v`, or 0 past its end.
pub open spec fn entry(v: Seq<i64>, i: int) -> int {
    if 0 <= i < v.len() {
        v[i] as int
    } else {
        0
    }
}

impl Assignment {
    /// The valuation these values stand for; unknowns of cells past the vectors read as
    /// Dark and 0.
    pub open spec fn valuation(&self) -> Valuation {
        Valuation {
            light: |i: nat| i < self.light@.len() && self.light@[i as int],
            int_of: |v: IntVar|
                match v {
                    IntVar::RegionLeader(c) => entry(self.region_leader@, c as int),
                    IntVar::RegionRank(c) => entry(self.region_rank@, c as int),
                    IntVar::RegionSize(c) => entry(self.region_size@, c as int),
                    IntVar::Visible(Direction::Up, c) => entry(self.visible_up@, c as int),
                    IntVar::Visible(Direction::Down, c) => entry(self.visible_down@, c as int),
                    IntVar::Visible(Direction::Left, c) => entry(self.visible_left@, c as int),
                    IntVar::Visible(Direction::Right, c) => entry(self.visible_right@, c as int),
                    IntVar::DarkLeader => self.dark_leader as int,
                    IntVar::LightLeader => self.light_leader as int,
                },
        }
    }

    fn at(v: &Vec<i64>, i: usize) -> (r: i64)
        ensures
            r == entry(v@, i as int),
    {
        if i < v.len() {
            v[i]
        } else {
            0
        }
    }

    pub fn value_of(&self, v: IntVar) -> (r: i64)
        ensures
            r == (self.valuation().int_of)(v),
    {
        match v {
            IntVar::RegionLeader(c) => Self::at(&self.region_leader, c),
            IntVar::RegionRank(c) => Self::at(&self.region_rank, c),
            IntVar::RegionSize(c) => Self::at(&self.region_size, c),
            IntVar::Visible(Direction::Up, c) => Self::at(&self.visible_up, c),
            IntVar::Visible(Direction::Down, c) => Self::at(&self.visible_down, c),
            IntVar::Visible(Direction::Left, c) => Self::at(&self.visible_left, c),
            IntVar::Visible(Direction::Right, c) => Self::at(&self.visible_right, c),
            IntVar::DarkLeader => self.dark_leader,
            IntVar::LightLeader => self.light_leader,
        }
    }

    pub fn is_light(&self, i: usize) -> (r: bool)
        ensures
            r == (self.valuation().light)(i as nat),
    {
        i < self.light.len() && self.light[i]
    }
}

/// Every literal of the term, and the value of every sum in it, fits `i64` under `m`.
pub open spec fn int_fits(e: IntExpr, m: Valuation) -> bool
    decreases e,
{
    match e {
        IntExpr::Lit(n) => n <= i64::MAX,
        IntExpr::Var(_) => true,
        IntExpr::Add(x, y) => int_fits(*x, m) && int_fits(*y, m) && i64::MIN <= eval_int(*x, m)
            + eval_int(*y, m) <= i64::MAX,
        IntExpr::Ite(c, x, y) => bool_fits(*c, m) && int_fits(*x, m) && int_fits(*y, m),
    }
}

/// Every integer term of the formula fits `i64` under `m`.
pub open spec fn bool_fits(e: BoolExpr, m: Valuation) -> bool
    decreases e,
{
    match e {
        BoolExpr::Lit(_) | BoolExpr::Light(_) | BoolExpr::Distinct(_) => true,
        BoolExpr::Not(x) => bool_fits(*x, m),
        BoolExpr::And(x, y) | BoolExpr::Or(x, y) | BoolExpr::Implies(x, y) | BoolExpr::Iff(x, y) => bool_fits(*x, m) && bool_fits(*y, m),
        BoolExpr::Ite(c, x, y) => bool_fits(*c, m) && bool_fits(*x, m) && bool_fits(*y, m),
        BoolExpr::Eq(x, y) | BoolExpr::Ge(x, y) => int_fits(*x, m) && int_fits(*y, m),
    }
}

/// The value of an integer term, or `None` where an intermediate sum leaves `i64`.
pub fn eval_int_expr(e: &IntExpr, a: &Assignment) -> (r: Option<i64>)
    ensures
        r matches Some(x) ==> x == eval_int(*e, a.valuation()),
        int_fits(*e, a.valuation()) ==> r is Some,
    decreases e,
{
    match e {
        IntExpr::Lit(n) => {
            if *n <= i64::MAX as u64 {
                Some(*n as i64)
            } else {
                None
            }
        },
        IntExpr::Var(v) => Some(a.value_of(*v)),
        IntExpr::Add(x, y) => {
            match (eval_int_expr(x, a), eval_int_expr(y, a)) {
                (Some(p), Some(q)) => p.checked_add(q),
                _ => None,
            }
        },
        IntExpr::Ite(c, x, y) => {
            match eval_bool_expr(c, a) {
                Some(true) => eval_int_expr(x, a),
                Some(false) => eval_int_expr(y, a),
                None => None,
            }
        },
    }
}

/// The truth of a formula, or `None` where an integer term leaves `i64`.
pub fn eval_bool_expr(e: &BoolExpr, a: &Assignment) -> (r: Option<bool>)
    ensures
        r matches Some(b) ==> b == eval_bool(*e, a.valuation()),
        bool_fits(*e, a.valuation()) ==> r is Some,
    decreases e,
{
    match e {
        BoolExpr::Lit(b) => Some(*b),
        BoolExpr::Light(i) => Some(a.is_light(*i)),
        BoolExpr::Not(x) => match eval_bool_expr(x, a) {
            Some(b) => Some(!b),
            None => None,
        },
        BoolExpr::And(x, y) => match (eval_bool_expr(x, a), eval_bool_expr(y, a)) {
            (Some(p), Some(q)) => Some(p && q),
            _ => None,
        },
        BoolExpr::Or(x, y) => match (eval_bool_expr(x, a), eval_bool_expr(y, a)) {
            (Some(p), Some(q)) => Some(p || q),
            _ => None,
        },
        BoolExpr::Implies(x, y) => match (eval_bool_expr(x, a), eval_bool_expr(y, a)) {
            (Some(p), Some(q)) => Some(!p || q),
            _ => None,
        },
        BoolExpr::Iff(x, y) => match (eval_bool_expr(x, a), eval_bool_expr(y, a)) {
            (Some(p), Some(q)) => Some(p == q),
            _ => None,
        },
        BoolExpr::Ite(c, x, y) => match eval_bool_expr(c, a) {
            Some(true) => eval_bool_expr(x, a),
            Some(false) => eval_bool_expr(y, a),
            None => None,
        },
        BoolExpr::Eq(x, y) => match (eval_int_expr(x, a), eval_int_expr(y, a)) {
            (Some(p), Some(q)) => Some(p == q),
            _ => None,
        },
        BoolExpr::Ge(x, y) => match (eval_int_expr(x, a), eval_int_expr(y, a)) {
            (Some(p), Some(q)) => Some(p >= q),
            _ => None,
        },
        BoolExpr::Distinct(vs) => Some(all_distinct(vs, a)),
    }
}

fn all_distinct(vs: &Vec<IntVar>, a: &Assignment) -> (r: bool)
    ensures
        r == pairwise_distinct(a.valuation(), vs@),
{
    let n = vs.len();
    let mut x: usize = 0;
    while x < n
        invariant
            n == vs@.len(),
            x <= n,
            forall|p: int, q: int|
                #![trigger vs@[p], vs@[q]]
                0 <= p < x && p < q < n ==> (a.valuation().int_of)(vs@[p]) != (a.valuation().int_of)(
                    vs@[q],
                ),
        decreases n - x,
    {
        let mut y: usize = x + 1;
        while y < n
            invariant
                n == vs@.len(),
                x < n,
                x + 1 <= y <= n,
                forall|p: int, q: int|
                    #![trigger vs@[p], vs@[q]]
                    0 <= p < x && p < q < n ==> (a.valuation().int_of)(vs@[p]) != (
                    a.valuation().int_of)(vs@[q]),
                forall|q: int|
                    x < q < y ==> (a.valuation().int_of)(vs@[x as int]) != (a.valuation().int_of)(
                        #[trigger] vs@[q],
                    ),
            decreases n - y,
        {
            if a.value_of(vs[x]) == a.value_of(vs[y]) {
                return false;
            }
            y += 1;
        }
        x += 1;
    }
    true
}

/// Whether every formula of the list holds, or `None` where an integer term leaves `i64`.
pub fn holds(formulas: &Vec<BoolExpr>, a: &Assignment) -> (r: Option<bool>)
    ensures
        r matches Some(b) ==> b == holds_all(formulas@, a.valuation()),
        (forall|k: int| 0 <= k < formulas@.len() ==> bool_fits(#[trigger] formulas@[k], a.valuation()))
            ==> r is Some,
{
    let mut all = true;
    let mut k: usize = 0;
    while k < formulas.len()
        invariant
            k <= formulas@.len(),
            all == holds_all(formulas@.subrange(0, k as int), a.valuation()),
        decreases formulas.len() - k,
    {
        match eval_bool_expr(&formulas[k], a) {
            Some(b) => {
                assert(formulas@.subrange(0, k + 1).drop_last() =~= formulas@.subrange(0, k as int));
                all = all && b;
            },
            None => {
                return None;
            },
        }
        k += 1;
    }
    assert(formulas@.subrange(0, formulas@.len() as int) =~= formulas@);
    Some(all)
}

} // verus!
