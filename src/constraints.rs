use vstd::prelude::*;
use crate::grid::{Color, Coord, Direction, SquareIndex};
use crate::prepare::{rule_indices_ok, PreparedGrid, PreparedRule, PreparedSquare};

verus! {

/// An integer unknown of the encoding.
#[derive(Clone, Copy, Debug, PartialEq, Eq, Structural)]
pub enum IntVar {
    RegionLeader(usize),
    RegionRank(usize),
    RegionSize(usize),
    Visible(Direction, usize),
    DarkLeader,
    LightLeader,
}

/// Integer-valued term.
#[derive(Debug)]
pub enum IntExpr {
    Lit(u64),
    Var(IntVar),
    Add(Box<IntExpr>, Box<IntExpr>),
    Ite(Box<BoolExpr>, Box<IntExpr>, Box<IntExpr>),
}

/// Boolean-valued term. `Light(i)` is the color unknown of cell `i`: true means Light.
#[derive(Debug)]
pub enum BoolExpr {
    Lit(bool),
    Light(usize),
    Not(Box<BoolExpr>),
    And(Box<BoolExpr>, Box<BoolExpr>),
    Or(Box<BoolExpr>, Box<BoolExpr>),
    Implies(Box<BoolExpr>, Box<BoolExpr>),
    Iff(Box<BoolExpr>, Box<BoolExpr>),
    Ite(Box<BoolExpr>, Box<BoolExpr>, Box<BoolExpr>),
    Eq(Box<IntExpr>, Box<IntExpr>),
    Ge(Box<IntExpr>, Box<IntExpr>),
    Distinct(Vec<IntVar>),
}

/// An assignment of values to every unknown.
pub struct Valuation {
    pub light: spec_fn(nat) -> bool,
    pub int_of: spec_fn(IntVar) -> int,
}

pub open spec fn eval_int(e: IntExpr, m: Valuation) -> int
    decreases e,
{
    match e {
        IntExpr::Lit(n) => n as int,
        IntExpr::Var(v) => (m.int_of)(v),
        IntExpr::Add(a, b) => eval_int(*a, m) + eval_int(*b, m),
        IntExpr::Ite(c, a, b) => if eval_bool(*c, m) {
            eval_int(*a, m)
        } else {
            eval_int(*b, m)
        },
    }
}

pub open spec fn eval_bool(e: BoolExpr, m: Valuation) -> bool
    decreases e,
{
    match e {
        BoolExpr::Lit(b) => b,
        BoolExpr::Light(i) => (m.light)(i as nat),
        BoolExpr::Not(a) => !eval_bool(*a, m),
        BoolExpr::And(a, b) => eval_bool(*a, m) && eval_bool(*b, m),
        BoolExpr::Or(a, b) => eval_bool(*a, m) || eval_bool(*b, m),
        BoolExpr::Implies(a, b) => eval_bool(*a, m) ==> eval_bool(*b, m),
        BoolExpr::Iff(a, b) => eval_bool(*a, m) == eval_bool(*b, m),
        BoolExpr::Ite(c, a, b) => if eval_bool(*c, m) {
            eval_bool(*a, m)
        } else {
            eval_bool(*b, m)
        },
        BoolExpr::Eq(a, b) => eval_int(*a, m) == eval_int(*b, m),
        BoolExpr::Ge(a, b) => eval_int(*a, m) >= eval_int(*b, m),
        BoolExpr::Distinct(vs) => pairwise_distinct(m, vs@),
    }
}

/// The unknowns of `s` take pairwise different values.
pub open spec fn pairwise_distinct(m: Valuation, s: Seq<IntVar>) -> bool {
    forall|x: int, y: int|
        #![trigger s[x], s[y]]
        0 <= x < y < s.len() ==> (m.int_of)(s[x]) != (m.int_of)(s[y])
}

/// Every formula of the list holds under `m`.
pub open spec fn holds_all(s: Seq<BoolExpr>, m: Valuation) -> bool
    decreases s.len(),
{
    if s.len() == 0 {
        true
    } else {
        holds_all(s.drop_last(), m) && eval_bool(s.last(), m)
    }
}

pub proof fn lemma_holds_all_push(s: Seq<BoolExpr>, e: BoolExpr)
    ensures
        forall|m: Valuation| #[trigger]
            holds_all(s.push(e), m) == (holds_all(s, m) && eval_bool(e, m)),
{
    assert(s.push(e).drop_last() =~= s);
}

// ---- accessors of a valuation, named after the unknowns they read ----

pub open spec fn light(m: Valuation, c: int) -> bool {
    (m.light)(c as nat)
}

pub open spec fn same_color(m: Valuation, a: int, b: int) -> bool {
    light(m, a) == light(m, b)
}

pub open spec fn region_leader(m: Valuation, c: int) -> int {
    (m.int_of)(IntVar::RegionLeader(c as usize))
}

pub open spec fn region_rank(m: Valuation, c: int) -> int {
    (m.int_of)(IntVar::RegionRank(c as usize))
}

pub open spec fn region_size(m: Valuation, c: int) -> int {
    (m.int_of)(IntVar::RegionSize(c as usize))
}

pub open spec fn visible(m: Valuation, d: Direction, c: int) -> int {
    (m.int_of)(IntVar::Visible(d, c as usize))
}

pub open spec fn visible_total(m: Valuation, c: int) -> int {
    visible(m, Direction::Left, c) + visible(m, Direction::Right, c) + visible(m, Direction::Up, c)
        + visible(m, Direction::Down, c) + 1
}

pub open spec fn is_leader(m: Valuation, c: int) -> bool {
    region_leader(m, c) == c
}

/// Whether cell `c` has color `col` under `m`.
pub open spec fn has_color(m: Valuation, c: int, col: Color) -> bool {
    light(m, c) == (col == Color::Light)
}

/// Number of cells among the first `k` whose leader is `l`.
pub open spec fn count_led_by(m: Valuation, l: int, k: int) -> int
    decreases k,
{
    if k <= 0 {
        0
    } else {
        count_led_by(m, l, k - 1) + if region_leader(m, k - 1) == l {
            1int
        } else {
            0int
        }
    }
}

// ---- the structural constraints, stated directly ----

/// Neighbours `c` and `n` agree on color exactly when they agree on leader, and
/// same-colored neighbours have ranks one apart.
pub open spec fn pair_ok(m: Valuation, c: int, n: int) -> bool {
    &&& same_color(m, c, n) == (region_leader(m, c) == region_leader(m, n))
    &&& same_color(m, c, n) ==> (region_rank(m, c) == region_rank(m, n) + 1 || region_rank(m, n)
        == region_rank(m, c) + 1)
}

pub open spec fn opt_pair_ok(m: Valuation, c: int, n: Option<crate::grid::SquareIndex>) -> bool {
    match n {
        Some(x) => pair_ok(m, c, x.0 as int),
        None => true,
    }
}

/// `n` is a same-colored neighbour whose rank is one less than that of `c`.
pub open spec fn steps_down_to(m: Valuation, c: int, n: Option<crate::grid::SquareIndex>) -> bool {
    match n {
        Some(x) => same_color(m, c, x.0 as int) && region_rank(m, c) == region_rank(m, x.0 as int)
            + 1,
        None => false,
    }
}

/// The visibility recurrence in direction `d` towards neighbour `n`.
pub open spec fn visible_ok(
    m: Valuation,
    d: Direction,
    c: int,
    n: Option<crate::grid::SquareIndex>,
) -> bool {
    match n {
        Some(x) => visible(m, d, c) == if same_color(m, c, x.0 as int) {
            visible(m, d, x.0 as int) + 1
        } else {
            0
        },
        None => visible(m, d, c) == 0,
    }
}

/// All structural constraints that belong to cell `c` of `g`.
pub open spec fn cell_ok(g: &PreparedGrid, m: Valuation, c: int) -> bool {
    let s = g.squares@[c];
    &&& region_rank(m, c) >= 0
    &&& is_leader(m, c) == (region_rank(m, c) == 0)
    &&& c >= region_leader(m, c)
    &&& opt_pair_ok(m, c, s.right)
    &&& opt_pair_ok(m, c, s.below)
    &&& (region_rank(m, c) == 0 || steps_down_to(m, c, s.left) || steps_down_to(m, c, s.right)
        || steps_down_to(m, c, s.above) || steps_down_to(m, c, s.below))
    &&& region_size(m, c) == count_led_by(m, region_leader(m, c), g.num_cells())
    &&& visible_ok(m, Direction::Up, c, s.above)
    &&& visible_ok(m, Direction::Down, c, s.below)
    &&& visible_ok(m, Direction::Left, c, s.left)
    &&& visible_ok(m, Direction::Right, c, s.right)
}

pub open spec fn cells_ok_upto(g: &PreparedGrid, m: Valuation, k: int) -> bool {
    forall|c: int| 0 <= c < k ==> #[trigger] cell_ok(g, m, c)
}

/// The structural constraints of the whole grid.
pub open spec fn basic_ok(g: &PreparedGrid, m: Valuation) -> bool {
    cells_ok_upto(g, m, g.num_cells())
}

// ---- term builders, each with its meaning ----

fn lit(n: u64) -> (r: IntExpr)
    ensures
        forall|m: Valuation| #[trigger] eval_int(r, m) == n,
{
    IntExpr::Lit(n)
}

fn var(v: IntVar) -> (r: IntExpr)
    ensures
        forall|m: Valuation| #[trigger] eval_int(r, m) == (m.int_of)(v),
{
    IntExpr::Var(v)
}

fn plus(a: IntExpr, b: IntExpr) -> (r: IntExpr)
    ensures
        forall|m: Valuation| #[trigger] eval_int(r, m) == eval_int(a, m) + eval_int(b, m),
{
    IntExpr::Add(Box::new(a), Box::new(b))
}

fn int_ite(c: BoolExpr, a: IntExpr, b: IntExpr) -> (r: IntExpr)
    ensures
        forall|m: Valuation| #[trigger]
            eval_int(r, m) == if eval_bool(c, m) {
                eval_int(a, m)
            } else {
                eval_int(b, m)
            },
{
    IntExpr::Ite(Box::new(c), Box::new(a), Box::new(b))
}

fn light_var(i: usize) -> (r: BoolExpr)
    ensures
        forall|m: Valuation| #[trigger] eval_bool(r, m) == light(m, i as int),
{
    BoolExpr::Light(i)
}

fn not(a: BoolExpr) -> (r: BoolExpr)
    ensures
        forall|m: Valuation| #[trigger] eval_bool(r, m) == !eval_bool(a, m),
{
    BoolExpr::Not(Box::new(a))
}

fn and(a: BoolExpr, b: BoolExpr) -> (r: BoolExpr)
    ensures
        forall|m: Valuation| #[trigger] eval_bool(r, m) == (eval_bool(a, m) && eval_bool(b, m)),
{
    BoolExpr::And(Box::new(a), Box::new(b))
}

fn or(a: BoolExpr, b: BoolExpr) -> (r: BoolExpr)
    ensures
        forall|m: Valuation| #[trigger] eval_bool(r, m) == (eval_bool(a, m) || eval_bool(b, m)),
{
    BoolExpr::Or(Box::new(a), Box::new(b))
}

fn implies(a: BoolExpr, b: BoolExpr) -> (r: BoolExpr)
    ensures
        forall|m: Valuation| #[trigger] eval_bool(r, m) == (eval_bool(a, m) ==> eval_bool(b, m)),
{
    BoolExpr::Implies(Box::new(a), Box::new(b))
}

fn iff(a: BoolExpr, b: BoolExpr) -> (r: BoolExpr)
    ensures
        forall|m: Valuation| #[trigger] eval_bool(r, m) == (eval_bool(a, m) == eval_bool(b, m)),
{
    BoolExpr::Iff(Box::new(a), Box::new(b))
}

fn bool_ite(c: BoolExpr, a: BoolExpr, b: BoolExpr) -> (r: BoolExpr)
    ensures
        forall|m: Valuation| #[trigger]
            eval_bool(r, m) == if eval_bool(c, m) {
                eval_bool(a, m)
            } else {
                eval_bool(b, m)
            },
{
    BoolExpr::Ite(Box::new(c), Box::new(a), Box::new(b))
}

fn int_eq(a: IntExpr, b: IntExpr) -> (r: BoolExpr)
    ensures
        forall|m: Valuation| #[trigger] eval_bool(r, m) == (eval_int(a, m) == eval_int(b, m)),
{
    BoolExpr::Eq(Box::new(a), Box::new(b))
}

fn int_ge(a: IntExpr, b: IntExpr) -> (r: BoolExpr)
    ensures
        forall|m: Valuation| #[trigger] eval_bool(r, m) == (eval_int(a, m) >= eval_int(b, m)),
{
    BoolExpr::Ge(Box::new(a), Box::new(b))
}

fn push_formula(v: &mut Vec<BoolExpr>, e: BoolExpr)
    ensures
        final(v)@ == old(v)@.push(e),
        forall|m: Valuation| #[trigger]
            holds_all(final(v)@, m) == (holds_all(old(v)@, m) && eval_bool(e, m)),
{
    proof {
        lemma_holds_all_push(v@, e);
    }
    v.push(e);
}

fn leader_var(c: usize) -> (r: IntExpr)
    ensures
        forall|m: Valuation| #[trigger] eval_int(r, m) == region_leader(m, c as int),
{
    var(IntVar::RegionLeader(c))
}

fn rank_var(c: usize) -> (r: IntExpr)
    ensures
        forall|m: Valuation| #[trigger] eval_int(r, m) == region_rank(m, c as int),
{
    var(IntVar::RegionRank(c))
}

fn size_var(c: usize) -> (r: IntExpr)
    ensures
        forall|m: Valuation| #[trigger] eval_int(r, m) == region_size(m, c as int),
{
    var(IntVar::RegionSize(c))
}

fn visible_var(d: Direction, c: usize) -> (r: IntExpr)
    ensures
        forall|m: Valuation| #[trigger] eval_int(r, m) == visible(m, d, c as int),
{
    var(IntVar::Visible(d, c))
}

fn same_color_term(a: usize, b: usize) -> (r: BoolExpr)
    ensures
        forall|m: Valuation| #[trigger] eval_bool(r, m) == same_color(m, a as int, b as int),
{
    iff(light_var(a), light_var(b))
}

/// `rank(a) == rank(b) + 1`
fn rank_above(a: usize, b: usize) -> (r: BoolExpr)
    ensures
        forall|m: Valuation| #[trigger]
            eval_bool(r, m) == (region_rank(m, a as int) == region_rank(m, b as int) + 1),
{
    int_eq(rank_var(a), plus(rank_var(b), lit(1)))
}

/// Region equivalence and rank gradient between `c` and its neighbour `n`.
fn push_pair(out: &mut Vec<BoolExpr>, c: usize, n: Option<crate::grid::SquareIndex>)
    ensures
        forall|m: Valuation| #[trigger]
            holds_all(final(out)@, m) == (holds_all(old(out)@, m) && opt_pair_ok(m, c as int, n)),
{
    if let Some(x) = n {
        push_formula(out, iff(same_color_term(c, x.0), int_eq(leader_var(c), leader_var(x.0))));
        push_formula(
            out,
            implies(same_color_term(c, x.0), or(rank_above(c, x.0), rank_above(x.0, c))),
        );
    }
}

/// `acc`, or a step down in rank to neighbour `n`.
fn or_step_down(acc: BoolExpr, c: usize, n: Option<crate::grid::SquareIndex>) -> (r: BoolExpr)
    ensures
        forall|m: Valuation| #[trigger]
            eval_bool(r, m) == (eval_bool(acc, m) || steps_down_to(m, c as int, n)),
{
    match n {
        Some(x) => or(acc, and(same_color_term(c, x.0), rank_above(c, x.0))),
        None => acc,
    }
}

/// The visibility recurrence of cell `c` in direction `d`.
fn visible_term(d: Direction, c: usize, n: Option<crate::grid::SquareIndex>) -> (r: BoolExpr)
    ensures
        forall|m: Valuation| #[trigger] eval_bool(r, m) == visible_ok(m, d, c as int, n),
{
    match n {
        Some(x) => bool_ite(
            same_color_term(c, x.0),
            int_eq(visible_var(d, c), plus(visible_var(d, x.0), lit(1))),
            int_eq(visible_var(d, c), lit(0)),
        ),
        None => int_eq(visible_var(d, c), lit(0)),
    }
}

/// The number of cells among the first `n` that share the leader of `c`.
fn region_size_sum(c: usize, n: usize) -> (r: IntExpr)
    ensures
        forall|m: Valuation| #[trigger]
            eval_int(r, m) == count_led_by(m, region_leader(m, c as int), n as int),
{
    let mut acc = lit(0);
    let mut o: usize = 0;
    while o < n
        invariant
            o <= n,
            forall|m: Valuation| #[trigger]
                eval_int(acc, m) == count_led_by(m, region_leader(m, c as int), o as int),
        decreases n - o,
    {
        let term = int_ite(int_eq(leader_var(c), leader_var(o)), lit(1), lit(0));
        acc = plus(acc, term);
        o += 1;
    }
    acc
}

/// Pushes every structural constraint of cell `c`.
fn push_cell_constraints(out: &mut Vec<BoolExpr>, grid: &PreparedGrid, c: usize)
    requires
        grid.wf(),
        c < grid.num_cells(),
    ensures
        forall|m: Valuation| #[trigger]
            holds_all(final(out)@, m) == (holds_all(old(out)@, m) && cell_ok(grid, m, c as int)),
{
    let sq: &PreparedSquare = &grid.squares[c];
    let n = grid.squares.len();
    // Rank is at least 0.
    push_formula(out, int_ge(rank_var(c), lit(0)));
    // Rank 0 exactly at the leader.
    push_formula(out, iff(int_eq(leader_var(c), lit(c as u64)), int_eq(rank_var(c), lit(0))));
    // The leader has the least index of its region.
    push_formula(out, int_ge(lit(c as u64), leader_var(c)));
    push_pair(out, c, sq.right);
    push_pair(out, c, sq.below);
    // Either the leader, or a same-colored neighbour is one rank closer to it.
    let mut grounded = int_eq(rank_var(c), lit(0));
    grounded = or_step_down(grounded, c, sq.left);
    grounded = or_step_down(grounded, c, sq.right);
    grounded = or_step_down(grounded, c, sq.above);
    grounded = or_step_down(grounded, c, sq.below);
    push_formula(out, grounded);
    push_formula(out, int_eq(size_var(c), region_size_sum(c, n)));
    push_formula(out, visible_term(Direction::Up, c, sq.above));
    push_formula(out, visible_term(Direction::Down, c, sq.below));
    push_formula(out, visible_term(Direction::Left, c, sq.left));
    push_formula(out, visible_term(Direction::Right, c, sq.right));
}

/// Pushes the structural constraints of every cell.
fn push_basic_constraints(out: &mut Vec<BoolExpr>, grid: &PreparedGrid)
    requires
        grid.wf(),
        old(out)@.len() == 0,
    ensures
        forall|m: Valuation| #[trigger] holds_all(final(out)@, m) == basic_ok(grid, m),
{
    let mut c: usize = 0;
    while c < grid.squares.len()
        invariant
            grid.wf(),
            c <= grid.num_cells(),
            forall|m: Valuation| #[trigger] holds_all(out@, m) == cells_ok_upto(grid, m, c as int),
        decreases grid.squares.len() - c,
    {
        push_cell_constraints(out, grid, c);
        assert forall|m: Valuation| #[trigger] holds_all(out@, m) == cells_ok_upto(
            grid,
            m,
            c + 1,
        ) by {
            if cells_ok_upto(grid, m, c + 1) {
                assert(cell_ok(grid, m, c as int));
            }
        }
        c += 1;
    }
}

// ---- rule constraints ----

/// The auxiliary unknown that every cell of a connected color points to.
pub open spec fn connect_leader(m: Valuation, c: Color) -> int {
    match c {
        Color::Dark => (m.int_of)(IntVar::DarkLeader),
        Color::Light => (m.int_of)(IntVar::LightLeader),
    }
}

/// Number of cells among the first `k` of `v` that have color `c`.
pub open spec fn count_colored(m: Valuation, c: Color, v: Seq<SquareIndex>, k: int) -> int
    decreases k,
{
    if k <= 0 {
        0
    } else {
        count_colored(m, c, v, k - 1) + if has_color(m, v[k - 1].0 as int, c) {
            1int
        } else {
            0int
        }
    }
}

/// The cell that pattern entry `k` lands on when the pattern is shifted by `(i, j)`.
pub open spec fn landing(g: &PreparedGrid, p: Seq<(Coord, Color)>, i: int, j: int, k: int) -> Option<
    SquareIndex,
> {
    g.index_at(p[k].0.i + i, p[k].0.j + j)
}

/// Every entry of the shifted pattern lands on an existing cell.
pub open spec fn placed(g: &PreparedGrid, p: Seq<(Coord, Color)>, i: int, j: int) -> bool {
    forall|k: int| 0 <= k < p.len() ==> (#[trigger] landing(g, p, i, j, k)).is_some()
}

/// Every entry of the shifted pattern has its required color.
pub open spec fn matches_at(
    g: &PreparedGrid,
    p: Seq<(Coord, Color)>,
    i: int,
    j: int,
    m: Valuation,
) -> bool {
    forall|k: int|
        0 <= k < p.len() ==> has_color(m, (#[trigger] landing(g, p, i, j, k)).unwrap().0 as int, p[k].1)
}

/// Cell `x` lies in the region of some cell of `v`.
pub open spec fn shares_leader_with(m: Valuation, x: int, v: Seq<SquareIndex>) -> bool {
    exists|k: int| 0 <= k < v.len() && region_leader(m, x) == region_leader(m, v[k].0 as int)
}

/// The cells of `v` lie in pairwise different regions.
pub open spec fn leaders_distinct(m: Valuation, v: Seq<SquareIndex>) -> bool {
    forall|a: int, b: int|
        #![trigger v[a], v[b]]
        0 <= a < b < v.len() ==> region_leader(m, v[a].0 as int) != region_leader(m, v[b].0 as int)
}

/// What a prepared rule demands of a valuation.
pub open spec fn rule_ok(g: &PreparedGrid, rule: PreparedRule, m: Valuation) -> bool {
    let n = g.num_cells();
    match rule {
        PreparedRule::SquareIsColor(i, c) => has_color(m, i.0 as int, c),
        PreparedRule::SquaresAreSameColor(a, b) => same_color(m, a.0 as int, b.0 as int),
        PreparedRule::BanPattern(p) => forall|i: int, j: int|
            0 <= i < g.size.i && 0 <= j < g.size.j && #[trigger] placed(g, p.pattern@, i, j)
                ==> !matches_at(g, p.pattern@, i, j, m),
        PreparedRule::ConnectAll(c) => forall|x: int|
            0 <= x < n && #[trigger] has_color(m, x, c) ==> region_leader(m, x) == connect_leader(
                m,
                c,
            ),
        PreparedRule::RegionFixedSize(c, k) => forall|x: int|
            0 <= x < n && #[trigger] has_color(m, x, c) ==> region_size(m, x) == k,
        PreparedRule::ExactlyOneNumberPerRegion(c, v) => {
            &&& leaders_distinct(m, v@)
            &&& forall|x: int|
                0 <= x < n && #[trigger] has_color(m, x, c) ==> shares_leader_with(m, x, v@)
        },
        PreparedRule::RegionAreaEqualsNumber(i, k) => region_size(m, i.0 as int) == k,
        PreparedRule::VisibleCellCount(i, k) => visible_total(m, i.0 as int) == k,
        PreparedRule::RegionAreaEqualsEither(i, a, b) => region_size(m, i.0 as int) == a
            || region_size(m, i.0 as int) == b,
        PreparedRule::VisibleCellCountEither(i, a, b) => visible_total(m, i.0 as int) == a
            || visible_total(m, i.0 as int) == b,
        PreparedRule::RegionsHaveDifferentShapes(_) => true,
        PreparedRule::ColorCountInSet(k, c, v) => count_colored(m, c, v@, v@.len() as int) == k,
    }
}

pub open spec fn rules_ok_upto(g: &PreparedGrid, m: Valuation, k: int) -> bool {
    forall|r: int| 0 <= r < k ==> #[trigger] rule_ok(g, g.rules@[r], m)
}

/// Every rule of the prepared grid holds.
pub open spec fn rules_ok(g: &PreparedGrid, m: Valuation) -> bool {
    rules_ok_upto(g, m, g.rules@.len() as int)
}

pub open spec fn is_unsupported(r: PreparedRule) -> bool {
    r is RegionsHaveDifferentShapes
}

impl Color {
    /// The literal "the cell whose color unknown is `var` has this color".
    pub fn to_bool(&self, var: BoolExpr) -> (r: BoolExpr)
        ensures
            forall|m: Valuation| #[trigger]
                eval_bool(r, m) == (eval_bool(var, m) == (*self == Color::Light)),
    {
        match self {
            Color::Light => var,
            Color::Dark => not(var),
        }
    }
}

fn color_is(c: Color, i: usize) -> (r: BoolExpr)
    ensures
        forall|m: Valuation| #[trigger] eval_bool(r, m) == has_color(m, i as int, c),
{
    c.to_bool(light_var(i))
}

/// What a rule demands of every cell of its color.
enum CellDemand<'a> {
    LeaderIs(Color),
    SizeIs(usize),
    SharesLeaderWith(&'a Vec<SquareIndex>),
}

spec fn demand_holds(d: CellDemand, m: Valuation, x: int) -> bool {
    match d {
        CellDemand::LeaderIs(c) => region_leader(m, x) == connect_leader(m, c),
        CellDemand::SizeIs(k) => region_size(m, x) == k,
        CellDemand::SharesLeaderWith(v) => shares_leader_with(m, x, v@),
    }
}

fn demand_term(d: &CellDemand, x: usize) -> (e: BoolExpr)
    ensures
        forall|m: Valuation| #[trigger] eval_bool(e, m) == demand_holds(*d, m, x as int),
{
    match d {
        CellDemand::LeaderIs(c) => {
            let leader = match c {
                Color::Dark => var(IntVar::DarkLeader),
                Color::Light => var(IntVar::LightLeader),
            };
            int_eq(leader_var(x), leader)
        },
        CellDemand::SizeIs(k) => int_eq(size_var(x), lit(*k as u64)),
        CellDemand::SharesLeaderWith(v) => shares_numbered_leader(x, v),
    }
}

fn all_cells_have(out: &mut Vec<BoolExpr>, n: usize, c: Color, d: &CellDemand)
    ensures
        forall|m: Valuation| #[trigger]
            holds_all(final(out)@, m) == (holds_all(old(out)@, m) && forall|x: int|
                0 <= x < n && #[trigger] has_color(m, x, c) ==> demand_holds(*d, m, x)),
{
    let ghost start = out@;
    let mut x: usize = 0;
    while x < n
        invariant
            x <= n,
            forall|m: Valuation| #[trigger]
                holds_all(out@, m) == (holds_all(start, m) && forall|y: int|
                    0 <= y < x && #[trigger] has_color(m, y, c) ==> demand_holds(*d, m, y)),
        decreases n - x,
    {
        let concl = demand_term(d, x);
        push_formula(out, implies(color_is(c, x), concl));
        assert forall|m: Valuation| #[trigger]
            holds_all(out@, m) == (holds_all(start, m) && forall|y: int|
                0 <= y < x + 1 && #[trigger] has_color(m, y, c) ==> demand_holds(*d, m, y)) by {
            assert(eval_bool(concl, m) == demand_holds(*d, m, x as int));
        }
        x += 1;
    }
}

/// The conjunction "the pattern matches when shifted by `(i, j)`", or `None` where some
/// entry of the shifted pattern lands off the board or on a missing cell.
fn pattern_term(grid: &PreparedGrid, p: &Vec<(Coord, Color)>, i: isize, j: isize) -> (r: Option<
    BoolExpr,
>)
    requires
        grid.wf(),
    ensures
        r.is_some() == placed(grid, p@, i as int, j as int),
        r matches Some(e) ==> forall|m: Valuation| #[trigger]
            eval_bool(e, m) == matches_at(grid, p@, i as int, j as int, m),
{
    let mut acc = BoolExpr::Lit(true);
    let mut k: usize = 0;
    while k < p.len()
        invariant
            grid.wf(),
            k <= p@.len(),
            forall|q: int| 0 <= q < k ==> (#[trigger] landing(grid, p@, i as int, j as int, q)).is_some(),
            forall|m: Valuation| #[trigger]
                eval_bool(acc, m) == forall|q: int|
                    0 <= q < k ==> has_color(
                        m,
                        (#[trigger] landing(grid, p@, i as int, j as int, q)).unwrap().0 as int,
                        p@[q].1,
                    ),
        decreases p.len() - k,
    {
        let (pc, color) = p[k];
        let ci = pc.i.checked_add(i);
        let cj = pc.j.checked_add(j);
        if ci.is_none() || cj.is_none() {
            assert(landing(grid, p@, i as int, j as int, k as int).is_none());
            return None;
        }
        let found = grid.lookup(ci.unwrap(), cj.unwrap());
        match found {
            None => {
                return None;
            },
            Some(idx) => {
                let ghost prev = acc;
                acc = and(acc, color_is(color, idx.0));
                assert forall|m: Valuation| #[trigger]
                    eval_bool(acc, m) == forall|q: int|
                        0 <= q < k + 1 ==> has_color(
                            m,
                            (#[trigger] landing(grid, p@, i as int, j as int, q)).unwrap().0 as int,
                            p@[q].1,
                        ) by {
                    assert(eval_bool(acc, m) == (eval_bool(prev, m) && has_color(m, idx.0 as int, color)));
                }
            },
        }
        k += 1;
    }
    Some(acc)
}

/// No shift of the pattern over the board finds all of its colors.
fn push_ban_pattern(out: &mut Vec<BoolExpr>, grid: &PreparedGrid, p: &Vec<(Coord, Color)>)
    requires
        grid.wf(),
    ensures
        forall|m: Valuation| #[trigger]
            holds_all(final(out)@, m) == (holds_all(old(out)@, m) && forall|i: int, j: int|
                0 <= i < grid.size.i && 0 <= j < grid.size.j && #[trigger] placed(grid, p@, i, j)
                    ==> !matches_at(grid, p@, i, j, m)),
{
    let ghost start = out@;
    let mut i: isize = 0;
    while i < grid.size.i
        invariant
            grid.wf(),
            0 <= i <= grid.size.i,
            forall|m: Valuation| #[trigger]
                holds_all(out@, m) == (holds_all(start, m) && forall|a: int, b: int|
                    0 <= a < i && 0 <= b < grid.size.j && #[trigger] placed(grid, p@, a, b)
                        ==> !matches_at(grid, p@, a, b, m)),
        decreases grid.size.i - i,
    {
        let mut j: isize = 0;
        while j < grid.size.j
            invariant
                grid.wf(),
                0 <= i < grid.size.i,
                0 <= j <= grid.size.j,
                forall|m: Valuation| #[trigger]
                    holds_all(out@, m) == (holds_all(start, m) && forall|a: int, b: int|
                        ((0 <= a < i && 0 <= b < grid.size.j) || (a == i && 0 <= b < j))
                            && #[trigger] placed(grid, p@, a, b) ==> !matches_at(grid, p@, a, b, m)),
            decreases grid.size.j - j,
        {
            let term = pattern_term(grid, p, i, j);
            match term {
                Some(e) => {
                    push_formula(out, not(e));
                },
                None => {},
            }
            j += 1;
        }
        i += 1;
    }
}

/// Pushes the constraints of one prepared rule.
fn push_rule(out: &mut Vec<BoolExpr>, grid: &PreparedGrid, rule: &PreparedRule)
    requires
        grid.wf(),
        rule_indices_ok(*rule, grid.num_cells()),
        !is_unsupported(*rule),
    ensures
        forall|m: Valuation| #[trigger]
            holds_all(final(out)@, m) == (holds_all(old(out)@, m) && rule_ok(grid, *rule, m)),
{
    let n = grid.squares.len();
    match rule {
        PreparedRule::SquareIsColor(index, color) => {
            push_formula(out, color_is(*color, index.0));
        },
        PreparedRule::SquaresAreSameColor(a, b) => {
            push_formula(out, same_color_term(a.0, b.0));
        },
        PreparedRule::BanPattern(grid_pattern) => {
            push_ban_pattern(out, grid, &grid_pattern.pattern);
        },
        PreparedRule::ConnectAll(color) => {
            all_cells_have(out, n, *color, &CellDemand::LeaderIs(*color));
        },
        PreparedRule::RegionFixedSize(color, size) => {
            all_cells_have(out, n, *color, &CellDemand::SizeIs(*size));
        },
        PreparedRule::ExactlyOneNumberPerRegion(color, numbered) => {
            push_one_number_per_region(out, grid, *color, numbered);
        },
        PreparedRule::RegionAreaEqualsNumber(index, number) => {
            push_formula(out, int_eq(size_var(index.0), lit(*number as u64)));
        },
        PreparedRule::VisibleCellCount(index, number) => {
            push_formula(out, int_eq(visible_total_term(index.0), lit(*number as u64)));
        },
        PreparedRule::RegionAreaEqualsEither(index, a, b) => {
            push_formula(
                out,
                or(
                    int_eq(size_var(index.0), lit(*a as u64)),
                    int_eq(size_var(index.0), lit(*b as u64)),
                ),
            );
        },
        PreparedRule::VisibleCellCountEither(index, a, b) => {
            push_formula(
                out,
                or(
                    int_eq(visible_total_term(index.0), lit(*a as u64)),
                    int_eq(visible_total_term(index.0), lit(*b as u64)),
                ),
            );
        },
        PreparedRule::ColorCountInSet(count, color, set) => {
            push_formula(out, int_eq(color_count_sum(*color, set), lit(*count as u64)));
        },
        PreparedRule::RegionsHaveDifferentShapes(_) => {},
    }
}

fn visible_total_term(c: usize) -> (r: IntExpr)
    ensures
        forall|m: Valuation| #[trigger] eval_int(r, m) == visible_total(m, c as int),
{
    plus(
        plus(
            plus(
                plus(visible_var(Direction::Left, c), visible_var(Direction::Right, c)),
                visible_var(Direction::Up, c),
            ),
            visible_var(Direction::Down, c),
        ),
        lit(1),
    )
}

/// The number of cells of `set` that have color `c`.
fn color_count_sum(c: Color, set: &Vec<SquareIndex>) -> (r: IntExpr)
    ensures
        forall|m: Valuation| #[trigger] eval_int(r, m) == count_colored(m, c, set@, set@.len() as int),
{
    let mut acc = lit(0);
    let mut k: usize = 0;
    while k < set.len()
        invariant
            k <= set@.len(),
            forall|m: Valuation| #[trigger] eval_int(acc, m) == count_colored(m, c, set@, k as int),
        decreases set.len() - k,
    {
        acc = plus(acc, int_ite(color_is(c, set[k].0), lit(1), lit(0)));
        k += 1;
    }
    acc
}

fn distinct_vars(vs: Vec<IntVar>) -> (r: BoolExpr)
    ensures
        forall|m: Valuation| #[trigger] eval_bool(r, m) == pairwise_distinct(m, vs@),
{
    BoolExpr::Distinct(vs)
}

/// Some numbered cell shares the leader of `x`.
fn shares_numbered_leader(x: usize, numbered: &Vec<SquareIndex>) -> (r: BoolExpr)
    ensures
        forall|m: Valuation| #[trigger] eval_bool(r, m) == shares_leader_with(m, x as int, numbered@),
{
    let mut acc = BoolExpr::Lit(false);
    let mut k: usize = 0;
    while k < numbered.len()
        invariant
            k <= numbered@.len(),
            forall|m: Valuation| #[trigger]
                eval_bool(acc, m) == exists|q: int|
                    0 <= q < k && region_leader(m, x as int) == region_leader(
                        m,
                        numbered@[q].0 as int,
                    ),
        decreases numbered.len() - k,
    {
        let ghost prev = acc;
        acc = or(acc, int_eq(leader_var(x), leader_var(numbered[k].0)));
        assert forall|m: Valuation| #[trigger]
            eval_bool(acc, m) == exists|q: int|
                0 <= q < k + 1 && region_leader(m, x as int) == region_leader(
                    m,
                    numbered@[q].0 as int,
                ) by {
            if region_leader(m, x as int) == region_leader(m, numbered@[k as int].0 as int) {
                assert(0 <= k < k + 1);
            }
        }
        k += 1;
    }
    acc
}

/// Numbered cells lie in distinct regions, and every cell of color `c` shares a region
/// with one of them.
fn push_one_number_per_region(
    out: &mut Vec<BoolExpr>,
    grid: &PreparedGrid,
    c: Color,
    numbered: &Vec<SquareIndex>,
)
    requires
        grid.wf(),
    ensures
        forall|m: Valuation| #[trigger]
            holds_all(final(out)@, m) == (holds_all(old(out)@, m) && rule_ok(
                grid,
                PreparedRule::ExactlyOneNumberPerRegion(c, *numbered),
                m,
            )),
{
    let mut leaders: Vec<IntVar> = Vec::new();
    let mut k: usize = 0;
    while k < numbered.len()
        invariant
            k <= numbered@.len(),
            leaders@.len() == k,
            forall|q: int| 0 <= q < k ==> #[trigger] leaders@[q] == IntVar::RegionLeader(numbered@[q].0),
        decreases numbered.len() - k,
    {
        leaders.push(IntVar::RegionLeader(numbered[k].0));
        k += 1;
    }
    let ghost lv = leaders@;
    let distinct = distinct_vars(leaders);
    assert forall|m: Valuation| #[trigger] eval_bool(distinct, m) == leaders_distinct(m, numbered@) by {
        assert(lv.len() == numbered@.len());
        if pairwise_distinct(m, lv) {
            assert forall|a: int, b: int| 0 <= a < b < numbered@.len() implies region_leader(
                m,
                #[trigger] numbered@[a].0 as int,
            ) != region_leader(m, #[trigger] numbered@[b].0 as int) by {
                assert(lv[a] == IntVar::RegionLeader(numbered@[a].0));
                assert(lv[b] == IntVar::RegionLeader(numbered@[b].0));
            }
        }
        if leaders_distinct(m, numbered@) {
            assert forall|x: int, y: int| 0 <= x < y < lv.len() implies (m.int_of)(#[trigger] lv[x])
                != (m.int_of)(#[trigger] lv[y]) by {
                assert(lv[x] == IntVar::RegionLeader(numbered@[x].0));
                assert(lv[y] == IntVar::RegionLeader(numbered@[y].0));
            }
        }
    }
    push_formula(out, distinct);
    let n = grid.squares.len();
    all_cells_have(out, n, c, &CellDemand::SharesLeaderWith(numbered));
}

/// Why a prepared grid could not be encoded.
#[derive(Clone, Copy, Debug, PartialEq, Eq, Structural)]
pub enum EncodeError {
    /// A rule that has no encoding: regions with pairwise different shapes.
    UnsupportedRule,
}

/// The formulas of one solver invocation: the structural ones and those of the rules.
pub struct GridConstraints {
    pub basic_constraints: Vec<BoolExpr>,
    pub rule_constraints: Vec<BoolExpr>,
}

impl GridConstraints {
    /// The formulas mean exactly the structural constraints and the rules of `g`.
    pub open spec fn encodes(&self, g: &PreparedGrid) -> bool {
        &&& forall|m: Valuation| #[trigger]
            holds_all(self.basic_constraints@, m) == basic_ok(g, m)
        &&& forall|m: Valuation| #[trigger]
            holds_all(self.rule_constraints@, m) == rules_ok(g, m)
    }

    /// Encodes a prepared grid. Every valuation satisfies the structural formulas exactly
    /// when it meets `basic_ok`, and the rule formulas exactly when it meets `rules_ok`.
    pub fn new(grid: &PreparedGrid) -> (r: Result<GridConstraints, EncodeError>)
        requires
            grid.wf(),
        ensures
            r is Err <==> exists|k: int|
                0 <= k < grid.rules@.len() && is_unsupported(#[trigger] grid.rules@[k]),
            r matches Ok(gc) ==> gc.encodes(grid),
    {
        let mut basic_constraints: Vec<BoolExpr> = Vec::new();
        push_basic_constraints(&mut basic_constraints, grid);
        let mut rule_constraints: Vec<BoolExpr> = Vec::new();
        let mut k: usize = 0;
        while k < grid.rules.len()
            invariant
                grid.wf(),
                k <= grid.rules@.len(),
                forall|q: int| 0 <= q < k ==> !is_unsupported(#[trigger] grid.rules@[q]),
                forall|m: Valuation| #[trigger]
                    holds_all(rule_constraints@, m) == rules_ok_upto(grid, m, k as int),
            decreases grid.rules.len() - k,
        {
            let rule = &grid.rules[k];
            if let PreparedRule::RegionsHaveDifferentShapes(_) = rule {
                return Err(EncodeError::UnsupportedRule);
            }
            push_rule(&mut rule_constraints, grid, rule);
            assert forall|m: Valuation| #[trigger]
                holds_all(rule_constraints@, m) == rules_ok_upto(grid, m, k + 1) by {
                if rules_ok_upto(grid, m, k + 1) {
                    assert(rule_ok(grid, grid.rules@[k as int], m));
                }
            }
            k += 1;
        }
        Ok(GridConstraints { basic_constraints, rule_constraints })
    }
}

/// Which attribute of a solved board to render.
#[derive(Clone, Copy, Debug, PartialEq, Eq, Structural)]
pub enum PrintKind {
    Color,
    RegionSize,
    RegionLeader,
    RegionRank,
    VisibleTotal,
}

impl PrintKind {
    /// Characters per rendered cell.
    pub fn column_width(&self) -> (r: usize)
        ensures
            r == match self {
                PrintKind::Color => 2usize,
                PrintKind::RegionSize => 3,
                PrintKind::RegionLeader => 4,
                PrintKind::RegionRank => 3,
                PrintKind::VisibleTotal => 3,
            },
    {
        match self {
            PrintKind::Color => 2,
            PrintKind::RegionSize => 3,
            PrintKind::RegionLeader => 4,
            PrintKind::RegionRank => 3,
            PrintKind::VisibleTotal => 3,
        }
    }
}

} // verus!
