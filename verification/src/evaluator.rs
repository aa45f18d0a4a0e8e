//! Exhaustive evaluator: decides whether a formula is a tautology.
//!
//! The free variables of the tree are mapped to bit positions in
//! ascending letter order.  An assignment is an integer below `2^n`
//! read as a bit vector: the bit at a variable's position gives its
//! truth value.  Evaluation walks the assignments in ascending numeric
//! order and stops at the first one that falsifies the formula; the
//! result then carries that assignment as a witness, each variable
//! paired with its truth value.

use crate::parser::{vars_of, wf_expr, BinOp, BinOpExpr, Expr, Parser, SoleExpr, UnOp, UnOpExpr};
use vstd::arithmetic::div_mod::{
    lemma_basic_div, lemma_hoist_over_denominator, lemma_mod_multiples_vanish,
};
use vstd::arithmetic::power2::{
    lemma_pow2_adds, lemma_pow2_pos, lemma_pow2_strictly_increases, lemma_pow2_unfold, pow2,
};
use vstd::prelude::*;

verus! {

/// A witness: each free variable paired with its truth value, in
/// ascending letter order.
pub type BitPairs = Vec<(char, bool)>;

/// The outcome of evaluating a formula.
#[derive(Debug)]
pub enum EvalResult {
    /// Every assignment satisfies the formula.
    Tautology,
    /// The first falsifying assignment, in ascending numeric order.
    NotTautology(BitPairs),
}

/// The lowercase letter with alphabet position `i`.
pub open spec fn letter(i: int) -> char {
    (97 + i) as char
}

/// The truth value of a formula under an assignment of its variables.
pub open spec fn sem(e: Expr, env: Map<char, bool>) -> bool
    decreases e,
{
    match e {
        Expr::Sole(s) => env[s.0],
        Expr::Const(b) => b,
        Expr::UnOp(u) => !sem(*u.expr, env),
        Expr::BinOp(b) => match b.op {
            BinOp::And => sem(*b.lhs, env) && sem(*b.rhs, env),
            BinOp::Or => sem(*b.lhs, env) || sem(*b.rhs, env),
            BinOp::Imp => !sem(*b.lhs, env) || sem(*b.rhs, env),
        },
    }
}

/// How many of the first `i` letters of the alphabet occur in `vars`.
/// For a letter that occurs, `rank(vars, its position)` is its bit
/// position: variables are numbered in ascending letter order.
pub open spec fn rank(vars: Set<char>, i: int) -> nat
    decreases i,
{
    if i <= 0 {
        0
    } else if vars.contains(letter(i - 1)) {
        rank(vars, i - 1) + 1
    } else {
        rank(vars, i - 1)
    }
}

/// The number of free variables: every variable is one of the 26
/// lowercase letters.
pub open spec fn nvars(vars: Set<char>) -> nat {
    rank(vars, 26)
}

/// Bit `k` of the integer `m`.
pub open spec fn bit_at(m: nat, k: nat) -> bool {
    (m / pow2(k)) % 2 == 1
}

/// The assignment that the integer `m` denotes: each variable reads
/// the bit at its position.
pub open spec fn assign_map(vars: Set<char>, m: nat) -> Map<char, bool> {
    Map::new(|c: char| vars.contains(c), |c: char| bit_at(m, rank(vars, c as int - 97)))
}

/// Every member of the set is a lowercase letter.
pub open spec fn lowercase_vars(vars: Set<char>) -> bool {
    forall|c: char| #[trigger] vars.contains(c) ==> 'a' <= c && c <= 'z'
}

/// The witness pairs over the first `i` letters for assignment `m`.
pub open spec fn witness_upto(vars: Set<char>, m: nat, i: int) -> Seq<(char, bool)>
    decreases i,
{
    if i <= 0 {
        Seq::empty()
    } else if vars.contains(letter(i - 1)) {
        witness_upto(vars, m, i - 1).push((letter(i - 1), bit_at(m, rank(vars, i - 1))))
    } else {
        witness_upto(vars, m, i - 1)
    }
}

/// The witness for assignment `m`: every free variable with its truth
/// value, in ascending letter order.
pub open spec fn witness_of(vars: Set<char>, m: nat) -> Seq<(char, bool)> {
    witness_upto(vars, m, 26)
}

/// What [`eval`] promises.  `Tautology` means every assignment below
/// `2^n` satisfies the formula; `NotTautology(w)` means some assignment
/// falsifies it, all smaller ones satisfy it, and `w` spells that
/// assignment out.  Both clauses together pin the result down to one
/// value for each tree.
pub open spec fn eval_post(e: Expr, r: EvalResult) -> bool {
    let vars = vars_of(e);
    let n = nvars(vars);
    match r {
        EvalResult::Tautology => forall|m: nat| m < pow2(n) ==> sem(e, #[trigger] assign_map(vars, m)),
        EvalResult::NotTautology(w) => exists|m: nat|
            {
                &&& m < pow2(n)
                &&& !sem(e, #[trigger] assign_map(vars, m))
                &&& forall|j: nat| j < m ==> sem(e, #[trigger] assign_map(vars, j))
                &&& w@ == witness_of(vars, m)
            },
    }
}

/// The bit-position table: `assoc[i]` is the bit position of the
/// letter with alphabet position `i`, or 26 where that letter does not
/// occur.  `len` is the number of free variables.
struct VarEnv {
    assoc: Vec<usize>,
    len: usize,
}

/// The table is exactly the rank function of `vars`.
pub open spec fn assoc_ok(assoc: Seq<usize>, vars: Set<char>) -> bool {
    &&& assoc.len() == 26
    &&& lowercase_vars(vars)
    &&& forall|i: int|
        0 <= i < 26 ==> #[trigger] assoc[i] == if vars.contains(letter(i)) {
            rank(vars, i) as usize
        } else {
            26usize
        }
}

/// One assignment: the table together with the bit vector to read.
struct VarEnvMap<'a> {
    assoc: &'a Vec<usize>,
    bit: usize,
}

/// The rank never exceeds the number of letters counted.
pub proof fn lemma_rank_le(vars: Set<char>, i: int)
    requires
        0 <= i,
    ensures
        rank(vars, i) <= i,
    decreases i,
{
    if i > 0 {
        lemma_rank_le(vars, i - 1);
    }
}

/// The rank is monotone, and strictly so across a letter that occurs.
pub proof fn lemma_rank_mono(vars: Set<char>, i: int, j: int)
    requires
        0 <= i <= j,
    ensures
        rank(vars, i) <= rank(vars, j),
        vars.contains(letter(i)) && i < j ==> rank(vars, i) < rank(vars, j),
    decreases j,
{
    if i < j {
        lemma_rank_mono(vars, i, j - 1);
    }
}

/// Converts a lowercase letter to its alphabet position.
fn letter_index(c: char) -> (i: usize)
    requires
        'a' <= c && c <= 'z',
    ensures
        i == c as int - 97,
        i < 26,
{
    let u = c as u32;
    (u - 97) as usize
}

/// The lowercase letter with alphabet position `i`.
fn letter_exec(i: usize) -> (c: char)
    requires
        i < 26,
    ensures
        c == letter(i as int),
{
    let b: u8 = 97 + (i as u8);
    b as char
}

/// Two raised to the power `k`.
fn pow2_exec(k: usize) -> (r: usize)
    requires
        k <= 26,
    ensures
        r == pow2(k as nat),
{
    let mut r: usize = 1;
    let mut i: usize = 0;
    proof {
        vstd::arithmetic::power2::lemma2_to64();
    }
    while i < k
        invariant
            i <= k <= 26,
            r == pow2(i as nat),
        decreases k - i,
    {
        proof {
            lemma_pow2_unfold((i + 1) as nat);
            if ((i + 1) as nat) < 26 {
                lemma_pow2_strictly_increases((i + 1) as nat, 26);
            }
            vstd::arithmetic::power2::lemma2_to64();
        }
        r = r * 2;
        i = i + 1;
    }
    r
}

impl VarEnv {
    /// The table is well formed for the variable set of the tree it
    /// was built from, and `len` counts those variables.
    pub closed spec fn wf(&self, vars: Set<char>) -> bool {
        assoc_ok(self.assoc@, vars) && self.len == nvars(vars)
    }

    /// Marks, for every free variable of the tree, the slot of its
    /// letter.
    fn vars(e: &Expr, present: &mut Vec<bool>)
        requires
            wf_expr(*e),
            old(present)@.len() == 26,
        ensures
            final(present)@.len() == 26,
            forall|i: int|
                0 <= i < 26 ==> final(present)@[i] == (old(present)@[i] || vars_of(*e).contains(
                    letter(i),
                )),
        decreases *e,
    {
        match e {
            Expr::Sole(s) => {
                let idx = letter_index(s.0);
                present.set(idx, true);
                proof {
                    assert(vars_of(*e).contains(letter(idx as int)));
                    assert forall|i: int| 0 <= i < 26 && i != idx implies !vars_of(*e).contains(
                        letter(i),
                    ) by {
                        assert(letter(i) as int != s.0 as int);
                    }
                }
            },
            Expr::Const(_) => {},
            Expr::UnOp(u) => {
                Self::vars(&*u.expr, present);
            },
            Expr::BinOp(b) => {
                Self::vars(&*b.lhs, present);
                Self::vars(&*b.rhs, present);
                proof {
                    assert forall|i: int| 0 <= i < 26 implies (vars_of(*e).contains(letter(i))
                        == (vars_of(*b.lhs).contains(letter(i)) || vars_of(*b.rhs).contains(
                        letter(i),
                    ))) by {}
                }
            },
        }
    }

    /// Builds the bit-position table for the free variables of a tree:
    /// positions are assigned in ascending letter order.
    fn new(e: &Expr) -> (env: VarEnv)
        requires
            wf_expr(*e),
        ensures
            env.wf(vars_of(*e)),
    {
        let ghost vars = vars_of(*e);
        let mut present: Vec<bool> = Vec::new();
        let mut j: usize = 0;
        while j < 26
            invariant
                j <= 26,
                present@.len() == j,
                forall|i: int| 0 <= i < j ==> !present@[i],
            decreases 26 - j,
        {
            present.push(false);
            j = j + 1;
        }
        Self::vars(e, &mut present);
        let mut assoc: Vec<usize> = Vec::new();
        let mut n: usize = 0;
        let mut i: usize = 0;
        while i < 26
            invariant
                i <= 26,
                assoc@.len() == i,
                n == rank(vars, i as int),
                present@.len() == 26,
                forall|k: int| 0 <= k < 26 ==> present@[k] == vars.contains(letter(k)),
                forall|k: int|
                    0 <= k < i ==> #[trigger] assoc@[k] == if vars.contains(letter(k)) {
                        rank(vars, k) as usize
                    } else {
                        26usize
                    },
            decreases 26 - i,
        {
            proof {
                lemma_rank_le(vars, i as int);
            }
            if present[i] {
                assoc.push(n);
                n = n + 1;
            } else {
                assoc.push(26);
            }
            i = i + 1;
        }
        proof {
            assert(lowercase_vars(vars)) by {
                lemma_vars_lowercase(*e);
            }
        }
        VarEnv { assoc, len: n }
    }
}

/// The free variables of a well-formed tree are lowercase letters.
proof fn lemma_vars_lowercase(e: Expr)
    requires
        wf_expr(e),
    ensures
        lowercase_vars(vars_of(e)),
    decreases e,
{
    match e {
        Expr::Sole(_) => {},
        Expr::Const(_) => {},
        Expr::UnOp(u) => {
            lemma_vars_lowercase(*u.expr);
        },
        Expr::BinOp(b) => {
            lemma_vars_lowercase(*b.lhs);
            lemma_vars_lowercase(*b.rhs);
        },
    }
}

impl<'a> VarEnvMap<'a> {
    /// Pairs the table with one bit vector.
    fn new(assoc: &'a Vec<usize>, bit: usize) -> (m: Self)
        ensures
            m.assoc == assoc,
            m.bit == bit,
    {
        VarEnvMap { assoc, bit }
    }

    /// The truth value of variable `c` under this assignment.
    fn get(&self, c: char, Ghost(vars): Ghost<Set<char>>) -> (r: bool)
        requires
            assoc_ok(self.assoc@, vars),
            vars.contains(c),
        ensures
            r == assign_map(vars, self.bit as nat)[c],
    {
        let idx = letter_index(c);
        proof {
            assert(letter(idx as int) == c);
            lemma_rank_le(vars, idx as int);
        }
        let p = pow2_exec(self.assoc[idx]);
        proof {
            lemma_pow2_pos(self.assoc@[idx as int] as nat);
        }
        (self.bit / p) % 2 == 1
    }

    /// The assignment spelled out: every free variable with its truth
    /// value, in ascending letter order.
    fn to_bit_pairs(&self, Ghost(vars): Ghost<Set<char>>) -> (r: BitPairs)
        requires
            assoc_ok(self.assoc@, vars),
        ensures
            r@ == witness_of(vars, self.bit as nat),
    {
        let mut out: Vec<(char, bool)> = Vec::new();
        let mut i: usize = 0;
        while i < 26
            invariant
                i <= 26,
                assoc_ok(self.assoc@, vars),
                out@ == witness_upto(vars, self.bit as nat, i as int),
            decreases 26 - i,
        {
            proof {
                lemma_rank_le(vars, i as int);
            }
            let a = self.assoc[i];
            if a != 26 {
                let ch = letter_exec(i);
                let p = pow2_exec(a);
                proof {
                    lemma_pow2_pos(a as nat);
                }
                let b = (self.bit / p) % 2 == 1;
                out.push((ch, b));
            }
            i = i + 1;
        }
        out
    }
}

/// Material implication: false exactly when the antecedent holds and
/// the consequent does not.
fn imp(lhs: bool, rhs: bool) -> (r: bool)
    ensures
        r == (!lhs || rhs),
{
    !lhs || rhs
}

/// Evaluates the tree under one assignment.  Both operands of a binary
/// connective are always evaluated; nothing short-circuits below the
/// level of whole assignments.
fn evaluate(e: &Expr, env: &VarEnvMap<'_>, Ghost(vars): Ghost<Set<char>>) -> (r: bool)
    requires
        wf_expr(*e),
        assoc_ok(env.assoc@, vars),
        vars_of(*e).subset_of(vars),
    ensures
        r == sem(*e, assign_map(vars, env.bit as nat)),
    decreases *e,
{
    match e {
        Expr::Sole(s) => {
            proof {
                assert(vars_of(*e).contains(s.0));
            }
            env.get(s.0, Ghost(vars))
        },
        Expr::Const(b) => *b,
        Expr::UnOp(u) => {
            proof {
                assert(vars_of(*u.expr) =~= vars_of(*e));
            }
            !evaluate(&*u.expr, env, Ghost(vars))
        },
        Expr::BinOp(b) => {
            proof {
                assert forall|c: char| vars_of(*b.lhs).contains(c) implies vars.contains(c) by {
                    assert(vars_of(*e).contains(c));
                }
                assert forall|c: char| vars_of(*b.rhs).contains(c) implies vars.contains(c) by {
                    assert(vars_of(*e).contains(c));
                }
            }
            let l = evaluate(&*b.lhs, env, Ghost(vars));
            let r = evaluate(&*b.rhs, env, Ghost(vars));
            match b.op {
                BinOp::And => l && r,
                BinOp::Or => l || r,
                BinOp::Imp => imp(l, r),
            }
        },
    }
}

/// Decides whether the formula is a tautology by walking every
/// assignment in ascending numeric order.
///
/// `Tautology` also carries over to arbitrary assignments: every map
/// whose domain is exactly the free-variable set satisfies the
/// formula, since each such map is denoted by some integer below
/// `2^n` (see [`lemma_assignments_complete`]).
pub fn eval(parser: &Parser) -> (r: EvalResult)
    requires
        wf_expr(parser.0),
    ensures
        eval_post(parser.0, r),
        r matches EvalResult::Tautology ==> forall|m: Map<char, bool>|
            #![trigger sem(parser.0, m)]
            m.dom() == vars_of(parser.0) ==> sem(parser.0, m),
{
    let ghost vars = vars_of(parser.0);
    proof {
        lemma_vars_lowercase(parser.0);
    }
    let env = VarEnv::new(&parser.0);
    proof {
        lemma_rank_le(vars, 26);
    }
    let total = pow2_exec(env.len);
    let mut i: usize = 0;
    while i < total
        invariant
            wf_expr(parser.0),
            vars == vars_of(parser.0),
            env.wf(vars),
            total == pow2(nvars(vars)),
            i <= total,
            forall|j: nat| j < i ==> sem(parser.0, #[trigger] assign_map(vars, j)),
        decreases total - i,
    {
        let map = VarEnvMap::new(&env.assoc, i);
        proof {
            assert(vars_of(parser.0).subset_of(vars));
        }
        if !evaluate(&parser.0, &map, Ghost(vars)) {
            let w = map.to_bit_pairs(Ghost(vars));
            proof {
                assert((i as nat) < pow2(nvars(vars)) && !sem(
                    parser.0,
                    assign_map(vars, i as nat),
                ) && (forall|j: nat| j < i as nat ==> sem(parser.0, #[trigger] assign_map(vars, j)))
                    && w@ == witness_of(vars, i as nat));
            }
            return EvalResult::NotTautology(w);
        }
        i = i + 1;
    }
    proof {
        assert forall|m: Map<char, bool>| m.dom() == vars_of(parser.0) implies sem(
            parser.0,
            m,
        ) by {
            lemma_assignments_complete(vars, m);
            let k = choose|k: nat| k < pow2(nvars(vars)) && assign_map(vars, k) == m;
            assert(sem(parser.0, assign_map(vars, k)));
        }
    }
    EvalResult::Tautology
}

/// The integer that denotes the restriction of `m` to the first `i`
/// letters: the sum, over those of them in `vars` that `m` maps to
/// true, of two to the power of their rank.
pub open spec fn encode_upto(vars: Set<char>, m: Map<char, bool>, i: int) -> nat
    decreases i,
{
    if i <= 0 {
        0
    } else if vars.contains(letter(i - 1)) && m[letter(i - 1)] {
        encode_upto(vars, m, i - 1) + pow2(rank(vars, i - 1))
    } else {
        encode_upto(vars, m, i - 1)
    }
}

/// The encoding stays below two to the power of the rank, and its bit
/// at the rank of each letter seen so far is that letter's value.
proof fn lemma_encode(vars: Set<char>, m: Map<char, bool>, i: int)
    requires
        0 <= i <= 26,
    ensures
        encode_upto(vars, m, i) < pow2(rank(vars, i)),
        forall|j: int|
            0 <= j < i && vars.contains(letter(j)) ==> bit_at(
                encode_upto(vars, m, i),
                #[trigger] rank(vars, j),
            ) == m[letter(j)],
    decreases i,
{
    lemma_pow2_pos(rank(vars, i));
    if i > 0 {
        lemma_encode(vars, m, i - 1);
        let e0 = encode_upto(vars, m, i - 1);
        let e1 = encode_upto(vars, m, i);
        let r = rank(vars, i - 1);
        lemma_pow2_pos(r);
        if vars.contains(letter(i - 1)) {
            assert(rank(vars, i) == r + 1);
            lemma_pow2_unfold(r + 1);
            if m[letter(i - 1)] {
                assert(e1 == e0 + pow2(r));
                // the fresh bit reads true
                lemma_hoist_over_denominator(e0 as int, 1, pow2(r));
                lemma_basic_div(e0 as int, pow2(r) as int);
                assert(e1 as int / pow2(r) as int == 1);
                assert(bit_at(e1, r) == true);
            } else {
                assert(e1 == e0);
                lemma_basic_div(e0 as int, pow2(r) as int);
                assert(bit_at(e1, r) == false);
            }
            // bits of letters already placed are untouched
            assert forall|j: int| 0 <= j < i - 1 && vars.contains(letter(j)) implies bit_at(
                e1,
                #[trigger] rank(vars, j),
            ) == m[letter(j)] by {
                let rj = rank(vars, j);
                lemma_rank_mono(vars, j, i - 1);
                assert(rj < r);
                if m[letter(i - 1)] {
                    lemma_pow2_pos(rj);
                    lemma_pow2_adds(rj, (r - rj) as nat);
                    let pj = pow2(rj) as int;
                    let ph = pow2((r - rj) as nat) as int;
                    assert(pow2(r) == pj * ph);
                    assert(pj * ph == ph * pj) by (nonlinear_arith);
                    assert(e1 as int == e0 as int + ph * pj);
                    lemma_hoist_over_denominator(e0 as int, ph, pow2(rj));
                    assert(e1 as int / pj == e0 as int / pj + ph);
                    lemma_pow2_unfold((r - rj) as nat);
                    assert(ph == 2 * pow2((r - rj - 1) as nat));
                    lemma_mod_multiples_vanish(
                        pow2((r - rj - 1) as nat) as int,
                        e0 as int / pj,
                        2,
                    );
                    assert((e0 as int / pj + ph) % 2 == (e0 as int / pj) % 2);
                }
            }
        } else {
            assert(rank(vars, i) == r);
            assert(e1 == e0);
        }
    }
}

/// Exhaustiveness: every assignment of truth values to the variables
/// is denoted by some integer below two to the power of their number,
/// so none escapes the evaluator's walk.
pub proof fn lemma_assignments_complete(vars: Set<char>, m: Map<char, bool>)
    requires
        lowercase_vars(vars),
        m.dom() == vars,
    ensures
        exists|k: nat| k < pow2(nvars(vars)) && #[trigger] assign_map(vars, k) == m,
{
    let k = encode_upto(vars, m, 26);
    lemma_encode(vars, m, 26);
    assert(assign_map(vars, k) =~= m) by {
        assert forall|c: char| vars.contains(c) implies #[trigger] assign_map(vars, k)[c]
            == m[c] by {
            let j = c as int - 97;
            assert(letter(j) == c);
            assert(bit_at(k, rank(vars, j)) == m[letter(j)]);
        }
    }
    assert(k < pow2(nvars(vars)) && assign_map(vars, k) == m);
}

/// Distinct free variables hold distinct bit positions.
pub proof fn lemma_rank_injective(vars: Set<char>, c1: char, c2: char)
    requires
        lowercase_vars(vars),
        vars.contains(c1),
        vars.contains(c2),
        c1 != c2,
    ensures
        rank(vars, c1 as int - 97) != rank(vars, c2 as int - 97),
{
    let i1 = c1 as int - 97;
    let i2 = c2 as int - 97;
    assert(letter(i1) == c1);
    assert(letter(i2) == c2);
    if i1 < i2 {
        lemma_rank_mono(vars, i1, i2);
    } else {
        lemma_rank_mono(vars, i2, i1);
    }
}

/// Every free variable's bit position lies below the variable count.
pub proof fn lemma_rank_in_range(vars: Set<char>, c: char)
    requires
        lowercase_vars(vars),
        vars.contains(c),
    ensures
        rank(vars, c as int - 97) < nvars(vars),
{
    let i = c as int - 97;
    assert(letter(i) == c);
    lemma_rank_mono(vars, i, 26);
}

/// Below the variable count, every bit position is some free
/// variable's: together with the two lemmas above, the positions form
/// a bijection between the free variables and `[0, n)`, with no
/// duplicates and no gaps.
pub proof fn lemma_rank_onto(vars: Set<char>, k: nat)
    requires
        lowercase_vars(vars),
        k < nvars(vars),
    ensures
        exists|c: char| #[trigger] vars.contains(c) && rank(vars, c as int - 97) == k,
{
    lemma_rank_onto_helper(vars, 26, k);
    let j = choose|j: int|
        0 <= j < 26 && #[trigger] vars.contains(letter(j)) && rank(vars, j) == k;
    let c = letter(j);
    assert(c as int - 97 == j);
    assert(vars.contains(c) && rank(vars, c as int - 97) == k);
}

/// Any position below the rank of `i` is held by a letter before `i`.
proof fn lemma_rank_onto_helper(vars: Set<char>, i: int, k: nat)
    requires
        0 <= i <= 26,
        k < rank(vars, i),
    ensures
        exists|j: int| 0 <= j < i && #[trigger] vars.contains(letter(j)) && rank(vars, j) == k,
    decreases i,
{
    if i > 0 {
        if vars.contains(letter(i - 1)) && k == rank(vars, i - 1) {
            assert(0 <= i - 1 < i && vars.contains(letter(i - 1)) && rank(vars, i - 1) == k);
        } else {
            lemma_rank_onto_helper(vars, i - 1, k);
            let j = choose|j: int|
                0 <= j < i - 1 && #[trigger] vars.contains(letter(j)) && rank(vars, j) == k;
            assert(0 <= j < i && vars.contains(letter(j)) && rank(vars, j) == k);
        }
    }
}

/// Each witness entry, position by position: the `k`-th pair names the
/// variable whose bit position is `k` and carries exactly that
/// variable's truth value under the assignment, and the variables
/// appear in ascending letter order with no omission and no repeat.
pub proof fn lemma_witness_spells_assignment(vars: Set<char>, m: nat)
    ensures
        witness_of(vars, m).len() == nvars(vars),
        forall|k: int|
            0 <= k < nvars(vars) ==> {
                let (c, b) = #[trigger] witness_of(vars, m)[k];
                &&& vars.contains(c)
                &&& rank(vars, c as int - 97) == k
                &&& b == assign_map(vars, m)[c]
            },
        forall|k1: int, k2: int|
            0 <= k1 < k2 < nvars(vars) ==> (#[trigger] witness_of(vars, m)[k1]).0
                < (#[trigger] witness_of(vars, m)[k2]).0,
{
    lemma_witness_upto_props(vars, m, 26);
    assert forall|k: int| 0 <= k < nvars(vars) implies {
        let (c, b) = #[trigger] witness_of(vars, m)[k];
        &&& vars.contains(c)
        &&& rank(vars, c as int - 97) == k
        &&& b == assign_map(vars, m)[c]
    } by {
        let (c, b) = witness_of(vars, m)[k];
        assert(vars.contains(c));
        assert(assign_map(vars, m)[c] == bit_at(m, rank(vars, c as int - 97)));
    }
    assert forall|k1: int, k2: int| 0 <= k1 < k2 < nvars(vars) implies (
    #[trigger] witness_of(vars, m)[k1]).0 < (#[trigger] witness_of(vars, m)[k2]).0 by {
        let (c1, _b1) = witness_of(vars, m)[k1];
        let (c2, _b2) = witness_of(vars, m)[k2];
        let i1 = c1 as int - 97;
        let i2 = c2 as int - 97;
        if i2 < i1 {
            assert(letter(i2) == c2);
            lemma_rank_mono(vars, i2, i1);
        }
        if i1 == i2 {
            assert(c1 == c2);
        }
    }
}

/// The witness pairs over the first `i` letters, entry by entry.
proof fn lemma_witness_upto_props(vars: Set<char>, m: nat, i: int)
    requires
        0 <= i <= 26,
    ensures
        witness_upto(vars, m, i).len() == rank(vars, i),
        forall|k: int|
            0 <= k < rank(vars, i) ==> {
                let (c, b) = #[trigger] witness_upto(vars, m, i)[k];
                &&& vars.contains(c)
                &&& c as int - 97 < i
                &&& rank(vars, c as int - 97) == k
                &&& b == bit_at(m, k as nat)
            },
    decreases i,
{
    if i > 0 {
        lemma_witness_upto_props(vars, m, i - 1);
        if vars.contains(letter(i - 1)) {
            let prev = witness_upto(vars, m, i - 1);
            let r = rank(vars, i - 1);
            assert(witness_upto(vars, m, i) == prev.push(
                (letter(i - 1), bit_at(m, r)),
            ));
            assert(letter(i - 1) as int - 97 == i - 1);
        }
    }
}

/// Determinism of the first counterexample: any two results that meet
/// the evaluator's contract for the same tree agree, both on whether
/// the formula is a tautology and on the witness spelled out.
pub proof fn lemma_eval_deterministic(e: Expr, r1: EvalResult, r2: EvalResult)
    requires
        eval_post(e, r1),
        eval_post(e, r2),
    ensures
        (r1 matches EvalResult::Tautology) <==> (r2 matches EvalResult::Tautology),
        (r1, r2) matches (EvalResult::NotTautology(w1), EvalResult::NotTautology(w2)) ==> w1@
            == w2@,
{
    let vars = vars_of(e);
    match (r1, r2) {
        (EvalResult::Tautology, EvalResult::NotTautology(_)) => {
            let m = choose|m: nat|
                m < pow2(nvars(vars)) && !sem(e, #[trigger] assign_map(vars, m)) && (forall|j: nat|
                    j < m ==> sem(e, #[trigger] assign_map(vars, j)));
            assert(sem(e, assign_map(vars, m)));
        },
        (EvalResult::NotTautology(_), EvalResult::Tautology) => {
            let m = choose|m: nat|
                m < pow2(nvars(vars)) && !sem(e, #[trigger] assign_map(vars, m)) && (forall|j: nat|
                    j < m ==> sem(e, #[trigger] assign_map(vars, j)));
            assert(sem(e, assign_map(vars, m)));
        },
        (EvalResult::NotTautology(w1), EvalResult::NotTautology(w2)) => {
            let m1 = choose|m: nat|
                {
                    &&& m < pow2(nvars(vars))
                    &&& !sem(e, #[trigger] assign_map(vars, m))
                    &&& forall|j: nat| j < m ==> sem(e, #[trigger] assign_map(vars, j))
                    &&& w1@ == witness_of(vars, m)
                };
            let m2 = choose|m: nat|
                {
                    &&& m < pow2(nvars(vars))
                    &&& !sem(e, #[trigger] assign_map(vars, m))
                    &&& forall|j: nat| j < m ==> sem(e, #[trigger] assign_map(vars, j))
                    &&& w2@ == witness_of(vars, m)
                };
            if m1 < m2 {
                assert(sem(e, assign_map(vars, m1)));
            }
            if m2 < m1 {
                assert(sem(e, assign_map(vars, m2)));
            }
            assert(m1 == m2);
        },
        _ => {},
    }
}

} // verus!
