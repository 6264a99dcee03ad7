//! The combinatorial valency search: enumerate, in a fixed order, every way
//! of drawing one permitted valency per block, and find the first draw whose
//! weighted sum hits a target charge.

use vstd::prelude::*;

use crate::element::element_wf;
use crate::substance::{BlockModel, SubstanceBlock, blocks_wf, charges_sorted, with_state};

verus! {

/// The weighted sum of a draw: each chosen valency times its block's
/// stoichiometric index.
pub open spec fn choice_sum(blocks: Seq<BlockModel>, vals: Seq<int>) -> int
    decreases blocks.len(),
{
    if blocks.len() == 0 || vals.len() == 0 {
        0
    } else {
        vals[0] * blocks[0].index + choice_sum(blocks.drop_first(), vals.drop_first())
    }
}

/// One permitted valency has been drawn for every block.
pub open spec fn valid_choice(blocks: Seq<BlockModel>, vals: Seq<int>) -> bool {
    &&& vals.len() == blocks.len()
    &&& forall|i: int|
        0 <= i < blocks.len() ==> #[trigger] blocks[i].element.valencies.contains(vals[i])
}

/// The first draw (in enumeration order) for the blocks from position `i`
/// on whose weighted sum, added to `acc`, reaches `target`.  Draws are
/// ordered lexicographically by valency-list position, earlier blocks most
/// significant.
pub open spec fn first_solution(blocks: Seq<BlockModel>, i: int, acc: int, target: int) -> Option<
    Seq<int>,
>
    decreases blocks.len() - i + 1, 0int,
{
    if i < 0 || i > blocks.len() {
        None
    } else if i == blocks.len() {
        if acc == target {
            Some(Seq::empty())
        } else {
            None
        }
    } else {
        first_solution_from(blocks, i, 0, acc, target)
    }
}

/// As [`first_solution`], but drawing for block `i` only valencies at
/// position `k` or later of its list.
pub open spec fn first_solution_from(
    blocks: Seq<BlockModel>,
    i: int,
    k: int,
    acc: int,
    target: int,
) -> Option<Seq<int>>
    decreases blocks.len() - i, blocks[i].element.valencies.len() - k,
{
    if i < 0 || i >= blocks.len() || k < 0 || k >= blocks[i].element.valencies.len() {
        None
    } else {
        let v = blocks[i].element.valencies[k];
        match first_solution(blocks, i + 1, acc + v * blocks[i].index, target) {
            Some(rest) => Some(seq![v] + rest),
            None => first_solution_from(blocks, i, k + 1, acc, target),
        }
    }
}

/// The first complete draw whose weighted sum, added to `start`, reaches
/// `target`.
pub open spec fn find_assignment(blocks: Seq<BlockModel>, start: int, target: int) -> Option<
    Seq<int>,
> {
    first_solution(blocks, 0, start, target)
}

/// A found draw is a valid draw, and its weighted sum reaches the target.
pub proof fn lemma_first_solution_sound(blocks: Seq<BlockModel>, i: int, acc: int, target: int)
    requires
        0 <= i <= blocks.len(),
        first_solution(blocks, i, acc, target) is Some,
    ensures
        valid_choice(
            blocks.subrange(i, blocks.len() as int),
            first_solution(blocks, i, acc, target)->Some_0,
        ),
        acc + choice_sum(
            blocks.subrange(i, blocks.len() as int),
            first_solution(blocks, i, acc, target)->Some_0,
        ) == target,
    decreases blocks.len() - i + 1, 0int,
{
    if i == blocks.len() {
        assert(blocks.subrange(i, blocks.len() as int) =~= Seq::<BlockModel>::empty());
    } else {
        lemma_first_solution_from_sound(blocks, i, 0, acc, target);
    }
}

pub proof fn lemma_first_solution_from_sound(
    blocks: Seq<BlockModel>,
    i: int,
    k: int,
    acc: int,
    target: int,
)
    requires
        0 <= i < blocks.len(),
        0 <= k,
        first_solution_from(blocks, i, k, acc, target) is Some,
    ensures
        valid_choice(
            blocks.subrange(i, blocks.len() as int),
            first_solution_from(blocks, i, k, acc, target)->Some_0,
        ),
        acc + choice_sum(
            blocks.subrange(i, blocks.len() as int),
            first_solution_from(blocks, i, k, acc, target)->Some_0,
        ) == target,
    decreases blocks.len() - i, blocks[i].element.valencies.len() - k,
{
    let v = blocks[i].element.valencies[k];
    let tail = first_solution(blocks, i + 1, acc + v * blocks[i].index, target);
    if tail is Some {
        let rest = tail->Some_0;
        let vals = seq![v] + rest;
        lemma_first_solution_sound(blocks, i + 1, acc + v * blocks[i].index, target);
        let sub = blocks.subrange(i, blocks.len() as int);
        let sub1 = blocks.subrange(i + 1, blocks.len() as int);
        assert(sub.drop_first() =~= sub1);
        assert(vals.drop_first() =~= rest);
        assert(sub[0] == blocks[i]);
        assert(vals[0] == v);
        assert(blocks[i].element.valencies.contains(v)) by {
            assert(blocks[i].element.valencies[k] == v);
        }
        assert(valid_choice(sub, vals)) by {
            assert(forall|t: int|
                1 <= t < sub.len() ==> #[trigger] sub[t] == sub1[t - 1] && vals[t] == rest[t - 1]);
        }
        assert(choice_sum(sub, vals) == v * blocks[i].index + choice_sum(sub1, rest));
    } else {
        lemma_first_solution_from_sound(blocks, i, k + 1, acc, target);
    }
}

/// When no draw is found, none exists: every valid draw misses the target.
pub proof fn lemma_first_solution_complete(blocks: Seq<BlockModel>, i: int, acc: int, target: int)
    requires
        0 <= i <= blocks.len(),
        first_solution(blocks, i, acc, target) is None,
    ensures
        forall|vals: Seq<int>|
            valid_choice(blocks.subrange(i, blocks.len() as int), vals) ==> acc + choice_sum(
                blocks.subrange(i, blocks.len() as int),
                vals,
            ) != target,
    decreases blocks.len() - i + 1, 0int,
{
    let sub = blocks.subrange(i, blocks.len() as int);
    if i == blocks.len() {
        assert forall|vals: Seq<int>| valid_choice(sub, vals) implies acc + choice_sum(sub, vals)
            != target by {
            assert(vals.len() == 0);
            assert(choice_sum(sub, vals) == 0);
        }
    } else {
        assert forall|vals: Seq<int>| valid_choice(sub, vals) implies acc + choice_sum(sub, vals)
            != target by {
            assert(blocks[i].element.valencies.contains(vals[0])) by {
                assert(sub[0] == blocks[i]);
            }
            let t = choose|t: int|
                0 <= t < blocks[i].element.valencies.len() && blocks[i].element.valencies[t]
                    == vals[0];
            lemma_first_solution_from_complete(blocks, i, 0, acc, target, vals, t);
        }
    }
}

/// When the search over valency positions `k` and later finds nothing, no
/// valid draw whose first valency sits at such a position reaches the target.
proof fn lemma_first_solution_from_complete(
    blocks: Seq<BlockModel>,
    i: int,
    k: int,
    acc: int,
    target: int,
    vals: Seq<int>,
    t: int,
)
    requires
        0 <= i < blocks.len(),
        0 <= k <= t < blocks[i].element.valencies.len(),
        first_solution_from(blocks, i, k, acc, target) is None,
        valid_choice(blocks.subrange(i, blocks.len() as int), vals),
        vals[0] == blocks[i].element.valencies[t],
    ensures
        acc + choice_sum(blocks.subrange(i, blocks.len() as int), vals) != target,
    decreases blocks.len() - i, blocks[i].element.valencies.len() - k,
{
    let sub = blocks.subrange(i, blocks.len() as int);
    let sub1 = blocks.subrange(i + 1, blocks.len() as int);
    assert(sub.drop_first() =~= sub1);
    assert(sub[0] == blocks[i]);
    let v = blocks[i].element.valencies[k];
    assert(first_solution(blocks, i + 1, acc + v * blocks[i].index, target) is None);
    if vals[0] == v {
        lemma_first_solution_complete(blocks, i + 1, acc + v * blocks[i].index, target);
        let rest = vals.drop_first();
        assert(valid_choice(sub1, rest)) by {
            assert(forall|q: int|
                0 <= q < sub1.len() ==> #[trigger] sub1[q] == sub[q + 1] && rest[q] == vals[q + 1]);
        }
        assert(acc + v * blocks[i].index + choice_sum(sub1, rest) != target);
        assert(choice_sum(sub, vals) == vals[0] * sub[0].index + choice_sum(sub1, rest));
    } else {
        assert(t > k);
        lemma_first_solution_from_complete(blocks, i, k + 1, acc, target, vals, t);
    }
}

/// `s[j]` sits at least `j` above the first charge when charges strictly
/// ascend.
proof fn lemma_sorted_charge_growth(s: Seq<BlockModel>, j: int)
    requires
        charges_sorted(s),
        0 <= j < s.len(),
    ensures
        s[j].element.charge >= s[0].element.charge + j,
    decreases j,
{
    if j > 0 {
        lemma_sorted_charge_growth(s, j - 1);
        assert(s[j - 1].element.charge < s[j].element.charge);
    }
}

/// Strictly ascending charges below 2^16 bound how many blocks there are.
pub proof fn lemma_sorted_len(s: Seq<BlockModel>)
    requires
        charges_sorted(s),
        blocks_wf(s),
    ensures
        s.len() <= u16::MAX,
{
    if s.len() > u16::MAX {
        lemma_sorted_charge_growth(s, u16::MAX as int);
        assert(s[u16::MAX as int].element.charge >= 1 + u16::MAX);
        assert(element_wf(s[u16::MAX as int].element));
    }
}

/// The valency sequence a vector of drawn valencies stands for.
pub open spec fn vals_view(v: Seq<u8>) -> Seq<int> {
    v.map(|i: int, x: u8| x as int)
}

/// The executable search: the first draw of permitted valencies for the
/// blocks from position `i` on that brings `acc` to `target`, exactly as
/// [`first_solution`] defines it.
fn search_rec(blocks: &Vec<SubstanceBlock>, i: usize, acc: i64, target: i64) -> (r: Option<Vec<u8>>)
    requires
        blocks_wf(blocks.deep_view()),
        blocks.deep_view().len() <= u16::MAX,
        i <= blocks.deep_view().len(),
        -400_000_000 + 4590 * (blocks.deep_view().len() - i) <= acc <= 400_000_000 - 4590 * (
        blocks.deep_view().len() - i),
        -400_000_000 <= target <= 400_000_000,
    ensures
        match r {
            Some(v) => first_solution(blocks.deep_view(), i as int, acc as int, target as int)
                == Some(vals_view(v@)),
            None => first_solution(blocks.deep_view(), i as int, acc as int, target as int)
                is None,
        },
    decreases blocks.deep_view().len() - i,
{
    let ghost bs = blocks.deep_view();
    let n = blocks.len();
    proof {
        assert(bs.len() == n);
    }
    if i == n {
        if acc == target {
            let out: Vec<u8> = Vec::new();
            proof {
                assert(vals_view(out@) =~= Seq::<int>::empty());
            }
            return Some(out);
        } else {
            return None;
        }
    }
    let vlen = blocks[i].element.valencies.len();
    let mut k: usize = 0;
    while k < vlen
        invariant
            blocks_wf(bs),
            bs == blocks.deep_view(),
            bs.len() == n <= u16::MAX,
            i < n,
            vlen == bs[i as int].element.valencies.len(),
            k <= vlen,
            -400_000_000 + 4590 * (n - i) <= acc <= 400_000_000 - 4590 * (n - i),
            -400_000_000 <= target <= 400_000_000,
            first_solution_from(bs, i as int, 0, acc as int, target as int) == first_solution_from(
                bs,
                i as int,
                k as int,
                acc as int,
                target as int,
            ),
        decreases vlen - k,
    {
        let v = blocks[i].element.valencies[k];
        let idx = blocks[i].index;
        proof {
            assert(bs[i as int].element.valencies[k as int] == v as int);
            assert(element_wf(bs[i as int].element));
            assert(0 <= v as int <= 18);
            assert(idx as int == bs[i as int].index);
            assert(1 <= idx as int <= 255);
            assert(0 <= (v as int) * (idx as int) && (v as int) * (idx as int) <= 4590)
                by (nonlinear_arith)
                requires
                    0 <= v as int <= 18,
                    1 <= idx as int <= 255,
            ;
        }
        let step: i64 = (v as i64) * (idx as i64);
        let acc2: i64 = acc + step;
        let tail = search_rec(blocks, i + 1, acc2, target);
        match tail {
            Some(rest) => {
                let mut out: Vec<u8> = Vec::new();
                out.push(v);
                let mut rest = rest;
                out.append(&mut rest);
                proof {
                    let spec_tail = first_solution(bs, i as int + 1, acc2 as int, target as int);
                    assert(vals_view(out@) =~= seq![v as int] + spec_tail->Some_0);
                    assert(first_solution_from(bs, i as int, k as int, acc as int, target as int)
                        == Some(vals_view(out@)));
                }
                return Some(out);
            },
            None => {
                proof {
                    assert(first_solution_from(bs, i as int, k as int, acc as int, target as int)
                        == first_solution_from(bs, i as int, k as int + 1, acc as int, target as int));
                }
            },
        }
        k = k + 1;
    }
    proof {
        assert(first_solution_from(bs, i as int, k as int, acc as int, target as int) is None);
    }
    None
}

/// The first complete draw of permitted valencies whose weighted sum brings
/// `start` to `target`; `None` when no draw does.
pub fn search_assignment(blocks: &Vec<SubstanceBlock>, start: i64, target: i64) -> (r: Option<
    Vec<u8>,
>)
    requires
        blocks_wf(blocks.deep_view()),
        charges_sorted(blocks.deep_view()),
        -99_000_000 <= start <= 99_000_000,
        -400_000_000 <= target <= 400_000_000,
    ensures
        match r {
            Some(v) => find_assignment(blocks.deep_view(), start as int, target as int) == Some(
                vals_view(v@),
            ),
            None => find_assignment(blocks.deep_view(), start as int, target as int) is None,
        },
{
    proof {
        lemma_sorted_len(blocks.deep_view());
        assert(4590 * blocks.deep_view().len() <= 4590 * 65535) by (nonlinear_arith)
            requires
                blocks.deep_view().len() <= 65535,
        ;
    }
    search_rec(blocks, 0, start, target)
}

/// The first pair of draws, cation side major, whose weighted sums cancel:
/// the cation draw runs from block `i` on, and for each candidate the
/// anion side is searched for an exactly opposing sum.
pub open spec fn match_at(
    mes: Seq<BlockModel>,
    i: int,
    acc: int,
    ants: Seq<BlockModel>,
    res_start: int,
) -> Option<(Seq<int>, Seq<int>)>
    decreases mes.len() - i + 1, 0int,
{
    if i < 0 || i > mes.len() {
        None
    } else if i == mes.len() {
        match find_assignment(ants, res_start, -acc) {
            Some(a) => Some((Seq::empty(), a)),
            None => None,
        }
    } else {
        match_from(mes, i, 0, acc, ants, res_start)
    }
}

/// As [`match_at`], drawing for cation block `i` only valencies at
/// position `k` or later.
pub open spec fn match_from(
    mes: Seq<BlockModel>,
    i: int,
    k: int,
    acc: int,
    ants: Seq<BlockModel>,
    res_start: int,
) -> Option<(Seq<int>, Seq<int>)>
    decreases mes.len() - i, mes[i].element.valencies.len() - k,
{
    if i < 0 || i >= mes.len() || k < 0 || k >= mes[i].element.valencies.len() {
        None
    } else {
        let v = mes[i].element.valencies[k];
        match match_at(mes, i + 1, acc + v * mes[i].index, ants, res_start) {
            Some(pair) => Some((seq![v] + pair.0, pair.1)),
            None => match_from(mes, i, k + 1, acc, ants, res_start),
        }
    }
}

/// The first balanced pair of draws for the two sides.
pub open spec fn find_match(
    mes: Seq<BlockModel>,
    me_start: int,
    ants: Seq<BlockModel>,
    res_start: int,
) -> Option<(Seq<int>, Seq<int>)> {
    match_at(mes, 0, me_start, ants, res_start)
}

/// A found pair is a pair of valid draws whose two side sums cancel.
pub proof fn lemma_match_at_sound(
    mes: Seq<BlockModel>,
    i: int,
    acc: int,
    ants: Seq<BlockModel>,
    res_start: int,
)
    requires
        0 <= i <= mes.len(),
        match_at(mes, i, acc, ants, res_start) is Some,
    ensures
        ({
            let pair = match_at(mes, i, acc, ants, res_start)->Some_0;
            &&& valid_choice(mes.subrange(i, mes.len() as int), pair.0)
            &&& valid_choice(ants, pair.1)
            &&& (acc + choice_sum(mes.subrange(i, mes.len() as int), pair.0)) + (res_start
                + choice_sum(ants, pair.1)) == 0
        }),
    decreases mes.len() - i + 1, 0int,
{
    if i == mes.len() {
        let a = find_assignment(ants, res_start, -acc)->Some_0;
        lemma_first_solution_sound(ants, 0, res_start, -acc);
        assert(ants.subrange(0, ants.len() as int) =~= ants);
        assert(mes.subrange(i, mes.len() as int) =~= Seq::<BlockModel>::empty());
    } else {
        lemma_match_from_sound(mes, i, 0, acc, ants, res_start);
    }
}

pub proof fn lemma_match_from_sound(
    mes: Seq<BlockModel>,
    i: int,
    k: int,
    acc: int,
    ants: Seq<BlockModel>,
    res_start: int,
)
    requires
        0 <= i < mes.len(),
        0 <= k,
        match_from(mes, i, k, acc, ants, res_start) is Some,
    ensures
        ({
            let pair = match_from(mes, i, k, acc, ants, res_start)->Some_0;
            &&& valid_choice(mes.subrange(i, mes.len() as int), pair.0)
            &&& valid_choice(ants, pair.1)
            &&& (acc + choice_sum(mes.subrange(i, mes.len() as int), pair.0)) + (res_start
                + choice_sum(ants, pair.1)) == 0
        }),
    decreases mes.len() - i, mes[i].element.valencies.len() - k,
{
    let v = mes[i].element.valencies[k];
    let tail = match_at(mes, i + 1, acc + v * mes[i].index, ants, res_start);
    if tail is Some {
        let pair = tail->Some_0;
        let vals = seq![v] + pair.0;
        lemma_match_at_sound(mes, i + 1, acc + v * mes[i].index, ants, res_start);
        let sub = mes.subrange(i, mes.len() as int);
        let sub1 = mes.subrange(i + 1, mes.len() as int);
        assert(sub.drop_first() =~= sub1);
        assert(vals.drop_first() =~= pair.0);
        assert(sub[0] == mes[i]);
        assert(vals[0] == v);
        assert(mes[i].element.valencies.contains(v)) by {
            assert(mes[i].element.valencies[k] == v);
        }
        assert(valid_choice(sub, vals)) by {
            assert(forall|t: int|
                1 <= t < sub.len() ==> #[trigger] sub[t] == sub1[t - 1] && vals[t] == pair.0[t
                    - 1]);
        }
        assert(choice_sum(sub, vals) == v * mes[i].index + choice_sum(sub1, pair.0));
    } else {
        lemma_match_from_sound(mes, i, k + 1, acc, ants, res_start);
    }
}

/// When no pair is found, none exists: every pair of valid draws leaves a
/// net charge.
pub proof fn lemma_match_at_complete(
    mes: Seq<BlockModel>,
    i: int,
    acc: int,
    ants: Seq<BlockModel>,
    res_start: int,
)
    requires
        0 <= i <= mes.len(),
        match_at(mes, i, acc, ants, res_start) is None,
    ensures
        forall|m: Seq<int>, a: Seq<int>|
            valid_choice(mes.subrange(i, mes.len() as int), m) && valid_choice(ants, a) ==> (acc
                + choice_sum(mes.subrange(i, mes.len() as int), m)) + (res_start + choice_sum(
                ants,
                a,
            )) != 0,
    decreases mes.len() - i + 1, 0int,
{
    let sub = mes.subrange(i, mes.len() as int);
    if i == mes.len() {
        lemma_first_solution_complete(ants, 0, res_start, -acc);
        assert(ants.subrange(0, ants.len() as int) =~= ants);
        assert forall|m: Seq<int>, a: Seq<int>|
            valid_choice(sub, m) && valid_choice(ants, a) implies (acc + choice_sum(sub, m)) + (
        res_start + choice_sum(ants, a)) != 0 by {
            assert(m.len() == 0);
            assert(choice_sum(sub, m) == 0);
        }
    } else {
        assert forall|m: Seq<int>, a: Seq<int>|
            valid_choice(sub, m) && valid_choice(ants, a) implies (acc + choice_sum(sub, m)) + (
        res_start + choice_sum(ants, a)) != 0 by {
            assert(mes[i].element.valencies.contains(m[0])) by {
                assert(sub[0] == mes[i]);
            }
            let t = choose|t: int|
                0 <= t < mes[i].element.valencies.len() && mes[i].element.valencies[t] == m[0];
            lemma_match_from_complete(mes, i, 0, acc, ants, res_start, m, a, t);
        }
    }
}

proof fn lemma_match_from_complete(
    mes: Seq<BlockModel>,
    i: int,
    k: int,
    acc: int,
    ants: Seq<BlockModel>,
    res_start: int,
    m: Seq<int>,
    a: Seq<int>,
    t: int,
)
    requires
        0 <= i < mes.len(),
        0 <= k <= t < mes[i].element.valencies.len(),
        match_from(mes, i, k, acc, ants, res_start) is None,
        valid_choice(mes.subrange(i, mes.len() as int), m),
        valid_choice(ants, a),
        m[0] == mes[i].element.valencies[t],
    ensures
        (acc + choice_sum(mes.subrange(i, mes.len() as int), m)) + (res_start + choice_sum(
            ants,
            a,
        )) != 0,
    decreases mes.len() - i, mes[i].element.valencies.len() - k,
{
    let sub = mes.subrange(i, mes.len() as int);
    let sub1 = mes.subrange(i + 1, mes.len() as int);
    assert(sub.drop_first() =~= sub1);
    assert(sub[0] == mes[i]);
    let v = mes[i].element.valencies[k];
    assert(match_at(mes, i + 1, acc + v * mes[i].index, ants, res_start) is None);
    if m[0] == v {
        lemma_match_at_complete(mes, i + 1, acc + v * mes[i].index, ants, res_start);
        let rest = m.drop_first();
        assert(valid_choice(sub1, rest)) by {
            assert(forall|q: int|
                0 <= q < sub1.len() ==> #[trigger] sub1[q] == sub[q + 1] && rest[q] == m[q + 1]);
        }
        assert((acc + v * mes[i].index + choice_sum(sub1, rest)) + (res_start + choice_sum(ants, a))
            != 0);
        assert(choice_sum(sub, m) == m[0] * sub[0].index + choice_sum(sub1, rest));
    } else {
        assert(t > k);
        lemma_match_from_complete(mes, i, k + 1, acc, ants, res_start, m, a, t);
    }
}

/// The executable pair search for the cation blocks from position `i` on,
/// exactly as [`match_at`] defines it.
fn match_rec(
    mes: &Vec<SubstanceBlock>,
    i: usize,
    acc: i64,
    ants: &Vec<SubstanceBlock>,
    res_start: i64,
) -> (r: Option<(Vec<u8>, Vec<u8>)>)
    requires
        blocks_wf(mes.deep_view()),
        blocks_wf(ants.deep_view()),
        charges_sorted(ants.deep_view()),
        mes.deep_view().len() <= u16::MAX,
        i <= mes.deep_view().len(),
        -400_000_000 + 4590 * (mes.deep_view().len() - i) <= acc <= 400_000_000 - 4590 * (
        mes.deep_view().len() - i),
        -99_000_000 <= res_start <= 99_000_000,
    ensures
        match r {
            Some(pair) => match_at(
                mes.deep_view(),
                i as int,
                acc as int,
                ants.deep_view(),
                res_start as int,
            ) == Some((vals_view(pair.0@), vals_view(pair.1@))),
            None => match_at(
                mes.deep_view(),
                i as int,
                acc as int,
                ants.deep_view(),
                res_start as int,
            ) is None,
        },
    decreases mes.deep_view().len() - i,
{
    let ghost ms = mes.deep_view();
    let ghost asq = ants.deep_view();
    let n = mes.len();
    proof {
        assert(ms.len() == n);
    }
    if i == n {
        let inner = search_assignment(ants, res_start, -acc);
        match inner {
            Some(a) => {
                let out: Vec<u8> = Vec::new();
                proof {
                    assert(vals_view(out@) =~= Seq::<int>::empty());
                }
                return Some((out, a));
            },
            None => {
                return None;
            },
        }
    }
    let vlen = mes[i].element.valencies.len();
    let mut k: usize = 0;
    while k < vlen
        invariant
            blocks_wf(ms),
            blocks_wf(asq),
            charges_sorted(asq),
            ms == mes.deep_view(),
            asq == ants.deep_view(),
            ms.len() == n <= u16::MAX,
            i < n,
            vlen == ms[i as int].element.valencies.len(),
            k <= vlen,
            -400_000_000 + 4590 * (n - i) <= acc <= 400_000_000 - 4590 * (n - i),
            -99_000_000 <= res_start <= 99_000_000,
            match_from(ms, i as int, 0, acc as int, asq, res_start as int) == match_from(
                ms,
                i as int,
                k as int,
                acc as int,
                asq,
                res_start as int,
            ),
        decreases vlen - k,
    {
        let v = mes[i].element.valencies[k];
        let idx = mes[i].index;
        proof {
            assert(ms[i as int].element.valencies[k as int] == v as int);
            assert(element_wf(ms[i as int].element));
            assert(0 <= v as int <= 18);
            assert(idx as int == ms[i as int].index);
            assert(1 <= idx as int <= 255);
            assert(0 <= (v as int) * (idx as int) && (v as int) * (idx as int) <= 4590)
                by (nonlinear_arith)
                requires
                    0 <= v as int <= 18,
                    1 <= idx as int <= 255,
            ;
        }
        let step: i64 = (v as i64) * (idx as i64);
        let acc2: i64 = acc + step;
        let tail = match_rec(mes, i + 1, acc2, ants, res_start);
        match tail {
            Some(pair) => {
                let (mvals, avals) = pair;
                let mut out: Vec<u8> = Vec::new();
                out.push(v);
                let mut mvals = mvals;
                out.append(&mut mvals);
                proof {
                    let spec_tail = match_at(ms, i as int + 1, acc2 as int, asq, res_start as int);
                    assert(vals_view(out@) =~= seq![v as int] + spec_tail->Some_0.0);
                    assert(match_from(ms, i as int, k as int, acc as int, asq, res_start as int)
                        == Some((vals_view(out@), vals_view(avals@))));
                }
                return Some((out, avals));
            },
            None => {
                proof {
                    assert(match_from(ms, i as int, k as int, acc as int, asq, res_start as int)
                        == match_from(ms, i as int, k as int + 1, acc as int, asq, res_start as int));
                }
            },
        }
        k = k + 1;
    }
    proof {
        assert(match_from(ms, i as int, k as int, acc as int, asq, res_start as int) is None);
    }
    None
}

/// The first balanced pair of valency draws for the two sides of a salt;
/// `None` when no pair of permitted draws cancels.
pub fn search_match(
    mes: &Vec<SubstanceBlock>,
    me_start: i64,
    ants: &Vec<SubstanceBlock>,
    res_start: i64,
) -> (r: Option<(Vec<u8>, Vec<u8>)>)
    requires
        blocks_wf(mes.deep_view()),
        blocks_wf(ants.deep_view()),
        charges_sorted(mes.deep_view()),
        charges_sorted(ants.deep_view()),
        -99_000_000 <= me_start <= 99_000_000,
        -99_000_000 <= res_start <= 99_000_000,
    ensures
        match r {
            Some(pair) => find_match(
                mes.deep_view(),
                me_start as int,
                ants.deep_view(),
                res_start as int,
            ) == Some((vals_view(pair.0@), vals_view(pair.1@))),
            None => find_match(
                mes.deep_view(),
                me_start as int,
                ants.deep_view(),
                res_start as int,
            ) is None,
        },
{
    proof {
        lemma_sorted_len(mes.deep_view());
        assert(4590 * mes.deep_view().len() <= 4590 * 65535) by (nonlinear_arith)
            requires
                mes.deep_view().len() <= 65535,
        ;
    }
    match_rec(mes, 0, me_start, ants, res_start)
}

/// The blocks with the drawn valencies written in as oxidation states.
pub open spec fn assigned(s: Seq<BlockModel>, vals: Seq<int>) -> Seq<BlockModel> {
    Seq::new(s.len(), |i: int| with_state(s[i], vals[i]))
}

/// Writes each drawn valency into its block as the oxidation state.
pub fn apply_assignment(blocks: &mut Vec<SubstanceBlock>, vals: &Vec<u8>)
    requires
        vals@.len() == old(blocks).deep_view().len(),
        forall|i: int| 0 <= i < vals@.len() ==> #[trigger] vals@[i] <= 127,
    ensures
        final(blocks).deep_view() == assigned(old(blocks).deep_view(), vals_view(vals@)),
{
    let ghost orig = old(blocks).deep_view();
    let n = blocks.len();
    let mut i: usize = 0;
    while i < n
        invariant
            n == blocks.deep_view().len(),
            n == orig.len(),
            n == vals@.len(),
            i <= n,
            forall|t: int| 0 <= t < vals@.len() ==> #[trigger] vals@[t] <= 127,
            forall|t: int|
                0 <= t < i ==> #[trigger] blocks.deep_view()[t] == with_state(
                    orig[t],
                    vals@[t] as int,
                ),
            forall|t: int| i <= t < n ==> #[trigger] blocks.deep_view()[t] == orig[t],
        decreases n - i,
    {
        let ghost before = blocks.deep_view();
        let ghost prev = blocks@;
        proof {
            assert(before[i as int] == orig[i as int]);
            assert(prev[i as int]@ == orig[i as int]);
        }
        blocks[i].oxidation_state = vals[i] as i8;
        proof {
            assert(blocks@ == prev.update(i as int, blocks@[i as int]));
            assert forall|t: int| 0 <= t < n && t != i as int implies #[trigger] blocks.deep_view()[t]
                == before[t] by {
                assert(blocks@[t] == prev[t]);
            }
            assert(blocks@[i as int].element == prev[i as int].element);
            assert(blocks@[i as int].index == prev[i as int].index);
            assert(blocks@[i as int].oxidation_state == vals@[i as int] as i8);
            assert(blocks.deep_view()[i as int] == with_state(orig[i as int], vals@[i as int] as int));
        }
        i = i + 1;
    }
    proof {
        assert(blocks.deep_view() =~= assigned(orig, vals_view(vals@)));
    }
}

} // verus!
