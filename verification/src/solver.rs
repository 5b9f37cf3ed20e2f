//! The chunk router: splits a total input amount into equal chunks and
//! greedily routes each chunk to the pool currently quoting the best
//! output, committing the chosen pool's price impact before the next
//! chunk is placed.
//!
//! The policy is deliberately myopic: each chunk takes the best marginal
//! quote with no lookahead or rebalancing, a tractable approximation of
//! optimal splitting under diminishing returns.  Ties keep the earliest
//! pool in iteration order, and a run over `num_chunks` chunks routes
//! `num_chunks * (total / num_chunks)` units: the remainder of the even
//! split is not routed.

use vstd::prelude::*;
use vstd::arithmetic::div_mod::lemma_fundamental_div_mod;
use crate::pool::{Address, Pool, spec_quote, spec_after_swap};

verus! {

/// The outcome of one chunk: its 1-based sequence number, the selected
/// pool's name (empty when no pool produced a positive quote), and the
/// raw input and output amounts.
#[derive(Clone, Debug)]
pub struct ChunkRoute {
    pub chunk_index: u64,
    pub best_pool_name: String,
    pub amount_in: u128,
    pub amount_out: u128,
}

/// The aggregate of a routing run: the total output and the per-chunk
/// records, in chunk order.
#[derive(Debug)]
pub struct SolverResult {
    pub total_weth_out: u128,
    pub chunk_routes: Vec<ChunkRoute>,
}

/// Whether a pool holds the input token, or its accepted equivalent, on
/// either side.
pub open spec fn pool_matches(p: Pool, input_token: Address, equivalent_token: Address) -> bool {
    p.token0_address == input_token || p.token1_address == input_token
        || p.token0_address == equivalent_token || p.token1_address == equivalent_token
}

/// On which side the accepted input token sits: `true` means the input
/// is `token0`.
pub open spec fn pool_input_is_token0(
    p: Pool,
    input_token: Address,
    equivalent_token: Address,
) -> bool {
    p.token0_address == input_token || p.token0_address == equivalent_token
}

/// The state of the greedy scan over the candidate pools.
pub ghost struct Selection {
    pub output: int,
    pub index: int,
    pub input_is_token0: bool,
    pub name: Seq<char>,
}

/// The scan's starting state: nothing selected yet.
pub open spec fn empty_selection() -> Selection {
    Selection { output: 0, index: 0, input_is_token0: false, name: Seq::empty() }
}

/// A selection record assembled from its parts.
pub open spec fn selection_of(output: int, index: int, input_is_token0: bool, name: Seq<char>)
    -> Selection {
    Selection { output, index, input_is_token0, name }
}

/// Folds the greedy comparison over `pools[i..]`: a candidate pool
/// replaces the current best only when it matches the input token and
/// quotes a strictly greater output, so the first of equally good pools
/// wins and pools holding neither accepted token are skipped.
pub open spec fn spec_select_from(
    pools: Seq<Pool>,
    amount: int,
    input_token: Address,
    equivalent_token: Address,
    i: int,
    cur: Selection,
) -> Selection
    decreases pools.len() - i,
{
    if i < 0 || i >= pools.len() {
        cur
    } else {
        let p = pools[i];
        let is0 = pool_input_is_token0(p, input_token, equivalent_token);
        let next = if pool_matches(p, input_token, equivalent_token) && spec_quote(p, amount, is0)
            > cur.output {
            selection_of(spec_quote(p, amount, is0), i, is0, p.name@)
        } else {
            cur
        };
        spec_select_from(pools, amount, input_token, equivalent_token, i + 1, next)
    }
}

/// The pool selected for one chunk, with its quote.
pub open spec fn spec_select(
    pools: Seq<Pool>,
    amount: int,
    input_token: Address,
    equivalent_token: Address,
) -> Selection {
    spec_select_from(pools, amount, input_token, equivalent_token, 0, empty_selection())
}

/// What a candidate pool would pay for this chunk, quoted on the side
/// its accepted input token sits on.
pub open spec fn candidate_quote(
    p: Pool,
    amount: int,
    input_token: Address,
    equivalent_token: Address,
) -> int {
    spec_quote(p, amount, pool_input_is_token0(p, input_token, equivalent_token))
}

/// The model of one chunk's record.
pub ghost struct RouteModel {
    pub name: Seq<char>,
    pub amount_in: int,
    pub amount_out: int,
}

/// The model of a whole run: the pools as the run leaves them and the
/// per-chunk records in order.
pub ghost struct RunModel {
    pub pools: Seq<Pool>,
    pub routes: Seq<RouteModel>,
}

/// What one chunk records: the winning pool's name and quote, or a zero
/// output under an empty name when no pool quoted a positive output.
pub open spec fn spec_chunk_route(
    pools: Seq<Pool>,
    amount: int,
    input_token: Address,
    equivalent_token: Address,
) -> RouteModel {
    let s = spec_select(pools, amount, input_token, equivalent_token);
    RouteModel { name: s.name, amount_in: amount, amount_out: s.output }
}

/// The pools after one chunk: exactly the winning pool's reserves move,
/// and only when some pool quoted a positive output.
pub open spec fn spec_chunk_pools(
    pools: Seq<Pool>,
    amount: int,
    input_token: Address,
    equivalent_token: Address,
) -> Seq<Pool> {
    let s = spec_select(pools, amount, input_token, equivalent_token);
    if s.output > 0 {
        pools.update(s.index, spec_after_swap(pools[s.index], amount, s.input_is_token0))
    } else {
        pools
    }
}

/// The whole run: `k` chunks placed in sequence, each against the pool
/// state the previous chunks left behind.
pub open spec fn spec_run(
    pools: Seq<Pool>,
    amount: int,
    input_token: Address,
    equivalent_token: Address,
    k: nat,
) -> RunModel
    decreases k,
{
    if k == 0 {
        RunModel { pools, routes: Seq::empty() }
    } else {
        let prev = spec_run(pools, amount, input_token, equivalent_token, (k - 1) as nat);
        RunModel {
            pools: spec_chunk_pools(prev.pools, amount, input_token, equivalent_token),
            routes: prev.routes.push(
                spec_chunk_route(prev.pools, amount, input_token, equivalent_token),
            ),
        }
    }
}

/// The input amount of one chunk: the total divided evenly.
pub open spec fn spec_chunk_amount(total: int, chunks: int) -> int {
    if chunks <= 0 {
        0
    } else {
        total / chunks
    }
}

/// The sum of the recorded output amounts.
pub open spec fn sum_route_outputs(routes: Seq<ChunkRoute>) -> int
    decreases routes.len(),
{
    if routes.len() == 0 {
        0
    } else {
        sum_route_outputs(routes.drop_last()) + routes.last().amount_out
    }
}

/// The sum of the modelled output amounts.
pub open spec fn sum_model_outputs(routes: Seq<RouteModel>) -> int
    decreases routes.len(),
{
    if routes.len() == 0 {
        0
    } else {
        sum_model_outputs(routes.drop_last()) + routes.last().amount_out
    }
}

/// The sum of the modelled input amounts.
pub open spec fn sum_model_inputs(routes: Seq<RouteModel>) -> int
    decreases routes.len(),
{
    if routes.len() == 0 {
        0
    } else {
        sum_model_inputs(routes.drop_last()) + routes.last().amount_in
    }
}

/// The total of all reserves held by a sequence of pools.
pub open spec fn reserves_sum(pools: Seq<Pool>) -> int
    decreases pools.len(),
{
    if pools.len() == 0 {
        0
    } else {
        reserves_sum(pools.drop_last()) + pools.last().reserve_token0
            + pools.last().reserve_token1
    }
}

/// Whether an executable record carries exactly what the model says the
/// `k`-th chunk recorded.
pub open spec fn route_matches(r: ChunkRoute, m: RouteModel, k: int) -> bool {
    r.chunk_index == k + 1 && r.best_pool_name@ == m.name && r.amount_in == m.amount_in
        && r.amount_out == m.amount_out
}

proof fn lemma_reserves_sum_nonneg(s: Seq<Pool>)
    ensures
        reserves_sum(s) >= 0,
    decreases s.len(),
{
    if s.len() > 0 {
        lemma_reserves_sum_nonneg(s.drop_last());
    }
}

proof fn lemma_reserves_sum_take_step(s: Seq<Pool>, j: int)
    requires
        0 <= j < s.len(),
    ensures
        reserves_sum(s.take(j + 1)) == reserves_sum(s.take(j)) + s[j].reserve_token0
            + s[j].reserve_token1,
{
    assert(s.take(j + 1).drop_last() =~= s.take(j));
    assert(s.take(j + 1).last() == s[j]);
}

proof fn lemma_reserves_sum_prefix(s: Seq<Pool>, j: int)
    requires
        0 <= j <= s.len(),
    ensures
        reserves_sum(s.take(j)) <= reserves_sum(s),
    decreases s.len() - j,
{
    if j == s.len() {
        assert(s.take(j) =~= s);
    } else {
        lemma_reserves_sum_take_step(s, j);
        lemma_reserves_sum_prefix(s, j + 1);
    }
}

proof fn lemma_reserves_sum_element(s: Seq<Pool>, j: int)
    requires
        0 <= j < s.len(),
    ensures
        s[j].reserve_token0 + s[j].reserve_token1 <= reserves_sum(s),
{
    lemma_reserves_sum_take_step(s, j);
    lemma_reserves_sum_prefix(s, j + 1);
    lemma_reserves_sum_nonneg(s.take(j));
}

proof fn lemma_reserves_sum_update(s: Seq<Pool>, j: int, p: Pool)
    requires
        0 <= j < s.len(),
    ensures
        reserves_sum(s.update(j, p)) == reserves_sum(s) - s[j].reserve_token0
            - s[j].reserve_token1 + p.reserve_token0 + p.reserve_token1,
    decreases s.len(),
{
    if j == s.len() - 1 {
        assert(s.update(j, p).drop_last() =~= s.drop_last());
        assert(s.update(j, p).last() == p);
    } else {
        assert(s.update(j, p).drop_last() =~= s.drop_last().update(j, p));
        assert(s.update(j, p).last() == s.last());
        lemma_reserves_sum_update(s.drop_last(), j, p);
    }
}

proof fn lemma_select_from_sound(
    pools: Seq<Pool>,
    amount: int,
    input_token: Address,
    equivalent_token: Address,
    i: int,
    cur: Selection,
)
    requires
        0 <= i <= pools.len(),
        cur.output > 0 ==> 0 <= cur.index < pools.len() && cur.output == spec_quote(
            pools[cur.index],
            amount,
            cur.input_is_token0,
        ) && cur.name == pools[cur.index].name@,
    ensures
        ({
            let s = spec_select_from(pools, amount, input_token, equivalent_token, i, cur);
            s.output > 0 ==> 0 <= s.index < pools.len() && s.output == spec_quote(
                pools[s.index],
                amount,
                s.input_is_token0,
            ) && s.name == pools[s.index].name@
        }),
    decreases pools.len() - i,
{
    if i < pools.len() {
        let p = pools[i];
        let is0 = pool_input_is_token0(p, input_token, equivalent_token);
        let next = if pool_matches(p, input_token, equivalent_token) && spec_quote(p, amount, is0)
            > cur.output {
            selection_of(spec_quote(p, amount, is0), i, is0, p.name@)
        } else {
            cur
        };
        lemma_select_from_sound(pools, amount, input_token, equivalent_token, i + 1, next);
    }
}

/// A positive selection always points at a real pool whose quote, side,
/// and name it carries.
proof fn lemma_select_sound(
    pools: Seq<Pool>,
    amount: int,
    input_token: Address,
    equivalent_token: Address,
)
    ensures
        ({
            let s = spec_select(pools, amount, input_token, equivalent_token);
            s.output > 0 ==> 0 <= s.index < pools.len() && s.output == spec_quote(
                pools[s.index],
                amount,
                s.input_is_token0,
            ) && s.name == pools[s.index].name@
        }),
{
    lemma_select_from_sound(pools, amount, input_token, equivalent_token, 0, empty_selection());
}

proof fn lemma_select_from_greedy(
    pools: Seq<Pool>,
    amount: int,
    input_token: Address,
    equivalent_token: Address,
    i: int,
    cur: Selection,
)
    requires
        0 <= i <= pools.len(),
        cur.output > 0 ==> 0 <= cur.index < i,
        forall|j: int|
            0 <= j < i && pool_matches(#[trigger] pools[j], input_token, equivalent_token)
                ==> candidate_quote(pools[j], amount, input_token, equivalent_token) <= cur.output,
        cur.output > 0 ==> forall|j: int|
            0 <= j < cur.index && pool_matches(#[trigger] pools[j], input_token, equivalent_token)
                ==> candidate_quote(pools[j], amount, input_token, equivalent_token) < cur.output,
    ensures
        ({
            let s = spec_select_from(pools, amount, input_token, equivalent_token, i, cur);
            s.output >= cur.output && (forall|j: int|
                0 <= j < pools.len() && pool_matches(
                    #[trigger] pools[j],
                    input_token,
                    equivalent_token,
                ) ==> candidate_quote(pools[j], amount, input_token, equivalent_token) <= s.output)
                && (s.output > 0 ==> forall|j: int|
                0 <= j < s.index && pool_matches(
                    #[trigger] pools[j],
                    input_token,
                    equivalent_token,
                ) ==> candidate_quote(pools[j], amount, input_token, equivalent_token) < s.output)
        }),
    decreases pools.len() - i,
{
    if i < pools.len() {
        let p = pools[i];
        let is0 = pool_input_is_token0(p, input_token, equivalent_token);
        let next = if pool_matches(p, input_token, equivalent_token) && spec_quote(p, amount, is0)
            > cur.output {
            selection_of(spec_quote(p, amount, is0), i, is0, p.name@)
        } else {
            cur
        };
        lemma_select_from_greedy(pools, amount, input_token, equivalent_token, i + 1, next);
    }
}

/// The greedy selection is an argmax with a first-wins tie-break: no
/// matching pool quotes more than the selected output, and every
/// matching pool before the selected one quotes strictly less, so the
/// earliest pool among equally good ones is the one selected.
pub proof fn lemma_select_greedy(
    pools: Seq<Pool>,
    amount: int,
    input_token: Address,
    equivalent_token: Address,
)
    ensures
        ({
            let s = spec_select(pools, amount, input_token, equivalent_token);
            (forall|j: int|
                0 <= j < pools.len() && pool_matches(
                    #[trigger] pools[j],
                    input_token,
                    equivalent_token,
                ) ==> candidate_quote(pools[j], amount, input_token, equivalent_token) <= s.output)
                && (s.output > 0 ==> forall|j: int|
                0 <= j < s.index && pool_matches(
                    #[trigger] pools[j],
                    input_token,
                    equivalent_token,
                ) ==> candidate_quote(pools[j], amount, input_token, equivalent_token) < s.output)
        }),
{
    lemma_select_from_greedy(pools, amount, input_token, equivalent_token, 0, empty_selection());
}

proof fn lemma_run_routes_len(
    pools: Seq<Pool>,
    amount: int,
    input_token: Address,
    equivalent_token: Address,
    k: nat,
)
    ensures
        spec_run(pools, amount, input_token, equivalent_token, k).routes.len() == k,
    decreases k,
{
    if k > 0 {
        lemma_run_routes_len(pools, amount, input_token, equivalent_token, (k - 1) as nat);
    }
}

/// Every chunk records exactly the chunk amount as its input, so a whole
/// run routes `k * amount` units in total.
pub proof fn lemma_run_total_input(
    pools: Seq<Pool>,
    amount: int,
    input_token: Address,
    equivalent_token: Address,
    k: nat,
)
    ensures
        sum_model_inputs(spec_run(pools, amount, input_token, equivalent_token, k).routes) == k
            * amount,
    decreases k,
{
    if k == 0 {
        assert(k * amount == 0) by (nonlinear_arith)
            requires
                k == 0;
    } else {
        lemma_run_total_input(pools, amount, input_token, equivalent_token, (k - 1) as nat);
        let prev = spec_run(pools, amount, input_token, equivalent_token, (k - 1) as nat);
        let run = spec_run(pools, amount, input_token, equivalent_token, k);
        assert(run.routes.drop_last() =~= prev.routes);
        assert((k - 1) * amount + amount == k * amount) by (nonlinear_arith);
    }
}

/// What a run routes never exceeds the requested total: the even split
/// only rounds down.
pub proof fn lemma_routed_total_within_request(total: int, chunks: int)
    requires
        0 <= total,
        0 < chunks,
    ensures
        chunks * spec_chunk_amount(total, chunks) <= total,
{
    lemma_fundamental_div_mod(total, chunks);
}

/// Whether `total_amount_in` can be routed against these pools with every
/// reserve staying inside the 128-bit range: the headroom precondition of
/// `find_best_routes`, decided executably for callers.
pub fn routing_headroom_ok(pools: &Vec<Pool>, total_amount_in: u128) -> (ok: bool)
    ensures
        ok == (reserves_sum(pools@) + total_amount_in <= u128::MAX),
{
    let mut sum: u128 = total_amount_in;
    let mut j: usize = 0;
    proof {
        assert(pools@.take(0) =~= Seq::<Pool>::empty());
    }
    while j < pools.len()
        invariant
            j <= pools@.len(),
            sum == total_amount_in + reserves_sum(pools@.take(j as int)),
        decreases pools@.len() - j,
    {
        let p = &pools[j];
        proof {
            lemma_reserves_sum_take_step(pools@, j as int);
        }
        if p.reserve_token0 > u128::MAX - sum {
            proof {
                lemma_reserves_sum_prefix(pools@, j as int + 1);
            }
            return false;
        }
        let with_r0: u128 = sum + p.reserve_token0;
        if p.reserve_token1 > u128::MAX - with_r0 {
            proof {
                lemma_reserves_sum_prefix(pools@, j as int + 1);
            }
            return false;
        }
        sum = with_r0 + p.reserve_token1;
        j = j + 1;
    }
    proof {
        assert(pools@.take(pools@.len() as int) =~= pools@);
    }
    true
}

/// Scans the pools for the one quoting the strictly greatest output for a
/// chunk of `amount`.  Pools holding neither accepted token are skipped,
/// a tie keeps the earliest pool, and when no pool quotes a positive
/// output the result is a zero quote under an empty name.
fn select_best_pool(
    pools: &Vec<Pool>,
    amount: u128,
    input_token: Address,
    equivalent_token: Address,
) -> (best: (u128, usize, bool, String))
    ensures
        ({
            let s = spec_select(pools@, amount as int, input_token, equivalent_token);
            best.0 == s.output && best.1 == s.index && best.2 == s.input_is_token0 && best.3@
                == s.name
        }),
        best.0 > 0 ==> best.1 < pools@.len(),
{
    let mut best_output: u128 = 0;
    let mut best_index: usize = 0;
    let mut best_is0: bool = false;
    let mut best_name: String = String::new();
    let mut j: usize = 0;
    while j < pools.len()
        invariant
            j <= pools@.len(),
            spec_select_from(
                pools@,
                amount as int,
                input_token,
                equivalent_token,
                j as int,
                selection_of(best_output as int, best_index as int, best_is0, best_name@),
            ) == spec_select(pools@, amount as int, input_token, equivalent_token),
            best_output > 0 ==> best_index < j,
        decreases pools@.len() - j,
    {
        let ghost cur = selection_of(best_output as int, best_index as int, best_is0, best_name@);
        let p = &pools[j];
        let matches = p.token0_address == input_token || p.token1_address == input_token
            || p.token0_address == equivalent_token || p.token1_address == equivalent_token;
        if matches {
            let is0 = p.token0_address == input_token || p.token0_address == equivalent_token;
            let output = p.get_amount_out(amount, is0);
            if output > best_output {
                best_output = output;
                best_index = j;
                best_is0 = is0;
                best_name = p.name.clone();
            }
        }
        proof {
            let next = selection_of(
                best_output as int,
                best_index as int,
                best_is0,
                best_name@,
            );
            assert(spec_select_from(
                pools@,
                amount as int,
                input_token,
                equivalent_token,
                j as int,
                cur,
            ) == spec_select_from(
                pools@,
                amount as int,
                input_token,
                equivalent_token,
                j as int + 1,
                next,
            ));
        }
        j = j + 1;
    }
    (best_output, best_index, best_is0, best_name)
}

/// Routes `total_amount_in`, split into `num_chunks` equal chunks, across
/// the given pools.  Each chunk goes to the pool quoting the strictly
/// best output at that moment (earliest pool on ties, skipping pools that
/// hold neither `input_token` nor `equivalent_token`); the winning pool's
/// reserves are mutated in place so later chunks see its price impact,
/// and a chunk no pool can serve records zero output under an empty name
/// without failing the run.  The result's total equals the sum of the
/// recorded per-chunk outputs exactly.
pub fn find_best_routes(
    total_amount_in: u128,
    num_chunks: u64,
    input_token: Address,
    equivalent_token: Address,
    pools: &mut Vec<Pool>,
) -> (result: SolverResult)
    requires
        reserves_sum(old(pools)@) + total_amount_in <= u128::MAX,
    ensures
        ({
            let chunk = spec_chunk_amount(total_amount_in as int, num_chunks as int);
            let m = spec_run(old(pools)@, chunk, input_token, equivalent_token, num_chunks as nat);
            final(pools)@ == m.pools && result.chunk_routes@.len() == num_chunks && (forall|k: int|
                0 <= k < num_chunks ==> route_matches(
                    #[trigger] result.chunk_routes@[k],
                    m.routes[k],
                    k,
                )) && result.total_weth_out == sum_model_outputs(m.routes)
        }),
        result.total_weth_out == sum_route_outputs(result.chunk_routes@),
{
    let chunk_amount: u128 = if num_chunks == 0 {
        0
    } else {
        total_amount_in / (num_chunks as u128)
    };
    let ghost init_pools = pools@;
    let ghost bound = reserves_sum(init_pools) + total_amount_in;
    proof {
        if num_chunks > 0 {
            lemma_fundamental_div_mod(total_amount_in as int, num_chunks as int);
        }
    }
    let mut chunk_routes: Vec<ChunkRoute> = Vec::new();
    let mut total_weth_out: u128 = 0;
    let mut i: u64 = 0;
    while i < num_chunks
        invariant
            i <= num_chunks,
            chunk_amount == spec_chunk_amount(total_amount_in as int, num_chunks as int),
            (num_chunks as int) * (chunk_amount as int) <= total_amount_in,
            bound == reserves_sum(init_pools) + total_amount_in,
            bound <= u128::MAX,
            pools@ == spec_run(
                init_pools,
                chunk_amount as int,
                input_token,
                equivalent_token,
                i as nat,
            ).pools,
            chunk_routes@.len() == i,
            forall|k: int| 0 <= k < i ==> route_matches(
                #[trigger] chunk_routes@[k],
                spec_run(
                    init_pools,
                    chunk_amount as int,
                    input_token,
                    equivalent_token,
                    i as nat,
                ).routes[k],
                k,
            ),
            total_weth_out == sum_model_outputs(
                spec_run(
                    init_pools,
                    chunk_amount as int,
                    input_token,
                    equivalent_token,
                    i as nat,
                ).routes,
            ),
            total_weth_out == sum_route_outputs(chunk_routes@),
            total_weth_out + reserves_sum(pools@) + ((num_chunks - i) as int) * (
            chunk_amount as int) <= bound,
        decreases num_chunks - i,
    {
        let ghost pre_pools = pools@;
        let ghost run_i = spec_run(
            init_pools,
            chunk_amount as int,
            input_token,
            equivalent_token,
            i as nat,
        );
        proof {
            lemma_run_routes_len(
                init_pools,
                chunk_amount as int,
                input_token,
                equivalent_token,
                i as nat,
            );
            assert(((num_chunks - i) as int) * (chunk_amount as int) >= chunk_amount) by (
            nonlinear_arith)
                requires
                    num_chunks - i >= 1,
                    chunk_amount >= 0;
            lemma_reserves_sum_nonneg(pools@);
        }
        let (best_output, best_index, best_is0, best_name) = select_best_pool(
            pools,
            chunk_amount,
            input_token,
            equivalent_token,
        );
        if best_output > 0 {
            proof {
                lemma_select_sound(pre_pools, chunk_amount as int, input_token, equivalent_token);
                lemma_reserves_sum_element(pre_pools, best_index as int);
            }
            let pool_ref = &mut pools[best_index];
            let actual_output = pool_ref.mock_swap(chunk_amount, best_is0);
            proof {
                assert(actual_output == best_output);
                lemma_reserves_sum_update(
                    pre_pools,
                    best_index as int,
                    spec_after_swap(pre_pools[best_index as int], chunk_amount as int, best_is0),
                );
                assert(pools@ == spec_chunk_pools(
                    pre_pools,
                    chunk_amount as int,
                    input_token,
                    equivalent_token,
                ));
            }
        } else {
            proof {
                assert(pools@ == spec_chunk_pools(
                    pre_pools,
                    chunk_amount as int,
                    input_token,
                    equivalent_token,
                ));
            }
        }
        proof {
            assert(((num_chunks - i) as int) * (chunk_amount as int) - chunk_amount == ((num_chunks
                - (i + 1)) as int) * (chunk_amount as int)) by (nonlinear_arith)
                requires
                    num_chunks - i >= 1,
                    chunk_amount >= 0;
        }
        total_weth_out = total_weth_out + best_output;
        let route = ChunkRoute {
            chunk_index: i + 1,
            best_pool_name: best_name,
            amount_in: chunk_amount,
            amount_out: best_output,
        };
        let ghost pre_routes = chunk_routes@;
        let ghost pushed_route = route;
        chunk_routes.push(route);
        proof {
            let run_next = spec_run(
                init_pools,
                chunk_amount as int,
                input_token,
                equivalent_token,
                (i + 1) as nat,
            );
            assert(run_next.routes == run_i.routes.push(
                spec_chunk_route(pre_pools, chunk_amount as int, input_token, equivalent_token),
            ));
            assert(run_next.routes.drop_last() =~= run_i.routes);
            assert(chunk_routes@.drop_last() =~= pre_routes);
            assert(chunk_routes@.last() == pushed_route);
        }
        i = i + 1;
    }
    SolverResult { total_weth_out, chunk_routes }
}

} // verus!
