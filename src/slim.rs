use vstd::prelude::*;
use crate::ftrl::{abs, fits, fits_exec, step, tdiv, tdiv_exec, Coord, Ftrl, ONE};
use crate::ranking::{has_id, ranked_ok, top_scored};
use crate::identifiers::{distinct_keys, identified, identified_all, index_in, Identifier, Key, KeyModel, MAX_IDS};
use crate::ftrl::{distinct_pairs, Entry, Params};
use crate::interactions::{items_of, recent_items, interaction_added, valid_rows, Record, UserItemInteractions};

verus! {

/// How many of a user's newest items a training event reaches.
pub const FAN_OUT: usize = 20;

/// Gradients of at most this magnitude (in fixed point) are not applied.
pub const MIN_GRAD: i64 = 1;

/// The weight of `(src, dst)`, zero when the pair was never updated.
pub open spec fn weight_or_zero(f: Ftrl, src: u32, dst: u32) -> int {
    match f.coord_of(src, dst) {
        Some(c) => c.w as int,
        None => 0,
    }
}

/// The rating of user `u` for `x`, zero when there is none.
pub open spec fn rating_or_zero(s: UserItemInteractions, u: u32, x: u32) -> int {
    match s.rating_of(u as int, x) {
        Some(v) => v,
        None => 0,
    }
}

/// The contribution of item `x` to the predicted rating of `target`.
pub open spec fn term(f: Ftrl, s: UserItemInteractions, u: u32, x: u32, target: u32) -> int {
    if x == target {
        0
    } else {
        tdiv(weight_or_zero(f, x, target) * rating_or_zero(s, u, x), ONE as int)
    }
}

/// The sum of the contributions of `xs`, added in order; `None` when a
/// partial sum leaves the range of `i64`.
pub open spec fn weighted_sum(
    f: Ftrl,
    s: UserItemInteractions,
    u: u32,
    xs: Seq<u32>,
    target: u32,
) -> Option<int>
    decreases xs.len(),
{
    if xs.len() == 0 {
        Some(0)
    } else {
        match weighted_sum(f, s, u, xs.drop_last(), target) {
            Some(t) => {
                let v = t + term(f, s, u, xs.last(), target);
                if fits(v) {
                    Some(v)
                } else {
                    None
                }
            },
            None => None,
        }
    }
}

/// The predicted rating of `target` by user `u` from the whole history.
pub open spec fn prediction(f: Ftrl, s: UserItemInteractions, u: u32, target: u32) -> Option<int> {
    weighted_sum(f, s, u, items_of(s.records(u as int)), target)
}

/// As `prediction`, except that a user whose only item is `target` gets
/// the stored rating back.
pub open spec fn served_prediction(
    f: Ftrl,
    s: UserItemInteractions,
    u: u32,
    target: u32,
) -> Option<int> {
    if items_of(s.records(u as int)) == seq![target] {
        Some(rating_or_zero(s, u, target))
    } else {
        prediction(f, s, u, target)
    }
}

/// The prediction error at the pair just observed, when it is defined.
pub open spec fn loss_of(f: Ftrl, s: UserItemInteractions, u: u32, item: u32) -> Option<int> {
    match prediction(f, s, u, item) {
        Some(p) => {
            let d = p - rating_or_zero(s, u, item);
            if fits(d) {
                Some(d)
            } else {
                None
            }
        },
        None => None,
    }
}

/// The gradient of the pair `(x, item)` for error `d` and rating `r` of `x`.
pub open spec fn grad_of(d: int, r: int) -> int {
    tdiv(d * r, ONE as int)
}

/// The coordinate of `(src, dst)` after a gradient `g` is offered to it:
/// a gradient out of range or too small, or an undefined step, changes nothing.
pub open spec fn offered(f: Ftrl, src: u32, dst: u32, g: int) -> Option<Coord> {
    if !fits(g) || abs(g) <= MIN_GRAD {
        f.coord_of(src, dst)
    } else {
        let c0 = match f.coord_of(src, dst) {
            Some(c) => c,
            None => Coord { w: 0, n: 0, z: 0 },
        };
        match step(f.params(), c0, g) {
            Some(c1) => Some(c1),
            None => f.coord_of(src, dst),
        }
    }
}

/// The coordinate of `(a, b)` after training on error `d` at `(u, item)`,
/// where `reach` holds the user's newest items.
pub open spec fn trained(
    f: Ftrl,
    s: UserItemInteractions,
    u: u32,
    item: u32,
    d: int,
    reach: Seq<u32>,
    a: u32,
    b: u32,
) -> Option<Coord> {
    if b == item && a != item && reach.contains(a) {
        offered(f, a, b, grad_of(d, rating_or_zero(s, u, a)))
    } else {
        f.coord_of(a, b)
    }
}

/// Whether item `c` is a recommendation candidate for user `u`: a known
/// item the user never rated or, unless `filter`, rated at least zero.
pub open spec fn rec_candidate(s: UserItemInteractions, u: u32, c: u32, filter: bool) -> bool {
    &&& (c as int) < s.item_universe()
    &&& match s.rating_of(u as int, c) {
        Some(v) => !filter && v >= 0,
        None => true,
    }
}

/// The ranking score of item `c` for user `u`: its prediction, or the
/// lowest score when the prediction is undefined.
pub open spec fn rec_score(f: Ftrl, s: UserItemInteractions, u: u32, c: u32) -> int {
    match prediction(f, s, u, c) {
        Some(v) => v,
        None => i64::MIN as int,
    }
}

/// Whether item `c` is a candidate similar to query item `q`.
pub open spec fn sim_candidate(s: UserItemInteractions, q: u32, c: u32, filter: bool) -> bool {
    (c as int) < s.item_universe() && !(filter && c == q)
}

/// The similarity of `c` to `q`: the weight of `(c, q)`, or the lowest
/// score when the pair was never updated.
pub open spec fn sim_score(f: Ftrl, q: u32, c: u32) -> int {
    match f.coord_of(c, q) {
        Some(co) => co.w as int,
        None => i64::MIN as int,
    }
}

/// The keys of the ranked ids, in order, leaving out ids with no key.
pub open spec fn keys_for(keys: Seq<KeyModel>, ranked: Seq<(i64, u32)>) -> Seq<KeyModel>
    decreases ranked.len(),
{
    if ranked.len() == 0 {
        Seq::empty()
    } else {
        let rest = keys_for(keys, ranked.drop_last());
        let id = ranked.last().1;
        if (id as int) < keys.len() {
            rest.push(keys[id as int])
        } else {
            rest
        }
    }
}

/// One training step: `f1`, the totals `l1`, `t1` and the flag `counted`
/// are what training on the error at `(u, item)` under store `s` makes of
/// `f0`, `l0` and `t0`.
pub open spec fn trained_step(
    f0: Ftrl,
    f1: Ftrl,
    s: UserItemInteractions,
    u: u32,
    item: u32,
    l0: int,
    l1: int,
    t0: int,
    t1: int,
    counted: bool,
) -> bool {
    &&& f1.wf()
    &&& f1.params() == f0.params()
    &&& counted == match loss_of(f0, s, u, item) {
        Some(d) => l0 + abs(d) <= u128::MAX && t0 < u64::MAX,
        None => false,
    }
    &&& !counted ==> f1.entries() == f0.entries() && l1 == l0 && t1 == t0
    &&& counted ==> {
        let d = loss_of(f0, s, u, item).unwrap();
        &&& l1 == l0 + abs(d)
        &&& t1 == t0 + 1
        &&& forall|a: u32, b: u32|
            #[trigger] f1.coord_of(a, b) == trained(
                f0,
                s,
                u,
                item,
                d,
                recent_items(s.records(u as int), FAN_OUT as int),
                a,
                b,
            )
    }
}

impl SlimMSE {
    /// `m1` is `m0` after the interaction `(user, item, time, rating)` by ids
    /// was recorded and trained on.
    pub open spec fn fit_step(
        m0: SlimMSE,
        m1: SlimMSE,
        user: u32,
        item: u32,
        time: i64,
        rating: i64,
        update_existing: bool,
    ) -> bool {
        &&& m1.users() == m0.users()
        &&& m1.items() == m0.items()
        &&& Self::fit_core(m0, m1, user, item, time, rating, update_existing)
    }

    /// The store, the weights and the totals of `m1` are those of `m0` after
    /// the interaction `(user, item, time, rating)` by ids was recorded and
    /// trained on.
    pub open spec fn fit_core(
        m0: SlimMSE,
        m1: SlimMSE,
        user: u32,
        item: u32,
        time: i64,
        rating: i64,
        update_existing: bool,
    ) -> bool {
        &&& m1.wf()
        &&& interaction_added(m0.store(), m1.store(), user, item, time, rating, update_existing)
        &&& exists|counted: bool|
            trained_step(m0.weights(), m1.weights(), m1.store(), user, item,
                m0.loss_total(), m1.loss_total(), m0.step_count(), m1.step_count(), counted)
    }

    /// `m1` is `m0` after the interaction `(uk, ik, time, rating)` by keys:
    /// both keys are identified, and when both have ids the interaction is
    /// recorded and trained on by those ids.
    pub open spec fn key_step(
        m0: SlimMSE,
        m1: SlimMSE,
        uk: KeyModel,
        ik: KeyModel,
        time: i64,
        rating: i64,
        update_existing: bool,
    ) -> bool {
        &&& m1.wf()
        &&& m1.users() == identified(m0.users(), uk)
        &&& m1.items() == identified(m0.items(), ik)
        &&& if m1.users().contains(uk) && m1.items().contains(ik) {
            Self::fit_core(
                m0,
                m1,
                index_in(m1.users(), uk) as u32,
                index_in(m1.items(), ik) as u32,
                time,
                rating,
                update_existing,
            )
        } else {
            &&& m1.store() == m0.store()
            &&& m1.weights() == m0.weights()
            &&& m1.loss_total() == m0.loss_total()
            &&& m1.step_count() == m0.step_count()
        }
    }
}


/// Training creates a weight only for a pair `(x, item)` of the item just
/// fitted and another item `x` of the same user: a pair never observed
/// together under one user keeps no weight.
pub proof fn lemma_weight_sparsity(
    m0: SlimMSE,
    m1: SlimMSE,
    user: u32,
    item: u32,
    time: i64,
    rating: i64,
    update_existing: bool,
    a: u32,
    b: u32,
)
    requires
        SlimMSE::fit_core(m0, m1, user, item, time, rating, update_existing),
        m0.weights().coord_of(a, b) is None,
        m1.weights().coord_of(a, b) is Some,
    ensures
        b == item,
        a != item,
        items_of(m1.store().records(user as int)).contains(a),
{
    let counted = choose|counted: bool|
        trained_step(m0.weights(), m1.weights(), m1.store(), user, item,
            m0.loss_total(), m1.loss_total(), m0.step_count(), m1.step_count(), counted);
    let recs = m1.interactions.records(user as int);
    if counted {
        let d = loss_of(m0.ftrl, m1.interactions, user, item).unwrap();
        let reach = recent_items(recs, FAN_OUT as int);
        assert(m1.ftrl.coord_of(a, b) == trained(m0.ftrl, m1.interactions, user, item, d, reach, a, b));
        let k = choose|k: int| 0 <= k < reach.len() && reach[k] == a;
        assert(items_of(recs)[recs.len() - 1 - k] == a);
    } else {
        assert(m1.ftrl.coord_of(a, b) == m0.ftrl.coord_of(a, b));
    }
}

/// A user whose whole history is the one queried item is served that
/// item's stored rating, not a weighted sum.
pub proof fn lemma_self_only_prediction(f: Ftrl, s: UserItemInteractions, u: u32, item: u32)
    requires
        items_of(s.records(u as int)) == seq![item],
    ensures
        served_prediction(f, s, u, item) == Some(rating_or_zero(s, u, item)),
        s.rating_of(u as int, item) is Some,
{
    s.lemma_has_rating(u as int, item, 0);
}

/// With `filter` set, no item the user has rated is a candidate, so a
/// ranking over candidates leaves out every item the user interacted with.
pub proof fn lemma_recommend_excludes_rated(
    f: Ftrl,
    s: UserItemInteractions,
    u: u32,
    k: int,
    ranked: Seq<(i64, u32)>,
)
    requires
        ranked_ok(ranked, k, |c: u32| rec_candidate(s, u, c, true), |c: u32| rec_score(f, s, u, c)),
    ensures
        forall|a: int| 0 <= a < ranked.len() ==> s.rating_of(u as int, #[trigger] ranked[a].1) is None,
        forall|a: int, b: int| 0 <= a < b < ranked.len() ==> ranked[a].0 >= ranked[b].0,
        ranked.len() <= k,
{
    assert forall|a: int| 0 <= a < ranked.len() implies s.rating_of(u as int, #[trigger] ranked[a].1) is None by {
        assert(rec_candidate(s, u, ranked[a].1, true));
    }
}

/// Each counted training step adds its absolute error to the total and one
/// to the step count; an uncounted one changes neither. So the mean that
/// `get_empirical_error` reports is the mean of the counted errors.
pub proof fn lemma_error_accumulates(
    m0: SlimMSE,
    m1: SlimMSE,
    user: u32,
    item: u32,
    time: i64,
    rating: i64,
    update_existing: bool,
)
    requires
        SlimMSE::fit_core(m0, m1, user, item, time, rating, update_existing),
    ensures
        (m1.step_count() == m0.step_count() + 1 && exists|d: int|
            loss_of(m0.weights(), m1.store(), user, item) == Some(d) && m1.loss_total()
                == m0.loss_total() + abs(d))
        || (m1.step_count() == m0.step_count() && m1.loss_total() == m0.loss_total()),
{
    let counted = choose|counted: bool|
        trained_step(m0.weights(), m1.weights(), m1.store(), user, item,
            m0.loss_total(), m1.loss_total(), m0.step_count(), m1.step_count(), counted);
    if counted {
        let d = loss_of(m0.ftrl, m1.interactions, user, item).unwrap();
        assert(loss_of(m0.weights(), m1.store(), user, item) == Some(d));
    }
}

/// A model's whole state as plain values.
pub struct ModelParts {
    pub params: Params,
    pub min_value: i64,
    pub max_value: i64,
    pub half_life: Option<u64>,
    pub clock: i64,
    pub item_count: u64,
    pub records: Vec<Vec<Record>>,
    pub weights: Vec<Entry>,
    pub users: Vec<Key>,
    pub items: Vec<Key>,
    pub cumulative_loss: u128,
    pub steps: u64,
}

/// `p` holds exactly the state of `m`.
pub open spec fn parts_of(m: SlimMSE, p: ModelParts) -> bool {
    &&& p.params == m.weights().params()
    &&& p.weights@ == m.weights().entries()
    &&& p.min_value == m.store().lo()
    &&& p.max_value == m.store().hi()
    &&& p.half_life == m.store().decay()
    &&& p.clock == m.store().clock()
    &&& p.item_count == m.store().item_universe()
    &&& forall|u: int| 0 <= u < p.records@.len() ==> #[trigger] p.records@[u]@ == m.store().records(u)
    &&& forall|u: int| u < 0 || u >= p.records@.len() ==> #[trigger] m.store().records(u) == Seq::<Record>::empty()
    &&& p.users@.map_values(|k: Key| k@) == m.users()
    &&& p.items@.map_values(|k: Key| k@) == m.items()
    &&& p.cumulative_loss == m.loss_total()
    &&& p.steps == m.step_count()
}

/// Whether `p` can be a model's state.
pub open spec fn parts_valid(p: ModelParts) -> bool {
    &&& valid_rows(p.records@.map_values(|v: Vec<Record>| v@), p.min_value as int, p.max_value as int, p.item_count as int)
    &&& distinct_pairs(p.weights@)
    &&& distinct_keys(p.users@.map_values(|k: Key| k@))
    &&& p.users@.len() <= MAX_IDS
    &&& distinct_keys(p.items@.map_values(|k: Key| k@))
    &&& p.items@.len() <= MAX_IDS
}

/// `m1` and `m2` hold the same state: histories, range, half-life, clock,
/// item universe, weights with their accumulators, keys and totals.
pub open spec fn same_state(m1: SlimMSE, m2: SlimMSE) -> bool {
    &&& forall|u: int| #[trigger] m1.store().records(u) == m2.store().records(u)
    &&& m1.store().lo() == m2.store().lo()
    &&& m1.store().hi() == m2.store().hi()
    &&& m1.store().decay() == m2.store().decay()
    &&& m1.store().clock() == m2.store().clock()
    &&& m1.store().item_universe() == m2.store().item_universe()
    &&& m1.weights().params() == m2.weights().params()
    &&& m1.weights().entries() == m2.weights().entries()
    &&& m1.users() == m2.users()
    &&& m1.items() == m2.items()
    &&& m1.loss_total() == m2.loss_total()
    &&& m1.step_count() == m2.step_count()
}

/// The state of a model, taken apart, is a valid state; and any model
/// rebuilt from it holds the same state as the model.
pub proof fn lemma_round_trip(m: SlimMSE, p: ModelParts, m2: SlimMSE)
    requires
        m.wf(),
        parts_of(m, p),
        parts_of(m2, p),
    ensures
        parts_valid(p),
        same_state(m, m2),
{
    let rows = p.records@.map_values(|v: Vec<Record>| v@);
    m.store().lemma_rows_valid(rows);
    assert forall|u: int| #[trigger] m.store().records(u) == m2.store().records(u) by {
        if 0 <= u < p.records@.len() {
            assert(p.records@[u]@ == m.store().records(u));
            assert(p.records@[u]@ == m2.store().records(u));
        } else {
            assert(m.store().records(u) == Seq::<Record>::empty());
            assert(m2.store().records(u) == Seq::<Record>::empty());
        }
    }
}

/// An item-item recommender: per-user histories, a sparse FTRL-trained
/// weight matrix, two key registries and the running training error.
pub struct SlimMSE {
    interactions: UserItemInteractions,
    ftrl: Ftrl,
    cumulative_loss: u128,
    steps: u64,
    user_ids: Identifier,
    item_ids: Identifier,
}

impl SlimMSE {
    pub closed spec fn store(&self) -> UserItemInteractions {
        self.interactions
    }

    pub closed spec fn weights(&self) -> Ftrl {
        self.ftrl
    }

    pub closed spec fn users(&self) -> Seq<KeyModel> {
        self.user_ids@
    }

    pub closed spec fn items(&self) -> Seq<KeyModel> {
        self.item_ids@
    }

    /// The sum of absolute errors since the last reset, in fixed point.
    pub closed spec fn loss_total(&self) -> int {
        self.cumulative_loss as int
    }

    /// The number of training steps since the last reset.
    pub closed spec fn step_count(&self) -> int {
        self.steps as int
    }

    /// The parts are well formed, keys are distinct in each registry, and
    /// the totals lie in their ranges.
    pub open spec fn wf(&self) -> bool {
        &&& self.store().wf()
        &&& self.weights().wf()
        &&& distinct_keys(self.users())
        &&& self.users().len() <= MAX_IDS
        &&& distinct_keys(self.items())
        &&& self.items().len() <= MAX_IDS
        &&& 0 <= self.loss_total() <= u128::MAX
        &&& 0 <= self.step_count() <= u64::MAX
    }

    /// A model with the given optimizer parameters, rating range and
    /// optional rating half-life (all values in fixed point, times in the
    /// caller's unit).
    pub fn new(
        alpha: i64,
        beta: i64,
        lambda1: i64,
        lambda2: i64,
        min_value: i64,
        max_value: i64,
        decay: Option<u64>,
    ) -> (r: SlimMSE)
        ensures
            r.wf(),
            r.weights().params() == (crate::ftrl::Params { alpha, beta, lambda1, lambda2 }),
            r.weights().entries() == Seq::<crate::ftrl::Entry>::empty(),
            r.store().lo() == min_value,
            r.store().hi() == max_value,
            r.store().decay() == decay,
            r.store().item_universe() == 0,
            forall|u: int| r.store().records(u) == Seq::<crate::interactions::Record>::empty(),
            r.users() == Seq::<KeyModel>::empty(),
            r.items() == Seq::<KeyModel>::empty(),
            r.loss_total() == 0,
            r.step_count() == 0,
    {
        SlimMSE {
            interactions: UserItemInteractions::new(min_value, max_value, decay),
            ftrl: Ftrl::new(alpha, beta, lambda1, lambda2),
            cumulative_loss: 0,
            steps: 0,
            user_ids: Identifier::new(),
            item_ids: Identifier::new(),
        }
    }

    /// The weighted sum over `xs` for `target`, as `weighted_sum` states it.
    fn sum_over(&self, user: u32, xs: &Vec<u32>, target: u32) -> (r: Option<i64>)
        requires
            self.wf(),
        ensures
            match weighted_sum(self.ftrl, self.interactions, user, xs@, target) {
                Some(v) => r == Some(v as i64),
                None => r.is_none(),
            },
    {
        let mut total: Option<i64> = Some(0);
        let mut j: usize = 0;
        while j < xs.len()
            invariant
                self.wf(),
                j <= xs@.len(),
                match weighted_sum(self.ftrl, self.interactions, user, xs@.subrange(0, j as int), target) {
                    Some(v) => total == Some(v as i64) && fits(v),
                    None => total.is_none(),
                },
            decreases xs@.len() - j,
        {
            let x = xs[j];
            proof {
                let p = xs@.subrange(0, j as int + 1);
                assert(p.drop_last() =~= xs@.subrange(0, j as int));
                assert(p.last() == x);
            }
            if let Some(t) = total {
                let add: i128 = if x == target {
                    0
                } else {
                    let w: i64 = match self.ftrl.get_weight(x, target) {
                        Some(w) => w,
                        None => 0,
                    };
                    let r: i64 = self.interactions.get_user_item_rating(user, x, 0);
                    let wi: i128 = w as i128;
                    let ri: i128 = r as i128;
                    assert(-0x4000_0000_0000_0000_0000_0000_0000_0000 <= wi * ri
                        <= 0x4000_0000_0000_0000_0000_0000_0000_0000) by (nonlinear_arith)
                        requires
                            -0x8000_0000_0000_0000 <= wi <= 0x7fff_ffff_ffff_ffff,
                            -0x8000_0000_0000_0000 <= ri <= 0x7fff_ffff_ffff_ffff,
                    ;
                    let prod: i128 = wi * ri;
                    tdiv_exec(prod, ONE as i128)
                };
                assert(add == term(self.ftrl, self.interactions, user, x, target));
                let v: i128 = t as i128 + add;
                if fits_exec(v) {
                    total = Some(v as i64);
                } else {
                    total = None;
                }
            }
            j = j + 1;
        }
        assert(xs@.subrange(0, xs@.len() as int) =~= xs@);
        total
    }

    /// Trains on the pair `(user, item)` just recorded: when the error there
    /// is defined and the running totals have room, it is counted and offered,
    /// scaled by each rating, to the pairs `(x, item)` of the user's newest
    /// other items `x`.
    fn update_weights(&mut self, user: u32, item: u32) -> (counted: bool)
        requires
            old(self).wf(),
        ensures
            final(self).wf(),
            final(self).interactions == old(self).interactions,
            final(self).user_ids == old(self).user_ids,
            final(self).item_ids == old(self).item_ids,
            trained_step(old(self).ftrl, final(self).ftrl, old(self).interactions, user, item,
                old(self).cumulative_loss as int, final(self).cumulative_loss as int,
                old(self).steps as int, final(self).steps as int, counted),
    {
        let ghost m0 = *self;
        let reach = self.interactions.get_user_items(user, Some(FAN_OUT));
        let pred = self.predict_ids(user, item, false);
        let actual = self.interactions.get_user_item_rating(user, item, 0);
        let p = match pred {
            None => {
                return false;
            },
            Some(p) => p,
        };
        let d128: i128 = p as i128 - actual as i128;
        if !fits_exec(d128) {
            return false;
        }
        let d = d128 as i64;
        let ad: u128 = if d < 0 {
            (-(d as i128)) as u128
        } else {
            d as u128
        };
        if self.steps == u64::MAX || self.cumulative_loss > u128::MAX - ad {
            return false;
        }
        self.cumulative_loss = self.cumulative_loss + ad;
        self.steps = self.steps + 1;
        let ghost f0 = self.ftrl;
        let ghost s0 = self.interactions;
        let ghost recs = s0.records(user as int);
        proof {
            s0.lemma_wf_facts(user as int);
            assert forall|k1: int, k2: int|
                0 <= k1 < reach@.len() && 0 <= k2 < reach@.len() && k1 != k2 implies reach@[k1]
                != reach@[k2] by {
                assert(reach@[k1] == recs[recs.len() - 1 - k1].item);
                assert(reach@[k2] == recs[recs.len() - 1 - k2].item);
            }
        }
        let mut j: usize = 0;
        while j < reach.len()
            invariant
                self.wf(),
                self.interactions == s0,
                self.user_ids == m0.user_ids,
                self.item_ids == m0.item_ids,
                self.cumulative_loss == m0.cumulative_loss + ad,
                self.steps == m0.steps + 1,
                reach@ == recent_items(s0.records(user as int), FAN_OUT as int),
                j <= reach@.len(),
                self.ftrl.params() == f0.params(),
                forall|k1: int, k2: int|
                    0 <= k1 < reach@.len() && 0 <= k2 < reach@.len() && k1 != k2 ==> reach@[k1]
                        != reach@[k2],
                forall|a: u32, b: u32|
                    #[trigger] self.ftrl.coord_of(a, b) == trained(
                        f0,
                        s0,
                        user,
                        item,
                        d as int,
                        reach@.subrange(0, j as int),
                        a,
                        b,
                    ),
            decreases reach@.len() - j,
        {
            let x = reach[j];
            let ghost before = self.ftrl;
            let ghost pre = reach@.subrange(0, j as int);
            let ghost post = reach@.subrange(0, j as int + 1);
            assert(post =~= pre.push(x));
            assert(!pre.contains(x)) by {
                if pre.contains(x) {
                    let k = choose|k: int| 0 <= k < pre.len() && pre[k] == x;
                    assert(reach@[k] == reach@[j as int]);
                }
            }
            if x != item {
                let r = self.interactions.get_user_item_rating(user, x, 0);
                let di: i128 = d as i128;
                let ri: i128 = r as i128;
                assert(-0x4000_0000_0000_0000_0000_0000_0000_0000 <= di * ri
                    <= 0x4000_0000_0000_0000_0000_0000_0000_0000) by (nonlinear_arith)
                    requires
                        -0x8000_0000_0000_0000 <= di <= 0x7fff_ffff_ffff_ffff,
                        -0x8000_0000_0000_0000 <= ri <= 0x7fff_ffff_ffff_ffff,
                ;
                let g128: i128 = tdiv_exec(di * ri, ONE as i128);
                assert(g128 == grad_of(d as int, rating_or_zero(s0, user, x)));
                if fits_exec(g128) && (g128 > MIN_GRAD as i128 || g128 < -(MIN_GRAD as i128)) {
                    self.ftrl.update_gradients(x, item, g128 as i64);
                }
            }
            proof {
                assert forall|a: u32, b: u32|
                    #[trigger] self.ftrl.coord_of(a, b) == trained(
                        f0,
                        s0,
                        user,
                        item,
                        d as int,
                        post,
                        a,
                        b,
                    ) by {
                    assert(before.coord_of(a, b) == trained(f0, s0, user, item, d as int, pre, a, b));
                    if a == x && b == item {
                        assert(post[j as int] == x);
                        assert(post.contains(x));
                    } else {
                        if b == item && a != item {
                            if post.contains(a) {
                                let k = choose|k: int| 0 <= k < post.len() && post[k] == a;
                                assert(pre[k] == a);
                            }
                            if pre.contains(a) {
                                let k = choose|k: int| 0 <= k < pre.len() && pre[k] == a;
                                assert(post[k] == a);
                            }
                        }
                    }
                }
            }
            j = j + 1;
        }
        assert(reach@.subrange(0, reach@.len() as int) =~= reach@);
        assert(loss_of(m0.ftrl, s0, user, item) == Some(d as int));
        true
    }

    /// Records one interaction by ids and trains on it.
    pub fn fit_event(&mut self, user: u32, item: u32, time: i64, rating: i64, update_existing: bool)
        requires
            old(self).wf(),
        ensures
            Self::fit_step(*old(self), *final(self), user, item, time, rating, update_existing),
    {
        self.interactions.add_interaction(user, item, time, rating, update_existing);
        let ghost mid = *self;
        let _ = self.update_weights(user, item);
        assert(mid.interactions == self.interactions);
    }

    /// Records and trains on each event `(user, item, time, rating)` by ids,
    /// in order.
    pub fn fit_identified(&mut self, events: Vec<(u32, u32, i64, i64)>, update_existing: Option<bool>)
        requires
            old(self).wf(),
        ensures
            final(self).wf(),
            exists|ms: Seq<SlimMSE>|
                {
                    &&& ms.len() == events@.len() + 1
                    &&& ms[0] == *old(self)
                    &&& ms.last() == *final(self)
                    &&& forall|k: int|
                        0 <= k < events@.len() ==> Self::fit_step(
                            #[trigger] ms[k],
                            ms[k + 1],
                            events@[k].0,
                            events@[k].1,
                            events@[k].2,
                            events@[k].3,
                            update_existing == Some(true),
                        )
                },
    {
        let upd = match update_existing {
            Some(b) => b,
            None => false,
        };
        let ghost ms: Seq<SlimMSE> = seq![*self];
        let mut j: usize = 0;
        while j < events.len()
            invariant
                self.wf(),
                upd == (update_existing == Some(true)),
                j <= events@.len(),
                ms.len() == j + 1,
                ms.last() == *self,
                ms[0] == *old(self),
                forall|k: int|
                    0 <= k < j ==> Self::fit_step(
                        #[trigger] ms[k],
                        ms[k + 1],
                        events@[k].0,
                        events@[k].1,
                        events@[k].2,
                        events@[k].3,
                        upd,
                    ),
            decreases events@.len() - j,
        {
            let (u, i, t, r) = events[j];
            self.fit_event(u, i, t, r, upd);
            proof {
                let ms0 = ms;
                ms = ms.push(*self);
                assert(ms[j as int] == ms0[j as int]);
                assert forall|k: int| 0 <= k < j + 1 implies Self::fit_step(
                    #[trigger] ms[k],
                    ms[k + 1],
                    events@[k].0,
                    events@[k].1,
                    events@[k].2,
                    events@[k].3,
                    upd,
                ) by {
                    if k < j {
                        assert(ms[k] == ms0[k] && ms[k + 1] == ms0[k + 1]);
                    }
                }
            }
            j = j + 1;
        }
    }

    /// Identifies both keys and, when both have ids, records and trains on
    /// the interaction. Returns the ids used.
    pub fn fit_key_event(
        &mut self,
        user: Key,
        item: Key,
        time: i64,
        rating: i64,
        update_existing: bool,
    ) -> (r: Option<(u32, u32)>)
        requires
            old(self).wf(),
        ensures
            Self::key_step(*old(self), *final(self), user@, item@, time, rating, update_existing),
            match r {
                Some((u, i)) => final(self).users().contains(user@) && final(self).items().contains(item@)
                    && u == index_in(final(self).users(), user@) && i == index_in(final(self).items(), item@),
                None => !(final(self).users().contains(user@) && final(self).items().contains(item@)),
            },
    {
        let ghost uk = user@;
        let ghost ik = item@;
        let u = self.user_ids.identify(user);
        let i = self.item_ids.identify(item);
        proof {
            assert(self.user_ids@ =~= identified(old(self).user_ids@, uk));
            assert(self.item_ids@ =~= identified(old(self).item_ids@, ik));
            if self.user_ids@.contains(uk) {
                let c = index_in(self.user_ids@, uk);
                if let Some(uu) = u {
                    assert(self.user_ids@[uu as int] == uk);
                    assert(c == uu);
                } else {
                    assert(old(self).user_ids@.len() >= MAX_IDS && !old(self).user_ids@.contains(uk));
                }
            } else {
                if let Some(uu) = u {
                    assert(self.user_ids@[uu as int] == uk);
                }
            }
            if self.item_ids@.contains(ik) {
                let c = index_in(self.item_ids@, ik);
                if let Some(ii) = i {
                    assert(self.item_ids@[ii as int] == ik);
                    assert(c == ii);
                }
            } else {
                if let Some(ii) = i {
                    assert(self.item_ids@[ii as int] == ik);
                }
            }
        }
        match (u, i) {
            (Some(u), Some(i)) => {
                self.fit_event(u, i, time, rating, update_existing);
                Some((u, i))
            },
            _ => None,
        }
    }

    /// Identifies and fits each event `(user, item, time, rating)` by keys,
    /// in order. An event whose keys cannot both get ids is skipped.
    pub fn fit(&mut self, events: Vec<(Key, Key, i64, i64)>, update_existing: Option<bool>)
        requires
            old(self).wf(),
        ensures
            final(self).wf(),
            exists|ms: Seq<SlimMSE>|
                {
                    &&& ms.len() == events@.len() + 1
                    &&& ms[0] == *old(self)
                    &&& ms.last() == *final(self)
                    &&& forall|k: int|
                        0 <= k < events@.len() ==> Self::key_step(
                            #[trigger] ms[k],
                            ms[k + 1],
                            events@[k].0@,
                            events@[k].1@,
                            events@[k].2,
                            events@[k].3,
                            update_existing == Some(true),
                        )
                },
    {
        let upd = match update_existing {
            Some(b) => b,
            None => false,
        };
        let ghost ms: Seq<SlimMSE> = seq![*self];
        let ghost evs = events@;
        let mut j: usize = 0;
        while j < events.len()
            invariant
                self.wf(),
                upd == (update_existing == Some(true)),
                evs == events@,
                j <= evs.len(),
                ms.len() == j + 1,
                ms.last() == *self,
                ms[0] == *old(self),
                forall|k: int|
                    0 <= k < j ==> Self::key_step(
                        #[trigger] ms[k],
                        ms[k + 1],
                        evs[k].0@,
                        evs[k].1@,
                        evs[k].2,
                        evs[k].3,
                        upd,
                    ),
            decreases evs.len() - j,
        {
            let ev = &events[j];
            let uk = ev.0.copy();
            let ik = ev.1.copy();
            let t = ev.2;
            let r = ev.3;
            let _ = self.fit_key_event(uk, ik, t, r, upd);
            proof {
                let ms0 = ms;
                ms = ms.push(*self);
                assert(ms[j as int] == ms0[j as int]);
                assert forall|k: int| 0 <= k < j + 1 implies Self::key_step(
                    #[trigger] ms[k],
                    ms[k + 1],
                    evs[k].0@,
                    evs[k].1@,
                    evs[k].2,
                    evs[k].3,
                    upd,
                ) by {
                    if k < j {
                        assert(ms[k] == ms0[k] && ms[k + 1] == ms0[k + 1]);
                    }
                }
            }
            j = j + 1;
        }
    }

    /// The predicted rating of `item` by `user`: zero when either key is
    /// unknown, the stored rating when the user's only item is `item`, else
    /// the weighted sum over the user's other items. `None` when the sum
    /// leaves the range of `i64`.
    pub fn predict_rating(&self, user: &Key, item: &Key) -> (r: Option<i64>)
        requires
            self.wf(),
        ensures
            !self.users().contains(user@) || !self.items().contains(item@) ==> r == Some(0i64),
            self.users().contains(user@) && self.items().contains(item@) ==> match served_prediction(
                self.weights(),
                self.store(),
                index_in(self.users(), user@) as u32,
                index_in(self.items(), item@) as u32,
            ) {
                Some(v) => r == Some(v as i64),
                None => r.is_none(),
            },
    {
        let u = match self.user_ids.get_id(user) {
            Some(u) => u,
            None => {
                return Some(0);
            },
        };
        let i = match self.item_ids.get_id(item) {
            Some(i) => i,
            None => {
                return Some(0);
            },
        };
        proof {
            let cu = index_in(self.user_ids@, user@);
            assert(self.user_ids@[u as int] == user@);
            assert(cu == u);
            let ci = index_in(self.item_ids@, item@);
            assert(self.item_ids@[i as int] == item@);
            assert(ci == i);
        }
        self.predict_ids(u, i, true)
    }

    /// The mean absolute training error since the last reset, in fixed
    /// point (zero before any step); with `reset`, the totals restart.
    pub fn get_empirical_error(&mut self, reset: Option<bool>) -> (r: u128)
        requires
            old(self).wf(),
        ensures
            final(self).wf(),
            r == if old(self).step_count() == 0 {
                0
            } else {
                old(self).loss_total() / old(self).step_count()
            },
            final(self).store() == old(self).store(),
            final(self).weights() == old(self).weights(),
            final(self).users() == old(self).users(),
            final(self).items() == old(self).items(),
            reset == Some(true) && old(self).step_count() > 0 ==> final(self).loss_total() == 0
                && final(self).step_count() == 0,
            !(reset == Some(true) && old(self).step_count() > 0) ==> final(self).loss_total()
                == old(self).loss_total() && final(self).step_count() == old(self).step_count(),
    {
        if self.steps == 0 {
            0
        } else {
            let err = self.cumulative_loss / self.steps as u128;
            if reset == Some(true) {
                self.cumulative_loss = 0;
                self.steps = 0;
            }
            err
        }
    }

    /// The `top_k` best recommendation candidates of `user` by id, best first.
    pub fn recommend_ids(&self, user: u32, top_k: usize, filter_interacted: bool) -> (r: Vec<(i64, u32)>)
        requires
            self.wf(),
        ensures
            ranked_ok(
                r@,
                top_k as int,
                |c: u32| rec_candidate(self.store(), user, c, filter_interacted),
                |c: u32| rec_score(self.weights(), self.store(), user, c),
            ),
    {
        let cands = if filter_interacted {
            self.interactions.get_all_non_interacted_items(user)
        } else {
            self.interactions.get_all_non_negative_items(user)
        };
        let mut pairs: Vec<(i64, u32)> = Vec::new();
        let mut j: usize = 0;
        while j < cands.len()
            invariant
                self.wf(),
                j <= cands@.len(),
                pairs@.len() == j,
                forall|k: int| 0 <= k < j ==> (#[trigger] pairs@[k]).1 == cands@[k] && pairs@[k].0
                    == rec_score(self.ftrl, self.interactions, user, cands@[k]),
            decreases cands@.len() - j,
        {
            let c = cands[j];
            let v = match self.predict_ids(user, c, false) {
                Some(v) => v,
                None => i64::MIN,
            };
            pairs.push((v, c));
            j = j + 1;
        }
        let ghost ps = pairs@;
        proof {
            assert forall|a: int, b: int|
                0 <= a < ps.len() && 0 <= b < ps.len() && a != b implies ps[a].1 != ps[b].1 by {
                assert(ps[a].1 == cands@[a] && ps[b].1 == cands@[b]);
                if a < b {
                    assert(cands@[a] < cands@[b]);
                } else {
                    assert(cands@[b] < cands@[a]);
                }
            }
        }
        let r = top_scored(pairs, top_k);
        proof {
            let cand = |c: u32| rec_candidate(self.store(), user, c, filter_interacted);
            let score = |c: u32| rec_score(self.weights(), self.store(), user, c);
            assert forall|a: int| 0 <= a < r@.len() implies cand(#[trigger] r@[a].1) && r@[a].0 == score(r@[a].1) by {
                assert(ps.contains(r@[a]));
                let i = choose|i: int| 0 <= i < ps.len() && ps[i] == r@[a];
                assert(cands@.contains(cands@[i]));
                assert(r@[a].1 == cands@[i]);
            }
            assert forall|c: u32| cand(c) && !has_id(r@, c) implies r@.len() == top_k && forall|a: int|
                0 <= a < r@.len() ==> score(c) <= r@[a].0 by {
                assert(cands@.contains(c));
                let i = choose|i: int| 0 <= i < cands@.len() && cands@[i] == c;
                let x = ps[i];
                assert(ps.contains(x));
                if r@.contains(x) {
                    let a = choose|a: int| 0 <= a < r@.len() && r@[a] == x;
                    assert(r@[a].1 == c);
                }
            }
        }
        r
    }

    /// The `top_k` items most similar to item `query` by id, best first.
    pub fn similar_ids(&self, query: u32, top_k: usize, filter_query_items: bool) -> (r: Vec<(i64, u32)>)
        requires
            self.wf(),
        ensures
            ranked_ok(
                r@,
                top_k as int,
                |c: u32| sim_candidate(self.store(), query, c, filter_query_items),
                |c: u32| sim_score(self.weights(), query, c),
            ),
    {
        let all = self.interactions.get_all_item_ids();
        let mut pairs: Vec<(i64, u32)> = Vec::new();
        let mut j: usize = 0;
        while j < all.len()
            invariant
                self.wf(),
                j <= all@.len(),
                all@.len() == self.interactions.item_universe(),
                forall|k: int| 0 <= k < all@.len() ==> all@[k] == k,
                forall|k: int| 0 <= k < pairs@.len() ==> (#[trigger] pairs@[k]).1 < j && sim_candidate(
                    self.interactions, query, pairs@[k].1, filter_query_items)
                    && pairs@[k].0 == sim_score(self.ftrl, query, pairs@[k].1),
                forall|a: int, b: int| 0 <= a < b < pairs@.len() ==> pairs@[a].1 < pairs@[b].1,
                forall|c: u32| (c as int) < j && sim_candidate(self.interactions, query, c, filter_query_items)
                    ==> exists|k: int| 0 <= k < pairs@.len() && pairs@[k].1 == c,
            decreases all@.len() - j,
        {
            let c = all[j];
            if !filter_query_items || c != query {
                let v = match self.ftrl.get_weight(c, query) {
                    Some(w) => w,
                    None => i64::MIN,
                };
                let ghost before = pairs@;
                pairs.push((v, c));
                proof {
                    assert forall|d: u32| (d as int) < j + 1 && sim_candidate(self.interactions, query, d, filter_query_items)
                        implies exists|k: int| 0 <= k < pairs@.len() && pairs@[k].1 == d by {
                        if d == c {
                            assert(pairs@[pairs@.len() - 1].1 == d);
                        } else {
                            let k = choose|k: int| 0 <= k < before.len() && before[k].1 == d;
                            assert(pairs@[k].1 == d);
                        }
                    }
                }
            }
            j = j + 1;
        }
        let ghost ps = pairs@;
        let r = top_scored(pairs, top_k);
        proof {
            let cand = |c: u32| sim_candidate(self.store(), query, c, filter_query_items);
            let score = |c: u32| sim_score(self.weights(), query, c);
            assert forall|a: int| 0 <= a < r@.len() implies cand(#[trigger] r@[a].1) && r@[a].0 == score(r@[a].1) by {
                assert(ps.contains(r@[a]));
            }
            assert forall|c: u32| cand(c) && !has_id(r@, c) implies r@.len() == top_k && forall|a: int|
                0 <= a < r@.len() ==> score(c) <= r@[a].0 by {
                let i = choose|i: int| 0 <= i < ps.len() && ps[i].1 == c;
                let x = ps[i];
                assert(ps.contains(x));
                if r@.contains(x) {
                    let a = choose|a: int| 0 <= a < r@.len() && r@[a] == x;
                    assert(r@[a].1 == c);
                }
            }
        }
        r
    }

    /// The keys of ranked item ids, in order, leaving out ids with no key.
    fn keys_of(&self, ranked: &Vec<(i64, u32)>) -> (r: Vec<Key>)
        requires
            self.wf(),
        ensures
            r@.map_values(|k: Key| k@) == keys_for(self.items(), ranked@),
    {
        let mut out: Vec<Key> = Vec::new();
        let mut j: usize = 0;
        while j < ranked.len()
            invariant
                j <= ranked@.len(),
                out@.map_values(|k: Key| k@) == keys_for(self.item_ids@, ranked@.subrange(0, j as int)),
            decreases ranked@.len() - j,
        {
            let ghost pre = out@;
            proof {
                let p = ranked@.subrange(0, j as int + 1);
                assert(p.drop_last() =~= ranked@.subrange(0, j as int));
            }
            match self.item_ids.get(ranked[j].1) {
                Some(k) => {
                    out.push(k);
                    assert(out@.map_values(|k: Key| k@) =~= pre.map_values(|k: Key| k@).push(k@));
                },
                None => {},
            }
            j = j + 1;
        }
        assert(ranked@.subrange(0, ranked@.len() as int) =~= ranked@);
        out
    }

    /// The keys of the `top_k` best candidates for `user`, best first: by
    /// default items the user never rated, else all items not rated below
    /// zero. Empty for an unknown user.
    pub fn recommend(&self, user: &Key, top_k: usize, filter_interacted: Option<bool>) -> (r: Vec<Key>)
        requires
            self.wf(),
        ensures
            !self.users().contains(user@) ==> r@.len() == 0,
            self.users().contains(user@) ==> exists|ranked: Seq<(i64, u32)>|
                {
                    &&& ranked_ok(
                        ranked,
                        top_k as int,
                        |c: u32| rec_candidate(self.store(), index_in(self.users(), user@) as u32, c, filter_interacted != Some(false)),
                        |c: u32| rec_score(self.weights(), self.store(), index_in(self.users(), user@) as u32, c),
                    )
                    &&& r@.map_values(|k: Key| k@) == keys_for(self.items(), ranked)
                },
    {
        let u = match self.user_ids.get_id(user) {
            Some(u) => u,
            None => {
                return Vec::new();
            },
        };
        proof {
            assert(self.user_ids@[u as int] == user@);
            assert(index_in(self.user_ids@, user@) == u);
        }
        let filter = match filter_interacted {
            Some(b) => b,
            None => true,
        };
        let ranked = self.recommend_ids(u, top_k, filter);
        self.keys_of(&ranked)
    }

    /// For each query key, the keys of the `top_k` items whose weight toward
    /// it is highest, best first (the query itself left out when
    /// `filter_query_items`). Empty for an unknown query key.
    pub fn similar_items(&self, query_items: Vec<Key>, top_k: usize, filter_query_items: bool) -> (r: Vec<Vec<Key>>)
        requires
            self.wf(),
        ensures
            r@.len() == query_items@.len(),
            forall|q: int| 0 <= q < r@.len() ==> {
                let qk = (#[trigger] query_items@[q])@;
                &&& !self.items().contains(qk) ==> r@[q]@.len() == 0
                &&& self.items().contains(qk) ==> exists|ranked: Seq<(i64, u32)>|
                    {
                        &&& ranked_ok(
                            ranked,
                            top_k as int,
                            |c: u32| sim_candidate(self.store(), index_in(self.items(), qk) as u32, c, filter_query_items),
                            |c: u32| sim_score(self.weights(), index_in(self.items(), qk) as u32, c),
                        )
                        &&& r@[q]@.map_values(|k: Key| k@) == keys_for(self.items(), ranked)
                    }
            },
    {
        let mut out: Vec<Vec<Key>> = Vec::new();
        let mut j: usize = 0;
        while j < query_items.len()
            invariant
                self.wf(),
                j <= query_items@.len(),
                out@.len() == j,
                forall|q: int| 0 <= q < j ==> {
                    let qk = (#[trigger] query_items@[q])@;
                    &&& !self.items().contains(qk) ==> out@[q]@.len() == 0
                    &&& self.items().contains(qk) ==> exists|ranked: Seq<(i64, u32)>|
                        {
                            &&& ranked_ok(
                                ranked,
                                top_k as int,
                                |c: u32| sim_candidate(self.store(), index_in(self.items(), qk) as u32, c, filter_query_items),
                                |c: u32| sim_score(self.weights(), index_in(self.items(), qk) as u32, c),
                            )
                            &&& out@[q]@.map_values(|k: Key| k@) == keys_for(self.items(), ranked)
                        }
                },
            decreases query_items@.len() - j,
        {
            let row = match self.item_ids.get_id(&query_items[j]) {
                None => Vec::new(),
                Some(q) => {
                    proof {
                        assert(self.item_ids@[q as int] == query_items@[j as int]@);
                        assert(index_in(self.item_ids@, query_items@[j as int]@) == q);
                    }
                    let ranked = self.similar_ids(q, top_k, filter_query_items);
                    self.keys_of(&ranked)
                },
            };
            out.push(row);
            j = j + 1;
        }
        out
    }

    /// The ids of each `(user, item)` key pair, assigning new ids as needed;
    /// `None` for a pair when a registry is full. Nothing else changes.
    pub fn bulk_identify(&mut self, pairs: Vec<(Key, Key)>) -> (r: Vec<Option<(u32, u32)>>)
        requires
            old(self).wf(),
        ensures
            final(self).wf(),
            final(self).store() == old(self).store(),
            final(self).weights() == old(self).weights(),
            final(self).loss_total() == old(self).loss_total(),
            final(self).step_count() == old(self).step_count(),
            final(self).users() == identified_all(old(self).users(), pairs@.map_values(|p: (Key, Key)| p.0@)),
            final(self).items() == identified_all(old(self).items(), pairs@.map_values(|p: (Key, Key)| p.1@)),
            old(self).users().is_prefix_of(final(self).users()),
            old(self).items().is_prefix_of(final(self).items()),
            r@.len() == pairs@.len(),
            forall|k: int| 0 <= k < r@.len() ==> match #[trigger] r@[k] {
                Some((u, i)) => u < final(self).users().len() && final(self).users()[u as int]
                    == pairs@[k].0@ && i < final(self).items().len() && final(self).items()[i as int] == pairs@[k].1@,
                None => final(self).users().len() >= MAX_IDS || final(self).items().len() >= MAX_IDS,
            },
    {
        let mut out: Vec<Option<(u32, u32)>> = Vec::new();
        let mut j: usize = 0;
        while j < pairs.len()
            invariant
                self.wf(),
                self.interactions == old(self).interactions,
                self.ftrl == old(self).ftrl,
                self.cumulative_loss == old(self).cumulative_loss,
                self.steps == old(self).steps,
                old(self).user_ids@.is_prefix_of(self.user_ids@),
                old(self).item_ids@.is_prefix_of(self.item_ids@),
                self.user_ids@ == identified_all(old(self).user_ids@, pairs@.map_values(|p: (Key, Key)| p.0@).subrange(0, j as int)),
                self.item_ids@ == identified_all(old(self).item_ids@, pairs@.map_values(|p: (Key, Key)| p.1@).subrange(0, j as int)),
                j <= pairs@.len(),
                out@.len() == j,
                forall|k: int| 0 <= k < j ==> match #[trigger] out@[k] {
                    Some((u, i)) => u < self.user_ids@.len() && self.user_ids@[u as int]
                        == pairs@[k].0@ && i < self.item_ids@.len() && self.item_ids@[i as int] == pairs@[k].1@,
                    None => self.user_ids@.len() >= MAX_IDS || self.item_ids@.len() >= MAX_IDS,
                },
            decreases pairs@.len() - j,
        {
            let ghost us = self.user_ids@;
            let ghost is = self.item_ids@;
            let u = self.user_ids.identify(pairs[j].0.copy());
            let i = self.item_ids.identify(pairs[j].1.copy());
            let e = match (u, i) {
                (Some(u), Some(i)) => Some((u, i)),
                _ => None,
            };
            out.push(e);
            proof {
                let fu = pairs@.map_values(|p: (Key, Key)| p.0@);
                let fi = pairs@.map_values(|p: (Key, Key)| p.1@);
                assert(fu.subrange(0, j as int + 1).drop_last() =~= fu.subrange(0, j as int));
                assert(fi.subrange(0, j as int + 1).drop_last() =~= fi.subrange(0, j as int));
                assert(self.user_ids@ =~= identified(us, pairs@[j as int].0@));
                assert(self.item_ids@ =~= identified(is, pairs@[j as int].1@));
                assert(us.is_prefix_of(self.user_ids@));
                assert(is.is_prefix_of(self.item_ids@));
                assert forall|k: int| 0 <= k < j + 1 implies match #[trigger] out@[k] {
                    Some((u, i)) => u < self.user_ids@.len() && self.user_ids@[u as int]
                        == pairs@[k].0@ && i < self.item_ids@.len() && self.item_ids@[i as int] == pairs@[k].1@,
                    None => self.user_ids@.len() >= MAX_IDS || self.item_ids@.len() >= MAX_IDS,
                } by {
                    if k < j {
                        match out@[k] {
                            Some((u, i)) => {
                                assert(self.user_ids@[u as int] == us[u as int]);
                                assert(self.item_ids@[i as int] == is[i as int]);
                            },
                            None => {},
                        }
                    }
                }
            }
            j = j + 1;
        }
        assert(pairs@.map_values(|p: (Key, Key)| p.0@).subrange(0, j as int) =~= pairs@.map_values(|p: (Key, Key)| p.0@));
        assert(pairs@.map_values(|p: (Key, Key)| p.1@).subrange(0, j as int) =~= pairs@.map_values(|p: (Key, Key)| p.1@));
        assert(pairs@.map_values(|p: (Key, Key)| p.0@).subrange(0, j as int) =~= pairs@.map_values(|p: (Key, Key)| p.0@));
        assert(pairs@.map_values(|p: (Key, Key)| p.1@).subrange(0, j as int) =~= pairs@.map_values(|p: (Key, Key)| p.1@));
        out
    }

    /// The interaction store.
    pub fn interactions(&self) -> (r: &UserItemInteractions)
        ensures
            *r == self.store(),
    {
        &self.interactions
    }

    /// The weight matrix and its optimizer state.
    pub fn optimizer(&self) -> (r: &Ftrl)
        ensures
            *r == self.weights(),
    {
        &self.ftrl
    }

    /// The user key registry.
    pub fn user_registry(&self) -> (r: &Identifier)
        ensures
            r@ == self.users(),
    {
        &self.user_ids
    }

    /// The item key registry.
    pub fn item_registry(&self) -> (r: &Identifier)
        ensures
            r@ == self.items(),
    {
        &self.item_ids
    }

    /// The error total and the step count since the last reset.
    pub fn error_totals(&self) -> (r: (u128, u64))
        ensures
            r.0 == self.loss_total() && r.1 == self.step_count(),
    {
        (self.cumulative_loss, self.steps)
    }

    /// The whole state of the model as plain values.
    pub fn to_parts(&self) -> (r: ModelParts)
        requires
            self.wf(),
        ensures
            parts_of(*self, r),
            parts_valid(r),
    {
        let (min_value, max_value, half_life) = self.interactions.config();
        let n = self.interactions.user_count();
        let mut records: Vec<Vec<Record>> = Vec::new();
        let mut u: usize = 0;
        while u < n
            invariant
                u <= n,
                records@.len() == u,
                forall|k: int| 0 <= k < u ==> #[trigger] records@[k]@ == self.interactions.records(k),
            decreases n - u,
        {
            records.push(self.interactions.user_records(u));
            u = u + 1;
        }
        let r = ModelParts {
            params: self.ftrl.params_value(),
            min_value,
            max_value,
            half_life,
            clock: self.interactions.clock_value(),
            item_count: self.interactions.item_count(),
            records,
            weights: self.ftrl.entry_list(),
            users: self.user_ids.keys(),
            items: self.item_ids.keys(),
            cumulative_loss: self.cumulative_loss,
            steps: self.steps,
        };
        proof {
            assert(forall|k: int| 0 <= k < r.records@.len() ==> #[trigger] r.records@[k]@ == self.store().records(k));
            assert(r.weights@ == self.weights().entries());
            assert(r.users@.map_values(|k: Key| k@) == self.users());
            assert(r.items@.map_values(|k: Key| k@) == self.items());
            assert(parts_of(*self, r));
            lemma_round_trip(*self, r, *self);
        }
        r
    }

    /// The model whose state `p` holds; `None` when `p` is not a valid
    /// state.
    pub fn from_parts(p: ModelParts) -> (r: Option<SlimMSE>)
        ensures
            match r {
                Some(m) => m.wf() && parts_of(m, p),
                None => !parts_valid(p),
            },
    {
        let ghost p0 = p;
        let ModelParts {
            params, min_value, max_value, half_life, clock, item_count, records, weights, users, items,
            cumulative_loss, steps,
        } = p;
        let ghost rows = records@;
        let interactions = match UserItemInteractions::from_records(
            min_value, max_value, half_life, clock, item_count, records,
        ) {
            Some(s) => s,
            None => {
                return None;
            },
        };
        let ftrl = match Ftrl::from_entries(params, weights) {
            Some(f) => f,
            None => {
                return None;
            },
        };
        let user_ids = match Identifier::from_keys(users) {
            Some(r) => r,
            None => {
                return None;
            },
        };
        let item_ids = match Identifier::from_keys(items) {
            Some(r) => r,
            None => {
                return None;
            },
        };
        let m = SlimMSE { interactions, ftrl, cumulative_loss, steps, user_ids, item_ids };
        assert(forall|u: int| 0 <= u < p0.records@.len() ==> #[trigger] p0.records@[u]@ == m.store().records(u));
        Some(m)
    }

    /// The predicted rating of `item` by `user`, by id. With `bypass`, a
    /// user whose only item is `item` gets the stored rating back.
    /// `None` when the sum leaves the range of `i64`.
    pub fn predict_ids(&self, user: u32, item: u32, bypass: bool) -> (r: Option<i64>)
        requires
            self.wf(),
        ensures
            match (if bypass {
                served_prediction(self.weights(), self.store(), user, item)
            } else {
                prediction(self.weights(), self.store(), user, item)
            }) {
                Some(v) => r == Some(v as i64),
                None => r.is_none(),
            },
    {
        let xs = self.interactions.get_user_items(user, None);
        if bypass && xs.len() == 1 && xs[0] == item {
            assert(xs@ =~= seq![item]);
            return Some(self.interactions.get_user_item_rating(user, item, 0));
        }
        proof {
            if bypass && xs@ == seq![item] {
                assert(xs@.len() == 1 && xs@[0] == item);
            }
        }
        self.sum_over(user, &xs, item)
    }
}

} // verus!
