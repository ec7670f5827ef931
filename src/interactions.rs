use vstd::prelude::*;

verus! {

/// One stored interaction of a user: the item, when it happened, and its
/// (clamped) rating in fixed point.
#[derive(Clone, Copy, Debug)]
pub struct Record {
    pub item: u32,
    pub time: i64,
    pub rating: i64,
}

/// `v` limited to `[lo, hi]`.
pub open spec fn clamp(v: int, lo: int, hi: int) -> int {
    if v < lo {
        lo
    } else if v > hi {
        hi
    } else {
        v
    }
}

/// Halving of `v`, rounding toward zero.
pub open spec fn half(v: int) -> int {
    if v >= 0 {
        v / 2
    } else {
        -((-v) / 2)
    }
}

/// `v` halved `k` times, each time rounding toward zero.
pub open spec fn halve(v: int, k: nat) -> int
    decreases k,
{
    if k == 0 {
        v
    } else {
        halve(half(v), (k - 1) as nat)
    }
}

pub open spec fn items_of(recs: Seq<Record>) -> Seq<u32> {
    recs.map_values(|r: Record| r.item)
}

/// The items of the newest `n` records, newest first.
pub open spec fn recent_items(recs: Seq<Record>, n: int) -> Seq<u32> {
    let k = if n < recs.len() {
        n
    } else {
        recs.len() as int
    };
    Seq::new(k as nat, |j: int| recs[recs.len() - 1 - j].item)
}

pub open spec fn has_item(recs: Seq<Record>, item: u32) -> bool {
    exists|j: int| 0 <= j < recs.len() && recs[j].item == item
}

pub open spec fn distinct_items(recs: Seq<Record>) -> bool {
    forall|a: int, b: int|
        0 <= a < recs.len() && 0 <= b < recs.len() && a != b ==> recs[a].item != recs[b].item
}

/// Per-user interaction histories, oldest first: a record moves to the
/// end when a repeated interaction replaces it. Ratings are clamped on entry and, when a half-life is set,
/// halved once for each full half-life between their time and the newest
/// time the store has seen.
pub struct UserItemInteractions {
    min_value: i64,
    max_value: i64,
    half_life: Option<u64>,
    users: Vec<Vec<Record>>,
    item_count: u64,
    latest: i64,
}

impl UserItemInteractions {
    /// The records of user `u`, empty for a user never seen.
    pub closed spec fn records(&self, u: int) -> Seq<Record> {
        if 0 <= u < self.users@.len() {
            self.users@[u]@
        } else {
            Seq::empty()
        }
    }

    /// Item ids `0 .. item_universe()` are known to the store.
    pub closed spec fn item_universe(&self) -> nat {
        self.item_count as nat
    }

    /// The lower end of the rating range.
    pub closed spec fn lo(&self) -> int {
        self.min_value as int
    }

    /// The upper end of the rating range.
    pub closed spec fn hi(&self) -> int {
        self.max_value as int
    }

    /// The half-life of a rating, if ratings decay.
    pub closed spec fn decay(&self) -> Option<u64> {
        self.half_life
    }

    /// The newest time seen.
    pub closed spec fn clock(&self) -> int {
        self.latest as int
    }

    pub closed spec fn wf(&self) -> bool {
        &&& self.item_count <= 0x1_0000_0000
        &&& forall|u: int|
            0 <= u < self.users@.len() ==> {
                &&& distinct_items(#[trigger] self.users@[u]@)
                &&& forall|j: int|
                    0 <= j < self.users@[u]@.len() ==> {
                        &&& (self.users@[u]@[j].item as int) < self.item_count
                        &&& (self.min_value <= self.max_value ==> self.min_value
                            <= self.users@[u]@[j].rating <= self.max_value)
                    }
            }
    }

    /// The number of full half-lives from `time` to the newest time seen.
    pub closed spec fn elapsed_halvings(&self, time: int) -> nat {
        match self.half_life {
            Some(h) => if h > 0 && self.clock() > time {
                ((self.clock() - time) / (h as int)) as nat
            } else {
                0
            },
            None => 0,
        }
    }

    /// The rating of a record as read now.
    pub closed spec fn effective(&self, r: Record) -> int {
        halve(r.rating as int, self.elapsed_halvings(r.time as int))
    }

    /// The rating that user `u` gives `item`, if any.
    pub closed spec fn rating_of(&self, u: int, item: u32) -> Option<int> {
        if has_item(self.records(u), item) {
            let j = choose|j: int|
                0 <= j < self.records(u).len() && self.records(u)[j].item == item;
            Some(self.effective(self.records(u)[j]))
        } else {
            None
        }
    }

    pub proof fn lemma_wf_facts(&self, u: int)
        requires
            self.wf(),
        ensures
            distinct_items(self.records(u)),
            forall|j: int|
                0 <= j < self.records(u).len() ==> (self.records(u)[j].item as int)
                    < self.item_universe(),
            self.item_universe() <= 0x1_0000_0000,
    {
    }

    /// The rating read for the item of record `j` is that record's rating as
    /// read now; without decay, its stored rating.
    pub proof fn lemma_rating_of_record(&self, u: int, j: int)
        requires
            self.wf(),
            0 <= j < self.records(u).len(),
        ensures
            self.rating_of(u, self.records(u)[j].item) == Some(self.effective(self.records(u)[j])),
            self.decay() is None ==> self.effective(self.records(u)[j]) == self.records(u)[j].rating,
    {
        let item = self.records(u)[j].item;
        let c = choose|c: int| 0 <= c < self.records(u).len() && self.records(u)[c].item == item;
        assert(distinct_items(self.records(u)));
        assert(c == j);
    }

    /// The histories of a well-formed store fit its range and universe.
    pub proof fn lemma_rows_valid(&self, rows: Seq<Seq<Record>>)
        requires
            self.wf(),
            forall|u: int| 0 <= u < rows.len() ==> rows[u] == self.records(u),
        ensures
            valid_rows(rows, self.lo(), self.hi(), self.item_universe() as int),
    {
        assert forall|u: int| 0 <= u < rows.len() implies row_ok(#[trigger] rows[u], self.lo(), self.hi(), self.item_universe() as int) by {
            assert(rows[u] == self.records(u));
        }
    }

    /// An item is rated by a user exactly when it is in the user's history.
    pub proof fn lemma_rating_of_none(&self, u: int, item: u32)
        ensures
            self.rating_of(u, item) is None <==> !has_item(self.records(u), item),
    {
    }

    /// A record of the user's history gives a rating of its item.
    pub proof fn lemma_has_rating(&self, u: int, item: u32, j: int)
        requires
            0 <= j < self.records(u).len(),
            self.records(u)[j].item == item,
        ensures
            self.rating_of(u, item) is Some,
    {
    }

    pub fn new(min_value: i64, max_value: i64, half_life: Option<u64>) -> (r: Self)
        ensures
            r.wf(),
            r.lo() == min_value,
            r.hi() == max_value,
            r.decay() == half_life,
            r.item_universe() == 0,
            forall|u: int| r.records(u) == Seq::<Record>::empty(),
    {
        UserItemInteractions {
            min_value,
            max_value,
            half_life,
            users: Vec::new(),
            item_count: 0,
            latest: i64::MIN,
        }
    }

    /// The position of `item` in the records of `user`.
    fn find(&self, user: u32, item: u32) -> (r: Option<usize>)
        requires
            self.wf(),
        ensures
            match r {
                Some(j) => j < self.records(user as int).len() && self.records(
                    user as int,
                )[j as int].item == item,
                None => !has_item(self.records(user as int), item),
            },
    {
        if (user as usize) >= self.users.len() {
            return None;
        }
        let recs = &self.users[user as usize];
        let mut j: usize = 0;
        while j < recs.len()
            invariant
                recs@ == self.records(user as int),
                j <= recs@.len(),
                forall|k: int| 0 <= k < j ==> recs@[k].item != item,
            decreases recs@.len() - j,
        {
            if recs[j].item == item {
                return Some(j);
            }
            j = j + 1;
        }
        None
    }

    /// The rating range and the half-life.
    pub fn config(&self) -> (r: (i64, i64, Option<u64>))
        ensures
            r.0 == self.lo() && r.1 == self.hi() && r.2 == self.decay(),
    {
        (self.min_value, self.max_value, self.half_life)
    }

    /// The newest time seen.
    pub fn clock_value(&self) -> (r: i64)
        ensures
            r == self.clock(),
    {
        self.latest
    }

    /// Moves the newest time seen forward to `time`, if it is later.
    pub fn advance_clock(&mut self, time: i64)
        requires
            old(self).wf(),
        ensures
            final(self).wf(),
            final(self).lo() == old(self).lo(),
            final(self).hi() == old(self).hi(),
            final(self).decay() == old(self).decay(),
            final(self).item_universe() == old(self).item_universe(),
            forall|u: int| final(self).records(u) == old(self).records(u),
            final(self).clock() == if time > old(self).clock() {
                time as int
            } else {
                old(self).clock()
            },
    {
        if time > self.latest {
            self.latest = time;
        }
    }

    /// One more than the largest user id with a history.
    pub fn user_count(&self) -> (r: usize)
        ensures
            forall|u: int| u < 0 || u >= r ==> self.records(u) == Seq::<Record>::empty(),
    {
        self.users.len()
    }

    /// The records of `user`, in order of first interaction.
    pub fn user_records(&self, user: usize) -> (r: Vec<Record>)
        ensures
            r@ == self.records(user as int),
    {
        if user < self.users.len() {
            self.users[user].clone()
        } else {
            Vec::new()
        }
    }

    /// A store with the given range, half-life, newest time, item universe
    /// and histories; `None` when the histories do not fit them.
    pub fn from_records(
        min_value: i64,
        max_value: i64,
        half_life: Option<u64>,
        clock: i64,
        item_count: u64,
        rows: Vec<Vec<Record>>,
    ) -> (r: Option<Self>)
        ensures
            match r {
                Some(s) => {
                    &&& s.wf()
                    &&& s.lo() == min_value && s.hi() == max_value && s.decay() == half_life
                    &&& s.clock() == clock && s.item_universe() == item_count
                    &&& forall|u: int| 0 <= u < rows@.len() ==> s.records(u) == rows@[u]@
                    &&& forall|u: int| u < 0 || u >= rows@.len() ==> s.records(u) == Seq::<Record>::empty()
                },
                None => !valid_rows(
                    rows@.map_values(|v: Vec<Record>| v@),
                    min_value as int,
                    max_value as int,
                    item_count as int,
                ),
            },
    {
        let ghost vs = rows@.map_values(|v: Vec<Record>| v@);
        if item_count > 0x1_0000_0000 {
            return None;
        }
        let mut u: usize = 0;
        while u < rows.len()
            invariant
                vs == rows@.map_values(|v: Vec<Record>| v@),
                u <= rows@.len(),
                forall|k: int| 0 <= k < u ==> row_ok(#[trigger] vs[k], min_value as int, max_value as int, item_count as int),
            decreases rows@.len() - u,
        {
            if !check_row(&rows[u], min_value, max_value, item_count) {
                assert(vs[u as int] == rows@[u as int]@);
                return None;
            }
            u = u + 1;
        }
        let s = UserItemInteractions {
            min_value,
            max_value,
            half_life,
            users: rows,
            item_count,
            latest: clock,
        };
        proof {
            assert forall|k: int| 0 <= k < s.users@.len() implies row_ok(#[trigger] s.users@[k]@, min_value as int, max_value as int, item_count as int) by {
                assert(vs[k] == s.users@[k]@);
            }
        }
        Some(s)
    }

    pub fn item_count(&self) -> (r: u64)
        ensures
            r == self.item_universe(),
    {
        self.item_count
    }

    /// Records an interaction. A first interaction of the pair is added at
    /// the end of the user's history; a repeated one, only when
    /// `update_existing` holds, replaces the stored record and moves it to
    /// the end.
    pub fn add_interaction(
        &mut self,
        user: u32,
        item: u32,
        time: i64,
        rating: i64,
        update_existing: bool,
    )
        requires
            old(self).wf(),
        ensures
            final(self).wf(),
            final(self).lo() == old(self).lo(),
            final(self).hi() == old(self).hi(),
            final(self).decay() == old(self).decay(),
            interaction_added(*old(self), *final(self), user, item, time, rating, update_existing),
    {
        let c: i64 = if rating < self.min_value {
            self.min_value
        } else if rating > self.max_value {
            self.max_value
        } else {
            rating
        };
        let fresh = Record { item, time, rating: c };
        let ghost old_self = *self;
        while self.users.len() <= user as usize
            invariant
                self.wf(),
                self.item_count == old_self.item_count,
                self.min_value == old_self.min_value,
                self.max_value == old_self.max_value,
                self.half_life == old_self.half_life,
                self.latest == old_self.latest,
                forall|u: int| #[trigger] self.records(u) == old_self.records(u),
            decreases user as int + 1 - self.users@.len(),
        {
            let ghost pre = *self;
            let empty: Vec<Record> = Vec::new();
            self.users.push(empty);
            proof {
                assert forall|u: int| #[trigger] self.records(u) == old_self.records(u) by {
                    assert(pre.records(u) == old_self.records(u));
                    if 0 <= u < pre.users@.len() {
                        assert(self.users@[u] == pre.users@[u]);
                    } else if u == pre.users@.len() {
                        assert(self.users@[u]@ =~= Seq::<Record>::empty());
                    }
                }
            }
        }
        let ghost mid = *self;
        let pos = self.find(user, item);
        let ghost recs = self.records(user as int);
        let u = user as usize;
        let mut row: Vec<Record> = Vec::new();
        self.users.set_and_swap(u, &mut row);
        assert(row@ == recs);
        match pos {
            None => {
                row.push(fresh);
            },
            Some(j) => {
                if update_existing {
                    row.remove(j);
                    row.push(fresh);
                }
            },
        }
        self.users.set(u, row);
        if (item as u64) >= self.item_count {
            self.item_count = item as u64 + 1;
        }
        if time > self.latest {
            self.latest = time;
        }
        proof {
            assert forall|v: int| v != user implies self.records(v) == old_self.records(v) by {
                assert(mid.records(v) == old_self.records(v));
                if 0 <= v < self.users@.len() {
                    assert(self.users@[v] == mid.users@[v]);
                }
            }
            if pos is None {
                assert(self.records(user as int) == recs.push(fresh));
            } else {
                let j = pos.unwrap() as int;
                if update_existing {
                    assert(self.records(user as int) == recs.remove(j).push(fresh));
                }
            }
            assert forall|v: int| 0 <= v < self.users@.len() implies distinct_items(
                #[trigger] self.users@[v]@,
            ) by {
                assert(self.records(v) == self.users@[v]@);
                if v == user && update_existing && pos is Some {
                    let j = pos.unwrap() as int;
                    let r2 = recs.remove(j).push(fresh);
                    assert(distinct_items(recs));
                    assert forall|a: int, b: int|
                        0 <= a < r2.len() && 0 <= b < r2.len() && a != b implies r2[a].item != r2[b].item by {
                        let ia = if a < j { a } else { a + 1 };
                        let ib = if b < j { b } else { b + 1 };
                        if a < r2.len() - 1 && b < r2.len() - 1 {
                            assert(r2[a] == recs[ia] && r2[b] == recs[ib]);
                        } else if a == r2.len() - 1 {
                            assert(r2[b] == recs[ib]);
                            assert(ib != j);
                        } else {
                            assert(r2[a] == recs[ia]);
                            assert(ia != j);
                        }
                    }
                }
                if v != user {
                    assert(old_self.records(v) == self.records(v));
                }
            }
        }
    }

    /// The items of `user`: all of them in order of first interaction, or,
    /// with a limit, the `limit` newest ones, newest first.
    pub fn get_user_items(&self, user: u32, limit: Option<usize>) -> (r: Vec<u32>)
        requires
            self.wf(),
        ensures
            match limit {
                None => r@ == items_of(self.records(user as int)),
                Some(n) => r@ == recent_items(self.records(user as int), n as int),
            },
    {
        let mut out: Vec<u32> = Vec::new();
        if (user as usize) >= self.users.len() {
            proof {
                assert(out@ =~= items_of(self.records(user as int)));
                assert(out@ =~= recent_items(self.records(user as int), 0));
                if let Some(n) = limit {
                    assert(out@ =~= recent_items(self.records(user as int), n as int));
                }
            }
            return out;
        }
        let recs = &self.users[user as usize];
        match limit {
            None => {
                let mut j: usize = 0;
                while j < recs.len()
                    invariant
                        recs@ == self.records(user as int),
                        j <= recs@.len(),
                        out@ == items_of(recs@.subrange(0, j as int)),
                    decreases recs@.len() - j,
                {
                    out.push(recs[j].item);
                    j = j + 1;
                    assert(items_of(recs@.subrange(0, j as int)) =~= items_of(
                        recs@.subrange(0, j - 1),
                    ).push(recs@[j - 1].item));
                }
                assert(recs@.subrange(0, j as int) =~= recs@);
            },
            Some(n) => {
                let len = recs.len();
                let k = if n < len {
                    n
                } else {
                    len
                };
                let mut j: usize = 0;
                while j < k
                    invariant
                        recs@ == self.records(user as int),
                        len == recs@.len(),
                        k <= len,
                        k == (if n < len {
                            n
                        } else {
                            len
                        }),
                        j <= k,
                        out@ == recent_items(self.records(user as int), n as int).subrange(
                            0,
                            j as int,
                        ),
                    decreases k - j,
                {
                    out.push(recs[len - 1 - j].item);
                    j = j + 1;
                    assert(out@ =~= recent_items(self.records(user as int), n as int).subrange(
                        0,
                        j as int,
                    ));
                }
                assert(out@ =~= recent_items(self.records(user as int), n as int));
            },
        }
        out
    }

    /// `v` halved `k` times, rounding toward zero.
    fn halve_exec(v: i64, k: u64) -> (r: i64)
        ensures
            r == halve(v as int, k as nat),
    {
        let mut x: i64 = v;
        let mut left: u64 = k;
        while left > 0 && x != 0
            invariant
                halve(x as int, left as nat) == halve(v as int, k as nat),
            decreases left,
        {
            let h: i64 = if x >= 0 {
                x / 2
            } else {
                let m: i128 = -(x as i128);
                (-(m / 2)) as i64
            };
            assert(h == half(x as int));
            x = h;
            left = left - 1;
        }
        proof {
            if x == 0 {
                lemma_halve_zero(left as nat);
            }
        }
        x
    }

    /// The rating of a record as read now.
    pub fn effective_rating(&self, r: Record) -> (v: i64)
        ensures
            v == self.effective(r),
    {
        let steps: u64 = match self.half_life {
            Some(h) => if h > 0 && self.latest > r.time {
                let d: i128 = self.latest as i128 - r.time as i128;
                (d / h as i128) as u64
            } else {
                0
            },
            None => 0,
        };
        Self::halve_exec(r.rating, steps)
    }

    /// The rating of `user` for `item` as read now, or `default`.
    pub fn get_user_item_rating(&self, user: u32, item: u32, default: i64) -> (r: i64)
        requires
            self.wf(),
        ensures
            r == match self.rating_of(user as int, item) {
                Some(v) => v,
                None => default as int,
            },
    {
        match self.find(user, item) {
            None => default,
            Some(j) => {
                let rec = self.users[user as usize][j];
                proof {
                    let recs = self.records(user as int);
                    let c = choose|c: int| 0 <= c < recs.len() && recs[c].item == item;
                    assert(distinct_items(recs));
                    assert(c == j);
                }
                self.effective_rating(rec)
            },
        }
    }

    /// The known items that `user` has not interacted with, in increasing order.
    pub fn get_all_non_interacted_items(&self, user: u32) -> (r: Vec<u32>)
        requires
            self.wf(),
        ensures
            ascending(r@),
            forall|x: u32|
                r@.contains(x) <==> (x as int) < self.item_universe() && self.rating_of(
                    user as int,
                    x,
                ) is None,
    {
        self.candidates(user, false)
    }

    /// The known items whose rating by `user` is not negative, counting items
    /// the user never rated, in increasing order.
    pub fn get_all_non_negative_items(&self, user: u32) -> (r: Vec<u32>)
        requires
            self.wf(),
        ensures
            ascending(r@),
            forall|x: u32|
                r@.contains(x) <==> (x as int) < self.item_universe() && match self.rating_of(
                    user as int,
                    x,
                ) {
                    Some(v) => v >= 0,
                    None => true,
                },
    {
        self.candidates(user, true)
    }

    fn candidates(&self, user: u32, keep_non_negative: bool) -> (r: Vec<u32>)
        requires
            self.wf(),
        ensures
            ascending(r@),
            forall|x: u32|
                r@.contains(x) <==> (x as int) < self.item_universe() && match self.rating_of(
                    user as int,
                    x,
                ) {
                    Some(v) => keep_non_negative && v >= 0,
                    None => true,
                },
    {
        let mut out: Vec<u32> = Vec::new();
        let mut i: u64 = 0;
        while i < self.item_count
            invariant
                self.wf(),
                i <= self.item_count,
                ascending(out@),
                forall|k: int| 0 <= k < out@.len() ==> (out@[k] as int) < i,
                forall|x: u32|
                    out@.contains(x) <==> (x as int) < i && match self.rating_of(user as int, x) {
                        Some(v) => keep_non_negative && v >= 0,
                        None => true,
                    },
            decreases self.item_count - i,
        {
            let x = i as u32;
            let keep = match self.find(user, x) {
                None => true,
                Some(_) => keep_non_negative && self.get_user_item_rating(user, x, 0) >= 0,
            };
            let ghost prev = out@;
            if keep {
                out.push(x);
            }
            proof {
                assert(keep ==> out@ == prev.push(x));
                assert(!keep ==> out@ == prev);
                assert forall|y: u32|
                    out@.contains(y) <==> (y as int) < i + 1 && match self.rating_of(
                        user as int,
                        y,
                    ) {
                        Some(v) => keep_non_negative && v >= 0,
                        None => true,
                    } by {
                    if keep && y == x {
                        assert(out@[out@.len() - 1] == y);
                    }
                    if y != x {
                        if out@.contains(y) {
                            let k = choose|k: int| 0 <= k < out@.len() && out@[k] == y;
                            assert(prev[k] == y);
                        }
                        if prev.contains(y) {
                            let k = choose|k: int| 0 <= k < prev.len() && prev[k] == y;
                            assert(out@[k] == y);
                        }
                    }
                }
            }
            i = i + 1;
        }
        out
    }

    /// All known item ids, in increasing order.
    pub fn get_all_item_ids(&self) -> (r: Vec<u32>)
        requires
            self.wf(),
        ensures
            r@.len() == self.item_universe(),
            forall|k: int| 0 <= k < r@.len() ==> r@[k] == k,
    {
        let mut out: Vec<u32> = Vec::new();
        let mut i: u64 = 0;
        while i < self.item_count
            invariant
                self.wf(),
                i <= self.item_count,
                out@.len() == i,
                forall|k: int| 0 <= k < out@.len() ==> out@[k] == k,
            decreases self.item_count - i,
        {
            out.push(i as u32);
            i = i + 1;
        }
        out
    }
}

/// `s1` is `s0` after the interaction `(user, item, time, rating)`: the
/// rating is clamped; a first interaction of the pair goes at the end of
/// the user's history; a repeated one, only when `update_existing` holds,
/// replaces the record and moves it to the end (it is now the newest).
pub open spec fn interaction_added(
    s0: UserItemInteractions,
    s1: UserItemInteractions,
    user: u32,
    item: u32,
    time: i64,
    rating: i64,
    update_existing: bool,
) -> bool {
    &&& s1.lo() == s0.lo()
    &&& s1.hi() == s0.hi()
    &&& s1.decay() == s0.decay()
    &&& s1.item_universe() == if (item as int) < s0.item_universe() {
        s0.item_universe()
    } else {
        item as nat + 1
    }
    &&& s1.clock() == if time > s0.clock() {
        time as int
    } else {
        s0.clock()
    }
    &&& forall|u: int| u != user ==> s1.records(u) == s0.records(u)
    &&& ({
        let recs = s0.records(user as int);
        let fresh = Record {
            item,
            time,
            rating: clamp(rating as int, s0.lo(), s0.hi()) as i64,
        };
        if !has_item(recs, item) {
            s1.records(user as int) == recs.push(fresh)
        } else if update_existing {
            exists|j: int|
                0 <= j < recs.len() && recs[j].item == item && s1.records(user as int)
                    == recs.remove(j).push(fresh)
        } else {
            s1.records(user as int) == recs
        }
    })
}

/// A repeated interaction with a pair replaces the stored rating exactly
/// when `update_existing` holds: after a first rating `r1` and a second
/// `r2`, the record of the pair holds the clamped `r2` with the flag, and
/// the clamped `r1` without it.
pub proof fn lemma_update_flag(
    s0: UserItemInteractions,
    s1: UserItemInteractions,
    s2: UserItemInteractions,
    user: u32,
    item: u32,
    t1: i64,
    r1: i64,
    u1: bool,
    t2: i64,
    r2: i64,
    update_existing: bool,
)
    requires
        s1.wf(),
        !has_item(s0.records(user as int), item),
        interaction_added(s0, s1, user, item, t1, r1, u1),
        interaction_added(s1, s2, user, item, t2, r2, update_existing),
    ensures
        s2.records(user as int).len() == s0.records(user as int).len() + 1,
        s2.records(user as int).last() == if update_existing {
            Record { item, time: t2, rating: clamp(r2 as int, s0.lo(), s0.hi()) as i64 }
        } else {
            Record { item, time: t1, rating: clamp(r1 as int, s0.lo(), s0.hi()) as i64 }
        },
{
    let recs1 = s1.records(user as int);
    let last = recs1.len() - 1;
    assert(recs1[last].item == item);
    assert(has_item(recs1, item));
    if update_existing {
        let j = choose|j: int|
            0 <= j < recs1.len() && recs1[j].item == item && s2.records(user as int) == recs1.remove(
                j,
            ).push(Record { item, time: t2, rating: clamp(r2 as int, s1.lo(), s1.hi()) as i64 });
        s1.lemma_wf_facts(user as int);
        assert(j == last);
    }
}

/// Every stored rating lies in `[lo, hi]`, whatever was submitted.
pub proof fn lemma_rating_clamp(s: UserItemInteractions, u: int, j: int)
    requires
        s.wf(),
        s.lo() <= s.hi(),
        0 <= j < s.records(u).len(),
    ensures
        s.lo() <= s.records(u)[j].rating <= s.hi(),
{
}

/// Whether `rows` can be the histories of a store with rating range
/// `[lo, hi]` and item universe `count`: items distinct within a history
/// and below `count`, ratings in range when the range is not empty.
pub open spec fn valid_rows(rows: Seq<Seq<Record>>, lo: int, hi: int, count: int) -> bool {
    &&& count <= 0x1_0000_0000
    &&& forall|u: int| 0 <= u < rows.len() ==> row_ok(#[trigger] rows[u], lo, hi, count)
}

pub open spec fn row_ok(row: Seq<Record>, lo: int, hi: int, count: int) -> bool {
    &&& distinct_items(row)
    &&& forall|j: int|
        0 <= j < row.len() ==> (#[trigger] row[j].item as int) < count && (lo <= hi ==> lo <= row[j].rating
            <= hi)
}

fn check_row(row: &Vec<Record>, lo: i64, hi: i64, count: u64) -> (r: bool)
    ensures
        r == row_ok(row@, lo as int, hi as int, count as int),
{
    let mut a: usize = 0;
    while a < row.len()
        invariant
            a <= row@.len(),
            forall|x: int, y: int| 0 <= x < a && 0 <= y < row@.len() && x != y ==> row@[x].item != row@[y].item,
            forall|j: int|
                0 <= j < a ==> (#[trigger] row@[j].item as int) < count && (lo <= hi ==> lo <= row@[j].rating
                    <= hi),
        decreases row@.len() - a,
    {
        let ra = row[a];
        if (ra.item as u64) >= count || (lo <= hi && (ra.rating < lo || ra.rating > hi)) {
            return false;
        }
        let mut b: usize = 0;
        while b < row.len()
            invariant
                a < row@.len(),
                ra == row@[a as int],
                b <= row@.len(),
                forall|y: int| 0 <= y < b && y != a ==> row@[a as int].item != row@[y].item,
            decreases row@.len() - b,
        {
            if b != a && row[b].item == ra.item {
                return false;
            }
            b = b + 1;
        }
        a = a + 1;
    }
    true
}

pub open spec fn ascending(s: Seq<u32>) -> bool {
    forall|a: int, b: int| 0 <= a < b < s.len() ==> s[a] < s[b]
}

pub proof fn lemma_halve_zero(k: nat)
    ensures
        halve(0, k) == 0,
    decreases k,
{
    if k > 0 {
        lemma_halve_zero((k - 1) as nat);
    }
}

} // verus!
