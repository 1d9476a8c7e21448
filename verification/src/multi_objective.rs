//! Multi-objective optimization: Pareto dominance and Pareto front tracking.
//!
//! Objective values are integers, lower being better, compared only with `<`
//! and `>`; any values ordered the same way give the same fronts.
use vstd::prelude::*;

verus! {

/// An objective vector for multi-objective optimization.
#[derive(Clone, Debug)]
pub struct ObjectiveVec {
    pub values: Vec<i64>,
}

impl View for ObjectiveVec {
    type V = Seq<i64>;

    open spec fn view(&self) -> Seq<i64> {
        self.values@
    }
}

/// `a` dominates `b`: on the positions that both have, `a` is nowhere worse
/// than `b` and somewhere strictly better.
pub open spec fn dominates_spec(a: Seq<i64>, b: Seq<i64>) -> bool {
    let n = if a.len() <= b.len() { a.len() } else { b.len() };
    &&& forall|k: int| 0 <= k < n ==> #[trigger] a[k] <= b[k]
    &&& exists|k: int| 0 <= k < n && #[trigger] a[k] < b[k]
}

impl ObjectiveVec {
    pub fn new(values: Vec<i64>) -> (o: Self)
        ensures
            o@ == values@,
    {
        Self { values }
    }

    /// Check if this solution dominates `other` (all objectives <=, at least
    /// one <), over the objectives that both vectors have.
    pub fn dominates(&self, other: &ObjectiveVec) -> (r: bool)
        ensures
            r == dominates_spec(self@, other@),
    {
        let n: usize = if self.values.len() <= other.values.len() {
            self.values.len()
        } else {
            other.values.len()
        };
        let mut any_less = false;
        let mut k: usize = 0;
        while k < n
            invariant
                n <= self@.len(),
                n <= other@.len(),
                n == (if self@.len() <= other@.len() { self@.len() } else { other@.len() }),
                k <= n,
                forall|m: int| 0 <= m < k ==> #[trigger] self@[m] <= other@[m],
                any_less == exists|m: int| 0 <= m < k && #[trigger] self@[m] < other@[m],
            decreases n - k,
        {
            let a = self.values[k];
            let b = other.values[k];
            if a > b {
                assert(!(self@[k as int] <= other@[k as int]));
                return false;
            }
            if a < b {
                any_less = true;
            }
            k = k + 1;
        }
        any_less
    }
}

/// What dominance means on the values: a vector that is worse than another on
/// some objective both have does not dominate it, and one that is nowhere worse
/// on the objectives both have, and better on one of them, does.
pub proof fn lemma_dominates_by_values(a: Seq<i64>, b: Seq<i64>)
    ensures
        (exists|k: int| 0 <= k < a.len() && k < b.len() && #[trigger] a[k] > b[k]) ==> !dominates_spec(
            a,
            b,
        ),
        (forall|k: int| 0 <= k < a.len() && k < b.len() ==> #[trigger] a[k] <= b[k]) && (exists|k: int|
            0 <= k < a.len() && k < b.len() && #[trigger] a[k] < b[k]) ==> dominates_spec(a, b),
{
    if exists|k: int| 0 <= k < a.len() && k < b.len() && #[trigger] a[k] > b[k] {
        let k = choose|k: int| 0 <= k < a.len() && k < b.len() && #[trigger] a[k] > b[k];
        assert(!(a[k] <= b[k]));
    }
    if exists|k: int| 0 <= k < a.len() && k < b.len() && #[trigger] a[k] < b[k] {
        let k = choose|k: int| 0 <= k < a.len() && k < b.len() && #[trigger] a[k] < b[k];
        assert(a[k] < b[k]);
    }
}

/// No vector dominates itself.
pub proof fn lemma_dominates_irreflexive(a: Seq<i64>)
    ensures
        !dominates_spec(a, a),
{
}

/// Dominance is asymmetric: of two vectors, at most one dominates the other.
pub proof fn lemma_dominates_asymmetric(a: Seq<i64>, b: Seq<i64>)
    ensures
        !(dominates_spec(a, b) && dominates_spec(b, a)),
{
    if dominates_spec(a, b) && dominates_spec(b, a) {
        let k = choose|k: int| 0 <= k < a.len() && k < b.len() && #[trigger] a[k] < b[k];
        assert(b[k] <= a[k]);
    }
}

/// Dominance is transitive among vectors with the same number of objectives.
pub proof fn lemma_dominates_transitive(a: Seq<i64>, b: Seq<i64>, c: Seq<i64>)
    requires
        a.len() == b.len(),
        b.len() == c.len(),
        dominates_spec(a, b),
        dominates_spec(b, c),
    ensures
        dominates_spec(a, c),
{
    let k = choose|k: int| 0 <= k < a.len() && #[trigger] a[k] < b[k];
    assert(b[k] <= c[k]);
    assert(a[k] < c[k]);
    assert forall|m: int| 0 <= m < a.len() implies #[trigger] a[m] <= c[m] by {
        assert(a[m] <= b[m]);
        assert(b[m] <= c[m]);
    }
}

/// A Pareto front (non-dominated solutions), each solution a position and its
/// objective vector.
#[derive(Clone, Debug)]
pub struct ParetoFront<P> {
    pub solutions: Vec<(P, ObjectiveVec)>,
}

/// No solution of `front` dominates a solution of `front`.
pub open spec fn is_non_dominated<P>(front: Seq<(P, ObjectiveVec)>) -> bool {
    forall|i: int, j: int|
        0 <= i < front.len() && 0 <= j < front.len() ==> !dominates_spec(
            #[trigger] front[i].1@,
            #[trigger] front[j].1@,
        )
}

/// The solutions that `objectives` does not dominate.
pub open spec fn not_dominated_by<P>(objectives: Seq<i64>) -> spec_fn((P, ObjectiveVec)) -> bool {
    |s: (P, ObjectiveVec)| !dominates_spec(objectives, s.1@)
}

/// Some solution of `front` dominates the objective vector `o`.
pub open spec fn dominated_in<P>(front: Seq<(P, ObjectiveVec)>, o: Seq<i64>) -> bool {
    exists|k: int| 0 <= k < front.len() && dominates_spec(#[trigger] front[k].1@, o)
}

/// The front after adding `(position, objectives)` to `front`: the solutions
/// that the new one dominates leave, and the new one joins at the end unless a
/// remaining solution dominates it.
pub open spec fn front_after_add<P>(
    front: Seq<(P, ObjectiveVec)>,
    position: P,
    objectives: ObjectiveVec,
) -> Seq<(P, ObjectiveVec)> {
    let kept = front.filter(not_dominated_by(objectives@));
    if dominated_in(kept, objectives@) {
        kept
    } else {
        kept.push((position, objectives))
    }
}

proof fn lemma_filter_non_dominated<P>(front: Seq<(P, ObjectiveVec)>, pred: spec_fn((P, ObjectiveVec)) -> bool)
    requires
        is_non_dominated(front),
    ensures
        is_non_dominated(front.filter(pred)),
{
    let kept = front.filter(pred);
    assert forall|i: int, j: int| 0 <= i < kept.len() && 0 <= j < kept.len() implies !dominates_spec(
        #[trigger] kept[i].1@,
        #[trigger] kept[j].1@,
    ) by {
        assert(kept.contains(kept[i]));
        assert(kept.contains(kept[j]));
        front.lemma_filter_contains_rev(pred, kept[i]);
        front.lemma_filter_contains_rev(pred, kept[j]);
        let x = choose|x: int| 0 <= x < front.len() && front[x] == kept[i];
        let y = choose|y: int| 0 <= y < front.len() && front[y] == kept[j];
        assert(!dominates_spec(front[x].1@, front[y].1@));
    }
}

/// The front built by adding `items`, one after another, to an empty front
/// (`ParetoFront::new` followed by `add` for each item).
pub open spec fn front_of<P>(items: Seq<(P, ObjectiveVec)>) -> Seq<(P, ObjectiveVec)>
    decreases items.len(),
{
    if items.len() == 0 {
        Seq::empty()
    } else {
        front_after_add(front_of(items.drop_last()), items.last().0, items.last().1)
    }
}

/// The solutions of `items` that no solution of `items` dominates, in order.
pub open spec fn non_dominated_among<P>(items: Seq<(P, ObjectiveVec)>) -> Seq<(P, ObjectiveVec)> {
    items.filter(|x: (P, ObjectiveVec)| !dominated_in(items, x.1@))
}

/// Every objective vector of `items` has `len` objectives.
pub open spec fn all_of_length<P>(items: Seq<(P, ObjectiveVec)>, len: nat) -> bool {
    forall|k: int| 0 <= k < items.len() ==> #[trigger] items[k].1@.len() == len
}

/// Every solution of `items` is on `front` or dominated by a solution on it.
spec fn covers<P>(front: Seq<(P, ObjectiveVec)>, items: Seq<(P, ObjectiveVec)>) -> bool {
    forall|m: int|
        0 <= m < items.len() ==> front.contains(#[trigger] items[m]) || dominated_in(
            front,
            items[m].1@,
        )
}

proof fn lemma_filter_filter<A>(s: Seq<A>, p: spec_fn(A) -> bool, q: spec_fn(A) -> bool)
    ensures
        s.filter(p).filter(q) == s.filter(|x: A| p(x) && q(x)),
    decreases s.len(),
{
    reveal(Seq::filter);
    if s.len() > 0 {
        lemma_filter_filter(s.drop_last(), p, q);
        let x = s.drop_last().filter(p);
        if p(s.last()) {
            assert(x.push(s.last()).drop_last() =~= x);
        }
    }
}

proof fn lemma_filter_all_of_length<P>(
    s: Seq<(P, ObjectiveVec)>,
    p: spec_fn((P, ObjectiveVec)) -> bool,
    len: nat,
)
    requires
        all_of_length(s, len),
    ensures
        all_of_length(s.filter(p), len),
{
    let f = s.filter(p);
    assert forall|k: int| 0 <= k < f.len() implies #[trigger] f[k].1@.len() == len by {
        assert(f.contains(f[k]));
        s.lemma_filter_contains_rev(p, f[k]);
    }
}

/// A solution that the newcomer dominates stays dominated after the add.
proof fn lemma_dominated_by_newcomer<P>(
    front: Seq<(P, ObjectiveVec)>,
    s: (P, ObjectiveVec),
    o: Seq<i64>,
    len: nat,
)
    requires
        all_of_length(front, len),
        s.1@.len() == len,
        o.len() == len,
        dominates_spec(s.1@, o),
    ensures
        dominated_in(front_after_add(front, s.0, s.1), o),
{
    let kept = front.filter(not_dominated_by::<P>(s.1@));
    lemma_filter_all_of_length(front, not_dominated_by::<P>(s.1@), len);
    if dominated_in(kept, s.1@) {
        let j = choose|j: int| 0 <= j < kept.len() && dominates_spec(#[trigger] kept[j].1@, s.1@);
        lemma_dominates_transitive(kept[j].1@, s.1@, o);
    } else {
        let r = kept.push((s.0, s.1));
        assert(r[kept.len() as int] == s);
    }
}

proof fn lemma_front_of<P>(items: Seq<(P, ObjectiveVec)>, len: nat)
    requires
        all_of_length(items, len),
    ensures
        front_of(items) == non_dominated_among(items),
        covers(front_of(items), items),
    decreases items.len(),
{
    reveal(Seq::filter);
    if items.len() == 0 {
        assert(non_dominated_among(items) =~= Seq::<(P, ObjectiveVec)>::empty());
    } else {
        let sq = items.drop_last();
        let s = items.last();
        assert(all_of_length(sq, len));
        lemma_front_of(sq, len);
        let f = front_of(sq);
        let p_sq = |x: (P, ObjectiveVec)| !dominated_in(sq, x.1@);
        let p_items = |x: (P, ObjectiveVec)| !dominated_in(items, x.1@);
        let q = not_dominated_by::<P>(s.1@);
        assert(f == sq.filter(p_sq));
        lemma_filter_all_of_length(sq, p_sq, len);
        let kept = f.filter(q);
        lemma_filter_all_of_length(f, q, len);
        lemma_filter_filter(sq, p_sq, q);
        let conj = |x: (P, ObjectiveVec)| p_sq(x) && q(x);
        assert forall|x: (P, ObjectiveVec)| #[trigger] p_items(x) == conj(x) by {
            if dominated_in(items, x.1@) {
                let k = choose|k: int|
                    0 <= k < items.len() && dominates_spec(#[trigger] items[k].1@, x.1@);
                if k < sq.len() {
                    assert(sq[k] == items[k]);
                }
            }
            if dominated_in(sq, x.1@) {
                let k = choose|k: int| 0 <= k < sq.len() && dominates_spec(#[trigger] sq[k].1@, x.1@);
                assert(items[k] == sq[k]);
            }
            assert(items[sq.len() as int] == s);
        }
        assert(p_items =~= conj);
        assert(kept == sq.filter(p_items));
        lemma_dominates_irreflexive(s.1@);
        assert(dominated_in(items, s.1@) == dominated_in(sq, s.1@)) by {
            if dominated_in(items, s.1@) {
                let k = choose|k: int|
                    0 <= k < items.len() && dominates_spec(#[trigger] items[k].1@, s.1@);
                if k < sq.len() {
                    assert(sq[k] == items[k]);
                }
            }
            if dominated_in(sq, s.1@) {
                let k = choose|k: int| 0 <= k < sq.len() && dominates_spec(#[trigger] sq[k].1@, s.1@);
                assert(items[k] == sq[k]);
            }
        }
        // The newcomer is dominated by an earlier solution iff by a kept one.
        assert(dominated_in(sq, s.1@) == dominated_in(kept, s.1@)) by {
            if dominated_in(kept, s.1@) {
                let j = choose|j: int| 0 <= j < kept.len() && dominates_spec(#[trigger] kept[j].1@, s.1@);
                assert(kept.contains(kept[j]));
                f.lemma_filter_contains_rev(q, kept[j]);
                sq.lemma_filter_contains_rev(p_sq, kept[j]);
                let k = choose|k: int| 0 <= k < sq.len() && sq[k] == kept[j];
                assert(dominates_spec(sq[k].1@, s.1@));
            }
            if dominated_in(sq, s.1@) {
                let k = choose|k: int| 0 <= k < sq.len() && dominates_spec(#[trigger] sq[k].1@, s.1@);
                let y = sq[k];
                assert(f.contains(y) || dominated_in(f, y.1@));
                let fw: int = if f.contains(y) {
                    choose|w: int| 0 <= w < f.len() && f[w] == y
                } else {
                    let z = choose|z: int| 0 <= z < f.len() && dominates_spec(#[trigger] f[z].1@, y.1@);
                    lemma_dominates_transitive(f[z].1@, y.1@, s.1@);
                    z
                };
                assert(0 <= fw < f.len() && dominates_spec(f[fw].1@, s.1@));
                lemma_dominates_asymmetric(f[fw].1@, s.1@);
                f.lemma_filter_contains(q, fw);
                let j = choose|j: int| 0 <= j < kept.len() && kept[j] == f[fw];
                assert(dominates_spec(kept[j].1@, s.1@));
            }
        }
        let r = front_of(items);
        assert(r == front_after_add(f, s.0, s.1));
        assert(items.drop_last() == sq);
        assert(items.filter(p_items) == if p_items(s) {
            sq.filter(p_items).push(s)
        } else {
            sq.filter(p_items)
        });
        assert(r =~= non_dominated_among(items));
        // Every solution added so far is on the front or dominated by one on it.
        assert forall|m: int| 0 <= m < items.len() implies r.contains(#[trigger] items[m])
            || dominated_in(r, items[m].1@) by {
            let x = items[m];
            if m == sq.len() {
                assert(x == s);
                if !dominated_in(kept, s.1@) {
                    assert(r[kept.len() as int] == s);
                }
            } else {
                assert(x == sq[m]);
                if f.contains(x) {
                    let w = choose|w: int| 0 <= w < f.len() && f[w] == x;
                    if q(x) {
                        f.lemma_filter_contains(q, w);
                        let j = choose|j: int| 0 <= j < kept.len() && kept[j] == x;
                        assert(r[j] == kept[j]);
                    } else {
                        lemma_dominated_by_newcomer(f, s, x.1@, len);
                    }
                } else {
                    let z = choose|z: int| 0 <= z < f.len() && dominates_spec(#[trigger] f[z].1@, x.1@);
                    if q(f[z]) {
                        f.lemma_filter_contains(q, z);
                        let j = choose|j: int| 0 <= j < kept.len() && kept[j] == f[z];
                        assert(r[j] == kept[j]);
                        assert(dominates_spec(r[j].1@, x.1@));
                    } else {
                        lemma_dominates_transitive(s.1@, f[z].1@, x.1@);
                        lemma_dominated_by_newcomer(f, s, x.1@, len);
                    }
                }
            }
        }
    }
}

/// Adding solutions one after another to an empty front leaves on it exactly
/// the solutions that no added solution dominates, in the order they were
/// added (solutions with equal objectives are all kept). Stated for objective
/// vectors of one common length, on which dominance is transitive.
pub proof fn lemma_front_of_adds<P>(items: Seq<(P, ObjectiveVec)>, len: nat)
    requires
        all_of_length(items, len),
    ensures
        front_of(items) == non_dominated_among(items),
{
    lemma_front_of(items, len);
}

impl<P> ParetoFront<P> {
    pub fn new() -> (f: Self)
        ensures
            f.solutions@ == Seq::<(P, ObjectiveVec)>::empty(),
    {
        Self { solutions: Vec::new() }
    }

    /// Add a solution, removing any dominated solutions.
    ///
    /// The solutions that `objectives` dominates are removed, the others keep
    /// their order, and the new solution is appended unless one of them
    /// dominates it. A front of mutually non-dominated solutions stays one.
    pub fn add(&mut self, position: P, objectives: ObjectiveVec)
        ensures
            final(self).solutions@ == front_after_add(old(self).solutions@, position, objectives),
            is_non_dominated(old(self).solutions@) ==> is_non_dominated(final(self).solutions@),
    {
        let ghost orig = self.solutions@;
        let ghost pred = not_dominated_by::<P>(objectives@);
        // Remove dominated solutions
        let mut j: usize = 0;
        let ghost mut i: int = 0;
        proof {
            reveal(Seq::filter);
            assert(orig.take(0) =~= Seq::<(P, ObjectiveVec)>::empty());
            assert(orig.skip(0) =~= orig);
            assert(self.solutions@ =~= orig.take(0).filter(pred) + orig.skip(0));
        }
        while j < self.solutions.len()
            invariant
                pred == not_dominated_by::<P>(objectives@),
                0 <= i <= orig.len(),
                self.solutions@ == orig.take(i).filter(pred) + orig.skip(i),
                j == orig.take(i).filter(pred).len(),
            decreases self.solutions.len() - j,
        {
            let ghost filtered = orig.take(i).filter(pred);
            assert(self.solutions@[j as int] == orig[i]);
            proof {
                reveal(Seq::filter);
                assert(orig.take(i + 1).drop_last() =~= orig.take(i));
                assert(orig.take(i + 1).last() == orig[i]);
            }
            if objectives.dominates(&self.solutions[j].1) {
                self.solutions.remove(j);
                proof {
                    assert(!pred(orig[i]));
                    assert(orig.take(i + 1).filter(pred) == filtered);
                    assert(self.solutions@ =~= orig.take(i + 1).filter(pred) + orig.skip(i + 1));
                }
            } else {
                proof {
                    assert(pred(orig[i]));
                    assert(orig.take(i + 1).filter(pred) == filtered.push(orig[i]));
                    assert(self.solutions@ =~= orig.take(i + 1).filter(pred) + orig.skip(i + 1));
                }
                j = j + 1;
            }
            proof {
                i = i + 1;
            }
        }
        proof {
            assert(orig.take(orig.len() as int) =~= orig);
            assert(self.solutions@ =~= orig.filter(pred));
        }
        let ghost kept = self.solutions@;
        // Check if new solution is dominated
        let mut k: usize = 0;
        while k < self.solutions.len()
            invariant
                self.solutions@ == kept,
                kept == orig.filter(pred),
                orig == old(self).solutions@,
                pred == not_dominated_by::<P>(objectives@),
                k <= kept.len(),
                forall|m: int| 0 <= m < k ==> !dominates_spec(#[trigger] kept[m].1@, objectives@),
            decreases kept.len() - k,
        {
            if self.solutions[k].1.dominates(&objectives) {
                proof {
                    assert(dominates_spec(kept[k as int].1@, objectives@));
                    if is_non_dominated(orig) {
                        lemma_filter_non_dominated(orig, pred);
                    }
                }
                return;
            }
            k = k + 1;
        }
        self.solutions.push((position, objectives));
        proof {
            if is_non_dominated(orig) {
                lemma_filter_non_dominated(orig, pred);
                let s = self.solutions@;
                assert forall|a: int, b: int| 0 <= a < s.len() && 0 <= b < s.len() implies !dominates_spec(
                    #[trigger] s[a].1@,
                    #[trigger] s[b].1@,
                ) by {
                    if a < kept.len() && b < kept.len() {
                        assert(s[a] == kept[a] && s[b] == kept[b]);
                    } else if a < kept.len() {
                        assert(s[a] == kept[a]);
                    } else if b < kept.len() {
                        assert(s[b] == kept[b]);
                        orig.lemma_filter_pred(pred, b);
                    } else {
                        lemma_dominates_irreflexive(objectives@);
                    }
                }
            }
        }
    }

    /// Number of solutions on the Pareto front.
    pub fn len(&self) -> (n: usize)
        ensures
            n == self.solutions@.len(),
    {
        self.solutions.len()
    }

    /// Is the front empty?
    pub fn is_empty(&self) -> (b: bool)
        ensures
            b <==> self.solutions@.len() == 0,
    {
        self.solutions.is_empty()
    }
}

impl<P> Default for ParetoFront<P> {
    fn default() -> (f: Self)
        ensures
            f.solutions@ == Seq::<(P, ObjectiveVec)>::empty(),
    {
        Self::new()
    }
}

} // verus!
