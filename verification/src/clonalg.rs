//! The CLONALG engine: candidate tours, fitness, selection, clonal
//! expansion, hypermutation and generational replacement.

use crate::matrix::DistanceMatrix;
use crate::ClonalgError;
use vstd::prelude::*;
use vstd::seq_lib::*;

verus! {

/// A candidate solution: a permutation of the city indices `0 .. no_cities`.
pub struct Path(pub Vec<usize>);

impl View for Path {
    type V = Seq<usize>;

    open spec fn view(&self) -> Seq<usize> {
        self.0@
    }
}

/// `s` is a valid tour over `n` cities: it lists each city index below `n`
/// exactly once.
pub open spec fn valid_tour(s: Seq<usize>, n: nat) -> bool {
    &&& s.len() == n
    &&& forall|i: int| 0 <= i < s.len() ==> s[i] < n
    &&& s.no_duplicates()
}

/// Every member of `s` is a valid tour over `n` cities.
pub open spec fn all_valid(s: Seq<Path>, n: nat) -> bool {
    forall|i: int| 0 <= i < s.len() ==> valid_tour(#[trigger] s[i]@, n)
}

impl Clone for Path {
    /// Cloning a tour copies its city sequence; the copy shares nothing
    /// with the original.
    fn clone(&self) -> (r: Self)
        ensures
            r@ == self@,
    {
        let v = self.0.clone();
        proof {
            assert(v@ =~= self.0@);
        }
        Path(v)
    }
}

/// Swapping two in-range positions of a valid tour yields a valid tour.
pub proof fn lemma_swap_keeps_valid_tour(s: Seq<usize>, n: nat, i: int, j: int)
    requires
        valid_tour(s, n),
        0 <= i < s.len(),
        0 <= j < s.len(),
    ensures
        valid_tour(s.update(i, s[j]).update(j, s[i]), n),
{
    let t = s.update(i, s[j]).update(j, s[i]);
    assert forall|p: int, q: int|
        0 <= p < t.len() && 0 <= q < t.len() && p != q implies t[p] != t[q] by {
        if p == i {
        } else if p == j {
        }
    }
}

/// A tour with the same multiset of entries as a valid tour is itself a
/// valid tour: shuffling never adds, drops or duplicates a city.
pub proof fn lemma_permutation_keeps_valid_tour(a: Seq<usize>, b: Seq<usize>, n: nat)
    requires
        valid_tour(a, n),
        b.to_multiset() == a.to_multiset(),
    ensures
        valid_tour(b, n),
{
    a.to_multiset_ensures();
    b.to_multiset_ensures();
    assert(b.len() == a.len());
    assert forall|i: int| 0 <= i < b.len() implies b[i] < n by {
        assert(b.contains(b[i]));
        assert(b.to_multiset().count(b[i]) > 0);
        assert(a.contains(b[i]));
    }
    a.lemma_multiset_has_no_duplicates();
    assert forall|x: usize| b.to_multiset().contains(x) implies b.to_multiset().count(x) == 1 by {
        assert(a.to_multiset().count(x) > 0);
        assert(a.contains(x));
    }
    b.lemma_multiset_has_no_duplicates_conv();
}

/// The sum of the distances along the first `k` edges of tour `s`:
/// `m.at(s[0], s[1]) + ... + m.at(s[k-1], s[k])`.
pub open spec fn cost_upto(s: Seq<usize>, m: DistanceMatrix, k: int) -> int
    decreases k,
{
    if k <= 0 {
        0
    } else {
        cost_upto(s, m, k - 1) + m.at(s[k - 1] as int, s[k] as int)
    }
}

/// The open-path cost of a tour: the sum of the distances between
/// consecutive cities. The path is deliberately not closed back to its
/// first city.
pub open spec fn open_path_cost(s: Seq<usize>, m: DistanceMatrix) -> int {
    if s.len() == 0 {
        0
    } else {
        cost_upto(s, m, s.len() - 1)
    }
}

/// Partial open-path costs of a valid tour lie between `0` and
/// `k * u32::MAX`.
pub proof fn lemma_cost_upto_bounds(s: Seq<usize>, m: DistanceMatrix, k: int)
    requires
        m.wf(),
        valid_tour(s, m.spec_side()),
        0 <= k < s.len(),
    ensures
        0 <= cost_upto(s, m, k) <= k * (u32::MAX as int),
    decreases k,
{
    if k > 0 {
        lemma_cost_upto_bounds(s, m, k - 1);
        m.lemma_entry_bounds(s[k - 1] as int, s[k] as int);
    }
}

/// A fitness capability: a pure function from a tour and a distance matrix
/// to a scalar cost. The engine treats lower values as fitter. Costs are
/// unsigned integers, so every comparison is total.
pub trait Fitness: Sized {
    /// The mathematical cost this capability assigns.
    spec fn fit(&self, tour: Seq<usize>, m: &DistanceMatrix) -> int;

    /// Computes the cost. The result is pinned to `fit`, so evaluation is
    /// deterministic: two calls on the same tour and matrix agree.
    fn call(&self, tour: &Path, m: &DistanceMatrix) -> (r: u64)
        requires
            m.wf(),
            valid_tour(tour@, m.spec_side()),
        ensures
            r as int == self.fit(tour@, m),
    ;
}

/// The default fitness: the open-path cost of §`open_path_cost`.
pub struct OpenPathCost;

/// Computes the open-path cost of a valid tour. The result equals
/// `open_path_cost(tour@, *distances)`, a function of the arguments alone,
/// so evaluation is deterministic.
pub fn evaluate(tour: &Path, distances: &DistanceMatrix) -> (r: u64)
    requires
        distances.wf(),
        valid_tour(tour@, distances.spec_side()),
    ensures
        r as int == open_path_cost(tour@, *distances),
{
    let n = tour.0.len();
    if n == 0 {
        return 0;
    }
    let mut acc: u64 = 0;
    let mut k: usize = 1;
    while k < n
        invariant
            1 <= k <= n,
            n == tour@.len(),
            distances.wf(),
            valid_tour(tour@, distances.spec_side()),
            acc as int == cost_upto(tour@, *distances, k - 1),
            acc as int <= (k - 1) * (u32::MAX as int),
        decreases n - k,
    {
        proof {
            distances.lemma_side_bound();
            lemma_cost_upto_bounds(tour@, *distances, k as int);
            assert((k as int) * (u32::MAX as int) <= (u32::MAX as int) * (u32::MAX as int))
                by (nonlinear_arith)
                requires 0 <= k <= u32::MAX as int;
        }
        let a = tour.0[k - 1];
        let b = tour.0[k];
        acc = acc + distances.get(a, b) as u64;
        k = k + 1;
    }
    acc
}

impl Fitness for OpenPathCost {
    open spec fn fit(&self, tour: Seq<usize>, m: &DistanceMatrix) -> int {
        open_path_cost(tour, *m)
    }

    fn call(&self, tour: &Path, m: &DistanceMatrix) -> (r: u64) {
        evaluate(tour, m)
    }
}

/// Any two results of evaluating the same tour against the same matrix are
/// identical: fitness evaluation is deterministic.
pub proof fn lemma_fitness_deterministic(r1: u64, r2: u64, s: Seq<usize>, m: DistanceMatrix)
    requires
        r1 as int == open_path_cost(s, m),
        r2 as int == open_path_cost(s, m),
    ensures
        r1 == r2,
{
}

/// Relies on `rand::Rng::gen_range` on the thread-local generator: the
/// result is an index drawn uniformly from `0 .. bound`. Nothing more is
/// assumed of it than being in range.
#[verifier::external_body]
fn random_index(bound: usize) -> (r: usize)
    requires
        0 < bound,
    ensures
        r < bound,
{
    rand::Rng::gen_range(&mut rand::thread_rng(), 0..bound)
}

/// Relies on `rand::seq::SliceRandom::shuffle`: a uniformly random in-place
/// permutation of the slice, so exactly the same elements remain, in some
/// order.
#[verifier::external_body]
fn shuffle_cities(v: &mut Vec<usize>)
    ensures
        final(v)@.len() == old(v)@.len(),
        final(v)@.to_multiset() == old(v)@.to_multiset(),
{
    rand::seq::SliceRandom::shuffle(v.as_mut_slice(), &mut rand::thread_rng())
}

impl Path {
    /// Swaps two distinct, uniformly chosen positions of the tour in place
    /// and reports them. Tours of fewer than two cities cannot be mutated
    /// and are left unchanged.
    pub fn mutate(&mut self) -> (r: Result<(usize, usize), ClonalgError>)
        ensures
            r.is_ok() <==> old(self)@.len() >= 2,
            match r {
                Ok(pair) => {
                    &&& pair.0 < old(self)@.len()
                    &&& pair.1 < old(self)@.len()
                    &&& pair.0 != pair.1
                    &&& final(self)@ == old(self)@.update(
                        pair.0 as int,
                        old(self)@[pair.1 as int],
                    ).update(pair.1 as int, old(self)@[pair.0 as int])
                },
                Err(e) => {
                    &&& e == ClonalgError::DegenerateMutation
                    &&& final(self)@ == old(self)@
                },
            },
    {
        let len = self.0.len();
        if len < 2 {
            return Err(ClonalgError::DegenerateMutation);
        }

        // Drawing the second position from the `len - 1` positions other
        // than `i` guarantees distinctness in one draw, uniformly.
        let i = random_index(len);
        let k = random_index(len - 1);
        let j = if k >= i { k + 1 } else { k };

        let vi = self.0[i];
        let vj = self.0[j];
        self.0[i] = vj;
        self.0[j] = vi;
        Ok((i, j))
    }
}

/// The city sequences of a sequence of tours: the mathematical content of
/// a population, with ownership and storage abstracted away.
pub open spec fn views_of(s: Seq<Path>) -> Seq<Seq<usize>> {
    Seq::new(s.len(), |i: int| s[i]@)
}

/// `s` is sorted ascending by the cost that `f` assigns against matrix `m`:
/// position `0` is fittest (lowest cost).
pub open spec fn sorted_by_fit<F: Fitness>(f: &F, s: Seq<Seq<usize>>, m: &DistanceMatrix) -> bool {
    forall|i: int, j: int|
        0 <= i <= j < s.len() ==> #[trigger] f.fit(s[i], m) <= #[trigger] f.fit(s[j], m)
}

/// Sorts `v` ascending by fitness, in place: an insertion sort. The result
/// holds exactly the tours of the input, reordered.
fn sort_by_fitness<F: Fitness>(fitness: &F, v: &mut Vec<Path>, m: &DistanceMatrix)
    requires
        m.wf(),
        all_valid(old(v)@, m.spec_side()),
    ensures
        final(v)@.len() == old(v)@.len(),
        views_of(final(v)@).to_multiset() == views_of(old(v)@).to_multiset(),
        sorted_by_fit(fitness, views_of(final(v)@), m),
        all_valid(final(v)@, m.spec_side()),
{
    let ghost worig = views_of(old(v)@);
    let len = v.len();
    let mut i: usize = 1;
    while i < len
        invariant
            m.wf(),
            1 <= i,
            len == v@.len(),
            views_of(v@).to_multiset() == worig.to_multiset(),
            all_valid(v@, m.spec_side()),
            sorted_by_fit(
                fitness,
                views_of(v@).subrange(0, if i < len { i as int } else { len as int }),
                m,
            ),
        decreases len - i,
    {
        let ghost v0 = v@;
        let ghost w0 = views_of(v0);
        let x = v.remove(i);
        let ghost v1 = v@;
        let ghost w1 = views_of(v1);
        proof {
            assert(w1 =~= w0.remove(i as int));
            w0.to_multiset_ensures();
            assert(w0.contains(w0[i as int]));
        }
        let fx = fitness.call(&x, m);
        let mut p: usize = i;
        while p > 0 && fitness.call(&v[p - 1], m) > fx
            invariant
                m.wf(),
                p <= i,
                i < len,
                len == v@.len() + 1,
                v@ == v1,
                valid_tour(x@, m.spec_side()),
                all_valid(v@, m.spec_side()),
                fx as int == fitness.fit(x@, m),
                forall|q: int|
                    p <= q < i ==> #[trigger] fitness.fit(v1[q]@, m) > fitness.fit(x@, m),
            decreases p,
        {
            p = p - 1;
        }
        v.insert(p, x);
        proof {
            let w = views_of(v@);
            assert(w =~= w1.insert(p as int, x@));
            to_multiset_insert(w1, p as int, x@);
            assert(w.to_multiset() =~= w0.to_multiset());
            let s0 = w0.subrange(0, i as int);
            let wpre = w.subrange(0, i as int + 1);
            assert forall|q1: int, q2: int|
                0 <= q1 <= q2 < wpre.len() implies #[trigger] fitness.fit(wpre[q1], m)
                <= #[trigger] fitness.fit(wpre[q2], m) by {
                assert(forall|q: int| 0 <= q < i ==> s0[q] == w0[q]);
                assert(forall|q: int| 0 <= q < i ==> w1[q] == (if q < i { w0[q] } else {
                    w0[q + 1]
                }));
                assert(forall|q: int|
                    0 <= q < wpre.len() ==> wpre[q] == (if q < p {
                        w1[q]
                    } else if q == p {
                        x@
                    } else {
                        w1[q - 1]
                    }));
                if p > 0 {
                    assert(fitness.fit(w1[p - 1], m) <= fitness.fit(x@, m));
                }
            }
            assert(wpre =~= views_of(v@).subrange(
                0,
                if i + 1 < len { i as int + 1 } else { len as int },
            ));
        }
        i = i + 1;
    }
    proof {
        assert(views_of(v@) =~= views_of(v@).subrange(0, len as int));
        if len == 0 {
            assert(sorted_by_fit(fitness, views_of(v@), m));
        }
    }
}

/// `sel` is the `size`-prefix of `s`, a fitness-sorted permutation of
/// `pop`: that is, `sel` holds `size` lowest-fitness members of `pop`.
pub open spec fn selection_of<F: Fitness>(
    f: &F,
    m: &DistanceMatrix,
    pop: Seq<Seq<usize>>,
    s: Seq<Seq<usize>>,
    sel: Seq<Seq<usize>>,
    size: int,
) -> bool {
    &&& s.to_multiset() == pop.to_multiset()
    &&& sorted_by_fit(f, s, m)
    &&& 0 <= size <= s.len()
    &&& sel == s.subrange(0, size)
}

/// Selector correctness: a selection holds lowest-fitness members only.
/// Whenever the population holds more copies of a tour `x` than the
/// selection does — that is, `x` was (at least once) passed over — every
/// selected tour has fitness at most `x`'s.
pub proof fn lemma_selection_lowest<F: Fitness>(
    f: &F,
    m: &DistanceMatrix,
    pop: Seq<Seq<usize>>,
    s: Seq<Seq<usize>>,
    sel: Seq<Seq<usize>>,
    size: int,
    x: Seq<usize>,
    i: int,
)
    requires
        selection_of(f, m, pop, s, sel, size),
        pop.to_multiset().count(x) > sel.to_multiset().count(x),
        0 <= i < size,
    ensures
        f.fit(sel[i], m) <= f.fit(x, m),
{
    let rest = s.skip(size);
    assert(s =~= s.subrange(0, size) + rest);
    lemma_multiset_commutative(s.subrange(0, size), rest);
    rest.to_multiset_ensures();
    assert(rest.to_multiset().count(x) > 0);
    assert(rest.contains(x));
    let j = choose|j: int| 0 <= j < rest.len() && rest[j] == x;
    assert(s[size + j] == x);
    assert(f.fit(s[i], m) <= f.fit(s[size + j], m));
    assert(sel[i] == s[i]);
}

/// Ranks a copy of the population ascending by fitness and returns the best
/// `size` tours. The population itself is not changed. Fails exactly when
/// `size` exceeds the population length.
#[verifier::rlimit(60)]
pub fn select_subset<F: Fitness>(
    size: usize,
    population: &Vec<Path>,
    fitness: &F,
    distances: &DistanceMatrix,
) -> (r: Result<Vec<Path>, ClonalgError>)
    requires
        distances.wf(),
        all_valid(population@, distances.spec_side()),
    ensures
        r.is_ok() <==> size <= population@.len(),
        r matches Ok(sel) ==> sel@.len() == size && all_valid(sel@, distances.spec_side()),
        r matches Ok(sel) ==> sorted_by_fit(fitness, views_of(sel@), distances),
        r matches Ok(sel) ==> exists|s: Seq<Seq<usize>>|
            selection_of(fitness, distances, views_of(population@), s, views_of(sel@), size as int),
        r matches Ok(sel) ==> (size == population@.len() ==> views_of(sel@).to_multiset()
            == views_of(population@).to_multiset()),
        r matches Err(e) ==> e == ClonalgError::InvalidSelectionSize && size > population@.len(),
{
    if size > population.len() {
        return Err(ClonalgError::InvalidSelectionSize);
    }
    let mut ranked: Vec<Path> = Vec::new();
    let mut idx: usize = 0;
    while idx < population.len()
        invariant
            idx <= population@.len(),
            ranked@.len() == idx,
            forall|q: int| 0 <= q < idx ==> ranked@[q]@ == #[trigger] population@[q]@,
        decreases population@.len() - idx,
    {
        ranked.push(population[idx].clone());
        idx = idx + 1;
    }
    proof {
        assert(views_of(ranked@) =~= views_of(population@));
        assert forall|q: int| 0 <= q < ranked@.len() implies valid_tour(
            #[trigger] ranked@[q]@,
            distances.spec_side(),
        ) by {
            assert(ranked@[q]@ == population@[q]@);
            assert(valid_tour(population@[q]@, distances.spec_side()));
        }
    }
    sort_by_fitness(fitness, &mut ranked, distances);
    let ghost sorted_full = ranked@;
    let ghost s = views_of(ranked@);
    ranked.truncate(size);
    proof {
        assert(views_of(ranked@) =~= s.subrange(0, size as int));
        assert forall|q: int| 0 <= q < ranked@.len() implies valid_tour(
            #[trigger] ranked@[q]@,
            distances.spec_side(),
        ) by {
            assert(ranked@[q] == sorted_full[q]);
            assert(valid_tour(sorted_full[q]@, distances.spec_side()));
        }
        assert forall|q1: int, q2: int|
            0 <= q1 <= q2 < views_of(ranked@).len() implies #[trigger] fitness.fit(
            views_of(ranked@)[q1],
            distances,
        ) <= #[trigger] fitness.fit(views_of(ranked@)[q2], distances) by {
            assert(views_of(ranked@)[q1] == s[q1]);
            assert(views_of(ranked@)[q2] == s[q2]);
            assert(fitness.fit(s[q1], distances) <= fitness.fit(s[q2], distances));
        }
        assert(selection_of(
            fitness,
            distances,
            views_of(population@),
            s,
            views_of(ranked@),
            size as int,
        ));
        if size == population@.len() {
            assert(views_of(ranked@) =~= s);
        }
    }
    Ok(ranked)
}

/// The clone batch of a ranked parent list `s` of length `n`: the parent at
/// rank `i` (0-indexed, rank `0` fittest) contributes `n - i` deep copies,
/// and the batches are concatenated in rank order.
pub open spec fn expansion(s: Seq<Seq<usize>>) -> Seq<Seq<usize>>
    decreases s.len(),
{
    if s.len() == 0 {
        Seq::empty()
    } else {
        Seq::new(s.len(), |k: int| s[0]) + expansion(s.skip(1))
    }
}

/// The expansion size law: `n` ranked parents yield exactly
/// `n + (n - 1) + ... + 1 = n * (n + 1) / 2` clones; the first `n` entries
/// are copies of the best parent and the final entry is the single copy
/// contributed by the worst.
pub proof fn lemma_expansion_shape(s: Seq<Seq<usize>>)
    ensures
        2 * expansion(s).len() == s.len() * (s.len() + 1),
        expansion(s).len() == s.len() * (s.len() + 1) / 2,
        forall|k: int| 0 <= k < s.len() ==> expansion(s)[k] == s[0],
        s.len() > 0 ==> expansion(s)[expansion(s).len() - 1] == s[s.len() - 1],
    decreases s.len(),
{
    let n = s.len() as int;
    if s.len() > 0 {
        lemma_expansion_shape(s.skip(1));
        assert((n - 1) * n + 2 * n == n * (n + 1)) by (nonlinear_arith);
        if s.len() == 1 {
            assert(expansion(s.skip(1)).len() == 0);
        } else {
            assert(s.skip(1)[s.skip(1).len() - 1] == s[n - 1]);
        }
    }
    let l = expansion(s).len() as int;
    assert(l == n * (n + 1) / 2) by (nonlinear_arith)
        requires
            2 * l == n * (n + 1),
            n >= 0,
    ;
}

/// `out` is the clone batch of `s`, a fitness-sorted permutation of the
/// parent list `pop`.
pub open spec fn expansion_of<F: Fitness>(
    f: &F,
    m: &DistanceMatrix,
    pop: Seq<Seq<usize>>,
    s: Seq<Seq<usize>>,
    out: Seq<Seq<usize>>,
) -> bool {
    &&& s.to_multiset() == pop.to_multiset()
    &&& sorted_by_fit(f, s, m)
    &&& out == expansion(s)
}

/// Sorts the parents ascending by fitness and emits, for the parent of
/// rank `i` out of `n`, `n - i` independent clones, best parent's clones
/// first: `n * (n + 1) / 2` clones in all.
pub fn clonal_expansion<F: Fitness>(
    parents: &Vec<Path>,
    fitness: &F,
    distances: &DistanceMatrix,
) -> (r: Vec<Path>)
    requires
        distances.wf(),
        all_valid(parents@, distances.spec_side()),
    ensures
        all_valid(r@, distances.spec_side()),
        2 * r@.len() == parents@.len() * (parents@.len() + 1),
        exists|s: Seq<Seq<usize>>|
            expansion_of(fitness, distances, views_of(parents@), s, views_of(r@)),
{
    let mut ranked: Vec<Path> = Vec::new();
    let mut idx: usize = 0;
    while idx < parents.len()
        invariant
            idx <= parents@.len(),
            ranked@.len() == idx,
            forall|q: int| 0 <= q < idx ==> ranked@[q]@ == #[trigger] parents@[q]@,
        decreases parents@.len() - idx,
    {
        ranked.push(parents[idx].clone());
        idx = idx + 1;
    }
    proof {
        assert(views_of(ranked@) =~= views_of(parents@));
        assert forall|q: int| 0 <= q < ranked@.len() implies valid_tour(
            #[trigger] ranked@[q]@,
            distances.spec_side(),
        ) by {
            assert(ranked@[q]@ == parents@[q]@);
            assert(valid_tour(parents@[q]@, distances.spec_side()));
        }
    }
    sort_by_fitness(fitness, &mut ranked, distances);
    let ghost s = views_of(ranked@);
    let n = ranked.len();
    let mut clones: Vec<Path> = Vec::new();
    proof {
        assert(s.skip(0) =~= s);
        assert(views_of(clones@) + expansion(s.skip(0)) =~= expansion(s));
    }
    let mut i: usize = 0;
    while i < n
        invariant
            distances.wf(),
            i <= n,
            n == ranked@.len(),
            views_of(ranked@) == s,
            all_valid(ranked@, distances.spec_side()),
            all_valid(clones@, distances.spec_side()),
            expansion(s) == views_of(clones@) + expansion(s.skip(i as int)),
        decreases n - i,
    {
        let ghost base = views_of(clones@);
        let count = n - i;
        let mut k: usize = 0;
        while k < count
            invariant
                distances.wf(),
                k <= count,
                i < n,
                n == ranked@.len(),
                views_of(ranked@) == s,
                all_valid(ranked@, distances.spec_side()),
                all_valid(clones@, distances.spec_side()),
                views_of(clones@) =~= base + Seq::new(k as nat, |q: int| s[i as int]),
            decreases count - k,
        {
            let ghost prevv = views_of(clones@);
            let x = ranked[i].clone();
            clones.push(x);
            proof {
                let target = base + Seq::new((k + 1) as nat, |q: int| s[i as int]);
                assert forall|q: int| 0 <= q < views_of(clones@).len() implies views_of(clones@)[q]
                    == target[q] by {
                    if q < prevv.len() {
                        assert(views_of(clones@)[q] == prevv[q]);
                    } else {
                        assert(views_of(clones@)[q] == s[i as int]);
                    }
                }
                assert(views_of(clones@) =~= target);
            }
            k = k + 1;
        }
        proof {
            let tail = s.skip(i as int);
            assert(tail[0] == s[i as int]);
            assert(tail.skip(1) =~= s.skip(i as int + 1));
            assert(expansion(tail) == Seq::new(tail.len(), |q: int| tail[0]) + expansion(
                tail.skip(1),
            ));
            assert(Seq::new(tail.len(), |q: int| tail[0]) =~= Seq::new(
                count as nat,
                |q: int| s[i as int],
            ));
            assert(expansion(s) =~= views_of(clones@) + expansion(s.skip(i as int + 1)));
        }
        i = i + 1;
    }
    proof {
        assert(s.skip(n as int) =~= Seq::<Seq<usize>>::empty());
        assert(expansion(s) =~= views_of(clones@));
        lemma_expansion_shape(s);
        assert(expansion_of(fitness, distances, views_of(parents@), s, views_of(clones@)));
    }
    clones
}

/// The number of clones that precede mutation tier `t` when the clone
/// blocks follow the triangular schedule for `p` parents: tier `1` holds
/// `p` clones, tier `2` holds `p - 1`, and so on.
pub open spec fn tier_start(p: int, t: int) -> int
    decreases t,
{
    if t <= 1 {
        0
    } else {
        tier_start(p, t - 1) + (p - (t - 1) + 1)
    }
}

/// Closed form of the tier schedule: the first `t - 1` tiers hold
/// `(t - 1) * (2p - t + 2) / 2` clones in all; the whole schedule of `p`
/// tiers holds `p * (p + 1) / 2`.
pub proof fn lemma_tier_start_sum(p: int, t: int)
    requires
        1 <= t <= p + 1,
    ensures
        2 * tier_start(p, t) == (t - 1) * (2 * p - t + 2),
    decreases t,
{
    if t == 1 {
        assert(tier_start(p, t) == 0);
        assert((t - 1) * (2 * p - t + 2) == 0) by (nonlinear_arith)
            requires
                t == 1,
        ;
    } else {
        lemma_tier_start_sum(p, t - 1);
        assert(tier_start(p, t) == tier_start(p, t - 1) + (p - (t - 1) + 1));
        assert(2 * tier_start(p, t) == (t - 1) * (2 * p - t + 2)) by (nonlinear_arith)
            requires
                tier_start(p, t) == tier_start(p, t - 1) + (p - (t - 1) + 1),
                2 * tier_start(p, t - 1) == (t - 1 - 1) * (2 * p - (t - 1) + 2),
        ;
    }
}

/// The mutation tier of clone position `i` under the triangular schedule
/// for `p` parents, counted from tier `t` upward: the tier whose block of
/// positions contains `i`, capped at `p`.
pub open spec fn tier_of_from(p: int, t: int, i: int) -> int
    decreases p + 2 - t,
{
    if t >= p + 1 {
        p
    } else if i < tier_start(p, t + 1) {
        t
    } else {
        tier_of_from(p, t + 1, i)
    }
}

/// The mutation tier of clone position `i` under the triangular schedule
/// for `p` parents: `tier_of(p, i) == t` exactly when
/// `tier_start(p, t) <= i < tier_start(p, t + 1)`.
pub open spec fn tier_of(p: int, i: int) -> int {
    tier_of_from(p, 1, i)
}

/// The tier counted from `t` upward stays between `t` and `p`.
proof fn lemma_tier_of_from_bounds(p: int, t: int, i: int)
    requires
        1 <= t <= p,
    ensures
        t <= tier_of_from(p, t, i) <= p,
    decreases p + 2 - t,
{
    if !(i < tier_start(p, t + 1)) {
        if t + 1 <= p {
            lemma_tier_of_from_bounds(p, t + 1, i);
        } else {
            assert(tier_of_from(p, t + 1, i) == p);
        }
    }
}

/// A position inside tier `t`'s block has tier `t`.
pub proof fn lemma_tier_of_correct(p: int, t: int, i: int)
    requires
        1 <= t <= p,
        tier_start(p, t) <= i < tier_start(p, t + 1),
    ensures
        tier_of(p, i) == t,
{
    lemma_tier_of_from_aux(p, 1, t, i);
}

/// Helper for `lemma_tier_of_correct`: counting from any tier at or below
/// the right one lands on the right one.
proof fn lemma_tier_of_from_aux(p: int, u: int, t: int, i: int)
    requires
        1 <= u <= t <= p,
        tier_start(p, t) <= i < tier_start(p, t + 1),
    ensures
        tier_of_from(p, u, i) == t,
    decreases t - u,
{
    if u < t {
        lemma_tier_start_monotone(p, u + 1, t);
        lemma_tier_of_from_aux(p, u + 1, t, i);
    }
}

/// Later tiers start no earlier.
pub proof fn lemma_tier_start_monotone(p: int, a: int, b: int)
    requires
        1 <= a <= b <= p + 1,
    ensures
        tier_start(p, a) <= tier_start(p, b),
    decreases b - a,
{
    if a < b {
        lemma_tier_start_monotone(p, a, b - 1);
    }
}

/// The mutation schedule is non-decreasing along the clone sequence: a
/// later clone is never mutated fewer times than an earlier one.
pub proof fn lemma_tier_of_monotone(p: int, i: int, j: int)
    requires
        1 <= p,
        i <= j,
    ensures
        tier_of(p, i) <= tier_of(p, j),
{
    lemma_tier_of_from_monotone(p, 1, i, j);
}

/// Helper for `lemma_tier_of_monotone`.
proof fn lemma_tier_of_from_monotone(p: int, t: int, i: int, j: int)
    requires
        1 <= t <= p,
        i <= j,
    ensures
        tier_of_from(p, t, i) <= tier_of_from(p, t, j),
    decreases p + 2 - t,
{
    if i < tier_start(p, t + 1) {
        if j < tier_start(p, t + 1) {
        } else if t + 1 <= p {
            lemma_tier_of_from_bounds(p, t + 1, j);
        } else {
            assert(tier_of_from(p, t + 1, j) == p);
        }
    } else {
        if t + 1 <= p {
            lemma_tier_of_from_monotone(p, t + 1, i, j);
        } else {
            assert(tier_of_from(p, t + 1, i) == p);
            assert(tier_of_from(p, t + 1, j) == p);
        }
    }
}

/// The result of applying, in order, a sequence of pairwise swaps to a
/// tour: each pair names the two positions exchanged.
pub open spec fn apply_swaps(s: Seq<usize>, sw: Seq<(usize, usize)>) -> Seq<usize>
    decreases sw.len(),
{
    if sw.len() == 0 {
        s
    } else {
        let i = sw[0].0 as int;
        let j = sw[0].1 as int;
        apply_swaps(s.update(i, s[j]).update(j, s[i]), sw.skip(1))
    }
}

/// Every swap in `sw` exchanges two distinct positions below `len`.
pub open spec fn swaps_ok(sw: Seq<(usize, usize)>, len: nat) -> bool {
    forall|q: int|
        0 <= q < sw.len() ==> (#[trigger] sw[q]).0 < len && sw[q].1 < len && sw[q].0 != sw[q].1
}

/// Appending a swap applies it after the others.
proof fn lemma_apply_swaps_push(s: Seq<usize>, sw: Seq<(usize, usize)>, pair: (usize, usize))
    ensures
        apply_swaps(s, sw.push(pair)) == apply_swaps(s, sw).update(
            pair.0 as int,
            apply_swaps(s, sw)[pair.1 as int],
        ).update(pair.1 as int, apply_swaps(s, sw)[pair.0 as int]),
    decreases sw.len(),
{
    if sw.len() == 0 {
        let pi = pair.0 as int;
        let pj = pair.1 as int;
        assert(sw.push(pair)[0] == pair);
        assert(sw.push(pair).skip(1) =~= Seq::<(usize, usize)>::empty());
        assert(apply_swaps(s, sw) == s);
        assert(apply_swaps(s, sw.push(pair)) == apply_swaps(
            s.update(pi, s[pj]).update(pj, s[pi]),
            sw.push(pair).skip(1),
        ));
        assert(apply_swaps(s.update(pi, s[pj]).update(pj, s[pi]), sw.push(pair).skip(1))
            == s.update(pi, s[pj]).update(pj, s[pi]));
    } else {
        assert(sw.push(pair)[0] == sw[0]);
        assert(sw.push(pair).skip(1) =~= sw.skip(1).push(pair));
        let i = sw[0].0 as int;
        let j = sw[0].1 as int;
        let s1 = s.update(i, s[j]).update(j, s[i]);
        assert(apply_swaps(s, sw) == apply_swaps(s1, sw.skip(1)));
        assert(apply_swaps(s, sw.push(pair)) == apply_swaps(s1, sw.push(pair).skip(1)));
        lemma_apply_swaps_push(s1, sw.skip(1), pair);
    }
}

/// `after` is `before` transformed by exactly `t` pairwise swaps of
/// distinct in-range positions, and by nothing else.
pub open spec fn tier_mutated(before: Seq<usize>, after: Seq<usize>, t: int) -> bool {
    exists|sw: Seq<(usize, usize)>|
        {
            &&& sw.len() == t
            &&& swaps_ok(sw, before.len())
            &&& after == apply_swaps(before, sw)
        }
}

/// Mutates every clone in place. The clones are assumed to arrive in the
/// concatenation order produced by `clonal_expansion` for `parent_size`
/// parents; walking that order, the clone at a position in tier `t`
/// (blocks of `parent_size`, `parent_size - 1`, ... positions) is
/// transformed by exactly `t` pairwise swaps of distinct in-range
/// positions — `tier_of` gives the count — so clones of fitter parents
/// receive fewer swaps. The mutator only counts positions, so it accepts
/// any clone list no longer than the triangular schedule. Every clone
/// stays a valid tour.
pub fn hypermutation_inplace<F: Fitness>(
    parent_size: usize,
    clones: &mut Vec<Path>,
    fitness: &F,
    distances: &DistanceMatrix,
)
    requires
        distances.wf(),
        distances.spec_side() >= 2,
        all_valid(old(clones)@, distances.spec_side()),
        1 <= parent_size,
        2 * old(clones)@.len() <= parent_size * (parent_size + 1),
    ensures
        final(clones)@.len() == old(clones)@.len(),
        all_valid(final(clones)@, distances.spec_side()),
        forall|i: int|
            0 <= i < old(clones)@.len() ==> tier_mutated(
                old(clones)@[i]@,
                final(clones)@[i]@,
                tier_of(parent_size as int, i),
            ),
{
    let ghost orig = views_of(clones@);
    let len = clones.len();
    let mut mutated: usize = 0;
    let mut no_mutations: usize = 1;
    let mut i: usize = 0;
    while i < len
        invariant
            distances.wf(),
            distances.spec_side() >= 2,
            len == clones@.len(),
            orig.len() == len,
            all_valid(clones@, distances.spec_side()),
            1 <= no_mutations <= parent_size,
            mutated <= parent_size - no_mutations + 1,
            i == tier_start(parent_size as int, no_mutations as int) + mutated,
            2 * len <= parent_size * (parent_size + 1),
            i <= len,
            forall|q: int| i <= q < len ==> #[trigger] views_of(clones@)[q] == orig[q],
            forall|q: int|
                0 <= q < i ==> tier_mutated(
                    orig[q],
                    #[trigger] views_of(clones@)[q],
                    tier_of(parent_size as int, q),
                ),
        decreases len - i,
    {
        if mutated == parent_size - no_mutations + 1 {
            proof {
                if no_mutations == parent_size {
                    lemma_tier_start_sum(parent_size as int, parent_size as int + 1);
                    assert(i == tier_start(parent_size as int, parent_size as int + 1));
                    assert(false);
                }
            }
            mutated = 0;
            no_mutations = no_mutations + 1;
        }
        proof {
            let p = parent_size as int;
            let t = no_mutations as int;
            assert(tier_start(p, t + 1) == tier_start(p, t) + (p - t + 1));
            assert(mutated < parent_size - no_mutations + 1);
            lemma_tier_of_correct(p, t, i as int);
        }

        let mut path = clones[i].clone();
        let ghost start = path@;
        let ghost mut sw = Seq::<(usize, usize)>::empty();
        let mut r: usize = 0;
        while r < no_mutations
            invariant
                distances.wf(),
                distances.spec_side() >= 2,
                valid_tour(path@, distances.spec_side()),
                r <= no_mutations,
                start.len() == distances.spec_side(),
                sw.len() == r,
                swaps_ok(sw, start.len()),
                path@ == apply_swaps(start, sw),
            decreases no_mutations - r,
    {
            let ghost before = path@;
            let outcome = path.mutate();
            proof {
                match outcome {
                    Ok(pair) => {
                        lemma_swap_keeps_valid_tour(
                            before,
                            distances.spec_side(),
                            pair.0 as int,
                            pair.1 as int,
                        );
                        lemma_apply_swaps_push(start, sw, pair);
                        let sw0 = sw;
                        sw = sw0.push(pair);
                        assert(before.len() == start.len());
                        assert forall|q: int|
                            0 <= q < sw.len() implies ((#[trigger] sw[q]).0 < start.len()
                            && sw[q].1 < start.len() && sw[q].0 != sw[q].1) by {
                            if q < sw0.len() {
                                assert(sw[q] == sw0[q]);
                            } else {
                                assert(sw[q] == pair);
                            }
                        }
                    },
                    Err(_) => {
                        assert(false);
                    },
                }
            }
            r = r + 1;
        }
        proof {
            assert(views_of(clones@)[i as int] == orig[i as int]);
            assert(start == clones@[i as int]@);
            assert(start == orig[i as int]);
            assert(tier_mutated(orig[i as int], path@, tier_of(parent_size as int, i as int)));
        }
        let ghost prev = views_of(clones@);
        clones[i] = path;
        proof {
            assert forall|q: int| 0 <= q < views_of(clones@).len() implies views_of(clones@)[q]
                == (if q == i {
                path@
            } else {
                prev[q]
            }) by {}
            assert forall|q: int| 0 <= q < clones@.len() implies valid_tour(
                #[trigger] clones@[q]@,
                distances.spec_side(),
            ) by {}
        }
        mutated = mutated + 1;
        i = i + 1;
    }
    proof {
        assert forall|q: int| 0 <= q < old(clones)@.len() implies tier_mutated(
            old(clones)@[q]@,
            clones@[q]@,
            tier_of(parent_size as int, q),
        ) by {
            assert(orig[q] == old(clones)@[q]@);
            assert(views_of(clones@)[q] == clones@[q]@);
            assert(tier_mutated(orig[q], views_of(clones@)[q], tier_of(parent_size as int, q)));
        }
    }
}

/// The shape of a finished replacement walk. `s` is the old population
/// sorted ascending by fitness, `c` the combined newcomers sorted ascending,
/// `k` the number of replacements made: the `k` worst slots of `s` were
/// overwritten, slot `len - 1 - q` by `c[q]`, each replacement no worse than
/// what it displaced; the walk stopped only at the end of a sequence or at
/// the first slot already better than its candidate.
pub open spec fn replace_shape<F: Fitness>(
    f: &F,
    m: &DistanceMatrix,
    oldpop: Seq<Seq<usize>>,
    comb: Seq<Seq<usize>>,
    s: Seq<Seq<usize>>,
    c: Seq<Seq<usize>>,
    k: int,
    newpop: Seq<Seq<usize>>,
) -> bool {
    &&& s.to_multiset() == oldpop.to_multiset()
    &&& sorted_by_fit(f, s, m)
    &&& c.to_multiset() == comb.to_multiset()
    &&& sorted_by_fit(f, c, m)
    &&& newpop.len() == s.len()
    &&& 0 <= k <= s.len()
    &&& k <= c.len()
    &&& forall|q: int| 0 <= q < s.len() - k ==> newpop[q] == s[q]
    &&& forall|q: int| 0 <= q < k ==> newpop[s.len() - 1 - q] == c[q]
    &&& forall|q: int| 0 <= q < k ==> #[trigger] f.fit(c[q], m) <= f.fit(s[s.len() - 1 - q], m)
    &&& (k == s.len() || k == c.len() || f.fit(s[s.len() - 1 - k], m) < f.fit(c[k], m))
}

/// Merges the `selected` and `random` newcomers into `population` in place.
/// The population is sorted ascending by fitness, the newcomers are pooled
/// and sorted ascending, and the walk pairs the population's worst slots
/// with the pool's best candidates, overwriting while the candidate is at
/// least as fit, stopping at the first slot that is already strictly
/// better. Slot for slot against the sorted old population, the result is
/// never worse.
pub fn combine_and_replace<F: Fitness>(
    population: &mut Vec<Path>,
    selected: Vec<Path>,
    random: Vec<Path>,
    fitness: &F,
    distances: &DistanceMatrix,
)
    requires
        distances.wf(),
        all_valid(old(population)@, distances.spec_side()),
        all_valid(selected@, distances.spec_side()),
        all_valid(random@, distances.spec_side()),
    ensures
        final(population)@.len() == old(population)@.len(),
        all_valid(final(population)@, distances.spec_side()),
        exists|s: Seq<Seq<usize>>, c: Seq<Seq<usize>>, k: int|
            replace_shape(
                fitness,
                distances,
                views_of(old(population)@),
                views_of(selected@) + views_of(random@),
                s,
                c,
                k,
                views_of(final(population)@),
            ),
        exists|s: Seq<Seq<usize>>|
            {
                &&& s.to_multiset() == views_of(old(population)@).to_multiset()
                &&& sorted_by_fit(fitness, s, distances)
                &&& s.len() == final(population)@.len()
                &&& forall|q: int|
                    0 <= q < s.len() ==> #[trigger] fitness.fit(views_of(final(population)@)[q], distances)
                        <= fitness.fit(s[q], distances)
            },
{
    sort_by_fitness(fitness, population, distances);
    let ghost s = views_of(population@);

    let mut combined: Vec<Path> = Vec::new();
    let mut sel = selected;
    let mut rnd = random;
    combined.append(&mut sel);
    combined.append(&mut rnd);
    proof {
        assert(combined@ =~= selected@ + random@);
        assert(views_of(combined@) =~= views_of(selected@) + views_of(random@));
        assert forall|q: int| 0 <= q < combined@.len() implies valid_tour(
            #[trigger] combined@[q]@,
            distances.spec_side(),
        ) by {
            if q < selected@.len() {
                assert(combined@[q]@ == selected@[q]@);
            } else {
                assert(combined@[q]@ == random@[q - selected@.len()]@);
            }
        }
    }
    sort_by_fitness(fitness, &mut combined, distances);
    let ghost c = views_of(combined@);

    let plen = population.len();
    let clen = combined.len();
    let mut k: usize = 0;
    let mut stopped = false;
    while !stopped && k < plen && k < clen
        invariant
            distances.wf(),
            k <= plen,
            k <= clen,
            plen == population@.len(),
            clen == combined@.len(),
            all_valid(population@, distances.spec_side()),
            all_valid(combined@, distances.spec_side()),
            views_of(combined@) == c,
            sorted_by_fit(fitness, s, distances),
            sorted_by_fit(fitness, c, distances),
            s.len() == plen,
            forall|q: int| 0 <= q < plen - k ==> views_of(population@)[q] == s[q],
            forall|q: int| 0 <= q < k ==> views_of(population@)[plen - 1 - q] == c[q],
            forall|q: int|
                0 <= q < k ==> #[trigger] fitness.fit(c[q], distances) <= fitness.fit(
                    s[plen - 1 - q],
                    distances,
                ),
            stopped ==> (k < plen && k < clen && fitness.fit(s[plen - 1 - k], distances)
                < fitness.fit(c[k as int], distances)),
        decreases plen - k + (if stopped { 0int } else { 1int }),
    {
        let worst_fit = fitness.call(&population[plen - 1 - k], distances);
        let cand_fit = fitness.call(&combined[k], distances);
        proof {
            assert(views_of(population@)[plen - 1 - k] == s[plen - 1 - k]);
            assert(views_of(combined@)[k as int] == c[k as int]);
        }
        if worst_fit < cand_fit {
            stopped = true;
        } else {
            let ghost before = views_of(population@);
            let cand = combined[k].clone();
            population[plen - 1 - k] = cand;
            proof {
                assert forall|q: int| 0 <= q < views_of(population@).len() implies views_of(
                    population@,
                )[q] == (if q == plen - 1 - k {
                    c[k as int]
                } else {
                    before[q]
                }) by {}
                assert forall|q: int| 0 <= q < population@.len() implies valid_tour(
                    #[trigger] population@[q]@,
                    distances.spec_side(),
                ) by {}
            }
            k = k + 1;
        }
    }
    proof {
        let newpop = views_of(population@);
        assert(replace_shape(
            fitness,
            distances,
            views_of(old(population)@),
            views_of(selected@) + views_of(random@),
            s,
            c,
            k as int,
            newpop,
        ));
        assert forall|q: int| 0 <= q < s.len() implies #[trigger] fitness.fit(newpop[q], distances)
            <= fitness.fit(s[q], distances) by {
            if q >= plen - k {
                let j = plen - 1 - q;
                assert(newpop[q] == c[j]);
                assert(fitness.fit(c[j], distances) <= fitness.fit(s[plen - 1 - j], distances));
            }
        }
    }
}

/// The total fitness of a population: the sum of its members' costs.
pub open spec fn total_fit<F: Fitness>(f: &F, s: Seq<Seq<usize>>, m: &DistanceMatrix) -> int
    decreases s.len(),
{
    if s.len() == 0 {
        0
    } else {
        f.fit(s[0], m) + total_fit(f, s.skip(1), m)
    }
}

/// Summing respects slot-for-slot domination.
pub proof fn lemma_total_fit_pointwise<F: Fitness>(
    f: &F,
    a: Seq<Seq<usize>>,
    b: Seq<Seq<usize>>,
    m: &DistanceMatrix,
)
    requires
        a.len() == b.len(),
        forall|q: int| 0 <= q < a.len() ==> #[trigger] f.fit(a[q], m) <= f.fit(b[q], m),
    ensures
        total_fit(f, a, m) <= total_fit(f, b, m),
    decreases a.len(),
{
    if a.len() > 0 {
        assert forall|q: int| 0 <= q < a.skip(1).len() implies #[trigger] f.fit(a.skip(1)[q], m)
            <= f.fit(b.skip(1)[q], m) by {
            assert(a.skip(1)[q] == a[q + 1]);
            assert(b.skip(1)[q] == b[q + 1]);
            assert(f.fit(a[q + 1], m) <= f.fit(b[q + 1], m));
        }
        lemma_total_fit_pointwise(f, a.skip(1), b.skip(1), m);
    }
}

/// Removing one member splits the total.
pub proof fn lemma_total_fit_remove<F: Fitness>(
    f: &F,
    b: Seq<Seq<usize>>,
    j: int,
    m: &DistanceMatrix,
)
    requires
        0 <= j < b.len(),
    ensures
        total_fit(f, b, m) == f.fit(b[j], m) + total_fit(f, b.remove(j), m),
    decreases b.len(),
{
    if j == 0 {
        assert(b.remove(0) =~= b.skip(1));
    } else {
        lemma_total_fit_remove(f, b.skip(1), j - 1, m);
        assert(b.remove(j).skip(1) =~= b.skip(1).remove(j - 1));
        assert(b.remove(j)[0] == b[0]);
    }
}

/// The total fitness of a population depends only on which tours it holds,
/// not on their order.
pub proof fn lemma_total_fit_permutation<F: Fitness>(
    f: &F,
    a: Seq<Seq<usize>>,
    b: Seq<Seq<usize>>,
    m: &DistanceMatrix,
)
    requires
        a.to_multiset() == b.to_multiset(),
    ensures
        total_fit(f, a, m) == total_fit(f, b, m),
    decreases a.len(),
{
    a.to_multiset_ensures();
    b.to_multiset_ensures();
    if a.len() > 0 {
        let x = a[0];
        assert(a.contains(x));
        assert(b.to_multiset().count(x) > 0);
        assert(b.contains(x));
        let j = choose|j: int| 0 <= j < b.len() && b[j] == x;
        lemma_total_fit_remove(f, b, j, m);
        assert(a.skip(1) =~= a.remove(0));
        to_multiset_remove(a, 0);
        to_multiset_remove(b, j);
        lemma_total_fit_permutation(f, a.skip(1), b.remove(j), m);
    } else {
        assert(b.to_multiset().len() == 0);
        assert(b.len() == 0);
    }
}

/// Replacement monotonicity: if the new population dominates, slot for
/// slot, a fitness-sorted permutation `s` of the old population (as
/// `combine_and_replace` ensures), then its total fitness is no worse than
/// the old population's.
pub proof fn lemma_replacement_monotone<F: Fitness>(
    f: &F,
    m: &DistanceMatrix,
    oldpop: Seq<Seq<usize>>,
    s: Seq<Seq<usize>>,
    newpop: Seq<Seq<usize>>,
)
    requires
        s.to_multiset() == oldpop.to_multiset(),
        newpop.len() == s.len(),
        forall|q: int| 0 <= q < s.len() ==> #[trigger] f.fit(newpop[q], m) <= f.fit(s[q], m),
    ensures
        total_fit(f, newpop, m) <= total_fit(f, oldpop, m),
{
    lemma_total_fit_pointwise(f, newpop, s, m);
    lemma_total_fit_permutation(f, s, oldpop, m);
}

/// Produces `size` independent tours, each a uniformly shuffled permutation
/// of `0 .. no_cities`. Duplicates between tours are permitted.
pub fn random_population(size: usize, no_cities: usize) -> (r: Vec<Path>)
    ensures
        r@.len() == size,
        all_valid(r@, no_cities as nat),
{
    let mut base: Vec<usize> = Vec::new();
    let mut c: usize = 0;
    while c < no_cities
        invariant
            c <= no_cities,
            base@.len() == c,
            forall|i: int| 0 <= i < c ==> base@[i] == i,
        decreases no_cities - c,
    {
        base.push(c);
        c = c + 1;
    }
    proof {
        assert forall|i: int, j: int|
            0 <= i < base@.len() && 0 <= j < base@.len() && i != j implies base@[i] != base@[j] by {}
        assert(valid_tour(base@, no_cities as nat));
    }

    let mut pop: Vec<Path> = Vec::new();
    let mut k: usize = 0;
    while k < size
        invariant
            k <= size,
            pop@.len() == k,
            all_valid(pop@, no_cities as nat),
            valid_tour(base@, no_cities as nat),
        decreases size - k,
    {
        let ghost before = base@;
        shuffle_cities(&mut base);
        proof {
            lemma_permutation_keeps_valid_tour(before, base@, no_cities as nat);
        }
        let v = base.clone();
        proof {
            assert(v@ =~= base@);
        }
        pop.push(Path(v));
        k = k + 1;
    }
    pop
}

} // verus!
