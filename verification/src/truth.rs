//! What the nearest vectors really are, and how much of that a search has found.
use crate::order;
use crate::order::{highest, key_of, lowest};
use vstd::prelude::*;

verus! {

pub open spec fn all_numbers(bits: Seq<u32>) -> bool {
    forall|i: int| 0 <= i < bits.len() ==> !order::is_nan(#[trigger] bits[i])
}

// ── the best scores in a bounded buffer ───────────────────────────────────

/// The first place of `top` whose score is not above `d`.
pub open spec fn place_for(top: Seq<(u32, u64)>, d: u32, i: int) -> int
    decreases top.len() - i,
{
    if i < 0 || i >= top.len() {
        top.len() as int
    } else if order::float_key(top[i].0) > order::float_key(d) {
        place_for(top, d, i + 1)
    } else {
        i
    }
}

/// The buffer once a score has been offered to it. A full buffer takes only what beats its
/// last score, and lets that one go.
pub open spec fn offered(top: Seq<(u32, u64)>, d: u32, id: u64, k: nat) -> Seq<(u32, u64)> {
    if top.len() == k && order::float_key(d) <= order::float_key(top.last().0) {
        top
    } else {
        let t = top.insert(place_for(top, d, 0), (d, id));
        if t.len() > k {
            t.drop_last()
        } else {
            t
        }
    }
}

/// The buffer once the first `n` scores have been offered.
pub open spec fn top_after(scores: Seq<u32>, k: nat, n: nat) -> Seq<(u32, u64)>
    decreases n,
{
    if n == 0 {
        Seq::empty()
    } else {
        offered(top_after(scores, k, (n - 1) as nat), scores[n - 1], (n - 1) as u64, k)
    }
}

proof fn lemma_place(top: Seq<(u32, u64)>, d: u32, i: int)
    requires
        0 <= i <= top.len(),
    ensures
        i <= place_for(top, d, i) <= top.len(),
        forall|x: int|
            i <= x < place_for(top, d, i) ==> order::float_key((#[trigger] top[x]).0)
                > order::float_key(d),
        place_for(top, d, i) < top.len() ==> order::float_key(top[place_for(top, d, i)].0)
            <= order::float_key(d),
    decreases top.len() - i,
{
    if i < top.len() && order::float_key(top[i].0) > order::float_key(d) {
        lemma_place(top, d, i + 1);
    }
}

/// Finds the `k` best scores, the best first, each with the number of its vector.
pub fn exact_top(scores: &Vec<u32>, k: usize) -> (r: Vec<(u32, u64)>)
    requires
        k > 0,
        all_numbers(scores@),
    ensures
        r@ == top_after(scores@, k as nat, scores@.len()),
{
    let n: usize = scores.len();
    let mut top: Vec<(u32, u64)> = Vec::new();
    let mut i: usize = 0;
    while i < n
        invariant
            k > 0,
            i <= n == scores@.len(),
            top@ == top_after(scores@, k as nat, i as nat),
            top@.len() <= k,
        decreases n - i,
    {
        let d: u32 = scores[i];
        let key: i128 = key_of(d);
        let ghost before = top@;
        if top.len() == k && key <= key_of(top[k - 1].0) {
            i = i + 1;
            continue;
        }
        let mut p: usize = 0;
        while p < top.len() && key_of(top[p].0) > key
            invariant
                key == order::float_key(d),
                p <= top@.len(),
                place_for(top@, d, 0) == place_for(top@, d, p as int),
            decreases top@.len() - p,
        {
            p = p + 1;
        }
        top.insert(p, (d, i as u64));
        if top.len() > k {
            top.pop();
            proof {
                assert(top@ =~= before.insert(p as int, (d, i as u64)).drop_last());
            }
        }
        i = i + 1;
    }
    top
}

pub open spec fn ids_of(top: Seq<(u32, u64)>) -> Seq<u64> {
    Seq::new(top.len(), |i: int| top[i].1)
}

/// The numbers of the vectors in a buffer.
pub fn top_ids(top: &Vec<(u32, u64)>) -> (r: Vec<u64>)
    ensures
        r@ == ids_of(top@),
{
    let mut out: Vec<u64> = Vec::new();
    let mut i: usize = 0;
    while i < top.len()
        invariant
            i <= top@.len(),
            out@.len() == i,
            forall|j: int| 0 <= j < i ==> #[trigger] out@[j] == top@[j].1,
        decreases top@.len() - i,
    {
        out.push(top[i].1);
        i = i + 1;
    }
    proof {
        assert(out@ =~= ids_of(top@));
    }
    out
}

// ── how much was found ────────────────────────────────────────────────────

/// How many of the first `n` found are among the true ones.
pub open spec fn hits_in(got: Seq<u64>, truth: Seq<u64>, n: int) -> nat
    decreases n,
{
    if n <= 0 {
        0
    } else {
        hits_in(got, truth, n - 1) + (if truth.contains(got[n - 1]) {
            1nat
        } else {
            0
        })
    }
}

proof fn lemma_hits(got: Seq<u64>, truth: Seq<u64>, n: int)
    requires
        0 <= n,
    ensures
        hits_in(got, truth, n) <= n,
    decreases n,
{
    if n > 0 {
        lemma_hits(got, truth, n - 1);
    }
}

fn is_among(ids: &Vec<u64>, id: u64, upto: usize) -> (r: bool)
    requires
        upto <= ids@.len(),
    ensures
        r == ids@.take(upto as int).contains(id),
{
    let mut i: usize = 0;
    while i < upto
        invariant
            i <= upto <= ids@.len(),
            forall|j: int| 0 <= j < i ==> #[trigger] ids@[j] != id,
        decreases upto - i,
    {
        if ids[i] == id {
            proof {
                assert(ids@.take(upto as int)[i as int] == id);
            }
            return true;
        }
        i = i + 1;
    }
    proof {
        if ids@.take(upto as int).contains(id) {
            let p = choose|p: int|
                0 <= p < upto && ids@.take(upto as int)[p] == id;
            assert(ids@[p] == id);
        }
    }
    false
}

/// Counts the true ones among the first `k` found.
pub fn hit_count(got: &Vec<u64>, truth: &Vec<u64>, k: usize) -> (r: usize)
    ensures
        r == hits_in(
            got@,
            truth@,
            if k < got@.len() {
                k as int
            } else {
                got@.len() as int
            },
        ),
{
    let m: usize = got.len();
    let n: usize = if k < m {
        k
    } else {
        m
    };
    let size: usize = truth.len();
    let mut hits: usize = 0;
    let mut i: usize = 0;
    while i < n
        invariant
            i <= n <= got@.len(),
            size == truth@.len(),
            hits == hits_in(got@, truth@, i as int),
            hits <= i,
        decreases n - i,
    {
        proof {
            assert(truth@.take(size as int) =~= truth@);
        }
        if is_among(truth, got[i], size) {
            hits = hits + 1;
        }
        i = i + 1;
    }
    hits
}

/// The different numbers that two lists share.
pub open spec fn shared(got: Seq<u64>, truth: Seq<u64>) -> Set<u64> {
    got.to_set().intersect(truth.to_set())
}

proof fn lemma_take_set(s: Seq<u64>, i: int)
    requires
        0 <= i < s.len(),
    ensures
        s.take(i + 1).to_set() == s.take(i).to_set().insert(s[i]),
{
    assert forall|x: u64| s.take(i + 1).to_set().contains(x) <==> s.take(i).to_set().insert(
        s[i],
    ).contains(x) by {
        if s.take(i + 1).contains(x) {
            let t = s.take(i + 1);
            let p = choose|p: int| 0 <= p < t.len() && t[p] == x;
            assert(s[p] == x);
            if p < i {
                assert(s.take(i)[p] == x);
            }
        }
        if s.take(i).contains(x) {
            let p = choose|p: int| 0 <= p < i && s.take(i)[p] == x;
            assert(s.take(i + 1)[p] == x);
        }
        if x == s[i] {
            assert(s.take(i + 1)[i] == x);
        }
    }
    assert(s.take(i + 1).to_set() =~= s.take(i).to_set().insert(s[i]));
}

/// Counts the different numbers that two lists share.
pub fn overlap(got: &Vec<u64>, truth: &Vec<u64>) -> (r: usize)
    ensures
        r == shared(got@, truth@).len(),
{
    let n: usize = got.len();
    let size: usize = truth.len();
    let mut count: usize = 0;
    let mut i: usize = 0;
    proof {
        assert(got@.take(0).to_set() =~= Set::<u64>::empty());
        assert(shared(got@.take(0), truth@) =~= Set::<u64>::empty());
    }
    while i < n
        invariant
            i <= n == got@.len(),
            size == truth@.len(),
            count == shared(got@.take(i as int), truth@).len(),
            shared(got@.take(i as int), truth@).finite(),
            count <= i,
        decreases n - i,
    {
        let x: u64 = got[i];
        let ghost old_set = shared(got@.take(i as int), truth@);
        proof {
            assert(truth@.take(size as int) =~= truth@);
            lemma_take_set(got@, i as int);
        }
        if is_among(truth, x, size) && !is_among(got, x, i) {
            count = count + 1;
            proof {
                assert(shared(got@.take(i + 1), truth@) =~= old_set.insert(x));
            }
        } else {
            proof {
                assert(shared(got@.take(i + 1), truth@) =~= old_set);
            }
        }
        i = i + 1;
    }
    proof {
        assert(got@.take(n as int) =~= got@);
    }
    count
}

pub open spec fn first_of(s: Seq<u64>, k: nat) -> Seq<u64> {
    s.take(
        if k < s.len() {
            k as int
        } else {
            s.len() as int
        },
    )
}

fn add_new(out: &mut Vec<u64>, more: &Vec<u64>, k: usize)
    requires
        old(out)@.no_duplicates(),
    ensures
        final(out)@.no_duplicates(),
        final(out)@.to_set() == old(out)@.to_set().union(first_of(more@, k as nat).to_set()),
{
    let m: usize = more.len();
    let n: usize = if k < m {
        k
    } else {
        m
    };
    let ghost start = out@.to_set();
    let mut i: usize = 0;
    proof {
        assert(more@.take(0).to_set() =~= Set::<u64>::empty());
        assert(start.union(more@.take(0).to_set()) =~= start);
    }
    while i < n
        invariant
            i <= n <= more@.len(),
            out@.no_duplicates(),
            out@.to_set() == start.union(more@.take(i as int).to_set()),
        decreases n - i,
    {
        let x: u64 = more[i];
        let size: usize = out.len();
        let ghost before = out@;
        proof {
            assert(out@.take(size as int) =~= out@);
            lemma_take_set(more@, i as int);
        }
        if !is_among(out, x, size) {
            out.push(x);
            proof {
                assert(out@.take(size as int) =~= before);
                assert(out@.take(size + 1) =~= out@);
                lemma_take_set(out@, size as int);
                assert(!before.contains(x));
                assert forall|a: int, b: int|
                    0 <= a < out@.len() && 0 <= b < out@.len() && a != b implies out@[a]
                    != out@[b] by {
                    if a < size && b < size {
                        assert(before[a] != before[b]);
                    } else if a < size {
                        assert(before.contains(before[a]));
                    } else if b < size {
                        assert(before.contains(before[b]));
                    }
                }
            }
        } else {
            proof {
                assert(before.to_set().contains(x));
            }
        }
        i = i + 1;
        proof {
            assert(out@.to_set() =~= start.union(more@.take(i as int).to_set()));
        }
    }
}

/// The different numbers among the first `k` of either list.
pub open spec fn either(a: Seq<u64>, b: Seq<u64>, k: nat) -> Set<u64> {
    first_of(a, k).to_set().union(first_of(b, k).to_set())
}

/// How many different numbers the first `k` of two lists hold, and how many of them a third
/// list holds.
pub fn coverage(dense: &Vec<u64>, sparse: &Vec<u64>, fused: &Vec<u64>, k: usize) -> (r: (
    usize,
    usize,
))
    ensures
        r.0 == either(dense@, sparse@, k as nat).len(),
        r.1 == either(dense@, sparse@, k as nat).intersect(fused@.to_set()).len(),
{
    let mut all: Vec<u64> = Vec::new();
    proof {
        assert(all@.to_set() =~= Set::<u64>::empty());
    }
    add_new(&mut all, dense, k);
    add_new(&mut all, sparse, k);
    proof {
        assert(all@.to_set() =~= either(dense@, sparse@, k as nat));
        all@.unique_seq_to_set();
    }
    (all.len(), overlap(&all, fused))
}

// ── filters ───────────────────────────────────────────────────────────────

/// A filter on the category of a vector.
#[derive(Debug, PartialEq, Eq)]
pub enum Filter {
    Any,
    Eq(u32),
    In(Vec<u32>),
}

/// Whether a category passes a filter.
pub open spec fn passes(f: Filter, cat: u32) -> bool {
    match f {
        Filter::Any => true,
        Filter::Eq(c) => cat == c,
        Filter::In(s) => s@.contains(cat),
    }
}

impl Filter {
    /// Whether a category passes.
    pub fn matches(&self, cat: u32) -> (r: bool)
        ensures
            r == passes(*self, cat),
    {
        match self {
            Filter::Any => true,
            Filter::Eq(c) => cat == *c,
            Filter::In(s) => {
                let mut i: usize = 0;
                while i < s.len()
                    invariant
                        i <= s@.len(),
                        *self == Filter::In(*s),
                        forall|j: int| 0 <= j < i ==> #[trigger] s@[j] != cat,
                    decreases s@.len() - i,
                {
                    if s[i] == cat {
                        proof {
                            assert(s@[i as int] == cat);
                        }
                        return true;
                    }
                    i = i + 1;
                }
                false
            },
        }
    }
}

/// The category of a row in the filtered benchmark: a rare one of forty rows, and seven
/// common ones.
pub fn category(i: usize) -> (r: u32)
    ensures
        r == (if i < 40 {
            0
        } else {
            1 + i % 7
        }),
{
    if i < 40 {
        0
    } else {
        1 + (i % 7) as u32
    }
}

/// The places of the first `n` rows that pass a filter.
pub open spec fn passing(f: Filter, cats: Seq<u32>, n: int) -> Seq<usize>
    decreases n,
{
    if n <= 0 {
        Seq::empty()
    } else if passes(f, cats[n - 1]) {
        passing(f, cats, n - 1).push((n - 1) as usize)
    } else {
        passing(f, cats, n - 1)
    }
}

fn passing_places(f: &Filter, cats: &Vec<u32>) -> (r: Vec<usize>)
    ensures
        r@ == passing(*f, cats@, cats@.len() as int),
        forall|i: int| 0 <= i < r@.len() ==> (#[trigger] r@[i]) < cats@.len(),
{
    let n: usize = cats.len();
    let mut out: Vec<usize> = Vec::new();
    let mut i: usize = 0;
    while i < n
        invariant
            i <= n == cats@.len(),
            out@ == passing(*f, cats@, i as int),
            forall|j: int| 0 <= j < out@.len() ==> (#[trigger] out@[j]) < i,
        decreases n - i,
    {
        if f.matches(cats[i]) {
            out.push(i);
        }
        i = i + 1;
    }
    out
}

/// How many rows pass a filter.
pub fn matching_count(f: &Filter, cats: &Vec<u32>) -> (r: usize)
    ensures
        r == passing(*f, cats@, cats@.len() as int).len(),
{
    passing_places(f, cats).len()
}

/// Whether `r` lists the `k` nearest of the rows that pass a filter, the nearest first.
pub open spec fn nearest_passing(
    f: Filter,
    cats: Seq<u32>,
    dists: Seq<u32>,
    k: nat,
    r: Seq<u64>,
) -> bool {
    let places = passing(f, cats, cats.len() as int);
    let sub = Seq::new(places.len(), |i: int| dists[places[i] as int]);
    exists|s: Seq<usize>| #[trigger]
        order::first_places(order::low_keys(sub), k, s) && r == Seq::new(
            s.len(),
            |i: int| places[s[i] as int] as u64,
        )
}

/// Finds the nearest of the rows that pass a filter.
pub fn filtered_truth(f: &Filter, cats: &Vec<u32>, dists: &Vec<u32>, k: usize) -> (r: Vec<u64>)
    requires
        cats@.len() == dists@.len(),
        all_numbers(dists@),
    ensures
        nearest_passing(*f, cats@, dists@, k as nat, r@),
{
    let places = passing_places(f, cats);
    let n: usize = places.len();
    let mut sub: Vec<u32> = Vec::new();
    let mut i: usize = 0;
    while i < n
        invariant
            i <= n == places@.len(),
            forall|j: int| 0 <= j < n ==> (#[trigger] places@[j]) < dists@.len(),
            sub@.len() == i,
            forall|j: int| 0 <= j < i ==> #[trigger] sub@[j] == dists@[places@[j] as int],
        decreases n - i,
    {
        sub.push(dists[places[i]]);
        i = i + 1;
    }
    let first = lowest(&sub, k);
    proof {
        order::law_first_places_are_best(order::low_keys(sub@), k as nat, first@);
    }
    let mut out: Vec<u64> = Vec::new();
    let mut j: usize = 0;
    while j < first.len()
        invariant
            j <= first@.len(),
            n == places@.len(),
            forall|x: int| 0 <= x < first@.len() ==> (#[trigger] first@[x]) < n,
            out@.len() == j,
            forall|x: int| 0 <= x < j ==> #[trigger] out@[x] == places@[first@[x] as int] as u64,
        decreases first@.len() - j,
    {
        out.push(places[first[j]] as u64);
        j = j + 1;
    }
    proof {
        let want = Seq::new(places@.len(), |i: int| dists@[places@[i] as int]);
        assert(sub@ =~= want);
        assert(out@ =~= Seq::new(first@.len(), |i: int| places@[first@[i] as int] as u64));
    }
    out
}

/// Finds the `k` nearest rows, the nearest first.
pub fn nearest_rows(dists: &Vec<u32>, k: usize) -> (r: Vec<usize>)
    requires
        all_numbers(dists@),
    ensures
        order::first_places(order::low_keys(dists@), k as nat, r@),
{
    lowest(dists, k)
}

/// Whether every row that was found passes a filter.
pub fn all_pass(f: &Filter, cats: &Vec<u32>, got: &Vec<u64>) -> (r: bool)
    requires
        forall|i: int| 0 <= i < got@.len() ==> (#[trigger] got@[i]) < cats@.len(),
    ensures
        r == (forall|i: int| 0 <= i < got@.len() ==> passes(*f, cats@[#[trigger] got@[i] as int])),
{
    let mut i: usize = 0;
    let n: usize = cats.len();
    while i < got.len()
        invariant
            i <= got@.len(),
            n == cats@.len(),
            forall|j: int| 0 <= j < got@.len() ==> (#[trigger] got@[j]) < cats@.len(),
            forall|j: int| 0 <= j < i ==> passes(*f, cats@[#[trigger] got@[j] as int]),
        decreases got@.len() - i,
    {
        assert(got@[i as int] < cats@.len());
        if !f.matches(cats[got[i] as usize]) {
            return false;
        }
        i = i + 1;
    }
    true
}

// ── words of a vector ─────────────────────────────────────────────────────

/// The bits of a number without its sign.
pub open spec fn magnitude(bits: u32) -> u32 {
    bits % 0x8000_0000
}

pub open spec fn magnitudes(row: Seq<u32>) -> Seq<u32> {
    Seq::new(row.len(), |i: int| magnitude(row[i]))
}

/// Whether `r` lists the `w` strongest components of a row with their strengths, the
/// strongest first.
pub open spec fn strongest(row: Seq<u32>, w: nat, r: Seq<(u32, u32)>) -> bool {
    exists|s: Seq<usize>| #[trigger]
        order::first_places(order::high_keys(magnitudes(row)), w, s) && r == Seq::new(
            s.len(),
            |i: int| (s[i] as u32, magnitude(row[s[i] as int])),
        )
}

/// The strongest components of a row, as the words of a text with their weights.
pub fn bag_of_words(row: &Vec<u32>, w: usize) -> (r: Vec<(u32, u32)>)
    requires
        all_numbers(row@),
        row@.len() <= u32::MAX,
    ensures
        strongest(row@, w as nat, r@),
        r@.len() == (if w < row@.len() {
            w as nat
        } else {
            row@.len()
        }),
{
    let n: usize = row.len();
    let mut mags: Vec<u32> = Vec::new();
    let mut i: usize = 0;
    while i < n
        invariant
            i <= n == row@.len(),
            mags@.len() == i,
            forall|j: int| 0 <= j < i ==> #[trigger] mags@[j] == magnitude(row@[j]),
        decreases n - i,
    {
        mags.push(row[i] % 0x8000_0000);
        i = i + 1;
    }
    proof {
        assert(mags@ =~= magnitudes(row@));
    }
    let first = highest(&mags, w);
    proof {
        order::law_first_places_are_best(order::high_keys(mags@), w as nat, first@);
    }
    let mut out: Vec<(u32, u32)> = Vec::new();
    let mut j: usize = 0;
    while j < first.len()
        invariant
            j <= first@.len(),
            n == row@.len() == mags@.len() <= u32::MAX,
            mags@ == magnitudes(row@),
            forall|x: int| 0 <= x < first@.len() ==> (#[trigger] first@[x]) < n,
            out@.len() == j,
            forall|x: int|
                0 <= x < j ==> #[trigger] out@[x] == (
                    first@[x] as u32,
                    magnitude(row@[first@[x] as int]),
                ),
        decreases first@.len() - j,
    {
        let p: usize = first[j];
        out.push((p as u32, mags[p]));
        j = j + 1;
    }
    proof {
        assert(out@ =~= Seq::new(
            first@.len(),
            |i: int| (first@[i] as u32, magnitude(row@[first@[i] as int])),
        ));
    }
    out
}

/// The category of a vector on the wire: the place of its strongest component, of eight.
pub fn wire_category(words: &Vec<(u32, u32)>) -> (r: u32)
    requires
        words@.len() > 0,
    ensures
        r == words@[0].0 % 8,
{
    words[0].0 % 8
}

// ── laws ──────────────────────────────────────────────────────────────────

/// Whether a buffer holds the best of the first `n` scores: in order, each with its own
/// score, none twice, and nothing left out that beats one that is in.
pub open spec fn holds_best(top: Seq<(u32, u64)>, scores: Seq<u32>, k: nat, n: nat) -> bool {
    &&& top.len() == (if n < k {
        n
    } else {
        k
    })
    &&& forall|i: int, j: int|
        0 <= i < j < top.len() ==> order::float_key((#[trigger] top[i]).0) >= order::float_key(
            (#[trigger] top[j]).0,
        )
    &&& forall|i: int|
        0 <= i < top.len() ==> (#[trigger] top[i]).1 < n && top[i].0 == scores[top[i].1 as int]
    &&& forall|i: int, j: int|
        0 <= i < j < top.len() ==> (#[trigger] top[i]).1 != (#[trigger] top[j]).1
    &&& n <= k ==> forall|x: int| 0 <= x < n ==> has_id(top, #[trigger] (x as u64))
    &&& forall|x: int|
        0 <= x < n && !has_id(top, x as u64) ==> forall|i: int|
            0 <= i < top.len() ==> order::float_key(#[trigger] scores[x]) <= order::float_key(
                (#[trigger] top[i]).0,
            )
}

pub open spec fn has_id(top: Seq<(u32, u64)>, id: u64) -> bool {
    exists|i: int| 0 <= i < top.len() && (#[trigger] top[i]).1 == id
}

/// However many scores have been offered, the buffer holds the best of them.
pub proof fn law_buffer_holds_the_best(scores: Seq<u32>, k: nat, n: nat)
    requires
        k > 0,
        n <= scores.len(),
        scores.len() <= u64::MAX,
    ensures
        holds_best(top_after(scores, k, n), scores, k, n),
    decreases n,
{
    if n > 0 {
        let m = (n - 1) as nat;
        law_buffer_holds_the_best(scores, k, m);
        let top = top_after(scores, k, m);
        let d = scores[m as int];
        let id = m as u64;
        lemma_place(top, d, 0);
        if top.len() == k && order::float_key(d) <= order::float_key(top.last().0) {
            lemma_refused(top, scores, k, n);
        } else {
            lemma_taken(top, scores, k, n);
        }
    }
}

proof fn lemma_refused(top: Seq<(u32, u64)>, scores: Seq<u32>, k: nat, n: nat)
    requires
        k > 0,
        0 < n <= scores.len() <= u64::MAX,
        holds_best(top, scores, k, (n - 1) as nat),
        top.len() == k,
        order::float_key(scores[n - 1]) <= order::float_key(top.last().0),
    ensures
        holds_best(top, scores, k, n),
{
    assert forall|x: int| 0 <= x < n && !has_id(top, x as u64) implies forall|i: int|
        0 <= i < top.len() ==> order::float_key(#[trigger] scores[x]) <= order::float_key(
            (#[trigger] top[i]).0,
        ) by {
        assert forall|i: int| 0 <= i < top.len() implies order::float_key(#[trigger] scores[x])
            <= order::float_key((#[trigger] top[i]).0) by {
            if x == n - 1 {
                if i < top.len() - 1 {
                    assert(order::float_key(top[i].0) >= order::float_key(top[top.len() - 1].0));
                }
            }
        }
    }
}

proof fn lemma_taken(top: Seq<(u32, u64)>, scores: Seq<u32>, k: nat, n: nat)
    requires
        k > 0,
        0 < n <= scores.len() <= u64::MAX,
        holds_best(top, scores, k, (n - 1) as nat),
        !(top.len() == k && order::float_key(scores[n - 1]) <= order::float_key(top.last().0)),
    ensures
        holds_best(offered(top, scores[n - 1], (n - 1) as u64, k), scores, k, n),
{
    let d = scores[n - 1];
    let id = (n - 1) as u64;
    let p = place_for(top, d, 0);
    lemma_place(top, d, 0);
    let t = top.insert(p, (d, id));
    let r = offered(top, d, id, k);
    assert(r.len() <= t.len() && r =~= t.take(r.len() as int));
    assert forall|i: int, j: int| 0 <= i < j < r.len() implies order::float_key(
        (#[trigger] r[i]).0,
    ) >= order::float_key((#[trigger] r[j]).0) by {
        lemma_inserted(top, p, (d, id), i);
        lemma_inserted(top, p, (d, id), j);
        if i < p && j > p {
            assert(top[i].0 == r[i].0);
        }
        if i == p && j > p {
            if j - 1 > p {
                assert(order::float_key(top[p].0) >= order::float_key(top[j - 1].0));
            }
        }
    }
    assert forall|i: int| 0 <= i < r.len() implies (#[trigger] r[i]).1 < n && r[i].0
        == scores[r[i].1 as int] by {
        lemma_inserted(top, p, (d, id), i);
    }
    assert forall|i: int, j: int| 0 <= i < j < r.len() implies (#[trigger] r[i]).1 != (
    #[trigger] r[j]).1 by {
        lemma_inserted(top, p, (d, id), i);
        lemma_inserted(top, p, (d, id), j);
    }
    if n <= k {
        assert forall|x: int| 0 <= x < n implies has_id(r, #[trigger] (x as u64)) by {
            if x == n - 1 {
                lemma_inserted(top, p, (d, id), p);
                assert(r[p].1 == x as u64);
            } else {
                assert(has_id(top, x as u64));
                let q = choose|q: int| 0 <= q < top.len() && (#[trigger] top[q]).1 == x as u64;
                let q2 = if q < p {
                    q
                } else {
                    q + 1
                };
                lemma_inserted(top, p, (d, id), q2);
                assert(r[q2].1 == x as u64);
            }
        }
    }
    assert forall|x: int| 0 <= x < n && !has_id(r, x as u64) implies forall|i: int|
        0 <= i < r.len() ==> order::float_key(#[trigger] scores[x]) <= order::float_key(
            (#[trigger] r[i]).0,
        ) by {
        if x == n - 1 {
            // The new score stands in the buffer.
            assert(p < r.len()) by {
                if t.len() > k {
                    if p == top.len() {
                        assert(order::float_key(top[top.len() - 1].0) > order::float_key(d));
                    }
                }
            }
            lemma_inserted(top, p, (d, id), p);
            assert(r[p].1 == x as u64);
            assert(has_id(r, x as u64));
        } else if has_id(top, x as u64) {
            let q = choose|q: int| 0 <= q < top.len() && (#[trigger] top[q]).1 == x as u64;
            let q2 = if q < p {
                q
            } else {
                q + 1
            };
            lemma_inserted(top, p, (d, id), q2);
            if q2 < r.len() {
                assert(r[q2].1 == x as u64);
                assert(has_id(r, x as u64));
            }
            assert(q2 == t.len() - 1);
            assert forall|i: int| 0 <= i < r.len() implies order::float_key(#[trigger] scores[x])
                <= order::float_key((#[trigger] r[i]).0) by {
                lemma_inserted(top, p, (d, id), i);
                assert(top[q].0 == scores[x]);
                if i < p {
                    if i < q {
                        assert(order::float_key(top[i].0) >= order::float_key(top[q].0));
                    }
                } else if i == p {
                    if q > p {
                        assert(order::float_key(top[p].0) >= order::float_key(top[q].0));
                    }
                } else {
                    if i - 1 < q {
                        assert(order::float_key(top[i - 1].0) >= order::float_key(top[q].0));
                    }
                }
            }
        } else {
            assert forall|i: int| 0 <= i < r.len() implies order::float_key(#[trigger] scores[x])
                <= order::float_key((#[trigger] r[i]).0) by {
                lemma_inserted(top, p, (d, id), i);
                if i < p {
                    assert(order::float_key(scores[x]) <= order::float_key(top[i].0));
                } else if i == p {
                    if top.len() > 0 {
                        let last = top.len() - 1;
                        assert(order::float_key(scores[x]) <= order::float_key(top[last].0));
                        if p < top.len() {
                            assert(order::float_key(scores[x]) <= order::float_key(top[p].0));
                        } else {
                            assert(top.len() < k);
                            assert(has_id(top, x as u64));
                        }
                    }
                } else {
                    assert(order::float_key(scores[x]) <= order::float_key(top[i - 1].0));
                }
            }
        }
    }
}

proof fn lemma_inserted(top: Seq<(u32, u64)>, p: int, x: (u32, u64), i: int)
    requires
        0 <= p <= top.len(),
        0 <= i <= top.len(),
    ensures
        top.insert(p, x)[i] == (if i < p {
            top[i]
        } else if i == p {
            x
        } else {
            top[i - 1]
        }),
{
}

/// No more of the first `k` found can be true than there are.
pub proof fn law_hits_are_bounded(got: Seq<u64>, truth: Seq<u64>, k: nat)
    ensures
        hits_in(got, truth, first_of(got, k).len() as int) <= k,
{
    lemma_hits(got, truth, first_of(got, k).len() as int);
}

/// A search that gives back the truth itself has found all of it.
pub proof fn law_truth_scores_in_full(truth: Seq<u64>, n: nat)
    requires
        n <= truth.len(),
    ensures
        hits_in(truth, truth, n as int) == n,
    decreases n,
{
    if n > 0 {
        law_truth_scores_in_full(truth, (n - 1) as nat);
        assert(truth[n - 1] == truth[n - 1]);
        assert(truth.contains(truth[n - 1]));
    }
}

/// Only rows that pass a filter are ever among the nearest that pass it.
pub proof fn law_filtered_rows_pass(
    f: Filter,
    cats: Seq<u32>,
    dists: Seq<u32>,
    k: nat,
    r: Seq<u64>,
    i: int,
)
    requires
        nearest_passing(f, cats, dists, k, r),
        cats.len() == dists.len() <= usize::MAX,
        0 <= i < r.len(),
    ensures
        r[i] < cats.len(),
        passes(f, cats[r[i] as int]),
{
    let places = passing(f, cats, cats.len() as int);
    let sub = Seq::new(places.len(), |i: int| dists[places[i] as int]);
    let s = choose|s: Seq<usize>| #[trigger]
        order::first_places(order::low_keys(sub), k, s) && r == Seq::new(
            s.len(),
            |i: int| places[s[i] as int] as u64,
        );
    order::law_first_places_are_best(order::low_keys(sub), k, s);
    lemma_passing(f, cats, cats.len() as int);
    assert(s[i] < places.len());
}

proof fn lemma_passing(f: Filter, cats: Seq<u32>, n: int)
    requires
        0 <= n <= cats.len() <= usize::MAX,
    ensures
        forall|j: int|
            0 <= j < passing(f, cats, n).len() ==> (#[trigger] passing(f, cats, n)[j]) < n
                && passes(f, cats[passing(f, cats, n)[j] as int]),
    decreases n,
{
    if n > 0 {
        lemma_passing(f, cats, n - 1);
        let rest = passing(f, cats, n - 1);
        let all = passing(f, cats, n);
        assert forall|j: int| 0 <= j < all.len() implies (#[trigger] all[j]) < n && passes(
            f,
            cats[all[j] as int],
        ) by {
            if j < rest.len() {
                assert(all[j] == rest[j]);
            }
        }
    }
}

/// What counts as found is exactly what is among the true ones.
pub proof fn law_hits_are_the_true_ones(got: Seq<u64>, truth: Seq<u64>, n: int)
    requires
        0 <= n <= got.len(),
    ensures
        hits_in(got, truth, n) == got.take(n).filter(|x: u64| truth.contains(x)).len(),
    decreases n,
{
    reveal(Seq::filter);
    let p = |x: u64| truth.contains(x);
    if n > 0 {
        law_hits_are_the_true_ones(got, truth, n - 1);
        assert(got.take(n).drop_last() =~= got.take(n - 1));
        assert(got.take(n).last() == got[n - 1]);
    } else {
        assert(got.take(0) =~= Seq::<u64>::empty());
    }
}

/// Two lists share what stands in both; either of two holds what stands among the first of one.
pub proof fn law_shared_stand_in_both(a: Seq<u64>, b: Seq<u64>, k: nat, x: u64)
    ensures
        shared(a, b).contains(x) <==> a.contains(x) && b.contains(x),
        either(a, b, k).contains(x) <==> (exists|i: int|
            0 <= i < a.len() && i < k && #[trigger] a[i] == x) || (exists|i: int|
            0 <= i < b.len() && i < k && #[trigger] b[i] == x),
{
    lemma_among_first(a, k, x);
    lemma_among_first(b, k, x);
}

proof fn lemma_among_first(s: Seq<u64>, k: nat, x: u64)
    ensures
        first_of(s, k).to_set().contains(x) <==> exists|i: int|
            0 <= i < s.len() && i < k && #[trigger] s[i] == x,
{
    let f = first_of(s, k);
    if exists|i: int| 0 <= i < s.len() && i < k && #[trigger] s[i] == x {
        let i = choose|i: int| 0 <= i < s.len() && i < k && #[trigger] s[i] == x;
        assert(f[i] == x);
    }
    if f.contains(x) {
        let i = choose|i: int| 0 <= i < f.len() && f[i] == x;
        assert(s[i] == x);
    }
}

/// A category passes the filter on one only if it is that one, and a filter on several if it is
/// among them.
pub proof fn law_filters_let_their_own_pass(cat: u32, c: u32, s: Vec<u32>)
    ensures
        passes(Filter::Any, cat),
        passes(Filter::Eq(c), cat) <==> cat == c,
        passes(Filter::In(s), cat) <==> exists|i: int| 0 <= i < s@.len() && #[trigger] s@[i] == cat,
{
}

proof fn lemma_passing_all(f: Filter, cats: Seq<u32>, n: int, x: int)
    requires
        0 <= n <= cats.len() <= usize::MAX,
        0 <= x < n,
        passes(f, cats[x]),
    ensures
        passing(f, cats, n).contains(x as usize),
    decreases n,
{
    let all = passing(f, cats, n);
    if x == n - 1 {
        assert(all.last() == x as usize);
    } else {
        lemma_passing_all(f, cats, n - 1, x);
        let rest = passing(f, cats, n - 1);
        let p = choose|p: int| 0 <= p < rest.len() && rest[p] == x as usize;
        assert(all[p] == x as usize);
    }
}

/// The nearest that pass a filter are listed by distance, each once, and a row that passes and is
/// left out is no nearer than any of them; it is left out only where the list is full.
pub proof fn law_filtered_rows_are_nearest(
    f: Filter,
    cats: Seq<u32>,
    dists: Seq<u32>,
    k: nat,
    r: Seq<u64>,
    x: int,
)
    requires
        nearest_passing(f, cats, dists, k, r),
        cats.len() == dists.len() <= usize::MAX,
        0 <= x < cats.len(),
        passes(f, cats[x]),
    ensures
        r.len() <= k,
        forall|i: int, j: int|
            0 <= i < j < r.len() ==> order::float_key(dists[(#[trigger] r[i]) as int])
                <= order::float_key(dists[(#[trigger] r[j]) as int]),
        !r.contains(x as u64) ==> r.len() == k && forall|i: int|
            0 <= i < r.len() ==> order::float_key(dists[(#[trigger] r[i]) as int])
                <= order::float_key(dists[x]),
{
    let places = passing(f, cats, cats.len() as int);
    let sub = Seq::new(places.len(), |i: int| dists[places[i] as int]);
    let s = choose|s: Seq<usize>| #[trigger]
        order::first_places(order::low_keys(sub), k, s) && r == Seq::new(
            s.len(),
            |i: int| places[s[i] as int] as u64,
        );
    lemma_passing(f, cats, cats.len() as int);
    lemma_passing_all(f, cats, cats.len() as int, x);
    order::law_lowest_are_lowest(sub, k, s);
    assert forall|i: int| 0 <= i < r.len() implies dists[(#[trigger] r[i]) as int]
        == sub[s[i] as int] by {
        assert(s[i] < places.len());
    }
    let p = choose|p: int| 0 <= p < places.len() && places[p] == x as usize;
    if !r.contains(x as u64) {
        if s.contains(p as usize) {
            let i = choose|i: int| 0 <= i < s.len() && s[i] == p as usize;
            assert(r[i] == x as u64);
        }
        assert(!s.contains(p as usize));
        assert(sub[p] == dists[x]);
        if s.len() < k {
            assert(s.len() == sub.len());
            lemma_full_list_holds_all(s, sub.len(), p as usize);
        }
    }
}

/// A list without repetitions of as many numbers as there are below `n` holds each of them.
pub proof fn lemma_full_list_holds_all(s: Seq<usize>, n: nat, x: usize)
    requires
        s.no_duplicates(),
        s.len() == n,
        x < n,
        forall|i: int| 0 <= i < s.len() ==> (#[trigger] s[i]) < n,
    ensures
        s.contains(x),
{
    s.unique_seq_to_set();
    vstd::set_lib::lemma_int_range(0, n as int);
    let all = vstd::set_lib::set_int_range(0, n as int);
    let got = s.to_set().map(|i: usize| i as int);
    assert(s.to_set().finite()) by {
        vstd::seq_lib::seq_to_set_is_finite(s);
    }
    vstd::set_lib::lemma_map_size(s.to_set(), got, |i: usize| i as int);
    assert(got.subset_of(all)) by {
        assert forall|y: int| got.contains(y) implies all.contains(y) by {
            let i = choose|i: usize| s.to_set().contains(i) && i as int == y;
            let j = choose|j: int| 0 <= j < s.len() && s[j] == i;
            assert(s[j] < n);
        }
    }
    vstd::set_lib::lemma_subset_equality(got, all);
    assert(all.contains(x as int));
    let i = choose|i: usize| s.to_set().contains(i) && i as int == x as int;
    assert(s.contains(x));
}

/// A component and its opposite are as strong.
pub proof fn law_strength_has_no_sign(bits: u32)
    requires
        bits < 0x8000_0000,
    ensures
        magnitude(bits) == bits,
        magnitude((bits + 0x8000_0000) as u32) == bits,
{
}

/// The strongest components are listed by strength, each with its own, and none that is left out
/// is stronger than one that is listed.
pub proof fn law_strongest_come_first(row: Seq<u32>, w: nat, r: Seq<(u32, u32)>, x: int)
    requires
        strongest(row, w, r),
        row.len() <= u32::MAX,
        0 <= x < row.len(),
        forall|i: int| 0 <= i < r.len() ==> (#[trigger] r[i]).0 != x,
    ensures
        forall|i: int|
            0 <= i < r.len() ==> (#[trigger] r[i]).0 < row.len() && r[i].1 == magnitude(
                row[r[i].0 as int],
            ) && r[i].1 >= magnitude(row[x]),
        forall|i: int, j: int| 0 <= i < j < r.len() ==> (#[trigger] r[i]).1 >= (#[trigger] r[j]).1,
        r.len() == w,
{
    let m = magnitudes(row);
    let s = choose|s: Seq<usize>| #[trigger]
        order::first_places(order::high_keys(magnitudes(row)), w, s) && r == Seq::new(
            s.len(),
            |i: int| (s[i] as u32, magnitude(row[s[i] as int])),
        );
    order::law_highest_are_highest(m, w, s);
    if s.contains(x as usize) {
        let i = choose|i: int| 0 <= i < s.len() && s[i] == x as usize;
        assert(r[i].0 == x);
    }
    assert forall|i: int| 0 <= i < r.len() implies (#[trigger] r[i]).0 < row.len() && r[i].1
        == magnitude(row[r[i].0 as int]) && r[i].1 >= magnitude(row[x]) by {
        assert(s[i] < m.len());
        assert(order::float_key(m[s[i] as int]) >= order::float_key(m[x as usize as int]));
    }
    assert forall|i: int, j: int| 0 <= i < j < r.len() implies (#[trigger] r[i]).1 >= (
    #[trigger] r[j]).1 by {
        assert(s[i] < m.len() && s[j] < m.len());
        assert(order::float_key(m[s[i] as int]) >= order::float_key(m[s[j] as int]));
    }
    if s.len() < w {
        lemma_full_list_holds_all(s, m.len(), x as usize);
    }
}

} // verus!
