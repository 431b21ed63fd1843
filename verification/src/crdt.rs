//! Replicated data types whose merge is commutative, associative and idempotent,
//! so that replicas converge whatever the order or duplication of messages.
use crate::maps;
use crate::maps::KeyMap;
use crate::scan::push_all;
use crate::text::chars_of;
use vstd::prelude::*;

verus! {

/// The counts of a grow-only counter, by node.
pub type Counts = Map<Seq<char>, u64>;

/// The sum of all counts.
pub open spec fn total(m: Counts) -> nat
    decreases m.dom().len(),
    when m.dom().finite()
{
    if m.dom().len() == 0 {
        0
    } else {
        let k = m.dom().choose();
        proof {
            vstd::set::axiom_set_choose_len(m.dom());
        }
        (m[k] + total(m.remove(k))) as nat
    }
}

/// Node by node the larger count.
pub open spec fn merged_counts(a: Counts, b: Counts) -> Counts {
    Map::new(
        |k: Seq<char>| a.contains_key(k) || b.contains_key(k),
        |k: Seq<char>|
            if a.contains_key(k) && b.contains_key(k) {
                if a[k] >= b[k] {
                    a[k]
                } else {
                    b[k]
                }
            } else if a.contains_key(k) {
                a[k]
            } else {
                b[k]
            },
    )
}

/// The count of a node, 0 where it never counted.
pub open spec fn count_of(m: Counts, k: Seq<char>) -> nat {
    if m.contains_key(k) {
        m[k] as nat
    } else {
        0
    }
}

proof fn lemma_total_remove(m: Counts, k: Seq<char>)
    requires
        m.dom().finite(),
        m.contains_key(k),
    ensures
        total(m) == m[k] + total(m.remove(k)),
    decreases m.dom().len(),
{
    broadcast use vstd::set::group_set_axioms;

    let c = m.dom().choose();
    assert(m.dom().contains(k));
    assert(m.dom().len() > 0);
    assert(m.dom().contains(c));
    assert(m.remove(c).dom() =~= m.dom().remove(c));
    assert(m.remove(k).dom() =~= m.dom().remove(k));
    if c != k {
        lemma_total_remove(m.remove(c), k);
        lemma_total_remove(m.remove(k), c);
        assert(m.remove(c).remove(k) =~= m.remove(k).remove(c));
    }
}

/// A grow-only counter.
#[derive(Debug)]
pub struct GCounter {
    counts: KeyMap<String, u64>,
}

impl View for GCounter {
    type V = Counts;

    closed spec fn view(&self) -> Counts {
        self.counts@
    }
}

proof fn lemma_entries_total(entries: Seq<(String, u64)>)
    requires
        maps::distinct_keys(entries),
    ensures
        maps::as_map(entries).dom().finite(),
        entries.len() > 0 ==> total(maps::as_map(entries)) == total(
            maps::as_map(entries.drop_last()),
        ) + entries.last().1,
        entries.len() == 0 ==> total(maps::as_map(entries)) == 0,
    decreases entries.len(),
{
    broadcast use vstd::set::group_set_axioms;

    let m = maps::as_map(entries);
    if entries.len() == 0 {
        assert(m.dom() =~= Set::<Seq<char>>::empty());
    } else {
        let front = entries.drop_last();
        let k = entries.last().0@;
        let n = entries.len() - 1;
        assert(maps::distinct_keys(front)) by {
            assert forall|i: int, j: int| 0 <= i < j < front.len() implies #[trigger] front[i].0@
                != #[trigger] front[j].0@ by {
                assert(entries[i].0@ != entries[j].0@);
            }
        }
        lemma_entries_total(front);
        maps::lemma_entry(entries, n);
        assert(maps::as_map(front) =~= m.remove(k)) by {
            assert forall|q: Seq<char>|
                #![trigger maps::as_map(front).dom().contains(q)]
                #![trigger maps::as_map(front)[q]]
                maps::as_map(front).contains_key(q) == m.remove(k).contains_key(q) && (
                maps::as_map(front).contains_key(q) ==> maps::as_map(front)[q] == m.remove(
                    k,
                )[q]) by {
                if maps::as_map(front).contains_key(q) {
                    maps::lemma_key(front, q);
                    let p = maps::place_of(front, q);
                    assert(front[p] == entries[p]);
                    assert(entries[p].0@ != entries[n].0@);
                    maps::lemma_entry(entries, p);
                }
                if m.remove(k).contains_key(q) {
                    maps::lemma_key(entries, q);
                    let p = maps::place_of(entries, q);
                    assert(p != n);
                    assert(front[p] == entries[p]);
                    maps::lemma_entry(front, p);
                }
            }
        }
        assert(m.dom() =~= maps::as_map(front).dom().insert(k));
        lemma_total_remove(m, k);
    }
}

impl GCounter {
    /// No node has two counts.
    pub closed spec fn distinct(&self) -> bool {
        self.counts.wf()
    }

    /// The type's invariant: no node counts twice, and the nodes are finitely many.
    pub open spec fn wf(&self) -> bool {
        self.distinct() && self@.dom().finite()
    }

    /// A counter that has not counted.
    pub fn new() -> (r: Self)
        ensures
            r.wf(),
            r@ == Counts::empty(),
            total(r@) == 0,
    {
        GCounter { counts: KeyMap::new() }
    }

    /// Counts `by` more on a node.
    pub fn incr(&mut self, node: &str, by: u64)
        requires
            old(self).wf(),
            count_of(old(self)@, node@) + by <= u64::MAX,
        ensures
            final(self).wf(),
            final(self)@ == old(self)@.insert(
                node@,
                (count_of(old(self)@, node@) + by) as u64,
            ),
            total(final(self)@) == total(old(self)@) + by,
    {
        proof {
            law_incr_adds(self@, node@, by as nat);
        }
        let key = node.to_owned();
        let now: u64 = match self.counts.get(&key) {
            Some(v) => *v,
            None => 0,
        };
        self.counts.insert(key, now + by);
    }

    /// The sum over all nodes.
    pub fn value(&self) -> (r: u64)
        requires
            self.wf(),
            total(self@) <= u64::MAX,
        ensures
            r == total(self@),
    {
        let mut sum: u64 = 0;
        let mut i: usize = 0;
        let ghost all = self.counts.list();
        proof {
            assert(all.take(0) =~= Seq::<(String, u64)>::empty());
            lemma_entries_total(all.take(0));
            assert(all.take(all.len() as int) =~= all);
        }
        while i < self.counts.len()
            invariant
                self.counts.wf(),
                all == self.counts.list(),
                i <= all.len(),
                total(maps::as_map(all)) <= u64::MAX,
                sum == total(maps::as_map(all.take(i as int))),
            decreases all.len() - i,
        {
            proof {
                lemma_prefix_total(all, i as int);
                lemma_prefix_total(all, i + 1);
                let t = all.take(i + 1);
                assert(t.drop_last() =~= all.take(i as int));
                assert(maps::distinct_keys(t)) by {
                    assert forall|a: int, b: int| 0 <= a < b < t.len() implies #[trigger] t[a].0@
                        != #[trigger] t[b].0@ by {
                        assert(all[a].0@ != all[b].0@);
                    }
                }
                lemma_entries_total(t);
            }
            sum = sum + self.counts.at(i).1;
            i = i + 1;
        }
        proof {
            assert(all.take(i as int) =~= all);
        }
        sum
    }

    /// Takes the larger count, node by node.
    pub fn merge(&mut self, other: &GCounter)
        requires
            old(self).wf(),
            other.wf(),
        ensures
            final(self).wf(),
            final(self)@ == merged_counts(old(self)@, other@),
    {
        let ghost mine = self@;
        let ghost all = other.counts.list();
        let mut i: usize = 0;
        proof {
            assert(merged_counts(mine, maps::as_map(all.take(0))) =~= mine);
        }
        while i < other.counts.len()
            invariant
                other.counts.wf(),
                self.counts.wf(),
                all == other.counts.list(),
                i <= all.len(),
                self@ == merged_counts(mine, maps::as_map(all.take(i as int))),
            decreases all.len() - i,
        {
            let e = other.counts.at(i);
            let key = e.0.clone();
            let theirs: u64 = e.1;
            let ours: u64 = match self.counts.get(&key) {
                Some(v) => *v,
                None => 0,
            };
            let ghost before = self@;
            self.counts.insert(key, if ours >= theirs { ours } else { theirs });
            proof {
                lemma_merge_step(mine, all, i as int);
                assert(self@ =~= merged_counts(mine, maps::as_map(all.take(i + 1))));
            }
            i = i + 1;
        }
        proof {
            assert(all.take(i as int) =~= all);
            lemma_entries_total(self.counts.list());
        }
    }
}

impl Clone for GCounter {
    fn clone(&self) -> (r: Self)
        ensures
            r@ == self@,
            r.wf() == self.wf(),
    {
        GCounter { counts: self.counts.copy() }
    }
}

impl Default for GCounter {
    fn default() -> (r: Self)
        ensures
            r.wf(),
            r@ == Counts::empty(),
    {
        GCounter::new()
    }
}

/// A prefix of the entries sums to no more than all of them.
proof fn lemma_prefix_total(all: Seq<(String, u64)>, i: int)
    requires
        maps::distinct_keys(all),
        0 <= i <= all.len(),
    ensures
        total(maps::as_map(all.take(i))) <= total(maps::as_map(all)),
    decreases all.len() - i,
{
    if i < all.len() {
        lemma_prefix_total(all, i + 1);
        let t = all.take(i + 1);
        assert(t.drop_last() =~= all.take(i));
        assert(maps::distinct_keys(t)) by {
            assert forall|a: int, b: int| 0 <= a < b < t.len() implies #[trigger] t[a].0@
                != #[trigger] t[b].0@ by {
                assert(all[a].0@ != all[b].0@);
            }
        }
        lemma_entries_total(t);
    } else {
        assert(all.take(i) =~= all);
    }
}

/// One more entry of the other side adds or raises exactly the count of its node.
proof fn lemma_merge_step(mine: Counts, all: Seq<(String, u64)>, i: int)
    requires
        maps::distinct_keys(all),
        0 <= i < all.len(),
    ensures
        ({
            let a = merged_counts(mine, maps::as_map(all.take(i)));
            let k = all[i].0@;
            let v = all[i].1;
            merged_counts(mine, maps::as_map(all.take(i + 1))) == a.insert(
                k,
                if count_of(a, k) >= v { count_of(a, k) as u64 } else { v },
            )
        }),
{
    let s = all.take(i);
    let t = all.take(i + 1);
    let k = all[i].0@;
    assert(maps::distinct_keys(t)) by {
        assert forall|a: int, b: int| 0 <= a < b < t.len() implies #[trigger] t[a].0@
            != #[trigger] t[b].0@ by {
            assert(all[a].0@ != all[b].0@);
        }
    }
    assert(maps::distinct_keys(s)) by {
        assert forall|a: int, b: int| 0 <= a < b < s.len() implies #[trigger] s[a].0@
            != #[trigger] s[b].0@ by {
            assert(all[a].0@ != all[b].0@);
        }
    }
    maps::lemma_entry(t, i);
    assert forall|q: Seq<char>|
        #![trigger maps::as_map(t).dom().contains(q)]
        #![trigger maps::as_map(s).dom().contains(q)]
        #![trigger maps::as_map(t)[q]]
        maps::as_map(t).contains_key(q) == (q == k || maps::as_map(s).contains_key(q)) && (q != k
            && maps::as_map(s).contains_key(q) ==> maps::as_map(t)[q] == maps::as_map(s)[q]) by {
        if maps::as_map(s).contains_key(q) {
            maps::lemma_key(s, q);
            let p = maps::place_of(s, q);
            assert(t[p] == s[p]);
            maps::lemma_entry(t, p);
        }
        if maps::as_map(t).contains_key(q) {
            maps::lemma_key(t, q);
            let p = maps::place_of(t, q);
            if p < i {
                assert(t[p] == s[p]);
                maps::lemma_entry(s, p);
            }
        }
    }
    assert(!maps::as_map(s).contains_key(k)) by {
        if maps::as_map(s).contains_key(k) {
            maps::lemma_key(s, k);
            let p = maps::place_of(s, k);
            assert(all[p].0@ != all[i].0@);
        }
    }
    let a = merged_counts(mine, maps::as_map(s));
    let b = merged_counts(mine, maps::as_map(t));
    assert(b =~= a.insert(
        k,
        if count_of(a, k) >= all[i].1 { count_of(a, k) as u64 } else { all[i].1 },
    ));
}


/// Merging is commutative.
pub proof fn law_merge_commutes(a: Counts, b: Counts)
    ensures
        merged_counts(a, b) == merged_counts(b, a),
{
    assert(merged_counts(a, b) =~= merged_counts(b, a));
}

/// Merging is associative.
pub proof fn law_merge_associates(a: Counts, b: Counts, c: Counts)
    ensures
        merged_counts(merged_counts(a, b), c) == merged_counts(a, merged_counts(b, c)),
{
    assert(merged_counts(merged_counts(a, b), c) =~= merged_counts(a, merged_counts(b, c)));
}

/// Merging is idempotent: a message that arrives twice changes nothing the second time.
pub proof fn law_merge_idempotent(a: Counts, b: Counts)
    ensures
        merged_counts(a, a) == a,
        merged_counts(merged_counts(a, b), b) == merged_counts(a, b),
{
    assert(merged_counts(a, a) =~= a);
    assert(merged_counts(merged_counts(a, b), b) =~= merged_counts(a, b));
}

/// Counting raises the value of the counter by exactly what was counted.
pub proof fn law_incr_adds(m: Counts, node: Seq<char>, by: nat)
    requires
        m.dom().finite(),
        count_of(m, node) + by <= u64::MAX,
    ensures
        total(m.insert(node, (count_of(m, node) + by) as u64)) == total(m) + by,
{
    broadcast use vstd::set::group_set_axioms;

    let n = m.insert(node, (count_of(m, node) + by) as u64);
    assert(n.dom() =~= m.dom().insert(node));
    lemma_total_remove(n, node);
    assert(n.remove(node) =~= m.remove(node));
    if m.contains_key(node) {
        lemma_total_remove(m, node);
    } else {
        assert(m.remove(node) =~= m);
    }
}

/// What a counter that goes up and down stands at.
pub open spec fn standing(c: (Counts, Counts)) -> int {
    total(c.0) - total(c.1)
}

/// Counting up raises the value by exactly what was counted, and counting down lowers it, below
/// 0 too; neither touches another node's counts.
pub proof fn law_counting_is_exact(c: (Counts, Counts), node: Seq<char>, by: nat, other: Seq<char>)
    requires
        c.0.dom().finite(),
        c.1.dom().finite(),
    ensures
        ({
            let up = c.0.insert(node, (count_of(c.0, node) + by) as u64);
            count_of(c.0, node) + by <= u64::MAX ==> standing((up, c.1)) == standing(c) + by && (
            other != node ==> count_of(up, other) == count_of(c.0, other))
        }),
        ({
            let down = c.1.insert(node, (count_of(c.1, node) + by) as u64);
            count_of(c.1, node) + by <= u64::MAX ==> standing((c.0, down)) == standing(c) - by && (
            other != node ==> count_of(down, other) == count_of(c.1, other))
        }),
{
    if count_of(c.0, node) + by <= u64::MAX {
        law_incr_adds(c.0, node, by);
    }
    if count_of(c.1, node) + by <= u64::MAX {
        law_incr_adds(c.1, node, by);
    }
}

/// A counter that can also go down: increments and decrements apart.
#[derive(Debug)]
pub struct PnCounter {
    p: GCounter,
    n: GCounter,
}

impl View for PnCounter {
    type V = (Counts, Counts);

    closed spec fn view(&self) -> (Counts, Counts) {
        (self.p@, self.n@)
    }
}

impl PnCounter {
    /// The type's invariant: that of both halves.
    pub open spec fn wf(&self) -> bool {
        self.halves() && self@.0.dom().finite() && self@.1.dom().finite()
    }

    pub closed spec fn halves(&self) -> bool {
        self.p.distinct() && self.n.distinct()
    }

    /// A counter that stands at 0.
    pub fn new() -> (r: Self)
        ensures
            r.wf(),
            r@ == (Counts::empty(), Counts::empty()),
            standing(r@) == 0,
    {
        PnCounter { p: GCounter::new(), n: GCounter::new() }
    }

    /// Counts `by` up on a node.
    pub fn incr(&mut self, node: &str, by: u64)
        requires
            old(self).wf(),
            count_of(old(self)@.0, node@) + by <= u64::MAX,
        ensures
            final(self).wf(),
            final(self)@.0 == old(self)@.0.insert(
                node@,
                (count_of(old(self)@.0, node@) + by) as u64,
            ),
            final(self)@.1 == old(self)@.1,
            standing(final(self)@) == standing(old(self)@) + by,
    {
        self.p.incr(node, by);
    }

    /// Counts `by` down on a node.
    pub fn decr(&mut self, node: &str, by: u64)
        requires
            old(self).wf(),
            count_of(old(self)@.1, node@) + by <= u64::MAX,
        ensures
            final(self).wf(),
            final(self)@.1 == old(self)@.1.insert(
                node@,
                (count_of(old(self)@.1, node@) + by) as u64,
            ),
            final(self)@.0 == old(self)@.0,
            standing(final(self)@) == standing(old(self)@) - by,
    {
        self.n.incr(node, by);
    }

    /// Increments minus decrements, each sum cast to an `i64`; no cast changes a sum
    /// that an `i64` can hold.
    pub fn value(&self) -> (r: i64)
        requires
            self.wf(),
            total(self@.0) <= u64::MAX,
            total(self@.1) <= u64::MAX,
            i64::MIN <= (total(self@.0) as u64 as i64) - (total(self@.1) as u64 as i64)
                <= i64::MAX,
        ensures
            r == (total(self@.0) as u64 as i64) - (total(self@.1) as u64 as i64),
            total(self@.0) <= i64::MAX && total(self@.1) <= i64::MAX ==> r == standing(self@),
    {
        let p: i64 = self.p.value() as i64;
        let n: i64 = self.n.value() as i64;
        p - n
    }

    /// Takes the larger counts, node by node, of both halves.
    pub fn merge(&mut self, other: &PnCounter)
        requires
            old(self).wf(),
            other.wf(),
        ensures
            final(self).wf(),
            final(self)@ == (
                merged_counts(old(self)@.0, other@.0),
                merged_counts(old(self)@.1, other@.1),
            ),
    {
        self.p.merge(&other.p);
        self.n.merge(&other.n);
    }
}

impl Clone for PnCounter {
    fn clone(&self) -> (r: Self)
        ensures
            r@ == self@,
            r.wf() == self.wf(),
    {
        PnCounter { p: self.p.clone(), n: self.n.clone() }
    }
}

impl Default for PnCounter {
    fn default() -> (r: Self)
        ensures
            r.wf(),
            r@ == (Counts::empty(), Counts::empty()),
    {
        PnCounter::new()
    }
}

/// Whether `a` comes before `b` in the order of texts: by the first character in
/// which they differ, a prefix before what it begins.
pub open spec fn text_before(a: Seq<char>, b: Seq<char>) -> bool
    decreases a.len(),
{
    if b.len() == 0 {
        false
    } else if a.len() == 0 {
        true
    } else if a[0] == b[0] {
        text_before(a.skip(1), b.skip(1))
    } else {
        (a[0] as int) < (b[0] as int)
    }
}

/// Whether the text `a` comes before `b`.
pub fn comes_before(a: &str, b: &str) -> (r: bool)
    ensures
        r == text_before(a@, b@),
{
    let x = chars_of(a);
    let y = chars_of(b);
    let mut i: usize = 0;
    proof {
        assert(x@.skip(0) =~= x@);
        assert(y@.skip(0) =~= y@);
    }
    while i < x.len() && i < y.len() && x[i] == y[i]
        invariant
            i <= x@.len(),
            i <= y@.len(),
            x@ == a@,
            y@ == b@,
            text_before(a@, b@) == text_before(x@.skip(i as int), y@.skip(i as int)),
        decreases x@.len() - i,
    {
        proof {
            assert(x@.skip(i as int).skip(1) =~= x@.skip(i + 1));
            assert(y@.skip(i as int).skip(1) =~= y@.skip(i + 1));
        }
        i = i + 1;
    }
    if i >= y.len() {
        false
    } else if i >= x.len() {
        true
    } else {
        code_point(x[i]) < code_point(y[i])
    }
}

fn code_point(c: char) -> (r: u32)
    ensures
        r == c as int,
{
    c as u32
}

/// A last-writer-wins register, ordered by time and then by node.
#[derive(Debug, PartialEq)]
pub struct LwwRegister {
    pub value: Vec<u8>,
    pub ts: u64,
    pub node: String,
}

/// What a register holds.
pub struct LwwView {
    pub value: Seq<u8>,
    pub ts: u64,
    pub node: Seq<char>,
}

/// Whether the write of `a` came before that of `b`.
pub open spec fn written_before(a: LwwView, b: LwwView) -> bool {
    a.ts < b.ts || (a.ts == b.ts && text_before(a.node, b.node))
}

/// The later of two writes, the first where neither is later.
pub open spec fn later_write(a: LwwView, b: LwwView) -> LwwView {
    if written_before(a, b) {
        b
    } else {
        a
    }
}

/// Whether the bytes `a` come before `b`: by the first byte in which they differ, a prefix
/// before what it begins.
pub open spec fn bytes_before(a: Seq<u8>, b: Seq<u8>) -> bool
    decreases a.len(),
{
    if b.len() == 0 {
        false
    } else if a.len() == 0 {
        true
    } else if a[0] == b[0] {
        bytes_before(a.skip(1), b.skip(1))
    } else {
        a[0] < b[0]
    }
}

fn less_bytes(a: &Vec<u8>, b: &Vec<u8>) -> (r: bool)
    ensures
        r == bytes_before(a@, b@),
{
    let mut i: usize = 0;
    proof {
        assert(a@.skip(0) =~= a@);
        assert(b@.skip(0) =~= b@);
    }
    while i < a.len() && i < b.len() && a[i] == b[i]
        invariant
            i <= a@.len(),
            i <= b@.len(),
            bytes_before(a@, b@) == bytes_before(a@.skip(i as int), b@.skip(i as int)),
        decreases a@.len() - i,
    {
        proof {
            assert(a@.skip(i as int).skip(1) =~= a@.skip(i + 1));
            assert(b@.skip(i as int).skip(1) =~= b@.skip(i + 1));
        }
        i = i + 1;
    }
    i < b.len() && (i >= a.len() || a[i] < b[i])
}

/// What two registers merge to: the later write, and of two writes of one node at one time the
/// greater value, so that every replica keeps the same one.
pub open spec fn merged_write(a: LwwView, b: LwwView) -> LwwView {
    if written_before(a, b) || (!written_before(b, a) && bytes_before(a.value, b.value)) {
        b
    } else {
        a
    }
}

impl View for LwwRegister {
    type V = LwwView;

    open spec fn view(&self) -> LwwView {
        LwwView { value: self.value@, ts: self.ts, node: self.node@ }
    }
}

impl LwwRegister {
    /// A register with one write.
    pub fn new(value: Vec<u8>, ts: u64, node: &str) -> (r: Self)
        ensures
            r@ == (LwwView { value: value@, ts, node: node@ }),
    {
        LwwRegister { value, ts, node: node.to_owned() }
    }

    fn older_than(&self, ts: u64, node: &str) -> (r: bool)
        ensures
            r == (self.ts < ts || (self.ts == ts && text_before(self.node@, node@))),
    {
        self.ts < ts || (self.ts == ts && comes_before(self.node.as_str(), node))
    }

    /// Writes, unless the register holds a write that is not older.
    pub fn set(&mut self, value: Vec<u8>, ts: u64, node: &str)
        ensures
            final(self)@ == later_write(old(self)@, (LwwView { value: value@, ts, node: node@ })),
    {
        if self.older_than(ts, node) {
            self.value = value;
            self.ts = ts;
            self.node = node.to_owned();
        }
    }

    /// Keeps the later write; of two writes of one node at one time, the greater value.
    pub fn merge(&mut self, other: &LwwRegister)
        ensures
            final(self)@ == merged_write(old(self)@, other@),
    {
        if self.older_than(other.ts, other.node.as_str()) || (!other.older_than(
            self.ts,
            self.node.as_str(),
        ) && less_bytes(&self.value, &other.value)) {
            let mut v: Vec<u8> = Vec::new();
            push_all(&mut v, other.value.as_slice());
            proof {
                assert(v@ =~= other.value@);
            }
            self.value = v;
            self.ts = other.ts;
            self.node = other.node.clone();
        }
    }
}

impl Clone for LwwRegister {
    fn clone(&self) -> (r: Self)
        ensures
            r@ == self@,
    {
        let mut v: Vec<u8> = Vec::new();
        push_all(&mut v, self.value.as_slice());
        proof {
            assert(v@ =~= self.value@);
        }
        LwwRegister { value: v, ts: self.ts, node: self.node.clone() }
    }
}

proof fn lemma_text_order(a: Seq<char>, b: Seq<char>, c: Seq<char>)
    ensures
        !text_before(a, a),
        text_before(a, b) || text_before(b, a) || a == b,
        !(text_before(a, b) && text_before(b, a)),
        text_before(a, b) && text_before(b, c) ==> text_before(a, c),
    decreases a.len() + b.len() + c.len(),
{
    if a.len() > 0 {
        lemma_text_order_self(a);
    }
    if a.len() > 0 && b.len() > 0 {
        if c.len() > 0 {
            lemma_text_order(a.skip(1), b.skip(1), c.skip(1));
        } else {
            lemma_text_order(a.skip(1), b.skip(1), c);
        }
        if a[0] == b[0] && a.skip(1) == b.skip(1) {
            assert(a =~= seq![a[0]] + a.skip(1));
            assert(b =~= seq![b[0]] + b.skip(1));
        }
    } else if a.len() == 0 && b.len() == 0 {
        assert(a =~= b);
    }
}

proof fn lemma_text_order_self(a: Seq<char>)
    ensures
        !text_before(a, a),
    decreases a.len(),
{
    if a.len() > 0 {
        lemma_text_order_self(a.skip(1));
    }
}

proof fn lemma_bytes_order(a: Seq<u8>, b: Seq<u8>, c: Seq<u8>)
    ensures
        !bytes_before(a, a),
        bytes_before(a, b) || bytes_before(b, a) || a == b,
        !(bytes_before(a, b) && bytes_before(b, a)),
        bytes_before(a, b) && bytes_before(b, c) ==> bytes_before(a, c),
    decreases a.len() + b.len() + c.len(),
{
    if a.len() > 0 {
        lemma_bytes_order_self(a);
    }
    if a.len() > 0 && b.len() > 0 {
        if c.len() > 0 {
            lemma_bytes_order(a.skip(1), b.skip(1), c.skip(1));
        } else {
            lemma_bytes_order(a.skip(1), b.skip(1), c);
        }
        if a[0] == b[0] && a.skip(1) == b.skip(1) {
            assert(a =~= seq![a[0]] + a.skip(1));
            assert(b =~= seq![b[0]] + b.skip(1));
        }
    } else if a.len() == 0 && b.len() == 0 {
        assert(a =~= b);
    }
}

proof fn lemma_bytes_order_self(a: Seq<u8>)
    ensures
        !bytes_before(a, a),
    decreases a.len(),
{
    if a.len() > 0 {
        lemma_bytes_order_self(a.skip(1));
    }
}

/// Merging registers is idempotent, and associative.
pub proof fn law_lww_merge(a: LwwView, b: LwwView, c: LwwView)
    ensures
        merged_write(a, a) == a,
        merged_write(merged_write(a, b), b) == merged_write(a, b),
        merged_write(merged_write(a, b), c) == merged_write(a, merged_write(b, c)),
{
    lemma_text_order(a.node, b.node, c.node);
    lemma_text_order(b.node, a.node, c.node);
    lemma_text_order(a.node, c.node, b.node);
    lemma_text_order(b.node, c.node, a.node);
    lemma_text_order(c.node, b.node, a.node);
    lemma_text_order(c.node, a.node, b.node);
    lemma_bytes_order(a.value, b.value, c.value);
    lemma_bytes_order(b.value, a.value, c.value);
    lemma_bytes_order(a.value, c.value, b.value);
    lemma_bytes_order(b.value, c.value, a.value);
    lemma_bytes_order(c.value, b.value, a.value);
    lemma_bytes_order(c.value, a.value, b.value);
}

/// Merging registers is commutative.
pub proof fn law_lww_merge_commutes(a: LwwView, b: LwwView)
    ensures
        merged_write(a, b) == merged_write(b, a),
{
    lemma_text_order(a.node, b.node, a.node);
    lemma_bytes_order(a.value, b.value, a.value);
}

/// Merging keeps the larger count of every node, so that no count is lost, and makes up none.
pub proof fn law_merge_keeps_the_larger(a: Counts, b: Counts, node: Seq<char>)
    ensures
        count_of(merged_counts(a, b), node) >= count_of(a, node),
        count_of(merged_counts(a, b), node) >= count_of(b, node),
        count_of(merged_counts(a, b), node) == count_of(a, node) || count_of(
            merged_counts(a, b),
            node,
        ) == count_of(b, node),
        merged_counts(a, b).contains_key(node) <==> a.contains_key(node) || b.contains_key(node),
{
}

/// A counter over one node stands at that node's count, and each further node adds its own.
pub proof fn law_total_sums_the_nodes(m: Counts, node: Seq<char>)
    requires
        m.dom().finite(),
        m.contains_key(node),
    ensures
        total(m) == total(m.remove(node)) + m[node],
        total(Counts::empty()) == 0,
{
    lemma_total_remove(m, node);
}

/// The later of two writes wins, whichever side holds it: by time, and at one time by the order
/// of the nodes' names. Of two writes of one node at one time the value that comes later wins.
pub proof fn law_the_later_write_wins(a: LwwView, b: LwwView)
    ensures
        a.ts < b.ts ==> merged_write(a, b) == b && merged_write(b, a) == b && later_write(a, b) == b
            && later_write(b, a) == b,
        a.ts == b.ts && text_before(a.node, b.node) ==> merged_write(a, b) == b && merged_write(
            b,
            a,
        ) == b && later_write(a, b) == b && later_write(b, a) == b,
        a.ts == b.ts && a.node == b.node ==> later_write(a, b) == a,
        a.ts == b.ts && a.node == b.node && bytes_before(a.value, b.value) ==> merged_write(a, b)
            == b && merged_write(b, a) == b,
{
    lemma_text_order(a.node, b.node, a.node);
    lemma_text_order_self(a.node);
    lemma_bytes_order(a.value, b.value, a.value);
    lemma_bytes_order_self(a.value);
}

/// One text comes before another where the first ends, or has the smaller character, at the first
/// place at which they are not the same.
pub proof fn law_texts_differ_first(a: Seq<char>, b: Seq<char>)
    ensures
        text_before(a, b) <==> exists|i: int|
            0 <= i < b.len() && i <= a.len() && #[trigger] a.take(i) == b.take(i) && (i == a.len()
                || (a[i] as int) < (b[i] as int)),
    decreases a.len(),
{
    if b.len() > 0 && a.len() > 0 && a[0] == b[0] {
        let (x, y) = (a.skip(1), b.skip(1));
        law_texts_differ_first(x, y);
        if text_before(a, b) {
            let i = choose|i: int|
                0 <= i < y.len() && i <= x.len() && #[trigger] x.take(i) == y.take(i) && (i
                    == x.len() || (x[i] as int) < (y[i] as int));
            assert(a.take(i + 1) =~= seq![a[0]] + x.take(i));
            assert(b.take(i + 1) =~= seq![b[0]] + y.take(i));
        }
        if exists|i: int|
            0 <= i < b.len() && i <= a.len() && #[trigger] a.take(i) == b.take(i) && (i == a.len()
                || (a[i] as int) < (b[i] as int)) {
            let i = choose|i: int|
                0 <= i < b.len() && i <= a.len() && #[trigger] a.take(i) == b.take(i) && (i
                    == a.len() || (a[i] as int) < (b[i] as int));
            assert(i > 0);
            assert(x.take(i - 1) =~= a.take(i).skip(1));
            assert(y.take(i - 1) =~= b.take(i).skip(1));
        }
    } else if b.len() > 0 {
        assert(a.take(0) =~= b.take(0));
        if exists|i: int|
            0 <= i < b.len() && i <= a.len() && #[trigger] a.take(i) == b.take(i) && (i == a.len()
                || (a[i] as int) < (b[i] as int)) {
            let i = choose|i: int|
                0 <= i < b.len() && i <= a.len() && #[trigger] a.take(i) == b.take(i) && (i
                    == a.len() || (a[i] as int) < (b[i] as int));
            if i > 0 {
                assert(a.take(i)[0] == b.take(i)[0]);
            }
        }
    }
}

/// The same for bytes.
pub proof fn law_bytes_differ_first(a: Seq<u8>, b: Seq<u8>)
    ensures
        bytes_before(a, b) <==> exists|i: int|
            0 <= i < b.len() && i <= a.len() && #[trigger] a.take(i) == b.take(i) && (i == a.len()
                || a[i] < b[i]),
    decreases a.len(),
{
    if b.len() > 0 && a.len() > 0 && a[0] == b[0] {
        let (x, y) = (a.skip(1), b.skip(1));
        law_bytes_differ_first(x, y);
        if bytes_before(a, b) {
            let i = choose|i: int|
                0 <= i < y.len() && i <= x.len() && #[trigger] x.take(i) == y.take(i) && (i
                    == x.len() || x[i] < y[i]);
            assert(a.take(i + 1) =~= seq![a[0]] + x.take(i));
            assert(b.take(i + 1) =~= seq![b[0]] + y.take(i));
        }
        if exists|i: int|
            0 <= i < b.len() && i <= a.len() && #[trigger] a.take(i) == b.take(i) && (i == a.len()
                || a[i] < b[i]) {
            let i = choose|i: int|
                0 <= i < b.len() && i <= a.len() && #[trigger] a.take(i) == b.take(i) && (i
                    == a.len() || a[i] < b[i]);
            assert(i > 0);
            assert(x.take(i - 1) =~= a.take(i).skip(1));
            assert(y.take(i - 1) =~= b.take(i).skip(1));
        }
    } else if b.len() > 0 {
        assert(a.take(0) =~= b.take(0));
        if exists|i: int|
            0 <= i < b.len() && i <= a.len() && #[trigger] a.take(i) == b.take(i) && (i == a.len()
                || a[i] < b[i]) {
            let i = choose|i: int|
                0 <= i < b.len() && i <= a.len() && #[trigger] a.take(i) == b.take(i) && (i
                    == a.len() || a[i] < b[i]);
            if i > 0 {
                assert(a.take(i)[0] == b.take(i)[0]);
            }
        }
    }
}

} // verus!
