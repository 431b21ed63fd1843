//! Byte scanning: finding a byte, cutting lines, copying ranges.
use vstd::prelude::*;

verus! {

/// The first place at or after `from` that holds `b`, or the length of `buf`.
pub open spec fn find(buf: Seq<u8>, b: u8, from: int) -> int
    decreases buf.len() - from,
{
    if from < 0 || from >= buf.len() {
        buf.len() as int
    } else if buf[from] == b {
        from
    } else {
        find(buf, b, from + 1)
    }
}

/// `find` stays in range, stops on the byte, and passes over none.
pub proof fn lemma_find(buf: Seq<u8>, b: u8, from: int)
    requires
        0 <= from <= buf.len(),
    ensures
        from <= find(buf, b, from) <= buf.len(),
        find(buf, b, from) < buf.len() ==> buf[find(buf, b, from)] == b,
        forall|i: int| from <= i < find(buf, b, from) ==> #[trigger] buf[i] != b,
    decreases buf.len() - from,
{
    if from < buf.len() && buf[from] != b {
        lemma_find(buf, b, from + 1);
    }
}

/// `find` is the only place with these properties.
pub proof fn lemma_find_is(buf: Seq<u8>, b: u8, from: int, at: int)
    requires
        0 <= from <= at <= buf.len(),
        at < buf.len() ==> buf[at] == b,
        forall|i: int| from <= i < at ==> #[trigger] buf[i] != b,
    ensures
        find(buf, b, from) == at,
{
    lemma_find(buf, b, from);
    let f = find(buf, b, from);
    if f < at {
        assert(buf[f] != b);
    } else if f > at {
        assert(buf[at] != b);
    }
}

/// The index of the first `b` at or after `from`, or the length of `buf`.
pub fn find_byte(buf: &[u8], b: u8, from: usize) -> (r: usize)
    requires
        from <= buf@.len(),
    ensures
        r == find(buf@, b, from as int),
        from <= r <= buf@.len(),
{
    let mut i: usize = from;
    while i < buf.len()
        invariant
            from <= i <= buf@.len(),
            find(buf@, b, from as int) == find(buf@, b, i as int),
        decreases buf@.len() - i,
    {
        if buf[i] == b {
            return i;
        }
        i = i + 1;
    }
    i
}

/// A copy of `buf[lo..hi]`.
pub fn copy_range(buf: &[u8], lo: usize, hi: usize) -> (r: Vec<u8>)
    requires
        lo <= hi <= buf@.len(),
    ensures
        r@ == buf@.subrange(lo as int, hi as int),
{
    let mut out: Vec<u8> = Vec::new();
    let mut i: usize = lo;
    while i < hi
        invariant
            lo <= i <= hi <= buf@.len(),
            out@ == buf@.subrange(lo as int, i as int),
        decreases hi - i,
    {
        out.push(buf[i]);
        i = i + 1;
        proof {
            assert(out@ =~= buf@.subrange(lo as int, i as int));
        }
    }
    out
}

/// Appends all of `src`.
pub fn push_all(out: &mut Vec<u8>, src: &[u8])
    ensures
        final(out)@ == old(out)@ + src@,
{
    let mut i: usize = 0;
    while i < src.len()
        invariant
            i <= src@.len(),
            out@ == old(out)@ + src@.take(i as int),
        decreases src@.len() - i,
    {
        out.push(src[i]);
        i = i + 1;
        proof {
            assert(out@ =~= old(out)@ + src@.take(i as int));
        }
    }
    proof {
        assert(src@.take(src@.len() as int) =~= src@);
    }
}

/// Whether the two runs of bytes are equal.
pub fn same_bytes(a: &[u8], b: &[u8]) -> (r: bool)
    ensures
        r == (a@ == b@),
{
    if a.len() != b.len() {
        return false;
    }
    let mut i: usize = 0;
    while i < a.len()
        invariant
            i <= a@.len(),
            a@.len() == b@.len(),
            forall|k: int| 0 <= k < i ==> a@[k] == b@[k],
        decreases a@.len() - i,
    {
        if a[i] != b[i] {
            return false;
        }
        i = i + 1;
    }
    proof {
        assert(a@ =~= b@);
    }
    true
}

/// Whether `buf` begins with `head`.
pub fn starts_with(buf: &[u8], head: &[u8]) -> (r: bool)
    ensures
        r == head@.is_prefix_of(buf@),
{
    if buf.len() < head.len() {
        return false;
    }
    let mut i: usize = 0;
    while i < head.len()
        invariant
            i <= head@.len() <= buf@.len(),
            forall|k: int| 0 <= k < i ==> buf@[k] == head@[k],
        decreases head@.len() - i,
    {
        if buf[i] != head[i] {
            proof {
                assert(buf@.subrange(0, head@.len() as int)[i as int] == buf@[i as int]);
            }
            return false;
        }
        i = i + 1;
    }
    proof {
        assert(buf@.subrange(0, head@.len() as int) =~= head@);
    }
    true
}

/// `s` without one carriage return at its end.
pub open spec fn strip_cr(s: Seq<u8>) -> Seq<u8> {
    if s.len() > 0 && s.last() == 13 {
        s.drop_last()
    } else {
        s
    }
}

/// `s` without any carriage returns and line feeds at its end.
pub open spec fn strip_eol(s: Seq<u8>) -> Seq<u8>
    decreases s.len(),
{
    if s.len() > 0 && (s.last() == 13 || s.last() == 10) {
        strip_eol(s.drop_last())
    } else {
        s
    }
}

/// `buf[lo..hi]` without any carriage returns and line feeds at its end.
pub fn line_of(buf: &[u8], lo: usize, hi: usize) -> (r: Vec<u8>)
    requires
        lo <= hi <= buf@.len(),
    ensures
        r@ == strip_eol(buf@.subrange(lo as int, hi as int)),
{
    let mut h: usize = hi;
    while h > lo && (buf[h - 1] == 13 || buf[h - 1] == 10)
        invariant
            lo <= h <= hi <= buf@.len(),
            strip_eol(buf@.subrange(lo as int, hi as int)) == strip_eol(
                buf@.subrange(lo as int, h as int),
            ),
        decreases h,
    {
        proof {
            let s = buf@.subrange(lo as int, h as int);
            assert(s.drop_last() =~= buf@.subrange(lo as int, h - 1));
        }
        h = h - 1;
    }
    copy_range(buf, lo, h)
}

/// The views of a list of byte strings.
pub open spec fn parts(v: Seq<Vec<u8>>) -> Seq<Seq<u8>> {
    Seq::new(v.len(), |i: int| v[i]@)
}

/// The non-empty runs of bytes between the spaces of `s`.
pub open spec fn words(s: Seq<u8>) -> Seq<Seq<u8>>
    decreases s.len(),
{
    if s.len() == 0 {
        Seq::empty()
    } else {
        let k = find(s, 32, 0);
        if 0 < k < s.len() {
            seq![s.take(k)] + words(s.skip(k + 1))
        } else if k >= s.len() {
            seq![s]
        } else {
            words(s.skip(1))
        }
    }
}

/// Splits a line on spaces and drops the empty pieces.
pub fn split_words(line: &[u8]) -> (r: Vec<Vec<u8>>)
    ensures
        parts(r@) == words(line@),
{
    let mut out: Vec<Vec<u8>> = Vec::new();
    let mut at: usize = 0;
    proof {
        assert(line@.skip(0) =~= line@);
    }
    while at < line.len()
        invariant
            at <= line@.len(),
            words(line@) == parts(out@) + words(line@.skip(at as int)),
        decreases line@.len() - at,
    {
        let ghost rest = line@.skip(at as int);
        let sp = find_byte(line, 32, at);
        proof {
            lemma_find(line@, 32, at as int);
            assert forall|i: int| 0 <= i < sp - at implies #[trigger] rest[i] != 32 by {
                assert(line@[i + at] != 32);
            }
            lemma_find_is(rest, 32, 0, sp - at);
        }
        if sp > at {
            let w = copy_range(line, at, sp);
            let ghost before = out@;
            out.push(w);
            proof {
                assert(parts(out@) =~= parts(before) + seq![w@]);
                assert(w@ =~= rest.take(sp - at));
            }
        }
        if sp < line.len() {
            proof {
                assert(rest.skip(sp - at + 1) =~= line@.skip(sp + 1));
                if sp > at {
                    assert(words(rest) =~= seq![rest.take(sp - at)] + words(line@.skip(sp + 1)));
                }
                assert(words(line@) =~= parts(out@) + words(line@.skip(sp + 1)));
            }
            at = sp + 1;
        } else {
            proof {
                assert(rest.take(sp - at) =~= rest);
                assert(line@.skip(line@.len() as int) =~= Seq::<u8>::empty());
                assert(words(line@) =~= parts(out@) + words(line@.skip(line@.len() as int)));
            }
            at = line.len();
        }
    }
    proof {
        assert(line@.skip(at as int) =~= Seq::<u8>::empty());
        assert(words(line@) =~= parts(out@));
    }
    out
}

/// Without its line end, a run of bytes is what stood before it: only carriage returns and line
/// feeds were taken off, and none is left at the end.
pub proof fn law_line_ends_are_taken_off(s: Seq<u8>)
    ensures
        strip_eol(s).is_prefix_of(s),
        forall|i: int| strip_eol(s).len() <= i < s.len() ==> #[trigger] s[i] == 13 || s[i] == 10,
        strip_eol(s).len() > 0 ==> strip_eol(s).last() != 13 && strip_eol(s).last() != 10,
    decreases s.len(),
{
    if s.len() > 0 && (s.last() == 13 || s.last() == 10) {
        let t = s.drop_last();
        law_line_ends_are_taken_off(t);
        let r = strip_eol(s);
        assert(s.subrange(0, r.len() as int) =~= t.subrange(0, r.len() as int));
        assert forall|i: int| r.len() <= i < s.len() implies #[trigger] s[i] == 13 || s[i] == 10 by {
            if i < t.len() {
                assert(t[i] == 13 || t[i] == 10);
            }
        }
    } else {
        assert(s.subrange(0, s.len() as int) =~= s);
    }
}

/// Whether `s[a..b]` is a word: no space in it, and nothing else beside it.
pub open spec fn is_word(s: Seq<u8>, a: int, b: int) -> bool {
    &&& 0 <= a < b <= s.len()
    &&& forall|x: int| a <= x < b ==> #[trigger] s[x] != 32
    &&& a == 0 || s[a - 1] == 32
    &&& b == s.len() || s[b] == 32
}

/// Whether the words of a line stand in it at `at`, in its order, and are all there are.
pub open spec fn words_placed(s: Seq<u8>, at: Seq<int>) -> bool {
    let all = words(s);
    &&& at.len() == all.len()
    &&& forall|k: int|
        0 <= k < all.len() ==> is_word(s, at[k], at[k] + (#[trigger] all[k]).len()) && all[k]
            == s.subrange(at[k], at[k] + all[k].len())
    &&& forall|k: int, m: int| 0 <= k < m < at.len() ==> #[trigger] at[k] < #[trigger] at[m]
    &&& forall|a: int, b: int| #[trigger] is_word(s, a, b) ==> at.contains(a)
}

/// The words of a line are the longest runs of it without a space, in its order, and none is
/// missing or empty.
pub proof fn law_line_words_are_the_runs(s: Seq<u8>)
    ensures
        exists|at: Seq<int>| #[trigger] words_placed(s, at),
    decreases s.len(),
{
    let all = words(s);
    if s.len() == 0 {
        assert(words_placed(s, Seq::<int>::empty()));
    } else {
        lemma_find(s, 32, 0);
        let k = find(s, 32, 0);
        if k >= s.len() {
            let at = seq![0int];
            assert(s.subrange(0, s.len() as int) =~= s);
            assert forall|a: int, b: int| #[trigger] is_word(s, a, b) implies at.contains(a) by {
                if a > 0 {
                    assert(s[a - 1] != 32);
                }
                assert(at[0] == a);
            }
            assert(words_placed(s, at));
        } else {
            let cut = k + 1;
            let t = s.skip(cut);
            law_line_words_are_the_runs(t);
            let rest = words(t);
            let more = choose|at: Seq<int>| #[trigger] words_placed(t, at);
            let head = if k > 0 {
                seq![0int]
            } else {
                Seq::<int>::empty()
            };
            let at = head + Seq::new(more.len(), |i: int| more[i] + cut);
            assert forall|i: int| 0 <= i < all.len() implies is_word(
                s,
                at[i],
                at[i] + (#[trigger] all[i]).len(),
            ) && all[i] == s.subrange(at[i], at[i] + all[i].len()) by {
                if i < head.len() {
                    assert(all[i] == s.take(k));
                    assert(s.subrange(0, k) =~= s.take(k));
                } else {
                    let j = i - head.len();
                    assert(all[i] == rest[j] && at[i] == more[j] + cut);
                    let (x, y) = (more[j], more[j] + rest[j].len());
                    assert(is_word(t, x, y));
                    assert(s.subrange(x + cut, y + cut) =~= t.subrange(x, y));
                    assert forall|z: int| x + cut <= z < y + cut implies #[trigger] s[z] != 32 by {
                        assert(t[z - cut] != 32);
                    }
                    if x > 0 {
                        assert(t[x - 1] == s[x + cut - 1]);
                    }
                    if y < t.len() {
                        assert(t[y] == s[y + cut]);
                    }
                }
            }
            assert forall|i: int, j: int| 0 <= i < j < at.len() implies #[trigger] at[i] < #[trigger] at[j] by {
                let m = j - head.len();
                assert(at[j] == more[m] + cut);
                assert(is_word(t, more[m], more[m] + rest[m].len()));
                if i >= head.len() {
                    assert(at[i] == more[i - head.len()] + cut);
                }
            }
            assert forall|a: int, b: int| #[trigger] is_word(s, a, b) implies at.contains(a) by {
                assert(s[a] != 32);
                if a < k {
                    if a > 0 {
                        assert(s[a - 1] != 32);
                    }
                    assert(at[0] == a);
                } else {
                    assert(a > k);
                    let (x, y) = (a - cut, b - cut);
                    assert forall|z: int| x <= z < y implies #[trigger] t[z] != 32 by {
                        assert(s[z + cut] != 32);
                    }
                    assert(is_word(t, x, y));
                    assert(more.contains(x));
                    let i = choose|i: int| 0 <= i < more.len() && more[i] == x;
                    assert(at[head.len() + i] == a);
                }
            }
            assert(words_placed(s, at));
        }
    }
}

} // verus!
