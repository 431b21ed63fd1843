//! Taking lines of text apart.
use crate::text;
use crate::text::{chars_of, white};
use vstd::prelude::*;
use vstd::string::*;

verus! {

/// Whether `part` stands in `s` at place `i`.
pub open spec fn stands_at(s: Seq<char>, part: Seq<char>, i: int) -> bool {
    0 <= i && i + part.len() <= s.len() && s.subrange(i, i + part.len()) == part
}

/// The first place from `i` on at which `part` stands in `s`.
pub open spec fn place_from(s: Seq<char>, part: Seq<char>, i: int) -> Option<int>
    decreases s.len() + 1 - i,
{
    if i < 0 || i + part.len() > s.len() {
        None
    } else if stands_at(s, part, i) {
        Some(i)
    } else {
        place_from(s, part, i + 1)
    }
}

/// The first place at which `part` stands in `s`.
pub open spec fn place_in(s: Seq<char>, part: Seq<char>) -> Option<int> {
    place_from(s, part, 0)
}

/// Looks for the first place of a part in a text.
pub fn find_part(s: &Vec<char>, part: &Vec<char>) -> (r: Option<usize>)
    ensures
        match r {
            Some(i) => place_in(s@, part@) == Some(i as int) && stands_at(s@, part@, i as int),
            None => place_in(s@, part@) is None,
        },
{
    let m: usize = part.len();
    let n: usize = s.len();
    if m > n {
        return None;
    }
    if m == 0 {
        proof {
            assert(s@.subrange(0, 0) =~= part@);
        }
        return Some(0);
    }
    let mut i: usize = 0;
    while i <= n - m
        invariant
            0 < m == part@.len() <= n == s@.len(),
            i <= n - m + 1,
            place_in(s@, part@) == place_from(s@, part@, i as int),
        decreases n - m + 1 - i,
    {
        let mut j: usize = 0;
        let mut same: bool = true;
        while j < m && same
            invariant
                m == part@.len(),
                n == s@.len(),
                i + m <= n,
                j <= m,
                same ==> forall|x: int| 0 <= x < j ==> s@[i + x] == #[trigger] part@[x],
                !same ==> s@.subrange(i as int, i + m) != part@,
            decreases m - j, (if same { 1int } else { 0int }),
        {
            if s[i + j] != part[j] {
                proof {
                    assert(s@.subrange(i as int, i + m)[j as int] == s@[i + j]);
                }
                same = false;
            } else {
                j = j + 1;
            }
        }
        if same {
            proof {
                assert(s@.subrange(i as int, i + m) =~= part@);
            }
            return Some(i);
        }
        i = i + 1;
    }
    None
}

/// What follows `head` in `s`, where `s` begins with it.
pub open spec fn behind(s: Seq<char>, head: Seq<char>) -> Option<Seq<char>> {
    if head.is_prefix_of(s) {
        Some(s.skip(head.len() as int))
    } else {
        None
    }
}

pub open spec fn opt_view(s: Option<String>) -> Option<Seq<char>> {
    match s {
        Some(x) => Some(x@),
        None => None,
    }
}

/// Takes `head` off a text that begins with it.
pub fn strip_head(s: &str, head: &str) -> (r: Option<String>)
    ensures
        opt_view(r) == behind(s@, head@),
{
    let a = chars_of(s);
    let h = chars_of(head);
    let n: usize = a.len();
    if h.len() > n {
        return None;
    }
    let mut i: usize = 0;
    while i < h.len()
        invariant
            a@ == s@,
            h@ == head@,
            h@.len() <= a@.len() == n,
            i <= h@.len(),
            forall|x: int| 0 <= x < i ==> a@[x] == #[trigger] h@[x],
        decreases h@.len() - i,
    {
        if a[i] != h[i] {
            proof {
                assert(!head@.is_prefix_of(s@)) by {
                    if head@.is_prefix_of(s@) {
                        assert(s@.subrange(0, head@.len() as int)[i as int] == s@[i as int]);
                    }
                }
            }
            return None;
        }
        i = i + 1;
    }
    proof {
        assert(s@.subrange(0, head@.len() as int) =~= head@);
        assert(s@.subrange(h@.len() as int, n as int) =~= s@.skip(head@.len() as int));
    }
    Some(s.substring_char(h.len(), n).to_owned())
}

/// Whether a text ends in `tail`.
pub fn ends_in(s: &str, tail: &str) -> (r: bool)
    ensures
        r == tail@.is_suffix_of(s@),
{
    let a = chars_of(s);
    let t = chars_of(tail);
    if t.len() > a.len() {
        return false;
    }
    let off: usize = a.len() - t.len();
    let mut i: usize = 0;
    while i < t.len()
        invariant
            a@ == s@,
            t@ == tail@,
            off + t@.len() == a@.len() <= usize::MAX,
            i <= t@.len(),
            forall|x: int| 0 <= x < i ==> a@[off + x] == #[trigger] t@[x],
        decreases t@.len() - i,
    {
        if a[off + i] != t[i] {
            proof {
                assert(!tail@.is_suffix_of(s@)) by {
                    if tail@.is_suffix_of(s@) {
                        assert(s@.subrange(off as int, s@.len() as int)[i as int] == s@[off + i]);
                    }
                }
            }
            return false;
        }
        i = i + 1;
    }
    proof {
        assert(s@.subrange(off as int, s@.len() as int) =~= tail@);
    }
    true
}

/// The place of the first `c` from `i` on, or the length.
pub open spec fn char_from(s: Seq<char>, c: char, i: int) -> int
    decreases s.len() - i,
{
    if i < 0 || i >= s.len() {
        s.len() as int
    } else if s[i] == c {
        i
    } else {
        char_from(s, c, i + 1)
    }
}

/// The texts before and behind the first `c`, where there is one.
pub open spec fn cut_at(s: Seq<char>, c: char) -> Option<(Seq<char>, Seq<char>)> {
    let p = char_from(s, c, 0);
    if p < s.len() {
        Some((s.take(p), s.skip(p + 1)))
    } else {
        None
    }
}

/// The place of a character lies within the text.
pub proof fn lemma_char_from(s: Seq<char>, c: char, i: int)
    requires
        0 <= i <= s.len(),
    ensures
        i <= char_from(s, c, i) <= s.len(),
    decreases s.len() - i,
{
    if i < s.len() && s[i] != c {
        lemma_char_from(s, c, i + 1);
    }
}

/// Cuts a text in two at the first `c`.
pub fn cut_once(s: &str, c: char) -> (r: Option<(String, String)>)
    ensures
        match r {
            Some((a, b)) => cut_at(s@, c) == Some((a@, b@)),
            None => cut_at(s@, c) is None,
        },
{
    let a = chars_of(s);
    let n: usize = a.len();
    let mut i: usize = 0;
    while i < n
        invariant
            a@ == s@,
            i <= n == a@.len(),
            char_from(s@, c, 0) == char_from(s@, c, i as int),
        decreases n - i,
    {
        if a[i] == c {
            proof {
                assert(s@.subrange(0, i as int) =~= s@.take(i as int));
                assert(s@.subrange(i + 1, n as int) =~= s@.skip(i + 1));
            }
            return Some((s.substring_char(0, i).to_owned(), s.substring_char(i + 1, n).to_owned()));
        }
        i = i + 1;
    }
    None
}

/// The place of the first character from `i` on that is white (or is not), or the length.
pub open spec fn white_from(s: Seq<char>, i: int, want: bool) -> int
    decreases s.len() - i,
{
    if i < 0 || i >= s.len() {
        s.len() as int
    } else if text::is_white(s[i]) == want {
        i
    } else {
        white_from(s, i + 1, want)
    }
}

pub proof fn lemma_white_from(s: Seq<char>, i: int, want: bool)
    requires
        0 <= i <= s.len(),
    ensures
        i <= white_from(s, i, want) <= s.len(),
        white_from(s, i, want) < s.len() ==> text::is_white(s[white_from(s, i, want)]) == want,
    decreases s.len() - i,
{
    if i < s.len() && text::is_white(s[i]) != want {
        lemma_white_from(s, i + 1, want);
    }
}

/// The words of a text from `i` on, cut at white space.
pub open spec fn words_from(s: Seq<char>, i: int) -> Seq<Seq<char>>
    decreases s.len() - i,
    when 0 <= i <= s.len()
{
    let a = white_from(s, i, false);
    proof {
        lemma_white_from(s, i, false);
        if a < s.len() {
            lemma_white_from(s, a, true);
        }
    }
    if a >= s.len() {
        Seq::empty()
    } else {
        let b = white_from(s, a, true);
        seq![s.subrange(a, b)] + words_from(s, b)
    }
}

pub open spec fn views_of(v: Seq<String>) -> Seq<Seq<char>> {
    Seq::new(v.len(), |i: int| v[i]@)
}

/// Cuts a text into words at white space.
pub fn split_white(s: &str) -> (r: Vec<String>)
    ensures
        views_of(r@) == words_from(s@, 0),
{
    let a = chars_of(s);
    let n: usize = a.len();
    let mut out: Vec<String> = Vec::new();
    let mut i: usize = 0;
    let ghost want = words_from(s@, 0);
    proof {
        assert(views_of(out@) + want =~= want);
    }
    loop
        invariant
            a@ == s@,
            i <= n == a@.len(),
            want == words_from(s@, 0),
            want == views_of(out@) + words_from(s@, i as int),
        decreases n - i,
    {
        let ghost start = i as int;
        let mut p: usize = i;
        while p < n && white(a[p])
            invariant
                a@ == s@,
                i <= p <= n == a@.len(),
                white_from(s@, i as int, false) == white_from(s@, p as int, false),
            decreases n - p,
        {
            p = p + 1;
        }
        if p >= n {
            proof {
                assert(want =~= views_of(out@));
            }
            return out;
        }
        let mut q: usize = p;
        while q < n && !white(a[q])
            invariant
                a@ == s@,
                p <= q <= n == a@.len(),
                white_from(s@, p as int, true) == white_from(s@, q as int, true),
            decreases n - q,
        {
            q = q + 1;
        }
        proof {
            lemma_white_from(s@, p as int, true);
            assert(!text::is_white(s@[p as int]));
            assert(q > p) by {
                if q == p {
                    assert(white_from(s@, p as int, true) == p);
                }
            }
        }
        let w = s.substring_char(p, q).to_owned();
        let ghost before = out@;
        let ghost v = w@;
        out.push(w);
        proof {
            let tail = words_from(s@, q as int);
            assert(words_from(s@, start) == seq![v] + tail);
            assert(views_of(out@) =~= views_of(before) + seq![v]);
            assert(views_of(before) + (seq![v] + tail) =~= views_of(out@) + tail);
        }
        i = q;
    }
}

/// Takes the white space off both ends of a text.
pub fn trim_text(s: &str) -> (r: String)
    ensures
        r@ == text::trimmed(s@),
{
    let a = chars_of(s);
    let (lo, hi) = text::trim_bounds(&a);
    s.substring_char(lo, hi).to_owned()
}

/// Compares two texts.
pub fn same_text(a: &str, b: &str) -> (r: bool)
    ensures
        r == (a@ == b@),
{
    a.to_owned() == b.to_owned()
}

/// A line without the carriage return that ends it.
pub open spec fn without_return(s: Seq<char>) -> Seq<char> {
    if s.len() > 0 && s.last() == '\r' {
        s.drop_last()
    } else {
        s
    }
}

/// The lines of a text from `i` on. A line ends in a line feed, or in a carriage return and
/// a line feed; what follows the last line feed is a line if it is not empty.
pub open spec fn lines_from(s: Seq<char>, i: int) -> Seq<Seq<char>>
    decreases s.len() - i,
    when 0 <= i <= s.len()
{
    proof {
        lemma_char_from(s, '\n', i);
    }
    let p = char_from(s, '\n', i);
    if i >= s.len() {
        Seq::empty()
    } else if p >= s.len() {
        seq![s.skip(i)]
    } else {
        seq![without_return(s.subrange(i, p))] + lines_from(s, p + 1)
    }
}

/// Cuts a text into lines.
pub fn split_lines(s: &str) -> (r: Vec<String>)
    ensures
        views_of(r@) == lines_from(s@, 0),
{
    let a = chars_of(s);
    let n: usize = a.len();
    let mut out: Vec<String> = Vec::new();
    let mut i: usize = 0;
    let ghost want = lines_from(s@, 0);
    proof {
        assert(views_of(out@) + want =~= want);
    }
    while i < n
        invariant
            a@ == s@,
            i <= n == a@.len(),
            want == lines_from(s@, 0),
            want == views_of(out@) + lines_from(s@, i as int),
        decreases n - i,
    {
        let ghost start = i as int;
        let mut p: usize = i;
        while p < n && a[p] != '\n'
            invariant
                a@ == s@,
                i <= p <= n == a@.len(),
                char_from(s@, '\n', i as int) == char_from(s@, '\n', p as int),
            decreases n - p,
        {
            p = p + 1;
        }
        let end: usize = if p < n && p > i && a[p - 1] == '\r' {
            p - 1
        } else {
            p
        };
        let line = s.substring_char(i, end).to_owned();
        let ghost before = out@;
        let ghost v = line@;
        out.push(line);
        i = if p < n {
            p + 1
        } else {
            n
        };
        proof {
            let whole = s@.subrange(start, p as int);
            if p < n {
                assert(v =~= without_return(whole));
                let rest = lines_from(s@, p + 1);
                assert(lines_from(s@, start) == seq![v] + rest);
                assert(views_of(out@) =~= views_of(before) + seq![v]);
                assert(views_of(before) + (seq![v] + rest) =~= views_of(out@) + rest);
            } else {
                assert(v =~= s@.skip(start));
                assert(lines_from(s@, start) =~= seq![v]);
                assert(lines_from(s@, i as int) =~= Seq::<Seq<char>>::empty());
                assert(views_of(out@) =~= views_of(before) + seq![v]);
                assert(views_of(out@) + lines_from(s@, i as int) =~= views_of(out@));
            }
        }
    }
    proof {
        assert(lines_from(s@, i as int) =~= Seq::<Seq<char>>::empty());
        assert(want =~= views_of(out@));
    }
    out
}

/// Texts with `sep` between them.
pub open spec fn joined_with(parts: Seq<Seq<char>>, sep: Seq<char>) -> Seq<char>
    decreases parts.len(),
{
    if parts.len() == 0 {
        Seq::empty()
    } else if parts.len() == 1 {
        parts[0]
    } else {
        joined_with(parts.drop_last(), sep) + sep + parts.last()
    }
}

/// Joins the texts from `from` on, with `sep` between them.
pub fn join_from(parts: &Vec<String>, from: usize, sep: &str) -> (r: String)
    requires
        from <= parts@.len(),
    ensures
        r@ == joined_with(views_of(parts@).skip(from as int), sep@),
{
    let n: usize = parts.len();
    let ghost all = views_of(parts@).skip(from as int);
    let mut out = String::new();
    let mut i: usize = from;
    proof {
        assert(all.take(0) =~= Seq::<Seq<char>>::empty());
        assert(out@ =~= joined_with(all.take(0), sep@));
    }
    while i < n
        invariant
            from <= i <= n == parts@.len(),
            all == views_of(parts@).skip(from as int),
            out@ == joined_with(all.take(i - from), sep@),
        decreases n - i,
    {
        if i > from {
            out.append(sep);
        }
        out.append(parts[i].as_str());
        proof {
            let m = i - from;
            assert(all.take(m + 1).drop_last() =~= all.take(m));
            assert(all.take(m + 1).last() == all[m]);
            assert(all[m] == parts@[i as int]@);
            if m == 0 {
                assert(out@ =~= all[0]);
            }
        }
        i = i + 1;
    }
    proof {
        assert(all.take(n - from) =~= all);
    }
    out
}

proof fn lemma_place_from(s: Seq<char>, part: Seq<char>, i: int)
    requires
        0 <= i <= s.len() + 1,
    ensures
        match place_from(s, part, i) {
            Some(p) => i <= p && stands_at(s, part, p) && forall|x: int|
                i <= x < p ==> !#[trigger] stands_at(s, part, x),
            None => forall|x: int| i <= x ==> !#[trigger] stands_at(s, part, x),
        },
    decreases s.len() + 1 - i,
{
    if i + part.len() <= s.len() && !stands_at(s, part, i) {
        lemma_place_from(s, part, i + 1);
    }
}

/// The place of a part is the first at which it stands in the text, if it does at all.
pub proof fn law_part_is_found_first(s: Seq<char>, part: Seq<char>)
    ensures
        match place_in(s, part) {
            Some(p) => 0 <= p && p + part.len() <= s.len() && s.subrange(p, p + part.len()) == part
                && forall|x: int|
                0 <= x < p ==> #[trigger] s.subrange(x, x + part.len()) != part,
            None => forall|x: int|
                0 <= x && x + part.len() <= s.len() ==> #[trigger] s.subrange(x, x + part.len())
                    != part,
        },
{
    lemma_place_from(s, part, 0);
    match place_in(s, part) {
        Some(p) => {
            assert forall|x: int| 0 <= x < p implies #[trigger] s.subrange(x, x + part.len())
                != part by {
                assert(!stands_at(s, part, x));
            }
        },
        None => {
            assert forall|x: int| 0 <= x && x + part.len() <= s.len() implies #[trigger] s.subrange(
                x,
                x + part.len(),
            ) != part by {
                assert(!stands_at(s, part, x));
            }
        },
    }
}

proof fn lemma_char_first(s: Seq<char>, c: char, i: int)
    requires
        0 <= i <= s.len(),
    ensures
        i <= char_from(s, c, i) <= s.len(),
        char_from(s, c, i) < s.len() ==> s[char_from(s, c, i)] == c,
        forall|x: int| i <= x < char_from(s, c, i) ==> #[trigger] s[x] != c,
    decreases s.len() - i,
{
    if i < s.len() && s[i] != c {
        lemma_char_first(s, c, i + 1);
    }
}

/// A text is cut at the first of a character: the two parts with that character between them are
/// the text, and the first part does not hold it. A text without it is not cut.
pub proof fn law_cuts_are_at_the_first(s: Seq<char>, c: char)
    ensures
        match cut_at(s, c) {
            Some((a, b)) => s == a.push(c) + b && !a.contains(c),
            None => !s.contains(c),
        },
{
    lemma_char_first(s, c, 0);
    let p = char_from(s, c, 0);
    if p < s.len() {
        assert(s =~= s.take(p).push(c) + s.skip(p + 1));
    }
}

/// What follows a head, behind that head, is the text again.
pub proof fn law_head_and_rest(s: Seq<char>, head: Seq<char>, rest: Seq<char>)
    ensures
        behind(s, head) matches Some(r) ==> s == head + r,
        behind(head + rest, head) == Some(rest),
{
    assert((head + rest).subrange(0, head.len() as int) =~= head);
    assert((head + rest).skip(head.len() as int) =~= rest);
    if head.is_prefix_of(s) {
        assert(s =~= s.subrange(0, head.len() as int) + s.skip(head.len() as int));
    }
}

proof fn lemma_white_run(s: Seq<char>, i: int, want: bool)
    requires
        0 <= i <= s.len(),
    ensures
        i <= white_from(s, i, want) <= s.len(),
        forall|x: int| i <= x < white_from(s, i, want) ==> text::is_white(#[trigger] s[x]) != want,
        white_from(s, i, want) < s.len() ==> text::is_white(s[white_from(s, i, want)]) == want,
    decreases s.len() - i,
{
    if i < s.len() && text::is_white(s[i]) != want {
        lemma_white_run(s, i + 1, want);
    }
}

/// Whether `s[a..b]` is a word of a text from `i` on: no white space in it, and nothing else
/// beside it.
pub open spec fn is_word(s: Seq<char>, i: int, a: int, b: int) -> bool {
    &&& i <= a < b <= s.len()
    &&& forall|x: int| a <= x < b ==> !text::is_white(#[trigger] s[x])
    &&& a == i || text::is_white(s[a - 1])
    &&& b == s.len() || text::is_white(s[b])
}

/// Whether the words of a text from `i` on stand in it at `at`, in its order, and are all there
/// are.
pub open spec fn words_placed(s: Seq<char>, i: int, at: Seq<int>) -> bool {
    let all = words_from(s, i);
    &&& at.len() == all.len()
    &&& forall|k: int|
        0 <= k < all.len() ==> is_word(s, i, at[k], at[k] + (#[trigger] all[k]).len()) && all[k]
            == s.subrange(at[k], at[k] + all[k].len())
    &&& forall|k: int, m: int| 0 <= k < m < at.len() ==> #[trigger] at[k] < #[trigger] at[m]
    &&& forall|a: int, b: int| #[trigger] is_word(s, i, a, b) ==> at.contains(a)
}

proof fn lemma_words_placed(s: Seq<char>, i: int)
    requires
        0 <= i <= s.len(),
        i == 0 || i == s.len() || text::is_white(s[i]),
    ensures
        exists|at: Seq<int>| #[trigger] words_placed(s, i, at),
    decreases s.len() - i,
{
    lemma_white_run(s, i, false);
    let a = white_from(s, i, false);
    let all = words_from(s, i);
    if a >= s.len() {
        assert forall|x: int, y: int| #[trigger] is_word(s, i, x, y) implies Seq::<int>::empty().contains(
            x,
        ) by {
            assert(text::is_white(s[x]));
        }
        assert(words_placed(s, i, Seq::<int>::empty()));
    } else {
        lemma_white_run(s, a, true);
        let b = white_from(s, a, true);
        lemma_words_placed(s, b);
        let rest = words_from(s, b);
        let more = choose|at: Seq<int>| #[trigger] words_placed(s, b, at);
        let at = seq![a] + more;
        assert(all == seq![s.subrange(a, b)] + rest);
        assert forall|k: int| 0 <= k < all.len() implies is_word(
            s,
            i,
            at[k],
            at[k] + (#[trigger] all[k]).len(),
        ) && all[k] == s.subrange(at[k], at[k] + all[k].len()) by {
            if k == 0 {
                if a > i {
                    assert(text::is_white(s[a - 1]));
                }
            } else {
                assert(all[k] == rest[k - 1] && at[k] == more[k - 1]);
                assert(is_word(s, b, more[k - 1], more[k - 1] + rest[k - 1].len()));
                if more[k - 1] == b {
                    assert(!text::is_white(s[b]));
                }
            }
        }
        assert forall|k: int, m: int| 0 <= k < m < at.len() implies #[trigger] at[k] < #[trigger] at[m] by {
            assert(at[m] == more[m - 1]);
            assert(is_word(s, b, more[m - 1], more[m - 1] + rest[m - 1].len()));
            if k > 0 {
                assert(at[k] == more[k - 1]);
            }
        }
        assert forall|x: int, y: int| #[trigger] is_word(s, i, x, y) implies at.contains(x) by {
            assert(!text::is_white(s[x]));
            if x < a {
                assert(text::is_white(s[x]));
            }
            if x < b {
                if x > a {
                    assert(!text::is_white(s[x - 1]));
                }
                assert(at[0] == x);
            } else {
                assert(is_word(s, b, x, y));
                assert(more.contains(x));
                let k = choose|k: int| 0 <= k < more.len() && more[k] == x;
                assert(at[k + 1] == x);
            }
        }
        assert(words_placed(s, i, at));
    }
}

/// The words of a text are the longest runs of it without white space, in its order, and none is
/// missing or empty.
pub proof fn law_words_are_the_runs(s: Seq<char>)
    ensures
        exists|at: Seq<int>| #[trigger] words_placed(s, 0, at),
{
    lemma_words_placed(s, 0);
}

/// Texts that are joined begin with the first of them, and go on behind the separator with the
/// others joined.
pub proof fn law_joining_from_the_front(parts: Seq<Seq<char>>, sep: Seq<char>)
    ensures
        joined_with(Seq::empty(), sep) == Seq::<char>::empty(),
        parts.len() == 1 ==> joined_with(parts, sep) == parts[0],
        parts.len() > 1 ==> joined_with(parts, sep) == parts[0] + sep + joined_with(
            parts.skip(1),
            sep,
        ),
    decreases parts.len(),
{
    if parts.len() == 2 {
        assert(parts.drop_last() =~= seq![parts[0]]);
        assert(parts.skip(1) =~= seq![parts[1]]);
        assert(joined_with(parts.drop_last(), sep) == parts[0]);
        assert(joined_with(parts.skip(1), sep) == parts[1]);
    } else if parts.len() > 2 {
        let front = parts.drop_last();
        law_joining_from_the_front(front, sep);
        assert(parts.skip(1).drop_last() =~= front.skip(1));
        assert(parts.skip(1).last() == parts.last());
        assert(joined_with(parts.skip(1), sep) == joined_with(front.skip(1), sep) + sep
            + parts.last());
        assert(front[0] == parts[0]);
        assert(joined_with(parts, sep) =~= parts[0] + sep + (joined_with(front.skip(1), sep) + sep
            + parts.last()));
    }
}

/// Lines, one behind the other, each with its line feed.
pub open spec fn fed(lines: Seq<Seq<char>>) -> Seq<char>
    decreases lines.len(),
{
    if lines.len() == 0 {
        Seq::empty()
    } else {
        lines[0].push('\n') + fed(lines.skip(1))
    }
}

/// Lines that are written each with a line feed are read back as they were, as long as none holds
/// a line feed or ends in a carriage return; a carriage return before the line feed is taken off.
pub proof fn law_lines_read_back(before: Seq<char>, lines: Seq<Seq<char>>)
    requires
        forall|i: int|
            0 <= i < lines.len() ==> !(#[trigger] lines[i]).contains('\n') && (lines[i].len() > 0
                ==> lines[i].last() != '\r'),
    ensures
        lines_from(before + fed(lines), before.len() as int) == lines,
    decreases lines.len(),
{
    let s = before + fed(lines);
    let i = before.len() as int;
    if lines.len() == 0 {
        assert(s =~= before);
        assert(lines =~= Seq::empty());
    } else {
        let l = lines[0];
        let rest = lines.skip(1);
        let next = before + l.push('\n');
        assert(s =~= next + fed(rest));
        lemma_char_first(s, '\n', i);
        let p = char_from(s, '\n', i);
        assert(s[i + l.len()] == '\n');
        assert forall|x: int| i <= x < i + l.len() implies #[trigger] s[x] != '\n' by {
            assert(s[x] == l[x - i]);
            assert(!l.contains('\n'));
            assert(l.contains(l[x - i]));
        }
        assert(p == i + l.len());
        assert(s.subrange(i, p) =~= l);
        assert forall|k: int| 0 <= k < rest.len() implies !(#[trigger] rest[k]).contains('\n') && (
        rest[k].len() > 0 ==> rest[k].last() != '\r') by {
            assert(rest[k] == lines[k + 1]);
        }
        law_lines_read_back(next, rest);
        assert(lines =~= seq![l] + rest);
    }
}

} // verus!
