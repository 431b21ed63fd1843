//! The tokenizer of the keyword index.
use crate::text::chars_of;
use vstd::prelude::*;
use vstd::string::*;

verus! {

/// What `str::to_lowercase` makes of a text.
pub uninterp spec fn lower_text(s: Seq<char>) -> Seq<char>;

/// Whether `char::is_alphanumeric` holds of a character.
pub uninterp spec fn alphanumeric(c: char) -> bool;

/// Calls `str::to_lowercase`: a function of the text alone, by the Unicode tables.
#[verifier::external_body]
fn lowered(s: &str) -> (r: String)
    ensures
        r@ == lower_text(s@),
{
    s.to_lowercase()
}

/// Calls `char::is_alphanumeric`: a function of the character alone, by the Unicode
/// tables.
#[verifier::external_body]
fn is_alphanumeric(c: char) -> (r: bool)
    ensures
        r == alphanumeric(c),
{
    c.is_alphanumeric()
}

/// Words too common to be indexed.
pub open spec fn is_stopword(w: Seq<char>) -> bool {
    ||| w == "the"@
    ||| w == "a"@
    ||| w == "an"@
    ||| w == "and"@
    ||| w == "or"@
    ||| w == "but"@
    ||| w == "of"@
    ||| w == "to"@
    ||| w == "in"@
    ||| w == "on"@
    ||| w == "for"@
    ||| w == "is"@
    ||| w == "are"@
    ||| w == "was"@
    ||| w == "were"@
    ||| w == "it"@
    ||| w == "this"@
    ||| w == "that"@
    ||| w == "with"@
    ||| w == "as"@
    ||| w == "at"@
    ||| w == "by"@
    ||| w == "be"@
    ||| w == "from"@
    ||| w == "we"@
    ||| w == "you"@
    ||| w == "they"@
}

/// The first place at or after `from` whose flag is `false`, or the number of flags.
pub open spec fn run_end(flags: Seq<bool>, from: int) -> int
    decreases flags.len() - from,
{
    if from < 0 || from >= flags.len() {
        flags.len() as int
    } else if !flags[from] {
        from
    } else {
        run_end(flags, from + 1)
    }
}

/// A run ends within the text.
pub proof fn lemma_run_end(flags: Seq<bool>, from: int)
    requires
        0 <= from <= flags.len(),
    ensures
        from <= run_end(flags, from) <= flags.len(),
    decreases flags.len() - from,
{
    if from < flags.len() && flags[from] {
        lemma_run_end(flags, from + 1);
    }
}

/// Whether a piece of text is kept: three bytes or more, and no stopword where those are
/// dropped.
pub open spec fn kept(w: Seq<char>, drop: bool) -> bool {
    vstd::utf8::encode_utf8(w).len() >= 3 && !(drop && is_stopword(w))
}

/// The pieces of `s` from `from` on between the characters whose flag is `false`, as
/// far as they are kept.
pub open spec fn pieces(s: Seq<char>, flags: Seq<bool>, from: int, drop: bool) -> Seq<Seq<char>>
    decreases s.len() - from,
    when 0 <= from <= s.len() && flags.len() == s.len()
{
    let end = run_end(flags, from);
    let w = s.subrange(from, end);
    let head = if kept(w, drop) { seq![w] } else { Seq::empty() };
    proof {
        lemma_run_end(flags, from);
    }
    if end >= s.len() {
        head
    } else {
        head + pieces(s, flags, end + 1, drop)
    }
}

/// Which characters are alphanumeric.
pub open spec fn flags_of(s: Seq<char>) -> Seq<bool> {
    Seq::new(s.len(), |i: int| alphanumeric(s[i]))
}

/// The tokens of a text.
pub open spec fn tokens(text: Seq<char>) -> Seq<Seq<char>> {
    pieces(lower_text(text), flags_of(lower_text(text)), 0, true)
}

/// The words of a text, stopwords among them.
pub open spec fn long_words(text: Seq<char>) -> Seq<Seq<char>> {
    pieces(lower_text(text), flags_of(lower_text(text)), 0, false)
}

pub open spec fn text_views(v: Seq<String>) -> Seq<Seq<char>> {
    Seq::new(v.len(), |i: int| v[i]@)
}

fn stopword(s: &String) -> (r: bool)
    ensures
        r == is_stopword(s@),
{
    *s == "the".to_owned() || *s == "a".to_owned() || *s == "an".to_owned() || *s
        == "and".to_owned() || *s == "or".to_owned() || *s == "but".to_owned() || *s
        == "of".to_owned() || *s == "to".to_owned() || *s == "in".to_owned() || *s
        == "on".to_owned() || *s == "for".to_owned() || *s == "is".to_owned() || *s
        == "are".to_owned() || *s == "was".to_owned() || *s == "were".to_owned() || *s
        == "it".to_owned() || *s == "this".to_owned() || *s == "that".to_owned() || *s
        == "with".to_owned() || *s == "as".to_owned() || *s == "at".to_owned() || *s
        == "by".to_owned() || *s == "be".to_owned() || *s == "from".to_owned() || *s
        == "we".to_owned() || *s == "you".to_owned() || *s == "they".to_owned()
}

/// Cuts a text into the pieces that are kept. `flags` says which characters belong to a
/// piece, `drop` whether stopwords are dropped.
pub fn split_tokens(s: &str, flags: &Vec<bool>, drop: bool) -> (r: Vec<String>)
    requires
        flags@.len() == s@.len(),
    ensures
        text_views(r@) == pieces(s@, flags@, 0, drop),
{
    let n: usize = flags.len();
    let mut out: Vec<String> = Vec::new();
    let mut from: usize = 0;
    let ghost want = pieces(s@, flags@, 0, drop);
    proof {
        assert(text_views(out@) =~= Seq::<Seq<char>>::empty());
        assert(Seq::<Seq<char>>::empty() + want =~= want);
    }
    loop
        invariant
            n == flags@.len() == s@.len(),
            from <= n,
            want == pieces(s@, flags@, 0, drop),
            want == text_views(out@) + pieces(s@, flags@, from as int, drop),
        decreases n - from,
    {
        let mut end: usize = from;
        while end < n && flags[end]
            invariant
                from <= end <= n,
                n == flags@.len(),
                run_end(flags@, from as int) == run_end(flags@, end as int),
            decreases n - end,
        {
            end = end + 1;
        }
        let w = s.substring_char(from, end).to_owned();
        let ghost before = out@;
        let ghost word = w@;
        let long = w.as_str().as_bytes().len() >= 3;
        if long && !(drop && stopword(&w)) {
            out.push(w);
            proof {
                assert(text_views(out@) =~= text_views(before) + seq![word]);
            }
        }
        proof {
            let head = if kept(word, drop) { seq![word] } else { Seq::empty() };
            assert(text_views(out@) =~= text_views(before) + head);
            if end >= n {
                assert(want =~= text_views(out@));
            } else {
                let tail = pieces(s@, flags@, end + 1, drop);
                assert(text_views(before) + (head + tail) =~= text_views(out@) + tail);
            }
        }
        if end >= n {
            return out;
        }
        from = end + 1;
    }
}

fn alphanumeric_flags(low: &str) -> (r: Vec<bool>)
    ensures
        r@ == flags_of(low@),
{
    let cs = chars_of(low);
    let mut flags: Vec<bool> = Vec::new();
    let mut i: usize = 0;
    while i < cs.len()
        invariant
            i <= cs@.len(),
            flags@ == Seq::new(i as nat, |k: int| alphanumeric(cs@[k])),
        decreases cs@.len() - i,
    {
        flags.push(is_alphanumeric(cs[i]));
        i = i + 1;
        proof {
            assert(flags@ =~= Seq::new(i as nat, |k: int| alphanumeric(cs@[k])));
        }
    }
    proof {
        assert(flags@ =~= flags_of(low@));
    }
    flags
}

/// Lowercases a text, cuts it at everything that is not alphanumeric, and drops short
/// pieces and stopwords.
pub fn tokenize(text: &str) -> (r: Vec<String>)
    ensures
        text_views(r@) == tokens(text@),
{
    let low = lowered(text);
    let flags = alphanumeric_flags(low.as_str());
    split_tokens(low.as_str(), &flags, true)
}

/// Lowercases a text, cuts it at everything that is not alphanumeric, and drops short
/// pieces.
pub fn split_long_words(text: &str) -> (r: Vec<String>)
    ensures
        text_views(r@) == long_words(text@),
{
    let low = lowered(text);
    let flags = alphanumeric_flags(low.as_str());
    split_tokens(low.as_str(), &flags, false)
}

/// Whether `s[a..b]` is a run of characters of a piece that cannot be made longer.
pub open spec fn is_run(flags: Seq<bool>, from: int, a: int, b: int) -> bool {
    &&& from <= a <= b <= flags.len()
    &&& a == from || !flags[a - 1]
    &&& b == flags.len() || !flags[b]
    &&& forall|i: int| a <= i < b ==> #[trigger] flags[i]
}

/// Whether some piece stands in `s` at `a`, and the next one behind it.
pub open spec fn piece_at(s: Seq<char>, flags: Seq<bool>, from: int, w: Seq<char>, a: int) -> bool {
    is_run(flags, from, a, a + w.len()) && s.subrange(a, a + w.len()) == w
}

proof fn lemma_pieces_at(s: Seq<char>, flags: Seq<bool>, from: int, drop: bool)
    requires
        0 <= from <= s.len(),
        flags.len() == s.len(),
    ensures
        exists|at: Seq<int>| #[trigger] pieces_placed(s, flags, from, drop, at),
    decreases s.len() - from,
{
    lemma_run_end(flags, from);
    let end = run_end(flags, from);
    let w = s.subrange(from, end);
    let all = pieces(s, flags, from, drop);
    lemma_run_flags(flags, from);
    let head = if kept(w, drop) {
        seq![w]
    } else {
        Seq::<Seq<char>>::empty()
    };
    let here = if kept(w, drop) {
        seq![from]
    } else {
        Seq::<int>::empty()
    };
    if end >= s.len() {
        assert(all == head);
        assert forall|a: int, b: int|
            #[trigger] is_run(flags, from, a, b) && kept(s.subrange(a, b), drop) implies here.contains(
            a,
        ) by {
            assert(a == from) by {
                if a > from {
                    assert(flags[a - 1]);
                }
            }
            assert(b == end);
            assert(here[0] == a);
        }
        assert(pieces_placed(s, flags, from, drop, here));
    } else {
        lemma_pieces_at(s, flags, end + 1, drop);
        let rest = pieces(s, flags, end + 1, drop);
        let more = choose|at: Seq<int>| #[trigger] pieces_placed(s, flags, end + 1, drop, at);
        let at = here + more;
        assert(all == head + rest);
        assert forall|i: int| 0 <= i < all.len() implies piece_at(s, flags, from, #[trigger] all[i], at[i])
            && kept(all[i], drop) by {
            if i >= head.len() {
                assert(all[i] == rest[i - head.len()]);
                assert(at[i] == more[i - head.len()]);
                assert(piece_at(s, flags, end + 1, rest[i - head.len()], more[i - head.len()]));
            }
        }
        assert forall|i: int, j: int| 0 <= i < j < at.len() implies #[trigger] at[i] < #[trigger] at[j] by {
            if i < here.len() {
                assert(at[j] == more[j - here.len()]);
                assert(piece_at(s, flags, end + 1, rest[j - here.len()], more[j - here.len()]));
            } else {
                assert(at[i] == more[i - here.len()] && at[j] == more[j - here.len()]);
            }
        }
        assert forall|a: int, b: int|
            #[trigger] is_run(flags, from, a, b) && kept(s.subrange(a, b), drop) implies at.contains(
            a,
        ) by {
            if a <= end {
                if a > from {
                    assert(flags[a - 1]);
                }
                assert(a == from);
                if b > end {
                    assert(flags[end]);
                }
                if b < end {
                    assert(flags[b]);
                }
                assert(b == end);
                assert(at[0] == a);
            } else {
                assert(is_run(flags, end + 1, a, b));
                assert(more.contains(a));
                let i = choose|i: int| 0 <= i < more.len() && more[i] == a;
                assert(at[here.len() + i] == a);
            }
        }
        assert(pieces_placed(s, flags, from, drop, at));
    }
}

proof fn lemma_run_flags(flags: Seq<bool>, from: int)
    requires
        0 <= from <= flags.len(),
    ensures
        forall|i: int| from <= i < run_end(flags, from) ==> #[trigger] flags[i],
        from <= run_end(flags, from) <= flags.len(),
        run_end(flags, from) < flags.len() ==> !flags[run_end(flags, from)],
    decreases flags.len() - from,
{
    if from < flags.len() && flags[from] {
        lemma_run_flags(flags, from + 1);
    }
}

/// The pieces of a text stand in it at `at`: each a run of piece characters that cannot be made
/// longer, in the order of the text, and every such run that is kept is among them.
pub open spec fn pieces_placed(
    s: Seq<char>,
    flags: Seq<bool>,
    from: int,
    drop: bool,
    at: Seq<int>,
) -> bool {
    let all = pieces(s, flags, from, drop);
    &&& at.len() == all.len()
    &&& forall|i: int|
        0 <= i < all.len() ==> piece_at(s, flags, from, #[trigger] all[i], at[i]) && kept(
            all[i],
            drop,
        )
    &&& forall|i: int, j: int| 0 <= i < j < at.len() ==> #[trigger] at[i] < #[trigger] at[j]
    &&& forall|a: int, b: int|
        #[trigger] is_run(flags, from, a, b) && kept(s.subrange(a, b), drop) ==> at.contains(a)
}

/// The tokens of a text are the longest runs of alphanumeric characters of its lower case that
/// have three bytes or more and are no stopwords, in the order of the text, and none is missing.
pub proof fn law_tokens_are_the_long_runs(text: Seq<char>)
    ensures
        ({
            let s = lower_text(text);
            exists|at: Seq<int>|
                #![trigger at.len()]
                at.len() == tokens(text).len() && (forall|i: int|
                    0 <= i < tokens(text).len() ==> {
                        let w = #[trigger] tokens(text)[i];
                        let (a, b) = (at[i], at[i] + w.len());
                        &&& 0 <= a < b <= s.len() && s.subrange(a, b) == w
                        &&& forall|x: int| a <= x < b ==> alphanumeric(#[trigger] s[x])
                        &&& a == 0 || !alphanumeric(s[a - 1])
                        &&& b == s.len() || !alphanumeric(s[b])
                        &&& vstd::utf8::encode_utf8(w).len() >= 3
                        &&& !is_stopword(w)
                    }) && (forall|i: int, j: int|
                    0 <= i < j < at.len() ==> #[trigger] at[i] < #[trigger] at[j])
        }),
        forall|a: int, b: int|
            #![trigger lower_text(text).subrange(a, b)]
            0 <= a <= b <= lower_text(text).len() && (forall|x: int|
                a <= x < b ==> alphanumeric(#[trigger] lower_text(text)[x])) && (a == 0
                || !alphanumeric(lower_text(text)[a - 1])) && (b == lower_text(text).len()
                || !alphanumeric(lower_text(text)[b])) && vstd::utf8::encode_utf8(
                lower_text(text).subrange(a, b),
            ).len() >= 3 && !is_stopword(lower_text(text).subrange(a, b)) ==> tokens(
                text,
            ).contains(lower_text(text).subrange(a, b)),
{
    let s = lower_text(text);
    let flags = flags_of(s);
    lemma_pieces_at(s, flags, 0, true);
    let at = choose|at: Seq<int>| #[trigger] pieces_placed(s, flags, 0, true, at);
    let all = tokens(text);
    assert forall|i: int| 0 <= i < all.len() implies {
        let w = #[trigger] all[i];
        let (a, b) = (at[i], at[i] + w.len());
        &&& 0 <= a < b <= s.len() && s.subrange(a, b) == w
        &&& forall|x: int| a <= x < b ==> alphanumeric(#[trigger] s[x])
        &&& a == 0 || !alphanumeric(s[a - 1])
        &&& b == s.len() || !alphanumeric(s[b])
        &&& vstd::utf8::encode_utf8(w).len() >= 3
        &&& !is_stopword(w)
    } by {
        let w = all[i];
        assert(piece_at(s, flags, 0, w, at[i]));
        assert forall|x: int| at[i] <= x < at[i] + w.len() implies alphanumeric(#[trigger] s[x]) by {
            assert(flags[x]);
        }
        if w.len() == 0 {
            assert(w =~= Seq::<char>::empty());
            assert(vstd::utf8::encode_utf8(Seq::<char>::empty()).len() == 0);
        }
    }
    assert forall|a: int, b: int|
        #![trigger s.subrange(a, b)]
        0 <= a <= b <= s.len() && (forall|x: int| a <= x < b ==> alphanumeric(#[trigger] s[x])) && (
        a == 0 || !alphanumeric(s[a - 1])) && (b == s.len() || !alphanumeric(s[b]))
            && vstd::utf8::encode_utf8(s.subrange(a, b)).len() >= 3 && !is_stopword(
            s.subrange(a, b),
        ) implies all.contains(s.subrange(a, b)) by {
        assert(is_run(flags, 0, a, b));
        assert(at.contains(a));
        let i = choose|i: int| 0 <= i < at.len() && at[i] == a;
        let w = all[i];
        assert(piece_at(s, flags, 0, w, at[i]));
        let c = a + w.len();
        if c < b {
            assert(flags[c]);
        }
        if b < c {
            assert(flags[b]);
        }
        assert(c == b);
        assert(all[i] == s.subrange(a, b));
    }
}

proof fn lemma_dropped(s: Seq<char>, flags: Seq<bool>, from: int)
    requires
        0 <= from <= s.len(),
        flags.len() == s.len(),
    ensures
        pieces(s, flags, from, true) == pieces(s, flags, from, false).filter(
            |w: Seq<char>| !is_stopword(w),
        ),
    decreases s.len() - from,
{
    let p = |w: Seq<char>| !is_stopword(w);
    lemma_run_end(flags, from);
    let end = run_end(flags, from);
    let w = s.subrange(from, end);
    let a = if kept(w, true) {
        seq![w]
    } else {
        Seq::<Seq<char>>::empty()
    };
    let b = if kept(w, false) {
        seq![w]
    } else {
        Seq::<Seq<char>>::empty()
    };
    reveal(Seq::filter);
    assert(b.filter(p) =~= a) by {
        if kept(w, false) {
            assert(b.drop_last() =~= Seq::<Seq<char>>::empty());
            assert(b.last() == w);
            assert(b.drop_last().filter(p) =~= Seq::<Seq<char>>::empty());
        }
    }
    if end < s.len() {
        lemma_dropped(s, flags, end + 1);
        Seq::filter_distributes_over_add(b, pieces(s, flags, end + 1, false), p);
    }
}

/// The words of a text without the stopwords are its tokens.
pub proof fn law_tokens_are_words_but_stopwords(text: Seq<char>)
    ensures
        tokens(text) == long_words(text).filter(|w: Seq<char>| !is_stopword(w)),
{
    lemma_dropped(lower_text(text), flags_of(lower_text(text)), 0);
}

} // verus!
