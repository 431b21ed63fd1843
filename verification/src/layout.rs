//! Laying out text in columns, and picking fields out of status files.
use crate::text;
use crate::text::{chars_of, parse_unsigned};
use vstd::prelude::*;
use vstd::string::*;

verus! {

/// `n` spaces.
pub open spec fn spaces(n: int) -> Seq<char> {
    Seq::new(
        if n < 0 {
            0
        } else {
            n as nat
        },
        |i: int| ' ',
    )
}

/// `s` at the right of a column of `width` characters.
pub open spec fn at_right(s: Seq<char>, width: nat) -> Seq<char> {
    spaces(width - s.len()) + s
}

/// `s` at the left of a column of `width` characters.
pub open spec fn at_left(s: Seq<char>, width: nat) -> Seq<char> {
    s + spaces(width - s.len())
}

fn push_spaces(out: &mut String, have: usize, width: usize)
    ensures
        final(out)@ == old(out)@ + spaces(width - have),
{
    let mut i: usize = have;
    proof {
        reveal_strlit(" ");
        assert(spaces(0) =~= Seq::<char>::empty());
        assert(out@ + spaces(0) =~= out@);
        assert(spaces(width - have) =~= spaces(0) || have < width);
    }
    while i < width
        invariant
            have <= i,
            i <= width || i == have,
            out@ == old(out)@ + spaces(i - have),
        decreases width - i,
    {
        proof {
            reveal_strlit(" ");
        }
        out.append(" ");
        i = i + 1;
        proof {
            assert(" "@ =~= seq![' ']);
            assert(out@ =~= old(out)@ + spaces(i - have));
        }
    }
}

/// Appends `s` at the right of a column.
pub fn push_right(out: &mut String, s: &str, width: usize)
    ensures
        final(out)@ == old(out)@ + at_right(s@, width as nat),
{
    let n: usize = s.unicode_len();
    push_spaces(out, n, width);
    out.append(s);
    proof {
        assert(out@ =~= old(out)@ + at_right(s@, width as nat));
    }
}

/// Appends `s` at the left of a column.
pub fn push_left(out: &mut String, s: &str, width: usize)
    ensures
        final(out)@ == old(out)@ + at_left(s@, width as nat),
{
    let n: usize = s.unicode_len();
    out.append(s);
    push_spaces(out, n, width);
    proof {
        assert(out@ =~= old(out)@ + at_left(s@, width as nat));
    }
}

/// Where the line that begins at `from` ends.
pub open spec fn line_end(t: Seq<char>, from: int) -> int
    decreases t.len() - from,
{
    if from < 0 || from >= t.len() {
        t.len() as int
    } else if t[from] == '\n' {
        from
    } else {
        line_end(t, from + 1)
    }
}

/// A line ends within the text.
pub proof fn lemma_line_end(t: Seq<char>, from: int)
    requires
        0 <= from <= t.len(),
    ensures
        from <= line_end(t, from) <= t.len(),
    decreases t.len() - from,
{
    if from < t.len() && t[from] != '\n' {
        lemma_line_end(t, from + 1);
    }
}

/// The rest of the first line from `from` on that begins with `head`.
pub open spec fn field_from(t: Seq<char>, from: int, head: Seq<char>) -> Option<Seq<char>>
    decreases t.len() - from,
    when 0 <= from <= t.len()
{
    let end = line_end(t, from);
    let line = t.subrange(from, end);
    proof {
        lemma_line_end(t, from);
    }
    if head.is_prefix_of(line) {
        Some(line.skip(head.len() as int))
    } else if end < t.len() {
        field_from(t, end + 1, head)
    } else {
        None
    }
}

/// The characters up to the first white space.
pub open spec fn up_to_white(s: Seq<char>) -> Seq<char>
    decreases s.len(),
{
    if s.len() == 0 || text::is_white(s[0]) {
        Seq::empty()
    } else {
        seq![s[0]] + up_to_white(s.skip(1))
    }
}

/// The first word of `s`, empty where there is none.
pub open spec fn first_word(s: Seq<char>) -> Seq<char> {
    up_to_white(text::trim_front(s))
}

/// The number that the first line beginning with `head` gives as its first word.
pub open spec fn status_number(t: Seq<char>, head: Seq<char>) -> Option<nat> {
    match field_from(t, 0, head) {
        None => None,
        Some(rest) => text::unsigned_of(first_word(rest), u64::MAX as nat),
    }
}

fn word_of(s: &Vec<char>, from: usize, end: usize) -> (r: Vec<char>)
    requires
        from <= end <= s@.len(),
    ensures
        r@ == first_word(s@.subrange(from as int, end as int)),
{
    let ghost all = s@.subrange(from as int, end as int);
    let mut i: usize = from;
    while i < end && text::white(s[i])
        invariant
            from <= i <= end <= s@.len(),
            text::trim_front(all) == text::trim_front(s@.subrange(i as int, end as int)),
        decreases end - i,
    {
        proof {
            let t = s@.subrange(i as int, end as int);
            assert(t.skip(1) =~= s@.subrange(i + 1, end as int));
            assert(t[0] == s@[i as int]);
        }
        i = i + 1;
    }
    let mut out: Vec<char> = Vec::new();
    proof {
        let t = s@.subrange(i as int, end as int);
        if i < end {
            assert(t[0] == s@[i as int]);
        }
        assert(text::trim_front(t) == t);
        assert(Seq::<char>::empty() + up_to_white(t) =~= up_to_white(t));
    }
    let ghost w = first_word(all);
    while i < end && !text::white(s[i])
        invariant
            from <= i <= end <= s@.len(),
            w == out@ + up_to_white(s@.subrange(i as int, end as int)),
        decreases end - i,
    {
        proof {
            let t = s@.subrange(i as int, end as int);
            assert(t.skip(1) =~= s@.subrange(i + 1, end as int));
            assert(t[0] == s@[i as int]);
            assert(out@ + up_to_white(t) =~= out@.push(s@[i as int]) + up_to_white(t.skip(1)));
        }
        out.push(s[i]);
        i = i + 1;
    }
    proof {
        let t = s@.subrange(i as int, end as int);
        if i < end {
            assert(t[0] == s@[i as int]);
        }
        assert(up_to_white(t) =~= Seq::<char>::empty());
        assert(out@ + up_to_white(t) =~= out@);
    }
    out
}

/// Reads a number from a status file of lines such as `VmRSS:   1024 kB`.
pub fn status_field(status: &str, head: &str) -> (r: Option<u64>)
    ensures
        match r {
            Some(v) => status_number(status@, head@) == Some(v as nat),
            None => status_number(status@, head@) is None,
        },
{
    let t = chars_of(status);
    let h = chars_of(head);
    let mut from: usize = 0;
    loop
        invariant
            from <= t@.len(),
            t@ == status@,
            h@ == head@,
            field_from(t@, 0, h@) == field_from(t@, from as int, h@),
        decreases t@.len() - from,
    {
        let mut end: usize = from;
        while end < t.len() && t[end] != '\n'
            invariant
                from <= end <= t@.len(),
                line_end(t@, from as int) == line_end(t@, end as int),
            decreases t@.len() - end,
        {
            end = end + 1;
        }
        let ghost line = t@.subrange(from as int, end as int);
        let mut same = h.len() <= end - from;
        let mut i: usize = 0;
        while same && i < h.len()
            invariant
                i <= h@.len(),
                from <= end <= t@.len(),
                line == t@.subrange(from as int, end as int),
                same ==> h@.len() <= line.len(),
                same ==> forall|k: int| 0 <= k < i ==> h@[k] == line[k],
                !same ==> !h@.is_prefix_of(line),
            decreases h@.len() - i, (if same { 1int } else { 0int }),
        {
            if t[from + i] != h[i] {
                proof {
                    assert(line[i as int] == t@[from + i]);
                    if h@.is_prefix_of(line) {
                        assert(line.subrange(0, h@.len() as int)[i as int] == line[i as int]);
                    }
                }
                same = false;
            } else {
                i = i + 1;
            }
        }
        if same {
            proof {
                assert(h@ =~= line.subrange(0, h@.len() as int));
                assert(line.skip(h@.len() as int) =~= t@.subrange(from + h@.len(), end as int));
            }
            let w = word_of(&t, from + h.len(), end);
            return parse_unsigned(&w, u64::MAX);
        }
        if end >= t.len() {
            return None;
        }
        from = end + 1;
    }
}

/// A field in kB, as MB.
pub fn field_mb(status: &str, head: &str) -> (r: Option<u64>)
    ensures
        match r {
            Some(v) => status_number(status@, head@) matches Some(n) && v == n / 1024,
            None => status_number(status@, head@) is None,
        },
{
    match status_field(status, head) {
        Some(kb) => Some(kb / 1024),
        None => None,
    }
}

/// A column is as wide as asked, or as its text where that is wider: the text stands at its side,
/// and the rest is blank.
pub proof fn law_columns_keep_their_text(s: Seq<char>, width: nat)
    ensures
        s.is_suffix_of(at_right(s, width)),
        s.is_prefix_of(at_left(s, width)),
        at_right(s, width).len() == (if s.len() < width {
            width
        } else {
            s.len()
        }),
        at_left(s, width).len() == at_right(s, width).len(),
        forall|i: int|
            0 <= i < at_right(s, width).len() - s.len() ==> #[trigger] at_right(s, width)[i] == ' ',
        forall|i: int|
            s.len() <= i < at_left(s, width).len() ==> #[trigger] at_left(s, width)[i] == ' ',
{
    let r = at_right(s, width);
    let l = at_left(s, width);
    assert(s =~= r.subrange((r.len() - s.len()) as int, r.len() as int));
    assert(s =~= l.subrange(0, s.len() as int));
}

proof fn lemma_line_end_is(t: Seq<char>, from: int, end: int)
    requires
        0 <= from <= end <= t.len(),
        end < t.len() ==> t[end] == '\n',
        forall|i: int| from <= i < end ==> #[trigger] t[i] != '\n',
    ensures
        line_end(t, from) == end,
    decreases end - from,
{
    if from < end {
        lemma_line_end_is(t, from + 1, end);
    }
}

/// The field of a line is what follows its head; a line that begins otherwise is passed over.
pub proof fn law_fields_follow_their_head(
    t: Seq<char>,
    from: int,
    line: Seq<char>,
    head: Seq<char>,
)
    requires
        0 <= from,
        from + line.len() <= t.len(),
        t.subrange(from, from + line.len()) == line,
        from + line.len() < t.len() ==> t[from + line.len()] == '\n',
        forall|i: int| 0 <= i < line.len() ==> #[trigger] line[i] != '\n',
    ensures
        forall|rest: Seq<char>|
            line == #[trigger] (head + rest) ==> field_from(t, from, head) == Some(rest),
        !head.is_prefix_of(line) && from + line.len() < t.len() ==> field_from(t, from, head)
            == field_from(t, from + line.len() + 1, head),
        !head.is_prefix_of(line) && from + line.len() == t.len() ==> field_from(t, from, head)
            is None,
{
    let end = from + line.len();
    assert forall|i: int| from <= i < end implies #[trigger] t[i] != '\n' by {
        assert(line[i - from] == t[i]);
    }
    lemma_line_end_is(t, from, end as int);
    assert forall|rest: Seq<char>| line == #[trigger] (head + rest) implies field_from(
        t,
        from,
        head,
    ) == Some(rest) by {
        assert(line.subrange(0, head.len() as int) =~= head);
        assert(line.skip(head.len() as int) =~= rest);
    }
}

/// The first word stands behind the white space in front, and ends where white space comes again.
pub proof fn law_first_word_is_found(gap: Seq<char>, word: Seq<char>, rest: Seq<char>)
    requires
        forall|i: int| 0 <= i < gap.len() ==> text::is_white(#[trigger] gap[i]),
        forall|i: int| 0 <= i < word.len() ==> !text::is_white(#[trigger] word[i]),
        word.len() > 0,
        rest.len() > 0 ==> text::is_white(rest[0]),
    ensures
        first_word(gap + word + rest) == word,
    decreases gap.len(),
{
    let s = gap + word + rest;
    if gap.len() > 0 {
        assert forall|i: int| 0 <= i < gap.skip(1).len() implies text::is_white(
            #[trigger] gap.skip(1)[i],
        ) by {
            assert(gap.skip(1)[i] == gap[i + 1]);
        }
        law_first_word_is_found(gap.skip(1), word, rest);
        assert(s.skip(1) =~= gap.skip(1) + word + rest);
        assert(s[0] == gap[0]);
    } else {
        assert(s =~= word + rest);
        assert(s[0] == word[0]);
        lemma_up_to_white(word, rest);
    }
}

proof fn lemma_up_to_white(word: Seq<char>, rest: Seq<char>)
    requires
        forall|i: int| 0 <= i < word.len() ==> !text::is_white(#[trigger] word[i]),
        rest.len() > 0 ==> text::is_white(rest[0]),
    ensures
        up_to_white(word + rest) == word,
    decreases word.len(),
{
    let s = word + rest;
    if word.len() > 0 {
        assert forall|i: int| 0 <= i < word.skip(1).len() implies !text::is_white(
            #[trigger] word.skip(1)[i],
        ) by {
            assert(word.skip(1)[i] == word[i + 1]);
        }
        lemma_up_to_white(word.skip(1), rest);
        assert(s.skip(1) =~= word.skip(1) + rest);
        assert(s[0] == word[0]);
        assert(word =~= seq![word[0]] + word.skip(1));
    } else {
        assert(s =~= rest);
    }
}

} // verus!
