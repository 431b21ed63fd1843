//! Decimal numbers and whitespace, as they appear in wire headers and keys.
use vstd::prelude::*;
use vstd::utf8::*;

verus! {

/// The decimal digits of `n`, most significant first, as ASCII bytes.
pub open spec fn dec(n: nat) -> Seq<u8>
    decreases n,
{
    if n < 10 {
        seq![(48 + n) as u8]
    } else {
        dec(n / 10).push((48 + n % 10) as u8)
    }
}

/// The decimal form of a signed number: a minus sign before the magnitude.
pub open spec fn dec_signed(n: int) -> Seq<u8> {
    if n < 0 {
        seq![45u8] + dec((-n) as nat)
    } else {
        dec(n as nat)
    }
}

/// Characters with the Unicode property White_Space.
pub open spec fn is_white(c: char) -> bool {
    let u = c as u32;
    ||| 0x9 <= u <= 0xD
    ||| u == 0x20
    ||| u == 0x85
    ||| u == 0xA0
    ||| u == 0x1680
    ||| 0x2000 <= u <= 0x200A
    ||| u == 0x2028
    ||| u == 0x2029
    ||| u == 0x202F
    ||| u == 0x205F
    ||| u == 0x3000
}

pub open spec fn trim_front(s: Seq<char>) -> Seq<char>
    decreases s.len(),
{
    if s.len() > 0 && is_white(s[0]) {
        trim_front(s.skip(1))
    } else {
        s
    }
}

pub open spec fn trim_back(s: Seq<char>) -> Seq<char>
    decreases s.len(),
{
    if s.len() > 0 && is_white(s.last()) {
        trim_back(s.drop_last())
    } else {
        s
    }
}

/// `s` without the white space at its two ends.
pub open spec fn trimmed(s: Seq<char>) -> Seq<char> {
    trim_back(trim_front(s))
}

pub open spec fn is_digit(c: char) -> bool {
    48 <= c as u32 <= 57
}

pub open spec fn all_digits(s: Seq<char>) -> bool {
    forall|i: int| 0 <= i < s.len() ==> is_digit(#[trigger] s[i])
}

/// The number that a run of decimal digits stands for.
pub open spec fn digits_value(s: Seq<char>) -> nat
    decreases s.len(),
{
    if s.len() == 0 {
        0
    } else {
        (10 * digits_value(s.drop_last()) + (s.last() as u32 - 48)) as nat
    }
}

/// An unsigned number no greater than `max`: an optional plus sign and one digit or more.
pub open spec fn unsigned_of(s: Seq<char>, max: nat) -> Option<nat> {
    let t = if s.len() > 0 && s[0] == '+' { s.skip(1) } else { s };
    if t.len() > 0 && all_digits(t) && digits_value(t) <= max {
        Some(digits_value(t))
    } else {
        None
    }
}

/// A number of an `i64`: an optional sign and one digit or more.
pub open spec fn signed_of(s: Seq<char>) -> Option<int> {
    let neg = s.len() > 0 && s[0] == '-';
    let t = if s.len() > 0 && (s[0] == '+' || s[0] == '-') { s.skip(1) } else { s };
    if t.len() > 0 && all_digits(t) {
        let v = if neg { -(digits_value(t) as int) } else { digits_value(t) as int };
        if i64::MIN <= v <= i64::MAX { Some(v) } else { None }
    } else {
        None
    }
}

/// The unsigned number written in `bytes`, white space around it allowed.
pub open spec fn header_number(bytes: Seq<u8>, max: nat) -> Option<nat> {
    if valid_utf8(bytes) {
        unsigned_of(trimmed(decode_utf8(bytes)), max)
    } else {
        None
    }
}

/// The signed number written in `bytes`, white space around it allowed.
pub open spec fn header_signed(bytes: Seq<u8>) -> Option<int> {
    if valid_utf8(bytes) {
        signed_of(trimmed(decode_utf8(bytes)))
    } else {
        None
    }
}

/// Calls `String::from_utf8`: the text exists exactly when the bytes are valid
/// UTF-8, and its characters are the decoded ones.
#[verifier::external_body]
pub(crate) fn utf8_text(bytes: Vec<u8>) -> (r: Option<String>)
    ensures
        r is Some <==> valid_utf8(bytes@),
        r matches Some(s) ==> s@ == decode_utf8(bytes@),
{
    String::from_utf8(bytes).ok()
}

/// The characters of `s` in order.
pub fn chars_of(s: &str) -> (r: Vec<char>)
    ensures
        r@ == s@,
{
    let mut out: Vec<char> = Vec::new();
    for c in it: s.chars()
        invariant
            it.seq() == s@,
            out@ == s@.take(it.index() as int),
    {
        out.push(c);
    }
    proof {
        assert(s@.take(s@.len() as int) =~= s@);
    }
    out
}


pub fn white(c: char) -> (r: bool)
    ensures
        r == is_white(c),
{
    let u: u32 = c as u32;
    (0x9 <= u && u <= 0xD) || u == 0x20 || u == 0x85 || u == 0xA0 || u == 0x1680 || (0x2000 <= u
        && u <= 0x200A) || u == 0x2028 || u == 0x2029 || u == 0x202F || u == 0x205F || u == 0x3000
}

/// Appends the decimal digits of `n`.
pub fn push_dec(out: &mut Vec<u8>, n: u64)
    ensures
        final(out)@ == old(out)@ + dec(n as nat),
    decreases n,
{
    if n < 10 {
        out.push(48u8 + n as u8);
    } else {
        push_dec(out, n / 10);
        out.push(48u8 + (n % 10) as u8);
    }
    proof {
        assert(out@ =~= old(out)@ + dec(n as nat));
    }
}

/// Appends the decimal form of `n`, with a minus sign where it is negative.
pub fn push_dec_signed(out: &mut Vec<u8>, n: i64)
    ensures
        final(out)@ == old(out)@ + dec_signed(n as int),
{
    if n < 0 {
        out.push(45);
        let m: u64 = if n == i64::MIN { 0x8000_0000_0000_0000 } else { (-n) as u64 };
        push_dec(out, m);
    } else {
        push_dec(out, n as u64);
    }
    proof {
        assert(out@ =~= old(out)@ + dec_signed(n as int));
    }
}

proof fn lemma_trim_back_take(s: Seq<char>, hi: int)
    requires
        0 <= hi <= s.len(),
        forall|i: int| hi <= i < s.len() ==> is_white(#[trigger] s[i]),
        hi == 0 || !is_white(s[hi - 1]),
    ensures
        trim_back(s) == s.take(hi),
    decreases s.len(),
{
    if hi == s.len() {
        assert(s.take(hi) =~= s);
    } else {
        assert(is_white(s.last()));
        lemma_trim_back_take(s.drop_last(), hi);
        assert(s.drop_last().take(hi) =~= s.take(hi));
    }
}

proof fn lemma_trim_front_skip(s: Seq<char>, lo: int)
    requires
        0 <= lo <= s.len(),
        forall|i: int| 0 <= i < lo ==> is_white(#[trigger] s[i]),
        lo == s.len() || !is_white(s[lo]),
    ensures
        trim_front(s) == s.skip(lo),
    decreases s.len(),
{
    if lo == 0 {
        assert(s.skip(0) =~= s);
    } else {
        assert(is_white(s[0]));
        lemma_trim_front_skip(s.skip(1), lo - 1);
        assert(s.skip(1).skip(lo - 1) =~= s.skip(lo));
    }
}

/// Where the characters between the white space at the two ends begin and end.
pub fn trim_bounds(s: &Vec<char>) -> (r: (usize, usize))
    ensures
        r.0 <= r.1 <= s@.len(),
        s@.subrange(r.0 as int, r.1 as int) == trimmed(s@),
{
    let mut lo: usize = 0;
    while lo < s.len() && white(s[lo])
        invariant
            lo <= s.len(),
            forall|i: int| 0 <= i < lo ==> is_white(#[trigger] s@[i]),
        decreases s.len() - lo,
    {
        lo = lo + 1;
    }
    let mut hi: usize = s.len();
    while hi > lo && white(s[hi - 1])
        invariant
            lo <= hi <= s.len(),
            forall|i: int| hi <= i < s.len() ==> is_white(#[trigger] s@[i]),
        decreases hi,
    {
        hi = hi - 1;
    }
    proof {
        lemma_trim_front_skip(s@, lo as int);
        let t = s@.skip(lo as int);
        assert forall|k: int| (hi - lo) <= k < t.len() implies is_white(#[trigger] t[k]) by {
            assert(t[k] == s@[k + lo]);
        }
        lemma_trim_back_take(t, hi - lo);
        assert(s@.subrange(lo as int, hi as int) =~= t.take(hi - lo));
    }
    (lo, hi)
}

/// The characters of `s` without the white space at its two ends.
pub fn trim(s: &Vec<char>) -> (r: Vec<char>)
    ensures
        r@ == trimmed(s@),
{
    let (lo, hi) = trim_bounds(s);
    let mut out: Vec<char> = Vec::new();
    let mut i: usize = lo;
    while i < hi
        invariant
            lo <= i <= hi <= s.len(),
            out@ == s@.subrange(lo as int, i as int),
        decreases hi - i,
    {
        out.push(s[i]);
        i = i + 1;
        proof {
            assert(out@ =~= s@.subrange(lo as int, i as int));
        }
    }
    out
}

proof fn lemma_digits_value_grows(s: Seq<char>, i: int)
    requires
        0 <= i <= s.len(),
        all_digits(s),
    ensures
        digits_value(s.take(i)) <= digits_value(s),
    decreases s.len(),
{
    if i < s.len() {
        assert(all_digits(s.drop_last())) by {
            assert forall|k: int| 0 <= k < s.len() - 1 implies is_digit(
                #[trigger] s.drop_last()[k],
            ) by {
                assert(is_digit(s[k]));
            }
        }
        lemma_digits_value_grows(s.drop_last(), i);
        assert(s.drop_last().take(i) =~= s.take(i));
        assert(is_digit(s[s.len() - 1]));
    } else {
        assert(s.take(i) =~= s);
    }
}

/// The value of the digits `s[from..]`, unless there is none, something else
/// stands among them, or the value exceeds `max`.
fn digits_number(s: &Vec<char>, from: usize, max: u64) -> (r: Option<u64>)
    requires
        from <= s.len(),
    ensures
        ({
            let t = s@.skip(from as int);
            match r {
                Some(v) => t.len() > 0 && all_digits(t) && digits_value(t) == v && v <= max,
                None => !(t.len() > 0 && all_digits(t) && digits_value(t) <= max),
            }
        }),
{
    let ghost t = s@.skip(from as int);
    if from == s.len() {
        return None;
    }
    let mut v: u64 = 0;
    let mut i: usize = from;
    while i < s.len()
        invariant
            from <= i <= s.len(),
            t == s@.skip(from as int),
            all_digits(t.take(i - from)),
            v == digits_value(t.take(i - from)),
            v <= max,
        decreases s.len() - i,
    {
        let u: u32 = s[i] as u32;
        assert(t[i - from] == s@[i as int]);
        if u < 48 || u > 57 {
            assert(!is_digit(t[i - from]));
            return None;
        }
        let d: u64 = (u - 48) as u64;
        let ghost next = t.take(i - from + 1);
        proof {
            assert(next.drop_last() =~= t.take(i - from));
            assert(next.last() == s@[i as int]);
        }
        if v > (u64::MAX - d) / 10 || v * 10 + d > max {
            proof {
                assert(digits_value(next) == 10 * v + d);
                if all_digits(t) {
                    lemma_digits_value_grows(t, i - from + 1);
                }
            }
            return None;
        }
        v = v * 10 + d;
        proof {
            assert forall|k: int| 0 <= k < next.len() implies is_digit(#[trigger] next[k]) by {
                if k < i - from {
                    assert(is_digit(t.take(i - from)[k]));
                }
            }
        }
        i = i + 1;
    }
    proof {
        assert(t.take(i - from) =~= t);
    }
    Some(v)
}

/// Reads an unsigned number no greater than `max`.
pub fn parse_unsigned(s: &Vec<char>, max: u64) -> (r: Option<u64>)
    ensures
        match r {
            Some(v) => unsigned_of(s@, max as nat) == Some(v as nat),
            None => unsigned_of(s@, max as nat) is None,
        },
{
    let from: usize = if s.len() > 0 && s[0] == '+' { 1 } else { 0 };
    proof {
        assert(s@.skip(0) =~= s@);
    }
    digits_number(s, from, max)
}

/// Reads a number of an `i64`.
pub fn parse_signed(s: &Vec<char>) -> (r: Option<i64>)
    ensures
        match r {
            Some(v) => signed_of(s@) == Some(v as int),
            None => signed_of(s@) is None,
        },
{
    let neg = s.len() > 0 && s[0] == '-';
    let from: usize = if s.len() > 0 && (s[0] == '+' || s[0] == '-') { 1 } else { 0 };
    proof {
        assert(s@.skip(0) =~= s@);
    }
    let max: u64 = if neg { 0x8000_0000_0000_0000 } else { 0x7fff_ffff_ffff_ffff };
    match digits_number(s, from, max) {
        None => None,
        Some(m) => {
            if !neg {
                Some(m as i64)
            } else if m == 0x8000_0000_0000_0000 {
                Some(i64::MIN)
            } else {
                Some(-(m as i64))
            }
        },
    }
}

/// Reads the unsigned number of a wire header.
pub fn parse_header(bytes: Vec<u8>, max: u64) -> (r: Option<u64>)
    ensures
        match r {
            Some(v) => header_number(bytes@, max as nat) == Some(v as nat),
            None => header_number(bytes@, max as nat) is None,
        },
{
    match utf8_text(bytes) {
        None => None,
        Some(t) => parse_unsigned(&trim(&chars_of(t.as_str())), max),
    }
}

/// Reads the signed number of a wire header.
pub fn parse_header_signed(bytes: Vec<u8>) -> (r: Option<i64>)
    ensures
        match r {
            Some(v) => header_signed(bytes@) == Some(v as int),
            None => header_signed(bytes@) is None,
        },
{
    match utf8_text(bytes) {
        None => None,
        Some(t) => parse_signed(&trim(&chars_of(t.as_str()))),
    }
}

/// The digits of a number as characters.
pub open spec fn dec_text(n: nat) -> Seq<char>
    decreases n,
{
    if n < 10 {
        seq![(48 + n) as char]
    } else {
        dec_text(n / 10).push((48 + n % 10) as char)
    }
}

/// The digits of a number as text are digits, and have its value.
pub proof fn lemma_dec_text_digits(n: nat)
    ensures
        dec_text(n).len() > 0,
        all_digits(dec_text(n)),
        digits_value(dec_text(n)) == n,
    decreases n,
{
    let s = dec_text(n);
    if n < 10 {
        assert(s.drop_last() =~= Seq::<char>::empty());
        assert(digits_value(s.drop_last()) == 0);
    } else {
        lemma_dec_text_digits(n / 10);
        assert(s.drop_last() =~= dec_text(n / 10));
        assert forall|k: int| 0 <= k < s.len() implies is_digit(#[trigger] s[k]) by {
            if k < s.len() - 1 {
                assert(is_digit(dec_text(n / 10)[k]));
            }
        }
    }
}

proof fn lemma_dec_is_dec_text(n: nat)
    ensures
        is_ascii_chars(dec_text(n)),
        dec(n).len() == dec_text(n).len(),
        forall|i: int| 0 <= i < dec(n).len() ==> #[trigger] dec(n)[i] == dec_text(n)[i] as u8,
    decreases n,
{
    if n >= 10 {
        lemma_dec_is_dec_text(n / 10);
    }
}

/// Decimal digits decode to the same digits as characters.
pub proof fn lemma_dec_decodes(n: nat)
    ensures
        valid_utf8(dec(n)),
        decode_utf8(dec(n)) == dec_text(n),
        encode_utf8(dec_text(n)) == dec(n),
{
    let t = dec_text(n);
    lemma_dec_is_dec_text(n);
    is_ascii_chars_encode_utf8(t);
    assert(encode_utf8(t) =~= dec(n));
    encode_utf8_valid_utf8(t);
    encode_utf8_decode_utf8(t);
}

/// The decimal digits of `n` as text.
pub fn dec_string(n: u64) -> (r: String)
    ensures
        r@ == dec_text(n as nat),
{
    let mut d: Vec<u8> = Vec::new();
    push_dec(&mut d, n);
    proof {
        assert(d@ =~= dec(n as nat));
        lemma_dec_decodes(n as nat);
    }
    match utf8_text(d) {
        Some(s) => s,
        None => String::new(),
    }
}

/// A signed decimal number is ASCII text.
pub proof fn lemma_dec_signed_valid(n: int)
    ensures
        valid_utf8(dec_signed(n)),
        forall|i: int|
            0 <= i < dec_signed(n).len() ==> #[trigger] dec_signed(n)[i] == 45 || 48
                <= dec_signed(n)[i] <= 57,
        dec_signed(n).len() > 0,
{
    let m = if n < 0 { (-n) as nat } else { n as nat };
    lemma_dec_decodes(m);
    lemma_dec_is_dec_text(m);
    lemma_dec_text_digits(m);
    assert forall|i: int| 0 <= i < dec(m).len() implies 48 <= #[trigger] dec(m)[i] <= 57 by {
        assert(is_digit(dec_text(m)[i]));
    }
    if n < 0 {
        let t = seq!['-'] + dec_text(m);
        is_ascii_chars_concat(t, seq!['-'], dec_text(m));
        is_ascii_chars_encode_utf8(t);
        is_ascii_chars_encode_utf8(dec_text(m));
        assert(encode_utf8(t) =~= dec_signed(n));
        encode_utf8_valid_utf8(t);
    }
}

/// The digits of a number are read as that number, hold no colon, and differ from those
/// of every other number.
pub proof fn lemma_dec_text_unsigned(n: nat, max: nat)
    requires
        n <= max,
    ensures
        unsigned_of(dec_text(n), max) == Some(n),
        digits_value(dec_text(n)) == n,
        !dec_text(n).contains(':'),
{
    lemma_dec_text_digits(n);
    let t = dec_text(n);
    assert(is_digit(t[0]));
    assert(t[0] != '+');
    if t.contains(':') {
        let i = choose|i: int| 0 <= i < t.len() && t[i] == ':';
        assert(is_digit(t[i]));
    }
}

proof fn lemma_trim_behind(t: Seq<char>, c: char)
    requires
        is_white(c),
    ensures
        trimmed(t.push(c)) == trimmed(t),
    decreases t.len(),
{
    let u = t.push(c);
    if t.len() == 0 {
        assert(u.skip(1) =~= t);
    } else if is_white(t[0]) {
        assert(u.skip(1) =~= t.skip(1).push(c));
        lemma_trim_behind(t.skip(1), c);
    } else {
        assert(u.drop_last() =~= t);
        assert(trim_front(u) == u);
        assert(trim_back(u) == trim_back(t));
    }
}

/// A carriage return behind a header does not change its number.
pub proof fn lemma_header_behind(bytes: Seq<u8>, max: nat)
    requires
        bytes.len() > 0,
        bytes.last() == 13,
        header_number(bytes, max) is Some,
    ensures
        header_number(bytes.drop_last(), max) == header_number(bytes, max),
{
    let at = bytes.len() - 1;
    let front = bytes.subrange(0, at);
    let last = bytes.subrange(at, bytes.len() as int);
    is_char_boundary_iff_not_is_continuation_byte(bytes, at);
    valid_utf8_split(bytes, at);
    decode_utf8_split(bytes, at);
    assert(front =~= bytes.drop_last());
    assert(last =~= seq![13u8]);
    let ret = seq!['\r'];
    assert(is_ascii_chars(ret));
    is_ascii_chars_encode_utf8(ret);
    assert(encode_utf8(ret) =~= seq![13u8]);
    encode_utf8_decode_utf8(ret);
    assert(decode_utf8(bytes) =~= decode_utf8(front).push('\r'));
    lemma_trim_behind(decode_utf8(front), '\r');
}

/// The first digits of a decimal form are one themselves, and not zero's unless it is.
pub proof fn lemma_dec_prefix(n: nat, j: int) -> (m: nat)
    requires
        1 <= j <= dec(n).len(),
    ensures
        dec(n).take(j) == dec(m),
        m <= n,
        n > 0 ==> m > 0,
    decreases n,
{
    if j == dec(n).len() {
        assert(dec(n).take(j) =~= dec(n));
        n
    } else {
        let m = lemma_dec_prefix(n / 10, j);
        assert(dec(n).take(j) =~= dec(n / 10).take(j));
        m
    }
}

/// Nothing is no number.
pub proof fn lemma_header_empty(max: nat)
    ensures
        header_number(Seq::empty(), max) is None,
{
    assert(decode_utf8(Seq::<u8>::empty()) =~= Seq::<char>::empty());
}

/// Every header number reads back as the number it was written from.
pub proof fn law_header_round_trip(n: nat, max: nat)
    requires
        n <= max,
    ensures
        header_number(dec(n), max) == Some(n),
{
    lemma_dec_decodes(n);
    lemma_dec_text_digits(n);
    let t = dec_text(n);
    assert(is_digit(t[0]));
    assert(is_digit(t[t.len() - 1]));
    assert(trim_front(t) == t);
    assert(trim_back(t) == t);
    assert(t[0] != '+');
}

/// The same for signed numbers.
pub proof fn law_signed_round_trip(n: int)
    requires
        i64::MIN <= n <= i64::MAX,
    ensures
        header_signed(dec_signed(n)) == Some(n),
{
    let m = if n < 0 { (-n) as nat } else { n as nat };
    lemma_dec_decodes(m);
    lemma_dec_text_digits(m);
    lemma_dec_is_dec_text(m);
    let d = dec_text(m);
    assert(is_digit(d[0]));
    assert(is_digit(d[d.len() - 1]));
    if n < 0 {
        let t = seq!['-'] + d;
        assert(is_ascii_chars(t)) by {
            assert(is_ascii_chars(seq!['-']));
            is_ascii_chars_concat(t, seq!['-'], d);
        }
        is_ascii_chars_encode_utf8(t);
        is_ascii_chars_encode_utf8(d);
        assert(encode_utf8(t) =~= dec_signed(n));
        encode_utf8_valid_utf8(t);
        encode_utf8_decode_utf8(t);
        assert(t.last() == d.last());
        assert(trim_front(t) == t);
        assert(trim_back(t) == t);
        assert(t.skip(1) =~= d);
    } else {
        assert(trim_front(d) == d);
        assert(trim_back(d) == d);
    }
}

/// The decimal digits of a number as text, with a minus sign where it is negative.
pub open spec fn signed_text(n: int) -> Seq<char> {
    decode_utf8(dec_signed(n))
}

/// Writes a number as text.
pub fn signed_string(n: i64) -> (r: String)
    ensures
        r@ == signed_text(n as int),
{
    let mut d: Vec<u8> = Vec::new();
    push_dec_signed(&mut d, n);
    proof {
        assert(d@ =~= dec_signed(n as int));
        lemma_dec_signed_valid(n as int);
    }
    match utf8_text(d) {
        Some(s) => s,
        None => String::new(),
    }
}

/// Digits count by their place: the value of two runs of digits, one behind the other, is that of
/// the first times ten for each digit of the second, and that of the second.
pub proof fn law_digits_count_by_place(s: Seq<char>, t: Seq<char>)
    requires
        all_digits(s),
        all_digits(t),
    ensures
        digits_value(s + t) == digits_value(s) * vstd::arithmetic::power::pow(10, t.len())
            + digits_value(t),
        digits_value(seq!['0']) == 0,
        digits_value(seq!['1']) == 1,
        digits_value(seq!['9']) == 9,
    decreases t.len(),
{
    reveal_with_fuel(digits_value, 2);
    assert(seq!['0'].drop_last() =~= Seq::<char>::empty());
    assert(seq!['1'].drop_last() =~= Seq::<char>::empty());
    assert(seq!['9'].drop_last() =~= Seq::<char>::empty());
    let p = vstd::arithmetic::power::pow(10, t.len());
    if t.len() == 0 {
        assert(s + t =~= s);
        vstd::arithmetic::power::lemma_pow0(10);
        assert(digits_value(s) * 1 == digits_value(s));
    } else {
        let u = t.drop_last();
        assert(all_digits(u)) by {
            assert forall|i: int| 0 <= i < u.len() implies is_digit(#[trigger] u[i]) by {
                assert(is_digit(t[i]));
            }
        }
        law_digits_count_by_place(s, u);
        assert((s + t).drop_last() =~= s + u);
        assert((s + t).last() == t.last());
        assert(is_digit(t[t.len() - 1]));
        let q = vstd::arithmetic::power::pow(10, u.len());
        vstd::arithmetic::power::lemma_pow1(10);
        vstd::arithmetic::power::lemma_pow_adds(10, u.len(), 1);
        assert(p == q * 10);
        let v = digits_value(s);
        assert(10 * (v * q) == v * p) by (nonlinear_arith)
            requires
                p == q * 10,
        ;
    }
}

proof fn lemma_trim_front(s: Seq<char>)
    ensures
        exists|k: int|
            0 <= k <= s.len() && trim_front(s) == #[trigger] s.skip(k) && (forall|i: int|
                0 <= i < k ==> is_white(#[trigger] s[i])) && (k < s.len() ==> !is_white(s[k])),
    decreases s.len(),
{
    if s.len() > 0 && is_white(s[0]) {
        lemma_trim_front(s.skip(1));
        let t = s.skip(1);
        let k = choose|k: int|
            0 <= k <= t.len() && trim_front(t) == #[trigger] t.skip(k) && (forall|i: int|
                0 <= i < k ==> is_white(#[trigger] t[i])) && (k < t.len() ==> !is_white(t[k]));
        assert(s.skip(k + 1) =~= t.skip(k));
        assert forall|i: int| 0 <= i < k + 1 implies is_white(#[trigger] s[i]) by {
            if i > 0 {
                assert(is_white(t[i - 1]));
            }
        }
    } else {
        assert(s.skip(0) =~= s);
    }
}

proof fn lemma_trim_back(s: Seq<char>)
    ensures
        exists|k: int|
            0 <= k <= s.len() && trim_back(s) == #[trigger] s.take(k) && (forall|i: int|
                k <= i < s.len() ==> is_white(#[trigger] s[i])) && (k > 0 ==> !is_white(s[k - 1])),
    decreases s.len(),
{
    if s.len() > 0 && is_white(s.last()) {
        let t = s.drop_last();
        lemma_trim_back(t);
        let k = choose|k: int|
            0 <= k <= t.len() && trim_back(t) == #[trigger] t.take(k) && (forall|i: int|
                k <= i < t.len() ==> is_white(#[trigger] t[i])) && (k > 0 ==> !is_white(t[k - 1]));
        assert(s.take(k) =~= t.take(k));
        assert forall|i: int| k <= i < s.len() implies is_white(#[trigger] s[i]) by {
            if i < t.len() {
                assert(is_white(t[i]));
            }
        }
    } else {
        assert(s.take(s.len() as int) =~= s);
    }
}

/// Trimming takes off white space alone, all of it at either end: what is left stands in the text
/// between white space, and neither begins nor ends with any.
pub proof fn law_trimming_takes_white_ends(s: Seq<char>)
    ensures
        exists|a: int, b: int|
            0 <= a <= b <= s.len() && trimmed(s) == #[trigger] s.subrange(a, b) && (forall|i: int|
                (0 <= i < a || b <= i < s.len()) ==> is_white(#[trigger] s[i])),
        trimmed(s).len() > 0 ==> !is_white(trimmed(s)[0]) && !is_white(trimmed(s).last()),
{
    lemma_trim_front(s);
    let t = trim_front(s);
    let k = choose|k: int|
        0 <= k <= s.len() && t == #[trigger] s.skip(k) && (forall|i: int|
            0 <= i < k ==> is_white(#[trigger] s[i])) && (k < s.len() ==> !is_white(s[k]));
    lemma_trim_back(t);
    let m = choose|m: int|
        0 <= m <= t.len() && trim_back(t) == #[trigger] t.take(m) && (forall|i: int|
            m <= i < t.len() ==> is_white(#[trigger] t[i])) && (m > 0 ==> !is_white(t[m - 1]));
    assert(trimmed(s) =~= s.subrange(k, k + m));
    assert forall|i: int| (0 <= i < k || k + m <= i < s.len()) implies is_white(#[trigger] s[i]) by {
        if i >= k + m {
            assert(is_white(t[i - k]));
        }
    }
    if m > 0 {
        assert(t[0] == s[k]);
    }
}

/// Blanks, tabs and line ends are white; nothing that prints in ASCII is.
pub proof fn law_white_characters(c: char)
    ensures
        c == ' ' || c == '\t' || c == '\n' || c == '\r' ==> is_white(c),
        0x21 <= c as u32 <= 0x7E ==> !is_white(c),
{
}

/// A sign changes nothing but the sign: a number reads the same behind a plus, and negated behind
/// a minus.
pub proof fn law_signs(s: Seq<char>)
    requires
        all_digits(s),
        s.len() > 0,
    ensures
        digits_value(s) <= i64::MAX ==> signed_of(s) == Some(digits_value(s) as int) && signed_of(
            seq!['+'] + s,
        ) == signed_of(s) && signed_of(seq!['-'] + s) == Some(-(digits_value(s) as int)),
        digits_value(s) > i64::MAX ==> signed_of(s) is None && signed_of(seq!['+'] + s) is None,
        unsigned_of(seq!['+'] + s, u64::MAX as nat) == unsigned_of(s, u64::MAX as nat),
        unsigned_of(seq!['-'] + s, u64::MAX as nat) is None,
        digits_value(s) <= u64::MAX ==> unsigned_of(s, u64::MAX as nat) == Some(digits_value(s)),
        digits_value(s) > u64::MAX ==> unsigned_of(s, u64::MAX as nat) is None,
{
    assert(is_digit(s[0]));
    assert((seq!['+'] + s).skip(1) =~= s);
    assert((seq!['-'] + s).skip(1) =~= s);
    assert(!is_digit((seq!['-'] + s)[0]));
}

} // verus!
