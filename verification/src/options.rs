//! Command-line options: a flag, or a name that its value follows.
use crate::text;
use crate::text::{chars_of, parse_unsigned};
use crate::words;
use crate::words::same_text;
use vstd::prelude::*;
use vstd::string::*;

verus! {

/// The first place from `i` on at which `name` stands.
pub open spec fn name_from(args: Seq<Seq<char>>, name: Seq<char>, i: int) -> Option<int>
    decreases args.len() - i,
{
    if i < 0 || i >= args.len() {
        None
    } else if args[i] == name {
        Some(i)
    } else {
        name_from(args, name, i + 1)
    }
}

/// The value of an option: what follows the first place of its name.
pub open spec fn value_of(args: Seq<Seq<char>>, name: Seq<char>) -> Option<Seq<char>> {
    match name_from(args, name, 0) {
        Some(i) => if i + 1 < args.len() {
            Some(args[i + 1])
        } else {
            None
        },
        None => None,
    }
}

fn place_of(args: &Vec<String>, name: &str) -> (r: Option<usize>)
    ensures
        match r {
            Some(i) => name_from(words::views_of(args@), name@, 0) == Some(i as int) && i
                < args@.len(),
            None => name_from(words::views_of(args@), name@, 0) is None,
        },
{
    let n: usize = args.len();
    let mut i: usize = 0;
    while i < n
        invariant
            i <= n == args@.len(),
            name_from(words::views_of(args@), name@, 0) == name_from(
                words::views_of(args@),
                name@,
                i as int,
            ),
        decreases n - i,
    {
        assert(words::views_of(args@)[i as int] == args@[i as int]@);
        if same_text(args[i].as_str(), name) {
            return Some(i);
        }
        i = i + 1;
    }
    None
}

/// Whether a flag is given.
pub fn flag(args: &Vec<String>, name: &str) -> (r: bool)
    ensures
        r == (name_from(words::views_of(args@), name@, 0) is Some),
{
    place_of(args, name).is_some()
}

/// The value of an option, if it is given one.
pub fn value(args: &Vec<String>, name: &str) -> (r: Option<String>)
    ensures
        words::opt_view(r) == value_of(words::views_of(args@), name@),
{
    match place_of(args, name) {
        Some(i) => {
            let n: usize = args.len();
            if i < n - 1 {
                assert(words::views_of(args@)[i + 1] == args@[i + 1]@);
                Some(args[i + 1].clone())
            } else {
                None
            }
        },
        None => None,
    }
}

/// The value of an option, or its default.
pub fn arg(args: &Vec<String>, name: &str, default: &str) -> (r: String)
    ensures
        r@ == (match value_of(words::views_of(args@), name@) {
            Some(v) => v,
            None => default@,
        }),
{
    match value(args, name) {
        Some(v) => v,
        None => default.to_owned(),
    }
}

/// The number that a text gives, or another.
pub open spec fn number_or(s: Option<Seq<char>>, other: nat) -> nat {
    match s {
        Some(x) => match text::unsigned_of(x, u64::MAX as nat) {
            Some(n) => n,
            None => other,
        },
        None => other,
    }
}

/// Reads the number that a text gives, or takes another.
pub fn number(s: Option<String>, other: u64) -> (r: u64)
    ensures
        r == number_or(words::opt_view(s), other as nat),
{
    match s {
        Some(x) => match parse_unsigned(&chars_of(x.as_str()), u64::MAX) {
            Some(n) => n,
            None => other,
        },
        None => other,
    }
}

/// A flag is given exactly where it is among the arguments.
pub proof fn law_flag_is_membership(args: Seq<Seq<char>>, name: Seq<char>)
    ensures
        name_from(args, name, 0) is Some <==> args.contains(name),
        name_from(args, name, 0) matches Some(i) ==> 0 <= i < args.len() && args[i] == name && (
        forall|j: int| 0 <= j < i ==> #[trigger] args[j] != name),
{
    lemma_name_from(args, name, 0);
    if args.contains(name) {
        let p = choose|p: int| 0 <= p < args.len() && args[p] == name;
        assert(args[p] == name);
    }
}

proof fn lemma_name_from(args: Seq<Seq<char>>, name: Seq<char>, i: int)
    requires
        0 <= i <= args.len(),
    ensures
        match name_from(args, name, i) {
            Some(p) => i <= p < args.len() && args[p] == name && (forall|j: int|
                i <= j < p ==> #[trigger] args[j] != name),
            None => forall|j: int| i <= j < args.len() ==> #[trigger] args[j] != name,
        },
    decreases args.len() - i,
{
    if i < args.len() && args[i] != name {
        lemma_name_from(args, name, i + 1);
    }
}

/// The value of an option stands right behind the first place of its name; a name that is not
/// given, or that nothing follows, has none.
pub proof fn law_value_follows_its_name(args: Seq<Seq<char>>, name: Seq<char>, i: int)
    requires
        0 <= i < args.len(),
        args[i] == name,
        forall|j: int| 0 <= j < i ==> #[trigger] args[j] != name,
    ensures
        i + 1 < args.len() ==> value_of(args, name) == Some(args[i + 1]),
        i + 1 == args.len() ==> value_of(args, name) is None,
        !args.take(i).contains(name),
        value_of(args.take(i), name) is None,
{
    law_flag_is_membership(args, name);
    law_flag_is_membership(args.take(i), name);
    let p = name_from(args, name, 0);
    assert(args.contains(name));
    if p->0 < i {
        assert(args[p->0] != name);
    }
    if i < p->0 {
        assert(args[i] != name);
    }
    if args.take(i).contains(name) {
        let j = choose|j: int| 0 <= j < args.take(i).len() && args.take(i)[j] == name;
        assert(args[j] == name);
    }
}

/// A number that is written out is read as it is; what is not given is the other one.
pub proof fn law_numbers_are_read(n: nat, other: nat)
    requires
        n <= u64::MAX,
    ensures
        number_or(Some(text::dec_text(n)), other) == n,
        number_or(None, other) == other,
        number_or(Some(Seq::empty()), other) == other,
{
    text::lemma_dec_text_unsigned(n, u64::MAX as nat);
}

} // verus!
