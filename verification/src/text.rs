//! Text helpers: prefixes, trimming, decimal numbers and the order of keys.
use vstd::prelude::*;
use vstd::std_specs::iter::IteratorSpec;
use vstd::string::*;

verus! {

/// Whether `s` begins with `prefix`.
pub open spec fn has_prefix(s: Seq<char>, prefix: Seq<char>) -> bool {
    prefix.len() <= s.len() && s.take(prefix.len() as int) == prefix
}

/// `s` without the run of `c` at its start.
pub open spec fn trim_start(s: Seq<char>, c: char) -> Seq<char>
    decreases s.len(),
{
    if s.len() > 0 && s.first() == c {
        trim_start(s.drop_first(), c)
    } else {
        s
    }
}

/// `s` without the run of `c` at its end.
pub open spec fn trim_end(s: Seq<char>, c: char) -> Seq<char>
    decreases s.len(),
{
    if s.len() > 0 && s.last() == c {
        trim_end(s.drop_last(), c)
    } else {
        s
    }
}

/// `s` without the runs of `c` at both ends.
pub open spec fn trim_both(s: Seq<char>, c: char) -> Seq<char> {
    trim_end(trim_start(s, c), c)
}

/// The text of the decimal digit `d`.
pub open spec fn digit(d: int) -> char {
    if d == 0 {
        '0'
    } else if d == 1 {
        '1'
    } else if d == 2 {
        '2'
    } else if d == 3 {
        '3'
    } else if d == 4 {
        '4'
    } else if d == 5 {
        '5'
    } else if d == 6 {
        '6'
    } else if d == 7 {
        '7'
    } else if d == 8 {
        '8'
    } else {
        '9'
    }
}

/// The decimal text of a natural number.
pub open spec fn decimal_nat(n: nat) -> Seq<char>
    decreases n,
{
    if n < 10 {
        seq![digit(n as int)]
    } else {
        decimal_nat(n / 10).push(digit((n % 10) as int))
    }
}

/// The decimal text of an integer, with a leading minus sign below zero.
pub open spec fn decimal(n: int) -> Seq<char> {
    if n < 0 {
        seq!['-'] + decimal_nat((-n) as nat)
    } else {
        decimal_nat(n as nat)
    }
}

/// The first place where `a` and `b` part, and `a` is the smaller there.
pub open spec fn parts_below(a: Seq<char>, b: Seq<char>, n: int) -> bool {
    &&& 0 <= n <= a.len()
    &&& n < b.len()
    &&& forall|i: int| 0 <= i < n ==> a[i] == b[i]
    &&& n == a.len() || (a[n] as u32) < (b[n] as u32)
}

/// The lexicographic order of texts by code point.
pub open spec fn text_less(a: Seq<char>, b: Seq<char>) -> bool {
    exists|n: int| parts_below(a, b, n)
}

/// How two texts stand to each other in the order of keys.
#[derive(Clone, Copy, PartialEq, Eq, Structural)]
pub enum Side {
    Before,
    Same,
    After,
}

/// No text is below itself.
pub proof fn lemma_less_irreflexive(a: Seq<char>)
    ensures
        !text_less(a, a),
{
}

/// What is below a text is below every text that it is below.
pub proof fn lemma_less_transitive(a: Seq<char>, b: Seq<char>, c: Seq<char>)
    requires
        text_less(a, b),
        text_less(b, c),
    ensures
        text_less(a, c),
{
    let n = choose|n: int| parts_below(a, b, n);
    let m = choose|m: int| parts_below(b, c, m);
    let k = if n < m {
        n
    } else {
        m
    };
    assert(parts_below(a, c, k));
}

/// Two texts are never each below the other.
pub proof fn lemma_less_asymmetric(a: Seq<char>, b: Seq<char>)
    requires
        text_less(a, b),
    ensures
        !text_less(b, a),
        a != b,
{
    if text_less(b, a) {
        lemma_less_transitive(a, b, a);
        lemma_less_irreflexive(a);
    }
    if a == b {
        lemma_less_irreflexive(a);
    }
}

/// Whether `c` occurs in `s`.
pub fn contains_char(s: &str, c: char) -> (found: bool)
    ensures
        found == s@.contains(c),
{
    let mut rest = s.chars();
    let ghost mut at: int = 0;
    proof {
        assert(s@.skip(0) =~= s@);
    }
    loop
        invariant
            0 <= at <= s@.len(),
            rest.remaining() == s@.skip(at),
            rest.decrease() is Some,
            forall|i: int| 0 <= i < at ==> s@[i] != c,
        decreases s@.len() - at,
    {
        match rest.next() {
            Some(x) => {
                if x == c {
                    assert(s@[at] == c);
                    return true;
                }
                proof {
                    assert(s@.skip(at).drop_first() =~= s@.skip(at + 1));
                    at = at + 1;
                }
            },
            None => {
                return false;
            },
        }
    }
}

/// Whether `s` begins with `prefix`.
pub fn starts_with(s: &str, prefix: &str) -> (yes: bool)
    ensures
        yes == has_prefix(s@, prefix@),
{
    let mut rest = s.chars();
    let mut wanted = prefix.chars();
    let ghost mut at: int = 0;
    proof {
        assert(s@.skip(0) =~= s@);
        assert(prefix@.skip(0) =~= prefix@);
    }
    loop
        invariant
            0 <= at <= s@.len(),
            at <= prefix@.len(),
            rest.remaining() == s@.skip(at),
            wanted.remaining() == prefix@.skip(at),
            rest.decrease() is Some,
            wanted.decrease() is Some,
            forall|i: int| 0 <= i < at ==> s@[i] == prefix@[i],
        decreases prefix@.len() - at,
    {
        match wanted.next() {
            Some(p) => {
                match rest.next() {
                    Some(x) => {
                        if x != p {
                            assert(s@[at] != prefix@[at]);
                            assert(has_prefix(s@, prefix@) ==> s@.take(prefix@.len() as int)[at]
                                == prefix@[at]);
                            return false;
                        }
                        proof {
                            assert(s@.skip(at).drop_first() =~= s@.skip(at + 1));
                            assert(prefix@.skip(at).drop_first() =~= prefix@.skip(at + 1));
                            at = at + 1;
                        }
                    },
                    None => {
                        return false;
                    },
                }
            },
            None => {
                assert(s@.take(prefix@.len() as int) =~= prefix@);
                return true;
            },
        }
    }
}

/// Where `a` stands to `b` in the order of keys.
pub fn side_of(a: &str, b: &str) -> (side: Side)
    ensures
        side is Before <==> text_less(a@, b@),
        side is Same <==> a@ == b@,
        side is After <==> text_less(b@, a@),
{
    let mut left = a.chars();
    let mut right = b.chars();
    let ghost mut at: int = 0;
    proof {
        assert(a@.skip(0) =~= a@);
        assert(b@.skip(0) =~= b@);
    }
    loop
        invariant
            0 <= at <= a@.len(),
            at <= b@.len(),
            left.remaining() == a@.skip(at),
            right.remaining() == b@.skip(at),
            left.decrease() is Some,
            right.decrease() is Some,
            forall|i: int| 0 <= i < at ==> a@[i] == b@[i],
        decreases a@.len() - at,
    {
        match left.next() {
            Some(x) => {
                match right.next() {
                    Some(y) => {
                        if x != y {
                            if (x as u32) < (y as u32) {
                                proof {
                                    assert(parts_below(a@, b@, at));
                                    lemma_less_asymmetric(a@, b@);
                                }
                                return Side::Before;
                            }
                            proof {
                                vstd::utf8::char_u32_cast(x, x as u32);
                                vstd::utf8::char_u32_cast(y, y as u32);
                                assert(parts_below(b@, a@, at));
                                lemma_less_asymmetric(b@, a@);
                            }
                            return Side::After;
                        }
                        proof {
                            assert(a@.skip(at).drop_first() =~= a@.skip(at + 1));
                            assert(b@.skip(at).drop_first() =~= b@.skip(at + 1));
                            at = at + 1;
                        }
                    },
                    None => {
                        proof {
                            assert(parts_below(b@, a@, at));
                            lemma_less_asymmetric(b@, a@);
                        }
                        return Side::After;
                    },
                }
            },
            None => {
                match right.next() {
                    Some(_y) => {
                        proof {
                            assert(parts_below(a@, b@, at));
                            lemma_less_asymmetric(a@, b@);
                        }
                        return Side::Before;
                    },
                    None => {
                        proof {
                            assert(a@ =~= b@);
                            lemma_less_irreflexive(a@);
                        }
                        return Side::Same;
                    },
                }
            },
        }
    }
}

/// Whether two texts are the same.
pub fn same_text(a: &str, b: &str) -> (same: bool)
    ensures
        same == (a@ == b@),
{
    match side_of(a, b) {
        Side::Same => true,
        _ => false,
    }
}

/// Trimming the start drops exactly the leading run.
proof fn lemma_trim_start_at(s: Seq<char>, c: char, k: int)
    requires
        0 <= k <= s.len(),
        forall|i: int| 0 <= i < k ==> s[i] == c,
        k < s.len() ==> s[k] != c,
    ensures
        trim_start(s, c) == s.skip(k),
    decreases k,
{
    if k > 0 {
        lemma_trim_start_at(s.drop_first(), c, k - 1);
        assert(s.drop_first().skip(k - 1) =~= s.skip(k));
    } else {
        assert(s.skip(0) =~= s);
    }
}

/// Trimming the end drops exactly the trailing run.
proof fn lemma_trim_end_at(s: Seq<char>, c: char, m: int)
    requires
        0 <= m <= s.len(),
        forall|i: int| m <= i < s.len() ==> s[i] == c,
        m > 0 ==> s[m - 1] != c,
    ensures
        trim_end(s, c) == s.take(m),
    decreases s.len() - m,
{
    if m < s.len() {
        lemma_trim_end_at(s.drop_last(), c, m);
        assert(s.drop_last().take(m) =~= s.take(m));
    } else {
        assert(s.take(m) =~= s);
    }
}

/// What trimming leaves neither starts nor ends with the trimmed character.
pub proof fn lemma_trim_both_clean(s: Seq<char>, c: char)
    ensures
        trim_both(s, c).len() > 0 ==> trim_both(s, c).first() != c && trim_both(s, c).last() != c,
{
    lemma_trim_start_clean(s, c);
    lemma_trim_end_clean(trim_start(s, c), c);
}

proof fn lemma_trim_start_clean(s: Seq<char>, c: char)
    ensures
        trim_start(s, c).len() > 0 ==> trim_start(s, c).first() != c,
    decreases s.len(),
{
    if s.len() > 0 && s.first() == c {
        lemma_trim_start_clean(s.drop_first(), c);
    }
}

proof fn lemma_trim_end_clean(s: Seq<char>, c: char)
    ensures
        trim_end(s, c).len() > 0 ==> trim_end(s, c).last() != c && trim_end(s, c).first()
            == s.first(),
    decreases s.len(),
{
    if s.len() > 0 && s.last() == c {
        lemma_trim_end_clean(s.drop_last(), c);
    }
}

/// Text that neither starts nor ends with `c` is left alone by trimming.
pub proof fn lemma_trim_both_fixed(s: Seq<char>, c: char)
    requires
        s.len() > 0 ==> s.first() != c && s.last() != c,
    ensures
        trim_both(s, c) == s,
{
}

/// `s` without the runs of `c` at both ends.
pub fn trim_matches(s: &str, c: char) -> (trimmed: &str)
    ensures
        trimmed@ == trim_both(s@, c),
{
    let mut rest = s.chars();
    let mut at: usize = 0;
    let mut from: usize = 0;
    let mut to: usize = 0;
    let length: usize = s.unicode_len();
    proof {
        assert(s@.skip(0) =~= s@);
    }
    while at < length
        invariant
            length == s@.len(),
            at <= length,
            rest.remaining() == s@.skip(at as int),
            rest.decrease() is Some,
            from <= to <= at,
            from == to ==> from == 0 && forall|i: int| 0 <= i < at ==> s@[i] == c,
            from < to ==> s@[from as int] != c && s@[to - 1] != c,
            from < to ==> forall|i: int| 0 <= i < from ==> s@[i] == c,
            from < to ==> forall|i: int| to <= i < at ==> s@[i] == c,
        decreases length - at,
    {
        match rest.next() {
            Some(x) => {
                assert(x == s@[at as int]);
                if x != c {
                    if from == to {
                        from = at;
                    }
                    to = at + 1;
                }
            },
            None => {
                assert(false);
            },
        }
        proof {
            assert(s@.skip(at as int).drop_first() =~= s@.skip(at + 1));
        }
        at = at + 1;
    }
    proof {
        if from == to {
            lemma_trim_start_at(s@, c, s@.len() as int);
            assert(s@.skip(s@.len() as int) =~= s@.subrange(0, 0));
        } else {
            lemma_trim_start_at(s@, c, from as int);
            lemma_trim_end_at(s@.skip(from as int), c, to - from);
            assert(s@.skip(from as int).take(to - from) =~= s@.subrange(from as int, to as int));
        }
    }
    s.substring_char(from, to)
}

/// `s` without the run of `c` at its end.
pub fn trim_end_matches(s: &str, c: char) -> (trimmed: &str)
    ensures
        trimmed@ == trim_end(s@, c),
{
    let mut rest = s.chars();
    let mut at: usize = 0;
    let mut to: usize = 0;
    let length: usize = s.unicode_len();
    proof {
        assert(s@.skip(0) =~= s@);
    }
    while at < length
        invariant
            length == s@.len(),
            at <= length,
            rest.remaining() == s@.skip(at as int),
            rest.decrease() is Some,
            to <= at,
            to > 0 ==> s@[to - 1] != c,
            forall|i: int| to <= i < at ==> s@[i] == c,
        decreases length - at,
    {
        match rest.next() {
            Some(x) => {
                if x != c {
                    to = at + 1;
                }
            },
            None => {
                assert(false);
            },
        }
        proof {
            assert(s@.skip(at as int).drop_first() =~= s@.skip(at + 1));
        }
        at = at + 1;
    }
    proof {
        lemma_trim_end_at(s@, c, to as int);
        assert(s@.take(to as int) =~= s@.subrange(0, to as int));
    }
    s.substring_char(0, to)
}

/// The texts `a` and `b` one after the other.
pub fn join(a: &str, b: &str) -> (both: String)
    ensures
        both@ == a@ + b@,
{
    let mut both: String = a.to_owned();
    both.append(b);
    both
}

fn digit_text(d: u128) -> (text: &'static str)
    requires
        d < 10,
    ensures
        text@ == seq![digit(d as int)],
{
    proof {
        reveal_strlit("0");
        reveal_strlit("1");
        reveal_strlit("2");
        reveal_strlit("3");
        reveal_strlit("4");
        reveal_strlit("5");
        reveal_strlit("6");
        reveal_strlit("7");
        reveal_strlit("8");
        reveal_strlit("9");
    }
    if d == 0 {
        "0"
    } else if d == 1 {
        "1"
    } else if d == 2 {
        "2"
    } else if d == 3 {
        "3"
    } else if d == 4 {
        "4"
    } else if d == 5 {
        "5"
    } else if d == 6 {
        "6"
    } else if d == 7 {
        "7"
    } else if d == 8 {
        "8"
    } else {
        "9"
    }
}

/// The decimal text of a natural number.
fn natural_text(n: u128) -> (text: String)
    ensures
        text@ == decimal_nat(n as nat),
    decreases n,
{
    if n < 10 {
        digit_text(n).to_owned()
    } else {
        let mut text: String = natural_text(n / 10);
        text.append(digit_text(n % 10));
        assert(text@ =~= decimal_nat(n as nat));
        text
    }
}

/// The decimal text of an unsigned number.
pub fn unsigned_text(n: u64) -> (text: String)
    ensures
        text@ == decimal_nat(n as nat),
{
    natural_text(n as u128)
}

/// The decimal text of an integer.
pub fn integer_text(n: i128) -> (text: String)
    requires
        n > i128::MIN,
    ensures
        text@ == decimal(n as int),
{
    if n < 0 {
        let below: u128 = (0 - n) as u128;
        proof {
            reveal_strlit("-");
        }
        let text: String = join("-", natural_text(below).as_str());
        assert(text@ =~= seq!['-'] + decimal_nat((-n) as nat));
        text
    } else {
        natural_text(n as u128)
    }
}

/// The decimal text of a signed number.
pub fn signed_text(n: i64) -> (text: String)
    ensures
        text@ == decimal(n as int),
{
    integer_text(n as i128)
}

/// The number that a text of decimal digits stands for.
pub open spec fn digits_value(s: Seq<char>) -> nat
    decreases s.len(),
{
    if s.len() == 0 {
        0
    } else {
        digits_value(s.drop_last()) * 10 + digit_value(s.last())
    }
}

/// The number that a decimal digit stands for.
pub open spec fn digit_value(c: char) -> nat {
    if c == '1' {
        1
    } else if c == '2' {
        2
    } else if c == '3' {
        3
    } else if c == '4' {
        4
    } else if c == '5' {
        5
    } else if c == '6' {
        6
    } else if c == '7' {
        7
    } else if c == '8' {
        8
    } else if c == '9' {
        9
    } else {
        0
    }
}

proof fn lemma_decimal_nat_value(n: nat)
    ensures
        digits_value(decimal_nat(n)) == n,
        decimal_nat(n).len() > 0,
        decimal_nat(n).first() != '-',
    decreases n,
{
    if n < 10 {
        assert(decimal_nat(n).drop_last() =~= Seq::<char>::empty());
        assert(digits_value(Seq::<char>::empty()) == 0);
    } else {
        lemma_decimal_nat_value(n / 10);
        assert(decimal_nat(n).drop_last() =~= decimal_nat(n / 10));
    }
}

/// Different numbers have different decimal texts.
pub proof fn lemma_decimal_injective(a: int, b: int)
    requires
        decimal(a) == decimal(b),
    ensures
        a == b,
{
    lemma_decimal_nat_value((if a < 0 { -a } else { a }) as nat);
    lemma_decimal_nat_value((if b < 0 { -b } else { b }) as nat);
    if a < 0 {
        assert(decimal(a).first() == '-');
        assert(decimal(a).drop_first() =~= decimal_nat((-a) as nat));
    }
    if b < 0 {
        assert(decimal(b).first() == '-');
        assert(decimal(b).drop_first() =~= decimal_nat((-b) as nat));
    }
}

/// A number's decimal text is made of digits and a minus sign.
pub proof fn lemma_decimal_has_no_dot(n: int)
    ensures
        !decimal(n).contains('.'),
{
    lemma_decimal_nat_has_no_dot((if n < 0 { -n } else { n }) as nat);
    if decimal(n).contains('.') {
        let i = decimal(n).index_of('.');
        assert(decimal(n)[i] == '.');
        if n < 0 {
            assert(i > 0);
            assert(decimal_nat((-n) as nat)[i - 1] == '.');
        }
    }
}

proof fn lemma_decimal_nat_has_no_dot(n: nat)
    ensures
        !decimal_nat(n).contains('.'),
    decreases n,
{
    if n >= 10 {
        lemma_decimal_nat_has_no_dot(n / 10);
        if decimal_nat(n).contains('.') {
            let i = decimal_nat(n).index_of('.');
            assert(decimal_nat(n)[i] == '.');
            if i < decimal_nat(n / 10).len() {
                assert(decimal_nat(n / 10)[i] == '.');
            }
        }
    }
}

/// A text begins with another exactly when it is that text with something, or nothing, behind
/// it.
pub proof fn law_prefix_is_what_comes_first(s: Seq<char>, prefix: Seq<char>, rest: Seq<char>)
    ensures
        has_prefix(prefix + rest, prefix),
        has_prefix(s, prefix) <==> exists|more: Seq<char>| s == #[trigger] (prefix + more),
{
    assert((prefix + rest).take(prefix.len() as int) =~= prefix);
    if has_prefix(s, prefix) {
        let more = s.skip(prefix.len() as int);
        assert(s =~= prefix + more);
    }
    if exists|more: Seq<char>| s == #[trigger] (prefix + more) {
        let more = choose|more: Seq<char>| s == #[trigger] (prefix + more);
        assert((prefix + more).take(prefix.len() as int) =~= prefix);
    }
}

proof fn lemma_trim_start_split(s: Seq<char>, c: char) -> (n: int)
    ensures
        0 <= n <= s.len(),
        trim_start(s, c) == s.skip(n),
        forall|i: int| 0 <= i < n ==> s[i] == c,
    decreases s.len(),
{
    if s.len() > 0 && s.first() == c {
        let m = lemma_trim_start_split(s.drop_first(), c);
        assert(s.drop_first().skip(m) =~= s.skip(m + 1));
        assert forall|i: int| 0 <= i < m + 1 implies s[i] == c by {
            if i > 0 {
                assert(s.drop_first()[i - 1] == c);
            }
        }
        m + 1
    } else {
        assert(s.skip(0) =~= s);
        0
    }
}

proof fn lemma_trim_end_split(s: Seq<char>, c: char) -> (n: int)
    ensures
        0 <= n <= s.len(),
        trim_end(s, c) == s.take(n),
        forall|i: int| n <= i < s.len() ==> s[i] == c,
    decreases s.len(),
{
    if s.len() > 0 && s.last() == c {
        let m = lemma_trim_end_split(s.drop_last(), c);
        assert(s.drop_last().take(m) =~= s.take(m));
        assert forall|i: int| m <= i < s.len() implies s[i] == c by {
            if i < s.len() - 1 {
                assert(s.drop_last()[i] == c);
            }
        }
        m
    } else {
        assert(s.take(s.len() as int) =~= s);
        s.len() as int
    }
}

/// Trimming the end takes off nothing but the trimmed character, and leaves none of it there:
/// whatever a text with another end has of it behind, that text comes out.
pub proof fn law_trim_end_takes_off_the_run(s: Seq<char>, c: char, n: nat)
    ensures
        exists|m: int|
            0 <= m <= s.len() && trim_end(s, c) == #[trigger] s.take(m) && forall|i: int|
                m <= i < s.len() ==> s[i] == c,
        trim_end(s, c).len() > 0 ==> trim_end(s, c).last() != c,
        (s.len() > 0 ==> s.last() != c) ==> trim_end(s + Seq::new(n, |i: int| c), c) == s,
{
    let m = lemma_trim_end_split(s, c);
    assert(trim_end(s, c) == s.take(m));
    lemma_trim_end_clean(s, c);
    if s.len() > 0 ==> s.last() != c {
        let longer = s + Seq::new(n, |i: int| c);
        lemma_trim_end_at(longer, c, s.len() as int);
        assert(longer.take(s.len() as int) =~= s);
    }
}

/// Trimming both ends takes off nothing but the trimmed character, and leaves none of it at
/// either end.
pub proof fn law_trim_both_takes_off_the_runs(s: Seq<char>, c: char)
    ensures
        exists|from: int, to: int|
            0 <= from <= to <= s.len() && trim_both(s, c) == #[trigger] s.subrange(from, to) && (
            forall|i: int| 0 <= i < from || to <= i < s.len() ==> s[i] == c),
        trim_both(s, c).len() > 0 ==> trim_both(s, c).first() != c && trim_both(s, c).last() != c,
{
    let from = lemma_trim_start_split(s, c);
    let m = lemma_trim_end_split(s.skip(from), c);
    let to = from + m;
    assert(s.skip(from).take(m) =~= s.subrange(from, to));
    assert forall|i: int| 0 <= i < from || to <= i < s.len() implies s[i] == c by {
        if to <= i < s.len() {
            assert(s.skip(from)[i - from] == c);
        }
    }
    lemma_trim_both_clean(s, c);
}

/// The text of a number reads as that number: it is made of digits, which stand for tenfold what
/// comes before them and for themselves, behind a minus sign below zero.
pub proof fn law_decimal_reads_back(n: int)
    ensures
        n >= 0 ==> digits_value(decimal(n)) == n && decimal(n).first() != '-',
        n < 0 ==> decimal(n).first() == '-' && digits_value(decimal(n).drop_first()) == -n,
        n >= 10 ==> decimal(n).len() == decimal(n / 10).len() + 1,
        0 <= n < 10 ==> decimal(n).len() == 1,
{
    lemma_decimal_nat_value((if n < 0 { -n } else { n }) as nat);
    if n < 0 {
        assert(decimal(n).drop_first() =~= decimal_nat((-n) as nat));
    }
}

/// Keys stand in the order of their characters: a text comes before every text that goes on from
/// it, and where two part the one with the lower code point comes first.
pub proof fn law_keys_stand_in_order_of_characters(
    common: Seq<char>,
    x: char,
    y: char,
    a: Seq<char>,
    b: Seq<char>,
)
    ensures
        text_less(common, common.push(x) + a),
        (x as u32) < (y as u32) ==> text_less(common.push(x) + a, common.push(y) + b),
{
    let n = common.len() as int;
    assert(parts_below(common, common.push(x) + a, n));
    if (x as u32) < (y as u32) {
        assert(parts_below(common.push(x) + a, common.push(y) + b, n));
    }
}

} // verus!
