//! Text helpers: characters of a string, fields split on spaces, decimal numbers.
use vstd::prelude::*;
use vstd::std_specs::iter::IteratorSpec;

verus! {

/// Appends `c` to `s`, through `String::push` of std, which appends one character to the end
/// of the string. Trusted: the contract restates that documentation.
#[verifier::external_body]
pub fn push_char(s: &mut String, c: char)
    ensures
        final(s)@ == old(s)@.push(c),
{
    s.push(c);
}

/// Appends every character of `t` to `s`.
pub fn push_str(s: &mut String, t: &str)
    ensures
        final(s)@ == old(s)@ + t@,
{
    let cs = chars_of(t);
    let mut i: usize = 0;
    while i < cs.len()
        invariant
            i <= cs.len(),
            cs@ == t@,
            s@ == old(s)@ + t@.take(i as int),
        decreases cs.len() - i,
    {
        push_char(s, cs[i]);
        assert(t@.take(i + 1) =~= t@.take(i as int).push(t@[i as int]));
        i = i + 1;
    }
    assert(t@.take(i as int) =~= t@);
}

/// The characters of `s`, in order.
pub fn chars_of(s: &str) -> (r: Vec<char>)
    ensures
        r@ == s@,
{
    broadcast use vstd::string::axiom_spec_iter, vstd::string::next_postcondition;

    let mut it = s.chars();
    let mut r: Vec<char> = Vec::new();
    loop
        invariant
            r.len() <= s@.len(),
            IteratorSpec::remaining(&it) == s@.skip(r.len() as int),
            r@ == s@.take(r.len() as int),
        ensures
            r@ == s@,
        decreases s@.len() - r.len(),
    {
        match it.next() {
            Some(c) => {
                assert(s@.skip(r.len() as int).len() > 0);
                assert(s@.skip(r.len() as int)[0] == s@[r.len() as int]);
                r.push(c);
                assert(s@.take(r.len() as int) =~= s@.take(r.len() - 1).push(c));
                assert(s@.skip(r.len() - 1).drop_first() =~= s@.skip(r.len() as int));
            },
            None => {
                assert(s@.take(r.len() as int) =~= s@);
                break;
            },
        }
    }
    r
}

/// The fields of `s` separated by single spaces, empty fields included: `"a  b"` has the
/// fields `"a"`, `""` and `"b"`, and the empty string has one empty field.
pub open spec fn split_spaces(s: Seq<char>) -> Seq<Seq<char>>
    decreases s.len(),
{
    if s.len() == 0 {
        seq![Seq::<char>::empty()]
    } else {
        let init = split_spaces(s.drop_last());
        if s.last() == ' ' {
            init.push(Seq::<char>::empty())
        } else {
            init.update(init.len() - 1, init.last().push(s.last()))
        }
    }
}

/// There is always at least one field.
pub proof fn lemma_split_nonempty(s: Seq<char>)
    ensures
        split_spaces(s).len() >= 1,
    decreases s.len(),
{
    if s.len() > 0 {
        lemma_split_nonempty(s.drop_last());
    }
}

/// No field holds a space.
pub proof fn lemma_split_no_space(s: Seq<char>)
    ensures
        forall|k: int, j: int| 0 <= k < split_spaces(s).len() && 0 <= j < split_spaces(s)[k].len()
            ==> #[trigger] split_spaces(s)[k][j] != ' ',
    decreases s.len(),
{
    if s.len() > 0 {
        lemma_split_no_space(s.drop_last());
        lemma_split_nonempty(s.drop_last());
        let init = split_spaces(s.drop_last());
        let r = split_spaces(s);
        assert forall|k: int, j: int| 0 <= k < r.len() && 0 <= j < r[k].len() implies #[trigger] r[k][j] != ' ' by {
            if s.last() != ' ' && k == init.len() - 1 {
                if j < init[k].len() {
                    assert(r[k][j] == init[k][j]);
                }
            } else if k < init.len() {
                assert(r[k] == init[k]);
            }
        }
    }
}

/// A text without spaces is a single field.
pub proof fn lemma_split_single(t: Seq<char>)
    requires
        forall|k: int| 0 <= k < t.len() ==> #[trigger] t[k] != ' ',
    ensures
        split_spaces(t) == seq![t],
    decreases t.len(),
{
    if t.len() > 0 {
        let init = t.drop_last();
        assert forall|k: int| 0 <= k < init.len() implies #[trigger] init[k] != ' ' by {
            assert(init[k] == t[k]);
        }
        lemma_split_single(init);
        assert(t.last() == t[t.len() - 1]);
        assert(init.push(t.last()) =~= t);
        assert(split_spaces(t) =~= seq![t]);
    } else {
        assert(t =~= Seq::<char>::empty());
    }
}

/// The fields of two texts joined by a space are the fields of the first followed by those
/// of the second.
pub proof fn lemma_split_join(x: Seq<char>, y: Seq<char>)
    ensures
        split_spaces(x + seq![' '] + y) == split_spaces(x) + split_spaces(y),
    decreases y.len(),
{
    let xs = x + seq![' '];
    if y.len() == 0 {
        assert(xs + y =~= xs);
        assert(xs.drop_last() =~= x);
        assert(split_spaces(xs) == split_spaces(x).push(Seq::<char>::empty()));
        assert(split_spaces(x) + split_spaces(y) =~= split_spaces(x).push(Seq::<char>::empty()));
    } else {
        let y0 = y.drop_last();
        lemma_split_join(x, y0);
        lemma_split_nonempty(y0);
        assert((xs + y).drop_last() =~= xs + y0);
        assert((xs + y).last() == y.last());
        let a = split_spaces(x);
        let b0 = split_spaces(y0);
        if y.last() == ' ' {
            assert(split_spaces(xs + y) == (a + b0).push(Seq::<char>::empty()));
            assert(split_spaces(y) == b0.push(Seq::<char>::empty()));
            assert((a + b0).push(Seq::<char>::empty()) =~= a + b0.push(Seq::<char>::empty()));
        } else {
            let ab = a + b0;
            assert(ab.last() == b0.last());
            assert(split_spaces(xs + y) == ab.update(ab.len() - 1, ab.last().push(y.last())));
            assert(split_spaces(y) == b0.update(b0.len() - 1, b0.last().push(y.last())));
            assert(ab.update(ab.len() - 1, ab.last().push(y.last())) =~= a + b0.update(b0.len() - 1, b0.last().push(y.last())));
        }
    }
}

/// The decimal digits of a number are digits.
pub proof fn lemma_decimal_chars_digits(n: nat)
    ensures
        all_digits(decimal_chars(n)),
        decimal_chars(n).len() >= 1,
    decreases n,
{
    if n >= 10 {
        lemma_decimal_chars_digits(n / 10);
        lemma_digit_char((n % 10) as int);
        let d = decimal_chars(n);
        assert forall|k: int| 0 <= k < d.len() implies is_digit(#[trigger] d[k]) by {
            if k < d.len() - 1 {
                assert(d[k] == decimal_chars(n / 10)[k]);
            }
        }
    } else {
        lemma_digit_char(n as int);
    }
}

/// Where the fields of `cs` start and end: field `k` is `cs[start, end)`.
pub fn field_bounds(cs: &Vec<char>) -> (b: Vec<(usize, usize)>)
    ensures
        b.len() == split_spaces(cs@).len(),
        forall|k: int| 0 <= k < b.len() ==> {
            &&& #[trigger] b[k].0 <= b[k].1 <= cs.len()
            &&& cs@.subrange(b[k].0 as int, b[k].1 as int) == split_spaces(cs@)[k]
        },
{
    let mut b: Vec<(usize, usize)> = Vec::new();
    let mut start: usize = 0;
    let mut i: usize = 0;
    while i < cs.len()
        invariant
            i <= cs.len(),
            start <= i,
            b.len() + 1 == split_spaces(cs@.take(i as int)).len(),
            forall|k: int| 0 <= k < b.len() ==> {
                &&& #[trigger] b[k].0 <= b[k].1 <= i
                &&& cs@.subrange(b[k].0 as int, b[k].1 as int) == split_spaces(cs@.take(i as int))[k]
            },
            cs@.subrange(start as int, i as int) == split_spaces(cs@.take(i as int)).last(),
        decreases cs.len() - i,
    {
        let ghost prev = split_spaces(cs@.take(i as int));
        let ghost next = cs@.take(i + 1);
        assert(next.drop_last() =~= cs@.take(i as int));
        assert(next.last() == cs@[i as int]);
        proof {
            lemma_split_nonempty(cs@.take(i as int));
        }
        if cs[i] == ' ' {
            b.push((start, i));
            start = i + 1;
            assert(cs@.subrange(start as int, i + 1) =~= Seq::<char>::empty());
        } else {
            assert(cs@.subrange(start as int, i + 1) =~= cs@.subrange(start as int, i as int).push(cs@[i as int]));
        }
        i = i + 1;
        assert forall|k: int| 0 <= k < b.len() implies {
            &&& #[trigger] b[k].0 <= b[k].1 <= i
            &&& cs@.subrange(b[k].0 as int, b[k].1 as int) == split_spaces(cs@.take(i as int))[k]
        } by {
            if k < b.len() - 1 || cs@[i - 1] != ' ' {
                assert(split_spaces(cs@.take(i as int))[k] == prev[k]);
            }
        }
    }
    assert(cs@.take(i as int) =~= cs@);
    b.push((start, i));
    b
}

/// `c` is a decimal digit.
pub open spec fn is_digit(c: char) -> bool {
    '0' <= c <= '9'
}

/// The value of decimal digit `c`.
pub open spec fn digit_value(c: char) -> int {
    c as int - '0' as int
}

/// The value of the decimal digits `d`.
pub open spec fn decimal_value(d: Seq<char>) -> int
    decreases d.len(),
{
    if d.len() == 0 {
        0
    } else {
        10 * decimal_value(d.drop_last()) + digit_value(d.last())
    }
}

/// Every character of `d` is a decimal digit.
pub open spec fn all_digits(d: Seq<char>) -> bool {
    forall|k: int| 0 <= k < d.len() ==> is_digit(#[trigger] d[k])
}

/// The number a `u8` is read from: an optional `+` followed by one or more decimal digits
/// whose value is at most 255; anything else reads as nothing.
pub open spec fn parse_u8_spec(t: Seq<char>) -> Option<u8> {
    let d = if t.len() > 0 && t[0] == '+' {
        t.drop_first()
    } else {
        t
    };
    if d.len() > 0 && all_digits(d) && decimal_value(d) <= 255 {
        Some(decimal_value(d) as u8)
    } else {
        None
    }
}

/// Decimal values of digit strings are not negative and grow along prefixes.
proof fn lemma_decimal_prefix(d: Seq<char>, k: int)
    requires
        all_digits(d),
        0 <= k <= d.len(),
    ensures
        0 <= decimal_value(d.take(k)) <= decimal_value(d),
    decreases d.len() - k,
{
    if k < d.len() {
        lemma_decimal_prefix(d, k + 1);
        let p = d.take(k + 1);
        assert(p.drop_last() =~= d.take(k));
        lemma_decimal_nonneg(d.take(k));
        assert(is_digit(d[k]));
    } else {
        assert(d.take(k) =~= d);
        lemma_decimal_nonneg(d);
    }
}

/// Decimal values of digit strings are not negative.
proof fn lemma_decimal_nonneg(d: Seq<char>)
    requires
        all_digits(d),
    ensures
        decimal_value(d) >= 0,
    decreases d.len(),
{
    if d.len() > 0 {
        assert(all_digits(d.drop_last())) by {
            assert forall|k: int| 0 <= k < d.drop_last().len() implies is_digit(#[trigger] d.drop_last()[k]) by {
                assert(d.drop_last()[k] == d[k]);
            }
        }
        lemma_decimal_nonneg(d.drop_last());
        assert(is_digit(d[d.len() - 1]));
    }
}

/// Reads a `u8` from the characters `cs[from, to)` as `str::parse::<u8>` of std does:
/// an optional `+`, then decimal digits with a value of at most 255.
pub fn parse_u8(cs: &Vec<char>, from: usize, to: usize) -> (r: Option<u8>)
    requires
        from <= to <= cs.len(),
    ensures
        r == parse_u8_spec(cs@.subrange(from as int, to as int)),
{
    let ghost t = cs@.subrange(from as int, to as int);
    let mut i = from;
    if i < to && cs[i] == '+' {
        i = i + 1;
    }
    let ghost d = cs@.subrange(i as int, to as int);
    assert(d =~= (if t.len() > 0 && t[0] == '+' {
        t.drop_first()
    } else {
        t
    }));
    if i == to {
        return None;
    }
    let start = i;
    let mut value: u32 = 0;
    while i < to
        invariant
            start <= i <= to <= cs.len(),
            t == cs@.subrange(from as int, to as int),
            d == (if t.len() > 0 && t[0] == '+' {
                t.drop_first()
            } else {
                t
            }),
            d == cs@.subrange(start as int, to as int),
            d.len() > 0,
            all_digits(d.take(i - start)),
            value == decimal_value(d.take(i - start)),
            value <= 255,
        decreases to - i,
    {
        let c = cs[i];
        if !('0' <= c && c <= '9') {
            assert(d[i - start] == c);
            assert(!all_digits(d));
            return None;
        }
        let ghost k = i - start;
        assert(d.take(k + 1).drop_last() =~= d.take(k));
        assert(d.take(k + 1).last() == c);
        value = value * 10 + (c as u32 - '0' as u32);
        i = i + 1;
        assert(all_digits(d.take(i - start))) by {
            assert forall|j: int| 0 <= j < d.take(i - start).len() implies is_digit(#[trigger] d.take(i - start)[j]) by {
                if j < k {
                    assert(d.take(i - start)[j] == d.take(k)[j]);
                }
            }
        }
        if value > 255 {
            proof {
                if all_digits(d) {
                    lemma_decimal_prefix(d, i - start);
                }
            }
            return None;
        }
    }
    assert(d.take(i - start) =~= d);
    Some(value as u8)
}

/// The character of the decimal digit `k`.
pub open spec fn digit_char_of(k: int) -> char {
    if k == 0 {
        '0'
    } else if k == 1 {
        '1'
    } else if k == 2 {
        '2'
    } else if k == 3 {
        '3'
    } else if k == 4 {
        '4'
    } else if k == 5 {
        '5'
    } else if k == 6 {
        '6'
    } else if k == 7 {
        '7'
    } else if k == 8 {
        '8'
    } else {
        '9'
    }
}

/// The decimal digits of `n`, without leading zeros.
pub open spec fn decimal_chars(n: nat) -> Seq<char>
    decreases n,
{
    if n < 10 {
        seq![digit_char_of(n as int)]
    } else {
        decimal_chars(n / 10).push(digit_char_of((n % 10) as int))
    }
}

/// The digit character of `d`, which is below 10.
fn digit_char(d: u8) -> (c: char)
    requires
        d < 10,
    ensures
        c == digit_char_of(d as int),
{
    match d {
        0 => '0',
        1 => '1',
        2 => '2',
        3 => '3',
        4 => '4',
        5 => '5',
        6 => '6',
        7 => '7',
        8 => '8',
        _ => '9',
    }
}

/// The digit characters are digits, with their values.
pub proof fn lemma_digit_char(k: int)
    requires
        0 <= k < 10,
    ensures
        is_digit(digit_char_of(k)),
        digit_value(digit_char_of(k)) == k,
{
}

/// Appends the decimal digits of `n` to `s`.
pub fn push_decimal(s: &mut String, n: u8)
    ensures
        final(s)@ == old(s)@ + decimal_chars(n as nat),
{
    if n >= 100 {
        push_char(s, digit_char(n / 100));
        push_char(s, digit_char((n / 10) % 10));
        push_char(s, digit_char(n % 10));
        assert(decimal_chars((n / 100) as nat) == seq![digit_char_of((n / 100) as int)]);
        assert(decimal_chars((n / 10) as nat) =~= seq![digit_char_of((n / 100) as int)].push(digit_char_of(((n / 10) % 10) as int)));
    } else if n >= 10 {
        push_char(s, digit_char(n / 10));
        push_char(s, digit_char(n % 10));
        assert(decimal_chars((n / 10) as nat) == seq![digit_char_of((n / 10) as int)]);
    } else {
        push_char(s, digit_char(n));
    }
    assert(s@ =~= old(s)@ + decimal_chars(n as nat));
}

/// Reading back the decimal digits of a `u8` gives the number.
pub proof fn lemma_parse_decimal(n: u8)
    ensures
        parse_u8_spec(decimal_chars(n as nat)) == Some(n),
{
    let d = decimal_chars(n as nat);
    if n >= 100 {
        let a = decimal_chars((n / 100) as nat);
        let b = decimal_chars((n / 10) as nat);
        lemma_digit_char((n / 100) as int);
        lemma_digit_char(((n / 10) % 10) as int);
        lemma_digit_char((n % 10) as int);
        assert(a == seq![digit_char_of((n / 100) as int)]);
        assert(b.drop_last() == a);
        assert(d.drop_last() == b);
        assert(decimal_value(a) == n / 100) by {
            assert(a.drop_last() =~= Seq::<char>::empty());
            assert(decimal_value(Seq::<char>::empty()) == 0);
            assert(a.last() == a[0]);
        }
        assert(decimal_value(b) == n / 10);
        assert(decimal_value(d) == n);
        assert(all_digits(d)) by {
            assert forall|k: int| 0 <= k < d.len() implies is_digit(#[trigger] d[k]) by {
                assert(d.len() == 3);
                if k == 0 {
                    assert(d[0] == a[0]);
                } else if k == 1 {
                    assert(d[1] == b[1]);
                }
            }
        }
    } else if n >= 10 {
        let a = decimal_chars((n / 10) as nat);
        lemma_digit_char((n / 10) as int);
        lemma_digit_char((n % 10) as int);
        assert(a == seq![digit_char_of((n / 10) as int)]);
        assert(d.drop_last() == a);
        assert(decimal_value(a) == n / 10) by {
            assert(a.drop_last() =~= Seq::<char>::empty());
            assert(decimal_value(Seq::<char>::empty()) == 0);
            assert(a.last() == a[0]);
        }
        assert(decimal_value(d) == n);
        assert(all_digits(d)) by {
            assert forall|k: int| 0 <= k < d.len() implies is_digit(#[trigger] d[k]) by {
                if k == 0 {
                    assert(d[0] == a[0]);
                }
            }
        }
    } else {
        lemma_digit_char(n as int);
        assert(d.drop_last() =~= Seq::<char>::empty());
        assert(decimal_value(Seq::<char>::empty()) == 0);
        assert(d.last() == d[0]);
        assert(decimal_value(d) == n);
        assert(all_digits(d));
    }
}

} // verus!
