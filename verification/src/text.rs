//! Text helpers: characters of a string, decimal numerals, splitting and joining.

use vstd::prelude::*;
use vstd::std_specs::iter::IteratorSpec;

verus! {

/// `String::push` appends one character.
pub assume_specification[ std::string::String::push ](s: &mut std::string::String, ch: char)
    ensures
        final(s)@ == old(s)@.push(ch),
;

/// The characters of `s`, in order.
pub fn chars_of(s: &str) -> (r: Vec<char>)
    ensures
        r@ == s@,
{
    broadcast use vstd::string::next_postcondition, vstd::string::axiom_spec_iter;

    let mut r: Vec<char> = Vec::new();
    let mut it = s.chars();
    loop
        invariant
            it.obeys_prophetic_iter_laws(),
            it.decrease() is Some,
            r@ + it.remaining() == s@,
        ensures
            r@ == s@,
        decreases it.decrease()->0,
    {
        match it.next() {
            Some(c) => {
                r.push(c);
            },
            None => {
                assert(it.remaining().len() == 0);
                assert(r@ =~= s@);
                break ;
            },
        }
    }
    r
}

/// Appends the characters `v[from..to]` to `s`.
pub fn push_chars(s: &mut String, v: &Vec<char>, from: usize, to: usize)
    requires
        from <= to <= v.len(),
    ensures
        final(s)@ == old(s)@ + v@.subrange(from as int, to as int),
{
    let mut i: usize = from;
    while i < to
        invariant
            from <= i <= to <= v.len(),
            s@ == old(s)@ + v@.subrange(from as int, i as int),
        decreases to - i,
    {
        s.push(v[i]);
        i += 1;
        assert(s@ =~= old(s)@ + v@.subrange(from as int, i as int));
    }
    assert(s@ =~= old(s)@ + v@.subrange(from as int, to as int));
}

/// The character of a decimal digit.
pub open spec fn digit_char(d: int) -> char {
    if d == 0 {
        '0'
    } else if d == 1 {
        '1'
    } else if d == 2 {
        '2'
    } else if d == 3 {
        '3'
    } else if d == 4 {
        '4'
    } else if d == 5 {
        '5'
    } else if d == 6 {
        '6'
    } else if d == 7 {
        '7'
    } else if d == 8 {
        '8'
    } else {
        '9'
    }
}

/// The value of a decimal digit character, if it is one.
pub open spec fn digit_value(c: char) -> Option<int> {
    if c == '0' {
        Some(0)
    } else if c == '1' {
        Some(1)
    } else if c == '2' {
        Some(2)
    } else if c == '3' {
        Some(3)
    } else if c == '4' {
        Some(4)
    } else if c == '5' {
        Some(5)
    } else if c == '6' {
        Some(6)
    } else if c == '7' {
        Some(7)
    } else if c == '8' {
        Some(8)
    } else if c == '9' {
        Some(9)
    } else {
        None
    }
}

/// The decimal numeral of a natural number, without leading zeros.
pub open spec fn numeral(n: nat) -> Seq<char>
    decreases n,
{
    if n < 10 {
        seq![digit_char(n as int)]
    } else {
        numeral(n / 10).push(digit_char((n % 10) as int))
    }
}

/// The decimal numeral of an integer, with `-` in front of a negative one.
pub open spec fn int_numeral(n: int) -> Seq<char> {
    if n < 0 {
        seq!['-'] + numeral((-n) as nat)
    } else {
        numeral(n as nat)
    }
}

fn digit_of(d: u64) -> (c: char)
    requires
        d < 10,
    ensures
        c == digit_char(d as int),
{
    if d == 0 {
        '0'
    } else if d == 1 {
        '1'
    } else if d == 2 {
        '2'
    } else if d == 3 {
        '3'
    } else if d == 4 {
        '4'
    } else if d == 5 {
        '5'
    } else if d == 6 {
        '6'
    } else if d == 7 {
        '7'
    } else if d == 8 {
        '8'
    } else {
        '9'
    }
}

/// Appends the numeral of `n` to `s`.
pub fn push_numeral(s: &mut String, n: u64)
    ensures
        final(s)@ == old(s)@ + numeral(n as nat),
    decreases n,
{
    if n >= 10 {
        push_numeral(s, n / 10);
    }
    s.push(digit_of(n % 10));
    assert(s@ =~= old(s)@ + numeral(n as nat));
}

/// Appends the numeral of the signed `n` to `s`.
pub fn push_int_numeral(s: &mut String, n: i64)
    ensures
        final(s)@ == old(s)@ + int_numeral(n as int),
{
    if n < 0 {
        s.push('-');
        let m: u64 = if n == i64::MIN {
            0x8000_0000_0000_0000u64
        } else {
            (-n) as u64
        };
        push_numeral(s, m);
        assert(s@ =~= old(s)@ + int_numeral(n as int));
    } else {
        push_numeral(s, n as u64);
    }
}

/// The numeral of `n` as a string.
pub fn numeral_string(n: u64) -> (r: String)
    ensures
        r@ == numeral(n as nat),
{
    let mut r = String::new();
    push_numeral(&mut r, n);
    assert(r@ =~= numeral(n as nat));
    r
}

/// The numeral of the signed `n` as a string.
pub fn int_numeral_string(n: i64) -> (r: String)
    ensures
        r@ == int_numeral(n as int),
{
    let mut r = String::new();
    push_int_numeral(&mut r, n);
    assert(r@ =~= int_numeral(n as int));
    r
}

/// The number that a run of decimal digits denotes; `None` when a character
/// is no digit. The empty run denotes zero.
pub open spec fn digits_number(s: Seq<char>) -> Option<nat>
    decreases s.len(),
{
    if s.len() == 0 {
        Some(0)
    } else {
        match (digits_number(s.drop_last()), digit_value(s.last())) {
            (Some(n), Some(d)) => Some((n * 10 + d) as nat),
            _ => None,
        }
    }
}

/// What parsing `s` as an unsigned 16-bit decimal gives: an optional `+`,
/// then at least one digit, the number at most 65535.
pub open spec fn parsed_u16(s: Seq<char>) -> Option<u16> {
    let body = if s.len() > 0 && s[0] == '+' {
        s.subrange(1, s.len() as int)
    } else {
        s
    };
    if body.len() == 0 {
        None
    } else {
        match digits_number(body) {
            Some(n) => if n <= 0xFFFF {
                Some(n as u16)
            } else {
                None
            },
            None => None,
        }
    }
}

proof fn lemma_digits_prefix(s: Seq<char>, i: int)
    requires
        0 <= i <= s.len(),
    ensures
        digits_number(s.take(i)) is None ==> digits_number(s) is None,
        digits_number(s) is Some ==> digits_number(s.take(i))->0 <= digits_number(s)->0,
    decreases s.len() - i,
{
    if i == s.len() {
        assert(s.take(i) =~= s);
    } else {
        lemma_digits_prefix(s, i + 1);
        assert(s.take(i + 1).drop_last() =~= s.take(i));
    }
}

fn digit_of_char(c: char) -> (r: Option<u32>)
    ensures
        match r {
            Some(d) => digit_value(c) == Some(d as int) && d < 10,
            None => digit_value(c) is None,
        },
{
    if c == '0' {
        Some(0)
    } else if c == '1' {
        Some(1)
    } else if c == '2' {
        Some(2)
    } else if c == '3' {
        Some(3)
    } else if c == '4' {
        Some(4)
    } else if c == '5' {
        Some(5)
    } else if c == '6' {
        Some(6)
    } else if c == '7' {
        Some(7)
    } else if c == '8' {
        Some(8)
    } else if c == '9' {
        Some(9)
    } else {
        None
    }
}

/// Parses `v[from..to]` as an unsigned 16-bit decimal.
#[verifier::loop_isolation(false)]
pub fn parse_u16(v: &Vec<char>, from: usize, to: usize) -> (r: Option<u16>)
    requires
        from <= to <= v.len(),
    ensures
        r == parsed_u16(v@.subrange(from as int, to as int)),
{
    let ghost s = v@.subrange(from as int, to as int);
    let mut i: usize = from;
    if from < to && v[from] == '+' {
        i = from + 1;
    }
    let start = i;
    let ghost body = v@.subrange(start as int, to as int);
    assert(body =~= if s.len() > 0 && s[0] == '+' {
        s.subrange(1, s.len() as int)
    } else {
        s
    });
    if start == to {
        return None;
    }
    let mut acc: u32 = 0;
    while i < to
        invariant
            start <= i <= to <= v.len(),
            body == v@.subrange(start as int, to as int),
            digits_number(body.take(i - start)) == Some(acc as nat),
            acc <= 0xFFFF,
        decreases to - i,
    {
        let ghost pre = body.take(i - start);
        let ghost cur = body.take(i + 1 - start);
        assert(cur.drop_last() =~= pre);
        assert(cur.last() == v@[i as int]);
        match digit_of_char(v[i]) {
            Some(d) => {
                let next: u32 = acc * 10 + d;
                if next > 0xFFFF {
                    proof {
                        lemma_digits_prefix(body, i + 1 - start);
                    }
                    return None;
                }
                acc = next;
            },
            None => {
                proof {
                    lemma_digits_prefix(body, i + 1 - start);
                }
                return None;
            },
        }
        i += 1;
    }
    assert(body.take(to - start) =~= body);
    Some(acc as u16)
}

/// The pieces of `s` between occurrences of `sep`: one more piece than there
/// are separators.
pub open spec fn split(s: Seq<char>, sep: char) -> Seq<Seq<char>>
    decreases s.len(),
{
    if s.len() == 0 {
        seq![Seq::<char>::empty()]
    } else {
        let before = split(s.drop_last(), sep);
        if s.last() == sep {
            before.push(Seq::<char>::empty())
        } else {
            before.drop_last().push(before.last().push(s.last()))
        }
    }
}

/// The pieces put together again, `sep` between each two.
pub open spec fn join(parts: Seq<Seq<char>>, sep: char) -> Seq<char>
    decreases parts.len(),
{
    if parts.len() == 0 {
        Seq::<char>::empty()
    } else if parts.len() == 1 {
        parts[0]
    } else {
        join(parts.drop_last(), sep).push(sep) + parts.last()
    }
}

/// Splitting gives at least one piece.
pub proof fn lemma_split_nonempty(s: Seq<char>, sep: char)
    ensures
        split(s, sep).len() >= 1,
    decreases s.len(),
{
    if s.len() > 0 {
        lemma_split_nonempty(s.drop_last(), sep);
    }
}

/// Joining the pieces of a split gives the text back.
pub proof fn lemma_join_split(s: Seq<char>, sep: char)
    ensures
        join(split(s, sep), sep) == s,
    decreases s.len(),
{
    lemma_split_nonempty(s, sep);
    if s.len() == 0 {
        assert(join(split(s, sep), sep) =~= s);
    } else {
        let before = split(s.drop_last(), sep);
        lemma_split_nonempty(s.drop_last(), sep);
        lemma_join_split(s.drop_last(), sep);
        if s.last() == sep {
            let now = before.push(Seq::<char>::empty());
            assert(now.drop_last() =~= before);
            assert(join(now, sep) =~= s);
        } else {
            let now = before.drop_last().push(before.last().push(s.last()));
            assert(now.drop_last() =~= before.drop_last());
            if before.len() == 1 {
                assert(join(now, sep) =~= s);
            } else {
                assert(join(now, sep) =~= join(before, sep).push(s.last()));
                assert(join(now, sep) =~= s);
            }
        }
    }
}

/// The bounds of the pieces of `v[from..to]` between occurrences of `sep`,
/// as pairs of indices into `v`.
pub fn split_bounds(v: &Vec<char>, from: usize, to: usize, sep: char) -> (r: Vec<(usize, usize)>)
    requires
        from <= to <= v.len(),
    ensures
        r@.len() == split(v@.subrange(from as int, to as int), sep).len(),
        forall|j: int|
            0 <= j < r@.len() ==> from <= (#[trigger] r@[j]).0 <= r@[j].1 <= to && v@.subrange(
                r@[j].0 as int,
                r@[j].1 as int,
            ) == split(v@.subrange(from as int, to as int), sep)[j],
{
    let mut r: Vec<(usize, usize)> = Vec::new();
    let mut start: usize = from;
    let mut i: usize = from;
    proof {
        assert(v@.subrange(from as int, from as int) =~= Seq::<char>::empty());
    }
    while i < to
        invariant
            from <= start <= i <= to <= v.len(),
            r@.len() + 1 == split(v@.subrange(from as int, i as int), sep).len(),
            forall|j: int|
                0 <= j < r@.len() ==> from <= (#[trigger] r@[j]).0 <= r@[j].1 <= to && v@.subrange(
                    r@[j].0 as int,
                    r@[j].1 as int,
                ) == split(v@.subrange(from as int, i as int), sep)[j],
            v@.subrange(start as int, i as int) == split(
                v@.subrange(from as int, i as int),
                sep,
            ).last(),
        decreases to - i,
    {
        let ghost pre = v@.subrange(from as int, i as int);
        let ghost cur = v@.subrange(from as int, i + 1);
        assert(cur.drop_last() =~= pre);
        assert(cur.last() == v@[i as int]);
        if v[i] == sep {
            r.push((start, i));
            start = i + 1;
            assert(v@.subrange(start as int, i + 1) =~= Seq::<char>::empty());
        } else {
            assert(v@.subrange(start as int, i + 1) =~= v@.subrange(start as int, i as int).push(
                v@[i as int],
            ));
        }
        i += 1;
    }
    r.push((start, to));
    r
}

} // verus!
