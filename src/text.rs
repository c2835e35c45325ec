use vstd::prelude::*;
use vstd::std_specs::iter::IteratorSpec;
use vstd::string::*;

verus! {

/// Position of the first `c` in `s`, or the length of `s` where `c` does not occur.
pub open spec fn find_char(s: Seq<char>, c: char) -> nat
    decreases s.len(),
{
    if s.len() == 0 {
        0
    } else if s[0] == c {
        0
    } else {
        1 + find_char(s.drop_first(), c)
    }
}

/// `find_char` is the first occurrence of `c`, or the length when there is none.
pub proof fn lemma_find_char(s: Seq<char>, c: char)
    ensures
        find_char(s, c) <= s.len(),
        forall|j: int| 0 <= j < find_char(s, c) ==> s[j] != c,
        find_char(s, c) < s.len() ==> s[find_char(s, c) as int] == c,
    decreases s.len(),
{
    if s.len() > 0 && s[0] != c {
        lemma_find_char(s.drop_first(), c);
        assert forall|j: int| 0 <= j < find_char(s, c) implies s[j] != c by {
            if j > 0 {
                assert(s[j] == s.drop_first()[j - 1]);
            }
        }
    }
}

/// A position that is the first occurrence of `c`, or the length, is `find_char`.
pub proof fn lemma_find_char_at(s: Seq<char>, c: char, k: int)
    requires
        0 <= k <= s.len(),
        forall|j: int| 0 <= j < k ==> s[j] != c,
        k == s.len() || s[k] == c,
    ensures
        find_char(s, c) == k,
    decreases k,
{
    if k > 0 {
        assert forall|j: int| 0 <= j < k - 1 implies s.drop_first()[j] != c by {
            assert(s[j + 1] != c);
        }
        lemma_find_char_at(s.drop_first(), c, k - 1);
    }
}

/// The lines of `s`: the pieces between newlines, where a final newline ends
/// the last line rather than starting an empty one.
pub open spec fn split_lines(s: Seq<char>) -> Seq<Seq<char>>
    decreases s.len(),
{
    if s.len() == 0 {
        seq![]
    } else {
        let i = find_char(s, '\n') as int;
        if i >= s.len() {
            seq![s]
        } else {
            seq![s.subrange(0, i)] + split_lines(s.subrange(i + 1, s.len() as int))
        }
    }
}

pub open spec fn has_no(s: Seq<char>, c: char) -> bool {
    forall|j: int| 0 <= j < s.len() ==> s[j] != c
}

/// A line that ends in a newline comes off the front of the text as it is.
pub proof fn lemma_split_lines_cons(line: Seq<char>, rest: Seq<char>)
    requires
        has_no(line, '\n'),
    ensures
        split_lines(line + seq!['\n'] + rest) == seq![line] + split_lines(rest),
{
    let s = line + seq!['\n'] + rest;
    lemma_find_char_at(s, '\n', line.len() as int);
    assert(s.subrange(0, line.len() as int) =~= line);
    assert(s.subrange(line.len() as int + 1, s.len() as int) =~= rest);
}

/// No line holds a newline.
pub proof fn lemma_split_lines_no_newline(s: Seq<char>)
    ensures
        forall|k: int| 0 <= k < split_lines(s).len() ==> has_no(#[trigger] split_lines(s)[k], '\n'),
    decreases s.len(),
{
    if s.len() > 0 {
        lemma_find_char(s, '\n');
        let i = find_char(s, '\n') as int;
        if i < s.len() {
            let rest = s.subrange(i + 1, s.len() as int);
            lemma_split_lines_no_newline(rest);
            assert forall|k: int| 0 <= k < split_lines(s).len() implies has_no(
                #[trigger] split_lines(s)[k],
                '\n',
            ) by {
                if k > 0 {
                    assert(split_lines(s)[k] == split_lines(rest)[k - 1]);
                }
            }
        }
    }
}

/// The lines of `text`, as `split_lines` gives them.
pub fn lines_of(text: &str) -> (r: Vec<String>)
    ensures
        r@.len() == split_lines(text@).len(),
        forall|k: int| 0 <= k < r@.len() ==> #[trigger] r@[k]@ == split_lines(text@)[k],
{
    let cs = chars_of(text);
    let n = cs.len();
    let mut lines: Vec<String> = Vec::new();
    let mut start: usize = 0;
    let mut i: usize = 0;
    assert(text@.subrange(0, n as int) =~= text@);
    while i < n
        invariant
            cs@ == text@,
            n == cs@.len(),
            start <= i <= n,
            forall|j: int| start <= j < i ==> cs@[j] != '\n',
            lines@.len() + split_lines(text@.subrange(start as int, n as int)).len() == split_lines(
                text@,
            ).len(),
            forall|k: int| 0 <= k < lines@.len() ==> #[trigger] lines@[k]@ == split_lines(text@)[k],
            forall|k: int|
                0 <= k < split_lines(text@.subrange(start as int, n as int)).len() ==> #[trigger] split_lines(
                    text@.subrange(start as int, n as int),
                )[k] == split_lines(text@)[lines@.len() + k],
        decreases n - i,
    {
        if cs[i] == '\n' {
            let ghost s = text@.subrange(start as int, n as int);
            let ghost rest = text@.subrange(i + 1, n as int);
            proof {
                lemma_find_char_at(s, '\n', i - start);
                assert(s.subrange(0, i - start) =~= text@.subrange(start as int, i as int));
                assert(s.subrange(i - start + 1, s.len() as int) =~= rest);
                assert(split_lines(s) == seq![text@.subrange(start as int, i as int)] + split_lines(rest));
                assert(split_lines(s)[0] == split_lines(text@)[lines@.len() as int + 0]);
                assert forall|k: int| 0 <= k < split_lines(rest).len() implies #[trigger] split_lines(rest)[k]
                    == split_lines(text@)[lines@.len() + 1 + k] by {
                    assert(split_lines(rest)[k] == split_lines(s)[k + 1]);
                }
            }
            let line = text.substring_char(start, i).to_owned();
            lines.push(line);
            start = i + 1;
        }
        i = i + 1;
    }
    if start < n {
        let ghost s = text@.subrange(start as int, n as int);
        proof {
            lemma_find_char_at(s, '\n', s.len() as int);
            assert(split_lines(s)[0] == split_lines(text@)[lines@.len() as int + 0]);
        }
        let line = text.substring_char(start, n).to_owned();
        lines.push(line);
    } else {
        assert(text@.subrange(start as int, n as int).len() == 0);
    }
    proof {
        assert(text@.subrange(0, n as int) =~= text@);
    }
    lines
}

/// The characters of `s`, in order.
pub fn chars_of(s: &str) -> (r: Vec<char>)
    ensures
        r@ == s@,
{
    broadcast use vstd::string::group_string_axioms;

    let mut it = s.chars();
    let mut r: Vec<char> = Vec::new();
    loop
        invariant
            r@ + IteratorSpec::remaining(&it) == s@,
            IteratorSpec::decrease(&it) is Some,
        ensures
            r@ == s@,
        decreases IteratorSpec::decrease(&it)->0,
    {
        match it.next() {
            Some(c) => {
                r.push(c);
            },
            None => {
                assert(r@ + IteratorSpec::remaining(&it) =~= r@);
                break ;
            },
        }
    }
    r
}

} // verus!

verus! {

pub open spec fn is_digit(c: char) -> bool {
    '0' <= c <= '9'
}

pub open spec fn digit_value(c: char) -> nat {
    (c as u32 - '0' as u32) as nat
}

pub open spec fn all_digits(s: Seq<char>) -> bool {
    forall|j: int| 0 <= j < s.len() ==> is_digit(#[trigger] s[j])
}

/// The number that a string of decimal digits stands for.
pub open spec fn decimal_value(s: Seq<char>) -> nat
    decreases s.len(),
{
    if s.len() == 0 {
        0
    } else {
        10 * decimal_value(s.drop_last()) + digit_value(s.last())
    }
}

/// A `u64` written in decimal: one or more digits, with a value that fits.
pub open spec fn parse_decimal(s: Seq<char>) -> Option<u64> {
    if s.len() > 0 && all_digits(s) && decimal_value(s) <= u64::MAX {
        Some(decimal_value(s) as u64)
    } else {
        None
    }
}

pub open spec fn digit_char(d: nat) -> char {
    if d == 0 {
        '0'
    } else if d == 1 {
        '1'
    } else if d == 2 {
        '2'
    } else if d == 3 {
        '3'
    } else if d == 4 {
        '4'
    } else if d == 5 {
        '5'
    } else if d == 6 {
        '6'
    } else if d == 7 {
        '7'
    } else if d == 8 {
        '8'
    } else {
        '9'
    }
}

/// `n` in decimal, without leading zeros.
pub open spec fn decimal_text(n: nat) -> Seq<char>
    decreases n,
{
    if n < 10 {
        seq![digit_char(n)]
    } else {
        decimal_text(n / 10).push(digit_char(n % 10))
    }
}

proof fn lemma_digit_char(d: nat)
    requires
        d < 10,
    ensures
        is_digit(digit_char(d)),
        digit_value(digit_char(d)) == d,
{
}

/// Reading back the decimal text of a number gives the number.
pub proof fn lemma_decimal_round_trip(n: nat)
    ensures
        decimal_text(n).len() > 0,
        all_digits(decimal_text(n)),
        decimal_value(decimal_text(n)) == n,
    decreases n,
{
    if n < 10 {
        lemma_digit_char(n);
        assert(decimal_text(n).drop_last() =~= Seq::<char>::empty());
        assert(decimal_value(Seq::<char>::empty()) == 0);
        assert(decimal_value(decimal_text(n)) == 10 * decimal_value(decimal_text(n).drop_last())
            + digit_value(decimal_text(n).last()));
    } else {
        lemma_decimal_round_trip(n / 10);
        lemma_digit_char(n % 10);
        assert(10 * (n / 10) + n % 10 == n);
        let t = decimal_text(n);
        assert(t.drop_last() =~= decimal_text(n / 10));
        assert(t.last() == digit_char(n % 10));
        assert(decimal_value(t) == 10 * decimal_value(t.drop_last()) + digit_value(t.last()));
        assert forall|j: int| 0 <= j < t.len() implies is_digit(#[trigger] t[j]) by {
            if j < t.len() - 1 {
                assert(t[j] == decimal_text(n / 10)[j]);
            }
        }
    }
}

/// A prefix of digits is worth no more than the whole.
proof fn lemma_decimal_prefix_le(s: Seq<char>, k: int)
    requires
        0 <= k <= s.len(),
    ensures
        decimal_value(s.subrange(0, k)) <= decimal_value(s),
    decreases s.len(),
{
    if k < s.len() {
        lemma_decimal_prefix_le(s.drop_last(), k);
        assert(s.drop_last().subrange(0, k) =~= s.subrange(0, k));
    } else {
        assert(s.subrange(0, k) =~= s);
    }
}

/// Reads the characters `cs[from..to]` as a decimal `u64`.
pub fn parse_u64(cs: &Vec<char>, from: usize, to: usize) -> (r: Option<u64>)
    requires
        from <= to <= cs@.len(),
    ensures
        r == parse_decimal(cs@.subrange(from as int, to as int)),
{
    let ghost s = cs@.subrange(from as int, to as int);
    if from == to {
        return None;
    }
    let mut acc: u64 = 0;
    let mut i: usize = from;
    while i < to
        invariant
            from <= i <= to <= cs@.len(),
            s == cs@.subrange(from as int, to as int),
            all_digits(cs@.subrange(from as int, i as int)),
            acc as nat == decimal_value(cs@.subrange(from as int, i as int)),
        decreases to - i,
    {
        let c = cs[i];
        let ghost next = cs@.subrange(from as int, i + 1);
        assert(next.drop_last() =~= cs@.subrange(from as int, i as int));
        if !('0' <= c && c <= '9') {
            assert(!is_digit(s[i - from]));
            return None;
        }
        let d = (c as u32 - '0' as u32) as u64;
        if acc > (u64::MAX - d) / 10 {
            proof {
                lemma_decimal_prefix_le(s, i + 1 - from);
                assert(s.subrange(0, i + 1 - from) =~= next);
            }
            return None;
        }
        acc = acc * 10 + d;
        i = i + 1;
        assert forall|j: int| 0 <= j < next.len() implies is_digit(#[trigger] next[j]) by {
            if j < next.len() - 1 {
                assert(next[j] == next.drop_last()[j]);
            }
        }
    }
    Some(acc)
}

/// The digit `d` as a one-character string.
fn digit_str(d: u64) -> (r: &'static str)
    requires
        d < 10,
    ensures
        r@ == seq![digit_char(d as nat)],
{
    if d == 0 {
        proof {
            reveal_strlit("0");
        }
        "0"
    } else if d == 1 {
        proof {
            reveal_strlit("1");
        }
        "1"
    } else if d == 2 {
        proof {
            reveal_strlit("2");
        }
        "2"
    } else if d == 3 {
        proof {
            reveal_strlit("3");
        }
        "3"
    } else if d == 4 {
        proof {
            reveal_strlit("4");
        }
        "4"
    } else if d == 5 {
        proof {
            reveal_strlit("5");
        }
        "5"
    } else if d == 6 {
        proof {
            reveal_strlit("6");
        }
        "6"
    } else if d == 7 {
        proof {
            reveal_strlit("7");
        }
        "7"
    } else if d == 8 {
        proof {
            reveal_strlit("8");
        }
        "8"
    } else {
        proof {
            reveal_strlit("9");
        }
        "9"
    }
}

/// Appends the decimal text of `n` to `out`.
fn write_decimal(n: u64, out: &mut String)
    ensures
        final(out)@ == old(out)@ + decimal_text(n as nat),
    decreases n,
{
    if n >= 10 {
        write_decimal(n / 10, out);
    }
    out.append(digit_str(n % 10));
    proof {
        if n >= 10 {
            assert(decimal_text(n as nat) == decimal_text((n / 10) as nat).push(digit_char((n % 10) as nat)));
        }
    }
    assert(out@ =~= old(out)@ + decimal_text(n as nat));
}

/// The decimal text of `n`.
pub fn decimal_string(n: u64) -> (r: String)
    ensures
        r@ == decimal_text(n as nat),
        parse_decimal(r@) == Some(n),
{
    proof {
        lemma_decimal_round_trip(n as nat);
    }
    let mut out = String::new();
    write_decimal(n, &mut out);
    assert(out@ =~= decimal_text(n as nat));
    out
}

} // verus!

verus! {

/// The position of the first `c` in `cs[from..]`, or the length of `cs`.
pub fn find_from(cs: &Vec<char>, from: usize, c: char) -> (r: usize)
    requires
        from <= cs@.len(),
    ensures
        r == from + find_char(cs@.subrange(from as int, cs@.len() as int), c),
        from <= r <= cs@.len(),
        r < cs@.len() ==> cs@[r as int] == c,
        forall|j: int| from <= j < r ==> cs@[j] != c,
{
    let mut i: usize = from;
    while i < cs.len()
        invariant
            from <= i <= cs@.len(),
            forall|j: int| from <= j < i ==> cs@[j] != c,
        ensures
            from <= i <= cs@.len(),
            forall|j: int| from <= j < i ==> cs@[j] != c,
            i == cs@.len() || cs@[i as int] == c,
        decreases cs@.len() - i,
    {
        if cs[i] == c {
            break ;
        }
        i = i + 1;
    }
    proof {
        let s = cs@.subrange(from as int, cs@.len() as int);
        assert forall|j: int| 0 <= j < i - from implies s[j] != c by {
            assert(s[j] == cs@[from + j]);
        }
        lemma_find_char_at(s, c, i - from);
    }
    i
}

/// Reads `s` as a decimal `u64`: one or more digits, nothing else.
pub fn parse_id(s: &str) -> (r: Option<u64>)
    ensures
        r == parse_decimal(s@),
{
    let cs = chars_of(s);
    assert(cs@.subrange(0, cs@.len() as int) =~= s@);
    parse_u64(&cs, 0, cs.len())
}

} // verus!
