//! Decimal rendering of integers into text.
use vstd::prelude::*;
use vstd::string::StringExecFns;

verus! {

/// The character of a decimal digit.
pub open spec fn digit_char(d: int) -> char {
    if d <= 0 {
        '0'
    } else if d == 1 {
        '1'
    } else if d == 2 {
        '2'
    } else if d == 3 {
        '3'
    } else if d == 4 {
        '4'
    } else if d == 5 {
        '5'
    } else if d == 6 {
        '6'
    } else if d == 7 {
        '7'
    } else if d == 8 {
        '8'
    } else {
        '9'
    }
}

/// The decimal digits of `n`, most significant first, without leading zeros.
pub open spec fn decimal(n: nat) -> Seq<char>
    decreases n,
{
    if n < 10 {
        seq![digit_char(n as int)]
    } else {
        decimal(n / 10).push(digit_char((n % 10) as int))
    }
}

pub(crate) fn digit_str(d: u64) -> (r: &'static str)
    requires
        d < 10,
    ensures
        r@ == seq![digit_char(d as int)],
{
    match d {
        0 => {
            proof {
                reveal_strlit("0");
            }
            "0"
        },
        1 => {
            proof {
                reveal_strlit("1");
            }
            "1"
        },
        2 => {
            proof {
                reveal_strlit("2");
            }
            "2"
        },
        3 => {
            proof {
                reveal_strlit("3");
            }
            "3"
        },
        4 => {
            proof {
                reveal_strlit("4");
            }
            "4"
        },
        5 => {
            proof {
                reveal_strlit("5");
            }
            "5"
        },
        6 => {
            proof {
                reveal_strlit("6");
            }
            "6"
        },
        7 => {
            proof {
                reveal_strlit("7");
            }
            "7"
        },
        8 => {
            proof {
                reveal_strlit("8");
            }
            "8"
        },
        _ => {
            proof {
                reveal_strlit("9");
            }
            "9"
        },
    }
}

/// Appends the decimal digits of `n` to `s`.
pub fn push_decimal(s: &mut String, n: u64)
    ensures
        final(s)@ == old(s)@ + decimal(n as nat),
    decreases n,
{
    if n >= 10 {
        push_decimal(s, n / 10);
    }
    s.append(digit_str(n % 10));
    assert(s@ =~= old(s)@ + decimal(n as nat));
}

pub open spec fn is_digit(c: char) -> bool {
    '0' <= c <= '9'
}

pub open spec fn digit_value(c: char) -> int {
    c as int - '0' as int
}

/// The number that a run of decimal digits spells.
pub open spec fn digits_value(ds: Seq<char>) -> int
    decreases ds.len(),
{
    if ds.len() == 0 {
        0
    } else {
        digits_value(ds.drop_last()) * 10 + digit_value(ds.last())
    }
}

pub open spec fn all_digits(ds: Seq<char>) -> bool {
    forall|i: int| 0 <= i < ds.len() ==> is_digit(#[trigger] ds[i])
}

/// The value of a field of one to ten decimal digits.
pub open spec fn digits_field(ds: Seq<char>) -> Option<int> {
    if 0 < ds.len() <= 10 && all_digits(ds) {
        Some(digits_value(ds))
    } else {
        None
    }
}

pub proof fn lemma_digit_char(d: int)
    requires
        0 <= d < 10,
    ensures
        is_digit(digit_char(d)),
        digit_value(digit_char(d)) == d,
{
}

pub proof fn lemma_decimal(n: nat)
    ensures
        all_digits(decimal(n)),
        digits_value(decimal(n)) == n,
        0 < decimal(n).len(),
    decreases n,
{
    let d = decimal(n);
    if n >= 10 {
        lemma_decimal(n / 10);
        lemma_digit_char((n % 10) as int);
        assert(d.drop_last() =~= decimal(n / 10));
        assert(digits_value(d) == digits_value(decimal(n / 10)) * 10 + digit_value(d.last()));
    } else {
        lemma_digit_char(n as int);
        assert(d.drop_last() =~= Seq::<char>::empty());
        assert(digits_value(d) == digits_value(d.drop_last()) * 10 + digit_value(d.last()));
    }
}

/// A number below `10^k` has at most `k` digits.
pub proof fn lemma_decimal_len(n: nat, k: nat)
    requires
        1 <= k,
        n < pow10(k),
    ensures
        decimal(n).len() <= k,
    decreases k,
{
    if n >= 10 {
        assert(k >= 2) by {
            if k == 1 {
                assert(pow10(1) == 10) by {
                    reveal_with_fuel(pow10, 2);
                }
            }
        }
        assert(n / 10 < pow10((k - 1) as nat));
        lemma_decimal_len(n / 10, (k - 1) as nat);
    }
}

pub proof fn lemma_pow10_ten()
    ensures
        pow10(10) == 10_000_000_000,
{
    reveal_with_fuel(pow10, 11);
}

proof fn lemma_pow10_monotone(i: nat, j: nat)
    requires
        i <= j,
    ensures
        1 <= pow10(i) <= pow10(j),
    decreases j,
{
    if j > 0 {
        if i < j {
            lemma_pow10_monotone(i, (j - 1) as nat);
        } else {
            lemma_pow10_monotone((i - 1) as nat, (j - 1) as nat);
        }
    }
}

/// Reads a field of one to ten decimal digits.
pub fn parse_digits(field: &Vec<char>) -> (r: Option<u64>)
    ensures
        r matches Some(v) ==> v < 10_000_000_000,
        match digits_field(field@) {
            Some(v) => r == Some(v as u64),
            None => r is None,
        },
{
    if field.len() == 0 || field.len() > 10 {
        return None;
    }
    let mut value: u64 = 0;
    let mut i: usize = 0;
    while i < field.len()
        invariant
            0 < field@.len() <= 10,
            i <= field@.len(),
            all_digits(field@.take(i as int)),
            value == digits_value(field@.take(i as int)),
            value < pow10(i as nat),
        decreases field@.len() - i,
    {
        let c = field[i];
        if !('0' <= c && c <= '9') {
            assert(!all_digits(field@));
            return None;
        }
        proof {
            assert(field@.take(i as int + 1).drop_last() =~= field@.take(i as int));
            assert(pow10(i as nat + 1) == pow10(i as nat) * 10);
            lemma_pow10_monotone(i as nat + 1, 10);
            lemma_pow10_ten();
        }
        value = value * 10 + (c as u64 - '0' as u64);
        i = i + 1;
    }
    assert(field@.take(field@.len() as int) =~= field@);
    proof {
        lemma_pow10_monotone(i as nat, 10);
        lemma_pow10_ten();
    }
    Some(value)
}

pub open spec fn pow10(n: nat) -> int
    decreases n,
{
    if n == 0 {
        1
    } else {
        pow10((n - 1) as nat) * 10
    }
}

/// Joins `parts` with `sep` between consecutive parts.
pub open spec fn join(parts: Seq<Seq<char>>, sep: char) -> Seq<char>
    decreases parts.len(),
{
    if parts.len() == 0 {
        Seq::empty()
    } else if parts.len() == 1 {
        parts[0]
    } else {
        join(parts.drop_last(), sep) + seq![sep] + parts.last()
    }
}

pub open spec fn free_of(part: Seq<char>, sep: char) -> bool {
    forall|i: int| 0 <= i < part.len() ==> part[i] != sep
}

pub open spec fn all_free_of(parts: Seq<Seq<char>>, sep: char) -> bool {
    forall|i: int| 0 <= i < parts.len() ==> free_of(#[trigger] parts[i], sep)
}

pub open spec fn views(parts: Seq<Vec<char>>) -> Seq<Seq<char>> {
    parts.map_values(|p: Vec<char>| p@)
}

/// Splitting the join of parts free of `sep` gives the parts back.
pub(crate) proof fn lemma_join_unique(a: Seq<Seq<char>>, b: Seq<Seq<char>>, sep: char)
    requires
        a.len() > 0,
        b.len() > 0,
        all_free_of(a, sep),
        all_free_of(b, sep),
        join(a, sep) == join(b, sep),
    ensures
        a == b,
    decreases a.len() + b.len(),
{
    let ja = join(a, sep);
    if a.len() == 1 && b.len() == 1 {
    } else if a.len() == 1 {
        let k = join(b.drop_last(), sep).len() as int;
        assert(ja[k] == sep);
        assert(a[0][k] == sep);
    } else if b.len() == 1 {
        let k = join(a.drop_last(), sep).len() as int;
        assert(ja[k] == sep);
        assert(b[0][k] == sep);
    } else {
        let la = a.last();
        let lb = b.last();
        let ka = join(a.drop_last(), sep).len() as int;
        let kb = join(b.drop_last(), sep).len() as int;
        assert(ja == join(a.drop_last(), sep) + seq![sep] + la);
        assert(ja == join(b.drop_last(), sep) + seq![sep] + lb);
        if ka < kb {
            assert(ja[kb] == sep);
            assert(la[kb - ka - 1] == sep);
        } else if kb < ka {
            assert(ja[ka] == sep);
            assert(lb[ka - kb - 1] == sep);
        } else {
            assert(la =~= ja.subrange(ka + 1, ja.len() as int));
            assert(lb =~= ja.subrange(kb + 1, ja.len() as int));
            assert(join(a.drop_last(), sep) =~= ja.subrange(0, ka));
            assert(join(b.drop_last(), sep) =~= ja.subrange(0, kb));
            assert forall|i: int| 0 <= i < a.drop_last().len() implies free_of(#[trigger] a.drop_last()[i], sep) by {
                assert(free_of(a[i], sep));
            }
            assert forall|i: int| 0 <= i < b.drop_last().len() implies free_of(#[trigger] b.drop_last()[i], sep) by {
                assert(free_of(b[i], sep));
            }
            lemma_join_unique(a.drop_last(), b.drop_last(), sep);
            assert(a =~= a.drop_last().push(la));
            assert(b =~= b.drop_last().push(lb));
        }
    }
}

/// Splits `text` at every `sep`.
pub fn split_at_char(text: &Vec<char>, sep: char) -> (r: Vec<Vec<char>>)
    ensures
        r@.len() > 0,
        join(views(r@), sep) == text@,
        all_free_of(views(r@), sep),
        forall|parts: Seq<Seq<char>>|
            #![trigger join(parts, sep)]
            parts.len() > 0 && all_free_of(parts, sep) && join(parts, sep) == text@ ==> views(r@) == parts,
{
    let mut done: Vec<Vec<char>> = Vec::new();
    let mut current: Vec<char> = Vec::new();
    let mut i: usize = 0;
    while i < text.len()
        invariant
            i <= text@.len(),
            join(views(done@.push(current)), sep) == text@.take(i as int),
            all_free_of(views(done@.push(current)), sep),
        decreases text@.len() - i,
    {
        let c = text[i];
        let ghost before = views(done@.push(current));
        if c == sep {
            let finished = current;
            done.push(finished);
            current = Vec::new();
            proof {
                let after = views(done@.push(current));
                assert(after.drop_last() =~= before);
                assert(after.last() =~= Seq::<char>::empty());
                assert(text@.take(i as int + 1) =~= text@.take(i as int) + seq![sep]);
                assert(join(after, sep) =~= join(before, sep) + seq![sep] + Seq::<char>::empty());
                assert forall|j: int| 0 <= j < after.len() implies free_of(#[trigger] after[j], sep) by {
                    if j < before.len() {
                        assert(after[j] == before[j]);
                    }
                }
            }
        } else {
            current.push(c);
            proof {
                let after = views(done@.push(current));
                assert(after.drop_last() =~= before.drop_last());
                assert(after.last() =~= before.last().push(c));
                assert(text@.take(i as int + 1) =~= text@.take(i as int).push(c));
                if before.len() == 1 {
                    assert(join(after, sep) =~= join(before, sep).push(c));
                } else {
                    assert(join(after, sep) =~= join(before, sep).push(c));
                }
                assert forall|j: int| 0 <= j < after.len() implies free_of(#[trigger] after[j], sep) by {
                    if j < before.len() - 1 {
                        assert(after[j] == before[j]);
                    } else {
                        assert(free_of(before[j], sep));
                    }
                }
            }
        }
        i = i + 1;
    }
    done.push(current);
    assert(text@.take(text@.len() as int) =~= text@);
    proof {
        assert forall|parts: Seq<Seq<char>>|
            #![trigger join(parts, sep)]
            parts.len() > 0 && all_free_of(parts, sep) && join(parts, sep) == text@ implies views(done@) == parts by {
            lemma_join_unique(views(done@), parts, sep);
        }
    }
    done
}

} // verus!
