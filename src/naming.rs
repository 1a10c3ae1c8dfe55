//! Names of rotated log files: `{prefix}{index}.log`, with the index written
//! in plain decimal, and the strict parse that recognises them again.
use vstd::prelude::*;

verus! {

/// The characters of a decimal digit `d < 10`.
pub open spec fn digit_char(d: nat) -> char {
    if d == 0 { '0' }
    else if d == 1 { '1' }
    else if d == 2 { '2' }
    else if d == 3 { '3' }
    else if d == 4 { '4' }
    else if d == 5 { '5' }
    else if d == 6 { '6' }
    else if d == 7 { '7' }
    else if d == 8 { '8' }
    else { '9' }
}

/// `n` written in decimal, most significant digit first, without padding.
pub open spec fn decimal(n: nat) -> Seq<char>
    decreases n,
{
    if n < 10 {
        seq![digit_char(n)]
    } else {
        decimal(n / 10).push(digit_char(n % 10))
    }
}

/// The extension every rotated file carries.
pub open spec fn log_suffix() -> Seq<char> {
    seq!['.', 'l', 'o', 'g']
}

/// The name of the rotated file with the given index.
pub open spec fn log_name(prefix: Seq<char>, index: nat) -> Seq<char> {
    prefix + decimal(index) + log_suffix()
}

pub open spec fn is_digit(c: char) -> bool {
    '0' <= c && c <= '9'
}

pub open spec fn all_digits(s: Seq<char>) -> bool {
    forall|i: int| 0 <= i < s.len() ==> is_digit(#[trigger] s[i])
}

/// The value of a string of decimal digits.
pub open spec fn digits_value(s: Seq<char>) -> nat
    decreases s.len(),
{
    if s.len() == 0 {
        0
    } else {
        digits_value(s.drop_last()) * 10 + ((s.last() as int - '0' as int) as nat)
    }
}

/// The middle segment of `name` between `prefix` and `.log`, when the name
/// starts with the prefix, ends with `.log` and the two do not overlap.
pub open spec fn middle(name: Seq<char>, prefix: Seq<char>) -> Seq<char> {
    name.subrange(prefix.len() as int, name.len() - 4)
}

/// The index that a directory entry named `name` stands for: the name is
/// `prefix`, then one or more decimal digits whose value fits in `u32`, then
/// `.log`, and nothing else.
pub open spec fn log_index_of(name: Seq<char>, prefix: Seq<char>) -> Option<u32> {
    if name.len() >= prefix.len() + 5
        && name.subrange(0, prefix.len() as int) == prefix
        && name.subrange(name.len() - 4, name.len() as int) == log_suffix()
        && all_digits(middle(name, prefix))
        && digits_value(middle(name, prefix)) <= u32::MAX
    {
        Some(digits_value(middle(name, prefix)) as u32)
    } else {
        None
    }
}

pub(crate) proof fn lemma_digits_value_grows(s: Seq<char>, i: int)
    requires
        0 <= i <= s.len(),
        all_digits(s),
    ensures
        digits_value(s.subrange(0, i)) <= digits_value(s),
    decreases s.len(),
{
    if i < s.len() {
        let t = s.drop_last();
        assert(all_digits(t)) by {
            assert forall|j: int| 0 <= j < t.len() implies is_digit(#[trigger] t[j]) by {
                assert(t[j] == s[j]);
            }
        }
        lemma_digits_value_grows(t, i);
        assert(t.subrange(0, i) == s.subrange(0, i));
        assert(is_digit(s[s.len() - 1]));
    } else {
        assert(s.subrange(0, i) =~= s);
    }
}

fn digit_str(d: u32) -> (r: &'static str)
    requires
        d < 10,
    ensures
        r@ == seq![digit_char(d as nat)],
{
    proof {
        reveal_strlit("0");
        reveal_strlit("1");
        reveal_strlit("2");
        reveal_strlit("3");
        reveal_strlit("4");
        reveal_strlit("5");
        reveal_strlit("6");
        reveal_strlit("7");
        reveal_strlit("8");
        reveal_strlit("9");
    }
    match d {
        0 => "0",
        1 => "1",
        2 => "2",
        3 => "3",
        4 => "4",
        5 => "5",
        6 => "6",
        7 => "7",
        8 => "8",
        _ => "9",
    }
}

fn append_decimal(s: &mut String, n: u32)
    ensures
        final(s)@ == old(s)@ + decimal(n as nat),
    decreases n,
{
    if n >= 10 {
        append_decimal(s, n / 10);
    }
    s.append(digit_str(n % 10));
    proof {
        if n >= 10 {
            assert(decimal(n as nat) == decimal((n / 10) as nat).push(digit_char((n % 10) as nat)));
            assert(final(s)@ =~= old(s)@ + decimal(n as nat));
        } else {
            assert(final(s)@ =~= old(s)@ + decimal(n as nat));
        }
    }
}

/// Composes the file name `{prefix}{index}.log`; the index is not padded.
pub fn log_filename(prefix: &str, index: u32) -> (r: String)
    ensures
        r@ == log_name(prefix@, index as nat),
{
    let mut s = prefix.to_owned();
    append_decimal(&mut s, index);
    let ext = ".log";
    proof {
        reveal_strlit(".log");
    }
    s.append(ext);
    s
}

proof fn lemma_digit_char(d: nat)
    requires
        d < 10,
    ensures
        is_digit(digit_char(d)),
        digit_char(d) as int - '0' as int == d,
{
}

proof fn lemma_decimal_digits(n: nat)
    ensures
        decimal(n).len() > 0,
        all_digits(decimal(n)),
        digits_value(decimal(n)) == n,
    decreases n,
{
    if n >= 10 {
        lemma_decimal_digits(n / 10);
        let s = decimal(n / 10);
        let t = s.push(digit_char(n % 10));
        assert(t.drop_last() =~= s);
        lemma_digit_char(n % 10);
        assert((n / 10) * 10 + n % 10 == n) by (nonlinear_arith);
        assert(decimal(n) == t);
        assert(t.last() == digit_char(n % 10));
        assert(digits_value(t) == digits_value(s) * 10 + ((t.last() as int - '0' as int) as nat));
        assert forall|i: int| 0 <= i < t.len() implies is_digit(#[trigger] t[i]) by {
            if i < s.len() {
                assert(t[i] == s[i]);
            }
        }
    } else {
        lemma_digit_char(n);
        let t = seq![digit_char(n)];
        assert(t.drop_last() =~= Seq::<char>::empty());
        assert(decimal(n) == t);
        assert(t.last() == digit_char(n));
        assert(digits_value(t) == digits_value(t.drop_last()) * 10 + ((t.last() as int - '0' as int) as nat));
    }
}

/// The scan recognises every name this library composes: the name of the
/// file with index `n` is read back as `n`.
pub proof fn lemma_name_round_trip(prefix: Seq<char>, n: u32)
    ensures
        log_index_of(log_name(prefix, n as nat), prefix) == Some(n),
{
    lemma_decimal_digits(n as nat);
    let name = log_name(prefix, n as nat);
    let d = decimal(n as nat);
    assert(name.subrange(0, prefix.len() as int) =~= prefix);
    assert(name.subrange(name.len() - 4, name.len() as int) =~= log_suffix());
    assert(middle(name, prefix) =~= d);
}

/// Recognises a rotated log file of `prefix` by its name and returns its
/// index: `prefix`, then one or more decimal digits, then `.log`, nothing
/// else. Digits whose value does not fit in `u32` are not an index.
pub fn log_index(name: &str, prefix: &str) -> (r: Option<u32>)
    ensures
        r == log_index_of(name@, prefix@),
{
    let n = name.unicode_len();
    let p = prefix.unicode_len();
    if n < 5 || n - 5 < p {
        return None;
    }
    let mut i: usize = 0;
    while i < p
        invariant
            0 <= i <= p,
            p == prefix@.len(),
            n == name@.len(),
            p + 5 <= n,
            forall|j: int| 0 <= j < i ==> name@[j] == prefix@[j],
        decreases p - i,
    {
        if name.get_char(i) != prefix.get_char(i) {
            assert(name@.subrange(0, p as int)[i as int] != prefix@[i as int]);
            return None;
        }
        i += 1;
    }
    assert(name@.subrange(0, p as int) =~= prefix@);
    let ghost tail = name@.subrange(n - 4, n as int);
    if name.get_char(n - 4) != '.' {
        assert(tail[0] != log_suffix()[0]);
        return None;
    }
    if name.get_char(n - 3) != 'l' {
        assert(tail[1] != log_suffix()[1]);
        return None;
    }
    if name.get_char(n - 2) != 'o' {
        assert(tail[2] != log_suffix()[2]);
        return None;
    }
    if name.get_char(n - 1) != 'g' {
        assert(tail[3] != log_suffix()[3]);
        return None;
    }
    assert(tail =~= log_suffix());
    let ghost mid = middle(name@, prefix@);
    let mut value: u64 = 0;
    let mut k: usize = p;
    while k < n - 4
        invariant
            p <= k <= n - 4,
            p == prefix@.len(),
            n == name@.len(),
            p + 5 <= n,
            mid == middle(name@, prefix@),
            mid.len() == n - 4 - p,
            all_digits(mid.subrange(0, k - p)),
            value == digits_value(mid.subrange(0, k - p)),
            value <= u32::MAX,
        decreases n - 4 - k,
    {
        let c = name.get_char(k);
        assert(mid[k - p] == c);
        if c < '0' || c > '9' {
            assert(!is_digit(mid[k - p]));
            return None;
        }
        let d: u64 = (c as u32 - '0' as u32) as u64;
        let ghost before = mid.subrange(0, k - p);
        let ghost after = mid.subrange(0, k + 1 - p);
        assert(after.drop_last() =~= before);
        assert(after.last() == c);
        value = value * 10 + d;
        assert(all_digits(after)) by {
            assert forall|j: int| 0 <= j < after.len() implies is_digit(#[trigger] after[j]) by {
                if j < before.len() {
                    assert(after[j] == before[j]);
                }
            }
        }
        if value > u32::MAX as u64 {
            proof {
                if all_digits(mid) {
                    lemma_digits_value_grows(mid, k + 1 - p);
                }
            }
            return None;
        }
        k += 1;
    }
    assert(mid.subrange(0, k - p) =~= mid);
    Some(value as u32)
}

} // verus!
