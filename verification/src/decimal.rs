//! Decimal numerals: the model, the allocating renderer, and the allocation-free
//! renderer for process ids.
use vstd::prelude::*;

verus! {

/// `i32::MAX` is `2147483647` (10 digits); pids are positive, so 10 digits is the
/// widest decimal a pid can require.
pub const MAX_PID_DIGITS: usize = 10;

/// The ASCII code of `0`.
const ASCII_ZERO: u8 = 48;

/// The character of one decimal digit.
pub open spec fn digit(d: int) -> char {
    ('0' as int + d) as char
}

/// The decimal numeral of `n`, most significant digit first.
pub open spec fn decimal(n: nat) -> Seq<char>
    decreases n,
{
    if n < 10 {
        seq![digit(n as int)]
    } else {
        decimal(n / 10).push(digit((n % 10) as int))
    }
}

/// A string of ASCII characters as bytes.
pub open spec fn ascii_bytes(s: Seq<char>) -> Seq<u8> {
    s.map_values(|c: char| c as u8)
}

/// What a pid is rendered as: its decimal numeral in ASCII, or `0` where it is
/// not positive.
pub open spec fn pid_decimal(pid: i32) -> Seq<u8> {
    ascii_bytes(
        decimal(
            if pid > 0 {
                pid as nat
            } else {
                0
            },
        ),
    )
}

/// The number that a string of decimal digits stands for.
pub open spec fn decimal_value(s: Seq<char>) -> int
    decreases s.len(),
{
    if s.len() == 0 {
        0
    } else {
        10 * decimal_value(s.drop_last()) + (s.last() as int - '0' as int)
    }
}

/// Whether `s` is the numeral of `n`: one or more decimal digits, without a leading
/// zero unless `0` is all there is, whose value is `n`.
pub open spec fn denotes(s: Seq<char>, n: int) -> bool {
    &&& s.len() >= 1
    &&& forall|i: int| 0 <= i < s.len() ==> '0' <= #[trigger] s[i] <= '9'
    &&& s[0] == '0' ==> s.len() == 1
    &&& decimal_value(s) == n
}

/// The number that a string of ASCII digits stands for.
pub open spec fn ascii_value(bytes: Seq<u8>) -> int
    decreases bytes.len(),
{
    if bytes.len() == 0 {
        0
    } else {
        10 * ascii_value(bytes.drop_last()) + (bytes.last() as int - 48)
    }
}

/// Whether `bytes` are the ASCII numeral of `n`.
pub open spec fn ascii_denotes(bytes: Seq<u8>, n: int) -> bool {
    &&& bytes.len() >= 1
    &&& forall|i: int| 0 <= i < bytes.len() ==> 48 <= #[trigger] bytes[i] <= 57
    &&& bytes[0] == 48 ==> bytes.len() == 1
    &&& ascii_value(bytes) == n
}

/// The digits still to be written of `n`: none once `n` has been used up.
spec fn pending(n: nat) -> Seq<char> {
    if n == 0 {
        Seq::empty()
    } else {
        decimal(n)
    }
}

proof fn lemma_pid_width(n: nat)
    requires
        n <= i32::MAX,
    ensures
        decimal(n).len() <= MAX_PID_DIGITS,
{
    reveal_with_fuel(decimal, 10);
}

/// Formats `pid` as decimal ASCII into `buf` without allocating (async-signal-safe),
/// returning the populated trailing slice. A non-positive `pid` is defensively
/// rendered as `"0"` (which a real pid never is).
pub fn format_pid_decimal(pid: i32, buf: &mut [u8; MAX_PID_DIGITS]) -> (out: &[u8])
    ensures
        out@ == pid_decimal(pid),
        ascii_denotes(
            out@,
            if pid > 0 {
                pid as int
            } else {
                0
            },
        ),
        out@.len() <= MAX_PID_DIGITS,
        final(buf)@ == old(buf)@.take(MAX_PID_DIGITS - out@.len()) + out@,
{
    let start: u32 = if pid > 0 {
        pid as u32
    } else {
        0
    };
    let mut n: u32 = start;
    let mut i: usize = MAX_PID_DIGITS;
    proof {
        lemma_pid_width(n as nat);
        law_pid_decimal_reads_back(pid);
    }
    if n == 0 {
        i -= 1;
        buf[i] = ASCII_ZERO;
    }
    while n > 0
        invariant
            i <= MAX_PID_DIGITS,
            pending(n as nat).len() <= i,
            ascii_bytes(pending(n as nat)) + buf@.skip(i as int) == ascii_bytes(
                decimal(start as nat),
            ),
            buf@.take(i as int) == old(buf)@.take(i as int),
        decreases n,
    {
        i -= 1;
        buf[i] = ASCII_ZERO + (n % 10) as u8;
        n /= 10;
    }
    &buf[i..MAX_PID_DIGITS]
}

/// One digit as text.
fn digit_text(d: u64) -> (text: &'static str)
    requires
        d < 10,
    ensures
        text@ == seq![digit(d as int)],
{
    proof {
        reveal_strlit("0");
        reveal_strlit("1");
        reveal_strlit("2");
        reveal_strlit("3");
        reveal_strlit("4");
        reveal_strlit("5");
        reveal_strlit("6");
        reveal_strlit("7");
        reveal_strlit("8");
        reveal_strlit("9");
    }
    match d {
        0 => "0",
        1 => "1",
        2 => "2",
        3 => "3",
        4 => "4",
        5 => "5",
        6 => "6",
        7 => "7",
        8 => "8",
        _ => "9",
    }
}

/// Renders `n` in decimal.
pub fn decimal_string(n: u64) -> (text: String)
    ensures
        text@ == decimal(n as nat),
        denotes(text@, n as int),
    decreases n,
{
    proof {
        law_decimal_denotes(n as nat);
    }
    if n < 10 {
        digit_text(n).to_owned()
    } else {
        let mut text = decimal_string(n / 10);
        text.append(digit_text(n % 10));
        text
    }
}

/// A numeral is made of decimal digits, has at least one, starts with `0` only
/// where it is `0` itself, and its value is the number that was rendered.
pub proof fn law_decimal_is_canonical(n: nat)
    ensures
        decimal(n).len() >= 1,
        forall|i: int| 0 <= i < decimal(n).len() ==> '0' <= #[trigger] decimal(n)[i] <= '9',
        decimal(n)[0] == '0' <==> n == 0,
        decimal_value(decimal(n)) == n,
    decreases n,
{
    if n < 10 {
        assert(decimal(n).drop_last() == Seq::<char>::empty());
        assert(decimal_value(Seq::empty()) == 0);
    } else {
        law_decimal_is_canonical(n / 10);
        assert(decimal(n).drop_last() == decimal(n / 10));
    }
}

/// What a number is rendered as denotes it.
pub proof fn law_decimal_denotes(n: nat)
    ensures
        denotes(decimal(n), n as int),
{
    law_decimal_is_canonical(n);
}

/// A number has one numeral only: what denotes it is what it is rendered as.
pub proof fn law_numeral_is_unique(s: Seq<char>, n: nat)
    requires
        denotes(s, n as int),
    ensures
        s == decimal(n),
    decreases s.len(),
{
    let front = s.drop_last();
    let last = s.last() as int - '0' as int;
    assert('0' <= s[s.len() - 1] <= '9');
    assert(digit(last) == s.last());
    if s.len() == 1 {
        assert(front == Seq::<char>::empty());
        assert(decimal_value(front) == 0);
        assert(s =~= decimal(n));
    } else {
        assert forall|i: int| 0 <= i < front.len() implies '0' <= #[trigger] front[i] <= '9' by {
            assert(front[i] == s[i]);
        }
        assert(front[0] == s[0]);
        lemma_value_is_positive(front);
        let m = decimal_value(front);
        law_numeral_is_unique(front, m as nat);
        assert(n == 10 * m + last);
        assert(n / 10 == m && n % 10 == last);
        assert(s =~= decimal(n));
    }
}

proof fn lemma_value_is_positive(s: Seq<char>)
    requires
        s.len() >= 1,
        forall|i: int| 0 <= i < s.len() ==> '0' <= #[trigger] s[i] <= '9',
        s[0] != '0',
    ensures
        decimal_value(s) > 0,
    decreases s.len(),
{
    let front = s.drop_last();
    assert('0' <= s[s.len() - 1] <= '9');
    if s.len() == 1 {
        assert(decimal_value(front) == 0);
    } else {
        assert forall|i: int| 0 <= i < front.len() implies '0' <= #[trigger] front[i] <= '9' by {
            assert(front[i] == s[i]);
        }
        lemma_value_is_positive(front);
    }
}

/// The bytes that a pid is rendered as, read back as a decimal number, give that
/// pid; where it is not positive, they give zero.
pub proof fn law_pid_decimal_reads_back(pid: i32)
    ensures
        pid > 0 ==> ascii_denotes(pid_decimal(pid), pid as int),
        pid <= 0 ==> ascii_denotes(pid_decimal(pid), 0),
{
    let n: nat = if pid > 0 {
        pid as nat
    } else {
        0
    };
    law_decimal_denotes(n);
    lemma_ascii_value(decimal(n));
    let bytes = pid_decimal(pid);
    assert forall|i: int| 0 <= i < bytes.len() implies 48 <= #[trigger] bytes[i] <= 57 by {
        assert('0' <= decimal(n)[i] <= '9');
    }
}

proof fn lemma_ascii_value(s: Seq<char>)
    requires
        forall|i: int| 0 <= i < s.len() ==> '0' <= #[trigger] s[i] <= '9',
    ensures
        ascii_value(ascii_bytes(s)) == decimal_value(s),
    decreases s.len(),
{
    if s.len() > 0 {
        let front = s.drop_last();
        assert forall|i: int| 0 <= i < front.len() implies '0' <= #[trigger] front[i] <= '9' by {
            assert(front[i] == s[i]);
        }
        lemma_ascii_value(front);
        assert('0' <= s[s.len() - 1] <= '9');
        assert(ascii_bytes(s).drop_last() =~= ascii_bytes(front));
    }
}

/// Two numbers never share a numeral.
pub proof fn law_decimal_is_injective(a: nat, b: nat)
    requires
        decimal(a) == decimal(b),
    ensures
        a == b,
{
    law_decimal_is_canonical(a);
    law_decimal_is_canonical(b);
}

/// Two positive pids never render alike, and none renders as the `0` that stands
/// for a pid that is not positive.
pub proof fn law_pid_decimal_is_injective(a: i32, b: i32)
    requires
        a > 0,
        pid_decimal(a) == pid_decimal(b),
    ensures
        a == b,
{
    let x = a as nat;
    let y: nat = if b > 0 {
        b as nat
    } else {
        0
    };
    law_decimal_is_canonical(x);
    law_decimal_is_canonical(y);
    assert(decimal(x) =~= decimal(y)) by {
        assert(decimal(x).len() == pid_decimal(a).len());
        assert(decimal(y).len() == pid_decimal(b).len());
        assert forall|i: int| 0 <= i < decimal(x).len() implies decimal(x)[i] == decimal(y)[i] by {
            assert(pid_decimal(a)[i] == decimal(x)[i] as u8);
            assert(pid_decimal(b)[i] == decimal(y)[i] as u8);
        }
    }
    law_decimal_is_injective(x, y);
}

/// A pid occupies between one byte and the whole buffer, and only ASCII digits.
pub proof fn law_pid_decimal_fits(pid: i32)
    ensures
        1 <= pid_decimal(pid).len() <= MAX_PID_DIGITS,
        forall|i: int|
            0 <= i < pid_decimal(pid).len() ==> 48 <= #[trigger] pid_decimal(pid)[i] <= 57,
{
    let n: nat = if pid > 0 {
        pid as nat
    } else {
        0
    };
    lemma_pid_width(n);
    law_decimal_is_canonical(n);
    assert forall|i: int| 0 <= i < pid_decimal(pid).len() implies 48 <= #[trigger] pid_decimal(
        pid,
    )[i] <= 57 by {
        assert('0' <= decimal(n)[i] <= '9');
    }
}

} // verus!
