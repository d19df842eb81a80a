//! Text: numbers written out and read back, and the order of file names.
use vstd::prelude::*;
use vstd::string::*;

verus! {

/// The character of a digit below 16.
pub open spec fn digit_char(d: nat) -> char {
    if d < 10 {
        (48 + d) as char
    } else {
        (87 + d) as char
    }
}

/// `n` in the given base, most significant digit first, with no leading zero.
pub open spec fn digits(n: nat, base: nat) -> Seq<char>
    decreases n,
{
    if base < 2 || n < base {
        seq![digit_char(n)]
    } else {
        proof {
            assert(n / base < n) by (nonlinear_arith)
                requires
                    2 <= base,
                    base <= n,
            ;
        }
        digits(n / base, base).push(digit_char(n % base))
    }
}

/// `n` in decimal.
pub open spec fn decimal(n: nat) -> Seq<char> {
    digits(n, 10)
}

/// `n` in hexadecimal, behind `0x`.
pub open spec fn hex(n: nat) -> Seq<char> {
    "0x"@ + digits(n, 16)
}

/// The text of one digit.
fn digit_text(d: u64) -> (t: &'static str)
    requires
        d < 16,
    ensures
        t@ == seq![digit_char(d as nat)],
{
    proof {
        reveal_strlit("0");
        reveal_strlit("1");
        reveal_strlit("2");
        reveal_strlit("3");
        reveal_strlit("4");
        reveal_strlit("5");
        reveal_strlit("6");
        reveal_strlit("7");
        reveal_strlit("8");
        reveal_strlit("9");
        reveal_strlit("a");
        reveal_strlit("b");
        reveal_strlit("c");
        reveal_strlit("d");
        reveal_strlit("e");
        reveal_strlit("f");
    }
    let t = if d == 0 {
        "0"
    } else if d == 1 {
        "1"
    } else if d == 2 {
        "2"
    } else if d == 3 {
        "3"
    } else if d == 4 {
        "4"
    } else if d == 5 {
        "5"
    } else if d == 6 {
        "6"
    } else if d == 7 {
        "7"
    } else if d == 8 {
        "8"
    } else if d == 9 {
        "9"
    } else if d == 10 {
        "a"
    } else if d == 11 {
        "b"
    } else if d == 12 {
        "c"
    } else if d == 13 {
        "d"
    } else if d == 14 {
        "e"
    } else {
        "f"
    };
    assert(t@ =~= seq![digit_char(d as nat)]);
    t
}

/// Appends `n` in the given base.
fn push_digits(out: &mut String, n: u64, base: u64)
    requires
        2 <= base <= 16,
    ensures
        final(out)@ == old(out)@ + digits(n as nat, base as nat),
    decreases n,
{
    if n < base {
        out.append(digit_text(n));
    } else {
        assert(n / base < n) by (nonlinear_arith)
            requires
                2 <= base,
                base <= n,
        ;
        push_digits(out, n / base, base);
        out.append(digit_text(n % base));
        assert(out@ =~= old(out)@ + digits(n as nat, base as nat));
    }
}

/// Appends `n` in decimal.
pub fn push_decimal(out: &mut String, n: u64)
    ensures
        final(out)@ == old(out)@ + decimal(n as nat),
{
    push_digits(out, n, 10);
}

/// Appends `n` in hexadecimal, behind `0x`.
pub fn push_hex(out: &mut String, n: u64)
    ensures
        final(out)@ == old(out)@ + hex(n as nat),
{
    out.append("0x");
    push_digits(out, n, 16);
    assert(out@ =~= old(out)@ + hex(n as nat));
}

/// `bytes` as a list in square brackets: `[1, 2, 3]`.
pub open spec fn byte_list(bytes: Seq<u8>) -> Seq<char> {
    "["@ + byte_items(bytes) + "]"@
}

/// The items of a list, each in decimal, with a comma and a space between.
pub open spec fn byte_items(bytes: Seq<u8>) -> Seq<char>
    decreases bytes.len(),
{
    if bytes.len() == 0 {
        seq![]
    } else if bytes.len() == 1 {
        decimal(bytes[0] as nat)
    } else {
        byte_items(bytes.drop_last()) + ", "@ + decimal(bytes.last() as nat)
    }
}

/// Appends `bytes` as a list in square brackets.
pub fn push_byte_list(out: &mut String, bytes: &[u8])
    ensures
        final(out)@ == old(out)@ + byte_list(bytes@),
{
    out.append("[");
    for i in 0..bytes.len()
        invariant
            out@ == old(out)@ + "["@ + byte_items(bytes@.take(i as int)),
    {
        let ghost before = out@;
        if i > 0 {
            out.append(", ");
        }
        push_decimal(out, bytes[i] as u64);
        assert(bytes@.take(i + 1).drop_last() =~= bytes@.take(i as int));
        assert(bytes@.take(i + 1).last() == bytes@[i as int]);
        assert(out@ =~= old(out)@ + "["@ + byte_items(bytes@.take(i + 1)));
    }
    assert(bytes@.take(bytes@.len() as int) =~= bytes@);
    out.append("]");
    assert(out@ =~= old(out)@ + byte_list(bytes@));
}

// ---------------------------------------------------------------------------
// Reading numbers
// ---------------------------------------------------------------------------

/// Is `c` a decimal digit?
pub open spec fn is_digit(c: char) -> bool {
    '0' <= c && c <= '9'
}

/// The number that decimal digits stand for.
pub open spec fn digits_value(s: Seq<char>) -> nat
    decreases s.len(),
{
    if s.len() == 0 {
        0
    } else {
        10 * digits_value(s.drop_last()) + (s.last() as nat - 48) as nat
    }
}

/// Reads an unsigned decimal number, with an optional plus sign before it.
pub open spec fn parse_spec(s: Seq<char>) -> Option<u64> {
    if s.len() > 0 && s[0] == '+' {
        parse_digits(s.skip(1))
    } else {
        parse_digits(s)
    }
}

/// Reads an unsigned decimal number: one digit or more, and nothing else.
pub open spec fn parse_digits(body: Seq<char>) -> Option<u64> {
    if body.len() == 0 || !(forall|i: int| 0 <= i < body.len() ==> is_digit(#[trigger] body[i]))
        || digits_value(body) > u64::MAX {
        None
    } else {
        Some(digits_value(body) as u64)
    }
}

/// The characters of `s`.
pub fn chars_of(s: &str) -> (out: Vec<char>)
    ensures
        out@ == s@,
{
    let mut out: Vec<char> = Vec::new();
    let n: usize = s.unicode_len();
    let mut i: usize = 0;
    while i < n
        invariant
            n == s@.len(),
            i <= n,
            out@ == s@.take(i as int),
        decreases n - i,
    {
        out.push(s.get_char(i));
        i = i + 1;
        assert(s@.take(i as int) =~= s@.take(i - 1).push(s@[i - 1]));
    }
    assert(s@.take(n as int) =~= s@);
    out
}

/// Reads an unsigned decimal number from `s[from..]`.
pub fn parse_u64(s: &Vec<char>, from: usize) -> (r: Option<u64>)
    requires
        from <= s@.len(),
    ensures
        r == parse_spec(s@.skip(from as int)),
{
    let ghost whole = s@.skip(from as int);
    let mut start: usize = from;
    if from < s.len() && s[from] == '+' {
        start = from + 1;
    }
    let ghost body = s@.skip(start as int);
    assert(start == from + 1 ==> body =~= whole.skip(1));
    assert(from < s@.len() ==> whole[0] == s@[from as int]);
    if start == s.len() {
        return None;
    }
    let mut value: u64 = 0;
    let mut i: usize = start;
    while i < s.len()
        invariant
            start <= i <= s@.len(),
            body == s@.skip(start as int),
            parse_spec(s@.skip(from as int)) == parse_digits(body),
            value == digits_value(body.take(i - start)),
            forall|k: int| 0 <= k < i - start ==> is_digit(#[trigger] body[k]),
        decreases s@.len() - i,
    {
        let c = s[i];
        let ghost k = i - start;
        assert(body[k] == c);
        if c < '0' || c > '9' {
            return None;
        }
        let d: u64 = (c as u64) - 48;
        assert(body.take(k + 1).drop_last() =~= body.take(k));
        if value > (u64::MAX - d) / 10 {
            proof {
                digits_value_grows(body, k + 1);
            }
            return None;
        }
        value = value * 10 + d;
        i = i + 1;
    }
    assert(body.take(i - start) =~= body);
    Some(value)
}

/// Every prefix of digits is worth no more than the whole.
proof fn digits_value_grows(s: Seq<char>, k: int)
    requires
        0 <= k <= s.len(),
    ensures
        digits_value(s.take(k)) <= digits_value(s),
    decreases s.len(),
{
    if k < s.len() {
        digits_value_grows(s.drop_last(), k);
        assert(s.drop_last().take(k) =~= s.take(k));
    } else {
        assert(s.take(k) =~= s);
    }
}

/// A number written in decimal reads back as itself.
pub proof fn decimal_round_trip(n: u64)
    ensures
        parse_spec(decimal(n as nat)) == Some(n),
{
    decimal_digits(n as nat);
    let s = decimal(n as nat);
    assert(is_digit(s[0]));
}

/// A decimal numeral is made of digits, and stands for the number.
pub proof fn decimal_digits(n: nat)
    ensures
        decimal(n).len() > 0,
        forall|i: int| 0 <= i < decimal(n).len() ==> is_digit(#[trigger] decimal(n)[i]),
        digits_value(decimal(n)) == n,
    decreases n,
{
    if n < 10 {
        assert(decimal(n).drop_last() =~= seq![]);
        assert(digits_value(seq![]) == 0);
        assert(digits_value(decimal(n)) == 10 * digits_value(decimal(n).drop_last()) + n);
    } else {
        decimal_digits(n / 10);
        assert(decimal(n).drop_last() =~= decimal(n / 10));
    }
}

/// Two numbers that are written at the front of the same text, with no digit
/// right behind them, are the same number.
pub proof fn decimal_ends_at_no_digit(a: nat, b: nat, s: Seq<char>, t: Seq<char>)
    requires
        decimal(a) + s == decimal(b) + t,
        s.len() > 0 ==> !is_digit(s[0]),
        t.len() > 0 ==> !is_digit(t[0]),
    ensures
        a == b,
        s == t,
{
    let x = decimal(a);
    let y = decimal(b);
    decimal_digits(a);
    decimal_digits(b);
    if x.len() < y.len() {
        assert((x + s)[x.len() as int] == s[0]);
        assert((y + t)[x.len() as int] == y[x.len() as int]);
        assert(is_digit(y[x.len() as int]));
    }
    if y.len() < x.len() {
        assert((y + t)[y.len() as int] == t[0]);
        assert((x + s)[y.len() as int] == x[y.len() as int]);
        assert(is_digit(x[y.len() as int]));
    }
    assert(x =~= (x + s).take(x.len() as int));
    assert(y =~= (y + t).take(y.len() as int));
    assert(s =~= (x + s).skip(x.len() as int));
    assert(t =~= (y + t).skip(y.len() as int));
}

// ---------------------------------------------------------------------------
// Prefixes and order
// ---------------------------------------------------------------------------

/// Does `s` begin with `prefix`?
pub open spec fn starts_with(s: Seq<char>, prefix: Seq<char>) -> bool {
    prefix.len() <= s.len() && s.take(prefix.len() as int) == prefix
}

/// Does `s` begin with `prefix`?
pub fn has_prefix(s: &Vec<char>, prefix: &Vec<char>) -> (r: bool)
    ensures
        r == starts_with(s@, prefix@),
{
    if s.len() < prefix.len() {
        return false;
    }
    for i in 0..prefix.len()
        invariant
            prefix@.len() <= s@.len(),
            s@.take(i as int) == prefix@.take(i as int),
    {
        if s[i] != prefix[i] {
            assert(s@.take(prefix@.len() as int)[i as int] != prefix@[i as int]);
            return false;
        }
        assert(s@.take(i + 1) =~= s@.take(i as int).push(s@[i as int]));
        assert(prefix@.take(i + 1) =~= prefix@.take(i as int).push(prefix@[i as int]));
    }
    assert(prefix@.take(prefix@.len() as int) =~= prefix@);
    true
}

/// Dictionary order, by code point.
pub open spec fn text_before(a: Seq<char>, b: Seq<char>) -> bool
    decreases a.len(),
{
    if b.len() == 0 {
        false
    } else if a.len() == 0 {
        true
    } else if a[0] != b[0] {
        a[0] < b[0]
    } else {
        text_before(a.skip(1), b.skip(1))
    }
}

/// Of two texts, exactly one comes first, unless they are the same.
pub proof fn text_before_total(a: Seq<char>, b: Seq<char>)
    ensures
        text_before(a, b) || text_before(b, a) || a == b,
        !(text_before(a, b) && text_before(b, a)),
        a == b ==> !text_before(a, b),
    decreases a.len(),
{
    if a.len() > 0 && b.len() > 0 {
        text_before_total(a.skip(1), b.skip(1));
        if a[0] == b[0] && a.skip(1) == b.skip(1) {
            assert(a =~= seq![a[0]] + a.skip(1));
            assert(b =~= seq![b[0]] + b.skip(1));
        }
    } else if a.len() == 0 && b.len() == 0 {
        assert(a =~= b);
    }
}

/// Dictionary order is transitive.
pub proof fn text_before_transitive(a: Seq<char>, b: Seq<char>, c: Seq<char>)
    requires
        text_before(a, b),
        text_before(b, c),
    ensures
        text_before(a, c),
    decreases a.len(),
{
    if a.len() > 0 && a[0] == b[0] && b[0] == c[0] {
        text_before_transitive(a.skip(1), b.skip(1), c.skip(1));
    }
}

/// Of two texts that begin alike the one comes first that ends there, or has
/// the smaller character where they differ.
pub proof fn texts_come_in_order(common: Seq<char>, a: Seq<char>, b: Seq<char>)
    ensures
        b.len() > 0 ==> text_before(common, common + b),
        a.len() > 0 && b.len() > 0 && a[0] < b[0] ==> text_before(common + a, common + b),
    decreases common.len(),
{
    if common.len() > 0 {
        let rest = common.skip(1);
        texts_come_in_order(rest, a, b);
        assert((common + a).skip(1) =~= rest + a);
        assert((common + b).skip(1) =~= rest + b);
        assert((common + a)[0] == common[0] && (common + b)[0] == common[0]);
    } else {
        assert(common + a =~= a);
        assert(common + b =~= b);
    }
}

/// Does `a` come before `b` in dictionary order?
pub fn comes_before(a: &str, b: &str) -> (r: bool)
    ensures
        r == text_before(a@, b@),
{
    let x = chars_of(a);
    let y = chars_of(b);
    let mut i: usize = 0;
    assert(x@.skip(0) =~= x@);
    assert(y@.skip(0) =~= y@);
    while i < x.len() && i < y.len()
        invariant
            i <= x@.len(),
            i <= y@.len(),
            x@ == a@,
            y@ == b@,
            text_before(x@, y@) == text_before(x@.skip(i as int), y@.skip(i as int)),
        decreases x@.len() - i,
    {
        assert(x@.skip(i as int)[0] == x@[i as int]);
        assert(y@.skip(i as int)[0] == y@[i as int]);
        if x[i] != y[i] {
            return x[i] < y[i];
        }
        assert(x@.skip(i as int).skip(1) =~= x@.skip(i + 1));
        assert(y@.skip(i as int).skip(1) =~= y@.skip(i + 1));
        i = i + 1;
    }
    i < y.len()
}

/// Are the two texts the same?
pub fn same_text(a: &str, b: &str) -> (r: bool)
    ensures
        r == (a@ == b@),
{
    let x = chars_of(a);
    let y = chars_of(b);
    if x.len() != y.len() {
        return false;
    }
    let r = has_prefix(&x, &y);
    assert(x@.take(y@.len() as int) =~= x@);
    r
}

/// Numbers that are written alike are the same, in decimal, in hexadecimal and
/// in every base between.
pub proof fn digits_tell_numbers_apart(a: nat, b: nat, base: nat)
    requires
        2 <= base <= 16,
        digits(a, base) == digits(b, base),
    ensures
        a == b,
    decreases a,
{
    let s = digits(a, base);
    let t = digits(b, base);
    if a < base && b < base {
        assert(s[0] == digit_char(a) && t[0] == digit_char(b));
    } else if a >= base && b >= base {
        assert(a / base < a && b / base < b) by (nonlinear_arith)
            requires
                2 <= base,
                base <= a,
                base <= b,
        ;
        assert(s.last() == digit_char(a % base));
        assert(t.last() == digit_char(b % base));
        assert(a % base < base && b % base < base) by (nonlinear_arith)
            requires
                2 <= base,
        ;
        assert(s.drop_last() =~= digits(a / base, base));
        assert(t.drop_last() =~= digits(b / base, base));
        digits_tell_numbers_apart(a / base, b / base, base);
        assert(a == base * (a / base) + a % base && b == base * (b / base) + b % base)
            by (nonlinear_arith)
            requires
                2 <= base,
        ;
    } else if a < base {
        digits_exist(b / base, base);
        assert(t.len() >= 2);
    } else {
        digits_exist(a / base, base);
        assert(s.len() >= 2);
    }
}

/// A number takes a digit at least.
proof fn digits_exist(n: nat, base: nat)
    ensures
        digits(n, base).len() >= 1,
{
}

// ---------------------------------------------------------------------------
// Lists of bytes
// ---------------------------------------------------------------------------

/// The items of a list are made of digits, commas and blanks, and there are
/// none exactly where the list is empty.
proof fn items_are_plain(b: Seq<u8>)
    ensures
        byte_items(b).len() == 0 <==> b.len() == 0,
        forall|i: int|
            0 <= i < byte_items(b).len() ==> is_digit(#[trigger] byte_items(b)[i]) || byte_items(
                b,
            )[i] == ',' || byte_items(b)[i] == ' ',
        b.len() > 0 ==> is_digit(byte_items(b).last()),
    decreases b.len(),
{
    reveal_strlit(", ");
    if b.len() > 0 {
        decimal_digits(b.last() as nat);
        if b.len() > 1 {
            items_are_plain(b.drop_last());
            let front = byte_items(b.drop_last());
            let last = decimal(b.last() as nat);
            assert(byte_items(b) =~= front + (", "@ + last));
            assert(byte_items(b).last() == last[last.len() - 1]);
        }
    }
}

/// Lists whose items are printed alike are alike.
proof fn items_tell_bytes_apart(a: Seq<u8>, b: Seq<u8>)
    requires
        byte_items(a) == byte_items(b),
    ensures
        a == b,
    decreases a.len(),
{
    reveal_strlit(", ");
    items_are_plain(a);
    items_are_plain(b);
    if a.len() == 0 || b.len() == 0 {
        assert(a =~= b);
    } else {
        let x = decimal(a.last() as nat);
        let y = decimal(b.last() as nat);
        let t = byte_items(a);
        decimal_digits(a.last() as nat);
        decimal_digits(b.last() as nat);
        let fa = if a.len() == 1 {
            seq![]
        } else {
            byte_items(a.drop_last()) + ", "@
        };
        let fb = if b.len() == 1 {
            seq![]
        } else {
            byte_items(b.drop_last()) + ", "@
        };
        assert(t =~= fa + x);
        assert(t =~= fb + y);
        // The last number begins where the digits at the end begin.
        if fa.len() < fb.len() {
            assert(t[fb.len() - 1] == fb[fb.len() - 1]);
            assert(t[fb.len() - 1] == x[fb.len() - 1 - fa.len()]);
            assert(is_digit(x[fb.len() - 1 - fa.len()]));
        }
        if fb.len() < fa.len() {
            assert(t[fa.len() - 1] == fa[fa.len() - 1]);
            assert(t[fa.len() - 1] == y[fa.len() - 1 - fb.len()]);
            assert(is_digit(y[fa.len() - 1 - fb.len()]));
        }
        assert(x =~= t.skip(fa.len() as int));
        assert(y =~= t.skip(fb.len() as int));
        assert(a.last() == b.last());
        if a.len() == 1 {
            if b.len() > 1 {
                assert(fb.len() >= 2);
            }
            assert(a =~= b);
        } else {
            assert(fa.len() >= 2);
            assert(b.len() > 1);
            let ia = byte_items(a.drop_last());
            let ib = byte_items(b.drop_last());
            assert(ia =~= t.take(fa.len() - 2));
            assert(ib =~= t.take(fb.len() - 2));
            items_tell_bytes_apart(a.drop_last(), b.drop_last());
            assert(a.drop_last().push(a.last()) =~= a);
            assert(b.drop_last().push(b.last()) =~= b);
        }
    }
}

/// Two lists of bytes that are printed at the front of the same text are the
/// same list.
pub proof fn byte_lists_tell_bytes_apart(a: Seq<u8>, b: Seq<u8>, s: Seq<char>, t: Seq<char>)
    requires
        byte_list(a) + s == byte_list(b) + t,
    ensures
        a == b,
        s == t,
{
    reveal_strlit("[");
    reveal_strlit("]");
    items_are_plain(a);
    items_are_plain(b);
    let x = byte_list(a) + s;
    let m = byte_items(a).len() as int;
    let n = byte_items(b).len() as int;
    assert(x[m + 1] == ']');
    assert((byte_list(b) + t)[n + 1] == ']');
    if m < n {
        assert((byte_list(b) + t)[m + 1] == byte_items(b)[m]);
    }
    if n < m {
        assert(x[n + 1] == byte_items(a)[n]);
    }
    assert(byte_items(a) =~= x.subrange(1, m + 1));
    assert(byte_items(b) =~= (byte_list(b) + t).subrange(1, n + 1));
    items_tell_bytes_apart(a, b);
    assert(s =~= x.skip(m + 2));
    assert(t =~= (byte_list(b) + t).skip(n + 2));
}

} // verus!
