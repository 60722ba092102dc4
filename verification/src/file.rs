//! Log file naming and the size threshold that starts a new log file.

use vstd::prelude::*;
use crate::error::DBError;
use vstd::string::StringExecFns;
use vstd::string::StrSliceExecFns;

verus! {

/// Whether appending brings the active log to `append_log_total` bytes,
/// more than the `max_bytes` that one log file may hold.
pub fn log_threshold_exceed(max_bytes: u32, append_log_total: u32) -> (exceeded: bool)
    ensures
        exceeded == (append_log_total > max_bytes),
{
    append_log_total > max_bytes
}

/// The character of a decimal digit.
pub open spec fn digit_char(d: nat) -> char {
    if d == 0 {
        '0'
    } else if d == 1 {
        '1'
    } else if d == 2 {
        '2'
    } else if d == 3 {
        '3'
    } else if d == 4 {
        '4'
    } else if d == 5 {
        '5'
    } else if d == 6 {
        '6'
    } else if d == 7 {
        '7'
    } else if d == 8 {
        '8'
    } else {
        '9'
    }
}

/// The decimal digits of `n`, most significant first, with no leading zero.
pub open spec fn decimal(n: nat) -> Seq<char>
    decreases n,
{
    if n < 10 {
        seq![digit_char(n)]
    } else {
        decimal(n / 10).push(digit_char(n % 10))
    }
}

/// `s` with zeros in front, to at least `width` characters.
pub open spec fn zero_padded(s: Seq<char>, width: nat) -> Seq<char> {
    if s.len() < width {
        Seq::new((width - s.len()) as nat, |i: int| '0') + s
    } else {
        s
    }
}

/// The name of log file `file_id`: its number in at least four digits, then `.log`.
pub open spec fn log_file_name(file_id: u32) -> Seq<char> {
    zero_padded(decimal(file_id as nat), 4) + seq!['.', 'l', 'o', 'g']
}

/// `name` placed in directory `dir`, with a `/` between them unless `dir`
/// is empty or already ends with one.
pub open spec fn join_path(dir: Seq<char>, name: Seq<char>) -> Seq<char> {
    if dir.len() == 0 || dir.last() == '/' {
        dir + name
    } else {
        dir + seq!['/'] + name
    }
}

/// A joined path starts with the whole directory and ends with the whole
/// name. Between them stands exactly one `/` when the directory is not
/// empty and does not already end with one, whatever its first character;
/// otherwise nothing stands between them.
pub proof fn lemma_join_path_separator(dir: Seq<char>, name: Seq<char>)
    ensures
        ({
            let path = join_path(dir, name);
            &&& path.subrange(0, dir.len() as int) == dir
            &&& path.subrange(path.len() - name.len(), path.len() as int) == name
            &&& dir.len() > 0 && dir.last() != '/' ==> {
                &&& path.len() == dir.len() + 1 + name.len()
                &&& path[dir.len() as int] == '/'
            }
            &&& dir.len() == 0 || dir.last() == '/' ==> path.len() == dir.len() + name.len()
        }),
{
    let path = join_path(dir, name);
    if dir.len() > 0 && dir.last() != '/' {
        assert(path == dir + seq!['/'] + name);
        assert(path.subrange(0, dir.len() as int) =~= dir);
        assert(path.subrange(path.len() - name.len(), path.len() as int) =~= name);
        assert(path[dir.len() as int] == (dir + seq!['/'])[dir.len() as int]);
    } else {
        assert(path.subrange(0, dir.len() as int) =~= dir);
        assert(path.subrange(path.len() - name.len(), path.len() as int) =~= name);
    }
}

/// The one-character string of a decimal digit.
fn digit_str(d: u32) -> (s: &'static str)
    requires
        d < 10,
    ensures
        s@ == seq![digit_char(d as nat)],
{
    if d == 0 {
        proof {
            reveal_strlit("0");
        }
        "0"
    } else if d == 1 {
        proof {
            reveal_strlit("1");
        }
        "1"
    } else if d == 2 {
        proof {
            reveal_strlit("2");
        }
        "2"
    } else if d == 3 {
        proof {
            reveal_strlit("3");
        }
        "3"
    } else if d == 4 {
        proof {
            reveal_strlit("4");
        }
        "4"
    } else if d == 5 {
        proof {
            reveal_strlit("5");
        }
        "5"
    } else if d == 6 {
        proof {
            reveal_strlit("6");
        }
        "6"
    } else if d == 7 {
        proof {
            reveal_strlit("7");
        }
        "7"
    } else if d == 8 {
        proof {
            reveal_strlit("8");
        }
        "8"
    } else {
        proof {
            reveal_strlit("9");
        }
        "9"
    }
}

/// Appends the decimal digits of `n`.
fn push_decimal(s: &mut String, n: u32)
    ensures
        final(s)@ == old(s)@ + decimal(n as nat),
    decreases n,
{
    if n >= 10 {
        push_decimal(s, n / 10);
    }
    s.append(digit_str(n % 10));
    assert(s@ =~= old(s)@ + decimal(n as nat));
}

/// The path of log file `file_id` in directory `dir`.
pub fn format_log_file_path(dir: &str, file_id: u32) -> (path: String)
    ensures
        path@ == join_path(dir@, log_file_name(file_id)),
        dir@.len() > 0 && dir@.last() != '/' ==> path@ == dir@ + seq!['/'] + log_file_name(file_id),
        dir@.len() == 0 || dir@.last() == '/' ==> path@ == dir@ + log_file_name(file_id),
{
    let mut path = String::from_str(dir);
    let n = dir.unicode_len();
    if n > 0 && dir.get_char(n - 1) != '/' {
        proof {
            reveal_strlit("/");
        }
        path.append("/");
    }
    let ghost prefix = path@;
    proof {
        reveal_strlit("000");
        reveal_strlit("00");
        reveal_strlit("0");
        reveal_strlit(".log");
        lemma_decimal_len(file_id as nat);
    }
    if file_id < 10 {
        path.append("000");
    } else if file_id < 100 {
        path.append("00");
    } else if file_id < 1000 {
        path.append("0");
    }
    let ghost zeros = path@.subrange(prefix.len() as int, path@.len() as int);
    push_decimal(&mut path, file_id);
    path.append(".log");
    proof {
        let d = decimal(file_id as nat);
        assert(zeros + d =~= zero_padded(d, 4));
        assert(path@ =~= prefix + (zeros + d) + seq!['.', 'l', 'o', 'g']);
    }
    path
}

/// How many digits `decimal(n)` has, below four and from four on.
pub proof fn lemma_decimal_len(n: nat)
    ensures
        n < 10 ==> decimal(n).len() == 1,
        10 <= n < 100 ==> decimal(n).len() == 2,
        100 <= n < 1000 ==> decimal(n).len() == 3,
        1000 <= n < 10000 ==> decimal(n).len() == 4,
        n >= 1000 ==> decimal(n).len() >= 4,
    decreases n,
{
    if n >= 10 {
        lemma_decimal_len(n / 10);
    }
}

/// The number that a decimal digit character stands for.
pub open spec fn digit_value(c: char) -> nat {
    if c == '1' {
        1
    } else if c == '2' {
        2
    } else if c == '3' {
        3
    } else if c == '4' {
        4
    } else if c == '5' {
        5
    } else if c == '6' {
        6
    } else if c == '7' {
        7
    } else if c == '8' {
        8
    } else if c == '9' {
        9
    } else {
        0
    }
}

/// Whether `c` is one of `0` to `9`.
pub open spec fn is_digit(c: char) -> bool {
    '0' <= c <= '9'
}

/// The number that a string of decimal digits stands for.
pub open spec fn decimal_value(s: Seq<char>) -> nat
    decreases s.len(),
{
    if s.len() == 0 {
        0
    } else {
        decimal_value(s.drop_last()) * 10 + digit_value(s.last())
    }
}

/// The name of log file `file_id` is a string of digits standing for
/// `file_id`, then `.log`: reading the number back from a log file's name
/// gives its id.
pub proof fn lemma_log_file_name_denotes_id(file_id: u32)
    ensures
        ({
            let name = log_file_name(file_id);
            let stem = name.subrange(0, name.len() - 4);
            &&& name.len() >= 8
            &&& name.subrange(name.len() - 4, name.len() as int) == seq!['.', 'l', 'o', 'g']
            &&& forall|i: int| 0 <= i < stem.len() ==> is_digit(#[trigger] stem[i])
            &&& decimal_value(stem) == file_id
        }),
{
    let d = decimal(file_id as nat);
    let p = zero_padded(d, 4);
    let name = log_file_name(file_id);
    lemma_decimal_len(file_id as nat);
    lemma_decimal_digits(file_id as nat);
    lemma_decimal_value(file_id as nat);
    if d.len() < 4 {
        let zeros = Seq::new((4 - d.len()) as nat, |i: int| '0');
        lemma_zeros_value(zeros, d);
        assert(p == zeros + d);
        assert forall|i: int| 0 <= i < p.len() implies is_digit(#[trigger] p[i]) by {
            if i >= zeros.len() {
                assert(p[i] == d[i - zeros.len()]);
            }
        }
    }
    assert(name.subrange(0, name.len() - 4) =~= p);
    assert(name.subrange(name.len() - 4, name.len() as int) =~= seq!['.', 'l', 'o', 'g']);
}

/// `decimal` writes only digits.
proof fn lemma_decimal_digits(n: nat)
    ensures
        forall|i: int| 0 <= i < decimal(n).len() ==> is_digit(#[trigger] decimal(n)[i]),
    decreases n,
{
    if n >= 10 {
        lemma_decimal_digits(n / 10);
        assert forall|i: int| 0 <= i < decimal(n).len() implies is_digit(#[trigger] decimal(n)[i]) by {
            if i < decimal(n / 10).len() {
                assert(decimal(n)[i] == decimal(n / 10)[i]);
            }
        }
    }
}

/// `decimal` writes the number it is given.
proof fn lemma_decimal_value(n: nat)
    ensures
        decimal_value(decimal(n)) == n,
    decreases n,
{
    let d = decimal(n);
    if n < 10 {
        assert(d.drop_last() =~= Seq::<char>::empty());
        assert(decimal_value(d.drop_last()) == 0);
        assert(digit_value(d.last()) == n);
    } else {
        assert(digit_value(digit_char(n % 10)) == n % 10);
        lemma_decimal_value(n / 10);
        assert(d.drop_last() =~= decimal(n / 10));
        assert(d.last() == digit_char(n % 10));
        assert((n / 10) * 10 + n % 10 == n) by (nonlinear_arith);
    }
    assert(decimal_value(d) == decimal_value(d.drop_last()) * 10 + digit_value(d.last()));
}

/// Zeros in front do not change the number.
proof fn lemma_zeros_value(zeros: Seq<char>, s: Seq<char>)
    requires
        forall|i: int| 0 <= i < zeros.len() ==> #[trigger] zeros[i] == '0',
    ensures
        decimal_value(zeros + s) == decimal_value(s),
    decreases s.len(),
{
    if s.len() == 0 {
        assert(zeros + s =~= zeros);
        lemma_all_zeros(zeros);
    } else {
        lemma_zeros_value(zeros, s.drop_last());
        assert((zeros + s).drop_last() =~= zeros + s.drop_last());
    }
}

/// A string of zeros stands for zero.
proof fn lemma_all_zeros(zeros: Seq<char>)
    requires
        forall|i: int| 0 <= i < zeros.len() ==> #[trigger] zeros[i] == '0',
    ensures
        decimal_value(zeros) == 0,
    decreases zeros.len(),
{
    if zeros.len() > 0 {
        assert(zeros.drop_last().len() == zeros.len() - 1);
        assert forall|i: int| 0 <= i < zeros.drop_last().len() implies #[trigger] zeros.drop_last()[i]
            == '0' by {
            assert(zeros.drop_last()[i] == zeros[i]);
        }
        lemma_all_zeros(zeros.drop_last());
        assert(zeros.last() == zeros[zeros.len() - 1]);
    }
}

/// `x` comes before `y` in lexicographic order: at the first place where
/// they differ, `x` has the smaller character.
pub open spec fn name_precedes(x: Seq<char>, y: Seq<char>) -> bool {
    exists|i: int|
        0 <= i < x.len() && i < y.len() && x.subrange(0, i) == y.subrange(0, i) && #[trigger] x[i]
            < y[i]
}

/// A number below 10000 is written in four digits.
proof fn lemma_four_digits(n: nat)
    requires
        n <= 9999,
    ensures
        zero_padded(decimal(n), 4) =~= seq![
            digit_char(n / 1000),
            digit_char((n / 100) % 10),
            digit_char((n / 10) % 10),
            digit_char(n % 10),
        ],
{
    lemma_decimal_len(n);
    let d = decimal(n);
    if n < 10 {
        assert(d =~= seq![digit_char(n)]);
    } else if n < 100 {
        assert(decimal(n / 10) =~= seq![digit_char(n / 10)]);
        assert(d =~= seq![digit_char(n / 10), digit_char(n % 10)]);
    } else if n < 1000 {
        assert(decimal(n / 100) =~= seq![digit_char(n / 100)]);
        assert((n / 10) / 10 == n / 100);
        assert(decimal(n / 10) =~= seq![digit_char(n / 100), digit_char((n / 10) % 10)]);
        assert(d =~= seq![digit_char(n / 100), digit_char((n / 10) % 10), digit_char(n % 10)]);
    } else {
        assert(decimal(n / 1000) =~= seq![digit_char(n / 1000)]);
        assert((n / 100) / 10 == n / 1000);
        assert((n / 10) / 10 == n / 100);
        assert(decimal(n / 100) =~= seq![digit_char(n / 1000), digit_char((n / 100) % 10)]);
        assert(decimal(n / 10) =~= seq![
            digit_char(n / 1000),
            digit_char((n / 100) % 10),
            digit_char((n / 10) % 10),
        ]);
    }
}

/// The code of a digit's character is 48 past the digit.
proof fn lemma_digit_char_code(d: nat)
    requires
        d < 10,
    ensures
        digit_char(d) as int == d + 48,
{
}

/// Of two numbers below 10000, the smaller has the smaller digit at the
/// first of the four places where they differ.
proof fn lemma_digit_order(a: nat, b: nat)
    requires
        a < b <= 9999,
    ensures
        a / 1000 < b / 1000 || (a / 1000 == b / 1000 && (a / 100) % 10 < (b / 100) % 10) || (a
            / 1000 == b / 1000 && (a / 100) % 10 == (b / 100) % 10 && (a / 10) % 10 < (b / 10)
            % 10) || (a / 1000 == b / 1000 && (a / 100) % 10 == (b / 100) % 10 && (a / 10) % 10
            == (b / 10) % 10 && a % 10 < b % 10),
{
    assert(a / 100 == 10 * (a / 1000) + (a / 100) % 10);
    assert(b / 100 == 10 * (b / 1000) + (b / 100) % 10);
    assert(a / 10 == 10 * (a / 100) + (a / 10) % 10);
    assert(b / 10 == 10 * (b / 100) + (b / 10) % 10);
    assert(a == 10 * (a / 10) + a % 10);
    assert(b == 10 * (b / 10) + b % 10);
}

/// Log files of numbers up to 9999 sort by name in the order of their
/// numbers, so reading a directory's log files in name order reads them
/// oldest first. (From 10000 on it fails: `10000.log` sorts before `9999.log`.)
pub proof fn lemma_log_file_names_sort_by_id(a: u32, b: u32)
    requires
        a < b <= 9999,
    ensures
        name_precedes(log_file_name(a), log_file_name(b)),
{
    let an = a as nat;
    let bn = b as nat;
    lemma_four_digits(an);
    lemma_four_digits(bn);
    lemma_digit_order(an, bn);
    let x = log_file_name(a);
    let y = log_file_name(b);
    let xs = seq![
        an / 1000,
        (an / 100) % 10,
        (an / 10) % 10,
        an % 10,
    ];
    let ys = seq![
        bn / 1000,
        (bn / 100) % 10,
        (bn / 10) % 10,
        bn % 10,
    ];
    assert forall|i: int| 0 <= i < 4 implies x[i] == digit_char(#[trigger] xs[i]) && y[i]
        == digit_char(ys[i]) by {}
    let i: int = if xs[0] != ys[0] {
        0
    } else if xs[1] != ys[1] {
        1
    } else if xs[2] != ys[2] {
        2
    } else {
        3
    };
    assert(xs[i] < ys[i]);
    lemma_digit_char_code(xs[i] as nat);
    lemma_digit_char_code(ys[i] as nat);
    assert(x.subrange(0, i) =~= y.subrange(0, i));
    assert(x[i] < y[i]);
}

/// The number a file name's stem gives as a `u32`, as `str::parse::<u32>`
/// reads it: an optional `+`, then one or more decimal digits whose value
/// fits in a `u32`.
pub open spec fn file_id_of(stem: Seq<char>) -> Option<u32> {
    let digits = stem_digits(stem);
    if digits.len() > 0 && (forall|i: int| 0 <= i < digits.len() ==> is_digit(#[trigger] digits[i]))
        && decimal_value(digits) <= u32::MAX {
        Some(decimal_value(digits) as u32)
    } else {
        None
    }
}

/// A stem without its leading `+`, if it has one.
pub open spec fn stem_digits(stem: Seq<char>) -> Seq<char> {
    if stem.len() > 0 && stem[0] == '+' {
        stem.subrange(1, stem.len() as int)
    } else {
        stem
    }
}

/// Adding a digit never lowers the number.
proof fn lemma_decimal_value_grows(s: Seq<char>, c: char)
    ensures
        decimal_value(s.push(c)) >= decimal_value(s),
        decimal_value(s.push(c)) == decimal_value(s) * 10 + digit_value(c),
{
    assert(s.push(c).drop_last() =~= s);
}

/// The number of the log file that a file name's stem names: `FailedParseFileId`
/// where the stem is not an optional `+` and decimal digits of a `u32`.
pub fn parse_file_id(stem: &str) -> (r: Result<u32, DBError>)
    ensures
        match r {
            Ok(id) => file_id_of(stem@) == Some(id),
            Err(e) => file_id_of(stem@) is None && e is FailedParseFileId,
        },
{
    let n = stem.unicode_len();
    let mut i: usize = 0;
    if n > 0 && stem.get_char(0) == '+' {
        i = 1;
    }
    let start = i;
    let ghost digits = stem@.subrange(start as int, n as int);
    proof {
        if n > 0 && stem@[0] == '+' {
            assert(digits =~= stem@.subrange(1, stem@.len() as int));
        } else {
            assert(digits =~= stem@);
        }
    }
    if i == n {
        return Err(DBError::FailedParseFileId);
    }
    let mut value: u64 = 0;
    while i < n
        invariant
            n == stem@.len(),
            start <= i <= n,
            start < n,
            digits == stem@.subrange(start as int, n as int),
            digits == stem_digits(stem@),
            forall|j: int| start <= j < i ==> is_digit(#[trigger] stem@[j]),
            value == decimal_value(stem@.subrange(start as int, i as int)),
            value <= u32::MAX,
        decreases n - i,
    {
        let c = stem.get_char(i);
        let ghost before = stem@.subrange(start as int, i as int);
        proof {
            assert(stem@.subrange(start as int, i + 1) =~= before.push(c));
            lemma_decimal_value_grows(before, c);
        }
        if !('0' <= c && c <= '9') {
            proof {
                assert(digits[i - start] == c);
                assert(!is_digit(digits[i - start]));
            }
            return Err(DBError::FailedParseFileId);
        }
        let d: u64 = c as u64 - 48;
        assert(digit_value(c) == d) by {
            assert('0' as int == 48);
        }
        value = value * 10 + d;
        if value > 0xffff_ffff {
            proof {
                lemma_decimal_value_prefix_bound(digits, (i + 1 - start) as int);
                assert(digits.subrange(0, i + 1 - start) =~= stem@.subrange(start as int, i + 1));
                assert(decimal_value(digits) > u32::MAX);
            }
            return Err(DBError::FailedParseFileId);
        }
        i = i + 1;
    }
    proof {
        assert(stem@.subrange(start as int, i as int) =~= digits);
    }
    Ok(value as u32)
}

/// A string of digits stands for at least what any of its prefixes stands for.
proof fn lemma_decimal_value_prefix_bound(s: Seq<char>, k: int)
    requires
        0 <= k <= s.len(),
    ensures
        decimal_value(s.subrange(0, k)) <= decimal_value(s),
    decreases s.len() - k,
{
    if k < s.len() {
        assert(s.subrange(0, k + 1) =~= s.subrange(0, k).push(s[k]));
        lemma_decimal_value_grows(s.subrange(0, k), s[k]);
        lemma_decimal_value_prefix_bound(s, k + 1);
    } else {
        assert(s.subrange(0, k) =~= s);
    }
}

/// The stem of a log file's name parses back to its number.
pub proof fn lemma_log_file_name_parses(file_id: u32)
    ensures
        ({
            let name = log_file_name(file_id);
            file_id_of(name.subrange(0, name.len() - 4)) == Some(file_id)
        }),
{
    lemma_log_file_name_denotes_id(file_id);
    let name = log_file_name(file_id);
    let stem = name.subrange(0, name.len() - 4);
    assert(stem.len() > 0 && stem[0] != '+');
}

} // verus!
