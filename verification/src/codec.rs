//! The persisted record format, as a grammar on character sequences, with a
//! verified parser and printer.
//!
//! One record per line, `<kid>:<secret>:<created_at>\n`: identifier and
//! secret are non-empty and contain no `:`, the timestamp is a non-negative
//! decimal integer. One trailing carriage return per line is tolerated, and
//! lines holding only whitespace are ignored. A line that does not match the
//! pattern fails the whole read; a matching line whose timestamp does not fit
//! in an `i64` is a distinct failure.

use vstd::prelude::*;

use crate::commons::{all_valid, key_views, valid_record, KeyMaterial, KeyModel, KeyStoreError};

verus! {

// ---------------------------------------------------------------------------
// Digits and decimal numerals
// ---------------------------------------------------------------------------
pub open spec fn is_digit(c: char) -> bool {
    c == '0' || c == '1' || c == '2' || c == '3' || c == '4' || c == '5' || c == '6' || c == '7'
        || c == '8' || c == '9'
}

pub open spec fn digit_char(d: int) -> char {
    if d == 0 {
        '0'
    } else if d == 1 {
        '1'
    } else if d == 2 {
        '2'
    } else if d == 3 {
        '3'
    } else if d == 4 {
        '4'
    } else if d == 5 {
        '5'
    } else if d == 6 {
        '6'
    } else if d == 7 {
        '7'
    } else if d == 8 {
        '8'
    } else {
        '9'
    }
}

pub open spec fn digit_val(c: char) -> int {
    if c == '0' {
        0
    } else if c == '1' {
        1
    } else if c == '2' {
        2
    } else if c == '3' {
        3
    } else if c == '4' {
        4
    } else if c == '5' {
        5
    } else if c == '6' {
        6
    } else if c == '7' {
        7
    } else if c == '8' {
        8
    } else {
        9
    }
}

pub open spec fn all_digits(s: Seq<char>) -> bool {
    forall|i: int| 0 <= i < s.len() ==> is_digit(#[trigger] s[i])
}

/// The value of a digit string (0 for the empty string).
pub open spec fn digits_val(s: Seq<char>) -> int
    decreases s.len(),
{
    if s.len() == 0 {
        0
    } else {
        digits_val(s.drop_last()) * 10 + digit_val(s.last())
    }
}

/// The canonical decimal numeral of a non-negative integer.
pub open spec fn decimal_of(n: int) -> Seq<char>
    decreases n,
{
    if n < 10 {
        seq![digit_char(n)]
    } else {
        decimal_of(n / 10).push(digit_char(n % 10))
    }
}

/// The decimal numeral of any integer, with a sign for negative ones.
pub open spec fn decimal_int(n: int) -> Seq<char> {
    if n < 0 {
        seq!['-'] + decimal_of(-n)
    } else {
        decimal_of(n)
    }
}

pub proof fn lemma_digits_val_nonneg(s: Seq<char>)
    requires
        all_digits(s),
    ensures
        digits_val(s) >= 0,
    decreases s.len(),
{
    if s.len() > 0 {
        assert(all_digits(s.drop_last()));
        lemma_digits_val_nonneg(s.drop_last());
    }
}

/// Extending a digit string only grows its value.
pub proof fn lemma_digits_val_prefix(s: Seq<char>, k: int)
    requires
        all_digits(s),
        0 <= k <= s.len(),
    ensures
        digits_val(s) >= digits_val(s.take(k)),
    decreases s.len() - k,
{
    if k < s.len() {
        lemma_digits_val_prefix(s, k + 1);
        assert(s.take(k + 1).drop_last() =~= s.take(k));
        assert(all_digits(s.take(k + 1)));
        lemma_digits_val_nonneg(s.take(k));
        assert(digits_val(s.take(k + 1)) == digits_val(s.take(k)) * 10 + digit_val(s[k]));
    } else {
        assert(s.take(k) =~= s);
    }
}

/// The decimal numeral of `n` is made of digits, is non-empty, and reads
/// back as `n`.
pub proof fn lemma_decimal_of(n: int)
    requires
        n >= 0,
    ensures
        decimal_of(n).len() >= 1,
        all_digits(decimal_of(n)),
        digits_val(decimal_of(n)) == n,
    decreases n,
{
    if n < 10 {
        let s = decimal_of(n);
        assert(s.drop_last() =~= Seq::<char>::empty());
        assert(digits_val(s) == digits_val(s.drop_last()) * 10 + digit_val(s.last()));
        assert(digit_val(digit_char(n)) == n);
    } else {
        lemma_decimal_of(n / 10);
        let s = decimal_of(n);
        assert(s.drop_last() =~= decimal_of(n / 10));
        assert(s.last() == digit_char(n % 10));
        assert(0 <= n % 10 < 10);
        assert(digit_val(digit_char(n % 10)) == n % 10);
        assert(digits_val(s) == (n / 10) * 10 + n % 10);
        assert((n / 10) * 10 + n % 10 == n) by (nonlinear_arith);
    }
}

// ---------------------------------------------------------------------------
// Lines
// ---------------------------------------------------------------------------
/// Index of the first occurrence of `c` in `s`, or `s.len()` if there is
/// none.
pub open spec fn first_ix(s: Seq<char>, c: char) -> nat
    decreases s.len(),
{
    if s.len() == 0 {
        0
    } else if s.first() == c {
        0
    } else {
        1 + first_ix(s.drop_first(), c)
    }
}

/// `first_ix` finds the first occurrence: everything before it differs from
/// `c`, and it lands on `c` unless `c` does not occur at all.
pub proof fn lemma_first_ix(s: Seq<char>, c: char)
    ensures
        first_ix(s, c) <= s.len(),
        first_ix(s, c) < s.len() ==> s[first_ix(s, c) as int] == c,
        forall|j: int| 0 <= j < first_ix(s, c) ==> s[j] != c,
    decreases s.len(),
{
    if s.len() > 0 && s.first() != c {
        lemma_first_ix(s.drop_first(), c);
        assert forall|j: int| 0 <= j < first_ix(s, c) implies s[j] != c by {
            if j > 0 {
                assert(s[j] == s.drop_first()[j - 1]);
            }
        }
    }
}

pub open spec fn strip_cr(s: Seq<char>) -> Seq<char> {
    if s.len() > 0 && s.last() == '\r' {
        s.drop_last()
    } else {
        s
    }
}

pub open spec fn is_blank_char(c: char) -> bool {
    c == ' ' || c == '\t' || c == '\r'
}

pub open spec fn is_blank_line(s: Seq<char>) -> bool {
    forall|i: int| 0 <= i < s.len() ==> is_blank_char(#[trigger] s[i])
}

/// What one line of the store means.
pub enum LineParse {
    /// Only whitespace: the line is ignored.
    Blank,
    /// A well-formed record line.
    Rec(KeyModel),
    /// The line does not match the three-field pattern.
    Bad,
    /// The line matches, but its timestamp exceeds `i64::MAX`.
    TooBig,
}

pub open spec fn parse_line(raw: Seq<char>) -> LineParse {
    let s = strip_cr(raw);
    if is_blank_line(s) {
        LineParse::Blank
    } else {
        let n = s.len() as int;
        let i = first_ix(s, ':') as int;
        if i >= n || i == 0 {
            LineParse::Bad
        } else {
            let j = i + 1 + first_ix(s.subrange(i + 1, n), ':') as int;
            if j >= n || j == i + 1 {
                LineParse::Bad
            } else {
                let ts = s.subrange(j + 1, n);
                if ts.len() == 0 || !all_digits(ts) {
                    LineParse::Bad
                } else if digits_val(ts) > i64::MAX as int {
                    LineParse::TooBig
                } else {
                    LineParse::Rec(
                        KeyModel {
                            kid: s.subrange(0, i),
                            secret: s.subrange(i + 1, j),
                            created_at: digits_val(ts),
                        },
                    )
                }
            }
        }
    }
}

// ---------------------------------------------------------------------------
// Whole contents
// ---------------------------------------------------------------------------
/// The segments of `s` between newline characters. A final segment before
/// the end of input counts even without a closing newline; no segment
/// contains a newline.
pub open spec fn split_lines(s: Seq<char>) -> Seq<Seq<char>>
    decreases s.len(),
{
    if s.len() == 0 {
        Seq::empty()
    } else {
        let i = first_ix(s, '\n') as int;
        if i >= s.len() {
            seq![s]
        } else {
            seq![s.subrange(0, i)] + split_lines(s.subrange(i + 1, s.len() as int))
        }
    }
}

/// What a sequence of lines means, `base` being the number of the first one:
/// the records of all non-blank lines in order, or the number of the first
/// offending line.
pub enum FileParse {
    Records(Seq<KeyModel>),
    BadLine(int),
    BigStamp(int),
}

pub open spec fn parse_lines(lines: Seq<Seq<char>>, base: int) -> FileParse
    decreases lines.len(),
{
    if lines.len() == 0 {
        FileParse::Records(Seq::empty())
    } else {
        match parse_line(lines.first()) {
            LineParse::Blank => parse_lines(lines.drop_first(), base + 1),
            LineParse::Bad => FileParse::BadLine(base),
            LineParse::TooBig => FileParse::BigStamp(base),
            LineParse::Rec(k) => match parse_lines(lines.drop_first(), base + 1) {
                FileParse::Records(ks) => FileParse::Records(seq![k] + ks),
                e => e,
            },
        }
    }
}

/// What a whole store text means. Line numbers are 1-based.
pub open spec fn parse_content(s: Seq<char>) -> FileParse {
    parse_lines(split_lines(s), 1)
}

// ---------------------------------------------------------------------------
// Printing
// ---------------------------------------------------------------------------
pub open spec fn line_of(k: KeyModel) -> Seq<char> {
    k.kid + seq![':'] + k.secret + seq![':'] + decimal_int(k.created_at)
}

/// The text that persists a record sequence: one line per record, each
/// closed by a newline.
pub open spec fn render(ks: Seq<KeyModel>) -> Seq<char>
    decreases ks.len(),
{
    if ks.len() == 0 {
        Seq::empty()
    } else {
        line_of(ks.first()) + seq!['\n'] + render(ks.drop_first())
    }
}

// ---------------------------------------------------------------------------
// Round trip
// ---------------------------------------------------------------------------
/// A record line prints with no newline in it and parses back to the record
/// it came from.
proof fn lemma_parse_line_of(k: KeyModel)
    requires
        valid_record(k),
    ensures
        forall|j: int| 0 <= j < line_of(k).len() ==> #[trigger] line_of(k)[j] != '\n',
        parse_line(line_of(k)) == LineParse::Rec(k),
{
    let s = line_of(k);
    let kl = k.kid.len() as int;
    let sl = k.secret.len() as int;
    let dec = decimal_int(k.created_at);
    lemma_decimal_of(k.created_at);
    assert(dec == decimal_of(k.created_at));
    let dl = dec.len() as int;
    let n = s.len() as int;
    assert(n == kl + 1 + sl + 1 + dl);
    assert forall|j: int| 0 <= j < n implies #[trigger] s[j] != '\n' by {
        if j < kl {
            assert(s[j] == k.kid[j]);
        } else if j == kl {
            assert(s[j] == ':');
        } else if j < kl + 1 + sl {
            assert(s[j] == k.secret[j - kl - 1]);
        } else if j == kl + 1 + sl {
            assert(s[j] == ':');
        } else {
            assert(s[j] == dec[j - (kl + 1 + sl + 1)]);
            assert(is_digit(dec[j - (kl + 1 + sl + 1)]));
        }
    }
    // No trailing carriage return: the line ends in a digit.
    assert(s[n - 1] == dec[dl - 1]);
    assert(is_digit(s[n - 1]));
    assert(strip_cr(s) =~= s);
    // Not blank: the first separator is not a whitespace character.
    assert(s[kl] == ':');
    assert(!is_blank_line(s));
    // The first separator closes the identifier.
    lemma_first_ix(s, ':');
    let f1 = first_ix(s, ':') as int;
    assert forall|j: int| 0 <= j < kl implies s[j] != ':' by {
        assert(s[j] == k.kid[j]);
    }
    if f1 < kl {
        assert(s[f1] != ':');
        assert(false);
    }
    if f1 > kl {
        assert(s[kl] != ':');
        assert(false);
    }
    assert(f1 == kl);
    // The second separator closes the secret.
    let tail = s.subrange(kl + 1, n);
    lemma_first_ix(tail, ':');
    let f2 = first_ix(tail, ':') as int;
    assert forall|j: int| 0 <= j < sl implies tail[j] != ':' by {
        assert(tail[j] == k.secret[j]);
    }
    assert(tail[sl] == s[kl + 1 + sl]);
    if f2 < sl {
        assert(tail[f2] != ':');
        assert(false);
    }
    if f2 > sl {
        assert(tail[sl] != ':');
        assert(false);
    }
    assert(f2 == sl);
    let jj = kl + 1 + sl;
    // The remainder is the printed timestamp.
    let ts = s.subrange(jj + 1, n);
    assert(ts =~= dec);
    assert(digits_val(ts) == k.created_at);
    assert(s.subrange(0, kl) =~= k.kid);
    assert(s.subrange(kl + 1, jj) =~= k.secret);
    assert(parse_line(s)->Rec_0 =~= k);
}

/// Printing key records and reading the text back yields exactly the same
/// records, in the same order, for every sequence of records that the line
/// format can carry.
pub proof fn lemma_round_trip(ks: Seq<KeyModel>)
    requires
        all_valid(ks),
    ensures
        parse_content(render(ks)) == FileParse::Records(ks),
{
    lemma_round_trip_from(ks, 1);
}

proof fn lemma_round_trip_from(ks: Seq<KeyModel>, base: int)
    requires
        all_valid(ks),
    ensures
        parse_lines(split_lines(render(ks)), base) == FileParse::Records(ks),
    decreases ks.len(),
{
    if ks.len() == 0 {
        assert(render(ks) =~= Seq::<char>::empty());
        assert(split_lines(render(ks)) =~= Seq::<Seq<char>>::empty());
        assert(parse_lines(split_lines(render(ks)), base) == FileParse::Records(
            Seq::<KeyModel>::empty(),
        ));
        assert(ks =~= Seq::<KeyModel>::empty());
    } else {
        let k = ks.first();
        let rest = ks.drop_first();
        assert(valid_record(k));
        assert(all_valid(rest));
        lemma_parse_line_of(k);
        lemma_round_trip_from(rest, base + 1);
        let line = line_of(k);
        let s = render(ks);
        let n = s.len() as int;
        let ll = line.len() as int;
        assert(s == line + seq!['\n'] + render(rest));
        assert(n == ll + 1 + render(rest).len());
        assert(s[ll] == '\n');
        lemma_first_ix(s, '\n');
        let fx = first_ix(s, '\n') as int;
        assert forall|j: int| 0 <= j < ll implies s[j] != '\n' by {
            assert(s[j] == line[j]);
        }
        if fx < ll {
            assert(s[fx] != '\n');
            assert(false);
        }
        if fx > ll {
            assert(s[ll] != '\n');
            assert(false);
        }
        assert(fx == ll);
        assert(fx < n);
        assert(s.subrange(0, fx) =~= line);
        assert(s.subrange(fx + 1, n) =~= render(rest));
        let lines = split_lines(s);
        assert(lines == seq![line] + split_lines(render(rest)));
        assert(lines.first() == line);
        assert(lines.drop_first() =~= split_lines(render(rest)));
        assert(parse_line(line) == LineParse::Rec(k));
        assert(parse_lines(lines, base) == FileParse::Records(seq![k] + ks.drop_first()));
        assert(seq![k] + ks.drop_first() =~= ks);
    }
}

// ---------------------------------------------------------------------------
// Executable decimal printing
// ---------------------------------------------------------------------------
fn digit_str(d: u64) -> (s: &'static str)
    requires
        d < 10,
    ensures
        s@ == seq![digit_char(d as int)],
{
    proof {
        reveal_strlit("0");
        reveal_strlit("1");
        reveal_strlit("2");
        reveal_strlit("3");
        reveal_strlit("4");
        reveal_strlit("5");
        reveal_strlit("6");
        reveal_strlit("7");
        reveal_strlit("8");
        reveal_strlit("9");
    }
    match d {
        0 => "0",
        1 => "1",
        2 => "2",
        3 => "3",
        4 => "4",
        5 => "5",
        6 => "6",
        7 => "7",
        8 => "8",
        _ => "9",
    }
}

/// The numeral read off a stack of digits, most significant last.
spec fn digits_rev(ds: Seq<u64>) -> Seq<char>
    decreases ds.len(),
{
    if ds.len() == 0 {
        Seq::empty()
    } else {
        seq![digit_char(ds.last() as int)] + digits_rev(ds.drop_last())
    }
}

/// The canonical decimal numeral of `x`, as text.
pub(crate) fn u64_to_decimal(x: u64) -> (s: String)
    ensures
        s@ == decimal_of(x as int),
{
    u128_to_decimal(x as u128)
}

pub(crate) fn u128_to_decimal(x: u128) -> (s: String)
    ensures
        s@ == decimal_of(x as int),
{
    let mut digits: Vec<u64> = Vec::new();
    let mut cur: u128 = x;
    digits.push((cur % 10) as u64);
    cur = cur / 10;
    proof {
        assert(digits@.drop_last() =~= Seq::<u64>::empty());
        assert(digits_rev(Seq::<u64>::empty()) =~= Seq::<char>::empty());
        assert(digits_rev(digits@) =~= seq![digit_char((x % 10) as int)]);
        if x >= 10 {
            assert(decimal_of(x as int) == decimal_of(x as int / 10).push(
                digit_char(x as int % 10),
            ));
            assert(decimal_of(x as int) =~= decimal_of(cur as int) + digits_rev(digits@));
        }
    }
    while cur > 0
        invariant
            digits@.len() >= 1,
            forall|i: int| 0 <= i < digits@.len() ==> #[trigger] digits@[i] < 10,
            cur == 0 ==> decimal_of(x as int) == digits_rev(digits@),
            cur > 0 ==> decimal_of(x as int) == decimal_of(cur as int) + digits_rev(digits@),
        decreases cur,
    {
        let ghost pre = cur;
        let ghost dpre = digits@;
        digits.push((cur % 10) as u64);
        cur = cur / 10;
        proof {
            assert(digits@.drop_last() =~= dpre);
            assert(digits_rev(digits@) =~= seq![digit_char((pre % 10) as int)] + digits_rev(
                dpre,
            ));
            assert(decimal_of(x as int) == decimal_of(pre as int) + digits_rev(dpre));
            if cur == 0 {
                assert(pre < 10);
                assert(decimal_of(pre as int) =~= seq![digit_char((pre % 10) as int)]);
                assert(decimal_of(x as int) =~= digits_rev(digits@));
            } else {
                assert(pre >= 10);
                assert(decimal_of(pre as int) == decimal_of(pre as int / 10).push(
                    digit_char(pre as int % 10),
                ));
                assert(decimal_of(pre as int) =~= decimal_of(cur as int) + seq![
                    digit_char((pre % 10) as int),
                ]);
                assert(decimal_of(x as int) =~= decimal_of(cur as int) + digits_rev(digits@));
            }
        }
    }
    let mut out = String::new();
    let mut t: usize = digits.len();
    proof {
        assert(digits@.take(digits@.len() as int) =~= digits@);
    }
    while t > 0
        invariant
            t <= digits@.len(),
            forall|i: int| 0 <= i < digits@.len() ==> #[trigger] digits@[i] < 10,
            out@ + digits_rev(digits@.take(t as int)) == digits_rev(digits@),
        decreases t,
    {
        t = t - 1;
        let ghost opre = out@;
        out.append(digit_str(digits[t]));
        proof {
            let dt = digits@.take(t as int + 1);
            assert(dt.drop_last() =~= digits@.take(t as int));
            assert(dt.last() == digits@[t as int]);
            assert(digits_rev(dt) =~= seq![digit_char(digits@[t as int] as int)] + digits_rev(
                digits@.take(t as int),
            ));
            assert(out@ + digits_rev(digits@.take(t as int)) =~= opre + digits_rev(dt));
        }
    }
    proof {
        assert(digits@.take(0) =~= Seq::<u64>::empty());
        assert(out@ =~= decimal_of(x as int));
    }
    out
}

/// The characters of `s`, one by one.
fn str_chars(s: &str) -> (v: Vec<char>)
    ensures
        v@ == s@,
{
    let n = s.unicode_len();
    let mut v: Vec<char> = Vec::new();
    let mut i: usize = 0;
    while i < n
        invariant
            i <= n,
            n == s@.len(),
            v@ == s@.take(i as int),
        decreases n - i,
    {
        v.push(s.get_char(i));
        i = i + 1;
        proof {
            assert(v@ =~= s@.take(i as int));
        }
    }
    proof {
        assert(s@.take(n as int) =~= s@);
    }
    v
}

/// The value of one decimal digit character, if it is one.
fn char_digit(c: char) -> (r: Option<u64>)
    ensures
        r matches Some(d) ==> is_digit(c) && d == digit_val(c),
        r is None ==> !is_digit(c),
{
    if c == '0' {
        Some(0)
    } else if c == '1' {
        Some(1)
    } else if c == '2' {
        Some(2)
    } else if c == '3' {
        Some(3)
    } else if c == '4' {
        Some(4)
    } else if c == '5' {
        Some(5)
    } else if c == '6' {
        Some(6)
    } else if c == '7' {
        Some(7)
    } else if c == '8' {
        Some(8)
    } else if c == '9' {
        Some(9)
    } else {
        None
    }
}

/// The decimal numeral of `x`, with a leading sign when negative.
pub(crate) fn i64_to_decimal(x: i64) -> (s: String)
    ensures
        s@ == decimal_int(x as int),
{
    if x >= 0 {
        u64_to_decimal(x as u64)
    } else {
        let mag: u64 = (-(x as i128)) as u64;
        let digits = u64_to_decimal(mag);
        proof {
            reveal_strlit("-");
        }
        let out = String::from_str("-").concat(digits.as_str());
        proof {
            assert(out@ =~= decimal_int(x as int));
        }
        out
    }
}

pub(crate) fn i128_to_decimal(x: i128) -> (s: String)
    ensures
        s@ == decimal_int(x as int),
{
    if x >= 0 {
        u128_to_decimal(x as u128)
    } else {
        let mag: u128 = if x == i128::MIN {
            170141183460469231731687303715884105728
        } else {
            (-x) as u128
        };
        let digits = u128_to_decimal(mag);
        proof {
            reveal_strlit("-");
        }
        let out = String::from_str("-").concat(digits.as_str());
        proof {
            assert(out@ =~= decimal_int(x as int));
        }
        out
    }
}

// ---------------------------------------------------------------------------
// Executable parsing
// ---------------------------------------------------------------------------
/// What the parser found in one line.
enum SegOutcome {
    SegBlank,
    SegRec(KeyMaterial),
    SegBad,
    SegBig,
}

/// Parses the characters `start..end` of `content` (one line, no newline
/// inside) exactly as `parse_line` reads them.
#[verifier::rlimit(100)]
fn parse_segment(content: &str, cs: &Vec<char>, start: usize, end: usize) -> (o: SegOutcome)
    requires
        cs@ == content@,
        start <= end <= cs@.len(),
        forall|t: int| start <= t < end ==> cs@[t] != '\n',
    ensures
        match parse_line(content@.subrange(start as int, end as int)) {
            LineParse::Blank => o is SegBlank,
            LineParse::Bad => o is SegBad,
            LineParse::TooBig => o is SegBig,
            LineParse::Rec(k) => o matches SegOutcome::SegRec(key) && key@ == k && valid_record(
                k,
            ),
        },
{
    let ghost raw = content@.subrange(start as int, end as int);
    // Drop one trailing carriage return.
    let mut e = end;
    if e > start && cs[e - 1] == '\r' {
        e = e - 1;
    }
    let ghost line = content@.subrange(start as int, e as int);
    proof {
        assert(strip_cr(raw) =~= line);
    }
    // A line of nothing but whitespace is ignored.
    let mut b = start;
    while b < e && (cs[b] == ' ' || cs[b] == '\t' || cs[b] == '\r')
        invariant
            start <= b <= e <= cs@.len(),
            forall|t: int| start <= t < b ==> is_blank_char(#[trigger] cs@[t]),
        decreases e - b,
    {
        b = b + 1;
    }
    if b == e {
        proof {
            assert forall|t: int| 0 <= t < line.len() implies is_blank_char(#[trigger] line[t]) by {
                assert(line[t] == cs@[start + t]);
            }
        }
        return SegOutcome::SegBlank;
    }
    proof {
        assert(line[(b - start) as int] == cs@[b as int]);
        assert(!is_blank_line(line));
    }
    // First separator: end of the identifier.
    let mut i = start;
    while i < e && cs[i] != ':'
        invariant
            start <= i <= e <= cs@.len(),
            forall|t: int| start <= t < i ==> cs@[t] != ':',
        decreases e - i,
    {
        i = i + 1;
    }
    proof {
        lemma_first_ix(line, ':');
        assert forall|t: int| 0 <= t < i - start implies line[t] != ':' by {
            assert(line[t] == cs@[start + t]);
        }
        if i < e {
            assert(line[(i - start) as int] == ':');
        }
        assert(first_ix(line, ':') == i - start);
    }
    if i == e || i == start {
        return SegOutcome::SegBad;
    }
    // Second separator: end of the secret.
    let mut j = i + 1;
    while j < e && cs[j] != ':'
        invariant
            i + 1 <= j <= e <= cs@.len(),
            forall|t: int| i + 1 <= t < j ==> cs@[t] != ':',
        decreases e - j,
    {
        j = j + 1;
    }
    let ghost irel = (i - start) as int;
    let ghost tail = line.subrange(irel + 1, line.len() as int);
    proof {
        lemma_first_ix(tail, ':');
        assert forall|t: int| 0 <= t < j - i - 1 implies tail[t] != ':' by {
            assert(tail[t] == cs@[i + 1 + t]);
        }
        if j < e {
            assert(tail[(j - i - 1) as int] == ':');
        }
        assert(first_ix(tail, ':') == j - i - 1);
    }
    if j == e || j == i + 1 {
        return SegOutcome::SegBad;
    }
    // The rest must be a non-empty run of digits.
    let ghost jrel = (j - start) as int;
    let ghost ts = line.subrange(jrel + 1, line.len() as int);
    if j + 1 == e {
        return SegOutcome::SegBad;
    }
    let mut t = j + 1;
    while t < e && char_digit(cs[t]).is_some()
        invariant
            j + 1 <= t <= e <= cs@.len(),
            forall|u: int| j + 1 <= u < t ==> is_digit(#[trigger] cs@[u]),
        decreases e - t,
    {
        t = t + 1;
    }
    if t < e {
        proof {
            assert(ts[(t - j - 1) as int] == cs@[t as int]);
        }
        return SegOutcome::SegBad;
    }
    proof {
        assert forall|u: int| 0 <= u < ts.len() implies #[trigger] ts[u] == cs@[j + 1 + u] by {
            assert(ts[u] == line[jrel + 1 + u]);
        }
        assert forall|u: int| 0 <= u < ts.len() implies is_digit(#[trigger] ts[u]) by {
            assert(ts[u] == cs@[j + 1 + u]);
        }
    }
    // Read the timestamp, watching for values beyond i64::MAX.
    let maxi: u64 = 9223372036854775807;
    let mut acc: u64 = 0;
    let mut p = j + 1;
    proof {
        assert(ts.take(0) =~= Seq::<char>::empty());
        assert(digits_val(ts) > i64::MAX as int ==> parse_line(raw) == LineParse::TooBig);
    }
    while p < e
        invariant
            j + 1 <= p <= e <= cs@.len(),
            maxi == i64::MAX as u64,
            all_digits(ts),
            raw == content@.subrange(start as int, end as int),
            digits_val(ts) > i64::MAX as int ==> parse_line(raw) == LineParse::TooBig,
            ts == line.subrange(jrel + 1, line.len() as int),
            jrel == j - start,
            j + 1 + ts.len() == e,
            start <= j < e,
            cs@ == content@,
            line == content@.subrange(start as int, e as int),
            forall|u: int| 0 <= u < ts.len() ==> #[trigger] ts[u] == cs@[j + 1 + u],
            acc <= maxi,
            acc as int == digits_val(ts.take((p - j - 1) as int)),
        decreases e - p,
    {
        let d = match char_digit(cs[p]) {
            Some(d) => d,
            None => {
                proof {
                    assert(ts[(p - j - 1) as int] == cs@[p as int]);
                    assert(false);
                }
                0
            },
        };
        let ghost pre = (p - j - 1) as int;
        proof {
            assert(ts.take(pre + 1).drop_last() =~= ts.take(pre));
            assert(ts.take(pre + 1).last() == ts[pre]);
            assert(digits_val(ts.take(pre + 1)) == digits_val(ts.take(pre)) * 10 + digit_val(
                ts[pre],
            ));
            assert(d == digit_val(ts[pre]));
            assert(d < 10);
        }
        if acc > (maxi - d) / 10 {
            proof {
                assert(acc as int * 10 + d as int > maxi as int) by (nonlinear_arith)
                    requires
                        acc as int > (maxi as int - d as int) / 10,
                        0 <= d < 10,
                        maxi as int == 0x7fffffffffffffff,
                ;
                lemma_digits_val_prefix(ts, pre + 1);
                assert(digits_val(ts) > i64::MAX as int);
            }
            return SegOutcome::SegBig;
        }
        proof {
            assert(acc as int * 10 + d as int <= maxi as int) by (nonlinear_arith)
                requires
                    acc as int <= (maxi as int - d as int) / 10,
                    0 <= d < 10,
                    maxi as int == 0x7fffffffffffffff,
            ;
        }
        acc = acc * 10 + d;
        p = p + 1;
    }
    proof {
        assert(ts.take((e - j - 1) as int) =~= ts);
        lemma_digits_val_nonneg(ts);
    }
    // A record line: extract the fields.
    let kid = content.substring_char(start, i).to_owned();
    let secret = content.substring_char(i + 1, j).to_owned();
    let key = KeyMaterial { kid, secret, created_at_unix: acc as i64 };
    proof {
        let k = parse_line(raw)->Rec_0;
        assert(key.kid@ =~= line.subrange(0, irel));
        assert(key.secret@ =~= line.subrange(irel + 1, jrel));
        assert(key@ =~= k);
        assert forall|u: int| 0 <= u < k.kid.len() implies #[trigger] k.kid[u] != ':'
            && k.kid[u] != '\n' by {
            assert(k.kid[u] == cs@[start + u]);
        }
        assert forall|u: int| 0 <= u < k.secret.len() implies #[trigger] k.secret[u] != ':'
            && k.secret[u] != '\n' by {
            assert(k.secret[u] == cs@[i + 1 + u]);
        }
        assert(valid_record(k));
    }
    SegOutcome::SegRec(key)
}

/// Holds when the remaining text still parses to `rest` after the records
/// `pre` have been read.
spec fn seq_compose(pre: Seq<KeyModel>, rest: FileParse) -> FileParse {
    match rest {
        FileParse::Records(ks) => FileParse::Records(pre + ks),
        e => e,
    }
}

/// Reads the persisted text back into key records.
///
/// Succeeds exactly when the text matches the line grammar, returning the
/// records of all non-blank lines in order; fails with `InvalidFormat` on
/// the first malformed line, and with `Parse` on the first timestamp beyond
/// `i64::MAX`.
pub fn parse_keys(content: &str) -> (r: Result<Vec<KeyMaterial>, KeyStoreError>)
    ensures
        parse_content(content@) matches FileParse::Records(ks) ==> r matches Ok(v) && key_views(
            v@,
        ) == ks && all_valid(ks),
        parse_content(content@) matches FileParse::BadLine(m) ==> r matches Err(e) && e
            is InvalidFormat,
        parse_content(content@) matches FileParse::BigStamp(m) ==> r matches Err(e) && e is Parse,
{
    let cs = str_chars(content);
    let n = cs.len();
    let mut out: Vec<KeyMaterial> = Vec::new();
    let mut pos: usize = 0;
    let mut lineno: u64 = 1;
    let ghost gline: int = 1;
    proof {
        assert(content@.skip(0) =~= content@);
    }
    while pos < n
        invariant
            pos <= n,
            n == cs@.len(),
            cs@ == content@,
            all_valid(key_views(out@)),
            parse_content(content@) == seq_compose(
                key_views(out@),
                parse_lines(split_lines(content@.skip(pos as int)), gline),
            ),
        decreases n - pos,
    {
        // Scan to the end of the current line.
        let mut j = pos;
        while j < n && cs[j] != '\n'
            invariant
                pos <= j <= n,
                n == cs@.len(),
                forall|t: int| pos <= t < j ==> cs@[t] != '\n',
            decreases n - j,
        {
            j = j + 1;
        }
        let ghost rem = content@.skip(pos as int);
        let ghost fx = first_ix(rem, '\n') as int;
        proof {
            lemma_first_ix(rem, '\n');
            assert forall|t: int| 0 <= t < j - pos implies rem[t] != '\n' by {
                assert(rem[t] == cs@[pos + t]);
            }
            if j < n {
                assert(rem[(j - pos) as int] == cs@[j as int]);
                if fx < j - pos {
                    assert(rem[fx] == '\n');
                    assert(false);
                }
                if fx > j - pos {
                    assert(rem[(j - pos) as int] != '\n');
                    assert(false);
                }
            } else {
                if fx < n - pos {
                    assert(rem[fx] == '\n');
                    assert(false);
                }
            }
            assert(fx == j - pos);
            assert(rem.subrange(0, fx) =~= content@.subrange(pos as int, j as int));
        }
        let ghost lines = split_lines(rem);
        let ghost line = content@.subrange(pos as int, j as int);
        proof {
            if j < n {
                assert(lines == seq![line] + split_lines(
                    rem.subrange(fx + 1, rem.len() as int),
                ));
                assert(rem.subrange(fx + 1, rem.len() as int) =~= content@.skip(j + 1));
                assert(lines.first() == line);
                assert(lines.drop_first() =~= split_lines(content@.skip(j + 1)));
            } else {
                assert(rem =~= line);
                assert(lines == seq![line]);
                assert(lines.first() == line);
                assert(lines.drop_first() =~= Seq::<Seq<char>>::empty());
                assert(content@.skip(n as int) =~= Seq::<char>::empty());
                assert(split_lines(content@.skip(n as int)) =~= Seq::<Seq<char>>::empty());
            }
        }
        match parse_segment(content, &cs, pos, j) {
            SegOutcome::SegBlank => {
                proof {
                    assert(parse_lines(lines, gline) == parse_lines(lines.drop_first(), gline + 1));
                }
            },
            SegOutcome::SegRec(key) => {
                proof {
                    let k = parse_line(line)->Rec_0;
                    assert(parse_lines(lines, gline) == match parse_lines(
                        lines.drop_first(),
                        gline + 1,
                    ) {
                        FileParse::Records(ks) => FileParse::Records(seq![k] + ks),
                        e => e,
                    });
                    assert(key_views(out@.push(key)) =~= key_views(out@) + seq![key@]);
                    match parse_lines(lines.drop_first(), gline + 1) {
                        FileParse::Records(ks) => {
                            assert(key_views(out@) + (seq![k] + ks) =~= key_views(out@.push(key))
                                + ks);
                        },
                        FileParse::BadLine(_) => {},
                        FileParse::BigStamp(_) => {},
                    }
                }
                out.push(key);
            },
            SegOutcome::SegBad => {
                proof {
                    assert(parse_lines(lines, gline) == FileParse::BadLine(gline));
                    assert(parse_content(content@) == FileParse::BadLine(gline));
                }
                return Err(
                    KeyStoreError::InvalidFormat(
                        String::from_str("invalid line ").concat(
                            u64_to_decimal(lineno).as_str(),
                        ).concat(": ").concat(content.substring_char(pos, j)),
                    ),
                );
            },
            SegOutcome::SegBig => {
                proof {
                    assert(parse_lines(lines, gline) == FileParse::BigStamp(gline));
                    assert(parse_content(content@) == FileParse::BigStamp(gline));
                }
                return Err(
                    KeyStoreError::Parse(
                        String::from_str("timestamp out of range on line ").concat(
                            u64_to_decimal(lineno).as_str(),
                        ),
                    ),
                );
            },
        }
        if lineno < 18446744073709551615 {
            lineno = lineno + 1;
        }
        proof {
            gline = gline + 1;
        }
        if j == n {
            pos = n;
        } else {
            pos = j + 1;
        }
    }
    proof {
        assert(content@.skip(pos as int) =~= Seq::<char>::empty());
        assert(parse_lines(split_lines(content@.skip(pos as int)), gline) == FileParse::Records(
            Seq::<KeyModel>::empty(),
        ));
        assert(key_views(out@) + Seq::<KeyModel>::empty() =~= key_views(out@));
    }
    Ok(out)
}

// ---------------------------------------------------------------------------
// Executable printing
// ---------------------------------------------------------------------------
/// Writes key records out as the persisted text, one line per record.
pub fn format_keys(keys: &[KeyMaterial]) -> (s: String)
    ensures
        s@ == render(key_views(keys@)),
{
    let ghost vs = key_views(keys@);
    let mut out = String::new();
    let mut i: usize = 0;
    proof {
        assert(vs.skip(0) =~= vs);
    }
    while i < keys.len()
        invariant
            i <= keys@.len(),
            vs == key_views(keys@),
            render(vs) == out@ + render(vs.skip(i as int)),
        decreases keys@.len() - i,
    {
        let ghost opre = out@;
        let k = &keys[i];
        out.append(k.kid.as_str());
        out.append(":");
        out.append(k.secret.as_str());
        out.append(":");
        let stamp = i64_to_decimal(k.created_at_unix);
        out.append(stamp.as_str());
        out.append("\n");
        proof {
            reveal_strlit(":");
            reveal_strlit("\n");
            assert(":"@ =~= seq![':']);
            assert("\n"@ =~= seq!['\n']);
            assert(vs.skip(i as int).first() == vs[i as int]);
            assert(vs.skip(i as int).drop_first() =~= vs.skip(i as int + 1));
            assert(render(vs.skip(i as int)) == line_of(vs[i as int]) + seq!['\n'] + render(
                vs.skip(i as int + 1),
            ));
            assert(out@ =~= opre + line_of(vs[i as int]) + seq!['\n']);
            assert(opre + (line_of(vs[i as int]) + seq!['\n'] + render(vs.skip(i as int + 1)))
                =~= out@ + render(vs.skip(i as int + 1)));
        }
        i = i + 1;
    }
    proof {
        assert(vs.skip(vs.len() as int) =~= Seq::<KeyModel>::empty());
        assert(render(vs) =~= out@);
    }
    out
}

} // verus!
