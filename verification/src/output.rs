//! The text of the per-column result files.
//!
//! Each data column gets a file `output/<name>.csv` whose first line is a
//! header and whose other lines are `timestamp;value;flag` with the value
//! written with six decimals and the flag `1` for a good sample, `0` for an
//! anomaly.
use vstd::prelude::*;
use vstd::utf8::valid_utf8;
use crate::parse::{is_utf8, parse_number_spec, digit_values, last_dot, number_body_start, is_digit, is_cell_end, field_end};

verus! {

/// Bytes kept of a column name in a file path.
pub const MAX_PATH_NAME_LEN: usize = 239;

/// `output/`
pub open spec fn dir_prefix() -> Seq<u8> {
    seq![111, 117, 116, 112, 117, 116, 47]
}

/// `.csv` and the closing NUL byte of a C path.
pub open spec fn path_suffix() -> Seq<u8> {
    seq![46, 99, 115, 118, 0]
}

/// `TimeStamp;`
pub open spec fn header_start() -> Seq<u8> {
    seq![84, 105, 109, 101, 83, 116, 97, 109, 112, 59]
}

/// `;0 - Bad, 1 - Good` and a line feed.
pub open spec fn header_end() -> Seq<u8> {
    seq![59, 48, 32, 45, 32, 66, 97, 100, 44, 32, 49, 32, 45, 32, 71, 111, 111, 100, 10]
}

/// The header line of a result file: `TimeStamp;Value;Status (1=Good,0=Bad)` and a line feed.
pub open spec fn documented_header() -> Seq<u8> {
    seq![84, 105, 109, 101, 83, 116, 97, 109, 112, 59, 86, 97, 108, 117, 101, 59, 83, 116, 97, 116, 117, 115, 32, 40, 49, 61, 71, 111, 111, 100, 44, 48, 61, 66, 97, 100, 41, 10]
}

/// `unknown`, written for a name that is not UTF-8.
pub open spec fn unknown_name() -> Seq<u8> {
    seq![117, 110, 107, 110, 111, 119, 110]
}

/// A byte of a column name as it goes into a file path: `/`, `\`, NUL and
/// `;` become `_`.
pub open spec fn path_byte(c: u8) -> u8 {
    if c == 47 || c == 92 || c == 0 || c == 59 {
        95
    } else {
        c
    }
}

/// The NUL-terminated path of the result file of a column: `output/`, the
/// first [`MAX_PATH_NAME_LEN`] bytes of the name with unsafe bytes replaced,
/// then `.csv`.
pub open spec fn output_path(name: Seq<u8>) -> Seq<u8> {
    let kept = if name.len() <= MAX_PATH_NAME_LEN {
        name
    } else {
        name.subrange(0, MAX_PATH_NAME_LEN as int)
    };
    dir_prefix() + kept.map_values(|c: u8| path_byte(c)) + path_suffix()
}

/// The name shown for a column: the name itself when it is UTF-8, else
/// `unknown`.
pub open spec fn shown_name(name: Seq<u8>) -> Seq<u8> {
    if valid_utf8(name) {
        name
    } else {
        unknown_name()
    }
}

/// A first line that names the column: `TimeStamp;`, the shown name, then
/// `;0 - Bad, 1 - Good` and a line feed.
pub open spec fn header_line(name: Seq<u8>) -> Seq<u8> {
    header_start() + (if valid_utf8(name) {
        name
    } else {
        unknown_name()
    }) + header_end()
}

/// The decimal digits of `n`, least significant first (none for zero).
pub open spec fn digits_rev(n: nat) -> Seq<u8>
    decreases n,
{
    if n == 0 {
        seq![]
    } else {
        seq![(48 + n % 10) as u8] + digits_rev(n / 10)
    }
}

/// The decimal text of `n`.
pub open spec fn decimal_text(n: nat) -> Seq<u8> {
    if n == 0 {
        seq![48]
    } else {
        digits_rev(n).reverse()
    }
}

/// The lowest `k` decimal digits of `n`, least significant first.
pub open spec fn fixed_rev(n: nat, k: nat) -> Seq<u8>
    decreases k,
{
    if k == 0 {
        seq![]
    } else {
        seq![(48 + n % 10) as u8] + fixed_rev(n / 10, (k - 1) as nat)
    }
}

/// A value written with six decimals: an optional `-`, the integer part, a
/// dot and the millionths padded with zeros to six digits.
pub open spec fn value_text(negative: bool, int_part: nat, frac_part: nat) -> Seq<u8> {
    (if negative {
        seq![45u8]
    } else {
        seq![]
    }) + decimal_text(int_part) + seq![46u8] + fixed_rev(frac_part, 6).reverse()
}

/// A data line of a result file: the timestamp, the value and the flag.
pub open spec fn row_line(timestamp: Seq<u8>, value: Seq<u8>, is_good: bool) -> Seq<u8> {
    timestamp + seq![59u8] + value + seq![59u8] + (if is_good {
        seq![49u8, 10u8]
    } else {
        seq![48u8, 10u8]
    })
}

/// Appends `bytes` to `out`.
fn push_all(out: &mut Vec<u8>, bytes: &[u8])
    ensures
        final(out)@ == old(out)@ + bytes@,
{
    let mut i: usize = 0;
    while i < bytes.len()
        invariant
            i <= bytes@.len(),
            out@ == old(out)@ + bytes@.subrange(0, i as int),
        decreases bytes@.len() - i,
    {
        out.push(bytes[i]);
        proof {
            assert(bytes@.subrange(0, i + 1) =~= bytes@.subrange(0, i as int).push(bytes@[i as int]));
        }
        i = i + 1;
    }
    assert(bytes@.subrange(0, bytes@.len() as int) =~= bytes@);
}

/// The path of the result file of the column called `field_name`; see
/// [`output_path`].
pub fn output_file_path(field_name: &[u8]) -> (path: Vec<u8>)
    ensures
        path@ == output_path(field_name@),
{
    let dir: [u8; 7] = [111u8, 117u8, 116u8, 112u8, 117u8, 116u8, 47u8];
    assert(dir@ =~= dir_prefix());
    let mut path: Vec<u8> = Vec::new();
    push_all(&mut path, &dir);
    let ghost kept = if field_name@.len() <= MAX_PATH_NAME_LEN {
        field_name@
    } else {
        field_name@.subrange(0, MAX_PATH_NAME_LEN as int)
    };
    let mut i: usize = 0;
    while i < field_name.len() && i < MAX_PATH_NAME_LEN
        invariant
            i <= field_name@.len(),
            i <= MAX_PATH_NAME_LEN,
            path@ == dir_prefix() + field_name@.subrange(0, i as int).map_values(|c: u8| path_byte(c)),
        decreases field_name@.len() - i,
    {
        let b = field_name[i];
        if b == 47u8 || b == 92u8 || b == 0u8 || b == 59u8 {
            path.push(95u8);
        } else {
            path.push(b);
        }
        proof {
            assert(field_name@.subrange(0, i + 1).map_values(|c: u8| path_byte(c)) =~= field_name@.subrange(
                0,
                i as int,
            ).map_values(|c: u8| path_byte(c)).push(path_byte(b)));
        }
        i = i + 1;
    }
    assert(field_name@.subrange(0, i as int) =~= kept);
    let suffix: [u8; 5] = [46u8, 99u8, 115u8, 118u8, 0u8];
    assert(suffix@ =~= path_suffix());
    push_all(&mut path, &suffix);
    path
}

/// The header line of a result file: `TimeStamp;Value;Status (1=Good,0=Bad)` and a line
/// feed, whatever the column is called.
pub fn write_header(_field_name: &[u8]) -> (line: Vec<u8>)
    ensures
        line@ == documented_header(),
{
    let text: [u8; 38] = [84u8, 105u8, 109u8, 101u8, 83u8, 116u8, 97u8, 109u8, 112u8, 59u8, 86u8, 97u8, 108u8, 117u8, 101u8, 59u8, 83u8, 116u8, 97u8, 116u8, 117u8, 115u8, 32u8, 40u8, 49u8, 61u8, 71u8, 111u8, 111u8, 100u8, 44u8, 48u8, 61u8, 66u8, 97u8, 100u8, 41u8, 10u8];
    assert(text@ =~= documented_header());
    let mut line: Vec<u8> = Vec::new();
    push_all(&mut line, &text);
    line
}

/// The name shown for the column called `field_name`: the name when it is
/// UTF-8, else `unknown`.
pub fn header_name_text(field_name: &[u8]) -> (shown: Vec<u8>)
    ensures
        shown@ == shown_name(field_name@),
{
    let mut shown: Vec<u8> = Vec::new();
    if is_utf8(field_name) {
        push_all(&mut shown, field_name);
    } else {
        let unknown: [u8; 7] = [117u8, 110u8, 107u8, 110u8, 111u8, 119u8, 110u8];
        assert(unknown@ =~= unknown_name());
        push_all(&mut shown, &unknown);
    }
    shown
}

/// A first line that names the column called `field_name`: `TimeStamp;`,
/// the name (or `unknown` when it is not UTF-8), then `;0 - Bad, 1 - Good`
/// and a line feed.
pub fn write_named_header(field_name: &[u8]) -> (line: Vec<u8>)
    ensures
        line@ == header_line(field_name@),
{
    let part1: [u8; 10] = [84u8, 105u8, 109u8, 101u8, 83u8, 116u8, 97u8, 109u8, 112u8, 59u8];
    assert(part1@ =~= header_start());
    let part2: [u8; 19] = [59u8, 48u8, 32u8, 45u8, 32u8, 66u8, 97u8, 100u8, 44u8, 32u8, 49u8, 32u8, 45u8, 32u8, 71u8, 111u8, 111u8, 100u8, 10u8];
    assert(part2@ =~= header_end());
    let mut line: Vec<u8> = Vec::new();
    push_all(&mut line, &part1);
    let shown = header_name_text(field_name);
    push_all(&mut line, shown.as_slice());
    push_all(&mut line, &part2);
    line
}

/// Writes a value with six decimals (see [`value_text`]) from its sign, its
/// integer part and its fraction rounded to millionths. A fraction that
/// rounds up to a whole million carries into the integer part.
pub fn format_fixed6(negative: bool, whole: u32, millionths: u32) -> (text: Vec<u8>)
    requires
        millionths <= 1000000,
    ensures
        text@ == value_text(negative, (whole + millionths / 1000000) as nat, (millionths % 1000000) as nat),
{
    let (int_part, frac_part): (u64, u32) = if millionths == 1000000u32 {
        (whole as u64 + 1, 0u32)
    } else {
        (whole as u64, millionths)
    };
    let mut text: Vec<u8> = Vec::new();
    if negative {
        text.push(45u8);
    }
    let ghost sign = text@;
    // Integer part, least significant digit first.
    let mut digits: Vec<u8> = Vec::new();
    let mut temp = int_part;
    if temp == 0 {
        digits.push(48u8);
    } else {
        while temp > 0
            invariant
                int_part > 0,
                digits@ + digits_rev(temp as nat) == digits_rev(int_part as nat),
            decreases temp,
        {
            let d = (temp % 10) as u8;
            proof {
                assert(digits_rev(temp as nat) == seq![(48 + temp % 10) as u8] + digits_rev(
                    (temp / 10) as nat,
                ));
                assert(digits@.push((48 + d) as u8) + digits_rev((temp / 10) as nat) =~= digits@
                    + digits_rev(temp as nat));
            }
            digits.push(48u8 + d);
            temp = temp / 10;
        }
        assert(digits@ =~= digits_rev(int_part as nat));
    }
    assert(digits@.reverse() =~= decimal_text(int_part as nat)) by {
        if int_part == 0 {
            assert(digits@ =~= seq![48u8]);
        }
    }
    let n = digits.len();
    let mut k: usize = 0;
    while k < n
        invariant
            n == digits@.len(),
            k <= n,
            text@ == sign + digits@.reverse().subrange(0, k as int),
        decreases n - k,
    {
        text.push(digits[n - 1 - k]);
        proof {
            assert(digits@.reverse().subrange(0, k + 1) =~= digits@.reverse().subrange(0, k as int).push(
                digits@[n - 1 - k],
            ));
        }
        k = k + 1;
    }
    assert(digits@.reverse().subrange(0, n as int) =~= digits@.reverse());
    text.push(46u8);
    // Six decimals, least significant first.
    let mut frac_digits: Vec<u8> = Vec::new();
    let mut frac = frac_part;
    let mut j: usize = 0;
    while j < 6
        invariant
            j <= 6,
            frac_digits@.len() == j,
            frac_digits@ + fixed_rev(frac as nat, (6 - j) as nat) == fixed_rev(frac_part as nat, 6),
        decreases 6 - j,
    {
        let d = (frac % 10) as u8;
        proof {
            assert(fixed_rev(frac as nat, (6 - j) as nat) == seq![(48 + frac % 10) as u8] + fixed_rev(
                (frac / 10) as nat,
                (6 - j - 1) as nat,
            ));
            assert(frac_digits@.push((48 + d) as u8) + fixed_rev((frac / 10) as nat, (6 - j - 1) as nat)
                =~= frac_digits@ + fixed_rev(frac as nat, (6 - j) as nat));
        }
        frac_digits.push(48u8 + d);
        frac = frac / 10;
        j = j + 1;
    }
    assert(frac_digits@ =~= fixed_rev(frac_part as nat, 6));
    let ghost before = text@;
    let mut k: usize = 0;
    while k < 6
        invariant
            frac_digits@.len() == 6,
            k <= 6,
            text@ == before + frac_digits@.reverse().subrange(0, k as int),
        decreases 6 - k,
    {
        text.push(frac_digits[5 - k]);
        proof {
            assert(frac_digits@.reverse().subrange(0, k + 1) =~= frac_digits@.reverse().subrange(
                0,
                k as int,
            ).push(frac_digits@[5 - k]));
        }
        k = k + 1;
    }
    assert(frac_digits@.reverse().subrange(0, 6) =~= frac_digits@.reverse());
    text
}

/// A data line of a result file from the timestamp bytes, the value text
/// and whether the sample is good; see [`row_line`].
pub fn write_row_with_timestamp(timestamp: &[u8], value: &[u8], is_good: bool) -> (line: Vec<u8>)
    ensures
        line@ == row_line(timestamp@, value@, is_good),
{
    let mut line: Vec<u8> = Vec::new();
    push_all(&mut line, timestamp);
    line.push(59u8);
    push_all(&mut line, value);
    line.push(59u8);
    if is_good {
        line.push(49u8);
    } else {
        line.push(48u8);
    }
    line.push(10u8);
    line
}

/// The number that digit values stand for, most significant first.
pub open spec fn digits_value(ds: Seq<u8>) -> nat
    decreases ds.len(),
{
    if ds.len() == 0 {
        0
    } else {
        digits_value(ds.drop_last()) * 10 + ds.last() as nat
    }
}

/// Whether every byte of `s` is a decimal digit.
pub open spec fn all_digits(s: Seq<u8>) -> bool {
    forall|i: int| 0 <= i < s.len() ==> is_digit(#[trigger] s[i])
}

proof fn lemma_reverse_cons(a: u8, s: Seq<u8>)
    ensures
        (seq![a] + s).reverse() == s.reverse().push(a),
{
    assert((seq![a] + s).reverse() =~= s.reverse().push(a));
}

proof fn lemma_digits_of_digits(x: Seq<u8>, c: u8)
    requires
        is_digit(c),
    ensures
        digit_values(x.push(c)) == digit_values(x).push((c - 48) as u8),
{
    assert(x.push(c).drop_last() =~= x);
}

/// The digits of `n`, most significant first, are digits and stand for `n`.
proof fn lemma_digits_rev_value(n: nat)
    ensures
        all_digits(digits_rev(n).reverse()),
        digits_value(digit_values(digits_rev(n).reverse())) == n,
    decreases n,
{
    if n == 0 {
        assert(digits_rev(0).reverse() =~= Seq::<u8>::empty());
        assert(digit_values(Seq::<u8>::empty()) =~= Seq::<u8>::empty());
    } else {
        lemma_digits_rev_value(n / 10);
        let prev = digits_rev(n / 10).reverse();
        let c = (48 + n % 10) as u8;
        lemma_reverse_cons(c, digits_rev(n / 10));
        lemma_digits_of_digits(prev, c);
        assert(digit_values(prev).push((c - 48) as u8).drop_last() =~= digit_values(prev));
        assert(all_digits(prev.push(c))) by {
            assert forall|i: int| 0 <= i < prev.push(c).len() implies is_digit(#[trigger] prev.push(c)[i]) by {
                if i < prev.len() {
                    assert(prev.push(c)[i] == prev[i]);
                }
            }
        }
    }
}

/// The lowest `k` digits of `n`, most significant first, are `k` digits and
/// stand for `n` modulo `10^k`.
proof fn lemma_fixed_rev_value(n: nat, k: nat)
    ensures
        fixed_rev(n, k).len() == k,
        all_digits(fixed_rev(n, k).reverse()),
        digits_value(digit_values(fixed_rev(n, k).reverse())) == n % (vstd::arithmetic::power::pow(
            10,
            k,
        ) as nat),
    decreases k,
{
    vstd::arithmetic::power::lemma_pow_positive(10, k);
    if k == 0 {
        assert(fixed_rev(n, 0).reverse() =~= Seq::<u8>::empty());
        assert(digit_values(Seq::<u8>::empty()) =~= Seq::<u8>::empty());
        assert(vstd::arithmetic::power::pow(10, 0) == 1) by {
            vstd::arithmetic::power::lemma_pow0(10);
        }
    } else {
        let k1 = (k - 1) as nat;
        lemma_fixed_rev_value(n / 10, k1);
        let prev = fixed_rev(n / 10, k1).reverse();
        let c = (48 + n % 10) as u8;
        lemma_reverse_cons(c, fixed_rev(n / 10, k1));
        lemma_digits_of_digits(prev, c);
        assert(digit_values(prev).push((c - 48) as u8).drop_last() =~= digit_values(prev));
        assert(all_digits(prev.push(c))) by {
            assert forall|i: int| 0 <= i < prev.push(c).len() implies is_digit(#[trigger] prev.push(c)[i]) by {
                if i < prev.len() {
                    assert(prev.push(c)[i] == prev[i]);
                }
            }
        }
        let p = vstd::arithmetic::power::pow(10, k1);
        vstd::arithmetic::power::lemma_pow_positive(10, k1);
        assert(vstd::arithmetic::power::pow(10, k) == 10 * p) by {
            vstd::arithmetic::power::lemma_pow_adds(10, 1, k1);
            vstd::arithmetic::power::lemma_pow1(10);
        }
        vstd::arithmetic::div_mod::lemma_mod_breakdown(n as int, 10, p);
        assert(digits_value(digit_values(prev.push(c))) == ((n / 10) % (p as nat)) * 10 + n % 10);
        assert(((n / 10) % (p as nat)) * 10 == 10 * ((n as int / 10) % p)) by (nonlinear_arith)
            requires
                p > 0,
        ;
    }
}

proof fn lemma_digit_values_of_digits_len(s: Seq<u8>)
    requires
        all_digits(s),
    ensures
        digit_values(s).len() == s.len(),
    decreases s.len(),
{
    if s.len() > 0 {
        lemma_digit_values_of_digits_len(s.drop_last());
    }
}

proof fn lemma_last_dot_after(a: Seq<u8>, f: Seq<u8>)
    requires
        all_digits(f),
    ensures
        last_dot(a.push(46u8) + f) == Some(a.len()),
    decreases f.len(),
{
    if f.len() == 0 {
        assert(a.push(46u8) + f =~= a.push(46u8));
        assert(a.push(46u8).drop_last() =~= a);
    } else {
        assert((a.push(46u8) + f).drop_last() =~= a.push(46u8) + f.drop_last());
        assert(all_digits(f.drop_last()));
        lemma_last_dot_after(a, f.drop_last());
    }
}

/// A value written with six decimals reads back, as a number cell, with the
/// same sign, the same integer part and the same millionths.
#[verifier::rlimit(60)]
pub proof fn lemma_value_text_reads_back(negative: bool, int_part: nat, frac_part: nat)
    requires
        frac_part < 1000000,
    ensures
        parse_number_spec(value_text(negative, int_part, frac_part)) matches Some(d) && d.0
            == negative && digits_value(d.1) == int_part && d.2.len() == 6 && digits_value(d.2)
            == frac_part,
{
    let sign: Seq<u8> = if negative {
        seq![45u8]
    } else {
        seq![]
    };
    let d = decimal_text(int_part);
    let f = fixed_rev(frac_part, 6).reverse();
    let t = value_text(negative, int_part, frac_part);
    lemma_digits_rev_value(int_part);
    lemma_fixed_rev_value(frac_part, 6);
    assert(vstd::arithmetic::power::pow(10, 6) == 1000000) by {
        reveal_with_fuel(vstd::arithmetic::power::pow, 7);
    }
    vstd::arithmetic::div_mod::lemma_small_mod(frac_part, 1000000);
    if int_part == 0 {
        assert(digit_values(seq![48u8]) =~= seq![0u8]) by {
            assert(seq![48u8].drop_last() =~= Seq::<u8>::empty());
        }
        assert(seq![0u8].drop_last() =~= Seq::<u8>::empty());
        assert(all_digits(d));
    }
    assert(all_digits(d));
    assert(d.len() > 0) by {
        if int_part != 0 {
            assert(digits_rev(int_part).len() > 0);
        }
    }
    let head = sign + d;
    assert(t =~= head.push(46u8) + f);
    lemma_last_dot_after(head, f);
    let start = number_body_start(t);
    assert(start == sign.len()) by {
        if !negative {
            assert(t[0] == d[0]);
        }
    }
    assert(t.subrange(start as int, head.len() as int) =~= d);
    assert(t.subrange(head.len() as int + 1, t.len() as int) =~= f);
    assert forall|j: int| start <= j < t.len() implies is_digit(t[j]) || t[j] == 46 by {
        if j < head.len() {
            assert(t[j] == d[j - start]);
        } else if j > head.len() {
            assert(t[j] == f[j - head.len() - 1]);
        }
    }
    lemma_digit_values_of_digits_len(f);
}

/// A result file path is a C string naming a `.csv` file directly inside
/// `output/`: its only NUL byte is the last one and the name part holds no
/// `/`, `\\` or `;`.
pub proof fn lemma_output_path_is_safe(name: Seq<u8>)
    ensures
        output_path(name).len() <= dir_prefix().len() + MAX_PATH_NAME_LEN + path_suffix().len(),
        output_path(name).subrange(0, 7) == dir_prefix(),
        output_path(name).subrange(output_path(name).len() - 5, output_path(name).len() as int)
            == path_suffix(),
        forall|i: int|
            7 <= i < output_path(name).len() - 5 ==> {
                let c = #[trigger] output_path(name)[i];
                c != 47 && c != 92 && c != 59 && c != 0
            },
        forall|i: int| 0 <= i < output_path(name).len() - 1 ==> #[trigger] output_path(name)[i] != 0,
{
    let kept = if name.len() <= MAX_PATH_NAME_LEN {
        name
    } else {
        name.subrange(0, MAX_PATH_NAME_LEN as int)
    };
    let mid = kept.map_values(|c: u8| path_byte(c));
    let p = output_path(name);
    assert(p == dir_prefix() + mid + path_suffix());
    assert(p.subrange(0, 7) =~= dir_prefix());
    assert(p.subrange(p.len() - 5, p.len() as int) =~= path_suffix());
    assert forall|i: int| 7 <= i < p.len() - 5 implies {
        let c = #[trigger] p[i];
        c != 47 && c != 92 && c != 59 && c != 0
    } by {
        assert(p[i] == mid[i - 7]);
    }
    assert forall|i: int| 0 <= i < p.len() - 1 implies #[trigger] p[i] != 0 by {
        if i < 7 {
            assert(p[i] == dir_prefix()[i]);
        } else if i < p.len() - 5 {
            assert(p[i] == mid[i - 7]);
        } else {
            assert(p[i] == path_suffix()[i - (p.len() - 5)]);
        }
    }
}

/// The header line of a result file shows a name stored from a CP1251
/// header as it is, never as `unknown`.
pub proof fn lemma_cp1251_header_shows_name(f: Seq<u8>)
    ensures
        header_line(crate::parse::cp1251_name(f)) == header_start() + crate::parse::cp1251_name(f)
            + header_end(),
{
    crate::parse::lemma_cp1251_name_is_utf8(f);
}

/// The decimal text of a whole number, alone or after a `-`, reads back, as
/// a number cell, as that number with that sign and no fraction digits.
pub proof fn lemma_integer_text_reads_back(negative: bool, n: nat)
    ensures
        parse_number_spec(
            (if negative {
                seq![45u8]
            } else {
                seq![]
            }) + decimal_text(n),
        ) matches Some(d) && d.0 == negative && digits_value(d.1) == n && d.2.len() == 0,
{
    let sign: Seq<u8> = if negative {
        seq![45u8]
    } else {
        seq![]
    };
    let d = decimal_text(n);
    let ds = d.map_values(|c: u8| (c - 48) as u8);
    if n == 0 {
        assert(d == seq![48u8]);
        assert(all_digits(d));
        assert(ds =~= seq![0u8]);
        assert(ds.drop_last() =~= Seq::<u8>::empty());
        assert(digits_value(ds.drop_last()) == 0);
        assert(digits_value(ds) == 0);
    } else {
        lemma_digits_rev_value(n);
        assert(digits_rev(n).len() > 0);
        crate::parse::lemma_digit_values_all_digits(d);
    }
    assert(digits_value(ds) == n);
    crate::parse::lemma_integer_cell_reads_back(sign, d);
    if !negative {
        assert(sign != seq![45u8]) by {
            assert(sign.len() == 0);
        }
    }
}

/// The name part of a result file path is the column name cut to
/// [`MAX_PATH_NAME_LEN`] bytes, each byte kept as it is except `/`, `\\`,
/// NUL and `;`, which become `_`.
pub proof fn lemma_output_path_keeps_name(name: Seq<u8>)
    ensures
        ({
            let n: int = if name.len() <= MAX_PATH_NAME_LEN {
                name.len() as int
            } else {
                MAX_PATH_NAME_LEN as int
            };
            &&& output_path(name).len() == 7 + n + 5
            &&& forall|i: int|
                0 <= i < n ==> output_path(name)[7 + i] == if #[trigger] name[i] == 47 || name[i] == 92
                    || name[i] == 0 || name[i] == 59 {
                    95u8
                } else {
                    name[i]
                }
        }),
{
    let kept = if name.len() <= MAX_PATH_NAME_LEN {
        name
    } else {
        name.subrange(0, MAX_PATH_NAME_LEN as int)
    };
    let mid = kept.map_values(|c: u8| path_byte(c));
    let p = output_path(name);
    assert(p == dir_prefix() + mid + path_suffix());
    assert forall|i: int| 0 <= i < kept.len() implies p[7 + i] == if #[trigger] name[i] == 47
        || name[i] == 92 || name[i] == 0 || name[i] == 59 {
        95u8
    } else {
        name[i]
    } by {
        assert(p[7 + i] == mid[i]);
        assert(kept[i] == name[i]);
    }
}

proof fn lemma_digit_values_skip_dots(s: Seq<u8>)
    requires
        forall|i: int| 0 <= i < s.len() ==> is_digit(#[trigger] s[i]) || s[i] == 46,
    ensures
        digit_values(s) == s.filter(|c: u8| c != 46).map_values(|c: u8| (c - 48) as u8),
    decreases s.len(),
{
    reveal(Seq::filter);
    if s.len() == 0 {
        assert(s.filter(|c: u8| c != 46).map_values(|c: u8| (c - 48) as u8) =~= Seq::<u8>::empty());
    } else {
        let t = s.drop_last();
        assert forall|i: int| 0 <= i < t.len() implies is_digit(#[trigger] t[i]) || t[i] == 46 by {
            assert(t[i] == s[i]);
        }
        lemma_digit_values_skip_dots(t);
        assert(is_digit(s[s.len() - 1]) || s[s.len() - 1] == 46);
        if s.last() != 46 {
            assert(s.filter(|c: u8| c != 46) == t.filter(|c: u8| c != 46).push(s.last()));
            assert(s.filter(|c: u8| c != 46).map_values(|c: u8| (c - 48) as u8) =~= t.filter(
                |c: u8| c != 46,
            ).map_values(|c: u8| (c - 48) as u8).push((s.last() - 48) as u8));
        } else {
            assert(s.filter(|c: u8| c != 46) == t.filter(|c: u8| c != 46));
        }
    }
}

/// A number cell whose integer part has dots between groups of digits
/// reads back negative exactly after a `-`, with its integer digits those
/// before the last dot with the dots left out, and its fraction digits those
/// after the last dot.
pub proof fn lemma_grouped_cell_reads_back(sign: Seq<u8>, int_text: Seq<u8>, frac: Seq<u8>)
    requires
        sign == Seq::<u8>::empty() || sign == seq![45u8] || sign == seq![43u8],
        forall|i: int| 0 <= i < int_text.len() ==> is_digit(#[trigger] int_text[i]) || int_text[i] == 46,
        all_digits(frac),
    ensures
        parse_number_spec(sign + int_text + seq![46u8] + frac) == Some(
            (
                sign == seq![45u8],
                int_text.filter(|c: u8| c != 46).map_values(|c: u8| (c - 48) as u8),
                frac.map_values(|c: u8| (c - 48) as u8),
            ),
        ),
{
    let head = sign + int_text;
    let t = sign + int_text + seq![46u8] + frac;
    let n = sign.len() as int;
    assert(t =~= head.push(46u8) + frac);
    lemma_last_dot_after(head, frac);
    assert(number_body_start(t) == n) by {
        if n == 0 {
            if int_text.len() > 0 {
                assert(t[0] == int_text[0]);
            } else {
                assert(t[0] == 46);
            }
        } else {
            assert(t[0] == sign[0]);
        }
    }
    assert forall|j: int| n <= j < t.len() implies is_digit(t[j]) || t[j] == 46 by {
        if j < head.len() {
            assert(t[j] == int_text[j - n]);
        } else if j > head.len() {
            assert(t[j] == frac[j - head.len() - 1]);
        }
    }
    assert(t.subrange(n, head.len() as int) =~= int_text);
    assert(t.subrange(head.len() as int + 1, t.len() as int) =~= frac);
    lemma_digit_values_skip_dots(int_text);
    crate::parse::lemma_digit_values_all_digits(frac);
    assert((t[0] == 45) == (sign == seq![45u8])) by {
        if n == 0 {
            assert(sign.len() != seq![45u8].len());
            if int_text.len() > 0 {
                assert(t[0] == int_text[0]);
            } else {
                assert(t[0] == 46);
            }
        } else {
            assert(t[0] == sign[0]);
            if sign == seq![43u8] {
                assert(sign[0] != seq![45u8][0]);
            }
        }
    }
}

/// A result line reads back as its parts: the timestamp up to the first
/// `;`, the value up to the second, then `1` for a good sample or `0` for an
/// anomaly, and a line feed.
pub proof fn lemma_row_line_reads_back(timestamp: Seq<u8>, value: Seq<u8>, is_good: bool)
    requires
        forall|i: int| 0 <= i < timestamp.len() ==> !is_cell_end(#[trigger] timestamp[i]),
        forall|i: int| 0 <= i < value.len() ==> !is_cell_end(#[trigger] value[i]),
    ensures
        ({
            let l = row_line(timestamp, value, is_good);
            let v0 = timestamp.len() + 1;
            let v1 = v0 + value.len();
            &&& l.len() == v1 + 3
            &&& field_end(l, 0) == timestamp.len()
            &&& l.subrange(0, timestamp.len() as int) == timestamp
            &&& field_end(l, v0) == v1
            &&& l.subrange(v0 as int, v1 as int) == value
            &&& l[v1 as int] == 59
            &&& l[v1 + 1int] == if is_good {
                49u8
            } else {
                48u8
            }
            &&& l[v1 + 2int] == 10
        }),
{
    let l = row_line(timestamp, value, is_good);
    let v0 = timestamp.len() + 1;
    let v1 = v0 + value.len();
    assert forall|i: int| 0 <= i < timestamp.len() implies !is_cell_end(#[trigger] l[i]) by {
        assert(l[i] == timestamp[i]);
    }
    assert(l[timestamp.len() as int] == 59);
    crate::parse::lemma_field_end_run(l, 0, timestamp.len());
    assert forall|i: int| v0 <= i < v1 implies !is_cell_end(#[trigger] l[i]) by {
        assert(l[i] == value[i - v0]);
    }
    crate::parse::lemma_field_end_run(l, v0, value.len());
    assert(l.subrange(0, timestamp.len() as int) =~= timestamp);
    assert(l.subrange(v0 as int, v1 as int) =~= value);
}

} // verus!
