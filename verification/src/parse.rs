//! Reading of the semicolon-separated input files.
//!
//! A file holds a header line `label;name1;...;name20` followed by data lines
//! `timestamp;v1;...;v20`. Line breaks may be `\n` or `\r\n`, a UTF-8 byte
//! order mark at the start is dropped, header names are UTF-8 or CP1251, and
//! numbers are decimal with an optional sign, where every dot but the last is
//! a thousands separator.
use vstd::prelude::*;
use vstd::utf8::valid_utf8;
use crate::cp1251::{cp1251_scalar, encode_utf8_from_cp1251, cp1251_utf8_width};

verus! {

/// Largest accepted input: a file of this size or more is refused.
pub const MAX_CSV_SIZE: usize = 31457280;

/// Number of data columns besides the timestamp.
pub const DATA_FIELDS_COUNT: usize = 20;

/// Longest stored header name, in UTF-8 bytes.
pub const MAX_FIELD_UTF8_LEN: usize = 256;

pub open spec fn is_digit(c: u8) -> bool {
    48 <= c <= 57
}

/// Ends a cell: `;` or a line feed.
pub open spec fn is_cell_end(c: u8) -> bool {
    c == 59 || c == 10
}

/// The first position at or after `p` that ends a cell (or the end of `b`).
pub open spec fn field_end(b: Seq<u8>, p: nat) -> nat
    decreases b.len() - p,
{
    if p < b.len() && !is_cell_end(b[p as int]) {
        field_end(b, p + 1)
    } else {
        p
    }
}

/// The first position at or after `p` that is not a space.
pub open spec fn skip_spaces(b: Seq<u8>, p: nat) -> nat
    decreases b.len() - p,
{
    if p < b.len() && b[p as int] == 32 {
        skip_spaces(b, p + 1)
    } else {
        p
    }
}

/// The first position at or after `p` that holds a line feed (or the end).
pub open spec fn line_end(b: Seq<u8>, p: nat) -> nat
    decreases b.len() - p,
{
    if p < b.len() && b[p as int] != 10 {
        line_end(b, p + 1)
    } else {
        p
    }
}

/// The first position at or after `p` that is not a line feed.
pub open spec fn skip_newlines(b: Seq<u8>, p: nat) -> nat
    decreases b.len() - p,
{
    if p < b.len() && b[p as int] == 10 {
        skip_newlines(b, p + 1)
    } else {
        p
    }
}

/// The start of the line after the one that holds position `p`.
pub open spec fn next_line(b: Seq<u8>, p: nat) -> nat {
    let e = line_end(b, p);
    if e < b.len() {
        e + 1
    } else {
        e
    }
}

proof fn lemma_field_end_bounds(b: Seq<u8>, p: nat)
    requires
        p <= b.len(),
    ensures
        p <= field_end(b, p) <= b.len(),
        field_end(b, p) < b.len() ==> is_cell_end(b[field_end(b, p) as int]),
        forall|i: int| p <= i < field_end(b, p) ==> !is_cell_end(#[trigger] b[i]),
    decreases b.len() - p,
{
    if p < b.len() && !is_cell_end(b[p as int]) {
        lemma_field_end_bounds(b, p + 1);
    }
}

proof fn lemma_skip_spaces_bounds(b: Seq<u8>, p: nat)
    requires
        p <= b.len(),
    ensures
        p <= skip_spaces(b, p) <= b.len(),
        skip_spaces(b, p) < b.len() ==> b[skip_spaces(b, p) as int] != 32,
    decreases b.len() - p,
{
    if p < b.len() && b[p as int] == 32 {
        lemma_skip_spaces_bounds(b, p + 1);
    }
}

proof fn lemma_line_end_bounds(b: Seq<u8>, p: nat)
    requires
        p <= b.len(),
    ensures
        p <= line_end(b, p) <= b.len(),
        line_end(b, p) < b.len() ==> b[line_end(b, p) as int] == 10,
    decreases b.len() - p,
{
    if p < b.len() && b[p as int] != 10 {
        lemma_line_end_bounds(b, p + 1);
    }
}

proof fn lemma_skip_newlines_bounds(b: Seq<u8>, p: nat)
    requires
        p <= b.len(),
    ensures
        p <= skip_newlines(b, p) <= b.len(),
    decreases b.len() - p,
{
    if p < b.len() && b[p as int] == 10 {
        lemma_skip_newlines_bounds(b, p + 1);
    }
}

fn scan_field_end(b: &Vec<u8>, p: usize) -> (r: usize)
    requires
        p <= b@.len(),
    ensures
        r == field_end(b@, p as nat),
{
    let mut i = p;
    while i < b.len() && b[i] != 59u8 && b[i] != 10u8
        invariant
            p <= i <= b@.len(),
            field_end(b@, i as nat) == field_end(b@, p as nat),
        decreases b@.len() - i,
    {
        i = i + 1;
    }
    i
}

fn scan_skip_spaces(b: &Vec<u8>, p: usize) -> (r: usize)
    requires
        p <= b@.len(),
    ensures
        r == skip_spaces(b@, p as nat),
{
    let mut i = p;
    while i < b.len() && b[i] == 32u8
        invariant
            p <= i <= b@.len(),
            skip_spaces(b@, i as nat) == skip_spaces(b@, p as nat),
        decreases b@.len() - i,
    {
        i = i + 1;
    }
    i
}

fn scan_line_end(b: &Vec<u8>, p: usize) -> (r: usize)
    requires
        p <= b@.len(),
    ensures
        r == line_end(b@, p as nat),
{
    let mut i = p;
    while i < b.len() && b[i] != 10u8
        invariant
            p <= i <= b@.len(),
            line_end(b@, i as nat) == line_end(b@, p as nat),
        decreases b@.len() - i,
    {
        i = i + 1;
    }
    i
}

fn scan_skip_newlines(b: &Vec<u8>, p: usize) -> (r: usize)
    requires
        p <= b@.len(),
    ensures
        r == skip_newlines(b@, p as nat),
{
    let mut i = p;
    while i < b.len() && b[i] == 10u8
        invariant
            p <= i <= b@.len(),
            skip_newlines(b@, i as nat) == skip_newlines(b@, p as nat),
        decreases b@.len() - i,
    {
        i = i + 1;
    }
    i
}

/// The values (0 to 9) of the digits of `s`, in order, with dots left out.
pub open spec fn digit_values(s: Seq<u8>) -> Seq<u8>
    decreases s.len(),
{
    if s.len() == 0 {
        seq![]
    } else {
        let rest = digit_values(s.drop_last());
        if s.last() == 46 {
            rest
        } else {
            rest.push((s.last() - 48) as u8)
        }
    }
}

/// The position of the last dot in `s`, if it has one.
pub open spec fn last_dot(s: Seq<u8>) -> Option<nat>
    decreases s.len(),
{
    if s.len() == 0 {
        None
    } else if s.last() == 46 {
        Some((s.len() - 1) as nat)
    } else {
        last_dot(s.drop_last())
    }
}

/// Where the digits of a number start: after a leading `-` or `+`.
pub open spec fn number_body_start(s: Seq<u8>) -> nat {
    if s.len() > 0 && (s[0] == 45 || s[0] == 43) {
        1
    } else {
        0
    }
}

/// A number as written: whether it has a leading `-`, the values of the
/// digits before the last dot (dots in between separate thousands and are
/// skipped) and the values of the digits after it. `None` for an empty cell
/// or for one that holds anything but one leading sign, digits and dots.
pub open spec fn parse_number_spec(s: Seq<u8>) -> Option<(bool, Seq<u8>, Seq<u8>)> {
    let start = number_body_start(s);
    if s.len() == 0 {
        None
    } else if exists|j: int| start <= j < s.len() && !is_digit(s[j]) && s[j] != 46 {
        None
    } else {
        match last_dot(s) {
            None => Some((s[0] == 45, digit_values(s.subrange(start as int, s.len() as int)), seq![])),
            Some(k) => Some(
                (
                    s[0] == 45,
                    digit_values(s.subrange(start as int, k as int)),
                    digit_values(s.subrange(k as int + 1, s.len() as int)),
                ),
            ),
        }
    }
}

/// A number as written in a data cell: see [`parse_number_spec`].
pub struct Decimal {
    pub negative: bool,
    pub int_digits: Vec<u8>,
    pub frac_digits: Vec<u8>,
}

impl View for Decimal {
    type V = (bool, Seq<u8>, Seq<u8>);

    open spec fn view(&self) -> (bool, Seq<u8>, Seq<u8>) {
        (self.negative, self.int_digits@, self.frac_digits@)
    }
}

proof fn lemma_digit_values_step(s: Seq<u8>, a: int, i: int)
    requires
        0 <= a <= i < s.len(),
    ensures
        digit_values(s.subrange(a, i + 1)) == (if s[i] == 46 {
            digit_values(s.subrange(a, i))
        } else {
            digit_values(s.subrange(a, i)).push((s[i] - 48) as u8)
        }),
{
    assert(s.subrange(a, i + 1).drop_last() =~= s.subrange(a, i));
}

proof fn lemma_last_dot_bounds(s: Seq<u8>)
    ensures
        last_dot(s) matches Some(k) ==> k < s.len() && s[k as int] == 46 && forall|j: int|
            k < j < s.len() ==> s[j] != 46,
        last_dot(s) is None ==> forall|j: int| 0 <= j < s.len() ==> s[j] != 46,
    decreases s.len(),
{
    if s.len() > 0 && s.last() != 46 {
        lemma_last_dot_bounds(s.drop_last());
        assert forall|j: int| 0 <= j < s.len() - 1 implies s.drop_last()[j] == s[j] by {}
    }
}

fn find_last_dot(s: &[u8]) -> (r: Option<usize>)
    ensures
        r matches Some(k) ==> last_dot(s@) == Some(k as nat),
        r is None ==> last_dot(s@) is None,
{
    let mut ld: Option<usize> = None;
    let mut i: usize = 0;
    while i < s.len()
        invariant
            i <= s@.len(),
            ld matches Some(k) ==> last_dot(s@.subrange(0, i as int)) == Some(k as nat),
            ld is None ==> last_dot(s@.subrange(0, i as int)) is None,
        decreases s@.len() - i,
    {
        assert(s@.subrange(0, i + 1).drop_last() =~= s@.subrange(0, i as int));
        if s[i] == 46u8 {
            ld = Some(i);
        }
        i = i + 1;
    }
    assert(s@.subrange(0, s@.len() as int) =~= s@);
    ld
}

/// Reads a number cell: see [`parse_number_spec`].
pub fn parse_number(s: &[u8]) -> (r: Option<Decimal>)
    ensures
        r matches Some(d) ==> parse_number_spec(s@) == Some(d@),
        r is None ==> parse_number_spec(s@) is None,
{
    if s.len() == 0 {
        return None;
    }
    let ld = find_last_dot(s);
    proof {
        lemma_last_dot_bounds(s@);
    }
    let mut i: usize = 0;
    let negative = s[0] == 45u8;
    if s[0] == 45u8 || s[0] == 43u8 {
        i = 1;
    }
    let start = i;
    let mut int_digits: Vec<u8> = Vec::new();
    let mut frac_digits: Vec<u8> = Vec::new();
    let mut after_decimal = false;
    proof {
        if let Some(k) = ld {
            assert(k >= start);
        }
    }
    while i < s.len()
        invariant
            start == number_body_start(s@),
            start <= i <= s@.len(),
            s@.len() > 0,
            negative == (s@[0] == 45),
            ld matches Some(k) ==> last_dot(s@) == Some(k as nat) && start <= k < s@.len(),
            ld is None ==> last_dot(s@) is None,
            forall|j: int| start <= j < i ==> is_digit(s@[j]) || s@[j] == 46,
            match ld {
                None => !after_decimal && int_digits@ == digit_values(s@.subrange(start as int, i as int))
                    && frac_digits@ == Seq::<u8>::empty(),
                Some(k) => if i <= k {
                    !after_decimal && int_digits@ == digit_values(s@.subrange(start as int, i as int))
                        && frac_digits@ == Seq::<u8>::empty()
                } else {
                    after_decimal && int_digits@ == digit_values(s@.subrange(start as int, k as int))
                        && frac_digits@ == digit_values(s@.subrange(k + 1, i as int))
                },
            },
        decreases s@.len() - i,
    {
        let byte = s[i];
        proof {
            lemma_last_dot_bounds(s@);
            lemma_digit_values_step(s@, start as int, i as int);
            if let Some(k) = ld {
                if i > k {
                    lemma_digit_values_step(s@, k + 1, i as int);
                }
                if i == k {
                    assert(s@.subrange(k + 1, k + 1) =~= Seq::<u8>::empty());
                }
            }
        }
        if byte == 46u8 {
            if ld == Some(i) {
                after_decimal = true;
            }
        } else if 48u8 <= byte && byte <= 57u8 {
            let digit = byte - 48u8;
            if after_decimal {
                frac_digits.push(digit);
            } else {
                int_digits.push(digit);
            }
        } else {
            return None;
        }
        i = i + 1;
    }
    Some(Decimal { negative, int_digits, frac_digits })
}

/// `s` with every carriage return removed: `\r\n` becomes `\n` and a lone
/// `\r` disappears.
pub open spec fn without_cr(s: Seq<u8>) -> Seq<u8>
    decreases s.len(),
{
    if s.len() == 0 {
        seq![]
    } else if s.last() == 13 {
        without_cr(s.drop_last())
    } else {
        without_cr(s.drop_last()).push(s.last())
    }
}

proof fn lemma_without_cr_len(s: Seq<u8>)
    ensures
        without_cr(s).len() <= s.len(),
    decreases s.len(),
{
    if s.len() > 0 {
        lemma_without_cr_len(s.drop_last());
    }
}

/// `s` without a leading UTF-8 byte order mark (EF BB BF).
pub open spec fn without_bom(s: Seq<u8>) -> Seq<u8> {
    if s.len() >= 3 && s[0] == 0xEF && s[1] == 0xBB && s[2] == 0xBF {
        s.subrange(3, s.len() as int)
    } else {
        s
    }
}

proof fn lemma_without_cr_step(s: Seq<u8>, i: int)
    requires
        0 <= i < s.len(),
    ensures
        without_cr(s.subrange(0, i + 1)) == (if s[i] == 13 {
            without_cr(s.subrange(0, i))
        } else {
            without_cr(s.subrange(0, i)).push(s[i])
        }),
{
    assert(s.subrange(0, i + 1).drop_last() =~= s.subrange(0, i));
}

/// Turns `\r\n` line breaks into `\n` and drops stray `\r` bytes.
pub fn normalize_newlines(raw: &[u8]) -> (out: Vec<u8>)
    ensures
        out@ == without_cr(raw@),
{
    let len = raw.len();
    let mut out: Vec<u8> = Vec::new();
    let mut rp: usize = 0;
    while rp < len
        invariant
            len == raw@.len(),
            rp <= len,
            out@ == without_cr(raw@.subrange(0, rp as int)),
        decreases len - rp,
    {
        proof {
            lemma_without_cr_step(raw@, rp as int);
        }
        if rp + 1 < len && raw[rp] == 13u8 && raw[rp + 1] == 10u8 {
            proof {
                lemma_without_cr_step(raw@, rp + 1);
            }
            out.push(10u8);
            rp = rp + 2;
        } else if raw[rp] == 13u8 {
            rp = rp + 1;
        } else {
            out.push(raw[rp]);
            rp = rp + 1;
        }
    }
    assert(raw@.subrange(0, len as int) =~= raw@);
    out
}

/// Where a header name lies in the input: bytes `start..end`.
#[derive(Copy, Clone)]
pub struct HeaderField {
    pub start: usize,
    pub end: usize,
}

impl View for HeaderField {
    type V = (nat, nat);

    open spec fn view(&self) -> (nat, nat) {
        (self.start as nat, self.end as nat)
    }
}

/// The bytes of a cell.
pub open spec fn cell_bytes(b: Seq<u8>, c: (nat, nat)) -> Seq<u8> {
    b.subrange(c.0 as int, c.1 as int)
}

/// What a reader holds: the prepared input, the position of the next data
/// line, and the header names once the header has been read.
pub struct CsvView {
    pub content: Seq<u8>,
    pub pos: nat,
    pub header: Option<Seq<Seq<u8>>>,
}

/// A reader over one input file.
pub struct CsvState {
    buf: Vec<u8>,
    pos: usize,
    header_parsed: bool,
    header_utf8: Vec<Vec<u8>>,
}

impl View for CsvState {
    type V = CsvView;

    closed spec fn view(&self) -> CsvView {
        CsvView {
            content: self.buf@,
            pos: self.pos as nat,
            header: if self.header_parsed {
                Some(self.header_utf8@.map_values(|v: Vec<u8>| v@))
            } else {
                None
            },
        }
    }
}

impl CsvState {
    /// The position lies within the content, and a read header has one name
    /// per data column, each of at most [`MAX_FIELD_UTF8_LEN`] bytes.
    pub open spec fn wf(&self) -> bool {
        &&& self@.pos <= self@.content.len() < MAX_CSV_SIZE
        &&& (self@.header matches Some(h) ==> h.len() == DATA_FIELDS_COUNT && forall|i: int|
            0 <= i < h.len() ==> (#[trigger] h[i]).len() <= MAX_FIELD_UTF8_LEN)
    }

    closed spec fn inner_wf(&self) -> bool {
        &&& self.pos <= self.buf@.len() < MAX_CSV_SIZE
        &&& (self.header_parsed ==> self.header_utf8@.len() == DATA_FIELDS_COUNT && forall|i: int|
            0 <= i < self.header_utf8@.len() ==> (#[trigger] self.header_utf8@[i])@.len()
                <= MAX_FIELD_UTF8_LEN)
    }

    proof fn lemma_wf(&self)
        ensures
            self.wf() <==> self.inner_wf(),
            self@.content == self.buf@,
            self@.pos == self.pos,
            (self@.header is Some) == self.header_parsed,
            self.header_parsed ==> self@.header.unwrap().len() == self.header_utf8@.len()
                && forall|i: int|
                0 <= i < self.header_utf8@.len() ==> #[trigger] self@.header.unwrap()[i]
                    == self.header_utf8@[i]@,
    {
        if self.header_parsed {
            let h = self.header_utf8@.map_values(|v: Vec<u8>| v@);
            assert forall|i: int| 0 <= i < self.header_utf8@.len() implies #[trigger] h[i]
                == self.header_utf8@[i]@ by {}
            if self.inner_wf() {
                assert forall|i: int| 0 <= i < h.len() implies (#[trigger] h[i]).len()
                    <= MAX_FIELD_UTF8_LEN by {
                    assert(h[i] == self.header_utf8@[i]@);
                }
            }
            if self.wf() {
                assert forall|i: int| 0 <= i < self.header_utf8@.len() implies (
                #[trigger] self.header_utf8@[i])@.len() <= MAX_FIELD_UTF8_LEN by {
                    assert(h[i] == self.header_utf8@[i]@);
                }
            }
        }
    }
}

/// Prepares the bytes of an input file: refuses a file of
/// [`MAX_CSV_SIZE`] bytes or more, turns `\r\n` into `\n`, drops stray `\r`
/// and a leading byte order mark. The reader starts before the header.
pub fn parse_init(raw: &[u8]) -> (r: Option<CsvState>)
    ensures
        r is None <==> raw@.len() >= MAX_CSV_SIZE,
        r matches Some(st) ==> {
            &&& st.wf()
            &&& st@.content == without_bom(without_cr(raw@))
            &&& st@.pos == 0
            &&& st@.header is None
        },
{
    if raw.len() >= MAX_CSV_SIZE {
        return None;
    }
    let normalized = normalize_newlines(raw);
    proof {
        lemma_without_cr_len(raw@);
    }
    let len = normalized.len();
    let mut buf: Vec<u8>;
    if len >= 3 && normalized[0] == 0xEFu8 && normalized[1] == 0xBBu8 && normalized[2] == 0xBFu8 {
        buf = Vec::new();
        let mut i: usize = 3;
        while i < len
            invariant
                3 <= i <= len,
                len == normalized@.len(),
                buf@ == normalized@.subrange(3, i as int),
            decreases len - i,
        {
            buf.push(normalized[i]);
            proof {
                assert(normalized@.subrange(3, i + 1) =~= normalized@.subrange(3, i as int).push(
                    normalized@[i as int],
                ));
            }
            i = i + 1;
        }
    } else {
        buf = normalized;
    }
    let st = CsvState { buf, pos: 0, header_parsed: false, header_utf8: Vec::new() };
    proof {
        st.lemma_wf();
    }
    Some(st)
}

/// The name of data column `i` (counted from 0) once the header has been
/// read; `None` before that or for `i` of [`DATA_FIELDS_COUNT`] or more.
pub fn get_header_field(st: &CsvState, i: usize) -> (r: Option<&[u8]>)
    requires
        st.wf(),
    ensures
        r is Some <==> (st@.header is Some && i < DATA_FIELDS_COUNT),
        r matches Some(name) ==> name@ == st@.header.unwrap()[i as int],
        r matches Some(name) ==> name@.len() <= MAX_FIELD_UTF8_LEN,
{
    proof {
        st.lemma_wf();
    }
    if !st.header_parsed || i >= DATA_FIELDS_COUNT {
        return None;
    }
    Some(st.header_utf8[i].as_slice())
}

/// The cells of a line from position `p` on, at most `k` of them. Each cell
/// starts after leading spaces and ends before `;`, a line feed or the end of
/// the input; a `;` after a cell is passed over. Reading stops at a line feed
/// or at the end of the input. `None` when a cell is empty. Also gives the
/// position where reading stopped.
pub open spec fn line_cells(b: Seq<u8>, p: nat, k: nat) -> Option<(Seq<(nat, nat)>, nat)>
    decreases k,
{
    if k == 0 || p >= b.len() || b[p as int] == 10 {
        Some((seq![], p))
    } else {
        let s = skip_spaces(b, p);
        let e = field_end(b, s);
        if s == e {
            None
        } else {
            let next = if e < b.len() && b[e as int] == 59 {
                e + 1
            } else {
                e
            };
            match line_cells(b, next, (k - 1) as nat) {
                None => None,
                Some(rest) => Some((seq![(s, e)] + rest.0, rest.1)),
            }
        }
    }
}

/// The header line: a label ended by `;`, then [`DATA_FIELDS_COUNT`]
/// non-empty names. Gives the cells of the names and where the data starts:
/// after the header line and any empty lines that follow it.
pub open spec fn header_layout(b: Seq<u8>) -> Option<(Seq<(nat, nat)>, nat)> {
    let p0 = field_end(b, 0);
    if p0 >= b.len() || b[p0 as int] != 59 {
        None
    } else {
        match line_cells(b, p0 + 1, DATA_FIELDS_COUNT as nat) {
            None => None,
            Some(found) => if found.0.len() == DATA_FIELDS_COUNT {
                Some((found.0, skip_newlines(b, next_line(b, found.1))))
            } else {
                None
            },
        }
    }
}

/// The UTF-8 encoding of CP1251 text.
pub open spec fn cp1251_to_utf8(f: Seq<u8>) -> Seq<u8>
    decreases f.len(),
{
    if f.len() == 0 {
        seq![]
    } else {
        cp1251_to_utf8(f.drop_last()) + vstd::utf8::encode_scalar(cp1251_scalar(f.last()))
    }
}

/// How many bytes of CP1251 text are converted into a stored name: bytes are
/// taken one by one until the UTF-8 output reaches [`MAX_FIELD_UTF8_LEN`].
pub open spec fn cp1251_taken(f: Seq<u8>, k: nat) -> nat
    decreases f.len() - k,
{
    if k < f.len() && cp1251_to_utf8(f.subrange(0, k as int)).len() < MAX_FIELD_UTF8_LEN {
        cp1251_taken(f, k + 1)
    } else {
        k
    }
}

/// A CP1251 name fits when the UTF-8 output never jumps past
/// [`MAX_FIELD_UTF8_LEN`] bytes in the middle of a character.
pub open spec fn cp1251_fits(f: Seq<u8>) -> bool {
    forall|k: int|
        0 <= k < f.len() && cp1251_to_utf8(f.subrange(0, k)).len() < MAX_FIELD_UTF8_LEN
            ==> #[trigger] cp1251_to_utf8(f.subrange(0, k + 1)).len() <= MAX_FIELD_UTF8_LEN
}

/// The stored name for CP1251 text.
pub open spec fn cp1251_name(f: Seq<u8>) -> Seq<u8> {
    cp1251_to_utf8(f.subrange(0, cp1251_taken(f, 0) as int))
}

/// The stored name for UTF-8 text: its first [`MAX_FIELD_UTF8_LEN`] bytes.
pub open spec fn utf8_name(f: Seq<u8>) -> Seq<u8> {
    if f.len() <= MAX_FIELD_UTF8_LEN {
        f
    } else {
        f.subrange(0, MAX_FIELD_UTF8_LEN as int)
    }
}

/// Whether every header name is valid UTF-8; otherwise the header is read as
/// CP1251.
pub open spec fn header_is_utf8(b: Seq<u8>, cells: Seq<(nat, nat)>) -> bool {
    forall|i: int| 0 <= i < cells.len() ==> valid_utf8(#[trigger] cell_bytes(b, cells[i]))
}

/// The stored header names.
pub open spec fn header_names(b: Seq<u8>, cells: Seq<(nat, nat)>) -> Seq<Seq<u8>> {
    if header_is_utf8(b, cells) {
        cells.map_values(|c: (nat, nat)| utf8_name(cell_bytes(b, c)))
    } else {
        cells.map_values(|c: (nat, nat)| cp1251_name(cell_bytes(b, c)))
    }
}

/// The header can be stored: it is UTF-8, or every name fits as CP1251.
pub open spec fn header_fits(b: Seq<u8>) -> bool {
    match header_layout(b) {
        None => true,
        Some(layout) => header_is_utf8(b, layout.0) || forall|i: int|
            0 <= i < layout.0.len() ==> cp1251_fits(#[trigger] cell_bytes(b, layout.0[i])),
    }
}

proof fn lemma_cp1251_to_utf8_step(f: Seq<u8>, i: int)
    requires
        0 <= i < f.len(),
    ensures
        cp1251_to_utf8(f.subrange(0, i + 1)) == cp1251_to_utf8(f.subrange(0, i))
            + vstd::utf8::encode_scalar(cp1251_scalar(f[i])),
{
    assert(f.subrange(0, i + 1).drop_last() =~= f.subrange(0, i));
}

/// Whether `bytes` is valid UTF-8, as `core::str::from_utf8` decides.
#[verifier::external_body]
pub(crate) fn is_utf8(bytes: &[u8]) -> (r: bool)
    ensures
        r == valid_utf8(bytes@),
{
    core::str::from_utf8(bytes).is_ok()
}

/// Converts CP1251 text into a stored UTF-8 name (see [`cp1251_name`]).
fn convert_cp1251(src: &[u8]) -> (out: Vec<u8>)
    ensures
        out@ == cp1251_name(src@),
{
    let mut out: Vec<u8> = Vec::new();
    let mut tmp: Vec<u8> = vec![0u8, 0u8, 0u8];
    let mut i: usize = 0;
    while i < src.len() && out.len() < MAX_FIELD_UTF8_LEN
        invariant
            i <= src@.len(),
            tmp@.len() == 3,
            out@ == cp1251_to_utf8(src@.subrange(0, i as int)),
            cp1251_taken(src@, i as nat) == cp1251_taken(src@, 0),
        decreases src@.len() - i,
    {
        proof {
            lemma_cp1251_to_utf8_step(src@, i as int);
            crate::cp1251::lemma_cp1251_width_bound(src@[i as int]);
        }
        let w = encode_utf8_from_cp1251(src[i], tmp.as_mut_slice());
        let ghost before = out@;
        let mut j: usize = 0;
        while j < w
            invariant
                j <= w <= 3,
                tmp@.len() == 3,
                out@ == before + tmp@.subrange(0, j as int),
            decreases w - j,
        {
            out.push(tmp[j]);
            proof {
                assert(tmp@.subrange(0, j + 1) =~= tmp@.subrange(0, j as int).push(tmp@[j as int]));
            }
            j = j + 1;
        }
        i = i + 1;
    }
    out
}

/// Copies the first [`MAX_FIELD_UTF8_LEN`] bytes of a UTF-8 name.
fn copy_utf8_name(src: &[u8]) -> (out: Vec<u8>)
    ensures
        out@ == utf8_name(src@),
{
    let mut out: Vec<u8> = Vec::new();
    let mut i: usize = 0;
    while i < src.len()
        invariant
            i <= src@.len(),
            out@ == src@.subrange(0, if i <= MAX_FIELD_UTF8_LEN { i as int } else { MAX_FIELD_UTF8_LEN as int }),
        decreases src@.len() - i,
    {
        if out.len() < MAX_FIELD_UTF8_LEN {
            out.push(src[i]);
            proof {
                assert(src@.subrange(0, i + 1) =~= src@.subrange(0, i as int).push(src@[i as int]));
            }
        }
        i = i + 1;
    }
    assert(src@.subrange(0, src@.len() as int) =~= src@);
    out
}

/// Reads the cells of the current line from `start` on, at most `k` of
/// them; see [`line_cells`].
fn scan_cells(b: &Vec<u8>, start: usize, k: usize) -> (r: Option<(Vec<HeaderField>, usize)>)
    requires
        start <= b@.len(),
    ensures
        r is None <==> line_cells(b@, start as nat, k as nat) is None,
        r matches Some(found) ==> line_cells(b@, start as nat, k as nat) == Some(
            (found.0@.map_values(|f: HeaderField| f@), found.1 as nat),
        ),
        r matches Some(found) ==> found.1 <= b@.len(),
        r matches Some(found) ==> found.0@.len() <= k,
        r matches Some(found) ==> forall|i: int|
            0 <= i < found.0@.len() ==> (#[trigger] found.0@[i]).start <= found.0@[i].end && found.0@[i].end <= b@.len(),
{
    let len = b.len();
    let mut pos = start;
    let mut idx: usize = 0;
    let mut cells: Vec<HeaderField> = Vec::new();
    while idx < k && pos < len && b[pos] != 10u8
        invariant
            len == b@.len(),
            start <= pos <= len,
            idx <= k,
            cells@.len() == idx,
            forall|i: int|
                0 <= i < cells@.len() ==> (#[trigger] cells@[i]).start <= cells@[i].end && cells@[i].end <= len,
            line_cells(b@, start as nat, k as nat) == match line_cells(
                b@,
                pos as nat,
                (k - idx) as nat,
            ) {
                None => None,
                Some(rest) => Some((cells@.map_values(|f: HeaderField| f@) + rest.0, rest.1)),
            },
        decreases k - idx,
    {
        proof {
            lemma_skip_spaces_bounds(b@, pos as nat);
        }
        let s = scan_skip_spaces(b, pos);
        proof {
            lemma_field_end_bounds(b@, s as nat);
        }
        let e = scan_field_end(b, s);
        if s == e {
            return None;
        }
        let ghost old_cells = cells@;
        cells.push(HeaderField { start: s, end: e });
        proof {
            assert(cells@.map_values(|f: HeaderField| f@) =~= old_cells.map_values(
                |f: HeaderField| f@,
            ) + seq![(s as nat, e as nat)]);
            assert forall|i: int| 0 <= i < cells@.len() implies (#[trigger] cells@[i]).start <= cells@[i].end && cells@[i].end <= len by {
                if i < old_cells.len() {
                    assert(cells@[i] == old_cells[i]);
                }
            }
        }
        idx = idx + 1;
        if e < len && b[e] == 59u8 {
            pos = e + 1;
        } else {
            pos = e;
        }
        proof {
            let m0 = old_cells.map_values(|f: HeaderField| f@);
            let m1 = cells@.map_values(|f: HeaderField| f@);
            match line_cells(b@, pos as nat, (k - idx) as nat) {
                None => {},
                Some(rest) => {
                    assert(m0 + (seq![(s as nat, e as nat)] + rest.0) =~= m1 + rest.0);
                },
            }
        }
    }
    Some((cells, pos))
}

/// Finds the header layout; see [`header_layout`].
fn scan_header_layout(b: &Vec<u8>) -> (r: Option<(Vec<HeaderField>, usize)>)
    ensures
        r is None <==> header_layout(b@) is None,
        r matches Some(found) ==> header_layout(b@) == Some(
            (found.0@.map_values(|f: HeaderField| f@), found.1 as nat),
        ),
        r matches Some(found) ==> found.0@.len() == DATA_FIELDS_COUNT && found.1 <= b@.len(),
        r matches Some(found) ==> forall|i: int|
            0 <= i < found.0@.len() ==> (#[trigger] found.0@[i]).start <= found.0@[i].end && found.0@[i].end <= b@.len(),
{
    let len = b.len();
    proof {
        lemma_field_end_bounds(b@, 0);
    }
    let p0 = scan_field_end(b, 0);
    if p0 >= len || b[p0] != 59u8 {
        return None;
    }
    let scanned = scan_cells(b, p0 + 1, DATA_FIELDS_COUNT);
    let (cells, stop) = match scanned {
        None => { return None; },
        Some(f) => f,
    };
    if cells.len() != DATA_FIELDS_COUNT {
        return None;
    }
    proof {
        lemma_line_end_bounds(b@, stop as nat);
    }
    let mut pos = scan_line_end(b, stop);
    if pos < len && b[pos] == 10u8 {
        pos = pos + 1;
    }
    proof {
        lemma_skip_newlines_bounds(b@, pos as nat);
    }
    let pos = scan_skip_newlines(b, pos);
    assert forall|i: int| 0 <= i < cells@.len() implies (#[trigger] cells@[i]).start <= cells@[i].end && cells@[i].end <= b@.len() by {}
    Some((cells, pos))
}

/// Whether every name cell is valid UTF-8; see [`header_is_utf8`].
fn names_are_utf8(buf: &Vec<u8>, cells: &Vec<HeaderField>) -> (r: bool)
    requires
        forall|i: int|
            0 <= i < cells@.len() ==> (#[trigger] cells@[i]).start <= cells@[i].end && cells@[i].end <= buf@.len(),
    ensures
        r == header_is_utf8(buf@, cells@.map_values(|f: HeaderField| f@)),
{
    let ghost b = buf@;
    let ghost cs = cells@.map_values(|f: HeaderField| f@);
    let mut is_utf8_header = true;
    let mut idx: usize = 0;
    while idx < cells.len()
        invariant
            idx <= cells@.len(),
            b == buf@,
            cs == cells@.map_values(|f: HeaderField| f@),
            forall|i: int|
                0 <= i < cells@.len() ==> (#[trigger] cells@[i]).start <= cells@[i].end && cells@[i].end <= b.len(),
            is_utf8_header == forall|i: int| 0 <= i < idx ==> valid_utf8(#[trigger] cell_bytes(b, cs[i])),
        decreases cells@.len() - idx,
    {
        let field = cells[idx];
        let slice = vstd::slice::slice_subrange(buf.as_slice(), field.start, field.end);
        let ok = is_utf8(slice);
        proof {
            assert(slice@ == cell_bytes(b, cs[idx as int]));
        }
        if !ok {
            is_utf8_header = false;
        }
        idx = idx + 1;
        proof {
            if is_utf8_header {
                assert forall|i: int| 0 <= i < idx implies valid_utf8(#[trigger] cell_bytes(b, cs[i])) by {
                    if i == idx - 1 {
                    }
                }
            }
        }
    }
    is_utf8_header
}

/// Whether CP1251 text converts without overrunning; see [`cp1251_fits`].
#[verifier::rlimit(30)]
fn check_cp1251_fits(src: &[u8]) -> (r: bool)
    requires
        src@.len() < MAX_CSV_SIZE,
    ensures
        r == cp1251_fits(src@),
{
    let mut total: usize = 0;
    let mut ok = true;
    let mut k: usize = 0;
    while k < src.len()
        invariant
            k <= src@.len() < MAX_CSV_SIZE,
            total == cp1251_to_utf8(src@.subrange(0, k as int)).len(),
            total <= 3 * k,
            ok == forall|j: int|
                0 <= j < k && cp1251_to_utf8(src@.subrange(0, j)).len() < MAX_FIELD_UTF8_LEN
                    ==> #[trigger] cp1251_to_utf8(src@.subrange(0, j + 1)).len()
                    <= MAX_FIELD_UTF8_LEN,
        decreases src@.len() - k,
    {
        proof {
            lemma_cp1251_to_utf8_step(src@, k as int);
            crate::cp1251::lemma_cp1251_width_bound(src@[k as int]);
        }
        let w = cp1251_width(src[k]);
        let next = total + w;
        let ghost old_ok = ok;
        if total < MAX_FIELD_UTF8_LEN && next > MAX_FIELD_UTF8_LEN {
            ok = false;
        }
        proof {
            let kk = k as int;
            assert(ok == (old_ok && !(total < MAX_FIELD_UTF8_LEN && next > MAX_FIELD_UTF8_LEN)));
            if ok {
                assert forall|j: int|
                    0 <= j < kk + 1 && cp1251_to_utf8(src@.subrange(0, j)).len() < MAX_FIELD_UTF8_LEN
                        implies #[trigger] cp1251_to_utf8(src@.subrange(0, j + 1)).len()
                        <= MAX_FIELD_UTF8_LEN by {
                    if j < kk {
                    }
                }
            } else if old_ok {
                assert(cp1251_to_utf8(src@.subrange(0, kk + 1)).len() > MAX_FIELD_UTF8_LEN);
            } else {
                let j = choose|j: int|
                    !(0 <= j < kk && cp1251_to_utf8(src@.subrange(0, j)).len() < MAX_FIELD_UTF8_LEN
                        ==> #[trigger] cp1251_to_utf8(src@.subrange(0, j + 1)).len()
                        <= MAX_FIELD_UTF8_LEN);
                assert(0 <= j < kk + 1);
            }
        }
        total = next;
        k = k + 1;
    }
    ok
}

/// The number of UTF-8 bytes that a CP1251 byte converts to.
fn cp1251_width(byte: u8) -> (w: usize)
    ensures
        w == cp1251_utf8_width(byte),
{
    let mut tmp: Vec<u8> = vec![0u8, 0u8, 0u8];
    proof {
        crate::cp1251::lemma_cp1251_width_bound(byte);
    }
    encode_utf8_from_cp1251(byte, tmp.as_mut_slice())
}

/// Whether [`parse_header`] can store the header of this reader: true once it
/// is read, and otherwise [`header_fits`] of the content. A header that does
/// not fit cannot be read.
pub fn can_store_header(st: &CsvState) -> (r: bool)
    requires
        st.wf(),
    ensures
        r == (st@.header is Some || header_fits(st@.content)),
{
    proof {
        st.lemma_wf();
    }
    if st.header_parsed {
        return true;
    }
    let (cells, _pos) = match scan_header_layout(&st.buf) {
        None => { return true; },
        Some(found) => found,
    };
    let ghost b = st.buf@;
    let ghost cs = cells@.map_values(|f: HeaderField| f@);
    if names_are_utf8(&st.buf, &cells) {
        return true;
    }
    let mut idx: usize = 0;
    #[verifier::loop_isolation(false)]
    while idx < cells.len()
        invariant
            idx <= cells@.len(),
            b == st.buf@,
            cs == cells@.map_values(|f: HeaderField| f@),
            forall|i: int| 0 <= i < idx ==> cp1251_fits(#[trigger] cell_bytes(b, cs[i])),
        decreases cells@.len() - idx,
    {
        let field = cells[idx];
        let slice = vstd::slice::slice_subrange(st.buf.as_slice(), field.start, field.end);
        proof {
            assert(slice@ == cell_bytes(b, cs[idx as int]));
        }
        if !check_cp1251_fits(slice) {
            return false;
        }
        idx = idx + 1;
    }
    true
}

/// Reads the header line. Returns `true` at once if the header was read
/// before. Otherwise, when the content starts with a well-formed header (see
/// [`header_layout`]), stores the names (see [`header_names`]), moves to the
/// first data line and returns `true`; else returns `false` and changes
/// nothing.
pub fn parse_header(st: &mut CsvState) -> (r: bool)
    requires
        old(st).wf(),
        old(st)@.header is None ==> header_fits(old(st)@.content),
    ensures
        final(st).wf(),
        old(st)@.header is Some ==> r && final(st)@ == old(st)@,
        old(st)@.header is None ==> (r <==> header_layout(old(st)@.content) is Some),
        old(st)@.header is None && r ==> {
            let layout = header_layout(old(st)@.content).unwrap();
            &&& final(st)@.content == old(st)@.content
            &&& final(st)@.pos == layout.1
            &&& final(st)@.header == Some(header_names(old(st)@.content, layout.0))
        },
        !r ==> final(st)@ == old(st)@,
{
    proof {
        st.lemma_wf();
    }
    if st.header_parsed {
        return true;
    }
    let (cells, pos) = match scan_header_layout(&st.buf) {
        None => { return false; },
        Some(found) => found,
    };
    let ghost cs = cells@.map_values(|f: HeaderField| f@);
    let ghost b = st.buf@;
    let is_utf8_header = names_are_utf8(&st.buf, &cells);
    proof {
        assert(old(st)@.content == b);
        assert(header_fits(b));
        let lay = header_layout(b).unwrap();
        assert(lay.0 == cs);
        if !is_utf8_header {
            assert forall|i: int| 0 <= i < cs.len() implies cp1251_fits(
                #[trigger] cell_bytes(b, cs[i]),
            ) by {
                assert(cell_bytes(b, lay.0[i]) == cell_bytes(b, cs[i]));
            }
        }
    }
    // Store every name in UTF-8.
    let mut names: Vec<Vec<u8>> = Vec::new();
    let mut idx: usize = 0;
    while idx < DATA_FIELDS_COUNT
        invariant
            idx <= DATA_FIELDS_COUNT,
            cells@.len() == DATA_FIELDS_COUNT,
            b == st.buf@,
            cs == cells@.map_values(|f: HeaderField| f@),
            forall|i: int|
                0 <= i < cells@.len() ==> (#[trigger] cells@[i]).start <= cells@[i].end && cells@[i].end <= b.len(),
            is_utf8_header == header_is_utf8(b, cs),
            !is_utf8_header ==> forall|i: int|
                0 <= i < cs.len() ==> cp1251_fits(#[trigger] cell_bytes(b, cs[i])),
            names@.len() == idx,
            forall|i: int|
                0 <= i < idx ==> (#[trigger] names@[i])@ == header_names(b, cs)[i],
            forall|i: int| 0 <= i < idx ==> (#[trigger] names@[i])@.len() <= MAX_FIELD_UTF8_LEN,
        decreases DATA_FIELDS_COUNT - idx,
    {
        let field = cells[idx];
        let slice = vstd::slice::slice_subrange(st.buf.as_slice(), field.start, field.end);
        proof {
            assert(slice@ == cell_bytes(b, cs[idx as int]));
        }
        let name = if is_utf8_header {
            copy_utf8_name(slice)
        } else {
            proof {
                lemma_cp1251_name_bound(cell_bytes(b, cs[idx as int]));
            }
            convert_cp1251(slice)
        };
        let ghost before = names@;
        names.push(name);
        proof {
            assert forall|i: int| 0 <= i < idx + 1 implies (#[trigger] names@[i])@.len()
                <= MAX_FIELD_UTF8_LEN by {
                if i < idx {
                    assert(names@[i] == before[i]);
                }
            }
        }
        idx = idx + 1;
    }
    st.pos = pos;
    st.header_utf8 = names;
    st.header_parsed = true;
    proof {
        st.lemma_wf();
        assert(st@.header.unwrap() =~= header_names(b, cs));
    }
    true
}

/// Whether every cell holds a number.
pub open spec fn cells_are_numbers(b: Seq<u8>, cells: Seq<(nat, nat)>) -> bool {
    forall|i: int| 0 <= i < cells.len() ==> (#[trigger] parse_number_spec(cell_bytes(b, cells[i]))) is Some
}

/// The data line at position `pos`: a timestamp (after leading spaces, up to
/// a `;` that must follow it) and [`DATA_FIELDS_COUNT`] number cells. Gives
/// the timestamp, the numbers and the start of the next line.
pub open spec fn row_at(b: Seq<u8>, pos: nat) -> Option<
    (Seq<u8>, Seq<(bool, Seq<u8>, Seq<u8>)>, nat),
> {
    let ts_start = skip_spaces(b, pos);
    let ts_end = field_end(b, ts_start);
    if pos >= b.len() {
        None
    } else if !(ts_end < b.len() && b[ts_end as int] == 59) {
        None
    } else {
        match line_cells(b, ts_end + 1, DATA_FIELDS_COUNT as nat) {
            None => None,
            Some(found) => if found.0.len() == DATA_FIELDS_COUNT && cells_are_numbers(b, found.0) {
                Some(
                    (
                        b.subrange(ts_start as int, ts_end as int),
                        found.0.map_values(
                            |c: (nat, nat)| parse_number_spec(cell_bytes(b, c)).unwrap(),
                        ),
                        next_line(b, found.1),
                    ),
                )
            } else {
                None
            },
        }
    }
}

/// Reads the data line at the current position once the header has been
/// read (see [`row_at`]): returns its timestamp bytes and its numbers and
/// moves to the next line. Returns `None` and changes nothing before the
/// header, at the end of the input, or on a malformed line.
pub fn export_row(st: &mut CsvState) -> (r: Option<(Vec<u8>, Vec<Decimal>)>)
    requires
        old(st).wf(),
    ensures
        final(st).wf(),
        r is Some <==> (old(st)@.header is Some && row_at(old(st)@.content, old(st)@.pos) is Some),
        r matches Some(row) ==> {
            let spec_row = row_at(old(st)@.content, old(st)@.pos).unwrap();
            &&& row.0@ == spec_row.0
            &&& row.1@.len() == DATA_FIELDS_COUNT
            &&& forall|i: int| 0 <= i < DATA_FIELDS_COUNT ==> (#[trigger] row.1@[i])@ == spec_row.1[i]
            &&& final(st)@.pos == spec_row.2
            &&& final(st)@.content == old(st)@.content
            &&& final(st)@.header == old(st)@.header
        },
        r is None ==> final(st)@ == old(st)@,
{
    proof {
        st.lemma_wf();
    }
    let len = st.buf.len();
    if !st.header_parsed || st.pos >= len {
        return None;
    }
    let ghost b = st.buf@;
    proof {
        lemma_skip_spaces_bounds(b, st.pos as nat);
    }
    let ts_start = scan_skip_spaces(&st.buf, st.pos);
    proof {
        lemma_field_end_bounds(b, ts_start as nat);
    }
    let ts_end = scan_field_end(&st.buf, ts_start);
    let timestamp = vstd::slice::slice_to_vec(
        vstd::slice::slice_subrange(st.buf.as_slice(), ts_start, ts_end),
    );
    if !(ts_end < len && st.buf[ts_end] == 59u8) {
        return None;
    }
    let found = scan_cells(&st.buf, ts_end + 1, DATA_FIELDS_COUNT);
    let (cells, stop) = match found {
        None => { return None; },
        Some(f) => f,
    };
    if cells.len() != DATA_FIELDS_COUNT {
        return None;
    }
    let ghost cs = cells@.map_values(|f: HeaderField| f@);
    let mut values: Vec<Decimal> = Vec::new();
    let mut idx: usize = 0;
    #[verifier::loop_isolation(false)]
    while idx < DATA_FIELDS_COUNT
        invariant
            idx <= DATA_FIELDS_COUNT,
            cells@.len() == DATA_FIELDS_COUNT,
            b == st.buf@,
            cs == cells@.map_values(|f: HeaderField| f@),
            values@.len() == idx,
            forall|i: int|
                0 <= i < idx ==> (#[trigger] parse_number_spec(cell_bytes(b, cs[i]))) == Some(
                    values@[i]@,
                ),
        decreases DATA_FIELDS_COUNT - idx,
    {
        let field = cells[idx];
        let slice = vstd::slice::slice_subrange(st.buf.as_slice(), field.start, field.end);
        proof {
            assert(slice@ == cell_bytes(b, cs[idx as int]));
        }
        match parse_number(slice) {
            Some(d) => {
                values.push(d);
            },
            None => {
                return None;
            },
        }
        idx = idx + 1;
    }
    proof {
        lemma_line_end_bounds(b, stop as nat);
    }
    let mut pos = scan_line_end(&st.buf, stop);
    if pos < len && st.buf[pos] == 10u8 {
        pos = pos + 1;
    }
    st.pos = pos;
    proof {
        st.lemma_wf();
        assert(cells_are_numbers(b, cs));
    }
    Some((timestamp, values))
}

/// Prepared content holds no carriage return.
pub proof fn lemma_without_cr_has_no_cr(s: Seq<u8>)
    ensures
        forall|i: int| 0 <= i < without_cr(s).len() ==> without_cr(s)[i] != 13,
    decreases s.len(),
{
    if s.len() > 0 {
        lemma_without_cr_has_no_cr(s.drop_last());
        let r = without_cr(s.drop_last());
        if s.last() != 13 {
            assert forall|i: int| 0 <= i < r.push(s.last()).len() implies r.push(s.last())[i] != 13 by {
                if i < r.len() {
                    assert(r.push(s.last())[i] == r[i]);
                }
            }
        }
    }
}

/// Removing carriage returns twice is the same as once: preparing already
/// prepared content changes nothing.
pub proof fn lemma_without_cr_idempotent(s: Seq<u8>)
    ensures
        without_cr(without_cr(s)) == without_cr(s),
{
    lemma_without_cr_has_no_cr(s);
    lemma_without_cr_identity(without_cr(s));
}

proof fn lemma_without_cr_identity(t: Seq<u8>)
    requires
        forall|i: int| 0 <= i < t.len() ==> t[i] != 13,
    ensures
        without_cr(t) == t,
    decreases t.len(),
{
    if t.len() > 0 {
        lemma_without_cr_identity(t.drop_last());
        assert(t.drop_last().push(t.last()) =~= t);
    }
}

proof fn lemma_line_cells_bounds(b: Seq<u8>, p: nat, k: nat)
    requires
        p <= b.len(),
    ensures
        line_cells(b, p, k) matches Some(found) ==> p <= found.1 <= b.len() && found.0.len() <= k,
    decreases k,
{
    if !(k == 0 || p >= b.len() || b[p as int] == 10) {
        let s = skip_spaces(b, p);
        lemma_skip_spaces_bounds(b, p);
        let e = field_end(b, s);
        lemma_field_end_bounds(b, s);
        if s != e {
            let next = if e < b.len() && b[e as int] == 59 {
                e + 1
            } else {
                e
            };
            lemma_line_cells_bounds(b, next, (k - 1) as nat);
        }
    }
}

/// Reading a data line always moves forward: the next line starts after the
/// current position and within the content. A reader that keeps calling
/// [`export_row`] therefore reaches the end.
pub proof fn lemma_row_advances(b: Seq<u8>, pos: nat)
    requires
        pos <= b.len(),
        row_at(b, pos) is Some,
    ensures
        pos < row_at(b, pos).unwrap().2 <= b.len(),
{
    let ts_start = skip_spaces(b, pos);
    lemma_skip_spaces_bounds(b, pos);
    let ts_end = field_end(b, ts_start);
    lemma_field_end_bounds(b, ts_start);
    lemma_line_cells_bounds(b, ts_end + 1, DATA_FIELDS_COUNT as nat);
    let found = line_cells(b, ts_end + 1, DATA_FIELDS_COUNT as nat).unwrap();
    lemma_line_end_bounds(b, found.1);
}

/// The data of a well-formed header starts after its line, within the
/// content.
pub proof fn lemma_header_layout_bounds(b: Seq<u8>)
    requires
        header_layout(b) is Some,
    ensures
        0 < header_layout(b).unwrap().1 <= b.len(),
        forall|i: int|
            0 <= i < DATA_FIELDS_COUNT ==> {
                let c = #[trigger] header_layout(b).unwrap().0[i];
                0 < c.0 < c.1 <= b.len()
            },
{
    let p0 = field_end(b, 0);
    lemma_field_end_bounds(b, 0);
    lemma_line_cells_bounds(b, p0 + 1, DATA_FIELDS_COUNT as nat);
    let found = line_cells(b, p0 + 1, DATA_FIELDS_COUNT as nat).unwrap();
    lemma_line_end_bounds(b, found.1);
    let e = line_end(b, found.1);
    lemma_skip_newlines_bounds(b, next_line(b, found.1));
    lemma_line_cells_ranges(b, p0 + 1, DATA_FIELDS_COUNT as nat);
}

proof fn lemma_line_cells_ranges(b: Seq<u8>, p: nat, k: nat)
    requires
        p <= b.len(),
    ensures
        line_cells(b, p, k) matches Some(found) ==> forall|i: int|
            0 <= i < found.0.len() ==> p <= (#[trigger] found.0[i]).0 < found.0[i].1 <= b.len(),
    decreases k,
{
    if !(k == 0 || p >= b.len() || b[p as int] == 10) {
        let s = skip_spaces(b, p);
        lemma_skip_spaces_bounds(b, p);
        let e = field_end(b, s);
        lemma_field_end_bounds(b, s);
        if s != e {
            let next = if e < b.len() && b[e as int] == 59 {
                e + 1
            } else {
                e
            };
            lemma_line_cells_ranges(b, next, (k - 1) as nat);
            if let Some(rest) = line_cells(b, next, (k - 1) as nat) {
                let cells = seq![(s, e)] + rest.0;
                assert forall|i: int| 0 <= i < cells.len() implies p <= (#[trigger] cells[i]).0
                    < cells[i].1 <= b.len() by {
                    if i > 0 {
                        assert(cells[i] == rest.0[i - 1]);
                    }
                }
            }
        }
    }
}

/// The characters that CP1251 bytes stand for.
pub open spec fn cp1251_chars(f: Seq<u8>) -> Seq<char> {
    f.map_values(|b: u8| cp1251_scalar(b) as char)
}

proof fn lemma_encode_utf8_push(a: Seq<char>, c: char)
    ensures
        vstd::utf8::encode_utf8(a.push(c)) == vstd::utf8::encode_utf8(a) + vstd::utf8::encode_scalar(
            c as u32,
        ),
    decreases a.len(),
{
    let ap = a.push(c);
    assert(ap.len() > 0);
    assert(vstd::utf8::encode_utf8(ap) == vstd::utf8::encode_scalar(ap[0] as u32)
        + vstd::utf8::encode_utf8(ap.drop_first()));
    if a.len() == 0 {
        assert(ap.drop_first() =~= Seq::<char>::empty());
        assert(vstd::utf8::encode_utf8(ap.drop_first()) =~= Seq::<u8>::empty());
        assert(vstd::utf8::encode_utf8(a) =~= Seq::<u8>::empty());
        assert(ap[0] == c);
        assert(vstd::utf8::encode_utf8(ap) =~= vstd::utf8::encode_utf8(a) + vstd::utf8::encode_scalar(
            c as u32,
        ));
    } else {
        assert(ap.drop_first() =~= a.drop_first().push(c));
        lemma_encode_utf8_push(a.drop_first(), c);
        assert(ap[0] == a[0]);
        assert(vstd::utf8::encode_utf8(a) == vstd::utf8::encode_scalar(a[0] as u32)
            + vstd::utf8::encode_utf8(a.drop_first()));
        assert(vstd::utf8::encode_utf8(ap) =~= vstd::utf8::encode_utf8(a) + vstd::utf8::encode_scalar(
            c as u32,
        ));
    }
}

/// Converting CP1251 text gives the UTF-8 encoding of the characters that
/// its bytes stand for.
pub proof fn lemma_cp1251_to_utf8_encodes(f: Seq<u8>)
    ensures
        cp1251_to_utf8(f) == vstd::utf8::encode_utf8(cp1251_chars(f)),
    decreases f.len(),
{
    if f.len() == 0 {
        assert(cp1251_chars(f) =~= Seq::<char>::empty());
    } else {
        lemma_cp1251_to_utf8_encodes(f.drop_last());
        assert(cp1251_chars(f) =~= cp1251_chars(f.drop_last()).push(cp1251_scalar(f.last()) as char));
        lemma_encode_utf8_push(cp1251_chars(f.drop_last()), cp1251_scalar(f.last()) as char);
        crate::cp1251::lemma_cp1251_scalar_is_scalar(f.last());
        assert((cp1251_scalar(f.last()) as char) as u32 == cp1251_scalar(f.last()));
    }
}

/// A name stored from a CP1251 header is valid UTF-8 and reads back as the
/// characters of the CP1251 bytes it was made from.
pub proof fn lemma_cp1251_name_is_utf8(f: Seq<u8>)
    ensures
        valid_utf8(cp1251_name(f)),
        vstd::utf8::decode_utf8(cp1251_name(f)) == cp1251_chars(
            f.subrange(0, cp1251_taken(f, 0) as int),
        ),
{
    let g = f.subrange(0, cp1251_taken(f, 0) as int);
    lemma_cp1251_to_utf8_encodes(g);
    vstd::utf8::encode_utf8_valid_utf8(cp1251_chars(g));
    vstd::utf8::encode_utf8_decode_utf8(cp1251_chars(g));
}

/// A well-formed header gives every data column a name.
pub proof fn lemma_header_names_len(b: Seq<u8>)
    requires
        header_layout(b) is Some,
    ensures
        header_names(b, header_layout(b).unwrap().0).len() == DATA_FIELDS_COUNT,
{
}

proof fn lemma_cp1251_to_utf8_len(f: Seq<u8>)
    ensures
        cp1251_to_utf8(f).len() >= f.len(),
    decreases f.len(),
{
    if f.len() > 0 {
        lemma_cp1251_to_utf8_len(f.drop_last());
        crate::cp1251::lemma_cp1251_width_bound(f.last());
    }
}

proof fn lemma_cp1251_taken_at_least(f: Seq<u8>, k: nat)
    ensures
        cp1251_taken(f, k) >= k,
        k <= f.len() ==> cp1251_taken(f, k) <= f.len(),
    decreases f.len() - k,
{
    if k < f.len() && cp1251_to_utf8(f.subrange(0, k as int)).len() < MAX_FIELD_UTF8_LEN {
        lemma_cp1251_taken_at_least(f, k + 1);
    }
}

/// No stored header name is empty: every name cell holds at least one byte
/// after its leading spaces, and both encodings keep at least that byte.
pub proof fn lemma_header_names_nonempty(b: Seq<u8>)
    requires
        header_layout(b) is Some,
    ensures
        forall|i: int|
            0 <= i < DATA_FIELDS_COUNT ==> (#[trigger] header_names(b, header_layout(b).unwrap().0)[i]).len()
                > 0,
{
    lemma_header_layout_bounds(b);
    let cells = header_layout(b).unwrap().0;
    assert forall|i: int|
        0 <= i < DATA_FIELDS_COUNT implies (#[trigger] header_names(b, cells)[i]).len() > 0 by {
        let c = cells[i];
        let f = cell_bytes(b, c);
        assert(f.len() > 0);
        if !header_is_utf8(b, cells) {
            assert(f.subrange(0, 0) =~= Seq::<u8>::empty());
            assert(cp1251_to_utf8(f.subrange(0, 0)).len() == 0);
            lemma_cp1251_taken_at_least(f, 1);
            lemma_cp1251_to_utf8_len(f.subrange(0, cp1251_taken(f, 0) as int));
        }
    }
}

/// A CP1251 name that fits is stored in at most [`MAX_FIELD_UTF8_LEN`] bytes.
pub proof fn lemma_cp1251_name_bound(f: Seq<u8>)
    requires
        cp1251_fits(f),
    ensures
        cp1251_name(f).len() <= MAX_FIELD_UTF8_LEN,
{
    assert(f.subrange(0, 0) =~= Seq::<u8>::empty());
    lemma_cp1251_taken_bound(f, 0);
}

proof fn lemma_cp1251_taken_bound(f: Seq<u8>, k: nat)
    requires
        cp1251_fits(f),
        k <= f.len(),
        cp1251_to_utf8(f.subrange(0, k as int)).len() <= MAX_FIELD_UTF8_LEN,
    ensures
        cp1251_to_utf8(f.subrange(0, cp1251_taken(f, k) as int)).len() <= MAX_FIELD_UTF8_LEN,
    decreases f.len() - k,
{
    if k < f.len() && cp1251_to_utf8(f.subrange(0, k as int)).len() < MAX_FIELD_UTF8_LEN {
        assert(cp1251_to_utf8(f.subrange(0, k as int + 1)).len() <= MAX_FIELD_UTF8_LEN);
        lemma_cp1251_taken_bound(f, k + 1);
    }
}

pub(crate) proof fn lemma_digit_values_all_digits(s: Seq<u8>)
    requires
        forall|i: int| 0 <= i < s.len() ==> is_digit(#[trigger] s[i]),
    ensures
        digit_values(s) == s.map_values(|c: u8| (c - 48) as u8),
    decreases s.len(),
{
    if s.len() == 0 {
        assert(s.map_values(|c: u8| (c - 48) as u8) =~= Seq::<u8>::empty());
    } else {
        let t = s.drop_last();
        assert forall|i: int| 0 <= i < t.len() implies is_digit(#[trigger] t[i]) by {
            assert(t[i] == s[i]);
        }
        lemma_digit_values_all_digits(t);
        assert(is_digit(s[s.len() - 1]));
        assert(s.map_values(|c: u8| (c - 48) as u8) =~= t.map_values(|c: u8| (c - 48) as u8).push(
            (s.last() - 48) as u8,
        ));
    }
}

/// A cell of digits alone, after no sign, a `-` or a `+`, reads as an
/// integer: negative exactly after `-`, its integer digits the cell's digits
/// in order, each as its value, and no fraction digits.
pub proof fn lemma_integer_cell_reads_back(sign: Seq<u8>, digits: Seq<u8>)
    requires
        sign == Seq::<u8>::empty() || sign == seq![45u8] || sign == seq![43u8],
        digits.len() > 0,
        forall|i: int| 0 <= i < digits.len() ==> is_digit(#[trigger] digits[i]),
    ensures
        parse_number_spec(sign + digits) == Some(
            (
                sign == seq![45u8],
                digits.map_values(|c: u8| (c - 48) as u8),
                Seq::<u8>::empty(),
            ),
        ),
{
    let t = sign + digits;
    let n = sign.len() as int;
    assert(is_digit(digits[0]));
    assert(number_body_start(t) == n) by {
        if n == 0 {
            assert(t[0] == digits[0]);
        } else {
            assert(t[0] == sign[0]);
        }
    }
    assert forall|j: int| n <= j < t.len() implies is_digit(t[j]) by {
        assert(t[j] == digits[j - n]);
        assert(is_digit(digits[j - n]));
    }
    lemma_last_dot_bounds(t);
    if let Some(k) = last_dot(t) {
        if k < n {
            assert(t[k as int] == sign[k as int]);
        } else {
            assert(t[k as int] == digits[k - n]);
            assert(is_digit(digits[k - n]));
        }
    }
    assert(t.subrange(n, t.len() as int) =~= digits);
    lemma_digit_values_all_digits(digits);
    assert((t[0] == 45) == (sign == seq![45u8])) by {
        if n == 0 {
            assert(t[0] == digits[0]);
            assert(sign.len() != seq![45u8].len());
        } else {
            assert(t[0] == sign[0]);
            if sign == seq![43u8] {
                assert(sign[0] != seq![45u8][0]);
            }
        }
    }
}

/// CP1251 text made of ASCII bytes alone converts to itself.
pub proof fn lemma_cp1251_ascii_text(f: Seq<u8>)
    requires
        forall|i: int| 0 <= i < f.len() ==> #[trigger] f[i] < 0x80,
    ensures
        cp1251_to_utf8(f) == f,
    decreases f.len(),
{
    if f.len() > 0 {
        let t = f.drop_last();
        assert forall|i: int| 0 <= i < t.len() implies #[trigger] t[i] < 0x80 by {
            assert(t[i] == f[i]);
        }
        lemma_cp1251_ascii_text(t);
        assert(f[f.len() - 1] < 0x80);
        crate::cp1251::lemma_cp1251_ascii_unchanged(f.last());
        assert(t + seq![f.last()] =~= f);
    }
}

/// The header's encoding is decided once for all its names: when every name
/// cell is valid UTF-8, each name is kept as UTF-8; as soon as one is not,
/// every name is converted from CP1251, so that a name cell that is not
/// UTF-8 is never stored as it is.
pub proof fn lemma_header_encoding_is_whole(b: Seq<u8>, cells: Seq<(nat, nat)>)
    ensures
        header_names(b, cells).len() == cells.len(),
        (forall|i: int| 0 <= i < cells.len() ==> valid_utf8(#[trigger] cell_bytes(b, cells[i])))
            ==> forall|j: int|
            0 <= j < cells.len() ==> #[trigger] header_names(b, cells)[j] == utf8_name(
                cell_bytes(b, cells[j]),
            ),
        (exists|i: int| 0 <= i < cells.len() && !valid_utf8(#[trigger] cell_bytes(b, cells[i])))
            ==> forall|j: int|
            0 <= j < cells.len() ==> #[trigger] header_names(b, cells)[j] == cp1251_name(
                cell_bytes(b, cells[j]),
            ),
        forall|j: int|
            0 <= j < cells.len() && !valid_utf8(cell_bytes(b, cells[j]))
                ==> #[trigger] header_names(b, cells)[j] != cell_bytes(b, cells[j]),
{
    assert forall|j: int|
        0 <= j < cells.len() && !valid_utf8(cell_bytes(b, cells[j])) implies #[trigger] header_names(
        b,
        cells,
    )[j] != cell_bytes(b, cells[j]) by {
        assert(!header_is_utf8(b, cells));
        lemma_cp1251_name_is_utf8(cell_bytes(b, cells[j]));
    }
}

/// Cell texts separated by `;`.
pub open spec fn joined_cells(cs: Seq<Seq<u8>>) -> Seq<u8>
    decreases cs.len(),
{
    if cs.len() == 0 {
        seq![]
    } else if cs.len() == 1 {
        cs[0]
    } else {
        cs[0] + seq![59u8] + joined_cells(cs.drop_first())
    }
}

/// A cell text that a reader takes whole: not empty, not starting with a
/// space, and holding no `;` or line feed.
pub open spec fn plain_cell(c: Seq<u8>) -> bool {
    &&& c.len() > 0
    &&& c[0] != 32
    &&& forall|i: int| 0 <= i < c.len() ==> !is_cell_end(#[trigger] c[i])
}

/// A text that reads as a number can stand whole as a cell of a line: it is
/// not empty, does not start with a space and holds no `;` or line feed.
pub proof fn lemma_number_is_plain_cell(c: Seq<u8>)
    requires
        parse_number_spec(c) is Some,
    ensures
        plain_cell(c),
{
    let start = number_body_start(c);
    assert forall|i: int| 0 <= i < c.len() implies !is_cell_end(#[trigger] c[i]) && (i == 0 ==> c[i]
        != 32) by {
        if i >= start {
            assert(is_digit(c[i]) || c[i] == 46);
        }
    }
}

pub(crate) proof fn lemma_field_end_run(b: Seq<u8>, p: nat, n: nat)
    requires
        p + n < b.len(),
        forall|i: int| p <= i < p + n ==> !is_cell_end(#[trigger] b[i]),
        is_cell_end(b[(p + n) as int]),
    ensures
        field_end(b, p) == p + n,
    decreases n,
{
    if n > 0 {
        assert(!is_cell_end(b[p as int]));
        lemma_field_end_run(b, p + 1, (n - 1) as nat);
    }
}

/// `n` spaces.
pub open spec fn spaces(n: nat) -> Seq<u8> {
    Seq::new(n, |i: int| 32u8)
}

/// Cell texts, each written after as many spaces as `pads` gives for it.
pub open spec fn padded_cells(cs: Seq<Seq<u8>>, pads: Seq<nat>) -> Seq<Seq<u8>> {
    Seq::new(cs.len(), |i: int| spaces(pads[i]) + cs[i])
}

proof fn lemma_skip_spaces_run(b: Seq<u8>, p: nat, n: nat)
    requires
        p + n < b.len(),
        forall|i: int| p <= i < p + n ==> #[trigger] b[i] == 32,
        b[(p + n) as int] != 32,
    ensures
        skip_spaces(b, p) == p + n,
    decreases n,
{
    if n > 0 {
        assert(b[p as int] == 32);
        lemma_skip_spaces_run(b, p + 1, (n - 1) as nat);
    }
}

pub(crate) proof fn lemma_line_cells_joined(b: Seq<u8>, p: nat, cs: Seq<Seq<u8>>, pads: Seq<nat>)
    requires
        cs.len() > 0,
        pads.len() == cs.len(),
        forall|i: int| 0 <= i < cs.len() ==> plain_cell(#[trigger] cs[i]),
        p + joined_cells(padded_cells(cs, pads)).len() < b.len(),
        b.subrange(p as int, (p + joined_cells(padded_cells(cs, pads)).len()) as int) == joined_cells(
            padded_cells(cs, pads),
        ),
        b[(p + joined_cells(padded_cells(cs, pads)).len()) as int] == 10,
    ensures
        line_cells(b, p, cs.len()) matches Some(found) && found.0.len() == cs.len() && found.1 == p
            + joined_cells(padded_cells(cs, pads)).len() && forall|i: int|
            0 <= i < cs.len() ==> cell_bytes(b, #[trigger] found.0[i]) == cs[i],
    decreases cs.len(),
{
    let ws = padded_cells(cs, pads);
    let c0 = cs[0];
    let w0 = ws[0];
    let j = joined_cells(ws);
    let s0 = p + pads[0];
    let e = s0 + c0.len();
    assert(plain_cell(c0));
    assert(w0 == spaces(pads[0]) + c0);
    assert forall|i: int| 0 <= i < w0.len() implies b[p + i] == w0[i] by {
        assert(b[p + i] == b.subrange(p as int, (p + j.len()) as int)[i]);
        if cs.len() > 1 {
            assert(j == w0 + seq![59u8] + joined_cells(ws.drop_first()));
            assert(j[i] == w0[i]);
        }
    }
    assert forall|i: int| p <= i < s0 implies #[trigger] b[i] == 32 by {
        assert(b[p + (i - p)] == w0[i - p]);
    }
    assert forall|i: int| s0 <= i < e implies !is_cell_end(#[trigger] b[i]) by {
        assert(b[p + (i - p)] == w0[i - p]);
        assert(w0[i - p] == c0[i - s0]);
    }
    assert(b[s0 as int] == c0[0]) by {
        assert(b[(p + pads[0]) as int] == w0[pads[0] as int]);
    }
    assert(b[p as int] != 10) by {
        assert(b[p as int + 0] == w0[0]);
    }
    assert(cell_bytes(b, (s0, e)) =~= c0) by {
        assert forall|k: int| 0 <= k < c0.len() implies cell_bytes(b, (s0, e))[k] == c0[k] by {
            assert(b[p + (pads[0] + k)] == w0[pads[0] + k]);
        }
    }
    if cs.len() == 1 {
        assert(j == w0);
        lemma_skip_spaces_run(b, p, pads[0]);
        lemma_field_end_run(b, s0, c0.len());
        assert(line_cells(b, e, 0) == Some((Seq::<(nat, nat)>::empty(), e)));
        assert(line_cells(b, p, 1) == Some((seq![(s0, e)] + Seq::<(nat, nat)>::empty(), e)));
        assert(seq![(s0, e)] + Seq::<(nat, nat)>::empty() =~= seq![(s0, e)]);
        assert(cell_bytes(b, (s0, e)) =~= c0);
    } else {
        let rest = cs.drop_first();
        let rp = pads.drop_first();
        assert(ws.drop_first() =~= padded_cells(rest, rp));
        let jr = joined_cells(padded_cells(rest, rp));
        assert(j == w0 + seq![59u8] + jr);
        assert(b[e as int] == 59) by {
            assert(b[e as int] == b.subrange(p as int, (p + j.len()) as int)[w0.len() as int]);
        }
        lemma_skip_spaces_run(b, p, pads[0]);
        lemma_field_end_run(b, s0, c0.len());
        assert forall|i: int| 0 <= i < rest.len() implies plain_cell(#[trigger] rest[i]) by {
            assert(rest[i] == cs[i + 1]);
        }
        assert(b.subrange(e + 1 as int, (e + 1 + jr.len()) as int) =~= jr) by {
            assert forall|i: int| 0 <= i < jr.len() implies b.subrange(e + 1 as int, (e + 1 + jr.len()) as int)[i]
                == jr[i] by {
                assert(b[e + 1 + i] == b.subrange(p as int, (p + j.len()) as int)[w0.len() + 1 + i]);
            }
        }
        lemma_line_cells_joined(b, e + 1, rest, rp);
        let rf = line_cells(b, e + 1, rest.len()).unwrap();
        assert(line_cells(b, p, cs.len()) == Some((seq![(s0, e)] + rf.0, rf.1)));
        assert forall|i: int| 0 <= i < cs.len() implies cell_bytes(
            b,
            #[trigger] (seq![(s0, e)] + rf.0)[i],
        ) == cs[i] by {
            if i == 0 {
                assert(cell_bytes(b, (s0, e)) =~= c0);
            } else {
                assert((seq![(s0, e)] + rf.0)[i] == rf.0[i - 1]);
                assert(cs[i] == rest[i - 1]);
            }
        }
    }
}

/// A data line written as a timestamp, `;` and [`DATA_FIELDS_COUNT`] cells
/// separated by `;` (each after any number of spaces), ended by a line feed,
/// reads back when every cell holds a number, as that timestamp and, column
/// by column in order, the number written in that column's cell; the next
/// line starts right after the line feed. A line with a cell that holds no
/// number is refused.
#[verifier::rlimit(40)]
pub proof fn lemma_row_reads_cells(
    pre: Seq<u8>,
    ts: Seq<u8>,
    cs: Seq<Seq<u8>>,
    pads: Seq<nat>,
    post: Seq<u8>,
)
    requires
        forall|i: int| 0 <= i < ts.len() ==> !is_cell_end(#[trigger] ts[i]),
        ts.len() > 0 ==> ts[0] != 32,
        cs.len() == DATA_FIELDS_COUNT,
        pads.len() == DATA_FIELDS_COUNT,
        forall|i: int| 0 <= i < cs.len() ==> plain_cell(#[trigger] cs[i]),
    ensures
        ({
            let line = ts + seq![59u8] + joined_cells(padded_cells(cs, pads)) + seq![10u8];
            row_at(pre + line + post, pre.len()) == if forall|i: int|
                0 <= i < cs.len() ==> (#[trigger] parse_number_spec(cs[i])) is Some {
                Some(
                    (
                        ts,
                        cs.map_values(|c: Seq<u8>| parse_number_spec(c).unwrap()),
                        pre.len() + line.len(),
                    ),
                )
            } else {
                None
            }
        }),
{
    let jc = joined_cells(padded_cells(cs, pads));
    let line = ts + seq![59u8] + jc + seq![10u8];
    let b = pre + line + post;
    let pos = pre.len();
    let te = pos + ts.len();
    let p = te + 1;
    assert forall|i: int| 0 <= i < line.len() implies b[pos + i] == line[i] by {}
    assert(b[te as int] == 59) by {
        assert(b[(pos + ts.len()) as int] == line[ts.len() as int]);
    }
    assert forall|i: int| pos <= i < pos + ts.len() implies !is_cell_end(#[trigger] b[i]) by {
        assert(b[pos + (i - pos)] == line[i - pos]);
        assert(line[i - pos] == ts[i - pos]);
    }
    lemma_field_end_run(b, pos, ts.len());
    assert(skip_spaces(b, pos) == pos) by {
        assert(b[pos as int] == line[0]);
        if ts.len() == 0 {
            assert(line[0] == 59);
        } else {
            assert(line[0] == ts[0]);
        }
    }
    assert(b.subrange(p as int, (p + jc.len()) as int) =~= jc) by {
        assert forall|i: int| 0 <= i < jc.len() implies b.subrange(p as int, (p + jc.len()) as int)[i]
            == jc[i] by {
            assert(b[pos + (ts.len() + 1 + i)] == line[ts.len() + 1 + i]);
        }
    }
    assert(b[(p + jc.len()) as int] == 10) by {
        assert(b[(pos + (ts.len() + 1 + jc.len())) as int] == line[(ts.len() + 1 + jc.len()) as int]);
    }
    lemma_line_cells_joined(b, p, cs, pads);
    let found = line_cells(b, p, DATA_FIELDS_COUNT as nat).unwrap();
    assert(cells_are_numbers(b, found.0) == forall|i: int|
        0 <= i < cs.len() ==> (#[trigger] parse_number_spec(cs[i])) is Some) by {
        if cells_are_numbers(b, found.0) {
            assert forall|i: int| 0 <= i < cs.len() implies (#[trigger] parse_number_spec(cs[i])) is Some by {
                assert(cell_bytes(b, found.0[i]) == cs[i]);
            }
        }
        if forall|i: int| 0 <= i < cs.len() ==> (#[trigger] parse_number_spec(cs[i])) is Some {
            assert forall|i: int| 0 <= i < found.0.len() implies (#[trigger] parse_number_spec(
                cell_bytes(b, found.0[i]),
            )) is Some by {
                assert(cell_bytes(b, found.0[i]) == cs[i]);
            }
        }
    }
    let read = found.0.map_values(|c: (nat, nat)| parse_number_spec(cell_bytes(b, c)).unwrap());
    let written = cs.map_values(|c: Seq<u8>| parse_number_spec(c).unwrap());
    assert forall|i: int| 0 <= i < cs.len() implies #[trigger] read[i] == written[i] by {
        assert(cell_bytes(b, found.0[i]) == cs[i]);
    }
    assert(read =~= written);
    assert(line_end(b, found.1) == found.1);
    assert(b.subrange(pos as int, te as int) =~= ts) by {
        assert forall|i: int| 0 <= i < ts.len() implies b.subrange(pos as int, te as int)[i] == ts[i] by {
            assert(b[pos + i] == line[i]);
        }
    }
}

/// A header line written as a label, `;` and [`DATA_FIELDS_COUNT`] names
/// separated by `;` (each after any number of spaces) has one cell per name,
/// in order, each holding exactly that name, and the data start after the
/// line and the empty lines that follow it. The names are stored as they are
/// written when all of them are UTF-8, else each converted from CP1251.
pub proof fn lemma_header_reads_names(
    label: Seq<u8>,
    names: Seq<Seq<u8>>,
    pads: Seq<nat>,
    post: Seq<u8>,
)
    requires
        forall|i: int| 0 <= i < label.len() ==> !is_cell_end(#[trigger] label[i]),
        names.len() == DATA_FIELDS_COUNT,
        pads.len() == DATA_FIELDS_COUNT,
        forall|i: int| 0 <= i < names.len() ==> plain_cell(#[trigger] names[i]),
    ensures
        ({
            let line = label + seq![59u8] + joined_cells(padded_cells(names, pads)) + seq![10u8];
            let b = line + post;
            header_layout(b) matches Some(layout) && layout.0.len() == DATA_FIELDS_COUNT
                && layout.1 == skip_newlines(b, line.len()) && forall|i: int|
                0 <= i < DATA_FIELDS_COUNT ==> {
                    &&& cell_bytes(b, #[trigger] layout.0[i]) == names[i]
                    &&& header_names(b, layout.0)[i] == if forall|j: int|
                        0 <= j < DATA_FIELDS_COUNT ==> valid_utf8(#[trigger] names[j]) {
                        utf8_name(names[i])
                    } else {
                        cp1251_name(names[i])
                    }
                }
        }),
{
    let jn = joined_cells(padded_cells(names, pads));
    let line = label + seq![59u8] + jn + seq![10u8];
    let b = line + post;
    let p0 = label.len();
    assert forall|i: int| 0 <= i < line.len() implies b[i] == line[i] by {}
    assert forall|i: int| 0 <= i < p0 implies !is_cell_end(#[trigger] b[i]) by {
        assert(b[i] == label[i]);
    }
    assert(b[p0 as int] == 59);
    lemma_field_end_run(b, 0, p0);
    let p = p0 + 1;
    assert(b.subrange(p as int, (p + jn.len()) as int) =~= jn) by {
        assert forall|i: int| 0 <= i < jn.len() implies b.subrange(p as int, (p + jn.len()) as int)[i]
            == jn[i] by {
            assert(b[p + i] == line[p + i]);
        }
    }
    assert(b[(p + jn.len()) as int] == 10) by {
        assert(b[(p + jn.len()) as int] == line[(p + jn.len()) as int]);
    }
    lemma_line_cells_joined(b, p, names, pads);
    let found = line_cells(b, p, DATA_FIELDS_COUNT as nat).unwrap();
    let e = p + jn.len();
    assert(line_end(b, e) == e);
    assert(next_line(b, e) == line.len());
    let cells = found.0;
    assert(header_is_utf8(b, cells) == forall|j: int|
        0 <= j < DATA_FIELDS_COUNT ==> valid_utf8(#[trigger] names[j])) by {
        if header_is_utf8(b, cells) {
            assert forall|j: int| 0 <= j < DATA_FIELDS_COUNT implies valid_utf8(#[trigger] names[j]) by {
                assert(cell_bytes(b, cells[j]) == names[j]);
            }
        }
        if forall|j: int| 0 <= j < DATA_FIELDS_COUNT ==> valid_utf8(#[trigger] names[j]) {
            assert forall|j: int| 0 <= j < cells.len() implies valid_utf8(
                #[trigger] cell_bytes(b, cells[j]),
            ) by {
                assert(cell_bytes(b, cells[j]) == names[j]);
            }
        }
    }
}

/// A cell reads as a number exactly when it is not empty and every byte,
/// but a leading `-` or `+`, is a digit or a dot.
pub proof fn lemma_number_cell_accepted(s: Seq<u8>)
    ensures
        parse_number_spec(s) is Some <==> s.len() > 0 && forall|j: int|
            0 <= j < s.len() ==> (j == 0 && (s[0] == 45 || s[0] == 43)) || is_digit(#[trigger] s[j])
                || s[j] == 46,
{
    if s.len() > 0 {
        let start = number_body_start(s);
        if parse_number_spec(s) is Some {
            assert forall|j: int| 0 <= j < s.len() implies (j == 0 && (s[0] == 45 || s[0] == 43))
                || is_digit(#[trigger] s[j]) || s[j] == 46 by {
                if j >= start {
                    assert(is_digit(s[j]) || s[j] == 46);
                }
            }
        }
        if forall|j: int|
            0 <= j < s.len() ==> (j == 0 && (s[0] == 45 || s[0] == 43)) || is_digit(#[trigger] s[j])
                || s[j] == 46 {
            assert forall|j: int| start <= j < s.len() implies is_digit(s[j]) || s[j] == 46 by {
                assert((j == 0 && (s[0] == 45 || s[0] == 43)) || is_digit(s[j]) || s[j] == 46);
            }
        }
    }
}

/// Preparing the content removes the carriage returns and nothing else:
/// every other byte stays, in order.
pub proof fn lemma_without_cr_keeps_the_rest(s: Seq<u8>)
    ensures
        without_cr(s) == s.filter(|c: u8| c != 13),
    decreases s.len(),
{
    reveal(Seq::filter);
    if s.len() > 0 {
        lemma_without_cr_keeps_the_rest(s.drop_last());
    }
}

/// A leading byte order mark is dropped and nothing else; content that does
/// not start with one is kept whole.
pub proof fn lemma_without_bom_drops_mark(s: Seq<u8>)
    ensures
        without_bom(seq![0xEFu8, 0xBBu8, 0xBFu8] + s) == s,
        !(s.len() >= 3 && s.subrange(0, 3) == seq![0xEFu8, 0xBBu8, 0xBFu8]) ==> without_bom(s) == s,
{
    let m = seq![0xEFu8, 0xBBu8, 0xBFu8];
    assert((m + s).subrange(3, (m + s).len() as int) =~= s);
    if s.len() >= 3 && s[0] == 0xEF && s[1] == 0xBB && s[2] == 0xBF {
        assert(s.subrange(0, 3) =~= m);
    }
}

/// A name from a UTF-8 header is stored as its first bytes: the whole name
/// when it has at most [`MAX_FIELD_UTF8_LEN`] bytes, else its first
/// [`MAX_FIELD_UTF8_LEN`] bytes.
pub proof fn lemma_utf8_name_is_prefix(f: Seq<u8>)
    ensures
        utf8_name(f).len() == if f.len() <= MAX_FIELD_UTF8_LEN {
            f.len()
        } else {
            MAX_FIELD_UTF8_LEN as nat
        },
        forall|i: int| 0 <= i < utf8_name(f).len() ==> #[trigger] utf8_name(f)[i] == f[i],
{
}

} // verus!
