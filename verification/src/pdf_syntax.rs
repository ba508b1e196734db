use vstd::prelude::*;
use crate::bytes::copy_range;

verus! {

/// PDF white space: NUL, tab, line feed, form feed, carriage return, space.
pub open spec fn is_space(b: u8) -> bool {
    b == 0 || b == 9 || b == 10 || b == 12 || b == 13 || b == 32
}

/// PDF delimiters: `( ) < > [ ] { } / %`.
pub open spec fn is_delimiter(b: u8) -> bool {
    b == 40 || b == 41 || b == 60 || b == 62 || b == 91 || b == 93 || b == 123 || b == 125 || b
        == 47 || b == 37
}

/// Bytes that neither are white space nor delimit tokens.
pub open spec fn is_regular(b: u8) -> bool {
    !is_space(b) && !is_delimiter(b)
}

/// Decimal digits.
pub open spec fn is_digit(b: u8) -> bool {
    48 <= b <= 57
}

/// Line feed or carriage return.
pub open spec fn is_eol(b: u8) -> bool {
    b == 10 || b == 13
}

fn space(b: u8) -> (r: bool)
    ensures
        r == is_space(b),
{
    b == 0 || b == 9 || b == 10 || b == 12 || b == 13 || b == 32
}

fn regular(b: u8) -> (r: bool)
    ensures
        r == is_regular(b),
{
    !(b == 0 || b == 9 || b == 10 || b == 12 || b == 13 || b == 32 || b == 40 || b == 41 || b
        == 60 || b == 62 || b == 91 || b == 93 || b == 123 || b == 125 || b == 47 || b == 37)
}

/// The index of the first end-of-line byte at or after `i`, or `d.len()`.
pub open spec fn line_end(d: Seq<u8>, i: int) -> int
    decreases d.len() - i,
{
    if i < 0 || i >= d.len() {
        d.len() as int
    } else if is_eol(d[i]) {
        i
    } else {
        line_end(d, i + 1)
    }
}

/// The index of the first byte at or after `i` that is not regular, or
/// `d.len()`: where the token at `i` ends.
pub open spec fn regular_end(d: Seq<u8>, i: int) -> int
    decreases d.len() - i,
{
    if i < 0 || i >= d.len() {
        d.len() as int
    } else if !is_regular(d[i]) {
        i
    } else {
        regular_end(d, i + 1)
    }
}

/// The index of the first byte at or after `i` that is not a digit, or
/// `d.len()`.
pub open spec fn digits_end(d: Seq<u8>, i: int) -> int
    decreases d.len() - i,
{
    if i < 0 || i >= d.len() {
        d.len() as int
    } else if !is_digit(d[i]) {
        i
    } else {
        digits_end(d, i + 1)
    }
}

/// The index reached from `i` by skipping white space and comments (a `%`
/// up to the end of its line).
pub open spec fn skip_space(d: Seq<u8>, i: int) -> int
    decreases d.len() - i,
{
    if i < 0 || i >= d.len() {
        i
    } else if is_space(d[i]) {
        skip_space(d, i + 1)
    } else if d[i] == 37 {
        let e = line_end(d, i + 1);
        if i < e <= d.len() {
            skip_space(d, e)
        } else {
            i
        }
    } else {
        i
    }
}

/// The decimal number written by the digits `d[i..j]`.
pub open spec fn digits_value(d: Seq<u8>, i: int, j: int) -> nat
    decreases j - i,
{
    if j <= i {
        0
    } else {
        (digits_value(d, i, j - 1) * 10 + (d[j - 1] - 48)) as nat
    }
}

/// The unsigned decimal number at `i` and where it ends; `None` where no
/// digit stands at `i`.
pub open spec fn spec_uint(d: Seq<u8>, i: int) -> Option<(nat, int)> {
    if 0 <= i < d.len() && is_digit(d[i]) {
        let e = digits_end(d, i);
        Some((digits_value(d, i, e), e))
    } else {
        None
    }
}

pub proof fn lemma_line_end(d: Seq<u8>, i: int)
    requires
        0 <= i <= d.len(),
    ensures
        i <= line_end(d, i) <= d.len(),
    decreases d.len() - i,
{
    if i < d.len() && !is_eol(d[i]) {
        lemma_line_end(d, i + 1);
    }
}

pub proof fn lemma_regular_end(d: Seq<u8>, i: int)
    requires
        0 <= i <= d.len(),
    ensures
        i <= regular_end(d, i) <= d.len(),
        forall|j: int| i <= j < regular_end(d, i) ==> is_regular(#[trigger] d[j]),
        regular_end(d, i) < d.len() ==> !is_regular(d[regular_end(d, i)]),
    decreases d.len() - i,
{
    if i < d.len() && is_regular(d[i]) {
        lemma_regular_end(d, i + 1);
    }
}

pub proof fn lemma_digits_end(d: Seq<u8>, i: int)
    requires
        0 <= i <= d.len(),
    ensures
        i <= digits_end(d, i) <= d.len(),
        forall|j: int| i <= j < digits_end(d, i) ==> is_digit(#[trigger] d[j]),
    decreases d.len() - i,
{
    if i < d.len() && is_digit(d[i]) {
        lemma_digits_end(d, i + 1);
    }
}

pub proof fn lemma_skip_space(d: Seq<u8>, i: int)
    requires
        0 <= i <= d.len(),
    ensures
        i <= skip_space(d, i) <= d.len(),
    decreases d.len() - i,
{
    if i < d.len() {
        if is_space(d[i]) {
            lemma_skip_space(d, i + 1);
        } else if d[i] == 37 {
            lemma_line_end(d, i + 1);
            lemma_skip_space(d, line_end(d, i + 1));
        }
    }
}

/// The number of more digits never makes a number smaller.
pub proof fn lemma_digits_value_grows(d: Seq<u8>, i: int, j: int, k: int)
    requires
        i <= j <= k <= d.len(),
        0 <= i,
        forall|m: int| i <= m < k ==> is_digit(#[trigger] d[m]),
    ensures
        digits_value(d, i, j) <= digits_value(d, i, k),
    decreases k - j,
{
    if j < k {
        lemma_digits_value_grows(d, i, j, k - 1);
        assert(is_digit(d[k - 1]));
    }
}

/// Finds the end of the line that starts at `i`.
pub fn find_line_end(d: &[u8], i: usize) -> (e: usize)
    requires
        i <= d@.len(),
    ensures
        e == line_end(d@, i as int),
{
    let mut j = i;
    while j < d.len() && d[j] != 10 && d[j] != 13
        invariant
            i <= j <= d@.len(),
            line_end(d@, i as int) == line_end(d@, j as int),
        decreases d@.len() - j,
    {
        j = j + 1;
    }
    j
}

/// Finds where the token at `i` ends.
pub fn find_regular_end(d: &[u8], i: usize) -> (e: usize)
    requires
        i <= d@.len(),
    ensures
        e == regular_end(d@, i as int),
{
    let mut j = i;
    while j < d.len() && regular(d[j])
        invariant
            i <= j <= d@.len(),
            regular_end(d@, i as int) == regular_end(d@, j as int),
        decreases d@.len() - j,
    {
        j = j + 1;
    }
    j
}

/// Skips white space and comments from `i`.
pub fn skip(d: &[u8], i: usize) -> (e: usize)
    requires
        i <= d@.len(),
    ensures
        e == skip_space(d@, i as int),
        i <= e <= d@.len(),
{
    proof {
        lemma_skip_space(d@, i as int);
    }
    let mut j = i;
    while j < d.len()
        invariant
            i <= j <= d@.len(),
            skip_space(d@, i as int) == skip_space(d@, j as int),
        decreases d@.len() - j,
    {
        if space(d[j]) {
            j = j + 1;
        } else if d[j] == 37 {
            let e = find_line_end(d, j + 1);
            proof {
                lemma_line_end(d@, j + 1);
            }
            j = e;
        } else {
            return j;
        }
    }
    j
}

/// Reads the unsigned decimal number at `i`; `None` where no digit stands
/// there or the number does not fit in a `u64`.
pub fn read_uint(d: &[u8], i: usize) -> (r: Option<(u64, usize)>)
    requires
        i <= d@.len(),
    ensures
        match r {
            Some((v, e)) => spec_uint(d@, i as int) == Some((v as nat, e as int)) && i < e <= d@.len(),
            None => spec_uint(d@, i as int) is None || (spec_uint(d@, i as int)->0).0 > u64::MAX,
        },
{
    if i >= d.len() || !(48 <= d[i] && d[i] <= 57) {
        return None;
    }
    proof {
        lemma_digits_end(d@, i as int);
    }
    let ghost e = digits_end(d@, i as int);
    let mut v: u64 = 0;
    let mut j = i;
    while j < d.len() && 48 <= d[j] && d[j] <= 57
        invariant
            i <= j <= e,
            e == digits_end(d@, i as int),
            e <= d@.len(),
            forall|m: int| i <= m < e ==> is_digit(#[trigger] d@[m]),
            digits_end(d@, i as int) == digits_end(d@, j as int),
            v == digits_value(d@, i as int, j as int),
        decreases d@.len() - j,
    {
        proof {
            lemma_digits_end(d@, j + 1);
        }
        let digit = (d[j] - 48) as u64;
        match v.checked_mul(10) {
            Some(t) => match t.checked_add(digit) {
                Some(n) => {
                    v = n;
                },
                None => {
                    proof {
                        lemma_digits_value_grows(d@, i as int, j + 1, e);
                    }
                    return None;
                },
            },
            None => {
                proof {
                    lemma_digits_value_grows(d@, i as int, j + 1, e);
                }
                return None;
            },
        }
        j = j + 1;
    }
    Some((v, j))
}

/// Octal digits.
pub open spec fn is_octal(b: u8) -> bool {
    48 <= b <= 55
}

/// What the escape whose character stands at `j` (just after a backslash)
/// stands for, and where the string goes on: the named control characters,
/// escaped parentheses and backslashes, a line break that continues the
/// string (and gives nothing), up to three octal digits (their value modulo
/// 256), or any other character as itself.
pub open spec fn escape(d: Seq<u8>, j: int) -> (Seq<u8>, int) {
    let c = d[j];
    if c == 110 {
        (seq![10u8], j + 1)
    } else if c == 114 {
        (seq![13u8], j + 1)
    } else if c == 116 {
        (seq![9u8], j + 1)
    } else if c == 98 {
        (seq![8u8], j + 1)
    } else if c == 102 {
        (seq![12u8], j + 1)
    } else if c == 13 {
        if j + 1 < d.len() && d[j + 1] == 10 {
            (Seq::empty(), j + 2)
        } else {
            (Seq::empty(), j + 1)
        }
    } else if c == 10 {
        (Seq::empty(), j + 1)
    } else if is_octal(c) {
        let v1 = c - 48;
        if j + 1 < d.len() && is_octal(d[j + 1]) {
            let v2 = v1 * 8 + (d[j + 1] - 48);
            if j + 2 < d.len() && is_octal(d[j + 2]) {
                (seq![((v2 * 8 + (d[j + 2] - 48)) % 256) as u8], j + 3)
            } else {
                (seq![v2 as u8], j + 2)
            }
        } else {
            (seq![v1 as u8], j + 1)
        }
    } else {
        (seq![c], j + 1)
    }
}

/// `bytes` in front of what `rest` reads.
pub open spec fn prepend_bytes(bytes: Seq<u8>, rest: Option<(Seq<u8>, int)>) -> Option<(Seq<u8>, int)> {
    match rest {
        Some((more, e)) => Some((bytes + more, e)),
        None => None,
    }
}

/// The bytes of a literal string from `i` (just inside its opening
/// parenthesis, `depth` unmatched parentheses deep) and the index after its
/// closing parenthesis; `None` where the data ends first.
pub open spec fn literal(d: Seq<u8>, i: int, depth: nat) -> Option<(Seq<u8>, int)>
    decreases d.len() - i,
{
    if i < 0 || i >= d.len() {
        None
    } else {
        let b = d[i];
        if b == 92 {
            if i + 1 >= d.len() {
                None
            } else {
                let (out, next) = escape(d, i + 1);
                if i < next <= d.len() {
                    prepend_bytes(out, literal(d, next, depth))
                } else {
                    None
                }
            }
        } else if b == 40 {
            prepend_bytes(seq![40u8], literal(d, i + 1, depth + 1))
        } else if b == 41 {
            if depth == 0 {
                Some((Seq::empty(), i + 1))
            } else {
                prepend_bytes(seq![41u8], literal(d, i + 1, (depth - 1) as nat))
            }
        } else {
            prepend_bytes(seq![b], literal(d, i + 1, depth))
        }
    }
}

/// The value of a hexadecimal digit, or -1.
pub open spec fn hex_value(b: u8) -> int {
    if 48 <= b <= 57 {
        b - 48
    } else if 65 <= b <= 70 {
        b - 55
    } else if 97 <= b <= 102 {
        b - 87
    } else {
        -1
    }
}

/// The hexadecimal digits of a hex string from `i` (white space skipped)
/// and the index after its closing `>`; `None` on any other byte or where
/// the data ends first.
pub open spec fn hex_digits(d: Seq<u8>, i: int) -> Option<(Seq<u8>, int)>
    decreases d.len() - i,
{
    if i < 0 || i >= d.len() {
        None
    } else if d[i] == 62 {
        Some((Seq::empty(), i + 1))
    } else if is_space(d[i]) {
        hex_digits(d, i + 1)
    } else if hex_value(d[i]) >= 0 {
        prepend_bytes(seq![hex_value(d[i]) as u8], hex_digits(d, i + 1))
    } else {
        None
    }
}

/// Digit values taken in pairs as bytes; a lone last digit counts as
/// followed by 0.
pub open spec fn pair_digits(n: Seq<u8>) -> Seq<u8>
    decreases n.len(),
{
    if n.len() == 0 {
        Seq::empty()
    } else if n.len() == 1 {
        seq![(n[0] * 16) as u8]
    } else {
        seq![(n[0] * 16 + n[1]) as u8] + pair_digits(n.skip(2))
    }
}

/// The bytes of a hex string from `i` (just after its `<`) and the index
/// after its `>`.
pub open spec fn hex_string(d: Seq<u8>, i: int) -> Option<(Seq<u8>, int)> {
    match hex_digits(d, i) {
        Some((n, e)) => Some((pair_digits(n), e)),
        None => None,
    }
}

/// Reads the escape whose character stands at `j`.
fn read_escape(d: &[u8], j: usize, out: &mut Vec<u8>) -> (next: usize)
    requires
        j < d@.len(),
    ensures
        final(out)@ == old(out)@ + escape(d@, j as int).0,
        next == escape(d@, j as int).1,
        j < next <= d@.len(),
{
    let c = d[j];
    let ghost before = out@;
    if c == 110 {
        out.push(10);
        j + 1
    } else if c == 114 {
        out.push(13);
        j + 1
    } else if c == 116 {
        out.push(9);
        j + 1
    } else if c == 98 {
        out.push(8);
        j + 1
    } else if c == 102 {
        out.push(12);
        j + 1
    } else if c == 13 {
        assert(out@ =~= before + Seq::<u8>::empty());
        if j + 1 < d.len() && d[j + 1] == 10 {
            j + 2
        } else {
            j + 1
        }
    } else if c == 10 {
        assert(out@ =~= before + Seq::<u8>::empty());
        j + 1
    } else if 48 <= c && c <= 55 {
        let v1 = (c - 48) as u32;
        if j + 1 < d.len() && 48 <= d[j + 1] && d[j + 1] <= 55 {
            let v2 = v1 * 8 + (d[j + 1] - 48) as u32;
            if j + 2 < d.len() && 48 <= d[j + 2] && d[j + 2] <= 55 {
                out.push(((v2 * 8 + (d[j + 2] - 48) as u32) % 256) as u8);
                j + 3
            } else {
                out.push(v2 as u8);
                j + 2
            }
        } else {
            out.push(v1 as u8);
            j + 1
        }
    } else {
        out.push(c);
        j + 1
    }
}

/// Reads the literal string whose opening parenthesis stands just before
/// `i`.
pub fn read_literal(d: &[u8], i: usize) -> (r: Option<(Vec<u8>, usize)>)
    requires
        i <= d@.len(),
    ensures
        match r {
            Some((s, e)) => literal(d@, i as int, 0) == Some((s@, e as int)),
            None => literal(d@, i as int, 0) is None,
        },
{
    let mut out: Vec<u8> = Vec::new();
    let mut j = i;
    let mut depth: usize = 0;
    assert(prepend_bytes(out@, literal(d@, i as int, 0)) =~= literal(d@, i as int, 0)) by {
        match literal(d@, i as int, 0) {
            Some((s, e)) => {
                assert(out@ + s =~= s);
            },
            None => {},
        }
    }
    while j < d.len()
        invariant
            i <= j <= d@.len(),
            depth <= j - i,
            literal(d@, i as int, 0) == prepend_bytes(out@, literal(d@, j as int, depth as nat)),
        decreases d@.len() - j,
    {
        let b = d[j];
        let ghost before = out@;
        if b == 92 {
            if j + 1 >= d.len() {
                return None;
            }
            let ghost rest = literal(d@, escape(d@, j + 1).1, depth as nat);
            let next = read_escape(d, j + 1, &mut out);
            proof {
                match rest {
                    Some((s, e)) => {
                        assert(before + (escape(d@, j + 1).0 + s) =~= out@ + s);
                    },
                    None => {},
                }
            }
            j = next;
        } else if b == 40 {
            out.push(40);
            proof {
                match literal(d@, j + 1, (depth + 1) as nat) {
                    Some((s, e)) => {
                        assert(before + (seq![40u8] + s) =~= out@ + s);
                    },
                    None => {},
                }
            }
            depth = depth + 1;
            j = j + 1;
        } else if b == 41 {
            if depth == 0 {
                assert(out@ + Seq::<u8>::empty() =~= out@);
                return Some((out, j + 1));
            }
            out.push(41);
            proof {
                match literal(d@, j + 1, (depth - 1) as nat) {
                    Some((s, e)) => {
                        assert(before + (seq![41u8] + s) =~= out@ + s);
                    },
                    None => {},
                }
            }
            depth = depth - 1;
            j = j + 1;
        } else {
            out.push(b);
            proof {
                match literal(d@, j + 1, depth as nat) {
                    Some((s, e)) => {
                        assert(before + (seq![b] + s) =~= out@ + s);
                    },
                    None => {},
                }
            }
            j = j + 1;
        }
    }
    None
}

fn hex_digit_value(b: u8) -> (v: i32)
    ensures
        v == hex_value(b),
{
    if 48 <= b && b <= 57 {
        (b - 48) as i32
    } else if 65 <= b && b <= 70 {
        (b - 55) as i32
    } else if 97 <= b && b <= 102 {
        (b - 87) as i32
    } else {
        -1
    }
}

/// Takes digit values in pairs as bytes.
fn pair_up(n: &Vec<u8>) -> (out: Vec<u8>)
    requires
        forall|k: int| 0 <= k < n@.len() ==> #[trigger] n@[k] < 16,
    ensures
        out@ == pair_digits(n@),
{
    let mut out: Vec<u8> = Vec::new();
    let mut k: usize = 0;
    assert(n@.skip(0) =~= n@);
    assert(out@ + pair_digits(n@.skip(0)) =~= pair_digits(n@));
    while k < n.len()
        invariant
            k <= n@.len(),
            forall|m: int| 0 <= m < n@.len() ==> #[trigger] n@[m] < 16,
            pair_digits(n@) == out@ + pair_digits(n@.skip(k as int)),
        decreases n@.len() - k,
    {
        let ghost rest = n@.skip(k as int);
        let ghost before = out@;
        if k + 1 < n.len() {
            out.push(n[k] * 16 + n[k + 1]);
            assert(rest.skip(2) =~= n@.skip(k + 2));
            assert(before + (seq![(rest[0] * 16 + rest[1]) as u8] + pair_digits(rest.skip(2))) =~= out@
                + pair_digits(n@.skip(k + 2)));
            k = k + 2;
        } else {
            out.push(n[k] * 16);
            assert(n@.skip(k + 1) =~= Seq::<u8>::empty());
            assert(out@ + pair_digits(n@.skip(k + 1)) =~= out@);
            k = k + 1;
        }
    }
    assert(n@.skip(k as int) =~= Seq::<u8>::empty());
    assert(out@ + Seq::<u8>::empty() =~= out@);
    out
}

/// Reads the hex string whose `<` stands just before `i`.
pub fn read_hex_string(d: &[u8], i: usize) -> (r: Option<(Vec<u8>, usize)>)
    requires
        i <= d@.len(),
    ensures
        match r {
            Some((s, e)) => hex_string(d@, i as int) == Some((s@, e as int)),
            None => hex_string(d@, i as int) is None,
        },
{
    let mut digits: Vec<u8> = Vec::new();
    let mut j = i;
    assert(prepend_bytes(digits@, hex_digits(d@, i as int)) =~= hex_digits(d@, i as int)) by {
        match hex_digits(d@, i as int) {
            Some((s, e)) => {
                assert(digits@ + s =~= s);
            },
            None => {},
        }
    }
    while j < d.len()
        invariant
            i <= j <= d@.len(),
            hex_digits(d@, i as int) == prepend_bytes(digits@, hex_digits(d@, j as int)),
            forall|m: int| 0 <= m < digits@.len() ==> #[trigger] digits@[m] < 16,
        decreases d@.len() - j,
    {
        let b = d[j];
        if b == 62 {
            assert(digits@ + Seq::<u8>::empty() =~= digits@);
            let out = pair_up(&digits);
            return Some((out, j + 1));
        } else if space(b) {
            j = j + 1;
        } else {
            let v = hex_digit_value(b);
            if v < 0 {
                return None;
            }
            let ghost before = digits@;
            digits.push(v as u8);
            proof {
                match hex_digits(d@, j + 1) {
                    Some((s, e)) => {
                        assert(before + (seq![v as u8] + s) =~= digits@ + s);
                    },
                    None => {},
                }
            }
            j = j + 1;
        }
    }
    None
}

/// A PDF value as far as metadata reading needs it: names and strings with
/// their bytes, unsigned integers and indirect references that fit in a
/// `u64`, and every other value (arrays, dictionaries, reals, keywords).
#[derive(Debug, Clone, PartialEq, Eq)]
pub enum PdfValue {
    Name(Vec<u8>),
    Str(Vec<u8>),
    Int(u64),
    Ref(u64, u64),
    Other,
}

/// A PDF value as plain values.
pub enum ValueView {
    Name(Seq<u8>),
    Str(Seq<u8>),
    Int(u64),
    Ref(u64, u64),
    Other,
}

impl View for PdfValue {
    type V = ValueView;

    open spec fn view(&self) -> ValueView {
        match self {
            PdfValue::Name(n) => ValueView::Name(n@),
            PdfValue::Str(s) => ValueView::Str(s@),
            PdfValue::Int(n) => ValueView::Int(*n),
            PdfValue::Ref(n, g) => ValueView::Ref(*n, *g),
            PdfValue::Other => ValueView::Other,
        }
    }
}

/// The token of regular bytes at `i`: an unsigned integer (or, where two
/// integers and the keyword `R` follow each other, an indirect reference),
/// or some other token (a real, a keyword).
pub open spec fn token_value(d: Seq<u8>, i: int) -> Option<(ValueView, int)> {
    let e = regular_end(d, i);
    if digits_end(d, i) == e && digits_value(d, i, e) <= u64::MAX {
        let n = digits_value(d, i, e);
        let s1 = skip_space(d, e);
        match spec_uint(d, s1) {
            Some((g, e2)) => {
                let s2 = skip_space(d, e2);
                if g <= u64::MAX && 0 <= s2 < d.len() && d[s2] == 82 && regular_end(d, s2 + 1) == s2
                    + 1 {
                    Some((ValueView::Ref(n as u64, g as u64), s2 + 1))
                } else {
                    Some((ValueView::Int(n as u64), e))
                }
            },
            None => Some((ValueView::Int(n as u64), e)),
        }
    } else {
        Some((ValueView::Other, e))
    }
}

/// The value that starts at `i` and the index where it ends; `None` where no
/// well-formed value starts there.
pub open spec fn value_at(d: Seq<u8>, i: int) -> Option<(ValueView, int)>
    decreases d.len() - i, 0int,
{
    if i < 0 || i >= d.len() {
        None
    } else {
        let b = d[i];
        if b == 47 {
            let e = regular_end(d, i + 1);
            Some((ValueView::Name(d.subrange(i + 1, e)), e))
        } else if b == 40 {
            match literal(d, i + 1, 0) {
                Some((s, e)) => Some((ValueView::Str(s), e)),
                None => None,
            }
        } else if b == 60 {
            if i + 1 < d.len() && d[i + 1] == 60 {
                match items_end(d, i + 2, 62) {
                    Some(e) => Some((ValueView::Other, e)),
                    None => None,
                }
            } else {
                match hex_string(d, i + 1) {
                    Some((s, e)) => Some((ValueView::Str(s), e)),
                    None => None,
                }
            }
        } else if b == 91 {
            match items_end(d, i + 1, 93) {
                Some(e) => Some((ValueView::Other, e)),
                None => None,
            }
        } else if is_regular(b) {
            token_value(d, i)
        } else {
            None
        }
    }
}

/// Where the items of an array (`close` is `]`) or a dictionary (`close` is
/// `>`, and the end is `>>`) that go on from `j` end.
pub open spec fn items_end(d: Seq<u8>, j: int, close: u8) -> Option<int>
    decreases d.len() - j, 1int,
{
    let p = skip_space(d, j);
    if p < j || p >= d.len() {
        None
    } else if d[p] == close {
        if close == 93 {
            Some(p + 1)
        } else if p + 1 < d.len() && d[p + 1] == 62 {
            Some(p + 2)
        } else {
            None
        }
    } else {
        match value_at(d, p) {
            Some((_, e)) => if p < e <= d.len() {
                items_end(d, e, close)
            } else {
                None
            },
            None => None,
        }
    }
}

/// Reads the token of regular bytes at `i`.
fn read_token(d: &[u8], i: usize) -> (r: Option<(PdfValue, usize)>)
    requires
        i < d@.len(),
        is_regular(d@[i as int]),
    ensures
        match r {
            Some((v, e)) => token_value(d@, i as int) == Some((v@, e as int)) && i < e <= d@.len(),
            None => token_value(d@, i as int) is None,
        },
{
    let e = find_regular_end(d, i);
    proof {
        lemma_regular_end(d@, i as int);
        lemma_digits_end(d@, i as int);
    }
    let ghost de = digits_end(d@, i as int);
    let all_digits = match read_uint(d, i) {
        Some((n, e1)) => {
            if e1 == e {
                Some(n)
            } else {
                None
            }
        },
        None => {
            proof {
                if de == e && i < de {
                    assert(is_digit(d@[i as int]));
                }
            }
            None
        },
    };
    match all_digits {
        Some(n) => {
            let s1 = skip(d, e);
            match read_uint(d, s1) {
                Some((g, e2)) => {
                    let s2 = skip(d, e2);
                    if s2 < d.len() && d[s2] == 82 && find_regular_end(d, s2 + 1) == s2 + 1 {
                        Some((PdfValue::Ref(n, g), s2 + 1))
                    } else {
                        Some((PdfValue::Int(n), e))
                    }
                },
                None => Some((PdfValue::Int(n), e)),
            }
        },
        None => Some((PdfValue::Other, e)),
    }
}

/// Reads the value that starts at `i`.
pub fn read_value(d: &[u8], i: usize) -> (r: Option<(PdfValue, usize)>)
    requires
        i <= d@.len(),
    ensures
        match r {
            Some((v, e)) => value_at(d@, i as int) == Some((v@, e as int)) && i < e <= d@.len(),
            None => value_at(d@, i as int) is None,
        },
    decreases d@.len() - i, 0int,
{
    if i >= d.len() {
        return None;
    }
    let b = d[i];
    if b == 47 {
        let e = find_regular_end(d, i + 1);
        proof {
            lemma_regular_end(d@, i + 1);
        }
        let name = copy_range(d, i + 1, e);
        Some((PdfValue::Name(name), e))
    } else if b == 40 {
        match read_literal(d, i + 1) {
            Some((s, e)) => {
                proof {
                    lemma_literal_end(d@, i + 1, 0);
                }
                Some((PdfValue::Str(s), e))
            },
            None => None,
        }
    } else if b == 60 {
        if i + 1 < d.len() && d[i + 1] == 60 {
            match skip_items(d, i + 2, 62) {
                Some(e) => Some((PdfValue::Other, e)),
                None => None,
            }
        } else {
            match read_hex_string(d, i + 1) {
                Some((s, e)) => {
                    proof {
                        lemma_hex_digits_end(d@, i + 1);
                    }
                    Some((PdfValue::Str(s), e))
                },
                None => None,
            }
        }
    } else if b == 91 {
        match skip_items(d, i + 1, 93) {
            Some(e) => Some((PdfValue::Other, e)),
            None => None,
        }
    } else if regular(b) {
        let r = read_token(d, i);
        proof {
            lemma_regular_end(d@, i as int);
            lemma_skip_space(d@, regular_end(d@, i as int));
        }
        r
    } else {
        None
    }
}

/// Skips the items of an array or dictionary from `j` to its end.
pub fn skip_items(d: &[u8], j: usize, close: u8) -> (r: Option<usize>)
    requires
        j <= d@.len(),
    ensures
        match r {
            Some(e) => items_end(d@, j as int, close) == Some(e as int) && j < e <= d@.len(),
            None => items_end(d@, j as int, close) is None,
        },
    decreases d@.len() - j, 1int,
{
    let mut k = j;
    loop
        invariant
            j <= k <= d@.len(),
            items_end(d@, j as int, close) == items_end(d@, k as int, close),
        decreases d@.len() - k,
    {
        let p = skip(d, k);
        if p >= d.len() {
            return None;
        }
        if d[p] == close {
            if close == 93 {
                return Some(p + 1);
            } else if p + 1 < d.len() && d[p + 1] == 62 {
                return Some(p + 2);
            } else {
                return None;
            }
        }
        match read_value(d, p) {
            Some((_, e)) => {
                k = e;
            },
            None => {
                return None;
            },
        }
    }
}

/// A literal string ends past where it starts, within the data.
pub proof fn lemma_literal_end(d: Seq<u8>, i: int, depth: nat)
    requires
        0 <= i,
    ensures
        literal(d, i, depth) matches Some((_, e)) ==> i < e <= d.len(),
    decreases d.len() - i,
{
    if 0 <= i < d.len() {
        let b = d[i];
        if b == 92 {
            if i + 1 < d.len() {
                let next = escape(d, i + 1).1;
                if i < next <= d.len() {
                    lemma_literal_end(d, next, depth);
                }
            }
        } else if b == 40 {
            lemma_literal_end(d, i + 1, depth + 1);
        } else if b == 41 {
            if depth > 0 {
                lemma_literal_end(d, i + 1, (depth - 1) as nat);
            }
        } else {
            lemma_literal_end(d, i + 1, depth);
        }
    }
}

/// A hex string ends past where it starts, within the data.
pub proof fn lemma_hex_digits_end(d: Seq<u8>, i: int)
    requires
        0 <= i,
    ensures
        hex_digits(d, i) matches Some((_, e)) ==> i < e <= d.len(),
    decreases d.len() - i,
{
    if 0 <= i < d.len() && d[i] != 62 {
        lemma_hex_digits_end(d, i + 1);
    }
}

/// A dictionary entry: the bytes of its key (a name, without the slash)
/// and its value.
#[derive(Debug, Clone, PartialEq, Eq)]
pub struct Entry {
    pub key: Vec<u8>,
    pub value: PdfValue,
}

/// A dictionary entry as plain values.
pub type EntryView = (Seq<u8>, ValueView);

impl View for Entry {
    type V = EntryView;

    open spec fn view(&self) -> EntryView {
        (self.key@, self.value@)
    }
}

/// The views of a sequence of entries.
pub open spec fn entry_views(es: Seq<Entry>) -> Seq<EntryView> {
    es.map_values(|e: Entry| e@)
}

/// `es` in front of what `rest` reads.
pub open spec fn prepend_entries(es: Seq<EntryView>, rest: Option<(Seq<EntryView>, int)>) -> Option<
    (Seq<EntryView>, int),
> {
    match rest {
        Some((more, e)) => Some((es + more, e)),
        None => None,
    }
}

/// The entries of a dictionary that go on from `j` up to its `>>`, and the
/// index after it; `None` where an entry is not a name followed by a value.
pub open spec fn entries(d: Seq<u8>, j: int) -> Option<(Seq<EntryView>, int)>
    decreases d.len() - j,
{
    let p = skip_space(d, j);
    if p < j || p >= d.len() {
        None
    } else if d[p] == 62 {
        if p + 1 < d.len() && d[p + 1] == 62 {
            Some((Seq::empty(), p + 2))
        } else {
            None
        }
    } else if d[p] != 47 {
        None
    } else {
        let ke = regular_end(d, p + 1);
        match value_at(d, skip_space(d, ke)) {
            Some((v, e)) => if p < e <= d.len() {
                prepend_entries(seq![(d.subrange(p + 1, ke), v)], entries(d, e))
            } else {
                None
            },
            None => None,
        }
    }
}

/// The dictionary that starts at `i` with `<<`: its entries and the index
/// after its `>>`.
pub open spec fn dict_at(d: Seq<u8>, i: int) -> Option<(Seq<EntryView>, int)> {
    if 0 <= i && i + 1 < d.len() && d[i] == 60 && d[i + 1] == 60 {
        entries(d, i + 2)
    } else {
        None
    }
}

/// Reads the dictionary that starts at `i`.
pub fn read_dict(d: &[u8], i: usize) -> (r: Option<(Vec<Entry>, usize)>)
    requires
        i <= d@.len(),
    ensures
        match r {
            Some((es, e)) => dict_at(d@, i as int) == Some((entry_views(es@), e as int)) && e
                <= d@.len(),
            None => dict_at(d@, i as int) is None,
        },
{
    if i >= d.len() || d.len() - i < 2 || d[i] != 60 || d[i + 1] != 60 {
        return None;
    }
    let mut out: Vec<Entry> = Vec::new();
    let mut j = i + 2;
    assert(prepend_entries(entry_views(out@), entries(d@, j as int)) =~= entries(d@, j as int)) by {
        match entries(d@, j as int) {
            Some((s, e)) => {
                assert(entry_views(out@) + s =~= s);
            },
            None => {},
        }
    }
    loop
        invariant
            i + 2 <= j <= d@.len(),
            dict_at(d@, i as int) == prepend_entries(entry_views(out@), entries(d@, j as int)),
        decreases d@.len() - j,
    {
        let p = skip(d, j);
        if p >= d.len() {
            return None;
        }
        if d[p] == 62 {
            if p + 1 < d.len() && d[p + 1] == 62 {
                assert(entry_views(out@) + Seq::<EntryView>::empty() =~= entry_views(out@));
                return Some((out, p + 2));
            }
            return None;
        }
        if d[p] != 47 {
            return None;
        }
        let ke = find_regular_end(d, p + 1);
        proof {
            lemma_regular_end(d@, p + 1);
        }
        let q = skip(d, ke);
        match read_value(d, q) {
            Some((v, e)) => {
                let key = copy_range(d, p + 1, ke);
                let entry = Entry { key, value: v };
                let ghost before = out@;
                out.push(entry);
                proof {
                    assert(entry_views(out@) =~= entry_views(before).push(entry@));
                    match entries(d@, e as int) {
                        Some((s, f)) => {
                            assert(entry_views(before) + (seq![entry@] + s) =~= entry_views(out@)
                                + s);
                        },
                        None => {},
                    }
                }
                j = e;
            },
            None => {
                return None;
            },
        }
    }
}

/// Whether the bytes `pat` stand at `i`.
pub open spec fn bytes_at(d: Seq<u8>, i: int, pat: Seq<u8>) -> bool {
    0 <= i && i + pat.len() <= d.len() && d.subrange(i, i + pat.len()) == pat
}

/// Whether the keyword `kw` stands at `i`, ended by a byte that is not
/// regular or by the end of the data.
pub open spec fn keyword_at(d: Seq<u8>, i: int, kw: Seq<u8>) -> bool {
    bytes_at(d, i, kw) && regular_end(d, i + kw.len()) == i + kw.len()
}

/// The last index below `i` where `pat` stands.
pub open spec fn last_at_before(d: Seq<u8>, pat: Seq<u8>, i: int) -> Option<int>
    decreases i,
{
    if i <= 0 {
        None
    } else if bytes_at(d, i - 1, pat) {
        Some(i - 1)
    } else {
        last_at_before(d, pat, i - 1)
    }
}

/// The first index at or after `i` where `pat` stands.
pub open spec fn first_at_from(d: Seq<u8>, pat: Seq<u8>, i: int) -> Option<int>
    decreases d.len() - i,
{
    if i < 0 || i >= d.len() {
        None
    } else if bytes_at(d, i, pat) {
        Some(i)
    } else {
        first_at_from(d, pat, i + 1)
    }
}

/// Whether the bytes `pat` stand at `i`.
pub fn matches_at(d: &[u8], i: usize, pat: &[u8]) -> (r: bool)
    ensures
        r == bytes_at(d@, i as int, pat@),
{
    if i > d.len() || pat.len() > d.len() - i {
        return false;
    }
    let mut k: usize = 0;
    while k < pat.len()
        invariant
            k <= pat@.len(),
            i + pat.len() <= d.len(),
            forall|m: int| 0 <= m < k ==> d@[i + m] == pat@[m],
        decreases pat@.len() - k,
    {
        if d[i + k] != pat[k] {
            assert(d@.subrange(i as int, i + pat@.len())[k as int] != pat@[k as int]);
            return false;
        }
        k = k + 1;
    }
    assert(d@.subrange(i as int, i + pat@.len()) =~= pat@);
    true
}

/// Whether the keyword `kw` stands at `i`.
pub fn keyword_matches(d: &[u8], i: usize, kw: &[u8]) -> (r: bool)
    ensures
        r == keyword_at(d@, i as int, kw@),
{
    if !matches_at(d, i, kw) {
        return false;
    }
    assert(i + kw.len() <= d.len());
    let e = i + kw.len();
    find_regular_end(d, e) == e
}

/// Finds the last place of `pat` in `d`.
pub fn find_last(d: &[u8], pat: &[u8]) -> (r: Option<usize>)
    ensures
        match r {
            Some(k) => last_at_before(d@, pat@, d@.len() as int) == Some(k as int) && bytes_at(
                d@,
                k as int,
                pat@,
            ),
            None => last_at_before(d@, pat@, d@.len() as int) is None,
        },
{
    let mut i = d.len();
    while i > 0
        invariant
            i <= d@.len(),
            last_at_before(d@, pat@, d@.len() as int) == last_at_before(d@, pat@, i as int),
        decreases i,
    {
        if matches_at(d, i - 1, pat) {
            return Some(i - 1);
        }
        i = i - 1;
    }
    None
}

/// Finds the first place of `pat` in `d` at or after `i`.
pub fn find_first(d: &[u8], pat: &[u8], i: usize) -> (r: Option<usize>)
    ensures
        match r {
            Some(k) => first_at_from(d@, pat@, i as int) == Some(k as int) && bytes_at(
                d@,
                k as int,
                pat@,
            ),
            None => first_at_from(d@, pat@, i as int) is None,
        },
{
    let mut k = i;
    while k < d.len()
        invariant
            i <= k,
            first_at_from(d@, pat@, i as int) == first_at_from(d@, pat@, k as int),
        decreases d@.len() - k,
    {
        if matches_at(d, k, pat) {
            return Some(k);
        }
        k = k + 1;
    }
    None
}

/// The keyword `obj`.
pub open spec fn obj_keyword() -> Seq<u8> {
    seq![111u8, 98u8, 106u8]
}

/// The header `num gen obj` of an indirect object at `p`: the numbers (each
/// within a `u64`) and the index after `obj`; it must not continue a token
/// that starts before `p`.
pub open spec fn object_header(d: Seq<u8>, p: int) -> Option<(nat, nat, int)> {
    if p == 0 || (0 < p <= d.len() && !is_regular(d[p - 1])) {
        match spec_uint(d, p) {
            Some((n, e1)) => {
                let s1 = skip_space(d, e1);
                match spec_uint(d, s1) {
                    Some((g, e2)) => {
                        let s2 = skip_space(d, e2);
                        if s1 > e1 && s2 > e2 && n <= u64::MAX && g <= u64::MAX && keyword_at(
                            d,
                            s2,
                            obj_keyword(),
                        ) {
                            Some((n, g, s2 + 3))
                        } else {
                            None
                        }
                    },
                    None => None,
                }
            },
            None => None,
        }
    } else {
        None
    }
}

/// Reads the object header at `p`.
pub fn read_object_header(d: &[u8], p: usize) -> (r: Option<(u64, u64, usize)>)
    requires
        p <= d@.len(),
    ensures
        match r {
            Some((n, g, e)) => object_header(d@, p as int) == Some((n as nat, g as nat, e as int))
                && e <= d@.len(),
            None => object_header(d@, p as int) is None,
        },
{
    if p > 0 && regular(d[p - 1]) {
        return None;
    }
    let (n, e1) = match read_uint(d, p) {
        Some(x) => x,
        None => {
            return None;
        },
    };
    let s1 = skip(d, e1);
    let (g, e2) = match read_uint(d, s1) {
        Some(x) => x,
        None => {
            return None;
        },
    };
    let s2 = skip(d, e2);
    let obj = [111u8, 98u8, 106u8];
    assert(obj@ =~= obj_keyword());
    if s1 > e1 && s2 > e2 && keyword_matches(d, s2, obj.as_slice()) {
        assert(s2 + 3 <= d.len());
        Some((n, g, s2 + 3))
    } else {
        None
    }
}

/// The index after the header of the last object `num gen` that starts
/// below `i`.
pub open spec fn find_object_below(d: Seq<u8>, num: u64, gen: u64, i: int) -> Option<int>
    decreases i,
{
    if i <= 0 {
        None
    } else {
        match object_header(d, i - 1) {
            Some((n, g, e)) => if n == num && g == gen {
                Some(e)
            } else {
                find_object_below(d, num, gen, i - 1)
            },
            None => find_object_below(d, num, gen, i - 1),
        }
    }
}

/// The index after the header `num gen obj` of the last object with these
/// numbers in the data (a later definition overrides an earlier one).
pub open spec fn find_object(d: Seq<u8>, num: u64, gen: u64) -> Option<int> {
    find_object_below(d, num, gen, d.len() as int)
}

/// Finds the last object `num gen` of `d`.
pub fn locate_object(d: &[u8], num: u64, gen: u64) -> (r: Option<usize>)
    ensures
        match r {
            Some(e) => find_object(d@, num, gen) == Some(e as int) && e <= d@.len(),
            None => find_object(d@, num, gen) is None,
        },
{
    let mut i = d.len();
    while i > 0
        invariant
            i <= d@.len(),
            find_object(d@, num, gen) == find_object_below(d@, num, gen, i as int),
        decreases i,
    {
        match read_object_header(d, i - 1) {
            Some((n, g, e)) => {
                if n == num && g == gen {
                    return Some(e);
                }
            },
            None => {},
        }
        i = i - 1;
    }
    None
}

/// The hexadecimal digits: `0`-`9` are worth 0 to 9, `A`-`F` and `a`-`f`
/// alike are worth 10 to 15, and no other byte is a digit.
pub proof fn law_hex_digit_values(b: u8)
    ensures
        48 <= b <= 57 ==> hex_value(b) == b - 48,
        65 <= b <= 70 ==> hex_value(b) == b - 55,
        97 <= b <= 102 ==> hex_value(b) == b - 87,
        65 <= b <= 70 ==> hex_value((b + 32) as u8) == hex_value(b),
        !(48 <= b <= 57 || 65 <= b <= 70 || 97 <= b <= 102) ==> hex_value(b) < 0,
{
}

/// A hex string reads the same whatever the case of its letters: where `e`
/// differs from `d` only in letters `A`-`F` written as `a`-`f`, the hex
/// string from `i` gives the same bytes and ends at the same index.
pub proof fn law_hex_string_ignores_case(d: Seq<u8>, e: Seq<u8>, i: int)
    requires
        d.len() == e.len(),
        forall|j: int| 0 <= j < d.len() ==> e[j] == d[j] || (65 <= d[j] <= 70 && #[trigger] e[j] == d[j] + 32),
    ensures
        hex_string(e, i) == hex_string(d, i),
{
    lemma_hex_digits_ignore_case(d, e, i);
}

/// The digits of a hex string do not depend on the case of its letters.
proof fn lemma_hex_digits_ignore_case(d: Seq<u8>, e: Seq<u8>, i: int)
    requires
        d.len() == e.len(),
        forall|j: int| 0 <= j < d.len() ==> e[j] == d[j] || (65 <= d[j] <= 70 && #[trigger] e[j] == d[j] + 32),
    ensures
        hex_digits(e, i) == hex_digits(d, i),
    decreases d.len() - i,
{
    if 0 <= i < d.len() {
        assert(e[i] == d[i] || (65 <= d[i] <= 70 && e[i] == d[i] + 32));
        law_hex_digit_values(d[i]);
        lemma_hex_digits_ignore_case(d, e, i + 1);
    }
}

/// A hex string of digits closed by `>` reads: where every byte from `i` up
/// to the `>` at `k` is `0`-`9`, `A`-`F` or `a`-`f`, the hex string from `i`
/// is read and ends after the `>`.
pub proof fn law_hex_string_of_digits_reads(d: Seq<u8>, i: int, k: int)
    requires
        0 <= i <= k < d.len(),
        d[k] == 62u8,
        forall|j: int|
            i <= j < k ==> (48 <= #[trigger] d[j] <= 57 || 65 <= d[j] <= 70 || 97 <= d[j] <= 102),
    ensures
        hex_string(d, i) matches Some((_, end)) && end == k + 1,
    decreases k - i,
{
    if i < k {
        law_hex_digit_values(d[i]);
        law_hex_string_of_digits_reads(d, i + 1, k);
    }
}

/// Whether an object header `num gen obj` starts at `j`.
pub open spec fn defines(d: Seq<u8>, j: int, num: u64, gen: u64) -> bool {
    object_header(d, j) matches Some((n, g, _)) && n == num && g == gen
}

/// Searching below `i`, above a definition at `k` with none between,
/// finds the definition at `k`.
proof fn lemma_found_below(d: Seq<u8>, num: u64, gen: u64, k: int, i: int)
    requires
        0 <= k < i,
        defines(d, k, num, gen),
        forall|j: int| k < j < i ==> !defines(d, j, num, gen),
    ensures
        find_object_below(d, num, gen, i) == Some(object_header(d, k)->Some_0.2),
    decreases i - k,
{
    if i - 1 > k {
        assert(!defines(d, i - 1, num, gen));
        lemma_found_below(d, num, gen, k, i - 1);
    }
}

/// Searching below `i` finds nothing exactly where no definition starts
/// below `i`.
proof fn lemma_none_below(d: Seq<u8>, num: u64, gen: u64, i: int)
    ensures
        find_object_below(d, num, gen, i) is None <==> forall|j: int| 0 <= j < i ==> !defines(d, j, num, gen),
    decreases i,
{
    if i > 0 {
        lemma_none_below(d, num, gen, i - 1);
        if find_object_below(d, num, gen, i) is None {
            assert forall|j: int| 0 <= j < i implies !defines(d, j, num, gen) by {
                if j < i - 1 {
                } else {
                    assert(j == i - 1);
                }
            }
        }
        if forall|j: int| 0 <= j < i ==> !defines(d, j, num, gen) {
            assert(!defines(d, i - 1, num, gen));
            assert forall|j: int| 0 <= j < i - 1 implies !defines(d, j, num, gen) by {
                assert(!defines(d, j, num, gen));
            }
        }
    }
}

/// A reference resolves to the last definition of the object in the file:
/// where the header `num gen obj` starts at `k` and at no later index, the
/// object is found right after that header, whatever definitions stand
/// before it; and it is found nowhere exactly where no header defines it.
pub proof fn law_reference_resolves_to_last_definition(d: Seq<u8>, num: u64, gen: u64, k: int)
    ensures
        (0 <= k < d.len() && defines(d, k, num, gen) && forall|j: int|
            k < j < d.len() ==> !defines(d, j, num, gen)) ==> find_object(d, num, gen) == Some(
            object_header(d, k)->Some_0.2,
        ),
        find_object(d, num, gen) is None <==> forall|j: int| 0 <= j < d.len() ==> !defines(d, j, num, gen),
{
    if 0 <= k < d.len() && defines(d, k, num, gen) && forall|j: int|
        k < j < d.len() ==> !defines(d, j, num, gen) {
        lemma_found_below(d, num, gen, k, d.len() as int);
    }
    lemma_none_below(d, num, gen, d.len() as int);
}

} // verus!
