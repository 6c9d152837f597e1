//! The strict textual parser for CIDR-style notation `A.B.C.D/M`: four
//! dot-separated decimal octets, the last followed by a slash and a
//! decimal prefix length. The grammar is modelled over character
//! sequences, and the parser is proved to decide it exactly.

use crate::block::IpAddressBlock;
use vstd::prelude::*;
use vstd::string::StrSliceExecFns;
use vstd::string::StringExecFns;

verus! {

/// Reasons a CIDR-style block fails to parse, carrying the offending
/// text where there is one.
#[derive(Debug)]
pub enum IpAddressErrorKind {
    IncorrectFormat,
    MissingMask,
    OctetOutOfRange(String),
    MaskOutOfRange(String),
}

/// Error returned by the block parser.
#[derive(Debug)]
pub struct IpAddressParseError {
    pub(crate) kind: IpAddressErrorKind,
}

/// The parse errors as mathematical values, over character sequences.
pub enum SpecErrorKind {
    IncorrectFormat,
    MissingMask,
    OctetOutOfRange(Seq<char>),
    MaskOutOfRange(Seq<char>),
}

impl View for IpAddressErrorKind {
    type V = SpecErrorKind;

    open spec fn view(&self) -> SpecErrorKind {
        match self {
            IpAddressErrorKind::IncorrectFormat => SpecErrorKind::IncorrectFormat,
            IpAddressErrorKind::MissingMask => SpecErrorKind::MissingMask,
            IpAddressErrorKind::OctetOutOfRange(t) => SpecErrorKind::OctetOutOfRange(t@),
            IpAddressErrorKind::MaskOutOfRange(t) => SpecErrorKind::MaskOutOfRange(t@),
        }
    }
}

impl View for IpAddressParseError {
    type V = SpecErrorKind;

    closed spec fn view(&self) -> SpecErrorKind {
        self.kind@
    }
}

/// An ASCII decimal digit.
pub open spec fn is_digit_char(c: char) -> bool {
    48 <= c as u32 <= 57
}

/// The value of an ASCII decimal digit.
pub open spec fn digit_char_val(c: char) -> int {
    c as u32 - 48
}

/// The ASCII digit for a value in `0..=9`.
pub open spec fn digit_char(d: int) -> char {
    if d == 0 {
        '0'
    } else if d == 1 {
        '1'
    } else if d == 2 {
        '2'
    } else if d == 3 {
        '3'
    } else if d == 4 {
        '4'
    } else if d == 5 {
        '5'
    } else if d == 6 {
        '6'
    } else if d == 7 {
        '7'
    } else if d == 8 {
        '8'
    } else {
        '9'
    }
}

/// Every character is an ASCII decimal digit.
pub open spec fn all_digit_chars(s: Seq<char>) -> bool {
    forall|i: int| 0 <= i < s.len() ==> is_digit_char(#[trigger] s[i])
}

/// The number a digit string denotes, most significant digit first.
pub open spec fn digits_val(s: Seq<char>) -> int
    decreases s.len(),
{
    if s.len() == 0 {
        0
    } else {
        10 * digits_val(s.drop_last()) + digit_char_val(s.last())
    }
}

/// Decimal rendering of a number: most significant digit first, no sign
/// and no leading zeros.
pub open spec fn dec_str_of(n: nat) -> Seq<char>
    decreases n,
{
    if n < 10 {
        seq![digit_char(n as int)]
    } else {
        dec_str_of(n / 10) + seq![digit_char((n % 10) as int)]
    }
}

/// The decimal value accepted by std's `u8` parser: one optional leading
/// `+`, then at least one ASCII digit, denoting a value within `u8`.
pub open spec fn spec_parse_u8(s: Seq<char>) -> Option<u8> {
    let t = if s.len() > 0 && s[0] == '+' {
        s.subrange(1, s.len() as int)
    } else {
        s
    };
    if t.len() > 0 && all_digit_chars(t) && digits_val(t) <= 255 {
        Some(digits_val(t) as u8)
    } else {
        None
    }
}

/// One address octet as the grammar accepts it: a sign character is an
/// outright format error, and anything std's `u8` parser refuses is out
/// of range.
pub open spec fn spec_parse_octet(f: Seq<char>) -> Result<u8, SpecErrorKind> {
    if f.len() > 0 && (f[0] == '+' || f[0] == '-') {
        Err(SpecErrorKind::IncorrectFormat)
    } else {
        match spec_parse_u8(f) {
            Some(v) => Ok(v),
            None => Err(SpecErrorKind::OctetOutOfRange(f)),
        }
    }
}

/// The input split at every occurrence of `sep`: always one field more
/// than there are separators.
pub open spec fn split_on(s: Seq<char>, sep: char) -> Seq<Seq<char>>
    decreases s.len(),
{
    if s.len() == 0 {
        seq![Seq::<char>::empty()]
    } else if s[0] == sep {
        seq![Seq::<char>::empty()] + split_on(s.drop_first(), sep)
    } else {
        let rest = split_on(s.drop_first(), sep);
        seq![seq![s[0]] + rest[0]] + rest.drop_first()
    }
}

/// The dot-separated fields, each parsed in order: the first three are
/// octets; the fourth splits again at `/` into a final octet and the
/// mask, and anything past a second `/` is ignored.
pub open spec fn spec_extract(s: Seq<char>) -> Result<(Seq<u8>, u8), SpecErrorKind> {
    let fields = split_on(s, '.');
    if fields.len() != 4 {
        Err(SpecErrorKind::IncorrectFormat)
    } else {
        match spec_parse_octet(fields[0]) {
            Err(e) => Err(e),
            Ok(a0) => match spec_parse_octet(fields[1]) {
                Err(e) => Err(e),
                Ok(a1) => match spec_parse_octet(fields[2]) {
                    Err(e) => Err(e),
                    Ok(a2) => {
                        let parts = split_on(fields[3], '/');
                        match spec_parse_octet(parts[0]) {
                            Err(e) => Err(e),
                            Ok(a3) => if parts.len() < 2 {
                                Err(SpecErrorKind::MissingMask)
                            } else {
                                match spec_parse_u8(parts[1]) {
                                    None => Err(SpecErrorKind::MaskOutOfRange(parts[1])),
                                    Some(m) => Ok((seq![a0, a1, a2, a3], m)),
                                }
                            },
                        }
                    },
                },
            },
        }
    }
}

/// A digit string never denotes a negative value.
pub proof fn lemma_digits_val_nonneg(t: Seq<char>)
    requires
        all_digit_chars(t),
    ensures
        digits_val(t) >= 0,
    decreases t.len(),
{
    if t.len() > 0 {
        assert(all_digit_chars(t.drop_last())) by {
            assert(forall|i: int|
                0 <= i < t.drop_last().len() ==> t.drop_last()[i] == #[trigger] t[i]);
        }
        lemma_digits_val_nonneg(t.drop_last());
        assert(is_digit_char(t.last()));
    }
}

/// With only digits, a longer string never denotes a smaller value.
pub proof fn lemma_digits_val_take_le(t: Seq<char>, j: int)
    requires
        0 <= j <= t.len(),
        all_digit_chars(t),
    ensures
        0 <= digits_val(t.take(j)) <= digits_val(t),
    decreases t.len(),
{
    if j == t.len() {
        assert(t.take(j) =~= t);
        lemma_digits_val_nonneg(t);
    } else {
        assert(t.drop_last().take(j) =~= t.take(j));
        assert(all_digit_chars(t.drop_last())) by {
            assert(forall|i: int|
                0 <= i < t.drop_last().len() ==> t.drop_last()[i] == #[trigger] t[i]);
        }
        lemma_digits_val_take_le(t.drop_last(), j);
        lemma_digits_val_nonneg(t.drop_last());
        assert(is_digit_char(t.last()));
    }
}

/// Find the first occurrence of `sep` at or after `from`.
fn find_char_from(s: &str, from: usize, sep: char) -> (r: Option<usize>)
    requires
        from <= s@.len(),
    ensures
        match r {
            Some(j) => from <= j < s@.len() && s@[j as int] == sep && (forall|k: int|
                from <= k < j ==> s@[k] != sep),
            None => forall|k: int| from <= k < s@.len() ==> s@[k] != sep,
        },
{
    let n = s.unicode_len();
    let mut i: usize = from;
    while i < n
        invariant
            from <= i <= n,
            n == s@.len(),
            forall|k: int| from <= k < i ==> s@[k] != sep,
        decreases n - i,
    {
        if s.get_char(i) == sep {
            return Some(i);
        }
        i = i + 1;
    }
    None
}

/// Strict decimal `u8` parse with std's grammar: one optional leading
/// `+`, then at least one digit, and a value of at most 255.
fn parse_u8_str(s: &str) -> (r: Option<u8>)
    ensures
        r == spec_parse_u8(s@),
{
    let n = s.unicode_len();
    let mut i: usize = 0;
    if n > 0 && s.get_char(0) == '+' {
        i = 1;
    }
    let ghost t = if s@.len() > 0 && s@[0] == '+' {
        s@.subrange(1, s@.len() as int)
    } else {
        s@
    };
    if i >= n {
        return None;
    }
    let mut val: u32 = 0;
    let mut j: usize = i;
    while j < n
        invariant
            i <= j <= n,
            n == s@.len(),
            i == 1 ==> n > 0 && s@[0] == '+',
            i == 0 ==> !(n > 0 && s@[0] == '+'),
            t == (if s@.len() > 0 && s@[0] == '+' {
                s@.subrange(1, s@.len() as int)
            } else {
                s@
            }),
            t.len() == n - i,
            forall|k: int| 0 <= k < t.len() ==> t[k] == s@[k + i],
            all_digit_chars(t.take(j - i)),
            val == digits_val(t.take(j - i)),
            val <= 255,
        decreases n - j,
    {
        let c = s.get_char(j);
        let u = c as u32;
        if !(48 <= u && u <= 57) {
            proof {
                assert(t[j - i] == c);
                assert(!is_digit_char(t[j - i]));
            }
            return None;
        }
        let d = u - 48;
        proof {
            assert(t.take(j - i + 1).drop_last() =~= t.take(j - i));
            assert(t.take(j - i + 1).last() == t[j - i]);
            assert(t[j - i] == c);
        }
        val = val * 10 + d;
        if val > 255 {
            proof {
                if all_digit_chars(t) {
                    lemma_digits_val_take_le(t, j - i + 1);
                }
            }
            return None;
        }
        j = j + 1;
    }
    proof {
        assert(t.take(n - i) =~= t);
    }
    Some(val as u8)
}

/// Parse one octet field: reject an explicit sign as a format error, then
/// hand the rest to the strict decimal parser; carry the offending text
/// on failure.
fn parse_octet(octet: &str) -> (r: Result<u8, IpAddressParseError>)
    ensures
        match (r, spec_parse_octet(octet@)) {
            (Ok(v), Ok(w)) => v == w,
            (Err(e), Err(k)) => e@ == k,
            _ => false,
        },
{
    let n = octet.unicode_len();
    if n > 0 {
        let c0 = octet.get_char(0);
        if c0 == '+' || c0 == '-' {
            return Err(IpAddressParseError { kind: IpAddressErrorKind::IncorrectFormat });
        }
    }
    match parse_u8_str(octet) {
        Some(v) => Ok(v),
        None => Err(
            IpAddressParseError {
                kind: IpAddressErrorKind::OctetOutOfRange(octet.to_owned()),
            },
        ),
    }
}

/// The one-character text of a decimal digit.
fn digit_literal(d: u8) -> (r: &'static str)
    requires
        d <= 9,
    ensures
        r@ =~= seq![digit_char(d as int)],
{
    proof {
        reveal_strlit("0");
        reveal_strlit("1");
        reveal_strlit("2");
        reveal_strlit("3");
        reveal_strlit("4");
        reveal_strlit("5");
        reveal_strlit("6");
        reveal_strlit("7");
        reveal_strlit("8");
        reveal_strlit("9");
    }
    match d {
        0 => "0",
        1 => "1",
        2 => "2",
        3 => "3",
        4 => "4",
        5 => "5",
        6 => "6",
        7 => "7",
        8 => "8",
        _ => "9",
    }
}

/// Decimal text of a byte value: no sign, no leading zeros.
fn u8_to_string(n: u8) -> (r: String)
    ensures
        r@ =~= dec_str_of(n as nat),
{
    let mut s = String::new();
    if n >= 100 {
        proof {
            assert((n as nat) / 10 / 10 == (n as nat) / 100) by {
                vstd::arithmetic::div_mod::lemma_div_denominator(n as int, 10, 10);
            }
            assert(dec_str_of((n as nat) / 100) =~= seq![digit_char((n / 100) as int)]);
            assert(dec_str_of((n as nat) / 10) =~= dec_str_of((n as nat) / 100) + seq![
                digit_char(((n as nat) / 10 % 10) as int),
            ]);
        }
        s.append(digit_literal(n / 100));
        s.append(digit_literal((n / 10) % 10));
        s.append(digit_literal(n % 10));
        proof {
            assert(s@ =~= dec_str_of(n as nat));
        }
    } else if n >= 10 {
        proof {
            assert(dec_str_of((n as nat) / 10) =~= seq![digit_char((n / 10) as int)]);
        }
        s.append(digit_literal(n / 10));
        s.append(digit_literal(n % 10));
        proof {
            assert(s@ =~= dec_str_of(n as nat));
        }
    } else {
        s.append(digit_literal(n));
        proof {
            assert(s@ =~= dec_str_of(n as nat));
        }
    }
    s
}

/// A split always produces at least one field.
pub proof fn lemma_split_on_min_len(s: Seq<char>, sep: char)
    ensures
        split_on(s, sep).len() >= 1,
    decreases s.len(),
{
    if s.len() > 0 {
        lemma_split_on_min_len(s.drop_first(), sep);
    }
}

/// With no separator there is exactly one field: the whole input.
pub proof fn lemma_split_on_none(s: Seq<char>, sep: char)
    requires
        forall|k: int| 0 <= k < s.len() ==> s[k] != sep,
    ensures
        split_on(s, sep) =~~= seq![s],
    decreases s.len(),
{
    if s.len() > 0 {
        let df = s.drop_first();
        assert(forall|k: int| 0 <= k < df.len() ==> df[k] == #[trigger] s[k + 1]);
        lemma_split_on_none(df, sep);
        assert(seq![s[0]] + df =~= s);
    }
}

/// Splitting at the first separator occurrence: the field before it,
/// then the fields of what follows it.
pub proof fn lemma_split_on_first(s: Seq<char>, sep: char, i: int)
    requires
        0 <= i < s.len(),
        s[i] == sep,
        forall|k: int| 0 <= k < i ==> s[k] != sep,
    ensures
        split_on(s, sep) =~~= seq![s.take(i)] + split_on(s.skip(i + 1), sep),
    decreases i,
{
    if i == 0 {
        assert(s.take(0) =~= Seq::<char>::empty());
        assert(s.skip(1) =~= s.drop_first());
    } else {
        let df = s.drop_first();
        assert(forall|k: int| 0 <= k < df.len() ==> df[k] == #[trigger] s[k + 1]);
        lemma_split_on_first(df, sep, i - 1);
        assert(seq![s[0]] + df.take(i - 1) =~= s.take(i));
        assert(df.skip(i) =~= s.skip(i + 1));
        lemma_split_on_min_len(df.skip(i), sep);
    }
}

/// The first field of any split: everything before the first separator,
/// or the whole input when there is none.
pub proof fn lemma_split_on_head(t: Seq<char>, sep: char, e: int)
    requires
        0 <= e <= t.len(),
        forall|k: int| 0 <= k < e ==> t[k] != sep,
        e < t.len() ==> t[e] == sep,
    ensures
        split_on(t, sep).len() >= 1,
        split_on(t, sep)[0] =~= t.take(e),
{
    if e == t.len() {
        lemma_split_on_none(t, sep);
        assert(t.take(e) =~= t);
    } else {
        lemma_split_on_first(t, sep, e);
        lemma_split_on_min_len(t.skip(e + 1), sep);
    }
}

/// The four fields of an input holding exactly three separators, by the
/// separators' positions.
pub proof fn lemma_split_on_three(s: Seq<char>, sep: char, d0: int, d1: int, d2: int)
    requires
        0 <= d0 < d1 < d2 < s.len(),
        s[d0] == sep,
        s[d1] == sep,
        s[d2] == sep,
        forall|k: int| 0 <= k < d0 ==> s[k] != sep,
        forall|k: int| d0 < k < d1 ==> s[k] != sep,
        forall|k: int| d1 < k < d2 ==> s[k] != sep,
        forall|k: int| d2 < k < s.len() ==> s[k] != sep,
    ensures
        split_on(s, sep) =~~= seq![
            s.take(d0),
            s.subrange(d0 + 1, d1),
            s.subrange(d1 + 1, d2),
            s.subrange(d2 + 1, s.len() as int),
        ],
{
    lemma_split_on_first(s, sep, d0);
    let t1 = s.skip(d0 + 1);
    assert(forall|k: int| 0 <= k < t1.len() ==> t1[k] == #[trigger] s[k + d0 + 1]);
    lemma_split_on_first(t1, sep, d1 - d0 - 1);
    let t2 = t1.skip(d1 - d0);
    assert(t2 =~= s.skip(d1 + 1));
    assert(forall|k: int| 0 <= k < t2.len() ==> t2[k] == #[trigger] s[k + d1 + 1]);
    lemma_split_on_first(t2, sep, d2 - d1 - 1);
    let t3 = t2.skip(d2 - d1);
    assert(t3 =~= s.skip(d2 + 1));
    assert(forall|k: int| 0 <= k < t3.len() ==> t3[k] == #[trigger] s[k + d2 + 1]);
    lemma_split_on_none(t3, sep);
    assert(t1.take(d1 - d0 - 1) =~= s.subrange(d0 + 1, d1));
    assert(t2.take(d2 - d1 - 1) =~= s.subrange(d1 + 1, d2));
    assert(t3 =~= s.subrange(d2 + 1, s.len() as int));
}

/// The full parser: the extracted octets and mask, with the mask bounded
/// by 32; a larger parsed mask is reported by its decimal value.
pub open spec fn spec_parse_block(s: Seq<char>) -> Result<(Seq<u8>, u8), SpecErrorKind> {
    match spec_extract(s) {
        Err(e) => Err(e),
        Ok((octets, mask)) => if mask <= 32 {
            Ok((octets, mask))
        } else {
            Err(SpecErrorKind::MaskOutOfRange(dec_str_of(mask as nat)))
        },
    }
}

/// Split the input at its dots, parse the four fields, and split the
/// last at its slash for the mask; errors follow the grammar's order.
#[verifier::rlimit(80)]
#[verifier::spinoff_prover]
fn extract_address_and_mask(s: &str) -> (r: Result<([u8; 4], u8), IpAddressParseError>)
    ensures
        match (r, spec_extract(s@)) {
            (Ok(p), Ok(q)) => p.0@ =~= q.0 && p.1 == q.1,
            (Err(e), Err(k)) => e@ == k,
            _ => false,
        },
{
    let n = s.unicode_len();
    let d0 = match find_char_from(s, 0, '.') {
        Some(j) => j,
        None => {
            proof {
                lemma_split_on_none(s@, '.');
            }
            return Err(IpAddressParseError { kind: IpAddressErrorKind::IncorrectFormat });
        },
    };
    let d1 = match find_char_from(s, d0 + 1, '.') {
        Some(j) => j,
        None => {
            proof {
                lemma_split_on_first(s@, '.', d0 as int);
                let t1 = s@.skip(d0 + 1);
                assert(forall|k: int| 0 <= k < t1.len() ==> t1[k] == #[trigger] s@[k + d0 + 1]);
                lemma_split_on_none(t1, '.');
            }
            return Err(IpAddressParseError { kind: IpAddressErrorKind::IncorrectFormat });
        },
    };
    let d2 = match find_char_from(s, d1 + 1, '.') {
        Some(j) => j,
        None => {
            proof {
                lemma_split_on_first(s@, '.', d0 as int);
                let t1 = s@.skip(d0 + 1);
                assert(forall|k: int| 0 <= k < t1.len() ==> t1[k] == #[trigger] s@[k + d0 + 1]);
                lemma_split_on_first(t1, '.', d1 - d0 - 1);
                let t2 = t1.skip(d1 - d0);
                assert(forall|k: int| 0 <= k < t2.len() ==> t2[k] == #[trigger] s@[k + d1 + 1]);
                lemma_split_on_none(t2, '.');
            }
            return Err(IpAddressParseError { kind: IpAddressErrorKind::IncorrectFormat });
        },
    };
    match find_char_from(s, d2 + 1, '.') {
        Some(d3) => {
            proof {
                lemma_split_on_first(s@, '.', d0 as int);
                let t1 = s@.skip(d0 + 1);
                assert(forall|k: int| 0 <= k < t1.len() ==> t1[k] == #[trigger] s@[k + d0 + 1]);
                lemma_split_on_first(t1, '.', d1 - d0 - 1);
                let t2 = t1.skip(d1 - d0);
                assert(forall|k: int| 0 <= k < t2.len() ==> t2[k] == #[trigger] s@[k + d1 + 1]);
                lemma_split_on_first(t2, '.', d2 - d1 - 1);
                let t3 = t2.skip(d2 - d1);
                assert(forall|k: int| 0 <= k < t3.len() ==> t3[k] == #[trigger] s@[k + d2 + 1]);
                lemma_split_on_first(t3, '.', d3 - d2 - 1);
                lemma_split_on_min_len(t3.skip(d3 - d2), '.');
            }
            return Err(IpAddressParseError { kind: IpAddressErrorKind::IncorrectFormat });
        },
        None => {},
    };
    proof {
        lemma_split_on_three(s@, '.', d0 as int, d1 as int, d2 as int);
        assert(s@.take(d0 as int) =~= s@.subrange(0, d0 as int));
    }
    let ghost fields = split_on(s@, '.');
    let f0 = s.substring_char(0, d0);
    let a0 = match parse_octet(f0) {
        Ok(v) => v,
        Err(e) => {
            return Err(e);
        },
    };
    let f1 = s.substring_char(d0 + 1, d1);
    let a1 = match parse_octet(f1) {
        Ok(v) => v,
        Err(e) => {
            return Err(e);
        },
    };
    let f2 = s.substring_char(d1 + 1, d2);
    let a2 = match parse_octet(f2) {
        Ok(v) => v,
        Err(e) => {
            return Err(e);
        },
    };
    let ghost f3v = s@.subrange(d2 + 1, n as int);
    proof {
        assert(forall|k: int| 0 <= k < f3v.len() ==> f3v[k] == #[trigger] s@[k + d2 + 1]);
    }
    match find_char_from(s, d2 + 1, '/') {
        None => {
            proof {
                lemma_split_on_none(f3v, '/');
            }
            let f3 = s.substring_char(d2 + 1, n);
            match parse_octet(f3) {
                Ok(_) => Err(IpAddressParseError { kind: IpAddressErrorKind::MissingMask }),
                Err(e) => Err(e),
            }
        },
        Some(p) => {
            proof {
                lemma_split_on_first(f3v, '/', p - d2 - 1);
                lemma_split_on_min_len(f3v.skip(p - d2), '/');
                assert(f3v.take(p - d2 - 1) =~= s@.subrange(d2 + 1, p as int));
            }
            let f3oct = s.substring_char(d2 + 1, p);
            let a3 = match parse_octet(f3oct) {
                Ok(v) => v,
                Err(e) => {
                    return Err(e);
                },
            };
            let q = match find_char_from(s, p + 1, '/') {
                Some(x) => x,
                None => n,
            };
            let ghost rest = f3v.skip(p - d2);
            proof {
                assert(rest =~= s@.subrange(p + 1, n as int));
                assert(forall|k: int| 0 <= k < rest.len() ==> rest[k] == #[trigger] s@[k + p + 1]);
                lemma_split_on_head(rest, '/', q - p - 1);
                assert(rest.take(q - p - 1) =~= s@.subrange(p + 1, q as int));
            }
            let mask_str = s.substring_char(p + 1, q);
            match parse_u8_str(mask_str) {
                Some(m) => Ok(([a0, a1, a2, a3], m)),
                None => Err(
                    IpAddressParseError {
                        kind: IpAddressErrorKind::MaskOutOfRange(mask_str.to_owned()),
                    },
                ),
            }
        },
    }
}

impl IpAddressBlock {
    /// Parse CIDR text `A.B.C.D/M`: four strict decimal octets and a
    /// prefix length of at most 32.
    pub fn parse_block(s: &str) -> (r: Result<Self, IpAddressParseError>)
        ensures
            match (r, spec_parse_block(s@)) {
                (Ok(b), Ok(q)) => b.address@ =~= q.0 && b.mask == q.1,
                (Err(e), Err(k)) => e@ == k,
                _ => false,
            },
    {
        let parsed = match extract_address_and_mask(s) {
            Ok(p) => p,
            Err(e) => {
                return Err(e);
            },
        };
        let (address, mask) = parsed;
        if mask <= 32 {
            Ok(Self::new(address, mask))
        } else {
            Err(
                IpAddressParseError {
                    kind: IpAddressErrorKind::MaskOutOfRange(u8_to_string(mask)),
                },
            )
        }
    }
}

impl core::str::FromStr for IpAddressBlock {
    type Err = IpAddressParseError;

    fn from_str(s: &str) -> Result<Self, Self::Err> {
        IpAddressBlock::parse_block(s)
    }
}

/// The text of each parse-failure description.
pub open spec fn spec_message(k: SpecErrorKind) -> Seq<char> {
    match k {
        SpecErrorKind::IncorrectFormat => "the string is not in a correct format"@,
        SpecErrorKind::MissingMask => "the mask is missing"@,
        SpecErrorKind::OctetOutOfRange(t) => "'"@ + t + "' is not a valid octet"@,
        SpecErrorKind::MaskOutOfRange(t) => "'"@ + t + "' is not a valid mask"@,
    }
}

impl IpAddressParseError {
    /// Which failure occurred.
    pub fn kind(&self) -> (r: &IpAddressErrorKind)
        ensures
            r@ == self@,
    {
        &self.kind
    }

    /// A human-readable description of the failure.
    pub fn message(&self) -> (r: String)
        ensures
            r@ =~= spec_message(self@),
    {
        match &self.kind {
            IpAddressErrorKind::IncorrectFormat => "the string is not in a correct format".to_owned(),
            IpAddressErrorKind::MissingMask => "the mask is missing".to_owned(),
            IpAddressErrorKind::OctetOutOfRange(out) => {
                let mut m = "'".to_owned();
                m.append(out.as_str());
                m.append("' is not a valid octet");
                m
            },
            IpAddressErrorKind::MaskOutOfRange(out) => {
                let mut m = "'".to_owned();
                m.append(out.as_str());
                m.append("' is not a valid mask");
                m
            },
        }
    }
}

} // verus!
