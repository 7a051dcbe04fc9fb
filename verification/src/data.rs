//! The typed values of the store and their self-delimiting textual codec.
//!
//! Every value serializes to one record `tag || payload || CRLF`, where the
//! tag is `+` for text, `:` for signed 64-bit integers and `?` for JSON
//! documents. JSON payloads are kept in canonical form: the exact text that
//! `serde_json` produces when reserializing the parsed document.

use vstd::prelude::*;
use vstd::string::*;
use crate::error::{Error, ErrorKind};

verus! {

/// The mathematical shape of a value: text, unbounded integer, or the
/// canonical text of a JSON document.
pub enum DataView {
    String(Seq<char>),
    Int(int),
    Json(Seq<char>),
}

/// One value of the store. JSON values hold their canonical text and
/// should be built with [`Data::json`], which canonicalizes.
#[derive(Debug, PartialEq)]
pub enum Data {
    String(String),
    Int(i64),
    Json(String),
}

impl View for Data {
    type V = DataView;

    open spec fn view(&self) -> DataView {
        match self {
            Data::String(s) => DataView::String(s@),
            Data::Int(i) => DataView::Int(*i as int),
            Data::Json(j) => DataView::Json(j@),
        }
    }
}

impl Clone for Data {
    fn clone(&self) -> (r: Self)
        ensures
            r@ == self@,
    {
        match self {
            Data::String(s) => Data::String(s.clone()),
            Data::Int(i) => Data::Int(*i),
            Data::Json(j) => Data::Json(j.clone()),
        }
    }
}

/// The canonical form of a JSON text: `None` when the text is not valid
/// JSON, otherwise the text that reserializing the parsed document yields.
/// The result depends on the text alone.
pub uninterp spec fn json_canon(s: Seq<char>) -> Option<Seq<char>>;

/// Relies on `serde_json::from_str::<Value>` and `serde_json::Value`'s
/// `Display`: whether a text parses, and the reserialization of the parsed
/// document, are functions of the text alone; reserializing is canonical,
/// so the produced text parses back to the same document and reserializes
/// to itself. The fixed point depends on the `float_roundtrip` feature,
/// which the crate enables: parsing is then correctly rounded, and the
/// shortest-form printing of a number reparses to the same number; without
/// the feature, serde_json documents that some doubles reparse inexactly.
#[verifier::external_body]
fn canonicalize_json(s: &str) -> (r: Option<String>)
    ensures
        r is Some <==> json_canon(s@) is Some,
        r matches Some(c) ==> json_canon(s@) == Some(c@) && json_canon(c@) == Some(c@),
{
    match serde_json::from_str::<serde_json::Value>(s) {
        Ok(v) => Some(v.to_string()),
        Err(_) => None,
    }
}

/// A well-formed value: integers fit in 64 signed bits and JSON payloads
/// are canonical. Values built by the public constructors satisfy this.
pub open spec fn data_wf(d: DataView) -> bool {
    match d {
        DataView::String(_) => true,
        DataView::Int(i) => i64::MIN <= i <= i64::MAX,
        DataView::Json(j) => json_canon(j) == Some(j),
    }
}

impl Data {
    /// Well-formedness of this value.
    pub open spec fn wf(&self) -> bool {
        data_wf(self@)
    }

    /// Builds a JSON value from its textual form, canonicalizing it;
    /// text that does not parse as JSON is rejected.
    pub fn json(text: &str) -> (r: Result<Data, Error>)
        ensures
            json_canon(text@) is Some ==> (r matches Ok(d) && d@ == DataView::Json(
                json_canon(text@).unwrap(),
            ) && d.wf()),
            json_canon(text@) is None ==> (r matches Err(e) && e.kind
                == ErrorKind::JsonParseError),
    {
        match canonicalize_json(text) {
            Some(c) => Ok(Data::Json(c)),
            None => Err(Error::new(ErrorKind::JsonParseError)),
        }
    }
}

/// The two-character record terminator.
pub open spec fn crlf() -> Seq<char> {
    seq!['\r', '\n']
}

/// The character for one decimal digit.
pub open spec fn digit_char(d: int) -> char {
    if d == 0 {
        '0'
    } else if d == 1 {
        '1'
    } else if d == 2 {
        '2'
    } else if d == 3 {
        '3'
    } else if d == 4 {
        '4'
    } else if d == 5 {
        '5'
    } else if d == 6 {
        '6'
    } else if d == 7 {
        '7'
    } else if d == 8 {
        '8'
    } else {
        '9'
    }
}

/// Whether a character is a decimal digit.
pub open spec fn is_digit(c: char) -> bool {
    48 <= c as u32 <= 57
}

/// The numeric value of a digit character.
pub open spec fn digit_val(c: char) -> int {
    c as u32 - 48
}

/// The decimal representation of a natural number, most significant
/// digit first, without sign and without leading zeros.
pub open spec fn dec_nat(n: nat) -> Seq<char>
    decreases n,
{
    if n < 10 {
        seq![digit_char(n as int)]
    } else {
        dec_nat(n / 10) + seq![digit_char((n % 10) as int)]
    }
}

/// The decimal representation of an integer, with a leading minus sign
/// when negative.
pub open spec fn dec_int(i: int) -> Seq<char> {
    if i < 0 {
        seq!['-'] + dec_nat((-i) as nat)
    } else {
        dec_nat(i as nat)
    }
}

/// Whether every character of a text is a decimal digit.
pub open spec fn all_digits(s: Seq<char>) -> bool {
    forall|i: int| 0 <= i < s.len() ==> is_digit(#[trigger] s[i])
}

/// The numeric value of a digit string, read left to right.
pub open spec fn dec_digits_val(s: Seq<char>) -> int
    decreases s.len(),
{
    if s.len() == 0 {
        0
    } else {
        dec_digits_val(s.drop_last()) * 10 + digit_val(s.last())
    }
}

/// What parsing a signed 64-bit decimal yields: an optional sign, then at
/// least one digit, and a value within the 64-bit signed range.
pub open spec fn parse_i64_spec(s: Seq<char>) -> Option<int> {
    let ds = if s.len() > 0 && (s[0] == '-' || s[0] == '+') {
        s.skip(1)
    } else {
        s
    };
    if ds.len() == 0 || !all_digits(ds) {
        None
    } else {
        let m = dec_digits_val(ds);
        let v: int = if s.len() > 0 && s[0] == '-' {
            -m
        } else {
            m
        };
        if i64::MIN <= v <= i64::MAX {
            Some(v)
        } else {
            None
        }
    }
}

/// The encoded record of a value: tag, payload, terminator.
pub open spec fn encode_data(d: DataView) -> Seq<char> {
    match d {
        DataView::String(s) => seq!['+'] + s + crlf(),
        DataView::Int(i) => seq![':'] + dec_int(i) + crlf(),
        DataView::Json(j) => seq!['?'] + j + crlf(),
    }
}

/// What decoding a record yields: the record must be at least two
/// characters, end in CRLF and begin with a recognized tag; the payload
/// is everything in between.
pub open spec fn decode_data(s: Seq<char>) -> Option<DataView> {
    if s.len() < 2 || s[s.len() - 2] != '\r' || s[s.len() - 1] != '\n' {
        None
    } else {
        let mid = s.subrange(1, s.len() - 2);
        if s[0] == '+' {
            Some(DataView::String(mid))
        } else if s[0] == ':' {
            match parse_i64_spec(mid) {
                Some(i) => Some(DataView::Int(i)),
                None => None,
            }
        } else if s[0] == '?' {
            match json_canon(mid) {
                Some(j) => Some(DataView::Json(j)),
                None => None,
            }
        } else {
            None
        }
    }
}

/// Relies on `String::push`: appends exactly the given character.
pub assume_specification[ std::string::String::push ](s: &mut String, ch: char)
    ensures
        final(s)@ == old(s)@.push(ch),
;

/// The digit character of a value below ten.
fn digit_to_char(d: u8) -> (c: char)
    requires
        d < 10,
    ensures
        c == digit_char(d as int),
{
    match d {
        0 => '0',
        1 => '1',
        2 => '2',
        3 => '3',
        4 => '4',
        5 => '5',
        6 => '6',
        7 => '7',
        8 => '8',
        _ => '9',
    }
}

/// Appends the decimal representation of a natural number.
pub(crate) fn push_dec_u64(n: u64, out: &mut String)
    ensures
        final(out)@ == old(out)@ + dec_nat(n as nat),
    decreases n,
{
    if n >= 10 {
        push_dec_u64(n / 10, out);
        let d = digit_to_char((n % 10) as u8);
        out.push(d);
        assert(out@ =~= old(out)@ + dec_nat(n as nat));
    } else {
        let d = digit_to_char(n as u8);
        out.push(d);
        assert(out@ =~= old(out)@ + dec_nat(n as nat));
    }
}

/// Appends the decimal representation of a signed 64-bit integer.
fn push_dec_i64(i: i64, out: &mut String)
    ensures
        final(out)@ == old(out)@ + dec_int(i as int),
{
    if i >= 0 {
        push_dec_u64(i as u64, out);
    } else {
        out.push('-');
        let mag: u64 = (-(i as i128)) as u64;
        push_dec_u64(mag, out);
        assert(out@ =~= old(out)@ + dec_int(i as int));
    }
}

proof fn lemma_digit_round_trip(d: int)
    requires
        0 <= d < 10,
    ensures
        is_digit(digit_char(d)),
        digit_val(digit_char(d)) == d,
{
    assert('0' as u32 == 48 && '1' as u32 == 49 && '2' as u32 == 50 && '3' as u32 == 51 && '4'
        as u32 == 52 && '5' as u32 == 53 && '6' as u32 == 54 && '7' as u32 == 55 && '8' as u32
        == 56 && '9' as u32 == 57);
}

pub proof fn lemma_dec_val_nonneg(s: Seq<char>)
    requires
        all_digits(s),
    ensures
        dec_digits_val(s) >= 0,
    decreases s.len(),
{
    if s.len() > 0 {
        lemma_dec_val_nonneg(s.drop_last());
    }
}

/// The value of a digit string is at least the value of any of its prefixes.
pub proof fn lemma_dec_val_prefix_le(s: Seq<char>, j: int)
    requires
        all_digits(s),
        0 <= j <= s.len(),
    ensures
        dec_digits_val(s.take(j)) <= dec_digits_val(s),
    decreases s.len(),
{
    if j == s.len() {
        assert(s.take(j) =~= s);
    } else {
        assert(s.drop_last() =~= s.take(s.len() - 1));
        lemma_dec_val_prefix_le(s.take(s.len() - 1), j);
        assert(s.take(s.len() - 1).take(j) =~= s.take(j));
        lemma_dec_val_nonneg(s.take(s.len() - 1));
        assert(dec_digits_val(s) == dec_digits_val(s.drop_last()) * 10 + digit_val(s.last()));
    }
}

/// The decimal representation of a natural number is a nonempty digit
/// string whose value is that number.
pub proof fn lemma_dec_nat_val(n: nat)
    ensures
        dec_nat(n).len() >= 1,
        all_digits(dec_nat(n)),
        dec_digits_val(dec_nat(n)) == n,
    decreases n,
{
    if n < 10 {
        lemma_digit_round_trip(n as int);
        let s = dec_nat(n);
        assert(s =~= seq![digit_char(n as int)]);
        assert(s.drop_last() =~= Seq::<char>::empty());
        assert(dec_digits_val(Seq::<char>::empty()) == 0);
        assert(dec_digits_val(s) == dec_digits_val(s.drop_last()) * 10 + digit_val(s.last()));
    } else {
        lemma_dec_nat_val(n / 10);
        lemma_digit_round_trip((n % 10) as int);
        let s = dec_nat(n);
        assert(s =~= dec_nat(n / 10) + seq![digit_char((n % 10) as int)]);
        assert(s.drop_last() =~= dec_nat(n / 10));
        assert(s.last() == digit_char((n % 10) as int));
        assert(dec_digits_val(s) == (n / 10) * 10 + (n % 10));
        assert((n / 10) * 10 + (n % 10) == n) by {
            vstd::arithmetic::div_mod::lemma_fundamental_div_mod(n as int, 10);
        };
    }
}

/// Parsing the decimal representation of a 64-bit integer gives it back.
pub proof fn lemma_parse_dec_int(i: int)
    requires
        i64::MIN <= i <= i64::MAX,
    ensures
        parse_i64_spec(dec_int(i)) == Some(i),
{
    if i < 0 {
        let s = dec_int(i);
        lemma_dec_nat_val((-i) as nat);
        assert(s =~= seq!['-'] + dec_nat((-i) as nat));
        assert(s[0] == '-');
        assert(s.skip(1) =~= dec_nat((-i) as nat));
    } else {
        let s = dec_int(i);
        lemma_dec_nat_val(i as nat);
        assert(s == dec_nat(i as nat));
        assert(is_digit(s[0]));
        assert(s[0] != '-' && s[0] != '+');
    }
}

/// Decoding an encoded record yields the value it was made from.
///
/// This is the codec round-trip law. It holds for every well-formed value:
/// every text, every integer in the signed 64-bit range, and every JSON
/// payload in canonical form.
pub proof fn lemma_codec_round_trip(d: DataView)
    requires
        data_wf(d),
    ensures
        decode_data(encode_data(d)) == Some(d),
{
    let e = encode_data(d);
    match d {
        DataView::String(s) => {
            assert(e =~= seq!['+'] + s + crlf());
            assert(e[e.len() - 2] == '\r' && e[e.len() - 1] == '\n');
            assert(e.subrange(1, e.len() - 2) =~= s);
        },
        DataView::Int(i) => {
            let m = dec_int(i);
            assert(e =~= seq![':'] + m + crlf());
            assert(e[e.len() - 2] == '\r' && e[e.len() - 1] == '\n');
            assert(e.subrange(1, e.len() - 2) =~= m);
            lemma_parse_dec_int(i);
        },
        DataView::Json(j) => {
            assert(e =~= seq!['?'] + j + crlf());
            assert(e[e.len() - 2] == '\r' && e[e.len() - 1] == '\n');
            assert(e.subrange(1, e.len() - 2) =~= j);
        },
    }
}

/// Parses a signed 64-bit decimal: an optional sign, then digits.
fn parse_i64(s: &str) -> (r: Result<i64, Error>)
    ensures
        parse_i64_spec(s@) matches Some(v) ==> (r matches Ok(x) && x as int == v),
        parse_i64_spec(s@) is None ==> (r matches Err(e) && e.kind
            == ErrorKind::InvalidSerializedString),
{
    let n = s.unicode_len();
    let mut i: usize = 0;
    let mut neg: bool = false;
    if n > 0 {
        let c0 = s.get_char(0);
        if c0 == '-' {
            neg = true;
            i = 1;
        } else if c0 == '+' {
            i = 1;
        }
    }
    if i == n {
        return Err(Error::new(ErrorKind::InvalidSerializedString));
    }
    let ghost ds = if s@.len() > 0 && (s@[0] == '-' || s@[0] == '+') {
        s@.skip(1)
    } else {
        s@
    };
    proof {
        assert(ds =~= s@.subrange(i as int, n as int));
    }
    let limit: u64 = if neg {
        9223372036854775808
    } else {
        9223372036854775807
    };
    let mut acc: u64 = 0;
    let mut j: usize = i;
    while j < n
        invariant
            i <= j <= n,
            i < n,
            n == s@.len(),
            neg <==> (s@.len() > 0 && s@[0] == '-'),
            i == if s@.len() > 0 && (s@[0] == '-' || s@[0] == '+') {
                1int
            } else {
                0int
            },
            ds == s@.subrange(i as int, n as int),
            all_digits(s@.subrange(i as int, j as int)),
            acc as int == dec_digits_val(s@.subrange(i as int, j as int)),
            acc <= limit,
            limit == if neg {
                9223372036854775808u64
            } else {
                9223372036854775807u64
            },
        decreases n - j,
    {
        let c = s.get_char(j);
        let cu = c as u32;
        if cu < 48 || cu > 57 {
            proof {
                assert(!is_digit(ds[j - i]));
                assert(!all_digits(ds));
                assert(parse_i64_spec(s@) is None);
            }
            return Err(Error::new(ErrorKind::InvalidSerializedString));
        }
        let d = (cu - 48) as u64;
        proof {
            vstd::arithmetic::div_mod::lemma_fundamental_div_mod((limit - d) as int, 10);
        }
        if acc > (limit - d) / 10 {
            proof {
                vstd::arithmetic::div_mod::lemma_mod_bound((limit - d) as int, 10);
                assert(acc * 10 + d > limit);
                if all_digits(ds) {
                    let pre = s@.subrange(i as int, j + 1 as int);
                    assert(pre.drop_last() =~= s@.subrange(i as int, j as int));
                    assert(pre.last() == s@[j as int]);
                    assert(dec_digits_val(pre) == acc * 10 + d);
                    assert(pre =~= ds.take(j + 1 - i));
                    lemma_dec_val_prefix_le(ds, j + 1 - i);
                    assert(dec_digits_val(ds) > limit);
                    if neg {
                        assert(s@[0] == '-');
                        assert(-dec_digits_val(ds) < i64::MIN);
                    } else {
                        assert(dec_digits_val(ds) > i64::MAX);
                    }
                }
                assert(parse_i64_spec(s@) is None) by {
                    let ds2 = if s@.len() > 0 && (s@[0] == '-' || s@[0] == '+') {
                        s@.skip(1)
                    } else {
                        s@
                    };
                    assert(ds2 == ds);
                    if ds.len() == 0 || !all_digits(ds) {
                    } else {
                        let m = dec_digits_val(ds);
                        let v: int = if s@.len() > 0 && s@[0] == '-' {
                            -m
                        } else {
                            m
                        };
                        assert(m > limit);
                        if neg {
                            assert(v == -m);
                            assert(v < i64::MIN);
                        } else {
                            assert(v == m);
                            assert(v > i64::MAX);
                        }
                        assert(!(i64::MIN <= v <= i64::MAX));
                    }
                };
            }
            return Err(Error::new(ErrorKind::InvalidSerializedString));
        }
        proof {
            vstd::arithmetic::div_mod::lemma_mod_bound((limit - d) as int, 10);
            assert(acc * 10 + d <= limit);
            let pre = s@.subrange(i as int, j + 1 as int);
            assert(pre.drop_last() =~= s@.subrange(i as int, j as int));
            assert(pre.last() == s@[j as int]);
        }
        acc = acc * 10 + d;
        j += 1;
    }
    proof {
        assert(s@.subrange(i as int, n as int) =~= ds);
        assert(all_digits(ds));
        assert(acc as int == dec_digits_val(ds));
        assert(ds.len() > 0);
        if neg {
            assert(s@[0] == '-');
            assert(parse_i64_spec(s@) == Some(-dec_digits_val(ds)));
        } else {
            assert(parse_i64_spec(s@) == Some(dec_digits_val(ds)));
        }
    }
    let v: i64 = if neg {
        if acc == 9223372036854775808 {
            i64::MIN
        } else {
            -(acc as i64)
        }
    } else {
        acc as i64
    };
    Ok(v)
}

/// The error kind that a failed decode reports: a well-framed JSON record
/// whose payload does not parse is a JSON error; every other malformation
/// is an invalid serialized string.
pub open spec fn decode_err_kind(s: Seq<char>) -> ErrorKind {
    if s.len() >= 2 && s[s.len() - 2] == '\r' && s[s.len() - 1] == '\n' && s[0] == '?' {
        ErrorKind::JsonParseError
    } else {
        ErrorKind::InvalidSerializedString
    }
}

impl Data {
    /// Deserializes one record produced by `into_string`.
    pub fn try_from(string: String) -> (r: Result<Data, Error>)
        ensures
            decode_data(string@) matches Some(d) ==> (r matches Ok(v) && v@ == d && v.wf()),
            decode_data(string@) is None ==> (r matches Err(e) && e.kind == decode_err_kind(
                string@,
            )),
    {
        let s = string.as_str();
        let n = s.unicode_len();
        if n < 2 {
            return Err(Error::new(ErrorKind::InvalidSerializedString));
        }
        if s.get_char(n - 2) != '\r' || s.get_char(n - 1) != '\n' {
            return Err(Error::new(ErrorKind::InvalidSerializedString));
        }
        let tag = s.get_char(0);
        proof {
            if n == 2 {
                assert(s@[0] == '\r');
            }
        }
        if tag == '+' {
            let mid = s.substring_char(1, n - 2);
            Ok(Data::String(mid.to_owned()))
        } else if tag == ':' {
            let mid = s.substring_char(1, n - 2);
            match parse_i64(mid) {
                Ok(v) => Ok(Data::Int(v)),
                Err(e) => Err(e),
            }
        } else if tag == '?' {
            let mid = s.substring_char(1, n - 2);
            match canonicalize_json(mid) {
                Some(c) => Ok(Data::Json(c)),
                None => Err(Error::new(ErrorKind::JsonParseError)),
            }
        } else {
            Err(Error::new(ErrorKind::InvalidSerializedString))
        }
    }

    /// Serializes this value to its record: tag, payload, CRLF.
    pub fn into_string(self) -> (r: String)
        ensures
            r@ == encode_data(self@),
    {
        let ghost dv = self@;
        let mut out = String::new();
        match self {
            Data::String(s) => {
                out.push('+');
                out.append(s.as_str());
            },
            Data::Int(i) => {
                out.push(':');
                push_dec_i64(i, &mut out);
            },
            Data::Json(j) => {
                out.push('?');
                out.append(j.as_str());
            },
        }
        out.push('\r');
        out.push('\n');
        assert(out@ =~= encode_data(dv));
        out
    }
}

} // verus!
