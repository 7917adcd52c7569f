//! Parameter sets written down as JSON.
use crate::arith::log2_ceil;
use crate::params::{
    degree_log2, described_by, params_from_fields, DEFAULT_NOISE_WIDTH_E8, DEFAULT_POLY_LEN,
    MODULUS_0, MODULUS_1, Params, ParamsFields,
};
use crate::text::{decimal, decimal_reads_back};
use vstd::prelude::*;
use vstd::string::*;

verus! {

/// Whether a text is JSON.
pub uninterp spec fn json_valid(text: Seq<char>) -> bool;

/// The field of a JSON object, where it is a whole number of 64 bits.
pub uninterp spec fn json_u64(text: Seq<char>, key: Seq<char>) -> Option<u64>;

/// The compact text of the value of a field of a JSON object, where there is
/// such a field.
pub uninterp spec fn json_text(text: Seq<char>, key: Seq<char>) -> Option<Seq<char>>;

/// The compact texts of the items of a field of a JSON object, where it is a
/// list.
pub uninterp spec fn json_items(text: Seq<char>, key: Seq<char>) -> Option<Seq<Seq<char>>>;

/// The view of a text that may be missing.
pub open spec fn text_view(s: Option<String>) -> Option<Seq<char>> {
    match s {
        Some(t) => Some(t@),
        None => None,
    }
}

/// The view of a list of texts that may be missing.
pub open spec fn texts_view(s: Option<Vec<String>>) -> Option<Seq<Seq<char>>> {
    match s {
        Some(v) => Some(v@.map_values(|t: String| t@)),
        None => None,
    }
}

/// `serde_json::from_str` into a `Value`: whether it succeeds.
#[verifier::external_body]
fn is_json(text: &str) -> (r: bool)
    ensures
        r == json_valid(text@),
{
    let v: Result<serde_json::Value, serde_json::Error> = serde_json::from_str(text);
    v.is_ok()
}

/// `Value::as_u64` of the field `key` of a parsed text, and nothing where the
/// text is not JSON.
#[verifier::external_body]
fn u64_field(text: &str, key: &str) -> (r: Option<u64>)
    ensures
        r == json_u64(text@, key@),
{
    let v: serde_json::Value = serde_json::from_str(text).ok()?;
    v[key].as_u64()
}

/// `Value::get` of the field `key` of a parsed text, written back by `Display`,
/// and nothing where the text is not JSON.
#[verifier::external_body]
fn text_field(text: &str, key: &str) -> (r: Option<String>)
    ensures
        text_view(r) == json_text(text@, key@),
{
    let v: serde_json::Value = serde_json::from_str(text).ok()?;
    v.get(key).map(ToString::to_string)
}

/// `Value::as_array` of the field `key` of a parsed text, each item written back
/// by `Display`, and nothing where the text is not JSON.
#[verifier::external_body]
fn list_field(text: &str, key: &str) -> (r: Option<Vec<String>>)
    ensures
        texts_view(r) == json_items(text@, key@),
{
    let v: serde_json::Value = serde_json::from_str(text).ok()?;
    v[key].as_array().map(|x| x.iter().map(ToString::to_string).collect())
}

/// A decimal digit.
pub open spec fn is_digit(c: char) -> bool {
    '0' <= c && c <= '9'
}

/// One or more decimal digits.
pub open spec fn are_digits(s: Seq<char>) -> bool {
    s.len() > 0 && forall|i: int| 0 <= i < s.len() ==> is_digit(#[trigger] s[i])
}

/// The number that decimal digits write.
pub open spec fn digits_value(s: Seq<char>) -> int
    decreases s.len(),
{
    if s.len() == 0 {
        0
    } else {
        10 * digits_value(s.drop_last()) + (s.last() as int - '0' as int)
    }
}

/// A longer number is no smaller.
proof fn lemma_digits_grow(s: Seq<char>, k: int)
    requires
        0 <= k <= s.len(),
        forall|i: int| 0 <= i < s.len() ==> is_digit(#[trigger] s[i]),
    ensures
        0 <= digits_value(s.take(k)) <= digits_value(s),
    decreases s.len(),
{
    if s.len() > 0 {
        let t = s.drop_last();
        if k < s.len() {
            assert(t.take(k) =~= s.take(k));
            lemma_digits_grow(t, k);
        } else {
            assert(s.take(k) =~= s);
            assert(t.take(t.len() as int) =~= t);
            lemma_digits_grow(t, t.len() as int);
        }
        assert(is_digit(s[s.len() - 1]));
    }
}

/// The largest number that is read.
pub const MAX_NUMBER: u64 = 1_000_000_000_000_000_000;

/// The number that characters `from` to `to` write in decimal, unless they are
/// not all digits or the number is over the largest that is read.
fn read_digits(text: &str, from: usize, to: usize) -> (r: Option<u64>)
    requires
        from <= to <= text@.len(),
    ensures
        r == if are_digits(text@.subrange(from as int, to as int)) && digits_value(
            text@.subrange(from as int, to as int),
        ) <= MAX_NUMBER {
            Some(digits_value(text@.subrange(from as int, to as int)) as u64)
        } else {
            None
        },
{
    let ghost s = text@.subrange(from as int, to as int);
    if from == to {
        return None;
    }
    let mut acc: u64 = 0;
    let mut i: usize = from;
    assert(s.take(0) =~= Seq::empty());
    while i < to
        invariant
            from <= i <= to,
            to <= text@.len(),
            s == text@.subrange(from as int, to as int),
            forall|k: int| 0 <= k < i - from ==> is_digit(#[trigger] s[k]),
            acc == digits_value(s.take(i - from)),
            acc <= MAX_NUMBER,
        decreases to - i,
    {
        let c: char = text.get_char(i);
        assert(c == s[i - from]);
        if c < '0' || '9' < c {
            return None;
        }
        proof {
            let t = s.take(i + 1 - from);
            assert(t.drop_last() =~= s.take(i - from));
            assert(t.last() == c);
        }
        acc = 10 * acc + (c as u64 - '0' as u64);
        i = i + 1;
        if acc > MAX_NUMBER {
            proof {
                if are_digits(s) {
                    lemma_digits_grow(s, i - from);
                }
            }
            return None;
        }
    }
    assert(s.take(to - from) =~= s);
    Some(acc)
}

/// The whole number that the text of a JSON value stands for: digits, in
/// quotation marks or not.
pub open spec fn item_value(s: Seq<char>) -> Option<u64> {
    let inner = if s.len() >= 2 && s[0] == '"' && s.last() == '"' {
        s.subrange(1, s.len() - 1)
    } else {
        s
    };
    if are_digits(inner) && digits_value(inner) <= MAX_NUMBER {
        Some(digits_value(inner) as u64)
    } else {
        None
    }
}

/// Reads a whole number, in quotation marks or not.
fn read_item(text: &str) -> (r: Option<u64>)
    ensures
        r == item_value(text@),
{
    let len: usize = text.unicode_len();
    if len >= 2 {
        let first: char = text.get_char(0);
        let last: char = text.get_char(len - 1);
        if first == '"' && last == '"' {
            return read_digits(text, 1, len - 1);
        }
    }
    assert(text@.subrange(0, len as int) =~= text@);
    read_digits(text, 0, len)
}

/// Where the first decimal point of a text is from `i` on, or its end.
pub open spec fn point_from(s: Seq<char>, i: int) -> int
    decreases s.len() - i,
{
    if i >= s.len() || s[i] == '.' {
        i
    } else {
        point_from(s, i + 1)
    }
}

/// Ten to the `k`.
pub open spec fn pow10(k: int) -> int
    decreases k,
{
    if k <= 0 {
        1
    } else {
        10 * pow10(k - 1)
    }
}

/// The number in units of 10^-8 that a text writes with at most eight decimals.
pub open spec fn width_value(s: Seq<char>) -> Option<int> {
    let point = point_from(s, 0);
    let whole = s.subrange(0, point);
    if !are_digits(whole) {
        None
    } else if point == s.len() {
        Some(digits_value(whole) * 100_000_000)
    } else {
        let rest = s.subrange(point + 1, s.len() as int);
        if are_digits(rest) && rest.len() <= 8 {
            Some(digits_value(whole) * 100_000_000 + digits_value(rest) * pow10(8 - rest.len()))
        } else {
            None
        }
    }
}

/// Digits write less than ten to their number.
proof fn lemma_digits_bound(s: Seq<char>)
    requires
        forall|i: int| 0 <= i < s.len() ==> is_digit(#[trigger] s[i]),
    ensures
        0 <= digits_value(s) < pow10(s.len() as int),
    decreases s.len(),
{
    if s.len() > 0 {
        lemma_digits_bound(s.drop_last());
        assert(is_digit(s[s.len() - 1]));
    }
}

/// Ten to the `a + b` is the product of the two powers.
proof fn lemma_pow10_adds(a: int, b: int)
    requires
        0 <= a,
        0 <= b,
    ensures
        pow10(a) * pow10(b) == pow10(a + b),
        pow10(a) >= 1,
    decreases a,
{
    if a > 0 {
        lemma_pow10_adds(a - 1, b);
        let (x, y) = (pow10(a - 1), pow10(b));
        assert(10 * x * y == 10 * (x * y)) by (nonlinear_arith);
    } else {
        assert(1 * pow10(b) == pow10(b));
    }
}

/// Reads a number with at most eight decimals, in units of 10^-8, unless it is
/// over the largest that is read.
fn read_width(text: &str) -> (r: Option<u64>)
    ensures
        r == match width_value(text@) {
            Some(v) => if v <= MAX_NUMBER {
                Some(v as u64)
            } else {
                None
            },
            None => None,
        },
{
    let len: usize = text.unicode_len();
    let mut point: usize = 0;
    while point < len && text.get_char(point) != '.'
        invariant
            len == text@.len(),
            point <= len,
            point_from(text@, 0) == point_from(text@, point as int),
        decreases len - point,
    {
        point = point + 1;
    }
    assert(point_from(text@, 0) == point);
    let ghost w = text@.subrange(0, point as int);
    let whole: u64 = match read_digits(text, 0, point) {
        Some(v) => v,
        None => {
            proof {
                if point < len {
                    let rest = text@.subrange(point + 1, len as int);
                    if are_digits(rest) && rest.len() <= 8 {
                        lemma_digits_bound(rest);
                        lemma_pow10_adds(8 - rest.len(), 0);
                        assert(digits_value(rest) * pow10(8 - rest.len()) >= 0)
                            by (nonlinear_arith)
                            requires
                                digits_value(rest) >= 0,
                                pow10(8 - rest.len()) >= 1,
                        ;
                    }
                }
            }
            return None;
        },
    };
    proof {
        lemma_digits_bound(w);
    }
    if point == len {
        if whole > 10_000_000_000 {
            return None;
        }
        return Some(whole * 100_000_000);
    }
    let decimals: usize = len - point - 1;
    if decimals > 8 {
        return None;
    }
    let ghost rest = text@.subrange(point + 1, len as int);
    proof {
        if are_digits(rest) {
            lemma_digits_bound(rest);
            lemma_pow10_adds(rest.len() as int, 8 - rest.len());
            lemma_pow10_adds(8 - rest.len(), 0);
            assert(pow10(8) == 100_000_000) by {
                reveal_with_fuel(pow10, 10);
            }
            let (x, y, z) = (
                digits_value(rest),
                pow10(8 - rest.len()),
                pow10(rest.len() as int),
            );
            assert(0 <= x <= x * y < 100_000_000) by (nonlinear_arith)
                requires
                    0 <= x < z,
                    y >= 1,
                    z * y == 100_000_000,
            ;
        }
    }
    let frac: u64 = match read_digits(text, point + 1, len) {
        Some(v) => v,
        None => {
            return None;
        },
    };
    assert(width_value(text@) == Some(
        whole * 100_000_000 + digits_value(rest) * pow10(8 - rest.len()),
    ));
    if whole > 10_000_000_000 {
        return None;
    }
    assert(frac * pow10(0) == frac) by {
        assert(pow10(0) == 1);
    }
    let mut scaled: u64 = frac;
    let mut k: usize = decimals;
    while k < 8
        invariant
            decimals <= k <= 8,
            rest.len() == decimals,
            are_digits(rest),
            frac == digits_value(rest),
            scaled == frac * pow10(k - decimals),
            frac * pow10(8 - decimals) < 100_000_000,
        decreases 8 - k,
    {
        proof {
            lemma_pow10_adds(k + 1 - decimals, 8 - k - 1);
            lemma_pow10_adds(8 - k - 1, 0);
            let (x, y, z) = (frac as int, pow10(k + 1 - decimals), pow10(8 - k - 1));
            assert(x * y <= x * (y * z)) by (nonlinear_arith)
                requires
                    0 <= x,
                    y >= 1,
                    z >= 1,
            ;
            let p = pow10(k - decimals);
            assert(x * (10 * p) == 10 * (x * p)) by (nonlinear_arith);
        }
        scaled = 10 * scaled;
        k = k + 1;
    }
    let v: u64 = whole * 100_000_000 + scaled;
    if v > MAX_NUMBER {
        None
    } else {
        Some(v)
    }
}

/// The fields of a parameter set as a JSON text names them.
pub struct JsonFields {
    pub n: Option<u64>,
    pub nu_1: Option<u64>,
    pub nu_2: Option<u64>,
    pub instances: Option<u64>,
    pub p: Option<u64>,
    pub q2_bits: Option<u64>,
    pub t_gsw: Option<u64>,
    pub t_conv: Option<u64>,
    pub t_exp_left: Option<u64>,
    pub t_exp_right: Option<u64>,
    pub direct_upload: Option<String>,
    pub poly_len: Option<u64>,
    pub db_item_size: Option<u64>,
    pub version: Option<u64>,
    pub moduli: Option<Vec<String>>,
    pub noise_width: Option<String>,
}

/// The fields are those of a text.
pub open spec fn fields_of(f: JsonFields, text: Seq<char>) -> bool {
    &&& f.n == json_u64(text, "n"@)
    &&& f.nu_1 == json_u64(text, "nu_1"@)
    &&& f.nu_2 == json_u64(text, "nu_2"@)
    &&& f.instances == json_u64(text, "instances"@)
    &&& f.p == json_u64(text, "p"@)
    &&& f.q2_bits == json_u64(text, "q2_bits"@)
    &&& f.t_gsw == json_u64(text, "t_gsw"@)
    &&& f.t_conv == json_u64(text, "t_conv"@)
    &&& f.t_exp_left == json_u64(text, "t_exp_left"@)
    &&& f.t_exp_right == json_u64(text, "t_exp_right"@)
    &&& text_view(f.direct_upload) == json_text(text, "direct_upload"@)
    &&& f.poly_len == json_u64(text, "poly_len"@)
    &&& f.db_item_size == json_u64(text, "db_item_size"@)
    &&& f.version == json_u64(text, "version"@)
    &&& texts_view(f.moduli) == json_items(text, "moduli"@)
    &&& text_view(f.noise_width) == json_text(text, "noise_width"@)
}

/// Picks the fields out of a text.
pub fn json_fields(text: &str) -> (r: JsonFields)
    ensures
        fields_of(r, text@),
{
    JsonFields {
        n: u64_field(text, "n"),
        nu_1: u64_field(text, "nu_1"),
        nu_2: u64_field(text, "nu_2"),
        instances: u64_field(text, "instances"),
        p: u64_field(text, "p"),
        q2_bits: u64_field(text, "q2_bits"),
        t_gsw: u64_field(text, "t_gsw"),
        t_conv: u64_field(text, "t_conv"),
        t_exp_left: u64_field(text, "t_exp_left"),
        t_exp_right: u64_field(text, "t_exp_right"),
        direct_upload: text_field(text, "direct_upload"),
        poly_len: u64_field(text, "poly_len"),
        db_item_size: u64_field(text, "db_item_size"),
        version: u64_field(text, "version"),
        moduli: list_field(text, "moduli"),
        noise_width: text_field(text, "noise_width"),
    }
}

/// The value of a field that fits a `usize`.
pub open spec fn small(x: Option<u64>) -> Option<usize> {
    match x {
        Some(v) => if v <= usize::MAX {
            Some(v as usize)
        } else {
            None
        },
        None => None,
    }
}

/// The value of a field, unless it does not fit a `usize`.
fn to_usize(x: Option<u64>) -> (r: Option<usize>)
    ensures
        r == small(x),
{
    match x {
        Some(v) => if v <= usize::MAX as u64 {
            Some(v as usize)
        } else {
            None
        },
        None => None,
    }
}

/// The moduli are the ones of the ring, or none are named.
pub open spec fn moduli_supported(moduli: Option<Vec<String>>) -> bool {
    moduli matches Some(v) ==> v@.len() == 2 && item_value(v@[0]@) == Some(MODULUS_0)
        && item_value(v@[1]@) == Some(MODULUS_1)
}

/// The width of the noise that a text names, in units of 10^-8. The text of a
/// value that is no number names the default, that of a negative number none.
pub open spec fn named_width(text: Option<String>) -> Option<int> {
    match text {
        Some(t) => if t@.len() > 0 && (is_digit(t@[0]) || t@[0] == '-') {
            width_value(t@)
        } else {
            Some(DEFAULT_NOISE_WIDTH_E8 as int)
        },
        None => Some(DEFAULT_NOISE_WIDTH_E8 as int),
    }
}

/// The fields that must be there are there, each number fits, the moduli are
/// those of the ring, and the width of the noise can be read.
pub open spec fn fields_complete(f: JsonFields) -> bool {
    &&& small(f.n) is Some && small(f.nu_1) is Some && small(f.nu_2) is Some
    &&& f.p is Some && f.q2_bits is Some
    &&& small(f.t_gsw) is Some && small(f.t_conv) is Some
    &&& small(f.t_exp_left) is Some && small(f.t_exp_right) is Some
    &&& f.instances is Some ==> small(f.instances) is Some
    &&& f.poly_len is Some ==> small(f.poly_len) is Some
    &&& f.db_item_size is Some ==> small(f.db_item_size) is Some
    &&& f.version is Some ==> small(f.version) is Some
    &&& moduli_supported(f.moduli)
    &&& named_width(f.noise_width) matches Some(w) && w <= MAX_NUMBER
}

/// The fields of the parameter set.
pub open spec fn typed_fields(f: JsonFields) -> ParamsFields {
    ParamsFields {
        n: small(f.n).unwrap(),
        nu_1: small(f.nu_1).unwrap(),
        nu_2: small(f.nu_2).unwrap(),
        instances: small(f.instances),
        p: f.p.unwrap(),
        q2_bits: f.q2_bits.unwrap(),
        t_gsw: small(f.t_gsw).unwrap(),
        t_conv: small(f.t_conv).unwrap(),
        t_exp_left: small(f.t_exp_left).unwrap(),
        t_exp_right: small(f.t_exp_right).unwrap(),
        direct_upload: f.direct_upload is Some,
        poly_len: small(f.poly_len),
        db_item_size: small(f.db_item_size),
        version: small(f.version),
        noise_width_e8: Some(named_width(f.noise_width).unwrap() as u64),
    }
}

/// Whether no field is too large.
fn optional_fields_fit(f: &JsonFields) -> (r: bool)
    ensures
        r == {
            &&& f.instances is Some ==> small(f.instances) is Some
            &&& f.poly_len is Some ==> small(f.poly_len) is Some
            &&& f.db_item_size is Some ==> small(f.db_item_size) is Some
            &&& f.version is Some ==> small(f.version) is Some
        },
{
    (f.instances.is_none() || to_usize(f.instances).is_some()) && (f.poly_len.is_none()
        || to_usize(f.poly_len).is_some()) && (f.db_item_size.is_none() || to_usize(
        f.db_item_size,
    ).is_some()) && (f.version.is_none() || to_usize(f.version).is_some())
}

/// Whether the moduli are the ones of the ring, or none are named.
fn check_moduli(moduli: &Option<Vec<String>>) -> (r: bool)
    ensures
        r == moduli_supported(*moduli),
{
    match moduli {
        Some(v) => {
            if v.len() != 2 {
                return false;
            }
            let a: Option<u64> = read_item(v[0].as_str());
            let b: Option<u64> = read_item(v[1].as_str());
            match (a, b) {
                (Some(x), Some(y)) => x == MODULUS_0 && y == MODULUS_1,
                _ => false,
            }
        },
        None => true,
    }
}

/// The width of the noise, unless it cannot be read.
fn check_width(text: &Option<String>) -> (r: Option<u64>)
    ensures
        r == match named_width(*text) {
            Some(w) => if w <= MAX_NUMBER {
                Some(w as u64)
            } else {
                None
            },
            None => None,
        },
{
    match text {
        Some(t) => {
            let s: &str = t.as_str();
            if s.unicode_len() > 0 {
                let c: char = s.get_char(0);
                if '0' <= c && c <= '9' || c == '-' {
                    return read_width(s);
                }
            }
            Some(DEFAULT_NOISE_WIDTH_E8)
        },
        None => Some(DEFAULT_NOISE_WIDTH_E8),
    }
}

/// The fields of the parameter set, unless one is missing or cannot be read.
fn type_fields(f: &JsonFields) -> (r: Option<ParamsFields>)
    ensures
        r is Some <==> fields_complete(*f),
        r matches Some(t) ==> t == typed_fields(*f),
{
    if !optional_fields_fit(f) || !check_moduli(&f.moduli) {
        return None;
    }
    let width: u64 = check_width(&f.noise_width)?;
    Some(
        ParamsFields {
            n: to_usize(f.n)?,
            nu_1: to_usize(f.nu_1)?,
            nu_2: to_usize(f.nu_2)?,
            instances: to_usize(f.instances),
            p: f.p?,
            q2_bits: f.q2_bits?,
            t_gsw: to_usize(f.t_gsw)?,
            t_conv: to_usize(f.t_conv)?,
            t_exp_left: to_usize(f.t_exp_left)?,
            t_exp_right: to_usize(f.t_exp_right)?,
            direct_upload: f.direct_upload.is_some(),
            poly_len: to_usize(f.poly_len),
            db_item_size: to_usize(f.db_item_size),
            version: to_usize(f.version),
            noise_width_e8: Some(width),
        },
    )
}

/// Whether a parameter set can be built of the fields.
pub fn fields_valid(f: &ParamsFields) -> (r: bool)
    ensures
        r == f.valid(),
{
    let degree: usize = match f.poly_len {
        Some(v) => v,
        None => DEFAULT_POLY_LEN,
    };
    if degree_log2(degree).is_none() {
        return false;
    }
    match f.db_item_size {
        Some(v) => {
            if v != 0 {
                return true;
            }
        },
        None => {},
    }
    let instances: usize = match f.instances {
        Some(v) => v,
        None => 1,
    };
    let ghost (k, n, d) = (instances as int, f.n as int, degree as int);
    proof {
        assert(k * n * n * d <= usize::MAX ==> k * n <= usize::MAX && k * n * n <= usize::MAX)
            by (nonlinear_arith)
            requires
                k >= 0,
                n >= 0,
                d >= 1,
        {
            if n == 0 {
                assert(k * n == 0 && k * n * n == 0);
            } else {
                assert(k * n <= k * n * n && k * n * n <= k * n * n * d);
            }
        }
    }
    let a: usize = match instances.checked_mul(f.n) {
        Some(v) => v,
        None => {
            return false;
        },
    };
    let b: usize = match a.checked_mul(f.n) {
        Some(v) => v,
        None => {
            return false;
        },
    };
    match b.checked_mul(degree) {
        Some(words) => words.checked_mul(log2_ceil(f.p)).is_some(),
        None => false,
    }
}

/// Builds the parameter set that the fields of a JSON text describe, unless they
/// are not complete or describe none.
pub fn params_from_json_fields(f: &JsonFields) -> (r: Option<Params>)
    ensures
        r is Some <==> fields_complete(*f) && typed_fields(*f).valid(),
        r matches Some(params) ==> described_by(params, typed_fields(*f)),
{
    let t: ParamsFields = type_fields(f)?;
    if fields_valid(&t) {
        Some(params_from_fields(&t))
    } else {
        None
    }
}

/// Builds the parameter set that a JSON text describes, unless it is not JSON or
/// describes none. A set has the two primes of the ring, a degree for which both
/// have roots of unity, and a width of the noise with at most eight decimals.
pub fn ext_params_from_json(json_str: &str) -> (r: Option<Params>)
    ensures
        exists|f: JsonFields|
            #[trigger] fields_of(f, json_str@) && (r is Some <==> json_valid(json_str@)
                && fields_complete(f) && typed_fields(f).valid()) && (r matches Some(params)
                ==> described_by(params, typed_fields(f))),
        r matches Some(params) ==> {
            &&& json_u64(json_str@, "n"@) == Some(params.n as u64)
            &&& json_u64(json_str@, "nu_1"@) == Some(params.db_dim_1 as u64)
            &&& json_u64(json_str@, "nu_2"@) == Some(params.db_dim_2 as u64)
            &&& json_u64(json_str@, "p"@) == Some(params.pt_modulus)
            &&& json_u64(json_str@, "t_gsw"@) == Some(params.t_gsw as u64)
            &&& json_u64(json_str@, "t_conv"@) == Some(params.t_conv as u64)
            &&& json_u64(json_str@, "t_exp_left"@) == Some(params.t_exp_left as u64)
            &&& json_u64(json_str@, "t_exp_right"@) == Some(params.t_exp_right as u64)
            &&& params.poly_len == json_u64(json_str@, "poly_len"@).unwrap_or(2048)
            &&& params.instances == json_u64(json_str@, "instances"@).unwrap_or(1)
            &&& params.version == json_u64(json_str@, "version"@).unwrap_or(0)
            &&& json_items(json_str@, "moduli"@) matches Some(m) ==> m.len() == 2 && item_value(m[0])
                == Some(268369921u64) && item_value(m[1]) == Some(249561089u64)
            &&& params.expand_queries == (json_text(json_str@, "direct_upload"@) is None)
            &&& json_u64(json_str@, "q2_bits"@) matches Some(b) && params.q2_bits == if b < 14 {
                14
            } else {
                b
            }
        },
{
    let f: JsonFields = json_fields(json_str);
    assert(fields_of(f, json_str@));
    if !is_json(json_str) {
        return None;
    }
    params_from_json_fields(&f)
}

/// A number in decimal, in quotation marks or not, is read as that number.
pub proof fn decimal_items_are_read(v: u64)
    requires
        v <= 1_000_000_000_000_000_000,
    ensures
        item_value(decimal(v as nat)) == Some(v),
        item_value(seq!['"'] + decimal(v as nat) + seq!['"']) == Some(v),
{
    decimal_reads_back(v as nat);
    let d = decimal(v as nat);
    assert(is_digit(d[0]));
    let quoted = seq!['"'] + d + seq!['"'];
    assert(quoted.subrange(1, quoted.len() - 1) =~= d);
}

/// A width of the noise without decimals, and one with `k` of them, is read as the
/// number that it writes, in units of 10^-8.
pub proof fn decimal_widths_are_read(a: nat, frac: Seq<char>)
    requires
        are_digits(frac),
        frac.len() <= 8,
    ensures
        width_value(decimal(a)) == Some(a as int * 100_000_000),
        width_value(decimal(a) + seq!['.'] + frac) == Some(
            a * 100_000_000 + digits_value(frac) * pow10(8 - frac.len()),
        ),
{
    decimal_reads_back(a);
    let d = decimal(a);
    lemma_no_point(d, d, 0);
    assert(d.subrange(0, d.len() as int) =~= d);
    let s = d + seq!['.'] + frac;
    lemma_no_point(s, d, 0);
    assert(s[d.len() as int] == '.');
    assert(s.subrange(0, d.len() as int) =~= d);
    assert(s.subrange(d.len() as int + 1, s.len() as int) =~= frac);
}

/// There is no point among the digits that a text starts with.
proof fn lemma_no_point(s: Seq<char>, d: Seq<char>, i: int)
    requires
        are_digits(d),
        d.len() <= s.len(),
        s.len() == d.len() || s[d.len() as int] == '.',
        forall|k: int| 0 <= k < d.len() ==> #[trigger] s[k] == d[k],
        0 <= i <= d.len(),
    ensures
        point_from(s, i) == d.len(),
    decreases d.len() - i,
{
    if i < d.len() {
        assert(is_digit(d[i]));
        assert(s[i] == d[i]);
        lemma_no_point(s, d, i + 1);
    }
}

} // verus!
