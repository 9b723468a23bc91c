//! The field and name grammars: recognizers for a single field specification
//! (scalar or array) and for the `T`/`R` name token. Each recognizer either
//! consumes an exact prefix of the input and returns what it parsed, or fails
//! and leaves the cursor unchanged.

use vstd::prelude::*;

use crate::text::digit_run;
use crate::text::digit_run_x;
use crate::text::digit_val;
use crate::text::digit_val_x;
use crate::text::digits_val;
use crate::text::find_char;
use crate::text::find_char_x;
use crate::text::is_digit;
use crate::text::lemma_digits_val_bounds;
use crate::text::lemma_digits_val_mono;
use crate::text::lower_run;
use crate::text::lower_run_x;
use crate::text::sfx;
use crate::text::skip_ws;
use crate::text::skip_ws_x;
use crate::text::string_from_range;
use crate::types::Field;
use crate::types::FieldType;
use crate::types::FieldView;
use crate::types::MessageType;

verus! {

/// The field type denoted by a grammar size-code token, if any.
pub open spec fn code_to_type(code: Seq<char>) -> Option<FieldType> {
    if code.len() == 1 {
        match code[0] {
            '1' => Some(FieldType::U8),
            '2' => Some(FieldType::U16),
            '4' => Some(FieldType::U32),
            '8' => Some(FieldType::U64),
            'n' => Some(FieldType::Stat),
            's' => Some(FieldType::String),
            _ => None,
        }
    } else if code.len() == 2 && code[0] == '1' && code[1] == '3' {
        Some(FieldType::QID)
    } else if code.len() == 5 && code[0] == 'c' && code[1] == 'o' && code[2] == 'u' && code[3]
        == 'n' && code[4] == 't' {
        Some(FieldType::Bytes)
    } else {
        None
    }
}

/// Recognize a scalar field at the head of `s`: a lowercase name, optional
/// whitespace, and a bracketed size code. On success, the field and the
/// remainder after the consumed text (with its leading whitespace taken).
pub open spec fn parse_scalar(s: Seq<char>) -> Option<(FieldView, Seq<char>)> {
    let s1 = skip_ws(s);
    let n = lower_run(s1);
    if n <= 0 || n > s1.len() {
        None
    } else {
        let name = s1.take(n);
        let s2 = skip_ws(s1.skip(n));
        if s2.len() == 0 || s2[0] != '[' {
            None
        } else {
            let s3 = s2.drop_first();
            let k = find_char(s3, ']');
            if k < 0 || k >= s3.len() {
                None
            } else {
                match code_to_type(s3.take(k)) {
                    Some(t) => Some(
                        (
                            FieldView { name, times: None, field_type: t },
                            skip_ws(s3.skip(k + 1)),
                        ),
                    ),
                    None => None,
                }
            }
        }
    }
}

/// Recognize a field at the head of `s`: first a scalar field, and if that
/// fails an array field `name*(inner)`, whose inner text up to the first `)`
/// is itself given to the field grammar; the inner field's repetition marker
/// is overwritten with the outer name.
pub open spec fn parse_field_s(s: Seq<char>) -> Option<(FieldView, Seq<char>)>
    decreases s.len(),
{
    match parse_scalar(s) {
        Some(r) => Some(r),
        None => {
            let s1 = skip_ws(s);
            let n = lower_run(s1);
            if n <= 0 || n > s1.len() {
                None
            } else {
                let times = s1.take(n);
                let s2 = skip_ws(s1.skip(n));
                if s2.len() == 0 || s2[0] != '*' {
                    None
                } else {
                    let s3 = skip_ws(s2.drop_first());
                    if s3.len() == 0 || s3[0] != '(' {
                        None
                    } else {
                        let s4 = s3.drop_first();
                        let k = find_char(s4, ')');
                        if k < 0 || k >= s4.len() || k >= s.len() {
                            None
                        } else {
                            match parse_field_s(s4.take(k)) {
                                Some((f, _)) => Some(
                                    (
                                        FieldView {
                                            name: f.name,
                                            times: Some(times),
                                            field_type: f.field_type,
                                        },
                                        skip_ws(s4.skip(k + 1)),
                                    ),
                                ),
                                None => None,
                            }
                        }
                    }
                }
            }
        },
    }
}

/// Recognize the name token at the head of `s`: `T` or `R`, a lowercase name,
/// a colon, and a positive decimal number without leading zeros that fits in
/// eight bits. A number out of that range is rejected here.
pub open spec fn parse_name_s(s: Seq<char>) -> Option<(MessageType, Seq<char>, u8, Seq<char>)> {
    let s1 = skip_ws(s);
    if s1.len() == 0 || (s1[0] != 'T' && s1[0] != 'R') {
        None
    } else {
        let mt = if s1[0] == 'T' {
            MessageType::Request
        } else {
            MessageType::Response
        };
        let s2 = s1.drop_first();
        let n = lower_run(s2);
        if n <= 0 || n > s2.len() {
            None
        } else {
            let name = s2.take(n);
            let s3 = skip_ws(s2.skip(n));
            if s3.len() == 0 || s3[0] != ':' {
                None
            } else {
                let s4 = skip_ws(s3.drop_first());
                let d = digit_run(s4);
                if d <= 0 || d > s4.len() || digit_val(s4[0]) == 0 {
                    None
                } else {
                    let num = digits_val(s4.take(d));
                    if num > 255 {
                        None
                    } else {
                        Some((mt, name, num as u8, skip_ws(s4.skip(d))))
                    }
                }
            }
        }
    }
}

/// The size-code characters between positions `from` and `to`, as a type.
fn code_to_type_x(v: &Vec<char>, from: usize, to: usize) -> (r: Option<FieldType>)
    requires
        from <= to <= v.len(),
    ensures
        r == code_to_type(v@.subrange(from as int, to as int)),
{
    let len = to - from;
    if len == 1 {
        match v[from] {
            '1' => Some(FieldType::U8),
            '2' => Some(FieldType::U16),
            '4' => Some(FieldType::U32),
            '8' => Some(FieldType::U64),
            'n' => Some(FieldType::Stat),
            's' => Some(FieldType::String),
            _ => None,
        }
    } else if len == 2 && v[from] == '1' && v[from + 1] == '3' {
        Some(FieldType::QID)
    } else if len == 5 && v[from] == 'c' && v[from + 1] == 'o' && v[from + 2] == 'u' && v[from + 3]
        == 'n' && v[from + 4] == 't' {
        Some(FieldType::Bytes)
    } else {
        None
    }
}

/// Recognize a field starting at position `i` of `v`. On success the returned
/// cursor has passed the consumed text; on failure it equals `i`.
pub fn parse_field(v: &Vec<char>, i: usize) -> (r: (usize, Option<Field>))
    requires
        i <= v.len(),
    ensures
        ({
            let (j, of) = r;
            match of {
                Some(f) => i <= j <= v.len() && match parse_field_s(sfx(v@, i as int)) {
                    Some(p) => p.0 == f@ && p.1 == sfx(v@, j as int),
                    None => false,
                },
                None => j == i && parse_field_s(sfx(v@, i as int)) is None,
            }
        }),
    decreases v.len() - i,
{
    let ghost s = sfx(v@, i as int);
    let s1i = skip_ws_x(v, i);
    let ne = lower_run_x(v, s1i);
    proof {
        assert(sfx(v@, s1i as int).take(ne - s1i) =~= v@.subrange(s1i as int, ne as int));
        assert(sfx(v@, s1i as int).skip(ne - s1i) =~= sfx(v@, ne as int));
    }
    if ne == s1i {
        return (i, None);
    }
    let s2i = skip_ws_x(v, ne);
    proof {
        assert(sfx(v@, s2i as int).len() == v@.len() - s2i);
        if s2i < v.len() {
            assert(sfx(v@, s2i as int)[0] == v@[s2i as int]);
        }
    }
    if s2i < v.len() && v[s2i] == '[' {
        // scalar candidate
        proof {
            assert(sfx(v@, s2i as int).drop_first() =~= sfx(v@, s2i + 1));
        }
        if let Some(p) = find_char_x(v, s2i + 1, ']') {
            proof {
                assert(sfx(v@, s2i + 1).take(p - (s2i + 1)) =~= v@.subrange(s2i + 1, p as int));
                assert(sfx(v@, s2i + 1).skip(p - (s2i + 1) + 1) =~= sfx(v@, p + 1));
            }
            if let Some(t) = code_to_type_x(v, s2i + 1, p) {
                let j = skip_ws_x(v, p + 1);
                let name = string_from_range(v, s1i, ne);
                return (j, Some(Field { name, times: None, field_type: t }));
            }
        }
    }
    // the scalar grammar does not match at i
    assert(parse_scalar(s) is None);
    if s2i < v.len() && v[s2i] == '*' {
        proof {
            assert(sfx(v@, s2i as int).drop_first() =~= sfx(v@, s2i + 1));
        }
        let s3i = skip_ws_x(v, s2i + 1);
        proof {
            if s3i < v.len() {
                assert(sfx(v@, s3i as int)[0] == v@[s3i as int]);
            }
        }
        if s3i < v.len() && v[s3i] == '(' {
            proof {
                assert(sfx(v@, s3i as int).drop_first() =~= sfx(v@, s3i + 1));
            }
            if let Some(p) = find_char_x(v, s3i + 1, ')') {
                let ghost inner_spec = sfx(v@, s3i + 1).take(p - (s3i + 1));
                let inner = crate::text::copy_range(v, s3i + 1, p);
                proof {
                    assert(inner@ =~= inner_spec);
                    assert(sfx(inner@, 0) =~= inner@);
                }
                let inner_r = parse_field(&inner, 0);
                if let Some(f) = inner_r.1 {
                    let times = string_from_range(v, s1i, ne);
                    let j = skip_ws_x(v, p + 1);
                    proof {
                        assert(sfx(v@, s3i + 1).skip(p - (s3i + 1) + 1) =~= sfx(v@, p + 1));
                    }
                    let out = Field { name: f.name, times: Some(times), field_type: f.field_type };
                    return (j, Some(out));
                }
            }
        }
    }
    (i, None)
}

/// Recognize the name token starting at position `i` of `v`.
#[verifier::loop_isolation(false)]
pub fn parse_name(v: &Vec<char>, i: usize) -> (r: (usize, Option<(MessageType, String, u8)>))
    requires
        i <= v.len(),
    ensures
        ({
            let (j, on) = r;
            match on {
                Some(n) => i <= j <= v.len() && match parse_name_s(sfx(v@, i as int)) {
                    Some(p) => p.0 == n.0 && p.1 == n.1@ && p.2 == n.2 && p.3 == sfx(
                        v@,
                        j as int,
                    ),
                    None => false,
                },
                None => j == i && parse_name_s(sfx(v@, i as int)) is None,
            }
        }),
{
    let s1i = skip_ws_x(v, i);
    proof {
        if s1i < v.len() {
            assert(sfx(v@, s1i as int)[0] == v@[s1i as int]);
        }
    }
    if s1i >= v.len() || (v[s1i] != 'T' && v[s1i] != 'R') {
        return (i, None);
    }
    let mt = if v[s1i] == 'T' {
        MessageType::Request
    } else {
        MessageType::Response
    };
    proof {
        assert(sfx(v@, s1i as int).drop_first() =~= sfx(v@, s1i + 1));
    }
    let ne = lower_run_x(v, s1i + 1);
    proof {
        assert(sfx(v@, s1i + 1).take(ne - (s1i + 1)) =~= v@.subrange(s1i + 1, ne as int));
        assert(sfx(v@, s1i + 1).skip(ne - (s1i + 1)) =~= sfx(v@, ne as int));
    }
    if ne == s1i + 1 {
        return (i, None);
    }
    let s3i = skip_ws_x(v, ne);
    proof {
        if s3i < v.len() {
            assert(sfx(v@, s3i as int)[0] == v@[s3i as int]);
        }
    }
    if s3i >= v.len() || v[s3i] != ':' {
        return (i, None);
    }
    proof {
        assert(sfx(v@, s3i as int).drop_first() =~= sfx(v@, s3i + 1));
    }
    let ds = skip_ws_x(v, s3i + 1);
    let de = digit_run_x(v, ds);
    let ghost s4 = sfx(v@, ds as int);
    proof {
        if ds < v.len() {
            assert(s4[0] == v@[ds as int]);
        }
    }
    if de == ds {
        return (i, None);
    }
    proof {
        crate::text::lemma_digit_run_range(s4);
        assert(is_digit(s4[0]));
    }
    if digit_val_x(v[ds]) == 0 {
        return (i, None);
    }
    // evaluate the numeral, rejecting values above 255
    let ghost d = de - ds;
    let mut acc: u32 = 0;
    let mut q: usize = ds;
    while q < de
        invariant
            ds <= q <= de <= v.len(),
            d == de - ds,
            s4 == sfx(v@, ds as int),
            digit_run(s4) == d,
            acc <= 255,
            acc == digits_val(s4.take(q - ds)),
        decreases de - q,
    {
        proof {
            crate::text::lemma_digit_run_range(s4);
            assert(is_digit(s4[q - ds]));
            assert(s4[q - ds] == v@[q as int]);
            assert(s4.take(q - ds + 1).drop_last() =~= s4.take(q - ds));
            assert(s4.take(q - ds + 1).last() == v@[q as int]);
        }
        let dv = digit_val_x(v[q]);
        let next: u32 = acc * 10 + dv;
        if next > 255 {
            proof {
                assert(digits_val(s4.take(q - ds + 1)) == acc * 10 + dv);
                lemma_digit_run_all(s4, d);
                lemma_digits_val_mono(s4.take(d), q - ds + 1, d);
                assert(s4.take(d).take(q - ds + 1) =~= s4.take(q - ds + 1));
                assert(s4.take(d).take(d) =~= s4.take(d));
                assert(digits_val(s4.take(d)) > 255);
            }
            return (i, None);
        }
        acc = next;
        q = q + 1;
    }
    let j = skip_ws_x(v, de);
    let name = string_from_range(v, s1i + 1, ne);
    proof {
        assert(s4.skip(d) =~= sfx(v@, de as int));
    }
    (j, Some((mt, name, acc as u8)))
}

/// All characters of the leading digit run are digits.
proof fn lemma_digit_run_all(s: Seq<char>, d: int)
    requires
        d == digit_run(s),
    ensures
        0 <= d <= s.len(),
        forall|k: int| 0 <= k < s.take(d).len() ==> is_digit(#[trigger] s.take(d)[k]),
{
    crate::text::lemma_digit_run_range(s);
    assert forall|k: int| 0 <= k < s.take(d).len() implies is_digit(#[trigger] s.take(d)[k]) by {
        assert(s.take(d)[k] == s[k]);
    }
}

} // verus!
