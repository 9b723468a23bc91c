//! The global guarantees of a successful parse: identity and number
//! uniqueness, the request/response pairing invariant, the array
//! back-reference rule, and the round-trip fidelity of the canonical
//! formatter.

use vstd::prelude::*;

use crate::grammar::parse_field_s;
use crate::grammar::parse_name_s;
use crate::grammar::parse_scalar;
use crate::grammar::code_to_type;
use crate::render::type_code;
use crate::render::render_field;
use crate::render::render_fields;
use crate::render::render_msg;
use crate::parse::assemble;
use crate::parse::check_requests;
use crate::parse::check_responses;
use crate::parse::error_chars;
use crate::parse::find_msg;
use crate::parse::has_full_name;
use crate::parse::has_number;
use crate::parse::parse_fields;
use crate::parse::parse_msg_line;
use crate::parse::spec_parse;
use crate::parse::spec_strip;
use crate::parse::size_chars;
use crate::parse::tag_chars;
use crate::parse::LineFail;
use crate::text::digits_val;
use crate::text::is_lower;
use crate::text::is_space;
use crate::text::lemma_digits_val_bounds;
use crate::text::lemma_lower_run_range;
use crate::text::lower_run;
use crate::text::render_dec;
use crate::text::find_char;
use crate::text::skip_ws;
use crate::types::FieldType;
use crate::types::FieldView;
use crate::types::MessageType;
use crate::types::MessageView;
use crate::types::is_integer;
use crate::types::mt_char;

verus! {

/// A grammar name: non-empty, all lowercase letters.
pub open spec fn wf_name(s: Seq<char>) -> bool {
    s.len() > 0 && forall|k: int| 0 <= k < s.len() ==> is_lower(s[k])
}

/// A well-formed field: its names are grammar names.
pub open spec fn wf_field(f: FieldView) -> bool {
    wf_name(f.name) && match f.times {
        Some(tm) => wf_name(tm),
        None => true,
    }
}

/// Every array field's repetition marker names the immediately preceding
/// field, which is of integer class.
pub open spec fn backrefs_ok(fs: Seq<FieldView>) -> bool {
    forall|k: int|
        0 <= k < fs.len() ==> match (#[trigger] fs[k]).times {
            Some(tm) => k > 0 && fs[k - 1].name == tm && is_integer(fs[k - 1].field_type),
            None => true,
        }
}

/// A well-formed message: a grammar name, the derived identity key, a
/// positive number, and well-formed fields satisfying the back-reference
/// rule.
pub open spec fn wf_msg(m: MessageView) -> bool {
    wf_name(m.name) && m.full_name == seq![mt_char(m.message_type)] + m.name && m.number >= 1
        && (forall|k: int| 0 <= k < m.fields.len() ==> wf_field(#[trigger] m.fields[k]))
        && backrefs_ok(m.fields)
}

/// No two messages share a `full_name`.
pub open spec fn unique_names(ms: Seq<MessageView>) -> bool {
    forall|a: int, b: int| 0 <= a < b < ms.len() ==> ms[a].full_name != ms[b].full_name
}

/// No two messages share a `number`.
pub open spec fn unique_numbers(ms: Seq<MessageView>) -> bool {
    forall|a: int, b: int| 0 <= a < b < ms.len() ==> ms[a].number != ms[b].number
}

/// Every request has a response of the same name whose number is the
/// request's number plus one; every response pairs back the same way unless
/// it is named `error`. The partner is the one `find_msg` locates: by
/// uniqueness of identities it is the only one.
pub open spec fn paired(ms: Seq<MessageView>) -> bool {
    forall|k: int|
        0 <= k < ms.len() ==> match (#[trigger] ms[k]).message_type {
            MessageType::Request => match find_msg(ms, MessageType::Response, ms[k].name, 0) {
                Some(resp) => resp.number as int == ms[k].number as int + 1,
                None => false,
            },
            MessageType::Response => ms[k].name == error_chars() || match find_msg(
                ms,
                MessageType::Request,
                ms[k].name,
                0,
            ) {
                Some(req) => ms[k].number as int == req.number as int + 1,
                None => false,
            },
        }
}

/// Whether the scalar branch of the field grammar fails on `s`.
pub open spec fn parse_scalar_fails(s: Seq<char>) -> bool {
    parse_scalar(s) is None
}

/// A successfully recognized field is well-formed.
#[verifier::rlimit(100)]
pub proof fn lemma_parse_field_wf(s: Seq<char>)
    ensures
        match parse_field_s(s) {
            Some(p) => wf_field(p.0),
            None => true,
        },
    decreases s.len(),
{
    lemma_lower_run_range(skip_ws(s));
    assert forall|k: int| 0 <= k < lower_run(skip_ws(s)) implies is_lower(
        skip_ws(s).take(lower_run(skip_ws(s)))[k],
    ) by {
        assert(skip_ws(s).take(lower_run(skip_ws(s)))[k] == skip_ws(s)[k]);
    }
    match parse_field_s(s) {
        Some(p) => {
            if parse_scalar_fails(s) {
                // the array branch succeeded; its inner field is well-formed
                let s1 = skip_ws(s);
                let n = lower_run(s1);
                let s2 = skip_ws(s1.skip(n));
                let s3 = skip_ws(s2.drop_first());
                let s4 = s3.drop_first();
                let k = crate::text::find_char(s4, ')');
                lemma_parse_field_wf(s4.take(k));
            }
        },
        None => {},
    }
}

/// A successfully recognized name token is a grammar name with a positive
/// number.
pub proof fn lemma_parse_name_wf(s: Seq<char>)
    ensures
        match parse_name_s(s) {
            Some(p) => wf_name(p.1) && p.2 >= 1,
            None => true,
        },
{
    let s1 = skip_ws(s);
    if s1.len() > 0 && (s1[0] == 'T' || s1[0] == 'R') {
        let s2 = s1.drop_first();
        let n = lower_run(s2);
        lemma_lower_run_range(s2);
        assert forall|k: int| 0 <= k < n implies is_lower(s2.take(n)[k]) by {
            assert(s2.take(n)[k] == s2[k]);
        }
        if 0 < n <= s2.len() {
            let s3 = skip_ws(s2.skip(n));
            if s3.len() > 0 && s3[0] == ':' {
                let s4 = skip_ws(s3.drop_first());
                let d = crate::text::digit_run(s4);
                if 0 < d <= s4.len() && crate::text::digit_val(s4[0]) != 0 {
                    crate::text::lemma_digit_run_range(s4);
                    assert forall|k: int| 0 <= k < d implies crate::text::is_digit(
                        #[trigger] s4.take(d)[k],
                    ) by {
                        assert(s4.take(d)[k] == s4[k]);
                    }
                    lemma_digits_val_bounds(s4.take(d));
                    assert(s4.take(d)[0] == s4[0]);
                    assert(crate::text::digit_val(s4[0]) >= 1);
                }
            }
        }
    }
}

/// The body fields of a successfully assembled line extend the accumulator,
/// stay well-formed, and respect the back-reference rule.
#[verifier::rlimit(100)]
pub proof fn lemma_parse_fields_props(s: Seq<char>, acc: Seq<FieldView>)
    requires
        backrefs_ok(acc),
        forall|k: int| 0 <= k < acc.len() ==> wf_field(#[trigger] acc[k]),
    ensures
        match parse_fields(s, acc) {
            Ok(fs) => backrefs_ok(fs) && (forall|k: int|
                0 <= k < fs.len() ==> wf_field(#[trigger] fs[k])),
            Err(_) => true,
        },
    decreases s.len(),
{
    if s.len() == 0 {
    } else {
        match parse_field_s(s) {
            None => {},
            Some((f, r)) => {
                lemma_parse_field_wf(s);
                let bad = match f.times {
                    Some(tm) => if acc.len() == 0 {
                        Some(())
                    } else if !(acc.last().name == tm && is_integer(acc.last().field_type)) {
                        Some(())
                    } else {
                        None
                    },
                    None => None,
                };
                if bad is None && r.len() < s.len() {
                    assert(backrefs_ok(acc.push(f))) by {
                        assert forall|k: int| 0 <= k < acc.push(f).len() implies match (
                        #[trigger] acc.push(f)[k]).times {
                            Some(tm) => k > 0 && acc.push(f)[k - 1].name == tm && is_integer(
                                acc.push(f)[k - 1].field_type,
                            ),
                            None => true,
                        } by {
                            if k < acc.len() {
                                assert(acc.push(f)[k] == acc[k]);
                                if k > 0 {
                                    assert(acc.push(f)[k - 1] == acc[k - 1]);
                                }
                            } else {
                                assert(acc.push(f)[k] == f);
                                if k > 0 {
                                    assert(acc.push(f)[k - 1] == acc[k - 1]);
                                }
                            }
                        }
                    }
                    lemma_parse_fields_props(r, acc.push(f));
                }
            },
        }
    }
}

/// A successfully assembled line yields a well-formed message.
#[verifier::rlimit(100)]
pub proof fn lemma_parse_msg_line_wf(s: Seq<char>)
    ensures
        match parse_msg_line(s) {
            Ok(m) => wf_msg(m),
            Err(_) => true,
        },
{
    match parse_field_s(s) {
        None => {},
        Some((f0, r1)) => {
            lemma_parse_name_wf(r1);
            match parse_name_s(r1) {
                None => {},
                Some((mt, nm, num, r2)) => {
                    match parse_field_s(r2) {
                        None => {},
                        Some((f1, r3)) => {
                            lemma_parse_fields_props(r3, Seq::empty());
                        },
                    }
                },
            }
        },
    }
}

/// Everything `assemble` appends is well-formed, and names and numbers stay
/// unique.
#[verifier::rlimit(100)]
pub proof fn lemma_assemble_props(lines: Seq<(int, Seq<char>)>, i: int, acc: Seq<MessageView>)
    requires
        unique_names(acc),
        unique_numbers(acc),
        forall|k: int| 0 <= k < acc.len() ==> wf_msg(#[trigger] acc[k]),
    ensures
        match assemble(lines, i, acc) {
            Ok(ms) => unique_names(ms) && unique_numbers(ms) && (forall|k: int|
                0 <= k < ms.len() ==> wf_msg(#[trigger] ms[k])),
            Err(_) => true,
        },
    decreases lines.len() - i,
{
    if i < 0 || i >= lines.len() {
    } else {
        let content = lines[i].1;
        lemma_parse_msg_line_wf(content);
        match parse_msg_line(content) {
            Err(_) => {},
            Ok(m) => {
                if !has_full_name(acc, m.full_name) && !has_number(acc, m.number) {
                    assert(unique_names(acc.push(m))) by {
                        assert forall|a: int, b: int|
                            0 <= a < b < acc.push(m).len() implies acc.push(m)[a].full_name
                            != acc.push(m)[b].full_name by {
                            if b < acc.len() {
                                assert(acc.push(m)[a] == acc[a]);
                                assert(acc.push(m)[b] == acc[b]);
                            } else {
                                assert(acc.push(m)[a] == acc[a]);
                                assert(acc.push(m)[b] == m);
                            }
                        }
                    }
                    assert(unique_numbers(acc.push(m))) by {
                        assert forall|a: int, b: int|
                            0 <= a < b < acc.push(m).len() implies acc.push(m)[a].number
                            != acc.push(m)[b].number by {
                            if b < acc.len() {
                                assert(acc.push(m)[a] == acc[a]);
                                assert(acc.push(m)[b] == acc[b]);
                            } else {
                                assert(acc.push(m)[a] == acc[a]);
                                assert(acc.push(m)[b] == m);
                            }
                        }
                    }
                    lemma_assemble_props(lines, i + 1, acc.push(m));
                }
            },
        }
    }
}

/// What a successful `find_msg` scan returns: an element of the sequence
/// with the sought type and name.
pub proof fn lemma_find_msg_some(ms: Seq<MessageView>, mt: MessageType, name: Seq<char>, i: int)
    requires
        find_msg(ms, mt, name, i) is Some,
    ensures
        ({
            let x = find_msg(ms, mt, name, i)->Some_0;
            x.message_type == mt && x.name == name && exists|b: int|
                i <= b < ms.len() && ms[b] == x
        }),
    decreases ms.len() - i,
{
    if i < 0 || i >= ms.len() {
    } else if ms[i].message_type == mt && ms[i].name == name {
        assert(i <= i < ms.len() && ms[i] == ms[i]);
    } else {
        lemma_find_msg_some(ms, mt, name, i + 1);
        let x = find_msg(ms, mt, name, i)->Some_0;
        let b = choose|b: int| i + 1 <= b < ms.len() && ms[b] == x;
        assert(i <= b < ms.len() && ms[b] == x);
    }
}

/// A failed `find_msg` scan means no element from `i` on matches.
pub proof fn lemma_find_msg_none(
    ms: Seq<MessageView>,
    mt: MessageType,
    name: Seq<char>,
    i: int,
    b: int,
)
    requires
        find_msg(ms, mt, name, i) is None,
        0 <= i <= b < ms.len(),
    ensures
        !(ms[b].message_type == mt && ms[b].name == name),
    decreases ms.len() - i,
{
    if b > i {
        lemma_find_msg_none(ms, mt, name, i + 1, b);
    }
}

/// A clean request scan means each request from `i` on finds a response.
pub proof fn lemma_check_requests_none(ms: Seq<MessageView>, i: int, k: int)
    requires
        check_requests(ms, i) is None,
        0 <= i <= k < ms.len(),
        ms[k].message_type is Request,
    ensures
        find_msg(ms, MessageType::Response, ms[k].name, 0) is Some,
    decreases ms.len() - i,
{
    if k > i {
        lemma_check_requests_none(ms, i + 1, k);
    }
}

/// A clean response scan means each response from `i` on pairs correctly or
/// is `error`.
pub proof fn lemma_check_responses_none(ms: Seq<MessageView>, i: int, k: int)
    requires
        check_responses(ms, i) is None,
        0 <= i <= k < ms.len(),
        ms[k].message_type is Response,
    ensures
        match find_msg(ms, MessageType::Request, ms[k].name, 0) {
            Some(req) => ms[k].number as int == req.number as int + 1,
            None => ms[k].name == error_chars(),
        },
    decreases ms.len() - i,
{
    if k > i {
        lemma_check_responses_none(ms, i + 1, k);
    }
}

/// The derived identity key of every message: its type's discriminant
/// character followed by its name.
pub open spec fn names_derived(ms: Seq<MessageView>) -> bool {
    forall|k: int|
        0 <= k < ms.len() ==> (#[trigger] ms[k]).full_name == seq![
            mt_char(ms[k].message_type),
        ] + ms[k].name
}

/// A request's found response carries the successor number.
proof fn lemma_request_partner(ms: Seq<MessageView>, a: int)
    requires
        check_requests(ms, 0) is None,
        check_responses(ms, 0) is None,
        unique_names(ms),
        names_derived(ms),
        0 <= a < ms.len(),
        ms[a].message_type is Request,
    ensures
        match find_msg(ms, MessageType::Response, ms[a].name, 0) {
            Some(resp) => resp.number as int == ms[a].number as int + 1,
            None => false,
        },
{
    lemma_check_requests_none(ms, 0, a);
    lemma_find_msg_some(ms, MessageType::Response, ms[a].name, 0);
    let rv = find_msg(ms, MessageType::Response, ms[a].name, 0)->Some_0;
    let b = choose|b: int| 0 <= b < ms.len() && ms[b] == rv;
    lemma_check_responses_none(ms, 0, b);
    match find_msg(ms, MessageType::Request, ms[b].name, 0) {
        Some(req) => {
            lemma_find_msg_some(ms, MessageType::Request, ms[b].name, 0);
            let a2 = choose|c: int| 0 <= c < ms.len() && ms[c] == req;
            // both are requests of the same name, so they share one identity
            // key and by uniqueness are the same message
            assert(ms[a2].full_name == ms[a].full_name);
            assert(a2 == a);
        },
        None => {
            lemma_find_msg_none(ms, MessageType::Request, ms[b].name, 0, a);
            assert(false);
        },
    }
}

/// Clean correspondence scans over unique messages with derived identity
/// keys establish the pairing invariant.
pub proof fn lemma_paired(ms: Seq<MessageView>)
    requires
        check_requests(ms, 0) is None,
        check_responses(ms, 0) is None,
        unique_names(ms),
        names_derived(ms),
    ensures
        paired(ms),
{
    assert forall|k: int| 0 <= k < ms.len() implies match (#[trigger] ms[k]).message_type {
        MessageType::Request => match find_msg(ms, MessageType::Response, ms[k].name, 0) {
            Some(resp) => resp.number as int == ms[k].number as int + 1,
            None => false,
        },
        MessageType::Response => ms[k].name == error_chars() || match find_msg(
            ms,
            MessageType::Request,
            ms[k].name,
            0,
        ) {
            Some(req) => ms[k].number as int == req.number as int + 1,
            None => false,
        },
    } by {
        match ms[k].message_type {
            MessageType::Request => {
                lemma_request_partner(ms, k);
            },
            MessageType::Response => {
                if ms[k].name != error_chars() {
                    lemma_check_responses_none(ms, 0, k);
                    if find_msg(ms, MessageType::Request, ms[k].name, 0) is None {
                        assert(false);
                    }
                }
            },
        }
    }
}

/// Pairing: in a definition that parses, every request name has a response
/// of the same name with the successor number, and every response pairs back
/// the same way unless it is named `error`.
pub proof fn lemma_pairing(text: Seq<char>, ms: Seq<MessageView>)
    requires
        spec_parse(text) == Ok::<Seq<MessageView>, Seq<char>>(ms),
    ensures
        paired(ms),
{
    lemma_assemble_props(spec_strip(text), 0, Seq::empty());
    assert forall|k: int|
        0 <= k < ms.len() implies (#[trigger] ms[k]).full_name == seq![
        mt_char(ms[k].message_type),
    ] + ms[k].name by {
        assert(wf_msg(ms[k]));
    }
    lemma_paired(ms);
}

/// Uniqueness: a definition that parses has no two messages sharing a
/// `full_name` and no two sharing a `number`.
#[verifier::rlimit(100)]
pub proof fn lemma_uniqueness(text: Seq<char>, ms: Seq<MessageView>)
    requires
        spec_parse(text) == Ok::<Seq<MessageView>, Seq<char>>(ms),
    ensures
        unique_names(ms),
        unique_numbers(ms),
{
    lemma_assemble_props(spec_strip(text), 0, Seq::empty());
}

/// Array back-reference: in a definition that parses, every field with a
/// repetition marker is immediately preceded by the integer-class field it
/// names; every message is well-formed.
#[verifier::rlimit(100)]
pub proof fn lemma_array_back_reference(text: Seq<char>, ms: Seq<MessageView>)
    requires
        spec_parse(text) == Ok::<Seq<MessageView>, Seq<char>>(ms),
    ensures
        forall|k: int| 0 <= k < ms.len() ==> backrefs_ok((#[trigger] ms[k]).fields),
        forall|k: int| 0 <= k < ms.len() ==> wf_msg(#[trigger] ms[k]),
{
    lemma_assemble_props(spec_strip(text), 0, Seq::empty());
}

/// Nothing in `s` is the character `c`.
pub open spec fn no_char(s: Seq<char>, c: char) -> bool {
    forall|j: int| 0 <= j < s.len() ==> s[j] != c
}

/// All of `s` is lowercase letters.
pub open spec fn all_lower(s: Seq<char>) -> bool {
    forall|j: int| 0 <= j < s.len() ==> is_lower(#[trigger] s[j])
}

/// The lowercase run of a name followed by a non-letter is the name.
proof fn lemma_lower_run_concat(l: Seq<char>, r: Seq<char>)
    requires
        all_lower(l),
        r.len() == 0 || !is_lower(r[0]),
    ensures
        lower_run(l + r) == l.len(),
    decreases l.len(),
{
    if l.len() == 0 {
        assert(l + r =~= r);
    } else {
        assert((l + r)[0] == l[0]);
        assert((l + r).drop_first() =~= l.drop_first() + r);
        assert(all_lower(l.drop_first())) by {
            assert forall|j: int| 0 <= j < l.drop_first().len() implies is_lower(
                #[trigger] l.drop_first()[j],
            ) by {
                assert(l.drop_first()[j] == l[j + 1]);
            }
        }
        lemma_lower_run_concat(l.drop_first(), r);
    }
}

/// The digit run of a numeral followed by a non-digit is the numeral.
proof fn lemma_digit_run_concat(l: Seq<char>, r: Seq<char>)
    requires
        forall|j: int| 0 <= j < l.len() ==> crate::text::is_digit(#[trigger] l[j]),
        r.len() == 0 || !crate::text::is_digit(r[0]),
    ensures
        crate::text::digit_run(l + r) == l.len(),
    decreases l.len(),
{
    if l.len() == 0 {
        assert(l + r =~= r);
    } else {
        assert((l + r)[0] == l[0]);
        assert((l + r).drop_first() =~= l.drop_first() + r);
        assert forall|j: int| 0 <= j < l.drop_first().len() implies crate::text::is_digit(
            #[trigger] l.drop_first()[j],
        ) by {
            assert(l.drop_first()[j] == l[j + 1]);
        }
        lemma_digit_run_concat(l.drop_first(), r);
    }
}

/// The first occurrence of `c` after a stretch free of it is right there.
proof fn lemma_find_char_concat(l: Seq<char>, c: char, r: Seq<char>)
    requires
        no_char(l, c),
    ensures
        find_char(l + seq![c] + r, c) == l.len(),
    decreases l.len(),
{
    if l.len() == 0 {
        assert((l + seq![c] + r)[0] == c);
    } else {
        assert((l + seq![c] + r)[0] == l[0]);
        assert((l + seq![c] + r).drop_first() =~= l.drop_first() + seq![c] + r);
        assert(no_char(l.drop_first(), c)) by {
            assert forall|j: int| 0 <= j < l.drop_first().len() implies #[trigger] l.drop_first()[j]
                != c by {
                assert(l.drop_first()[j] == l[j + 1]);
            }
        }
        lemma_find_char_concat(l.drop_first(), c, r);
    }
}

/// The digit character of each value, and back.
proof fn lemma_digit_char(d: int)
    requires
        0 <= d <= 9,
    ensures
        crate::text::is_digit(crate::text::digit_char(d)),
        crate::text::digit_val(crate::text::digit_char(d)) == d,
{
}

/// The canonical numeral of an eight-bit number: digits without a leading
/// zero, reading back to the same value.
proof fn lemma_render_dec_props(n: int)
    requires
        1 <= n <= 255,
    ensures
        render_dec(n).len() >= 1,
        forall|j: int| 0 <= j < render_dec(n).len() ==> crate::text::is_digit(
            #[trigger] render_dec(n)[j],
        ),
        crate::text::digit_val(render_dec(n)[0]) >= 1,
        digits_val(render_dec(n)) == n,
    decreases n,
{
    if n < 10 {
        lemma_digit_char(n);
        assert(render_dec(n) == seq![crate::text::digit_char(n)]);
        assert(render_dec(n).drop_last() =~= Seq::<char>::empty());
        assert(digits_val(render_dec(n).drop_last()) == 0);
        assert(render_dec(n).last() == render_dec(n)[0]);
        assert(digits_val(render_dec(n)) == crate::text::digit_val(render_dec(n)[0]));
    } else {
        lemma_render_dec_props(n / 10);
        lemma_digit_char(n % 10);
        let d = render_dec(n);
        assert(d == render_dec(n / 10).push(crate::text::digit_char(n % 10)));
        assert(d.drop_last() =~= render_dec(n / 10));
        assert(d.last() == crate::text::digit_char(n % 10));
        assert(digits_val(d) == digits_val(render_dec(n / 10)) * 10 + (n % 10));
        assert(d[0] == render_dec(n / 10)[0]);
        assert forall|j: int| 0 <= j < d.len() implies crate::text::is_digit(#[trigger] d[j]) by {
            if j < d.len() - 1 {
                assert(d[j] == render_dec(n / 10)[j]);
            }
        }
    }
}

/// The canonical token of each type reads back to that type and holds no
/// bracket or parenthesis.
proof fn lemma_type_code_props(t: FieldType)
    ensures
        1 <= type_code(t).len(),
        code_to_type(type_code(t)) == Some(t),
        no_char(type_code(t), ']'),
        no_char(type_code(t), ')'),
{
    match t {
        FieldType::U8 => assert(code_to_type(type_code(t)) == Some(t)),
        FieldType::U16 => assert(code_to_type(type_code(t)) == Some(t)),
        FieldType::U32 => assert(code_to_type(type_code(t)) == Some(t)),
        FieldType::U64 => assert(code_to_type(type_code(t)) == Some(t)),
        FieldType::QID => assert(code_to_type(type_code(t)) == Some(t)),
        FieldType::Stat => assert(code_to_type(type_code(t)) == Some(t)),
        FieldType::Bytes => assert(code_to_type(type_code(t)) == Some(t)),
        FieldType::String => assert(code_to_type(type_code(t)) == Some(t)),
    }
}

/// Parsing the canonical text of a scalar field, followed by a space or the
/// line end, gives back exactly that field.
#[verifier::rlimit(100)]
proof fn lemma_parse_scalar_render(f: FieldView, rest: Seq<char>)
    requires
        wf_field(f),
        f.times is None,
        rest.len() == 0 || rest[0] == ' ',
    ensures
        parse_scalar(render_field(f) + rest) == Some((f, skip_ws(rest))),
{
    let nm = f.name;
    let code = type_code(f.field_type);
    lemma_type_code_props(f.field_type);
    let s = render_field(f) + rest;
    let rest1 = seq!['['] + code + seq![']'] + rest;
    assert(s =~= nm + rest1);
    assert(s[0] == nm[0]);
    assert(!is_space(s[0]));
    assert(skip_ws(s) == s);
    lemma_lower_run_concat(nm, rest1);
    assert(lower_run(s) == nm.len());
    assert(s.take(nm.len() as int) =~= nm);
    assert(s.skip(nm.len() as int) =~= rest1);
    assert(rest1[0] == '[');
    assert(!is_space(rest1[0]));
    assert(skip_ws(rest1) == rest1);
    let s3 = code + seq![']'] + rest;
    assert(rest1.drop_first() =~= s3);
    assert(no_char(code, ']'));
    lemma_find_char_concat(code, ']', rest);
    assert(find_char(s3, ']') == code.len());
    assert(s3.take(code.len() as int) =~= code);
    assert(code_to_type(code) == Some(f.field_type));
    assert(s3.skip(code.len() as int + 1) =~= rest);
    assert(parse_scalar(s) == Some(
        (FieldView { name: nm, times: None, field_type: f.field_type }, skip_ws(rest)),
    ));
    assert(FieldView { name: nm, times: None, field_type: f.field_type } == f);
}

/// Parsing the canonical text of any field, followed by a space or the line
/// end, gives back exactly that field with the rest's leading space taken.
#[verifier::rlimit(100)]
proof fn lemma_parse_field_render(f: FieldView, rest: Seq<char>)
    requires
        wf_field(f),
        rest.len() == 0 || rest[0] == ' ',
    ensures
        parse_field_s(render_field(f) + rest) == Some((f, skip_ws(rest))),
{
    match f.times {
        None => {
            lemma_parse_scalar_render(f, rest);
        },
        Some(tm) => {
            let nm = f.name;
            let code = type_code(f.field_type);
            lemma_type_code_props(f.field_type);
            let inner = nm + seq!['['] + code + seq![']'];
            let s = render_field(f) + rest;
            let rest1 = seq!['*', '('] + inner + seq![')'] + rest;
            assert(s =~= tm + rest1);
            assert(s[0] == tm[0]);
            assert(!is_space(s[0]));
            assert(skip_ws(s) == s);
            lemma_lower_run_concat(tm, rest1);
            assert(lower_run(s) == tm.len());
            assert(s.take(tm.len() as int) =~= tm);
            assert(s.skip(tm.len() as int) =~= rest1);
            assert(rest1[0] == '*');
            assert(skip_ws(rest1) == rest1);
            // the scalar branch stops at the star
            assert(parse_scalar(s) is None);
            let s3 = seq!['('] + inner + seq![')'] + rest;
            assert(rest1.drop_first() =~= s3);
            assert(skip_ws(s3) == s3);
            assert(s3[0] == '(');
            let s4 = inner + seq![')'] + rest;
            assert(s3.drop_first() =~= s4);
            assert(no_char(inner, ')')) by {
                assert forall|j: int| 0 <= j < inner.len() implies #[trigger] inner[j] != ')' by {
                    if j < nm.len() {
                        assert(inner[j] == nm[j]);
                        assert(is_lower(inner[j]));
                    } else if j == nm.len() {
                        assert(inner[j] == '[');
                    } else if j < nm.len() + 1 + code.len() {
                        assert(inner[j] == code[j - nm.len() - 1]);
                    } else {
                        assert(inner[j] == ']');
                    }
                }
            }
            lemma_find_char_concat(inner, ')', rest);
            assert(find_char(s4, ')') == inner.len());
            assert(s4.take(inner.len() as int) =~= inner);
            let inner_f = FieldView { name: nm, times: None, field_type: f.field_type };
            assert(inner =~= render_field(inner_f) + Seq::<char>::empty());
            lemma_parse_scalar_render(inner_f, Seq::empty());
            assert(skip_ws(Seq::<char>::empty()) == Seq::<char>::empty());
            assert(parse_field_s(inner) == Some((inner_f, Seq::<char>::empty())));
            assert(s4.skip(inner.len() as int + 1) =~= rest);
            assert(inner.len() < s.len());
            assert(parse_field_s(s) == Some(
                (FieldView { name: nm, times: Some(tm), field_type: f.field_type }, skip_ws(rest)),
            ));
            assert(FieldView { name: nm, times: Some(tm), field_type: f.field_type } == f);
        },
    }
}

/// Parsing the canonical name token, followed by a space, gives back the
/// type, the name, and the number.
#[verifier::rlimit(100)]
proof fn lemma_parse_name_render(mt: MessageType, nm: Seq<char>, num: u8, rest: Seq<char>)
    requires
        wf_name(nm),
        num >= 1,
        rest.len() == 0 || rest[0] == ' ',
    ensures
        parse_name_s(seq![mt_char(mt)] + nm + seq![':'] + render_dec(num as int) + rest) == Some(
            (mt, nm, num, skip_ws(rest)),
        ),
{
    let dec = render_dec(num as int);
    lemma_render_dec_props(num as int);
    let s = seq![mt_char(mt)] + nm + seq![':'] + render_dec(num as int) + rest;
    assert(s[0] == mt_char(mt));
    assert(!is_space(s[0]));
    assert(skip_ws(s) == s);
    let s2 = nm + seq![':'] + dec + rest;
    assert(s.drop_first() =~= s2);
    let rest1 = seq![':'] + dec + rest;
    assert(s2 =~= nm + rest1);
    lemma_lower_run_concat(nm, rest1);
    assert(lower_run(s2) == nm.len());
    assert(s2.take(nm.len() as int) =~= nm);
    assert(s2.skip(nm.len() as int) =~= rest1);
    assert(rest1[0] == ':');
    assert(skip_ws(rest1) == rest1);
    let s4 = dec + rest;
    assert(rest1.drop_first() =~= s4);
    assert(s4[0] == dec[0]);
    assert(crate::text::is_digit(s4[0]));
    assert(!is_space(s4[0]));
    assert(skip_ws(s4) == s4);
    lemma_digit_run_concat(dec, rest);
    assert(crate::text::digit_run(s4) == dec.len());
    assert(s4.take(dec.len() as int) =~= dec);
    assert(crate::text::digit_val(s4[0]) != 0);
    assert(digits_val(dec) == num as int);
    assert(s4.skip(dec.len() as int) =~= rest);
    if mt is Request {
        assert(s[0] == 'T');
    } else {
        assert(s[0] == 'R');
        assert(s[0] != 'T');
    }
    assert(parse_name_s(s) == Some((mt, nm, num, skip_ws(rest))));
}

/// Parsing the canonical text of a field list extends the accumulator with
/// exactly those fields.
#[verifier::rlimit(100)]
proof fn lemma_parse_fields_render(fs: Seq<FieldView>, acc: Seq<FieldView>)
    requires
        forall|k: int| 0 <= k < fs.len() ==> wf_field(#[trigger] fs[k]),
        backrefs_ok(acc + fs),
    ensures
        parse_fields(skip_ws(render_fields(fs)), acc) == Ok::<Seq<FieldView>, LineFail>(acc + fs),
    decreases fs.len(),
{
    if fs.len() == 0 {
        assert(render_fields(fs) == Seq::<char>::empty());
        assert(skip_ws(Seq::<char>::empty()) == Seq::<char>::empty());
        assert(acc + fs =~= acc);
    } else {
        let f0 = fs[0];
        let fs1 = fs.drop_first();
        let x = render_field(f0) + render_fields(fs1);
        assert(render_fields(fs) == seq![' '] + render_field(f0) + render_fields(fs1));
        assert(render_fields(fs).drop_first() =~= x);
        assert(x[0] == render_field(f0)[0]);
        assert(wf_field(f0));
        match f0.times {
            None => {
                assert(render_field(f0)[0] == f0.name[0]);
            },
            Some(tm) => {
                assert(render_field(f0)[0] == tm[0]);
            },
        }
        assert(!is_space(x[0]));
        assert(skip_ws(render_fields(fs)) == x);
        assert(render_fields(fs1).len() == 0 || render_fields(fs1)[0] == ' ');
        lemma_parse_field_render(f0, render_fields(fs1));
        assert(parse_field_s(x) == Some((f0, skip_ws(render_fields(fs1)))));
        // the back-reference check passes for the first field
        if f0.times is Some {
            assert((acc + fs)[acc.len() as int] == f0);
            assert(acc.len() > 0);
            assert((acc + fs)[acc.len() - 1] == acc.last());
        }
        let r = skip_ws(render_fields(fs1));
        crate::text::lemma_skip_ws_len(render_fields(fs1));
        assert(render_field(f0).len() >= 1);
        assert(r.len() < x.len());
        assert(acc.push(f0) + fs1 =~= acc + fs);
        assert forall|k: int| 0 <= k < fs1.len() implies wf_field(#[trigger] fs1[k]) by {
            assert(fs1[k] == fs[k + 1]);
        }
        lemma_parse_fields_render(fs1, acc.push(f0));
        assert(parse_fields(r, acc.push(f0)) == Ok::<Seq<FieldView>, LineFail>(acc + fs));
        assert(parse_fields(x, acc) == Ok::<Seq<FieldView>, LineFail>(acc + fs));
    }
}

/// Parsing the canonical text of a well-formed message yields that message.
#[verifier::rlimit(100)]
proof fn lemma_parse_msg_line_render(m: MessageView)
    requires
        wf_msg(m),
    ensures
        parse_msg_line(render_msg(m)) == Ok::<MessageView, LineFail>(m),
{
    let s = render_msg(m);
    let dec = render_dec(m.number as int);
    let rf = render_fields(m.fields);
    let sizef = FieldView { name: size_chars(), times: None, field_type: FieldType::U32 };
    let tagf = FieldView { name: tag_chars(), times: None, field_type: FieldType::U16 };
    assert(wf_field(sizef)) by {
        assert(size_chars()[0] == 's' && size_chars()[1] == 'i' && size_chars()[2] == 'z'
            && size_chars()[3] == 'e');
    }
    assert(wf_field(tagf)) by {
        assert(tag_chars()[0] == 't' && tag_chars()[1] == 'a' && tag_chars()[2] == 'g');
    }
    let r0 = seq![' '] + m.full_name + seq![':'] + dec + seq![' ', 't', 'a', 'g', '[', '2', ']']
        + rf;
    assert(render_field(sizef) =~= seq!['s', 'i', 'z', 'e', '[', '4', ']']);
    assert(s =~= render_field(sizef) + r0);
    lemma_parse_field_render(sizef, r0);
    assert(parse_field_s(s) == Some((sizef, skip_ws(r0))));
    // past the separating space stands the name token
    let r1 = m.full_name + seq![':'] + dec + seq![' ', 't', 'a', 'g', '[', '2', ']'] + rf;
    assert(r0.drop_first() =~= r1);
    assert(r1[0] == mt_char(m.message_type));
    assert(!is_space(r1[0]));
    assert(skip_ws(r0) == r1);
    let rtag = seq![' ', 't', 'a', 'g', '[', '2', ']'] + rf;
    assert(r1 =~= seq![mt_char(m.message_type)] + m.name + seq![':'] + dec + rtag);
    assert(rtag[0] == ' ');
    lemma_parse_name_render(m.message_type, m.name, m.number, rtag);
    assert(parse_name_s(r1) == Some((m.message_type, m.name, m.number, skip_ws(rtag))));
    // past the next space stands the tag field
    let r2 = seq!['t', 'a', 'g', '[', '2', ']'] + rf;
    assert(rtag.drop_first() =~= r2);
    assert(r2[0] == 't');
    assert(skip_ws(rtag) == r2);
    assert(render_field(tagf) =~= seq!['t', 'a', 'g', '[', '2', ']']);
    assert(r2 =~= render_field(tagf) + rf);
    assert(rf.len() == 0 || rf[0] == ' ');
    lemma_parse_field_render(tagf, rf);
    assert(parse_field_s(r2) == Some((tagf, skip_ws(rf))));
    // the remaining text renders the body fields
    assert(backrefs_ok(Seq::<FieldView>::empty() + m.fields)) by {
        assert(Seq::<FieldView>::empty() + m.fields =~= m.fields);
    }
    lemma_parse_fields_render(m.fields, Seq::empty());
    assert(Seq::<FieldView>::empty() + m.fields =~= m.fields);
    assert(parse_fields(skip_ws(rf), Seq::empty()) == Ok::<Seq<FieldView>, LineFail>(m.fields));
    assert(parse_msg_line(s) == Ok::<MessageView, LineFail>(
        MessageView {
            name: m.name,
            full_name: seq![mt_char(m.message_type)] + m.name,
            message_type: m.message_type,
            number: m.number,
            fields: m.fields,
        },
    ));
    assert(MessageView {
        name: m.name,
        full_name: seq![mt_char(m.message_type)] + m.name,
        message_type: m.message_type,
        number: m.number,
        fields: m.fields,
    } == m);
}

/// A successful assembly produces one message per remaining line, after the
/// accumulated ones.
proof fn lemma_assemble_len(lines: Seq<(int, Seq<char>)>, i: int, acc: Seq<MessageView>)
    requires
        0 <= i <= lines.len(),
        assemble(lines, i, acc) is Ok,
    ensures
        assemble(lines, i, acc)->Ok_0.len() == acc.len() + (lines.len() - i),
        forall|j: int| 0 <= j < acc.len() ==> assemble(lines, i, acc)->Ok_0[j] == acc[j],
    decreases lines.len() - i,
{
    if i < lines.len() {
        match parse_msg_line(lines[i].1) {
            Err(_) => {},
            Ok(m) => {
                lemma_assemble_len(lines, i + 1, acc.push(m));
                assert forall|j: int| 0 <= j < acc.len() implies assemble(lines, i, acc)->Ok_0[j]
                    == acc[j] by {
                    assert(assemble(lines, i, acc)->Ok_0[j] == acc.push(m)[j]);
                }
            },
        }
    }
}

/// Each message of a successful assembly is what its line parsed to.
proof fn lemma_assemble_at(lines: Seq<(int, Seq<char>)>, i: int, acc: Seq<MessageView>, k: int)
    requires
        0 <= i <= k < lines.len(),
        assemble(lines, i, acc) is Ok,
    ensures
        parse_msg_line(lines[k].1) is Ok,
        assemble(lines, i, acc)->Ok_0[acc.len() + (k - i)] == parse_msg_line(lines[k].1)->Ok_0,
    decreases lines.len() - i,
{
    match parse_msg_line(lines[i].1) {
        Err(_) => {},
        Ok(m) => {
            if k == i {
                lemma_assemble_len(lines, i + 1, acc.push(m));
                let n = acc.len() as int;
                assert(assemble(lines, i, acc)->Ok_0[n] == acc.push(m)[n]);
            } else {
                lemma_assemble_at(lines, i + 1, acc.push(m), k);
            }
        },
    }
}

/// Round trip: when a definition parses and each stripped line is the
/// canonical text of some well-formed message, the parsed messages render
/// back, line for line, to exactly the stripped lines. Extra whitespace
/// inside a line is the one freedom the grammar allows that rendering does
/// not reproduce, so such lines are exempted by the premise.
pub proof fn lemma_round_trip(text: Seq<char>, ms: Seq<MessageView>)
    requires
        spec_parse(text) == Ok::<Seq<MessageView>, Seq<char>>(ms),
        forall|i: int|
            0 <= i < spec_strip(text).len() ==> exists|m: MessageView|
                wf_msg(m) && (#[trigger] spec_strip(text)[i]).1 == render_msg(m),
    ensures
        ms.len() == spec_strip(text).len(),
        forall|i: int| 0 <= i < ms.len() ==> render_msg(#[trigger] ms[i]) == spec_strip(text)[i].1,
{
    let lines = spec_strip(text);
    assert(assemble(lines, 0, Seq::empty()) == Ok::<Seq<MessageView>, Seq<char>>(ms));
    lemma_assemble_len(lines, 0, Seq::empty());
    assert forall|i: int| 0 <= i < ms.len() implies render_msg(#[trigger] ms[i]) == spec_strip(
        text,
    )[i].1 by {
        let m = choose|m: MessageView| wf_msg(m) && lines[i].1 == render_msg(m);
        lemma_parse_msg_line_render(m);
        lemma_assemble_at(lines, 0, Seq::empty(), i);
        assert(ms[i] == m);
    }
}

} // verus!
