//! The stripper, the per-line message assembler, the whole-definition
//! validator, and the public `parse` entry point.

use vstd::prelude::*;
use vstd::string::StrSliceExecFns;
use vstd::string::StringExecFns;

use crate::grammar::parse_field;
use crate::grammar::parse_field_s;
use crate::grammar::parse_name;
use crate::grammar::parse_name_s;
use crate::text::chars_of;
use crate::text::find_char;
use crate::text::find_char_range_x;
use crate::text::fmt_u8;
use crate::text::fmt_usize;
use crate::text::push_char;
use crate::text::render_dec;
use crate::text::sfx;
use crate::text::skip_ws;
use crate::text::skip_ws_range_x;
use crate::text::trim_end;
use crate::text::trim_end_range_x;
use crate::types::Field;
use crate::types::FieldType;
use crate::types::FieldView;
use crate::types::Message;
use crate::types::MessageType;
use crate::types::MessageView;
use crate::types::mt_char;
use crate::types::msgs_view;
use crate::types::is_integer;

verus! {

/// The position of the newline ending the line that starts at `from`, or the
/// end of the text for the final line.
pub open spec fn find_nl(s: Seq<char>, from: int) -> int {
    let f = find_char(s.subrange(from, s.len() as int), '\n');
    if f < 0 {
        s.len() as int
    } else {
        from + f
    }
}

/// A line with everything from the first `#` on discarded.
pub open spec fn hash_cut(l: Seq<char>) -> Seq<char> {
    let h = find_char(l, '#');
    if h >= 0 {
        l.take(h)
    } else {
        l
    }
}

/// A line after comment removal and trimming of surrounding whitespace.
pub open spec fn clean_line(l: Seq<char>) -> Seq<char> {
    trim_end(skip_ws(hash_cut(l)))
}

/// The stripped view of the text from `pos` on: for every line that is
/// non-empty after comment removal and trimming, its 1-based line number and
/// its cleaned content.
pub open spec fn strip_lines(s: Seq<char>, pos: int, ln: int) -> Seq<(int, Seq<char>)>
    decreases s.len() - pos,
{
    if pos < 0 || pos >= s.len() {
        Seq::empty()
    } else {
        let e = find_nl(s, pos);
        if pos <= e && e <= s.len() {
            let c = clean_line(s.subrange(pos, e));
            let rest = if e < s.len() {
                strip_lines(s, e + 1, ln + 1)
            } else {
                Seq::empty()
            };
            if c.len() > 0 {
                seq![(ln, c)] + rest
            } else {
                rest
            }
        } else {
            Seq::empty()
        }
    }
}

/// The stripped view of a whole definition text.
pub open spec fn spec_strip(s: Seq<char>) -> Seq<(int, Seq<char>)> {
    strip_lines(s, 0, 1)
}

/// The stripped content of a vector of numbered lines.
pub open spec fn pairs_view(v: Seq<(usize, &str)>) -> Seq<(int, Seq<char>)> {
    v.map_values(|p: (usize, &str)| (p.0 as int, p.1@))
}

/// Remove comments and blank lines: every line that still has content after
/// discarding a `#` comment and surrounding whitespace is returned with its
/// 1-based line number. This sequence is also the canonical form that a
/// successful parse renders back to.
#[verifier::loop_isolation(false)]
pub fn strip<'a>(definition: &'a str) -> (r: Vec<(usize, &'a str)>)
    requires
        definition@.len() < usize::MAX as int,
    ensures
        pairs_view(r@) == spec_strip(definition@),
{
    let v = chars_of(definition);
    let n = v.len();
    let mut out: Vec<(usize, &'a str)> = Vec::new();
    let mut pos: usize = 0;
    let mut ln: usize = 1;
    proof {
        assert(pairs_view(out@) =~= Seq::<(int, Seq<char>)>::empty());
    }
    while pos < n
        invariant
            pos <= n || pos == n + 1,
            1 <= ln <= pos + 1,
            spec_strip(definition@) == pairs_view(out@) + strip_lines(v@, pos as int, ln as int),
        decreases n + 1 - pos,
    {
        let e = match find_char_range_x(&v, pos, n, '\n') {
            Some(j) => j,
            None => n,
        };
        proof {
            assert(sfx(v@, pos as int) =~= v@.subrange(pos as int, n as int));
            assert(find_nl(v@, pos as int) == e);
        }
        let cut = match find_char_range_x(&v, pos, e, '#') {
            Some(j) => j,
            None => e,
        };
        proof {
            let l = v@.subrange(pos as int, e as int);
            if find_char(l, '#') >= 0 {
                assert(l.take(find_char(l, '#')) =~= v@.subrange(pos as int, cut as int));
            } else {
                assert(l =~= v@.subrange(pos as int, cut as int));
            }
            assert(hash_cut(l) == v@.subrange(pos as int, cut as int));
        }
        let ts = skip_ws_range_x(&v, pos, cut);
        let te = trim_end_range_x(&v, ts, cut);
        proof {
            assert(trim_end(v@.subrange(ts as int, cut as int)) == v@.subrange(
                ts as int,
                te as int,
            ));
            assert(clean_line(v@.subrange(pos as int, e as int)) == v@.subrange(
                ts as int,
                te as int,
            ));
        }
        if te > ts {
            let content = definition.substring_char(ts, te);
            out.push((ln, content));
            proof {
                assert(content@ =~= v@.subrange(ts as int, te as int));
                assert(pairs_view(out@) =~= pairs_view(out@.drop_last()) + seq![
                    (ln as int, content@),
                ]);
            }
        }
        proof {
            let rest = if e < n {
                strip_lines(v@, e + 1, ln + 1)
            } else {
                Seq::<(int, Seq<char>)>::empty()
            };
            if te > ts {
                assert(strip_lines(v@, pos as int, ln as int) =~= seq![
                    (ln as int, v@.subrange(ts as int, te as int)),
                ] + rest);
            } else {
                assert(strip_lines(v@, pos as int, ln as int) == rest);
            }
            assert(pairs_view(out@) + strip_lines(v@, e + 1, ln + 1) =~= spec_strip(definition@))
                by {
                if e < n {
                } else {
                    assert(strip_lines(v@, e + 1, ln + 1) =~= Seq::<(int, Seq<char>)>::empty());
                }
            }
        }
        pos = e + 1;
        ln = ln + 1;
    }
    proof {
        assert(strip_lines(v@, pos as int, ln as int) =~= Seq::<(int, Seq<char>)>::empty());
        assert(pairs_view(out@) =~= spec_strip(definition@));
    }
    out
}

/// The ways one line can fail to assemble into a message.
pub ghost enum LineFail {
    /// The line does not begin with the scalar field `size[4]`.
    Size,
    /// The size field is not followed by a well-formed `Name:Number` token.
    Name,
    /// The name token is not followed by the scalar field `tag[2]`.
    Tag,
    /// A remaining field fails the field grammar; carries the unparsed rest.
    Field(Seq<char>),
    /// An array field stands first, with no field to carry its count.
    BackRefFirst,
    /// An array field's back-reference does not name the immediately
    /// preceding integer-class field.
    BackRef,
}

pub open spec fn size_chars() -> Seq<char> {
    seq!['s', 'i', 'z', 'e']
}

pub open spec fn tag_chars() -> Seq<char> {
    seq!['t', 'a', 'g']
}

pub open spec fn error_chars() -> Seq<char> {
    seq!['e', 'r', 'r', 'o', 'r']
}

/// Recognize the remaining body fields of a line, in order, enforcing the
/// array back-reference rule against the field list under construction.
pub open spec fn parse_fields(s: Seq<char>, acc: Seq<FieldView>) -> Result<Seq<FieldView>, LineFail>
    decreases s.len(),
{
    if s.len() == 0 {
        Ok(acc)
    } else {
        match parse_field_s(s) {
            None => Err(LineFail::Field(s)),
            Some((f, r)) => {
                let bad = match f.times {
                    Some(tm) => if acc.len() == 0 {
                        Some(LineFail::BackRefFirst)
                    } else if !(acc.last().name == tm && is_integer(acc.last().field_type)) {
                        Some(LineFail::BackRef)
                    } else {
                        None
                    },
                    None => None,
                };
                match bad {
                    Some(e) => Err(e),
                    None => if r.len() < s.len() {
                        parse_fields(r, acc.push(f))
                    } else {
                        Err(LineFail::Field(s))
                    },
                }
            },
        }
    }
}

/// Assemble one stripped line: the `size[4]` preamble, the name token, the
/// `tag[2]` field, then the remaining body fields until the line is consumed.
pub open spec fn parse_msg_line(s: Seq<char>) -> Result<MessageView, LineFail> {
    match parse_field_s(s) {
        None => Err(LineFail::Size),
        Some((f0, r1)) => if !(f0.name == size_chars() && f0.field_type == FieldType::U32
            && f0.times is None) {
            Err(LineFail::Size)
        } else {
            match parse_name_s(r1) {
                None => Err(LineFail::Name),
                Some((mt, nm, num, r2)) => match parse_field_s(r2) {
                    None => Err(LineFail::Tag),
                    Some((f1, r3)) => if !(f1.name == tag_chars() && f1.field_type
                        == FieldType::U16 && f1.times is None) {
                        Err(LineFail::Tag)
                    } else {
                        match parse_fields(r3, Seq::empty()) {
                            Err(e) => Err(e),
                            Ok(fields) => Ok(
                                MessageView {
                                    name: nm,
                                    full_name: seq![mt_char(mt)] + nm,
                                    message_type: mt,
                                    number: num,
                                    fields,
                                },
                            ),
                        }
                    },
                },
            }
        },
    }
}

/// The per-line failure of assembling one line, as exec data; the field
/// variant carries the position of the unparsed rest.
pub enum LineFailAt {
    Size,
    Name,
    Tag,
    Field(usize),
    BackRefFirst,
    BackRef,
}

/// The spec failure that an exec failure at a position of `v` stands for.
pub open spec fn line_fail_view(fx: LineFailAt, v: Seq<char>) -> LineFail {
    match fx {
        LineFailAt::Size => LineFail::Size,
        LineFailAt::Name => LineFail::Name,
        LineFailAt::Tag => LineFail::Tag,
        LineFailAt::Field(p) => LineFail::Field(sfx(v, p as int)),
        LineFailAt::BackRefFirst => LineFail::BackRefFirst,
        LineFailAt::BackRef => LineFail::BackRef,
    }
}

/// Whether a string holds exactly the given characters.
#[verifier::loop_isolation(false)]
fn string_eq_chars(s: &String, w: &Vec<char>) -> (r: bool)
    ensures
        r == (s@ == w@),
{
    let st = s.as_str();
    let n = st.unicode_len();
    if n != w.len() {
        proof {
            assert(s@ != w@);
        }
        return false;
    }
    let mut i: usize = 0;
    while i < n
        invariant
            n == s@.len() == w@.len(),
            i <= n,
            forall|k: int| 0 <= k < i ==> s@[k] == w@[k],
        decreases n - i,
    {
        if st.get_char(i) != w[i] {
            proof {
                assert(s@[i as int] != w@[i as int]);
            }
            return false;
        }
        i = i + 1;
    }
    proof {
        assert(s@ =~= w@);
    }
    true
}

/// Assemble one stripped line of characters into a message.
#[verifier::loop_isolation(false)]
fn parse_line(v: &Vec<char>) -> (r: Result<Message, LineFailAt>)
    ensures
        ({
            match r {
                Ok(m) => parse_msg_line(v@) == Ok::<MessageView, LineFail>(m@),
                Err(fx) => parse_msg_line(v@) == Err::<MessageView, LineFail>(
                    line_fail_view(fx, v@),
                ) && (fx matches LineFailAt::Field(p) ==> p <= v.len()),
            }
        }),
{
    proof {
        assert(sfx(v@, 0) =~= v@);
    }
    let (i1, of0) = parse_field(v, 0);
    let f0 = match of0 {
        Some(f) => f,
        None => {
            return Err(LineFailAt::Size);
        },
    };
    let size_word: Vec<char> = vec!['s', 'i', 'z', 'e'];
    proof {
        assert(size_word@ =~= size_chars());
    }
    let size_name_ok = string_eq_chars(&f0.name, &size_word);
    let size_type_ok = match f0.field_type {
        FieldType::U32 => true,
        _ => false,
    };
    let size_scalar = match &f0.times {
        None => true,
        Some(_) => false,
    };
    if !(size_name_ok && size_type_ok && size_scalar) {
        return Err(LineFailAt::Size);
    }
    let (i2, on) = parse_name(v, i1);
    let (mt, name, num) = match on {
        Some(n) => n,
        None => {
            return Err(LineFailAt::Name);
        },
    };
    let (i3, of1) = parse_field(v, i2);
    let f1 = match of1 {
        Some(f) => f,
        None => {
            return Err(LineFailAt::Tag);
        },
    };
    let tag_word: Vec<char> = vec!['t', 'a', 'g'];
    proof {
        assert(tag_word@ =~= tag_chars());
    }
    let tag_name_ok = string_eq_chars(&f1.name, &tag_word);
    let tag_type_ok = match f1.field_type {
        FieldType::U16 => true,
        _ => false,
    };
    let tag_scalar = match &f1.times {
        None => true,
        Some(_) => false,
    };
    if !(tag_name_ok && tag_type_ok && tag_scalar) {
        return Err(LineFailAt::Tag);
    }
    let mut fields: Vec<Field> = Vec::new();
    let mut cur = i3;
    proof {
        assert(fields@.map_values(|f: Field| f@) =~= Seq::<FieldView>::empty());
    }
    while cur < v.len()
        invariant
            cur <= v.len(),
            parse_fields(sfx(v@, i3 as int), Seq::empty()) == parse_fields(
                sfx(v@, cur as int),
                fields@.map_values(|f: Field| f@),
            ),
        decreases v.len() - cur,
    {
        let ghost acc = fields@.map_values(|f: Field| f@);
        let (nc, of) = parse_field(v, cur);
        let f = match of {
            Some(f) => f,
            None => {
                return Err(LineFailAt::Field(cur));
            },
        };
        if let Some(tm) = &f.times {
            if fields.len() == 0 {
                return Err(LineFailAt::BackRefFirst);
            }
            let prev = &fields[fields.len() - 1];
            proof {
                assert(acc.last() == fields@[fields.len() - 1]@);
            }
            let names_match = prev.name == *tm;
            let prev_integer = prev.field_type.integer();
            if !(names_match && prev_integer) {
                return Err(LineFailAt::BackRef);
            }
        }
        if nc <= cur {
            return Err(LineFailAt::Field(cur));
        }
        let ghost fv = f@;
        fields.push(f);
        proof {
            assert(fields@.map_values(|f: Field| f@) =~= acc.push(fv));
            assert(parse_fields(sfx(v@, cur as int), acc) == parse_fields(
                sfx(v@, nc as int),
                acc.push(fv),
            ));
        }
        cur = nc;
    }
    proof {
        assert(sfx(v@, cur as int) =~= Seq::<char>::empty());
    }
    let mut full = String::new();
    push_char(&mut full, mt.char());
    full.append(name.as_str());
    proof {
        assert(full@ =~= seq![mt_char(mt)] + name@);
    }
    let m = Message { name, full_name: full, message_type: mt, number: num, fields };
    Ok(m)
}

/// The cause text of a per-line failure.
pub open spec fn line_fail_msg(f: LineFail) -> Seq<char> {
    match f {
        LineFail::Size => "each message must begin with size[4]"@,
        LineFail::Name => "size tag must be followed by a message name"@,
        LineFail::Tag => "each message must have tag[2] as its first field"@,
        LineFail::Field(rest) => "bad field in message: "@ + rest,
        LineFail::BackRefFirst => "array field must be preceded by times field"@,
        LineFail::BackRef => "array field must be preceded by integer times field"@,
    }
}

/// The full text of an error tied to one source line.
pub open spec fn render_line_err(ln: int, line: Seq<char>, msg: Seq<char>) -> Seq<char> {
    "line "@ + render_dec(ln) + ": "@ + line + "\nerror: "@ + msg
}

/// The full text of a whole-definition error.
pub open spec fn render_glob_err(msg: Seq<char>) -> Seq<char> {
    "error: "@ + msg
}

pub open spec fn dup_name_msg(fname: Seq<char>) -> Seq<char> {
    "duplicate message name: "@ + fname
}

pub open spec fn dup_num_msg(fname: Seq<char>, num: u8) -> Seq<char> {
    "duplicate message number: "@ + fname + ":"@ + render_dec(num as int)
}

pub open spec fn missing_resp_msg(name: Seq<char>) -> Seq<char> {
    "request without corresponding response: "@ + name
}

pub open spec fn missing_req_msg(name: Seq<char>) -> Seq<char> {
    "response without corresponding request: "@ + name
}

pub open spec fn mismatch_msg(name: Seq<char>, req: MessageView, resp: MessageView) -> Seq<char> {
    "Response number not equal to request number + 1: "@ + name + "\n"@ + req.full_name + ": "@
        + render_dec(req.number as int) + "\n"@ + resp.full_name + "\n"@ + render_dec(
        resp.number as int,
    ) + "\n"@
}

/// Whether some already-assembled message carries this identity.
pub open spec fn has_full_name(ms: Seq<MessageView>, fname: Seq<char>) -> bool {
    exists|k: int| 0 <= k < ms.len() && ms[k].full_name == fname
}

/// Whether some already-assembled message carries this number.
pub open spec fn has_number(ms: Seq<MessageView>, num: u8) -> bool {
    exists|k: int| 0 <= k < ms.len() && ms[k].number == num
}

/// Assemble the stripped lines from index `i` on, extending `acc`, failing
/// fast on the first bad line or duplicated identity or number.
pub open spec fn assemble(
    lines: Seq<(int, Seq<char>)>,
    i: int,
    acc: Seq<MessageView>,
) -> Result<Seq<MessageView>, Seq<char>>
    decreases lines.len() - i,
{
    if i < 0 || i >= lines.len() {
        Ok(acc)
    } else {
        let ln = lines[i].0;
        let content = lines[i].1;
        match parse_msg_line(content) {
            Err(f) => Err(render_line_err(ln, content, line_fail_msg(f))),
            Ok(m) => if has_full_name(acc, m.full_name) {
                Err(render_line_err(ln, content, dup_name_msg(m.full_name)))
            } else if has_number(acc, m.number) {
                Err(render_line_err(ln, content, dup_num_msg(m.full_name, m.number)))
            } else {
                assemble(lines, i + 1, acc.push(m))
            },
        }
    }
}

/// The first message of the given type and name, scanning from index `i`.
pub open spec fn find_msg(
    ms: Seq<MessageView>,
    mt: MessageType,
    name: Seq<char>,
    i: int,
) -> Option<MessageView>
    decreases ms.len() - i,
{
    if i < 0 || i >= ms.len() {
        None
    } else if ms[i].message_type == mt && ms[i].name == name {
        Some(ms[i])
    } else {
        find_msg(ms, mt, name, i + 1)
    }
}

/// Scan for a request with no response of the same name, from index `i`.
pub open spec fn check_requests(ms: Seq<MessageView>, i: int) -> Option<Seq<char>>
    decreases ms.len() - i,
{
    if i < 0 || i >= ms.len() {
        None
    } else if ms[i].message_type is Request && find_msg(ms, MessageType::Response, ms[i].name, 0)
        is None {
        Some(render_glob_err(missing_resp_msg(ms[i].name)))
    } else {
        check_requests(ms, i + 1)
    }
}

/// Scan the responses from index `i`: each must have a request of the same
/// name and the successor number, unless it is the `error` response.
pub open spec fn check_responses(ms: Seq<MessageView>, i: int) -> Option<Seq<char>>
    decreases ms.len() - i,
{
    if i < 0 || i >= ms.len() {
        None
    } else if ms[i].message_type is Response {
        match find_msg(ms, MessageType::Request, ms[i].name, 0) {
            Some(req) => if ms[i].number as int != req.number as int + 1 {
                Some(render_glob_err(mismatch_msg(ms[i].name, req, ms[i])))
            } else {
                check_responses(ms, i + 1)
            },
            None => if ms[i].name != error_chars() {
                Some(render_glob_err(missing_req_msg(ms[i].name)))
            } else {
                check_responses(ms, i + 1)
            },
        }
    } else {
        check_responses(ms, i + 1)
    }
}

/// What `parse` returns: either every stripped line assembled in order into a
/// validated message, or the text of the first error.
pub open spec fn spec_parse(s: Seq<char>) -> Result<Seq<MessageView>, Seq<char>> {
    match assemble(spec_strip(s), 0, Seq::empty()) {
        Err(e) => Err(e),
        Ok(ms) => match check_requests(ms, 0) {
            Some(e) => Err(e),
            None => match check_responses(ms, 0) {
                Some(e) => Err(e),
                None => Ok(ms),
            },
        },
    }
}

/// The text of an error tied to one source line.
fn mk_line_error(ln: usize, line: &str, msg: &str) -> (r: String)
    ensures
        r@ == render_line_err(ln as int, line@, msg@),
{
    let mut s = String::from_str("line ");
    let num = fmt_usize(ln);
    s.append(num.as_str());
    s.append(": ");
    s.append(line);
    s.append("\nerror: ");
    s.append(msg);
    proof {
        assert(s@ =~= render_line_err(ln as int, line@, msg@));
    }
    s
}

/// The text of a whole-definition error.
fn mk_glob_error(msg: &str) -> (r: String)
    ensures
        r@ == render_glob_err(msg@),
{
    let mut s = String::from_str("error: ");
    s.append(msg);
    proof {
        assert(s@ =~= render_glob_err(msg@));
    }
    s
}

#[verifier::loop_isolation(false)]
fn contains_full_name(ms: &Vec<Message>, name: &String) -> (r: bool)
    ensures
        r == has_full_name(msgs_view(ms@), name@),
{
    let mut i: usize = 0;
    while i < ms.len()
        invariant
            i <= ms.len(),
            forall|k: int| 0 <= k < i ==> msgs_view(ms@)[k].full_name != name@,
        decreases ms.len() - i,
    {
        if ms[i].full_name == *name {
            proof {
                assert(msgs_view(ms@)[i as int].full_name == name@);
            }
            return true;
        }
        proof {
            assert(msgs_view(ms@)[i as int].full_name == ms@[i as int]@.full_name);
        }
        i = i + 1;
    }
    false
}

#[verifier::loop_isolation(false)]
fn contains_number(ms: &Vec<Message>, num: u8) -> (r: bool)
    ensures
        r == has_number(msgs_view(ms@), num),
{
    let mut i: usize = 0;
    while i < ms.len()
        invariant
            i <= ms.len(),
            forall|k: int| 0 <= k < i ==> msgs_view(ms@)[k].number != num,
        decreases ms.len() - i,
    {
        if ms[i].number == num {
            proof {
                assert(msgs_view(ms@)[i as int].number == num);
            }
            return true;
        }
        proof {
            assert(msgs_view(ms@)[i as int].number == ms@[i as int]@.number);
        }
        i = i + 1;
    }
    false
}

/// The index of the first message of the given type and name, if any.
#[verifier::loop_isolation(false)]
fn find_msg_x(ms: &Vec<Message>, mt: MessageType, name: &String) -> (r: Option<usize>)
    ensures
        match r {
            Some(j) => j < ms.len() && find_msg(msgs_view(ms@), mt, name@, 0) == Some(
                msgs_view(ms@)[j as int],
            ),
            None => find_msg(msgs_view(ms@), mt, name@, 0) is None,
        },
{
    let ghost mv = msgs_view(ms@);
    let mut i: usize = 0;
    while i < ms.len()
        invariant
            i <= ms.len(),
            find_msg(mv, mt, name@, 0) == find_msg(mv, mt, name@, i as int),
        decreases ms.len() - i,
    {
        let type_match = match (ms[i].message_type, mt) {
            (MessageType::Request, MessageType::Request) => true,
            (MessageType::Response, MessageType::Response) => true,
            _ => false,
        };
        proof {
            assert(mv[i as int] == ms@[i as int]@);
        }
        if type_match && ms[i].name == *name {
            return Some(i);
        }
        i = i + 1;
    }
    None
}

/// Parse a whole definition: strip it, assemble each line into a message
/// (failing fast on the first malformed line, duplicated `full_name` or
/// duplicated `number`), then validate the request/response correspondence.
/// On success the messages are returned in line order; on failure the text of
/// the first error.
#[verifier::loop_isolation(false)]
pub fn parse(definition: &str) -> (r: Result<Vec<Message>, String>)
    requires
        definition@.len() < usize::MAX as int,
    ensures
        ({
            match r {
                Ok(msgs) => spec_parse(definition@) == Ok::<Seq<MessageView>, Seq<char>>(
                    msgs_view(msgs@),
                ),
                Err(e) => match spec_parse(definition@) {
                    Err(s) => s == e@,
                    Ok(_) => false,
                },
            }
        }),
        // the validated guarantees of a successful parse
        ({
            match r {
                Ok(msgs) => crate::laws::unique_names(msgs_view(msgs@))
                    && crate::laws::unique_numbers(msgs_view(msgs@)) && crate::laws::paired(
                    msgs_view(msgs@),
                ) && forall|k: int|
                    0 <= k < msgs@.len() ==> crate::laws::wf_msg(#[trigger] msgs_view(msgs@)[k]),
                Err(_) => true,
            }
        }),
{
    let stripped = strip(definition);
    let ghost lines = pairs_view(stripped@);
    let mut msgs: Vec<Message> = Vec::new();
    let mut idx: usize = 0;
    proof {
        assert(msgs_view(msgs@) =~= Seq::<MessageView>::empty());
    }
    while idx < stripped.len()
        invariant
            idx <= stripped.len(),
            assemble(lines, 0, Seq::empty()) == assemble(lines, idx as int, msgs_view(msgs@)),
        decreases stripped.len() - idx,
    {
        let (ln, line) = stripped[idx];
        proof {
            assert(lines[idx as int] == (ln as int, line@));
        }
        let v = chars_of(line);
        let ghost acc = msgs_view(msgs@);
        match parse_line(&v) {
            Err(fx) => {
                let msg: String = match fx {
                    LineFailAt::Size => String::from_str("each message must begin with size[4]"),
                    LineFailAt::Name => String::from_str(
                        "size tag must be followed by a message name",
                    ),
                    LineFailAt::Tag => String::from_str(
                        "each message must have tag[2] as its first field",
                    ),
                    LineFailAt::Field(p) => {
                        let mut mm = String::from_str("bad field in message: ");
                        let rest = line.substring_char(p, line.unicode_len());
                        mm.append(rest);
                        proof {
                            assert(rest@ =~= sfx(v@, p as int));
                        }
                        mm
                    },
                    LineFailAt::BackRefFirst => String::from_str(
                        "array field must be preceded by times field",
                    ),
                    LineFailAt::BackRef => String::from_str(
                        "array field must be preceded by integer times field",
                    ),
                };
                let err = mk_line_error(ln, line, msg.as_str());
                return Err(err);
            },
            Ok(m) => {
                if contains_full_name(&msgs, &m.full_name) {
                    let mut mm = String::from_str("duplicate message name: ");
                    mm.append(m.full_name.as_str());
                    let err = mk_line_error(ln, line, mm.as_str());
                    return Err(err);
                }
                if contains_number(&msgs, m.number) {
                    let mut mm = String::from_str("duplicate message number: ");
                    mm.append(m.full_name.as_str());
                    mm.append(":");
                    let nn = fmt_u8(m.number);
                    mm.append(nn.as_str());
                    let err = mk_line_error(ln, line, mm.as_str());
                    return Err(err);
                }
                let ghost mv = m@;
                msgs.push(m);
                proof {
                    assert(msgs_view(msgs@) =~= acc.push(mv));
                }
                idx = idx + 1;
            },
        }
    }
    let ghost m_all = msgs_view(msgs@);
    proof {
        assert(assemble(lines, idx as int, m_all) == Ok::<Seq<MessageView>, Seq<char>>(m_all));
    }
    // every request must have a response of the same name
    let mut i: usize = 0;
    while i < msgs.len()
        invariant
            i <= msgs.len(),
            m_all == msgs_view(msgs@),
            assemble(lines, 0, Seq::empty()) == Ok::<Seq<MessageView>, Seq<char>>(m_all),
            check_requests(m_all, 0) == check_requests(m_all, i as int),
        decreases msgs.len() - i,
    {
        proof {
            assert(m_all[i as int] == msgs@[i as int]@);
        }
        let is_req = match msgs[i].message_type {
            MessageType::Request => true,
            MessageType::Response => false,
        };
        if is_req {
            if find_msg_x(&msgs, MessageType::Response, &msgs[i].name).is_none() {
                let mut mm = String::from_str("request without corresponding response: ");
                mm.append(msgs[i].name.as_str());
                let err = mk_glob_error(mm.as_str());
                return Err(err);
            }
        }
        i = i + 1;
    }
    // every response must pair with a request, except the error response
    let mut j: usize = 0;
    while j < msgs.len()
        invariant
            j <= msgs.len(),
            m_all == msgs_view(msgs@),
            assemble(lines, 0, Seq::empty()) == Ok::<Seq<MessageView>, Seq<char>>(m_all),
            check_requests(m_all, 0) is None,
            check_responses(m_all, 0) == check_responses(m_all, j as int),
        decreases msgs.len() - j,
    {
        proof {
            assert(m_all[j as int] == msgs@[j as int]@);
        }
        let is_resp = match msgs[j].message_type {
            MessageType::Request => false,
            MessageType::Response => true,
        };
        if is_resp {
            match find_msg_x(&msgs, MessageType::Request, &msgs[j].name) {
                Some(rq) => {
                    proof {
                        assert(m_all[rq as int] == msgs@[rq as int]@);
                    }
                    if (msgs[j].number as u16) != (msgs[rq].number as u16) + 1 {
                        let mut mm = String::from_str(
                            "Response number not equal to request number + 1: ",
                        );
                        mm.append(msgs[j].name.as_str());
                        mm.append("\n");
                        mm.append(msgs[rq].full_name.as_str());
                        mm.append(": ");
                        let rn = fmt_u8(msgs[rq].number);
                        mm.append(rn.as_str());
                        mm.append("\n");
                        mm.append(msgs[j].full_name.as_str());
                        mm.append("\n");
                        let sn = fmt_u8(msgs[j].number);
                        mm.append(sn.as_str());
                        mm.append("\n");
                        let err = mk_glob_error(mm.as_str());
                        proof {
                            assert(mm@ =~= mismatch_msg(
                                m_all[j as int].name,
                                m_all[rq as int],
                                m_all[j as int],
                            ));
                        }
                        return Err(err);
                    }
                },
                None => {
                    let error_word: Vec<char> = vec!['e', 'r', 'r', 'o', 'r'];
                    proof {
                        assert(error_word@ =~= error_chars());
                    }
                    if !string_eq_chars(&msgs[j].name, &error_word) {
                        let mut mm = String::from_str("response without corresponding request: ");
                        mm.append(msgs[j].name.as_str());
                        let err = mk_glob_error(mm.as_str());
                        return Err(err);
                    }
                },
            }
        }
        j = j + 1;
    }
    proof {
        crate::laws::lemma_assemble_props(lines, 0, Seq::empty());
        assert forall|k: int| 0 <= k < m_all.len() implies (#[trigger] m_all[k]).full_name == seq![
            mt_char(m_all[k].message_type),
        ] + m_all[k].name by {
            assert(crate::laws::wf_msg(m_all[k]));
        }
        crate::laws::lemma_paired(m_all);
    }
    Ok(msgs)
}

} // verus!
