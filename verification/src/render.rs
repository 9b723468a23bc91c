//! The canonical formatter: renders a message back to the grammar's exact
//! surface syntax, one canonical token per construct, single spaces between
//! tokens. Rendering a parsed definition reproduces the stripped input.

use vstd::prelude::*;
use vstd::string::StringExecFns;

use crate::text::push_char;
use crate::text::render_dec;
use crate::text::fmt_u8;
use crate::types::Field;
use crate::types::FieldType;
use crate::types::FieldView;
use crate::types::Message;
use crate::types::MessageView;

verus! {

/// The canonical grammar token of a field type.
pub open spec fn type_code(t: FieldType) -> Seq<char> {
    match t {
        FieldType::U8 => seq!['1'],
        FieldType::U16 => seq!['2'],
        FieldType::U32 => seq!['4'],
        FieldType::U64 => seq!['8'],
        FieldType::QID => seq!['1', '3'],
        FieldType::Stat => seq!['n'],
        FieldType::Bytes => seq!['c', 'o', 'u', 'n', 't'],
        FieldType::String => seq!['s'],
    }
}

/// The canonical text of one field: `name[code]`, or `times*(name[code])` for
/// an array field.
pub open spec fn render_field(f: FieldView) -> Seq<char> {
    match f.times {
        None => f.name + seq!['['] + type_code(f.field_type) + seq![']'],
        Some(tm) => tm + seq!['*', '('] + f.name + seq!['['] + type_code(f.field_type)
            + seq![']', ')'],
    }
}

/// The canonical text of a message's body fields, each preceded by one space.
pub open spec fn render_fields(fs: Seq<FieldView>) -> Seq<char>
    decreases fs.len(),
{
    if fs.len() == 0 {
        Seq::empty()
    } else {
        seq![' '] + render_field(fs[0]) + render_fields(fs.drop_first())
    }
}

/// The canonical text of a whole message line.
pub open spec fn render_msg(m: MessageView) -> Seq<char> {
    seq!['s', 'i', 'z', 'e', '[', '4', ']', ' '] + m.full_name + seq![':'] + render_dec(
        m.number as int,
    ) + seq![' ', 't', 'a', 'g', '[', '2', ']'] + render_fields(m.fields)
}

/// Rendering the body fields one at a time appends one separated field each.
pub proof fn lemma_render_fields_snoc(fs: Seq<FieldView>, i: int)
    requires
        0 <= i < fs.len(),
    ensures
        render_fields(fs.take(i + 1)) == render_fields(fs.take(i)) + seq![' '] + render_field(
            fs[i],
        ),
    decreases i,
{
    if i == 0 {
        assert(fs.take(1).drop_first() =~= Seq::<FieldView>::empty());
        assert(fs.take(0) =~= Seq::<FieldView>::empty());
        assert(render_fields(Seq::<FieldView>::empty()) == Seq::<char>::empty());
        assert(fs.take(1)[0] == fs[0]);
        assert(render_fields(fs.take(1)) =~= render_fields(fs.take(0)) + seq![' ']
            + render_field(fs[0]));
    } else {
        lemma_render_fields_snoc(fs.drop_first(), i - 1);
        assert(fs.take(i + 1).drop_first() =~= fs.drop_first().take(i));
        assert(fs.take(i).drop_first() =~= fs.drop_first().take(i - 1));
        assert(fs.take(i + 1)[0] == fs[0]);
        assert(fs.take(i)[0] == fs[0]);
        assert(fs.drop_first()[i - 1] == fs[i]);
        assert(render_fields(fs.take(i + 1)) == seq![' '] + render_field(fs[0]) + render_fields(
            fs.drop_first().take(i),
        ));
        assert(render_fields(fs.take(i)) == seq![' '] + render_field(fs[0]) + render_fields(
            fs.drop_first().take(i - 1),
        ));
        assert(seq![' '] + render_field(fs[0]) + (render_fields(fs.drop_first().take(i - 1))
            + seq![' '] + render_field(fs[i])) =~= (seq![' '] + render_field(fs[0])
            + render_fields(fs.drop_first().take(i - 1))) + seq![' '] + render_field(fs[i]));
    }
}

/// The canonical token of a field type, as a string.
pub fn type_code_x(t: FieldType) -> (s: String)
    ensures
        s@ == type_code(t),
{
    let mut s = String::new();
    match t {
        FieldType::U8 => push_char(&mut s, '1'),
        FieldType::U16 => push_char(&mut s, '2'),
        FieldType::U32 => push_char(&mut s, '4'),
        FieldType::U64 => push_char(&mut s, '8'),
        FieldType::QID => {
            push_char(&mut s, '1');
            push_char(&mut s, '3');
        },
        FieldType::Stat => push_char(&mut s, 'n'),
        FieldType::Bytes => {
            push_char(&mut s, 'c');
            push_char(&mut s, 'o');
            push_char(&mut s, 'u');
            push_char(&mut s, 'n');
            push_char(&mut s, 't');
        },
        FieldType::String => push_char(&mut s, 's'),
    }
    proof {
        assert(s@ =~= type_code(t));
    }
    s
}

/// Render one field in canonical form.
pub fn fmt_field(f: &Field) -> (s: String)
    ensures
        s@ == render_field(f@),
{
    let mut s = String::new();
    match &f.times {
        Some(tm) => {
            s.append(tm.as_str());
            push_char(&mut s, '*');
            push_char(&mut s, '(');
            s.append(f.name.as_str());
            push_char(&mut s, '[');
            let code = type_code_x(f.field_type);
            s.append(code.as_str());
            push_char(&mut s, ']');
            push_char(&mut s, ')');
        },
        None => {
            s.append(f.name.as_str());
            push_char(&mut s, '[');
            let code = type_code_x(f.field_type);
            s.append(code.as_str());
            push_char(&mut s, ']');
        },
    }
    proof {
        assert(s@ =~= render_field(f@));
    }
    s
}

/// Render one message line in canonical form: the fixed `size[4]` preamble,
/// the full name and number, the fixed `tag[2]` field, then the body fields.
#[verifier::loop_isolation(false)]
pub fn fmt_message(m: &Message) -> (s: String)
    ensures
        s@ == render_msg(m@),
{
    let mut s = String::new();
    push_char(&mut s, 's');
    push_char(&mut s, 'i');
    push_char(&mut s, 'z');
    push_char(&mut s, 'e');
    push_char(&mut s, '[');
    push_char(&mut s, '4');
    push_char(&mut s, ']');
    push_char(&mut s, ' ');
    s.append(m.full_name.as_str());
    push_char(&mut s, ':');
    let num = fmt_u8(m.number);
    s.append(num.as_str());
    push_char(&mut s, ' ');
    push_char(&mut s, 't');
    push_char(&mut s, 'a');
    push_char(&mut s, 'g');
    push_char(&mut s, '[');
    push_char(&mut s, '2');
    push_char(&mut s, ']');
    let ghost head = s@;
    proof {
        assert(head =~= seq!['s', 'i', 'z', 'e', '[', '4', ']', ' '] + m@.full_name + seq![':']
            + render_dec(m.number as int) + seq![' ', 't', 'a', 'g', '[', '2', ']']);
        assert(m@.fields.take(0) =~= Seq::<FieldView>::empty());
    }
    let mut i: usize = 0;
    while i < m.fields.len()
        invariant
            i <= m.fields.len(),
            s@ == head + render_fields(m@.fields.take(i as int)),
        decreases m.fields.len() - i,
    {
        push_char(&mut s, ' ');
        let fr = fmt_field(&m.fields[i]);
        s.append(fr.as_str());
        proof {
            lemma_render_fields_snoc(m@.fields, i as int);
            assert(m@.fields[i as int] == m.fields[i as int]@);
            assert(head + render_fields(m@.fields.take(i as int)) + seq![' '] + render_field(
                m@.fields[i as int],
            ) =~= head + (render_fields(m@.fields.take(i as int)) + seq![' '] + render_field(
                m@.fields[i as int],
            )));
        }
        i = i + 1;
    }
    proof {
        assert(m@.fields.take(m.fields.len() as int) =~= m@.fields);
    }
    s
}

} // verus!
