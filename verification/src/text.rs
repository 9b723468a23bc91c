//! Character classes, whitespace and run scanning over character sequences,
//! and decimal rendering. These are the shared leaves of the grammar, the
//! stripper and the canonical formatter.

use vstd::prelude::*;

verus! {

/// Whitespace, for token separation and line trimming.
pub open spec fn is_space(c: char) -> bool {
    c == ' ' || c == '\t' || c == '\r' || c == '\n'
}

/// Lowercase ASCII letters, the only characters of message and field names.
pub open spec fn is_lower(c: char) -> bool {
    'a' as u32 <= c as u32 && c as u32 <= 'z' as u32
}

/// Decimal digits.
pub open spec fn is_digit(c: char) -> bool {
    '0' as u32 <= c as u32 && c as u32 <= '9' as u32
}

pub fn is_space_x(c: char) -> (r: bool)
    ensures
        r == is_space(c),
{
    c == ' ' || c == '\t' || c == '\r' || c == '\n'
}

pub fn is_lower_x(c: char) -> (r: bool)
    ensures
        r == is_lower(c),
{
    'a' as u32 <= c as u32 && c as u32 <= 'z' as u32
}

pub fn is_digit_x(c: char) -> (r: bool)
    ensures
        r == is_digit(c),
{
    '0' as u32 <= c as u32 && c as u32 <= '9' as u32
}

/// The suffix of `s` from position `i`.
pub open spec fn sfx(s: Seq<char>, i: int) -> Seq<char> {
    s.subrange(i, s.len() as int)
}

/// `s` without its leading whitespace.
pub open spec fn skip_ws(s: Seq<char>) -> Seq<char>
    decreases s.len(),
{
    if s.len() > 0 && is_space(s[0]) {
        skip_ws(s.drop_first())
    } else {
        s
    }
}

/// The length of the leading run of lowercase letters in `s`.
pub open spec fn lower_run(s: Seq<char>) -> int
    decreases s.len(),
{
    if s.len() > 0 && is_lower(s[0]) {
        1 + lower_run(s.drop_first())
    } else {
        0
    }
}

/// The length of the leading run of decimal digits in `s`.
pub open spec fn digit_run(s: Seq<char>) -> int
    decreases s.len(),
{
    if s.len() > 0 && is_digit(s[0]) {
        1 + digit_run(s.drop_first())
    } else {
        0
    }
}

/// The index of the first occurrence of `c` in `s`, or -1 if there is none.
pub open spec fn find_char(s: Seq<char>, c: char) -> int
    decreases s.len(),
{
    if s.len() == 0 {
        -1
    } else if s[0] == c {
        0
    } else {
        let r = find_char(s.drop_first(), c);
        if r < 0 {
            -1
        } else {
            1 + r
        }
    }
}

/// `s` without its trailing whitespace.
pub open spec fn trim_end(s: Seq<char>) -> Seq<char>
    decreases s.len(),
{
    if s.len() > 0 && is_space(s.last()) {
        trim_end(s.drop_last())
    } else {
        s
    }
}

pub proof fn lemma_skip_ws_len(s: Seq<char>)
    ensures
        skip_ws(s).len() <= s.len(),
    decreases s.len(),
{
    if s.len() > 0 && is_space(s[0]) {
        lemma_skip_ws_len(s.drop_first());
    }
}

pub proof fn lemma_lower_run_range(s: Seq<char>)
    ensures
        0 <= lower_run(s) <= s.len(),
        forall|k: int| 0 <= k < lower_run(s) ==> is_lower(s[k]),
        lower_run(s) < s.len() ==> !is_lower(s[lower_run(s)]),
    decreases s.len(),
{
    if s.len() > 0 && is_lower(s[0]) {
        lemma_lower_run_range(s.drop_first());
        assert forall|k: int| 0 <= k < lower_run(s) implies is_lower(s[k]) by {
            if k > 0 {
                assert(s[k] == s.drop_first()[k - 1]);
            }
        }
    }
}

pub proof fn lemma_digit_run_range(s: Seq<char>)
    ensures
        0 <= digit_run(s) <= s.len(),
        forall|k: int| 0 <= k < digit_run(s) ==> is_digit(s[k]),
        digit_run(s) < s.len() ==> !is_digit(s[digit_run(s)]),
    decreases s.len(),
{
    if s.len() > 0 && is_digit(s[0]) {
        lemma_digit_run_range(s.drop_first());
        assert forall|k: int| 0 <= k < digit_run(s) implies is_digit(s[k]) by {
            if k > 0 {
                assert(s[k] == s.drop_first()[k - 1]);
            }
        }
    }
}

pub proof fn lemma_find_char_range(s: Seq<char>, c: char)
    ensures
        -1 <= find_char(s, c) < s.len(),
        find_char(s, c) >= 0 ==> s[find_char(s, c)] == c,
        forall|k: int| 0 <= k < find_char(s, c) ==> s[k] != c,
        find_char(s, c) == -1 ==> forall|k: int| 0 <= k < s.len() ==> s[k] != c,
    decreases s.len(),
{
    if s.len() > 0 && s[0] != c {
        lemma_find_char_range(s.drop_first(), c);
        assert forall|k: int| 0 <= k < find_char(s, c) implies s[k] != c by {
            if k > 0 {
                assert(s[k] == s.drop_first()[k - 1]);
            }
        }
        if find_char(s, c) == -1 {
            assert forall|k: int| 0 <= k < s.len() implies s[k] != c by {
                if k > 0 {
                    assert(s[k] == s.drop_first()[k - 1]);
                }
            }
        }
    }
}

/// Skip whitespace in `v` from position `i` on.
pub fn skip_ws_x(v: &Vec<char>, i: usize) -> (j: usize)
    requires
        i <= v.len(),
    ensures
        i <= j <= v.len(),
        sfx(v@, j as int) == skip_ws(sfx(v@, i as int)),
        forall|k: int| i <= k < j ==> is_space(v@[k]),
        j < v.len() ==> !is_space(v@[j as int]),
{
    let mut j: usize = i;
    while j < v.len() && is_space_x(v[j])
        invariant
            i <= j <= v.len(),
            skip_ws(sfx(v@, i as int)) == skip_ws(sfx(v@, j as int)),
            forall|k: int| i <= k < j ==> is_space(v@[k]),
        decreases v.len() - j,
    {
        proof {
            assert(sfx(v@, j as int).drop_first() =~= sfx(v@, j + 1));
        }
        j = j + 1;
    }
    proof {
        assert(skip_ws(sfx(v@, j as int)) == sfx(v@, j as int));
    }
    j
}

/// The end of the run of lowercase letters starting at `i`.
pub fn lower_run_x(v: &Vec<char>, i: usize) -> (j: usize)
    requires
        i <= v.len(),
    ensures
        i <= j <= v.len(),
        j - i == lower_run(sfx(v@, i as int)),
{
    let mut j: usize = i;
    while j < v.len() && is_lower_x(v[j])
        invariant
            i <= j <= v.len(),
            lower_run(sfx(v@, i as int)) == (j - i) + lower_run(sfx(v@, j as int)),
        decreases v.len() - j,
    {
        proof {
            assert(sfx(v@, j as int).drop_first() =~= sfx(v@, j + 1));
        }
        j = j + 1;
    }
    j
}

/// The end of the run of decimal digits starting at `i`.
pub fn digit_run_x(v: &Vec<char>, i: usize) -> (j: usize)
    requires
        i <= v.len(),
    ensures
        i <= j <= v.len(),
        j - i == digit_run(sfx(v@, i as int)),
{
    let mut j: usize = i;
    while j < v.len() && is_digit_x(v[j])
        invariant
            i <= j <= v.len(),
            digit_run(sfx(v@, i as int)) == (j - i) + digit_run(sfx(v@, j as int)),
        decreases v.len() - j,
    {
        proof {
            assert(sfx(v@, j as int).drop_first() =~= sfx(v@, j + 1));
        }
        j = j + 1;
    }
    j
}

/// The digit character for a value between 0 and 9.
pub open spec fn digit_char(d: int) -> char {
    if d == 0 { '0' }
    else if d == 1 { '1' }
    else if d == 2 { '2' }
    else if d == 3 { '3' }
    else if d == 4 { '4' }
    else if d == 5 { '5' }
    else if d == 6 { '6' }
    else if d == 7 { '7' }
    else if d == 8 { '8' }
    else { '9' }
}

/// The numeric value of a digit character.
pub open spec fn digit_val(c: char) -> int {
    c as u32 - '0' as u32
}

/// The value of a sequence of digit characters read as a decimal numeral.
pub open spec fn digits_val(s: Seq<char>) -> int
    decreases s.len(),
{
    if s.len() == 0 {
        0
    } else {
        digits_val(s.drop_last()) * 10 + digit_val(s.last())
    }
}

/// The canonical decimal numeral of a non-negative number: no leading zeros.
pub open spec fn render_dec(n: int) -> Seq<char>
    decreases n,
{
    if n < 0 {
        Seq::empty()
    } else if n < 10 {
        seq![digit_char(n)]
    } else {
        render_dec(n / 10).push(digit_char(n % 10))
    }
}

pub proof fn lemma_digits_val_bounds(s: Seq<char>)
    requires
        forall|k: int| 0 <= k < s.len() ==> is_digit(s[k]),
    ensures
        digits_val(s) >= 0,
        s.len() > 0 && digit_val(s[0]) >= 1 ==> digits_val(s) >= digit_val(s[0]),
    decreases s.len(),
{
    if s.len() > 0 {
        lemma_digits_val_bounds(s.drop_last());
        if s.len() > 1 {
            assert(s.drop_last()[0] == s[0]);
        }
    }
}

/// Appending digits never shrinks the value of a numeral.
pub proof fn lemma_digits_val_mono(s: Seq<char>, i: int, j: int)
    requires
        forall|k: int| 0 <= k < s.len() ==> is_digit(s[k]),
        0 <= i <= j <= s.len(),
    ensures
        digits_val(s.take(i)) <= digits_val(s.take(j)),
    decreases j - i,
{
    if i < j {
        lemma_digits_val_mono(s, i, j - 1);
        assert(s.take(j).drop_last() =~= s.take(j - 1));
        assert forall|k: int| 0 <= k < s.take(j - 1).len() implies is_digit(
            #[trigger] s.take(j - 1)[k],
        ) by {
            assert(s.take(j - 1)[k] == s[k]);
        }
        lemma_digits_val_bounds(s.take(j - 1));
        assert(digits_val(s.take(j)) == digits_val(s.take(j - 1)) * 10 + digit_val(s.take(j).last()));
        assert(digit_val(s.take(j).last()) >= 0);
        assert(digits_val(s.take(j - 1)) * 10 >= digits_val(s.take(j - 1)));
    }
}

/// Relies on `String::push`: appends one character to the string.
#[verifier::external_body]
pub fn push_char(s: &mut String, c: char)
    ensures
        final(s)@ == old(s)@.push(c),
{
    s.push(c)
}

/// The character content of a string, as a vector.
pub fn chars_of(s: &str) -> (v: Vec<char>)
    ensures
        v@ == s@,
{
    let n = s.unicode_len();
    let mut v: Vec<char> = Vec::new();
    let mut i: usize = 0;
    while i < n
        invariant
            n == s@.len(),
            i <= n,
            v@ == s@.take(i as int),
        decreases n - i,
    {
        let c = s.get_char(i);
        v.push(c);
        proof {
            assert(s@.take(i + 1) =~= s@.take(i as int).push(s@[i as int]));
        }
        i = i + 1;
    }
    proof {
        assert(s@.take(n as int) =~= s@);
    }
    v
}

/// The numeric value of a digit character.
pub fn digit_val_x(c: char) -> (r: u32)
    requires
        is_digit(c),
    ensures
        r == digit_val(c),
        r <= 9,
{
    c as u32 - '0' as u32
}

/// The characters of `v` between `from` and `to`, as a new vector.
pub fn copy_range(v: &Vec<char>, from: usize, to: usize) -> (r: Vec<char>)
    requires
        from <= to <= v.len(),
    ensures
        r@ == v@.subrange(from as int, to as int),
{
    let mut r: Vec<char> = Vec::new();
    let mut i: usize = from;
    while i < to
        invariant
            from <= i <= to <= v.len(),
            r@ == v@.subrange(from as int, i as int),
        decreases to - i,
    {
        r.push(v[i]);
        proof {
            assert(v@.subrange(from as int, i + 1) =~= v@.subrange(from as int, i as int).push(
                v@[i as int],
            ));
        }
        i = i + 1;
    }
    r
}

/// A string holding the characters of `v` between `from` and `to`.
pub fn string_from_range(v: &Vec<char>, from: usize, to: usize) -> (s: String)
    requires
        from <= to <= v.len(),
    ensures
        s@ == v@.subrange(from as int, to as int),
{
    let mut s = String::new();
    let mut i: usize = from;
    while i < to
        invariant
            from <= i <= to <= v.len(),
            s@ == v@.subrange(from as int, i as int),
        decreases to - i,
    {
        push_char(&mut s, v[i]);
        proof {
            assert(v@.subrange(from as int, i + 1) =~= v@.subrange(from as int, i as int).push(
                v@[i as int],
            ));
        }
        i = i + 1;
    }
    s
}

/// The canonical decimal numeral of `n`.
pub fn fmt_u8(n: u8) -> (s: String)
    ensures
        s@ == render_dec(n as int),
{
    let mut s = String::new();
    if n >= 100 {
        push_char(&mut s, digit_char_x(n / 100));
    }
    if n >= 10 {
        push_char(&mut s, digit_char_x((n / 10) % 10));
    }
    push_char(&mut s, digit_char_x(n % 10));
    proof {
        reveal_with_fuel(render_dec, 4);
        assert(s@ =~= render_dec(n as int));
    }
    s
}

/// The canonical decimal numeral of `n`.
pub fn fmt_usize(n: usize) -> (s: String)
    ensures
        s@ == render_dec(n as int),
    decreases n,
{
    if n < 10 {
        let mut s = String::new();
        push_char(&mut s, digit_char_x((n % 10) as u8));
        proof {
            assert(s@ =~= render_dec(n as int));
        }
        s
    } else {
        let mut s = fmt_usize(n / 10);
        push_char(&mut s, digit_char_x((n % 10) as u8));
        s
    }
}

/// The digit character for a value between 0 and 9.
pub fn digit_char_x(d: u8) -> (c: char)
    requires
        d < 10,
    ensures
        c == digit_char(d as int),
{
    match d {
        0 => '0',
        1 => '1',
        2 => '2',
        3 => '3',
        4 => '4',
        5 => '5',
        6 => '6',
        7 => '7',
        8 => '8',
        _ => '9',
    }
}

/// The position of the first occurrence of `c` at or after `i`, if any.
pub fn find_char_x(v: &Vec<char>, i: usize, c: char) -> (r: Option<usize>)
    requires
        i <= v.len(),
    ensures
        match r {
            Some(j) => i <= j < v.len() && find_char(sfx(v@, i as int), c) == j - i,
            None => find_char(sfx(v@, i as int), c) == -1,
        },
{
    let mut j: usize = i;
    while j < v.len()
        invariant
            i <= j <= v.len(),
            ({
                let f = find_char(sfx(v@, j as int), c);
                find_char(sfx(v@, i as int), c) == if f < 0 {
                    -1int
                } else {
                    (j - i) + f
                }
            }),
        decreases v.len() - j,
    {
        proof {
            assert(sfx(v@, j as int).drop_first() =~= sfx(v@, j + 1));
            lemma_find_char_range(sfx(v@, j + 1), c);
        }
        if v[j] == c {
            return Some(j);
        }
        j = j + 1;
    }
    None
}

/// Skipping leading whitespace drops exactly the maximal space prefix.
pub proof fn lemma_skip_ws_char(x: Seq<char>, t: int)
    requires
        0 <= t <= x.len(),
        forall|k: int| 0 <= k < t ==> is_space(x[k]),
        t < x.len() ==> !is_space(x[t]),
    ensures
        skip_ws(x) == x.skip(t),
    decreases t,
{
    if t == 0 {
        assert(x.skip(0) =~= x);
    } else {
        assert(is_space(x[0]));
        lemma_skip_ws_char(x.drop_first(), t - 1);
        assert(x.drop_first().skip(t - 1) =~= x.skip(t));
    }
}

/// Trimming trailing whitespace keeps exactly the prefix before the maximal
/// space suffix.
pub proof fn lemma_trim_end_char(x: Seq<char>, t: int)
    requires
        0 <= t <= x.len(),
        forall|k: int| t <= k < x.len() ==> is_space(x[k]),
        t > 0 ==> !is_space(x[t - 1]),
    ensures
        trim_end(x) == x.take(t),
    decreases x.len(),
{
    if x.len() > t {
        assert(is_space(x.last()));
        lemma_trim_end_char(x.drop_last(), t);
        assert(x.drop_last().take(t) =~= x.take(t));
    } else {
        assert(x.take(t) =~= x);
    }
}

/// The position of the first occurrence of `c` in `v` between `from` and
/// `to`, if any.
#[verifier::loop_isolation(false)]
pub fn find_char_range_x(v: &Vec<char>, from: usize, to: usize, c: char) -> (r: Option<usize>)
    requires
        from <= to <= v.len(),
    ensures
        match r {
            Some(j) => from <= j < to && find_char(v@.subrange(from as int, to as int), c) == j
                - from,
            None => find_char(v@.subrange(from as int, to as int), c) == -1,
        },
{
    let mut j: usize = from;
    while j < to
        invariant
            from <= j <= to,
            ({
                let f = find_char(v@.subrange(j as int, to as int), c);
                find_char(v@.subrange(from as int, to as int), c) == if f < 0 {
                    -1int
                } else {
                    (j - from) + f
                }
            }),
        decreases to - j,
    {
        proof {
            assert(v@.subrange(j as int, to as int).drop_first() =~= v@.subrange(j + 1, to as int));
            lemma_find_char_range(v@.subrange(j + 1, to as int), c);
        }
        if v[j] == c {
            return Some(j);
        }
        j = j + 1;
    }
    None
}

/// The first non-whitespace position in `v` between `from` and `to`.
#[verifier::loop_isolation(false)]
pub fn skip_ws_range_x(v: &Vec<char>, from: usize, to: usize) -> (t: usize)
    requires
        from <= to <= v.len(),
    ensures
        from <= t <= to,
        skip_ws(v@.subrange(from as int, to as int)) == v@.subrange(t as int, to as int),
        t > from ==> is_space(v@[t - 1]),
{
    let mut t: usize = from;
    while t < to && is_space_x(v[t])
        invariant
            from <= t <= to,
            forall|k: int| from <= k < t ==> is_space(v@[k]),
        decreases to - t,
    {
        t = t + 1;
    }
    proof {
        let x = v@.subrange(from as int, to as int);
        assert forall|k: int| 0 <= k < t - from implies is_space(x[k]) by {
            assert(x[k] == v@[from + k]);
        }
        if t < to {
            assert(x[t - from] == v@[t as int]);
        }
        lemma_skip_ws_char(x, t - from);
        assert(x.skip(t - from) =~= v@.subrange(t as int, to as int));
    }
    t
}

/// The end of the content before the trailing whitespace of `v` between
/// `from` and `to`.
#[verifier::loop_isolation(false)]
pub fn trim_end_range_x(v: &Vec<char>, from: usize, to: usize) -> (t: usize)
    requires
        from <= to <= v.len(),
    ensures
        from <= t <= to,
        trim_end(v@.subrange(from as int, to as int)) == v@.subrange(from as int, t as int),
{
    let mut t: usize = to;
    while t > from && is_space_x(v[t - 1])
        invariant
            from <= t <= to,
            forall|k: int| t <= k < to ==> is_space(v@[k]),
        decreases t,
    {
        t = t - 1;
    }
    proof {
        let x = v@.subrange(from as int, to as int);
        assert forall|k: int| t - from <= k < x.len() implies is_space(x[k]) by {
            assert(x[k] == v@[from + k]);
        }
        if t > from {
            assert(x[t - from - 1] == v@[t - 1]);
        }
        lemma_trim_end_char(x, t - from);
        assert(x.take(t - from) =~= v@.subrange(from as int, t as int));
    }
    t
}

} // verus!
