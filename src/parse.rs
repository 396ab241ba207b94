use vstd::prelude::*;
use vstd::string::StrSliceExecFns;

verus! {

/// Characters that end a value: a line break or a comma.
pub open spec fn is_separator(c: char) -> bool {
    c == '\n' || c == ','
}

/// Unicode `White_Space` characters, the ones that trimming removes.
pub open spec fn is_ws(c: char) -> bool {
    ('\t' <= c && c <= '\r') || c == ' ' || c == '\u{85}' || c == '\u{A0}' || c == '\u{1680}' || ('\u{2000}'
        <= c && c <= '\u{200A}') || c == '\u{2028}' || c == '\u{2029}' || c == '\u{202F}' || c == '\u{205F}'
        || c == '\u{3000}'
}

/// The fields of `s` between separators; one empty field for empty input.
pub open spec fn fields(s: Seq<char>) -> Seq<Seq<char>>
    decreases s.len(),
{
    if s.len() == 0 {
        seq![Seq::<char>::empty()]
    } else {
        let f = fields(s.drop_last());
        if is_separator(s.last()) {
            f.push(Seq::<char>::empty())
        } else {
            f.update(f.len() - 1, f.last().push(s.last()))
        }
    }
}

pub open spec fn trim_start(t: Seq<char>) -> Seq<char>
    decreases t.len(),
{
    if t.len() > 0 && is_ws(t[0]) {
        trim_start(t.drop_first())
    } else {
        t
    }
}

pub open spec fn trim_end(t: Seq<char>) -> Seq<char>
    decreases t.len(),
{
    if t.len() > 0 && is_ws(t.last()) {
        trim_end(t.drop_last())
    } else {
        t
    }
}

/// `t` without one leading `+`.
pub open spec fn unsigned_part(t: Seq<char>) -> Seq<char> {
    if t.len() > 0 && t[0] == '+' {
        t.drop_first()
    } else {
        t
    }
}

pub open spec fn is_digit_char(c: char) -> bool {
    '0' <= c && c <= '9'
}

/// The number written by the decimal digits `ds`.
pub open spec fn decimal(ds: Seq<char>) -> nat
    decreases ds.len(),
{
    if ds.len() == 0 {
        0
    } else {
        decimal(ds.drop_last()) * 10 + (ds.last() as nat - '0' as nat) as nat
    }
}

/// The digit that field `t` holds: after trimming, an optional `+` and
/// decimal digits whose value is at most 9; `None` for anything else.
pub open spec fn field_digit(t: Seq<char>) -> Option<u32> {
    let ds = unsigned_part(trim_end(trim_start(t)));
    if ds.len() > 0 && (forall|i: int| 0 <= i < ds.len() ==> is_digit_char(#[trigger] ds[i])) && decimal(ds) <= 9 {
        Some(decimal(ds) as u32)
    } else {
        None
    }
}

/// The digits of the fields `fs` that hold one, in order.
pub open spec fn field_digits(fs: Seq<Seq<char>>) -> Seq<u32>
    decreases fs.len(),
{
    if fs.len() == 0 {
        Seq::<u32>::empty()
    } else {
        let rest = field_digits(fs.drop_last());
        match field_digit(fs.last()) {
            Some(v) => rest.push(v),
            None => rest,
        }
    }
}

/// The digits read from `s`, in order.
pub open spec fn input_digits(s: Seq<char>) -> Seq<u32> {
    field_digits(fields(s))
}

fn is_ws_char(c: char) -> (b: bool)
    ensures
        b == is_ws(c),
{
    ('\t' <= c && c <= '\r') || c == ' ' || c == '\u{85}' || c == '\u{A0}' || c == '\u{1680}' || ('\u{2000}'
        <= c && c <= '\u{200A}') || c == '\u{2028}' || c == '\u{2029}' || c == '\u{202F}' || c == '\u{205F}'
        || c == '\u{3000}'
}

proof fn lemma_decimal_step(ds: Seq<char>, k: int)
    requires
        0 <= k < ds.len(),
    ensures
        decimal(ds.subrange(0, k + 1)) == decimal(ds.subrange(0, k)) * 10 + (ds[k] as nat - '0' as nat) as nat,
{
    assert(ds.subrange(0, k + 1).drop_last() =~= ds.subrange(0, k));
}

/// The digit that the field `t` holds, if any.
fn read_field(t: &Vec<char>) -> (r: Option<u32>)
    ensures
        r == field_digit(t@),
{
    let n = t.len();
    let mut a: usize = 0;
    assert(t@.subrange(0, n as int) =~= t@);
    while a < n && is_ws_char(t[a])
        invariant
            a <= n,
            n == t@.len(),
            trim_start(t@) == trim_start(t@.subrange(a as int, n as int)),
        decreases n - a,
    {
        assert(t@.subrange(a as int, n as int).drop_first() =~= t@.subrange(a as int + 1, n as int));
        a = a + 1;
    }
    assert(trim_start(t@) == t@.subrange(a as int, n as int));
    let mut b: usize = n;
    while b > a && is_ws_char(t[b - 1])
        invariant
            a <= b <= n,
            n == t@.len(),
            trim_end(t@.subrange(a as int, n as int)) == trim_end(t@.subrange(a as int, b as int)),
        decreases b,
    {
        assert(t@.subrange(a as int, b as int).drop_last() =~= t@.subrange(a as int, b as int - 1));
        b = b - 1;
    }
    let ghost trimmed = t@.subrange(a as int, b as int);
    assert(trim_end(trim_start(t@)) == trimmed);
    if a < b && t[a] == '+' {
        a = a + 1;
    }
    let ghost ds = t@.subrange(a as int, b as int);
    assert(unsigned_part(trimmed) =~= ds);
    if a >= b {
        return None;
    }
    let mut v: u32 = 0;
    let mut k: usize = a;
    while k < b
        invariant
            a <= k <= b <= n,
            n == t@.len(),
            ds == t@.subrange(a as int, b as int),
            ds == unsigned_part(trim_end(trim_start(t@))),
            forall|i: int| 0 <= i < k - a ==> is_digit_char(#[trigger] ds[i]),
            v <= 10,
            v == (if decimal(ds.subrange(0, k - a)) > 10 { 10 } else { decimal(ds.subrange(0, k - a)) }),
        decreases b - k,
    {
        let c = t[k];
        if !('0' <= c && c <= '9') {
            assert(ds[k - a] == c);
            assert(!is_digit_char(ds[k - a]));
            assert(!(forall|i: int| 0 <= i < ds.len() ==> is_digit_char(#[trigger] ds[i])));
            return None;
        }
        proof {
            lemma_decimal_step(ds, k - a);
        }
        let d = (c as u32) - ('0' as u32);
        let w = v * 10 + d;
        v = if w > 10 { 10 } else { w };
        k = k + 1;
    }
    assert(ds.subrange(0, b - a) =~= ds);
    if v <= 9 {
        Some(v)
    } else {
        None
    }
}

proof fn lemma_field_digits_push(fs: Seq<Seq<char>>, t: Seq<char>)
    ensures
        field_digits(fs.push(t)) == match field_digit(t) {
            Some(v) => field_digits(fs).push(v),
            None => field_digits(fs),
        },
{
    assert(fs.push(t).drop_last() =~= fs);
}

proof fn lemma_field_digits_small(fs: Seq<Seq<char>>)
    ensures
        forall|i: int| 0 <= i < field_digits(fs).len() ==> #[trigger] field_digits(fs)[i] <= 9,
    decreases fs.len(),
{
    if fs.len() > 0 {
        lemma_field_digits_small(fs.drop_last());
        let rest = field_digits(fs.drop_last());
        if let Some(v) = field_digit(fs.last()) {
            assert(v <= 9);
            assert forall|i: int| 0 <= i < rest.len() + 1 implies #[trigger] rest.push(v)[i] <= 9 by {
                if i < rest.len() {
                    assert(rest.push(v)[i] == rest[i]);
                }
            }
        }
    }
}

/// Reads 81 digits from text: the values are separated by commas or line
/// breaks and trimmed; a value that is not a whole number from 0 to 9 is
/// skipped. The digits fill the board row by row; `None` unless exactly 81
/// digits were read.
pub fn parse_user_input(input: String) -> (res: Option<[[u32; 9]; 9]>)
    ensures
        input_digits(input@).len() == 81 <==> res is Some,
        res matches Some(m) ==> forall|r: int, c: int|
            0 <= r < 9 && 0 <= c < 9 ==> #[trigger] m@[r]@[c] == input_digits(input@)[9 * r + c] && m@[r]@[c]
                <= 9,
{
    proof {
        lemma_field_digits_small(fields(input@));
    }
    let s = input.as_str();
    let n = s.unicode_len();
    let mut vals: Vec<u32> = Vec::new();
    let mut cur: Vec<char> = Vec::new();
    let mut i: usize = 0;
    while i < n
        invariant
            i <= n,
            n == s@.len(),
            s@ == input@,
            fields(s@.subrange(0, i as int)).len() > 0,
            vals@ == field_digits(fields(s@.subrange(0, i as int)).drop_last()),
            cur@ == fields(s@.subrange(0, i as int)).last(),
        decreases n - i,
    {
        let ch = s.get_char(i);
        let ghost pre = s@.subrange(0, i as int);
        let ghost f = fields(pre);
        assert(s@.subrange(0, i as int + 1).drop_last() =~= pre);
        if ch == '\n' || ch == ',' {
            proof {
                lemma_field_digits_push(f.drop_last(), f.last());
                assert(f.drop_last().push(f.last()) =~= f);
                assert(f.push(Seq::<char>::empty()).drop_last() =~= f);
            }
            match read_field(&cur) {
                Some(v) => vals.push(v),
                None => {},
            }
            cur = Vec::new();
        } else {
            proof {
                let f2 = f.update(f.len() - 1, f.last().push(ch));
                assert(f2.drop_last() =~= f.drop_last());
            }
            cur.push(ch);
        }
        i = i + 1;
    }
    proof {
        let f = fields(s@.subrange(0, n as int));
        assert(s@.subrange(0, n as int) =~= s@);
        lemma_field_digits_push(f.drop_last(), f.last());
        assert(f.drop_last().push(f.last()) =~= f);
    }
    match read_field(&cur) {
        Some(v) => vals.push(v),
        None => {},
    }
    if vals.len() != 81 {
        return None;
    }
    let mut m: [[u32; 9]; 9] = [[0u32; 9]; 9];
    let mut r: usize = 0;
    while r < 9
        invariant
            r <= 9,
            vals@.len() == 81,
            forall|r2: int, c2: int| 0 <= r2 < r && 0 <= c2 < 9 ==> #[trigger] m@[r2]@[c2] == vals@[9 * r2 + c2],
        decreases 9 - r,
    {
        let mut c: usize = 0;
        while c < 9
            invariant
                r < 9,
                c <= 9,
                vals@.len() == 81,
                forall|r2: int, c2: int|
                    (0 <= r2 < r && 0 <= c2 < 9) || (r2 == r && 0 <= c2 < c) ==> #[trigger] m@[r2]@[c2]
                        == vals@[9 * r2 + c2],
            decreases 9 - c,
        {
            m[r][c] = vals[9 * r + c];
            c = c + 1;
        }
        r = r + 1;
    }
    Some(m)
}

} // verus!
