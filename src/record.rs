//! Records as text: a line of comma-separated integer tokens, each allowed
//! surrounding ASCII whitespace.
use vstd::prelude::*;
use crate::CovError;

verus! {

/// The fields of a line, split at each comma; a line without a comma is one field.
pub open spec fn fields(s: Seq<u8>) -> Seq<Seq<u8>>
    decreases s.len(),
{
    if s.len() == 0 {
        seq![Seq::empty()]
    } else {
        let f = fields(s.drop_last());
        if s.last() == 44u8 {
            f.push(Seq::empty())
        } else {
            f.update(f.len() - 1, f.last().push(s.last()))
        }
    }
}

/// ASCII whitespace: space, tab, line feed, form feed and carriage return.
pub open spec fn is_ws(b: u8) -> bool {
    b == 32u8 || b == 9u8 || b == 10u8 || b == 12u8 || b == 13u8
}

pub open spec fn is_digit(b: u8) -> bool {
    48u8 <= b <= 57u8
}

pub open spec fn all_digits(s: Seq<u8>) -> bool {
    forall|k: int| 0 <= k < s.len() ==> is_digit(#[trigger] s[k])
}

/// The number that a string of decimal digits denotes.
pub open spec fn digits_value(s: Seq<u8>) -> int
    decreases s.len(),
{
    if s.len() == 0 {
        0
    } else {
        10 * digits_value(s.drop_last()) + (s.last() - 48u8)
    }
}

/// The token without its leading whitespace.
pub open spec fn trim_start(t: Seq<u8>) -> Seq<u8>
    decreases t.len(),
{
    if t.len() > 0 && is_ws(t[0]) {
        trim_start(t.subrange(1, t.len() as int))
    } else {
        t
    }
}

/// The token without its trailing whitespace.
pub open spec fn trim_end(t: Seq<u8>) -> Seq<u8>
    decreases t.len(),
{
    if t.len() > 0 && is_ws(t.last()) {
        trim_end(t.drop_last())
    } else {
        t
    }
}

/// The integer a token denotes: an optional sign and one or more decimal
/// digits, with whitespace around them; `None` for anything else.
pub open spec fn token_value(t: Seq<u8>) -> Option<int> {
    let c = trim_end(trim_start(t));
    if c.len() > 0 && (c[0] == 45u8 || c[0] == 43u8) {
        let m = c.subrange(1, c.len() as int);
        if m.len() > 0 && all_digits(m) {
            Some(
                if c[0] == 45u8 {
                    -digits_value(m)
                } else {
                    digits_value(m)
                },
            )
        } else {
            None
        }
    } else if c.len() > 0 && all_digits(c) {
        Some(digits_value(c))
    } else {
        None
    }
}

/// The token denotes an integer that fits in an `i32`.
pub open spec fn token_ok(t: Seq<u8>) -> bool {
    &&& token_value(t) is Some
    &&& i32::MIN <= token_value(t)->0 <= i32::MAX
}

/// What a line yields as a record of `d` values: `ShapeMismatch` when it does
/// not have `d` fields, else `MalformedInput` when a field is no integer token
/// in range, else the fields' values.
pub open spec fn record_of(line: Seq<u8>, d: nat) -> Result<Seq<int>, CovError> {
    let f = fields(line);
    if f.len() != d {
        Err(CovError::ShapeMismatch)
    } else if forall|k: int| 0 <= k < f.len() ==> token_ok(#[trigger] f[k]) {
        Ok(f.map_values(|t: Seq<u8>| token_value(t)->0))
    } else {
        Err(CovError::MalformedInput)
    }
}

pub(crate) proof fn lemma_fields_nonempty(s: Seq<u8>)
    ensures
        fields(s).len() >= 1,
    decreases s.len(),
{
    if s.len() > 0 {
        lemma_fields_nonempty(s.drop_last());
    }
}

/// The number of fields in a line: one more than its commas.
pub fn field_count(line: &[u8]) -> (r: usize)
    requires
        line@.len() < usize::MAX,
    ensures
        r == fields(line@).len(),
{
    let mut count: usize = 1;
    let mut i: usize = 0;
    while i < line.len()
        invariant
            0 <= i <= line@.len(),
            line@.len() < usize::MAX,
            1 <= count <= i + 1,
            count == fields(line@.subrange(0, i as int)).len(),
        decreases line@.len() - i,
    {
        proof {
            let p = line@.subrange(0, i as int + 1);
            assert(p.drop_last() =~= line@.subrange(0, i as int));
            lemma_fields_nonempty(line@.subrange(0, i as int));
        }
        if line[i] == 44u8 {
            count = count + 1;
        }
        i = i + 1;
    }
    assert(line@.subrange(0, line@.len() as int) =~= line@);
    count
}

/// Above every magnitude an `i32` can hold; digit values are held capped at it.
pub const VALUE_CAP: u64 = 2147483649;

pub open spec fn capped(x: int) -> int {
    if x > VALUE_CAP {
        VALUE_CAP as int
    } else {
        x
    }
}

proof fn lemma_digits_value_nonneg(s: Seq<u8>)
    requires
        all_digits(s),
    ensures
        digits_value(s) >= 0,
    decreases s.len(),
{
    if s.len() > 0 {
        assert(is_digit(s[s.len() - 1]));
        assert(all_digits(s.drop_last()));
        lemma_digits_value_nonneg(s.drop_last());
    }
}

fn is_ws_byte(b: u8) -> (r: bool)
    ensures
        r == is_ws(b),
{
    b == 32u8 || b == 9u8 || b == 10u8 || b == 12u8 || b == 13u8
}

/// Reads the token `line[from..to]`: its value when it is an integer token
/// that fits in an `i32`, else `None`.
pub fn parse_token(line: &[u8], from: usize, to: usize) -> (r: Option<i32>)
    requires
        from <= to <= line@.len(),
    ensures
        match r {
            Some(v) => token_ok(line@.subrange(from as int, to as int)) && v as int == token_value(
                line@.subrange(from as int, to as int),
            )->0,
            None => !token_ok(line@.subrange(from as int, to as int)),
        },
{
    let ghost t = line@.subrange(from as int, to as int);
    let mut a: usize = from;
    while a < to && is_ws_byte(line[a])
        invariant
            from <= a <= to <= line@.len(),
            t == line@.subrange(from as int, to as int),
            trim_start(t) == trim_start(line@.subrange(a as int, to as int)),
        decreases to - a,
    {
        proof {
            let u = line@.subrange(a as int, to as int);
            assert(u.subrange(1, u.len() as int) =~= line@.subrange(a as int + 1, to as int));
        }
        a = a + 1;
    }
    assert(trim_start(line@.subrange(a as int, to as int)) == line@.subrange(a as int, to as int));
    let mut b: usize = to;
    while b > a && is_ws_byte(line[b - 1])
        invariant
            from <= a <= b <= to <= line@.len(),
            t == line@.subrange(from as int, to as int),
            trim_end(trim_start(t)) == trim_end(line@.subrange(a as int, b as int)),
        decreases b - a,
    {
        proof {
            let u = line@.subrange(a as int, b as int);
            assert(u.drop_last() =~= line@.subrange(a as int, b as int - 1));
        }
        b = b - 1;
    }
    let ghost c = line@.subrange(a as int, b as int);
    assert(trim_end(c) == c);
    if a == b {
        return None;
    }
    let first = line[a];
    assert(c[0] == first);
    assert(trim_end(trim_start(t)) == c);
    let signed = first == 45u8 || first == 43u8;
    let p: usize = if signed {
        a + 1
    } else {
        a
    };
    let ghost m = line@.subrange(p as int, b as int);
    assert(signed ==> m =~= c.subrange(1, c.len() as int));
    assert(!signed ==> m =~= c);
    if p == b {
        return None;
    }
    let mut v: u64 = 0;
    let mut k: usize = p;
    while k < b
        invariant
            p <= k <= b <= line@.len(),
            m == line@.subrange(p as int, b as int),
            c == trim_end(trim_start(t)),
            t == line@.subrange(from as int, to as int),
            c.len() > 0,
            c[0] == first,
            signed == (first == 45u8 || first == 43u8),
            signed ==> m == c.subrange(1, c.len() as int),
            !signed ==> m == c,
            all_digits(line@.subrange(p as int, k as int)),
            v as int == capped(digits_value(line@.subrange(p as int, k as int))),
        decreases b - k,
    {
        let ghost pre = line@.subrange(p as int, k as int);
        let ghost next = line@.subrange(p as int, k as int + 1);
        let d = line[k];
        if d < 48u8 || d > 57u8 {
            assert(m[k - p] == d);
            assert(!all_digits(m));
            return None;
        }
        proof {
            assert(next.drop_last() =~= pre);
            assert(next.last() == d);
            lemma_digits_value_nonneg(pre);
            assert(all_digits(next));
        }
        let w = 10 * v + (d - 48u8) as u64;
        v = if w > VALUE_CAP {
            VALUE_CAP
        } else {
            w
        };
        k = k + 1;
    }
    assert(line@.subrange(p as int, b as int) == m);
    if first == 45u8 {
        if v <= 2147483648u64 {
            Some((0i64 - v as i64) as i32)
        } else {
            None
        }
    } else {
        if v <= 2147483647u64 {
            Some(v as i32)
        } else {
            None
        }
    }
}

/// The complete fields of a prefix are fields of the whole line.
proof fn lemma_fields_prefix(s: Seq<u8>, i: int)
    requires
        0 <= i <= s.len(),
    ensures
        fields(s).len() >= fields(s.subrange(0, i)).len(),
        forall|k: int|
            0 <= k < fields(s.subrange(0, i)).len() - 1 ==> #[trigger] fields(s)[k] == fields(
                s.subrange(0, i),
            )[k],
    decreases s.len(),
{
    if i == s.len() {
        assert(s.subrange(0, i) =~= s);
    } else {
        let prev = s.drop_last();
        assert(prev.subrange(0, i) =~= s.subrange(0, i));
        lemma_fields_prefix(prev, i);
        lemma_fields_nonempty(prev);
    }
}

/// Reads one record of `d` values from a line, as `record_of` says.
pub fn parse_record(line: &[u8], d: usize) -> (r: Result<Vec<i32>, CovError>)
    requires
        line@.len() < usize::MAX,
    ensures
        match record_of(line@, d as nat) {
            Ok(vals) => r is Ok && crate::moments::values_of(r->Ok_0@) == vals,
            Err(e) => r == Err::<Vec<i32>, CovError>(e),
        },
{
    if field_count(line) != d {
        return Err(CovError::ShapeMismatch);
    }
    let ghost whole = fields(line@);
    let mut out: Vec<i32> = Vec::new();
    let mut start: usize = 0;
    let mut i: usize = 0;
    while i < line.len()
        invariant
            0 <= start <= i <= line@.len(),
            whole == fields(line@),
            whole.len() == d,
            fields(line@.subrange(0, i as int)).len() == out@.len() + 1,
            fields(line@.subrange(0, i as int)).last() == line@.subrange(start as int, i as int),
            forall|k: int|
                0 <= k < out@.len() ==> token_ok(#[trigger] whole[k]) && out@[k] as int
                    == token_value(whole[k])->0,
        decreases line@.len() - i,
    {
        let ghost f = fields(line@.subrange(0, i as int));
        let ghost g = fields(line@.subrange(0, i as int + 1));
        proof {
            assert(line@.subrange(0, i as int + 1).drop_last() =~= line@.subrange(0, i as int));
            lemma_fields_prefix(line@, i as int + 1);
        }
        if line[i] == 44u8 {
            assert(g == f.push(Seq::empty()));
            assert(whole[out@.len() as int] == g[out@.len() as int]);
            match parse_token(line, start, i) {
                None => {
                    return Err(CovError::MalformedInput);
                },
                Some(v) => {
                    out.push(v);
                },
            }
            start = i + 1;
            assert(g.last() =~= line@.subrange(start as int, i as int + 1));
        } else {
            assert(g.last() =~= line@.subrange(start as int, i as int + 1));
        }
        i = i + 1;
    }
    assert(line@.subrange(0, i as int) =~= line@);
    let ghost last = out@.len() as int;
    match parse_token(line, start, line.len()) {
        None => {
            assert(!token_ok(whole[last]));
            return Err(CovError::MalformedInput);
        },
        Some(v) => {
            out.push(v);
        },
    }
    assert(crate::moments::values_of(out@) =~= whole.map_values(|t: Seq<u8>| token_value(t)->0));
    Ok(out)
}

} // verus!
