//! Writing records as text, in the form that `record::parse_record` reads.
use vstd::prelude::*;
use crate::moments::values_of;
use crate::record::{lemma_fields_nonempty, all_digits, digits_value, fields, is_digit, record_of, token_ok, token_value, trim_end, trim_start};

verus! {

/// The decimal digits of `n`, most significant first, without leading zeros.
pub open spec fn digits_of(n: nat) -> Seq<u8>
    decreases n,
{
    if n < 10 {
        seq![(48 + n) as u8]
    } else {
        digits_of(n / 10).push((48 + n % 10) as u8)
    }
}

/// The decimal text of an integer, with a leading minus when it is negative.
pub open spec fn int_text(v: int) -> Seq<u8> {
    if v < 0 {
        seq![45u8] + digits_of((-v) as nat)
    } else {
        digits_of(v as nat)
    }
}

/// The values written in order, separated by commas.
pub open spec fn record_text(vals: Seq<int>) -> Seq<u8>
    decreases vals.len(),
{
    if vals.len() == 0 {
        Seq::empty()
    } else if vals.len() == 1 {
        int_text(vals[0])
    } else {
        record_text(vals.drop_last()).push(44u8) + int_text(vals.last())
    }
}

proof fn lemma_digits_of(n: nat)
    ensures
        digits_of(n).len() >= 1,
        all_digits(digits_of(n)),
        digits_value(digits_of(n)) == n,
    decreases n,
{
    if n < 10 {
        let s = digits_of(n);
        assert(s.drop_last() =~= Seq::<u8>::empty());
        assert(s.last() - 48u8 == n);
        assert(digits_value(s.drop_last()) == 0);
        assert(digits_value(s) == 10 * digits_value(s.drop_last()) + (s.last() - 48u8));
    } else {
        lemma_digits_of(n / 10);
        let s = digits_of(n);
        assert(s.drop_last() == digits_of(n / 10));
        assert(s.last() == (48 + n % 10) as u8);
        assert(s.last() - 48u8 == n % 10);
        assert(n == 10 * (n / 10) + n % 10);
        assert(digits_value(s) == 10 * digits_value(s.drop_last()) + (s.last() - 48u8));
        assert forall|k: int| 0 <= k < s.len() implies is_digit(#[trigger] s[k]) by {
            if k < s.len() - 1 {
                assert(s[k] == digits_of(n / 10)[k]);
            }
        }
    }
}

proof fn lemma_int_text_token(v: int)
    ensures
        token_value(int_text(v)) == Some(v),
        forall|k: int| 0 <= k < int_text(v).len() ==> #[trigger] int_text(v)[k] != 44u8,
{
    let t = int_text(v);
    if v < 0 {
        let d = digits_of((-v) as nat);
        lemma_digits_of((-v) as nat);
        assert(t.last() == d.last());
        assert(is_digit(d[d.len() - 1]));
        assert(trim_start(t) == t);
        assert(trim_end(t) == t);
        assert(t.subrange(1, t.len() as int) =~= d);
        assert forall|k: int| 0 <= k < t.len() implies #[trigger] t[k] != 44u8 by {
            if k > 0 {
                assert(t[k] == d[k - 1]);
                assert(is_digit(d[k - 1]));
            }
        }
    } else {
        lemma_digits_of(v as nat);
        assert(is_digit(t[0]));
        assert(is_digit(t[t.len() - 1]));
        assert(trim_start(t) == t);
        assert(trim_end(t) == t);
        assert forall|k: int| 0 <= k < t.len() implies #[trigger] t[k] != 44u8 by {
            assert(is_digit(t[k]));
        }
    }
}

/// Text without a comma extends the last field.
proof fn lemma_fields_extend(p: Seq<u8>, t: Seq<u8>)
    requires
        forall|k: int| 0 <= k < t.len() ==> #[trigger] t[k] != 44u8,
    ensures
        fields(p + t) == fields(p).update(fields(p).len() - 1, fields(p).last() + t),
    decreases t.len(),
{
    lemma_fields_nonempty(p);
    if t.len() == 0 {
        assert(p + t =~= p);
        assert(fields(p).last() + t =~= fields(p).last());
        assert(fields(p).update(fields(p).len() - 1, fields(p).last()) =~= fields(p));
    } else {
        let t0 = t.drop_last();
        assert forall|k: int| 0 <= k < t0.len() implies #[trigger] t0[k] != 44u8 by {
            assert(t0[k] == t[k]);
        }
        lemma_fields_extend(p, t0);
        assert((p + t).drop_last() =~= p + t0);
        assert((p + t).last() == t.last());
        assert(t.last() != 44u8);
        assert(fields(p).last() + t =~= (fields(p).last() + t0).push(t.last()));
        lemma_fields_nonempty(p + t0);
        assert(fields(p + t) =~= fields(p).update(fields(p).len() - 1, fields(p).last() + t));
    }
}

proof fn lemma_record_text_fields(vals: Seq<int>)
    requires
        vals.len() >= 1,
    ensures
        fields(record_text(vals)) == vals.map_values(|v: int| int_text(v)),
    decreases vals.len(),
{
    let last = vals.last();
    lemma_int_text_token(last);
    if vals.len() == 1 {
        lemma_fields_extend(Seq::empty(), int_text(vals[0]));
        assert(Seq::<u8>::empty() + int_text(vals[0]) =~= int_text(vals[0]));
        assert(fields(record_text(vals)) =~= vals.map_values(|v: int| int_text(v)));
    } else {
        let prev = vals.drop_last();
        lemma_record_text_fields(prev);
        let p = record_text(prev).push(44u8);
        assert(p.drop_last() =~= record_text(prev));
        lemma_fields_extend(p, int_text(last));
        assert(fields(p).last() + int_text(last) =~= int_text(last));
        assert(fields(record_text(vals)) =~= vals.map_values(|v: int| int_text(v)));
    }
}

/// Reading back what was written gives the values written: `record_of` on
/// `record_text(vals)` is `Ok(vals)`, for any non-empty record of `i32` values.
pub proof fn law_record_round_trip(vals: Seq<int>)
    requires
        vals.len() >= 1,
        forall|k: int| 0 <= k < vals.len() ==> i32::MIN <= #[trigger] vals[k] <= i32::MAX,
    ensures
        record_of(record_text(vals), vals.len()) == Ok::<Seq<int>, crate::CovError>(vals),
{
    lemma_record_text_fields(vals);
    let f = fields(record_text(vals));
    assert forall|k: int| 0 <= k < f.len() implies token_ok(#[trigger] f[k]) by {
        lemma_int_text_token(vals[k]);
    }
    assert forall|k: int| 0 <= k < f.len() implies token_value(#[trigger] f[k])->0 == vals[k] by {
        lemma_int_text_token(vals[k]);
    }
    assert(f.map_values(|t: Seq<u8>| token_value(t)->0) =~= vals);
}

/// Appends the decimal text of `v` to `out`.
fn push_int(out: &mut Vec<u8>, v: i32)
    ensures
        final(out)@ == old(out)@ + int_text(v as int),
{
    let ghost start = out@;
    let n: u64 = if v < 0 {
        out.push(45u8);
        (0i64 - v as i64) as u64
    } else {
        v as u64
    };
    let ghost sign = out@.subrange(start.len() as int, out@.len() as int);
    assert(start + sign =~= out@);
    let mut rem: Vec<u8> = Vec::new();
    let mut q: u64 = n;
    while q >= 10
        invariant
            digits_of(n as nat) == digits_of(q as nat) + rem@,
        decreases q,
    {
        let d: u8 = (48 + q % 10) as u8;
        proof {
            let a = digits_of((q / 10) as nat);
            assert(digits_of(q as nat) == a.push(d));
            assert(a.push(d) + rem@ =~= a + rem@.insert(0, d));
        }
        rem.insert(0, d);
        q = q / 10;
    }
    let ghost head = out@;
    out.push((48 + q) as u8);
    assert(out@ =~= head + digits_of(q as nat));
    let mut k: usize = 0;
    while k < rem.len()
        invariant
            0 <= k <= rem@.len(),
            out@ == head + digits_of(q as nat) + rem@.subrange(0, k as int),
        decreases rem@.len() - k,
    {
        out.push(rem[k]);
        assert(rem@.subrange(0, k as int + 1) =~= rem@.subrange(0, k as int).push(rem@[k as int]));
        k = k + 1;
    }
    assert(rem@.subrange(0, rem@.len() as int) =~= rem@);
    assert(head == start + sign);
    if v < 0 {
        assert(sign =~= seq![45u8]);
    } else {
        assert(sign =~= Seq::<u8>::empty());
    }
    assert(out@ =~= start + int_text(v as int));
}

/// The record written as text: its values in decimal, separated by commas,
/// so that `record::parse_record` reads back the same values.
pub fn format_record(vals: &Vec<i32>) -> (r: Vec<u8>)
    ensures
        r@ == record_text(values_of(vals@)),
{
    let ghost all = values_of(vals@);
    let mut out: Vec<u8> = Vec::new();
    let mut i: usize = 0;
    while i < vals.len()
        invariant
            0 <= i <= vals@.len(),
            all == values_of(vals@),
            out@ == record_text(all.subrange(0, i as int)),
        decreases vals@.len() - i,
    {
        let ghost pre = out@;
        let ghost next = all.subrange(0, i as int + 1);
        assert(next.drop_last() =~= all.subrange(0, i as int));
        if i > 0 {
            out.push(44u8);
        }
        push_int(&mut out, vals[i]);
        if i == 0 {
            assert(out@ =~= int_text(next[0]));
        }
        i = i + 1;
    }
    assert(all.subrange(0, vals@.len() as int) =~= all);
    out
}

} // verus!
