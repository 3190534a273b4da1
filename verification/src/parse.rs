//! Reading numbers and lists out of text, and replacing parts of it.

use vstd::prelude::*;

use crate::text::{chars_of, string_of};

verus! {

/// The value of a decimal digit.
pub open spec fn digit_value(c: char) -> Option<nat> {
    if '0' <= c && c <= '9' {
        Some((c as u32 - '0' as u32) as nat)
    } else {
        None
    }
}

/// The number that the decimal digits `s` write.
pub open spec fn digits_value(s: Seq<char>) -> Option<nat>
    decreases s.len(),
{
    if s.len() == 0 {
        Some(0)
    } else {
        match (digits_value(s.drop_last()), digit_value(s.last())) {
            (Some(n), Some(d)) => Some(n * 10 + d),
            _ => None,
        }
    }
}

/// The number that `s` writes: one digit or more, after a plus sign or none, or
/// after a minus sign if the number may be negative.
pub open spec fn int_text(s: Seq<char>, signed: bool) -> Option<int> {
    let plus = s.len() > 0 && s[0] == '+';
    let minus = signed && s.len() > 0 && s[0] == '-';
    let d = if plus || minus {
        s.drop_first()
    } else {
        s
    };
    if d.len() == 0 {
        None
    } else {
        match digits_value(d) {
            Some(n) => Some(
                if minus {
                    -(n as int)
                } else {
                    n as int
                },
            ),
            None => None,
        }
    }
}

/// The number in `lo..=hi` that `s` writes.
pub open spec fn bounded_int(s: Seq<char>, signed: bool, lo: int, hi: int) -> Option<int> {
    match int_text(s, signed) {
        Some(n) => if lo <= n <= hi {
            Some(n)
        } else {
            None
        },
        None => None,
    }
}

proof fn lemma_digits_grow(s: Seq<char>, i: int)
    requires
        0 <= i <= s.len(),
    ensures
        digits_value(s.take(i)) is None ==> digits_value(s) is None,
        digits_value(s.take(i)) is Some && digits_value(s) is Some ==> digits_value(s.take(i))->0
            <= digits_value(s)->0,
    decreases s.len() - i,
{
    if i < s.len() {
        lemma_digits_grow(s, i + 1);
        assert(s.take(i + 1).drop_last() =~= s.take(i));
    } else {
        assert(s.take(i) =~= s);
    }
}

/// The number in `lo..=hi` that `v[from..to]` writes.
pub(crate) fn read_int(
    v: &Vec<char>,
    from: usize,
    to: usize,
    signed: bool,
    lo: i64,
    hi: i64,
) -> (r: Option<i64>)
    requires
        from <= to <= v@.len(),
        lo <= 0 <= hi,
    ensures
        match bounded_int(v@.subrange(from as int, to as int), signed, lo as int, hi as int) {
            Some(n) => r == Some(n as i64) && lo <= n <= hi,
            None => r is None,
        },
{
    let ghost s = v@.subrange(from as int, to as int);
    if from == to {
        return None;
    }
    let minus = signed && v[from] == '-';
    let start: usize = if v[from] == '+' || minus {
        from + 1
    } else {
        from
    };
    if start == to {
        return None;
    }
    let ghost d = v@.subrange(start as int, to as int);
    proof {
        if start == from + 1 {
            assert(d =~= s.drop_first());
        } else {
            assert(d =~= s);
        }
        assert(d.take(0) =~= Seq::<char>::empty());
    }
    // The largest absolute value that is still of use.
    let most: i128 = if minus {
        -(lo as i128)
    } else {
        hi as i128
    };
    let mut n: i128 = 0;
    let mut i: usize = start;
    while i < to
        invariant
            start <= i <= to <= v@.len(),
            d == v@.subrange(start as int, to as int),
            digits_value(d.take(i - start)) == Some(n as nat),
            0 <= n <= most <= 0x1_0000_0000_0000_0000,
            minus ==> most == -(lo as int),
            !minus ==> most == hi,
            lo <= 0 <= hi,
            d.len() > 0,
            s == v@.subrange(from as int, to as int),
            int_text(s, signed) == (match digits_value(d) {
                Some(n) => Some(
                    if minus {
                        -(n as int)
                    } else {
                        n as int
                    },
                ),
                None => None,
            }),
        decreases to - i,
    {
        let c = v[i];
        proof {
            assert(d.take(i - start + 1).drop_last() =~= d.take(i - start));
            assert(d.take(i - start + 1).last() == c);
            lemma_digits_grow(d, i - start + 1);
        }
        if c < '0' || c > '9' {
            return None;
        }
        let x: i128 = (c as u32 - '0' as u32) as i128;
        if n * 10 + x > most {
            return None;
        }
        n = n * 10 + x;
        i = i + 1;
    }
    assert(d.take(i - start) =~= d);
    if minus {
        Some((-n) as i64)
    } else {
        Some(n as i64)
    }
}

/// `s` cut at every `sep`.
pub open spec fn split(s: Seq<char>, sep: char) -> Seq<Seq<char>>
    decreases s.len(),
{
    if s.len() == 0 {
        seq![Seq::empty()]
    } else {
        let before = split(s.drop_last(), sep);
        if s.last() == sep {
            before.push(Seq::empty())
        } else {
            before.update(before.len() - 1, before.last().push(s.last()))
        }
    }
}

/// Where the parts of `v`, cut at every `sep`, begin and end.
pub(crate) fn split_at(v: &Vec<char>, sep: char) -> (r: Vec<(usize, usize)>)
    ensures
        r@.len() == split(v@, sep).len(),
        r@.len() > 0,
        forall|k: int|
            0 <= k < r@.len() ==> (#[trigger] r@[k]).0 <= r@[k].1 <= v@.len() && v@.subrange(
                r@[k].0 as int,
                r@[k].1 as int,
            ) == split(v@, sep)[k],
{
    let mut out: Vec<(usize, usize)> = Vec::new();
    out.push((0, 0));
    let mut i: usize = 0;
    proof {
        assert(v@.take(0) =~= Seq::<char>::empty());
        assert(v@.subrange(0, 0) =~= Seq::<char>::empty());
    }
    while i < v.len()
        invariant
            i <= v@.len(),
            out@.len() == split(v@.take(i as int), sep).len(),
            out@.len() > 0,
            out@.last().1 == i,
            forall|k: int|
                0 <= k < out@.len() ==> (#[trigger] out@[k]).0 <= out@[k].1 <= i && v@.subrange(
                    out@[k].0 as int,
                    out@[k].1 as int,
                ) == split(v@.take(i as int), sep)[k],
        decreases v@.len() - i,
    {
        let ghost before = split(v@.take(i as int), sep);
        let ghost out0 = out@;
        let n: usize = out.len();
        assert(v@.take(i + 1).drop_last() =~= v@.take(i as int));
        assert(v@.take(i + 1).last() == v@[i as int]);
        if v[i] == sep {
            out.push((i + 1, i + 1));
            assert(v@.subrange(i + 1, i + 1) =~= Seq::<char>::empty());
        } else {
            let (a, _) = out[n - 1];
            assert(out0[n - 1] == out0.last());
            assert(v@.subrange(a as int, i + 1) =~= v@.subrange(a as int, i as int).push(
                v@[i as int],
            ));
            out[n - 1] = (a, i + 1);
        }
        i = i + 1;
    }
    assert(v@.take(i as int) =~= v@);
    out
}

/// `pat` stands in `s` at `i`.
pub open spec fn stands_at(s: Seq<char>, pat: Seq<char>, i: int) -> bool {
    0 <= i && i + pat.len() <= s.len() && s.subrange(i, i + pat.len()) == pat
}

/// `i` is the first place in `s` where `pat` stands.
pub open spec fn first_at(s: Seq<char>, pat: Seq<char>, i: int) -> bool {
    stands_at(s, pat, i) && forall|j: int| 0 <= j < i ==> !stands_at(s, pat, j)
}

/// `r` is `s` with the first `pat` replaced by `with`; `s` itself, if `pat` does
/// not stand in it.
pub open spec fn replaced_first(s: Seq<char>, pat: Seq<char>, with: Seq<char>, r: Seq<char>) -> bool {
    if exists|i: int| stands_at(s, pat, i) {
        exists|i: int| #[trigger]
            first_at(s, pat, i) && r == s.take(i) + with + s.skip(i + pat.len())
    } else {
        r == s
    }
}

pub(crate) fn matches_at(v: &Vec<char>, pat: &Vec<char>, i: usize) -> (r: bool)
    requires
        i <= v@.len(),
    ensures
        r == stands_at(v@, pat@, i as int),
{
    if pat.len() > v.len() - i {
        return false;
    }
    let mut k: usize = 0;
    while k < pat.len()
        invariant
            k <= pat@.len(),
            i + pat@.len() <= v@.len() <= usize::MAX,
            forall|j: int| 0 <= j < k ==> v@[i + j] == pat@[j],
        decreases pat@.len() - k,
    {
        if v[i + k] != pat[k] {
            assert(v@.subrange(i as int, i + pat@.len())[k as int] != pat@[k as int]);
            return false;
        }
        k = k + 1;
    }
    assert(v@.subrange(i as int, i + pat@.len()) =~= pat@);
    true
}

/// `s` with the first `pat` replaced by `with`.
pub(crate) fn replace_first(s: &str, pat: &str, with: &str) -> (r: String)
    ensures
        replaced_first(s@, pat@, with@, r@),
{
    let v = chars_of(s);
    let p = chars_of(pat);
    let mut i: usize = 0;
    while i < v.len()
        invariant
            v@ == s@,
            p@ == pat@,
            i <= v@.len(),
            forall|j: int| 0 <= j < i ==> !stands_at(v@, p@, j),
        decreases v@.len() - i,
    {
        if matches_at(&v, &p, i) {
            let mut out = string_of(&v, 0, i);
            vstd::string::StringExecFns::append(&mut out, with);
            let rest = string_of(&v, i + p.len(), v.len());
            vstd::string::StringExecFns::append(&mut out, rest.as_str());
            proof {
                assert(stands_at(s@, pat@, i as int));
                assert(first_at(s@, pat@, i as int));
                assert(out@ =~= s@.take(i as int) + with@ + s@.skip(i + pat@.len()));
            }
            return out;
        }
        i = i + 1;
    }
    if matches_at(&v, &p, i) {
        let mut out = string_of(&v, 0, i);
        vstd::string::StringExecFns::append(&mut out, with);
        proof {
            assert(first_at(s@, pat@, i as int));
            assert(out@ =~= s@.take(i as int) + with@ + s@.skip(i + pat@.len()));
        }
        return out;
    }
    proof {
        assert forall|j: int| !stands_at(s@, pat@, j) by {
            if j > i {
                assert(j + pat@.len() > s@.len());
            }
        }
        assert(s@.subrange(0, s@.len() as int) =~= s@);
    }
    string_of(&v, 0, v.len())
}

} // verus!
