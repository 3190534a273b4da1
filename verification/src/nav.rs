//! Places in addresses, and the address of the server.

use vstd::prelude::*;
use vstd::string::StringExecFns;

use crate::coords::WorldCoords;
use crate::parse::{
    bounded_int, digit_value, digits_value, int_text, matches_at, read_int, split, split_at,
    stands_at,
};
use crate::preview::{place_of, trim_percent};
use crate::text::{chars_of, dec, dec_digit, dec_int, push_dec_int, same_text, string_of};

verus! {

/// `s` without the question marks at its start.
pub open spec fn trim_question(s: Seq<char>) -> Seq<char>
    decreases s.len(),
{
    if s.len() > 0 && s[0] == '?' {
        trim_question(s.drop_first())
    } else {
        s
    }
}

/// The value of the first of `parts` that is `at=` and a value; empty, if there
/// is none.
pub open spec fn at_value(parts: Seq<Seq<char>>) -> Seq<char>
    decreases parts.len(),
{
    if parts.len() == 0 {
        Seq::empty()
    } else if stands_at(parts[0], "at="@, 0) {
        parts[0].skip(3)
    } else {
        at_value(parts.drop_first())
    }
}

/// The place that an address gives after its question mark: column, row and, if
/// it likes, a zoom.
pub open spec fn anchor_of(search: Seq<char>) -> Option<(int, int, Option<Seq<char>>)> {
    let parts = split(at_value(split(trim_question(search), '&')), ',');
    if parts.len() < 2 {
        None
    } else {
        match (
            bounded_int(parts[0], true, i64::MIN as int, i64::MAX as int),
            bounded_int(parts[1], true, i64::MIN as int, i64::MAX as int),
        ) {
            (Some(x), Some(y)) => Some(
                (
                    x,
                    y,
                    if parts.len() > 2 {
                        Some(parts[2])
                    } else {
                        None
                    },
                ),
            ),
            _ => None,
        }
    }
}

fn at_value_of(v: &Vec<char>) -> (r: Vec<char>)
    ensures
        r@ == at_value(split(trim_question(v@), '&')),
{
    let mut start: usize = 0;
    assert(v@.skip(0) =~= v@);
    while start < v.len() && v[start] == '?'
        invariant
            start <= v@.len(),
            trim_question(v@.skip(start as int)) == trim_question(v@),
        decreases v@.len() - start,
    {
        assert(v@.skip(start as int).drop_first() =~= v@.skip(start + 1));
        start = start + 1;
    }
    let rest = part_of(v, start, v.len());
    assert(rest@ =~= v@.skip(start as int));
    let parts = split_at(&rest, '&');
    let ghost all = split(rest@, '&');
    let prefix = chars_of("at=");
    proof {
        reveal_strlit("at=");
    }
    let mut i: usize = 0;
    assert(all.skip(0) =~= all);
    while i < parts.len()
        invariant
            i <= parts@.len(),
            parts@.len() == all.len(),
            all == split(trim_question(v@), '&'),
            prefix@ == "at="@,
            "at="@.len() == 3,
            forall|k: int|
                0 <= k < parts@.len() ==> (#[trigger] parts@[k]).0 <= parts@[k].1 <= rest@.len()
                    && rest@.subrange(parts@[k].0 as int, parts@[k].1 as int) == all[k],
            at_value(all.skip(i as int)) == at_value(all),
        decreases parts@.len() - i,
    {
        let (a, b) = parts[i];
        let part = part_of(&rest, a, b);
        assert(all.skip(i as int)[0] == all[i as int]);
        assert(all.skip(i as int).drop_first() =~= all.skip(i + 1));
        if matches_at(&part, &prefix, 0) {
            let r = part_of(&part, 3, part.len());
            assert(r@ =~= part@.skip(3));
            return r;
        }
        i = i + 1;
    }
    assert(all.skip(i as int) =~= Seq::<Seq<char>>::empty());
    Vec::new()
}

fn part_of(v: &Vec<char>, from: usize, to: usize) -> (r: Vec<char>)
    requires
        from <= to <= v@.len(),
    ensures
        r@ == v@.subrange(from as int, to as int),
{
    let mut out: Vec<char> = Vec::new();
    let mut i: usize = from;
    while i < to
        invariant
            from <= i <= to <= v@.len(),
            out@ =~= v@.subrange(from as int, i as int),
        decreases to - i,
    {
        out.push(v[i]);
        i = i + 1;
    }
    out
}

/// The place that an address gives.
pub fn read_anchor(search: &str) -> (r: Option<(i64, i64, Option<String>)>)
    ensures
        match (r, anchor_of(search@)) {
            (Some(a), Some(b)) => a.0 == b.0 && a.1 == b.1 && (match (a.2, b.2) {
                (Some(s), Some(t)) => s@ == t,
                (None, None) => true,
                _ => false,
            }),
            (None, None) => true,
            _ => false,
        },
{
    let v = at_value_of(&chars_of(search));
    let parts = split_at(&v, ',');
    if parts.len() < 2 {
        return None;
    }
    let (a, b) = parts[0];
    let (c, d) = parts[1];
    match (
        read_int(&v, a, b, true, i64::MIN, i64::MAX),
        read_int(&v, c, d, true, i64::MIN, i64::MAX),
    ) {
        (Some(x), Some(y)) => {
            let zoom = if parts.len() > 2 {
                let (e, f) = parts[2];
                Some(string_of(&v, e, f))
            } else {
                None
            };
            Some((x, y, zoom))
        },
        _ => None,
    }
}

/// A place, as an address gives it.
pub open spec fn place_text(x: int, y: int, zoom_pct: int) -> Seq<char> {
    dec_int(x) + ","@ + dec_int(y) + ","@ + dec_int(zoom_pct)
}

/// The end of the address of a place.
pub fn anchor_text(x: i32, y: i32, zoom_pct: i32) -> (r: String)
    ensures
        r@ == "?at="@ + place_text(x as int, y as int, zoom_pct as int),
{
    let mut s = "?at=".to_string();
    push_dec_int(&mut s, x as i64);
    s.append(",");
    push_dec_int(&mut s, y as i64);
    s.append(",");
    push_dec_int(&mut s, zoom_pct as i64);
    assert(s@ =~= "?at="@ + place_text(x as int, y as int, zoom_pct as int));
    s
}

/// The cell that a text of two numbers, with a comma between them, names.
pub open spec fn goto_of(raw: Seq<char>) -> Option<WorldCoords> {
    let parts = split(raw, ',');
    if parts.len() != 2 {
        None
    } else {
        match (
            bounded_int(parts[0], true, i64::MIN as int, i64::MAX as int),
            bounded_int(parts[1], true, i64::MIN as int, i64::MAX as int),
        ) {
            (Some(x), Some(y)) => Some(WorldCoords::nearest(x, y)),
            _ => None,
        }
    }
}

pub fn read_goto(raw: &str) -> (r: Option<WorldCoords>)
    ensures
        r == goto_of(raw@),
{
    let v = chars_of(raw);
    let parts = split_at(&v, ',');
    if parts.len() != 2 {
        return None;
    }
    let (a, b) = parts[0];
    let (c, d) = parts[1];
    match (
        read_int(&v, a, b, true, i64::MIN, i64::MAX),
        read_int(&v, c, d, true, i64::MIN, i64::MAX),
    ) {
        (Some(x), Some(y)) => Some(WorldCoords::from_i64(x, y)),
        _ => None,
    }
}

/// The address of the socket, for a page that was loaded by `protocol` from
/// `host`.
pub fn socket_url(protocol: &str, host: &str, token: &str) -> (r: String)
    ensures
        r@ == (if protocol@ == "https:"@ {
            "wss"@
        } else {
            "ws"@
        }) + "://"@ + host@ + "/ws"@ + (if token@.len() == 0 {
            Seq::empty()
        } else {
            "?token="@ + token@
        }),
{
    let mut s = if same_text(protocol, "https:") {
        "wss".to_string()
    } else {
        "ws".to_string()
    };
    s.append("://");
    s.append(host);
    s.append("/ws");
    let ghost base = s@;
    if chars_of(token).len() > 0 {
        s.append("?token=");
        s.append(token);
        assert(s@ =~= base + ("?token="@ + token@));
    } else {
        assert(s@ =~= base + Seq::<char>::empty());
    }
    s
}

/// None of the characters of `s` is `c`.
pub open spec fn lacks(s: Seq<char>, c: char) -> bool {
    forall|i: int| 0 <= i < s.len() ==> #[trigger] s[i] != c
}

pub(crate) proof fn lemma_split_whole(s: Seq<char>, sep: char)
    requires
        lacks(s, sep),
    ensures
        split(s, sep) == seq![s],
    decreases s.len(),
{
    if s.len() > 0 {
        let d = s.drop_last();
        assert(lacks(d, sep)) by {
            assert forall|i: int| 0 <= i < d.len() implies #[trigger] d[i] != sep by {
                assert(s[i] != sep);
            }
        }
        lemma_split_whole(d, sep);
        assert(s.last() == s[s.len() - 1]);
        assert(d.push(s.last()) =~= s);
        assert(split(s, sep) =~= seq![s]);
    } else {
        assert(s =~= Seq::<char>::empty());
    }
}

pub(crate) proof fn lemma_split_join(a: Seq<char>, b: Seq<char>, sep: char)
    ensures
        split(a.push(sep) + b, sep) == split(a, sep) + split(b, sep),
        split(b, sep).len() > 0,
    decreases b.len(),
{
    let s = a.push(sep) + b;
    if b.len() == 0 {
        assert(s.drop_last() =~= a);
        assert(s.last() == sep);
        assert(b =~= Seq::<char>::empty());
        assert(split(s, sep) =~= split(a, sep) + split(b, sep));
    } else {
        let d = b.drop_last();
        lemma_split_join(a, d, sep);
        assert(s.drop_last() =~= a.push(sep) + d);
        assert(s.last() == b.last());
        assert(split(s, sep) =~= split(a, sep) + split(b, sep));
    }
}

proof fn lemma_dec(n: nat)
    ensures
        digits_value(dec(n)) == Some(n),
        dec(n).len() > 0,
        forall|i: int| 0 <= i < dec(n).len() ==> '0' <= #[trigger] dec(n)[i] && dec(n)[i] <= '9',
    decreases n,
{
    if n >= 10 {
        lemma_dec(n / 10);
    }
    let d = dec_digit((n % 10) as int);
    assert(digit_value(d) == Some(n % 10));
    let s = dec(n);
    let before = if n >= 10 {
        dec(n / 10)
    } else {
        Seq::empty()
    };
    assert(s =~= before.push(d));
    assert(s.drop_last() =~= before);
    assert(s.last() == d);
    assert(digits_value(before) == Some(n / 10));
    assert(n == (n / 10) * 10 + n % 10);
    assert(digits_value(s) == Some((n / 10) * 10 + n % 10));
}

pub(crate) proof fn lemma_dec_int(n: int)
    ensures
        int_text(dec_int(n), true) == Some(n),
        forall|i: int|
            0 <= i < dec_int(n).len() ==> ('0' <= #[trigger] dec_int(n)[i] && dec_int(n)[i] <= '9')
                || dec_int(n)[i] == '-',
        n >= 0 ==> int_text(dec_int(n), false) == Some(n),
        dec_int(n).len() > 0,
{
    if n < 0 {
        lemma_dec((-n) as nat);
        assert(dec_int(n).drop_first() =~= dec((-n) as nat));
        assert(dec_int(n)[0] == '-');
        assert forall|i: int| 0 <= i < dec_int(n).len() implies ('0' <= #[trigger] dec_int(n)[i]
            && dec_int(n)[i] <= '9') || dec_int(n)[i] == '-' by {
            if i > 0 {
                assert(dec_int(n)[i] == dec((-n) as nat)[i - 1]);
            }
        }
    } else {
        lemma_dec(n as nat);
    }
}

pub(crate) proof fn lemma_place_parts(x: int, y: int, z: int)
    ensures
        split(place_text(x, y, z), ',') == seq![dec_int(x), dec_int(y), dec_int(z)],
        forall|i: int|
            0 <= i < place_text(x, y, z).len() ==> ('0' <= #[trigger] place_text(x, y, z)[i]
                && place_text(x, y, z)[i] <= '9') || place_text(x, y, z)[i] == '-' || place_text(
                x,
                y,
                z,
            )[i] == ',',
{
    reveal_strlit(",");
    let (a, b, c) = (dec_int(x), dec_int(y), dec_int(z));
    lemma_dec_int(x);
    lemma_dec_int(y);
    lemma_dec_int(z);
    assert(","@ =~= seq![',']);
    assert(place_text(x, y, z) =~= a.push(',') + (b.push(',') + c));
    lemma_split_join(a, b.push(',') + c, ',');
    lemma_split_join(b, c, ',');
    lemma_split_whole(a, ',');
    lemma_split_whole(b, ',');
    lemma_split_whole(c, ',');
    assert(seq![a] + (seq![b] + seq![c]) =~= seq![a, b, c]);
}

/// The address of a place leads back to it.
pub proof fn law_anchor_reads_back(x: i32, y: i32, zoom_pct: i32)
    ensures
        anchor_of("?at="@ + place_text(x as int, y as int, zoom_pct as int)) == Some(
            (x as int, y as int, Some(dec_int(zoom_pct as int))),
        ),
{
    reveal_strlit("?at=");
    reveal_strlit("at=");
    let p = place_text(x as int, y as int, zoom_pct as int);
    lemma_place_parts(x as int, y as int, zoom_pct as int);
    lemma_dec_int(x as int);
    lemma_dec_int(y as int);
    let s = "?at="@ + p;
    let t = "at="@ + p;
    assert(s.drop_first() =~= t);
    assert(t[0] == 'a');
    assert(trim_question(t) == t);
    assert(trim_question(s) == t);
    assert(lacks(t, '&')) by {
        assert forall|i: int| 0 <= i < t.len() implies #[trigger] t[i] != '&' by {
            if i >= 3 {
                assert(t[i] == p[i - 3]);
            }
        }
    }
    lemma_split_whole(t, '&');
    assert(t.subrange(0, 3) =~= "at="@);
    assert(t.skip(3) =~= p);
}

/// The server reads the same place out of an address as the editor wrote into it.
pub proof fn law_server_reads_anchor(x: i32, y: i32, zoom_pct: i32)
    requires
        3 <= zoom_pct <= 800,
    ensures
        place_of(place_text(x as int, y as int, zoom_pct as int)) == Some(
            (x as int, y as int, zoom_pct as int),
        ),
{
    let z = dec_int(zoom_pct as int);
    lemma_place_parts(x as int, y as int, zoom_pct as int);
    lemma_dec_int(x as int);
    lemma_dec_int(y as int);
    lemma_dec_int(zoom_pct as int);
    assert(z.last() == z[z.len() - 1]);
    assert(trim_percent(z) == z);
}

} // verus!
