//! The log: actions, accounts and regions are gathered into segments, which are
//! written to disk one after the other.

use std::collections::HashMap;
use vstd::prelude::*;
use vstd::std_specs::hash::*;
use vstd::string::*;
use vstd::utf8::*;

use crate::model::{Action, Segment, SegmentEvent, StoredRegion, UserAccount};
use crate::sort::{insert_by, sort_by};
use crate::state::MAX_HOT_ACTIONS;
use crate::text::{hex_digit, hex_fixed, hex_value, hex_value_of, push_hex};

verus! {

/// Milliseconds after which a segment is written even if it is not full.
pub const SEGMENT_FLUSH_MILLIS: u64 = 30_000;

/// `s` is the segment that follows segment `prev_id`, and holds nothing yet.
pub open spec fn is_empty_after(s: Segment, prev_id: u64) -> bool {
    &&& s.segment_id == prev_id + 1
    &&& s.prev_segment_id == (if prev_id == 0 {
        None
    } else {
        Some(prev_id)
    })
    &&& s.new_users@ == Map::<u32, UserAccount>::empty()
    &&& s.new_regions@ == Map::<u32, StoredRegion>::empty()
    &&& s.actions@ == Seq::<Action>::empty()
}

/// The segment that follows segment `prev_id`. The first one has number one and
/// no predecessor.
pub fn new_segment(prev_id: u64) -> (r: Segment)
    requires
        prev_id < u64::MAX,
    ensures
        is_empty_after(r, prev_id),
{
    broadcast use group_hash_axioms;

    Segment {
        segment_id: prev_id + 1,
        prev_segment_id: if prev_id == 0 {
            None
        } else {
            Some(prev_id)
        },
        new_users: HashMap::new(),
        new_regions: HashMap::new(),
        actions: Vec::new(),
    }
}

/// The segment holds something.
pub open spec fn pending(s: Segment) -> bool {
    s.actions@.len() > 0 || !s.new_users@.dom().is_empty() || !s.new_regions@.dom().is_empty()
}

pub fn has_pending(segment: &Segment) -> (r: bool)
    ensures
        r == pending(*segment),
{
    broadcast use group_hash_axioms;

    segment.actions.len() > 0 || !segment.new_users.is_empty() || !segment.new_regions.is_empty()
}

/// `after` is `before` with `event` noted.
pub open spec fn noted(before: Segment, event: SegmentEvent, after: Segment) -> bool {
    &&& after.segment_id == before.segment_id
    &&& after.prev_segment_id == before.prev_segment_id
    &&& match event {
        SegmentEvent::Action(a) => {
            &&& after.actions@ == before.actions@.push(a)
            &&& after.new_users@ == before.new_users@
            &&& after.new_regions@ == before.new_regions@
        },
        SegmentEvent::UserUpsert(u) => {
            &&& after.actions@ == before.actions@
            &&& after.new_users@ == before.new_users@.insert(u.user_id, u)
            &&& after.new_regions@ == before.new_regions@
        },
        SegmentEvent::RegionUpsert(r) => {
            &&& after.actions@ == before.actions@
            &&& after.new_users@ == before.new_users@
            &&& after.new_regions@ == before.new_regions@.insert(r.id, r)
        },
        SegmentEvent::RegionRemove(id) => {
            &&& after.actions@ == before.actions@
            &&& after.new_users@ == before.new_users@
            &&& after.new_regions@ == before.new_regions@.remove(id)
        },
    }
}

/// The segment that is being filled.
pub struct SegmentLog {
    pub current: Segment,
}

impl SegmentLog {
    /// The segment is not full, and what it holds of accounts and regions is
    /// stored under their numbers.
    pub open spec fn wf(&self) -> bool {
        &&& self.current.actions@.len() < MAX_HOT_ACTIONS
        &&& forall|k: u32| #[trigger]
            self.current.new_users@.contains_key(k) ==> self.current.new_users@[k].user_id == k
        &&& forall|k: u32| #[trigger]
            self.current.new_regions@.contains_key(k) ==> self.current.new_regions@[k].id == k
    }

    /// A log that goes on after segment `last_segment_id`.
    pub fn new(last_segment_id: u64) -> (r: Self)
        requires
            last_segment_id < u64::MAX,
        ensures
            r.wf(),
            is_empty_after(r.current, last_segment_id),
    {
        SegmentLog { current: new_segment(last_segment_id) }
    }

    /// Starts the next segment, and hands out the one that was being filled.
    fn rotate(&mut self) -> (r: Segment)
        requires
            old(self).current.segment_id < u64::MAX,
        ensures
            r == old(self).current,
            is_empty_after(final(self).current, r.segment_id),
            final(self).wf(),
    {
        let mut next = new_segment(self.current.segment_id);
        std::mem::swap(&mut next, &mut self.current);
        next
    }

    /// Notes an event. The segment that it filled, if it did, is to be written
    /// to disk.
    pub fn on_event(&mut self, event: SegmentEvent) -> (r: Option<Segment>)
        requires
            old(self).wf(),
            old(self).current.segment_id < u64::MAX,
        ensures
            final(self).wf(),
            match r {
                Some(full) => {
                    &&& full.actions@.len() == MAX_HOT_ACTIONS
                    &&& noted(old(self).current, event, full)
                    &&& is_empty_after(final(self).current, full.segment_id)
                },
                None => {
                    &&& noted(old(self).current, event, final(self).current)
                    &&& final(self).current.actions@.len() < MAX_HOT_ACTIONS
                },
            },
            r is Some <==> event is Action && old(self).current.actions@.len() + 1
                >= MAX_HOT_ACTIONS,
    {
        broadcast use group_hash_axioms;

        match event {
            SegmentEvent::Action(a) => {
                self.current.actions.push(a);
                if self.current.actions.len() >= MAX_HOT_ACTIONS {
                    return Some(self.rotate());
                }
            },
            SegmentEvent::UserUpsert(u) => {
                self.current.new_users.insert(u.user_id, u);
            },
            SegmentEvent::RegionUpsert(r) => {
                self.current.new_regions.insert(r.id, r);
            },
            SegmentEvent::RegionRemove(id) => {
                self.current.new_regions.remove(&id);
            },
        }
        None
    }

    /// With no event at hand: the segment to be written to disk, if it holds
    /// something and a write is due.
    pub fn on_idle(&mut self, due: bool) -> (r: Option<Segment>)
        requires
            old(self).wf(),
            old(self).current.segment_id < u64::MAX,
        ensures
            final(self).wf(),
            r is Some <==> due && pending(old(self).current),
            match r {
                Some(s) => s == old(self).current && is_empty_after(
                    final(self).current,
                    s.segment_id,
                ),
                None => *final(self) == *old(self),
            },
    {
        if has_pending(&self.current) && due {
            Some(self.rotate())
        } else {
            None
        }
    }

    /// At the end: the segment to be written to disk, if it holds something.
    pub fn close(self) -> (r: Option<Segment>)
        ensures
            r == (if pending(self.current) {
                Some(self.current)
            } else {
                None
            }),
    {
        if has_pending(&self.current) {
            Some(self.current)
        } else {
            None
        }
    }
}

/// A write is due after half a minute, or when it is asked for.
pub fn flush_due(elapsed_millis: u64, forced: bool) -> (r: bool)
    ensures
        r == (elapsed_millis >= SEGMENT_FLUSH_MILLIS || forced),
{
    elapsed_millis >= SEGMENT_FLUSH_MILLIS || forced
}

/// The name of the file that holds segment `id`, without its extension.
pub open spec fn segment_stem(id: u64) -> Seq<char> {
    hex_fixed(id as nat, 16)
}

/// Where segment `id` is stored, under `dir`.
pub fn segment_path(dir: &str, id: u64) -> (r: String)
    ensures
        r@ == dir@ + "/"@ + segment_stem(id) + ".seg"@,
{
    let mut s = dir.to_string();
    s.append("/");
    push_hex(&mut s, id, 16);
    s.append(".seg");
    s
}

/// The number that the hexadecimal digits `b` write.
pub open spec fn hex_number(b: Seq<u8>) -> Option<nat>
    decreases b.len(),
{
    if b.len() == 0 {
        Some(0)
    } else {
        match (hex_number(b.drop_last()), hex_value(b.last())) {
            (Some(n), Some(d)) => Some((n * 16 + d) as nat),
            _ => None,
        }
    }
}

/// The number below two to the 64th that `b` writes in base sixteen: one digit
/// or more, after a plus sign or none.
pub open spec fn hex_u64(b: Seq<u8>) -> Option<u64> {
    let digits = if b.len() > 0 && b[0] == 0x2b {
        b.drop_first()
    } else {
        b
    };
    match hex_number(digits) {
        Some(n) => if digits.len() > 0 && n <= u64::MAX {
            Some(n as u64)
        } else {
            None
        },
        None => None,
    }
}

proof fn lemma_hex_number_grows(b: Seq<u8>, i: int)
    requires
        0 <= i <= b.len(),
    ensures
        hex_number(b.take(i)) is None ==> hex_number(b) is None,
        hex_number(b.take(i)) is Some && hex_number(b) is Some ==> hex_number(b.take(i))->0
            <= hex_number(b)->0,
    decreases b.len() - i,
{
    if i < b.len() {
        lemma_hex_number_grows(b, i + 1);
        assert(b.take(i + 1).drop_last() =~= b.take(i));
    } else {
        assert(b.take(i) =~= b);
    }
}

/// The number below two to the 64th that `s` writes in base sixteen.
pub fn parse_hex_u64(s: &str) -> (r: Option<u64>)
    ensures
        r == hex_u64(encode_utf8(s@)),
{
    let b: &[u8] = s.as_bytes();
    let start: usize = if b.len() > 0 && b[0] == 0x2b {
        1
    } else {
        0
    };
    let ghost digits = b@.skip(start as int);
    proof {
        if start == 1 {
            assert(digits =~= b@.drop_first());
        } else {
            assert(digits =~= b@);
        }
    }
    if b.len() == start {
        return None;
    }
    let mut n: u64 = 0;
    let mut i: usize = start;
    assert(digits.take(0) =~= Seq::<u8>::empty());
    while i < b.len()
        invariant
            start <= i <= b@.len(),
            b@ == encode_utf8(s@),
            digits == b@.skip(start as int),
            digits.len() > 0,
            hex_u64(b@) == (match hex_number(digits) {
                Some(n) => if digits.len() > 0 && n <= u64::MAX {
                    Some(n as u64)
                } else {
                    None
                },
                None => None,
            }),
            hex_number(digits.take(i - start)) == Some(n as nat),
        decreases b@.len() - i,
    {
        proof {
            assert(digits.take(i - start + 1).drop_last() =~= digits.take(i - start));
            assert(digits.take(i - start + 1).last() == b@[i as int]);
            lemma_hex_number_grows(digits, i - start + 1);
        }
        let d: u8 = match hex_value_of(b[i]) {
            Some(d) => d,
            None => {
                return None;
            },
        };
        if n > 0x0fff_ffff_ffff_ffff {
            assert(n * 16 + d > u64::MAX);
            return None;
        }
        n = n * 16 + d as u64;
        i = i + 1;
    }
    assert(digits.take(i - start) =~= digits);
    Some(n)
}

/// The file `stem` with extension `ext` is a segment that follows segment
/// `base_id`.
pub fn is_segment_after(stem: &str, ext: &str, base_id: u64) -> (r: bool)
    ensures
        r == (ext@ == "seg"@ && hex_u64(encode_utf8(stem@)) is Some && hex_u64(
            encode_utf8(stem@),
        )->0 > base_id),
{
    if ext.to_string() != "seg".to_string() {
        return false;
    }
    match parse_hex_u64(stem) {
        Some(id) => id > base_id,
        None => false,
    }
}

/// `a` comes before `b`, or is the same, byte by byte.
pub open spec fn bytes_le(a: Seq<u8>, b: Seq<u8>) -> bool
    decreases a.len(),
{
    if a.len() == 0 {
        true
    } else if b.len() == 0 {
        false
    } else if a[0] != b[0] {
        a[0] < b[0]
    } else {
        bytes_le(a.drop_first(), b.drop_first())
    }
}

/// The name that comes first, or the same.
pub open spec fn by_name() -> spec_fn(String, String) -> bool {
    |a: String, b: String| bytes_le(encode_utf8(a@), encode_utf8(b@))
}

fn name_le(a: &String, b: &String) -> (r: bool)
    ensures
        r == by_name()(*a, *b),
{
    let x: &[u8] = a.as_str().as_bytes();
    let y: &[u8] = b.as_str().as_bytes();
    let mut i: usize = 0;
    assert(x@.skip(0) =~= x@);
    assert(y@.skip(0) =~= y@);
    while i < x.len()
        invariant
            i <= x@.len(),
            i <= y@.len(),
            x@ == encode_utf8(a@),
            y@ == encode_utf8(b@),
            bytes_le(x@, y@) == bytes_le(x@.skip(i as int), y@.skip(i as int)),
        decreases x@.len() - i,
    {
        if i >= y.len() {
            return false;
        }
        if x[i] != y[i] {
            return x[i] < y[i];
        }
        proof {
            assert(x@.skip(i as int).drop_first() =~= x@.skip(i + 1));
            assert(y@.skip(i as int).drop_first() =~= y@.skip(i + 1));
        }
        i = i + 1;
    }
    true
}

/// `names` in order.
pub fn sort_names(names: Vec<String>) -> (r: Vec<String>)
    ensures
        r@ == sort_by(names@, by_name()),
{
    let ghost all = names@;
    let mut out: Vec<String> = Vec::new();
    assert(all.take(0) =~= Seq::<String>::empty());
    for x in iter: names
        invariant
            iter.seq() == all,
            out@ == sort_by(all.take(iter.index() as int), by_name()),
    {
        assert(all.take(iter.index() + 1).drop_last() =~= all.take(iter.index() as int));
        insert_name(&mut out, x);
    }
    assert(all.take(all.len() as int) =~= all);
    out
}

fn insert_name(sorted: &mut Vec<String>, x: String)
    ensures
        final(sorted)@ == insert_by(old(sorted)@, x, by_name()),
{
    let ghost s = sorted@;
    let mut k: usize = sorted.len();
    assert(s.take(k as int) =~= s);
    assert(insert_by(s.take(k as int), x, by_name()) + s.skip(k as int) =~= insert_by(
        s,
        x,
        by_name(),
    ));
    while k > 0 && !name_le(&sorted[k - 1], &x)
        invariant
            k <= s.len(),
            sorted@ == s,
            insert_by(s.take(k as int), x, by_name()) + s.skip(k as int) == insert_by(
                s,
                x,
                by_name(),
            ),
        decreases k,
    {
        proof {
            let t = s.take(k as int);
            assert(!by_name()(t.last(), x));
            assert(t.drop_last() =~= s.take(k - 1));
            assert(insert_by(s.take(k - 1), x, by_name()) + s.skip(k - 1) =~= insert_by(
                t,
                x,
                by_name(),
            ) + s.skip(k as int));
        }
        k = k - 1;
    }
    proof {
        let t = s.take(k as int);
        if k > 0 {
            assert(by_name()(t.last(), x));
        }
        assert(insert_by(t, x, by_name()) =~= t.push(x));
        assert(s.insert(k as int, x) =~= insert_by(s, x, by_name()));
    }
    sorted.insert(k, x);
}

/// The bytes of the last `width` hexadecimal digits of `n`.
pub open spec fn hex_bytes(n: nat, width: nat) -> Seq<u8> {
    hex_fixed(n, width).map_values(|c: char| c as u8)
}

proof fn lemma_bytes_le_push(a: Seq<u8>, b: Seq<u8>, x: u8, y: u8)
    requires
        a.len() == b.len(),
    ensures
        bytes_le(a.push(x), b.push(y)) == (if a == b {
            x <= y
        } else {
            bytes_le(a, b)
        }),
    decreases a.len(),
{
    if a.len() > 0 {
        assert(a.push(x).drop_first() =~= a.drop_first().push(x));
        assert(b.push(y).drop_first() =~= b.drop_first().push(y));
        lemma_bytes_le_push(a.drop_first(), b.drop_first(), x, y);
        if a[0] == b[0] && a.drop_first() == b.drop_first() {
            assert(a =~= b) by {
                assert forall|i: int| 0 <= i < a.len() implies a[i] == b[i] by {
                    if i > 0 {
                        assert(a.drop_first()[i - 1] == b.drop_first()[i - 1]);
                    }
                }
            }
        }
    } else {
        assert(a =~= b);
        reveal_with_fuel(bytes_le, 2);
    }
}

proof fn lemma_hex_bytes_order(n: nat, m: nat, width: nat)
    requires
        n < vstd::arithmetic::power::pow(16, width),
        m < vstd::arithmetic::power::pow(16, width),
    ensures
        hex_bytes(n, width).len() == width,
        hex_bytes(n, width) == hex_bytes(m, width) <==> n == m,
        bytes_le(hex_bytes(n, width), hex_bytes(m, width)) <==> n <= m,
        is_ascii_chars(hex_fixed(n, width)),
    decreases width,
{
    reveal(vstd::arithmetic::power::pow);
    if width > 0 {
        let w = (width - 1) as nat;
        lemma_hex_bytes_order(n / 16, m / 16, w);
        lemma_hex_bytes_order(m / 16, n / 16, w);
        let a = hex_bytes(n / 16, w);
        let b = hex_bytes(m / 16, w);
        let x = hex_digit((n % 16) as int) as u8;
        let y = hex_digit((m % 16) as int) as u8;
        assert(hex_bytes(n, width) =~= a.push(x));
        assert(hex_bytes(m, width) =~= b.push(y));
        lemma_bytes_le_push(a, b, x, y);
        assert(n == (n / 16) * 16 + n % 16);
        assert(m == (m / 16) * 16 + m % 16);
        assert(a.push(x) == b.push(y) <==> a == b && x == y) by {
            if a.push(x) == b.push(y) {
                assert(a =~= a.push(x).drop_last());
                assert(b =~= b.push(y).drop_last());
                assert(a.push(x).last() == x);
            }
        }
    } else {
        assert(hex_bytes(n, 0) =~= hex_bytes(m, 0));
    }
}

/// Segment files in the order of their names are in the order of their
/// numbers; no two segments share a name.
pub proof fn law_names_order_segments(a: u64, b: u64)
    ensures
        bytes_le(encode_utf8(segment_stem(a)), encode_utf8(segment_stem(b))) <==> a <= b,
        segment_stem(a) == segment_stem(b) <==> a == b,
{
    assert(vstd::arithmetic::power::pow(16, 16) == 0x1_0000_0000_0000_0000) by {
        reveal_with_fuel(vstd::arithmetic::power::pow, 17);
    }
    lemma_hex_bytes_order(a as nat, b as nat, 16);
    lemma_hex_bytes_order(b as nat, a as nat, 16);
    is_ascii_chars_encode_utf8(segment_stem(a));
    is_ascii_chars_encode_utf8(segment_stem(b));
    assert(encode_utf8(segment_stem(a)) =~= hex_bytes(a as nat, 16));
    assert(encode_utf8(segment_stem(b)) =~= hex_bytes(b as nat, 16));
}

/// The file is a segment that follows segment `base_id`.
pub open spec fn follows(file: (String, String), base_id: u64) -> bool {
    &&& file.1@ == "seg"@
    &&& hex_u64(encode_utf8(file.0@)) matches Some(id) && id > base_id
}

/// The stems of the segments among `files` that follow segment `base_id`.
pub open spec fn stems_after(files: Seq<(String, String)>, base_id: u64) -> Seq<String>
    decreases files.len(),
{
    if files.len() == 0 {
        Seq::empty()
    } else {
        let before = stems_after(files.drop_last(), base_id);
        if follows(files.last(), base_id) {
            before.push(files.last().0)
        } else {
            before
        }
    }
}

/// The segments to replay after segment `base_id`, oldest first, among the
/// files given by stem and extension.
pub fn collect_segments_after(files: Vec<(String, String)>, base_id: u64) -> (r: Vec<String>)
    ensures
        r@ == sort_by(stems_after(files@, base_id), by_name()),
{
    let ghost all = files@;
    let mut out: Vec<String> = Vec::new();
    assert(all.take(0) =~= Seq::<(String, String)>::empty());
    for f in iter: files
        invariant
            iter.seq() == all,
            out@ == stems_after(all.take(iter.index() as int), base_id),
    {
        assert(all.take(iter.index() + 1).drop_last() =~= all.take(iter.index() as int));
        if is_segment_after(f.0.as_str(), f.1.as_str(), base_id) {
            out.push(f.0);
        }
    }
    assert(all.take(all.len() as int) =~= all);
    sort_names(out)
}

proof fn lemma_hex_number_reads(n: nat, width: nat)
    requires
        n < vstd::arithmetic::power::pow(16, width),
    ensures
        hex_number(hex_bytes(n, width)) == Some(n),
        width > 0 ==> hex_bytes(n, width)[0] != 0x2b,
        hex_bytes(n, width).len() == width,
    decreases width,
{
    reveal(vstd::arithmetic::power::pow);
    if width > 0 {
        let w = (width - 1) as nat;
        lemma_hex_number_reads(n / 16, w);
        let x = hex_digit((n % 16) as int) as u8;
        assert(hex_bytes(n, width) =~= hex_bytes(n / 16, w).push(x));
        assert(hex_bytes(n, width).drop_last() =~= hex_bytes(n / 16, w));
        assert(n == (n / 16) * 16 + n % 16);
    }
}

/// The name of a segment's file says which segment it holds.
pub proof fn law_segment_name_reads_back(id: u64)
    ensures
        hex_u64(encode_utf8(segment_stem(id))) == Some(id),
{
    assert(vstd::arithmetic::power::pow(16, 16) == 0x1_0000_0000_0000_0000) by {
        reveal_with_fuel(vstd::arithmetic::power::pow, 17);
    }
    lemma_hex_number_reads(id as nat, 16);
    lemma_hex_bytes_order(id as nat, id as nat, 16);
    is_ascii_chars_encode_utf8(segment_stem(id));
    assert(encode_utf8(segment_stem(id)) =~= hex_bytes(id as nat, 16));
}

} // verus!
