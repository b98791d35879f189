//! The text codec for events: each event is one field of a headerless
//! CSV-like stream, written `name`, `name:leader`, `name[n]` or
//! `name:leader[n]` with whitespace trimmed around the three parts and the
//! `[1]` suffix omitted. The field grammar is decoded and encoded by verified
//! code; only the CSV framing (commas, quoting, records) is delegated to the
//! `csv` crate behind trusted wrappers.
use vstd::prelude::*;

use crate::event::{event_wf, Event};

verus! {

/// A structured decoding failure, naming the missing or malformed part.
#[derive(Debug, Clone, Copy, PartialEq, Eq)]
pub enum InputError {
    /// The field is empty.
    EmptyEvent,
    /// The name before the colon (or the whole field) is empty.
    MissingName,
    /// A colon is present but nothing follows it.
    MissingLeader,
    /// The field ends with `]` but holds no `[`.
    MissingLen,
    /// The bracketed length is not a positive integer that fits the machine.
    BadLen,
    /// The CSV framing itself could not be read.
    Csv,
}

/// ASCII whitespace, as trimmed around names, leaders and lengths.
pub open spec fn is_ws(b: u8) -> bool {
    b == 32 || b == 9 || b == 13 || b == 10
}

/// The bytes left after dropping leading whitespace.
pub open spec fn trim_front(s: Seq<u8>) -> Seq<u8>
    decreases s.len(),
{
    if s.len() > 0 && is_ws(s[0]) {
        trim_front(s.drop_first())
    } else {
        s
    }
}

/// The bytes left after dropping trailing whitespace.
pub open spec fn trim_back(s: Seq<u8>) -> Seq<u8>
    decreases s.len(),
{
    if s.len() > 0 && is_ws(s.last()) {
        trim_back(s.drop_last())
    } else {
        s
    }
}

/// The bytes left after dropping whitespace at both ends.
pub open spec fn trimmed(s: Seq<u8>) -> Seq<u8> {
    trim_back(trim_front(s))
}

/// Position of the first occurrence of `b`, or `-1`.
pub open spec fn first_pos(s: Seq<u8>, b: u8) -> int
    decreases s.len(),
{
    if s.len() == 0 {
        -1
    } else if s[0] == b {
        0
    } else {
        let r = first_pos(s.drop_first(), b);
        if r < 0 {
            -1
        } else {
            r + 1
        }
    }
}

/// `first_pos` finds nothing exactly when the byte does not occur.
pub proof fn lemma_first_pos_none(s: Seq<u8>, b: u8)
    requires
        forall|i: int| 0 <= i < s.len() ==> s[i] != b,
    ensures
        first_pos(s, b) == -1,
    decreases s.len(),
{
    if s.len() > 0 {
        lemma_first_pos_none(s.drop_first(), b);
    }
}

/// `first_pos` finds the position before which the byte does not occur.
pub proof fn lemma_first_pos_at(s: Seq<u8>, b: u8, p: int)
    requires
        0 <= p < s.len(),
        s[p] == b,
        forall|i: int| 0 <= i < p ==> s[i] != b,
    ensures
        first_pos(s, b) == p,
    decreases s.len(),
{
    if p > 0 {
        lemma_first_pos_at(s.drop_first(), b, p - 1);
    }
}

/// All bytes are ASCII digits, and there is at least one.
pub open spec fn all_digits(s: Seq<u8>) -> bool {
    s.len() > 0 && forall|i: int| 0 <= i < s.len() ==> 48 <= #[trigger] s[i] <= 57
}

/// The number a digit string denotes.
pub open spec fn digits_val(s: Seq<u8>) -> nat
    decreases s.len(),
{
    if s.len() == 0 {
        0
    } else {
        digits_val(s.drop_last()) * 10 + (if s.last() >= 48 {
            (s.last() - 48) as nat
        } else {
            0
        })
    }
}

/// The digit string with one optional leading `+` removed.
pub open spec fn num_body(s: Seq<u8>) -> Seq<u8> {
    if s.len() > 0 && s[0] == 43 {
        s.drop_first()
    } else {
        s
    }
}

/// The number a length string denotes, if it is one the machine can hold.
pub open spec fn parse_len_spec(s: Seq<u8>) -> Option<int> {
    if all_digits(num_body(s)) && digits_val(num_body(s)) <= usize::MAX {
        Some(digits_val(num_body(s)) as int)
    } else {
        None
    }
}

/// The name and optional leader read from an already length-stripped field,
/// paired with the given length.
pub open spec fn parse_name_leader(t: Seq<u8>, l: int) -> Result<
    (Seq<u8>, Option<Seq<u8>>, int),
    InputError,
> {
    let p = first_pos(t, 58);
    if p < 0 {
        if t.len() == 0 {
            Err(InputError::MissingName)
        } else {
            Ok((t, None, l))
        }
    } else {
        let name = trimmed(t.subrange(0, p));
        let leader = trimmed(t.subrange(p + 1, t.len() as int));
        if name.len() == 0 {
            Err(InputError::MissingName)
        } else if leader.len() == 0 {
            Err(InputError::MissingLeader)
        } else {
            Ok((name, Some(leader), l))
        }
    }
}

/// What decoding one field yields: the name, the optional leader and the
/// length, or the error the field deserves.
pub open spec fn parse_event_spec(s: Seq<u8>) -> Result<
    (Seq<u8>, Option<Seq<u8>>, int),
    InputError,
> {
    if s.len() == 0 {
        Err(InputError::EmptyEvent)
    } else if s.last() == 93 {
        let body = s.drop_last();
        let p = first_pos(body, 91);
        if p < 0 {
            Err(InputError::MissingLen)
        } else {
            let len_s = trimmed(body.subrange(p + 1, body.len() as int));
            match parse_len_spec(len_s) {
                None => Err(InputError::BadLen),
                Some(l) => if l == 0 {
                    Err(InputError::BadLen)
                } else {
                    parse_name_leader(trimmed(body.subrange(0, p)), l)
                },
            }
        }
    } else {
        parse_name_leader(trimmed(s), 1)
    }
}

/// The decimal digits of `n`, most significant first.
pub open spec fn dec_digits(n: nat) -> Seq<u8>
    decreases n,
{
    if n < 10 {
        seq![(48 + n) as u8]
    } else {
        dec_digits(n / 10).push((48 + n % 10) as u8)
    }
}

/// The field text an event is written as.
pub open spec fn encode_event_spec(name: Seq<u8>, leader: Option<Seq<u8>>, len: int) -> Seq<u8> {
    let base = match leader {
        Some(l) => name + seq![58u8] + l,
        None => name,
    };
    if len != 1 {
        base + seq![91u8] + dec_digits(len as nat) + seq![93u8]
    } else {
        base
    }
}

/// Whether a byte is codec whitespace.
fn ws_byte(b: u8) -> (r: bool)
    ensures
        r == is_ws(b),
{
    b == 32 || b == 9 || b == 13 || b == 10
}

/// Copies `s[from..to]` with surrounding whitespace dropped.
fn trim_range(s: &Vec<u8>, from: usize, to: usize) -> (r: Vec<u8>)
    requires
        from <= to <= s@.len(),
    ensures
        r@ == trimmed(s@.subrange(from as int, to as int)),
{
    let mut lo = from;
    let mut hi = to;
    while lo < hi && ws_byte(s[lo])
        invariant
            from <= lo <= hi,
            hi == to <= s@.len(),
            trim_front(s@.subrange(from as int, to as int)) == trim_front(
                s@.subrange(lo as int, to as int),
            ),
        decreases hi - lo,
    {
        proof {
            assert(s@.subrange(lo as int, to as int).drop_first() =~= s@.subrange(
                lo + 1,
                to as int,
            ));
        }
        lo = lo + 1;
    }
    proof {
        assert(trim_front(s@.subrange(lo as int, to as int)) == s@.subrange(lo as int, to as int));
    }
    while hi > lo && ws_byte(s[hi - 1])
        invariant
            from <= lo <= hi,
            hi <= to <= s@.len(),
            trim_back(s@.subrange(lo as int, to as int)) == trim_back(
                s@.subrange(lo as int, hi as int),
            ),
        decreases hi - lo,
    {
        proof {
            assert(s@.subrange(lo as int, hi as int).drop_last() =~= s@.subrange(
                lo as int,
                hi - 1,
            ));
        }
        hi = hi - 1;
    }
    proof {
        assert(trim_back(s@.subrange(lo as int, hi as int)) == s@.subrange(lo as int, hi as int));
    }
    let mut r: Vec<u8> = Vec::new();
    let mut i = lo;
    while i < hi
        invariant
            lo <= i <= hi <= s@.len(),
            r@ =~= s@.subrange(lo as int, i as int),
        decreases hi - i,
    {
        r.push(s[i]);
        i = i + 1;
    }
    proof {
        assert(r@ =~= s@.subrange(lo as int, hi as int));
    }
    r
}

/// Finds the first occurrence of `b` in `s[from..to]`.
fn find_in_range(s: &Vec<u8>, from: usize, to: usize, b: u8) -> (r: Option<usize>)
    requires
        from <= to <= s@.len(),
    ensures
        match r {
            Some(p) => from <= p < to && first_pos(s@.subrange(from as int, to as int), b) == p
                - from,
            None => first_pos(s@.subrange(from as int, to as int), b) == -1,
        },
{
    let ghost sub = s@.subrange(from as int, to as int);
    let mut i = from;
    while i < to
        invariant
            from <= i <= to <= s@.len(),
            forall|j: int| 0 <= j < i - from ==> sub[j] != b,
        decreases to - i,
    {
        if s[i] == b {
            proof {
                assert(sub[i - from] == b);
                lemma_first_pos_at(sub, b, i - from);
            }
            return Some(i);
        }
        proof {
            assert(sub[i - from] == s@[i as int]);
        }
        i = i + 1;
    }
    proof {
        lemma_first_pos_none(sub, b);
    }
    None
}

/// Later digit-string prefixes denote numbers at least as large.
proof fn lemma_digits_prefix_le(t: Seq<u8>, a: int, j: int, k: int)
    requires
        0 <= a <= j <= k <= t.len(),
    ensures
        digits_val(t.subrange(a, j)) <= digits_val(t.subrange(a, k)),
    decreases k - j,
{
    if j < k {
        lemma_digits_prefix_le(t, a, j, k - 1);
        let p = t.subrange(a, k);
        assert(p.drop_last() =~= t.subrange(a, k - 1));
    }
}

/// Reads a trimmed length string as a number the machine can hold.
fn parse_len_bytes(t: &Vec<u8>) -> (r: Option<usize>)
    ensures
        match r {
            Some(n) => parse_len_spec(t@) == Some(n as int),
            None => parse_len_spec(t@) is None,
        },
{
    let n = t.len();
    let mut start: usize = 0;
    if n > 0 && t[0] == 43 {
        start = 1;
    }
    let ghost body = num_body(t@);
    proof {
        assert(body =~= t@.subrange(start as int, n as int));
    }
    if start >= n {
        proof {
            assert(body.len() == 0);
        }
        return None;
    }
    let mut val: usize = 0;
    let mut i = start;
    while i < n
        invariant
            start <= i <= n == t@.len(),
            start < n,
            body =~= t@.subrange(start as int, n as int),
            forall|j: int| start <= j < i ==> 48 <= #[trigger] t@[j] <= 57,
            val == digits_val(t@.subrange(start as int, i as int)),
        decreases n - i,
    {
        let c = t[i];
        if c < 48 || c > 57 {
            proof {
                assert(body[i - start] == t@[i as int]);
                assert(!all_digits(body));
            }
            return None;
        }
        let d = (c - 48) as usize;
        if val > (usize::MAX - d) / 10 {
            proof {
                let m = (usize::MAX - d) as int;
                vstd::arithmetic::div_mod::lemma_fundamental_div_mod(m, 10);
                vstd::arithmetic::div_mod::lemma_mod_bound(m, 10);
                assert(10 * val + d > usize::MAX);
                let pre = t@.subrange(start as int, i + 1);
                assert(pre.drop_last() =~= t@.subrange(start as int, i as int));
                assert(pre.last() == c);
                assert(digits_val(pre) == val * 10 + d);
                lemma_digits_prefix_le(t@, start as int, i + 1, n as int);
                assert(digits_val(body) > usize::MAX);
            }
            return None;
        }
        proof {
            let pre = t@.subrange(start as int, i + 1);
            assert(pre.drop_last() =~= t@.subrange(start as int, i as int));
            assert(pre.last() == c);
        }
        val = val * 10 + d;
        i = i + 1;
    }
    proof {
        assert(t@.subrange(start as int, n as int) =~= body);
        assert forall|j: int| 0 <= j < body.len() implies 48 <= #[trigger] body[j] <= 57 by {
            assert(body[j] == t@[start + j]);
        }
        assert(all_digits(body));
        assert(digits_val(body) == val);
    }
    Some(val)
}

/// One event as decoded text: display name, optional leader name, length.
#[derive(Debug, Clone, PartialEq)]
pub struct EventModel {
    pub name: Vec<u8>,
    pub leader: Option<Vec<u8>>,
    pub len: usize,
}

/// The plain values an `EventModel` holds.
pub open spec fn model_view(m: EventModel) -> (Seq<u8>, Option<Seq<u8>>, int) {
    (
        m.name@,
        match m.leader {
            Some(l) => Some(l@),
            None => None,
        },
        m.len as int,
    )
}

/// The model holds exactly these decoded values.
pub open spec fn model_matches(m: EventModel, v: (Seq<u8>, Option<Seq<u8>>, int)) -> bool {
    model_view(m) == v
}

fn name_leader(t: Vec<u8>, l: usize) -> (r: Result<EventModel, InputError>)
    requires
        l >= 1,
    ensures
        match r {
            Ok(m) => parse_name_leader(t@, l as int) is Ok && model_matches(
                m,
                parse_name_leader(t@, l as int).unwrap(),
            ) && m.len >= 1,
            Err(e) => parse_name_leader(t@, l as int) == Err::<
                (Seq<u8>, Option<Seq<u8>>, int),
                InputError,
            >(e),
        },
{
    let t_len = t.len();
    match find_in_range(&t, 0, t_len, 58) {
        None => {
            if t_len == 0 {
                Err(InputError::MissingName)
            } else {
                proof {
                    assert(t@.subrange(0, t@.len() as int) =~= t@);
                }
                Ok(EventModel { name: t, leader: None, len: l })
            }
        },
        Some(p) => {
            proof {
                assert(t@.subrange(0, t@.len() as int) =~= t@);
            }
            let name = trim_range(&t, 0, p);
            let leader = trim_range(&t, p + 1, t_len);
            if name.len() == 0 {
                Err(InputError::MissingName)
            } else if leader.len() == 0 {
                Err(InputError::MissingLeader)
            } else {
                Ok(EventModel { name, leader: Some(leader), len: l })
            }
        },
    }
}

impl EventModel {
    /// Decodes one field. Exactly the fields the grammar admits come back
    /// `Ok`; each malformed field earns the error naming its defect.
    pub fn from_field(s: &Vec<u8>) -> (r: Result<EventModel, InputError>)
        ensures
            match r {
                Ok(m) => parse_event_spec(s@) is Ok && model_matches(
                    m,
                    parse_event_spec(s@).unwrap(),
                ) && m.len >= 1,
                Err(e) => parse_event_spec(s@) == Err::<
                    (Seq<u8>, Option<Seq<u8>>, int),
                    InputError,
                >(e),
            },
    {
        let n = s.len();
        if n == 0 {
            return Err(InputError::EmptyEvent);
        }
        if s[n - 1] == 93 {
            let ghost body = s@.drop_last();
            proof {
                assert(body =~= s@.subrange(0, n - 1));
            }
            match find_in_range(s, 0, n - 1, 91) {
                None => Err(InputError::MissingLen),
                Some(p) => {
                    proof {
                        assert(body.subrange(p + 1, body.len() as int) =~= s@.subrange(
                            p + 1,
                            n - 1,
                        ));
                        assert(body.subrange(0, p as int) =~= s@.subrange(0, p as int));
                    }
                    let len_s = trim_range(s, p + 1, n - 1);
                    match parse_len_bytes(&len_s) {
                        None => Err(InputError::BadLen),
                        Some(l) => {
                            if l == 0 {
                                Err(InputError::BadLen)
                            } else {
                                let t = trim_range(s, 0, p);
                                name_leader(t, l)
                            }
                        },
                    }
                },
            }
        } else {
            proof {
                assert(s@.subrange(0, n as int) =~= s@);
            }
            let t = trim_range(s, 0, n);
            name_leader(t, 1)
        }
    }
}

/// Appends the bytes of `s` to `out`.
fn push_all(out: &mut Vec<u8>, s: &Vec<u8>)
    ensures
        final(out)@ == old(out)@ + s@,
{
    let mut i: usize = 0;
    while i < s.len()
        invariant
            i <= s@.len(),
            out@ =~= old(out)@ + s@.subrange(0, i as int),
        decreases s@.len() - i,
    {
        out.push(s[i]);
        i = i + 1;
    }
    proof {
        assert(out@ =~= old(out)@ + s@);
    }
}

/// Appends the decimal digits of `n` to `out`.
fn push_digits(out: &mut Vec<u8>, n: usize)
    ensures
        final(out)@ == old(out)@ + dec_digits(n as nat),
    decreases n,
{
    if n >= 10 {
        proof {
            vstd::arithmetic::div_mod::lemma_fundamental_div_mod(n as int, 10);
            vstd::arithmetic::div_mod::lemma_mod_bound(n as int, 10);
        }
        push_digits(out, n / 10);
        out.push((n % 10) as u8 + 48);
        proof {
            assert(out@ =~= old(out)@ + dec_digits(n as nat));
        }
    } else {
        out.push(n as u8 + 48);
        proof {
            assert(out@ =~= old(out)@ + dec_digits(n as nat));
        }
    }
}

impl EventModel {
    /// Encodes the event as one field; a length of one is left implicit.
    pub fn encode_field(&self) -> (r: Vec<u8>)
        ensures
            r@ == encode_event_spec(
                model_view(*self).0,
                model_view(*self).1,
                model_view(*self).2,
            ),
    {
        let mut out: Vec<u8> = Vec::new();
        push_all(&mut out, &self.name);
        match &self.leader {
            Some(l) => {
                out.push(58);
                push_all(&mut out, l);
            },
            None => {},
        }
        let ghost base = out@;
        proof {
            if self.leader is Some {
                assert(base =~= self.name@ + seq![58u8] + self.leader.unwrap()@);
            }
        }
        if self.len != 1 {
            out.push(91);
            push_digits(&mut out, self.len);
            out.push(93);
            proof {
                assert(out@ =~= base + seq![91u8] + dec_digits(self.len as nat) + seq![93u8]);
            }
        }
        out
    }
}

/// Trimming leaves a string alone when neither end is whitespace.
pub proof fn lemma_trim_id(s: Seq<u8>)
    requires
        s.len() > 0,
        !is_ws(s[0]),
        !is_ws(s.last()),
    ensures
        trimmed(s) == s,
{
}

/// The decimal digits of a number are digits and denote it back.
pub proof fn lemma_dec_digits(n: nat)
    ensures
        dec_digits(n).len() >= 1,
        all_digits(dec_digits(n)),
        digits_val(dec_digits(n)) == n,
    decreases n,
{
    if n < 10 {
        let d = dec_digits(n);
        assert(d.len() == 1);
        assert(d[0] == (48 + n) as u8);
        assert((48 + n) as u8 == 48 + n);
        assert(d.drop_last() =~= Seq::<u8>::empty());
        assert(digits_val(Seq::<u8>::empty()) == 0);
        assert(d.last() == 48 + n);
        assert(digits_val(d) == digits_val(d.drop_last()) * 10 + ((d.last() - 48) as nat));
    } else {
        lemma_dec_digits(n / 10);
        vstd::arithmetic::div_mod::lemma_fundamental_div_mod(n as int, 10);
        vstd::arithmetic::div_mod::lemma_mod_bound(n as int, 10);
        let d = dec_digits(n);
        let p = dec_digits(n / 10);
        assert(d == p.push((48 + n % 10) as u8));
        assert((48 + n % 10) as u8 == 48 + n % 10);
        assert(d.drop_last() =~= p);
        assert(d.last() == 48 + n % 10);
        assert(digits_val(d) == digits_val(p) * 10 + (n % 10));
        assert forall|i: int| 0 <= i < d.len() implies 48 <= #[trigger] d[i] <= 57 by {
            if i < p.len() {
                assert(d[i] == p[i]);
            }
        }
    }
}

/// Text usable verbatim as a name or leader: non-empty, no whitespace at the
/// ends, and free of the bracket delimiters.
pub open spec fn token_ok(t: Seq<u8>) -> bool {
    &&& t.len() > 0
    &&& !is_ws(t[0])
    &&& !is_ws(t.last())
    &&& forall|i: int| 0 <= i < t.len() ==> (#[trigger] t[i]) != 91 && t[i] != 93
}

/// Decoded values that the codec can write back verbatim: a colon-free name
/// token, an optional leader token, and a representable positive length.
pub open spec fn field_encodable(name: Seq<u8>, leader: Option<Seq<u8>>, len: int) -> bool {
    &&& token_ok(name)
    &&& forall|i: int| 0 <= i < name.len() ==> (#[trigger] name[i]) != 58
    &&& match leader {
        Some(l) => token_ok(l),
        None => true,
    }
    &&& 1 <= len <= usize::MAX
}

/// Decoding inverts encoding: any encodable event written out as a field
/// reads back as exactly the same name, leader and length.
#[verifier::rlimit(100)]
pub proof fn lemma_field_round_trip(name: Seq<u8>, leader: Option<Seq<u8>>, len: int)
    requires
        field_encodable(name, leader, len),
    ensures
        parse_event_spec(encode_event_spec(name, leader, len)) == Ok::<
            (Seq<u8>, Option<Seq<u8>>, int),
            InputError,
        >((name, leader, len)),
{
    let base = match leader {
        Some(l) => name + seq![58u8] + l,
        None => name,
    };
    let enc = encode_event_spec(name, leader, len);
    // Facts about base.
    assert(base.len() > 0);
    assert(base[0] == name[0]);
    match leader {
        Some(l) => {
            assert(base.last() == l.last());
            assert(base[name.len() as int] == 58);
            assert forall|i: int| 0 <= i < base.len() implies (#[trigger] base[i]) != 91 && base[i]
                != 93 by {
                if i < name.len() {
                    assert(base[i] == name[i]);
                } else if i > name.len() {
                    assert(base[i] == l[i - name.len() - 1]);
                }
            }
            assert forall|i: int| 0 <= i < name.len() implies (#[trigger] base[i]) != 58 by {
                assert(base[i] == name[i]);
            }
        },
        None => {
            assert(base.last() == name.last());
        },
    }
    assert(!is_ws(base[0]));
    assert(!is_ws(base.last()));
    lemma_trim_id(base);
    // parse_name_leader(base, len) gives back the parts.
    assert(parse_name_leader(base, len) == Ok::<(Seq<u8>, Option<Seq<u8>>, int), InputError>(
        (name, leader, len),
    )) by {
        match leader {
            None => {
                lemma_first_pos_none(base, 58);
            },
            Some(l) => {
                lemma_first_pos_at(base, 58, name.len() as int);
                assert(base.subrange(0, name.len() as int) =~= name);
                assert(base.subrange(name.len() as int + 1, base.len() as int) =~= l);
                lemma_trim_id(name);
                lemma_trim_id(l);
            },
        }
    }
    if len == 1 {
        assert(enc == base);
        assert(enc.last() != 93);
        assert(parse_event_spec(enc) == parse_name_leader(trimmed(enc), 1));
    } else {
        let dd = dec_digits(len as nat);
        lemma_dec_digits(len as nat);
        assert(enc == base + seq![91u8] + dd + seq![93u8]);
        assert(enc.last() == 93);
        assert(enc.len() > 0);
        let body = enc.drop_last();
        assert(body =~= base + seq![91u8] + dd);
        assert(body[base.len() as int] == 91);
        assert forall|i: int| 0 <= i < base.len() implies (#[trigger] body[i]) != 91 by {
            assert(body[i] == base[i]);
        }
        lemma_first_pos_at(body, 91, base.len() as int);
        let p = first_pos(body, 91);
        assert(p == base.len());
        assert(body.subrange(p + 1, body.len() as int) =~= dd);
        assert(dd.len() > 0 && 48 <= dd[0] <= 57 && 48 <= dd.last() <= 57);
        assert(!is_ws(dd[0]) && !is_ws(dd.last()));
        lemma_trim_id(dd);
        assert(num_body(dd) == dd);
        assert(parse_len_spec(dd) == Some(len));
        assert(body.subrange(0, p) =~= base);
        assert(parse_event_spec(enc) == parse_name_leader(base, len));
    }
}

/// Copies a byte string.
fn copy_bytes(s: &Vec<u8>) -> (r: Vec<u8>)
    ensures
        r@ == s@,
{
    let mut r: Vec<u8> = Vec::new();
    push_all(&mut r, s);
    proof {
        assert(r@ =~= s@);
    }
    r
}

impl EventModel {
    /// Turns the decoded text into an event, deriving the leader identifier.
    pub fn to_event(self) -> (e: Event)
        requires
            self.len >= 1,
        ensures
            event_wf(e),
            e.name == self.name,
            e.leader_name == self.leader,
            e.len == self.len,
    {
        Event::new(self.name, self.leader, self.len)
    }

    /// Reads an event back as decoded text, dropping the derived identifier.
    pub fn of_event(e: &Event) -> (m: EventModel)
        ensures
            m.name@ == e.name@,
            m.len == e.len,
            match (m.leader, e.leader_name) {
                (Some(a), Some(b)) => a@ == b@,
                (None, None) => true,
                _ => false,
            },
    {
        let leader = match &e.leader_name {
            Some(l) => Some(copy_bytes(l)),
            None => None,
        };
        EventModel { name: copy_bytes(&e.name), leader, len: e.len }
    }
}

/// A whole schedule as decoded text: one sequence of event models per row.
#[derive(Debug, Clone, PartialEq)]
pub struct ScheduleModel(pub Vec<Vec<EventModel>>);

/// The nested byte-string view of decoded records.
pub open spec fn recs_view(x: Vec<Vec<Vec<u8>>>) -> Seq<Seq<Seq<u8>>> {
    Seq::new(
        x@.len(),
        |q: int| Seq::new(x@[q]@.len(), |i: int| x@[q]@[i]@),
    )
}

/// The model holds exactly what decoding these records yields.
pub open spec fn decode_ok(recs: Seq<Seq<Seq<u8>>>, m: ScheduleModel) -> bool {
    &&& m.0@.len() == recs.len()
    &&& forall|q: int| 0 <= q < recs.len() ==> (#[trigger] m.0@[q]@).len() == recs[q].len()
    &&& forall|q: int, i: int|
        0 <= q < recs.len() && 0 <= i < recs[q].len() ==> parse_event_spec(recs[q][i]) is Ok
            && model_matches(#[trigger] m.0@[q]@[i], parse_event_spec(recs[q][i]).unwrap())
            && m.0@[q]@[i].len >= 1
}

/// What decoding records must return: the models when every field parses,
/// else the error of the first failing field in row-major order.
pub open spec fn records_decode_post(
    recs: Seq<Seq<Seq<u8>>>,
    r: Result<ScheduleModel, InputError>,
) -> bool {
    match r {
        Ok(m) => decode_ok(recs, m),
        Err(e) => exists|q: int, i: int|
            {
                &&& 0 <= q < recs.len()
                &&& 0 <= i < recs[q].len()
                &&& #[trigger] parse_event_spec(recs[q][i]) == Err::<
                    (Seq<u8>, Option<Seq<u8>>, int),
                    InputError,
                >(e)
                &&& forall|q2: int, i2: int|
                    0 <= q2 < recs.len() && 0 <= i2 < recs[q2].len() && (q2 < q || (q2 == q && i2
                        < i)) ==> #[trigger] parse_event_spec(recs[q2][i2]) is Ok
            },
    }
}

impl ScheduleModel {
    /// Decodes a grid of already-split fields, field by field; the first
    /// malformed field (in row-major order) decides the error.
    pub fn from_records(recs: &Vec<Vec<Vec<u8>>>) -> (r: Result<ScheduleModel, InputError>)
        ensures
            records_decode_post(recs_view(*recs), r),
    {
        let ghost rv = recs_view(*recs);
        let mut out: Vec<Vec<EventModel>> = Vec::new();
        let mut q: usize = 0;
        while q < recs.len()
            invariant
                q <= recs@.len(),
                rv == recs_view(*recs),
                rv.len() == recs@.len(),
                out@.len() == q,
                forall|q2: int| 0 <= q2 < q ==> (#[trigger] out@[q2]@).len() == rv[q2].len(),
                forall|q2: int, i2: int|
                    0 <= q2 < q && 0 <= i2 < rv[q2].len() ==> parse_event_spec(rv[q2][i2]) is Ok
                        && model_matches(
                        #[trigger] out@[q2]@[i2],
                        parse_event_spec(rv[q2][i2]).unwrap(),
                    ) && out@[q2]@[i2].len >= 1,
            decreases recs@.len() - q,
        {
            let row = &recs[q];
            proof {
                assert(rv[q as int] =~= Seq::new(row@.len(), |i: int| row@[i]@));
            }
            let mut out_row: Vec<EventModel> = Vec::new();
            let mut i: usize = 0;
            while i < row.len()
                invariant
                    i <= row@.len(),
                    q < recs@.len(),
                    rv == recs_view(*recs),
                    rv.len() == recs@.len(),
                    row == &recs@[q as int],
                    rv[q as int] =~= Seq::new(row@.len(), |k: int| row@[k]@),
                    out_row@.len() == i,
                    forall|q2: int| 0 <= q2 < out@.len() ==> (#[trigger] out@[q2]@).len() == rv[
                        q2].len(),
                    forall|q2: int, i2: int|
                        0 <= q2 < out@.len() && 0 <= i2 < rv[q2].len() ==> parse_event_spec(
                            rv[q2][i2],
                        ) is Ok && model_matches(
                            #[trigger] out@[q2]@[i2],
                            parse_event_spec(rv[q2][i2]).unwrap(),
                        ) && out@[q2]@[i2].len >= 1,
                    out@.len() == q,
                    forall|i2: int|
                        0 <= i2 < i ==> parse_event_spec(rv[q as int][i2]) is Ok && model_matches(
                            #[trigger] out_row@[i2],
                            parse_event_spec(rv[q as int][i2]).unwrap(),
                        ) && out_row@[i2].len >= 1,
                decreases row@.len() - i,
            {
                proof {
                    assert(rv[q as int][i as int] == row@[i as int]@);
                }
                match EventModel::from_field(&row[i]) {
                    Ok(m) => {
                        out_row.push(m);
                    },
                    Err(e) => {
                        proof {
                            assert(parse_event_spec(rv[q as int][i as int]) == Err::<
                                (Seq<u8>, Option<Seq<u8>>, int),
                                InputError,
                            >(e));
                            assert forall|q2: int, i2: int|
                                0 <= q2 < rv.len() && 0 <= i2 < rv[q2].len() && (q2 < q as int || (
                                q2 == q as int && i2 < i as int)) implies #[trigger] parse_event_spec(
                                rv[q2][i2],
                            ) is Ok by {
                                if q2 < q as int {
                                    let witness = out@[q2]@[i2];
                                    assert(model_matches(
                                        witness,
                                        parse_event_spec(rv[q2][i2]).unwrap(),
                                    ));
                                } else {
                                    let witness = out_row@[i2];
                                    assert(model_matches(
                                        witness,
                                        parse_event_spec(rv[q2][i2]).unwrap(),
                                    ));
                                }
                            }
                        }
                        return Err(e);
                    },
                }
                i = i + 1;
            }
            out.push(out_row);
            q = q + 1;
        }
        Ok(ScheduleModel(out))
    }

    /// Encodes the schedule as a grid of fields, event by event.
    pub fn to_records(&self) -> (r: Vec<Vec<Vec<u8>>>)
        ensures
            recs_view(r) == encoded_records(*self),
    {
        let mut out: Vec<Vec<Vec<u8>>> = Vec::new();
        let mut q: usize = 0;
        while q < self.0.len()
            invariant
                q <= self.0@.len(),
                out@.len() == q,
                forall|q2: int|
                    0 <= q2 < q ==> (#[trigger] out@[q2]@).len() == self.0@[q2]@.len(),
                forall|q2: int, i2: int|
                    0 <= q2 < q && 0 <= i2 < self.0@[q2]@.len() ==> (#[trigger] out@[q2]@[i2]@)
                        == encoded_records(*self)[q2][i2],
            decreases self.0@.len() - q,
        {
            let row = &self.0[q];
            let mut out_row: Vec<Vec<u8>> = Vec::new();
            let mut i: usize = 0;
            while i < row.len()
                invariant
                    i <= row@.len(),
                    q < self.0@.len(),
                    row == &self.0@[q as int],
                    out_row@.len() == i,
                    forall|i2: int|
                        0 <= i2 < i ==> (#[trigger] out_row@[i2]@) == encoded_records(*self)[
                            q as int][i2],
                decreases row@.len() - i,
            {
                let field = row[i].encode_field();
                out_row.push(field);
                i = i + 1;
            }
            out.push(out_row);
            q = q + 1;
        }
        proof {
            assert(recs_view(out) =~~= encoded_records(*self));
        }
        out
    }
}

/// The grid of fields a schedule model encodes to.
pub open spec fn encoded_records(m: ScheduleModel) -> Seq<Seq<Seq<u8>>> {
    Seq::new(
        m.0@.len(),
        |q: int|
            Seq::new(
                m.0@[q]@.len(),
                |i: int|
                    encode_event_spec(
                        model_view(m.0@[q]@[i]).0,
                        model_view(m.0@[q]@[i]).1,
                        model_view(m.0@[q]@[i]).2,
                    ),
            ),
    )
}

/// What the `csv` crate reads a byte stream as: the records of fields, or
/// nothing when the stream is malformed.
pub uninterp spec fn csv_records_of(text: Seq<u8>) -> Option<Seq<Seq<Seq<u8>>>>;

/// What the `csv` crate writes records of fields as.
pub uninterp spec fn csv_text_of(records: Seq<Seq<Seq<u8>>>) -> Seq<u8>;

/// Relies on csv::Reader: splits a headerless CSV byte stream into records of
/// byte fields; rows may have different field counts; a malformed stream
/// yields nothing.
#[verifier::external_body]
fn read_csv_records(text: &Vec<u8>) -> (r: Option<Vec<Vec<Vec<u8>>>>)
    ensures
        match r {
            Some(v) => csv_records_of(text@) == Some(recs_view(v)),
            None => csv_records_of(text@) is None,
        },
{
    let mut rdr = csv::ReaderBuilder::new().has_headers(false).flexible(true).from_reader(
        text.as_slice(),
    );
    let mut out: Vec<Vec<Vec<u8>>> = Vec::new();
    for rec in rdr.byte_records() {
        match rec {
            Ok(rr) => out.push(rr.iter().map(|f| f.to_vec()).collect()),
            Err(_) => {
                return None;
            },
        }
    }
    Some(out)
}

/// Relies on csv::Writer: writes records of byte fields as a headerless CSV
/// byte stream; writing into an in-memory buffer cannot fail.
#[verifier::external_body]
fn write_csv_records(records: &Vec<Vec<Vec<u8>>>) -> (r: Vec<u8>)
    ensures
        r@ == csv_text_of(recs_view(*records)),
{
    let mut w = csv::WriterBuilder::new().has_headers(false).flexible(true).from_writer(
        Vec::new(),
    );
    for rec in records {
        for f in rec {
            w.write_field(f).unwrap();
        }
        w.write_record(None::<&[u8]>).unwrap();
    }
    w.into_inner().unwrap()
}

impl ScheduleModel {
    /// Decodes a whole CSV byte stream: the framing through the `csv` crate,
    /// each field through the verified grammar.
    pub fn deserialize_csv(text: &Vec<u8>) -> (r: Result<ScheduleModel, InputError>)
        ensures
            match csv_records_of(text@) {
                None => r == Err::<ScheduleModel, InputError>(InputError::Csv),
                Some(recs) => records_decode_post(recs, r),
            },
    {
        match read_csv_records(text) {
            None => Err(InputError::Csv),
            Some(recs) => Self::from_records(&recs),
        }
    }

    /// Encodes the schedule as a CSV byte stream.
    pub fn serialize_csv(&self) -> (r: Vec<u8>)
        ensures
            r@ == csv_text_of(encoded_records(*self)),
    {
        let recs = self.to_records();
        write_csv_records(&recs)
    }

    /// Turns the decoded text into a grid of events.
    pub fn to_scheme(self) -> (r: Vec<Vec<Event>>)
        requires
            forall|q: int, i: int|
                0 <= q < self.0@.len() && 0 <= i < self.0@[q]@.len() ==> (
                #[trigger] self.0@[q]@[i]).len >= 1,
        ensures
            crate::model::rows_wf(crate::model::vv_view(r)),
            r@.len() == self.0@.len(),
            forall|q: int| 0 <= q < r@.len() ==> (#[trigger] r@[q]@).len() == self.0@[q]@.len(),
            forall|q: int, i: int|
                0 <= q < r@.len() && 0 <= i < r@[q]@.len() ==> model_matches(
                    self.0@[q]@[i],
                    (
                        (#[trigger] r@[q]@[i]).name@,
                        match r@[q]@[i].leader_name {
                            Some(l) => Some(l@),
                            None => None,
                        },
                        r@[q]@[i].len as int,
                    ),
                ),
    {
        let ghost mv = self.0@;
        let mut rows = self.0;
        let mut out: Vec<Vec<Event>> = Vec::new();
        let mut q: usize = 0;
        let n = rows.len();
        while q < n
            invariant
                q <= n == mv.len(),
                rows@.len() == n - q,
                forall|k: int| 0 <= k < rows@.len() ==> rows@[k] == mv[q + k],
                out@.len() == q,
                forall|q2: int, i2: int|
                    0 <= q2 < mv.len() && 0 <= i2 < mv[q2]@.len() ==> (#[trigger] mv[q2]@[i2]).len
                        >= 1,
                forall|q2: int| 0 <= q2 < q ==> (#[trigger] out@[q2]@).len() == mv[q2]@.len(),
                forall|q2: int, i2: int|
                    0 <= q2 < q && 0 <= i2 < out@[q2]@.len() ==> event_wf(#[trigger] out@[q2]@[i2])
                        && model_matches(
                        mv[q2]@[i2],
                        (
                            out@[q2]@[i2].name@,
                            match out@[q2]@[i2].leader_name {
                                Some(l) => Some(l@),
                                None => None,
                            },
                            out@[q2]@[i2].len as int,
                        ),
                    ),
            decreases n - q,
        {
            let mut row = rows.remove(0);
            let ghost rmv = row@;
            let mut out_row: Vec<Event> = Vec::new();
            let m = row.len();
            let mut i: usize = 0;
            while i < m
                invariant
                    i <= m == rmv.len(),
                    row@.len() == m - i,
                    rmv == mv[q as int]@,
                    q < mv.len(),
                    forall|q2: int, i2: int|
                        0 <= q2 < mv.len() && 0 <= i2 < mv[q2]@.len() ==> (
                        #[trigger] mv[q2]@[i2]).len >= 1,
                    forall|k: int| 0 <= k < row@.len() ==> row@[k] == rmv[i + k],
                    out_row@.len() == i,
                    forall|i2: int|
                        0 <= i2 < i ==> event_wf(#[trigger] out_row@[i2]) && model_matches(
                            rmv[i2],
                            (
                                out_row@[i2].name@,
                                match out_row@[i2].leader_name {
                                    Some(l) => Some(l@),
                                    None => None,
                                },
                                out_row@[i2].len as int,
                            ),
                        ),
                decreases m - i,
            {
                let em = row.remove(0);
                proof {
                    assert(em == rmv[i as int]);
                    assert(mv[q as int]@[i as int].len >= 1);
                }
                let ev = em.to_event();
                out_row.push(ev);
                i = i + 1;
            }
            out.push(out_row);
            q = q + 1;
        }
        proof {
            assert forall|q2: int, i2: int|
                0 <= q2 < crate::model::vv_view(out).len() && 0 <= i2 < crate::model::vv_view(
                    out,
                )[q2].len() implies event_wf(#[trigger] crate::model::vv_view(out)[q2][i2]) by {
                assert(crate::model::vv_view(out)[q2][i2] == out@[q2]@[i2]);
            }
        }
        out
    }

    /// Reads a grid of events back as decoded text.
    pub fn of_scheme(scheme: &Vec<Vec<Event>>) -> (m: ScheduleModel)
        ensures
            m.0@.len() == scheme@.len(),
            forall|q: int|
                0 <= q < scheme@.len() ==> (#[trigger] m.0@[q]@).len() == scheme@[q]@.len(),
            forall|q: int, i: int|
                0 <= q < scheme@.len() && 0 <= i < scheme@[q]@.len() ==> (#[trigger] m.0@[q]@[i]).name@
                    == scheme@[q]@[i].name@ && m.0@[q]@[i].len == scheme@[q]@[i].len && (match (
                    m.0@[q]@[i].leader,
                    scheme@[q]@[i].leader_name,
                ) {
                    (Some(a), Some(b)) => a@ == b@,
                    (None, None) => true,
                    _ => false,
                }),
    {
        let mut out: Vec<Vec<EventModel>> = Vec::new();
        let mut q: usize = 0;
        while q < scheme.len()
            invariant
                q <= scheme@.len(),
                out@.len() == q,
                forall|q2: int|
                    0 <= q2 < q ==> (#[trigger] out@[q2]@).len() == scheme@[q2]@.len(),
                forall|q2: int, i2: int|
                    0 <= q2 < q && 0 <= i2 < scheme@[q2]@.len() ==> (#[trigger] out@[q2]@[i2]).name@
                        == scheme@[q2]@[i2].name@ && out@[q2]@[i2].len == scheme@[q2]@[i2].len && (
                    match (out@[q2]@[i2].leader, scheme@[q2]@[i2].leader_name) {
                        (Some(a), Some(b)) => a@ == b@,
                        (None, None) => true,
                        _ => false,
                    }),
            decreases scheme@.len() - q,
        {
            let row = &scheme[q];
            let mut out_row: Vec<EventModel> = Vec::new();
            let mut i: usize = 0;
            while i < row.len()
                invariant
                    i <= row@.len(),
                    q < scheme@.len(),
                    row == &scheme@[q as int],
                    out_row@.len() == i,
                    forall|i2: int|
                        0 <= i2 < i ==> (#[trigger] out_row@[i2]).name@ == row@[i2].name@
                            && out_row@[i2].len == row@[i2].len && (match (
                            out_row@[i2].leader,
                            row@[i2].leader_name,
                        ) {
                            (Some(a), Some(b)) => a@ == b@,
                            (None, None) => true,
                            _ => false,
                        }),
                decreases row@.len() - i,
            {
                let em = EventModel::of_event(&row[i]);
                out_row.push(em);
                i = i + 1;
            }
            out.push(out_row);
            q = q + 1;
        }
        ScheduleModel(out)
    }
}

/// Codec round trip over a whole schedule: every field an encodable model
/// writes decodes back to exactly the values it came from.
pub proof fn lemma_schedule_round_trip(m: ScheduleModel)
    requires
        forall|q: int, i: int|
            0 <= q < m.0@.len() && 0 <= i < m.0@[q]@.len() ==> field_encodable(
                model_view(#[trigger] m.0@[q]@[i]).0,
                model_view(m.0@[q]@[i]).1,
                model_view(m.0@[q]@[i]).2,
            ),
    ensures
        forall|q: int, i: int|
            0 <= q < m.0@.len() && 0 <= i < m.0@[q]@.len() ==> parse_event_spec(
                #[trigger] encoded_records(m)[q][i],
            ) == Ok::<(Seq<u8>, Option<Seq<u8>>, int), InputError>(model_view(m.0@[q]@[i])),
{
    assert forall|q: int, i: int|
        0 <= q < m.0@.len() && 0 <= i < m.0@[q]@.len() implies parse_event_spec(
        #[trigger] encoded_records(m)[q][i],
    ) == Ok::<(Seq<u8>, Option<Seq<u8>>, int), InputError>(model_view(m.0@[q]@[i])) by {
        lemma_field_round_trip(
            model_view(m.0@[q]@[i]).0,
            model_view(m.0@[q]@[i]).1,
            model_view(m.0@[q]@[i]).2,
        );
    }
}

/// Bytes before the first occurrence differ from the byte, and the position
/// found lies inside the string.
proof fn lemma_first_pos_before(s: Seq<u8>, b: u8, i: int)
    requires
        0 <= i < first_pos(s, b),
    ensures
        first_pos(s, b) <= s.len(),
        s[i] != b,
    decreases s.len(),
{
    let t = s.drop_first();
    assert(t =~= s.subrange(1, s.len() as int));
    if i > 0 {
        lemma_first_pos_before(t, b, i - 1);
        assert(t[i - 1] == s[i]);
    } else {
        if first_pos(t, b) > 0 {
            lemma_first_pos_before(t, b, 0);
        }
    }
}

/// A found position lies inside the string, on the byte sought.
proof fn lemma_first_pos_range(s: Seq<u8>, b: u8)
    requires
        first_pos(s, b) >= 0,
    ensures
        first_pos(s, b) < s.len(),
        s[first_pos(s, b)] == b,
    decreases s.len(),
{
    if s.len() > 0 && s[0] != b {
        let t = s.drop_first();
        assert(t =~= s.subrange(1, s.len() as int));
        lemma_first_pos_range(t, b);
    }
}

/// When nothing is found, no byte matches.
proof fn lemma_first_pos_neg(s: Seq<u8>, b: u8, i: int)
    requires
        first_pos(s, b) == -1,
        0 <= i < s.len(),
    ensures
        s[i] != b,
    decreases s.len(),
{
    let t = s.drop_first();
    assert(t =~= s.subrange(1, s.len() as int));
    if i > 0 {
        lemma_first_pos_neg(t, b, i - 1);
        assert(t[i - 1] == s[i]);
    }
}

/// Front trimming leaves a suffix.
proof fn lemma_trim_front_suffix(s: Seq<u8>) -> (k: int)
    ensures
        0 <= k <= s.len(),
        trim_front(s) == s.subrange(k, s.len() as int),
    decreases s.len(),
{
    if s.len() > 0 && is_ws(s[0]) {
        let k2 = lemma_trim_front_suffix(s.drop_first());
        assert(s.drop_first().subrange(k2, s.drop_first().len() as int) =~= s.subrange(
            k2 + 1,
            s.len() as int,
        ));
        k2 + 1
    } else {
        assert(s.subrange(0, s.len() as int) =~= s);
        0
    }
}

/// Back trimming leaves a prefix.
proof fn lemma_trim_back_prefix(s: Seq<u8>) -> (m: int)
    ensures
        0 <= m <= s.len(),
        trim_back(s) == s.subrange(0, m),
    decreases s.len(),
{
    if s.len() > 0 && is_ws(s.last()) {
        let m2 = lemma_trim_back_prefix(s.drop_last());
        assert(s.drop_last().subrange(0, m2) =~= s.subrange(0, m2));
        m2
    } else {
        assert(s.subrange(0, s.len() as int) =~= s);
        s.len() as int
    }
}

/// A non-empty front-trimmed string does not start with whitespace.
proof fn lemma_trim_front_first(s: Seq<u8>)
    requires
        trim_front(s).len() > 0,
    ensures
        !is_ws(trim_front(s)[0]),
    decreases s.len(),
{
    if s.len() > 0 && is_ws(s[0]) {
        lemma_trim_front_first(s.drop_first());
    }
}

/// A non-empty back-trimmed string does not end with whitespace.
proof fn lemma_trim_back_last(s: Seq<u8>)
    requires
        trim_back(s).len() > 0,
    ensures
        !is_ws(trim_back(s).last()),
    decreases s.len(),
{
    if s.len() > 0 && is_ws(s.last()) {
        lemma_trim_back_last(s.drop_last());
    }
}

/// A non-empty trimmed string is an inner stretch of the original with
/// non-whitespace bytes at both ends.
proof fn lemma_trimmed_shape(s: Seq<u8>) -> (r: (int, int))
    requires
        trimmed(s).len() > 0,
    ensures
        0 <= r.0 <= r.1 <= s.len(),
        trimmed(s) == s.subrange(r.0, r.1),
        !is_ws(trimmed(s)[0]),
        !is_ws(trimmed(s).last()),
{
    let k = lemma_trim_front_suffix(s);
    let m = lemma_trim_back_prefix(trim_front(s));
    lemma_trim_back_last(trim_front(s));
    lemma_trim_front_first(s);
    assert(trimmed(s)[0] == trim_front(s)[0]);
    assert(trim_front(s).subrange(0, m) =~= s.subrange(k, k + m));
    (k, k + m)
}

/// What decoding yields is encodable whenever its tokens avoid the bracket
/// delimiters, so it writes back to a field that reads as the same values:
/// the other direction of the codec round trip, on the fields where it holds.
pub proof fn lemma_decoded_encodable(s: Seq<u8>)
    requires
        parse_event_spec(s) is Ok,
        ({
            let e = parse_event_spec(s).unwrap();
            (forall|i: int| 0 <= i < e.0.len() ==> (#[trigger] e.0[i]) != 91 && e.0[i] != 93)
                && match e.1 {
                Some(l) => forall|i: int|
                    0 <= i < l.len() ==> (#[trigger] l[i]) != 91 && l[i] != 93,
                None => true,
            }
        }),
    ensures
        ({
            let e = parse_event_spec(s).unwrap();
            field_encodable(e.0, e.1, e.2) && parse_event_spec(
                encode_event_spec(e.0, e.1, e.2),
            ) == parse_event_spec(s)
        }),
{
    let e = parse_event_spec(s).unwrap();
    // Recover the pre-colon text `t` and the length the parse used.
    let body = s.drop_last();
    let t = if s.last() == 93 {
        trimmed(body.subrange(0, first_pos(body, 91)))
    } else {
        trimmed(s)
    };
    if s.last() == 93 {
        let len_s = trimmed(body.subrange(first_pos(body, 91) + 1, body.len() as int));
        assert(parse_len_spec(len_s) is Some);
        assert(1 <= e.2 <= usize::MAX);
        assert(parse_event_spec(s) == parse_name_leader(t, e.2));
    } else {
        assert(e.2 == 1);
        assert(parse_event_spec(s) == parse_name_leader(t, e.2));
    }
    let p = first_pos(t, 58);
    if p < 0 {
        assert(e.0 == t && e.1 is None);
        assert(t.len() > 0);
        lemma_trim_front_first(if s.last() == 93 {
            body.subrange(0, first_pos(body, 91))
        } else {
            s
        });
        let src = if s.last() == 93 {
            body.subrange(0, first_pos(body, 91))
        } else {
            s
        };
        let shape = lemma_trimmed_shape(src);
        assert forall|i: int| 0 <= i < t.len() implies (#[trigger] t[i]) != 58 by {
            lemma_first_pos_neg(t, 58, i);
        }
        assert(token_ok(e.0));
        assert(field_encodable(e.0, e.1, e.2));
    } else {
        lemma_first_pos_range(t, 58);
        assert(p < t.len());
        assert(e.0 == trimmed(t.subrange(0, p)));
        assert(e.1 == Some(trimmed(t.subrange(p + 1, t.len() as int))));
        assert(e.0.len() > 0);
        let name_shape = lemma_trimmed_shape(t.subrange(0, p));
        assert forall|i: int| 0 <= i < e.0.len() implies (#[trigger] e.0[i]) != 58 by {
            assert(name_shape.1 <= t.subrange(0, p).len());
            assert(t.subrange(0, p).len() == p);
            assert(0 <= name_shape.0 + i < name_shape.1);
            assert(e.0[i] == t.subrange(0, p)[name_shape.0 + i]);
            assert(t.subrange(0, p)[name_shape.0 + i] == t[name_shape.0 + i]);
            lemma_first_pos_before(t, 58, name_shape.0 + i);
        }
        assert(token_ok(e.0));
        let l = e.1.unwrap();
        assert(l.len() > 0);
        let leader_shape = lemma_trimmed_shape(t.subrange(p + 1, t.len() as int));
        assert(token_ok(l));
        assert(field_encodable(e.0, e.1, e.2));
    }
    lemma_field_round_trip(e.0, e.1, e.2);
}

} // verus!
