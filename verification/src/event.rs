//! The wire protocol: one event per line, fields comma-separated, the
//! address and size as unprefixed hexadecimal text.
//!
//! ```text
//! m:<addr_hex>,<size_hex>[,<label>]   -- allocation
//! f:<addr_hex>[,<label>]              -- free
//! c:<addr_hex>                        -- corruption signal
//! ```
//!
//! Decoding is best effort: a malformed line yields no event and no error.
use vstd::prelude::*;
use vstd::std_specs::iter::IteratorSpec;

verus! {

broadcast use vstd::string::group_string_axioms;

/// A decoded event of the wire protocol.
#[derive(PartialEq, Debug)]
pub enum Event {
    Alloc { ptr: u64, size: u64, identifier: String },
    Free { ptr: u64, identifier: String },
    Corrupted { ptr: u64 },
}

/// Mathematical image of an event: the label as a character sequence.
pub enum EventModel {
    Alloc { ptr: u64, size: u64, identifier: Seq<char> },
    Free { ptr: u64, identifier: Seq<char> },
    Corrupted { ptr: u64 },
}

impl View for Event {
    type V = EventModel;

    open spec fn view(&self) -> EventModel {
        match self {
            Event::Alloc { ptr, size, identifier } => EventModel::Alloc {
                ptr: *ptr,
                size: *size,
                identifier: identifier@,
            },
            Event::Free { ptr, identifier } => EventModel::Free {
                ptr: *ptr,
                identifier: identifier@,
            },
            Event::Corrupted { ptr } => EventModel::Corrupted { ptr: *ptr },
        }
    }
}

/// Value of one hexadecimal digit, or -1 for any other character.
pub open spec fn spec_hex_digit(c: char) -> int {
    let u = c as u32;
    if '0' as u32 <= u <= '9' as u32 {
        u - '0' as u32
    } else if 'a' as u32 <= u <= 'f' as u32 {
        u - 'a' as u32 + 10
    } else if 'A' as u32 <= u <= 'F' as u32 {
        u - 'A' as u32 + 10
    } else {
        -1
    }
}

pub open spec fn spec_is_hex_digit(c: char) -> bool {
    spec_hex_digit(c) >= 0
}

/// Value of a most-significant-first string of hexadecimal digits.
/// Meaningful only when every character is a digit.
pub open spec fn spec_hex_value(s: Seq<char>) -> int
    decreases s.len(),
{
    if s.len() == 0 {
        0
    } else {
        spec_hex_value(s.drop_last()) * 16 + spec_hex_digit(s.last())
    }
}

/// A parseable address or size: at least one character, digits only,
/// and a value that fits in 64 bits.
pub open spec fn spec_is_hex_str(s: Seq<char>) -> bool {
    &&& s.len() >= 1
    &&& forall|i: int| 0 <= i < s.len() ==> spec_is_hex_digit(#[trigger] s[i])
    &&& spec_hex_value(s) <= u64::MAX
}

/// Index of the first occurrence of `c` in `s`, or `s.len()` when absent.
pub open spec fn spec_find(s: Seq<char>, c: char) -> int
    decreases s.len(),
{
    if s.len() == 0 {
        0
    } else if s[0] == c {
        0
    } else {
        1 + spec_find(s.drop_first(), c)
    }
}

pub proof fn lemma_find_properties(s: Seq<char>, c: char)
    ensures
        0 <= spec_find(s, c) <= s.len(),
        spec_find(s, c) < s.len() ==> s[spec_find(s, c)] == c,
        forall|i: int| 0 <= i < spec_find(s, c) ==> s[i] != c,
    decreases s.len(),
{
    if s.len() > 0 && s[0] != c {
        lemma_find_properties(s.drop_first(), c);
        let f = spec_find(s.drop_first(), c);
        if f < s.len() - 1 {
            assert(s.drop_first()[f] == s[f + 1]);
        }
        assert forall|i: int| 0 <= i < 1 + f implies s[i] != c by {
            if i >= 1 {
                assert(s.drop_first()[i - 1] == s[i]);
            }
        }
    }
}

/// The value of a hex string never falls below the value of a prefix
/// that has already reached 1; later digits only multiply it up.
proof fn lemma_hex_value_grows(s: Seq<char>, i: int)
    requires
        0 <= i <= s.len(),
        spec_hex_value(s.take(i)) >= 1,
    ensures
        spec_hex_value(s) >= spec_hex_value(s.take(i)),
    decreases s.len() - i,
{
    if i == s.len() {
        assert(s.take(i) =~= s);
    } else {
        let t = s.take(i + 1);
        assert(t.drop_last() =~= s.take(i));
        assert(t.last() == s[i]);
        assert(spec_hex_digit(s[i]) >= -1);
        lemma_hex_value_grows(s, i + 1);
    }
}

/// Nonnegative value for an all-digit string.
proof fn lemma_hex_value_nonneg(s: Seq<char>)
    requires
        forall|i: int| 0 <= i < s.len() ==> spec_is_hex_digit(#[trigger] s[i]),
    ensures
        spec_hex_value(s) >= 0,
    decreases s.len(),
{
    if s.len() > 0 {
        assert(forall|i: int|
            0 <= i < s.drop_last().len() ==> spec_is_hex_digit(#[trigger] s.drop_last()[i]));
        lemma_hex_value_nonneg(s.drop_last());
    }
}

/// What a line of the wire protocol means: the event it encodes, or
/// nothing when the tag is unknown, the address or size is missing or
/// not hexadecimal, or its value does not fit.  Everything after the
/// last required field is the label, commas included.
pub open spec fn spec_decode(s: Seq<char>) -> Option<EventModel> {
    let ci = spec_find(s, ':');
    if ci >= s.len() || ci != 1 {
        None
    } else if !(s[0] == 'm' || s[0] == 'f' || s[0] == 'c') {
        None
    } else {
        let data = s.skip(2);
        let ai = spec_find(data, ',');
        let addr = data.take(ai);
        if !spec_is_hex_str(addr) {
            None
        } else {
            let ptr = spec_hex_value(addr) as u64;
            if s[0] == 'c' {
                Some(EventModel::Corrupted { ptr })
            } else if s[0] == 'f' {
                let identifier: Seq<char> = if ai >= data.len() {
                    Seq::empty()
                } else {
                    data.skip(ai + 1)
                };
                Some(EventModel::Free { ptr, identifier })
            } else {
                if ai >= data.len() {
                    None
                } else {
                    let rest = data.skip(ai + 1);
                    let si = spec_find(rest, ',');
                    let szs = rest.take(si);
                    if !spec_is_hex_str(szs) {
                        None
                    } else {
                        let size = spec_hex_value(szs) as u64;
                        let identifier: Seq<char> = if si >= rest.len() {
                            Seq::empty()
                        } else {
                            rest.skip(si + 1)
                        };
                        Some(EventModel::Alloc { ptr, size, identifier })
                    }
                }
            }
        }
    }
}

/// The characters of `s`, in order.
fn collect_chars(s: &str) -> (r: Vec<char>)
    ensures
        r@ == s@,
{
    let mut it = s.chars();
    let mut v: Vec<char> = Vec::new();
    loop
        invariant
            it.decrease() is Some,
            v@ + it.remaining() == s@,
        ensures
            v@ == s@,
        decreases it.decrease()->0,
    {
        match it.next() {
            Some(c) => { v.push(c) },
            None => {
                proof {
                    assert(v@ =~= s@);
                }
                break
            },
        }
    }
    v
}

/// Relies on `String::push`: appends exactly the one character.
#[verifier::external_body]
fn push_char(s: &mut String, c: char)
    ensures
        final(s)@ == old(s)@.push(c),
{
    s.push(c);
}

/// The suffix of `v` from `from` on, as an owned string.
fn string_of_suffix(v: &Vec<char>, from: usize) -> (r: String)
    requires
        from <= v.len(),
    ensures
        r@ == v@.subrange(from as int, v@.len() as int),
{
    let mut s = String::new();
    let mut k: usize = from;
    while k < v.len()
        invariant
            from <= k <= v.len(),
            s@ == v@.subrange(from as int, k as int),
        decreases v.len() - k,
    {
        push_char(&mut s, v[k]);
        proof {
            assert(v@.subrange(from as int, k as int).push(v@[k as int]) =~= v@.subrange(
                from as int,
                k + 1 as int,
            ));
        }
        k = k + 1;
    }
    s
}

/// First index of `c` in `v[from..end)`, or `end` when absent.
fn find_in(v: &Vec<char>, from: usize, end: usize, c: char) -> (r: usize)
    requires
        from <= end <= v.len(),
    ensures
        from <= r <= end,
        r - from == spec_find(v@.subrange(from as int, end as int), c),
{
    let ghost s = v@.subrange(from as int, end as int);
    proof {
        lemma_find_properties(s, c);
    }
    let mut k: usize = from;
    while k < end
        invariant
            from <= k <= end <= v.len(),
            s == v@.subrange(from as int, end as int),
            forall|i: int| from <= i < k ==> v@[i] != c,
        decreases end - k,
    {
        if v[k] == c {
            proof {
                lemma_find_properties(s, c);
                assert(s[k - from] == c);
                assert(forall|i: int| 0 <= i < k - from ==> s[i] != c);
                if spec_find(s, c) > k - from {
                    assert(s[k - from] != c);
                }
                if spec_find(s, c) < k - from {
                    assert(s[spec_find(s, c)] == c);
                }
            }
            return k;
        }
        k = k + 1;
    }
    proof {
        lemma_find_properties(s, c);
        assert(forall|i: int| 0 <= i < s.len() ==> s[i] != c);
        if spec_find(s, c) < s.len() {
            assert(s[spec_find(s, c)] == c);
        }
    }
    end
}

/// Value of one hexadecimal digit character.
fn hex_digit_of(c: char) -> (r: Option<u64>)
    ensures
        match r {
            Some(d) => spec_hex_digit(c) == d && d < 16,
            None => !spec_is_hex_digit(c),
        },
{
    let u: u32 = c as u32;
    if u >= '0' as u32 && u <= '9' as u32 {
        Some((u - '0' as u32) as u64)
    } else if u >= 'a' as u32 && u <= 'f' as u32 {
        Some((u - 'a' as u32 + 10) as u64)
    } else if u >= 'A' as u32 && u <= 'F' as u32 {
        Some((u - 'A' as u32 + 10) as u64)
    } else {
        None
    }
}

/// Parse `v[from..end)` as unprefixed hexadecimal.  Rejects an empty
/// field, a non-digit, and a value over 64 bits.
fn parse_hex(v: &Vec<char>, from: usize, end: usize) -> (r: Option<u64>)
    requires
        from <= end <= v.len(),
    ensures
        ({
            let s = v@.subrange(from as int, end as int);
            match r {
                Some(x) => spec_is_hex_str(s) && x == spec_hex_value(s),
                None => !spec_is_hex_str(s),
            }
        }),
{
    let ghost s = v@.subrange(from as int, end as int);
    if from == end {
        return None;
    }
    let mut acc: u64 = 0;
    let mut k: usize = from;
    while k < end
        invariant
            from <= k <= end <= v.len(),
            s == v@.subrange(from as int, end as int),
            forall|i: int| 0 <= i < k - from ==> spec_is_hex_digit(#[trigger] s[i]),
            acc == spec_hex_value(s.take(k - from)),
        decreases end - k,
    {
        let d: u64 = match hex_digit_of(v[k]) {
            Some(d) => d,
            None => {
                proof {
                    assert(!spec_is_hex_digit(s[k - from]));
                }
                return None;
            },
        };
        let wide: u128 = acc as u128 * 16 + d as u128;
        proof {
            let t = s.take(k - from + 1);
            assert(t.drop_last() =~= s.take(k - from));
            assert(t.last() == s[k - from]);
        }
        if wide > u64::MAX as u128 {
            proof {
                lemma_hex_value_grows(s, k - from + 1);
            }
            return None;
        }
        acc = wide as u64;
        k = k + 1;
    }
    proof {
        assert(s.take(end - from) =~= s);
        lemma_hex_value_nonneg(s);
    }
    Some(acc)
}

impl Event {
    /// Decode one line of the wire protocol; any malformed line is
    /// rejected by returning nothing.
    pub fn try_from_line(line: &str) -> (r: Option<Event>)
        ensures
            match r {
                Some(e) => spec_decode(line@) == Some(e@),
                None => spec_decode(line@) is None,
            },
    {
        let v = collect_chars(line);
        let n: usize = v.len();
        let ghost s = line@;
        let ci = find_in(&v, 0, n, ':');
        proof {
            assert(v@.subrange(0, n as int) =~= s);
        }
        if ci >= n || ci != 1 {
            return None;
        }
        let tag: char = v[0];
        if !(tag == 'm' || tag == 'f' || tag == 'c') {
            return None;
        }
        let ghost data = s.skip(2);
        proof {
            assert(data =~= v@.subrange(2, n as int));
        }
        let ai = find_in(&v, 2, n, ',');
        proof {
            assert(data.take(ai - 2) =~= v@.subrange(2, ai as int));
        }
        let ptr: u64 = match parse_hex(&v, 2, ai) {
            Some(x) => x,
            None => { return None },
        };
        if tag == 'c' {
            return Some(Event::Corrupted { ptr });
        }
        if tag == 'f' {
            let identifier: String = if ai >= n {
                String::new()
            } else {
                string_of_suffix(&v, ai + 1)
            };
            proof {
                if ai < n {
                    assert(data.skip(ai - 2 + 1) =~= v@.subrange(ai + 1 as int, n as int));
                }
            }
            return Some(Event::Free { ptr, identifier });
        }
        // tag == 'm'
        if ai >= n {
            return None;
        }
        let ghost rest = data.skip(ai - 2 + 1);
        proof {
            assert(rest =~= v@.subrange(ai + 1 as int, n as int));
        }
        let si = find_in(&v, ai + 1, n, ',');
        proof {
            assert(rest.take(si - (ai + 1)) =~= v@.subrange(ai + 1 as int, si as int));
        }
        let size: u64 = match parse_hex(&v, ai + 1, si) {
            Some(x) => x,
            None => { return None },
        };
        let identifier: String = if si >= n {
            String::new()
        } else {
            string_of_suffix(&v, si + 1)
        };
        proof {
            if si < n {
                assert(rest.skip(si - (ai + 1) + 1) =~= v@.subrange(si + 1 as int, n as int));
            }
        }
        Some(Event::Alloc { ptr, size, identifier })
    }
}

} // verus!
