//! The startup-log grammar of a launched pipeline: the line that announces
//! the worker's HTTP port, and the line that announces a startup failure.
//! The scan works on the line's bytes and states exactly which line yields
//! which event.

use vstd::prelude::*;

verus! {

/// The text announcing the port, up to the port number itself.
pub open spec fn port_marker() -> Seq<u8> {
    seq![83u8, 116u8, 97u8, 114u8, 116u8, 101u8, 100u8, 32u8, 72u8, 84u8, 84u8, 80u8, 32u8, 115u8, 101u8, 114u8, 118u8, 101u8, 114u8, 32u8, 111u8, 110u8, 32u8, 112u8, 111u8, 114u8, 116u8, 32u8]
}

/// The text announcing that the worker could not start.
pub open spec fn error_marker() -> Seq<u8> {
    seq![70u8, 97u8, 105u8, 108u8, 101u8, 100u8, 32u8, 116u8, 111u8, 32u8, 99u8, 114u8, 101u8, 97u8, 116u8, 101u8, 32u8, 115u8, 101u8, 114u8, 118u8, 101u8, 114u8]
}

/// `needle` occurs in `hay` at position `i`.
pub open spec fn occurs_at(hay: Seq<u8>, needle: Seq<u8>, i: int) -> bool {
    0 <= i && i + needle.len() <= hay.len() && hay.subrange(i, i + needle.len() as int) == needle
}

/// A word byte, as the port pattern accepts it: a letter, a digit, or an
/// underscore.
pub open spec fn is_word_byte(b: u8) -> bool {
    (48 <= b <= 57) || (65 <= b <= 90) || (97 <= b <= 122) || b == 95
}

/// A decimal digit byte.
pub open spec fn is_digit_byte(b: u8) -> bool {
    48 <= b <= 57
}

/// The end of the run of word bytes that starts at `i`.
pub open spec fn word_run_end(s: Seq<u8>, i: int) -> int
    decreases s.len() - i,
{
    if 0 <= i < s.len() && is_word_byte(s[i]) {
        word_run_end(s, i + 1)
    } else {
        i
    }
}

/// The number a digit string denotes.
pub open spec fn dec_value(s: Seq<u8>) -> int
    decreases s.len(),
{
    if s.len() == 0 {
        0
    } else {
        dec_value(s.drop_last()) * 10 + (s.last() - 48)
    }
}

/// The capture parses as a 16-bit port: nonempty, all digits, in range.
pub open spec fn is_valid_port(s: Seq<u8>) -> bool {
    &&& s.len() > 0
    &&& forall|i: int| 0 <= i < s.len() ==> is_digit_byte(#[trigger] s[i])
    &&& dec_value(s) <= 65535
}

/// What a scanned log line announces.
#[derive(Clone, Copy, Debug, PartialEq, Eq, Structural)]
pub enum LogEvent {
    /// The port announcement, with the announced port.
    PortAnnounced(u16),
    /// A port announcement whose captured word is not a 16-bit number.
    InvalidPort,
    /// The startup-failure announcement; the payload is where it begins, so
    /// the caller can quote the line from there on.
    ServerError(usize),
    /// Neither announcement.
    Nothing,
}

} // verus!

verus! {

/// Whether the first occurrence of `needle` in `hay` is at `i`.
pub open spec fn first_occurrence(hay: Seq<u8>, needle: Seq<u8>, i: int) -> bool {
    occurs_at(hay, needle, i) && forall|j: int| 0 <= j < i ==> !occurs_at(hay, needle, j)
}

/// The port announcement's text, as bytes.
fn port_marker_vec() -> (v: Vec<u8>)
    ensures
        v@ == port_marker(),
{
    let mut v: Vec<u8> = Vec::new();
    v.push(83);
    v.push(116);
    v.push(97);
    v.push(114);
    v.push(116);
    v.push(101);
    v.push(100);
    v.push(32);
    v.push(72);
    v.push(84);
    v.push(84);
    v.push(80);
    v.push(32);
    v.push(115);
    v.push(101);
    v.push(114);
    v.push(118);
    v.push(101);
    v.push(114);
    v.push(32);
    v.push(111);
    v.push(110);
    v.push(32);
    v.push(112);
    v.push(111);
    v.push(114);
    v.push(116);
    v.push(32);
    proof {
        assert(v@ =~= port_marker());
    }
    v
}

/// The failure announcement's text, as bytes.
fn error_marker_vec() -> (v: Vec<u8>)
    ensures
        v@ == error_marker(),
{
    let mut v: Vec<u8> = Vec::new();
    v.push(70);
    v.push(97);
    v.push(105);
    v.push(108);
    v.push(101);
    v.push(100);
    v.push(32);
    v.push(116);
    v.push(111);
    v.push(32);
    v.push(99);
    v.push(114);
    v.push(101);
    v.push(97);
    v.push(116);
    v.push(101);
    v.push(32);
    v.push(115);
    v.push(101);
    v.push(114);
    v.push(118);
    v.push(101);
    v.push(114);
    proof {
        assert(v@ =~= error_marker());
    }
    v
}

/// Finds the first occurrence of `needle` in `hay`.
fn find_first(hay: &[u8], needle: &[u8]) -> (r: Option<usize>)
    ensures
        r matches Option::Some(i) ==> first_occurrence(hay@, needle@, i as int),
        r matches Option::None ==> forall|j: int| !occurs_at(hay@, needle@, j),
{
    let n = hay.len();
    let m = needle.len();
    if m > n {
        return Option::None;
    }
    if m == 0 {
        proof {
            assert(hay@.subrange(0, 0) =~= needle@);
        }
        return Option::Some(0);
    }
    let mut i: usize = 0;
    while i <= n - m
        invariant
            i <= n - m + 1,
            1 <= m <= n,
            n == hay@.len(),
            m == needle@.len(),
            forall|j: int| 0 <= j < i ==> !occurs_at(hay@, needle@, j),
        decreases n - i,
    {
        let mut k: usize = 0;
        let mut matches_here = true;
        while k < m
            invariant
                k <= m,
                i + m <= n,
                n == hay@.len(),
                m == needle@.len(),
                matches_here ==> forall|t: int| 0 <= t < k ==> hay@[i + t] == needle@[t],
                !matches_here ==> !occurs_at(hay@, needle@, i as int),
            decreases m - k,
        {
            if hay[i + k] != needle[k] {
                proof {
                    if occurs_at(hay@, needle@, i as int) {
                        assert(hay@.subrange(i as int, i + m)[k as int] == needle@[k as int]);
                    }
                }
                matches_here = false;
                k = m;
            } else {
                k = k + 1;
            }
        }
        if matches_here {
            proof {
                assert(hay@.subrange(i as int, i + m) =~= needle@);
            }
            return Option::Some(i);
        }
        i = i + 1;
    }
    proof {
        assert forall|j: int| !occurs_at(hay@, needle@, j) by {
            if j + m <= n {
                assert(!(0 <= j < i) ==> j + needle@.len() > hay@.len() || j < 0);
            }
        }
    }
    Option::None
}

/// Whether the byte at `e` is a word byte.
fn word_byte_at(line: &[u8], e: usize) -> (r: bool)
    requires
        e < line@.len(),
    ensures
        r == is_word_byte(line@[e as int]),
{
    let b = line[e];
    (48 <= b && b <= 57) || (65 <= b && b <= 90) || (97 <= b && b <= 122) || b == 95
}

/// The end of the word-byte run starting at `start`.
fn word_run_scan(line: &[u8], start: usize) -> (end: usize)
    requires
        start <= line@.len(),
    ensures
        start <= end <= line@.len(),
        end == word_run_end(line@, start as int),
{
    let n = line.len();
    let mut e = start;
    while e < n && word_byte_at(line, e)
        invariant
            start <= e <= n,
            n == line@.len(),
            word_run_end(line@, start as int) == word_run_end(line@, e as int),
        decreases n - e,
    {
        e = e + 1;
    }
    e
}

/// Digit strings denote nonnegative numbers.
proof fn lemma_dec_value_nonneg(s: Seq<u8>)
    requires
        forall|i: int| 0 <= i < s.len() ==> is_digit_byte(#[trigger] s[i]),
    ensures
        dec_value(s) >= 0,
    decreases s.len(),
{
    if s.len() > 0 {
        assert(is_digit_byte(s[s.len() - 1]));
        lemma_dec_value_nonneg(s.drop_last());
    }
}

/// A digit string denotes at least as much as any of its prefixes.
proof fn lemma_dec_value_prefix(s: Seq<u8>, k: int)
    requires
        forall|i: int| 0 <= i < s.len() ==> is_digit_byte(#[trigger] s[i]),
        0 <= k <= s.len(),
    ensures
        dec_value(s.take(k)) <= dec_value(s),
    decreases s.len() - k,
{
    if k < s.len() {
        lemma_dec_value_prefix(s, k + 1);
        assert(s.take(k + 1).drop_last() =~= s.take(k));
        assert(s.take(k + 1).last() == s[k]);
        assert forall|i: int| 0 <= i < s.take(k).len() implies is_digit_byte(
            #[trigger] s.take(k)[i],
        ) by {
            assert(s.take(k)[i] == s[i]);
        }
        lemma_dec_value_nonneg(s.take(k));
        assert(dec_value(s.take(k + 1)) == dec_value(s.take(k)) * 10 + (s[k] - 48));
    } else {
        assert(s.take(k) =~= s);
    }
}

/// Parses the bytes `[start, end)` of `line` as a 16-bit port number.
fn parse_port(line: &[u8], start: usize, end: usize) -> (r: Option<u16>)
    requires
        start <= end <= line@.len(),
    ensures
        r matches Option::Some(p) ==> is_valid_port(line@.subrange(start as int, end as int))
            && p == dec_value(line@.subrange(start as int, end as int)),
        r matches Option::None ==> !is_valid_port(line@.subrange(start as int, end as int)),
{
    let ghost cap = line@.subrange(start as int, end as int);
    if start == end {
        return Option::None;
    }
    let mut acc: u32 = 0;
    let mut i = start;
    while i < end
        invariant
            start <= i <= end <= line@.len(),
            cap == line@.subrange(start as int, end as int),
            forall|t: int| 0 <= t < i - start ==> is_digit_byte(#[trigger] cap[t]),
            acc as int == dec_value(cap.take(i - start)),
            acc <= 65535,
        decreases end - i,
    {
        let b = line[i];
        if b < 48 || b > 57 {
            proof {
                assert(cap[i - start] == line@[i as int]);
                assert(!is_digit_byte(cap[i - start]));
            }
            return Option::None;
        }
        proof {
            assert(cap.take(i - start + 1).drop_last() =~= cap.take(i - start));
            assert(cap.take(i - start + 1).last() == cap[i - start]);
            assert(cap[i - start] == line@[i as int]);
        }
        acc = acc * 10 + ((b - 48) as u32);
        i = i + 1;
        if acc > 65535 {
            proof {
                let k = i - start;
                assert(dec_value(cap.take(k)) > 65535);
                if is_valid_port(cap) {
                    lemma_dec_value_prefix(cap, k);
                }
            }
            return Option::None;
        }
    }
    proof {
        assert(cap.take(end - start) =~= cap);
    }
    Option::Some(acc as u16)
}

/// Whether the line announces a startup failure, when it does not announce a
/// port: the event quotes the failure text's position, or nothing stands in
/// the line.
pub open spec fn error_fallback(hay: Seq<u8>, ev: LogEvent) -> bool {
    &&& forall|e: int|
        first_occurrence(hay, error_marker(), e) ==> ev == LogEvent::ServerError(e as usize)
    &&& (forall|j: int| !occurs_at(hay, error_marker(), j)) ==> ev == LogEvent::Nothing
}

/// Scans one log line of a starting worker. At the first port announcement,
/// the word following the marker is read: a 16-bit number announces the port,
/// anything else is an invalid announcement. A line without one (or with an
/// empty capture) may instead carry the failure text, reported with its
/// position; otherwise the line says nothing.
pub fn scan_log_line(line: &[u8]) -> (ev: LogEvent)
    ensures
        forall|m: int|
            first_occurrence(line@, port_marker(), m) ==> ({
                let cap = line@.subrange(
                    m + port_marker().len() as int,
                    word_run_end(line@, m + port_marker().len() as int),
                );
                &&& (cap.len() > 0 && is_valid_port(cap)) ==> ev == LogEvent::PortAnnounced(
                    dec_value(cap) as u16,
                )
                &&& (cap.len() > 0 && !is_valid_port(cap)) ==> ev == LogEvent::InvalidPort
                &&& cap.len() == 0 ==> error_fallback(line@, ev)
            }),
        (forall|j: int| !occurs_at(line@, port_marker(), j)) ==> error_fallback(line@, ev),
{
    let n = line.len();
    proof {
        assert(n == line@.len());
    }
    let pm = port_marker_vec();
    match find_first(line, pm.as_slice()) {
        Option::Some(m) => {
            proof {
                assert(occurs_at(line@, port_marker(), m as int));
                assert(m + port_marker().len() <= line@.len());
                assert(pm@.len() == port_marker().len());
            }
            let start = m + pm.len();
            let end = word_run_scan(line, start);
            if end > start {
                match parse_port(line, start, end) {
                    Option::Some(p) => LogEvent::PortAnnounced(p),
                    Option::None => LogEvent::InvalidPort,
                }
            } else {
                scan_for_error(line)
            }
        },
        Option::None => scan_for_error(line),
    }
}

/// The failure-text half of the scan.
fn scan_for_error(line: &[u8]) -> (ev: LogEvent)
    ensures
        error_fallback(line@, ev),
        ev matches LogEvent::ServerError(e) || ev matches LogEvent::Nothing,
{
    let em = error_marker_vec();
    match find_first(line, em.as_slice()) {
        Option::Some(e) => LogEvent::ServerError(e),
        Option::None => LogEvent::Nothing,
    }
}

} // verus!
