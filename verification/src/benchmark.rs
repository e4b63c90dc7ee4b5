//! What a benchmark run reports of the process's memory, read from the text
//! of Linux's `/proc/self/status`.
use vstd::prelude::*;
use crate::cli::pieces;
use crate::export::words;
use crate::styles::texts;

verus! {

/// The resident set after a run, and its peak, in bytes; `None` where the
/// system does not report them.
#[derive(Clone, Copy, Debug, PartialEq, Eq, Structural)]
pub struct Memory {
    pub linux_rss_bytes: Option<u64>,
    pub linux_peak_rss_bytes: Option<u64>,
}

/// The value of a string of decimal digits.
pub open spec fn digits_value(s: Seq<char>) -> nat
    decreases s.len(),
{
    if s.len() == 0 {
        0
    } else {
        digits_value(s.drop_last()) * 10 + ((s.last() as u32) - ('0' as u32)) as nat
    }
}

/// Whether every character of `s` is a decimal digit.
pub open spec fn all_digits(s: Seq<char>) -> bool {
    forall|i: int| 0 <= i < s.len() ==> crate::text::is_ascii_digit(#[trigger] s[i])
}

/// A `u64` as `str::parse` reads one: an optional `+`, then at least one
/// decimal digit, and nothing past `u64::MAX`.
pub open spec fn unsigned(s: Seq<char>) -> Option<nat> {
    let body = if s.len() > 0 && s[0] == '+' {
        s.drop_first()
    } else {
        s
    };
    if body.len() > 0 && all_digits(body) && digits_value(body) <= u64::MAX {
        Some(digits_value(body))
    } else {
        None
    }
}

/// The first of `lines` that starts with `key`.
pub open spec fn keyed_line(lines: Seq<Seq<char>>, key: Seq<char>) -> Option<Seq<char>>
    decreases lines.len(),
{
    if lines.len() == 0 {
        None
    } else if key.is_prefix_of(lines[0]) {
        Some(lines[0])
    } else {
        keyed_line(lines.drop_first(), key)
    }
}

/// The number after `key` in a status text: the second word of the first
/// line that starts with `key`, read as a `u64`.
pub open spec fn status_field(text: Seq<char>, key: Seq<char>) -> Option<nat> {
    match keyed_line(pieces(text, '\n'), key) {
        Some(line) => {
            let w = words(line);
            if w.len() >= 2 {
                unsigned(w[1])
            } else {
                None
            }
        },
        None => None,
    }
}

/// A status field counted in kibibytes, in bytes, wrapping past `u64::MAX`
/// as the release build's `v * 1024` does.
pub open spec fn status_bytes(text: Seq<char>, key: Seq<char>) -> Option<nat> {
    match status_field(text, key) {
        Some(v) => Some(((v * 1024) % 0x1_0000_0000_0000_0000) as nat),
        None => None,
    }
}

/// The text cut into its lines at every line feed.
fn lines_of(text: &str) -> (r: Vec<String>)
    ensures
        texts(r@) == pieces(text@, '\n'),
{
    let n = text.unicode_len();
    let mut out: Vec<String> = Vec::new();
    let mut cur = String::new();
    let mut i: usize = 0;
    while i < n
        invariant
            n == text@.len(),
            i <= n,
            pieces(text@.take(i as int), '\n').len() >= 1,
            texts(out@) + seq![cur@] == pieces(text@.take(i as int), '\n'),
        decreases n - i,
    {
        let c = text.get_char(i);
        let ghost p = pieces(text@.take(i as int), '\n');
        proof {
            assert(text@.take(i + 1).drop_last() =~= text@.take(i as int));
            assert(text@.take(i + 1).last() == c);
            crate::cli::lemma_pieces_len(text@.take(i + 1), '\n');
        }
        if c == '\n' {
            let line = cur;
            out.push(line);
            cur = String::new();
            proof {
                assert(texts(out@) + seq![cur@] =~= p.push(seq![]));
            }
        } else {
            crate::text::push_char(&mut cur, c);
            proof {
                assert(texts(out@) + seq![cur@] =~= p.update(p.len() - 1, p.last().push(c)));
            }
        }
        i = i + 1;
    }
    out.push(cur);
    proof {
        assert(text@.take(n as int) =~= text@);
        assert(texts(out@) =~= pieces(text@, '\n'));
    }
    out
}

/// The words of `line`.
fn words_of(line: &str) -> (r: Vec<String>)
    ensures
        texts(r@) == words(line@),
{
    let n = line.unicode_len();
    let mut out: Vec<String> = Vec::new();
    let mut i: usize = 0;
    while i < n
        invariant
            n == line@.len(),
            i <= n,
            texts(out@) == words(line@.take(i as int)),
        decreases n - i,
    {
        let c = line.get_char(i);
        let ghost before = line@.take(i as int);
        proof {
            assert(line@.take(i + 1).drop_last() =~= before);
            assert(line@.take(i + 1).last() == c);
            if i > 0 {
                assert(line@.take(i + 1)[i - 1] == line@[i - 1]);
            }
        }
        if crate::text::space(c) {
        } else if i == 0 || crate::text::space(line.get_char(i - 1)) {
            let mut w = String::new();
            crate::text::push_char(&mut w, c);
            out.push(w);
            proof {
                assert(texts(out@) =~= words(before).push(seq![c]));
            }
        } else {
            proof {
                crate::export::lemma_words_nonempty(line@.take(i as int));
            }
            let last = out.len() - 1;
            let mut w = out[last].clone();
            crate::text::push_char(&mut w, c);
            out.set(last, w);
            proof {
                let ws = words(before);
                assert(texts(out@) =~= ws.update(ws.len() - 1, ws.last().push(c)));
            }
        }
        i = i + 1;
    }
    proof {
        assert(line@.take(n as int) =~= line@);
    }
    out
}

proof fn lemma_digits_grow(s: Seq<char>, i: int)
    requires
        0 <= i <= s.len(),
        forall|k: int| 0 <= k < s.len() ==> crate::text::is_ascii_digit(#[trigger] s[k]),
    ensures
        digits_value(s.take(i)) <= digits_value(s),
    decreases s.len() - i,
{
    if i < s.len() {
        lemma_digits_grow(s, i + 1);
        assert(s.take(i + 1).drop_last() =~= s.take(i));
    } else {
        assert(s.take(i) =~= s);
    }
}

/// Reads a `u64` as `str::parse` does.
fn parse_unsigned(s: &str) -> (r: Option<u64>)
    ensures
        (match r {
            Some(v) => Some(v as nat),
            None => None,
        }) == unsigned(s@),
{
    let n = s.unicode_len();
    let start: usize = if n > 0 && s.get_char(0) == '+' {
        1
    } else {
        0
    };
    let ghost body = if s@.len() > 0 && s@[0] == '+' {
        s@.drop_first()
    } else {
        s@
    };
    if start >= n {
        return None;
    }
    let mut value: u64 = 0;
    let mut i: usize = start;
    while i < n
        invariant
            n == s@.len(),
            start <= i <= n,
            start < n,
            body == s@.skip(start as int),
            body == (if s@.len() > 0 && s@[0] == '+' {
                s@.drop_first()
            } else {
                s@
            }),
            value == digits_value(body.take(i - start)),
            forall|k: int| 0 <= k < i - start ==> crate::text::is_ascii_digit(#[trigger] body[k]),
        decreases n - i,
    {
        let c = s.get_char(i);
        proof {
            assert(body[i - start] == c);
            assert(body.take(i - start + 1).drop_last() =~= body.take(i - start));
        }
        if !('0' <= c && c <= '9') {
            proof {
                assert(!crate::text::is_ascii_digit(body[i - start]));
                assert(!all_digits(body));
            }
            return None;
        }
        let d: u64 = (c as u32 - '0' as u32) as u64;
        if value > (u64::MAX - d) / 10 {
            proof {
                assert(value * 10 + d > u64::MAX) by (nonlinear_arith)
                    requires
                        value > (u64::MAX - d) / 10,
                        d <= 9,
                ;
                assert(digits_value(body.take(i - start + 1)) == value * 10 + d);
                if all_digits(body) {
                    lemma_digits_grow(body, i - start + 1);
                }
            }
            return None;
        }
        proof {
            assert(value * 10 + d <= u64::MAX) by (nonlinear_arith)
                requires
                    value <= (u64::MAX - d) / 10,
                    d <= 9,
            ;
        }
        value = value * 10 + d;
        i = i + 1;
    }
    proof {
        assert(body.take(n - start) =~= body);
    }
    Some(value)
}

/// The number after `key` in a status text.
fn field(lines: &Vec<String>, key: &str) -> (r: Option<u64>)
    ensures
        (match r {
            Some(v) => Some(v as nat),
            None => None,
        }) == (match keyed_line(texts(lines@), key@) {
            Some(line) => {
                let w = words(line);
                if w.len() >= 2 {
                    unsigned(w[1])
                } else {
                    None
                }
            },
            None => None,
        }),
{
    let ghost all = texts(lines@);
    let mut j: usize = 0;
    proof {
        assert(all.skip(0) =~= all);
    }
    while j < lines.len()
        invariant
            j <= lines@.len(),
            all == texts(lines@),
            keyed_line(all, key@) == keyed_line(all.skip(j as int), key@),
        decreases lines.len() - j,
    {
        proof {
            assert(all.skip(j as int).drop_first() =~= all.skip(j + 1));
            assert(all.skip(j as int)[0] == lines@[j as int]@);
        }
        if starts_with(lines[j].as_str(), key) {
            let w = words_of(lines[j].as_str());
            if w.len() >= 2 {
                return parse_unsigned(w[1].as_str());
            }
            return None;
        }
        j = j + 1;
    }
    proof {
        assert(all.skip(j as int) =~= seq![]);
    }
    None
}

/// Whether `s` starts with `key`.
fn starts_with(s: &str, key: &str) -> (r: bool)
    ensures
        r == key@.is_prefix_of(s@),
{
    let n = key.unicode_len();
    if n > s.unicode_len() {
        return false;
    }
    let mut i: usize = 0;
    while i < n
        invariant
            n == key@.len(),
            n <= s@.len(),
            i <= n,
            forall|k: int| 0 <= k < i ==> key@[k] == s@[k],
        decreases n - i,
    {
        if key.get_char(i) != s.get_char(i) {
            return false;
        }
        i = i + 1;
    }
    true
}

fn kib_to_bytes(v: u64) -> (r: u64)
    ensures
        r == (v * 1024) % 0x1_0000_0000_0000_0000,
{
    assert((v * 1024) % 0x1_0000_0000_0000_0000 == (v % 0x40_0000_0000_0000) * 1024)
        by (nonlinear_arith)
        requires
            v <= u64::MAX,
    ;
    let low: u64 = v % 0x40_0000_0000_0000;
    assert(low * 1024 <= u64::MAX) by (nonlinear_arith)
        requires
            low < 0x40_0000_0000_0000,
    ;
    low * 1024
}

/// The resident set and its peak, from the text of `/proc/self/status`: the
/// `VmRSS:` and `VmHWM:` lines count kibibytes.
pub fn memory_from_status(text: &str) -> (m: Memory)
    ensures
        (match m.linux_rss_bytes {
            Some(v) => Some(v as nat),
            None => None,
        }) == status_bytes(text@, "VmRSS:"@),
        (match m.linux_peak_rss_bytes {
            Some(v) => Some(v as nat),
            None => None,
        }) == status_bytes(text@, "VmHWM:"@),
{
    let lines = lines_of(text);
    let rss = match field(&lines, "VmRSS:") {
        Some(v) => Some(kib_to_bytes(v)),
        None => None,
    };
    let peak = match field(&lines, "VmHWM:") {
        Some(v) => Some(kib_to_bytes(v)),
        None => None,
    };
    Memory { linux_rss_bytes: rss, linux_peak_rss_bytes: peak }
}

} // verus!
