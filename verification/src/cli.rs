//! The run configuration the engine consumes, and the strict parsers that
//! turn command-line text into its plain values.
use crate::outcome::{decimal_value, digit_val, spec_is_digit};
use vstd::prelude::*;
use vstd::string::*;

verus! {

/// A span of time as a nanosecond count. 2^128 nanoseconds is far beyond any
/// test duration, so every supported unit converts without overflow.
#[derive(PartialEq, Eq, Structural, Clone, Copy, Debug)]
pub struct DurationNs {
    pub nanos: u128,
}

/// When a run stops: after a wall-clock span, or after a request budget is
/// spent. Exactly one of the two governs a run.
#[derive(Clone, Copy, Debug)]
pub enum StopCondition {
    Duration(DurationNs),
    RequestCount(u64),
}

/// The immutable input of a run, already validated: plain values only.
pub struct RunConfig {
    /// The target, as text with scheme `http` or `https` and a host.
    pub url: String,
    /// How many worker loops run in parallel.
    pub concurrency: u16,
    /// When the run stops.
    pub stop: StopCondition,
    /// Per-request timeout, in nanoseconds.
    pub timeout_ns: u64,
    /// Extra header pairs to send.
    pub headers: Vec<(String, String)>,
    /// Request body; its presence turns the request into a POST.
    pub body: Option<String>,
}

/// How far a predicate holds from the front of a sequence.
pub open spec fn prefix_len_while(s: Seq<char>, p: spec_fn(char) -> bool) -> int
    decreases s.len(),
{
    if s.len() == 0 {
        0
    } else if !p(s[0]) {
        0
    } else {
        1 + prefix_len_while(s.skip(1), p)
    }
}

/// How far a predicate holds from the back of a sequence.
pub open spec fn suffix_len_while(s: Seq<char>, p: spec_fn(char) -> bool) -> int
    decreases s.len(),
{
    if s.len() == 0 {
        0
    } else if !p(s.last()) {
        0
    } else {
        1 + suffix_len_while(s.drop_last(), p)
    }
}

proof fn lemma_prefix_len_while(s: Seq<char>, p: spec_fn(char) -> bool)
    ensures
        0 <= prefix_len_while(s, p) <= s.len(),
        forall|j: int| 0 <= j < prefix_len_while(s, p) ==> p(#[trigger] s[j]),
        prefix_len_while(s, p) < s.len() ==> !p(s[prefix_len_while(s, p)]),
    decreases s.len(),
{
    if s.len() > 0 && p(s[0]) {
        lemma_prefix_len_while(s.skip(1), p);
        assert forall|j: int| 0 <= j < prefix_len_while(s, p) implies p(#[trigger] s[j]) by {
            if j > 0 {
                assert(s.skip(1)[j - 1] == s[j]);
            }
        }
        if prefix_len_while(s, p) < s.len() {
            assert(s.skip(1)[prefix_len_while(s, p) - 1] == s[prefix_len_while(s, p)]);
        }
    }
}

/// The scan that stops at the first counterexample finds exactly
/// `prefix_len_while`.
proof fn lemma_prefix_len_unique(s: Seq<char>, p: spec_fn(char) -> bool, k: int)
    requires
        0 <= k <= s.len(),
        forall|j: int| 0 <= j < k ==> p(#[trigger] s[j]),
        k < s.len() ==> !p(s[k]),
    ensures
        k == prefix_len_while(s, p),
{
    lemma_prefix_len_while(s, p);
}

proof fn lemma_suffix_len_while(s: Seq<char>, p: spec_fn(char) -> bool)
    ensures
        0 <= suffix_len_while(s, p) <= s.len(),
        forall|j: int| s.len() - suffix_len_while(s, p) <= j < s.len() ==> p(#[trigger] s[j]),
        suffix_len_while(s, p) < s.len() ==> !p(s[s.len() - suffix_len_while(s, p) - 1]),
    decreases s.len(),
{
    if s.len() > 0 && p(s.last()) {
        lemma_suffix_len_while(s.drop_last(), p);
        assert forall|j: int|
            s.len() - suffix_len_while(s, p) <= j < s.len() implies p(#[trigger] s[j]) by {
            if j < s.len() - 1 {
                assert(s.drop_last()[j] == s[j]);
            }
        }
        if suffix_len_while(s, p) < s.len() {
            assert(s.drop_last()[s.len() - suffix_len_while(s, p) - 1] == s[s.len()
                - suffix_len_while(s, p) - 1]);
        }
    }
}

proof fn lemma_suffix_len_unique(s: Seq<char>, p: spec_fn(char) -> bool, k: int)
    requires
        0 <= k <= s.len(),
        forall|j: int| s.len() - k <= j < s.len() ==> p(#[trigger] s[j]),
        k < s.len() ==> !p(s[s.len() - k - 1]),
    ensures
        k == suffix_len_while(s, p),
{
    lemma_suffix_len_while(s, p);
}

/// The characters `str::trim` removes: Unicode white space.
pub open spec fn is_space(c: char) -> bool {
    let u = c as u32;
    (9 <= u <= 13) || u == 32 || u == 0x85 || u == 0xA0 || u == 0x1680 || (0x2000 <= u <= 0x200A)
        || u == 0x2028 || u == 0x2029 || u == 0x202F || u == 0x205F || u == 0x3000
}

fn is_space_char(c: char) -> (r: bool)
    ensures
        r == is_space(c),
{
    let u = c as u32;
    (9 <= u && u <= 13) || u == 32 || u == 0x85 || u == 0xA0 || u == 0x1680 || (0x2000 <= u && u
        <= 0x200A) || u == 0x2028 || u == 0x2029 || u == 0x202F || u == 0x205F || u == 0x3000
}

/// What trimming leaves: the span between the leading and trailing runs of
/// white space.
pub open spec fn trim_spec(s: Seq<char>) -> Seq<char> {
    let a = prefix_len_while(s, |c: char| is_space(c));
    let t = s.skip(a);
    t.take(t.len() - suffix_len_while(t, |c: char| is_space(c)))
}

/// A copy of `s` with leading and trailing white space removed.
fn trim_str(s: &str) -> (r: String)
    ensures
        r@ == trim_spec(s@),
{
    let len = s.unicode_len();
    let mut a: usize = 0;
    loop
        invariant
            0 <= a <= len,
            len == s@.len(),
            forall|j: int| 0 <= j < a ==> is_space(#[trigger] s@[j]),
        ensures
            0 <= a <= len,
            a == prefix_len_while(s@, |c: char| is_space(c)),
        decreases len - a,
    {
        if a == len {
            proof {
                lemma_prefix_len_unique(s@, |c: char| is_space(c), a as int);
            }
            break ;
        }
        let c = s.get_char(a);
        if !is_space_char(c) {
            proof {
                lemma_prefix_len_unique(s@, |c: char| is_space(c), a as int);
            }
            break ;
        }
        a = a + 1;
    }
    let ghost t = s@.skip(a as int);
    let mut b: usize = len;
    loop
        invariant
            a <= b <= len,
            len == s@.len(),
            t == s@.skip(a as int),
            forall|j: int| b <= j < len ==> is_space(#[trigger] s@[j]),
        ensures
            a <= b <= len,
            (len - b) == suffix_len_while(t, |c: char| is_space(c)),
        decreases b,
    {
        if b == a {
            proof {
                assert(forall|j: int| 0 <= j < t.len() ==> #[trigger] t[j] == s@[a + j]);
                lemma_suffix_len_unique(t, |c: char| is_space(c), (len - b) as int);
            }
            break ;
        }
        let c = s.get_char(b - 1);
        if !is_space_char(c) {
            proof {
                assert(forall|j: int| 0 <= j < t.len() ==> #[trigger] t[j] == s@[a + j]);
                assert(t[b - 1 - a] == s@[b - 1]);
                lemma_suffix_len_unique(t, |c: char| is_space(c), (len - b) as int);
            }
            break ;
        }
        b = b - 1;
    }
    let piece = s.substring_char(a, b);
    let r = piece.to_owned();
    proof {
        assert(r@ =~= trim_spec(s@));
    }
    r
}

/// Exact text equality of two string slices.
pub fn str_eq(a: &str, b: &str) -> (r: bool)
    ensures
        r == (a@ == b@),
{
    let la = a.unicode_len();
    let lb = b.unicode_len();
    if la != lb {
        return false;
    }
    let mut i: usize = 0;
    while i < la
        invariant
            0 <= i <= la,
            la == a@.len(),
            la == b@.len(),
            forall|j: int| 0 <= j < i ==> a@[j] == b@[j],
        decreases la - i,
    {
        if a.get_char(i) != b.get_char(i) {
            return false;
        }
        i = i + 1;
    }
    proof {
        assert(a@ =~= b@);
    }
    true
}

/// What strict duration parsing yields on `s`: the nanosecond count, when
/// `s` is a run of digits (a value that fits in u64) followed by exactly one
/// of the units `s`, `ms`, `m`, `d`.
pub open spec fn duration_spec(s: Seq<char>) -> Option<int> {
    let k = prefix_len_while(s, |c: char| spec_is_digit(c));
    if k >= s.len() {
        None
    } else if k == 0 || decimal_value(s.take(k)) > u64::MAX {
        None
    } else {
        let v = decimal_value(s.take(k)) as int;
        let unit = s.skip(k);
        if unit == "s"@ {
            Some(v * 1000000000)
        } else if unit == "ms"@ {
            Some(v * 1000000)
        } else if unit == "m"@ {
            Some(v * 60000000000)
        } else if unit == "d"@ {
            Some(v * 86400000000000)
        } else {
            None
        }
    }
}

/// A strict duration parser that accepts only a run of digits followed by
/// one of the units `s`, `ms`, `m` or `d`. The error text names what was
/// wrong.
pub fn parse_strict_duration(s: &str) -> (r: Result<DurationNs, String>)
    ensures
        match r {
            Ok(d) => duration_spec(s@) == Some(d.nanos as int),
            Err(m) => {
                &&& duration_spec(s@) is None
                &&& ({
                    let k = prefix_len_while(s@, |c: char| spec_is_digit(c));
                    if k >= s@.len() {
                        m@ == "Invalid format. Must include a unit (e.g., 30s, 10m)."@
                    } else if k == 0 || decimal_value(s@.take(k)) > u64::MAX {
                        m@ == "Invalid number: '"@ + s@.take(k) + "'"@
                    } else {
                        m@ == "Unsupported time unit: '"@ + s@.skip(k)
                            + "'. Use 's', 'ms', 'm', or 'd'."@
                    }
                })
            },
        },
{
    let len = s.unicode_len();
    let mut k: usize = 0;
    loop
        invariant
            0 <= k <= len,
            len == s@.len(),
            forall|j: int| 0 <= j < k ==> spec_is_digit(#[trigger] s@[j]),
        ensures
            0 <= k <= len,
            len == s@.len(),
            k as int == prefix_len_while(s@, |c: char| spec_is_digit(c)),
            forall|j: int| 0 <= j < k ==> spec_is_digit(#[trigger] s@[j]),
        decreases len - k,
    {
        if k == len {
            proof {
                lemma_prefix_len_unique(s@, |c: char| spec_is_digit(c), k as int);
            }
            break ;
        }
        let c = s.get_char(k);
        let d = c as u32;
        if d < 48 || d > 57 {
            proof {
                assert(!spec_is_digit(s@[k as int]));
                lemma_prefix_len_unique(s@, |c: char| spec_is_digit(c), k as int);
            }
            break ;
        }
        k = k + 1;
    }
    if k == len {
        return Err("Invalid format. Must include a unit (e.g., 30s, 10m).".to_owned());
    }
    if k == 0 {
        let mut msg = "Invalid number: '".to_owned();
        msg.append("'");
        proof {
            assert(msg@ =~= "Invalid number: '"@ + s@.take(0) + "'"@);
        }
        return Err(msg);
    }
    let mut acc: u64 = 0;
    let mut i: usize = 0;
    while i < k
        invariant
            0 <= i <= k < len,
            len == s@.len(),
            k as int == prefix_len_while(s@, |c: char| spec_is_digit(c)),
            k > 0,
            forall|j: int| 0 <= j < k ==> spec_is_digit(#[trigger] s@[j]),
            acc == decimal_value(s@.take(i as int)),
        decreases k - i,
    {
        let c = s.get_char(i);
        let d = c as u32;
        assert(spec_is_digit(s@[i as int]));
        let dv = (d - 48) as u64;
        assert(s@.take(i as int + 1).drop_last() =~= s@.take(i as int));
        assert(s@.take(i as int + 1).last() == s@[i as int]);
        assert(digit_val(s@[i as int]) == dv as nat);
        assert(decimal_value(s@.take(i as int + 1)) == acc * 10 + dv);
        if acc > (u64::MAX - dv) / 10 {
            // The value is already beyond u64: the number is rejected.
            proof {
                assert(acc * 10 + dv > u64::MAX) by (nonlinear_arith)
                    requires
                        acc > (u64::MAX - dv) / 10,
                        dv <= 9,
                        acc <= u64::MAX,
                ;
                crate::outcome::lemma_decimal_prefix_le(s@.take(k as int), i as int + 1);
                assert(s@.take(k as int).take(i as int + 1) =~= s@.take(i as int + 1));
            }
            let num = s.substring_char(0, k);
            let mut msg = "Invalid number: '".to_owned();
            msg.append(num);
            msg.append("'");
            proof {
                assert(num@ =~= s@.take(k as int));
                assert(msg@ =~= "Invalid number: '"@ + s@.take(k as int) + "'"@);
                assert(decimal_value(s@.take(k as int)) > u64::MAX);
            }
            return Err(msg);
        }
        assert(acc * 10 + dv <= u64::MAX) by (nonlinear_arith)
            requires
                acc <= (u64::MAX - dv) / 10,
                dv <= 9,
        ;
        acc = acc * 10 + dv;
        i = i + 1;
    }
    let unit = s.substring_char(k, len);
    proof {
        assert(unit@ =~= s@.skip(k as int));
        assert((acc as int) * 86400000000000 <= u128::MAX as int) by (nonlinear_arith)
            requires
                acc <= u64::MAX,
        ;
        assert((acc as int) * 60000000000 <= u128::MAX as int) by (nonlinear_arith)
            requires
                acc <= u64::MAX,
        ;
        assert((acc as int) * 1000000000 <= u128::MAX as int) by (nonlinear_arith)
            requires
                acc <= u64::MAX,
        ;
        assert((acc as int) * 1000000 <= u128::MAX as int) by (nonlinear_arith)
            requires
                acc <= u64::MAX,
        ;
    }
    let nanos: u128 = if str_eq(unit, "s") {
        (acc as u128) * 1000000000
    } else if str_eq(unit, "ms") {
        (acc as u128) * 1000000
    } else if str_eq(unit, "m") {
        (acc as u128) * 60000000000
    } else if str_eq(unit, "d") {
        (acc as u128) * 86400000000000
    } else {
        let mut msg = "Unsupported time unit: '".to_owned();
        msg.append(unit);
        msg.append("'. Use 's', 'ms', 'm', or 'd'.");
        proof {
            assert(msg@ =~= "Unsupported time unit: '"@ + s@.skip(k as int)
                + "'. Use 's', 'ms', 'm', or 'd'."@);
        }
        return Err(msg);
    };
    Ok(DurationNs { nanos })
}

/// What header parsing yields on `s`: the parts before and after the first
/// colon, each trimmed - when a colon is there at all.
pub open spec fn key_val_spec(s: Seq<char>) -> Option<(Seq<char>, Seq<char>)> {
    let k = prefix_len_while(s, |c: char| c != ':');
    if k >= s.len() {
        None
    } else {
        Some((trim_spec(s.take(k)), trim_spec(s.skip(k + 1))))
    }
}

/// Splits a `"Key:Value"` argument at its first colon and trims both sides.
pub fn parse_key_val(s: &str) -> (r: Result<(String, String), String>)
    ensures
        match r {
            Ok(kv) => key_val_spec(s@) == Some((kv.0@, kv.1@)),
            Err(m) => key_val_spec(s@) is None && m@ == "Header must be in 'Key:Value' format"@,
        },
{
    let len = s.unicode_len();
    let mut k: usize = 0;
    loop
        invariant
            0 <= k <= len,
            len == s@.len(),
            forall|j: int| 0 <= j < k ==> (#[trigger] s@[j]) != ':',
        ensures
            0 <= k <= len,
            len == s@.len(),
            k as int == prefix_len_while(s@, |c: char| c != ':'),
            k < len ==> s@[k as int] == ':',
        decreases len - k,
    {
        if k == len {
            proof {
                lemma_prefix_len_unique(s@, |c: char| c != ':', k as int);
            }
            break ;
        }
        let c = s.get_char(k);
        if c == ':' {
            proof {
                lemma_prefix_len_unique(s@, |c: char| c != ':', k as int);
            }
            break ;
        }
        k = k + 1;
    }
    if k == len {
        return Err("Header must be in 'Key:Value' format".to_owned());
    }
    let key_part = s.substring_char(0, k);
    let val_part = s.substring_char(k + 1, len);
    let key = trim_str(key_part);
    let val = trim_str(val_part);
    proof {
        assert(key_part@ =~= s@.take(k as int));
        assert(val_part@ =~= s@.skip(k as int + 1));
    }
    Ok((key, val))
}

} // verus!
