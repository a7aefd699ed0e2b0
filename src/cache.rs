use vstd::prelude::*;

use crate::extension::DirtyLevel;

verus! {

/// The host families whose dynamic-library file names are known.
#[derive(Clone, Copy, Debug, PartialEq, Eq, Structural)]
pub enum HostFamily {
    Linux,
    MacOs,
    Windows,
}

pub open spec fn suffix_of(h: HostFamily) -> Seq<char> {
    match h {
        HostFamily::Linux => seq!['s', 'o'],
        HostFamily::MacOs => seq!['d', 'y', 'l', 'i', 'b'],
        HostFamily::Windows => seq!['d', 'l', 'l'],
    }
}

pub open spec fn prefix_of(h: HostFamily) -> Seq<char> {
    match h {
        HostFamily::Windows => Seq::empty(),
        _ => seq!['l', 'i', 'b'],
    }
}

/// The dynamic-library suffix of a host family, without the dot.
pub fn library_suffix(h: HostFamily) -> (r: &'static str)
    ensures
        r@ == suffix_of(h),
{
    match h {
        HostFamily::Linux => {
            proof {
                reveal_strlit("so");
            }
            "so"
        },
        HostFamily::MacOs => {
            proof {
                reveal_strlit("dylib");
            }
            "dylib"
        },
        HostFamily::Windows => {
            proof {
                reveal_strlit("dll");
            }
            "dll"
        },
    }
}

/// The file name that a build of extension `name` produces on host family `h`.
pub fn extension_build_filename(name: &str, h: HostFamily) -> (r: String)
    ensures
        r@ == prefix_of(h) + name@ + seq!['.'] + suffix_of(h),
{
    let mut r = match h {
        HostFamily::Windows => String::new(),
        _ => {
            proof {
                reveal_strlit("lib");
            }
            String::from_str("lib")
        },
    };
    r.append(name);
    proof {
        reveal_strlit(".");
    }
    r.append(".");
    r.append(library_suffix(h));
    assert(r@ =~= prefix_of(h) + name@ + seq!['.'] + suffix_of(h));
    r
}

pub open spec fn digit_char(d: nat) -> char {
    if d == 0 { '0' } else if d == 1 { '1' } else if d == 2 { '2' } else if d == 3 { '3' }
    else if d == 4 { '4' } else if d == 5 { '5' } else if d == 6 { '6' } else if d == 7 { '7' }
    else if d == 8 { '8' } else { '9' }
}

pub open spec fn is_digit(c: char) -> bool {
    '0' <= c && c <= '9'
}

pub open spec fn digit_value(c: char) -> nat {
    (c as nat - '0' as nat) as nat
}

/// The decimal representation of `n`, without leading zeros.
pub open spec fn decimal(n: nat) -> Seq<char>
    decreases n,
{
    if n < 10 {
        seq![digit_char(n)]
    } else {
        decimal(n / 10).push(digit_char(n % 10))
    }
}

/// The number that a string of decimal digits denotes.
pub open spec fn digits_value(s: Seq<char>) -> nat
    decreases s.len(),
{
    if s.len() == 0 {
        0
    } else {
        digits_value(s.drop_last()) * 10 + digit_value(s.last())
    }
}

pub open spec fn all_digits(s: Seq<char>) -> bool {
    forall|i: int| 0 <= i < s.len() ==> is_digit(#[trigger] s[i])
}

/// A stem without its leading `+`, if any.
pub open spec fn stem_body(s: Seq<char>) -> Seq<char> {
    if s.len() > 0 && s[0] == '+' {
        s.drop_first()
    } else {
        s
    }
}

/// What a decimal stem reads as: an optional `+`, then one or more digits whose value
/// fits in 64 bits.
pub open spec fn parse_decimal(s: Seq<char>) -> Option<u64> {
    let body = stem_body(s);
    if body.len() > 0 && all_digits(body) && digits_value(body) <= u64::MAX {
        Some(digits_value(body) as u64)
    } else {
        None
    }
}

/// The one-character string of a decimal digit.
fn digit_str(d: u64) -> (r: &'static str)
    requires
        d < 10,
    ensures
        r@ == seq![digit_char(d as nat)],
{
    let r = match d {
        0 => {
            proof {
                reveal_strlit("0");
            }
            "0"
        },
        1 => {
            proof {
                reveal_strlit("1");
            }
            "1"
        },
        2 => {
            proof {
                reveal_strlit("2");
            }
            "2"
        },
        3 => {
            proof {
                reveal_strlit("3");
            }
            "3"
        },
        4 => {
            proof {
                reveal_strlit("4");
            }
            "4"
        },
        5 => {
            proof {
                reveal_strlit("5");
            }
            "5"
        },
        6 => {
            proof {
                reveal_strlit("6");
            }
            "6"
        },
        7 => {
            proof {
                reveal_strlit("7");
            }
            "7"
        },
        8 => {
            proof {
                reveal_strlit("8");
            }
            "8"
        },
        _ => {
            proof {
                reveal_strlit("9");
            }
            "9"
        },
    };
    assert(r@ =~= seq![digit_char(d as nat)]);
    r
}

/// The decimal digits of `n`, most significant first.
fn decimal_string(n: u64) -> (r: String)
    ensures
        r@ == decimal(n as nat),
    decreases n,
{
    if n < 10 {
        String::from_str(digit_str(n))
    } else {
        let mut r = decimal_string(n / 10);
        r.append(digit_str(n % 10));
        assert(r@ =~= decimal(n as nat));
        r
    }
}

/// Reads a decimal stem as a `u64`.
pub fn parse_u64(s: &str) -> (r: Option<u64>)
    ensures
        r == parse_decimal(s@),
{
    let len = s.unicode_len();
    let mut start: usize = 0;
    if len > 0 && s.get_char(0) == '+' {
        start = 1;
    }
    let ghost body = stem_body(s@);
    assert(body =~= s@.subrange(start as int, len as int));
    if start == len {
        return None;
    }
    let mut value: u64 = 0;
    let mut i: usize = start;
    while i < len
        invariant
            start <= i <= len,
            len == s@.len(),
            body == s@.subrange(start as int, len as int),
            body == stem_body(s@),
            all_digits(s@.subrange(start as int, i as int)),
            value as nat == digits_value(s@.subrange(start as int, i as int)),
        decreases len - i,
    {
        let c = s.get_char(i);
        let ghost pre = s@.subrange(start as int, i as int);
        assert(s@.subrange(start as int, i + 1) =~= pre.push(c));
        assert(s@.subrange(start as int, i + 1).drop_last() =~= pre);
        if c < '0' || c > '9' {
            assert(!all_digits(body)) by {
                assert(body[i - start] == c);
                assert(!is_digit(c));
            }
            assert(parse_decimal(s@) is None);
            return None;
        }
        let d = (c as u32 - '0' as u32) as u64;
        if value > (u64::MAX - d) / 10 {
            proof {
                assert(s@.subrange(start as int, i + 1) =~= body.subrange(0, (i + 1 - start) as int));
                assert(digits_value(s@.subrange(start as int, i + 1)) == value * 10 + d) by (nonlinear_arith)
                    requires
                        digits_value(s@.subrange(start as int, i + 1)) == digits_value(pre) * 10 + digit_value(c),
                        value as nat == digits_value(pre),
                        d as nat == digit_value(c),
                ;
                assert(value * 10 + d > u64::MAX) by (nonlinear_arith)
                    requires
                        value > (u64::MAX - d) / 10,
                        d <= 9,
                ;
                if all_digits(body) {
                    lemma_digits_value_prefix_bound(body, (i + 1 - start) as int);
                    assert(digits_value(body) > u64::MAX);
                }
                assert(parse_decimal(s@) is None);
            }
            return None;
        }
        value = value * 10 + d;
        i = i + 1;
    }
    assert(s@.subrange(start as int, len as int) =~= body);
    Some(value)
}

/// Over all-digit strings, a longer prefix is worth at least as much.
proof fn lemma_digits_value_prefix_bound(s: Seq<char>, k: int)
    requires
        0 <= k <= s.len(),
        all_digits(s),
    ensures
        digits_value(s.subrange(0, k)) <= digits_value(s),
    decreases s.len(),
{
    if k < s.len() {
        assert(s.drop_last() =~= s.subrange(0, s.len() - 1));
        assert(s.drop_last().subrange(0, k) =~= s.subrange(0, k));
        lemma_digits_value_prefix_bound(s.drop_last(), k);
        assert(digits_value(s.drop_last()) <= digits_value(s)) by (nonlinear_arith)
            requires
                digits_value(s) == digits_value(s.drop_last()) * 10 + digit_value(s.last()),
        ;
    } else {
        assert(s.subrange(0, k) =~= s);
    }
}

proof fn lemma_decimal_reads_back(n: nat)
    ensures
        all_digits(decimal(n)),
        decimal(n).len() > 0,
        decimal(n)[0] != '+',
        digits_value(decimal(n)) == n,
    decreases n,
{
    if n >= 10 {
        lemma_decimal_reads_back(n / 10);
        let p = decimal(n / 10);
        assert(decimal(n).drop_last() =~= p);
        assert(decimal(n)[0] == p[0]);
        assert forall|i: int| 0 <= i < decimal(n).len() implies is_digit(#[trigger] decimal(n)[i]) by {
            if i < p.len() {
                assert(decimal(n)[i] == p[i]);
            }
        }
        assert(digit_value(digit_char(n % 10)) == n % 10);
        assert(decimal(n).last() == digit_char(n % 10));
        assert(digits_value(decimal(n)) == digits_value(decimal(n).drop_last()) * 10 + digit_value(decimal(n).last()));
        assert(digits_value(decimal(n)) == digits_value(p) * 10 + n % 10);
        assert(n == (n / 10) * 10 + n % 10);
        assert(digits_value(p) == n / 10);
    } else {
        assert(decimal(n).drop_last() =~= Seq::<char>::empty());
        assert(digits_value(Seq::<char>::empty()) == 0);
        assert(decimal(n).last() == digit_char(n));
        assert(digit_value(digit_char(n)) == n);
    }
}

/// The decimal name of a timestamp reads back as that timestamp.
pub proof fn lemma_stem_round_trip(n: u64)
    ensures
        parse_decimal(decimal(n as nat)) == Some(n),
{
    lemma_decimal_reads_back(n as nat);
}

/// The cache file name for an artifact whose modification time is `ns`.
pub fn artifact_file_name(ns: u64, h: HostFamily) -> (r: String)
    ensures
        r@ == decimal(ns as nat) + seq!['.'] + suffix_of(h),
{
    let mut r = decimal_string(ns);
    proof {
        reveal_strlit(".");
    }
    r.append(".");
    r.append(library_suffix(h));
    assert(r@ =~= decimal(ns as nat) + seq!['.'] + suffix_of(h));
    r
}

/// The timestamp that a cache file name carries: `<decimal>.<suffix>`.
pub open spec fn artifact_stamp(name: Seq<char>, h: HostFamily) -> Option<u64> {
    let k = suffix_of(h).len() + 1;
    if name.len() > k && name.subrange(name.len() - k, name.len() as int) == seq!['.'] + suffix_of(h) {
        parse_decimal(name.subrange(0, name.len() - k))
    } else {
        None
    }
}

/// Whether `s` ends with `t`.
fn ends_with(s: &str, t: &str) -> (r: bool)
    ensures
        r == (s@.len() >= t@.len() && s@.subrange(s@.len() - t@.len(), s@.len() as int) == t@),
{
    let n = s.unicode_len();
    let k = t.unicode_len();
    if k > n {
        return false;
    }
    let mut i: usize = 0;
    while i < k
        invariant
            i <= k,
            k <= n,
            n == s@.len(),
            k == t@.len(),
            forall|j: int| 0 <= j < i ==> s@[n - k + j] == t@[j],
        decreases k - i,
    {
        if s.get_char(n - k + i) != t.get_char(i) {
            assert(s@.subrange(n - k, n as int)[i as int] != t@[i as int]);
            return false;
        }
        i = i + 1;
    }
    assert(s@.subrange(n - k, n as int) =~= t@);
    true
}

/// The timestamp carried by a cache file name, if it has the shape of one.
pub fn read_artifact_stamp(name: &str, h: HostFamily) -> (r: Option<u64>)
    ensures
        r == artifact_stamp(name@, h),
{
    let mut dotted = String::from_str(".");
    proof {
        reveal_strlit(".");
    }
    dotted.append(library_suffix(h));
    assert(dotted@ =~= seq!['.'] + suffix_of(h));
    let n = name.unicode_len();
    let k = dotted.as_str().unicode_len();
    if n > k && ends_with(name, dotted.as_str()) {
        parse_u64(name.substring_char(0, n - k))
    } else {
        None
    }
}

/// The first cache file, among `files`, whose name carries a timestamp, with that
/// timestamp.
pub fn lookup(files: &Vec<String>, h: HostFamily) -> (r: Option<(u64, usize)>)
    ensures
        match r {
            Some((ts, i)) => i < files.len() && artifact_stamp(files@[i as int]@, h) == Some(ts)
                && forall|j: int| 0 <= j < i ==> artifact_stamp(#[trigger] files@[j]@, h) is None,
            None => forall|j: int| 0 <= j < files.len() ==> artifact_stamp(#[trigger] files@[j]@, h) is None,
        },
{
    let mut i: usize = 0;
    while i < files.len()
        invariant
            i <= files.len(),
            forall|j: int| 0 <= j < i ==> artifact_stamp(#[trigger] files@[j]@, h) is None,
        decreases files.len() - i,
    {
        match read_artifact_stamp(files[i].as_str(), h) {
            Some(ts) => {
                return Some((ts, i));
            },
            None => {},
        }
        i = i + 1;
    }
    None
}

/// Whether a stored artifact stamped `stored` is at least as new as `mod_time`.
pub fn hit(stored: Option<u64>, mod_time: u64) -> (r: bool)
    ensures
        r == (stored is Some && stored.unwrap() >= mod_time),
{
    match stored {
        Some(ts) => ts >= mod_time,
        None => false,
    }
}

/// Whether inserting `new` into a cache that holds `previous` must then remove `previous`.
pub fn removes_previous(previous: Option<&String>, new: &String) -> (r: bool)
    ensures
        r == (previous is Some && previous.unwrap()@ != new@),
{
    match previous {
        Some(p) => !(*p == *new),
        None => false,
    }
}

/// The names in a cache directory after `new` is written and, where `remove` says so,
/// `previous` is deleted.
pub open spec fn after_insert(files: Set<Seq<char>>, previous: Option<Seq<char>>, new: Seq<char>, remove: bool) -> Set<Seq<char>> {
    let written = files.insert(new);
    if remove {
        written.remove(previous.unwrap())
    } else {
        written
    }
}

/// A cache directory that held at most the previously recorded artifact holds, after an
/// insert, exactly one file, whose stem is the artifact's modification time.
pub proof fn lemma_insert_leaves_one(files: Set<Seq<char>>, previous: Option<Seq<char>>, ns: u64, h: HostFamily)
    requires
        forall|f: Seq<char>| files.contains(f) ==> previous == Some(f),
    ensures
        ({
            let new = decimal(ns as nat) + seq!['.'] + suffix_of(h);
            let remove = previous is Some && previous.unwrap() != new;
            &&& after_insert(files, previous, new, remove) == set![new]
            &&& artifact_stamp(new, h) == Some(ns)
        }),
{
    let new = decimal(ns as nat) + seq!['.'] + suffix_of(h);
    let remove = previous is Some && previous.unwrap() != new;
    assert(after_insert(files, previous, new, remove) =~= set![new]);
    lemma_stem_round_trip(ns);
    let k = suffix_of(h).len() + 1;
    assert(new.subrange(new.len() - k, new.len() as int) =~= seq!['.'] + suffix_of(h));
    assert(new.subrange(0, new.len() - k) =~= decimal(ns as nat));
}

/// How an extension is brought into memory: whether to build it, and which cached file,
/// if any, is fresh enough to map instead of a new copy of the build.
#[derive(Clone, Copy, Debug, PartialEq, Eq, Structural)]
pub struct ActivationPlan {
    pub build: bool,
    /// Position, among the listed cache files, of the file to map.
    pub cached: Option<usize>,
}

/// Decides an activation from the extension's dirty level and timestamp, the cache file
/// found for it (its timestamp and position), whether it is a member of the host workspace,
/// and whether a workspace-wide build already ran in this pass. That build serves the
/// workspace members only: a crate outside the workspace is still built on its own.
pub fn plan_activation(level: DirtyLevel, mod_time: u64, stored: Option<(u64, usize)>, in_workspace: bool, batch_built: bool) -> (r: ActivationPlan)
    ensures
        r.cached == (match stored {
            Some((ts, k)) => if ts >= mod_time { Some(k) } else { None },
            None => None,
        }),
        r.build == (r.cached is None && level == DirtyLevel::Rebuild && !(batch_built && in_workspace)),
{
    let cached = match stored {
        Some((ts, k)) => if hit(Some(ts), mod_time) { Some(k) } else { None },
        None => None,
    };
    let build = cached.is_none() && level == DirtyLevel::Rebuild && !(batch_built && in_workspace);
    ActivationPlan { build, cached }
}

} // verus!
