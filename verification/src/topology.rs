//! L3-cache-aware topology discovery.
//!
//! Each [`Shard`] is one L3 cache domain; the broker runs one worker
//! per shard and pins its OS thread to one of the shard's logical CPUs.
//! Discovery works on what the CPU directories of the system hold; where that
//! is unavailable, [`detect`] returns a single-shard topology whose `cpus` is
//! the full set of available CPUs.

use vstd::prelude::*;

verus! {

/// One L3 cache domain.
#[derive(Debug, Clone)]
pub struct Shard {
    /// Stable identifier assigned at discovery time, dense in `0..N`.
    pub shard_id: u32,
    /// Logical CPU ids that share this L3 cache.
    pub cpus: Vec<u32>,
}

/// Topology discovered at startup.
#[derive(Debug, Clone)]
pub struct Topology {
    /// One entry per L3 cache domain, in ascending `shard_id` order.
    pub shards: Vec<Shard>,
}

/// What one entry of a CPU's cache directory holds.
#[derive(Debug)]
pub struct CacheEntry {
    /// The entry's name, where it is valid Unicode.
    pub name: Option<String>,
    /// What its `level` file holds, where it can be read.
    pub level: Option<String>,
    /// What its `shared_cpu_list` file holds, where it can be read.
    pub shared_cpu_list: Option<String>,
}

/// What one entry of the CPU directory holds.
#[derive(Debug)]
pub struct CpuEntry {
    /// The entry's name, where it is valid Unicode.
    pub name: Option<String>,
    /// The entries of its cache directory, where that can be listed. An entry
    /// that could not be read is `None`.
    pub cache: Option<Vec<Option<CacheEntry>>>,
}

/// A character that text is trimmed of.
pub open spec fn is_white(c: char) -> bool {
    ||| '\u{9}' <= c <= '\u{d}'
    ||| c == '\u{20}'
    ||| c == '\u{85}'
    ||| c == '\u{a0}'
    ||| c == '\u{1680}'
    ||| '\u{2000}' <= c <= '\u{200a}'
    ||| c == '\u{2028}'
    ||| c == '\u{2029}'
    ||| c == '\u{202f}'
    ||| c == '\u{205f}'
    ||| c == '\u{3000}'
}

/// `s` without the white space it begins with.
pub open spec fn trim_start(s: Seq<char>) -> Seq<char>
    decreases s.len(),
{
    if s.len() > 0 && is_white(s[0]) {
        trim_start(s.skip(1))
    } else {
        s
    }
}

/// `s` without the white space it ends with.
pub open spec fn trim_end(s: Seq<char>) -> Seq<char>
    decreases s.len(),
{
    if s.len() > 0 && is_white(s.last()) {
        trim_end(s.drop_last())
    } else {
        s
    }
}

/// `s` without the white space around it.
pub open spec fn trim(s: Seq<char>) -> Seq<char> {
    trim_end(trim_start(s))
}

/// How many characters `s` has before the first `c`.
pub open spec fn run_before(s: Seq<char>, c: char) -> nat
    decreases s.len(),
{
    if s.len() > 0 && s[0] != c {
        1 + run_before(s.skip(1), c)
    } else {
        0
    }
}

/// What stands between the commas of `s`.
pub open spec fn between_commas(s: Seq<char>) -> Seq<Seq<char>>
    decreases s.len(),
{
    let n = run_before(s, ',') as int;
    if n < s.len() {
        seq![s.take(n)] + between_commas(s.skip(n + 1))
    } else {
        seq![s]
    }
}

/// An ASCII decimal digit.
pub open spec fn is_digit(c: char) -> bool {
    '0' <= c <= '9'
}

/// `s` is a non-empty string of decimal digits.
pub open spec fn is_decimal(s: Seq<char>) -> bool {
    s.len() > 0 && forall|i: int| 0 <= i < s.len() ==> is_digit(#[trigger] s[i])
}

/// The number that a string of decimal digits denotes.
pub open spec fn decimal_value(s: Seq<char>) -> int
    decreases s.len(),
{
    if s.len() == 0 {
        0
    } else {
        decimal_value(s.drop_last()) * 10 + (s.last() as int - '0' as int)
    }
}

/// A string of digits as a number, where it fits.
pub open spec fn digits(s: Seq<char>) -> Option<u32> {
    if is_decimal(s) && decimal_value(s) <= u32::MAX {
        Some(decimal_value(s) as u32)
    } else {
        None
    }
}

/// Digits with a plus sign in front or without.
pub open spec fn number(s: Seq<char>) -> Option<u32> {
    if s.len() > 0 && s[0] == '+' {
        digits(s.skip(1))
    } else {
        digits(s)
    }
}

/// The numbers from `lo` to `hi`, both included.
pub open spec fn range(lo: u32, hi: u32) -> Seq<u32> {
    if lo <= hi {
        Seq::new((hi - lo + 1) as nat, |i: int| (lo + i) as u32)
    } else {
        Seq::empty()
    }
}

/// The CPUs that one part of a list names: a number, or two with a dash
/// between them. Anything else names none.
pub open spec fn part_cpus(part: Seq<char>) -> Seq<u32> {
    let n = run_before(part, '-') as int;
    if n < part.len() {
        match (number(part.take(n)), number(part.skip(n + 1))) {
            (Some(lo), Some(hi)) => range(lo, hi),
            _ => Seq::empty(),
        }
    } else {
        match number(part) {
            Some(v) => seq![v],
            None => Seq::empty(),
        }
    }
}

/// The CPUs that the first `k` parts name, in order.
pub open spec fn parts_cpus(parts: Seq<Seq<char>>, k: int) -> Seq<u32>
    decreases k,
{
    if k <= 0 {
        Seq::empty()
    } else {
        parts_cpus(parts, k - 1) + part_cpus(trim(parts[k - 1]))
    }
}

/// The CPUs that a list like `0-3,8,12-15` names, in order.
pub open spec fn cpu_list(s: Seq<char>) -> Seq<u32> {
    parts_cpus(between_commas(s), between_commas(s).len() as int)
}

/// The CPU that a directory is for: `cpu` and a number.
pub open spec fn cpu_of_dir(name: Seq<char>) -> Option<u32> {
    if "cpu"@.is_prefix_of(name) {
        digits(name.skip(3))
    } else {
        None
    }
}

/// True for a character that text is trimmed of.
fn is_white_space(c: char) -> (r: bool)
    ensures
        r == is_white(c),
{
    ('\u{9}' <= c && c <= '\u{d}') || c == '\u{20}' || c == '\u{85}' || c == '\u{a0}' || c
        == '\u{1680}' || ('\u{2000}' <= c && c <= '\u{200a}') || c == '\u{2028}' || c == '\u{2029}'
        || c == '\u{202f}' || c == '\u{205f}' || c == '\u{3000}'
}

/// The characters of a text.
fn chars_of(s: &str) -> (r: Vec<char>)
    ensures
        r@ == s@,
{
    let n: usize = s.unicode_len();
    let mut r: Vec<char> = Vec::new();
    let mut i: usize = 0;
    while i < n
        invariant
            n == s@.len(),
            i <= n,
            r@ == s@.take(i as int),
        decreases n - i,
    {
        r.push(s.get_char(i));
        assert(r@ =~= s@.take(i + 1));
        i += 1;
    }
    assert(s@.take(n as int) =~= s@);
    r
}

/// Trimming is dropping a run of white space at each end.
proof fn lemma_trim_start(s: Seq<char>, n: int)
    requires
        0 <= n <= s.len(),
        forall|i: int| 0 <= i < n ==> is_white(#[trigger] s[i]),
        n < s.len() ==> !is_white(s[n]),
    ensures
        trim_start(s) == s.skip(n),
    decreases n,
{
    if n > 0 {
        let t = s.skip(1);
        assert forall|i: int| 0 <= i < n - 1 implies is_white(#[trigger] t[i]) by {
            assert(t[i] == s[i + 1]);
        }
        if n < s.len() {
            assert(t[n - 1] == s[n]);
        }
        assert(is_white(s[0]));
        lemma_trim_start(t, n - 1);
        assert(t.skip(n - 1) =~= s.skip(n));
    } else {
        assert(s.skip(0) =~= s);
    }
}

proof fn lemma_trim_end(s: Seq<char>, n: int)
    requires
        0 <= n <= s.len(),
        forall|i: int| n <= i < s.len() ==> is_white(#[trigger] s[i]),
        n > 0 ==> !is_white(s[n - 1]),
    ensures
        trim_end(s) == s.take(n),
    decreases s.len() - n,
{
    if n < s.len() {
        let t = s.drop_last();
        assert(is_white(s[s.len() - 1]));
        assert(forall|i: int| 0 <= i < t.len() ==> #[trigger] t[i] == s[i]);
        lemma_trim_end(t, n);
        assert(t.take(n) =~= s.take(n));
    } else {
        assert(s.take(n) =~= s);
    }
}

/// Drops the white space around `s`.
fn trimmed(s: &[char]) -> (r: &[char])
    ensures
        r@ == trim(s@),
{
    let mut start: usize = 0;
    while start < s.len() && is_white_space(s[start])
        invariant
            start <= s@.len(),
            forall|i: int| 0 <= i < start ==> is_white(#[trigger] s@[i]),
        decreases s@.len() - start,
    {
        start += 1;
    }
    proof {
        lemma_trim_start(s@, start as int);
    }
    let mut end: usize = s.len();
    let ghost t = s@.skip(start as int);
    while end > start && is_white_space(s[end - 1])
        invariant
            start <= end <= s@.len(),
            t == s@.skip(start as int),
            forall|i: int| end - start <= i < t.len() ==> is_white(#[trigger] t[i]),
        decreases end - start,
    {
        end -= 1;
        assert(t[end - start] == s@[end as int]);
    }
    proof {
        if end > start {
            assert(t[end - start - 1] == s@[end - 1]);
        }
        lemma_trim_end(t, end - start);
        assert(s@.subrange(start as int, end as int) =~= t.take(end - start));
    }
    &s[start..end]
}

proof fn lemma_run_before(s: Seq<char>, c: char, n: int)
    requires
        0 <= n <= s.len(),
        forall|i: int| 0 <= i < n ==> #[trigger] s[i] != c,
        n < s.len() ==> s[n] == c,
    ensures
        run_before(s, c) == n,
    decreases n,
{
    if n > 0 {
        let t = s.skip(1);
        assert forall|i: int| 0 <= i < n - 1 implies #[trigger] t[i] != c by {
            assert(t[i] == s[i + 1]);
        }
        if n < s.len() {
            assert(t[n - 1] == s[n]);
        }
        assert(s[0] != c);
        lemma_run_before(t, c, n - 1);
    }
}

/// How many characters `s` has before the first `c`.
fn find(s: &[char], c: char) -> (n: usize)
    ensures
        n == run_before(s@, c),
        n <= s@.len(),
{
    let mut i: usize = 0;
    while i < s.len() && s[i] != c
        invariant
            i <= s@.len(),
            forall|j: int| 0 <= j < i ==> #[trigger] s@[j] != c,
        decreases s@.len() - i,
    {
        i += 1;
    }
    proof {
        lemma_run_before(s@, c, i as int);
    }
    i
}

proof fn lemma_decimal_step(s: Seq<char>, i: int)
    requires
        0 <= i < s.len(),
    ensures
        decimal_value(s.take(i + 1)) == decimal_value(s.take(i)) * 10 + (s[i] as int - '0' as int),
{
    let t = s.take(i + 1);
    assert(t.drop_last() =~= s.take(i));
    assert(t.last() == s[i]);
}

proof fn lemma_decimal_grows(s: Seq<char>, i: int)
    requires
        is_decimal(s),
        0 <= i <= s.len(),
    ensures
        0 <= decimal_value(s.take(i)) <= decimal_value(s),
    decreases s.len() - i,
{
    lemma_decimal_nonneg(s, i);
    if i < s.len() {
        lemma_decimal_grows(s, i + 1);
        lemma_decimal_step(s, i);
        assert(is_digit(s[i]));
    } else {
        assert(s.take(i) =~= s);
    }
}

proof fn lemma_decimal_nonneg(s: Seq<char>, i: int)
    requires
        is_decimal(s),
        0 <= i <= s.len(),
    ensures
        0 <= decimal_value(s.take(i)),
    decreases i,
{
    if i > 0 {
        lemma_decimal_nonneg(s, i - 1);
        lemma_decimal_step(s, i - 1);
        assert(is_digit(s[i - 1]));
    }
}

/// Reads a string of digits.
fn parse_digits(s: &[char]) -> (r: Option<u32>)
    ensures
        r == digits(s@),
{
    if s.len() == 0 {
        return None;
    }
    let mut n: u32 = 0;
    let mut i: usize = 0;
    while i < s.len()
        invariant
            i <= s@.len(),
            s@.len() > 0,
            forall|j: int| 0 <= j < i ==> is_digit(#[trigger] s@[j]),
            n == decimal_value(s@.take(i as int)),
        decreases s@.len() - i,
    {
        let c: char = s[i];
        if c < '0' || c > '9' {
            assert(!is_digit(s@[i as int]));
            return None;
        }
        proof {
            lemma_decimal_step(s@, i as int);
            if is_decimal(s@) {
                lemma_decimal_grows(s@, i + 1);
            }
        }
        let tenfold: u32 = match n.checked_mul(10) {
            Some(m) => m,
            None => return None,
        };
        let digit: u32 = c as u32 - '0' as u32;
        n = match tenfold.checked_add(digit) {
            Some(m) => m,
            None => return None,
        };
        i += 1;
    }
    assert(s@.take(i as int) =~= s@);
    Some(n)
}

/// Reads digits with a plus sign in front or without.
fn parse_number(s: &[char]) -> (r: Option<u32>)
    ensures
        r == number(s@),
{
    if s.len() > 0 && s[0] == '+' {
        let rest = &s[1..s.len()];
        assert(rest@ =~= s@.skip(1));
        parse_digits(rest)
    } else {
        parse_digits(s)
    }
}

/// Appends the CPUs that one part of a list names.
fn push_part(part: &[char], out: &mut Vec<u32>)
    ensures
        final(out)@ == old(out)@ + part_cpus(part@),
{
    let ghost before = out@;
    let n: usize = find(part, '-');
    if n < part.len() {
        let left = &part[0..n];
        let right = &part[n + 1..part.len()];
        assert(left@ =~= part@.take(n as int));
        assert(right@ =~= part@.skip(n + 1));
        if let (Some(lo), Some(hi)) = (parse_number(left), parse_number(right)) {
            if lo <= hi {
                let mut v: u32 = lo;
                assert(out@ =~= before + range(lo, hi).take(0));
                while v < hi
                    invariant
                        lo <= v <= hi,
                        out@ == before + range(lo, hi).take(v - lo),
                    decreases hi - v,
                {
                    out.push(v);
                    v += 1;
                    assert(out@ =~= before + range(lo, hi).take(v - lo));
                }
                out.push(v);
                assert(out@ =~= before + range(lo, hi));
            } else {
                assert(out@ =~= before + range(lo, hi));
            }
        } else {
            assert(out@ =~= before + Seq::<u32>::empty());
        }
    } else {
        match parse_number(part) {
            Some(v) => {
                out.push(v);
                assert(out@ =~= before + seq![v]);
            },
            None => {
                assert(out@ =~= before + Seq::<u32>::empty());
            },
        }
    }
}

/// Parses a cpu-list string like `0-3,8,12-15`.
pub fn parse_cpu_list(s: &str) -> (out: Vec<u32>)
    ensures
        out@ == cpu_list(s@),
{
    let chars = chars_of(s);
    parse_list(&chars)
}

/// Parses a cpu-list string.
fn parse_list(s: &[char]) -> (out: Vec<u32>)
    ensures
        out@ == cpu_list(s@),
{
    let mut out: Vec<u32> = Vec::new();
    let mut rest = s;
    let ghost all = between_commas(s@);
    let ghost mut k: int = 0;
    proof {
        assert(all.skip(0) =~= all);
    }
    loop
        invariant
            0 <= k < all.len(),
            all == between_commas(s@),
            all.skip(k) == between_commas(rest@),
            out@ == parts_cpus(all, k),
        decreases rest@.len(),
    {
        let n: usize = find(rest, ',');
        let part = &rest[0..n];
        let ghost here = between_commas(rest@);
        assert(part@ =~= rest@.take(n as int));
        assert(here[0] == all[k]);
        assert(n == rest@.len() ==> rest@.take(n as int) =~= rest@);
        assert(all[k] == part@);
        push_part(trimmed(part), &mut out);
        if n < rest.len() {
            let tail = &rest[n + 1..rest.len()];
            proof {
                assert(tail@ =~= rest@.skip(n + 1));
                assert(here.skip(1) =~= between_commas(tail@));
                assert(all.skip(k + 1) =~= here.skip(1));
                lemma_parts(tail@);
                assert(all.skip(k + 1).len() > 0);
                k = k + 1;
            }
            rest = tail;
        } else {
            assert(here.len() == 1);
            assert(all.len() == k + 1);
            return out;
        }
    }
}

proof fn lemma_parts(s: Seq<char>)
    ensures
        between_commas(s).len() > 0,
{
}

/// The CPU that a directory is for.
pub fn parse_cpu_dir_name(name: &str) -> (r: Option<u32>)
    ensures
        r == cpu_of_dir(name@),
{
    let chars = chars_of(name);
    proof {
        reveal_strlit("cpu");
        if "cpu"@.is_prefix_of(name@) {
            let head = name@.subrange(0, 3);
            assert(head == "cpu"@);
            assert(head[0] == name@[0] && head[1] == name@[1] && head[2] == name@[2]);
        }
    }
    if chars.len() < 3 || chars[0] != 'c' || chars[1] != 'p' || chars[2] != 'u' {
        return None;
    }
    assert("cpu"@.is_prefix_of(name@)) by {
        assert("cpu"@ =~= name@.take(3));
    }
    let rest = &chars[3..chars.len()];
    assert(rest@ =~= name@.skip(3));
    parse_digits(rest)
}

/// The entry describes an L3 cache.
pub open spec fn is_l3(e: CacheEntry) -> bool {
    &&& e.name matches Some(name) && "index"@.is_prefix_of(name@)
    &&& e.level matches Some(level) && trim(level@) == "3"@
}

/// A cache entry that cannot be looked at: everything behind it goes unseen.
pub open spec fn is_unreadable(e: Option<CacheEntry>) -> bool {
    e is None || e->0.name is None
}

/// The CPUs that share an L3 cache, as the first entry that describes one has
/// them. `None` if there is none, if its list cannot be read, or if an entry
/// before it cannot be looked at.
pub open spec fn l3_shared(entries: Seq<Option<CacheEntry>>) -> Option<Seq<u32>>
    decreases entries.len(),
{
    if entries.len() == 0 || is_unreadable(entries[0]) {
        None
    } else if is_l3(entries[0]->0) {
        match entries[0]->0.shared_cpu_list {
            Some(list) => Some(cpu_list(trim(list@))),
            None => None,
        }
    } else {
        l3_shared(entries.skip(1))
    }
}

/// `s` begins with `index`.
fn starts_with_index(s: &[char]) -> (r: bool)
    ensures
        r == "index"@.is_prefix_of(s@),
{
    proof {
        reveal_strlit("index");
        if "index"@.is_prefix_of(s@) {
            let head = s@.subrange(0, 5);
            assert(head == "index"@);
            assert(head[0] == s@[0] && head[1] == s@[1] && head[2] == s@[2] && head[3] == s@[3]
                && head[4] == s@[4]);
        }
    }
    let r = s.len() >= 5 && s[0] == 'i' && s[1] == 'n' && s[2] == 'd' && s[3] == 'e' && s[4]
        == 'x';
    proof {
        if r {
            assert("index"@ =~= s@.take(5));
        }
    }
    r
}

/// True for the level of an L3 cache.
fn is_level_3(s: &[char]) -> (r: bool)
    ensures
        r == (s@ == "3"@),
{
    proof {
        reveal_strlit("3");
    }
    let r = s.len() == 1 && s[0] == '3';
    proof {
        if r {
            assert(s@ =~= "3"@);
        }
    }
    r
}

/// The CPUs that share an L3 cache, out of a CPU's cache directory.
pub fn read_l3_shared_list(entries: &[Option<CacheEntry>]) -> (r: Option<Vec<u32>>)
    ensures
        r is Some == (l3_shared(entries@) is Some),
        r matches Some(cpus) ==> l3_shared(entries@) == Some(cpus@),
{
    let mut i: usize = 0;
    assert(entries@.skip(0) =~= entries@);
    while i < entries.len()
        invariant
            i <= entries@.len(),
            l3_shared(entries@) == l3_shared(entries@.skip(i as int)),
        decreases entries@.len() - i,
    {
        let ghost rest = entries@.skip(i as int);
        assert(rest[0] == entries@[i as int]);
        assert(rest.skip(1) =~= entries@.skip(i + 1));
        let entry = match &entries[i] {
            Some(entry) => entry,
            None => return None,
        };
        let name = match &entry.name {
            Some(name) => chars_of(name.as_str()),
            None => return None,
        };
        i += 1;
        if !starts_with_index(&name) {
            continue;
        }
        let level = match &entry.level {
            Some(level) => chars_of(level.as_str()),
            None => continue,
        };
        if !is_level_3(trimmed(&level)) {
            continue;
        }
        return match &entry.shared_cpu_list {
            Some(list) => {
                let chars = chars_of(list.as_str());
                Some(parse_list(trimmed(&chars)))
            },
            None => None,
        };
    }
    None
}

/// A CPU and the smallest CPU that it shares an L3 cache with.
#[verifier::ext_equal]
pub struct Member {
    pub cpu: u32,
    pub canonical: u32,
}

/// The smallest of some numbers.
pub open spec fn smallest(s: Seq<u32>) -> u32
    decreases s.len(),
{
    if s.len() <= 1 {
        s[0]
    } else if s.last() < smallest(s.drop_last()) {
        s.last()
    } else {
        smallest(s.drop_last())
    }
}

/// What one entry of the CPU directory adds: a CPU with the L3 cache it is
/// in, or nothing.
pub open spec fn member(e: CpuEntry) -> Option<Member> {
    match (e.name, e.cache) {
        (Some(name), Some(cache)) => match (cpu_of_dir(name@), l3_shared(cache@)) {
            (Some(cpu), Some(shared)) => if shared.len() > 0 {
                Some(Member { cpu, canonical: smallest(shared) })
            } else {
                None
            },
            _ => None,
        },
        _ => None,
    }
}

/// The directory was listed to its end, and every name was valid Unicode.
pub open spec fn is_complete(entries: Seq<Option<CpuEntry>>) -> bool {
    forall|i: int|
        0 <= i < entries.len() ==> (#[trigger] entries[i]) is Some && entries[i]->0.name is Some
}

/// CPU `cpu` is in the L3 domain of `canonical`.
pub open spec fn in_domain(entries: Seq<Option<CpuEntry>>, cpu: u32, canonical: u32) -> bool {
    exists|i: int|
        0 <= i < entries.len() && #[trigger] member(entries[i]->0) == Some(
            Member { cpu, canonical },
        )
}

/// There is an L3 domain of `canonical`.
pub open spec fn is_domain(entries: Seq<Option<CpuEntry>>, canonical: u32) -> bool {
    exists|cpu: u32| in_domain(entries, cpu, canonical)
}

/// In ascending order, none twice.
pub open spec fn ascending(s: Seq<u32>) -> bool {
    forall|i: int, j: int| 0 <= i < j < s.len() ==> s[i] < s[j]
}

/// The shards are the L3 domains `keys`: numbered from zero on, each with its
/// CPUs in ascending order.
pub open spec fn shards_of(
    shards: Seq<Shard>,
    entries: Seq<Option<CpuEntry>>,
    keys: Seq<u32>,
) -> bool {
    &&& shards.len() == keys.len()
    &&& ascending(keys)
    &&& forall|canonical: u32| #[trigger]
        keys.contains(canonical) == is_domain(entries, canonical)
    &&& forall|i: int|
        0 <= i < shards.len() ==> {
            &&& (#[trigger] shards[i]).shard_id == i
            &&& ascending(shards[i].cpus@)
            &&& forall|cpu: u32| #[trigger]
                shards[i].cpus@.contains(cpu) == in_domain(entries, cpu, keys[i])
        }
}

/// The topology is that of the L3 domains that the entries tell of, in
/// ascending order of their smallest CPU.
pub open spec fn tells_of(t: Topology, entries: Seq<Option<CpuEntry>>) -> bool {
    exists|keys: Seq<u32>| shards_of(t.shards@, entries, keys)
}

/// The entries tell of an L3 cache.
pub open spec fn has_domain(entries: Seq<Option<CpuEntry>>) -> bool {
    exists|canonical: u32| is_domain(entries, canonical)
}

/// One shard with `available` CPUs, or with one where that is not known.
pub open spec fn is_single(t: Topology, available: Option<usize>) -> bool {
    let n = if available is Some {
        available->0 as nat
    } else {
        1
    };
    &&& t.shards@.len() == 1
    &&& t.shards@[0].shard_id == 0
    &&& t.shards@[0].cpus@.len() == n
    &&& forall|i: int|
        0 <= i < n ==> #[trigger] t.shards@[0].cpus@[i] == (if i <= u32::MAX {
            i as u32
        } else {
            u32::MAX
        })
}

/// Puts a number in its place among ascending ones, unless it is there.
fn insert_cpu(list: &mut Vec<u32>, v: u32)
    requires
        ascending(old(list)@),
    ensures
        ascending(final(list)@),
        final(list)@.len() > 0,
        forall|x: u32| #[trigger]
            final(list)@.contains(x) == (old(list)@.contains(x) || x == v),
{
    let ghost before = list@;
    let mut i: usize = 0;
    while i < list.len() && list[i] < v
        invariant
            list@ == before,
            ascending(before),
            i <= before.len(),
            forall|j: int| 0 <= j < i ==> before[j] < v,
        decreases before.len() - i,
    {
        i += 1;
    }
    if i < list.len() && list[i] == v {
        assert(before.contains(v));
        return;
    }
    list.insert(i, v);
    let ghost after = list@;
    assert(after == before.insert(i as int, v));
    assert forall|x: u32| #[trigger] after.contains(x) == (before.contains(x) || x == v) by {
        if before.contains(x) {
            let j = choose|j: int| 0 <= j < before.len() && before[j] == x;
            assert(after[if j < i {
                j
            } else {
                j + 1
            }] == x);
        }
        if after.contains(x) {
            let j = choose|j: int| 0 <= j < after.len() && after[j] == x;
            if j < i {
                assert(before[j] == x);
            } else if j > i {
                assert(before[j - 1] == x);
            }
        }
        assert(after[i as int] == v);
    }
}

spec fn keys_of(groups: Seq<(u32, Vec<u32>)>) -> Seq<u32> {
    groups.map_values(|g: (u32, Vec<u32>)| g.0)
}

/// The groups are the L3 domains of `entries` with their CPUs.
spec fn grouped(groups: Seq<(u32, Vec<u32>)>, entries: Seq<Option<CpuEntry>>) -> bool {
    &&& ascending(keys_of(groups))
    &&& forall|i: int|
        0 <= i < groups.len() ==> {
            &&& ascending((#[trigger] groups[i]).1@)
            &&& groups[i].1@.len() > 0
            &&& forall|cpu: u32| #[trigger]
                groups[i].1@.contains(cpu) == in_domain(entries, cpu, groups[i].0)
        }
    &&& forall|cpu: u32, canonical: u32| #[trigger]
        in_domain(entries, cpu, canonical) ==> keys_of(groups).contains(canonical)
}

/// One entry more.
proof fn lemma_in_domain(entries: Seq<Option<CpuEntry>>, i: int)
    requires
        0 <= i < entries.len(),
    ensures
        forall|cpu: u32, canonical: u32| #[trigger]
            in_domain(entries.take(i + 1), cpu, canonical) == (in_domain(
                entries.take(i),
                cpu,
                canonical,
            ) || member(entries[i]->0) == Some(Member { cpu, canonical })),
{
    let some = entries.take(i);
    let more = entries.take(i + 1);
    assert forall|cpu: u32, canonical: u32| #[trigger] in_domain(more, cpu, canonical) == (
    in_domain(some, cpu, canonical) || member(entries[i]->0) == Some(
        Member { cpu, canonical },
    )) by {
        let m = Some(Member { cpu, canonical });
        if in_domain(more, cpu, canonical) {
            let j = choose|j: int| 0 <= j < more.len() && #[trigger] member(more[j]->0) == m;
            if j < i {
                assert(member(some[j]->0) == m);
            }
        }
        if in_domain(some, cpu, canonical) {
            let j = choose|j: int| 0 <= j < some.len() && #[trigger] member(some[j]->0) == m;
            assert(member(more[j]->0) == m);
        }
        if member(entries[i]->0) == m {
            assert(member(more[i]->0) == m);
        }
    }
}

/// Adds a CPU to the group of its L3 domain, with a new group for a new
/// domain.
fn insert_member(
    groups: &mut Vec<(u32, Vec<u32>)>,
    canonical: u32,
    cpu: u32,
    Ghost(entries): Ghost<Seq<Option<CpuEntry>>>,
    Ghost(k): Ghost<int>,
)
    requires
        0 <= k < entries.len(),
        grouped(old(groups)@, entries.take(k)),
        member(entries[k]->0) == Some(Member { cpu, canonical }),
    ensures
        grouped(final(groups)@, entries.take(k + 1)),
{
    let ghost before = groups@;
    let ghost keys = keys_of(before);
    proof {
        lemma_in_domain(entries, k);
    }
    let mut i: usize = 0;
    while i < groups.len() && groups[i].0 < canonical
        invariant
            groups@ == before,
            keys == keys_of(before),
            i <= before.len(),
            forall|j: int| 0 <= j < i ==> keys[j] < canonical,
        decreases before.len() - i,
    {
        i += 1;
    }
    if i < groups.len() && groups[i].0 == canonical {
        insert_cpu(&mut groups[i].1, cpu);
        let ghost after = groups@;
        assert(keys_of(after) =~= keys);
        assert forall|j: int| 0 <= j < after.len() implies {
            &&& ascending((#[trigger] after[j]).1@)
            &&& after[j].1@.len() > 0
            &&& forall|x: u32| #[trigger]
                after[j].1@.contains(x) == in_domain(entries.take(k + 1), x, after[j].0)
        } by {
            if j != i {
                assert(after[j] == before[j]);
                assert(keys[j] != keys[i as int]);
            }
        }
        assert(keys[i as int] == canonical);
    } else {
        let mut cpus: Vec<u32> = Vec::new();
        insert_cpu(&mut cpus, cpu);
        proof {
            assert forall|x: u32| !in_domain(entries.take(k), x, canonical) by {
                if in_domain(entries.take(k), x, canonical) {
                    let j = choose|j: int| 0 <= j < keys.len() && keys[j] == canonical;
                    assert(keys[j] == canonical);
                    if j > i {
                        assert(keys[i as int] < keys[j]);
                    }
                }
            }
        }
        groups.insert(i, (canonical, cpus));
        let ghost after = groups@;
        let ghost new_keys = keys_of(after);
        assert(new_keys =~= keys.insert(i as int, canonical));
        assert(ascending(new_keys)) by {
            assert forall|a: int, b: int| 0 <= a < b < new_keys.len() implies new_keys[a]
                < new_keys[b] by {
                let x = if a < i {
                    a
                } else {
                    a - 1
                };
                let y = if b < i {
                    b
                } else {
                    b - 1
                };
                if a != i && b != i {
                    assert(keys[x] < keys[y]);
                } else if a == i && b > i + 1 {
                    assert(keys[i as int] < keys[y]);
                }
            }
        }
        assert forall|j: int| 0 <= j < after.len() implies {
            &&& ascending((#[trigger] after[j]).1@)
            &&& after[j].1@.len() > 0
            &&& forall|x: u32| #[trigger]
                after[j].1@.contains(x) == in_domain(entries.take(k + 1), x, after[j].0)
        } by {
            if j < i {
                assert(after[j] == before[j]);
                assert(keys[j] < canonical);
            } else if j > i {
                assert(after[j] == before[j - 1]);
                assert(keys[j - 1] > canonical);
            }
        }
        assert forall|x: u32, c: u32| #[trigger]
            in_domain(entries.take(k + 1), x, c) implies new_keys.contains(c) by {
            if c == canonical {
                assert(new_keys[i as int] == c);
            } else {
                let j = choose|j: int| 0 <= j < keys.len() && keys[j] == c;
                assert(new_keys[if j < i {
                    j
                } else {
                    j + 1
                }] == c);
            }
        }
    }
}

/// The smallest of some numbers.
fn smallest_of(s: &[u32]) -> (m: u32)
    requires
        s@.len() > 0,
    ensures
        m == smallest(s@),
{
    let mut m: u32 = s[0];
    let mut i: usize = 1;
    while i < s.len()
        invariant
            1 <= i <= s@.len(),
            m == smallest(s@.take(i as int)),
        decreases s@.len() - i,
    {
        assert(s@.take(i + 1).drop_last() =~= s@.take(i as int));
        if s[i] < m {
            m = s[i];
        }
        i += 1;
    }
    assert(s@.take(i as int) =~= s@);
    m
}

/// Ascending numbers are at least as large as their index.
proof fn lemma_ascending(s: Seq<u32>, i: int)
    requires
        ascending(s),
        0 <= i < s.len(),
    ensures
        s[i] >= i,
    decreases i,
{
    if i > 0 {
        lemma_ascending(s, i - 1);
        assert(s[i - 1] < s[i]);
    }
}

/// Groups the CPUs by the L3 cache that they share, out of the entries of the
/// CPU directory. `None` if the directory could not be listed, or if it tells
/// of no L3 cache.
pub fn detect_in(cpu_root: Option<&[Option<CpuEntry>]>) -> (r: Option<Topology>)
    ensures
        r is Some == (cpu_root is Some && is_complete(cpu_root->0@) && has_domain(cpu_root->0@)),
        r is Some ==> tells_of(r->0, cpu_root->0@),
{
    let entries = match cpu_root {
        Some(entries) => entries,
        None => return None,
    };
    let mut groups: Vec<(u32, Vec<u32>)> = Vec::new();
    let mut i: usize = 0;
    while i < entries.len()
        invariant
            i <= entries@.len(),
            cpu_root is Some,
            entries == cpu_root->0,
            forall|j: int|
                0 <= j < i ==> (#[trigger] entries@[j]) is Some && entries@[j]->0.name is Some,
            grouped(groups@, entries@.take(i as int)),
        decreases entries@.len() - i,
    {
        proof {
            lemma_in_domain(entries@, i as int);
        }
        let ghost k = i as int;
        let entry = match &entries[i] {
            Some(entry) => entry,
            None => return None,
        };
        let name = match &entry.name {
            Some(name) => name,
            None => return None,
        };
        i += 1;
        let cpu: u32 = match parse_cpu_dir_name(name.as_str()) {
            Some(cpu) => cpu,
            None => continue,
        };
        let shared = match &entry.cache {
            Some(cache) => match read_l3_shared_list(cache) {
                Some(shared) => shared,
                None => continue,
            },
            None => continue,
        };
        if shared.len() == 0 {
            continue;
        }
        let canonical: u32 = smallest_of(&shared);
        insert_member(&mut groups, canonical, cpu, Ghost(entries@), Ghost(k));
    }
    proof {
        assert(entries@.take(i as int) =~= entries@);
        lemma_domains(groups@, entries@);
    }
    if groups.len() == 0 {
        return None;
    }
    let ghost keys = keys_of(groups@);
    let mut shards: Vec<Shard> = Vec::new();
    let n: usize = groups.len();
    let mut j: usize = 0;
    while j < n
        invariant
            j <= n,
            n == groups@.len(),
            keys == keys_of(groups@),
            grouped(groups@, entries@),
            shards@.len() == j,
            forall|k: int|
                0 <= k < j ==> {
                    &&& (#[trigger] shards@[k]).shard_id == k
                    &&& shards@[k].cpus@ == groups@[k].1@
                },
        decreases n - j,
    {
        proof {
            lemma_ascending(keys, j as int);
            assert(keys[j as int] >= j);
        }
        let mut cpus: Vec<u32> = Vec::new();
        cpus.extend_from_slice(&groups[j].1);
        assert(cpus@ =~= groups@[j as int].1@);
        shards.push(Shard { shard_id: j as u32, cpus });
        j += 1;
    }
    assert(shards_of(shards@, entries@, keys)) by {
        assert forall|k: int| 0 <= k < shards@.len() implies {
            &&& (#[trigger] shards@[k]).shard_id == k
            &&& ascending(shards@[k].cpus@)
            &&& forall|cpu: u32| #[trigger]
                shards@[k].cpus@.contains(cpu) == in_domain(entries@, cpu, keys[k])
        } by {
            assert(ascending(groups@[k].1@));
            assert(groups@[k].0 == keys[k]);
        }
    }
    assert(keys.contains(keys[0]));
    let r = Topology { shards };
    assert(shards_of(r.shards@, entries@, keys));
    assert(tells_of(r, entries@));
    Some(r)
}

/// The groups are the domains.
proof fn lemma_domains(groups: Seq<(u32, Vec<u32>)>, entries: Seq<Option<CpuEntry>>)
    requires
        grouped(groups, entries),
    ensures
        forall|canonical: u32| #[trigger]
            keys_of(groups).contains(canonical) == is_domain(entries, canonical),
        (groups.len() > 0) == (exists|canonical: u32| is_domain(entries, canonical)),
{
    let keys = keys_of(groups);
    assert forall|canonical: u32| #[trigger] keys.contains(canonical) == is_domain(
        entries,
        canonical,
    ) by {
        if keys.contains(canonical) {
            let i = choose|i: int| 0 <= i < keys.len() && keys[i] == canonical;
            assert(groups[i].0 == canonical);
            let cpu = groups[i].1@[0];
            assert(groups[i].1@.contains(cpu));
            assert(in_domain(entries, cpu, canonical));
        }
        if is_domain(entries, canonical) {
            let cpu = choose|cpu: u32| in_domain(entries, cpu, canonical);
            assert(in_domain(entries, cpu, canonical));
        }
    }
    if groups.len() > 0 {
        assert(keys.contains(keys[0]));
        assert(is_domain(entries, keys[0]));
    }
    if exists|canonical: u32| is_domain(entries, canonical) {
        let canonical = choose|canonical: u32| is_domain(entries, canonical);
        assert(keys.contains(canonical));
    }
}

impl Topology {
    /// Single shard covering all available CPUs, `available` of them; one
    /// where that is not known. Used as a fallback.
    #[must_use]
    pub fn single(available: Option<usize>) -> (r: Self)
        ensures
            is_single(r, available),
    {
        let n: usize = match available {
            Some(n) => n,
            None => 1,
        };
        let mut cpus: Vec<u32> = Vec::new();
        let mut i: usize = 0;
        while i < n
            invariant
                i <= n,
                cpus@.len() == i,
                forall|j: int|
                    0 <= j < i ==> #[trigger] cpus@[j] == (if j <= u32::MAX {
                        j as u32
                    } else {
                        u32::MAX
                    }),
            decreases n - i,
        {
            let cpu: u32 = if i <= u32::MAX as usize {
                i as u32
            } else {
                u32::MAX
            };
            cpus.push(cpu);
            i += 1;
        }
        let mut shards: Vec<Shard> = Vec::new();
        shards.push(Shard { shard_id: 0, cpus });
        Topology { shards }
    }

    /// Number of shards.
    #[must_use]
    pub fn shard_count(&self) -> (n: usize)
        ensures
            n == self.shards@.len(),
    {
        self.shards.len()
    }
}

/// Discover the L3 topology out of the entries of the CPU directory.
///
/// Returns [`Topology::single`] where the directory is missing or tells of no
/// L3 cache.
#[must_use]
pub fn detect(cpu_root: Option<&[Option<CpuEntry>]>, available: Option<usize>) -> (r: Topology)
    ensures
        if cpu_root is Some && is_complete(cpu_root->0@) && has_domain(cpu_root->0@) {
            tells_of(r, cpu_root->0@)
        } else {
            is_single(r, available)
        },
{
    match detect_in(cpu_root) {
        Some(t) => t,
        None => Topology::single(available),
    }
}

/// CPU `cpu` is one of the shard's.
pub open spec fn has_cpu(shard: Shard, cpu: u32) -> bool {
    shard.cpus@.contains(cpu)
}

/// Every CPU that the entries tell of stands in the shard of its L3 cache,
/// together with every other CPU of that cache.
pub proof fn law_cpus_stand_with_their_cache(
    t: Topology,
    entries: Seq<Option<CpuEntry>>,
    cpu: u32,
    canonical: u32,
)
    requires
        tells_of(t, entries),
        in_domain(entries, cpu, canonical),
    ensures
        exists|i: int|
            0 <= i < t.shards@.len() && #[trigger] has_cpu(t.shards@[i], cpu) && forall|other: u32|
                in_domain(entries, other, canonical) ==> #[trigger] has_cpu(t.shards@[i], other),
{
    let keys = choose|keys: Seq<u32>| shards_of(t.shards@, entries, keys);
    assert(is_domain(entries, canonical));
    assert(keys.contains(canonical));
    let i = choose|i: int| 0 <= i < keys.len() && keys[i] == canonical;
    assert(t.shards@[i].cpus@.contains(cpu));
    assert forall|other: u32| in_domain(entries, other, canonical) implies #[trigger] has_cpu(
        t.shards@[i],
        other,
    ) by {
        assert(t.shards@[i].cpus@.contains(other));
    }
    assert(has_cpu(t.shards@[i], cpu));
}

/// Where the entries tell of L3 caches, there is a shard, and none is without
/// a CPU.
pub proof fn law_shards_are_not_empty(t: Topology, entries: Seq<Option<CpuEntry>>, i: int)
    requires
        tells_of(t, entries),
        has_domain(entries),
    ensures
        t.shards@.len() > 0,
        0 <= i < t.shards@.len() ==> t.shards@[i].cpus@.len() > 0,
{
    let keys = choose|keys: Seq<u32>| shards_of(t.shards@, entries, keys);
    let canonical = choose|canonical: u32| is_domain(entries, canonical);
    assert(keys.contains(canonical));
    if 0 <= i < t.shards@.len() {
        assert(keys.contains(keys[i]));
        assert(is_domain(entries, keys[i]));
        let cpu = choose|cpu: u32| in_domain(entries, cpu, keys[i]);
        assert(t.shards@[i].cpus@.contains(cpu));
    }
}

/// The white space that text is trimmed of: tab to carriage return, space, next
/// line, and the other spaces and separators of Unicode.
pub proof fn law_white_space(c: char)
    ensures
        is_white(c) == ({
            let n = c as u32;
            ||| 9 <= n <= 13
            ||| n == 32
            ||| n == 133
            ||| n == 160
            ||| n == 5760
            ||| 8192 <= n <= 8202
            ||| n == 8232
            ||| n == 8233
            ||| n == 8239
            ||| n == 8287
            ||| n == 12288
        }),
{
}

/// `s` is white space and nothing else.
pub open spec fn all_white(s: Seq<char>) -> bool {
    forall|i: int| 0 <= i < s.len() ==> is_white(#[trigger] s[i])
}

/// Trimming takes away the white space around a text, all of it, and nothing
/// of the text.
pub proof fn law_trimming(before: Seq<char>, text: Seq<char>, behind: Seq<char>)
    requires
        all_white(before),
        all_white(behind),
        text.len() > 0 ==> !is_white(text[0]) && !is_white(text.last()),
    ensures
        trim(before + text + behind) == text,
{
    let s = before + text + behind;
    if text.len() == 0 {
        assert forall|i: int| 0 <= i < s.len() implies is_white(#[trigger] s[i]) by {
            if i < before.len() {
                assert(s[i] == before[i]);
            } else {
                assert(s[i] == behind[i - before.len()]);
            }
        }
        lemma_trim_start(s, s.len() as int);
        assert(s.skip(s.len() as int) =~= text);
        assert(trim_end(text) =~= text);
    } else {
        let n = before.len() as int;
        assert forall|i: int| 0 <= i < n implies is_white(#[trigger] s[i]) by {
            assert(s[i] == before[i]);
        }
        assert(s[n] == text[0]);
        lemma_trim_start(s, n);
        let t = s.skip(n);
        assert(t =~= text + behind);
        let m = text.len() as int;
        assert forall|i: int| m <= i < t.len() implies is_white(#[trigger] t[i]) by {
            assert(t[i] == behind[i - m]);
        }
        assert(t[m - 1] == text.last());
        lemma_trim_end(t, m);
        assert(t.take(m) =~= text);
    }
}

/// Digits, at least one.
pub open spec fn all_digits(s: Seq<char>) -> bool {
    s.len() > 0 && forall|i: int| 0 <= i < s.len() ==> '0' <= #[trigger] s[i] <= '9'
}

/// How digits are read: none denote zero, and one more at the end counts for
/// itself, all before it tenfold.
pub proof fn law_numerals_are_read_in_tens(s: Seq<char>, last: char)
    ensures
        decimal_value(Seq::empty()) == 0,
        decimal_value(s.push(last)) == 10 * decimal_value(s) + (last as int - 48),
{
    assert(s.push(last).drop_last() =~= s);
}

/// `s` is the number `v` in digits, with a plus sign in front or without.
pub open spec fn is_numeral(s: Seq<char>, v: u32) -> bool {
    ||| all_digits(s) && decimal_value(s) == v
    ||| s.len() > 0 && s[0] == '+' && all_digits(s.skip(1)) && decimal_value(s.skip(1)) == v
}

proof fn lemma_numeral(s: Seq<char>)
    ensures
        forall|v: u32| #[trigger] is_numeral(s, v) == (number(s) == Some(v)),
{
    assert(all_digits(s) == is_decimal(s)) by {
        lemma_all_digits(s);
    }
    assert(all_digits(s.skip(1)) == is_decimal(s.skip(1))) by {
        lemma_all_digits(s.skip(1));
    }
    if s.len() > 0 && s[0] == '+' {
        assert(!all_digits(s)) by {
            assert(!('0' <= s[0] <= '9'));
        }
    }
    if is_decimal(s) {
        lemma_decimal_grows(s, 0);
    }
    if is_decimal(s.skip(1)) {
        lemma_decimal_grows(s.skip(1), 0);
    }
}

proof fn lemma_all_digits(s: Seq<char>)
    ensures
        all_digits(s) == is_decimal(s),
{
    if all_digits(s) {
        assert forall|i: int| 0 <= i < s.len() implies is_digit(#[trigger] s[i]) by {
            assert('0' <= s[i] <= '9');
        }
    }
    if is_decimal(s) {
        assert forall|i: int| 0 <= i < s.len() implies '0' <= #[trigger] s[i] <= '9' by {
            assert(is_digit(s[i]));
        }
    }
}

/// A numeral names the CPU of that number, and no other.
pub proof fn law_a_numeral_names_one_cpu(part: Seq<char>, v: u32)
    requires
        is_numeral(part, v),
    ensures
        part_cpus(part) == seq![v],
{
    lemma_numeral(part);
    lemma_no_dash(part, v);
    lemma_run_before(part, '-', part.len() as int);
}

proof fn lemma_no_dash(s: Seq<char>, v: u32)
    requires
        is_numeral(s, v),
    ensures
        s.len() > 0,
        forall|i: int| 0 <= i < s.len() ==> #[trigger] s[i] != '-',
{
    assert forall|i: int| 0 <= i < s.len() implies #[trigger] s[i] != '-' by {
        if all_digits(s) {
            assert('0' <= s[i] <= '9');
        } else if i > 0 {
            assert('0' <= s.skip(1)[i - 1] <= '9');
        }
    }
}

/// Two numerals with a dash between them name the CPUs from the one to the
/// other, both included, in ascending order; none if the first is larger.
pub proof fn law_a_range_names_all_between(a: Seq<char>, lo: u32, b: Seq<char>, hi: u32)
    requires
        is_numeral(a, lo),
        is_numeral(b, hi),
    ensures
        ({
            let cpus = part_cpus(a + seq!['-'] + b);
            &&& cpus.len() == (if lo <= hi {
                hi - lo + 1
            } else {
                0
            })
            &&& forall|i: int| 0 <= i < cpus.len() ==> #[trigger] cpus[i] == lo + i
        }),
{
    let part = a + seq!['-'] + b;
    lemma_numeral(a);
    lemma_numeral(b);
    lemma_no_dash(a, lo);
    assert forall|i: int| 0 <= i < a.len() implies #[trigger] part[i] != '-' by {
        assert(part[i] == a[i]);
    }
    lemma_run_before(part, '-', a.len() as int);
    assert(part.take(a.len() as int) =~= a);
    assert(part.skip(a.len() as int + 1) =~= b);
}

/// Whatever is neither a numeral nor two of them with a dash between names no
/// CPU.
pub proof fn law_anything_else_names_none(part: Seq<char>)
    requires
        forall|v: u32| !#[trigger] is_numeral(part, v),
        forall|n: int, lo: u32, hi: u32|
            0 <= n < part.len() && part[n] == '-' ==> !(#[trigger] is_numeral(part.take(n), lo)
                && #[trigger] is_numeral(part.skip(n + 1), hi)),
    ensures
        part_cpus(part) == Seq::<u32>::empty(),
{
    lemma_numeral(part);
    let n = run_before(part, '-') as int;
    lemma_run_is(part, '-');
    if n < part.len() {
        lemma_numeral(part.take(n));
        lemma_numeral(part.skip(n + 1));
        if number(part.take(n)) is Some && number(part.skip(n + 1)) is Some {
            assert(is_numeral(part.take(n), number(part.take(n))->0));
            assert(is_numeral(part.skip(n + 1), number(part.skip(n + 1))->0));
        }
    } else {
        if let Some(v) = number(part) {
            assert(is_numeral(part, v));
        }
    }
}

proof fn lemma_run_is(s: Seq<char>, c: char)
    ensures
        run_before(s, c) <= s.len(),
        run_before(s, c) < s.len() ==> s[run_before(s, c) as int] == c,
    decreases s.len(),
{
    if s.len() > 0 && s[0] != c {
        let t = s.skip(1);
        lemma_run_is(t, c);
        if run_before(s, c) < s.len() {
            assert(t[run_before(t, c) as int] == s[run_before(s, c) as int]);
        }
    }
}

/// Parts with a comma between each two.
pub open spec fn with_commas(parts: Seq<Seq<char>>) -> Seq<char>
    decreases parts.len(),
{
    if parts.len() == 0 {
        Seq::empty()
    } else if parts.len() == 1 {
        parts[0]
    } else {
        parts[0] + (seq![','] + with_commas(parts.skip(1)))
    }
}

/// What the parts of a list name, one behind the other.
pub open spec fn all_named(parts: Seq<Seq<char>>) -> Seq<u32>
    decreases parts.len(),
{
    if parts.len() == 0 {
        Seq::empty()
    } else {
        part_cpus(trim(parts[0])) + all_named(parts.skip(1))
    }
}

/// No comma stands in `part`.
pub open spec fn is_one_part(part: Seq<char>) -> bool {
    forall|i: int| 0 <= i < part.len() ==> #[trigger] part[i] != ','
}

/// A list is read part by part, and names what its parts name, in their order.
/// White space around a part does not matter.
pub proof fn law_lists_are_read_part_by_part(parts: Seq<Seq<char>>)
    requires
        parts.len() > 0,
        forall|i: int| 0 <= i < parts.len() ==> is_one_part(#[trigger] parts[i]),
    ensures
        cpu_list(with_commas(parts)) == all_named(parts),
{
    lemma_parts_come_apart(parts);
    lemma_all_named(parts, parts.len() as int);
    assert(parts.skip(parts.len() as int) =~= Seq::<Seq<char>>::empty());
    assert(parts_cpus(parts, parts.len() as int) + Seq::<u32>::empty() =~= parts_cpus(
        parts,
        parts.len() as int,
    ));
}

proof fn lemma_parts_come_apart(parts: Seq<Seq<char>>)
    requires
        parts.len() > 0,
        forall|i: int| 0 <= i < parts.len() ==> is_one_part(#[trigger] parts[i]),
    ensures
        between_commas(with_commas(parts)) == parts,
    decreases parts.len(),
{
    let s = with_commas(parts);
    let n = parts[0].len() as int;
    assert(is_one_part(parts[0]));
    assert forall|i: int| 0 <= i < n implies #[trigger] s[i] != ',' by {
        assert(s[i] == parts[0][i]);
    }
    lemma_run_before(s, ',', n);
    if parts.len() == 1 {
        assert(between_commas(s) =~= parts);
    } else {
        let rest = parts.skip(1);
        assert forall|i: int| 0 <= i < rest.len() implies is_one_part(#[trigger] rest[i]) by {
            assert(rest[i] == parts[i + 1]);
        }
        lemma_parts_come_apart(rest);
        assert(s.take(n) =~= parts[0]);
        assert(s.skip(n + 1) =~= with_commas(rest));
        assert(between_commas(s) =~= parts);
    }
}

proof fn lemma_all_named(parts: Seq<Seq<char>>, k: int)
    requires
        0 <= k <= parts.len(),
    ensures
        all_named(parts) == parts_cpus(parts, k) + all_named(parts.skip(k)),
    decreases k,
{
    if k == 0 {
        assert(parts.skip(0) =~= parts);
        assert(Seq::<u32>::empty() + all_named(parts) =~= all_named(parts));
    } else {
        lemma_all_named(parts, k - 1);
        assert(parts.skip(k - 1)[0] == parts[k - 1]);
        assert(parts.skip(k - 1).skip(1) =~= parts.skip(k));
        assert(all_named(parts) =~= parts_cpus(parts, k) + all_named(parts.skip(k)));
    }
}

/// A directory is for the CPU whose number stands behind `cpu` in its name, in
/// digits and nothing else.
pub proof fn law_cpu_directories(d: Seq<char>, name: Seq<char>, v: u32)
    ensures
        all_digits(d) && decimal_value(d) == v ==> cpu_of_dir(seq!['c', 'p', 'u'] + d) == Some(v),
        cpu_of_dir(name) == Some(v) ==> exists|e: Seq<char>|
            name == seq!['c', 'p', 'u'] + e && #[trigger] all_digits(e) && decimal_value(e) == v,
{
    reveal_strlit("cpu");
    assert("cpu"@ =~= seq!['c', 'p', 'u']);
    let made = seq!['c', 'p', 'u'] + d;
    assert(made.subrange(0, 3) =~= "cpu"@);
    assert(made.skip(3) =~= d);
    lemma_all_digits(d);
    if cpu_of_dir(name) == Some(v) {
        let e = name.skip(3);
        assert(name.subrange(0, 3) == "cpu"@);
        assert(name =~= name.subrange(0, 3) + e);
        lemma_all_digits(e);
        lemma_decimal_grows(e, 0);
        assert(all_digits(e));
    }
}

/// A cache entry that can be looked at and does not describe an L3 cache: its
/// name does not begin with `index`, or its level cannot be read or is not `3`.
pub open spec fn is_another_cache(e: Option<CacheEntry>) -> bool {
    &&& e is Some && e->0.name is Some
    &&& {
        ||| e->0.name->0@.len() < 5
        ||| e->0.name->0@.take(5) != seq!['i', 'n', 'd', 'e', 'x']
        ||| e->0.level is None
        ||| trim(e->0.level->0@) != seq!['3']
    }
}

/// It is the first L3 entry of a CPU's cache directory that counts: its list
/// tells the CPUs. Without one, with one whose list cannot be read, or with an
/// entry before it that cannot be looked at, there is no telling.
pub proof fn law_the_first_l3_entry_counts(entries: Seq<Option<CacheEntry>>, k: int)
    requires
        0 <= k <= entries.len(),
        forall|j: int| 0 <= j < k ==> is_another_cache(#[trigger] entries[j]),
        k < entries.len() ==> !is_another_cache(entries[k]),
    ensures
        k == entries.len() ==> l3_shared(entries) is None,
        k < entries.len() && (entries[k] is None || entries[k]->0.name is None) ==> l3_shared(
            entries,
        ) is None,
        k < entries.len() && entries[k] is Some && entries[k]->0.name is Some ==> l3_shared(entries)
            == (match entries[k]->0.shared_cpu_list {
            Some(list) => Some(cpu_list(trim(list@))),
            None => None,
        }),
    decreases k,
{
    reveal_strlit("index");
    reveal_strlit("3");
    assert("index"@ =~= seq!['i', 'n', 'd', 'e', 'x']);
    assert("3"@ =~= seq!['3']);
    if entries.len() > 0 {
        if let Some(e) = entries[0] {
            if let Some(name) = e.name {
                assert("index"@.is_prefix_of(name@) == (name@.len() >= 5 && name@.take(5)
                    == "index"@)) by {
                    if name@.len() >= 5 {
                        assert(name@.take(5) =~= name@.subrange(0, 5));
                    }
                }
            }
        }
    }
    if k > 0 {
        let rest = entries.skip(1);
        assert(is_another_cache(entries[0]));
        assert forall|j: int| 0 <= j < k - 1 implies is_another_cache(#[trigger] rest[j]) by {
            assert(rest[j] == entries[j + 1]);
        }
        if k < entries.len() {
            assert(rest[k - 1] == entries[k]);
        }
        law_the_first_l3_entry_counts(rest, k - 1);
    }
}

/// An entry of the CPU directory tells of a CPU and of the CPUs that it shares
/// its L3 cache with.
pub open spec fn tells(e: Option<CpuEntry>, cpu: u32, shared: Seq<u32>) -> bool {
    &&& e is Some && e->0.name is Some && e->0.cache is Some
    &&& cpu_of_dir(e->0.name->0@) == Some(cpu)
    &&& l3_shared(e->0.cache->0@) == Some(shared)
    &&& shared.len() > 0
}

/// `m` is the least number of the list.
pub open spec fn is_least(list: Seq<u32>, m: u32) -> bool {
    list.contains(m) && forall|x: u32| #[trigger] list.contains(x) ==> m <= x
}

proof fn lemma_smallest(s: Seq<u32>)
    requires
        s.len() > 0,
    ensures
        is_least(s, smallest(s)),
    decreases s.len(),
{
    if s.len() == 1 {
        assert(s.contains(s[0]));
    } else {
        let init = s.drop_last();
        lemma_smallest(init);
        assert(s[s.len() - 1] == s.last());
        let j = choose|j: int| 0 <= j < init.len() && init[j] == smallest(init);
        assert(s[j] == smallest(init));
        assert forall|x: u32| #[trigger] s.contains(x) implies smallest(s) <= x by {
            let i = choose|i: int| 0 <= i < s.len() && s[i] == x;
            if i < init.len() {
                assert(init[i] == x);
                assert(init.contains(x));
            }
        }
    }
}

/// What an entry adds is the CPU that it tells of, under the least of those
/// that it shares its cache with.
proof fn lemma_member(e: Option<CpuEntry>, cpu: u32, canonical: u32)
    requires
        e is Some,
    ensures
        (member(e->0) == Some(Member { cpu, canonical })) == (exists|shared: Seq<u32>| #[trigger]
            tells(e, cpu, shared) && is_least(shared, canonical)),
{
    if member(e->0) == Some(Member { cpu, canonical }) {
        let shared = l3_shared(e->0.cache->0@)->0;
        lemma_smallest(shared);
        assert(tells(e, cpu, shared));
    }
    if exists|shared: Seq<u32>| #[trigger] tells(e, cpu, shared) && is_least(shared, canonical) {
        let shared = choose|shared: Seq<u32>| #[trigger]
            tells(e, cpu, shared) && is_least(shared, canonical);
        lemma_smallest(shared);
        assert(shared.contains(canonical) && shared.contains(smallest(shared)));
    }
}

/// Some entry tells that `cpu` shares its L3 cache with CPUs of which `m` is
/// the least.
pub open spec fn shares_with(entries: Seq<Option<CpuEntry>>, cpu: u32, m: u32) -> bool {
    exists|k: int, shared: Seq<u32>|
        0 <= k < entries.len() && #[trigger] tells(entries[k], cpu, shared) && is_least(shared, m)
}

proof fn lemma_shares_with(entries: Seq<Option<CpuEntry>>, cpu: u32, m: u32)
    requires
        is_complete(entries),
    ensures
        in_domain(entries, cpu, m) == shares_with(entries, cpu, m),
{
    if in_domain(entries, cpu, m) {
        let k = choose|k: int|
            0 <= k < entries.len() && #[trigger] member(entries[k]->0) == Some(
                Member { cpu, canonical: m },
            );
        lemma_member(entries[k], cpu, m);
        let shared = choose|shared: Seq<u32>| #[trigger]
            tells(entries[k], cpu, shared) && is_least(shared, m);
        assert(tells(entries[k], cpu, shared));
    }
    if shares_with(entries, cpu, m) {
        let (k, shared) = choose|k: int, shared: Seq<u32>|
            0 <= k < entries.len() && #[trigger] tells(entries[k], cpu, shared) && is_least(
                shared,
                m,
            );
        assert(tells(entries[k], cpu, shared));
        lemma_member(entries[k], cpu, m);
        assert(member(entries[k]->0) == Some(Member { cpu, canonical: m }));
    }
}

/// The shards are the L3 caches. There is one for each number that is the least
/// of the CPUs that share one, in ascending order of those numbers, `leasts`,
/// numbered from zero on. It holds exactly the CPUs that share a cache with
/// that least one, in ascending order, each once.
pub proof fn law_shards_are_the_caches(t: Topology, entries: Seq<Option<CpuEntry>>) -> (leasts: Seq<
    u32,
>)
    requires
        is_complete(entries),
        tells_of(t, entries),
    ensures
        leasts.len() == t.shards@.len(),
        forall|i: int, j: int| 0 <= i < j < leasts.len() ==> leasts[i] < leasts[j],
        forall|m: u32| #[trigger]
            leasts.contains(m) <==> exists|cpu: u32| shares_with(entries, cpu, m),
        forall|i: int| 0 <= i < t.shards@.len() ==> (#[trigger] t.shards@[i]).shard_id == i,
        forall|i: int, cpu: u32|
            0 <= i < t.shards@.len() ==> (#[trigger] has_cpu(t.shards@[i], cpu) <==> shares_with(
                entries,
                cpu,
                leasts[i],
            )),
        forall|i: int, a: int, b: int|
            0 <= i < t.shards@.len() && 0 <= a < b < t.shards@[i].cpus@.len()
                ==> #[trigger] t.shards@[i].cpus@[a] < #[trigger] t.shards@[i].cpus@[b],
{
    let keys = choose|keys: Seq<u32>| shards_of(t.shards@, entries, keys);
    assert(shards_of(t.shards@, entries, keys));
    assert forall|m: u32| #[trigger] keys.contains(m) <==> exists|cpu: u32|
        shares_with(entries, cpu, m) by {
        if keys.contains(m) {
            assert(is_domain(entries, m));
            let cpu = choose|cpu: u32| in_domain(entries, cpu, m);
            lemma_shares_with(entries, cpu, m);
            assert(shares_with(entries, cpu, m));
        }
        if exists|cpu: u32| shares_with(entries, cpu, m) {
            let cpu = choose|cpu: u32| shares_with(entries, cpu, m);
            lemma_shares_with(entries, cpu, m);
            assert(in_domain(entries, cpu, m));
            assert(is_domain(entries, m));
        }
    }
    assert forall|i: int, cpu: u32| 0 <= i < t.shards@.len() implies (#[trigger] has_cpu(
        t.shards@[i],
        cpu,
    ) <==> shares_with(entries, cpu, keys[i])) by {
        lemma_shares_with(entries, cpu, keys[i]);
        assert(t.shards@[i].cpus@.contains(cpu) == in_domain(entries, cpu, keys[i]));
    }
    assert forall|i: int, a: int, b: int|
        0 <= i < t.shards@.len() && 0 <= a < b < t.shards@[i].cpus@.len() implies
        #[trigger] t.shards@[i].cpus@[a] < #[trigger] t.shards@[i].cpus@[b] by {
        assert(ascending(t.shards@[i].cpus@));
    }
    keys
}

/// Two CPUs that share their L3 cache with the same CPUs stand in one shard,
/// however many these are and in whatever order they are listed.
pub proof fn law_one_cache_is_one_shard(
    t: Topology,
    entries: Seq<Option<CpuEntry>>,
    i: int,
    a: u32,
    with_a: Seq<u32>,
    j: int,
    b: u32,
    with_b: Seq<u32>,
)
    requires
        is_complete(entries),
        tells_of(t, entries),
        0 <= i < entries.len(),
        0 <= j < entries.len(),
        tells(entries[i], a, with_a),
        tells(entries[j], b, with_b),
        forall|x: u32| with_a.contains(x) <==> with_b.contains(x),
    ensures
        exists|s: int|
            0 <= s < t.shards@.len() && #[trigger] has_cpu(t.shards@[s], a) && has_cpu(
                t.shards@[s],
                b,
            ),
{
    let leasts = law_shards_are_the_caches(t, entries);
    lemma_smallest(with_a);
    let m = smallest(with_a);
    assert(with_a.contains(m));
    assert(is_least(with_b, m)) by {
        assert forall|x: u32| #[trigger] with_b.contains(x) implies m <= x by {
            assert(with_a.contains(x));
        }
    }
    assert(shares_with(entries, a, m));
    assert(shares_with(entries, b, m));
    assert(leasts.contains(m));
    let s = choose|s: int| 0 <= s < leasts.len() && leasts[s] == m;
    assert(has_cpu(t.shards@[s], a));
    assert(has_cpu(t.shards@[s], b));
}

/// Two CPUs whose L3 caches have different least CPUs stand in no shard
/// together, where no other entry tells of either of them.
pub proof fn law_two_caches_are_two_shards(
    t: Topology,
    entries: Seq<Option<CpuEntry>>,
    a: u32,
    with_a: Seq<u32>,
    least_a: u32,
    b: u32,
    with_b: Seq<u32>,
    least_b: u32,
    s: int,
)
    requires
        is_complete(entries),
        tells_of(t, entries),
        forall|k: int, shared: Seq<u32>|
            0 <= k < entries.len() && #[trigger] tells(entries[k], a, shared) ==> shared == with_a,
        forall|k: int, shared: Seq<u32>|
            0 <= k < entries.len() && #[trigger] tells(entries[k], b, shared) ==> shared == with_b,
        is_least(with_a, least_a),
        is_least(with_b, least_b),
        least_a != least_b,
        0 <= s < t.shards@.len(),
    ensures
        !(has_cpu(t.shards@[s], a) && has_cpu(t.shards@[s], b)),
{
    let leasts = law_shards_are_the_caches(t, entries);
    let m = leasts[s];
    if has_cpu(t.shards@[s], a) && has_cpu(t.shards@[s], b) {
        assert(shares_with(entries, a, m) && shares_with(entries, b, m));
        let (k, x) = choose|k: int, shared: Seq<u32>|
            0 <= k < entries.len() && #[trigger] tells(entries[k], a, shared) && is_least(
                shared,
                m,
            );
        assert(tells(entries[k], a, x));
        let (l, y) = choose|k: int, shared: Seq<u32>|
            0 <= k < entries.len() && #[trigger] tells(entries[k], b, shared) && is_least(
                shared,
                m,
            );
        assert(tells(entries[l], b, y));
        assert(with_a.contains(m) && with_a.contains(least_a));
        assert(with_b.contains(m) && with_b.contains(least_b));
    }
}

/// There is a topology to tell of exactly where some entry tells of a CPU and
/// of its L3 cache.
pub proof fn law_when_there_is_a_topology(entries: Seq<Option<CpuEntry>>)
    requires
        is_complete(entries),
    ensures
        has_domain(entries) == (exists|k: int, cpu: u32, shared: Seq<u32>|
            0 <= k < entries.len() && #[trigger] tells(entries[k], cpu, shared)),
        forall|i: int|
            0 <= i < entries.len() ==> (#[trigger] entries[i]) is Some && entries[i]->0.name is Some,
{
    if has_domain(entries) {
        let m = choose|m: u32| is_domain(entries, m);
        let cpu = choose|cpu: u32| in_domain(entries, cpu, m);
        lemma_shares_with(entries, cpu, m);
        let (k, shared) = choose|k: int, shared: Seq<u32>|
            0 <= k < entries.len() && #[trigger] tells(entries[k], cpu, shared) && is_least(
                shared,
                m,
            );
        assert(tells(entries[k], cpu, shared));
    }
    if exists|k: int, cpu: u32, shared: Seq<u32>|
        0 <= k < entries.len() && #[trigger] tells(entries[k], cpu, shared) {
        let (k, cpu, shared) = choose|k: int, cpu: u32, shared: Seq<u32>|
            0 <= k < entries.len() && #[trigger] tells(entries[k], cpu, shared);
        lemma_smallest(shared);
        assert(shares_with(entries, cpu, smallest(shared)));
        lemma_shares_with(entries, cpu, smallest(shared));
        assert(is_domain(entries, smallest(shared)));
    }
}

/// A topology is incomplete where an entry could not be read or its name is not
/// valid Unicode, and only there.
pub proof fn law_when_a_directory_is_complete(entries: Seq<Option<CpuEntry>>, i: int)
    ensures
        !is_complete(entries) ==> exists|k: int|
            0 <= k < entries.len() && ((#[trigger] entries[k]) is None || entries[k]->0.name is None),
        0 <= i < entries.len() && (entries[i] is None || entries[i]->0.name is None)
            ==> !is_complete(entries),
{
}

/// The fallback is one shard, with the number zero, of the CPUs from zero on,
/// as many as there are; one where that is not known.
pub proof fn law_the_fallback_has_every_cpu(t: Topology, available: Option<usize>, i: int)
    requires
        is_single(t, available),
    ensures
        t.shards@.len() == 1,
        t.shards@[0].shard_id == 0,
        available matches Some(n) ==> t.shards@[0].cpus@.len() == n,
        available is None ==> t.shards@[0].cpus@.len() == 1,
        0 <= i < t.shards@[0].cpus@.len() && i <= u32::MAX ==> t.shards@[0].cpus@[i] == i,
{
}

} // verus!
