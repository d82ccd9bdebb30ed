//! The option table: 38 `i64` options in the ABI index order of mimalloc
//! v2.4.5 (deprecated slots included), their compiled-in defaults, the
//! grammar of an option value read from the environment, and the error line
//! rendered without a formatter.

use vstd::prelude::*;
use vstd::string::StringSliceAdditionalSpecFns;

verus! {

/// Number of options.
pub const OPTION_COUNT: usize = 38;

/// Index of `generic_collect`: trips of the allocator's generic path
/// between automatic collects.
pub const GENERIC_COLLECT: usize = 36;

/// Default trips of the generic path between automatic collects.
pub const GENERIC_COLLECT_DEFAULT: i64 = 10000;

/// Index of `reserve_os_memory` (KiB).
pub const RESERVE_OS_MEMORY: usize = 9;

/// Index of `arena_reserve` (KiB).
pub const ARENA_RESERVE: usize = 23;

/// Index of `purge_decommits`: purging decommits rather than resets.
pub const PURGE_DECOMMITS: usize = 5;

/// Index of `purge_delay`: negative turns purging of free spans off.
pub const PURGE_DELAY: usize = 15;

/// Index of `disallow_arena_alloc`: unrestricted requests never use arenas.
pub const DISALLOW_ARENA_ALLOC: usize = 27;

/// Option names in ABI index order (also the environment suffixes,
/// uppercased).
pub const OPTION_NAMES: [&'static str; 38] = [
    "show_errors",
    "show_stats",
    "verbose",
    "eager_commit",
    "arena_eager_commit",
    "purge_decommits",
    "allow_large_os_pages",
    "reserve_huge_os_pages",
    "reserve_huge_os_pages_at",
    "reserve_os_memory",
    "deprecated_segment_cache",
    "deprecated_page_reset",
    "abandoned_page_purge",
    "deprecated_segment_reset",
    "eager_commit_delay",
    "purge_delay",
    "use_numa_nodes",
    "disallow_os_alloc",
    "os_tag",
    "max_errors",
    "max_warnings",
    "max_segment_reclaim",
    "destroy_on_exit",
    "arena_reserve",
    "arena_purge_mult",
    "purge_extend_delay",
    "abandoned_reclaim_on_free",
    "disallow_arena_alloc",
    "retry_on_oom",
    "visit_abandoned",
    "guarded_min",
    "guarded_max",
    "guarded_precise",
    "guarded_sample_rate",
    "guarded_sample_seed",
    "target_segments_per_thread",
    "generic_collect",
    "allow_thp",
];

/// The compiled-in defaults, in index order.
pub const DEFAULTS: [i64; 38] = [
    0, 0, 0, 1, 2, 1, 0, 0, -1, 0,
    0, 0, 1, 0, 1, -1, 0, 0, 100, 32,
    32, 10, 0, 1048576, 10, 1, 1, 0, 400, 0,
    0, 0, 0, 1000, 0, 0, 10000, 1,
];

/// The default of `option` (0 past the table).
pub open spec fn spec_default(option: int) -> i64 {
    if 0 <= option < OPTION_COUNT { DEFAULTS@[option] } else { 0 }
}

/// An ASCII whitespace byte: tab, line feed, vertical tab, form feed,
/// carriage return or space.
pub open spec fn is_ascii_ws(c: u8) -> bool {
    c == 0x20 || (0x09 <= c && c <= 0x0d)
}

/// A three-byte whitespace character: U+1680, U+2000..U+200A, U+2028,
/// U+2029, U+202F, U+205F or U+3000.
pub open spec fn ws3(x: u8, y: u8, z: u8) -> bool {
    (x == 0xE1 && y == 0x9A && z == 0x80)
    || (x == 0xE2 && y == 0x80 && ((0x80 <= z && z <= 0x8A) || z == 0xA8 || z == 0xA9 || z == 0xAF))
    || (x == 0xE2 && y == 0x81 && z == 0x9F)
    || (x == 0xE3 && y == 0x80 && z == 0x80)
}

/// The UTF-8 length of the whitespace character starting at `i` in `b`, 0
/// when none does (the ASCII ones, U+0085, U+00A0, and the three-byte ones).
pub open spec fn ws_len_at(b: Seq<u8>, i: int) -> int {
    if 0 <= i < b.len() && is_ascii_ws(b[i]) {
        1
    } else if 0 <= i && i + 1 < b.len() && b[i] == 0xC2 && (b[i + 1] == 0x85 || b[i + 1] == 0xA0) {
        2
    } else if 0 <= i && i + 2 < b.len() && ws3(b[i], b[i + 1], b[i + 2]) {
        3
    } else {
        0
    }
}

/// The UTF-8 length of the whitespace character ending at `j` in `b`, 0 when
/// none does.
pub open spec fn ws_len_before(b: Seq<u8>, j: int) -> int {
    if 1 <= j <= b.len() && is_ascii_ws(b[j - 1]) {
        1
    } else if 2 <= j <= b.len() && b[j - 2] == 0xC2 && (b[j - 1] == 0x85 || b[j - 1] == 0xA0) {
        2
    } else if 3 <= j <= b.len() && ws3(b[j - 3], b[j - 2], b[j - 1]) {
        3
    } else {
        0
    }
}

/// Bytes of leading whitespace in `b`.
pub open spec fn lead_ws(b: Seq<u8>) -> int
    decreases b.len(),
{
    let k = ws_len_at(b, 0);
    if k > 0 { k + lead_ws(b.skip(k)) } else { 0 }
}

/// Bytes of trailing whitespace in `b`.
pub open spec fn trail_ws(b: Seq<u8>) -> int
    decreases b.len(),
{
    let k = ws_len_before(b, b.len() as int);
    if k > 0 { k + trail_ws(b.take(b.len() - k)) } else { 0 }
}

/// `b` without leading and trailing whitespace (`str::trim`).
pub open spec fn spec_trim(b: Seq<u8>) -> Seq<u8> {
    let s = b.skip(lead_ws(b));
    s.take(s.len() - trail_ws(s))
}

/// An ASCII letter lowered, any other byte kept.
pub open spec fn lower(c: u8) -> u8 {
    if 0x41 <= c && c <= 0x5a { (c + 0x20) as u8 } else { c }
}

/// The decimal value of the digit string `d`.
pub open spec fn digits_value(d: Seq<u8>) -> int
    decreases d.len(),
{
    if d.len() == 0 { 0 } else { digits_value(d.drop_last()) * 10 + (d.last() - 0x30) }
}

/// Every byte of `d` is an ASCII digit.
pub open spec fn all_digits(d: Seq<u8>) -> bool {
    forall|i: int| 0 <= i < d.len() ==> 0x30 <= #[trigger] d[i] && d[i] <= 0x39
}

/// `str::parse::<i64>` on bytes: an optional sign, then one or more digits
/// whose value fits `i64`.
pub open spec fn spec_parse_i64(t: Seq<u8>) -> Option<i64> {
    let neg = t.len() > 0 && t[0] == 0x2d;
    let signed = t.len() > 0 && (t[0] == 0x2d || t[0] == 0x2b);
    let d = if signed { t.skip(1) } else { t };
    let v = if neg { -digits_value(d) } else { digits_value(d) };
    if d.len() > 0 && all_digits(d) && i64::MIN <= v <= i64::MAX { Some(v as i64) } else { None }
}

/// The value an environment string stands for: whitespace trimmed and ASCII
/// lowered, then `""`, `1`, `true`, `yes`, `on` mean 1; `0`, `false`, `no`,
/// `off` mean 0; anything else is a signed decimal `i64`, or nothing.
pub open spec fn spec_parse_value(raw: Seq<u8>) -> Option<i64> {
    let t = spec_trim(raw).map_values(|c: u8| lower(c));
    if t =~= Seq::<u8>::empty() || t =~= seq![0x31u8] || t =~= seq![0x74u8, 0x72u8, 0x75u8, 0x65u8]
        || t =~= seq![0x79u8, 0x65u8, 0x73u8] || t =~= seq![0x6fu8, 0x6eu8] {
        Some(1)
    } else if t =~= seq![0x30u8] || t =~= seq![0x66u8, 0x61u8, 0x6cu8, 0x73u8, 0x65u8]
        || t =~= seq![0x6eu8, 0x6fu8] || t =~= seq![0x6fu8, 0x66u8, 0x66u8] {
        Some(0)
    } else {
        spec_parse_i64(t)
    }
}

/// Length of the whitespace character at `i` ([`ws_len_at`]).
fn ws_at(b: &[u8], i: usize) -> (k: usize)
    ensures
        k == ws_len_at(b@, i as int),
{
    let n = b.len();
    if i < n && (b[i] == 0x20 || (0x09 <= b[i] && b[i] <= 0x0d)) {
        1
    } else if i < n && n - i > 1 && b[i] == 0xC2 && (b[i + 1] == 0x85 || b[i + 1] == 0xA0) {
        2
    } else if i < n && n - i > 2 && is_ws3(b[i], b[i + 1], b[i + 2]) {
        3
    } else {
        0
    }
}

/// [`ws3`], executable.
fn is_ws3(x: u8, y: u8, z: u8) -> (r: bool)
    ensures
        r == ws3(x, y, z),
{
    (x == 0xE1 && y == 0x9A && z == 0x80)
    || (x == 0xE2 && y == 0x80 && ((0x80 <= z && z <= 0x8A) || z == 0xA8 || z == 0xA9 || z == 0xAF))
    || (x == 0xE2 && y == 0x81 && z == 0x9F)
    || (x == 0xE3 && y == 0x80 && z == 0x80)
}

/// Length of the whitespace character ending at `j` in `b[lo..]`
/// ([`ws_len_before`]).
fn ws_before(b: &[u8], lo: usize, j: usize) -> (k: usize)
    requires
        lo <= j <= b@.len(),
    ensures
        k == ws_len_before(b@.subrange(lo as int, j as int), (j - lo) as int),
{
    let m = j - lo;
    if m >= 1 && (b[j - 1] == 0x20 || (0x09 <= b[j - 1] && b[j - 1] <= 0x0d)) {
        1
    } else if m >= 2 && b[j - 2] == 0xC2 && (b[j - 1] == 0x85 || b[j - 1] == 0xA0) {
        2
    } else if m >= 3 && is_ws3(b[j - 3], b[j - 2], b[j - 1]) {
        3
    } else {
        0
    }
}

/// A prefix of a digit string is worth no more than the whole.
proof fn lemma_digits_prefix(d: Seq<u8>, k: int)
    requires
        all_digits(d),
        0 <= k <= d.len(),
    ensures
        0 <= digits_value(d.take(k)) <= digits_value(d),
    decreases d.len(),
{
    if d.len() > 0 {
        let dl = d.drop_last();
        assert(all_digits(dl)) by {
            assert forall|i: int| 0 <= i < dl.len() implies 0x30 <= #[trigger] dl[i] && dl[i] <= 0x39 by {
                assert(dl[i] == d[i]);
            }
        }
        assert(0x30 <= d[d.len() - 1] <= 0x39);
        if k == d.len() {
            assert(d.take(k) =~= d);
            lemma_digits_prefix(dl, dl.len() as int);
            assert(dl.take(dl.len() as int) =~= dl);
        } else {
            assert(d.take(k) =~= dl.take(k));
            lemma_digits_prefix(dl, k);
            lemma_digits_prefix(dl, dl.len() as int);
            assert(dl.take(dl.len() as int) =~= dl);
        }
    }
}

/// Parse a signed decimal `i64` from `t` ([`spec_parse_i64`]).
fn parse_i64(t: &Vec<u8>) -> (r: Option<i64>)
    ensures
        r == spec_parse_i64(t@),
{
    let n = t.len();
    let neg = n > 0 && t[0] == 0x2d;
    let start: usize = if n > 0 && (t[0] == 0x2d || t[0] == 0x2b) { 1 } else { 0 };
    let ghost d = if start == 1 { t@.skip(1) } else { t@ };
    proof {
        assert(d =~= t@.subrange(start as int, n as int));
    }
    if start == n {
        return None;
    }
    let limit: u128 = 0x8000_0000_0000_0000;
    let mut acc: u128 = 0;
    let mut p = start;
    while p < n
        invariant
            start <= p <= n,
            n == t@.len(),
            start == (if n > 0 && (t@[0] == 0x2d || t@[0] == 0x2b) { 1usize } else { 0usize }),
            neg == (n > 0 && t@[0] == 0x2d),
            d == (if start == 1 { t@.skip(1) } else { t@ }),
            d == t@.subrange(start as int, n as int),
            all_digits(d.take(p - start)),
            acc == digits_value(d.take(p - start)),
            limit == 0x8000_0000_0000_0000u128,
            acc <= limit,
        decreases n - p,
    {
        let c = t[p];
        if c < 0x30 || c > 0x39 {
            proof {
                assert(d[p - start] == c);
                assert(!all_digits(d));
            }
            return None;
        }
        let ghost q = d.take(p - start + 1);
        proof {
            assert(q.drop_last() =~= d.take(p - start));
            assert(q.last() == c);
            assert(all_digits(q)) by {
                assert forall|i: int| 0 <= i < q.len() implies 0x30 <= #[trigger] q[i] && q[i] <= 0x39 by {
                    if i < q.len() - 1 {
                        assert(q[i] == d.take(p - start)[i]);
                    }
                }
            }
        }
        acc = acc * 10 + (c - 0x30) as u128;
        p = p + 1;
        if acc > limit {
            proof {
                assert(acc == digits_value(q));
                assert(d.take(p - start) =~= q);
                assert forall|i: int| 0 <= i < d.len() implies 0x30 <= #[trigger] d[i] && d[i] <= 0x39 || !all_digits(d) by {}
                if all_digits(d) {
                    lemma_digits_prefix(d, p - start);
                }
            }
            return None;
        }
    }
    proof {
        assert(d.take(n - start) =~= d);
    }
    if neg {
        Some((0i128 - acc as i128) as i64)
    } else if acc < limit {
        Some(acc as i64)
    } else {
        None
    }
}

/// Whether `t` spells exactly `w`.
fn is_word(t: &Vec<u8>, w: &[u8]) -> (r: bool)
    ensures
        r == (t@ =~= w@),
{
    if t.len() != w.len() {
        return false;
    }
    let mut i: usize = 0;
    while i < t.len()
        invariant
            t@.len() == w@.len(),
            i <= t@.len(),
            forall|j: int| 0 <= j < i ==> t@[j] == w@[j],
        decreases t@.len() - i,
    {
        if t[i] != w[i] {
            return false;
        }
        i = i + 1;
    }
    true
}

/// The value an environment string stands for ([`spec_parse_value`]):
/// booleans as 1/0, sizes and counts as signed decimals.
#[verifier::rlimit(40)]
pub fn parse_value(s: &str) -> (r: Option<i64>)
    ensures
        r == spec_parse_value(s.spec_bytes()),
{
    let b = s.as_bytes();
    let n = b.len();
    let mut i: usize = 0;
    let ghost bs = b@;
    proof {
        assert(bs.skip(0) =~= bs);
    }
    while i < n
        invariant
            bs == b@,
            n == bs.len(),
            i <= n,
            lead_ws(bs) == i + lead_ws(bs.skip(i as int)),
        ensures
            i <= n,
            lead_ws(bs) == i + lead_ws(bs.skip(i as int)),
            lead_ws(bs.skip(i as int)) == 0,
        decreases n - i,
    {
        let k = ws_at(b, i);
        proof {
            assert(ws_len_at(bs.skip(i as int), 0) == k);
        }
        if k == 0 {
            break;
        }
        proof {
            assert(bs.skip(i as int).skip(k as int) =~= bs.skip(i + k));
        }
        i = i + k;
    }
    let ghost sk = bs.skip(i as int);
    let mut j: usize = n;
    proof {
        assert(sk.take(n - i) =~= sk);
    }
    while j > i
        invariant
            bs == b@,
            n == bs.len(),
            i <= j <= n,
            sk == bs.skip(i as int),
            trail_ws(sk) == (n - j) + trail_ws(sk.take(j - i)),
        ensures
            i <= j <= n,
            trail_ws(sk) == (n - j) + trail_ws(sk.take(j - i)),
            trail_ws(sk.take(j - i)) == 0,
        decreases j - i,
    {
        let k = ws_before(b, i, j);
        proof {
            assert(sk.take(j - i) =~= bs.subrange(i as int, j as int));
        }
        if k == 0 {
            break;
        }
        proof {
            assert(sk.take(j - i).take(j - i - k) =~= sk.take(j - k - i));
        }
        j = j - k;
    }
    let mut t: Vec<u8> = Vec::new();
    let mut p = i;
    while p < j
        invariant
            bs == b@,
            i <= p <= j <= n,
            n == bs.len(),
            t@ =~= bs.subrange(i as int, p as int).map_values(|c: u8| lower(c)),
        decreases j - p,
    {
        let c = b[p];
        let l = if 0x41 <= c && c <= 0x5a { c + 0x20 } else { c };
        t.push(l);
        p = p + 1;
        proof {
            assert(t@ =~= bs.subrange(i as int, p as int).map_values(|c: u8| lower(c)));
        }
    }
    proof {
        assert(spec_trim(bs) =~= bs.subrange(i as int, j as int));
    }
    if is_word(&t, &[]) || is_word(&t, &[0x31]) || is_word(&t, &[0x74, 0x72, 0x75, 0x65])
        || is_word(&t, &[0x79, 0x65, 0x73]) || is_word(&t, &[0x6f, 0x6e]) {
        Some(1)
    } else if is_word(&t, &[0x30]) || is_word(&t, &[0x66, 0x61, 0x6c, 0x73, 0x65])
        || is_word(&t, &[0x6e, 0x6f]) || is_word(&t, &[0x6f, 0x66, 0x66]) {
        Some(0)
    } else {
        parse_i64(&t)
    }
}

/// The bytes of `"rusty_alloc: error "`.
pub const ERROR_PREFIX: [u8; 19] = [
    0x72, 0x75, 0x73, 0x74, 0x79, 0x5f, 0x61, 0x6c, 0x6c, 0x6f, 0x63, 0x3a, 0x20,
    0x65, 0x72, 0x72, 0x6f, 0x72, 0x20,
];

/// The decimal digits of `v`, most significant first (`"0"` for 0).
pub open spec fn decimal(v: nat) -> Seq<u8>
    decreases v,
{
    if v < 10 { seq![(0x30 + v) as u8] } else { decimal(v / 10).push((0x30 + v % 10) as u8) }
}

/// The first `d` bytes of `s`, last first.
pub open spec fn rev_prefix(s: Seq<u8>, d: int) -> Seq<u8> {
    Seq::new(d as nat, |i: int| s[d - 1 - i])
}

/// The error line for `err`: the prefix, a minus sign for a negative code,
/// the decimal magnitude and a newline.
pub open spec fn spec_error_line(err: int) -> Seq<u8> {
    ERROR_PREFIX@ + (if err < 0 { seq![0x2du8] } else { Seq::empty() })
        + decimal((if err < 0 { -err } else { err }) as nat) + seq![0x0au8]
}

/// `10^k`.
pub open spec fn p10(k: nat) -> int
    decreases k,
{
    if k == 0 { 1 } else { 10 * p10((k - 1) as nat) }
}

/// A number below `10^k` has at most `k` digits, every one ASCII.
proof fn lemma_decimal_len(v: nat, k: nat)
    requires
        k >= 1,
        v < p10(k),
    ensures
        1 <= decimal(v).len() <= k,
        forall|i: int| 0 <= i < decimal(v).len() ==> #[trigger] decimal(v)[i] < 0x80,
    decreases v,
{
    if v >= 10 {
        assert(k >= 2) by {
            if k == 1 {
                assert(p10(1) == 10 * p10(0));
            }
        }
        assert(v / 10 < p10((k - 1) as nat));
        lemma_decimal_len(v / 10, (k - 1) as nat);
    }
}

/// `10^10`.
proof fn lemma_p10_10()
    ensures
        p10(10) == 10_000_000_000,
{
    reveal_with_fuel(p10, 11);
}

/// ASCII bytes are valid UTF-8.
proof fn lemma_ascii_utf8(b: Seq<u8>)
    requires
        forall|i: int| 0 <= i < b.len() ==> #[trigger] b[i] < 0x80,
    ensures
        vstd::utf8::valid_utf8(b),
{
    assert(b.subrange(0, 0) =~= Seq::<u8>::empty());
    assert(vstd::utf8::partial_valid_utf8(b, 0));
    vstd::utf8::partial_valid_utf8_extend_ascii_block(b, 0, b.len() as int);
    assert(b.subrange(0, b.len() as int) =~= b);
}

/// `core::str::from_utf8` on the first `n` bytes of `buf`: the string they
/// spell when they are valid UTF-8, nothing otherwise.
#[verifier::external_body]
fn utf8_prefix<'a>(buf: &'a [u8; 32], n: usize) -> (r: Option<&'a str>)
    requires
        n <= 32,
    ensures
        r is Some <==> vstd::utf8::valid_utf8(buf@.take(n as int)),
        r matches Some(s) ==> s.spec_bytes() == buf@.take(n as int),
{
    core::str::from_utf8(&buf[..n]).ok()
}

/// `"rusty_alloc: error <n>\n"` into `buf`, without a formatter; the
/// magnitude of `i32::MIN` is taken without negating it.
pub fn render_error<'a>(buf: &'a mut [u8; 32], err: i32) -> (s: &'a str)
    ensures
        s.spec_bytes() == spec_error_line(err as int),
{
    let mut n: usize = 0;
    while n < 19
        invariant
            n <= 19,
            forall|j: int| 0 <= j < n ==> buf@[j] == ERROR_PREFIX@[j],
        decreases 19 - n,
    {
        buf[n] = ERROR_PREFIX[n];
        n = n + 1;
    }
    if err < 0 {
        buf[n] = 0x2d;
        n = n + 1;
    }
    let ghost head = buf@.take(n as int);
    let u: u32 = if err < 0 { (0i64 - err as i64) as u32 } else { err as u32 };
    let ghost un = u as nat;
    let mut v = u;
    let mut digits = [0u8; 10];
    let mut d: usize = 0;
    proof {
        lemma_p10_10();
        lemma_decimal_len(un, 10);
        assert(head =~= ERROR_PREFIX@ + (if err < 0 { seq![0x2du8] } else { Seq::<u8>::empty() }));
    }
    loop
        invariant_except_break
            d > 0 ==> v > 0,
        invariant
            d <= 10,
            v <= un,
            un < 10_000_000_000,
            p10(10) == 10_000_000_000,
            d == 0 ==> v == un,
            (v > 0 || d == 0) ==> decimal(un) == decimal(v as nat) + rev_prefix(digits@, d as int),
            (v == 0 && d > 0) ==> decimal(un) == rev_prefix(digits@, d as int),
            decimal(un).len() <= 10,
            (v > 0 || d == 0) ==> d + decimal(v as nat).len() == decimal(un).len(),
            forall|j: int| 0 <= j < d ==> #[trigger] digits@[j] < 0x80,
        ensures
            d <= 10,
            decimal(un) == rev_prefix(digits@, d as int),
            forall|j: int| 0 <= j < d ==> #[trigger] digits@[j] < 0x80,
        decreases v,
    {
        proof {
            lemma_decimal_len(v as nat, 10);
        }
        let dig = (v % 10) as u8 + 0x30;
        let ghost old_digits = digits@;
        digits[d] = dig;
        d = d + 1;
        let ghost old_v = v;
        v = v / 10;
        proof {
            if old_v >= 10 {
                assert(digits@ == old_digits.update(d - 1, dig));
                assert(decimal(old_v as nat) == decimal(v as nat).push(dig));
                assert(decimal(un) =~= decimal(v as nat) + rev_prefix(digits@, d as int));
            } else {
                assert(decimal(old_v as nat) == seq![dig]);
                assert(digits@ == old_digits.update(d - 1, dig));
                assert(decimal(un) == seq![dig] + rev_prefix(old_digits, d - 1));
                assert(decimal(un) =~= rev_prefix(digits@, d as int));
            }
        }
        if v == 0 {
            break;
        }
    }
    let ghost dg = digits@;
    let ghost total = d;
    let n0 = n;
    while d > 0
        invariant
            d <= total <= 10,
            n0 <= 20,
            n == n0 + (total - d),
            digits@ == dg,
            buf@.take(n0 as int) == head,
            buf@.subrange(n0 as int, n as int) == rev_prefix(dg, total as int).take(total - d),
        decreases d,
    {
        d = d - 1;
        buf[n] = digits[d];
        n = n + 1;
        proof {
            assert(buf@.take(n0 as int) =~= head);
            assert(buf@.subrange(n0 as int, n as int) =~= rev_prefix(dg, total as int).take(total - d));
        }
    }
    proof {
        assert(rev_prefix(dg, total as int).take(total as int) =~= rev_prefix(dg, total as int));
        assert(buf@.take(n as int) =~= head + rev_prefix(dg, total as int));
    }
    let ghost before = buf@;
    buf[n] = 0x0a;
    n = n + 1;
    proof {
        assert(buf@.take(n - 1) =~= before.take(n - 1));
        assert(buf@.take(n as int) =~= buf@.take(n - 1).push(0x0au8));
        assert(buf@.take(n as int) =~= spec_error_line(err as int));
        assert forall|i: int| 0 <= i < buf@.take(n as int).len() implies #[trigger] buf@.take(n as int)[i] < 0x80 by {
            lemma_decimal_len(un, 10);
        }
        lemma_ascii_utf8(buf@.take(n as int));
    }
    match utf8_prefix(buf, n) {
        Some(s) => s,
        None => "rusty_alloc: error\n",
    }
}

/// The option table. `i64::MIN` in a slot reads as the slot's default.
pub struct Options {
    values: Vec<i64>,
}

impl Options {
    /// The value stored for `option`.
    pub closed spec fn stored(&self, option: int) -> i64 {
        self.values@[option]
    }

    /// Every option has a slot.
    pub closed spec fn wf(&self) -> bool {
        self.values@.len() == OPTION_COUNT
    }

    /// What `get` answers for `option`.
    pub open spec fn spec_get(&self, option: int) -> i64 {
        if option < 0 || option >= OPTION_COUNT {
            0
        } else if self.stored(option) == i64::MIN {
            spec_default(option)
        } else {
            self.stored(option)
        }
    }

    /// A table holding the compiled-in defaults.
    pub fn new() -> (o: Self)
        ensures
            o.wf(),
            forall|i: int| 0 <= i < OPTION_COUNT ==> #[trigger] o.stored(i) == spec_default(i),
    {
        let mut values: Vec<i64> = Vec::new();
        let mut i: usize = 0;
        while i < OPTION_COUNT
            invariant
                i <= OPTION_COUNT,
                values@.len() == i,
                forall|j: int| 0 <= j < i ==> values@[j] == DEFAULTS@[j],
            decreases OPTION_COUNT - i,
        {
            values.push(DEFAULTS[i]);
            i = i + 1;
        }
        Options { values }
    }

    /// The stored value, the default for an unset slot, and
    /// 0 for an index past the table.
    pub fn get(&self, option: usize) -> (v: i64)
        requires
            self.wf(),
        ensures
            v == self.spec_get(option as int),
    {
        if option >= OPTION_COUNT {
            return 0;
        }
        let v = self.values[option];
        if v == i64::MIN { DEFAULTS[option] } else { v }
    }

    /// Store `value`; an index past the table is ignored.
    pub fn set(&mut self, option: usize, value: i64)
        requires
            old(self).wf(),
        ensures
            final(self).wf(),
            forall|i: int| 0 <= i < OPTION_COUNT ==> #[trigger] final(self).stored(i)
                == if i == option { value } else { old(self).stored(i) },
    {
        if option < OPTION_COUNT {
            self.values.set(option, value);
        }
    }

    /// Store `value` only while the slot still holds
    /// its compiled-in default.
    pub fn set_default(&mut self, option: usize, value: i64)
        requires
            old(self).wf(),
        ensures
            final(self).wf(),
            forall|i: int| 0 <= i < OPTION_COUNT ==> #[trigger] final(self).stored(i)
                == if i == option && old(self).stored(i) == spec_default(i) { value } else { old(self).stored(i) },
    {
        if option < OPTION_COUNT {
            if self.values[option] == DEFAULTS[option] {
                self.values.set(option, value);
            }
        }
    }

    /// The value is non-zero.
    pub fn is_enabled(&self, option: usize) -> (b: bool)
        requires
            self.wf(),
        ensures
            b == (self.spec_get(option as int) != 0),
    {
        self.get(option) != 0
    }

    /// The value clamped to `[min, max]`.
    pub fn get_clamp(&self, option: usize, min: i64, max: i64) -> (v: i64)
        requires
            self.wf(),
            min <= max,
        ensures
            v == (if self.spec_get(option as int) < min { min } else if self.spec_get(option as int) > max { max } else { self.spec_get(option as int) }),
    {
        let v = self.get(option);
        if v < min { min } else if v > max { max } else { v }
    }

    /// The value as a size, negatives as 0; the two
    /// `_size` options (`reserve_os_memory`, `arena_reserve`) are KiB.
    pub fn get_size(&self, option: usize) -> (s: usize)
        requires
            self.wf(),
            (option == RESERVE_OS_MEMORY || option == ARENA_RESERVE)
                ==> (if self.spec_get(option as int) > 0 { self.spec_get(option as int) } else { 0 }) as usize * 1024 <= usize::MAX,
        ensures
            s == (if option == RESERVE_OS_MEMORY || option == ARENA_RESERVE {
                ((if self.spec_get(option as int) > 0 { self.spec_get(option as int) } else { 0 }) as usize * 1024) as int
            } else {
                (if self.spec_get(option as int) > 0 { self.spec_get(option as int) } else { 0 }) as usize as int
            }),
    {
        let g = self.get(option);
        let v = (if g > 0 { g } else { 0 }) as usize;
        if option == RESERVE_OS_MEMORY || option == ARENA_RESERVE {
            v * 1024
        } else {
            v
        }
    }

    /// Apply a value read from the environment for `option`: stored when it
    /// parses (see [`parse_value`]), ignored otherwise.
    pub fn apply_env(&mut self, option: usize, raw: &str)
        requires
            old(self).wf(),
        ensures
            final(self).wf(),
            forall|i: int| 0 <= i < OPTION_COUNT ==> #[trigger] final(self).stored(i)
                == match spec_parse_value(raw.spec_bytes()) {
                    Some(v) => if i == option { v } else { old(self).stored(i) },
                    None => old(self).stored(i),
                },
    {
        match parse_value(raw) {
            Some(v) => self.set(option, v),
            None => {},
        }
    }
}

} // verus!
