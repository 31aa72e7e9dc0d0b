//! Character-level text handling: lines, trimming, splitting, numbers.
use vstd::prelude::*;

verus! {

// ─── Conversions ─────────────────────────────────────────────────────────────

/// The characters of `s`, in order.
pub fn chars_of(s: &str) -> (v: Vec<char>)
    ensures
        v@ == s@,
{
    let mut v: Vec<char> = Vec::new();
    for c in it: s.chars()
        invariant
            v@ == it.seq().take(it.index() as int),
    {
        v.push(c);
    }
    v
}

/// A `String` holding the characters of `v`, in order (std's `FromIterator<&char> for String`).
#[verifier::external_body]
pub(crate) fn string_of(v: &[char]) -> (s: String)
    ensures
        s@ == v@,
{
    v.iter().collect()
}

/// The lower-case form of `s`, as `str::to_lowercase` computes it (Unicode's lower-case
/// mapping, where one character may become several).
pub uninterp spec fn lowercase(s: Seq<char>) -> Seq<char>;

/// `str::to_lowercase`. The result is a function of `s` alone, named `lowercase`; the
/// Unicode mapping itself is left unstated.
#[verifier::external_body]
pub(crate) fn to_lower(s: &str) -> (r: String)
    ensures
        r@ == lowercase(s@),
{
    s.to_lowercase()
}

/// `needle` occurs in `hay` as a run of consecutive characters (the empty text occurs
/// everywhere).
pub open spec fn has_substring(hay: Seq<char>, needle: Seq<char>) -> bool {
    exists|i: int| 0 <= i && i + needle.len() <= hay.len() && #[trigger] hay.subrange(i, i + needle.len()) == needle
}

/// Whether `needle` occurs in `hay` (`str::contains` with a string pattern).
pub fn contains_chars(hay: &[char], needle: &[char]) -> (b: bool)
    ensures
        b == has_substring(hay@, needle@),
{
    let n = needle.len();
    if n > hay.len() {
        proof {
            assert forall|i: int| 0 <= i && i + n <= hay@.len() implies #[trigger] hay@.subrange(i, i + n) != needle@ by {}
        }
        return false;
    }
    let hl = hay.len();
    let last = hl - n;
    let mut i: usize = 0;
    loop
        invariant
            n == needle@.len(),
            n <= hay@.len(),
            hl == hay@.len(),
            last == hay@.len() - n,
            i <= last,
            forall|k: int| 0 <= k < i ==> #[trigger] hay@.subrange(k, k + n) != needle@,
        decreases last - i,
    {
        let mut j: usize = 0;
        let mut same = true;
        proof {
            assert(hay@.subrange(i as int, i as int) =~= needle@.take(0));
        }
        while j < n
            invariant
                n == needle@.len(),
                hl == hay@.len(),
                i + n <= hay@.len(),
                j <= n,
                same == (hay@.subrange(i as int, i + j) == needle@.take(j as int)),
            decreases n - j,
        {
            proof {
                assert(hay@.subrange(i as int, i + j + 1) == hay@.subrange(i as int, i + j).push(hay@[i + j]));
                assert(needle@.take(j + 1) == needle@.take(j as int).push(needle@[j as int]));
                if hay@.subrange(i as int, i + j) == needle@.take(j as int) && hay@[i + j] != needle@[j as int] {
                    assert(hay@.subrange(i as int, i + j + 1)[j as int] != needle@.take(j + 1)[j as int]);
                }
                if hay@.subrange(i as int, i + j) != needle@.take(j as int) {
                    if hay@.subrange(i as int, i + j + 1) == needle@.take(j + 1) {
                        assert(hay@.subrange(i as int, i + j) =~= hay@.subrange(i as int, i + j + 1).drop_last());
                        assert(needle@.take(j as int) =~= needle@.take(j + 1).drop_last());
                    }
                }
            }
            same = same && hay[i + j] == needle[j];
            j = j + 1;
        }
        proof {
            assert(needle@.take(n as int) =~= needle@);
        }
        if same {
            return true;
        }
        if i == last {
            return false;
        }
        i = i + 1;
    }
}

/// A copy of the characters `v[lo..hi]`.
pub fn sub_chars(v: &[char], lo: usize, hi: usize) -> (r: Vec<char>)
    requires
        lo <= hi <= v@.len(),
    ensures
        r@ == v@.subrange(lo as int, hi as int),
{
    let mut r: Vec<char> = Vec::new();
    let mut i = lo;
    while i < hi
        invariant
            lo <= i <= hi <= v@.len(),
            r@ == v@.subrange(lo as int, i as int),
        decreases hi - i,
    {
        r.push(v[i]);
        i = i + 1;
    }
    r
}

// ─── Whitespace and trimming ─────────────────────────────────────────────────

/// `c` has the Unicode `White_Space` property (what `char::is_whitespace` tests).
pub open spec fn is_ws(c: char) -> bool {
    let n = c as u32;
    ||| 0x09 <= n <= 0x0d
    ||| n == 0x20
    ||| n == 0x85
    ||| n == 0xa0
    ||| n == 0x1680
    ||| 0x2000 <= n <= 0x200a
    ||| n == 0x2028
    ||| n == 0x2029
    ||| n == 0x202f
    ||| n == 0x205f
    ||| n == 0x3000
}

/// Whether `c` is white space.
pub fn is_whitespace(c: char) -> (b: bool)
    ensures
        b == is_ws(c),
{
    let n = c as u32;
    (0x09 <= n && n <= 0x0d) || n == 0x20 || n == 0x85 || n == 0xa0 || n == 0x1680 || (0x2000
        <= n && n <= 0x200a) || n == 0x2028 || n == 0x2029 || n == 0x202f || n == 0x205f || n
        == 0x3000
}

/// `s` without its leading white space.
pub open spec fn trim_start(s: Seq<char>) -> Seq<char>
    decreases s.len(),
{
    if s.len() > 0 && is_ws(s[0]) {
        trim_start(s.drop_first())
    } else {
        s
    }
}

/// `s` without its trailing white space.
pub open spec fn trim_end(s: Seq<char>) -> Seq<char>
    decreases s.len(),
{
    if s.len() > 0 && is_ws(s.last()) {
        trim_end(s.drop_last())
    } else {
        s
    }
}

/// `s` without leading and trailing white space (what `str::trim` returns).
pub open spec fn trim(s: Seq<char>) -> Seq<char> {
    trim_end(trim_start(s))
}

/// `trim_start` drops a prefix of white space.
proof fn lemma_trim_start_skip(s: Seq<char>, i: int)
    requires
        0 <= i <= s.len(),
        forall|j: int| 0 <= j < i ==> is_ws(s[j]),
    ensures
        trim_start(s) == trim_start(s.skip(i)),
    decreases i,
{
    if i > 0 {
        assert(s.skip(1) == s.drop_first());
        lemma_trim_start_skip(s.drop_first(), i - 1);
        assert(s.drop_first().skip(i - 1) =~= s.skip(i));
    } else {
        assert(s.skip(0) =~= s);
    }
}

/// `trim_end` drops a suffix of white space.
proof fn lemma_trim_end_take(s: Seq<char>, i: int)
    requires
        0 <= i <= s.len(),
        forall|j: int| i <= j < s.len() ==> is_ws(s[j]),
    ensures
        trim_end(s) == trim_end(s.take(i)),
    decreases s.len() - i,
{
    if i < s.len() {
        lemma_trim_end_take(s.drop_last(), i);
        assert(s.drop_last().take(i) =~= s.take(i));
    } else {
        assert(s.take(i) =~= s);
    }
}

/// The characters of `v` without leading and trailing white space.
pub fn trim_chars(v: &[char]) -> (r: Vec<char>)
    ensures
        r@ == trim(v@),
{
    let n = v.len();
    let mut lo: usize = 0;
    while lo < n && is_whitespace(v[lo])
        invariant
            lo <= n == v@.len(),
            forall|j: int| 0 <= j < lo ==> is_ws(v@[j]),
        decreases n - lo,
    {
        lo = lo + 1;
    }
    let mut hi: usize = n;
    while hi > lo && is_whitespace(v[hi - 1])
        invariant
            lo <= hi <= n == v@.len(),
            forall|j: int| hi <= j < n ==> is_ws(v@[j]),
        decreases hi,
    {
        hi = hi - 1;
    }
    proof {
        lemma_trim_start_skip(v@, lo as int);
        let t = v@.skip(lo as int);
        if lo < n {
            assert(t[0] == v@[lo as int]);
            assert(trim_start(t) == t);
        } else {
            assert(t.len() == 0);
        }
        lemma_trim_end_take(t, hi - lo);
        assert(t.take(hi - lo) =~= v@.subrange(lo as int, hi as int));
        if hi > lo {
            assert(v@.subrange(lo as int, hi as int).last() == v@[hi - 1]);
        }
    }
    sub_chars(v, lo, hi)
}

// ─── Searching and splitting ─────────────────────────────────────────────────

/// `c` occurs in `s`.
pub open spec fn has_char(s: Seq<char>, c: char) -> bool {
    exists|i: int| 0 <= i < s.len() && s[i] == c
}

/// The position of the first `c` in `s` (meaningful when `has_char(s, c)`).
pub open spec fn first_index(s: Seq<char>, c: char) -> int {
    choose|i: int| 0 <= i < s.len() && s[i] == c && forall|j: int| 0 <= j < i ==> s[j] != c
}

/// A position that holds `c` with no `c` before it is the first one.
pub proof fn lemma_first_index(s: Seq<char>, c: char, i: int)
    requires
        0 <= i < s.len(),
        s[i] == c,
        forall|j: int| 0 <= j < i ==> s[j] != c,
    ensures
        has_char(s, c),
        first_index(s, c) == i,
{
    let k = first_index(s, c);
    assert(0 <= k < s.len() && s[k] == c && forall|j: int| 0 <= j < k ==> s[j] != c);
    if k < i {
        assert(s[k] != c);
    } else if k > i {
        assert(s[i] != c);
    }
}

/// The index of the first `c` in `v` at or after `from`, if any.
pub fn find_char_from(v: &[char], c: char, from: usize) -> (r: Option<usize>)
    requires
        from <= v@.len(),
    ensures
        match r {
            Some(i) => from <= i < v.len() && v@[i as int] == c && forall|j: int|
                from <= j < i ==> v@[j] != c,
            None => forall|j: int| from <= j < v@.len() ==> v@[j] != c,
        },
{
    let mut i = from;
    while i < v.len()
        invariant
            from <= i <= v@.len(),
            forall|j: int| from <= j < i ==> v@[j] != c,
        decreases v@.len() - i,
    {
        if v[i] == c {
            return Some(i);
        }
        i = i + 1;
    }
    None
}

/// The parts of `s` before and after its first `c` (what `str::split_once` returns).
pub open spec fn split_once(s: Seq<char>, c: char) -> Option<(Seq<char>, Seq<char>)> {
    if has_char(s, c) {
        let i = first_index(s, c);
        Some((s.take(i), s.skip(i + 1)))
    } else {
        None
    }
}

/// Splits `v` at its first `c`.
pub fn split_once_chars(v: &[char], c: char) -> (r: Option<(Vec<char>, Vec<char>)>)
    ensures
        match (r, split_once(v@, c)) {
            (Some(p), Some(q)) => p.0@ == q.0 && p.1@ == q.1,
            (None, None) => true,
            _ => false,
        },
{
    match find_char_from(v, c, 0) {
        Some(i) => {
            proof {
                lemma_first_index(v@, c, i as int);
            }
            let a = sub_chars(v, 0, i);
            let b = sub_chars(v, i + 1, v.len());
            proof {
                assert(a@ =~= v@.take(i as int));
                assert(b@ =~= v@.skip(i + 1));
            }
            Some((a, b))
        },
        None => None,
    }
}

/// `s` without one trailing carriage return.
pub open spec fn strip_cr(s: Seq<char>) -> Seq<char> {
    if s.len() > 0 && s.last() == '\r' {
        s.drop_last()
    } else {
        s
    }
}

/// The lines of `s` (what `str::lines` yields): split at `\n`, a `\r` right before
/// the `\n` dropped, and no empty line after a final line ending.
#[verifier::opaque]
pub open spec fn lines(s: Seq<char>) -> Seq<Seq<char>>
    decreases s.len(),
{
    if s.len() == 0 {
        seq![]
    } else if has_char(s, '\n') {
        let i = first_index(s, '\n');
        if 0 <= i < s.len() {
            seq![strip_cr(s.take(i))] + lines(s.skip(i + 1))
        } else {
            seq![]
        }
    } else {
        seq![s]
    }
}

/// A line break at `i`, with none before it, ends the first line.
pub proof fn lemma_lines_step(s: Seq<char>, i: int)
    requires
        0 <= i < s.len(),
        s[i] == '\n',
        forall|j: int| 0 <= j < i ==> s[j] != '\n',
    ensures
        lines(s) == seq![strip_cr(s.take(i))] + lines(s.skip(i + 1)),
{
    reveal(lines);
    lemma_first_index(s, '\n', i);
}

/// Text without a line break is one line.
pub proof fn lemma_lines_last(s: Seq<char>)
    requires
        s.len() > 0,
        forall|j: int| 0 <= j < s.len() ==> s[j] != '\n',
    ensures
        lines(s) == seq![s],
{
    reveal(lines);
}

/// Empty text has no lines.
pub proof fn lemma_lines_empty(s: Seq<char>)
    requires
        s.len() == 0,
    ensures
        lines(s) == Seq::<Seq<char>>::empty(),
{
    reveal(lines);
}

/// The characters of each element of `v`.
pub open spec fn views(v: Seq<Vec<char>>) -> Seq<Seq<char>> {
    v.map_values(|x: Vec<char>| x@)
}

/// The lines of `v`.
pub fn split_lines(v: &[char]) -> (r: Vec<Vec<char>>)
    ensures
        views(r@) == lines(v@),
{
    let n = v.len();
    let mut out: Vec<Vec<char>> = Vec::new();
    let mut start: usize = 0;
    proof {
        assert(v@.skip(0) =~= v@);
        assert(views(out@) =~= seq![]);
        assert(seq![] + lines(v@) =~= lines(v@));
    }
    while start < n
        invariant
            start <= n == v@.len(),
            lines(v@) == views(out@) + lines(v@.skip(start as int)),
        decreases n - start,
    {
        let ghost rest = v@.skip(start as int);
        match find_char_from(v, '\n', start) {
            Some(i) => {
                proof {
                    lemma_lines_step(rest, i - start);
                    assert(rest.take(i - start) =~= v@.subrange(start as int, i as int));
                    assert(rest.skip(i - start + 1) =~= v@.skip(i + 1));
                }
                let mut end = i;
                if end > start && v[end - 1] == '\r' {
                    end = end - 1;
                }
                let line = sub_chars(v, start, end);
                proof {
                    assert(line@ == strip_cr(v@.subrange(start as int, i as int)));
                }
                out.push(line);
                proof {
                    assert(views(out@) =~= views(out@.drop_last()).push(line@));
                }
                start = i + 1;
            },
            None => {
                proof {
                    lemma_lines_last(rest);
                    assert(rest =~= v@.subrange(start as int, n as int));
                }
                let line = sub_chars(v, start, n);
                out.push(line);
                proof {
                    assert(views(out@) =~= views(out@.drop_last()).push(line@));
                    lemma_lines_empty(v@.skip(n as int));
                }
                start = n;
            },
        }
    }
    proof {
        lemma_lines_empty(v@.skip(n as int));
        assert(views(out@) + seq![] =~= views(out@));
    }
    out
}

// ─── Numbers ─────────────────────────────────────────────────────────────────

/// The value of digit `c` in base `radix` (10 or 16), or -1 when `c` is no such digit.
pub open spec fn digit_value(c: char, radix: nat) -> int {
    let n = c as u32;
    if 0x30 <= n <= 0x39 && n - 0x30 < radix {
        n - 0x30
    } else if radix == 16 && 0x61 <= n <= 0x66 {
        n - 0x61 + 10
    } else if radix == 16 && 0x41 <= n <= 0x46 {
        n - 0x41 + 10
    } else {
        -1
    }
}

/// Every character of `s` is a digit in base `radix`.
pub open spec fn all_digits(s: Seq<char>, radix: nat) -> bool {
    forall|i: int| 0 <= i < s.len() ==> digit_value(#[trigger] s[i], radix) >= 0
}

/// The number that the digits `s` denote in base `radix`.
pub open spec fn digits_value(s: Seq<char>, radix: nat) -> nat
    decreases s.len(),
{
    if s.len() == 0 {
        0
    } else {
        digits_value(s.drop_last(), radix) * radix + digit_value(s.last(), radix) as nat
    }
}

/// `s` without one leading `+`.
pub open spec fn unsigned_digits(s: Seq<char>) -> Seq<char> {
    if s.len() > 0 && s[0] == '+' {
        s.drop_first()
    } else {
        s
    }
}

/// What parsing `s` as an unsigned number in base `radix` gives when values above
/// `max` overflow: an optional `+`, then at least one digit (the rule of `from_str_radix`).
pub open spec fn parse_unsigned(s: Seq<char>, radix: nat, max: nat) -> Option<nat> {
    let d = unsigned_digits(s);
    if d.len() > 0 && all_digits(d, radix) && digits_value(d, radix) <= max {
        Some(digits_value(d, radix))
    } else {
        None
    }
}

/// A longer run of digits denotes at least as much.
proof fn lemma_digits_value_prefix(s: Seq<char>, k: int, radix: nat)
    requires
        0 <= k <= s.len(),
        radix > 0,
        all_digits(s, radix),
    ensures
        digits_value(s.take(k), radix) <= digits_value(s, radix),
    decreases s.len() - k,
{
    if k < s.len() {
        let t = s.drop_last();
        assert(all_digits(t, radix));
        lemma_digits_value_prefix(t, k, radix);
        assert(t.take(k) =~= s.take(k));
        assert(digit_value(s[s.len() - 1], radix) >= 0);
        assert(digits_value(t, radix) <= digits_value(t, radix) * radix) by (nonlinear_arith)
            requires
                radix > 0,
        ;
    } else {
        assert(s.take(k) =~= s);
    }
}

/// The value of digit `c` in base `radix` (10 or 16), if `c` is one.
pub fn digit_of(c: char, radix: u32) -> (r: Option<u32>)
    requires
        radix == 10 || radix == 16,
    ensures
        match r {
            Some(d) => d == digit_value(c, radix as nat) && d < radix,
            None => digit_value(c, radix as nat) < 0,
        },
{
    let n = c as u32;
    if 0x30 <= n && n <= 0x39 && n - 0x30 < radix {
        Some(n - 0x30)
    } else if radix == 16 && 0x61 <= n && n <= 0x66 {
        Some(n - 0x61 + 10)
    } else if radix == 16 && 0x41 <= n && n <= 0x46 {
        Some(n - 0x41 + 10)
    } else {
        None
    }
}

/// Parses `v` as an unsigned number in base `radix` no larger than `max`.
pub fn parse_unsigned_chars(v: &[char], radix: u32, max: u64) -> (r: Option<u64>)
    requires
        radix == 10 || radix == 16,
    ensures
        match r {
            Some(x) => parse_unsigned(v@, radix as nat, max as nat) == Some(x as nat),
            None => parse_unsigned(v@, radix as nat, max as nat) is None,
        },
{
    let n = v.len();
    let start: usize = if n > 0 && v[0] == '+' {
        1
    } else {
        0
    };
    let ghost d = unsigned_digits(v@);
    proof {
        assert(d =~= v@.skip(start as int));
    }
    if start == n {
        return None;
    }
    let mut acc: u64 = 0;
    let mut i = start;
    while i < n
        invariant
            start <= i <= n == v@.len(),
            d == v@.skip(start as int),
            d == unsigned_digits(v@),
            radix == 10 || radix == 16,
            acc <= max,
            all_digits(d.take(i - start), radix as nat),
            acc == digits_value(d.take(i - start), radix as nat),
        decreases n - i,
    {
        let dv = match digit_of(v[i], radix) {
            Some(x) => x,
            None => {
                proof {
                    assert(d[i - start] == v@[i as int]);
                    assert(digit_value(d[i - start], radix as nat) < 0);
                    assert(!all_digits(d, radix as nat));
                }
                return None;
            },
        };
        let ghost k = i - start;
        proof {
            assert(d.take(k + 1).drop_last() =~= d.take(k));
            assert(d.take(k + 1).last() == v@[i as int]);
            assert(all_digits(d.take(k + 1), radix as nat)) by {
                assert forall|j: int| 0 <= j < k + 1 implies digit_value(
                    #[trigger] d.take(k + 1)[j],
                    radix as nat,
                ) >= 0 by {
                    if j < k {
                        assert(d.take(k + 1)[j] == d.take(k)[j]);
                    }
                }
            }
        }
        let next = match acc.checked_mul(radix as u64) {
            Some(m) => m.checked_add(dv as u64),
            None => None,
        };
        match next {
            Some(x) if x <= max => {
                acc = x;
            },
            _ => {
                proof {
                    let big = digits_value(d.take(k + 1), radix as nat);
                    assert(big == acc * radix + dv);
                    assert(big > max);
                    if all_digits(d, radix as nat) {
                        lemma_digits_value_prefix(d, k + 1, radix as nat);
                    }
                }
                return None;
            },
        }
        i = i + 1;
    }
    proof {
        assert(d.take(n - start) =~= d);
    }
    Some(acc)
}

/// The base-`radix` digits of `n` without leading zeros, lower-case letters above 9.
pub open spec fn digits(n: nat, radix: nat) -> Seq<char>
    decreases n,
{
    if radix < 2 {
        seq![]
    } else if n < radix {
        seq![digit_char(n)]
    } else {
        proof {
            assert(n / radix < n) by (nonlinear_arith)
                requires
                    radix >= 2,
                    n >= radix,
            ;
        }
        digits(n / radix, radix).push(digit_char(n % radix))
    }
}

/// The character of digit `d` (below 16).
pub open spec fn digit_char(d: nat) -> char {
    if d < 10 {
        (0x30 + d) as char
    } else {
        (0x61 + d - 10) as char
    }
}

/// `n` in decimal (what `format!("{}", n)` writes).
pub open spec fn decimal(n: nat) -> Seq<char> {
    digits(n, 10)
}

/// `n` in lower-case hexadecimal (what `format!("{:x}", n)` writes).
pub open spec fn hex(n: nat) -> Seq<char> {
    digits(n, 16)
}

/// The character of digit `d`.
pub(crate) fn digit_char_exec(d: u64) -> (c: char)
    requires
        d < 16,
    ensures
        c == digit_char(d as nat),
{
    if d < 10 {
        ((0x30 + d) as u8) as char
    } else {
        ((0x61 + d - 10) as u8) as char
    }
}

/// Appends the base-`radix` digits of `n` to `out`.
pub fn push_digits(out: &mut Vec<char>, n: u64, radix: u64)
    requires
        radix == 10 || radix == 16,
    ensures
        final(out)@ == old(out)@ + digits(n as nat, radix as nat),
    decreases n,
{
    if n < radix {
        out.push(digit_char_exec(n));
        proof {
            assert(final(out)@ =~= old(out)@ + seq![digit_char(n as nat)]);
        }
    } else {
        push_digits(out, n / radix, radix);
        out.push(digit_char_exec(n % radix));
        proof {
            assert(digits(n as nat, radix as nat) == digits((n / radix) as nat, radix as nat).push(
                digit_char((n % radix) as nat),
            ));
        }
    }
}

// ─── Splitting into pieces, joining ──────────────────────────────────────────

/// The pieces of `s` between occurrences of `c` (what `str::split` yields); at least one piece.
#[verifier::opaque]
pub open spec fn split(s: Seq<char>, c: char) -> Seq<Seq<char>>
    decreases s.len(),
{
    if has_char(s, c) {
        let i = first_index(s, c);
        if 0 <= i < s.len() {
            seq![s.take(i)] + split(s.skip(i + 1), c)
        } else {
            seq![]
        }
    } else {
        seq![s]
    }
}

/// A separator at `i`, with none before it, ends the first piece.
pub proof fn lemma_split_step(s: Seq<char>, c: char, i: int)
    requires
        0 <= i < s.len(),
        s[i] == c,
        forall|j: int| 0 <= j < i ==> s[j] != c,
    ensures
        split(s, c) == seq![s.take(i)] + split(s.skip(i + 1), c),
{
    reveal(split);
    lemma_first_index(s, c, i);
}

/// Splitting gives at least one piece; the first is the text before the first
/// separator, or the whole text when there is none.
pub proof fn lemma_split_first(s: Seq<char>, c: char)
    ensures
        split(s, c).len() > 0,
        has_char(s, c) ==> split(s, c)[0] == s.take(first_index(s, c)),
        !has_char(s, c) ==> split(s, c)[0] == s,
{
    reveal(split);
    if has_char(s, c) {
        let w = choose|w: int| 0 <= w < s.len() && s[w] == c;
        let i = lemma_min_index(s, c, w);
        lemma_first_index(s, c, i);
    }
}

/// Below a position holding `c` is a first position holding `c`.
proof fn lemma_min_index(s: Seq<char>, c: char, w: int) -> (i: int)
    requires
        0 <= w < s.len(),
        s[w] == c,
    ensures
        0 <= i <= w,
        s[i] == c,
        forall|j: int| 0 <= j < i ==> s[j] != c,
    decreases w,
{
    if exists|j: int| 0 <= j < w && s[j] == c {
        let j = choose|j: int| 0 <= j < w && s[j] == c;
        lemma_min_index(s, c, j)
    } else {
        w
    }
}

/// Text without the separator is one piece.
pub proof fn lemma_split_last(s: Seq<char>, c: char)
    requires
        forall|j: int| 0 <= j < s.len() ==> s[j] != c,
    ensures
        split(s, c) == seq![s],
{
    reveal(split);
}

/// The pieces of `v` between occurrences of `c`.
pub fn split_chars(v: &[char], c: char) -> (r: Vec<Vec<char>>)
    ensures
        views(r@) == split(v@, c),
{
    let n = v.len();
    let mut out: Vec<Vec<char>> = Vec::new();
    let mut start: usize = 0;
    proof {
        assert(v@.skip(0) =~= v@);
        assert(seq![] + split(v@, c) =~= split(v@, c));
    }
    loop
        invariant
            start <= n == v@.len(),
            split(v@, c) == views(out@) + split(v@.skip(start as int), c),
        decreases n - start,
    {
        let ghost rest = v@.skip(start as int);
        match find_char_from(v, c, start) {
            Some(i) => {
                proof {
                    lemma_split_step(rest, c, i - start);
                    assert(rest.take(i - start) =~= v@.subrange(start as int, i as int));
                    assert(rest.skip(i - start + 1) =~= v@.skip(i + 1));
                }
                let piece = sub_chars(v, start, i);
                out.push(piece);
                proof {
                    assert(views(out@) =~= views(out@.drop_last()).push(piece@));
                }
                start = i + 1;
            },
            None => {
                proof {
                    lemma_split_last(rest, c);
                    assert(rest =~= v@.subrange(start as int, n as int));
                }
                let piece = sub_chars(v, start, n);
                out.push(piece);
                proof {
                    assert(views(out@) =~= views(out@.drop_last()).push(piece@));
                    assert(views(out@) + seq![] =~= views(out@));
                    assert(views(out@) =~= views(out@.drop_last()) + seq![rest]);
                }
                return out;
            },
        }
    }
}

/// The elements of `ls` with `sep` between neighbours (what `join` builds).
pub open spec fn join(ls: Seq<Seq<char>>, sep: Seq<char>) -> Seq<char>
    decreases ls.len(),
{
    if ls.len() == 0 {
        seq![]
    } else if ls.len() == 1 {
        ls[0]
    } else {
        join(ls.drop_last(), sep) + sep + ls.last()
    }
}

/// The text of each string in `v`.
pub open spec fn string_views(v: Seq<String>) -> Seq<Seq<char>> {
    v.map_values(|x: String| x@)
}

/// Appends the characters of `s` to `out`.
pub fn push_str(out: &mut Vec<char>, s: &str)
    ensures
        final(out)@ == old(out)@ + s@,
{
    let v = chars_of(s);
    let mut i: usize = 0;
    while i < v.len()
        invariant
            i <= v@.len(),
            v@ == s@,
            out@ == old(out)@ + v@.take(i as int),
        decreases v@.len() - i,
    {
        out.push(v[i]);
        i = i + 1;
        proof {
            assert(out@ =~= old(out)@ + v@.take(i as int));
        }
    }
    proof {
        assert(v@.take(i as int) =~= v@);
    }
}

/// Appends the characters of `t` to `out`.
pub fn push_chars(out: &mut Vec<char>, t: &[char])
    ensures
        final(out)@ == old(out)@ + t@,
{
    let mut i: usize = 0;
    while i < t.len()
        invariant
            i <= t@.len(),
            out@ == old(out)@ + t@.take(i as int),
        decreases t@.len() - i,
    {
        out.push(t[i]);
        i = i + 1;
        proof {
            assert(out@ =~= old(out)@ + t@.take(i as int));
        }
    }
    proof {
        assert(t@.take(i as int) =~= t@);
    }
}

/// Appends the strings of `v`, with `sep` between neighbours, to `out`.
pub fn push_joined(out: &mut Vec<char>, v: &Vec<String>, sep: char)
    ensures
        final(out)@ == old(out)@ + join(string_views(v@), seq![sep]),
{
    let ghost ls = string_views(v@);
    let mut i: usize = 0;
    while i < v.len()
        invariant
            i <= v@.len(),
            ls == string_views(v@),
            out@ == old(out)@ + join(ls.take(i as int), seq![sep]),
        decreases v@.len() - i,
    {
        if i > 0 {
            out.push(sep);
        }
        push_str(out, v[i].as_str());
        proof {
            let t = ls.take(i + 1);
            assert(t.drop_last() =~= ls.take(i as int));
            assert(t.last() == v@[i as int]@);
            if i == 0 {
                assert(out@ =~= old(out)@ + join(t, seq![sep]));
            } else {
                assert(out@ =~= old(out)@ + join(t, seq![sep]));
            }
        }
        i = i + 1;
    }
    proof {
        assert(ls.take(i as int) =~= ls);
    }
}

/// `s` begins with `p`.
pub open spec fn starts_with(s: Seq<char>, p: Seq<char>) -> bool {
    p.len() <= s.len() && s.take(p.len() as int) == p
}

/// Whether `v` begins with `p`.
pub fn starts_with_chars(v: &[char], p: &[char]) -> (b: bool)
    ensures
        b == starts_with(v@, p@),
{
    if p.len() > v.len() {
        return false;
    }
    let mut i: usize = 0;
    while i < p.len()
        invariant
            i <= p@.len() <= v@.len(),
            v@.take(i as int) == p@.take(i as int),
        decreases p@.len() - i,
    {
        if v[i] != p[i] {
            proof {
                assert(v@.take(p@.len() as int)[i as int] != p@[i as int]);
            }
            return false;
        }
        i = i + 1;
        proof {
            assert(v@.take(i as int) =~= p@.take(i as int));
        }
    }
    proof {
        assert(p@.take(i as int) =~= p@);
    }
    true
}

// ─── Facts about the texts above ─────────────────────────────────────────────

/// `c` is an ASCII decimal digit.
pub open spec fn is_decimal_digit(c: char) -> bool {
    0x30 <= (c as u32) <= 0x39
}

/// The decimal text of a number is non-empty and made of digits that read back as it.
pub proof fn lemma_decimal(n: nat, max: nat)
    ensures
        decimal(n).len() > 0,
        forall|i: int| 0 <= i < decimal(n).len() ==> is_decimal_digit(#[trigger] decimal(n)[i]),
        all_digits(decimal(n), 10),
        digits_value(decimal(n), 10) == n,
        n <= max ==> parse_unsigned(decimal(n), 10, max) == Some(n),
    decreases n,
{
    let d = decimal(n);
    if n < 10 {
        assert(d =~= seq![digit_char(n)]);
        assert(d.drop_last() =~= Seq::<char>::empty());
        assert((0x30 + n) as char as u32 == 0x30 + n);
        assert(digit_value(digit_char(n), 10) == n);
        assert(digits_value(d, 10) == digits_value(d.drop_last(), 10) * 10 + digit_value(d.last(), 10) as nat);
    } else {
        lemma_decimal(n / 10, max);
        let p = decimal(n / 10);
        assert(d == p.push(digit_char(n % 10)));
        assert(d.drop_last() =~= p);
        assert((0x30 + n % 10) as char as u32 == 0x30 + n % 10);
        assert forall|i: int| 0 <= i < d.len() implies is_decimal_digit(#[trigger] d[i]) by {
            if i < p.len() {
                assert(d[i] == p[i]);
            }
        }
        assert(digit_value(digit_char(n % 10), 10) == n % 10);
        assert(digits_value(d, 10) == digits_value(d.drop_last(), 10) * 10 + digit_value(d.last(), 10) as nat);
        assert(n == (n / 10) * 10 + n % 10);
        assert(digits_value(d, 10) == digits_value(p, 10) * 10 + n % 10);
    }
    assert forall|i: int| 0 <= i < d.len() implies digit_value(#[trigger] d[i], 10) >= 0 by {
        assert(is_decimal_digit(d[i]));
    }
    assert(d[0] != '+') by {
        assert(is_decimal_digit(d[0]));
    }
    assert(unsigned_digits(d) == d);
}

/// A text of digits holds no character that is not a digit.
pub proof fn lemma_decimal_lacks(n: nat, c: char)
    requires
        !is_decimal_digit(c),
    ensures
        !has_char(decimal(n), c),
{
    lemma_decimal(n, 0);
    if has_char(decimal(n), c) {
        let i = choose|i: int| 0 <= i < decimal(n).len() && decimal(n)[i] == c;
        assert(is_decimal_digit(decimal(n)[i]));
    }
}

/// A join of two or more pieces starts with the first piece and a separator.
pub proof fn lemma_join_first(ls: Seq<Seq<char>>, sep: Seq<char>)
    requires
        ls.len() >= 2,
    ensures
        join(ls, sep) == ls[0] + sep + join(ls.drop_first(), sep),
    decreases ls.len(),
{
    if ls.len() == 2 {
        assert(ls.drop_last() =~= seq![ls[0]]);
        assert(ls.drop_first() =~= seq![ls[1]]);
        assert(join(ls.drop_last(), sep) == ls[0]);
        assert(join(ls.drop_first(), sep) == ls[1]);
        assert(ls.last() == ls[1]);
    } else {
        lemma_join_first(ls.drop_last(), sep);
        assert(ls.drop_last().drop_first() =~= ls.drop_first().drop_last());
        assert(ls.drop_first().last() == ls.last());
        assert(ls.drop_last()[0] == ls[0]);
        let t = ls.drop_first();
        assert(join(t, sep) == join(t.drop_last(), sep) + sep + t.last());
        assert(join(ls, sep) == join(ls.drop_last(), sep) + sep + ls.last());
        assert(join(ls, sep) =~= ls[0] + sep + join(ls.drop_first(), sep));
    }
}

/// A join holds no character that neither the pieces nor the separator hold.
pub proof fn lemma_join_lacks(ls: Seq<Seq<char>>, sep: Seq<char>, c: char)
    requires
        forall|i: int| 0 <= i < ls.len() ==> !has_char(#[trigger] ls[i], c),
        !has_char(sep, c),
    ensures
        !has_char(join(ls, sep), c),
    decreases ls.len(),
{
    if ls.len() >= 2 {
        lemma_join_lacks(ls.drop_last(), sep, c);
        let j = join(ls, sep);
        let a = join(ls.drop_last(), sep);
        assert(j == a + sep + ls.last());
        if has_char(j, c) {
            let k = choose|k: int| 0 <= k < j.len() && j[k] == c;
            if k < a.len() {
                assert(a[k] == c);
            } else if k < a.len() + sep.len() {
                assert(sep[k - a.len()] == c);
            } else {
                assert(ls.last()[k - a.len() - sep.len()] == c);
                assert(ls[ls.len() - 1] == ls.last());
            }
        }
    } else if ls.len() == 1 {
        assert(!has_char(ls[0], c));
    }
}

/// Splitting a join at its one-character separator gives back the pieces.
pub proof fn lemma_split_join(ls: Seq<Seq<char>>, c: char)
    requires
        ls.len() >= 1,
        forall|i: int| 0 <= i < ls.len() ==> !has_char(#[trigger] ls[i], c),
    ensures
        split(join(ls, seq![c]), c) == ls,
    decreases ls.len(),
{
    if ls.len() == 1 {
        assert(join(ls, seq![c]) == ls[0]);
        assert(!has_char(ls[0], c));
        lemma_split_last(ls[0], c);
        assert(seq![ls[0]] =~= ls);
    } else {
        lemma_join_first(ls, seq![c]);
        let rest = join(ls.drop_first(), seq![c]);
        let j = join(ls, seq![c]);
        let h = ls[0];
        assert(!has_char(h, c));
        assert(j[h.len() as int] == c);
        assert forall|k: int| 0 <= k < h.len() implies j[k] != c by {
            assert(j[k] == h[k]);
        }
        lemma_split_step(j, c, h.len() as int);
        assert(j.take(h.len() as int) =~= h);
        assert(j.skip(h.len() as int + 1) =~= rest);
        lemma_split_join(ls.drop_first(), c);
        assert(seq![h] + ls.drop_first() =~= ls);
    }
}

/// Text that neither starts nor ends with white space is its own trim.
pub proof fn lemma_trim_id(s: Seq<char>)
    requires
        s.len() > 0,
        !is_ws(s[0]),
        !is_ws(s.last()),
    ensures
        trim(s) == s,
{
    assert(trim_start(s) == s);
}

/// Lines that hold no line break and do not end in a carriage return come back
/// from the text they are joined into.
pub proof fn lemma_lines_join(ls: Seq<Seq<char>>)
    requires
        forall|i: int|
            0 <= i < ls.len() ==> (#[trigger] ls[i]).len() > 0 && !has_char(ls[i], '\n')
                && ls[i].last() != '\r',
    ensures
        lines(join(ls, seq!['\n'])) == ls,
    decreases ls.len(),
{
    if ls.len() == 0 {
        lemma_lines_empty(join(ls, seq!['\n']));
        assert(ls =~= Seq::<Seq<char>>::empty());
    } else if ls.len() == 1 {
        let l = ls[0];
        assert(join(ls, seq!['\n']) == l);
        assert forall|j: int| 0 <= j < l.len() implies l[j] != '\n' by {
            if l[j] == '\n' {
                assert(has_char(l, '\n'));
            }
        }
        lemma_lines_last(l);
        assert(seq![l] =~= ls);
    } else {
        lemma_join_first(ls, seq!['\n']);
        let h = ls[0];
        let rest = join(ls.drop_first(), seq!['\n']);
        let j = join(ls, seq!['\n']);
        assert(j[h.len() as int] == '\n');
        assert forall|k: int| 0 <= k < h.len() implies j[k] != '\n' by {
            assert(j[k] == h[k]);
            if h[k] == '\n' {
                assert(has_char(h, '\n'));
            }
        }
        lemma_lines_step(j, h.len() as int);
        assert(j.take(h.len() as int) =~= h);
        assert(j.skip(h.len() as int + 1) =~= rest);
        assert(strip_cr(h) == h);
        lemma_lines_join(ls.drop_first());
        assert(seq![h] + ls.drop_first() =~= ls);
    }
}

/// Each line of `v` as a string.
pub fn line_strings(v: &Vec<Vec<char>>) -> (r: Vec<String>)
    ensures
        string_views(r@) == views(v@),
{
    let mut r: Vec<String> = Vec::new();
    let mut i: usize = 0;
    while i < v.len()
        invariant
            i <= v@.len(),
            string_views(r@) == views(v@).take(i as int),
        decreases v@.len() - i,
    {
        let ghost prev = string_views(r@);
        r.push(string_of(v[i].as_slice()));
        proof {
            assert(prev.len() == i);
            assert(views(v@).len() == v@.len());
            assert(views(v@)[i as int] == v@[i as int]@);
            assert(string_views(r@) =~= prev.push(v@[i as int]@));
            assert(views(v@).take(i + 1) =~= views(v@).take(i as int).push(v@[i as int]@));
        }
        i = i + 1;
    }
    proof {
        assert(views(v@).take(i as int) =~= views(v@));
    }
    r
}



/// The lines `s..=e` (1-based) of `src` that exist.
pub open spec fn line_span(src: Seq<Seq<char>>, s: usize, e: usize) -> Seq<Seq<char>> {
    if s > e || s > src.len() || s == 0 {
        Seq::empty()
    } else {
        src.subrange(s - 1, if e < src.len() { e as int } else { src.len() as int })
    }
}

/// Appends the lines `s..=e` (1-based) of `src` that exist. Line 0 has no number: a span
/// from it must be empty.
pub fn push_line_span(out: &mut Vec<String>, src: &Vec<String>, s: usize, e: usize)
    requires
        s >= 1 || s > e,
    ensures
        string_views(final(out)@) == string_views(old(out)@) + line_span(string_views(src@), s, e),
{
    let ghost sv = string_views(src@);
    let ghost start = string_views(out@);
    if s > e || s > src.len() || s == 0 {
        proof {
            assert(string_views(out@) =~= start + line_span(sv, s, e));
        }
        return;
    }
    let stop = if e < src.len() { e } else { src.len() };
    let mut k = s - 1;
    while k < stop
        invariant
            s >= 1,
            s - 1 <= k <= stop <= src@.len(),
            sv == string_views(src@),
            string_views(out@) == start + sv.subrange(s - 1, k as int),
        decreases stop - k,
    {
        let ghost before = string_views(out@);
        out.push(src[k].clone());
        proof {
            assert(string_views(out@) =~= before.push(src@[k as int]@));
            assert(sv.subrange(s - 1, k + 1) =~= sv.subrange(s - 1, k as int).push(sv[k as int]));
        }
        k = k + 1;
    }
}

/// `p` without all of its trailing `c`.
pub open spec fn trim_trailing(p: Seq<char>, c: char) -> Seq<char>
    decreases p.len(),
{
    if p.len() > 0 && p.last() == c {
        trim_trailing(p.drop_last(), c)
    } else {
        p
    }
}

/// `v` without all of its trailing `c` (`str::trim_end_matches` with a character).
pub fn trim_trailing_chars(v: &[char], c: char) -> (r: Vec<char>)
    ensures
        r@ == trim_trailing(v@, c),
{
    let mut n = v.len();
    proof {
        assert(v@.take(n as int) =~= v@);
    }
    while n > 0 && v[n - 1] == c
        invariant
            n <= v@.len(),
            trim_trailing(v@, c) == trim_trailing(v@.take(n as int), c),
        decreases n,
    {
        proof {
            assert(v@.take(n as int).drop_last() =~= v@.take(n - 1));
        }
        n = n - 1;
    }
    proof {
        assert(trim_trailing(v@.take(n as int), c) == v@.take(n as int));
    }
    sub_chars(v, 0, n)
}


/// Trimming the end keeps a prefix, which is not empty when the text starts with a
/// character that is not white space.
pub proof fn lemma_trim_end_prefix(s: Seq<char>)
    ensures
        trim_end(s).len() <= s.len(),
        trim_end(s) == s.take(trim_end(s).len() as int),
        s.len() > 0 && !is_ws(s[0]) ==> trim_end(s).len() > 0,
    decreases s.len(),
{
    if s.len() > 0 && is_ws(s.last()) {
        lemma_trim_end_prefix(s.drop_last());
        let t = trim_end(s.drop_last());
        assert(s.drop_last().take(t.len() as int) =~= s.take(t.len() as int));
        if s.len() > 1 {
            assert(s.drop_last()[0] == s[0]);
        }
    } else {
        assert(s.take(s.len() as int) =~= s);
    }
}

/// The lines of joined lines that hold no line break, the last of which does not end in a
/// carriage return: the same lines with a carriage return at the end dropped, but for a
/// final empty one.
pub proof fn lemma_lines_of_join_cr(ls: Seq<Seq<char>>)
    requires
        forall|i: int| 0 <= i < ls.len() ==> !has_char(#[trigger] ls[i], '\n'),
        ls.len() > 0 && ls.last().len() > 0 ==> ls.last().last() != '\r',
    ensures
        lines(join(ls, seq!['\n'])) == (if ls.len() > 0 && ls.last().len() == 0 {
            ls.drop_last()
        } else {
            ls
        }).map_values(|l: Seq<char>| strip_cr(l)),
    decreases ls.len(),
{
    if ls.len() == 0 {
        lemma_lines_empty(join(ls, seq!['\n']));
        assert(ls.map_values(|l: Seq<char>| strip_cr(l)) =~= Seq::<Seq<char>>::empty());
    } else if ls.len() == 1 {
        let l = ls[0];
        assert(join(ls, seq!['\n']) == l);
        if l.len() > 0 {
            assert forall|j: int| 0 <= j < l.len() implies l[j] != '\n' by {
                if l[j] == '\n' {
                    assert(has_char(l, '\n'));
                }
            }
            lemma_lines_last(l);
            assert(strip_cr(l) == l);
            assert(ls.map_values(|l: Seq<char>| strip_cr(l)) =~= seq![l]);
        } else {
            lemma_lines_empty(l);
            assert(ls.drop_last().map_values(|l: Seq<char>| strip_cr(l)) =~= Seq::<Seq<char>>::empty());
        }
    } else {
        lemma_join_first(ls, seq!['\n']);
        let h = ls[0];
        let rest = join(ls.drop_first(), seq!['\n']);
        let j = join(ls, seq!['\n']);
        assert(j[h.len() as int] == '\n');
        assert forall|k: int| 0 <= k < h.len() implies j[k] != '\n' by {
            assert(j[k] == h[k]);
            if h[k] == '\n' {
                assert(has_char(h, '\n'));
            }
        }
        lemma_lines_step(j, h.len() as int);
        assert(j.take(h.len() as int) =~= h);
        assert(j.skip(h.len() as int + 1) =~= rest);
        let t = ls.drop_first();
        assert forall|i: int| 0 <= i < t.len() implies !has_char(#[trigger] t[i], '\n') by {
            assert(t[i] == ls[i + 1]);
        }
        lemma_lines_of_join_cr(t);
        assert(t.last() == ls.last());
        if ls.last().len() == 0 {
            assert(seq![strip_cr(h)] + t.drop_last().map_values(|l: Seq<char>| strip_cr(l)) =~= ls.drop_last().map_values(
                |l: Seq<char>| strip_cr(l),
            ));
        } else {
            assert(seq![strip_cr(h)] + t.map_values(|l: Seq<char>| strip_cr(l)) =~= ls.map_values(
                |l: Seq<char>| strip_cr(l),
            ));
        }
    }
}

} // verus!
