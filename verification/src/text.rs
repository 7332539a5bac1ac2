//! Text primitives of the wire protocol, on character sequences: Unicode
//! whitespace trimming, splitting on a delimiter, line splitting,
//! prefixes, lexicographic order, and building strings back up.
use vstd::prelude::*;
use vstd::string::*;

verus! {

broadcast use vstd::string::group_string_axioms;

/// Unicode `White_Space`, which is what `char::is_whitespace` (and so
/// `str::trim`) tests for.
pub open spec fn is_ws(c: char) -> bool {
    let v = c as u32;
    ||| 0x9 <= v <= 0xd
    ||| v == 0x20
    ||| v == 0x85
    ||| v == 0xa0
    ||| v == 0x1680
    ||| 0x2000 <= v <= 0x200a
    ||| v == 0x2028
    ||| v == 0x2029
    ||| v == 0x202f
    ||| v == 0x205f
    ||| v == 0x3000
}

pub fn is_ws_exec(c: char) -> (r: bool)
    ensures
        r == is_ws(c),
{
    let v = c as u32;
    (0x9 <= v && v <= 0xd) || v == 0x20 || v == 0x85 || v == 0xa0 || v == 0x1680 || (0x2000
        <= v && v <= 0x200a) || v == 0x2028 || v == 0x2029 || v == 0x202f || v == 0x205f || v
        == 0x3000
}

/// `s` with leading whitespace removed.
pub open spec fn trim_start(s: Seq<char>) -> Seq<char>
    decreases s.len(),
{
    if s.len() > 0 && is_ws(s[0]) {
        trim_start(s.drop_first())
    } else {
        s
    }
}

/// `s` with trailing whitespace removed.
pub open spec fn trim_end(s: Seq<char>) -> Seq<char>
    decreases s.len(),
{
    if s.len() > 0 && is_ws(s.last()) {
        trim_end(s.drop_last())
    } else {
        s
    }
}

/// `s` with whitespace removed from both ends, as `str::trim` does.
pub open spec fn trim(s: Seq<char>) -> Seq<char> {
    trim_end(trim_start(s))
}

/// A sequence with no whitespace at either end: `trim` leaves it as is.
pub open spec fn is_trimmed(s: Seq<char>) -> bool {
    s.len() > 0 ==> !is_ws(s[0]) && !is_ws(s.last())
}

/// Index of the first `c` in `s`, or `s.len()` when there is none.
pub open spec fn find_char(s: Seq<char>, c: char) -> int
    decreases s.len(),
{
    if s.len() == 0 {
        0
    } else if s[0] == c {
        0
    } else {
        1 + find_char(s.drop_first(), c)
    }
}

/// `find_char` is the first occurrence, or the length when there is none.
pub proof fn lemma_find_char(s: Seq<char>, c: char)
    ensures
        0 <= find_char(s, c) <= s.len(),
        forall|j: int| 0 <= j < find_char(s, c) ==> s[j] != c,
        find_char(s, c) < s.len() ==> s[find_char(s, c)] == c,
    decreases s.len(),
{
    if s.len() > 0 && s[0] != c {
        lemma_find_char(s.drop_first(), c);
        assert forall|j: int| 0 <= j < find_char(s, c) implies s[j] != c by {
            if j > 0 {
                assert(s[j] == s.drop_first()[j - 1]);
            }
        }
    }
}

/// Any index meeting the description of `find_char` is `find_char`.
pub proof fn lemma_find_char_unique(s: Seq<char>, c: char, k: int)
    requires
        0 <= k <= s.len(),
        forall|j: int| 0 <= j < k ==> s[j] != c,
        k < s.len() ==> s[k] == c,
    ensures
        find_char(s, c) == k,
{
    lemma_find_char(s, c);
    let f = find_char(s, c);
    if f < k {
        assert(s[f] != c);
    } else if k < f {
        assert(s[k] != c);
    }
}

/// The pieces of `s` between occurrences of `c`, as `str::split` gives
/// them: always at least one piece.
pub open spec fn split_on(s: Seq<char>, c: char) -> Seq<Seq<char>>
    decreases s.len(),
{
    let k = find_char(s, c);
    if k >= s.len() {
        seq![s]
    } else {
        proof {
            lemma_find_char(s, c);
        }
        seq![s.take(k)] + split_on(s.skip(k + 1), c)
    }
}

/// `s` split at the first `c`, as `str::splitn(2, c)` gives it: the part
/// before it, and the rest after it if there is a `c` at all.
pub open spec fn split_once(s: Seq<char>, c: char) -> (Seq<char>, Option<Seq<char>>) {
    let k = find_char(s, c);
    if k >= s.len() {
        (s, None)
    } else {
        (s.take(k), Some(s.skip(k + 1)))
    }
}

/// A line as `str::lines` yields it: a trailing `'\r'` is dropped only from
/// a line that was ended by `'\n'`.
pub open spec fn strip_cr(s: Seq<char>) -> Seq<char> {
    if s.len() > 0 && s.last() == '\r' {
        s.drop_last()
    } else {
        s
    }
}

/// The lines of `s`, as `str::lines` gives them: no final empty line after
/// a trailing `'\n'`, and none at all for an empty string.
pub open spec fn lines_of(s: Seq<char>) -> Seq<Seq<char>>
    decreases s.len(),
{
    if s.len() == 0 {
        seq![]
    } else {
        let k = find_char(s, '\n');
        if k >= s.len() {
            seq![s]
        } else {
            proof {
                lemma_find_char(s, '\n');
            }
            seq![strip_cr(s.take(k))] + lines_of(s.skip(k + 1))
        }
    }
}

/// `p` is a prefix of `s`.
pub open spec fn has_prefix(s: Seq<char>, p: Seq<char>) -> bool {
    p.len() <= s.len() && s.take(p.len() as int) == p
}

/// Strict lexicographic order on character sequences by code point, which
/// is the order `String`'s `Ord` gives (UTF-8 preserves code point order).
pub open spec fn seq_lt(a: Seq<char>, b: Seq<char>) -> bool
    decreases a.len(),
{
    if a.len() == 0 {
        b.len() > 0
    } else if b.len() == 0 {
        false
    } else if a[0] != b[0] {
        a[0] < b[0]
    } else {
        seq_lt(a.drop_first(), b.drop_first())
    }
}

pub open spec fn seq_le(a: Seq<char>, b: Seq<char>) -> bool {
    a == b || seq_lt(a, b)
}

/// Pieces joined with `sep` between consecutive ones, as `[T]::join` does.
pub open spec fn join_with(pieces: Seq<Seq<char>>, sep: Seq<char>) -> Seq<char>
    decreases pieces.len(),
{
    if pieces.len() == 0 {
        seq![]
    } else if pieces.len() == 1 {
        pieces[0]
    } else {
        join_with(pieces.drop_last(), sep) + sep + pieces.last()
    }
}

/// The characters of `s`, one by one.
pub fn to_chars(s: &str) -> (v: Vec<char>)
    ensures
        v@ == s@,
{
    let mut v: Vec<char> = Vec::new();
    let mut it = s.chars();
    let ghost all = s@;
    loop
        invariant_except_break
            vstd::std_specs::iter::IteratorSpec::remaining(&it) == all.skip(v@.len() as int),
            v@ == all.take(v@.len() as int),
            v@.len() <= all.len(),
            vstd::std_specs::iter::IteratorSpec::obeys_prophetic_iter_laws(&it),
        ensures
            v@ == all,
        decreases all.len() - v@.len(),
    {
        let ghost before: int = v@.len() as int;
        match it.next() {
            Some(c) => {
                proof {
                    assert(all.skip(before as int)[0] == c);
                    assert(all.skip(before as int).drop_first() =~= all.skip(before + 1int));
                }
                v.push(c);
                proof {
                    assert(all.take(before + 1int) =~= all.take(before as int).push(c));
                }
            },
            None => {
                proof {
                    assert(all.skip(before as int).len() == 0);
                    assert(all.take(before as int) =~= all);
                }
                break ;
            },
        }
    }
    v
}


/// `v[lo..hi]` without whitespace at either end, as bounds into `v`.
pub fn trim_bounds(v: &[char], lo: usize, hi: usize) -> (res: (usize, usize))
    requires
        lo <= hi <= v@.len(),
    ensures
        lo <= res.0 <= res.1 <= hi,
        v@.subrange(res.0 as int, res.1 as int) == trim(v@.subrange(lo as int, hi as int)),
{
    let mut a = lo;
    while a < hi && is_ws_exec(v[a])
        invariant
            lo <= a <= hi <= v@.len(),
            trim_start(v@.subrange(lo as int, hi as int)) == trim_start(
                v@.subrange(a as int, hi as int),
            ),
        decreases hi - a,
    {
        proof {
            assert(v@.subrange(a as int, hi as int).drop_first() =~= v@.subrange(
                a + 1int,
                hi as int,
            ));
        }
        a = a + 1;
    }
    let mut b = hi;
    while b > a && is_ws_exec(v[b - 1])
        invariant
            lo <= a <= b <= hi <= v@.len(),
            trim(v@.subrange(lo as int, hi as int)) == trim_end(v@.subrange(a as int, b as int)),
            a < b ==> !is_ws(v@[a as int]),
        decreases b - a,
    {
        proof {
            assert(v@.subrange(a as int, b as int).drop_last() =~= v@.subrange(
                a as int,
                b - 1int,
            ));
        }
        b = b - 1;
    }
    (a, b)
}

/// Index of the first `c` in `v[lo..hi]`, counted from the start of `v`;
/// `hi` when there is none.
pub fn find_in(v: &[char], lo: usize, hi: usize, c: char) -> (k: usize)
    requires
        lo <= hi <= v@.len(),
    ensures
        lo <= k <= hi,
        k - lo == find_char(v@.subrange(lo as int, hi as int), c),
{
    let mut i = lo;
    while i < hi && v[i] != c
        invariant
            lo <= i <= hi <= v@.len(),
            forall|j: int| lo <= j < i ==> v@[j] != c,
        decreases hi - i,
    {
        i = i + 1;
    }
    proof {
        let sub = v@.subrange(lo as int, hi as int);
        assert forall|j: int| 0 <= j < i - lo implies sub[j] != c by {
            assert(sub[j] == v@[lo + j]);
        }
        lemma_find_char_unique(sub, c, i - lo);
    }
    i
}

/// A copy of the characters `lo..hi` of `s`.
pub fn sub_string(s: &str, lo: usize, hi: usize) -> (r: String)
    requires
        lo <= hi <= s@.len(),
    ensures
        r@ == s@.subrange(lo as int, hi as int),
{
    s.substring_char(lo, hi).to_owned()
}

/// `a` and `b` hold the same characters.
pub fn str_eq(a: &str, b: &str) -> (r: bool)
    ensures
        r == (a@ == b@),
{
    let av = to_chars(a);
    let n = av.len();
    proof {
        assert(av@.subrange(0, n as int) =~= av@);
    }
    eq_lit(av.as_slice(), 0, n, b)
}

/// `v[lo..hi]` spells out `lit`.
pub fn eq_lit(v: &[char], lo: usize, hi: usize, lit: &str) -> (r: bool)
    requires
        lo <= hi <= v@.len(),
    ensures
        r == (v@.subrange(lo as int, hi as int) == lit@),
{
    let n = lit.unicode_len();
    if hi - lo != n {
        proof {
            assert(v@.subrange(lo as int, hi as int).len() != lit@.len());
        }
        return false;
    }
    let mut i: usize = 0;
    while i < n
        invariant
            i <= n,
            n == lit@.len(),
            hi - lo == n,
            lo <= hi <= v@.len(),
            forall|j: int| 0 <= j < i ==> v@[lo + j] == lit@[j],
        decreases n - i,
    {
        if v[lo + i] != lit.get_char(i) {
            proof {
                assert(v@.subrange(lo as int, hi as int)[i as int] != lit@[i as int]);
            }
            return false;
        }
        i = i + 1;
    }
    proof {
        assert(v@.subrange(lo as int, hi as int) =~= lit@);
    }
    true
}

/// Whether `v[lo..hi]` contains `c`.
pub fn contains_in(v: &[char], lo: usize, hi: usize, c: char) -> (r: bool)
    requires
        lo <= hi <= v@.len(),
    ensures
        r == v@.subrange(lo as int, hi as int).contains(c),
{
    let k = find_in(v, lo, hi, c);
    proof {
        let sub = v@.subrange(lo as int, hi as int);
        lemma_find_char(sub, c);
        if k < hi {
            assert(sub[k - lo] == c);
        } else {
            assert forall|j: int| 0 <= j < sub.len() implies sub[j] != c by {}
        }
    }
    k < hi
}

pub open spec fn hex_alphabet() -> Seq<char> {
    seq!['0', '1', '2', '3', '4', '5', '6', '7', '8', '9', 'a', 'b', 'c', 'd', 'e', 'f']
}

/// The digit for `d` (below 16) in base 16, lower case; also the decimal
/// digit for `d` below 10.
pub open spec fn digit_char(d: int) -> char {
    hex_alphabet()[d]
}

/// Appends the digit for `d`.
pub fn push_digit(out: &mut String, d: u64)
    requires
        d < 16,
    ensures
        final(out)@ == old(out)@.push(digit_char(d as int)),
{
    let alphabet = "0123456789abcdef";
    proof {
        reveal_strlit("0123456789abcdef");
        assert(alphabet@ =~= hex_alphabet());
    }
    let piece = alphabet.substring_char(d as usize, d as usize + 1);
    proof {
        assert(piece@ =~= seq![digit_char(d as int)]);
    }
    out.append(piece);
}

/// Decimal digits of `n`, most significant first, no leading zeros.
pub open spec fn dec_digits(n: nat) -> Seq<char>
    decreases n,
{
    if n < 10 {
        seq![digit_char(n as int)]
    } else {
        dec_digits(n / 10).push(digit_char((n % 10) as int))
    }
}

/// Exactly `width` base-16 digits of `n` (the low ones), zero-padded.
pub open spec fn hex_digits(n: nat, width: nat) -> Seq<char>
    decreases width,
{
    if width == 0 {
        seq![]
    } else {
        hex_digits(n / 16, (width - 1) as nat).push(digit_char((n % 16) as int))
    }
}

/// Appends the decimal digits of `n`.
pub fn push_dec(out: &mut String, n: u64)
    ensures
        final(out)@ == old(out)@ + dec_digits(n as nat),
    decreases n,
{
    if n >= 10 {
        push_dec(out, n / 10);
    }
    push_digit(out, n % 10);
    proof {
        if n >= 10 {
            assert(dec_digits(n as nat) == dec_digits((n / 10) as nat).push(
                digit_char((n % 10) as int),
            ));
        } else {
            assert(dec_digits(n as nat) == seq![digit_char(n as int)]);
        }
    }
}

/// Appends exactly `width` hex digits of `n`.
pub fn push_hex(out: &mut String, n: u64, width: u32)
    ensures
        final(out)@ == old(out)@ + hex_digits(n as nat, width as nat),
    decreases width,
{
    if width > 0 {
        push_hex(out, n / 16, width - 1);
        push_digit(out, n % 16);
    }
}

/// The text `{}` formats an `i32` as.
pub open spec fn i32_text(n: int) -> Seq<char> {
    if n < 0 {
        seq!['-'] + dec_digits((-n) as nat)
    } else {
        dec_digits(n as nat)
    }
}

/// Appends `n` as `{}` formats it.
pub fn push_i32(out: &mut String, n: i32)
    ensures
        final(out)@ == old(out)@ + i32_text(n as int),
{
    if n < 0 {
        out.append("-");
        proof {
            reveal_strlit("-");
        }
        let m: i64 = -(n as i64);
        let ghost mid = out@;
        push_dec(out, m as u64);
        proof {
            assert(out@ =~= old(out)@ + i32_text(n as int));
        }
    } else {
        push_dec(out, n as u64);
    }
}

pub open spec fn is_digit(c: char) -> bool {
    '0' <= c <= '9'
}

pub open spec fn all_digits(s: Seq<char>) -> bool {
    forall|i: int| 0 <= i < s.len() ==> is_digit(#[trigger] s[i])
}

/// Value of a run of decimal digits.
pub open spec fn digits_value(s: Seq<char>) -> nat
    decreases s.len(),
{
    if s.len() == 0 {
        0
    } else {
        digits_value(s.drop_last()) * 10 + ((s.last() as u32) - ('0' as u32)) as nat
    }
}

/// The integer a decimal literal with an optional sign denotes, as the
/// standard integer parsers read it: `+` is always allowed, `-` only for
/// signed types, at least one digit, nothing else. `None` when malformed.
pub open spec fn decimal_value(s: Seq<char>, signed: bool) -> Option<int> {
    if s.len() == 0 {
        None
    } else if s[0] == '+' {
        if s.len() > 1 && all_digits(s.drop_first()) {
            Some(digits_value(s.drop_first()) as int)
        } else {
            None
        }
    } else if s[0] == '-' && signed {
        if s.len() > 1 && all_digits(s.drop_first()) {
            Some(-(digits_value(s.drop_first()) as int))
        } else {
            None
        }
    } else if all_digits(s) {
        Some(digits_value(s) as int)
    } else {
        None
    }
}

/// What `str::parse::<i32>` gives for `s`.
pub open spec fn parse_i32_spec(s: Seq<char>) -> Option<i32> {
    match decimal_value(s, true) {
        Some(v) => if i32::MIN <= v <= i32::MAX {
            Some(v as i32)
        } else {
            None
        },
        None => None,
    }
}

/// What `str::parse::<u32>` gives for `s`.
pub open spec fn parse_u32_spec(s: Seq<char>) -> Option<u32> {
    match decimal_value(s, false) {
        Some(v) => if 0 <= v <= u32::MAX {
            Some(v as u32)
        } else {
            None
        },
        None => None,
    }
}

proof fn lemma_digits_value_grows(s: Seq<char>, i: int)
    requires
        0 <= i <= s.len(),
        all_digits(s),
    ensures
        digits_value(s.take(i)) <= digits_value(s),
    decreases s.len() - i,
{
    if i < s.len() {
        lemma_digits_value_grows(s, i + 1);
        assert(s.take(i + 1).drop_last() =~= s.take(i));
    } else {
        assert(s.take(i) =~= s);
    }
}

/// Value of the all-digit run `v[lo..hi]`, or `None` once it exceeds `limit`.
fn digits_value_upto(v: &[char], lo: usize, hi: usize, limit: u64) -> (r: Option<u64>)
    requires
        lo < hi <= v@.len(),
        limit <= u32::MAX + 1,
    ensures
        all_digits(v@.subrange(lo as int, hi as int)) ==> match r {
            Some(n) => n == digits_value(v@.subrange(lo as int, hi as int)) && n <= limit,
            None => digits_value(v@.subrange(lo as int, hi as int)) > limit,
        },
        !all_digits(v@.subrange(lo as int, hi as int)) ==> r is None,
{
    let ghost sub = v@.subrange(lo as int, hi as int);
    let mut acc: u64 = 0;
    let mut i = lo;
    while i < hi
        invariant
            lo <= i <= hi <= v@.len(),
            sub == v@.subrange(lo as int, hi as int),
            limit <= u32::MAX + 1,
            all_digits(sub.take(i - lo)),
            acc == digits_value(sub.take(i - lo)),
            acc <= limit,
        decreases hi - i,
    {
        let c = v[i];
        if !('0' <= c && c <= '9') {
            proof {
                assert(sub[i - lo] == c);
            }
            return None;
        }
        let d = (c as u32 - '0' as u32) as u64;
        proof {
            assert(sub.take(i - lo + 1).drop_last() =~= sub.take(i - lo));
            assert(sub.take(i - lo + 1).last() == c);
            assert forall|j: int| 0 <= j < i - lo + 1 implies is_digit(
                #[trigger] sub.take(i - lo + 1)[j],
            ) by {
                if j < i - lo {
                    assert(sub.take(i - lo + 1)[j] == sub.take(i - lo)[j]);
                }
            }
        }
        acc = acc * 10 + d;
        i = i + 1;
        if acc > limit {
            proof {
                if all_digits(sub) {
                    lemma_digits_value_grows(sub, i - lo);
                }
            }
            return None;
        }
    }
    proof {
        assert(sub.take(i - lo) =~= sub);
    }
    Some(acc)
}

/// `str::parse::<i32>` on `v[lo..hi]`.
pub fn parse_i32(v: &[char], lo: usize, hi: usize) -> (r: Option<i32>)
    requires
        lo <= hi <= v@.len(),
    ensures
        r == parse_i32_spec(v@.subrange(lo as int, hi as int)),
{
    let ghost s = v@.subrange(lo as int, hi as int);
    if lo == hi {
        return None;
    }
    let c = v[lo];
    if c == '+' || c == '-' {
        if hi - lo == 1 {
            return None;
        }
        let limit: u64 = if c == '-' { 2147483648 } else { 2147483647 };
        proof {
            assert(s.drop_first() =~= v@.subrange(lo + 1int, hi as int));
        }
        match digits_value_upto(v, lo + 1, hi, limit) {
            Some(m) => {
                if c == '-' {
                    Some((0i64 - m as i64) as i32)
                } else {
                    Some(m as i32)
                }
            },
            None => None,
        }
    } else {
        proof {
            if all_digits(s) {
                assert(is_digit(s[0]));
            }
        }
        match digits_value_upto(v, lo, hi, 2147483647) {
            Some(m) => Some(m as i32),
            None => None,
        }
    }
}

/// `str::parse::<u32>` on `v[lo..hi]`.
pub fn parse_u32(v: &[char], lo: usize, hi: usize) -> (r: Option<u32>)
    requires
        lo <= hi <= v@.len(),
    ensures
        r == parse_u32_spec(v@.subrange(lo as int, hi as int)),
{
    let ghost s = v@.subrange(lo as int, hi as int);
    if lo == hi {
        return None;
    }
    let c = v[lo];
    if c == '+' {
        if hi - lo == 1 {
            return None;
        }
        proof {
            assert(s.drop_first() =~= v@.subrange(lo + 1int, hi as int));
        }
        match digits_value_upto(v, lo + 1, hi, 4294967295) {
            Some(m) => Some(m as u32),
            None => None,
        }
    } else {
        proof {
            if all_digits(s) {
                assert(is_digit(s[0]));
            }
            if c == '-' {
                assert(!is_digit(s[0]));
            }
        }
        match digits_value_upto(v, lo, hi, 4294967295) {
            Some(m) => Some(m as u32),
            None => None,
        }
    }
}


/// The strings of `v` joined with `sep` between consecutive ones.
pub fn join_strings(v: &[String], sep: &str) -> (r: String)
    ensures
        r@ == join_with(crate::order::texts(v@), sep@),
{
    let ghost ts = crate::order::texts(v@);
    let mut r = String::new();
    let mut i: usize = 0;
    while i < v.len()
        invariant
            i <= v@.len(),
            ts == crate::order::texts(v@),
            r@ == join_with(ts.take(i as int), sep@),
        decreases v@.len() - i,
    {
        proof {
            assert(ts.take(i + 1int).drop_last() =~= ts.take(i as int));
            assert(ts.take(i + 1int).last() == v@[i as int]@);
        }
        if i > 0 {
            r.append(sep);
        } else {
            proof {
                assert(ts.take(0) =~= Seq::<Seq<char>>::empty());
            }
        }
        r.append(v[i].as_str());
        i = i + 1;
    }
    proof {
        assert(ts.take(v@.len() as int) =~= ts);
    }
    r
}


/// A sequence with no whitespace at either end is its own trim.
pub proof fn lemma_trim_trimmed(s: Seq<char>)
    requires
        is_trimmed(s),
    ensures
        trim(s) == s,
{
    assert(trim_start(s) == s);
    assert(trim_end(s) == s);
}

/// The first `c` in `a + [c] + b`, when `a` has none, is right after `a`.
pub proof fn lemma_find_char_concat(a: Seq<char>, c: char, b: Seq<char>)
    requires
        !a.contains(c),
    ensures
        find_char(a + seq![c] + b, c) == a.len(),
{
    let s = a + seq![c] + b;
    assert forall|j: int| 0 <= j < a.len() implies s[j] != c by {
        assert(s[j] == a[j]);
        if a[j] == c {
            assert(a.contains(c));
        }
    }
    assert(s[a.len() as int] == c);
    lemma_find_char_unique(s, c, a.len() as int);
}

/// A sequence without `c` has `find_char` at its end.
pub proof fn lemma_find_char_absent(a: Seq<char>, c: char)
    requires
        !a.contains(c),
    ensures
        find_char(a, c) == a.len(),
{
    assert forall|j: int| 0 <= j < a.len() implies a[j] != c by {
        if a[j] == c {
            assert(a.contains(c));
        }
    }
    lemma_find_char_unique(a, c, a.len() as int);
}

pub proof fn lemma_split_once_concat(a: Seq<char>, c: char, b: Seq<char>)
    requires
        !a.contains(c),
    ensures
        split_once(a + seq![c] + b, c) == (a, Some(b)),
{
    lemma_find_char_concat(a, c, b);
    let s = a + seq![c] + b;
    assert(s.take(a.len() as int) =~= a);
    assert(s.skip(a.len() + 1int) =~= b);
}

pub proof fn lemma_split_on_absent(a: Seq<char>, c: char)
    requires
        !a.contains(c),
    ensures
        split_on(a, c) == seq![a],
{
    lemma_find_char_absent(a, c);
}

/// Splitting on `c` across an occurrence of `c` splits each side.
pub proof fn lemma_split_on_concat(a: Seq<char>, c: char, b: Seq<char>)
    ensures
        split_on(a + seq![c] + b, c) == split_on(a, c) + split_on(b, c),
    decreases a.len(),
{
    let s = a + seq![c] + b;
    lemma_find_char(a, c);
    let k = find_char(a, c);
    if k >= a.len() {
        assert(!a.contains(c)) by {
            if a.contains(c) {
                let j = choose|j: int| 0 <= j < a.len() && a[j] == c;
            }
        }
        lemma_find_char_concat(a, c, b);
        assert(s.take(a.len() as int) =~= a);
        assert(s.skip(a.len() + 1int) =~= b);
        assert(split_on(a, c) == seq![a]);
        assert(split_on(s, c) =~= seq![a] + split_on(b, c));
    } else {
        assert forall|j: int| 0 <= j < k implies s[j] != c by {
            assert(s[j] == a[j]);
        }
        assert(s[k] == c);
        lemma_find_char_unique(s, c, k);
        let a2 = a.skip(k + 1);
        assert(s.take(k) =~= a.take(k));
        assert(s.skip(k + 1) =~= a2 + seq![c] + b);
        lemma_split_on_concat(a2, c, b);
        assert(split_on(s, c) =~= seq![a.take(k)] + (split_on(a2, c) + split_on(b, c)));
        assert(split_on(a, c) =~= seq![a.take(k)] + split_on(a2, c));
    }
}

/// Splitting a join on its separator gives back the pieces, when no piece
/// holds the separator.
pub proof fn lemma_split_join(ps: Seq<Seq<char>>, c: char)
    requires
        ps.len() > 0,
        forall|i: int| 0 <= i < ps.len() ==> !(#[trigger] ps[i]).contains(c),
    ensures
        split_on(join_with(ps, seq![c]), c) == ps,
    decreases ps.len(),
{
    if ps.len() == 1 {
        assert(join_with(ps, seq![c]) == ps[0]);
        lemma_split_on_absent(ps[0], c);
        assert(ps =~= seq![ps[0]]);
    } else {
        let p = ps.drop_last();
        assert forall|i: int| 0 <= i < p.len() implies !(#[trigger] p[i]).contains(c) by {
            assert(p[i] == ps[i]);
        }
        lemma_split_join(p, c);
        assert(!ps.last().contains(c)) by {
            assert(ps.last() == ps[ps.len() - 1]);
        }
        lemma_split_on_concat(join_with(p, seq![c]), c, ps.last());
        lemma_split_on_absent(ps.last(), c);
        assert(ps =~= p + seq![ps.last()]);
    }
}

/// A join holds `x` only if some piece does, when the separator is not `x`.
pub proof fn lemma_join_lacks(ps: Seq<Seq<char>>, c: char, x: char)
    requires
        c != x,
        forall|i: int| 0 <= i < ps.len() ==> !(#[trigger] ps[i]).contains(x),
    ensures
        !join_with(ps, seq![c]).contains(x),
    decreases ps.len(),
{
    if ps.len() == 1 {
        assert(ps[0] == join_with(ps, seq![c]));
    } else if ps.len() > 1 {
        let p = ps.drop_last();
        assert forall|i: int| 0 <= i < p.len() implies !(#[trigger] p[i]).contains(x) by {
            assert(p[i] == ps[i]);
        }
        lemma_join_lacks(p, c, x);
        let j = join_with(p, seq![c]);
        let l = ps.last();
        assert(!l.contains(x)) by {
            assert(l == ps[ps.len() - 1]);
        }
        let all = j + seq![c] + l;
        assert(join_with(ps, seq![c]) == all);
        if all.contains(x) {
            let i = choose|i: int| 0 <= i < all.len() && all[i] == x;
            if i < j.len() {
                assert(j[i] == x);
            } else if i > j.len() {
                assert(l[i - j.len() - 1] == x);
            }
        }
    }
}

/// The ends of a join are the ends of its outer pieces.
pub proof fn lemma_join_ends(ps: Seq<Seq<char>>, c: char)
    requires
        ps.len() > 0,
        ps[0].len() > 0,
        ps.last().len() > 0,
    ensures
        join_with(ps, seq![c]).len() > 0,
        join_with(ps, seq![c])[0] == ps[0][0],
        join_with(ps, seq![c]).last() == ps.last().last(),
    decreases ps.len(),
{
    if ps.len() > 1 {
        let p = ps.drop_last();
        if p.len() > 1 {
            assert(p.last() == ps[ps.len() - 2]);
        }
        assert(p[0] == ps[0]);
        lemma_join_ends_first(p, c);
    }
}

pub proof fn lemma_join_ends_first(ps: Seq<Seq<char>>, c: char)
    requires
        ps.len() > 0,
        ps[0].len() > 0,
    ensures
        join_with(ps, seq![c]).len() > 0,
        join_with(ps, seq![c])[0] == ps[0][0],
    decreases ps.len(),
{
    if ps.len() > 1 {
        let p = ps.drop_last();
        assert(p[0] == ps[0]);
        lemma_join_ends_first(p, c);
    }
}


/// A decimal digit character and the value `digits_value` reads from it.
proof fn lemma_digit_char(d: int)
    requires
        0 <= d < 10,
    ensures
        is_digit(digit_char(d)),
        (digit_char(d) as u32) - ('0' as u32) == d,
{
    if d == 0 {
        assert(digit_char(d) == '0');
    } else if d == 1 {
        assert(digit_char(d) == '1');
    } else if d == 2 {
        assert(digit_char(d) == '2');
    } else if d == 3 {
        assert(digit_char(d) == '3');
    } else if d == 4 {
        assert(digit_char(d) == '4');
    } else if d == 5 {
        assert(digit_char(d) == '5');
    } else if d == 6 {
        assert(digit_char(d) == '6');
    } else if d == 7 {
        assert(digit_char(d) == '7');
    } else if d == 8 {
        assert(digit_char(d) == '8');
    } else {
        assert(digit_char(d) == '9');
    }
}

/// The decimal digits of `n` are digits, at least one, and read back as `n`.
pub proof fn lemma_dec_digits(n: nat)
    ensures
        dec_digits(n).len() > 0,
        all_digits(dec_digits(n)),
        digits_value(dec_digits(n)) == n,
    decreases n,
{
    if n < 10 {
        lemma_digit_char(n as int);
        let s = dec_digits(n);
        assert(s.drop_last() =~= Seq::<char>::empty());
        assert(digits_value(s.drop_last()) == 0);
    } else {
        lemma_dec_digits(n / 10);
        lemma_digit_char((n % 10) as int);
        let s = dec_digits(n);
        let p = dec_digits(n / 10);
        assert(s.drop_last() =~= p);
        assert forall|i: int| 0 <= i < s.len() implies is_digit(#[trigger] s[i]) by {
            if i < p.len() {
                assert(s[i] == p[i]);
            }
        }
    }
}

/// `{}` on an `i32` parses back to the same value.
pub proof fn lemma_i32_text_parses(n: i32)
    ensures
        parse_i32_spec(i32_text(n as int)) == Some(n),
{
    if n < 0 {
        lemma_dec_digits((-n) as nat);
        let t = i32_text(n as int);
        assert(t.drop_first() =~= dec_digits((-n) as nat));
    } else {
        lemma_dec_digits(n as nat);
        let t = i32_text(n as int);
        assert(is_digit(t[0]));
    }
}

/// `{}` on an integer shows digits and at most a leading `-`: no space,
/// comma, line break or carriage return, and at least one character.
pub proof fn lemma_i32_text_plain(n: int)
    ensures
        i32_text(n).len() > 0,
        !i32_text(n).contains(' '),
        !i32_text(n).contains(','),
        !i32_text(n).contains('\n'),
        !i32_text(n).contains('\r'),
{
    let t = i32_text(n);
    let d = if n < 0 { dec_digits((-n) as nat) } else { dec_digits(n as nat) };
    lemma_dec_digits(if n < 0 { (-n) as nat } else { n as nat });
    assert forall|i: int| 0 <= i < t.len() implies t[i] == '-' || is_digit(#[trigger] t[i]) by {
        if n < 0 {
            if i > 0 {
                assert(t[i] == d[i - 1]);
            }
        }
    }
}

/// A join of two or more pieces holds the separator.
pub proof fn lemma_join_has_sep(ps: Seq<Seq<char>>, c: char)
    requires
        ps.len() >= 2,
    ensures
        join_with(ps, seq![c]).contains(c),
{
    let j = join_with(ps.drop_last(), seq![c]);
    let all = j + seq![c] + ps.last();
    assert(all[j.len() as int] == c);
}

/// A join begins with its first piece.
pub proof fn lemma_join_prefix(ps: Seq<Seq<char>>, sep: Seq<char>)
    requires
        ps.len() > 0,
    ensures
        join_with(ps, sep).len() >= ps[0].len(),
        join_with(ps, sep).take(ps[0].len() as int) == ps[0],
    decreases ps.len(),
{
    if ps.len() == 1 {
        assert(join_with(ps, sep).take(ps[0].len() as int) =~= ps[0]);
    } else {
        let p = ps.drop_last();
        assert(p[0] == ps[0]);
        lemma_join_prefix(p, sep);
        let j = join_with(p, sep);
        assert((j + sep + ps.last()).take(ps[0].len() as int) =~= j.take(ps[0].len() as int));
    }
}

/// `str::lines` on a text that does not end a line break, and whose pieces
/// between line breaks do not end in a carriage return, gives those pieces.
pub proof fn lemma_lines_split(s: Seq<char>)
    requires
        s.len() > 0,
        s.last() != '\n',
        forall|i: int|
            0 <= i < split_on(s, '\n').len() ==> (#[trigger] split_on(s, '\n')[i]).len() > 0
                ==> split_on(s, '\n')[i].last() != '\r',
    ensures
        lines_of(s) == split_on(s, '\n'),
    decreases s.len(),
{
    let k = find_char(s, '\n');
    lemma_find_char(s, '\n');
    if k < s.len() {
        let rest = s.skip(k + 1);
        assert(k + 1 < s.len());
        assert(rest.last() == s.last());
        let sp = split_on(s, '\n');
        assert(sp == seq![s.take(k)] + split_on(rest, '\n'));
        assert forall|i: int|
            0 <= i < split_on(rest, '\n').len() && (#[trigger] split_on(rest, '\n')[i]).len() > 0 implies split_on(
                rest,
                '\n',
            )[i].last() != '\r' by {
            assert(split_on(rest, '\n')[i] == sp[i + 1]);
        }
        lemma_lines_split(rest);
        assert(sp[0] == s.take(k));
        assert(strip_cr(s.take(k)) == s.take(k));
    }
}

/// A character of a protocol keyword: lower-case ASCII letter, `_` or `-`.
pub open spec fn is_word_char(c: char) -> bool {
    ('a' <= c <= 'z') || c == '_' || c == '-'
}

/// A keyword of at most 18 characters, shown character by character, is
/// made of keyword characters only, and so holds no space, comma or colon
/// and no whitespace.
pub proof fn lemma_word(s: Seq<char>)
    requires
        s.len() <= 18,
        s.len() > 0 ==> is_word_char(s[0]),
        s.len() > 1 ==> is_word_char(s[1]),
        s.len() > 2 ==> is_word_char(s[2]),
        s.len() > 3 ==> is_word_char(s[3]),
        s.len() > 4 ==> is_word_char(s[4]),
        s.len() > 5 ==> is_word_char(s[5]),
        s.len() > 6 ==> is_word_char(s[6]),
        s.len() > 7 ==> is_word_char(s[7]),
        s.len() > 8 ==> is_word_char(s[8]),
        s.len() > 9 ==> is_word_char(s[9]),
        s.len() > 10 ==> is_word_char(s[10]),
        s.len() > 11 ==> is_word_char(s[11]),
        s.len() > 12 ==> is_word_char(s[12]),
        s.len() > 13 ==> is_word_char(s[13]),
        s.len() > 14 ==> is_word_char(s[14]),
        s.len() > 15 ==> is_word_char(s[15]),
        s.len() > 16 ==> is_word_char(s[16]),
        s.len() > 17 ==> is_word_char(s[17]),
    ensures
        forall|i: int| 0 <= i < s.len() ==> is_word_char(#[trigger] s[i]),
        !s.contains(' '),
        !s.contains(','),
        !s.contains(':'),
        !s.contains('\n'),
        s.len() > 0 ==> !is_ws(s[0]) && !is_ws(s.last()),
{
    assert forall|i: int| 0 <= i < s.len() implies is_word_char(#[trigger] s[i]) by {
        if i == 0 {} else if i == 1 {} else if i == 2 {} else if i == 3 {} else if i == 4 {} else if i == 5 {} else if i == 6 {} else if i == 7 {} else if i == 8 {} else if i == 9 {} else if i == 10 {} else if i == 11 {} else if i == 12 {} else if i == 13 {} else if i == 14 {} else if i == 15 {} else if i == 16 {} else if i == 17 {}
    }
    if s.contains(' ') {
        let i = choose|i: int| 0 <= i < s.len() && s[i] == ' ';
        assert(is_word_char(s[i]));
    }
    if s.contains(',') {
        let i = choose|i: int| 0 <= i < s.len() && s[i] == ',';
        assert(is_word_char(s[i]));
    }
    if s.contains(':') {
        let i = choose|i: int| 0 <= i < s.len() && s[i] == ':';
        assert(is_word_char(s[i]));
    }
    if s.contains('\n') {
        let i = choose|i: int| 0 <= i < s.len() && s[i] == '\n';
        assert(is_word_char(s[i]));
    }
    if s.len() > 0 {
        assert(is_word_char(s[0]));
        assert(is_word_char(s[s.len() - 1]));
    }
}

proof fn lemma_trim_start_head(s: Seq<char>)
    ensures
        trim_start(s).len() > 0 ==> !is_ws(trim_start(s)[0]),
    decreases s.len(),
{
    if s.len() > 0 && is_ws(s[0]) {
        lemma_trim_start_head(s.drop_first());
    }
}

proof fn lemma_trim_end_prefix(s: Seq<char>)
    ensures
        trim_end(s).len() <= s.len(),
        trim_end(s) == s.take(trim_end(s).len() as int),
        trim_end(s).len() > 0 ==> !is_ws(trim_end(s).last()),
    decreases s.len(),
{
    if s.len() > 0 && is_ws(s.last()) {
        let p = s.drop_last();
        lemma_trim_end_prefix(p);
        assert(p.take(trim_end(p).len() as int) =~= s.take(trim_end(p).len() as int));
    } else {
        assert(s.take(s.len() as int) =~= s);
    }
}

/// `trim` leaves nothing to trim: trimming twice is trimming once.
pub proof fn lemma_trim_idempotent(s: Seq<char>)
    ensures
        is_trimmed(trim(s)),
        trim(trim(s)) == trim(s),
{
    let u = trim_start(s);
    lemma_trim_start_head(s);
    lemma_trim_end_prefix(u);
    let w = trim(s);
    if w.len() > 0 {
        assert(w[0] == u[0]);
    }
    lemma_trim_trimmed(w);
}

} // verus!
