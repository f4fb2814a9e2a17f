//! Character-level text helpers for the query surface: Unicode whitespace,
//! whitespace splitting and trimming, ASCII case folding, and decimal
//! numbers.
use vstd::prelude::*;

verus! {

/// Whether `c` has the Unicode `White_Space` property.
pub open spec fn is_ws(c: char) -> bool {
    let x = c as u32;
    (9 <= x <= 13) || x == 32 || x == 0x85 || x == 0xA0 || x == 0x1680 || (0x2000 <= x <= 0x200A) || x
        == 0x2028 || x == 0x2029 || x == 0x202F || x == 0x205F || x == 0x3000
}

/// Whether `c` has the Unicode `White_Space` property.
pub fn is_whitespace(c: char) -> (b: bool)
    ensures
        b == is_ws(c),
{
    let x = c as u32;
    (9 <= x && x <= 13) || x == 32 || x == 0x85 || x == 0xA0 || x == 0x1680 || (0x2000 <= x && x <= 0x200A)
        || x == 0x2028 || x == 0x2029 || x == 0x202F || x == 0x205F || x == 0x3000
}

/// The characters of a string.
pub fn chars_of(s: &str) -> (v: Vec<char>)
    ensures
        v@ == s@,
{
    let n = s.unicode_len();
    let mut out: Vec<char> = Vec::new();
    let mut i: usize = 0;
    while i < n
        invariant
            i <= n,
            n == s@.len(),
            out@ == s@.take(i as int),
        decreases n - i,
    {
        out.push(s.get_char(i));
        proof {
            assert(out@ =~= s@.take(i + 1));
        }
        i = i + 1;
    }
    proof {
        assert(s@.take(i as int) =~= s@);
    }
    out
}

/// The whitespace-separated tokens of the first `k` characters, and the
/// token still open after them.
pub open spec fn split_state(s: Seq<char>, k: nat) -> (Seq<Seq<char>>, Seq<char>)
    decreases k,
{
    if k == 0 {
        (Seq::empty(), Seq::empty())
    } else {
        let (toks, cur) = split_state(s, (k - 1) as nat);
        let c = s[k - 1];
        if is_ws(c) {
            if cur.len() > 0 {
                (toks.push(cur), Seq::empty())
            } else {
                (toks, Seq::empty())
            }
        } else {
            (toks, cur.push(c))
        }
    }
}

/// The maximal runs of non-whitespace characters of `s`, in order.
pub open spec fn split_ws(s: Seq<char>) -> Seq<Seq<char>> {
    let (toks, cur) = split_state(s, s.len());
    if cur.len() > 0 {
        toks.push(cur)
    } else {
        toks
    }
}

/// The views of a list of strings.
pub open spec fn string_views(v: Seq<String>) -> Seq<Seq<char>> {
    v.map_values(|t: String| t@)
}

/// The open token ends at the current position and starts at `start`.
proof fn lemma_split_cur(s: Seq<char>, k: nat, start: nat)
    requires
        k <= s.len(),
        start <= k,
        split_state(s, k).1 == s.subrange(start as int, k as int),
        k < s.len(),
        !is_ws(s[k as int]),
    ensures
        split_state(s, k + 1).1 == s.subrange(start as int, (k + 1) as int),
{
    assert(s.subrange(start as int, (k + 1) as int) =~= s.subrange(start as int, k as int).push(s[k as int]));
}

/// Splits `s` at Unicode whitespace into its non-empty tokens.
pub fn split_whitespace(s: &str) -> (tokens: Vec<String>)
    ensures
        string_views(tokens@) == split_ws(s@),
{
    let chars = chars_of(s);
    let n = chars.len();
    let mut tokens: Vec<String> = Vec::new();
    let mut start: usize = 0;
    let mut i: usize = 0;
    while i < n
        invariant
            i <= n,
            n == s@.len(),
            chars@ == s@,
            start <= i,
            string_views(tokens@) == split_state(s@, i as nat).0,
            split_state(s@, i as nat).1 == s@.subrange(start as int, i as int),
        decreases n - i,
    {
        let c = chars[i];
        if is_whitespace(c) {
            if start < i {
                let t = s.substring_char(start, i).to_owned();
                tokens.push(t);
                proof {
                    assert(string_views(tokens@) =~= split_state(s@, i as nat).0.push(
                        split_state(s@, i as nat).1,
                    ));
                }
            } else {
                proof {
                    assert(split_state(s@, i as nat).1.len() == 0);
                }
            }
            start = i + 1;
            proof {
                assert(s@.subrange(start as int, (i + 1) as int) =~= Seq::<char>::empty());
            }
        } else {
            proof {
                lemma_split_cur(s@, i as nat, start as nat);
            }
        }
        i = i + 1;
    }
    if start < n {
        let t = s.substring_char(start, n).to_owned();
        tokens.push(t);
        proof {
            assert(string_views(tokens@) =~= split_state(s@, n as nat).0.push(split_state(s@, n as nat).1));
        }
    }
    tokens
}

/// `s` without leading whitespace.
pub open spec fn trim_start(s: Seq<char>) -> Seq<char>
    decreases s.len(),
{
    if s.len() > 0 && is_ws(s[0]) {
        trim_start(s.drop_first())
    } else {
        s
    }
}

/// `s` without trailing whitespace.
pub open spec fn trim_end(s: Seq<char>) -> Seq<char>
    decreases s.len(),
{
    if s.len() > 0 && is_ws(s.last()) {
        trim_end(s.drop_last())
    } else {
        s
    }
}

/// `s` without leading and trailing whitespace.
pub open spec fn trim_ws(s: Seq<char>) -> Seq<char> {
    trim_end(trim_start(s))
}

/// Dropping leading whitespace from a suffix.
proof fn lemma_trim_start_skip(s: Seq<char>, i: int)
    requires
        0 <= i <= s.len(),
        forall|j: int| 0 <= j < i ==> is_ws(#[trigger] s[j]),
    ensures
        trim_start(s) == trim_start(s.subrange(i, s.len() as int)),
    decreases i,
{
    if i > 0 {
        assert(is_ws(s[0]));
        let t = s.drop_first();
        assert forall|j: int| 0 <= j < i - 1 implies is_ws(#[trigger] t[j]) by {
            assert(t[j] == s[j + 1]);
        }
        lemma_trim_start_skip(t, i - 1);
        assert(t.subrange(i - 1, t.len() as int) =~= s.subrange(i, s.len() as int));
    } else {
        assert(s.subrange(0, s.len() as int) =~= s);
    }
}

/// Dropping trailing whitespace from a prefix.
proof fn lemma_trim_end_take(s: Seq<char>, i: int)
    requires
        0 <= i <= s.len(),
        forall|j: int| i <= j < s.len() ==> is_ws(#[trigger] s[j]),
    ensures
        trim_end(s) == trim_end(s.subrange(0, i)),
    decreases s.len() - i,
{
    if i < s.len() {
        assert(is_ws(s.last()));
        let t = s.drop_last();
        assert forall|j: int| i <= j < t.len() implies is_ws(#[trigger] t[j]) by {
            assert(t[j] == s[j]);
        }
        lemma_trim_end_take(t, i);
        assert(t.subrange(0, i) =~= s.subrange(0, i));
    } else {
        assert(s.subrange(0, i) =~= s);
    }
}

/// Removes leading and trailing Unicode whitespace.
pub fn trim(s: &str) -> (t: &str)
    ensures
        t@ == trim_ws(s@),
{
    let chars = chars_of(s);
    let n = chars.len();
    let mut lo: usize = 0;
    while lo < n && is_whitespace(chars[lo])
        invariant
            lo <= n,
            n == s@.len(),
            chars@ == s@,
            forall|j: int| 0 <= j < lo ==> is_ws(#[trigger] s@[j]),
        decreases n - lo,
    {
        lo = lo + 1;
    }
    let mut hi: usize = n;
    while hi > lo && is_whitespace(chars[hi - 1])
        invariant
            lo <= hi <= n,
            n == s@.len(),
            chars@ == s@,
            forall|j: int| hi <= j < n ==> is_ws(#[trigger] s@[j]),
        decreases hi,
    {
        hi = hi - 1;
    }
    proof {
        lemma_trim_start_skip(s@, lo as int);
        let rest = s@.subrange(lo as int, n as int);
        if lo < n {
            assert(rest[0] == s@[lo as int]);
            assert(!is_ws(rest[0]));
        }
        assert(trim_start(rest) == rest);
        assert forall|j: int| hi - lo <= j < rest.len() implies is_ws(#[trigger] rest[j]) by {
            assert(rest[j] == s@[lo + j]);
        }
        lemma_trim_end_take(rest, hi - lo);
        let core = rest.subrange(0, hi - lo);
        if hi > lo {
            assert(core.last() == s@[hi - 1]);
        }
        assert(trim_end(core) == core);
        assert(core =~= s@.subrange(lo as int, hi as int));
    }
    s.substring_char(lo, hi)
}

/// ASCII upper-casing of one character.
pub open spec fn upper(c: char) -> char {
    if 'a' <= c <= 'z' {
        ((c as u32) - 32) as char
    } else {
        c
    }
}

/// ASCII upper-casing of a character sequence.
pub open spec fn upper_seq(s: Seq<char>) -> Seq<char> {
    s.map_values(|c: char| upper(c))
}

/// Whether `token` upper-cased is exactly `keyword`.
pub fn upper_equals(token: &str, keyword: &str) -> (b: bool)
    ensures
        b == (upper_seq(token@) == keyword@),
{
    let a = chars_of(token);
    let k = chars_of(keyword);
    if a.len() != k.len() {
        proof {
            assert(upper_seq(token@).len() != keyword@.len());
        }
        return false;
    }
    let mut i: usize = 0;
    while i < a.len()
        invariant
            i <= a@.len(),
            a@ == token@,
            k@ == keyword@,
            a@.len() == k@.len(),
            forall|j: int| 0 <= j < i ==> upper(#[trigger] a@[j]) == k@[j],
        decreases a@.len() - i,
    {
        let c = a[i];
        let u = if 'a' <= c && c <= 'z' {
            char_from_code((c as u32) - 32)
        } else {
            c
        };
        if u != k[i] {
            proof {
                assert(upper_seq(token@)[i as int] != keyword@[i as int]);
            }
            return false;
        }
        i = i + 1;
    }
    proof {
        assert(upper_seq(token@) =~= keyword@);
    }
    true
}

/// The ASCII character with code `x`.
fn char_from_code(x: u32) -> (c: char)
    requires
        x < 128,
    ensures
        c as u32 == x,
{
    let b = x as u8;
    b as char
}

/// Whether `c` is an ASCII decimal digit.
pub open spec fn is_digit(c: char) -> bool {
    '0' <= c <= '9'
}

/// The decimal value of a digit string.
pub open spec fn digits_value(s: Seq<char>) -> nat
    decreases s.len(),
{
    if s.len() == 0 {
        0
    } else {
        digits_value(s.drop_last()) * 10 + ((s.last() as u32) - 48) as nat
    }
}

/// Whether `s` is a non-empty run of decimal digits.
pub open spec fn all_digits(s: Seq<char>) -> bool {
    s.len() > 0 && forall|i: int| 0 <= i < s.len() ==> is_digit(#[trigger] s[i])
}

/// The value of an unsigned decimal literal with an optional leading `+`,
/// as the standard library's unsigned parsing reads it.
pub open spec fn unsigned_literal(s: Seq<char>) -> Option<nat> {
    let body = if s.len() > 0 && s[0] == '+' {
        s.drop_first()
    } else {
        s
    };
    if all_digits(body) {
        Some(digits_value(body))
    } else {
        None
    }
}

/// The value of a signed decimal literal with an optional leading `+` or
/// `-`, as the standard library's signed parsing reads it.
pub open spec fn signed_literal(s: Seq<char>) -> Option<int> {
    if s.len() > 0 && s[0] == '-' {
        let body = s.drop_first();
        if all_digits(body) {
            Some(-(digits_value(body) as int))
        } else {
            None
        }
    } else {
        match unsigned_literal(s) {
            Some(v) => Some(v as int),
            None => None,
        }
    }
}

/// Reads a digit run, saturating above `limit`.
fn read_digits(chars: &Vec<char>, from: usize, limit: u64) -> (r: Option<u64>)
    requires
        from <= chars@.len(),
    ensures
        all_digits(chars@.subrange(from as int, chars@.len() as int)) ==> match r {
            Some(v) => v == digits_value(chars@.subrange(from as int, chars@.len() as int)) && v <= limit,
            None => digits_value(chars@.subrange(from as int, chars@.len() as int)) > limit,
        },
        !all_digits(chars@.subrange(from as int, chars@.len() as int)) ==> r is None,
{
    let ghost body = chars@.subrange(from as int, chars@.len() as int);
    if from == chars.len() {
        return None;
    }
    let mut value: u64 = 0;
    let mut over = false;
    let mut i: usize = from;
    while i < chars.len()
        invariant
            from <= i <= chars@.len(),
            body == chars@.subrange(from as int, chars@.len() as int),
            forall|j: int| from <= j < i ==> is_digit(#[trigger] chars@[j]),
            !over ==> value == digits_value(chars@.subrange(from as int, i as int)) && value <= limit,
            over ==> digits_value(chars@.subrange(from as int, i as int)) > limit,
        decreases chars@.len() - i,
    {
        let c = chars[i];
        if !('0' <= c && c <= '9') {
            proof {
                assert(body[i - from] == c);
            }
            return None;
        }
        let d = (c as u32 - 48) as u64;
        proof {
            let prefix = chars@.subrange(from as int, i + 1);
            assert(prefix.drop_last() =~= chars@.subrange(from as int, i as int));
            assert(prefix.last() == c);
            assert(digits_value(prefix) == digits_value(chars@.subrange(from as int, i as int)) * 10 + d);
        }
        if !over {
            if d > limit || value > (limit - d) / 10 {
                over = true;
                proof {
                    if d <= limit {
                        assert(value * 10 + d > limit) by (nonlinear_arith)
                            requires
                                value > (limit - d) / 10,
                                d <= limit,
                        ;
                    }
                }
            } else {
                proof {
                    assert(value * 10 + d <= limit) by (nonlinear_arith)
                        requires
                            value <= (limit - d) / 10,
                            d <= limit,
                    ;
                }
                value = value * 10 + d;
            }
        } else {
            proof {
                assert(digits_value(chars@.subrange(from as int, i as int)) * 10 + d > limit) by (nonlinear_arith)
                    requires
                        digits_value(chars@.subrange(from as int, i as int)) > limit,
                ;
            }
        }
        i = i + 1;
    }
    proof {
        assert(body =~= chars@.subrange(from as int, i as int));
        assert forall|j: int| 0 <= j < body.len() implies is_digit(#[trigger] body[j]) by {
            assert(body[j] == chars@[from + j]);
        }
    }
    if over {
        None
    } else {
        Some(value)
    }
}

/// Parses an unsigned decimal literal that must not exceed `limit`.
pub fn parse_unsigned(s: &str, limit: u64) -> (r: Option<u64>)
    ensures
        match unsigned_literal(s@) {
            Some(v) => if v <= limit {
                r == Some(v as u64)
            } else {
                r is None
            },
            None => r is None,
        },
{
    let chars = chars_of(s);
    let from: usize = if chars.len() > 0 && chars[0] == '+' {
        1
    } else {
        0
    };
    proof {
        if from == 1 {
            assert(chars@.subrange(1, chars@.len() as int) =~= s@.drop_first());
        } else {
            assert(chars@.subrange(0, chars@.len() as int) =~= s@);
        }
    }
    read_digits(&chars, from, limit)
}

/// Parses a signed 64-bit decimal literal.
pub fn parse_i64(s: &str) -> (r: Option<i64>)
    ensures
        match signed_literal(s@) {
            Some(v) => if i64::MIN <= v <= i64::MAX {
                r == Some(v as i64)
            } else {
                r is None
            },
            None => r is None,
        },
{
    let chars = chars_of(s);
    if chars.len() > 0 && chars[0] == '-' {
        proof {
            assert(chars@.subrange(1, chars@.len() as int) =~= s@.drop_first());
        }
        match read_digits(&chars, 1, 0x8000_0000_0000_0000u64) {
            Some(v) => {
                if v == 0x8000_0000_0000_0000u64 {
                    Some(i64::MIN)
                } else {
                    Some(-(v as i64))
                }
            },
            None => None,
        }
    } else {
        match parse_unsigned(s, 0x7FFF_FFFF_FFFF_FFFFu64) {
            Some(v) => Some(v as i64),
            None => None,
        }
    }
}

/// The decimal digits of `n`, most significant first.
pub open spec fn decimal(n: nat) -> Seq<char>
    decreases n,
{
    if n < 10 {
        seq![(n + 48) as char]
    } else {
        decimal(n / 10).push(((n % 10) + 48) as char)
    }
}

/// The one-digit string of `d`.
fn digit_str(d: u64) -> (s: &'static str)
    requires
        d < 10,
    ensures
        s@ == seq![(d + 48) as char],
{
    proof {
        reveal_strlit("0");
        reveal_strlit("1");
        reveal_strlit("2");
        reveal_strlit("3");
        reveal_strlit("4");
        reveal_strlit("5");
        reveal_strlit("6");
        reveal_strlit("7");
        reveal_strlit("8");
        reveal_strlit("9");
    }
    let s = if d == 0 {
        "0"
    } else if d == 1 {
        "1"
    } else if d == 2 {
        "2"
    } else if d == 3 {
        "3"
    } else if d == 4 {
        "4"
    } else if d == 5 {
        "5"
    } else if d == 6 {
        "6"
    } else if d == 7 {
        "7"
    } else if d == 8 {
        "8"
    } else {
        "9"
    };
    proof {
        assert(s@ =~= seq![(d + 48) as char]);
    }
    s
}

/// Appends the decimal digits of `n`.
pub fn push_decimal(out: &mut String, n: u64)
    ensures
        final(out)@ == old(out)@ + decimal(n as nat),
    decreases n,
{
    if n >= 10 {
        push_decimal(out, n / 10);
    }
    out.append(digit_str(n % 10));
    proof {
        if n >= 10 {
            assert(decimal(n as nat) == decimal((n / 10) as nat).push(((n % 10) + 48) as char));
        }
        assert(final(out)@ =~= old(out)@ + decimal(n as nat));
    }
}

/// The decimal text of a signed integer.
pub open spec fn signed_decimal(v: int) -> Seq<char> {
    if v < 0 {
        seq!['-'] + decimal((-v) as nat)
    } else {
        decimal(v as nat)
    }
}

/// Appends the decimal text of a signed integer.
pub fn push_signed(out: &mut String, v: i64)
    ensures
        final(out)@ == old(out)@ + signed_decimal(v as int),
{
    if v < 0 {
        proof {
            reveal_strlit("-");
        }
        out.append("-");
        let magnitude: u64 = if v == i64::MIN {
            0x8000_0000_0000_0000u64
        } else {
            (-v) as u64
        };
        let ghost mid = out@;
        push_decimal(out, magnitude);
        proof {
            assert(final(out)@ =~= old(out)@ + signed_decimal(v as int));
        }
    } else {
        push_decimal(out, v as u64);
    }
}


/// Whether two strings hold the same characters.
pub fn text_equals(a: &str, b: &str) -> (r: bool)
    ensures
        r == (a@ == b@),
{
    let x = chars_of(a);
    let y = chars_of(b);
    if x.len() != y.len() {
        return false;
    }
    let mut i: usize = 0;
    while i < x.len()
        invariant
            i <= x@.len(),
            x@ == a@,
            y@ == b@,
            x@.len() == y@.len(),
            forall|j: int| 0 <= j < i ==> x@[j] == y@[j],
        decreases x@.len() - i,
    {
        if x[i] != y[i] {
            return false;
        }
        i = i + 1;
    }
    proof {
        assert(a@ =~= b@);
    }
    true
}

} // verus!
