//! Character-level helpers on strings: collecting characters, trimming
//! base URLs, decimal rendering and the lexicographic order of `String`.
use vstd::prelude::*;

verus! {

/// Unicode `White_Space`, the set that `char::is_whitespace` and `str::trim` use.
pub open spec fn is_whitespace_char(c: char) -> bool {
    let v = c as int;
    ||| 0x9 <= v <= 0xd
    ||| v == 0x20
    ||| v == 0x85
    ||| v == 0xa0
    ||| v == 0x1680
    ||| 0x2000 <= v <= 0x200a
    ||| v == 0x2028
    ||| v == 0x2029
    ||| v == 0x202f
    ||| v == 0x205f
    ||| v == 0x3000
}

/// `s` without its leading whitespace.
pub open spec fn trim_leading(s: Seq<char>) -> Seq<char>
    decreases s.len(),
{
    if s.len() > 0 && is_whitespace_char(s[0]) {
        trim_leading(s.drop_first())
    } else {
        s
    }
}

/// `s` without its trailing whitespace.
pub open spec fn trim_trailing(s: Seq<char>) -> Seq<char>
    decreases s.len(),
{
    if s.len() > 0 && is_whitespace_char(s.last()) {
        trim_trailing(s.drop_last())
    } else {
        s
    }
}

/// `s` without any of the copies of `c` that end it.
pub open spec fn strip_trailing_char(s: Seq<char>, c: char) -> Seq<char>
    decreases s.len(),
{
    if s.len() > 0 && s.last() == c {
        strip_trailing_char(s.drop_last(), c)
    } else {
        s
    }
}

/// A base URL as the registry keys it: surrounding whitespace removed, then
/// every trailing `/`.
pub open spec fn normalized_base_url(s: Seq<char>) -> Seq<char> {
    strip_trailing_char(trim_trailing(trim_leading(s)), '/')
}

/// Strict lexicographic order on character sequences. UTF-8 keeps the order
/// of code points, so this is the order in which `String`'s `Ord` puts strings.
pub open spec fn text_lt(a: Seq<char>, b: Seq<char>) -> bool
    decreases a.len(),
{
    if b.len() == 0 {
        false
    } else if a.len() == 0 {
        true
    } else if (a[0] as int) < (b[0] as int) {
        true
    } else if a[0] == b[0] {
        text_lt(a.drop_first(), b.drop_first())
    } else {
        false
    }
}

/// The decimal digit character for `d < 10`.
pub open spec fn digit_char(d: nat) -> char {
    if d == 0 { '0' }
    else if d == 1 { '1' }
    else if d == 2 { '2' }
    else if d == 3 { '3' }
    else if d == 4 { '4' }
    else if d == 5 { '5' }
    else if d == 6 { '6' }
    else if d == 7 { '7' }
    else if d == 8 { '8' }
    else { '9' }
}

/// The decimal rendering of `n`, without sign or leading zeros.
pub open spec fn decimal(n: nat) -> Seq<char>
    decreases n,
{
    if n < 10 {
        seq![digit_char(n)]
    } else {
        decimal(n / 10).push(digit_char(n % 10))
    }
}

/// Returns the characters of `s`, in order.
pub fn chars_of(s: &str) -> (out: Vec<char>)
    ensures
        out@ == s@,
{
    let mut out: Vec<char> = Vec::new();
    for c in it: s.chars()
        invariant
            it.seq() == s@,
            out@ == it.seq().take(it.index() as int),
    {
        out.push(c);
    }
    assert(out@ =~= s@);
    out
}

/// Whether `c` is Unicode white space.
pub fn is_whitespace(c: char) -> (r: bool)
    ensures
        r == is_whitespace_char(c),
{
    let v = c as u32;
    (0x9 <= v && v <= 0xd) || v == 0x20 || v == 0x85 || v == 0xa0 || v == 0x1680 || (0x2000 <= v
        && v <= 0x200a) || v == 0x2028 || v == 0x2029 || v == 0x202f || v == 0x205f || v == 0x3000
}

proof fn lemma_trim_leading_skip(s: Seq<char>, i: int)
    requires
        0 <= i < s.len(),
        is_whitespace_char(s[i]),
    ensures
        trim_leading(s.subrange(i, s.len() as int)) == trim_leading(
            s.subrange(i + 1, s.len() as int),
        ),
{
    assert(s.subrange(i, s.len() as int).drop_first() =~= s.subrange(i + 1, s.len() as int));
}

proof fn lemma_trim_trailing_drop(s: Seq<char>, lo: int, hi: int)
    requires
        0 <= lo < hi <= s.len(),
        is_whitespace_char(s[hi - 1]),
    ensures
        trim_trailing(s.subrange(lo, hi)) == trim_trailing(s.subrange(lo, hi - 1)),
{
    assert(s.subrange(lo, hi).drop_last() =~= s.subrange(lo, hi - 1));
}

proof fn lemma_strip_trailing_drop(s: Seq<char>, lo: int, hi: int, c: char)
    requires
        0 <= lo < hi <= s.len(),
        s[hi - 1] == c,
    ensures
        strip_trailing_char(s.subrange(lo, hi), c) == strip_trailing_char(
            s.subrange(lo, hi - 1),
            c,
        ),
{
    assert(s.subrange(lo, hi).drop_last() =~= s.subrange(lo, hi - 1));
}

/// Removes surrounding white space and then every trailing `/`.
pub fn normalize_base_url(url: &str) -> (r: String)
    ensures
        r@ == normalized_base_url(url@),
{
    let cs = chars_of(url);
    let n = cs.len();
    let ghost s = cs@;
    let mut start: usize = 0;
    assert(s.subrange(0, n as int) =~= s);
    while start < n && is_whitespace(cs[start])
        invariant
            s == cs@,
            n == s.len(),
            start <= n,
            trim_leading(s) == trim_leading(s.subrange(start as int, n as int)),
        decreases n - start,
    {
        proof {
            lemma_trim_leading_skip(s, start as int);
        }
        start = start + 1;
    }
    assert(trim_leading(s) == s.subrange(start as int, n as int)) by {
        if start < n {
            assert(s.subrange(start as int, n as int)[0] == s[start as int]);
        } else {
            assert(s.subrange(start as int, n as int) =~= Seq::<char>::empty());
        }
    }
    let mut end: usize = n;
    while end > start && is_whitespace(cs[end - 1])
        invariant
            s == cs@,
            n == s.len(),
            start <= end <= n,
            trim_trailing(trim_leading(s)) == trim_trailing(s.subrange(start as int, end as int)),
        decreases end,
    {
        proof {
            lemma_trim_trailing_drop(s, start as int, end as int);
        }
        end = end - 1;
    }
    assert(trim_trailing(trim_leading(s)) == s.subrange(start as int, end as int)) by {
        if end > start {
            assert(s.subrange(start as int, end as int).last() == s[end - 1]);
        } else {
            assert(s.subrange(start as int, end as int) =~= Seq::<char>::empty());
        }
    }
    while end > start && cs[end - 1] == '/'
        invariant
            s == cs@,
            n == s.len(),
            start <= end <= n,
            normalized_base_url(s) == strip_trailing_char(
                s.subrange(start as int, end as int),
                '/',
            ),
        decreases end,
    {
        proof {
            lemma_strip_trailing_drop(s, start as int, end as int, '/');
        }
        end = end - 1;
    }
    assert(normalized_base_url(s) == s.subrange(start as int, end as int)) by {
        if end > start {
            assert(s.subrange(start as int, end as int).last() == s[end - 1]);
        } else {
            assert(s.subrange(start as int, end as int) =~= Seq::<char>::empty());
        }
    }
    let piece = url.substring_char(start, end);
    String::from_str(piece)
}

/// Whether `a` comes strictly before `b` in the order of `String`'s `Ord`.
pub fn text_before(a: &Vec<char>, b: &Vec<char>) -> (r: bool)
    ensures
        r == text_lt(a@, b@),
{
    let mut i: usize = 0;
    assert(a@.skip(0) =~= a@);
    assert(b@.skip(0) =~= b@);
    while i < a.len() && i < b.len() && a[i] == b[i]
        invariant
            i <= a.len(),
            i <= b.len(),
            text_lt(a@, b@) == text_lt(a@.skip(i as int), b@.skip(i as int)),
        decreases a.len() - i,
    {
        proof {
            assert(a@.skip(i as int).drop_first() =~= a@.skip(i + 1));
            assert(b@.skip(i as int).drop_first() =~= b@.skip(i + 1));
        }
        i = i + 1;
    }
    let ghost sa = a@.skip(i as int);
    let ghost sb = b@.skip(i as int);
    if i == b.len() {
        assert(sb.len() == 0);
        false
    } else if i == a.len() {
        assert(sa.len() == 0 && sb.len() > 0);
        true
    } else {
        assert(sa[0] == a@[i as int] && sb[0] == b@[i as int]);
        a[i] < b[i]
    }
}

/// `text_lt` never holds of a sequence and itself.
pub proof fn lemma_text_lt_irreflexive(a: Seq<char>)
    ensures
        !text_lt(a, a),
    decreases a.len(),
{
    if a.len() > 0 {
        lemma_text_lt_irreflexive(a.drop_first());
    }
}

/// `text_lt` is transitive.
pub proof fn lemma_text_lt_transitive(a: Seq<char>, b: Seq<char>, c: Seq<char>)
    requires
        text_lt(a, b),
        text_lt(b, c),
    ensures
        text_lt(a, c),
    decreases a.len(),
{
    if a.len() > 0 && b.len() > 0 && c.len() > 0 && a[0] == b[0] && b[0] == c[0] {
        lemma_text_lt_transitive(a.drop_first(), b.drop_first(), c.drop_first());
    }
}

/// Of two different sequences, one comes before the other.
pub proof fn lemma_text_lt_total(a: Seq<char>, b: Seq<char>)
    requires
        a != b,
    ensures
        text_lt(a, b) || text_lt(b, a),
    decreases a.len(),
{
    if a.len() == 0 && b.len() == 0 {
        assert(a =~= b);
    } else if a.len() > 0 && b.len() > 0 && a[0] == b[0] {
        if a.drop_first() == b.drop_first() {
            assert(a =~= seq![a[0]] + a.drop_first());
            assert(b =~= seq![b[0]] + b.drop_first());
        }
        lemma_text_lt_total(a.drop_first(), b.drop_first());
    } else if a.len() > 0 && b.len() > 0 {
        assert((a[0] as int) != (b[0] as int));
    }
}

/// The one-character string of the digit `d`.
fn digit_str(d: u64) -> (r: &'static str)
    requires
        d < 10,
    ensures
        r@ == seq![digit_char(d as nat)],
{
    if d == 0 {
        proof { reveal_strlit("0"); }
        "0"
    } else if d == 1 {
        proof { reveal_strlit("1"); }
        "1"
    } else if d == 2 {
        proof { reveal_strlit("2"); }
        "2"
    } else if d == 3 {
        proof { reveal_strlit("3"); }
        "3"
    } else if d == 4 {
        proof { reveal_strlit("4"); }
        "4"
    } else if d == 5 {
        proof { reveal_strlit("5"); }
        "5"
    } else if d == 6 {
        proof { reveal_strlit("6"); }
        "6"
    } else if d == 7 {
        proof { reveal_strlit("7"); }
        "7"
    } else if d == 8 {
        proof { reveal_strlit("8"); }
        "8"
    } else {
        proof { reveal_strlit("9"); }
        "9"
    }
}

/// Appends the decimal rendering of `n` to `out`.
pub fn push_decimal(out: &mut String, n: u64)
    ensures
        final(out)@ == old(out)@ + decimal(n as nat),
    decreases n,
{
    if n < 10 {
        out.append(digit_str(n));
    } else {
        push_decimal(out, n / 10);
        out.append(digit_str(n % 10));
        proof {
            assert(old(out)@ + decimal(n as nat) =~= old(out)@ + decimal((n / 10) as nat) + seq![
                digit_char((n % 10) as nat),
            ]);
        }
    }
}

} // verus!
