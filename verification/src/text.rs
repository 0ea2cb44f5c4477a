use vstd::prelude::*;
use vstd::string::*;

verus! {

/// `String::push` of std appends the character to the string.
pub assume_specification[ String::push ](s: &mut String, ch: char)
    ensures
        final(s)@ == old(s)@.push(ch),
;

/// The characters of `s`, in order.
pub fn chars_of(s: &str) -> (v: Vec<char>)
    ensures
        v@ == s@,
{
    let mut v: Vec<char> = Vec::new();
    for c in it: s.chars()
        invariant
            v@ == it.seq().take(it.index() as int),
            it.seq() == s@,
    {
        v.push(c);
    }
    v
}

/// The string made of the characters of `v`, in order.
pub fn string_of(v: &Vec<char>) -> (s: String)
    ensures
        s@ == v@,
{
    let mut s = String::new();
    let mut i: usize = 0;
    while i < v.len()
        invariant
            i <= v.len(),
            s@ == v@.take(i as int),
        decreases v.len() - i,
    {
        s.push(v[i]);
        i += 1;
        assert(v@.take(i as int) =~= v@.take(i - 1).push(v@[i - 1]));
    }
    assert(v@.take(v.len() as int) =~= v@);
    s
}

/// `label` followed by the characters of `value`.
pub fn labelled(label: &str, value: &Vec<char>) -> (s: String)
    ensures
        s@ == label@ + value@,
{
    let mut out = chars_of(label);
    let mut i: usize = 0;
    while i < value.len()
        invariant
            i <= value.len(),
            out@ == label@ + value@.take(i as int),
        decreases value.len() - i,
    {
        out.push(value[i]);
        i += 1;
        assert(value@.take(i as int) =~= value@.take(i - 1).push(value@[i - 1]));
    }
    assert(value@.take(value.len() as int) =~= value@);
    string_of(&out)
}

/// `v` holds exactly the characters of `lit`.
pub fn is_text(v: &Vec<char>, lit: &str) -> (b: bool)
    ensures
        b == (v@ == lit@),
{
    let w = chars_of(lit);
    same_chars(v, &w)
}

/// The two vectors hold the same characters.
pub fn same_chars(a: &Vec<char>, b: &Vec<char>) -> (r: bool)
    ensures
        r == (a@ == b@),
{
    if a.len() != b.len() {
        return false;
    }
    let mut i: usize = 0;
    while i < a.len()
        invariant
            a.len() == b.len(),
            i <= a.len(),
            a@.take(i as int) == b@.take(i as int),
        decreases a.len() - i,
    {
        if a[i] != b[i] {
            return false;
        }
        i += 1;
        assert(a@.take(i as int) =~= a@.take(i - 1).push(a@[i - 1]));
        assert(b@.take(i as int) =~= b@.take(i - 1).push(b@[i - 1]));
    }
    assert(a@.take(a.len() as int) =~= a@);
    assert(b@.take(b.len() as int) =~= b@);
    true
}

/// The characters `v[from..to]` as a vector of their own.
pub fn slice_of(v: &Vec<char>, from: usize, to: usize) -> (r: Vec<char>)
    requires
        from <= to <= v.len(),
    ensures
        r@ == v@.subrange(from as int, to as int),
{
    let mut r: Vec<char> = Vec::new();
    let mut i: usize = from;
    while i < to
        invariant
            from <= i <= to <= v.len(),
            r@ == v@.subrange(from as int, i as int),
        decreases to - i,
    {
        r.push(v[i]);
        i += 1;
        assert(v@.subrange(from as int, i as int) =~= v@.subrange(from as int, i - 1).push(
            v@[i - 1],
        ));
    }
    r
}

/// The characters with the Unicode property White_Space: what `trim` of std
/// strips.
pub open spec fn is_space(c: char) -> bool {
    let u = c as u32;
    (0x09 <= u <= 0x0D) || u == 0x20 || u == 0x85 || u == 0xA0 || u == 0x1680 || (0x2000 <= u
        <= 0x200A) || u == 0x2028 || u == 0x2029 || u == 0x202F || u == 0x205F || u == 0x3000
}

/// Whether `c` is white space.
pub fn is_whitespace(c: char) -> (b: bool)
    ensures
        b == is_space(c),
{
    let u = c as u32;
    (0x09 <= u && u <= 0x0D) || u == 0x20 || u == 0x85 || u == 0xA0 || u == 0x1680 || (0x2000 <= u
        && u <= 0x200A) || u == 0x2028 || u == 0x2029 || u == 0x202F || u == 0x205F || u == 0x3000
}

/// `s` without its leading white space.
pub open spec fn trim_start(s: Seq<char>) -> Seq<char>
    decreases s.len(),
{
    if s.len() > 0 && is_space(s[0]) {
        trim_start(s.skip(1))
    } else {
        s
    }
}

/// `s` without its trailing white space.
pub open spec fn trim_end(s: Seq<char>) -> Seq<char>
    decreases s.len(),
{
    if s.len() > 0 && is_space(s.last()) {
        trim_end(s.drop_last())
    } else {
        s
    }
}

/// `s` without leading and trailing white space.
pub open spec fn trimmed(s: Seq<char>) -> Seq<char> {
    trim_end(trim_start(s))
}

/// `v` without leading and trailing white space.
pub fn trim(v: &Vec<char>) -> (t: Vec<char>)
    ensures
        t@ == trimmed(v@),
{
    let mut from: usize = 0;
    assert(v@.skip(0) =~= v@);
    while from < v.len() && is_whitespace(v[from])
        invariant
            from <= v.len(),
            trim_start(v@) == trim_start(v@.skip(from as int)),
        decreases v.len() - from,
    {
        assert(v@.skip(from as int).skip(1) =~= v@.skip(from + 1));
        from += 1;
    }
    let mut to: usize = v.len();
    assert(v@.skip(from as int) =~= v@.subrange(from as int, to as int));
    while to > from && is_whitespace(v[to - 1])
        invariant
            from <= to <= v.len(),
            trimmed(v@) == trim_end(v@.subrange(from as int, to as int)),
        decreases to,
    {
        assert(v@.subrange(from as int, to as int).drop_last() =~= v@.subrange(
            from as int,
            to - 1,
        ));
        to -= 1;
    }
    slice_of(v, from, to)
}

/// `pat` stands at the beginning of `s`.
pub open spec fn starts_with(s: Seq<char>, pat: Seq<char>) -> bool {
    pat.len() <= s.len() && s.take(pat.len() as int) == pat
}

/// The first position at which `pat` stands in `s`; `s.len() + 1` where it
/// stands nowhere.
pub open spec fn find(s: Seq<char>, pat: Seq<char>) -> int
    decreases s.len(),
{
    if starts_with(s, pat) {
        0
    } else if s.len() == 0 {
        1
    } else {
        1 + find(s.skip(1), pat)
    }
}

/// The pieces of `s` between the occurrences of `pat`, taken from the left
/// and without overlap.
pub open spec fn split(s: Seq<char>, pat: Seq<char>) -> Seq<Seq<char>>
    decreases s.len(),
{
    let i = find(s, pat);
    if pat.len() == 0 || i < 0 || i > s.len() - pat.len() {
        seq![s]
    } else {
        seq![s.take(i)] + split(s.skip(i + pat.len()), pat)
    }
}

/// The character sequences that the vectors of `v` hold.
pub open spec fn rows(v: Seq<Vec<char>>) -> Seq<Seq<char>> {
    Seq::new(v.len(), |i: int| v[i]@)
}

/// Where `find` stands after `k` positions without a match.
proof fn lemma_find_skip(s: Seq<char>, pat: Seq<char>, k: int)
    requires
        0 <= k <= s.len(),
        forall|j: int| 0 <= j < k ==> !starts_with(#[trigger] s.skip(j), pat),
    ensures
        find(s, pat) == k + find(s.skip(k), pat),
    decreases k,
{
    if k > 0 {
        assert(s.skip(0) =~= s);
        assert forall|j: int| 0 <= j < k - 1 implies !starts_with(
            #[trigger] s.skip(1).skip(j),
            pat,
        ) by {
            assert(s.skip(1).skip(j) =~= s.skip(j + 1));
        }
        lemma_find_skip(s.skip(1), pat, k - 1);
        assert(s.skip(1).skip(k - 1) =~= s.skip(k));
    } else {
        assert(s.skip(0) =~= s);
    }
}

/// Whether `pat` stands in `v` at position `at`.
pub fn matches_at(v: &Vec<char>, at: usize, pat: &Vec<char>) -> (b: bool)
    requires
        at <= v.len(),
    ensures
        b == starts_with(v@.skip(at as int), pat@),
{
    if pat.len() > v.len() - at {
        return false;
    }
    let mut i: usize = 0;
    while i < pat.len()
        invariant
            at + pat.len() <= v.len(),
            i <= pat.len(),
            v@.skip(at as int).take(i as int) == pat@.take(i as int),
        decreases pat.len() - i,
    {
        if v[at + i] != pat[i] {
            assert(v@.skip(at as int).take(pat.len() as int)[i as int] != pat@[i as int]);
            return false;
        }
        i += 1;
        assert(v@.skip(at as int).take(i as int) =~= v@.skip(at as int).take(i - 1).push(
            v@[at + i - 1],
        ));
        assert(pat@.take(i as int) =~= pat@.take(i - 1).push(pat@[i - 1]));
    }
    assert(pat@.take(pat.len() as int) =~= pat@);
    true
}

/// The pieces of `v` between the occurrences of `pat`: what `split` of std
/// yields for a pattern that is not empty.
pub fn split_on(v: &Vec<char>, pat: &Vec<char>) -> (pieces: Vec<Vec<char>>)
    requires
        pat.len() > 0,
    ensures
        rows(pieces@) == split(v@, pat@),
        pieces.len() > 0,
{
    let mut pieces: Vec<Vec<char>> = Vec::new();
    let mut from: usize = 0;
    let mut at: usize = 0;
    assert(v@.skip(0) =~= v@);
    while at < v.len()
        invariant
            pat.len() > 0,
            from <= at <= v.len(),
            split(v@, pat@) == rows(pieces@) + split(v@.skip(from as int), pat@),
            forall|j: int|
                0 <= j < at - from ==> !starts_with(
                    #[trigger] v@.skip(from as int).skip(j),
                    pat@,
                ),
        decreases v.len() - at,
    {
        assert(v@.skip(from as int).skip(at - from) =~= v@.skip(at as int));
        if matches_at(v, at, pat) {
            let piece = slice_of(v, from, at);
            proof {
                let rest = v@.skip(from as int);
                lemma_find_skip(rest, pat@, at - from);
                assert(rest.take(at - from) =~= piece@);
                assert(rest.skip(at - from + pat.len()) =~= v@.skip(at + pat.len()));
                assert(rows(pieces@.push(piece)) =~= rows(pieces@) + seq![piece@]);
            }
            pieces.push(piece);
            at = at + pat.len();
            from = at;
        } else {
            at += 1;
        }
    }
    let piece = slice_of(v, from, v.len());
    proof {
        let rest = v@.skip(from as int);
        lemma_find_skip(rest, pat@, at - from);
        assert(rest.skip(at - from) =~= Seq::<char>::empty());
        assert(rest =~= piece@);
        assert(rows(pieces@.push(piece)) =~= rows(pieces@) + seq![piece@]);
    }
    pieces.push(piece);
    pieces
}

/// The pattern that consists of the one character `c`.
pub fn one_char(c: char) -> (pat: Vec<char>)
    ensures
        pat@ == seq![c],
{
    let mut pat: Vec<char> = Vec::new();
    pat.push(c);
    pat
}

/// `s` without one trailing carriage return.
pub open spec fn strip_cr(s: Seq<char>) -> Seq<char> {
    if s.len() > 0 && s.last() == '\r' {
        s.drop_last()
    } else {
        s
    }
}

/// The lines of `s`, as `lines` of std yields them: `s` is cut after every
/// line feed; the line feed, and a carriage return before it, do not belong
/// to the line; what follows the last line feed is a line unless it is empty.
pub open spec fn lines(s: Seq<char>) -> Seq<Seq<char>> {
    let p = split(s, seq!['\n']);
    let closed = p.len() - 1;
    Seq::new(
        (if p.last().len() == 0 {
            closed
        } else {
            closed + 1
        }) as nat,
        |i: int|
            if i < closed {
                strip_cr(p[i])
            } else {
                p[i]
            },
    )
}

/// The lines of `v`.
pub fn lines_of(v: &Vec<char>) -> (out: Vec<Vec<char>>)
    ensures
        rows(out@) == lines(v@),
{
    let mut pat: Vec<char> = Vec::new();
    pat.push('\n');
    assert(pat@ =~= seq!['\n']);
    let pieces = split_on(v, &pat);
    let closed = pieces.len() - 1;
    let mut out: Vec<Vec<char>> = Vec::new();
    let mut i: usize = 0;
    while i < closed
        invariant
            closed == pieces.len() - 1,
            i <= closed,
            out.len() == i,
            forall|j: int| 0 <= j < i ==> (#[trigger] out@[j])@ == strip_cr(pieces@[j]@),
        decreases closed - i,
    {
        let piece = &pieces[i];
        let n = piece.len();
        if n > 0 && piece[n - 1] == '\r' {
            out.push(slice_of(piece, 0, n - 1));
        } else {
            let whole = slice_of(piece, 0, n);
            assert(whole@ =~= piece@);
            out.push(whole);
        }
        i += 1;
    }
    if pieces[closed].len() > 0 {
        let whole = slice_of(&pieces[closed], 0, pieces[closed].len());
        assert(whole@ =~= pieces@[closed as int]@);
        out.push(whole);
    }
    proof {
        let p = split(v@, seq!['\n']);
        assert(p == rows(pieces@));
        assert forall|j: int| 0 <= j < pieces.len() implies p[j] == pieces@[j]@ by {}
        assert(rows(out@) =~= lines(v@));
    }
    out
}

/// One of the ten decimal digits.
pub open spec fn is_digit(c: char) -> bool {
    '0' <= c <= '9'
}

/// The number that the digit `c` stands for.
pub open spec fn digit_value(c: char) -> nat {
    (c as int - '0' as int) as nat
}

/// Every character of `s` is a decimal digit.
pub open spec fn all_digits(s: Seq<char>) -> bool {
    forall|i: int| 0 <= i < s.len() ==> is_digit(#[trigger] s[i])
}

/// The number written by the digits `s`, most significant first.
pub open spec fn digits_value(s: Seq<char>) -> nat
    decreases s.len(),
{
    if s.len() == 0 {
        0
    } else {
        digits_value(s.drop_last()) * 10 + digit_value(s.last())
    }
}

/// The number that `s` writes in decimal, with an optional sign before at
/// least one digit and nothing else; `None` for any other text. With
/// `signed` unset a minus sign is not accepted. This is what `parse` of std
/// accepts for the integer types, leaving their ranges aside.
pub open spec fn parse_int(s: Seq<char>, signed: bool) -> Option<int> {
    if s.len() > 0 && s[0] == '-' && signed {
        if s.len() > 1 && all_digits(s.skip(1)) {
            Some(-(digits_value(s.skip(1)) as int))
        } else {
            None
        }
    } else if s.len() > 0 && s[0] == '+' {
        if s.len() > 1 && all_digits(s.skip(1)) {
            Some(digits_value(s.skip(1)) as int)
        } else {
            None
        }
    } else if s.len() > 0 && all_digits(s) {
        Some(digits_value(s) as int)
    } else {
        None
    }
}

/// `parse_int`, but `None` as well where the number lies outside `lo..=hi`.
pub open spec fn parse_within(s: Seq<char>, signed: bool, lo: int, hi: int) -> Option<int> {
    match parse_int(s, signed) {
        Some(v) => if lo <= v <= hi {
            Some(v)
        } else {
            None
        },
        None => None,
    }
}

/// A longer digit string writes a number at least as large as any of its
/// prefixes does.
proof fn lemma_digits_prefix(s: Seq<char>, k: int)
    requires
        0 <= k <= s.len(),
    ensures
        digits_value(s.take(k)) <= digits_value(s),
    decreases s.len() - k,
{
    if k < s.len() {
        lemma_digits_prefix(s, k + 1);
        assert(s.take(k + 1).drop_last() =~= s.take(k));
    } else {
        assert(s.take(k) =~= s);
    }
}

/// The number written by `v[from..]`, where that is one or more digits that
/// write a number of at most `limit`.
fn parse_digits(v: &Vec<char>, from: usize, limit: u64) -> (r: Option<u64>)
    requires
        from <= v.len(),
    ensures
        r == (if from < v.len() && all_digits(v@.skip(from as int)) && digits_value(
            v@.skip(from as int),
        ) <= limit {
            Some(digits_value(v@.skip(from as int)) as u64)
        } else {
            None
        }),
{
    if from >= v.len() {
        return None;
    }
    let ghost s = v@.skip(from as int);
    let mut acc: u64 = 0;
    let mut i: usize = from;
    assert(s.take(0) =~= Seq::<char>::empty());
    while i < v.len()
        invariant
            from <= i <= v.len(),
            s == v@.skip(from as int),
            all_digits(s.take(i - from)),
            acc == digits_value(s.take(i - from)),
            acc <= limit,
        decreases v.len() - i,
    {
        let c = v[i];
        assert(s[i - from] == c);
        if !(c >= '0' && c <= '9') {
            return None;
        }
        let d = (c as u32 - '0' as u32) as u64;
        proof {
            assert(s.take(i - from + 1).drop_last() =~= s.take(i - from));
            assert(digits_value(s.take(i - from + 1)) == acc * 10 + d);
            lemma_digits_prefix(s, i - from + 1);
        }
        if d > limit || acc > (limit - d) / 10 {
            return None;
        }
        acc = acc * 10 + d;
        i += 1;
    }
    assert(s.take(i - from) =~= s);
    Some(acc)
}

/// Parses a signed decimal number that fits in 64 bits.
pub fn parse_i64(v: &Vec<char>) -> (r: Option<i64>)
    ensures
        match r {
            Some(x) => parse_within(v@, true, i64::MIN as int, i64::MAX as int) == Some(x as int),
            None => parse_within(v@, true, i64::MIN as int, i64::MAX as int) is None,
        },
{
    if v.len() > 0 && v[0] == '-' {
        match parse_digits(v, 1, 0x8000_0000_0000_0000) {
            None => None,
            Some(m) => if m == 0x8000_0000_0000_0000 {
                Some(i64::MIN)
            } else {
                Some(-(m as i64))
            },
        }
    } else if v.len() > 0 && v[0] == '+' {
        match parse_digits(v, 1, 0x7fff_ffff_ffff_ffff) {
            None => None,
            Some(m) => Some(m as i64),
        }
    } else {
        assert(v@.skip(0) =~= v@);
        match parse_digits(v, 0, 0x7fff_ffff_ffff_ffff) {
            None => None,
            Some(m) => Some(m as i64),
        }
    }
}

/// Parses a decimal number without a minus sign that fits in 64 bits.
pub fn parse_u64(v: &Vec<char>) -> (r: Option<u64>)
    ensures
        match r {
            Some(x) => parse_within(v@, false, 0, u64::MAX as int) == Some(x as int),
            None => parse_within(v@, false, 0, u64::MAX as int) is None,
        },
{
    if v.len() > 0 && v[0] == '+' {
        parse_digits(v, 1, u64::MAX)
    } else {
        assert(v@.skip(0) =~= v@);
        if v.len() > 0 && v[0] == '-' {
            assert(!is_digit(v@[0]));
        }
        parse_digits(v, 0, u64::MAX)
    }
}

/// The character that writes the digit `d`.
pub open spec fn digit_char(d: nat) -> char {
    (d + '0' as nat) as char
}

/// The decimal notation of `n`, without leading zeros.
pub open spec fn decimal(n: nat) -> Seq<char>
    decreases n,
{
    if n < 10 {
        seq![digit_char(n)]
    } else {
        decimal(n / 10).push(digit_char(n % 10))
    }
}

/// The decimal notation of `i`, with a minus sign where it is negative.
pub open spec fn decimal_int(i: int) -> Seq<char> {
    if i < 0 {
        seq!['-'] + decimal((-i) as nat)
    } else {
        decimal(i as nat)
    }
}

/// The character that writes the digit `d`.
fn digit_of(d: u64) -> (c: char)
    requires
        d < 10,
    ensures
        c == digit_char(d as nat),
{
    if d == 0 {
        '0'
    } else if d == 1 {
        '1'
    } else if d == 2 {
        '2'
    } else if d == 3 {
        '3'
    } else if d == 4 {
        '4'
    } else if d == 5 {
        '5'
    } else if d == 6 {
        '6'
    } else if d == 7 {
        '7'
    } else if d == 8 {
        '8'
    } else {
        '9'
    }
}

/// Appends the decimal notation of `n`.
pub fn push_decimal(out: &mut Vec<char>, n: u64)
    ensures
        final(out)@ == old(out)@ + decimal(n as nat),
    decreases n,
{
    if n >= 10 {
        push_decimal(out, n / 10);
    }
    out.push(digit_of(n % 10));
    proof {
        if n >= 10 {
            assert(final(out)@ =~= old(out)@ + decimal(n as nat));
        } else {
            assert(final(out)@ =~= old(out)@ + decimal(n as nat));
        }
    }
}

/// Appends the decimal notation of `i`.
pub fn push_decimal_int(out: &mut Vec<char>, i: i64)
    ensures
        final(out)@ == old(out)@ + decimal_int(i as int),
{
    if i < 0 {
        out.push('-');
        let m: u64 = if i == i64::MIN {
            0x8000_0000_0000_0000
        } else {
            (-i) as u64
        };
        push_decimal(out, m);
        assert(final(out)@ =~= old(out)@ + decimal_int(i as int));
    } else {
        push_decimal(out, i as u64);
    }
}

/// `label` followed by the decimal notation of `n`.
pub fn labelled_number(label: &str, n: u64) -> (s: String)
    ensures
        s@ == label@ + decimal(n as nat),
{
    let mut digits: Vec<char> = Vec::new();
    push_decimal(&mut digits, n);
    assert(digits@ =~= decimal(n as nat));
    labelled(label, &digits)
}

/// `label` followed by the decimal notation of `i`.
pub fn labelled_int(label: &str, i: i64) -> (s: String)
    ensures
        s@ == label@ + decimal_int(i as int),
{
    let mut digits: Vec<char> = Vec::new();
    push_decimal_int(&mut digits, i);
    assert(digits@ =~= decimal_int(i as int));
    labelled(label, &digits)
}

} // verus!
