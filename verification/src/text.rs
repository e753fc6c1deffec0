//! Character-level text helpers: decimal numbers, XML escaping, line splitting,
//! trimming and substring search, each with its specification.
use vstd::prelude::*;

verus! {

/// Appends one character (std `String::push`).
#[verifier::external_body]
pub(crate) fn push_char(out: &mut String, c: char)
    ensures
        final(out)@ == old(out)@.push(c),
{
    out.push(c);
}

/// Appends a string.
pub fn push_str(out: &mut String, s: &str)
    ensures
        final(out)@ == old(out)@ + s@,
{
    let ghost start = out@;
    for c in it: s.chars()
        invariant
            out@ == start + it.seq().take(it.index() as int),
    {
        push_char(out, c);
        assert(it.seq().take(it.index() + 1) =~= it.seq().take(it.index() as int).push(c));
    }
}

/// `k` copies of `s`.
pub open spec fn repeat(s: Seq<char>, k: nat) -> Seq<char>
    decreases k,
{
    if k == 0 {
        Seq::empty()
    } else {
        repeat(s, (k - 1) as nat) + s
    }
}

/// Appends `k` copies of `s`.
pub fn push_repeat(out: &mut String, s: &str, k: usize)
    ensures
        final(out)@ == old(out)@ + repeat(s@, k as nat),
{
    let ghost start = out@;
    let mut i: usize = 0;
    while i < k
        invariant
            i <= k,
            out@ == start + repeat(s@, i as nat),
        decreases k - i,
    {
        push_str(out, s);
        i = i + 1;
        assert(out@ =~= start + repeat(s@, i as nat));
    }
}

pub open spec fn digit_char(d: nat) -> char {
    if d == 0 { '0' }
    else if d == 1 { '1' }
    else if d == 2 { '2' }
    else if d == 3 { '3' }
    else if d == 4 { '4' }
    else if d == 5 { '5' }
    else if d == 6 { '6' }
    else if d == 7 { '7' }
    else if d == 8 { '8' }
    else { '9' }
}

/// Decimal notation of `n` without leading zeros.
pub open spec fn decimal(n: nat) -> Seq<char>
    decreases n,
{
    if n < 10 {
        seq![digit_char(n)]
    } else {
        decimal(n / 10).push(digit_char(n % 10))
    }
}

fn digit_of(d: u64) -> (c: char)
    requires
        d < 10,
    ensures
        c == digit_char(d as nat),
{
    if d == 0 { '0' }
    else if d == 1 { '1' }
    else if d == 2 { '2' }
    else if d == 3 { '3' }
    else if d == 4 { '4' }
    else if d == 5 { '5' }
    else if d == 6 { '6' }
    else if d == 7 { '7' }
    else if d == 8 { '8' }
    else { '9' }
}

/// Appends the decimal notation of `n`.
pub fn push_decimal(out: &mut String, n: u64)
    ensures
        final(out)@ == old(out)@ + decimal(n as nat),
    decreases n,
{
    if n >= 10 {
        push_decimal(out, n / 10);
    }
    push_char(out, digit_of(n % 10));
    assert(out@ =~= old(out)@ + decimal(n as nat));
}

/// The decimal notation of `n` as a new string.
pub fn decimal_string(n: u64) -> (res: String)
    ensures
        res@ == decimal(n as nat),
{
    let mut s = String::new();
    push_decimal(&mut s, n);
    assert(s@ =~= decimal(n as nat));
    s
}

pub open spec fn is_digit(c: char) -> bool {
    '0' <= c <= '9'
}

pub open spec fn all_digits(s: Seq<char>) -> bool {
    forall|i: int| 0 <= i < s.len() ==> is_digit(#[trigger] s[i])
}

pub open spec fn digit_value(c: char) -> nat {
    ((c as u32) - ('0' as u32)) as nat
}

/// The number that a string of decimal digits denotes.
pub open spec fn digits_value(s: Seq<char>) -> nat
    decreases s.len(),
{
    if s.len() == 0 {
        0
    } else {
        digits_value(s.drop_last()) * 10 + digit_value(s.last())
    }
}

/// Reading back the decimal notation of `n` gives `n`.
pub proof fn lemma_decimal_digits(n: nat)
    ensures
        decimal(n).len() > 0,
        all_digits(decimal(n)),
        digits_value(decimal(n)) == n,
        decimal(n)[0] != '+',
    decreases n,
{
    let d = n % 10;
    assert(digit_value(digit_char(d)) == d && is_digit(digit_char(d))) by {
        assert(d < 10);
    }
    if n >= 10 {
        lemma_decimal_digits(n / 10);
        let s = decimal(n);
        assert(s.drop_last() =~= decimal(n / 10));
        assert(s.last() == digit_char(d));
        vstd::arithmetic::div_mod::lemma_fundamental_div_mod(n as int, 10);
        assert forall|i: int| 0 <= i < s.len() implies is_digit(#[trigger] s[i]) by {
            if i < s.len() - 1 {
                assert(s[i] == decimal(n / 10)[i]);
            }
        }
        assert(s[0] == decimal(n / 10)[0]);
        assert(digits_value(s) == digits_value(decimal(n / 10)) * 10 + digit_value(s.last()));
        assert(digits_value(s) == n);
    } else {
        vstd::arithmetic::div_mod::lemma_small_mod(n, 10);
        let s = decimal(n);
        assert(s.drop_last() =~= Seq::<char>::empty());
        assert(digits_value(s) == digits_value(s.drop_last()) * 10 + digit_value(s.last()));
    }
}

/// What std's `u64::from_str` accepts: an optional `+`, then one or more decimal
/// digits whose value fits in a `u64`.
pub open spec fn parse_u64_spec(s: Seq<char>) -> Option<u64> {
    let body = if s.len() > 0 && s[0] == '+' { s.drop_first() } else { s };
    if body.len() > 0 && all_digits(body) && digits_value(body) <= u64::MAX {
        Some(digits_value(body) as u64)
    } else {
        None
    }
}

/// Parses an unsigned decimal number as std's `u64::from_str` does.
pub fn parse_u64(s: &str) -> (res: Option<u64>)
    ensures
        res == parse_u64_spec(s@),
{
    let mut value: u64 = 0;
    let mut nonempty = false;
    let mut ok = true;
    let mut first = true;
    let mut skipped_plus = false;
    let ghost mut body: Seq<char> = Seq::empty();
    let ghost mut k: int = 0;
    for c in it: s.chars()
        invariant
            it.seq() == s@,
            k == it.index(),
            k <= s@.len(),
            first == (it.index() == 0),
            skipped_plus == (it.index() > 0 && s@[0] == '+'),
            body == if skipped_plus { s@.subrange(1, it.index() as int) } else { s@.take(it.index() as int) },
            nonempty == (body.len() > 0),
            ok == (all_digits(body) && digits_value(body) <= u64::MAX),
            ok ==> value == digits_value(body),
    {
        let ghost old_body = body;
        if first && c == '+' {
            skipped_plus = true;
        } else {
            proof {
                body = body.push(c);
            }
            assert(body.drop_last() =~= old_body);
            if ok {
                if '0' <= c && c <= '9' {
                    let d = (c as u32 - '0' as u32) as u64;
                    if value <= (u64::MAX - d) / 10 {
                        value = value * 10 + d;
                    } else {
                        ok = false;
                    }
                } else {
                    ok = false;
                }
            }
            proof {
                if !ok {
                    if !is_digit(c) {
                        assert(!is_digit(body[body.len() - 1]));
                    } else if all_digits(old_body) && digits_value(old_body) <= u64::MAX {
                        assert(digits_value(body) == digits_value(old_body) * 10 + digit_value(c));
                    } else if !all_digits(old_body) {
                        let j = choose|j: int| 0 <= j < old_body.len() && !is_digit(old_body[j]);
                        assert(!is_digit(body[j]));
                    } else {
                        assert(digits_value(body) >= digits_value(old_body) * 10);
                    }
                }
            }
            nonempty = true;
        }
        first = false;
        assert(if skipped_plus { s@.subrange(1, it.index() + 1) } else { s@.take(it.index() + 1) } =~= body);
        proof { k = k + 1; }
    }
    proof {
        assert(k == s@.len());
        let full = if s@.len() > 0 && s@[0] == '+' { s@.drop_first() } else { s@ };
        assert(full =~= body);
    }
    if ok && nonempty {
        Some(value)
    } else {
        None
    }
}


/// The characters of `s`, in order.
pub fn chars_vec(s: &str) -> (res: Vec<char>)
    ensures
        res@ == s@,
{
    let mut v: Vec<char> = Vec::new();
    let ghost mut k: int = 0;
    for c in it: s.chars()
        invariant
            it.seq() == s@,
            k == it.index(),
            k <= s@.len(),
            v@ == s@.take(k),
    {
        v.push(c);
        assert(s@.take(k + 1) =~= s@.take(k).push(c));
        proof { k = k + 1; }
    }
    assert(k == s@.len());
    assert(s@.take(k) =~= s@);
    v
}

/// A string made of the characters `cs[from..to]`.
pub fn string_of(cs: &Vec<char>, from: usize, to: usize) -> (res: String)
    requires
        from <= to <= cs.len(),
    ensures
        res@ == cs@.subrange(from as int, to as int),
{
    let mut out = String::new();
    let mut i = from;
    while i < to
        invariant
            from <= i <= to <= cs.len(),
            out@ == cs@.subrange(from as int, i as int),
        decreases to - i,
    {
        push_char(&mut out, cs[i]);
        i = i + 1;
        assert(out@ =~= cs@.subrange(from as int, i as int));
    }
    out
}

/// `needle` occurs in `hay` as a contiguous run of characters.
pub open spec fn contains_seq(hay: Seq<char>, needle: Seq<char>) -> bool {
    exists|i: int| 0 <= i && i + needle.len() <= hay.len() && #[trigger] hay.subrange(i, i + needle.len()) == needle
}

fn matches_at(hay: &Vec<char>, needle: &Vec<char>, i: usize) -> (res: bool)
    requires
        i + needle.len() <= hay.len(),
    ensures
        res == (hay@.subrange(i as int, i + needle.len()) == needle@),
{
    let mut j: usize = 0;
    while j < needle.len()
        invariant
            j <= needle.len(),
            i + needle.len() <= hay.len(),
            forall|k: int| 0 <= k < j ==> hay@[i + k] == needle@[k],
        decreases needle.len() - j,
    {
        if hay[i + j] != needle[j] {
            assert(hay@.subrange(i as int, i + needle.len())[j as int] != needle@[j as int]);
            return false;
        }
        j = j + 1;
    }
    assert(hay@.subrange(i as int, i + needle.len()) =~= needle@);
    true
}

/// Substring test (std `str::contains` with a string pattern).
pub fn str_contains(hay: &str, needle: &str) -> (res: bool)
    ensures
        res == contains_seq(hay@, needle@),
{
    let h = chars_vec(hay);
    let n = chars_vec(needle);
    if n.len() > h.len() {
        return false;
    }
    let last = h.len() - n.len();
    let mut i: usize = 0;
    loop
        invariant
            h@ == hay@,
            n@ == needle@,
            last == h.len() - n.len(),
            i <= last,
            forall|k: int| 0 <= k < i ==> #[trigger] hay@.subrange(k, k + needle@.len()) != needle@,
        decreases last - i,
    {
        if matches_at(&h, &n, i) {
            return true;
        }
        if i == last {
            return false;
        }
        i = i + 1;
    }
}

/// The lower-case form of a string as std's `str::to_lowercase` computes it
/// (Unicode default case mapping).
pub uninterp spec fn lowercase(s: Seq<char>) -> Seq<char>;

/// std `str::to_lowercase`.
#[verifier::external_body]
pub(crate) fn to_lowercase(s: &str) -> (res: String)
    ensures
        res@ == lowercase(s@),
{
    s.to_lowercase()
}

/// Unicode `White_Space`, as std's `char::is_whitespace` defines it.
pub open spec fn is_ws(c: char) -> bool {
    let u = c as u32;
    (0x9 <= u <= 0xd) || u == 0x20 || u == 0x85 || u == 0xa0 || u == 0x1680
        || (0x2000 <= u <= 0x200a) || u == 0x2028 || u == 0x2029 || u == 0x202f
        || u == 0x205f || u == 0x3000
}

pub fn is_whitespace(c: char) -> (res: bool)
    ensures
        res == is_ws(c),
{
    let u = c as u32;
    (0x9 <= u && u <= 0xd) || u == 0x20 || u == 0x85 || u == 0xa0 || u == 0x1680
        || (0x2000 <= u && u <= 0x200a) || u == 0x2028 || u == 0x2029 || u == 0x202f
        || u == 0x205f || u == 0x3000
}

/// `s` without leading whitespace.
pub open spec fn trim_start(s: Seq<char>) -> Seq<char>
    decreases s.len(),
{
    if s.len() > 0 && is_ws(s[0]) {
        trim_start(s.drop_first())
    } else {
        s
    }
}

/// `s` without trailing whitespace.
pub open spec fn trim_end(s: Seq<char>) -> Seq<char>
    decreases s.len(),
{
    if s.len() > 0 && is_ws(s.last()) {
        trim_end(s.drop_last())
    } else {
        s
    }
}

/// `s` without leading and trailing whitespace (std `str::trim`).
pub open spec fn trim(s: Seq<char>) -> Seq<char> {
    trim_end(trim_start(s))
}

proof fn lemma_trim_start_skip(s: Seq<char>, i: int)
    requires
        0 <= i <= s.len(),
        forall|k: int| 0 <= k < i ==> is_ws(#[trigger] s[k]),
    ensures
        trim_start(s) == trim_start(s.skip(i)),
    decreases i,
{
    if i > 0 {
        assert(s.skip(1) =~= s.drop_first());
        lemma_trim_start_skip(s.drop_first(), i - 1);
        assert(s.drop_first().skip(i - 1) =~= s.skip(i));
    } else {
        assert(s.skip(0) =~= s);
    }
}

proof fn lemma_trim_end_take(s: Seq<char>, j: int)
    requires
        0 <= j <= s.len(),
        forall|k: int| j <= k < s.len() ==> is_ws(#[trigger] s[k]),
    ensures
        trim_end(s) == trim_end(s.take(j)),
    decreases s.len() - j,
{
    if j < s.len() {
        lemma_trim_end_take(s.drop_last(), j);
        assert(s.drop_last().take(j) =~= s.take(j));
    } else {
        assert(s.take(j) =~= s);
    }
}

/// A copy of `s` without leading and trailing whitespace.
pub fn trimmed(s: &str) -> (res: String)
    ensures
        res@ == trim(s@),
{
    let cs = chars_vec(s);
    let mut i: usize = 0;
    while i < cs.len() && is_whitespace(cs[i])
        invariant
            cs@ == s@,
            i <= cs.len(),
            forall|k: int| 0 <= k < i ==> is_ws(#[trigger] cs@[k]),
        decreases cs.len() - i,
    {
        i = i + 1;
    }
    proof {
        lemma_trim_start_skip(s@, i as int);
        if i < cs.len() {
            assert(!is_ws(s@.skip(i as int)[0]));
        }
        assert(trim_start(s@) == s@.skip(i as int));
    }
    let mut j: usize = cs.len();
    while j > i && is_whitespace(cs[j - 1])
        invariant
            cs@ == s@,
            i <= j <= cs.len(),
            forall|k: int| j <= k < cs.len() ==> is_ws(#[trigger] cs@[k]),
        decreases j,
    {
        j = j - 1;
    }
    let ghost t = s@.skip(i as int);
    proof {
        lemma_trim_end_take(t, j - i);
        assert(t.take(j - i) =~= s@.subrange(i as int, j as int));
        let u = t.take(j - i);
        if u.len() > 0 {
            assert(u.last() == cs@[j - 1]);
        }
    }
    string_of(&cs, i, j)
}


/// Index of the first `'\n'` in `s`, or its length when there is none.
pub open spec fn first_newline(s: Seq<char>) -> nat
    decreases s.len(),
{
    if s.len() == 0 {
        0
    } else if s[0] == '\n' {
        0
    } else {
        1 + first_newline(s.drop_first())
    }
}

/// A line without the `'\r'` of a `"\r\n"` ending.
pub open spec fn strip_cr(l: Seq<char>) -> Seq<char> {
    if l.len() > 0 && l.last() == '\r' {
        l.drop_last()
    } else {
        l
    }
}

/// The lines of `s` as std's `str::lines` gives them: split after each `'\n'`,
/// the line ending (`"\n"` or `"\r\n"`) removed, and no empty line after a final
/// line ending.
pub open spec fn lines(s: Seq<char>) -> Seq<Seq<char>>
    decreases s.len(),
{
    if s.len() == 0 {
        Seq::empty()
    } else {
        let k = first_newline(s);
        if k < s.len() {
            seq![strip_cr(s.take(k as int))] + lines(s.skip(k as int + 1))
        } else {
            seq![s]
        }
    }
}

proof fn lemma_first_newline(s: Seq<char>, k: int)
    requires
        0 <= k <= s.len(),
        forall|j: int| 0 <= j < k ==> s[j] != '\n',
        k == s.len() || s[k] == '\n',
    ensures
        first_newline(s) == k,
    decreases k,
{
    if k > 0 {
        lemma_first_newline(s.drop_first(), k - 1);
    }
}

/// The lines of `s` (std `str::lines`).
pub fn lines_of(s: &str) -> (res: Vec<String>)
    ensures
        res@.len() == lines(s@).len(),
        forall|i: int| 0 <= i < res@.len() ==> (#[trigger] res@[i])@ == lines(s@)[i],
{
    let cs = chars_vec(s);
    let mut out: Vec<String> = Vec::new();
    let mut start: usize = 0;
    let mut i: usize = 0;
    let ghost mut done: Seq<Seq<char>> = Seq::empty();
    assert(s@.skip(0) =~= s@);
    assert(done + lines(s@) =~= lines(s@));
    while i < cs.len()
        invariant
            cs@ == s@,
            start <= i <= cs.len(),
            forall|j: int| start <= j < i ==> cs@[j] != '\n',
            out@.len() == done.len(),
            forall|j: int| 0 <= j < out@.len() ==> (#[trigger] out@[j])@ == done[j],
            done + lines(s@.skip(start as int)) == lines(s@),
        decreases cs.len() - i,
    {
        if cs[i] == '\n' {
            let ghost rest = s@.skip(start as int);
            proof {
                lemma_first_newline(rest, i - start);
                assert(rest.take(i - start) =~= s@.subrange(start as int, i as int));
                assert(rest.skip(i - start + 1) =~= s@.skip(i + 1));
            }
            let mut end = i;
            if end > start && cs[end - 1] == '\r' {
                end = end - 1;
            }
            let line = string_of(&cs, start, end);
            proof {
                let l = s@.subrange(start as int, i as int);
                if i > start && cs@[i - 1] == '\r' {
                    assert(l.last() == '\r');
                    assert(l.drop_last() =~= s@.subrange(start as int, end as int));
                } else {
                    assert(end == i);
                }
                assert(line@ == strip_cr(l));
                done = done.push(strip_cr(l));
                assert(done.drop_last() + (seq![strip_cr(l)] + lines(s@.skip(i + 1))) =~= done + lines(s@.skip(i + 1)));
            }
            out.push(line);
            start = i + 1;
        }
        i = i + 1;
    }
    if start < cs.len() {
        let line = string_of(&cs, start, cs.len());
        proof {
            let rest = s@.skip(start as int);
            lemma_first_newline(rest, rest.len() as int);
            assert(rest =~= s@.subrange(start as int, cs.len() as int));
            done = done.push(rest);
        }
        out.push(line);
    } else {
        proof {
            assert(s@.skip(start as int) =~= Seq::<char>::empty());
            assert(done + Seq::<Seq<char>>::empty() =~= done);
        }
    }
    proof {
        assert(done =~= lines(s@)) by {
            if start < cs.len() {
                assert(done.drop_last() + seq![done.last()] =~= done);
            }
        }
    }
    out
}


/// `s` with each occurrence of `pat` replaced by `to`, occurrences taken from
/// the left without overlap, as std's `str::replace` does; an empty pattern
/// matches before every character and at the end.
pub open spec fn replaced(s: Seq<char>, pat: Seq<char>, to: Seq<char>) -> Seq<char>
    decreases s.len(),
{
    if pat.len() == 0 {
        if s.len() == 0 {
            to
        } else {
            to + seq![s[0]] + replaced(s.drop_first(), pat, to)
        }
    } else if s.len() < pat.len() {
        s
    } else if s.take(pat.len() as int) == pat {
        to + replaced(s.skip(pat.len() as int), pat, to)
    } else {
        seq![s[0]] + replaced(s.drop_first(), pat, to)
    }
}

/// Replaces every occurrence of `pat` in `s` by `to` (std `str::replace`).
pub fn replace_str(s: &str, pat: &str, to: &str) -> (res: String)
    ensures
        res@ == replaced(s@, pat@, to@),
{
    let h = chars_vec(s);
    let p = chars_vec(pat);
    let n = h.len();
    let m = p.len();
    let mut out = String::new();
    let mut i: usize = 0;
    assert(s@.skip(0) =~= s@);
    assert(out@ + replaced(s@, pat@, to@) =~= replaced(s@, pat@, to@));
    while i < n
        invariant
            h@ == s@,
            p@ == pat@,
            n == h.len(),
            m == p.len(),
            i <= n,
            out@ + replaced(s@.skip(i as int), pat@, to@) == replaced(s@, pat@, to@),
        decreases n - i,
    {
        let ghost rest = s@.skip(i as int);
        let ghost before = out@;
        assert(rest[0] == s@[i as int]);
        assert(rest.drop_first() =~= s@.skip(i + 1));
        if m == 0 {
            push_str(&mut out, to);
            push_char(&mut out, h[i]);
            assert(out@ =~= before + (to@ + seq![s@[i as int]]));
            i = i + 1;
        } else if n - i < m {
            let ghost tail = s@.skip(i as int);
            while i < n
                invariant
                    h@ == s@,
                    n == h.len(),
                    i <= n,
                    out@ + s@.skip(i as int) == before + tail,
                decreases n - i,
            {
                let ghost o = out@;
                push_char(&mut out, h[i]);
                assert(s@.skip(i as int) =~= seq![s@[i as int]] + s@.skip(i + 1));
                assert(out@ =~= o.push(s@[i as int]));
                i = i + 1;
            }
            assert(s@.skip(i as int) =~= Seq::<char>::empty());
            assert(out@ =~= before + tail);
            assert(replaced(tail, pat@, to@) == tail);
            assert(replaced(s@.skip(i as int), pat@, to@) == Seq::<char>::empty());
            assert(out@ + replaced(s@.skip(i as int), pat@, to@) =~= out@);
        } else if matches_at(&h, &p, i) {
            assert(rest.take(m as int) =~= s@.subrange(i as int, i + m));
            assert(rest.skip(m as int) =~= s@.skip(i + m));
            push_str(&mut out, to);
            i = i + m;
            assert(out@ =~= before + to@);
            assert(before + replaced(rest, pat@, to@) =~= out@ + replaced(s@.skip(i as int), pat@, to@));
        } else {
            assert(rest.take(m as int) =~= s@.subrange(i as int, i + m));
            push_char(&mut out, h[i]);
            assert(out@ =~= before + seq![s@[i as int]]);
            i = i + 1;
            assert(before + replaced(rest, pat@, to@) =~= out@ + replaced(s@.skip(i as int), pat@, to@));
        }
    }
    assert(s@.skip(i as int) =~= Seq::<char>::empty());
    if m == 0 {
        let ghost before = out@;
        push_str(&mut out, to);
        assert(out@ == before + to@);
    }
    assert(out@ =~= out@ + Seq::<char>::empty());
    out
}

// ---------------------------------------------------------------------------
// Decimal floating-point notation, as std's `f32::from_str` accepts it.

pub open spec fn is_sign(c: char) -> bool {
    c == '+' || c == '-'
}

pub open spec fn is_exp_mark(c: char) -> bool {
    c == 'e' || c == 'E'
}

/// `c` is the lower-case letter `l` or its capital.
pub open spec fn same_letter(c: char, l: char) -> bool {
    c == l || c as u32 + 32 == l as u32
}

/// `s` spells the lower-case `word` in any mix of cases.
pub open spec fn word_any_case(s: Seq<char>, word: Seq<char>) -> bool {
    s.len() == word.len() && forall|i: int| 0 <= i < s.len() ==> same_letter(#[trigger] s[i], word[i])
}

/// The number of decimal points in `s`.
pub open spec fn points(s: Seq<char>) -> nat
    decreases s.len(),
{
    if s.len() == 0 {
        0
    } else {
        points(s.drop_last()) + if s.last() == '.' { 1nat } else { 0nat }
    }
}

/// Decimal digits with at most one point among them and at least one digit.
pub open spec fn float_mantissa(m: Seq<char>) -> bool {
    &&& forall|i: int| 0 <= i < m.len() ==> is_digit(#[trigger] m[i]) || m[i] == '.'
    &&& points(m) <= 1
    &&& points(m) < m.len()
}

/// What follows the exponent mark: an optional sign and one or more digits.
pub open spec fn float_exponent(x: Seq<char>) -> bool {
    let d = if x.len() > 0 && is_sign(x[0]) { x.drop_first() } else { x };
    d.len() > 0 && all_digits(d)
}

/// Index of the first exponent mark in `s`, or its length when there is none.
pub open spec fn exp_index(s: Seq<char>) -> nat
    decreases s.len(),
{
    if s.len() == 0 {
        0
    } else if is_exp_mark(s[0]) {
        0
    } else {
        1 + exp_index(s.drop_first())
    }
}

/// A mantissa, then optionally an exponent mark and an exponent.
pub open spec fn decimal_float(s: Seq<char>) -> bool {
    let k = exp_index(s);
    float_mantissa(s.take(k as int)) && (k == s.len() || float_exponent(s.skip(k as int + 1)))
}

/// The text that std's `f32::from_str` reads as a number: an optional sign,
/// then `inf`, `infinity` or `nan` in any case, or a decimal number with an
/// optional exponent. Leading or trailing whitespace is not accepted.
pub open spec fn float_text(s: Seq<char>) -> bool {
    let b = if s.len() > 0 && is_sign(s[0]) { s.drop_first() } else { s };
    ||| word_any_case(b, "inf"@)
    ||| word_any_case(b, "infinity"@)
    ||| word_any_case(b, "nan"@)
    ||| decimal_float(b)
}

proof fn lemma_exp_index(s: Seq<char>, k: int)
    requires
        0 <= k <= s.len(),
        forall|j: int| 0 <= j < k ==> !is_exp_mark(#[trigger] s[j]),
        k == s.len() || is_exp_mark(s[k]),
    ensures
        exp_index(s) == k,
    decreases k,
{
    if k > 0 {
        assert forall|j: int| 0 <= j < k - 1 implies !is_exp_mark(#[trigger] s.drop_first()[j]) by {
            assert(s.drop_first()[j] == s[j + 1]);
        }
        lemma_exp_index(s.drop_first(), k - 1);
    }
}

fn word_is(b: &Vec<char>, word: &str) -> (res: bool)
    ensures
        res == word_any_case(b@, word@),
{
    let w = chars_vec(word);
    if b.len() != w.len() {
        return false;
    }
    let mut i: usize = 0;
    while i < b.len()
        invariant
            w@ == word@,
            b.len() == w.len(),
            i <= b.len(),
            forall|j: int| 0 <= j < i ==> same_letter(#[trigger] b@[j], w@[j]),
        decreases b.len() - i,
    {
        let c = b[i];
        let l = w[i];
        let cu = c as u32;
        let lu = l as u32;
        if !(c == l || (cu <= lu && lu - cu == 32)) {
            return false;
        }
        i = i + 1;
    }
    true
}

fn mantissa_ok(b: &Vec<char>, k: usize) -> (res: bool)
    requires
        k <= b.len(),
    ensures
        res == float_mantissa(b@.take(k as int)),
{
    let mut ok = true;
    let mut n: usize = 0;
    let mut i: usize = 0;
    while i < k
        invariant
            k <= b.len(),
            i <= k,
            n <= i,
            n == points(b@.take(i as int)),
            ok == forall|j: int| 0 <= j < i ==> is_digit(#[trigger] b@[j]) || b@[j] == '.',
        decreases k - i,
    {
        proof {
            assert(b@.take(i + 1).drop_last() =~= b@.take(i as int));
        }
        let c = b[i];
        if c == '.' {
            n = n + 1;
        } else if !('0' <= c && c <= '9') {
            ok = false;
        }
        i = i + 1;
    }
    proof {
        let m = b@.take(k as int);
        if ok {
            assert forall|j: int| 0 <= j < m.len() implies is_digit(#[trigger] m[j]) || m[j] == '.' by {
                assert(m[j] == b@[j]);
            }
        } else {
            let j = choose|j: int| 0 <= j < k && !(is_digit(#[trigger] b@[j]) || b@[j] == '.');
            assert(m[j] == b@[j]);
        }
    }
    ok && n <= 1 && n < k
}

fn exponent_ok(b: &Vec<char>, from: usize) -> (res: bool)
    requires
        from <= b.len(),
    ensures
        res == float_exponent(b@.skip(from as int)),
{
    let mut i = from;
    if i < b.len() && (b[i] == '+' || b[i] == '-') {
        i = i + 1;
    }
    proof {
        let x = b@.skip(from as int);
        let d = if x.len() > 0 && is_sign(x[0]) { x.drop_first() } else { x };
        assert(d =~= b@.skip(i as int));
    }
    if i == b.len() {
        return false;
    }
    let start = i;
    while i < b.len()
        invariant
            from <= start <= i <= b.len(),
            float_exponent(b@.skip(from as int)) == (b@.skip(start as int).len() > 0 && all_digits(b@.skip(start as int))),
            forall|j: int| start <= j < i ==> is_digit(#[trigger] b@[j]),
        decreases b.len() - i,
    {
        if !('0' <= b[i] && b[i] <= '9') {
            proof {
                assert(b@.skip(start as int)[i - start] == b@[i as int]);
            }
            return false;
        }
        i = i + 1;
    }
    proof {
        let d = b@.skip(start as int);
        assert forall|j: int| 0 <= j < d.len() implies is_digit(#[trigger] d[j]) by {
            assert(d[j] == b@[start + j]);
        }
    }
    true
}

/// Whether std's `f32::from_str` reads `s` as a number.
pub fn is_float_text(s: &str) -> (res: bool)
    ensures
        res == float_text(s@),
{
    let cs = chars_vec(s);
    let start: usize = if cs.len() > 0 && (cs[0] == '+' || cs[0] == '-') { 1 } else { 0 };
    let mut b: Vec<char> = Vec::new();
    let mut i = start;
    while i < cs.len()
        invariant
            start <= i <= cs.len(),
            b@ == cs@.subrange(start as int, i as int),
        decreases cs.len() - i,
    {
        b.push(cs[i]);
        assert(b@ =~= cs@.subrange(start as int, i + 1));
        i = i + 1;
    }
    proof {
        let body = if s@.len() > 0 && is_sign(s@[0]) { s@.drop_first() } else { s@ };
        assert(body =~= b@);
    }
    if word_is(&b, "inf") || word_is(&b, "infinity") || word_is(&b, "nan") {
        return true;
    }
    let mut k: usize = 0;
    while k < b.len() && !(b[k] == 'e' || b[k] == 'E')
        invariant
            k <= b.len(),
            forall|j: int| 0 <= j < k ==> !is_exp_mark(#[trigger] b@[j]),
        decreases b.len() - k,
    {
        k = k + 1;
    }
    proof {
        lemma_exp_index(b@, k as int);
    }
    if !mantissa_ok(&b, k) {
        return false;
    }
    if k == b.len() {
        true
    } else {
        exponent_ok(&b, k + 1)
    }
}

} // verus!
