//! Character-level helpers shared by the other modules.
use vstd::prelude::*;

verus! {

/// The decimal digit for `d`.
pub open spec fn digit_char(d: nat) -> char {
    ((d % 10) + 48) as char
}

/// The decimal notation of `n`, without sign or leading zeros.
pub open spec fn decimal(n: nat) -> Seq<char>
    decreases n,
{
    if n < 10 {
        seq![digit_char(n)]
    } else {
        decimal(n / 10).push(digit_char(n % 10))
    }
}

/// The decimal notation of `i`, with a leading `-` when it is negative.
pub open spec fn signed_decimal(i: int) -> Seq<char> {
    if i < 0 {
        seq!['-'] + decimal((-i) as nat)
    } else {
        decimal(i as nat)
    }
}

fn push_decimal(n: u64, out: &mut Vec<char>)
    ensures
        final(out)@ == old(out)@ + decimal(n as nat),
    decreases n,
{
    if n >= 10 {
        push_decimal(n / 10, out);
    }
    let d: u8 = (n % 10) as u8 + 48;
    out.push(d as char);
    proof {
        assert(digit_char(n as nat) == d as char);
        if n < 10 {
            assert(decimal(n as nat) =~= seq![d as char]);
        }
    }
    assert(out@ =~= old(out)@ + decimal(n as nat));
}

/// The characters of `s`, in order.
/// Relies on std's `str::chars` collected into a `Vec`: one item per
/// character, in order.
#[verifier::external_body]
pub(crate) fn chars_of(s: &str) -> (r: Vec<char>)
    ensures
        r@ == s@,
{
    s.chars().collect()
}

/// Relies on std's `FromIterator<char>` for `String`: the string holds the
/// given characters in order.
#[verifier::external_body]
pub(crate) fn string_of(v: &Vec<char>) -> (r: String)
    ensures
        r@ == v@,
{
    v.iter().collect()
}

/// The decimal notation of `i`.
pub fn int_text(i: i64) -> (r: String)
    ensures
        r@ == signed_decimal(i as int),
{
    let mut v: Vec<char> = Vec::new();
    if i < 0 {
        v.push('-');
        let m: u64 = if i == i64::MIN {
            9223372036854775808u64
        } else {
            (-i) as u64
        };
        push_decimal(m, &mut v);
    } else {
        push_decimal(i as u64, &mut v);
    }
    string_of(&v)
}

/// The characters of each piece.
pub open spec fn views(v: Seq<Vec<char>>) -> Seq<Seq<char>> {
    v.map_values(|x: Vec<char>| x@)
}

/// The pieces of `s` between occurrences of `sep`, scanning from `i`, the
/// current piece having begun at `begin`.
pub open spec fn split_from(s: Seq<char>, sep: Seq<char>, i: int, begin: int) -> Seq<Seq<char>>
    recommends
        sep.len() > 0,
    decreases s.len() - i,
{
    if sep.len() == 0 || i + sep.len() > s.len() || i < 0 {
        seq![s.subrange(begin, s.len() as int)]
    } else if s.subrange(i, i + sep.len()) == sep {
        seq![s.subrange(begin, i)] + split_from(s, sep, i + sep.len(), i + sep.len())
    } else {
        split_from(s, sep, i + 1, begin)
    }
}

/// `s` split at each occurrence of `sep`, as `str::split` does.
pub open spec fn split(s: Seq<char>, sep: Seq<char>) -> Seq<Seq<char>> {
    split_from(s, sep, 0, 0)
}

/// A copy of `s[a..b]`.
pub fn slice(s: &Vec<char>, a: usize, b: usize) -> (r: Vec<char>)
    requires
        a <= b <= s@.len(),
    ensures
        r@ == s@.subrange(a as int, b as int),
{
    let mut r: Vec<char> = Vec::new();
    let mut i: usize = a;
    while i < b
        invariant
            a <= i <= b <= s@.len(),
            r@ == s@.subrange(a as int, i as int),
        decreases b - i,
    {
        r.push(s[i]);
        i = i + 1;
        assert(r@ =~= s@.subrange(a as int, i as int));
    }
    r
}

/// Whether `sep` occurs in `s` at `i`.
fn matches_at(s: &Vec<char>, sep: &Vec<char>, i: usize) -> (r: bool)
    requires
        i + sep@.len() <= s@.len(),
    ensures
        r == (s@.subrange(i as int, i + sep@.len()) == sep@),
{
    let n: usize = s.len();
    let mut k: usize = 0;
    while k < sep.len()
        invariant
            n == s@.len(),
            k <= sep@.len(),
            i + sep@.len() <= s@.len(),
            forall|j: int| 0 <= j < k ==> s@[i + j] == sep@[j],
        decreases sep@.len() - k,
    {
        if s[i + k] != sep[k] {
            assert(s@.subrange(i as int, i + sep@.len())[k as int] != sep@[k as int]);
            return false;
        }
        k = k + 1;
    }
    assert(s@.subrange(i as int, i + sep@.len()) =~= sep@);
    true
}

/// `s` split at each occurrence of `sep`.
pub fn split_on(s: &Vec<char>, sep: &Vec<char>) -> (r: Vec<Vec<char>>)
    requires
        sep@.len() > 0,
    ensures
        views(r@) == split(s@, sep@),
{
    let mut r: Vec<Vec<char>> = Vec::new();
    let mut i: usize = 0;
    let mut begin: usize = 0;
    assert(views(r@) =~= Seq::<Seq<char>>::empty());
    while i < s.len() && sep.len() <= s.len() - i
        invariant
            sep@.len() > 0,
            begin <= i <= s@.len(),
            views(r@) + split_from(s@, sep@, i as int, begin as int) == split(s@, sep@),
        decreases s@.len() - i,
    {
        if matches_at(s, sep, i) {
            let piece = slice(s, begin, i);
            let ghost old_r = r@;
            let ghost old_i = i as int;
            let ghost old_begin = begin as int;
            r.push(piece);
            assert(views(r@) =~= views(old_r).push(piece@));
            i = i + sep.len();
            begin = i;
            assert(split_from(s@, sep@, old_i, old_begin) == seq![piece@] + split_from(
                s@,
                sep@,
                i as int,
                begin as int,
            ));
            assert(views(r@) + split_from(s@, sep@, i as int, begin as int) =~= views(old_r)
                + split_from(s@, sep@, old_i, old_begin));
        } else {
            i = i + 1;
        }
    }
    let piece = slice(s, begin, s.len());
    let ghost old_r = r@;
    r.push(piece);
    assert(views(r@) =~= views(old_r).push(piece@));
    assert(views(r@) =~= views(old_r) + split_from(s@, sep@, i as int, begin as int));
    r
}

/// Unicode's White_Space property, which `char::is_whitespace` tests.
pub open spec fn white(c: char) -> bool {
    ('\u{9}' <= c <= '\u{d}') || c == ' ' || c == '\u{85}' || c == '\u{a0}' || c == '\u{1680}'
        || ('\u{2000}' <= c <= '\u{200a}') || c == '\u{2028}' || c == '\u{2029}' || c
        == '\u{202f}' || c == '\u{205f}' || c == '\u{3000}'
}

/// Whether `c` is white space.
pub fn is_white(c: char) -> (r: bool)
    ensures
        r == white(c),
{
    ('\u{9}' <= c && c <= '\u{d}') || c == ' ' || c == '\u{85}' || c == '\u{a0}' || c
        == '\u{1680}' || ('\u{2000}' <= c && c <= '\u{200a}') || c == '\u{2028}' || c
        == '\u{2029}' || c == '\u{202f}' || c == '\u{205f}' || c == '\u{3000}'
}

/// Whether trimming removes `c`: a double quote when `quotes`, else white space.
pub open spec fn trims(c: char, quotes: bool) -> bool {
    if quotes {
        c == '"'
    } else {
        white(c)
    }
}

pub open spec fn strip_start(s: Seq<char>, quotes: bool) -> Seq<char>
    decreases s.len(),
{
    if s.len() > 0 && trims(s[0], quotes) {
        strip_start(s.drop_first(), quotes)
    } else {
        s
    }
}

pub open spec fn strip_end(s: Seq<char>, quotes: bool) -> Seq<char>
    decreases s.len(),
{
    if s.len() > 0 && trims(s.last(), quotes) {
        strip_end(s.drop_last(), quotes)
    } else {
        s
    }
}

/// `s` without leading and trailing white space (`str::trim`), or without
/// leading and trailing double quotes (`str::trim_matches('"')`).
pub open spec fn trimmed(s: Seq<char>, quotes: bool) -> Seq<char> {
    strip_end(strip_start(s, quotes), quotes)
}

fn trims_char(c: char, quotes: bool) -> (r: bool)
    ensures
        r == trims(c, quotes),
{
    if quotes {
        c == '"'
    } else {
        is_white(c)
    }
}

/// `s` trimmed as `trimmed` says.
pub fn trim(s: &Vec<char>, quotes: bool) -> (r: Vec<char>)
    ensures
        r@ == trimmed(s@, quotes),
{
    let n: usize = s.len();
    let mut lo: usize = 0;
    assert(s@.subrange(0, n as int) =~= s@);
    while lo < n && trims_char(s[lo], quotes)
        invariant
            n == s@.len(),
            lo <= n,
            strip_start(s@.subrange(lo as int, n as int), quotes) == strip_start(s@, quotes),
        decreases n - lo,
    {
        assert(s@.subrange(lo as int, n as int).drop_first() =~= s@.subrange(lo + 1, n as int));
        lo = lo + 1;
    }
    let mut hi: usize = n;
    assert(strip_start(s@, quotes) == s@.subrange(lo as int, n as int));
    while hi > lo && trims_char(s[hi - 1], quotes)
        invariant
            n == s@.len(),
            lo <= hi <= n,
            strip_end(s@.subrange(lo as int, hi as int), quotes) == trimmed(s@, quotes),
        decreases hi - lo,
    {
        assert(s@.subrange(lo as int, hi as int).drop_last() =~= s@.subrange(lo as int, hi - 1));
        hi = hi - 1;
    }
    slice(s, lo, hi)
}

/// `s` cut at its first `c`: the text before and the text after it.
pub fn split_once(s: &Vec<char>, c: char) -> (r: Option<(Vec<char>, Vec<char>)>)
    ensures
        r is None <==> !s@.contains(c),
        r matches Some(p) ==> s@ == p.0@ + seq![c] + p.1@ && !p.0@.contains(c),
{
    let n: usize = s.len();
    let mut i: usize = 0;
    while i < n
        invariant
            n == s@.len(),
            i <= n,
            forall|j: int| 0 <= j < i ==> s@[j] != c,
        decreases n - i,
    {
        if s[i] == c {
            let a = slice(s, 0, i);
            let b = slice(s, i + 1, n);
            assert(s@ =~= a@ + seq![c] + b@);
            assert(!a@.contains(c)) by {
                if a@.contains(c) {
                    let k = choose|k: int| 0 <= k < a@.len() && a@[k] == c;
                    assert(s@[k] == c);
                }
            }
            return Some((a, b));
        }
        i = i + 1;
    }
    assert(!s@.contains(c)) by {
        if s@.contains(c) {
            let k = choose|k: int| 0 <= k < s@.len() && s@[k] == c;
            assert(s@[k] != c);
        }
    }
    None
}

/// The text of `s` after its last `c`, or all of `s` when it has none:
/// what `str::split(c).last()` gives.
pub open spec fn after_last_spec(s: Seq<char>, c: char) -> Seq<char>
    decreases s.len(),
{
    if s.len() == 0 {
        s
    } else if s.last() == c {
        Seq::empty()
    } else {
        after_last_spec(s.drop_last(), c).push(s.last())
    }
}

pub fn after_last(s: &Vec<char>, c: char) -> (r: Vec<char>)
    ensures
        r@ == after_last_spec(s@, c),
{
    let n: usize = s.len();
    let mut i: usize = n;
    assert(s@.subrange(0, n as int) =~= s@);
    assert(s@.subrange(n as int, n as int) =~= Seq::<char>::empty());
    while i > 0 && s[i - 1] != c
        invariant
            n == s@.len(),
            i <= n,
            after_last_spec(s@.subrange(0, i as int), c) + s@.subrange(i as int, n as int)
                == after_last_spec(s@, c),
        decreases i,
    {
        assert(s@.subrange(0, i as int).drop_last() =~= s@.subrange(0, i - 1));
        assert(s@.subrange(i - 1, n as int) =~= seq![s@[i - 1]] + s@.subrange(i as int, n as int));
        i = i - 1;
    }
    assert(after_last_spec(s@.subrange(0, i as int), c) =~= Seq::<char>::empty());
    assert(Seq::<char>::empty() + s@.subrange(i as int, n as int) =~= s@.subrange(i as int, n as int));
    slice(s, i, n)
}

/// The maximal runs of non-white characters of `s` from `i` on, the
/// current run having begun at `begin`.
pub open spec fn words_from(s: Seq<char>, i: int, begin: int) -> Seq<Seq<char>>
    decreases s.len() - i,
{
    if i >= s.len() || i < 0 {
        if begin < s.len() {
            seq![s.subrange(begin, s.len() as int)]
        } else {
            Seq::empty()
        }
    } else if white(s[i]) {
        (if begin < i {
            seq![s.subrange(begin, i)]
        } else {
            Seq::empty()
        }) + words_from(s, i + 1, i + 1)
    } else {
        words_from(s, i + 1, begin)
    }
}

/// The words of `s`, as `str::split_whitespace` gives them.
pub open spec fn words(s: Seq<char>) -> Seq<Seq<char>> {
    words_from(s, 0, 0)
}

/// The words of `s`.
pub fn split_words(s: &Vec<char>) -> (r: Vec<Vec<char>>)
    ensures
        views(r@) == words(s@),
{
    let n: usize = s.len();
    let mut r: Vec<Vec<char>> = Vec::new();
    let mut i: usize = 0;
    let mut begin: usize = 0;
    assert(views(r@) =~= Seq::<Seq<char>>::empty());
    while i < n
        invariant
            n == s@.len(),
            begin <= i <= n,
            views(r@) + words_from(s@, i as int, begin as int) == words(s@),
        decreases n - i,
    {
        let ghost old_r = r@;
        let ghost old_i = i as int;
        let ghost old_begin = begin as int;
        if is_white(s[i]) {
            if begin < i {
                let w = slice(s, begin, i);
                r.push(w);
                assert(views(r@) =~= views(old_r).push(w@));
            } else {
                assert(views(r@) =~= views(old_r));
            }
            i = i + 1;
            begin = i;
            assert(views(r@) + words_from(s@, i as int, begin as int) =~= views(old_r)
                + words_from(s@, old_i, old_begin));
        } else {
            i = i + 1;
        }
    }
    let ghost old_r = r@;
    if begin < n {
        let w = slice(s, begin, n);
        r.push(w);
        assert(views(r@) =~= views(old_r).push(w@));
    }
    assert(views(r@) =~= views(old_r) + words_from(s@, i as int, begin as int));
    r
}

/// The value of a run of decimal digits.
pub open spec fn digits_value(s: Seq<char>) -> nat
    decreases s.len(),
{
    if s.len() == 0 {
        0
    } else {
        digits_value(s.drop_last()) * 10 + (s.last() as nat - 48) as nat
    }
}

pub open spec fn is_digit(c: char) -> bool {
    '0' <= c <= '9'
}

/// The digits of an unsigned number: one leading `+` is allowed.
pub open spec fn unsigned_digits(s: Seq<char>) -> Seq<char> {
    if s.len() > 0 && s[0] == '+' {
        s.drop_first()
    } else {
        s
    }
}

/// What `str::parse` gives for an unsigned integer type whose largest
/// value is `max`.
pub open spec fn parse_unsigned(s: Seq<char>, max: nat) -> Option<nat> {
    let d = unsigned_digits(s);
    if d.len() > 0 && (forall|i: int| 0 <= i < d.len() ==> is_digit(#[trigger] d[i]))
        && digits_value(d) <= max {
        Some(digits_value(d))
    } else {
        None
    }
}

proof fn lemma_digits_grow(d: Seq<char>, k: int)
    requires
        0 <= k <= d.len(),
        forall|i: int| 0 <= i < d.len() ==> is_digit(#[trigger] d[i]),
    ensures
        digits_value(d.subrange(0, k)) <= digits_value(d),
    decreases d.len() - k,
{
    if k < d.len() {
        lemma_digits_grow(d, k + 1);
        let p = d.subrange(0, k + 1);
        assert(p.drop_last() =~= d.subrange(0, k));
        assert(is_digit(d[k]));
    } else {
        assert(d.subrange(0, k) =~= d);
    }
}

/// `s` read as an unsigned number no greater than `max`.
pub fn parse_uint(s: &Vec<char>, max: u64) -> (r: Option<u64>)
    ensures
        match parse_unsigned(s@, max as nat) {
            Some(v) => r == Some(v as u64),
            None => r is None,
        },
{
    let n: usize = s.len();
    let start: usize = if n > 0 && s[0] == '+' {
        1
    } else {
        0
    };
    let ghost d = unsigned_digits(s@);
    assert(d =~= s@.subrange(start as int, n as int));
    if start >= n {
        return None;
    }
    let mut v: u64 = 0;
    let mut i: usize = start;
    while i < n
        invariant
            n == s@.len(),
            start <= i <= n,
            d == s@.subrange(start as int, n as int),
            d == unsigned_digits(s@),
            forall|j: int| 0 <= j < i - start ==> is_digit(#[trigger] d[j]),
            v == digits_value(d.subrange(0, i - start)),
            v <= max,
        decreases n - i,
    {
        let c = s[i];
        if c < '0' || c > '9' {
            assert(!is_digit(d[i - start]));
            return None;
        }
        let digit: u64 = (c as u64) - 48;
        if digit > max || v > (max - digit) / 10 {
            proof {
                assert(v * 10 + digit > max) by (nonlinear_arith)
                    requires
                        digit > max || v > (max - digit) / 10,
                ;
                let p = d.subrange(0, i - start + 1);
                assert(p.drop_last() =~= d.subrange(0, i - start));
                assert(p.last() == c);
                assert(digits_value(p) == v * 10 + digit);
                if forall|j: int| 0 <= j < d.len() ==> is_digit(#[trigger] d[j]) {
                    lemma_digits_grow(d, i - start + 1);
                }
                assert(parse_unsigned(s@, max as nat) is None);
            }
            return None;
        }
        proof {
            assert(v * 10 + digit <= max) by (nonlinear_arith)
                requires
                    v <= (max - digit) / 10,
                    digit <= max,
            ;
            let p = d.subrange(0, i - start + 1);
            assert(p.drop_last() =~= d.subrange(0, i - start));
            assert(p.last() == c);
        }
        v = v * 10 + digit;
        i = i + 1;
    }
    assert(d.subrange(0, n - start) =~= d);
    Some(v)
}

/// `p` without one final carriage return.
pub open spec fn strip_cr(p: Seq<char>) -> Seq<char> {
    if p.len() > 0 && p.last() == '\r' {
        p.drop_last()
    } else {
        p
    }
}

/// The lines of `s`, as `str::lines` gives them: split at `\n`, a `\r`
/// before a `\n` dropped, no final empty line.
pub open spec fn lines(s: Seq<char>) -> Seq<Seq<char>> {
    let parts = split(s, seq!['\n']);
    let n = parts.len();
    let kept = if n > 0 && parts[n - 1].len() == 0 {
        n - 1
    } else {
        n as int
    };
    Seq::new(kept as nat, |i: int| if i < n - 1 { strip_cr(parts[i]) } else { parts[i] })
}

/// The lines of `s`.
pub fn split_lines(s: &Vec<char>) -> (r: Vec<Vec<char>>)
    ensures
        views(r@) == lines(s@),
{
    let sep = vec!['\n'];
    assert(sep@ =~= seq!['\n']);
    let parts = split_on(s, &sep);
    let n = parts.len();
    assert(n > 0 ==> views(parts@)[n - 1] == parts@[n - 1]@);
    let kept: usize = if n > 0 && parts[n - 1].len() == 0 {
        n - 1
    } else {
        n
    };
    let mut r: Vec<Vec<char>> = Vec::new();
    let mut i: usize = 0;
    while i < kept
        invariant
            kept <= n == parts@.len(),
            views(parts@) == split(s@, seq!['\n']),
            sep@ == seq!['\n'],
            i <= kept,
            views(r@) =~= lines(s@).subrange(0, i as int),
            lines(s@).len() == kept,
        decreases kept - i,
    {
        let p = &parts[i];
        let pl = p.len();
        let line = if i + 1 < n && pl > 0 && p[pl - 1] == '\r' {
            slice(p, 0, pl - 1)
        } else {
            slice(p, 0, pl)
        };
        proof {
            assert(p@.subrange(0, pl as int) =~= p@);
            if pl > 0 {
                assert(p@.subrange(0, pl - 1) =~= p@.drop_last());
            }
            assert(views(parts@)[i as int] == p@);
            assert(line@ == lines(s@)[i as int]);
        }
        let ghost old_r = r@;
        r.push(line);
        assert(views(r@) =~= views(old_r).push(line@));
        i = i + 1;
    }
    assert(lines(s@).subrange(0, kept as int) =~= lines(s@));
    r
}

} // verus!
