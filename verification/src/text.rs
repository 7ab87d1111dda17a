//! Character-level text processing: whitespace, trimming, splitting, lines,
//! whitespace-separated tokens.
use vstd::prelude::*;
use vstd::string::*;

verus! {

/// Unicode `White_Space`, the property that `char::is_whitespace` tests.
pub open spec fn is_whitespace(c: char) -> bool {
    let u = c as u32;
    ||| 0x9 <= u <= 0xd
    ||| u == 0x20
    ||| u == 0x85
    ||| u == 0xa0
    ||| u == 0x1680
    ||| 0x2000 <= u <= 0x200a
    ||| u == 0x2028
    ||| u == 0x2029
    ||| u == 0x202f
    ||| u == 0x205f
    ||| u == 0x3000
}

/// Whether `c` is Unicode whitespace.
pub fn char_is_whitespace(c: char) -> (b: bool)
    ensures
        b == is_whitespace(c),
{
    let u = c as u32;
    (0x9 <= u && u <= 0xd) || u == 0x20 || u == 0x85 || u == 0xa0 || u == 0x1680 || (0x2000 <= u
        && u <= 0x200a) || u == 0x2028 || u == 0x2029 || u == 0x202f || u == 0x205f || u == 0x3000
}

/// `s` without its leading whitespace.
pub open spec fn trim_start(s: Seq<char>) -> Seq<char>
    decreases s.len(),
{
    if s.len() > 0 && is_whitespace(s[0]) {
        trim_start(s.drop_first())
    } else {
        s
    }
}

/// `s` without its trailing whitespace.
pub open spec fn trim_end(s: Seq<char>) -> Seq<char>
    decreases s.len(),
{
    if s.len() > 0 && is_whitespace(s.last()) {
        trim_end(s.drop_last())
    } else {
        s
    }
}

/// `s` without leading and trailing whitespace, as `str::trim` gives it.
pub open spec fn trim(s: Seq<char>) -> Seq<char> {
    trim_end(trim_start(s))
}

/// The characters of `s`, collected into a vector.
pub fn chars_of(s: &str) -> (r: Vec<char>)
    ensures
        r@ == s@,
{
    let mut r: Vec<char> = Vec::new();
    for c in it: s.chars()
        invariant
            r@ == it.seq().take(it.index() as int),
            it.seq() == s@,
    {
        r.push(c);
    }
    r
}

/// The bounds, inside `lo..hi`, of the trimmed window `cs[lo..hi]`.
pub fn trim_bounds(cs: &[char], lo: usize, hi: usize) -> (r: (usize, usize))
    requires
        lo <= hi <= cs@.len(),
    ensures
        lo <= r.0 <= r.1 <= hi,
        cs@.subrange(r.0 as int, r.1 as int) == trim(cs@.subrange(lo as int, hi as int)),
{
    let mut a = lo;
    while a < hi && char_is_whitespace(cs[a])
        invariant
            lo <= a <= hi <= cs@.len(),
            trim_start(cs@.subrange(lo as int, hi as int)) == trim_start(
                cs@.subrange(a as int, hi as int),
            ),
        decreases hi - a,
    {
        assert(cs@.subrange(a as int, hi as int).drop_first() =~= cs@.subrange(
            a + 1,
            hi as int,
        ));
        a = a + 1;
    }
    assert(trim_start(cs@.subrange(a as int, hi as int)) == cs@.subrange(a as int, hi as int));
    let mut b = hi;
    while b > a && char_is_whitespace(cs[b - 1])
        invariant
            lo <= a <= b <= hi <= cs@.len(),
            trim(cs@.subrange(lo as int, hi as int)) == trim_end(cs@.subrange(a as int, b as int)),
        decreases b - a,
    {
        assert(cs@.subrange(a as int, b as int).drop_last() =~= cs@.subrange(
            a as int,
            b - 1,
        ));
        b = b - 1;
    }
    (a, b)
}


/// The pieces of `s` between occurrences of `sep`, as `str::split` yields them
/// (an empty string gives one empty piece).
pub open spec fn split_on(s: Seq<char>, sep: char) -> Seq<Seq<char>>
    decreases s.len(),
{
    if s.len() == 0 {
        seq![Seq::<char>::empty()]
    } else {
        let prev = split_on(s.drop_last(), sep);
        if s.last() == sep {
            prev.push(Seq::<char>::empty())
        } else {
            prev.update(prev.len() - 1, prev.last().push(s.last()))
        }
    }
}

/// The windows of `s` that a list of `(start, end)` bounds designates.
pub open spec fn windows(s: Seq<char>, bounds: Seq<(usize, usize)>) -> Seq<Seq<char>> {
    bounds.map_values(|b: (usize, usize)| s.subrange(b.0 as int, b.1 as int))
}

/// Whether every bound pair lies inside a text of length `len`.
pub open spec fn bounds_within(bounds: Seq<(usize, usize)>, len: int) -> bool {
    forall|j: int| 0 <= j < bounds.len() ==> #[trigger] bounds[j].0 <= bounds[j].1 <= len
}

/// A split always has at least one piece.
pub proof fn lemma_split_on_nonempty(s: Seq<char>, sep: char)
    ensures
        split_on(s, sep).len() >= 1,
    decreases s.len(),
{
    if s.len() > 0 {
        lemma_split_on_nonempty(s.drop_last(), sep);
    }
}

/// The bounds of the pieces of `cs` between occurrences of `sep`.
pub fn split_bounds(cs: &[char], sep: char) -> (r: Vec<(usize, usize)>)
    ensures
        bounds_within(r@, cs@.len() as int),
        windows(cs@, r@) == split_on(cs@, sep),
{
    let mut r: Vec<(usize, usize)> = Vec::new();
    let mut start: usize = 0;
    let mut i: usize = 0;
    assert(cs@.take(0) =~= Seq::<char>::empty());
    assert(windows(cs@, r@).push(cs@.subrange(0, 0)) =~= split_on(cs@.take(0), sep));
    while i < cs.len()
        invariant
            start <= i <= cs@.len(),
            bounds_within(r@, i as int),
            split_on(cs@.take(i as int), sep) == windows(cs@, r@).push(
                cs@.subrange(start as int, i as int),
            ),
        decreases cs@.len() - i,
    {
        let ghost prev = cs@.take(i as int);
        assert(cs@.take(i + 1).drop_last() =~= prev);
        assert(cs@.take(i + 1).last() == cs@[i as int]);
        if cs[i] == sep {
            r.push((start, i));
            assert(windows(cs@, r@) =~= windows(cs@, r@.drop_last()).push(
                cs@.subrange(start as int, i as int),
            ));
            start = i + 1;
            assert(cs@.subrange(start as int, i + 1) =~= Seq::<char>::empty());
            assert(split_on(cs@.take(i + 1), sep) =~= windows(cs@, r@).push(
                cs@.subrange(start as int, i + 1),
            ));
        } else {
            assert(cs@.subrange(start as int, i + 1) =~= cs@.subrange(start as int, i as int).push(
                cs@[i as int],
            ));
            let ghost w = windows(cs@, r@);
            let ghost x = cs@.subrange(start as int, i as int);
            assert(w.push(x).update(w.len() as int, x.push(cs@[i as int])) =~= w.push(
                x.push(cs@[i as int]),
            ));
            assert(split_on(cs@.take(i + 1), sep) =~= windows(cs@, r@).push(
                cs@.subrange(start as int, i + 1),
            ));
        }
        i = i + 1;
    }
    r.push((start, i));
    assert(cs@.take(cs@.len() as int) =~= cs@);
    assert(windows(cs@, r@) =~= windows(cs@, r@.drop_last()).push(
        cs@.subrange(start as int, i as int),
    ));
    r
}


/// A line without the carriage return that preceded its line feed.
pub open spec fn strip_cr(p: Seq<char>) -> Seq<char> {
    if p.len() > 0 && p.last() == '\r' {
        p.drop_last()
    } else {
        p
    }
}

/// The lines of `s` as `str::lines` yields them: split at `\n`, each line that
/// ended in `\n` loses one `\r` before it, and a final empty piece is no line.
pub open spec fn lines_of(s: Seq<char>) -> Seq<Seq<char>> {
    let pieces = split_on(s, '\n');
    let n = pieces.len() as int;
    let ended = pieces.take(n - 1).map_values(|p: Seq<char>| strip_cr(p));
    if pieces[n - 1].len() == 0 {
        ended
    } else {
        ended.push(pieces[n - 1])
    }
}

/// Trimming the start of a text with one more character.
pub proof fn lemma_trim_start_push(q: Seq<char>, c: char)
    ensures
        trim_start(q.push(c)) == (if trim_start(q).len() == 0 && is_whitespace(c) {
            Seq::<char>::empty()
        } else {
            trim_start(q).push(c)
        }),
    decreases q.len(),
{
    if q.len() == 0 {
        assert(q.push(c).drop_first() =~= Seq::<char>::empty());
        assert(trim_start(Seq::<char>::empty()) == Seq::<char>::empty());
        assert(trim_start(q) == q);
        assert(q.push(c)[0] == c);
    } else if is_whitespace(q[0]) {
        assert(q.push(c).drop_first() =~= q.drop_first().push(c));
        assert(q.push(c)[0] == q[0]);
        lemma_trim_start_push(q.drop_first(), c);
    } else {
        assert(q.push(c)[0] == q[0]);
    }
}

/// A trailing carriage return does not survive trimming.
pub proof fn lemma_trim_strip_cr(p: Seq<char>)
    ensures
        trim(strip_cr(p)) == trim(p),
{
    if p.len() > 0 && p.last() == '\r' {
        let q = p.drop_last();
        assert(q.push('\r') =~= p);
        lemma_trim_start_push(q, '\r');
        let t = trim_start(q);
        if t.len() == 0 {
            assert(trim_end(t) =~= Seq::<char>::empty());
        } else {
            assert(t.push('\r').drop_last() =~= t);
        }
    }
}


/// The maximal runs of non-whitespace characters of `s`, as
/// `str::split_whitespace` yields them.
pub open spec fn tokens(s: Seq<char>) -> Seq<Seq<char>>
    decreases s.len(),
{
    if s.len() == 0 {
        Seq::<Seq<char>>::empty()
    } else {
        let prev = tokens(s.drop_last());
        let c = s.last();
        if is_whitespace(c) {
            prev
        } else if s.len() >= 2 && !is_whitespace(s[s.len() - 2]) {
            prev.update(prev.len() - 1, prev.last().push(c))
        } else {
            prev.push(seq![c])
        }
    }
}

/// The bounds of the whitespace-separated tokens of `cs`.
pub fn token_bounds(cs: &[char]) -> (r: Vec<(usize, usize)>)
    ensures
        bounds_within(r@, cs@.len() as int),
        windows(cs@, r@) == tokens(cs@),
{
    let mut r: Vec<(usize, usize)> = Vec::new();
    let mut start: usize = 0;
    let mut in_token = false;
    let mut i: usize = 0;
    assert(cs@.take(0) =~= Seq::<char>::empty());
    while i < cs.len()
        invariant
            start <= i <= cs@.len(),
            bounds_within(r@, i as int),
            in_token <==> (i > 0 && !is_whitespace(cs@[i - 1])),
            in_token ==> start < i && tokens(cs@.take(i as int)) == windows(cs@, r@).push(
                cs@.subrange(start as int, i as int),
            ),
            !in_token ==> tokens(cs@.take(i as int)) == windows(cs@, r@),
        decreases cs@.len() - i,
    {
        let ghost t = cs@.take(i + 1);
        assert(t.drop_last() =~= cs@.take(i as int));
        assert(t.last() == cs@[i as int]);
        if i >= 1 {
            assert(t[t.len() - 2] == cs@[i - 1]);
        }
        if char_is_whitespace(cs[i]) {
            if in_token {
                r.push((start, i));
                assert(windows(cs@, r@) =~= windows(cs@, r@.drop_last()).push(
                    cs@.subrange(start as int, i as int),
                ));
            }
            in_token = false;
        } else if in_token {
            let ghost w = windows(cs@, r@);
            let ghost x = cs@.subrange(start as int, i as int);
            assert(cs@.subrange(start as int, i + 1) =~= x.push(cs@[i as int]));
            assert(w.push(x).update(w.len() as int, x.push(cs@[i as int])) =~= w.push(
                x.push(cs@[i as int]),
            ));
        } else {
            start = i;
            in_token = true;
            assert(cs@.subrange(start as int, i + 1) =~= seq![cs@[i as int]]);
        }
        i = i + 1;
    }
    assert(cs@.take(cs@.len() as int) =~= cs@);
    if in_token {
        r.push((start, i));
        assert(windows(cs@, r@) =~= windows(cs@, r@.drop_last()).push(
            cs@.subrange(start as int, i as int),
        ));
    }
    r
}


/// Splitting text that holds no separator gives the text itself.
pub proof fn lemma_split_on_no_sep(s: Seq<char>, sep: char)
    requires
        !s.contains(sep),
    ensures
        split_on(s, sep) == seq![s],
    decreases s.len(),
{
    if s.len() == 0 {
        assert(s =~= Seq::<char>::empty());
        assert(split_on(s, sep) =~= seq![s]);
    } else {
        let p = s.drop_last();
        assert(!p.contains(sep)) by {
            if p.contains(sep) {
                let k = choose|k: int| 0 <= k < p.len() && p[k] == sep;
                assert(s[k] == sep);
            }
        }
        lemma_split_on_no_sep(p, sep);
        assert(s.last() != sep) by {
            assert(s[s.len() - 1] == s.last());
        }
        assert(p.push(s.last()) =~= s);
        let prev = split_on(p, sep);
        assert(prev == seq![p]);
        assert(prev.last() == p);
        assert(split_on(s, sep) == prev.update(0, p.push(s.last())));
        assert(split_on(s, sep) =~= seq![s]);
    }
}

/// Splitting `a`, a separator, then `b`, gives the pieces of `a` followed by
/// the pieces of `b`.
pub proof fn lemma_split_on_join(a: Seq<char>, b: Seq<char>, sep: char)
    ensures
        split_on(a + seq![sep] + b, sep) == split_on(a, sep) + split_on(b, sep),
    decreases b.len(),
{
    let x = a + seq![sep] + b;
    if b.len() == 0 {
        assert(x =~= a.push(sep));
        assert(x.drop_last() =~= a);
        assert(split_on(x, sep) =~= split_on(a, sep) + split_on(b, sep));
    } else {
        let b0 = b.drop_last();
        lemma_split_on_join(a, b0, sep);
        assert(x.drop_last() =~= a + seq![sep] + b0);
        assert(x.last() == b.last());
        lemma_split_on_nonempty(b0, sep);
        lemma_split_on_nonempty(a, sep);
        let pa = split_on(a, sep);
        let pb = split_on(b0, sep);
        if b.last() == sep {
            assert(split_on(x, sep) =~= pa + split_on(b, sep));
        } else {
            assert((pa + pb).update((pa + pb).len() - 1, (pa + pb).last().push(b.last())) =~= pa
                + pb.update(pb.len() - 1, pb.last().push(b.last())));
            assert(split_on(x, sep) =~= pa + split_on(b, sep));
        }
    }
}

/// How many lines `str::lines` finds: one per `\n`-separated piece, less a
/// final empty piece.
pub open spec fn line_count(s: Seq<char>) -> int {
    let pieces = split_on(s, '\n');
    let n = pieces.len() as int;
    if pieces[n - 1].len() == 0 {
        n - 1
    } else {
        n
    }
}

/// A trimmed line is the trimmed `\n`-separated piece it came from.
pub proof fn lemma_lines_trimmed(s: Seq<char>)
    ensures
        lines_of(s).len() == line_count(s),
        forall|j: int|
            0 <= j < line_count(s) ==> #[trigger] trim(lines_of(s)[j]) == trim(split_on(s, '\n')[j]),
{
    lemma_split_on_nonempty(s, '\n');
    let pieces = split_on(s, '\n');
    let n = pieces.len() as int;
    assert forall|j: int| 0 <= j < line_count(s) implies #[trigger] trim(lines_of(s)[j]) == trim(
        pieces[j],
    ) by {
        if j < n - 1 {
            assert(lines_of(s)[j] == strip_cr(pieces[j]));
            lemma_trim_strip_cr(pieces[j]);
        } else {
            assert(lines_of(s)[j] == pieces[j]);
        }
    }
}

// ── Hexadecimal and decimal digits ───────────────────────────────────────────

/// The upper-case hexadecimal digit for `n` (below 16).
pub open spec fn hex_upper(n: int) -> char {
    if n < 10 {
        (48 + n) as char
    } else {
        (55 + n) as char
    }
}

/// The two upper-case hexadecimal digits of a byte, as `{:02X}` prints it.
pub open spec fn byte_hex(b: u8) -> Seq<char> {
    seq![hex_upper(b as int / 16), hex_upper(b as int % 16)]
}

/// The upper-case hexadecimal digit for `n`.
pub fn hex_upper_char(n: u8) -> (c: char)
    requires
        n < 16,
    ensures
        c == hex_upper(n as int),
{
    if n < 10 {
        (48u8 + n) as char
    } else {
        (55u8 + n) as char
    }
}

/// The value of a hexadecimal digit (either case), if `c` is one.
pub open spec fn hex_digit(c: char) -> Option<nat> {
    let u = c as u32;
    if 48 <= u <= 57 {
        Some((u - 48) as nat)
    } else if 65 <= u <= 70 {
        Some((u - 55) as nat)
    } else if 97 <= u <= 102 {
        Some((u - 87) as nat)
    } else {
        None
    }
}

/// Whether every character of `d` is a hexadecimal digit.
pub open spec fn all_hex_digits(d: Seq<char>) -> bool {
    forall|i: int| 0 <= i < d.len() ==> #[trigger] hex_digit(d[i]) is Some
}

/// The value of a string of hexadecimal digits.
pub open spec fn hex_value(d: Seq<char>) -> nat
    decreases d.len(),
{
    if d.len() == 0 {
        0
    } else {
        hex_value(d.drop_last()) * 16 + match hex_digit(d.last()) {
            Some(v) => v,
            None => 0,
        }
    }
}

/// A byte read from hexadecimal text as `u8::from_str_radix(t, 16)` reads it:
/// an optional `+`, then at least one hexadecimal digit, with a value below 256.
pub open spec fn parse_hex_u8(t: Seq<char>) -> Option<u8> {
    let d = if t.len() > 0 && t[0] == '+' {
        t.drop_first()
    } else {
        t
    };
    if d.len() > 0 && all_hex_digits(d) && hex_value(d) <= 255 {
        Some(hex_value(d) as u8)
    } else {
        None
    }
}

/// The value of a hexadecimal digit, if `c` is one.
pub fn hex_digit_value(c: char) -> (r: Option<u8>)
    ensures
        r matches Some(v) ==> hex_digit(c) == Some(v as nat) && v < 16,
        r is None ==> hex_digit(c) is None,
{
    let u = c as u32;
    if 48 <= u && u <= 57 {
        Some((u - 48) as u8)
    } else if 65 <= u && u <= 70 {
        Some((u - 55) as u8)
    } else if 97 <= u && u <= 102 {
        Some((u - 87) as u8)
    } else {
        None
    }
}

/// A prefix of a digit string never has a larger value than the whole.
pub proof fn lemma_hex_value_prefix(d: Seq<char>, k: int)
    requires
        0 <= k <= d.len(),
    ensures
        hex_value(d.take(k)) <= hex_value(d),
    decreases d.len(),
{
    if k < d.len() {
        assert(d.drop_last().take(k) =~= d.take(k));
        lemma_hex_value_prefix(d.drop_last(), k);
    } else {
        assert(d.take(k) =~= d);
    }
}

/// Reads a byte from the hexadecimal text `cs[lo..hi]`.
pub fn parse_hex_u8_in(cs: &[char], lo: usize, hi: usize) -> (r: Option<u8>)
    requires
        lo <= hi <= cs@.len(),
    ensures
        r == parse_hex_u8(cs@.subrange(lo as int, hi as int)),
{
    let ghost t = cs@.subrange(lo as int, hi as int);
    let mut i = lo;
    if i < hi && cs[i] == '+' {
        i = i + 1;
        assert(t.drop_first() =~= cs@.subrange(i as int, hi as int));
    }
    let ghost d = cs@.subrange(i as int, hi as int);
    assert(d == (if t.len() > 0 && t[0] == '+' { t.drop_first() } else { t }));
    if i == hi {
        return None;
    }
    let d0 = i;
    let mut acc: u32 = 0;
    assert(d.take(0) =~= Seq::<char>::empty());
    while i < hi
        invariant
            d0 <= i <= hi <= cs@.len(),
            d == cs@.subrange(d0 as int, hi as int),
            t == cs@.subrange(lo as int, hi as int),
            d == (if t.len() > 0 && t[0] == '+' { t.drop_first() } else { t }),
            d.len() > 0,
            acc <= 255,
            acc == hex_value(d.take(i - d0)),
            all_hex_digits(d.take(i - d0)),
        decreases hi - i,
    {
        let ghost k = i - d0;
        assert(d.take(k + 1).drop_last() =~= d.take(k));
        assert(d.take(k + 1).last() == cs@[i as int]);
        match hex_digit_value(cs[i]) {
            None => {
                assert(!all_hex_digits(d)) by {
                    assert(hex_digit(d[k]) is None);
                }
                return None;
            },
            Some(v) => {
                acc = acc * 16 + v as u32;
                assert(all_hex_digits(d.take(k + 1))) by {
                    assert forall|j: int| 0 <= j < k + 1 implies #[trigger] hex_digit(
                        d.take(k + 1)[j],
                    ) is Some by {
                        if j < k {
                            assert(d.take(k + 1)[j] == d.take(k)[j]);
                        }
                    }
                }
                if acc > 255 {
                    proof {
                        lemma_hex_value_prefix(d, k + 1);
                    }
                    return None;
                }
            },
        }
        i = i + 1;
    }
    assert(d.take(i - d0) =~= d);
    Some(acc as u8)
}

/// The decimal digit for `n` (below 10).
pub open spec fn dec_char(n: int) -> char {
    (48 + n) as char
}

/// The decimal text of a byte, without leading zeros, as `{}` prints it.
pub open spec fn dec_u8_text(n: u8) -> Seq<char> {
    if n < 10 {
        seq![dec_char(n as int)]
    } else if n < 100 {
        seq![dec_char(n as int / 10), dec_char(n as int % 10)]
    } else {
        seq![dec_char(n as int / 100), dec_char((n as int / 10) % 10), dec_char(n as int % 10)]
    }
}

/// The value of a decimal digit, if `c` is one.
pub open spec fn dec_digit(c: char) -> Option<nat> {
    let u = c as u32;
    if 48 <= u <= 57 {
        Some((u - 48) as nat)
    } else {
        None
    }
}

/// Whether every character of `d` is a decimal digit.
pub open spec fn all_dec_digits(d: Seq<char>) -> bool {
    forall|i: int| 0 <= i < d.len() ==> #[trigger] dec_digit(d[i]) is Some
}

/// The value of a string of decimal digits.
pub open spec fn dec_value(d: Seq<char>) -> nat
    decreases d.len(),
{
    if d.len() == 0 {
        0
    } else {
        dec_value(d.drop_last()) * 10 + match dec_digit(d.last()) {
            Some(v) => v,
            None => 0,
        }
    }
}

/// One octet of dotted-quad text as `Ipv4Addr`'s parser reads it: one to three
/// decimal digits, no leading zero unless the octet is `0`, value below 256.
pub open spec fn parse_octet(t: Seq<char>) -> Option<u8> {
    if 0 < t.len() <= 3 && all_dec_digits(t) && !(t.len() > 1 && t[0] == '0') && dec_value(t)
        <= 255 {
        Some(dec_value(t) as u8)
    } else {
        None
    }
}

/// Reads an octet from the decimal text `cs[lo..hi]`.
pub fn parse_octet_in(cs: &[char], lo: usize, hi: usize) -> (r: Option<u8>)
    requires
        lo <= hi <= cs@.len(),
    ensures
        r == parse_octet(cs@.subrange(lo as int, hi as int)),
{
    let ghost t = cs@.subrange(lo as int, hi as int);
    if hi == lo || hi - lo > 3 {
        return None;
    }
    if hi - lo > 1 && cs[lo] == '0' {
        assert(t[0] == cs@[lo as int]);
        return None;
    }
    let mut i = lo;
    let mut acc: u32 = 0;
    assert(t.take(0) =~= Seq::<char>::empty());
    while i < hi
        invariant
            lo <= i <= hi <= cs@.len(),
            hi - lo <= 3,
            t == cs@.subrange(lo as int, hi as int),
            acc < 1000,
            acc == dec_value(t.take(i - lo)),
            all_dec_digits(t.take(i - lo)),
            (i - lo) == 0 ==> acc == 0,
            (i - lo) == 1 ==> acc < 10,
            (i - lo) == 2 ==> acc < 100,
        decreases hi - i,
    {
        let ghost k = i - lo;
        assert(t.take(k + 1).drop_last() =~= t.take(k));
        assert(t.take(k + 1).last() == cs@[i as int]);
        let u = cs[i] as u32;
        if u < 48 || u > 57 {
            assert(dec_digit(t[k]) is None);
            return None;
        }
        acc = acc * 10 + (u - 48);
        assert(all_dec_digits(t.take(k + 1))) by {
            assert forall|j: int| 0 <= j < k + 1 implies #[trigger] dec_digit(t.take(k + 1)[j]) is Some by {
                if j < k {
                    assert(t.take(k + 1)[j] == t.take(k)[j]);
                }
            }
        }
        i = i + 1;
    }
    assert(t.take(i - lo) =~= t);
    if acc > 255 {
        return None;
    }
    Some(acc as u8)
}


/// The two hex digits of a byte read back as that byte.
pub proof fn lemma_byte_hex_parses(b: u8)
    ensures
        parse_hex_u8(trim(byte_hex(b))) == Some(b),
        !byte_hex(b).contains(':'),
{
    let h = byte_hex(b);
    let hi = b as int / 16;
    let lo = b as int % 16;
    assert(hex_digit(hex_upper(hi)) == Some(hi as nat));
    assert(hex_digit(hex_upper(lo)) == Some(lo as nat));
    assert(!is_whitespace(h[0]) && !is_whitespace(h[1]));
    assert(trim_start(h) == h);
    assert(h.last() == h[1]);
    assert(trim_end(h) == h);
    assert(h.drop_last() =~= seq![h[0]]);
    let h0 = h.drop_last();
    assert(h0.drop_last() =~= Seq::<char>::empty());
    assert(h0.last() == h[0]);
    assert(hex_value(h0.drop_last()) == 0);
    assert(hex_value(h0) == hi);
    assert(hex_value(h) == b as int);
    assert(all_hex_digits(h));
    assert(h[0] != '+');
    assert(!h.contains(':')) by {
        if h.contains(':') {
            let k = choose|k: int| 0 <= k < h.len() && h[k] == ':';
            assert(k == 0 || k == 1);
        }
    }
}


/// The decimal digit for `n`.
pub fn dec_digit_char(n: u8) -> (c: char)
    requires
        n < 10,
    ensures
        c == dec_char(n as int),
{
    (48u8 + n) as char
}

/// Appends the decimal text of `n`.
pub fn push_dec_u8(out: &mut String, n: u8)
    ensures
        final(out)@ == old(out)@ + dec_u8_text(n),
{
    if n >= 100 {
        out.push(dec_digit_char(n / 100));
    }
    if n >= 10 {
        out.push(dec_digit_char((n / 10) % 10));
    }
    out.push(dec_digit_char(n % 10));
    assert(out@ =~= old(out)@ + dec_u8_text(n));
}

/// The decimal text of a byte reads back as that byte, and holds no `.`.
pub proof fn lemma_dec_u8_parses(n: u8)
    ensures
        parse_octet(dec_u8_text(n)) == Some(n),
        !dec_u8_text(n).contains('.'),
{
    let t = dec_u8_text(n);
    let d0 = n as int % 10;
    let d1 = (n as int / 10) % 10;
    let d2 = n as int / 100;
    assert(dec_digit(dec_char(d0)) == Some(d0 as nat));
    assert(dec_digit(dec_char(d1)) == Some(d1 as nat));
    assert(dec_digit(dec_char(d2)) == Some(d2 as nat));
    assert(t.last() == t[t.len() - 1]);
    assert(t.last() == dec_char(d0));
    assert(dec_value(Seq::<char>::empty()) == 0);
    assert forall|i: int| 0 <= i < t.len() implies #[trigger] dec_digit(t[i]) is Some && t[i] != '.' by {}
    assert(all_dec_digits(t));
    if n < 10 {
        assert(d0 == n as int);
        assert(t.drop_last() =~= Seq::<char>::empty());
        assert(dec_value(t) == n as int);
    } else if n < 100 {
        assert(d1 == n as int / 10);
        let t1 = t.drop_last();
        assert(t1 =~= seq![t[0]]);
        assert(t1.drop_last() =~= Seq::<char>::empty());
        assert(t1.last() == dec_char(d1));
        assert(dec_value(t1) == n as int / 10);
        assert(dec_value(t) == n as int);
    } else {
        let t1 = t.drop_last();
        assert(t1 =~= seq![t[0], t[1]]);
        assert(t1.drop_last() =~= seq![t[0]]);
        assert(t1.drop_last().drop_last() =~= Seq::<char>::empty());
        assert(t1.last() == dec_char(d1));
        assert(t1.drop_last().last() == dec_char(d2));
        assert(dec_value(t1.drop_last()) == n as int / 100);
        assert(dec_value(t1) == n as int / 10);
        assert(dec_value(t) == n as int);
    }
    assert(!t.contains('.')) by {
        if t.contains('.') {
            let k = choose|k: int| 0 <= k < t.len() && t[k] == '.';
            assert(t[k] != '.');
        }
    }
}


/// The decimal text of a byte is one to three ASCII digits.
pub proof fn lemma_dec_u8_ascii(n: u8)
    ensures
        1 <= dec_u8_text(n).len() <= 3,
        forall|i: int|
            0 <= i < dec_u8_text(n).len() ==> 48 <= #[trigger] dec_u8_text(n)[i] as u32 <= 57,
{
}

/// The decimal text of `n`, without leading zeros, as `{}` prints it.
pub open spec fn dec_text(n: nat) -> Seq<char>
    decreases n,
{
    if n < 10 {
        seq![dec_char(n as int)]
    } else {
        dec_text(n / 10) + seq![dec_char((n % 10) as int)]
    }
}

/// Appends the decimal text of `n`.
pub fn push_dec_usize(out: &mut String, n: usize)
    ensures
        final(out)@ == old(out)@ + dec_text(n as nat),
    decreases n,
{
    if n >= 10 {
        push_dec_usize(out, n / 10);
    }
    out.push(dec_digit_char((n % 10) as u8));
    assert(out@ =~= old(out)@ + dec_text(n as nat));
}

/// The lower-case hexadecimal digit for `n` (below 16).
pub open spec fn hex_lower(n: int) -> char {
    if n < 10 {
        (48 + n) as char
    } else {
        (87 + n) as char
    }
}

/// The two lower-case hexadecimal digits of a byte, as `{:02x}` prints it.
pub open spec fn byte_hex_lower(b: u8) -> Seq<char> {
    seq![hex_lower(b as int / 16), hex_lower(b as int % 16)]
}

/// Appends the two lower-case hexadecimal digits of `b`.
pub fn push_byte_hex_lower(out: &mut String, b: u8)
    ensures
        final(out)@ == old(out)@ + byte_hex_lower(b),
{
    let hi = b / 16;
    let lo = b % 16;
    out.push(if hi < 10 { (48u8 + hi) as char } else { (87u8 + hi) as char });
    out.push(if lo < 10 { (48u8 + lo) as char } else { (87u8 + lo) as char });
    assert(out@ =~= old(out)@ + byte_hex_lower(b));
}

} // verus!
