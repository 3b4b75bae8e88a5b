//! Text as a sequence of characters.
use vstd::prelude::*;

verus! {

/// `String::push` appends one character.
pub assume_specification[ String::push ](s: &mut String, c: char)
    ensures
        final(s)@ == old(s)@.push(c),
;

/// The characters of `s`, in order.
pub fn chars_of(s: &str) -> (r: Vec<char>)
    ensures
        r@ == s@,
{
    let mut r: Vec<char> = Vec::new();
    for c in it: s.chars()
        invariant
            it.seq() == s@,
            r@ == s@.take(it.index() as int),
    {
        r.push(c);
    }
    assert(s@.take(s@.len() as int) == s@);
    r
}

/// The characters `chars[from..to]` as a string.
pub fn text_of(chars: &Vec<char>, from: usize, to: usize) -> (r: String)
    requires
        from <= to <= chars@.len(),
    ensures
        r@ == chars@.subrange(from as int, to as int),
{
    let mut r = String::new();
    let mut i: usize = from;
    while i < to
        invariant
            from <= i <= to <= chars@.len(),
            r@ == chars@.subrange(from as int, i as int),
        decreases to - i,
    {
        r.push(chars[i]);
        i += 1;
        assert(r@ =~= chars@.subrange(from as int, i as int));
    }
    r
}

/// Unicode white space: the characters between which words stand.
pub open spec fn is_space(c: char) -> bool {
    let n = c as u32;
    ||| 0x9 <= n <= 0xd
    ||| n == 0x20
    ||| n == 0x85
    ||| n == 0xa0
    ||| n == 0x1680
    ||| 0x2000 <= n <= 0x200a
    ||| n == 0x2028
    ||| n == 0x2029
    ||| n == 0x202f
    ||| n == 0x205f
    ||| n == 0x3000
}

/// Where a scan over text stops.
#[derive(Clone, Copy)]
pub enum Stop {
    /// At this character.
    At(char),
    /// At white space.
    Space,
    /// At anything but white space.
    Word,
}

impl Stop {
    /// Whether a scan stops at `c`.
    pub open spec fn stops(self, c: char) -> bool {
        match self {
            Stop::At(d) => c == d,
            Stop::Space => is_space(c),
            Stop::Word => !is_space(c),
        }
    }

    fn stops_at(self, c: char) -> (r: bool)
        ensures
            r == self.stops(c),
    {
        match self {
            Stop::At(d) => c == d,
            Stop::Space => space(c),
            Stop::Word => !space(c),
        }
    }
}

/// Whether `c` is white space.
pub fn space(c: char) -> (r: bool)
    ensures
        r == is_space(c),
{
    let n: u32 = c as u32;
    (0x9 <= n && n <= 0xd) || n == 0x20 || n == 0x85 || n == 0xa0 || n == 0x1680 || (0x2000 <= n
        && n <= 0x200a) || n == 0x2028 || n == 0x2029 || n == 0x202f || n == 0x205f || n == 0x3000
}

/// How many characters stand in `s` before the first at which a scan stops.
pub open spec fn run(s: Seq<char>, stop: Stop) -> nat
    decreases s.len(),
{
    if s.len() == 0 || stop.stops(s[0]) {
        0
    } else {
        1 + run(s.skip(1), stop)
    }
}

/// A run ends at the first stopping character, or at the end of the text.
pub proof fn lemma_run(s: Seq<char>, stop: Stop)
    ensures
        0 <= run(s, stop) <= s.len(),
        forall|i: int| 0 <= i < run(s, stop) ==> !stop.stops(#[trigger] s[i]),
        run(s, stop) < s.len() ==> stop.stops(s[run(s, stop) as int]),
    decreases s.len(),
{
    if s.len() != 0 && !stop.stops(s[0]) {
        lemma_run(s.skip(1), stop);
        let n = run(s.skip(1), stop);
        assert forall|i: int| 0 <= i < 1 + n implies !stop.stops(#[trigger] s[i]) by {
            if i > 0 {
                assert(s[i] == s.skip(1)[i - 1]);
            }
        }
        if 1 + n < s.len() {
            assert(s[1 + n as int] == s.skip(1)[n as int]);
        }
    }
}

/// The index of the first character of `chars[from..]` at which a scan stops.
pub fn scan(chars: &Vec<char>, from: usize, stop: Stop) -> (r: usize)
    requires
        from <= chars@.len(),
    ensures
        r == from + run(chars@.skip(from as int), stop),
        from <= r <= chars@.len(),
{
    let mut i: usize = from;
    let ghost tail = chars@.skip(from as int);
    while i < chars.len() && !stop.stops_at(chars[i])
        invariant
            from <= i <= chars@.len(),
            tail == chars@.skip(from as int),
            forall|k: int| 0 <= k < i - from ==> !stop.stops(#[trigger] tail[k]),
        decreases chars@.len() - i,
    {
        assert(tail[i - from] == chars@[i as int]);
        i += 1;
    }
    proof {
        lemma_run(tail, stop);
        let n = run(tail, stop);
        if n < i - from {
            assert(!stop.stops(tail[n as int]));
        }
        if n > i - from {
            assert(tail[i - from] == chars@[i as int]);
        }
    }
    i
}

/// The sequences that a vector of character vectors holds.
pub open spec fn views(v: Seq<Vec<char>>) -> Seq<Seq<char>> {
    v.map_values(|w: Vec<char>| w@)
}

/// `s` without one carriage return at its end.
pub open spec fn without_cr(s: Seq<char>) -> Seq<char> {
    if s.len() > 0 && s.last() == '\r' {
        s.drop_last()
    } else {
        s
    }
}

/// The lines of `s`. A line ends in a line feed, or in a carriage return and a
/// line feed; the last line may lack its ending.
pub open spec fn lines(s: Seq<char>) -> Seq<Seq<char>>
    decreases s.len(),
{
    let n = run(s, Stop::At('\n'));
    if s.len() == 0 {
        seq![]
    } else if n >= s.len() {
        seq![s]
    } else {
        seq![without_cr(s.take(n as int))] + lines(s.skip(n as int + 1))
    }
}

/// The words of `s`: its longest pieces without white space.
pub open spec fn words(s: Seq<char>) -> Seq<Seq<char>>
    decreases s.len(),
{
    if s.len() == 0 {
        seq![]
    } else if is_space(s[0]) {
        words(s.skip(1))
    } else {
        let n = run(s, Stop::Space);
        proof {
            lemma_run(s, Stop::Space);
        }
        seq![s.take(n as int)] + words(s.skip(n as int))
    }
}

/// The pieces of `s` between occurrences of `sep`; there is always at least one.
pub open spec fn pieces(s: Seq<char>, sep: char) -> Seq<Seq<char>>
    decreases s.len(),
{
    let n = run(s, Stop::At(sep));
    if n >= s.len() {
        seq![s]
    } else {
        proof {
            lemma_run(s, Stop::At(sep));
        }
        seq![s.take(n as int)] + pieces(s.skip(n as int + 1), sep)
    }
}

/// A copy of `chars[from..to]`.
pub fn copy_range(chars: &Vec<char>, from: usize, to: usize) -> (r: Vec<char>)
    requires
        from <= to <= chars@.len(),
    ensures
        r@ == chars@.subrange(from as int, to as int),
{
    let mut r: Vec<char> = Vec::new();
    let mut i: usize = from;
    while i < to
        invariant
            from <= i <= to <= chars@.len(),
            r@ == chars@.subrange(from as int, i as int),
        decreases to - i,
    {
        r.push(chars[i]);
        i += 1;
        assert(r@ =~= chars@.subrange(from as int, i as int));
    }
    r
}

/// The lines of `chars`.
pub fn split_lines(chars: &Vec<char>) -> (r: Vec<Vec<char>>)
    ensures
        views(r@) == lines(chars@),
{
    let mut out: Vec<Vec<char>> = Vec::new();
    let mut at: usize = 0;
    assert(chars@.skip(0) == chars@);
    assert(views(out@) =~= seq![]);
    while at < chars.len()
        invariant
            at <= chars@.len(),
            views(out@) + lines(chars@.skip(at as int)) == lines(chars@),
        decreases chars@.len() - at,
    {
        let ghost tail = chars@.skip(at as int);
        let ghost before = views(out@);
        let end = scan(chars, at, Stop::At('\n'));
        if end < chars.len() {
            let stop = if end > at && chars[end - 1] == '\r' {
                end - 1
            } else {
                end
            };
            let line = copy_range(chars, at, stop);
            assert(line@ =~= without_cr(tail.take(end - at)));
            assert(tail.skip(end - at + 1) =~= chars@.skip(end + 1));
            out.push(line);
            assert(views(out@) =~= before.push(line@));
            assert(views(out@) + lines(chars@.skip(end + 1)) =~= before + lines(tail));
            at = end + 1;
        } else {
            let line = copy_range(chars, at, end);
            assert(line@ =~= tail);
            out.push(line);
            assert(views(out@) =~= before.push(line@));
            assert(lines(chars@.skip(end as int)) =~= seq![]);
            assert(views(out@) + lines(chars@.skip(end as int)) =~= before + lines(tail));
            at = end;
        }
    }
    assert(views(out@) + lines(chars@.skip(at as int)) =~= views(out@));
    out
}

/// The words of `chars`.
pub fn split_words(chars: &Vec<char>) -> (r: Vec<Vec<char>>)
    ensures
        views(r@) == words(chars@),
{
    let mut out: Vec<Vec<char>> = Vec::new();
    let mut at: usize = 0;
    assert(chars@.skip(0) == chars@);
    assert(views(out@) =~= seq![]);
    while at < chars.len()
        invariant
            at <= chars@.len(),
            views(out@) + words(chars@.skip(at as int)) == words(chars@),
        decreases chars@.len() - at,
    {
        let ghost tail = chars@.skip(at as int);
        let ghost before = views(out@);
        if space(chars[at]) {
            assert(tail.skip(1) =~= chars@.skip(at + 1));
            at += 1;
        } else {
            let end = scan(chars, at, Stop::Space);
            assert(end > at);
            let word = copy_range(chars, at, end);
            assert(word@ =~= tail.take(end - at));
            assert(tail.skip(end - at) =~= chars@.skip(end as int));
            out.push(word);
            assert(views(out@) =~= before.push(word@));
            assert(views(out@) + words(chars@.skip(end as int)) =~= before + words(tail));
            at = end;
        }
    }
    assert(views(out@) + words(chars@.skip(at as int)) =~= views(out@));
    out
}

/// The pieces of `chars` between occurrences of `sep`.
pub fn split_at_char(chars: &Vec<char>, sep: char) -> (r: Vec<Vec<char>>)
    ensures
        views(r@) == pieces(chars@, sep),
{
    let mut out: Vec<Vec<char>> = Vec::new();
    let mut at: usize = 0;
    assert(chars@.skip(0) == chars@);
    let mut end = scan(chars, at, Stop::At(sep));
    assert(views(out@) + pieces(chars@.skip(at as int), sep) =~= pieces(chars@, sep));
    while end < chars.len()
        invariant
            at <= end <= chars@.len(),
            end == at + run(chars@.skip(at as int), Stop::At(sep)),
            views(out@) + pieces(chars@.skip(at as int), sep) == pieces(chars@, sep),
        decreases chars@.len() - end,
    {
        let ghost tail = chars@.skip(at as int);
        let ghost before = views(out@);
        let piece = copy_range(chars, at, end);
        assert(piece@ =~= tail.take(end - at));
        assert(tail.skip(end - at + 1) =~= chars@.skip(end + 1));
        out.push(piece);
        assert(views(out@) =~= before.push(piece@));
        assert(views(out@) + pieces(chars@.skip(end + 1), sep) =~= before + pieces(tail, sep));
        at = end + 1;
        end = scan(chars, at, Stop::At(sep));
    }
    let ghost before = views(out@);
    let piece = copy_range(chars, at, end);
    assert(piece@ =~= chars@.skip(at as int));
    out.push(piece);
    assert(views(out@) =~= before.push(piece@));
    assert(before + pieces(chars@.skip(at as int), sep) =~= views(out@));
    out
}

/// `s` without the white space at its end.
pub open spec fn trim_end(s: Seq<char>) -> Seq<char>
    decreases s.len(),
{
    if s.len() > 0 && is_space(s.last()) {
        trim_end(s.drop_last())
    } else {
        s
    }
}

/// `s` without the white space at both ends.
pub open spec fn trim(s: Seq<char>) -> Seq<char> {
    trim_end(s.skip(run(s, Stop::Word) as int))
}

/// `chars` without the white space at both ends, as a string.
pub fn trimmed(chars: &Vec<char>) -> (r: String)
    ensures
        r@ == trim(chars@),
{
    assert(chars@.skip(0) == chars@);
    let from = scan(chars, 0, Stop::Word);
    let mut to: usize = chars.len();
    assert(chars@.subrange(from as int, to as int) =~= chars@.skip(from as int));
    while to > from && space(chars[to - 1])
        invariant
            from <= to <= chars@.len(),
            trim_end(chars@.subrange(from as int, to as int)) == trim(chars@),
        decreases to,
    {
        assert(chars@.subrange(from as int, to as int).drop_last() =~= chars@.subrange(
            from as int,
            to - 1,
        ));
        to -= 1;
    }
    text_of(chars, from, to)
}

/// Whether the text begins with `prefix`.
pub fn begins(chars: &Vec<char>, prefix: &str) -> (r: bool)
    ensures
        r == prefix@.is_prefix_of(chars@),
{
    let p = chars_of(prefix);
    if p.len() > chars.len() {
        return false;
    }
    let mut i: usize = 0;
    while i < p.len()
        invariant
            i <= p@.len() <= chars@.len(),
            p@ == prefix@,
            forall|k: int| 0 <= k < i ==> p@[k] == chars@[k],
        decreases p@.len() - i,
    {
        if p[i] != chars[i] {
            assert(chars@.subrange(0, p@.len() as int)[i as int] != prefix@[i as int]);
            return false;
        }
        i += 1;
    }
    assert(prefix@ =~= chars@.subrange(0, prefix@.len() as int));
    true
}

/// Whether the text ends with `suffix`.
pub fn ends(chars: &Vec<char>, suffix: &str) -> (r: bool)
    ensures
        r == suffix@.is_suffix_of(chars@),
{
    let p = chars_of(suffix);
    if p.len() > chars.len() {
        return false;
    }
    let total: usize = chars.len();
    let at: usize = total - p.len();
    let mut i: usize = 0;
    while i < p.len()
        invariant
            i <= p@.len() <= total == chars@.len(),
            p@ == suffix@,
            at == total - p@.len(),
            forall|k: int| 0 <= k < i ==> p@[k] == chars@[at + k],
        decreases p@.len() - i,
    {
        if p[i] != chars[at + i] {
            assert(chars@.subrange(at as int, chars@.len() as int)[i as int] != suffix@[i as int]);
            return false;
        }
        i += 1;
    }
    assert(suffix@ =~= chars@.subrange(at as int, chars@.len() as int));
    true
}

/// Whether the text is exactly `other`.
pub fn equals(chars: &Vec<char>, other: &str) -> (r: bool)
    ensures
        r == (chars@ == other@),
{
    let o = chars_of(other);
    if o.len() != chars.len() {
        return false;
    }
    let r = begins(chars, other);
    assert(chars@.subrange(0, other@.len() as int) =~= chars@);
    r
}

/// Whether `c` is a decimal digit.
pub open spec fn is_digit(c: char) -> bool {
    '0' <= c && c <= '9'
}

/// The number that a row of decimal digits denotes.
pub open spec fn digits_value(s: Seq<char>) -> nat
    decreases s.len(),
{
    if s.len() == 0 {
        0
    } else {
        10 * digits_value(s.drop_last()) + (s.last() as nat - '0' as nat) as nat
    }
}

/// The digits of a number: what follows an optional plus sign.
pub open spec fn unsigned(s: Seq<char>) -> Seq<char> {
    if s.len() > 0 && s[0] == '+' {
        s.skip(1)
    } else {
        s
    }
}

/// The unsigned 64-bit number that `s` denotes: an optional plus sign, then one
/// or more digits and nothing else, with a value that fits.
pub open spec fn number(s: Seq<char>) -> Option<u64> {
    let d = unsigned(s);
    if d.len() > 0 && (forall|i: int| 0 <= i < d.len() ==> is_digit(#[trigger] d[i]))
        && digits_value(d) <= u64::MAX {
        Some(digits_value(d) as u64)
    } else {
        None
    }
}

proof fn lemma_digits_grow(s: Seq<char>, n: int)
    requires
        0 <= n <= s.len(),
    ensures
        digits_value(s.take(n)) <= digits_value(s),
    decreases s.len() - n,
{
    if n == s.len() {
        assert(s.take(n) =~= s);
    } else {
        lemma_digits_grow(s, n + 1);
        assert(s.take(n + 1).drop_last() =~= s.take(n));
    }
}

/// The unsigned number that `chars` denotes, if it denotes one.
pub fn read_number(chars: &Vec<char>) -> (r: Option<u64>)
    ensures
        r == number(chars@),
{
    let from: usize = if chars.len() > 0 && chars[0] == '+' {
        1
    } else {
        0
    };
    let ghost d = unsigned(chars@);
    assert(d =~= chars@.skip(from as int));
    if chars.len() == from {
        return None;
    }
    let mut value: u64 = 0;
    let mut i: usize = from;
    assert(d.take(0) =~= seq![]);
    while i < chars.len()
        invariant
            from <= i <= chars@.len(),
            d == chars@.skip(from as int),
            d == unsigned(chars@),
            value == digits_value(d.take(i - from)),
            forall|k: int| 0 <= k < i - from ==> is_digit(#[trigger] d[k]),
        decreases chars@.len() - i,
    {
        let c = chars[i];
        assert(c == d[i - from]);
        if c < '0' || c > '9' {
            assert(!is_digit(d[i - from]));
            return None;
        }
        let digit: u64 = c as u64 - 48;
        assert(d.take(i - from + 1).drop_last() =~= d.take(i - from));
        assert(digits_value(d.take(i - from + 1)) == 10 * value + digit);
        if value > (u64::MAX - digit) / 10 {
            proof {
                lemma_digits_grow(d, i - from + 1);
            }
            return None;
        }
        value = value * 10 + digit;
        i += 1;
    }
    assert(d.take(d.len() as int) =~= d);
    Some(value)
}

/// `n` in decimal, without leading zeros.
pub open spec fn decimal(n: nat) -> Seq<char>
    decreases n,
{
    let digit = ('0' as nat + n % 10) as char;
    if n < 10 {
        seq![digit]
    } else {
        decimal(n / 10).push(digit)
    }
}

/// A decimal is a row of digits that denotes its number.
pub proof fn lemma_decimal(n: nat)
    ensures
        digits_value(decimal(n)) == n,
        decimal(n).len() > 0,
        forall|i: int| 0 <= i < decimal(n).len() ==> is_digit(#[trigger] decimal(n)[i]),
    decreases n,
{
    let digit = ('0' as nat + n % 10) as char;
    assert(is_digit(digit));
    if n < 10 {
        assert(decimal(n).drop_last() =~= seq![]);
        assert(digits_value(seq![]) == 0);
    } else {
        lemma_decimal(n / 10);
        assert(decimal(n).drop_last() =~= decimal(n / 10));
    }
}

/// Appends `n` in decimal.
pub fn push_decimal(out: &mut String, n: u64)
    ensures
        final(out)@ == old(out)@ + decimal(n as nat),
    decreases n,
{
    if n >= 10 {
        push_decimal(out, n / 10);
    }
    let digit: u8 = 48 + (n % 10) as u8;
    out.push(digit as char);
    assert(out@ =~= old(out)@ + decimal(n as nat));
}

/// `a` and then `b`.
pub fn joined(a: &str, b: &str) -> (r: String)
    ensures
        r@ == a@ + b@,
{
    let mut r = a.to_owned();
    r.append(b);
    r
}

/// A run is as long as nothing stops it.
pub(crate) proof fn lemma_run_is(s: Seq<char>, stop: Stop, n: int)
    requires
        0 <= n <= s.len(),
        forall|i: int| 0 <= i < n ==> !stop.stops(#[trigger] s[i]),
        n < s.len() ==> stop.stops(s[n]),
    ensures
        run(s, stop) == n,
{
    lemma_run(s, stop);
    let r = run(s, stop) as int;
    if r < n {
        assert(!stop.stops(s[r]));
    }
    if n < r {
        assert(!stop.stops(s[n]));
    }
}

/// White space is what Unicode says it is, and nothing else.
pub proof fn lemma_white_space(c: char)
    ensures
        is_space(c) <==> (c == '\t' || c == '\n' || c == '\u{b}' || c == '\u{c}' || c == '\r' || c
            == ' ' || c == '\u{85}' || c == '\u{a0}' || c == '\u{1680}' || ('\u{2000}' <= c && c
            <= '\u{200a}') || c == '\u{2028}' || c == '\u{2029}' || c == '\u{202f}' || c
            == '\u{205f}' || c == '\u{3000}'),
{
}

/// A line feed ends a line, with or without a carriage return before it, and what
/// follows is split on its own. The ending is no part of the line.
pub proof fn lemma_line_feed_ends_a_line(line: Seq<char>, rest: Seq<char>)
    requires
        forall|i: int| 0 <= i < line.len() ==> #[trigger] line[i] != '\n',
    ensures
        line.len() == 0 || line.last() != '\r' ==> lines(line.push('\n') + rest) == seq![line]
            + lines(rest),
        lines(line.push('\r').push('\n') + rest) == seq![line] + lines(rest),
{
    let s = line.push('\n') + rest;
    let n = line.len() as int;
    assert forall|i: int| 0 <= i < n implies !Stop::At('\n').stops(#[trigger] s[i]) by {
        assert(s[i] == line[i]);
    }
    assert(s[n] == '\n');
    lemma_run_is(s, Stop::At('\n'), n);
    assert(s.take(n) =~= line);
    assert(s.skip(n + 1) =~= rest);
    let t = line.push('\r').push('\n') + rest;
    assert forall|i: int| 0 <= i < n + 1 implies !Stop::At('\n').stops(#[trigger] t[i]) by {
        assert(i < n ==> t[i] == line[i]);
    }
    assert(t[n + 1] == '\n');
    lemma_run_is(t, Stop::At('\n'), n + 1);
    assert(t.take(n + 1) =~= line.push('\r'));
    assert(line.push('\r').drop_last() =~= line);
    assert(t.skip(n + 2) =~= rest);
}

/// The last line may lack its ending; no text has no lines.
pub proof fn lemma_last_line_may_lack_its_ending(line: Seq<char>)
    requires
        forall|i: int| 0 <= i < line.len() ==> #[trigger] line[i] != '\n',
    ensures
        line.len() > 0 ==> lines(line) == seq![line],
        line.len() == 0 ==> lines(line) == Seq::<Seq<char>>::empty(),
{
    lemma_run_is(line, Stop::At('\n'), line.len() as int);
}

/// A text that ends in a line feed does not change the lines of what follows it, nor
/// is it changed by it.
pub proof fn lemma_lines_of_both(a: Seq<char>, b: Seq<char>)
    requires
        a.len() == 0 || a.last() == '\n',
    ensures
        lines(a + b) == lines(a) + lines(b),
    decreases a.len(),
{
    if a.len() == 0 {
        assert(a + b =~= b);
        assert(lines(a) + lines(b) =~= lines(b));
    } else {
        let n = run(a, Stop::At('\n')) as int;
        lemma_run(a, Stop::At('\n'));
        if n >= a.len() {
            assert(!Stop::At('\n').stops(a[a.len() - 1]));
        }
        let s = a + b;
        assert forall|i: int| 0 <= i < n implies !Stop::At('\n').stops(#[trigger] s[i]) by {
            assert(s[i] == a[i]);
        }
        assert(s[n] == a[n]);
        lemma_run_is(s, Stop::At('\n'), n);
        assert(s.take(n) =~= a.take(n));
        assert(s.skip(n + 1) =~= a.skip(n + 1) + b);
        lemma_lines_of_both(a.skip(n + 1), b);
        let head = seq![without_cr(a.take(n))];
        assert(lines(a) == head + lines(a.skip(n + 1)));
        assert(lines(s) == head + lines(s.skip(n + 1)));
        assert(lines(a) + lines(b) =~= head + (lines(a.skip(n + 1)) + lines(b)));
    }
}

/// White space ends a word, and what follows is split on its own; white space before
/// a word does not matter, however much there is.
pub proof fn lemma_white_space_ends_a_word(word: Seq<char>, c: char, rest: Seq<char>)
    requires
        forall|i: int| 0 <= i < word.len() ==> !is_space(#[trigger] word[i]),
        is_space(c),
    ensures
        word.len() > 0 ==> words(word.push(c) + rest) == seq![word] + words(rest),
        word.len() == 0 ==> words(word.push(c) + rest) == words(rest),
{
    let s = word.push(c) + rest;
    let n = word.len() as int;
    assert(s[n] == c);
    let tail = s.skip(n);
    assert(tail[0] == c);
    assert(tail.skip(1) =~= rest);
    assert(words(tail) == words(rest));
    if n > 0 {
        assert forall|i: int| 0 <= i < n implies !Stop::Space.stops(#[trigger] s[i]) by {
            assert(s[i] == word[i]);
        }
        lemma_run_is(s, Stop::Space, n);
        assert(s.take(n) =~= word);
        assert(!is_space(s[0]));
    } else {
        assert(tail =~= s);
    }
}

/// The last word may stand at the end; no text has no words.
pub proof fn lemma_last_word_may_end_the_text(word: Seq<char>)
    requires
        forall|i: int| 0 <= i < word.len() ==> !is_space(#[trigger] word[i]),
    ensures
        word.len() > 0 ==> words(word) == seq![word],
        word.len() == 0 ==> words(word) == Seq::<Seq<char>>::empty(),
{
    if word.len() > 0 {
        lemma_run_is(word, Stop::Space, word.len() as int);
        assert(word.take(word.len() as int) =~= word);
        assert(words(word.skip(word.len() as int)) =~= seq![]);
        assert(!is_space(word[0]));
    }
}

/// A separator ends a piece, and what follows is split on its own; without one there
/// is one piece.
pub proof fn lemma_separator_ends_a_piece(piece: Seq<char>, sep: char, rest: Seq<char>)
    requires
        forall|i: int| 0 <= i < piece.len() ==> #[trigger] piece[i] != sep,
    ensures
        pieces(piece.push(sep) + rest, sep) == seq![piece] + pieces(rest, sep),
        pieces(piece, sep) == seq![piece],
{
    let s = piece.push(sep) + rest;
    let n = piece.len() as int;
    assert forall|i: int| 0 <= i < n implies !Stop::At(sep).stops(#[trigger] s[i]) by {
        assert(s[i] == piece[i]);
    }
    assert(s[n] == sep);
    lemma_run_is(s, Stop::At(sep), n);
    assert(s.take(n) =~= piece);
    assert(s.skip(n + 1) =~= rest);
    lemma_run_is(piece, Stop::At(sep), n);
}

/// Trimming takes away all white space at both ends, and nothing else.
pub proof fn lemma_trim_takes_white_space(a: Seq<char>, middle: Seq<char>, b: Seq<char>)
    requires
        forall|i: int| 0 <= i < a.len() ==> is_space(#[trigger] a[i]),
        forall|i: int| 0 <= i < b.len() ==> is_space(#[trigger] b[i]),
        middle.len() > 0 ==> !is_space(middle[0]) && !is_space(middle.last()),
    ensures
        trim(a + middle + b) == middle,
{
    let s = a + middle + b;
    let n = if middle.len() > 0 {
        a.len() as int
    } else {
        s.len() as int
    };
    assert forall|i: int| 0 <= i < n implies !Stop::Word.stops(#[trigger] s[i]) by {
        if i < a.len() {
            assert(s[i] == a[i]);
        } else {
            assert(s[i] == b[i - a.len()]);
        }
    }
    if n < s.len() {
        assert(s[n] == middle[0]);
    }
    lemma_run_is(s, Stop::Word, n);
    if middle.len() > 0 {
        assert(s.skip(n) =~= middle + b);
        lemma_trim_end(middle, b);
    } else {
        assert(s.skip(n) =~= middle);
    }
}

proof fn lemma_trim_end(middle: Seq<char>, b: Seq<char>)
    requires
        forall|i: int| 0 <= i < b.len() ==> is_space(#[trigger] b[i]),
        middle.len() > 0,
        !is_space(middle.last()),
    ensures
        trim_end(middle + b) == middle,
    decreases b.len(),
{
    let s = middle + b;
    if b.len() > 0 {
        assert(s.last() == b[b.len() - 1]);
        assert(s.drop_last() =~= middle + b.drop_last());
        lemma_trim_end(middle, b.drop_last());
    } else {
        assert(s =~= middle);
    }
}

/// A digit denotes its value, and a further digit behind a number makes it ten times
/// as great, and greater by its value, as far as 64 bits go.
pub proof fn lemma_number_in_base_ten(s: Seq<char>, c: char)
    requires
        '0' <= c && c <= '9',
    ensures
        number(seq![c]) == Some((c as u64 - '0' as u64) as u64),
        number(s) matches Some(n) ==> number(s.push(c)) == (if n * 10 + (c as u64 - '0' as u64)
            <= u64::MAX {
            Some((n * 10 + (c as u64 - '0' as u64)) as u64)
        } else {
            None
        }),
{
    let one = seq![c];
    assert(is_digit(one[0]));
    assert(one.drop_last() =~= seq![]);
    assert(digits_value(seq![]) == 0);
    assert(unsigned(one) == one);
    assert(digits_value(one) == c as nat - '0' as nat);
    if number(s) is Some {
        let d = unsigned(s);
        let e = unsigned(s.push(c));
        assert(e =~= d.push(c));
        assert(e.drop_last() =~= d);
        assert forall|i: int| 0 <= i < e.len() implies is_digit(#[trigger] e[i]) by {
            if i < d.len() {
                assert(is_digit(d[i]));
            }
        }
        assert(digits_value(e) == 10 * digits_value(d) + (c as nat - '0' as nat));
    }
}

/// A number too great for 64 bits stays so, whatever digit follows.
pub proof fn lemma_number_stays_too_great(s: Seq<char>, c: char)
    requires
        s.len() > 0,
        forall|i: int| 0 <= i < s.len() ==> '0' <= #[trigger] s[i] && s[i] <= '9',
        number(s) is None,
        '0' <= c && c <= '9',
    ensures
        number(s.push(c)) is None,
{
    assert(s[0] <= '9');
    assert(unsigned(s) == s);
    assert(forall|i: int| 0 <= i < s.len() ==> is_digit(#[trigger] s[i]));
    assert(s.push(c)[0] == s[0]);
    assert(unsigned(s.push(c)) == s.push(c));
    assert(s.push(c).drop_last() =~= s);
}

/// A plus sign before a number changes nothing.
pub proof fn lemma_plus_sign_changes_nothing(s: Seq<char>)
    requires
        s.len() == 0 || s[0] != '+',
    ensures
        number(seq!['+'] + s) == number(s),
{
    assert((seq!['+'] + s).skip(1) =~= s);
}

/// Only digits make a number: no text does that is empty, or that has anything else
/// but a plus sign in front.
pub proof fn lemma_only_digits_make_a_number(s: Seq<char>, i: int)
    requires
        s.len() == 0 || s == seq!['+'] || (0 <= i < s.len() && !('0' <= s[i] && s[i] <= '9') && (i
            > 0 || s[i] != '+')),
    ensures
        number(s) is None,
{
    let d = unsigned(s);
    if s.len() > 0 && s != seq!['+'] {
        if s[0] == '+' {
            assert(d[i - 1] == s[i]);
            assert(!is_digit(d[i - 1]));
        } else {
            assert(!is_digit(d[i]));
        }
    }
}

/// A number reads back as it was written, and is written without leading zeros.
pub proof fn lemma_decimal_reads_back(n: nat)
    requires
        n <= u64::MAX,
    ensures
        number(decimal(n)) == Some(n as u64),
        decimal(n)[0] == '0' ==> decimal(n) == seq!['0'],
        decimal(n)[0] != '+',
{
    lemma_decimal(n);
    lemma_decimal_head(n);
    assert(is_digit(decimal(n)[0]));
}

proof fn lemma_decimal_head(n: nat)
    ensures
        decimal(n).len() > 0,
        n > 0 ==> decimal(n)[0] != '0',
        n == 0 ==> decimal(n) == seq!['0'],
    decreases n,
{
    if n >= 10 {
        lemma_decimal_head(n / 10);
    }
}

/// Character vectors are told as they are, in order.
pub proof fn lemma_texts_are_told(v: Seq<Vec<char>>, i: int)
    requires
        0 <= i < v.len(),
    ensures
        views(v).len() == v.len(),
        views(v)[i] == v[i]@,
{
}

} // verus!
