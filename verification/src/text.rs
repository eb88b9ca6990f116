//! Characters of strings: splitting, trimming and decimal numbers.
use vstd::prelude::*;

verus! {

/// Whether the character has the Unicode White_Space property: the
/// controls U+0009 to U+000D, the space, U+0085, the no-break space U+00A0,
/// U+1680, U+2000 to U+200A, the line and paragraph separators U+2028 and
/// U+2029, U+202F, U+205F and the ideographic space U+3000.
pub open spec fn unicode_white_space(c: char) -> bool {
    let u = c as u32;
    ||| 0x9 <= u <= 0xd
    ||| u == 0x20
    ||| u == 0x85
    ||| u == 0xa0
    ||| u == 0x1680
    ||| 0x2000 <= u <= 0x200a
    ||| u == 0x2028
    ||| u == 0x2029
    ||| u == 0x202f
    ||| u == 0x205f
    ||| u == 0x3000
}

/// `char::is_whitespace`: whether `c` has the Unicode White_Space property,
/// the set of code points that `unicode_white_space` lists.
#[verifier::external_body]
fn is_white_space(c: char) -> (ws: bool)
    ensures
        ws == unicode_white_space(c),
{
    c.is_whitespace()
}

/// `String::push`: appends the character to the string.
#[verifier::external_body]
fn push_char(s: &mut String, c: char)
    ensures
        final(s)@ == old(s)@.push(c),
{
    s.push(c);
}

/// The pieces of `s` between occurrences of `sep`, as `str::split` gives them.
pub open spec fn split_on(s: Seq<char>, sep: char) -> Seq<Seq<char>>
    decreases s.len(),
{
    if s.len() == 0 {
        seq![Seq::empty()]
    } else {
        let pieces = split_on(s.drop_last(), sep);
        if s.last() == sep {
            pieces.push(Seq::empty())
        } else {
            pieces.update(pieces.len() - 1, pieces.last().push(s.last()))
        }
    }
}

/// Splitting always gives at least one piece.
pub proof fn lemma_split_nonempty(s: Seq<char>, sep: char)
    ensures
        split_on(s, sep).len() >= 1,
    decreases s.len(),
{
    if s.len() > 0 {
        lemma_split_nonempty(s.drop_last(), sep);
    }
}

/// The lines of `s` as `str::lines` gives them, up to a carriage return
/// before each line feed: no final empty line after a last line feed.
pub open spec fn lines_of(s: Seq<char>) -> Seq<Seq<char>> {
    let pieces = split_on(s, '\n');
    if pieces.last().len() == 0 {
        pieces.drop_last()
    } else {
        pieces
    }
}

pub open spec fn trim_start(s: Seq<char>) -> Seq<char>
    decreases s.len(),
{
    if s.len() > 0 && unicode_white_space(s[0]) {
        trim_start(s.drop_first())
    } else {
        s
    }
}

pub open spec fn trim_end(s: Seq<char>) -> Seq<char>
    decreases s.len(),
{
    if s.len() > 0 && unicode_white_space(s.last()) {
        trim_end(s.drop_last())
    } else {
        s
    }
}

/// `s` without leading and trailing white space.
pub open spec fn trim(s: Seq<char>) -> Seq<char> {
    trim_end(trim_start(s))
}

pub open spec fn is_digit(c: char) -> bool {
    '0' <= c <= '9'
}

pub open spec fn all_digits(s: Seq<char>) -> bool {
    forall|i: int| 0 <= i < s.len() ==> is_digit(#[trigger] s[i])
}

pub open spec fn digit_value(c: char) -> int {
    (c as u32) - ('0' as u32)
}

/// The number that a string of decimal digits writes.
pub open spec fn decimal_value(s: Seq<char>) -> int
    decreases s.len(),
{
    if s.len() == 0 {
        0
    } else {
        decimal_value(s.drop_last()) * 10 + digit_value(s.last())
    }
}

/// A non-empty run of decimal digits.
pub open spec fn is_decimal(s: Seq<char>) -> bool {
    s.len() > 0 && all_digits(s)
}

/// What `str::parse::<u64>` accepts: an optional `+`, then decimal digits
/// writing a number that fits.
pub open spec fn parse_u64(s: Seq<char>) -> Option<u64> {
    let body = if s.len() > 0 && s[0] == '+' {
        s.drop_first()
    } else {
        s
    };
    if is_decimal(body) && decimal_value(body) <= u64::MAX {
        Some(decimal_value(body) as u64)
    } else {
        None
    }
}

/// What `str::parse::<i64>` accepts: an optional sign, then decimal digits
/// writing a number that fits.
pub open spec fn parse_i64(s: Seq<char>) -> Option<i64> {
    if s.len() > 0 && s[0] == '-' {
        let body = s.drop_first();
        if is_decimal(body) && decimal_value(body) <= 0x8000_0000_0000_0000 {
            Some((-decimal_value(body)) as i64)
        } else {
            None
        }
    } else {
        let body = if s.len() > 0 && s[0] == '+' {
            s.drop_first()
        } else {
            s
        };
        if is_decimal(body) && decimal_value(body) <= i64::MAX {
            Some(decimal_value(body) as i64)
        } else {
            None
        }
    }
}

/// A decimal value is never negative and never less than that of a prefix.
pub proof fn lemma_decimal_prefix(s: Seq<char>, k: int)
    requires
        all_digits(s),
        0 <= k <= s.len(),
    ensures
        0 <= decimal_value(s.take(k)) <= decimal_value(s),
    decreases s.len(),
{
    if k == s.len() {
        assert(s.take(k) =~= s);
        if s.len() > 0 {
            lemma_decimal_prefix(s.drop_last(), 0);
            assert(s.drop_last().take(0) =~= Seq::<char>::empty());
            assert(is_digit(s[s.len() - 1]));
        } else {
        }
    } else {
        assert(s.drop_last().take(k) =~= s.take(k));
        lemma_decimal_prefix(s.drop_last(), k);
        assert(is_digit(s[s.len() - 1]));
    }
}

pub open spec fn views_of(v: Seq<Vec<char>>) -> Seq<Seq<char>> {
    v.map_values(|x: Vec<char>| x@)
}

/// The characters of a string.
pub fn chars_of(s: &str) -> (chars: Vec<char>)
    ensures
        chars@ == s@,
{
    let mut chars: Vec<char> = Vec::new();
    for c in it: s.chars()
        invariant
            chars@ == it.seq().take(it.index() as int),
    {
        chars.push(c);
    }
    chars
}

/// The number written by the digits of `s` from position `from` on, when
/// there is at least one, all are digits, and the number is at most `limit`.
fn decimal_up_to(s: &Vec<char>, from: usize, limit: u64) -> (value: Option<u64>)
    requires
        from <= s@.len(),
    ensures
        value == if is_decimal(s@.skip(from as int)) && decimal_value(s@.skip(from as int)) <= limit {
            Some(decimal_value(s@.skip(from as int)) as u64)
        } else {
            None::<u64>
        },
{
    let ghost body = s@.skip(from as int);
    if from == s.len() {
        return None;
    }
    let mut value: u64 = 0;
    let mut i: usize = from;
    proof {
        assert(body.take(0) =~= Seq::<char>::empty());
    }
    while i < s.len()
        invariant
            from <= i <= s@.len(),
            body == s@.skip(from as int),
            all_digits(body.take(i - from)),
            value == decimal_value(body.take(i - from)),
            value <= limit,
        decreases s@.len() - i,
    {
        let c = s[i];
        proof {
            assert(body[i - from] == c);
        }
        if !('0' <= c && c <= '9') {
            proof {
                assert(!is_digit(body[i - from]));
            }
            return None;
        }
        let digit = ((c as u32) - 48) as u64;
        proof {
            assert(body.take(i - from + 1).drop_last() =~= body.take(i - from));
            assert(all_digits(body.take(i - from + 1)));
        }
        let next = match value.checked_mul(10) {
            Some(tens) => tens.checked_add(digit),
            None => None,
        };
        match next {
            Some(n) if n <= limit => {
                value = n;
            },
            _ => {
                proof {
                    if all_digits(body) {
                        lemma_decimal_prefix(body, i - from + 1);
                    }
                }
                return None;
            },
        }
        i = i + 1;
    }
    proof {
        assert(body.take(i - from) =~= body);
    }
    Some(value)
}

/// What `str::parse::<u64>` gives for these characters.
pub fn parse_u64_chars(s: &Vec<char>) -> (value: Option<u64>)
    ensures
        value == parse_u64(s@),
{
    let from: usize = if s.len() > 0 && s[0] == '+' {
        1
    } else {
        0
    };
    proof {
        if from == 1 {
            assert(s@.skip(1) =~= s@.drop_first());
        } else {
            assert(s@.skip(0) =~= s@);
        }
    }
    decimal_up_to(s, from, 0xffff_ffff_ffff_ffff)
}

/// What `str::parse::<i64>` gives for these characters.
pub fn parse_i64_chars(s: &Vec<char>) -> (value: Option<i64>)
    ensures
        value == parse_i64(s@),
{
    if s.len() > 0 && s[0] == '-' {
        proof {
            assert(s@.skip(1) =~= s@.drop_first());
        }
        match decimal_up_to(s, 1, 0x8000_0000_0000_0000) {
            Some(magnitude) => {
                proof {
                    lemma_decimal_prefix(s@.drop_first(), 0);
                    assert(magnitude as int == decimal_value(s@.drop_first()));
                }
                if magnitude == 0x8000_0000_0000_0000 {
                    Some(i64::MIN)
                } else {
                    Some(-(magnitude as i64))
                }
            },
            None => None,
        }
    } else {
        let from: usize = if s.len() > 0 && s[0] == '+' {
            1
        } else {
            0
        };
        proof {
            if from == 1 {
                assert(s@.skip(1) =~= s@.drop_first());
            } else {
                assert(s@.skip(0) =~= s@);
            }
        }
        match decimal_up_to(s, from, 0x7fff_ffff_ffff_ffff) {
            Some(magnitude) => {
                proof {
                    lemma_decimal_prefix(s@.skip(from as int), 0);
                }
                Some(magnitude as i64)
            },
            None => None,
        }
    }
}

/// A string of these characters.
pub fn string_of(chars: &Vec<char>) -> (s: String)
    ensures
        s@ == chars@,
{
    let mut s = String::new();
    let mut i: usize = 0;
    while i < chars.len()
        invariant
            i <= chars@.len(),
            s@ == chars@.take(i as int),
        decreases chars@.len() - i,
    {
        push_char(&mut s, chars[i]);
        proof {
            assert(chars@.take(i + 1) =~= chars@.take(i as int).push(chars@[i as int]));
        }
        i = i + 1;
    }
    proof {
        assert(chars@.take(i as int) =~= chars@);
    }
    s
}

/// Whether two character sequences are equal.
pub fn same_chars(a: &Vec<char>, b: &Vec<char>) -> (same: bool)
    ensures
        same == (a@ == b@),
{
    if a.len() != b.len() {
        return false;
    }
    let mut i: usize = 0;
    while i < a.len()
        invariant
            i <= a@.len(),
            a@.len() == b@.len(),
            forall|j: int| 0 <= j < i ==> a@[j] == b@[j],
        decreases a@.len() - i,
    {
        if a[i] != b[i] {
            return false;
        }
        i = i + 1;
    }
    proof {
        assert(a@ =~= b@);
    }
    true
}

/// The pieces of `s` between occurrences of `sep`.
pub fn split_chars(s: &Vec<char>, sep: char) -> (pieces: Vec<Vec<char>>)
    ensures
        views_of(pieces@) == split_on(s@, sep),
{
    let mut pieces: Vec<Vec<char>> = Vec::new();
    let mut current: Vec<char> = Vec::new();
    let mut i: usize = 0;
    proof {
        assert(s@.take(0) =~= Seq::<char>::empty());
    }
    while i < s.len()
        invariant
            i <= s@.len(),
            views_of(pieces@).push(current@) == split_on(s@.take(i as int), sep),
        decreases s@.len() - i,
    {
        let c = s[i];
        let ghost before = views_of(pieces@).push(current@);
        proof {
            assert(s@.take(i + 1).drop_last() =~= s@.take(i as int));
            assert(s@.take(i + 1).last() == c);
        }
        if c == sep {
            let done = current;
            pieces.push(done);
            current = Vec::new();
            proof {
                assert(views_of(pieces@).push(current@) =~= before.push(Seq::empty()));
            }
        } else {
            current.push(c);
            proof {
                assert(views_of(pieces@).push(current@) =~= before.update(
                    before.len() - 1,
                    before.last().push(c),
                ));
            }
        }
        i = i + 1;
    }
    pieces.push(current);
    proof {
        assert(s@.take(i as int) =~= s@);
    }
    pieces
}

/// `s` without leading and trailing white space.
pub fn trim_chars(s: &Vec<char>) -> (trimmed: Vec<char>)
    ensures
        trimmed@ == trim(s@),
{
    let mut start: usize = 0;
    proof {
        assert(s@.skip(0) =~= s@);
    }
    while start < s.len() && is_white_space(s[start])
        invariant
            start <= s@.len(),
            trim_start(s@) == trim_start(s@.skip(start as int)),
        decreases s@.len() - start,
    {
        proof {
            assert(s@.skip(start + 1) =~= s@.skip(start as int).drop_first());
        }
        start = start + 1;
    }
    let ghost front = s@.skip(start as int);
    proof {
        assert(trim_start(s@) == front);
    }
    let mut end: usize = s.len();
    proof {
        assert(s@.subrange(start as int, s@.len() as int) =~= front);
    }
    while end > start && is_white_space(s[end - 1])
        invariant
            start <= end <= s@.len(),
            front == s@.skip(start as int),
            trim_end(front) == trim_end(s@.subrange(start as int, end as int)),
        decreases end,
    {
        proof {
            assert(s@.subrange(start as int, end - 1) =~= s@.subrange(
                start as int,
                end as int,
            ).drop_last());
        }
        end = end - 1;
    }
    let mut trimmed: Vec<char> = Vec::new();
    let mut i: usize = start;
    while i < end
        invariant
            start <= i <= end <= s@.len(),
            trimmed@ == s@.subrange(start as int, i as int),
        decreases end - i,
    {
        trimmed.push(s[i]);
        proof {
            assert(trimmed@ =~= s@.subrange(start as int, i + 1));
        }
        i = i + 1;
    }
    trimmed
}

/// Trimming the start skips exactly the leading white space.
proof fn lemma_trim_start_skips(s: Seq<char>) -> (i: int)
    ensures
        0 <= i <= s.len(),
        trim_start(s) == s.skip(i),
        forall|k: int| 0 <= k < i ==> unicode_white_space(#[trigger] s[k]),
        i < s.len() ==> !unicode_white_space(s[i]),
    decreases s.len(),
{
    if s.len() > 0 && unicode_white_space(s[0]) {
        let rest = lemma_trim_start_skips(s.drop_first());
        assert(s.drop_first().skip(rest) =~= s.skip(rest + 1));
        assert forall|k: int| 0 <= k < rest + 1 implies unicode_white_space(#[trigger] s[k]) by {
            if k > 0 {
                assert(s[k] == s.drop_first()[k - 1]);
            }
        }
        rest + 1
    } else {
        assert(s.skip(0) =~= s);
        0
    }
}

/// Trimming the end keeps exactly what comes before the trailing white space.
proof fn lemma_trim_end_takes(s: Seq<char>) -> (j: int)
    ensures
        0 <= j <= s.len(),
        trim_end(s) == s.take(j),
        forall|k: int| j <= k < s.len() ==> unicode_white_space(#[trigger] s[k]),
        j > 0 ==> !unicode_white_space(s[j - 1]),
    decreases s.len(),
{
    if s.len() > 0 && unicode_white_space(s.last()) {
        let rest = lemma_trim_end_takes(s.drop_last());
        assert(s.drop_last().take(rest) =~= s.take(rest));
        assert forall|k: int| rest <= k < s.len() implies unicode_white_space(#[trigger] s[k]) by {
            if k < s.len() - 1 {
                assert(s[k] == s.drop_last()[k]);
            }
        }
        rest
    } else {
        assert(s.take(s.len() as int) =~= s);
        s.len() as int
    }
}

/// Trimming removes exactly the white space at both ends: the result is a
/// run of `s` that neither starts nor ends with white space, and all of `s`
/// before and after that run is white space.
pub proof fn lemma_trim_strips_both_ends(s: Seq<char>)
    ensures
        exists|i: int, j: int|
            0 <= i <= j <= s.len() && trim(s) == s.subrange(i, j) && (forall|k: int|
                0 <= k < i ==> unicode_white_space(#[trigger] s[k])) && (forall|k: int|
                j <= k < s.len() ==> unicode_white_space(#[trigger] s[k])),
        trim(s).len() > 0 ==> !unicode_white_space(trim(s)[0]) && !unicode_white_space(
            trim(s).last(),
        ),
{
    let i = lemma_trim_start_skips(s);
    let t = s.skip(i);
    let j = lemma_trim_end_takes(t);
    assert(trim(s) =~= s.subrange(i, i + j));
    assert forall|k: int| i + j <= k < s.len() implies unicode_white_space(#[trigger] s[k]) by {
        assert(s[k] == t[k - i]);
    }
    if j > 0 {
        assert(trim(s)[0] == s[i]);
        assert(trim(s).last() == t[j - 1]);
    }
}

/// The pieces put back together with `sep` between neighbours.
pub open spec fn join_with(pieces: Seq<Seq<char>>, sep: char) -> Seq<char>
    decreases pieces.len(),
{
    if pieces.len() == 0 {
        Seq::empty()
    } else if pieces.len() == 1 {
        pieces[0]
    } else {
        join_with(pieces.drop_last(), sep) + seq![sep] + pieces.last()
    }
}

/// Splitting cuts `s` at every occurrence of `sep` and nowhere else: the
/// pieces, joined again with `sep`, give back `s`, and no piece holds `sep`.
pub proof fn lemma_split_rejoins(s: Seq<char>, sep: char)
    ensures
        split_on(s, sep).len() >= 1,
        join_with(split_on(s, sep), sep) == s,
        forall|i: int, k: int|
            0 <= i < split_on(s, sep).len() && 0 <= k < split_on(s, sep)[i].len() ==> (
            #[trigger] split_on(s, sep)[i][k]) != sep,
    decreases s.len(),
{
    if s.len() == 0 {
        assert(split_on(s, sep) =~= seq![Seq::<char>::empty()]);
        assert(join_with(split_on(s, sep), sep) =~= s);
    } else {
        let before = split_on(s.drop_last(), sep);
        lemma_split_rejoins(s.drop_last(), sep);
        let p = split_on(s, sep);
        let n = before.len();
        if s.last() == sep {
            assert(p == before.push(Seq::empty()));
            assert(p.drop_last() =~= before);
            assert(join_with(p, sep) =~= s);
            assert forall|i: int, k: int| 0 <= i < p.len() && 0 <= k < p[i].len() implies (
            #[trigger] p[i][k]) != sep by {
                assert(p[i] == before[i]);
            }
        } else {
            let x = before.last().push(s.last());
            assert(p == before.update(n - 1, x));
            assert(p.drop_last() =~= before.drop_last());
            if n == 1 {
                assert(p[0] == x);
                assert(join_with(before, sep) == before[0]);
                assert(s =~= s.drop_last().push(s.last()));
                assert(p.len() == 1);
                assert(join_with(p, sep) == p[0]);
                assert(before.last() == s.drop_last());
                assert(p[0] =~= s);
            } else {
                assert(join_with(before, sep) == join_with(before.drop_last(), sep) + seq![sep]
                    + before.last());
                assert(p.len() == n && p.last() == x);
                assert(join_with(p, sep) == join_with(before.drop_last(), sep) + seq![sep] + x);
                assert(s =~= s.drop_last().push(s.last()));
                assert(join_with(p, sep) =~= join_with(before, sep).push(s.last()));
            }
            assert forall|i: int, k: int| 0 <= i < p.len() && 0 <= k < p[i].len() implies (
            #[trigger] p[i][k]) != sep by {
                if i < n - 1 {
                    assert(p[i] == before[i]);
                } else if k < before.last().len() {
                    assert(p[i][k] == before[n - 1][k]);
                }
            }
        }
    }
}

/// A single digit parses as its value, and appending a digit to a run of
/// digits multiplies its value by ten and adds the digit's value, as long as
/// the result fits; a leading `+` changes nothing; nothing else parses: the
/// empty text, a lone sign, and any text with a character other than a digit
/// after its optional leading `+`.
pub proof fn lemma_parse_u64_decimal(s: Seq<char>, d: char)
    ensures
        '0' <= d <= '9' ==> parse_u64(seq![d]) == Some((d as u32 - '0' as u32) as u64),
        ('0' <= d <= '9' && s.len() > 0 && (forall|k: int| 0 <= k < s.len() ==> '0' <= #[trigger] s[k]
            <= '9') && parse_u64(s.push(d)) is Some) ==> {
            &&& parse_u64(s) is Some
            &&& parse_u64(s.push(d))->Some_0 == 10 * parse_u64(s)->Some_0 + (d as u32 - '0' as u32)
        },
        (s.len() > 0 && s[0] != '+') ==> parse_u64(seq!['+'] + s) == parse_u64(s),
        parse_u64(Seq::empty()) is None,
        parse_u64(seq!['+']) is None,
        parse_u64(s) is Some ==> {
            let start = if s[0] == '+' { 1int } else { 0int };
            &&& start < s.len()
            &&& forall|k: int| start <= k < s.len() ==> '0' <= #[trigger] s[k] <= '9'
        },
{
    if '0' <= d <= '9' {
        let one = seq![d];
        assert(one.drop_last() =~= Seq::<char>::empty());
        assert(one.last() == d);
        assert(one[0] == d);
        assert(is_digit(one[0]));
        assert(all_digits(one));
        assert(decimal_value(Seq::<char>::empty()) == 0);
        assert(decimal_value(one) == decimal_value(one.drop_last()) * 10 + digit_value(one.last()));
        assert(decimal_value(one) == digit_value(d));
    }
    if s.len() > 0 && (forall|k: int| 0 <= k < s.len() ==> '0' <= #[trigger] s[k] <= '9') {
        let t = s.push(d);
        assert(t.drop_last() =~= s);
        assert(t[0] == s[0]);
        if '0' <= d <= '9' {
            assert(all_digits(t)) by {
                assert forall|k: int| 0 <= k < t.len() implies is_digit(#[trigger] t[k]) by {
                    if k < s.len() {
                        assert(t[k] == s[k]);
                    }
                }
            }
            assert(decimal_value(s) >= 0 && decimal_value(s) <= decimal_value(t)) by {
                lemma_decimal_prefix(t, s.len() as int);
                assert(t.take(s.len() as int) =~= s);
            }
        }
    }
    if s.len() > 0 && s[0] != '+' {
        assert((seq!['+'] + s).drop_first() =~= s);
    }
    if parse_u64(s) is Some {
        let body = if s.len() > 0 && s[0] == '+' { s.drop_first() } else { s };
        if s[0] == '+' {
            assert forall|k: int| 1 <= k < s.len() implies '0' <= #[trigger] s[k] <= '9' by {
                assert(s[k] == body[k - 1]);
                assert(is_digit(body[k - 1]));
            }
        } else {
            assert forall|k: int| 0 <= k < s.len() implies '0' <= #[trigger] s[k] <= '9' by {
                assert(is_digit(body[k]));
            }
        }
    }
}

/// Signs: a run of digits whose value fits `i64` parses to that value, with
/// a leading `-` to its negation and with a leading `+` to itself.
pub proof fn lemma_parse_i64_signs(body: Seq<char>)
    requires
        is_decimal(body),
        parse_u64(body) is Some,
        parse_u64(body)->Some_0 <= i64::MAX,
    ensures
        parse_i64(body) == Some(parse_u64(body)->Some_0 as i64),
        parse_i64(seq!['-'] + body) is Some && parse_i64(seq!['-'] + body)->Some_0 == -(parse_u64(body)->Some_0 as int),
        parse_i64(seq!['+'] + body) == Some(parse_u64(body)->Some_0 as i64),
{
    assert((seq!['-'] + body).drop_first() =~= body);
    assert((seq!['+'] + body).drop_first() =~= body);
    assert((seq!['-'] + body)[0] == '-');
    assert((seq!['+'] + body)[0] == '+');
    assert(is_digit(body[0]));
    assert(body[0] != '-' && body[0] != '+');
    lemma_decimal_prefix(body, 0);
    assert(body.take(0) =~= Seq::<char>::empty());
    assert(parse_u64(body)->Some_0 == decimal_value(body));
    assert(0 <= decimal_value(body) <= i64::MAX);
}

/// Text without the separator only lengthens the last piece.
proof fn lemma_split_append_plain(x: Seq<char>, b: Seq<char>, sep: char)
    requires
        forall|k: int| 0 <= k < b.len() ==> #[trigger] b[k] != sep,
    ensures
        split_on(x + b, sep) == split_on(x, sep).update(
            split_on(x, sep).len() - 1,
            split_on(x, sep).last() + b,
        ),
    decreases b.len(),
{
    lemma_split_nonempty(x, sep);
    let px = split_on(x, sep);
    if b.len() == 0 {
        assert(x + b =~= x);
        assert(px.last() + b =~= px.last());
        assert(px.update(px.len() - 1, px.last() + b) =~= px);
    } else {
        let b1 = b.drop_last();
        lemma_split_append_plain(x, b1, sep);
        assert((x + b).drop_last() =~= x + b1);
        assert((x + b).last() == b.last());
        assert(b.last() == b[b.len() - 1]);
        let p1 = split_on(x + b1, sep);
        assert(p1.len() == px.len());
        assert(p1.last() == px.last() + b1);
        assert(p1.last().push(b.last()) =~= px.last() + b);
        assert(p1.update(p1.len() - 1, p1.last().push(b.last())) =~= px.update(
            px.len() - 1,
            px.last() + b,
        ));
    }
}

/// Splitting pieces joined with a separator none of them holds gives the
/// pieces back.
pub proof fn lemma_split_of_join(pieces: Seq<Seq<char>>, sep: char)
    requires
        pieces.len() >= 1,
        forall|i: int, k: int|
            0 <= i < pieces.len() && 0 <= k < pieces[i].len() ==> #[trigger] pieces[i][k] != sep,
    ensures
        split_on(join_with(pieces, sep), sep) == pieces,
    decreases pieces.len(),
{
    let last = pieces.last();
    assert forall|k: int| 0 <= k < last.len() implies #[trigger] last[k] != sep by {
        assert(last[k] == pieces[pieces.len() - 1][k]);
    }
    if pieces.len() == 1 {
        let e = Seq::<char>::empty();
        lemma_split_append_plain(e, pieces[0], sep);
        assert(e + pieces[0] =~= pieces[0]);
        assert(split_on(e, sep) =~= seq![e]);
        assert(e + pieces[0] =~= pieces[0]);
        assert(seq![e].update(0, e + pieces[0]) =~= pieces);
    } else {
        let d = pieces.drop_last();
        assert forall|i: int, k: int| 0 <= i < d.len() && 0 <= k < d[i].len() implies #[trigger] d[i][k]
            != sep by {
            assert(d[i] == pieces[i]);
        }
        lemma_split_of_join(d, sep);
        let j = join_with(d, sep);
        let js = j.push(sep);
        assert(js.drop_last() =~= j);
        assert(js.last() == sep);
        assert(split_on(js, sep) == d.push(Seq::empty()));
        lemma_split_append_plain(js, last, sep);
        assert(join_with(pieces, sep) =~= js + last);
        assert(Seq::<char>::empty() + last =~= last);
        assert(d.push(Seq::empty()).update(d.len() as int, Seq::<char>::empty() + last) =~= pieces);
    }
}

/// Text that neither starts nor ends with white space is its own trim.
pub proof fn lemma_trim_of_trimmed(s: Seq<char>)
    requires
        s.len() > 0,
        !unicode_white_space(s[0]),
        !unicode_white_space(s.last()),
    ensures
        trim(s) == s,
{
    assert(trim_start(s) == s);
    assert(trim_end(s) == s);
}

} // verus!
