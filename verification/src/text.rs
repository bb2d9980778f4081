//! Text as sequences of characters: the few operations on lines that the three
//! file formats need, each with its meaning stated over `Seq<char>`.

use vstd::prelude::*;
use vstd::std_specs::iter::IteratorSpec;

verus! {

/// The characters with the Unicode property `White_Space`.
pub open spec fn is_whitespace(c: char) -> bool {
    let n = c as u32;
    ||| 0x09 <= n <= 0x0D
    ||| n == 0x20
    ||| n == 0x85
    ||| n == 0xA0
    ||| n == 0x1680
    ||| 0x2000 <= n <= 0x200A
    ||| n == 0x2028
    ||| n == 0x2029
    ||| n == 0x202F
    ||| n == 0x205F
    ||| n == 0x3000
}

/// `s` without the white space at its start.
pub open spec fn trim_start(s: Seq<char>) -> Seq<char>
    decreases s.len(),
{
    if s.len() > 0 && is_whitespace(s[0]) {
        trim_start(s.drop_first())
    } else {
        s
    }
}

/// `s` without the white space at its end.
pub open spec fn trim_end(s: Seq<char>) -> Seq<char>
    decreases s.len(),
{
    if s.len() > 0 && is_whitespace(s.last()) {
        trim_end(s.drop_last())
    } else {
        s
    }
}

/// `s` without the white space at either end.
pub open spec fn trimmed(s: Seq<char>) -> Seq<char> {
    trim_end(trim_start(s))
}

/// Whether `pattern` stands in `s` at place `at`.
pub open spec fn occurs_at(s: Seq<char>, pattern: Seq<char>, at: int) -> bool {
    0 <= at && at + pattern.len() <= s.len() && s.subrange(at, at + pattern.len()) == pattern
}

/// Whether `s` begins with `pattern`.
pub open spec fn starts_with(s: Seq<char>, pattern: Seq<char>) -> bool {
    occurs_at(s, pattern, 0)
}

/// Whether `pattern` stands somewhere in `s`.
pub open spec fn contains(s: Seq<char>, pattern: Seq<char>) -> bool {
    exists|at: int| occurs_at(s, pattern, at)
}

/// The place of the first `sep` in `s`, or the length of `s` where there is
/// none.
pub open spec fn first_index(s: Seq<char>, sep: char) -> int
    decreases s.len(),
{
    if s.len() == 0 || s[0] == sep {
        0
    } else {
        1 + first_index(s.drop_first(), sep)
    }
}

/// The fields of `s`: the pieces between one `sep` and the next. A text
/// without `sep` is one field, and two separators in a row enclose an empty
/// field.
pub open spec fn split(s: Seq<char>, sep: char) -> Seq<Seq<char>>
    decreases s.len(),
{
    let at = first_index(s, sep);
    if 0 <= at < s.len() {
        seq![s.subrange(0, at)] + split(s.subrange(at + 1, s.len() as int), sep)
    } else {
        seq![s]
    }
}

/// `s` with every occurrence of `pattern` taken out, found from left to right
/// and never overlapping. An empty pattern takes nothing out.
pub open spec fn without(s: Seq<char>, pattern: Seq<char>) -> Seq<char>
    decreases s.len(),
{
    if pattern.len() == 0 || s.len() < pattern.len() {
        s
    } else if starts_with(s, pattern) {
        without(s.subrange(pattern.len() as int, s.len() as int), pattern)
    } else {
        seq![s[0]] + without(s.drop_first(), pattern)
    }
}

/// Whether `c` is one of the ten decimal digits.
pub open spec fn is_digit(c: char) -> bool {
    0x30 <= c as u32 <= 0x39
}

/// The number that a run of decimal digits denotes; 0 for the empty run.
pub open spec fn digits_value(s: Seq<char>) -> int
    decreases s.len(),
{
    if s.len() == 0 {
        0
    } else {
        digits_value(s.drop_last()) * 10 + (s.last() as u32 - 0x30)
    }
}

/// Whether `s` holds decimal digits only.
pub open spec fn all_digits(s: Seq<char>) -> bool {
    forall|i: int| 0 <= i < s.len() ==> is_digit(#[trigger] s[i])
}

/// The 32-bit signed integer that `s` denotes in decimal: an optional sign,
/// then at least one digit and nothing else, with a value that fits. Any other
/// text denotes none.
pub open spec fn integer_of(s: Seq<char>) -> Option<i32> {
    if s.len() == 0 {
        None
    } else {
        let signed = s[0] == '-' || s[0] == '+';
        let body = if signed {
            s.drop_first()
        } else {
            s
        };
        let value = if s[0] == '-' {
            -digits_value(body)
        } else {
            digits_value(body)
        };
        if body.len() == 0 || !all_digits(body) || value < i32::MIN || value > i32::MAX {
            None
        } else {
            Some(value as i32)
        }
    }
}

/// The texts that a list of character vectors holds.
pub open spec fn texts(fields: Seq<Vec<char>>) -> Seq<Seq<char>> {
    fields.map_values(|f: Vec<char>| f@)
}

/// The texts that a list of strings holds.
pub open spec fn lines_of(lines: Seq<String>) -> Seq<Seq<char>> {
    lines.map_values(|l: String| l@)
}

/// `String::push`: the string grows by the one character at its end.
#[verifier::external_body]
fn push_char(s: &mut String, c: char)
    ensures
        final(s)@ == old(s)@.push(c),
{
    s.push(c);
}

/// The characters of a string.
pub fn chars_of(s: &str) -> (r: Vec<char>)
    ensures
        r@ == s@,
{
    broadcast use vstd::string::group_string_axioms;

    let mut out: Vec<char> = Vec::new();
    let chars = s.chars();
    assert(chars.remaining() == s@);
    for c in it: chars
        invariant
            out@ == it.history(),
            it.seq() == s@,
    {
        out.push(c);
    }
    assert(out@ =~= s@);
    out
}

/// The string made of the given characters.
pub fn string_of(chars: &Vec<char>) -> (r: String)
    ensures
        r@ == chars@,
{
    let mut out = String::new();
    let mut i: usize = 0;
    while i < chars.len()
        invariant
            0 <= i <= chars.len(),
            out@ == chars@.subrange(0, i as int),
        decreases chars.len() - i,
    {
        push_char(&mut out, chars[i]);
        assert(chars@.subrange(0, i + 1) =~= chars@.subrange(0, i as int).push(chars@[i as int]));
        i += 1;
    }
    assert(chars@.subrange(0, chars.len() as int) =~= chars@);
    out
}

/// The characters of `chars` from place `from` up to, not including, place
/// `to`.
pub fn slice(chars: &Vec<char>, from: usize, to: usize) -> (r: Vec<char>)
    requires
        from <= to <= chars.len(),
    ensures
        r@ == chars@.subrange(from as int, to as int),
{
    let mut out: Vec<char> = Vec::new();
    let mut i: usize = from;
    while i < to
        invariant
            from <= i <= to <= chars.len(),
            out@ == chars@.subrange(from as int, i as int),
        decreases to - i,
    {
        out.push(chars[i]);
        assert(chars@.subrange(from as int, i + 1) =~= chars@.subrange(from as int, i as int).push(
            chars@[i as int],
        ));
        i += 1;
    }
    out
}

/// Whether `c` is white space.
pub fn whitespace(c: char) -> (r: bool)
    ensures
        r == is_whitespace(c),
{
    let n: u32 = c as u32;
    (0x09 <= n && n <= 0x0D) || n == 0x20 || n == 0x85 || n == 0xA0 || n == 0x1680 || (0x2000 <= n
        && n <= 0x200A) || n == 0x2028 || n == 0x2029 || n == 0x202F || n == 0x205F || n == 0x3000
}

proof fn lemma_trim_start_skips(s: Seq<char>, n: int)
    requires
        0 <= n <= s.len(),
        forall|k: int| 0 <= k < n ==> is_whitespace(#[trigger] s[k]),
    ensures
        trim_start(s) == trim_start(s.subrange(n, s.len() as int)),
    decreases n,
{
    if n == 0 {
        assert(s.subrange(0, s.len() as int) =~= s);
    } else {
        assert(is_whitespace(s[0]));
        let rest = s.drop_first();
        assert forall|k: int| 0 <= k < n - 1 implies is_whitespace(#[trigger] rest[k]) by {
            assert(rest[k] == s[k + 1]);
        }
        lemma_trim_start_skips(rest, n - 1);
        assert(rest.subrange(n - 1, rest.len() as int) =~= s.subrange(n, s.len() as int));
    }
}

proof fn lemma_trim_end_skips(s: Seq<char>, n: int)
    requires
        0 <= n <= s.len(),
        forall|k: int| n <= k < s.len() ==> is_whitespace(#[trigger] s[k]),
    ensures
        trim_end(s) == trim_end(s.subrange(0, n)),
    decreases s.len() - n,
{
    if n == s.len() {
        assert(s.subrange(0, n) =~= s);
    } else {
        assert(is_whitespace(s.last()));
        let rest = s.drop_last();
        lemma_trim_end_skips(rest, n);
        assert(rest.subrange(0, n) =~= s.subrange(0, n));
    }
}

/// The text without the white space at either end.
pub fn trim(chars: &Vec<char>) -> (r: Vec<char>)
    ensures
        r@ == trimmed(chars@),
{
    let mut from: usize = 0;
    while from < chars.len() && whitespace(chars[from])
        invariant
            0 <= from <= chars.len(),
            forall|k: int| 0 <= k < from ==> is_whitespace(#[trigger] chars@[k]),
        decreases chars.len() - from,
    {
        from += 1;
    }
    let ghost tail = chars@.subrange(from as int, chars.len() as int);
    proof {
        lemma_trim_start_skips(chars@, from as int);
        assert(trim_start(tail) == tail);
    }
    let mut to: usize = chars.len();
    while to > from && whitespace(chars[to - 1])
        invariant
            from <= to <= chars.len(),
            tail == chars@.subrange(from as int, chars.len() as int),
            forall|k: int| to - from <= k < tail.len() ==> is_whitespace(#[trigger] tail[k]),
        decreases to,
    {
        to -= 1;
    }
    proof {
        lemma_trim_end_skips(tail, to - from);
        let kept = tail.subrange(0, to - from);
        assert(kept =~= chars@.subrange(from as int, to as int));
        assert(trim_end(kept) == kept) by {
            if kept.len() > 0 {
                assert(kept.last() == chars@[to - 1]);
            }
        }
    }
    slice(chars, from, to)
}

/// Whether `pattern` stands in `chars` at place `at`.
pub fn matches_at(chars: &Vec<char>, pattern: &Vec<char>, at: usize) -> (r: bool)
    ensures
        r == occurs_at(chars@, pattern@, at as int),
{
    if pattern.len() > chars.len() || at > chars.len() - pattern.len() {
        return false;
    }
    let mut i: usize = 0;
    while i < pattern.len()
        invariant
            0 <= i <= pattern.len(),
            at + pattern.len() <= chars.len(),
            forall|k: int| 0 <= k < i ==> chars@[at + k] == pattern@[k],
        decreases pattern.len() - i,
    {
        if chars[at + i] != pattern[i] {
            proof {
                let window = chars@.subrange(at as int, at + pattern.len());
                assert(window[i as int] != pattern@[i as int]);
            }
            return false;
        }
        i += 1;
    }
    assert(chars@.subrange(at as int, at + pattern.len()) =~= pattern@);
    true
}

/// Whether the text begins with `pattern`.
pub fn begins_with(chars: &Vec<char>, pattern: &Vec<char>) -> (r: bool)
    ensures
        r == starts_with(chars@, pattern@),
{
    matches_at(chars, pattern, 0)
}

/// Whether the text is `pattern` and nothing else.
pub fn is_text(chars: &Vec<char>, pattern: &Vec<char>) -> (r: bool)
    ensures
        r == (chars@ == pattern@),
{
    if chars.len() != pattern.len() {
        return false;
    }
    let found = matches_at(chars, pattern, 0);
    assert(chars@.subrange(0, chars.len() as int) =~= chars@);
    found
}

/// Whether `pattern` stands somewhere in the text.
pub fn has(chars: &Vec<char>, pattern: &Vec<char>) -> (r: bool)
    ensures
        r == contains(chars@, pattern@),
{
    let mut at: usize = 0;
    while at < chars.len()
        invariant
            0 <= at <= chars.len(),
            forall|k: int| 0 <= k < at ==> !occurs_at(chars@, pattern@, k),
        decreases chars.len() - at,
    {
        if matches_at(chars, pattern, at) {
            return true;
        }
        at += 1;
    }
    matches_at(chars, pattern, at)
}

proof fn lemma_first_index(s: Seq<char>, sep: char)
    ensures
        0 <= first_index(s, sep) <= s.len(),
        first_index(s, sep) < s.len() ==> s[first_index(s, sep)] == sep,
        forall|k: int| 0 <= k < first_index(s, sep) ==> #[trigger] s[k] != sep,
    decreases s.len(),
{
    if s.len() == 0 || s[0] == sep {
    } else {
        let rest = s.drop_first();
        lemma_first_index(rest, sep);
        assert forall|k: int| 0 <= k < first_index(s, sep) implies #[trigger] s[k] != sep by {
            if k > 0 {
                assert(s[k] == rest[k - 1]);
            }
        }
    }
}

proof fn lemma_first_index_is(s: Seq<char>, sep: char, at: int)
    requires
        0 <= at <= s.len(),
        forall|k: int| 0 <= k < at ==> #[trigger] s[k] != sep,
        at < s.len() ==> s[at] == sep,
    ensures
        first_index(s, sep) == at,
{
    lemma_first_index(s, sep);
    let found = first_index(s, sep);
    if found < at {
        assert(s[found] != sep);
    } else if found > at {
        assert(s[at] != sep);
    }
}

/// The fields of the text between one `sep` and the next.
pub fn fields(chars: &Vec<char>, sep: char) -> (r: Vec<Vec<char>>)
    ensures
        texts(r@) == split(chars@, sep),
{
    let mut out: Vec<Vec<char>> = Vec::new();
    let mut from: usize = 0;
    let mut i: usize = 0;
    proof {
        assert(chars@.subrange(0, chars.len() as int) =~= chars@);
        assert(texts(out@) + split(chars@, sep) =~= split(chars@, sep));
    }
    while i < chars.len()
        invariant
            0 <= from <= i <= chars.len(),
            split(chars@, sep) == texts(out@) + split(
                chars@.subrange(from as int, chars.len() as int),
                sep,
            ),
            forall|k: int| from <= k < i ==> #[trigger] chars@[k] != sep,
        decreases chars.len() - i,
    {
        if chars[i] == sep {
            let field = slice(chars, from, i);
            proof {
                let rest = chars@.subrange(from as int, chars.len() as int);
                assert forall|k: int| 0 <= k < i - from implies #[trigger] rest[k] != sep by {
                    assert(rest[k] == chars@[from + k]);
                }
                lemma_first_index_is(rest, sep, i - from);
                assert(rest.subrange(0, i - from) =~= field@);
                assert(rest.subrange(i - from + 1, rest.len() as int) =~= chars@.subrange(
                    i + 1,
                    chars.len() as int,
                ));
                assert(texts(out@.push(field)) =~= texts(out@) + seq![field@]);
            }
            out.push(field);
            from = i + 1;
        }
        i += 1;
    }
    let field = slice(chars, from, chars.len());
    proof {
        let rest = chars@.subrange(from as int, chars.len() as int);
        assert forall|k: int| 0 <= k < rest.len() implies #[trigger] rest[k] != sep by {
            assert(rest[k] == chars@[from + k]);
        }
        lemma_first_index_is(rest, sep, rest.len() as int);
        assert(texts(out@.push(field)) =~= texts(out@) + seq![field@]);
    }
    out.push(field);
    out
}

/// The text with every occurrence of `pattern` taken out.
pub fn remove_all(chars: &Vec<char>, pattern: &Vec<char>) -> (r: Vec<char>)
    ensures
        r@ == without(chars@, pattern@),
{
    if pattern.len() == 0 {
        return slice(chars, 0, chars.len());
    }
    let mut out: Vec<char> = Vec::new();
    let mut i: usize = 0;
    proof {
        assert(chars@.subrange(0, chars.len() as int) =~= chars@);
        assert(out@ + without(chars@, pattern@) =~= without(chars@, pattern@));
    }
    while i < chars.len()
        invariant
            0 <= i <= chars.len(),
            pattern.len() > 0,
            without(chars@, pattern@) == out@ + without(
                chars@.subrange(i as int, chars.len() as int),
                pattern@,
            ),
        decreases chars.len() - i,
    {
        let ghost rest = chars@.subrange(i as int, chars.len() as int);
        if matches_at(chars, pattern, i) {
            proof {
                assert(rest.subrange(0, pattern.len() as int) =~= chars@.subrange(
                    i as int,
                    i + pattern.len(),
                ));
                assert(rest.subrange(pattern.len() as int, rest.len() as int) =~= chars@.subrange(
                    i + pattern.len(),
                    chars.len() as int,
                ));
            }
            i += pattern.len();
        } else {
            proof {
                let tail = rest.drop_first();
                assert(tail =~= chars@.subrange(i + 1, chars.len() as int));
                if rest.len() >= pattern.len() {
                    assert(rest.subrange(0, pattern.len() as int) =~= chars@.subrange(
                        i as int,
                        i + pattern.len(),
                    ));
                } else {
                    assert(seq![rest[0]] + tail =~= rest);
                }
                assert(without(rest, pattern@) == seq![rest[0]] + without(tail, pattern@));
                assert(out@.push(chars@[i as int]) + without(tail, pattern@) =~= out@ + (seq![
                    rest[0],
                ] + without(tail, pattern@)));
            }
            out.push(chars[i]);
            i += 1;
        }
    }
    proof {
        assert(chars@.subrange(chars.len() as int, chars.len() as int) =~= Seq::<char>::empty());
        assert(out@ + Seq::<char>::empty() =~= out@);
    }
    out
}

/// The integer that the text denotes, if it denotes one.
pub fn parse_integer(chars: &Vec<char>) -> (r: Option<i32>)
    ensures
        r == integer_of(chars@),
{
    if chars.len() == 0 {
        return None;
    }
    let negative = chars[0] == '-';
    let from: usize = if chars[0] == '-' || chars[0] == '+' {
        1
    } else {
        0
    };
    if from == chars.len() {
        return None;
    }
    let ghost body = chars@.subrange(from as int, chars.len() as int);
    proof {
        if from == 1 {
            assert(body =~= chars@.drop_first());
        } else {
            assert(body =~= chars@);
        }
    }
    let mut value: i64 = 0;
    let mut overflow = false;
    let mut i: usize = from;
    while i < chars.len()
        invariant
            from <= i <= chars.len(),
            chars.len() > 0,
            negative == (chars@[0] == '-'),
            body == chars@.subrange(from as int, chars.len() as int),
            body == if chars@[0] == '-' || chars@[0] == '+' {
                chars@.drop_first()
            } else {
                chars@
            },
            all_digits(body.subrange(0, i - from)),
            !overflow ==> value == digits_value(body.subrange(0, i - from)) && 0 <= value
                <= 0x8000_0000,
            overflow ==> digits_value(body.subrange(0, i - from)) > 0x8000_0000,
        decreases chars.len() - i,
    {
        let c: u32 = chars[i] as u32;
        let ghost seen = body.subrange(0, i - from);
        let ghost next = body.subrange(0, i + 1 - from);
        proof {
            assert(next.drop_last() =~= seen);
            assert(next.last() == chars@[i as int]);
        }
        if c < 0x30 || c > 0x39 {
            proof {
                assert(body[i - from] == chars@[i as int]);
                assert(!is_digit(body[i - from]));
            }
            return None;
        }
        proof {
            assert forall|k: int| 0 <= k < next.len() implies is_digit(#[trigger] next[k]) by {
                if k < seen.len() {
                    assert(next[k] == seen[k]);
                }
            }
        }
        if !overflow {
            value = value * 10 + (c - 0x30) as i64;
            if value > 0x8000_0000 {
                overflow = true;
            }
        }
        i += 1;
    }
    proof {
        assert(body.subrange(0, body.len() as int) =~= body);
    }
    if overflow {
        return None;
    }
    if negative {
        Some((-value) as i32)
    } else if value > 0x7fff_ffff {
        None
    } else {
        Some(value as i32)
    }
}

} // verus!
