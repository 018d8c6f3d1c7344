//! Text building blocks: decimal numbers, replacement of a pattern, trimming,
//! joining and the JSON objects that reports are made of.
use vstd::prelude::*;

verus! {

/// `String::push` appends one character.
pub assume_specification[ String::push ](s: &mut String, c: char)
    ensures
        final(s)@ == old(s)@.push(c),
;

/// The characters of `s`.
pub fn chars_of(s: &str) -> (out: Vec<char>)
    ensures
        out@ == s@,
{
    broadcast use vstd::string::axiom_spec_iter;

    let mut out: Vec<char> = Vec::new();
    for c in it: s.chars()
        invariant
            it.seq() == s@,
            out@ == it.seq().take(it.index()),
    {
        out.push(c);
    }
    out
}

/// The text that `chars` spells.
pub fn text_of(chars: &Vec<char>) -> (out: String)
    ensures
        out@ == chars@,
{
    let mut out: String = String::new();
    let mut i: usize = 0;
    while i < chars.len()
        invariant
            i <= chars@.len(),
            out@ == chars@.take(i as int),
        decreases chars@.len() - i,
    {
        out.push(chars[i]);
        i = i + 1;
    }
    out
}

/// Whether two texts are the same.
pub fn same_text(a: &str, b: &str) -> (same: bool)
    ensures
        same == (a@ == b@),
{
    let x: String = a.to_owned();
    let y: String = b.to_owned();
    x == y
}

/// The digit of a value below ten.
pub open spec fn digit(n: nat) -> char {
    (48 + n) as char
}

/// `n` in decimal, without leading zeros.
pub open spec fn decimal(n: nat) -> Seq<char>
    decreases n,
{
    if n < 10 {
        seq![digit(n)]
    } else {
        decimal(n / 10).push(digit(n % 10))
    }
}

/// Whether `c` is a decimal digit.
pub open spec fn is_digit(c: char) -> bool {
    '0' <= c <= '9'
}

pub proof fn lemma_decimal_is_digits(n: nat)
    ensures
        decimal(n).len() > 0,
        forall|i: int| 0 <= i < decimal(n).len() ==> is_digit(#[trigger] decimal(n)[i]),
    decreases n,
{
    if n >= 10 {
        lemma_decimal_is_digits(n / 10);
    }
}

fn digit_char(n: u64) -> (c: char)
    requires
        n < 10,
    ensures
        c == digit(n as nat),
{
    match n {
        0 => '0',
        1 => '1',
        2 => '2',
        3 => '3',
        4 => '4',
        5 => '5',
        6 => '6',
        7 => '7',
        8 => '8',
        _ => '9',
    }
}

/// Appends `n` in decimal.
pub fn push_decimal(out: &mut String, n: u64)
    ensures
        final(out)@ == old(out)@ + decimal(n as nat),
    decreases n,
{
    if n >= 10 {
        push_decimal(out, n / 10);
    }
    out.push(digit_char(n % 10));
    assert(out@ =~= old(out)@ + decimal(n as nat));
}

/// `n` in decimal, without leading zeros.
pub fn decimal_text(n: u64) -> (out: String)
    ensures
        out@ == decimal(n as nat),
{
    let mut out: String = String::new();
    push_decimal(&mut out, n);
    assert(out@ =~= decimal(n as nat));
    out
}

/// `text` with every occurrence of `pattern`, found from left to right, replaced.
pub open spec fn replaced(text: Seq<char>, pattern: Seq<char>, with: Seq<char>) -> Seq<char>
    decreases text.len(),
{
    if pattern.len() == 0 || text.len() < pattern.len() {
        text
    } else if text.take(pattern.len() as int) == pattern {
        with + replaced(text.skip(pattern.len() as int), pattern, with)
    } else {
        seq![text[0]] + replaced(text.skip(1), pattern, with)
    }
}

/// Whether `pattern` occurs in `text` at `at`.
pub open spec fn occurs_at(text: Seq<char>, pattern: Seq<char>, at: int) -> bool {
    &&& 0 <= at
    &&& at + pattern.len() <= text.len()
    &&& text.subrange(at, at + pattern.len()) == pattern
}

/// Whether `pattern` occurs anywhere in `text`.
pub open spec fn occurs(text: Seq<char>, pattern: Seq<char>) -> bool {
    exists|at: int| occurs_at(text, pattern, at)
}

fn starts_at(text: &Vec<char>, pattern: &Vec<char>, at: usize) -> (found: bool)
    requires
        at <= text@.len(),
    ensures
        found == occurs_at(text@, pattern@, at as int),
{
    if pattern.len() > text.len() - at {
        return false;
    }
    let mut i: usize = 0;
    while i < pattern.len()
        invariant
            at + pattern@.len() <= text.len(),
            i <= pattern@.len(),
            forall|j: int| 0 <= j < i ==> text@[at + j] == #[trigger] pattern@[j],
        decreases pattern@.len() - i,
    {
        if text[at + i] != pattern[i] {
            assert(text@.subrange(at as int, at + pattern@.len())[i as int] != pattern@[i as int]);
            return false;
        }
        i = i + 1;
    }
    assert(text@.subrange(at as int, at + pattern@.len()) =~= pattern@);
    true
}

/// Whether `pattern` occurs anywhere in `text`.
pub fn contains(text: &Vec<char>, pattern: &Vec<char>) -> (found: bool)
    ensures
        found == occurs(text@, pattern@),
{
    let mut at: usize = 0;
    while at < text.len()
        invariant
            at <= text@.len(),
            forall|i: int| 0 <= i < at ==> !occurs_at(text@, pattern@, i),
        decreases text@.len() - at,
    {
        if starts_at(text, pattern, at) {
            return true;
        }
        at = at + 1;
    }
    starts_at(text, pattern, at)
}

/// Replaces every occurrence of `pattern`, from left to right.
pub fn replace_all(text: &Vec<char>, pattern: &Vec<char>, with: &Vec<char>) -> (out: Vec<char>)
    requires
        pattern@.len() > 0,
    ensures
        out@ == replaced(text@, pattern@, with@),
{
    let mut out: Vec<char> = Vec::new();
    let mut at: usize = 0;
    assert(text@.skip(0) =~= text@);
    assert(out@ + replaced(text@, pattern@, with@) =~= replaced(text@, pattern@, with@));
    while at < text.len()
        invariant
            pattern@.len() > 0,
            at <= text@.len(),
            out@ + replaced(text@.skip(at as int), pattern@, with@) == replaced(
                text@,
                pattern@,
                with@,
            ),
        decreases text@.len() - at,
    {
        let ghost rest = text@.skip(at as int);
        if starts_at(text, pattern, at) {
            assert(rest.take(pattern@.len() as int) =~= text@.subrange(
                at as int,
                at + pattern@.len(),
            ));
            assert(rest.skip(pattern@.len() as int) =~= text@.skip(at + pattern@.len()));
            let mut i: usize = 0;
            let ghost before = out@;
            while i < with.len()
                invariant
                    i <= with@.len(),
                    out@ == before + with@.take(i as int),
                decreases with@.len() - i,
            {
                out.push(with[i]);
                i = i + 1;
            }
            assert(with@.take(with@.len() as int) =~= with@);
            at = at + pattern.len();
            assert(out@ + replaced(text@.skip(at as int), pattern@, with@) =~= before + (with@
                + replaced(text@.skip(at as int), pattern@, with@)));
        } else {
            proof {
                if rest.len() >= pattern@.len() {
                    assert(rest.take(pattern@.len() as int) =~= text@.subrange(
                        at as int,
                        at + pattern@.len(),
                    ));
                } else {
                    assert(rest.skip(1).len() < pattern@.len());
                    assert(rest =~= seq![rest[0]] + rest.skip(1));
                }
                assert(rest.skip(1) =~= text@.skip(at + 1));
                assert(out@.push(text@[at as int]) + replaced(text@.skip(at + 1), pattern@, with@)
                    =~= out@ + (seq![rest[0]] + replaced(text@.skip(at + 1), pattern@, with@)));
            }
            out.push(text[at]);
            at = at + 1;
        }
    }
    assert(text@.skip(at as int).len() == 0);
    assert(out@ + replaced(text@.skip(at as int), pattern@, with@) =~= out@);
    out
}

proof fn lemma_plain_prefix(text: Seq<char>, pattern: Seq<char>, with: Seq<char>, k: nat)
    requires
        pattern.len() > 0,
        with.len() > 0,
        forall|i: int| 0 <= i < with.len() ==> is_digit(#[trigger] with[i]),
        k <= replaced(text, pattern, with).len(),
        forall|i: int| 0 <= i < k ==> !is_digit(#[trigger] replaced(text, pattern, with)[i]),
    ensures
        k <= text.len(),
        forall|i: int| 0 <= i < k ==> #[trigger] text[i] == replaced(text, pattern, with)[i],
    decreases text.len(),
{
    let out = replaced(text, pattern, with);
    if k > 0 && text.len() >= pattern.len() {
        if text.take(pattern.len() as int) == pattern {
            assert(out[0] == with[0]);
        } else {
            let rest = replaced(text.skip(1), pattern, with);
            assert(out =~= seq![text[0]] + rest);
            assert forall|i: int| 0 <= i < k - 1 implies !is_digit(#[trigger] rest[i]) by {
                assert(out[i + 1] == rest[i]);
            }
            lemma_plain_prefix(text.skip(1), pattern, with, (k - 1) as nat);
            assert forall|i: int| 0 <= i < k implies #[trigger] text[i] == out[i] by {
                if i > 0 {
                    assert(text.skip(1)[i - 1] == rest[i - 1]);
                }
            }
        }
    }
}

/// Where digits take the place of a pattern, the pattern occurs no more, and no
/// other text without digits occurs that did not before.
pub proof fn lemma_replaced_by_digits(
    text: Seq<char>,
    pattern: Seq<char>,
    with: Seq<char>,
    other: Seq<char>,
)
    requires
        pattern.len() > 0,
        with.len() > 0,
        forall|i: int| 0 <= i < with.len() ==> is_digit(#[trigger] with[i]),
        other.len() > 0,
        forall|i: int| 0 <= i < other.len() ==> !is_digit(#[trigger] other[i]),
        other == pattern || !occurs(text, other),
    ensures
        !occurs(replaced(text, pattern, with), other),
    decreases text.len(),
{
    let out = replaced(text, pattern, with);
    if text.len() < pattern.len() {
        if occurs(out, other) {
            let at = choose|at: int| occurs_at(out, other, at);
            assert(other != pattern);
            assert(occurs_at(text, other, at));
        }
    } else if text.take(pattern.len() as int) == pattern {
        let tail = text.skip(pattern.len() as int);
        let rest = replaced(tail, pattern, with);
        assert(out =~= with + rest);
        if other != pattern && occurs(tail, other) {
            let at = choose|at: int| occurs_at(tail, other, at);
            assert(text.subrange(
                at + pattern.len(),
                at + pattern.len() + other.len(),
            ) =~= tail.subrange(at, at + other.len()));
            assert(occurs_at(text, other, at + pattern.len()));
        }
        lemma_replaced_by_digits(tail, pattern, with, other);
        if occurs(out, other) {
            let at = choose|at: int| occurs_at(out, other, at);
            assert(out.subrange(at, at + other.len())[0] == other[0]);
            if at < with.len() {
                assert(is_digit(with[at]));
            } else {
                assert(rest.subrange(at - with.len(), at - with.len() + other.len())
                    =~= out.subrange(at, at + other.len()));
                assert(occurs_at(rest, other, at - with.len()));
            }
        }
    } else {
        let tail = text.skip(1);
        let rest = replaced(tail, pattern, with);
        assert(out =~= seq![text[0]] + rest);
        if other != pattern && occurs(tail, other) {
            let at = choose|at: int| occurs_at(tail, other, at);
            assert(text.subrange(at + 1, at + 1 + other.len()) =~= tail.subrange(
                at,
                at + other.len(),
            ));
            assert(occurs_at(text, other, at + 1));
        }
        lemma_replaced_by_digits(tail, pattern, with, other);
        if occurs(out, other) {
            let at = choose|at: int| occurs_at(out, other, at);
            if at > 0 {
                assert(rest.subrange(at - 1, at - 1 + other.len()) =~= out.subrange(
                    at,
                    at + other.len(),
                ));
                assert(occurs_at(rest, other, at - 1));
            } else {
                assert forall|i: int| 0 <= i < other.len() implies !is_digit(#[trigger] out[i]) by {
                    assert(out.subrange(0, other.len() as int)[i] == other[i]);
                }
                lemma_plain_prefix(text, pattern, with, other.len());
                assert(text.subrange(0, other.len() as int) =~= out.subrange(
                    0,
                    other.len() as int,
                ));
                assert(occurs_at(text, other, 0));
                assert(text.take(pattern.len() as int) =~= text.subrange(0, pattern.len() as int));
            }
        }
    }
}

/// The texts one after the other, with `sep` between any two.
pub open spec fn joined(parts: Seq<Seq<char>>, sep: Seq<char>) -> Seq<char>
    decreases parts.len(),
{
    if parts.len() == 0 {
        Seq::empty()
    } else if parts.len() == 1 {
        parts[0]
    } else {
        joined(parts.drop_last(), sep) + sep + parts.last()
    }
}

/// The texts by what they spell.
pub open spec fn views(parts: Seq<String>) -> Seq<Seq<char>> {
    parts.map_values(|s: String| s@)
}

/// Joins texts with `sep` between any two.
pub fn join(parts: &Vec<String>, sep: &str) -> (out: String)
    ensures
        out@ == joined(views(parts@), sep@),
{
    let mut out: String = String::new();
    let mut i: usize = 0;
    while i < parts.len()
        invariant
            i <= parts@.len(),
            out@ == joined(views(parts@).take(i as int), sep@),
        decreases parts@.len() - i,
    {
        let ghost before = out@;
        proof {
            let next = views(parts@).take(i + 1);
            assert(next.drop_last() =~= views(parts@).take(i as int));
            assert(next.last() == parts@[i as int]@);
        }
        if i > 0 {
            out.append(sep);
        }
        out.append(parts[i].as_str());
        i = i + 1;
        assert(out@ =~= joined(views(parts@).take(i as int), sep@));
    }
    assert(views(parts@).take(i as int) =~= views(parts@));
    out
}

/// The word for a truth value.
pub open spec fn truth(b: bool) -> Seq<char> {
    if b {
        "true"@
    } else {
        "false"@
    }
}

/// The word for a truth value.
pub fn truth_text(b: bool) -> (out: String)
    ensures
        out@ == truth(b),
{
    if b {
        "true".to_owned()
    } else {
        "false".to_owned()
    }
}

/// A named value of a report.
pub struct Field {
    pub name: &'static str,
    pub value: String,
}

/// The names and values of a report.
pub open spec fn field_views(fields: Seq<Field>) -> Seq<(Seq<char>, Seq<char>)> {
    fields.map_values(|f: Field| (f.name@, f.value@))
}

/// A named value, as it stands in an object.
pub open spec fn json_field(field: (Seq<char>, Seq<char>)) -> Seq<char> {
    seq!['"'] + field.0 + seq!['"', ':'] + field.1
}

/// An object of named values.
pub open spec fn json_object(fields: Seq<(Seq<char>, Seq<char>)>) -> Seq<char> {
    seq!['{'] + joined(
        fields.map_values(|f: (Seq<char>, Seq<char>)| json_field(f)),
        seq![','],
    ) + seq!['}']
}

/// A list of values.
pub open spec fn json_array(items: Seq<Seq<char>>) -> Seq<char> {
    seq!['['] + joined(items, seq![',']) + seq![']']
}

/// A text in quotes.
pub open spec fn quoted_of(text: Seq<char>) -> Seq<char> {
    seq!['"'] + text + seq!['"']
}

pub fn field(name: &'static str, value: String) -> (f: Field)
    ensures
        f.name@ == name@,
        f.value@ == value@,
{
    Field { name, value }
}

/// A text in quotes.
pub fn quoted(text: &str) -> (out: String)
    ensures
        out@ == quoted_of(text@),
{
    let mut out: String = String::new();
    out.push('"');
    out.append(text);
    out.push('"');
    assert(out@ =~= quoted_of(text@));
    out
}

/// An object of named values.
pub fn object(fields: &Vec<Field>) -> (out: String)
    ensures
        out@ == json_object(field_views(fields@)),
{
    let ghost all = field_views(fields@).map_values(|f: (Seq<char>, Seq<char>)| json_field(f));
    let mut parts: Vec<String> = Vec::new();
    let mut i: usize = 0;
    while i < fields.len()
        invariant
            i <= fields@.len(),
            all == field_views(fields@).map_values(|f: (Seq<char>, Seq<char>)| json_field(f)),
            views(parts@) == all.take(i as int),
        decreases fields@.len() - i,
    {
        let mut part: String = String::new();
        part.push('"');
        part.append(fields[i].name);
        part.push('"');
        part.push(':');
        part.append(fields[i].value.as_str());
        let ghost before = views(parts@);
        assert(part@ =~= json_field(field_views(fields@)[i as int]));
        let ghost spelled = part@;
        parts.push(part);
        i = i + 1;
        assert(views(parts@) =~= before.push(spelled));
        assert(views(parts@) =~= all.take(i as int));
    }
    assert(all.take(i as int) =~= all);
    let inside: String = join(&parts, comma());
    let mut out: String = String::new();
    out.push('{');
    out.append(inside.as_str());
    out.push('}');
    assert(out@ =~= json_object(field_views(fields@)));
    out
}

fn comma() -> (sep: &'static str)
    ensures
        sep@ == seq![','],
{
    proof {
        reveal_strlit(",");
    }
    assert(","@ =~= seq![',']);
    ","
}

/// A list of values.
pub fn array(items: &Vec<String>) -> (out: String)
    ensures
        out@ == json_array(views(items@)),
{
    let inside: String = join(items, comma());
    let mut out: String = String::new();
    out.push('[');
    out.append(inside.as_str());
    out.push(']');
    assert(out@ =~= json_array(views(items@)));
    out
}

/// Whether a character is white space.
pub open spec fn is_space(c: char) -> bool {
    let n = c as u32;
    9 <= n <= 13 || n == 0x20 || n == 0x85 || n == 0xa0 || n == 0x1680 || 0x2000 <= n <= 0x200a
        || n == 0x2028 || n == 0x2029 || n == 0x202f || n == 0x205f || n == 0x3000
}

fn space(c: char) -> (yes: bool)
    ensures
        yes == is_space(c),
{
    let n: u32 = c as u32;
    (9 <= n && n <= 13) || n == 0x20 || n == 0x85 || n == 0xa0 || n == 0x1680 || (0x2000 <= n && n
        <= 0x200a) || n == 0x2028 || n == 0x2029 || n == 0x202f || n == 0x205f || n == 0x3000
}

/// The text without the white space before it and after it.
pub open spec fn trimmed_of(text: Seq<char>) -> Seq<char>
    decreases text.len(),
{
    if text.len() == 0 {
        text
    } else if is_space(text[0]) {
        trimmed_of(text.skip(1))
    } else if is_space(text.last()) {
        trimmed_of(text.drop_last())
    } else {
        text
    }
}

/// The text without the white space before it and after it.
pub fn trimmed(text: &Vec<char>) -> (out: Vec<char>)
    ensures
        out@ == trimmed_of(text@),
{
    let mut lo: usize = 0;
    let mut hi: usize = text.len();
    assert(text@.subrange(0, hi as int) =~= text@);
    while lo < hi && space(text[lo])
        invariant
            lo <= hi,
            hi == text@.len(),
            trimmed_of(text@) == trimmed_of(text@.subrange(lo as int, hi as int)),
        decreases hi - lo,
    {
        assert(text@.subrange(lo as int, hi as int).skip(1) =~= text@.subrange(
            lo + 1,
            hi as int,
        ));
        lo = lo + 1;
    }
    while lo < hi && space(text[hi - 1])
        invariant
            lo <= hi <= text@.len(),
            lo < hi ==> !is_space(text@[lo as int]),
            trimmed_of(text@) == trimmed_of(text@.subrange(lo as int, hi as int)),
        decreases hi - lo,
    {
        assert(text@.subrange(lo as int, hi as int).drop_last() =~= text@.subrange(
            lo as int,
            hi - 1,
        ));
        hi = hi - 1;
    }
    let mut out: Vec<char> = Vec::new();
    let mut i: usize = lo;
    while i < hi
        invariant
            lo <= i <= hi <= text@.len(),
            out@ == text@.subrange(lo as int, i as int),
        decreases hi - i,
    {
        out.push(text[i]);
        i = i + 1;
        assert(out@ =~= text@.subrange(lo as int, i as int));
    }
    out
}

/// The number that digits spell.
pub open spec fn spelled(digits: Seq<char>) -> int
    decreases digits.len(),
{
    if digits.len() == 0 {
        0
    } else {
        10 * spelled(digits.drop_last()) + (digits.last() as int - '0' as int)
    }
}

/// A number in decimal spells that number, and does not start with a zero unless it is zero.
pub proof fn lemma_decimal_spells(n: nat)
    ensures
        spelled(decimal(n)) == n,
        decimal(n)[0] == '0' ==> n == 0 && decimal(n).len() == 1,
    decreases n,
{
    lemma_decimal_is_digits(n);
    if n >= 10 {
        lemma_decimal_is_digits(n / 10);
        lemma_decimal_spells(n / 10);
        assert(decimal(n).drop_last() =~= decimal(n / 10));
        assert(decimal(n)[0] == decimal(n / 10)[0]);
    } else {
        assert(decimal(n).drop_last() =~= Seq::empty());
        reveal_with_fuel(spelled, 2);
    }
}

/// A text in which a pattern does not occur stays as it is.
pub proof fn lemma_nothing_replaced(text: Seq<char>, pattern: Seq<char>, with: Seq<char>)
    requires
        !occurs(text, pattern),
    ensures
        replaced(text, pattern, with) == text,
    decreases text.len(),
{
    if pattern.len() > 0 && text.len() >= pattern.len() {
        assert(text.take(pattern.len() as int) =~= text.subrange(0, pattern.len() as int));
        assert(!occurs_at(text, pattern, 0));
        let rest = text.skip(1);
        if occurs(rest, pattern) {
            let at = choose|at: int| occurs_at(rest, pattern, at);
            assert(text.subrange(at + 1, at + 1 + pattern.len()) =~= rest.subrange(
                at,
                at + pattern.len(),
            ));
            assert(occurs_at(text, pattern, at + 1));
        }
        lemma_nothing_replaced(rest, pattern, with);
        assert(seq![text[0]] + rest =~= text);
    }
}

/// The first occurrence of a pattern gives way to what replaces it, what stands before it
/// stays, and so on behind it.
pub proof fn lemma_first_replaced(
    before: Seq<char>,
    pattern: Seq<char>,
    after: Seq<char>,
    with: Seq<char>,
)
    requires
        pattern.len() > 0,
        forall|i: int| 0 <= i < before.len() ==> #[trigger] before[i] != pattern[0],
    ensures
        replaced(before + pattern + after, pattern, with) == before + with + replaced(
            after,
            pattern,
            with,
        ),
    decreases before.len(),
{
    let text = before + pattern + after;
    if before.len() == 0 {
        assert(text.take(pattern.len() as int) =~= pattern);
        assert(text.skip(pattern.len() as int) =~= after);
        assert(before + with + replaced(after, pattern, with) =~= with + replaced(
            after,
            pattern,
            with,
        ));
    } else {
        let rest = before.skip(1);
        assert(text[0] == before[0]);
        assert(text.take(pattern.len() as int)[0] == text[0]);
        assert(text.skip(1) =~= rest + pattern + after);
        assert forall|i: int| 0 <= i < rest.len() implies #[trigger] rest[i] != pattern[0] by {
            assert(rest[i] == before[i + 1]);
        }
        lemma_first_replaced(rest, pattern, after, with);
        assert(seq![text[0]] + (rest + with + replaced(after, pattern, with)) =~= before + with
            + replaced(after, pattern, with));
    }
}

/// Texts that are joined stand one behind the other, with what separates them between any
/// two and nowhere else.
pub proof fn lemma_joined_in_parts(a: Seq<Seq<char>>, b: Seq<Seq<char>>, sep: Seq<char>)
    ensures
        a.len() > 0 && b.len() > 0 ==> joined(a + b, sep) == joined(a, sep) + sep + joined(
            b,
            sep,
        ),
        a.len() == 0 ==> joined(a, sep).len() == 0,
        a.len() == 1 ==> joined(a, sep) == a[0],
    decreases b.len(),
{
    if a.len() > 0 && b.len() > 0 {
        let all = a + b;
        assert(all.last() == b.last());
        assert(all.drop_last() =~= a + b.drop_last());
        if b.len() == 1 {
            assert(a + b.drop_last() =~= a);
        } else {
            lemma_joined_in_parts(a, b.drop_last(), sep);
            assert(joined(a, sep) + sep + joined(b.drop_last(), sep) + sep + b.last() =~= joined(
                a,
                sep,
            ) + sep + joined(b, sep));
        }
    }
}

/// Trimming takes away white space only, and leaves none at either end.
pub proof fn lemma_trimmed_between(text: Seq<char>) -> (ends: (int, int))
    ensures
        0 <= ends.0 <= ends.1 <= text.len(),
        trimmed_of(text) == text.subrange(ends.0, ends.1),
        forall|i: int| 0 <= i < ends.0 ==> is_space(#[trigger] text[i]),
        forall|i: int| ends.1 <= i < text.len() ==> is_space(#[trigger] text[i]),
        ends.0 < ends.1 ==> !is_space(text[ends.0]) && !is_space(text[ends.1 - 1]),
    decreases text.len(),
{
    if text.len() == 0 {
        assert(text.subrange(0, 0) =~= text);
        (0, 0)
    } else if is_space(text[0]) {
        let rest = text.skip(1);
        let (lo, hi) = lemma_trimmed_between(rest);
        assert(rest.subrange(lo, hi) =~= text.subrange(lo + 1, hi + 1));
        assert forall|i: int| 0 <= i < lo + 1 implies is_space(#[trigger] text[i]) by {
            if i > 0 {
                assert(rest[i - 1] == text[i]);
            }
        }
        assert forall|i: int| hi + 1 <= i < text.len() implies is_space(#[trigger] text[i]) by {
            assert(rest[i - 1] == text[i]);
        }
        (lo + 1, hi + 1)
    } else if is_space(text.last()) {
        let rest = text.drop_last();
        let (lo, hi) = lemma_trimmed_between(rest);
        assert(rest.subrange(lo, hi) =~= text.subrange(lo, hi));
        assert forall|i: int| 0 <= i < lo implies is_space(#[trigger] text[i]) by {
            assert(rest[i] == text[i]);
        }
        assert forall|i: int| hi <= i < text.len() implies is_space(#[trigger] text[i]) by {
            if i < rest.len() {
                assert(rest[i] == text[i]);
            }
        }
        (lo, hi)
    } else {
        assert(text.subrange(0, text.len() as int) =~= text);
        (0, text.len() as int)
    }
}

/// An object grows by a comma, a name in quotes, a colon and a value, before the brace that
/// ends it. An object of nothing is two braces.
pub proof fn lemma_object_grows(
    fields: Seq<(Seq<char>, Seq<char>)>,
    name: Seq<char>,
    value: Seq<char>,
)
    ensures
        json_object(Seq::empty()) == seq!['{', '}'],
        json_object(fields).len() >= 2,
        json_object(fields).last() == '}',
        json_object(fields.push((name, value))) == json_object(fields).drop_last() + (
        if fields.len() == 0 {
            seq!['"']
        } else {
            seq![',', '"']
        }) + name + seq!['"', ':'] + value + seq!['}'],
{
    let spell = |f: (Seq<char>, Seq<char>)| json_field(f);
    let parts = fields.map_values(spell);
    let one = seq![json_field((name, value))];
    let sep = seq![','];
    assert(fields.push((name, value)).map_values(spell) =~= parts + one);
    lemma_joined_in_parts(parts, one, sep);
    lemma_joined_in_parts(one, one, sep);
    assert(Seq::<(Seq<char>, Seq<char>)>::empty().map_values(spell) =~= Seq::empty());
    assert(json_object(Seq::empty()) =~= seq!['{', '}']);
    if fields.len() == 0 {
        assert(parts + one =~= one);
        assert(parts =~= Seq::empty());
    }
    let grown = json_object(fields).drop_last() + (if fields.len() == 0 {
        seq!['"']
    } else {
        seq![',', '"']
    }) + name + seq!['"', ':'] + value + seq!['}'];
    assert(json_object(fields.push((name, value))) =~= grown);
}

/// A list grows by a comma and a value, before the bracket that ends it. A list of nothing
/// is two brackets.
pub proof fn lemma_list_grows(items: Seq<Seq<char>>, item: Seq<char>)
    ensures
        json_array(Seq::empty()) == seq!['[', ']'],
        json_array(items).len() >= 2,
        json_array(items).last() == ']',
        json_array(items.push(item)) == json_array(items).drop_last() + (if items.len() == 0 {
            Seq::empty()
        } else {
            seq![',']
        }) + item + seq![']'],
{
    let one = seq![item];
    let sep = seq![','];
    assert(items.push(item) =~= items + one);
    lemma_joined_in_parts(items, one, sep);
    lemma_joined_in_parts(one, one, sep);
    assert(json_array(Seq::empty()) =~= seq!['[', ']']);
    if items.len() == 0 {
        assert(items + one =~= one);
    }
    let grown = json_array(items).drop_last() + (if items.len() == 0 {
        Seq::empty()
    } else {
        seq![',']
    }) + item + seq![']'];
    assert(json_array(items.push(item)) =~= grown);
}

/// A text in quotes is the text between two quotes.
pub proof fn lemma_quotes_around(text: Seq<char>)
    ensures
        quoted_of(text).len() == text.len() + 2,
        quoted_of(text)[0] == '"',
        quoted_of(text).last() == '"',
        quoted_of(text).subrange(1, text.len() as int + 1) == text,
{
    assert(quoted_of(text).subrange(1, text.len() as int + 1) =~= text);
}

/// Of the first characters, those between a tab and a carriage return and the blank are white
/// space. No letter, no digit and no mark is.
pub proof fn lemma_plain_spaces(c: char)
    requires
        (c as u32) < 0x80,
    ensures
        is_space(c) <==> c == ' ' || c == '\t' || c == '\n' || c == '\r' || c as u32 == 11
            || c as u32 == 12,
{
}

} // verus!
