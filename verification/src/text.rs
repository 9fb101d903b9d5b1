//! Strings as sequences of characters.
use vstd::prelude::*;
use vstd::string::StringExecFns;

verus! {

/// `String::push` appends one character to the end of the string.
pub assume_specification[ String::push ](text: &mut String, c: char)
    ensures
        final(text)@ == old(text)@.push(c),
;

/// The characters of `text`, in order.
pub fn chars_of(text: &str) -> (chars: Vec<char>)
    ensures
        chars@ == text@,
{
    let mut chars: Vec<char> = Vec::new();
    for c in it: text.chars()
        invariant
            chars@ == it.seq().take(it.index() as int),
            it.seq() == text@,
    {
        chars.push(c);
    }
    chars
}

/// The string made of `chars[from..to]`.
pub fn string_between(chars: &Vec<char>, from: usize, to: usize) -> (text: String)
    requires
        from <= to <= chars.len(),
    ensures
        text@ == chars@.subrange(from as int, to as int),
{
    let mut text = String::new();
    let mut i: usize = from;
    while i < to
        invariant
            from <= i <= to <= chars.len(),
            text@ == chars@.subrange(from as int, i as int),
        decreases to - i,
    {
        text.push(chars[i]);
        i += 1;
    }
    text
}

/// Whether `text` reads exactly `word`.
pub fn reads(text: &String, word: &str) -> (r: bool)
    ensures
        r == (text@ == word@),
{
    let word = word.to_owned();
    *text == word
}

/// `head` followed by `tail`.
pub fn joined(head: &str, tail: &str) -> (text: String)
    ensures
        text@ == head@ + tail@,
{
    let mut text = head.to_owned();
    text.append(tail);
    text
}

/// The length of the longest prefix of `s` that does not hold `stop`.
pub open spec fn span_until(s: Seq<char>, stop: char) -> nat
    decreases s.len(),
{
    if s.len() > 0 && s[0] != stop {
        1 + span_until(s.drop_first(), stop)
    } else {
        0
    }
}

/// The span before `stop` fits in the sequence, holds no `stop`, and ends at
/// one unless it takes up the whole sequence.
pub proof fn span_until_stops(s: Seq<char>, stop: char)
    ensures
        span_until(s, stop) <= s.len(),
        forall|i: int| 0 <= i < span_until(s, stop) ==> s[i] != stop,
        span_until(s, stop) < s.len() ==> s[span_until(s, stop) as int] == stop,
    decreases s.len(),
{
    if s.len() > 0 && s[0] != stop {
        let rest = s.drop_first();
        span_until_stops(rest, stop);
        assert forall|i: int| 0 <= i < span_until(s, stop) implies s[i] != stop by {
            if i > 0 {
                assert(rest[i - 1] == s[i]);
            }
        }
        if span_until(s, stop) < s.len() {
            assert(rest[span_until(rest, stop) as int] == s[span_until(s, stop) as int]);
        }
    }
}

/// The position of the first `stop` at or after `start`, or the length of
/// `chars` if there is none.
pub fn find_from(chars: &Vec<char>, start: usize, stop: char) -> (end: usize)
    requires
        start <= chars.len(),
    ensures
        start <= end <= chars.len(),
        end - start == span_until(chars@.skip(start as int), stop),
{
    let mut end: usize = start;
    while end < chars.len() && chars[end] != stop
        invariant
            start <= end <= chars.len(),
            span_until(chars@.skip(start as int), stop) == (end - start) + span_until(
                chars@.skip(end as int),
                stop,
            ),
        decreases chars.len() - end,
    {
        proof {
            assert(chars@.skip(end as int).drop_first() == chars@.skip(end + 1));
        }
        end += 1;
    }
    proof {
        if end < chars.len() {
            assert(chars@.skip(end as int)[0] == chars@[end as int]);
        }
    }
    end
}

/// `c` in lower case if it is a capital letter of the Latin alphabet without
/// diacritics, else `c` itself.
pub open spec fn ascii_lower(c: char) -> char {
    if 'A' <= c <= 'Z' {
        ((c as u8) + 32) as char
    } else {
        c
    }
}

/// Whether `text` reads `word` when the case of the letters A to Z is
/// disregarded.
pub open spec fn reads_ignoring_case(text: Seq<char>, word: Seq<char>) -> bool {
    &&& text.len() == word.len()
    &&& forall|i: int| 0 <= i < text.len() ==> ascii_lower(text[i]) == ascii_lower(word[i])
}

fn lower(c: char) -> (r: char)
    ensures
        r == ascii_lower(c),
{
    if 'A' <= c && c <= 'Z' {
        ((c as u8) + 32) as char
    } else {
        c
    }
}

/// Whether `text` reads `word` when the case of the letters A to Z is
/// disregarded.
pub fn eq_ignore_ascii_case(text: &str, word: &str) -> (r: bool)
    ensures
        r == reads_ignoring_case(text@, word@),
{
    let left = chars_of(text);
    let right = chars_of(word);
    if left.len() != right.len() {
        return false;
    }
    let mut i: usize = 0;
    while i < left.len()
        invariant
            left@ == text@,
            right@ == word@,
            i <= left.len() == right.len(),
            forall|k: int| 0 <= k < i ==> ascii_lower(left@[k]) == ascii_lower(right@[k]),
        decreases left.len() - i,
    {
        if lower(left[i]) != lower(right[i]) {
            assert(ascii_lower(text@[i as int]) != ascii_lower(word@[i as int]));
            return false;
        }
        i += 1;
    }
    true
}

/// Whether `a` comes before `b` in the order of a dictionary, characters
/// compared by their code points: at the first place where the two differ `a`
/// has the lesser character, or `a` ends there and `b` goes on. This is the
/// order of strings, which compares their bytes.
pub open spec fn precedes(a: Seq<char>, b: Seq<char>) -> bool
    decreases a.len(),
{
    if b.len() == 0 {
        false
    } else if a.len() == 0 {
        true
    } else if a[0] != b[0] {
        a[0] < b[0]
    } else {
        precedes(a.drop_first(), b.drop_first())
    }
}

/// No text comes before itself.
pub proof fn precedes_is_irreflexive(a: Seq<char>)
    ensures
        !precedes(a, a),
    decreases a.len(),
{
    if a.len() > 0 {
        precedes_is_irreflexive(a.drop_first());
    }
}

/// Of two different texts one comes before the other.
pub proof fn precedes_is_total(a: Seq<char>, b: Seq<char>)
    requires
        a != b,
    ensures
        precedes(a, b) || precedes(b, a),
    decreases a.len(),
{
    if a.len() > 0 && b.len() > 0 && a[0] == b[0] {
        if a.drop_first() == b.drop_first() {
            assert(a =~= seq![a[0]] + a.drop_first());
            assert(b =~= seq![b[0]] + b.drop_first());
        }
        precedes_is_total(a.drop_first(), b.drop_first());
    } else if a.len() == 0 && b.len() == 0 {
        assert(a =~= b);
    }
}

/// What comes before a text comes before everything after it.
pub proof fn precedes_is_transitive(a: Seq<char>, b: Seq<char>, c: Seq<char>)
    requires
        precedes(a, b),
        precedes(b, c),
    ensures
        precedes(a, c),
    decreases a.len(),
{
    if a.len() > 0 && a[0] == b[0] && b[0] == c[0] {
        precedes_is_transitive(a.drop_first(), b.drop_first(), c.drop_first());
    }
}

/// Whether `a` comes before `b` in the order of a dictionary.
pub fn comes_before(a: &Vec<char>, b: &Vec<char>) -> (r: bool)
    ensures
        r == precedes(a@, b@),
{
    let mut i: usize = 0;
    proof {
        assert(a@.skip(0) == a@);
        assert(b@.skip(0) == b@);
    }
    while i < a.len() && i < b.len()
        invariant
            i <= a.len(),
            i <= b.len(),
            precedes(a@, b@) == precedes(a@.skip(i as int), b@.skip(i as int)),
        decreases a.len() - i,
    {
        proof {
            assert(a@.skip(i as int).drop_first() == a@.skip(i + 1));
            assert(b@.skip(i as int).drop_first() == b@.skip(i + 1));
        }
        if a[i] != b[i] {
            return a[i] < b[i];
        }
        i += 1;
    }
    i < b.len()
}

/// The texts of a sequence of strings.
pub open spec fn texts(strings: Seq<String>) -> Seq<Seq<char>> {
    strings.map_values(|s: String| s@)
}

/// Whether every text comes before all that follow it: the texts stand in
/// the order of a dictionary and none stands twice.
pub open spec fn ascending(texts: Seq<Seq<char>>) -> bool {
    forall|i: int, j: int| 0 <= i < j < texts.len() ==> precedes(texts[i], texts[j])
}

/// The first `n` of `items`, with `separator` between two of them.
pub open spec fn listed(items: Seq<Seq<char>>, separator: Seq<char>, n: nat) -> Seq<char>
    decreases n,
{
    if n == 0 {
        Seq::empty()
    } else {
        listed(items, separator, (n - 1) as nat) + (if n > 1 {
            separator
        } else {
            Seq::empty()
        }) + items[n - 1]
    }
}

/// A set of texts has one listing in ascending order: two ascending
/// sequences that hold the same texts are the same sequence.
pub proof fn ascending_is_unique(a: Seq<Seq<char>>, b: Seq<Seq<char>>)
    requires
        ascending(a),
        ascending(b),
        forall|text: Seq<char>| a.contains(text) <==> b.contains(text),
    ensures
        a == b,
    decreases a.len(),
{
    if a.len() == 0 {
        if b.len() > 0 {
            assert(b.contains(b[0]));
        }
        assert(a =~= b);
    } else {
        assert(a.contains(a[0]));
        let j = choose|j: int| 0 <= j < b.len() && b[j] == a[0];
        assert(b.contains(b[0]));
        let i = choose|i: int| 0 <= i < a.len() && a[i] == b[0];
        if j > 0 {
            assert(precedes(b[0], b[j]));
            if i > 0 {
                assert(precedes(a[0], a[i]));
                precedes_is_transitive(a[0], a[i], a[0]);
            }
            precedes_is_irreflexive(a[0]);
        }
        let rest_a = a.drop_first();
        let rest_b = b.drop_first();
        assert forall|text: Seq<char>| rest_a.contains(text) <==> rest_b.contains(text) by {
            if rest_a.contains(text) {
                let k = choose|k: int| 0 <= k < rest_a.len() && rest_a[k] == text;
                assert(a[k + 1] == text);
                assert(precedes(a[0], a[k + 1]));
                assert(a.contains(text));
                let m = choose|m: int| 0 <= m < b.len() && b[m] == text;
                if m == 0 {
                    precedes_is_irreflexive(text);
                }
                assert(rest_b[m - 1] == text);
            }
            if rest_b.contains(text) {
                let k = choose|k: int| 0 <= k < rest_b.len() && rest_b[k] == text;
                assert(b[k + 1] == text);
                assert(precedes(b[0], b[k + 1]));
                assert(b.contains(text));
                let m = choose|m: int| 0 <= m < a.len() && a[m] == text;
                if m == 0 {
                    precedes_is_irreflexive(text);
                }
                assert(rest_a[m - 1] == text);
            }
        }
        assert forall|x: int, y: int| 0 <= x < y < rest_a.len() implies precedes(
            rest_a[x],
            rest_a[y],
        ) by {
            assert(precedes(a[x + 1], a[y + 1]));
        }
        assert forall|x: int, y: int| 0 <= x < y < rest_b.len() implies precedes(
            rest_b[x],
            rest_b[y],
        ) by {
            assert(precedes(b[x + 1], b[y + 1]));
        }
        ascending_is_unique(rest_a, rest_b);
        assert(a =~= seq![a[0]] + rest_a);
        assert(b =~= seq![b[0]] + rest_b);
    }
}

} // verus!
