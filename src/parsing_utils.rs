use vstd::prelude::*;
use vstd::std_specs::iter::IteratorSpec;

verus! {

/// The characters of a string, in order.
pub fn chars_of(s: &str) -> (r: Vec<char>)
    ensures
        r@ == s@,
{
    broadcast use vstd::string::axiom_spec_iter, vstd::string::next_postcondition;

    let mut it = s.chars();
    let mut v: Vec<char> = Vec::new();
    loop
        invariant
            v@ + it.remaining() == s@,
            it.obeys_prophetic_iter_laws(),
            it.decrease() is Some,
        ensures
            v@ == s@,
        decreases it.decrease()->0,
    {
        let ghost before = it.remaining();
        match it.next() {
            Some(c) => {
                v.push(c);
                assert(v@ + it.remaining() =~= s@) by {
                    assert(before =~= seq![c] + it.remaining());
                }
            },
            None => {
                assert(v@ =~= s@);
                break;
            },
        }
    }
    v
}

/// Relies on `String`'s `FromIterator<char>`: the string holds the characters
/// in order.
#[verifier::external_body]
pub fn string_from_chars(chars: &Vec<char>) -> (r: String)
    ensures
        r@ == chars@,
{
    chars.iter().collect()
}

/// ASCII whitespace, as `char::is_ascii_whitespace` has it.
pub open spec fn is_ws(c: char) -> bool {
    c == ' ' || c == '\t' || c == '\n' || c == '\r' || c == '\x0C'
}

fn is_ws_exec(c: char) -> (r: bool)
    ensures
        r == is_ws(c),
{
    c == ' ' || c == '\t' || c == '\n' || c == '\r' || c == '\x0C'
}

/// Where the word that starts at `i` ends.
pub open spec fn word_end(s: Seq<char>, i: int) -> int
    decreases s.len() - i,
{
    if i >= s.len() || i < 0 || is_ws(s[i]) {
        i
    } else {
        word_end(s, i + 1)
    }
}

/// The whitespace-separated words of `s` from index `i` on.
pub open spec fn fields_from(s: Seq<char>, i: int) -> Seq<Seq<char>>
    decreases s.len() - i,
{
    if i >= s.len() || i < 0 {
        seq![]
    } else if is_ws(s[i]) {
        fields_from(s, i + 1)
    } else {
        let j = word_end(s, i);
        if j <= i || j > s.len() {
            seq![]
        } else {
            seq![s.subrange(i, j)] + fields_from(s, j)
        }
    }
}

/// The whitespace-separated words of `s`.
pub open spec fn fields(s: Seq<char>) -> Seq<Seq<char>> {
    fields_from(s, 0)
}

proof fn lemma_fields_from_nonempty(s: Seq<char>, i: int)
    ensures
        forall|k: int| 0 <= k < fields_from(s, i).len() ==> #[trigger] fields_from(s, i)[k].len() > 0,
    decreases s.len() - i,
{
    if i >= s.len() || i < 0 {
    } else if is_ws(s[i]) {
        lemma_fields_from_nonempty(s, i + 1);
        assert(fields_from(s, i) == fields_from(s, i + 1));
    } else {
        let j = word_end(s, i);
        if !(j <= i || j > s.len()) {
            lemma_fields_from_nonempty(s, j);
            let rest = fields_from(s, j);
            assert(fields_from(s, i) == seq![s.subrange(i, j)] + rest);
            assert forall|k: int| 0 <= k < fields_from(s, i).len() implies #[trigger] fields_from(
                s,
                i,
            )[k].len() > 0 by {
                if k > 0 {
                    assert(fields_from(s, i)[k] == rest[k - 1]);
                }
            }
        }
    }
}

/// Every word is at least one character long.
pub proof fn lemma_fields_nonempty(s: Seq<char>, k: int)
    requires
        0 <= k < fields(s).len(),
    ensures
        fields(s)[k].len() > 0,
{
    lemma_fields_from_nonempty(s, 0);
}

proof fn lemma_word_end(s: Seq<char>, i: int, j: int)
    requires
        0 <= i <= j <= s.len(),
        forall|k: int| i <= k < j ==> !is_ws(s[k]),
        j == s.len() || is_ws(s[j]),
    ensures
        word_end(s, i) == j,
    decreases j - i,
{
    if i < j {
        lemma_word_end(s, i + 1, j);
    }
}

/// The whitespace-separated words of `line`.
pub fn split_fields(line: &str) -> (r: Vec<String>)
    ensures
        r@.map_values(|w: String| w@) == fields(line@),
{
    let chars = chars_of(line);
    let n = chars.len();
    let mut out: Vec<String> = Vec::new();
    let mut i: usize = 0;
    while i < n
        invariant
            chars@ == line@,
            n == chars@.len(),
            i <= n,
            out@.map_values(|w: String| w@) + fields_from(line@, i as int) == fields(line@),
        decreases n - i,
    {
        if is_ws_exec(chars[i]) {
            i = i + 1;
        } else {
            let mut j: usize = i + 1;
            while j < n && !is_ws_exec(chars[j])
                invariant
                    chars@ == line@,
                    n == chars@.len(),
                    i < j <= n,
                    forall|k: int| i <= k < j ==> !is_ws(chars@[k]),
                decreases n - j,
            {
                j = j + 1;
            }
            proof {
                lemma_word_end(line@, i as int, j as int);
            }
            let word = line.substring_char(i, j).to_owned();
            let ghost before = out@.map_values(|w: String| w@);
            out.push(word);
            assert(out@.map_values(|w: String| w@) =~= before.push(line@.subrange(i as int, j as int)));
            assert(fields_from(line@, i as int) == seq![line@.subrange(i as int, j as int)]
                + fields_from(line@, j as int));
            assert(out@.map_values(|w: String| w@) + fields_from(line@, j as int) =~= before
                + fields_from(line@, i as int));
            i = j;
        }
    }
    assert(out@.map_values(|w: String| w@) =~= fields(line@));
    out
}

pub open spec fn is_digit(c: char) -> bool {
    '0' <= c <= '9'
}

/// The value of a string of decimal digits.
pub open spec fn digits_value(s: Seq<char>) -> int
    decreases s.len(),
{
    if s.len() == 0 {
        0
    } else {
        digits_value(s.drop_last()) * 10 + (s.last() as int - '0' as int)
    }
}

/// Whether `s` is one or more decimal digits.
pub open spec fn all_digits(s: Seq<char>) -> bool {
    s.len() > 0 && forall|i: int| 0 <= i < s.len() ==> is_digit(s[i])
}

/// The number that `s` writes in decimal, if it is one that fits in a `u64`.
pub open spec fn decimal_u64(s: Seq<char>) -> Option<u64> {
    if all_digits(s) && 0 <= digits_value(s) <= u64::MAX {
        Some(digits_value(s) as u64)
    } else {
        None
    }
}

proof fn lemma_digits_value_monotone(s: Seq<char>, i: int)
    requires
        0 <= i <= s.len(),
        forall|k: int| 0 <= k < s.len() ==> is_digit(s[k]),
    ensures
        0 <= digits_value(s.subrange(0, i)) <= digits_value(s),
    decreases s.len() - i,
{
    if i < s.len() {
        lemma_digits_value_monotone(s, i + 1);
        assert(s.subrange(0, i + 1).drop_last() =~= s.subrange(0, i));
    } else {
        assert(s.subrange(0, i) =~= s);
        lemma_digits_value_nonneg(s);
    }
}

pub proof fn lemma_digits_value_nonneg(s: Seq<char>)
    requires
        forall|k: int| 0 <= k < s.len() ==> is_digit(s[k]),
    ensures
        digits_value(s) >= 0,
    decreases s.len(),
{
    if s.len() > 0 {
        lemma_digits_value_nonneg(s.drop_last());
    }
}

/// Parse a decimal number made of digits alone.
pub fn parse_u64(s: &str) -> (r: Option<u64>)
    ensures
        r == decimal_u64(s@),
{
    let chars = chars_of(s);
    parse_u64_chars(&chars)
}

/// Parse decimal digits.
pub fn parse_u64_chars(chars: &Vec<char>) -> (r: Option<u64>)
    ensures
        r == decimal_u64(chars@),
{
    let ghost s = chars@;
    let n = chars.len();
    if n == 0 {
        return None;
    }
    let mut k: usize = 0;
    while k < n
        invariant
            s == chars@,
            n == chars@.len(),
            k <= n,
            forall|a: int| 0 <= a < k ==> is_digit(chars@[a]),
        decreases n - k,
    {
        if !('0' <= chars[k] && chars[k] <= '9') {
            return None;
        }
        k = k + 1;
    }
    let mut v: u64 = 0;
    let mut i: usize = 0;
    while i < n
        invariant
            s == chars@,
            n == chars@.len(),
            n > 0,
            i <= n,
            forall|a: int| 0 <= a < n ==> is_digit(chars@[a]),
            v == digits_value(s.subrange(0, i as int)),
        decreases n - i,
    {
        assert(s.subrange(0, i as int + 1).drop_last() =~= s.subrange(0, i as int));
        let d = (chars[i] as u32 - '0' as u32) as u64;
        if v > (u64::MAX - d) / 10 {
            proof {
                lemma_digits_value_monotone(s, i as int + 1);
            }
            return None;
        }
        v = v * 10 + d;
        i = i + 1;
    }
    assert(s.subrange(0, n as int) =~= s);
    proof {
        lemma_digits_value_nonneg(s);
    }
    Some(v)
}

} // verus!
