//! Text in the header: UTF-8 decoding, decimal numbers, and joined paths.

use vstd::prelude::*;
use vstd::string::StringExecFns;
use vstd::utf8::{decode_utf8, is_ascii_chars, is_ascii_chars_encode_utf8, valid_utf8};

verus! {

/// `std::str::from_utf8`: the text that the bytes encode, or `None` where they
/// are not valid UTF-8.
#[verifier::external_body]
pub(crate) fn utf8_text(bytes: &[u8]) -> (r: Option<&str>)
    ensures
        match r {
            Some(s) => valid_utf8(bytes@) && s@ == decode_utf8(bytes@),
            None => !valid_utf8(bytes@),
        },
{
    std::str::from_utf8(bytes).ok()
}

/// Whether a character is one of `0` to `9`.
pub open spec fn is_digit(c: char) -> bool {
    '0' <= c <= '9'
}

/// Whether every character is a decimal digit.
pub open spec fn all_digits(s: Seq<char>) -> bool {
    forall|i: int| 0 <= i < s.len() ==> is_digit(#[trigger] s[i])
}

/// The number that a sequence of decimal digits stands for.
pub open spec fn digits_value(s: Seq<char>) -> nat
    decreases s.len(),
{
    if s.len() == 0 {
        0
    } else {
        10 * digits_value(s.drop_last()) + (s.last() as nat - '0' as nat) as nat
    }
}

/// The digits of a decimal number: the text without a leading `+`.
pub open spec fn digits_of(text: Seq<char>) -> Seq<char> {
    if text.len() > 0 && text[0] == '+' {
        text.skip(1)
    } else {
        text
    }
}

/// The number that a text stands for: an optional `+`, then one or more
/// decimal digits, the whole no greater than `u64::MAX`. Any other text
/// stands for no number.
pub open spec fn decimal(text: Seq<char>) -> Option<u64> {
    let digits = digits_of(text);
    if digits.len() > 0 && all_digits(digits) && digits_value(digits) <= u64::MAX {
        Some(digits_value(digits) as u64)
    } else {
        None
    }
}

/// A longer run of digits stands for a number at least as large as each of
/// its prefixes.
pub proof fn lemma_digits_value_prefix(s: Seq<char>, n: int)
    requires
        0 <= n <= s.len(),
        all_digits(s),
    ensures
        digits_value(s.take(n)) <= digits_value(s),
    decreases s.len() - n,
{
    if n == s.len() {
        assert(s.take(n) =~= s);
    } else {
        lemma_digits_value_prefix(s, n + 1);
        assert(s.take(n + 1).drop_last() =~= s.take(n));
    }
}

/// Reads a decimal number.
pub fn parse_decimal(text: &str) -> (r: Option<u64>)
    ensures
        r == decimal(text@),
{
    if !text.is_ascii() {
        proof {
            let i = choose|i: int| 0 <= i < text@.len() && !('\0' <= #[trigger] text@[i] <= '\u{7f}');
            if i == 0 {
                assert(!is_digit(digits_of(text@)[0]));
            } else {
                let d = digits_of(text@);
                if d.len() == text@.len() {
                    assert(!is_digit(d[i]));
                } else {
                    assert(!is_digit(d[i - 1]));
                }
            }
        }
        return None;
    }
    let bytes = text.as_bytes();
    proof {
        is_ascii_chars_encode_utf8(text@);
    }
    let start: usize = if bytes.len() > 0 && bytes[0] == 0x2b {
        1
    } else {
        0
    };
    let ghost digits = digits_of(text@);
    assert(digits =~= text@.skip(start as int));
    if start == bytes.len() {
        return None;
    }
    let mut value: u64 = 0;
    let mut i: usize = start;
    while i < bytes.len()
        invariant
            start <= i <= bytes.len(),
            bytes@.len() == text@.len(),
            forall|k: int| 0 <= k < text@.len() ==> text@[k] as u8 == #[trigger] bytes@[k],
            is_ascii_chars(text@),
            digits == digits_of(text@),
            digits == text@.skip(start as int),
            all_digits(digits.take(i - start)),
            value == digits_value(digits.take(i - start)),
        decreases bytes.len() - i,
    {
        let b = bytes[i];
        let ghost next = digits.take(i - start + 1);
        assert(next.drop_last() =~= digits.take(i - start));
        assert(next.last() == text@[i as int]);
        if b < 0x30 || b > 0x39 {
            assert(!is_digit(digits[i - start]));
            return None;
        }
        assert(is_digit(text@[i as int]));
        let d: u64 = (b - 0x30) as u64;
        assert(d == (text@[i as int] as nat - '0' as nat));
        if value > (u64::MAX - d) / 10 {
            proof {
                if all_digits(digits) {
                    lemma_digits_value_prefix(digits, i - start + 1);
                }
            }
            return None;
        }
        value = 10 * value + d;
        assert(all_digits(next));
        i += 1;
    }
    assert(digits.take(i - start) =~= digits);
    Some(value)
}

/// The path of an entry called `name` in the directory `dir`.
pub open spec fn joined(dir: Seq<char>, name: Seq<char>) -> Seq<char> {
    dir + seq!['/'] + name
}

/// Whether a name has no `/` in it.
pub open spec fn plain(name: Seq<char>) -> bool {
    forall|i: int| 0 <= i < name.len() ==> name[i] != '/'
}

/// The path of the entry that is reached from `base` through the
/// directories `names`, outermost first.
pub open spec fn path_of(base: Seq<char>, names: Seq<Seq<char>>) -> Seq<char>
    decreases names.len(),
{
    if names.len() == 0 {
        base
    } else {
        path_of(joined(base, names[0]), names.drop_first())
    }
}

/// What a path adds to its base: each name with a `/` in front of it.
pub open spec fn tail_of(names: Seq<Seq<char>>) -> Seq<char>
    decreases names.len(),
{
    if names.len() == 0 {
        Seq::empty()
    } else {
        seq!['/'] + names[0] + tail_of(names.drop_first())
    }
}

/// A path is its base and then its tail.
pub proof fn lemma_path_is_base_and_tail(base: Seq<char>, names: Seq<Seq<char>>)
    ensures
        path_of(base, names) == base + tail_of(names),
        names.len() > 0 ==> tail_of(names).len() > 0 && tail_of(names)[0] == '/',
    decreases names.len(),
{
    if names.len() == 0 {
        assert(base + tail_of(names) =~= base);
    } else {
        lemma_path_is_base_and_tail(joined(base, names[0]), names.drop_first());
        assert(joined(base, names[0]) + tail_of(names.drop_first()) =~= base + tail_of(names));
    }
}

/// A plain name is set off from whatever follows it in a path: two names,
/// each followed by nothing or by a `/`, that give the same text are the
/// same name.
pub proof fn lemma_name_is_set_off(a: Seq<char>, after_a: Seq<char>, b: Seq<char>, after_b: Seq<char>)
    requires
        plain(a),
        plain(b),
        after_a.len() > 0 ==> after_a[0] == '/',
        after_b.len() > 0 ==> after_b[0] == '/',
        a + after_a == b + after_b,
    ensures
        a == b,
        after_a == after_b,
{
    let whole = a + after_a;
    if a.len() < b.len() {
        assert(whole[a.len() as int] == b[a.len() as int]);
        assert(after_a.len() > 0);
        assert(whole[a.len() as int] == after_a[0]);
        assert(false);
    }
    if b.len() < a.len() {
        assert(whole[b.len() as int] == a[b.len() as int]);
        assert((b + after_b)[b.len() as int] == after_b[0]);
        assert(false);
    }
    assert(a =~= whole.subrange(0, a.len() as int));
    assert(b =~= whole.subrange(0, a.len() as int));
    assert(after_a =~= whole.subrange(a.len() as int, whole.len() as int));
    assert(after_b =~= whole.subrange(a.len() as int, whole.len() as int));
}

/// Entries of two directory members with different plain names, and all
/// that lies below them, have different paths.
pub proof fn lemma_siblings_lie_apart(
    dir: Seq<char>,
    a: Seq<char>,
    below_a: Seq<Seq<char>>,
    b: Seq<char>,
    below_b: Seq<Seq<char>>,
)
    requires
        plain(a),
        plain(b),
        a != b,
    ensures
        path_of(joined(dir, a), below_a) != path_of(joined(dir, b), below_b),
{
    lemma_path_is_base_and_tail(joined(dir, a), below_a);
    lemma_path_is_base_and_tail(joined(dir, b), below_b);
    let left = joined(dir, a) + tail_of(below_a);
    let right = joined(dir, b) + tail_of(below_b);
    if left == right {
        let front = dir + seq!['/'];
        assert(left =~= front + (a + tail_of(below_a)));
        assert(right =~= front + (b + tail_of(below_b)));
        assert((a + tail_of(below_a)) =~= left.subrange(front.len() as int, left.len() as int));
        assert((b + tail_of(below_b)) =~= right.subrange(front.len() as int, right.len() as int));
        lemma_name_is_set_off(a, tail_of(below_a), b, tail_of(below_b));
    }
}

/// What lies below a directory has a longer path than the directory.
pub proof fn lemma_below_is_longer(base: Seq<char>, names: Seq<Seq<char>>)
    requires
        names.len() > 0,
    ensures
        path_of(base, names).len() > base.len(),
{
    lemma_path_is_base_and_tail(base, names);
}

/// Two runs of plain names that lead from one base to the same path are
/// the same names.
pub proof fn lemma_names_are_told_by_path(base: Seq<char>, left: Seq<Seq<char>>, right: Seq<Seq<char>>)
    requires
        forall|i: int| 0 <= i < left.len() ==> plain(#[trigger] left[i]),
        forall|i: int| 0 <= i < right.len() ==> plain(#[trigger] right[i]),
        path_of(base, left) == path_of(base, right),
    ensures
        left == right,
    decreases left.len(),
{
    if left.len() == 0 {
        if right.len() > 0 {
            lemma_below_is_longer(base, right);
        }
        assert(left =~= right);
    } else if right.len() == 0 {
        lemma_below_is_longer(base, left);
    } else {
        let left_rest = left.drop_first();
        let right_rest = right.drop_first();
        assert(plain(left[0]) && plain(right[0]));
        if left[0] != right[0] {
            lemma_siblings_lie_apart(base, left[0], left_rest, right[0], right_rest);
        }
        assert forall|i: int| 0 <= i < left_rest.len() implies plain(#[trigger] left_rest[i]) by {
            assert(left_rest[i] == left[i + 1]);
        }
        assert forall|i: int| 0 <= i < right_rest.len() implies plain(#[trigger] right_rest[i]) by {
            assert(right_rest[i] == right[i + 1]);
        }
        lemma_names_are_told_by_path(joined(base, left[0]), left_rest, right_rest);
        assert(left =~= seq![left[0]] + left_rest);
        assert(right =~= seq![right[0]] + right_rest);
    }
}

/// Joins a directory and a name with a `/` between them.
pub fn join_path(dir: &str, name: &str) -> (path: String)
    ensures
        path@ == joined(dir@, name@),
{
    let mut path = String::from_str(dir);
    path.append("/");
    path.append(name);
    proof {
        reveal_strlit("/");
        assert("/"@ =~= seq!['/']);
    }
    path
}

} // verus!
