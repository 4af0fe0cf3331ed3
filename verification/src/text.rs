//! Text: joining, numbers, prefixes, order and letter case.

use itertools::Itertools;
use vstd::prelude::*;
use vstd::std_specs::iter::IteratorSpec;
use vstd::utf8::{
    decode_utf8, encode_utf8, encode_utf8_decode_utf8, encode_utf8_first_scalar,
    encode_utf8_valid_utf8, is_char_boundary, pop_first_scalar,
};

verus! {

/// A text as a sequence of its characters.
pub type Text = Seq<char>;

/// The views of a list of strings.
pub open spec fn texts(list: Seq<String>) -> Seq<Text> {
    Seq::new(list.len(), |i: int| list[i]@)
}

/// The parts one after the other, with the separator between neighbours.
pub open spec fn join(parts: Seq<Text>, separator: Text) -> Text
    decreases parts.len(),
{
    if parts.len() == 0 {
        Seq::empty()
    } else if parts.len() == 1 {
        parts[0]
    } else {
        parts[0] + separator + join(parts.skip(1), separator)
    }
}

/// `Itertools::join` over the strings of a list. Believed of it: it writes the first string and
/// then, for each of the others, the separator and the string.
#[verifier::external_body]
pub(crate) fn join_texts(parts: &Vec<String>, separator: &str) -> (joined: String)
    ensures
        joined@ == join(texts(parts@), separator@),
{
    parts.iter().join(separator)
}

/// The decimal digit of a number below ten.
pub open spec fn digit(n: nat) -> char
    recommends
        n < 10,
{
    ('0' as u32 + n) as char
}

/// A number in decimal, without leading zeros.
pub open spec fn decimal(n: nat) -> Text
    decreases n,
{
    if n < 10 {
        seq![digit(n)]
    } else {
        decimal(n / 10).push(digit(n % 10))
    }
}

fn digit_text(n: u128) -> (text: &'static str)
    requires
        n < 10,
    ensures
        text@ == seq![digit(n as nat)],
{
    proof {
        reveal_strlit("0");
        reveal_strlit("1");
        reveal_strlit("2");
        reveal_strlit("3");
        reveal_strlit("4");
        reveal_strlit("5");
        reveal_strlit("6");
        reveal_strlit("7");
        reveal_strlit("8");
        reveal_strlit("9");
    }
    let text = match n {
        0 => "0",
        1 => "1",
        2 => "2",
        3 => "3",
        4 => "4",
        5 => "5",
        6 => "6",
        7 => "7",
        8 => "8",
        _ => "9",
    };
    assert(text@ =~= seq![digit(n as nat)]);
    text
}

/// Writes a number in decimal.
pub fn decimal_text(n: u128) -> (text: String)
    ensures
        text@ == decimal(n as nat),
    decreases n,
{
    if n < 10 {
        digit_text(n).to_owned()
    } else {
        let mut text = decimal_text(n / 10);
        text.append(digit_text(n % 10));
        assert(text@ =~= decimal(n as nat));
        text
    }
}

/// Whether two strings hold the same text.
pub fn same_text(a: &str, b: &str) -> (same: bool)
    ensures
        same == (a@ == b@),
{
    let mut left = a.chars();
    let mut right = b.chars();
    let ghost mut seen: int = 0;
    assert(a@.skip(0) =~= a@);
    assert(b@.skip(0) =~= b@);
    loop
        invariant
            0 <= seen <= a@.len(),
            seen <= b@.len(),
            left.remaining() == a@.skip(seen),
            right.remaining() == b@.skip(seen),
            forall|i: int| 0 <= i < seen ==> a@[i] == b@[i],
        decreases a@.len() - seen,
    {
        match (left.next(), right.next()) {
            (Some(x), Some(y)) => {
                if x != y {
                    assert(a@[seen] == x && b@[seen] == y);
                    return false;
                }
                assert(a@.skip(seen).drop_first() =~= a@.skip(seen + 1));
                assert(b@.skip(seen).drop_first() =~= b@.skip(seen + 1));
                proof {
                    seen = seen + 1;
                }
            },
            (None, None) => {
                assert(a@ =~= b@);
                return true;
            },
            _ => {
                return false;
            },
        }
    }
}

/// Whether a string begins with another one.
pub fn starts_with(text: &str, prefix: &str) -> (begins: bool)
    ensures
        begins == prefix@.is_prefix_of(text@),
{
    let mut left = text.chars();
    let mut right = prefix.chars();
    let ghost mut seen: int = 0;
    assert(text@.skip(0) =~= text@);
    assert(prefix@.skip(0) =~= prefix@);
    loop
        invariant
            0 <= seen <= text@.len(),
            seen <= prefix@.len(),
            left.remaining() == text@.skip(seen),
            right.remaining() == prefix@.skip(seen),
            forall|i: int| 0 <= i < seen ==> text@[i] == prefix@[i],
        decreases text@.len() - seen,
    {
        match right.next() {
            None => {
                assert(prefix@ =~= text@.subrange(0, prefix@.len() as int));
                return true;
            },
            Some(y) => {
                match left.next() {
                    None => {
                        return false;
                    },
                    Some(x) => {
                        if x != y {
                            assert(text@[seen] == x && prefix@[seen] == y);
                            proof {
                                if prefix@.len() <= text@.len() {
                                    assert(text@.subrange(0, prefix@.len() as int)[seen] == x);
                                }
                            }
                            return false;
                        }
                        assert(text@.skip(seen).drop_first() =~= text@.skip(seen + 1));
                        assert(prefix@.skip(seen).drop_first() =~= prefix@.skip(seen + 1));
                        proof {
                            seen = seen + 1;
                        }
                    },
                }
            },
        }
    }
}

/// Whether a string ends with a character.
pub fn ends_with(text: &str, c: char) -> (ends: bool)
    ensures
        ends == (text@.len() > 0 && text@.last() == c),
{
    let mut rest = text.chars();
    let mut ends = false;
    let ghost mut seen: int = 0;
    assert(text@.skip(0) =~= text@);
    loop
        invariant
            0 <= seen <= text@.len(),
            rest.remaining() == text@.skip(seen),
            ends == (seen > 0 && text@[seen - 1] == c),
        decreases text@.len() - seen,
    {
        match rest.next() {
            None => {
                return ends;
            },
            Some(x) => {
                ends = x == c;
                assert(text@[seen] == x);
                assert(text@.skip(seen).drop_first() =~= text@.skip(seen + 1));
                proof {
                    seen = seen + 1;
                }
            },
        }
    }
}

/// The text left after the first `n` bytes of its UTF-8 form.
pub open spec fn after_bytes(text: Text, n: nat) -> Text {
    decode_utf8(encode_utf8(text).skip(n as int))
}

/// The text in the first `n` bytes of its UTF-8 form.
pub open spec fn first_bytes(text: Text, n: nat) -> Text {
    decode_utf8(encode_utf8(text).take(n as int))
}

/// Whether the UTF-8 form of a text can be cut behind its first `n` bytes.
pub open spec fn can_cut(text: Text, n: nat) -> bool {
    n <= encode_utf8(text).len() && is_char_boundary(encode_utf8(text), n as int)
}

/// The number of bytes of a text in UTF-8.
pub open spec fn byte_len(text: Text) -> nat {
    encode_utf8(text).len()
}

/// Tells whether a string can be cut behind its first `n` bytes.
pub fn cuts_at(text: &str, n: usize) -> (cuts: bool)
    ensures
        cuts == can_cut(text@, n as nat),
{
    n <= text.as_bytes().len() && text.is_char_boundary(n)
}

/// Drops the first `n` bytes of a string.
pub fn drop_bytes(text: &str, n: usize) -> (rest: String)
    requires
        can_cut(text@, n as nat),
    ensures
        rest@ == after_bytes(text@, n as nat),
{
    let (_, rest) = text.split_at(n);
    proof {
        encode_utf8_decode_utf8(rest@);
        assert(encode_utf8(rest@) =~= encode_utf8(text@).skip(n as int));
    }
    rest.to_owned()
}

/// Keeps the first `n` bytes of a string, and the whole string where it has no more.
pub fn keep_bytes(text: &str, n: usize) -> (kept: String)
    requires
        byte_len(text@) <= n || can_cut(text@, n as nat),
    ensures
        kept@ == if byte_len(text@) <= n {
            text@
        } else {
            first_bytes(text@, n as nat)
        },
{
    if text.as_bytes().len() <= n {
        text.to_owned()
    } else {
        let (kept, _) = text.split_at(n);
        proof {
            encode_utf8_decode_utf8(kept@);
            assert(encode_utf8(kept@) =~= encode_utf8(text@).take(n as int));
        }
        kept.to_owned()
    }
}

/// UTF-8 encodes a text piece by piece.
pub proof fn lemma_encode_concat(a: Text, b: Text)
    ensures
        encode_utf8(a + b) == encode_utf8(a) + encode_utf8(b),
    decreases a.len(),
{
    if a.len() == 0 {
        assert(a + b =~= b);
        assert(encode_utf8(a) =~= Seq::<u8>::empty());
        assert(encode_utf8(a) + encode_utf8(b) =~= encode_utf8(b));
    } else {
        assert((a + b).drop_first() =~= a.drop_first() + b);
        lemma_encode_concat(a.drop_first(), b);
        assert(encode_utf8(a + b) =~= encode_utf8(a) + encode_utf8(b));
    }
}

/// Dropping the bytes of a prefix leaves what follows it.
pub proof fn lemma_after_prefix(prefix: Text, rest: Text)
    ensures
        can_cut(prefix + rest, byte_len(prefix)),
        after_bytes(prefix + rest, byte_len(prefix)) == rest,
{
    lemma_encode_concat(prefix, rest);
    let whole = encode_utf8(prefix + rest);
    assert(whole.skip(byte_len(prefix) as int) =~= encode_utf8(rest));
    encode_utf8_decode_utf8(rest);
    lemma_prefix_boundary(prefix, rest);
}

/// The end of a prefix is a character boundary.
proof fn lemma_prefix_boundary(prefix: Text, rest: Text)
    ensures
        is_char_boundary(encode_utf8(prefix + rest), byte_len(prefix) as int),
    decreases prefix.len(),
{
    let whole = prefix + rest;
    encode_utf8_valid_utf8(whole);
    lemma_encode_concat(prefix, rest);
    if prefix.len() > 0 {
        encode_utf8_first_scalar(whole);
        assert(whole.drop_first() =~= prefix.drop_first() + rest);
        assert(pop_first_scalar(encode_utf8(whole)) =~= encode_utf8(whole.drop_first()));
        lemma_prefix_boundary(prefix.drop_first(), rest);
    }
}

/// Whether a text comes before another one: at the first place where they differ it has the
/// smaller code point, or it ends there.
pub open spec fn precedes(a: Text, b: Text) -> bool
    decreases a.len(),
{
    if b.len() == 0 {
        false
    } else if a.len() == 0 {
        true
    } else if a[0] != b[0] {
        (a[0] as int) < (b[0] as int)
    } else {
        precedes(a.skip(1), b.skip(1))
    }
}

/// `Itertools::sorted` over owned strings. Believed of it: the strings that come out are those
/// that went in, none before one that precedes it. (`String` is ordered by the bytes of its UTF-8
/// form, which is the order of the code points.)
#[verifier::external_body]
pub(crate) fn sorted_texts(list: Vec<String>) -> (sorted: Vec<String>)
    ensures
        texts(sorted@).to_multiset() == texts(list@).to_multiset(),
        forall|i: int, j: int|
            0 <= i < j < sorted@.len() ==> !precedes(
                #[trigger] texts(sorted@)[j],
                #[trigger] texts(sorted@)[i],
            ),
{
    list.into_iter().sorted().collect()
}

/// What `str::to_lowercase` makes of a text.
pub uninterp spec fn lowercase(text: Text) -> Text;

/// `str::to_lowercase`. Believed of it: its result depends on the text alone.
#[verifier::external_body]
pub(crate) fn lowercase_text(text: &str) -> (lower: String)
    ensures
        lower@ == lowercase(text@),
{
    text.to_lowercase()
}

} // verus!
