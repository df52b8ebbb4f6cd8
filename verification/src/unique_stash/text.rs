//! The text form of a key: `<offset>/<version>`, in decimal, without
//! leading zeros. Each key has one text, and no other text is a key.

use vstd::prelude::*;
use crate::unique_stash::tag::Tag;

verus! {

/// The byte `/`, which parts offset and version.
pub const SEPARATOR: u8 = 47;

/// The byte `0`.
pub const ZERO: u8 = 48;

/// The digit `0` to `9` that a byte stands for, where it is one.
pub open spec fn digit_value(b: u8) -> Option<nat> {
    if ZERO <= b <= ZERO + 9 {
        Some((b - ZERO) as nat)
    } else {
        None
    }
}

/// The decimal numeral of `n`, without leading zeros.
pub open spec fn decimal(n: nat) -> Seq<u8>
    decreases n,
{
    if n < 10 {
        seq![(ZERO + n) as u8]
    } else {
        decimal(n / 10).push((ZERO + n % 10) as u8)
    }
}

/// The text of a key.
pub open spec fn text(tag: Tag) -> Seq<u8> {
    decimal(tag.idx as nat) + seq![SEPARATOR] + decimal(tag.ver as nat)
}

/// The key that a text stands for, if it is the text of one.
pub open spec fn parsed(s: Seq<u8>) -> Option<Tag> {
    if exists|tag: Tag| text(tag) == s {
        Some(choose|tag: Tag| text(tag) == s)
    } else {
        None
    }
}

/// A numeral: one digit at least, nothing but digits, and no leading zero
/// but in `0` itself.
pub open spec fn numeral(s: Seq<u8>) -> bool {
    &&& s.len() > 0
    &&& forall|i: int| 0 <= i < s.len() ==> digit_value(#[trigger] s[i]) is Some
    &&& s.len() > 1 ==> s[0] != ZERO
}

/// The number that a sequence of digits reads as.
pub open spec fn number(s: Seq<u8>) -> nat
    decreases s.len(),
{
    if s.len() == 0 {
        0
    } else {
        number(s.drop_last()) * 10 + match digit_value(s.last()) {
            Some(d) => d,
            None => 0,
        }
    }
}

/// The decimal of a number is a numeral that reads as the number.
pub proof fn lemma_decimal(n: nat)
    ensures
        numeral(decimal(n)),
        number(decimal(n)) == n,
        n > 0 ==> decimal(n)[0] != ZERO,
    decreases n,
{
    if n < 10 {
        assert(decimal(n).drop_last() =~= Seq::<u8>::empty());
        assert(number(decimal(n).drop_last()) == 0);
    } else {
        lemma_decimal(n / 10);
        assert(decimal(n).drop_last() =~= decimal(n / 10));
    }
}

/// A numeral is the decimal of the number it reads as.
pub proof fn lemma_numeral(s: Seq<u8>)
    requires
        numeral(s),
    ensures
        decimal(number(s)) == s,
        s[0] != ZERO ==> number(s) > 0,
    decreases s.len(),
{
    if s.len() == 1 {
        assert(s.drop_last() =~= Seq::<u8>::empty());
        assert(number(s.drop_last()) == 0);
        assert(decimal(number(s)) =~= s);
    } else {
        let head = s.drop_last();
        assert(head[0] == s[0]);
        assert(numeral(head)) by {
            assert forall|i: int| 0 <= i < head.len() implies digit_value(
                #[trigger] head[i],
            ) is Some by {
                assert(head[i] == s[i]);
            }
        }
        lemma_numeral(head);
        assert(decimal(number(s)) =~= s);
    }
}

/// Reading more digits does not give less.
pub proof fn lemma_number_grows(s: Seq<u8>, k: int)
    requires
        0 <= k <= s.len(),
    ensures
        number(s.subrange(0, k)) <= number(s),
    decreases s.len() - k,
{
    if k == s.len() {
        assert(s.subrange(0, k) =~= s);
    } else {
        lemma_number_grows(s.drop_last(), k);
        assert(s.drop_last().subrange(0, k) =~= s.subrange(0, k));
    }
}

/// The text of a key has its one separator behind the numeral of the
/// offset, and the numeral of the version behind that.
pub proof fn lemma_text_parts(tag: Tag)
    ensures
        decimal(tag.idx as nat).len() < text(tag).len(),
        text(tag)[decimal(tag.idx as nat).len() as int] == SEPARATOR,
        forall|i: int| 0 <= i < decimal(tag.idx as nat).len() ==> text(tag)[i] != SEPARATOR,
        text(tag).subrange(0, decimal(tag.idx as nat).len() as int) == decimal(tag.idx as nat),
        text(tag).subrange(decimal(tag.idx as nat).len() as int + 1, text(tag).len() as int) == decimal(
            tag.ver as nat,
        ),
{
    let left = decimal(tag.idx as nat);
    let right = decimal(tag.ver as nat);
    lemma_decimal(tag.idx as nat);
    assert forall|i: int| 0 <= i < left.len() implies text(tag)[i] != SEPARATOR by {
        assert(text(tag)[i] == left[i]);
        assert(digit_value(left[i]) is Some);
    }
    assert(text(tag).subrange(0, left.len() as int) =~= left);
    assert(text(tag).subrange(left.len() as int + 1, text(tag).len() as int) =~= right);
}

/// The text of a key is ASCII.
pub proof fn lemma_text_ascii(tag: Tag)
    ensures
        forall|i: int| 0 <= i < text(tag).len() ==> text(tag)[i] < 128,
{
    lemma_decimal(tag.idx as nat);
    lemma_decimal(tag.ver as nat);
    let left = decimal(tag.idx as nat);
    let right = decimal(tag.ver as nat);
    assert forall|i: int| 0 <= i < text(tag).len() implies text(tag)[i] < 128 by {
        if i < left.len() {
            assert(text(tag)[i] == left[i]);
            assert(digit_value(left[i]) is Some);
        } else if i > left.len() {
            assert(text(tag)[i] == right[i - left.len() - 1]);
            assert(digit_value(right[i - left.len() - 1]) is Some);
        }
    }
}

/// Two keys with the same text are the same key.
pub proof fn lemma_text_injective(a: Tag, b: Tag)
    requires
        text(a) == text(b),
    ensures
        a == b,
{
    lemma_text_parts(a);
    lemma_text_parts(b);
    let p = decimal(a.idx as nat).len();
    let q = decimal(b.idx as nat).len();
    if p < q {
        assert(text(b)[p as int] != SEPARATOR);
    }
    if q < p {
        assert(text(a)[q as int] != SEPARATOR);
    }
    lemma_decimal(a.idx as nat);
    lemma_decimal(b.idx as nat);
    lemma_decimal(a.ver as nat);
    lemma_decimal(b.ver as nat);
}

/// The round trip: the text of a key stands for that key, and a text that
/// stands for a key is the text of that key.
pub proof fn lemma_round_trip(tag: Tag, s: Seq<u8>)
    ensures
        parsed(text(tag)) == Some(tag),
        parsed(s) == Some(tag) <==> s == text(tag),
{
    lemma_parsed_text(tag);
    if parsed(s) == Some(tag) {
        let found = choose|t: Tag| text(t) == s;
        assert(text(found) == s);
    }
}

/// The text of a key stands for that key.
proof fn lemma_parsed_text(tag: Tag)
    ensures
        parsed(text(tag)) == Some(tag),
{
    let found = choose|t: Tag| text(t) == text(tag);
    assert(text(tag) == text(tag));
    lemma_text_injective(found, tag);
}

/// Reads the bytes of `bytes` from `start` up to `end` as a numeral that
/// fits in 64 bits.
fn read_numeral(bytes: &[u8], start: usize, end: usize) -> (res: Option<u64>)
    requires
        start <= end <= bytes@.len(),
    ensures
        match res {
            Some(n) => numeral(bytes@.subrange(start as int, end as int)) && n == number(
                bytes@.subrange(start as int, end as int),
            ),
            None => !numeral(bytes@.subrange(start as int, end as int)) || number(
                bytes@.subrange(start as int, end as int),
            ) > u64::MAX,
        },
{
    let ghost s = bytes@.subrange(start as int, end as int);
    if start == end {
        return None;
    }
    if end - start > 1 && bytes[start] == ZERO {
        assert(s[0] == bytes@[start as int]);
        return None;
    }
    let mut acc: u64 = 0;
    let mut i: usize = start;
    while i < end
        invariant
            start <= i <= end <= bytes@.len(),
            s == bytes@.subrange(start as int, end as int),
            forall|j: int| 0 <= j < i - start ==> digit_value(#[trigger] s[j]) is Some,
            acc == number(s.subrange(0, i - start)),
        decreases end - i,
    {
        let b = bytes[i];
        assert(s[i - start] == b);
        if b < ZERO || b > ZERO + 9 {
            return None;
        }
        let d = (b - ZERO) as u64;
        proof {
            let next = s.subrange(0, i - start + 1);
            assert(next.drop_last() =~= s.subrange(0, i - start));
            assert(next.last() == b);
            assert(number(next) == acc * 10 + d);
            lemma_number_grows(s, i - start + 1);
        }
        if acc > (u64::MAX - d) / 10 {
            return None;
        }
        acc = acc * 10 + d;
        i += 1;
    }
    proof {
        assert(s.subrange(0, end - start) =~= s);
    }
    Some(acc)
}

/// Appends the decimal numeral of `n` to `out`.
fn write_decimal(out: &mut Vec<u8>, n: u64)
    ensures
        final(out)@ == old(out)@ + decimal(n as nat),
    decreases n,
{
    if n >= 10 {
        write_decimal(out, n / 10);
    }
    out.push(ZERO + (n % 10) as u8);
}

/// Reads a text as a key: `Ok` for the one text of each key, `Err` for any
/// other sequence of bytes.
pub fn read_tag(bytes: &[u8]) -> (res: Result<Tag, ()>)
    ensures
        match res {
            Ok(tag) => parsed(bytes@) == Some(tag),
            Err(_) => parsed(bytes@) is None,
        },
{
    let mut p: usize = 0;
    while p < bytes.len() && bytes[p] != SEPARATOR
        invariant
            p <= bytes@.len(),
            forall|j: int| 0 <= j < p ==> bytes@[j] != SEPARATOR,
        decreases bytes@.len() - p,
    {
        p += 1;
    }
    if p == bytes.len() {
        proof {
            assert forall|tag: Tag| text(tag) != bytes@ by {
                lemma_text_parts(tag);
            }
        }
        return Err(());
    }
    let left = read_numeral(bytes, 0, p);
    let right = read_numeral(bytes, p + 1, bytes.len());
    proof {
        assert forall|tag: Tag| text(tag) == bytes@ implies decimal(tag.idx as nat)
            == bytes@.subrange(0, p as int) && decimal(tag.ver as nat) == bytes@.subrange(
            p + 1,
            bytes@.len() as int,
        ) by {
            lemma_text_parts(tag);
            let q = decimal(tag.idx as nat).len();
            if q < p {
                assert(bytes@[q as int] == SEPARATOR);
            }
            if p < q {
                assert(text(tag)[p as int] != SEPARATOR);
            }
        }
    }
    match (left, right) {
        (Some(offset), Some(version)) => {
            if offset > usize::MAX as u64 {
                proof {
                    assert forall|tag: Tag| text(tag) != bytes@ by {
                        lemma_decimal(tag.idx as nat);
                    }
                }
                return Err(());
            }
            let tag = Tag { idx: offset as usize, ver: version };
            proof {
                lemma_numeral(bytes@.subrange(0, p as int));
                lemma_numeral(bytes@.subrange(p + 1, bytes@.len() as int));
                assert(text(tag) =~= bytes@);
                lemma_round_trip(tag, bytes@);
            }
            Ok(tag)
        },
        (None, _) => {
            proof {
                assert forall|tag: Tag| text(tag) != bytes@ by {
                    lemma_decimal(tag.idx as nat);
                }
            }
            Err(())
        },
        (_, None) => {
            proof {
                assert forall|tag: Tag| text(tag) != bytes@ by {
                    lemma_decimal(tag.ver as nat);
                }
            }
            Err(())
        },
    }
}

/// Writes the text of a key.
pub fn write_tag(tag: Tag) -> (bytes: Vec<u8>)
    ensures
        bytes@ == text(tag),
{
    let mut bytes = Vec::new();
    write_decimal(&mut bytes, tag.idx as u64);
    bytes.push(SEPARATOR);
    write_decimal(&mut bytes, tag.ver);
    bytes
}

} // verus!
