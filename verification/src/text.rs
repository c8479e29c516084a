//! Texts as sequences of characters: their order, and cutting one at a line break.
//!
//! Everything here speaks of a string through its view, the sequence of its
//! characters. Texts are ordered character by character, a character before
//! another when its code point is smaller, and a proper prefix before the text
//! it is a prefix of.

use vstd::prelude::*;
use vstd::std_specs::iter::IteratorSpec;
use vstd::string::StringSliceAdditionalSpecFns;
use vstd::utf8::*;

verus! {

/// How one text stands to another in the order of texts.
#[derive(Clone, Copy, Debug, PartialEq, Eq, Structural)]
pub enum Rank {
    Before,
    Same,
    After,
}

/// `a` comes strictly before `b` in the order of texts.
pub open spec fn precedes(a: Seq<char>, b: Seq<char>) -> bool
    decreases a.len(),
{
    if b.len() == 0 {
        false
    } else if a.len() == 0 {
        true
    } else if a[0] != b[0] {
        (a[0] as u32) < (b[0] as u32)
    } else {
        precedes(a.drop_first(), b.drop_first())
    }
}

/// The rank of `a` against `b`.
pub open spec fn rank(a: Seq<char>, b: Seq<char>) -> Rank {
    if a == b {
        Rank::Same
    } else if precedes(a, b) {
        Rank::Before
    } else {
        Rank::After
    }
}

/// Every member of `q` comes before all members that follow it.
pub open spec fn strictly_ascending(q: Seq<Seq<char>>) -> bool {
    forall|i: int, j: int| 0 <= i < j < q.len() ==> precedes(#[trigger] q[i], #[trigger] q[j])
}

/// No text comes before itself.
pub proof fn lemma_precedes_irreflexive(a: Seq<char>)
    ensures
        !precedes(a, a),
    decreases a.len(),
{
    if a.len() > 0 {
        lemma_precedes_irreflexive(a.drop_first());
    }
}

/// Of two different texts one comes before the other.
pub proof fn lemma_precedes_total(a: Seq<char>, b: Seq<char>)
    ensures
        a == b || precedes(a, b) || precedes(b, a),
    decreases a.len(),
{
    if a.len() == 0 || b.len() == 0 {
        if a.len() == 0 && b.len() == 0 {
            assert(a =~= b);
        }
    } else if a[0] == b[0] {
        lemma_precedes_total(a.drop_first(), b.drop_first());
        if a.drop_first() == b.drop_first() {
            assert(a =~= seq![a[0]] + a.drop_first());
            assert(b =~= seq![b[0]] + b.drop_first());
        }
    } else {
        // Different characters have different code points.
        char_u32_cast(a[0], a[0] as u32);
        char_u32_cast(b[0], b[0] as u32);
    }
}

/// The order of texts is transitive.
pub proof fn lemma_precedes_transitive(a: Seq<char>, b: Seq<char>, c: Seq<char>)
    requires
        precedes(a, b),
        precedes(b, c),
    ensures
        precedes(a, c),
    decreases a.len(),
{
    if a.len() > 0 && a[0] == b[0] && b[0] == c[0] {
        lemma_precedes_transitive(a.drop_first(), b.drop_first(), c.drop_first());
    }
}

/// Two texts never come before each other.
pub proof fn lemma_precedes_asymmetric(a: Seq<char>, b: Seq<char>)
    requires
        precedes(a, b),
    ensures
        !precedes(b, a),
        a != b,
{
    if precedes(b, a) {
        lemma_precedes_transitive(a, b, a);
    }
    lemma_precedes_irreflexive(a);
}

/// Two strictly ascending listings of the same texts are the same listing.
pub proof fn lemma_ascending_unique(p: Seq<Seq<char>>, q: Seq<Seq<char>>)
    requires
        strictly_ascending(p),
        strictly_ascending(q),
        p.to_set() == q.to_set(),
    ensures
        p == q,
    decreases p.len(),
{
    if p.len() == 0 {
        if q.len() > 0 {
            assert(q.to_set().contains(q[0]));
            assert(p.contains(q[0]));
        }
        assert(p =~= q);
    } else if q.len() == 0 {
        assert(p.to_set().contains(p[0]));
        assert(q.contains(p[0]));
    } else {
        // Both begin with the least member.
        assert(p.to_set().contains(p[0]));
        assert(q.contains(p[0]));
        let j = choose|j: int| 0 <= j < q.len() && q[j] == p[0];
        assert(q.to_set().contains(q[0]));
        assert(p.contains(q[0]));
        let i = choose|i: int| 0 <= i < p.len() && p[i] == q[0];
        if j > 0 {
            assert(precedes(q[0], q[j]));
            if i > 0 {
                assert(precedes(p[0], p[i]));
                lemma_precedes_asymmetric(p[0], q[0]);
            }
            lemma_precedes_irreflexive(p[0]);
        }
        assert(p[0] == q[0]);
        let pt = p.drop_first();
        let qt = q.drop_first();
        assert forall|x: Seq<char>| pt.to_set().contains(x) <==> qt.to_set().contains(x) by {
            if pt.contains(x) {
                let k = choose|k: int| 0 <= k < pt.len() && pt[k] == x;
                assert(p[k + 1] == x);
                assert(precedes(p[0], p[k + 1]));
                lemma_precedes_asymmetric(p[0], x);
                assert(p.to_set().contains(x));
                assert(q.contains(x));
                let m = choose|m: int| 0 <= m < q.len() && q[m] == x;
                assert(qt[m - 1] == x);
            }
            if qt.contains(x) {
                let k = choose|k: int| 0 <= k < qt.len() && qt[k] == x;
                assert(q[k + 1] == x);
                assert(precedes(q[0], q[k + 1]));
                lemma_precedes_asymmetric(q[0], x);
                assert(q.to_set().contains(x));
                assert(p.contains(x));
                let m = choose|m: int| 0 <= m < p.len() && p[m] == x;
                assert(pt[m - 1] == x);
            }
        }
        assert(pt.to_set() =~= qt.to_set());
        assert forall|i: int, j: int| 0 <= i < j < pt.len() implies precedes(
            #[trigger] pt[i],
            #[trigger] pt[j],
        ) by {
            assert(precedes(p[i + 1], p[j + 1]));
        }
        assert forall|i: int, j: int| 0 <= i < j < qt.len() implies precedes(
            #[trigger] qt[i],
            #[trigger] qt[j],
        ) by {
            assert(precedes(q[i + 1], q[j + 1]));
        }
        lemma_ascending_unique(pt, qt);
        assert(p =~= seq![p[0]] + pt);
        assert(q =~= seq![q[0]] + qt);
    }
}

/// Texts that begin alike are the same where what follows is the same.
proof fn lemma_same_head(a: Seq<char>, b: Seq<char>)
    requires
        a.len() > 0,
        b.len() > 0,
        a[0] == b[0],
    ensures
        (a == b) == (a.drop_first() == b.drop_first()),
{
    if a.drop_first() == b.drop_first() {
        assert(a =~= seq![a[0]] + a.drop_first());
        assert(b =~= seq![b[0]] + b.drop_first());
    }
}

/// Ranks `a` against `b` in the order of texts.
pub fn collate(a: &str, b: &str) -> (r: Rank)
    ensures
        r == rank(a@, b@),
{
    broadcast use vstd::string::group_string_axioms;

    let mut left = a.chars();
    let mut right = b.chars();
    loop
        invariant
            precedes(a@, b@) == precedes(left.remaining(), right.remaining()),
            (a@ == b@) == (left.remaining() == right.remaining()),
            left.decrease() is Some,
        decreases left.decrease()->0,
    {
        let ghost l = left.remaining();
        let ghost r = right.remaining();
        let x = left.next();
        let y = right.next();
        match (x, y) {
            (None, None) => {
                assert(l =~= r);
                return Rank::Same;
            },
            (None, Some(_)) => {
                return Rank::Before;
            },
            (Some(_), None) => {
                return Rank::After;
            },
            (Some(c), Some(d)) => {
                if c != d {
                    return if (c as u32) < (d as u32) {
                        Rank::Before
                    } else {
                        Rank::After
                    };
                }
                assert((l == r) == (l.drop_first() == r.drop_first())) by {
                    lemma_same_head(l, r);
                }
            },
        }
    }
}

/// The number of characters of `text` that stand before its first line feed:
/// its whole length where it holds none.
pub open spec fn first_break(text: Seq<char>) -> int
    decreases text.len(),
{
    if text.len() == 0 || text[0] == '\n' {
        0
    } else {
        1 + first_break(text.drop_first())
    }
}

/// `line` without the carriage return that it ends in, if it ends in one.
pub open spec fn without_return(line: Seq<char>) -> Seq<char> {
    if line.len() > 0 && line.last() == '\r' {
        line.drop_last()
    } else {
        line
    }
}

/// The first break of a text lies within it, and no line feed stands before it.
pub proof fn lemma_first_break(text: Seq<char>)
    ensures
        0 <= first_break(text) <= text.len(),
        !text.take(first_break(text)).contains('\n'),
        first_break(text) < text.len() ==> text[first_break(text)] == '\n',
    decreases text.len(),
{
    if text.len() == 0 || text[0] == '\n' {
    } else {
        let rest = text.drop_first();
        lemma_first_break(rest);
        let k = first_break(rest);
        let head = text.take(k + 1);
        if head.contains('\n') {
            let i = choose|i: int| 0 <= i < head.len() && head[i] == '\n';
            assert(rest.take(k)[i - 1] == '\n');
        }
    }
}

/// A text in front of a line feed, itself free of line feeds, ends at the first break.
pub proof fn lemma_first_break_found(head: Seq<char>, rest: Seq<char>)
    requires
        !head.contains('\n'),
    ensures
        first_break(head + seq!['\n'] + rest) == head.len(),
        first_break(head) == head.len(),
    decreases head.len(),
{
    let whole = head + seq!['\n'] + rest;
    if head.len() == 0 {
        assert(whole[0] == '\n');
    } else {
        assert(head[0] != '\n');
        assert(whole[0] == head[0]);
        assert(whole.drop_first() =~= head.drop_first() + seq!['\n'] + rest);
        assert forall|c: char| head.drop_first().contains(c) implies head.contains(c) by {
            let i = choose|i: int| 0 <= i < head.drop_first().len() && head.drop_first()[i] == c;
            assert(head[i + 1] == c);
        }
        lemma_first_break_found(head.drop_first(), rest);
    }
}

/// The encoding of a character of the first 128 is the one byte of its code point.
proof fn lemma_encode_single(c: char)
    requires
        (c as u32) < 0x80,
    ensures
        encode_utf8(seq![c]) == seq![(c as u32) as u8],
{
    let v = c as u32;
    assert(leading_byte_width_1(v) == v as u8) by (bit_vector)
        requires
            v < 0x80,
    ;
    assert(seq![c].drop_first() =~= Seq::<char>::empty());
    reveal_with_fuel(encode_utf8, 2);
    assert(encode_utf8(seq![c]) =~= seq![v as u8]);
}

/// A text that holds a character of the first 128 has that character's byte in
/// its encoding.
proof fn lemma_byte_of_char(chars: Seq<char>, c: char)
    requires
        (c as u32) < 0x80,
        chars.contains(c),
    ensures
        encode_utf8(chars).contains((c as u32) as u8),
    decreases chars.len(),
{
    let i = choose|i: int| 0 <= i < chars.len() && chars[i] == c;
    let bytes = encode_utf8(chars);
    let v = c as u32;
    if chars[0] == c {
        assert(leading_byte_width_1(v) == v as u8) by (bit_vector)
            requires
                v < 0x80,
        ;
        assert(bytes[0] == v as u8);
    } else {
        let rest = chars.drop_first();
        assert(rest[i - 1] == c);
        lemma_byte_of_char(rest, c);
        let tail = encode_utf8(rest);
        let j = choose|j: int| 0 <= j < tail.len() && tail[j] == v as u8;
        let head = encode_scalar(chars[0] as u32);
        assert(bytes[head.len() + j] == v as u8);
    }
}

/// A text that ends in a character of the first 128 has that character's byte
/// at the end of its encoding.
proof fn lemma_last_byte_of_char(chars: Seq<char>, c: char)
    requires
        (c as u32) < 0x80,
        chars.len() > 0,
        chars.last() == c,
    ensures
        encode_utf8(chars).len() > 0,
        encode_utf8(chars).last() == (c as u32) as u8,
    decreases chars.len(),
{
    let rest = chars.drop_first();
    let head = encode_scalar(chars[0] as u32);
    assert(head.len() >= 1);
    if rest.len() == 0 {
        assert(chars =~= seq![c]);
        lemma_encode_single(c);
    } else {
        assert(rest.last() == c);
        lemma_last_byte_of_char(rest, c);
    }
}

/// The views of the two parts into which `split_at` cuts a string make up the
/// view of the whole.
proof fn lemma_split_views(whole: &str, at: int, left: &str, right: &str)
    requires
        is_char_boundary(whole.spec_bytes(), at),
        left.spec_bytes() == whole.spec_bytes().subrange(0, at),
        right.spec_bytes() == whole.spec_bytes().subrange(at, whole.spec_bytes().len() as int),
    ensures
        whole@ == left@ + right@,
{
    broadcast use vstd::utf8::group_utf8_lib;

    let b = whole.spec_bytes();
    assert(decode_utf8(encode_utf8(whole@)) == whole@);
    assert(decode_utf8(encode_utf8(left@)) == left@);
    assert(decode_utf8(encode_utf8(right@)) == right@);
    decode_utf8_split(b, at);
    assert(whole@ =~= left@ + right@);
}

/// A string whose encoding is the one byte of a character of the first 128
/// consists of that character.
proof fn lemma_single_byte_view(piece: &str, c: char)
    requires
        (c as u32) < 0x80,
        piece.spec_bytes() == seq![(c as u32) as u8],
    ensures
        piece@ == seq![c],
{
    broadcast use vstd::utf8::group_utf8_lib;

    lemma_encode_single(c);
    assert(decode_utf8(encode_utf8(piece@)) == piece@);
    assert(decode_utf8(encode_utf8(seq![c])) == seq![c]);
}

/// Cuts `text` at its first line feed: what stands before it, and what follows
/// it, if `text` holds one.
pub fn split_line(text: &str) -> (parts: (&str, Option<&str>))
    ensures
        parts.0@ == text@.take(first_break(text@)),
        parts.1 is None <==> first_break(text@) == text@.len(),
        parts.1 matches Some(rest) ==> rest@ == text@.skip(first_break(text@) + 1),
{
    broadcast use vstd::utf8::group_utf8_lib;

    let bytes = text.as_bytes();
    let mut k: usize = 0;
    while k < bytes.len() && bytes[k] != 0x0Au8
        invariant
            k <= bytes@.len(),
            bytes@ == text.spec_bytes(),
            forall|i: int| 0 <= i < k ==> bytes@[i] != 0x0Au8,
        decreases bytes@.len() - k,
    {
        k += 1;
    }
    assert(is_char_boundary(text.spec_bytes(), k as int)) by {
        if k < bytes@.len() {
            assert(!is_continuation_byte(0x0Au8)) by (bit_vector);
        }
    }
    let (head, tail) = text.split_at(k);
    proof {
        lemma_split_views(text, k as int, head, tail);
        if head@.contains('\n') {
            lemma_byte_of_char(head@, '\n');
        }
    }
    if k == bytes.len() {
        proof {
            assert(tail.spec_bytes().len() == 0);
            assert(decode_utf8(encode_utf8(tail@)) == tail@);
            assert(tail@ =~= Seq::<char>::empty());
            lemma_first_break_found(head@, Seq::empty());
            assert(text@ =~= head@);
        }
        (head, None)
    } else {
        proof {
            let tb = tail.spec_bytes();
            assert(tb[0] == 0x0Au8);
            assert(is_leading_byte_width_1(0x0Au8)) by (bit_vector);
            assert(length_of_first_scalar(tb) == 1);
            assert(is_char_boundary(tb, 1)) by {
                reveal_with_fuel(is_char_boundary, 2);
                assert(valid_utf8(tb));
                assert(valid_utf8(pop_first_scalar(tb)));
            }
        }
        let (mark, rest) = tail.split_at(1);
        proof {
            lemma_split_views(tail, 1, mark, rest);
            assert(mark.spec_bytes() =~= seq![0x0Au8]);
            lemma_single_byte_view(mark, '\n');
            lemma_first_break_found(head@, rest@);
            assert(text@ =~= head@ + seq!['\n'] + rest@);
        }
        (head, Some(rest))
    }
}

/// Takes the carriage return off the end of `line`, if it ends in one.
pub fn trim_return(line: &str) -> (trimmed: &str)
    ensures
        trimmed@ == without_return(line@),
{
    broadcast use vstd::utf8::group_utf8_lib;

    let bytes = line.as_bytes();
    let n = bytes.len();
    if n > 0 && bytes[n - 1] == 0x0Du8 {
        assert(is_char_boundary(line.spec_bytes(), n - 1)) by {
            assert(!is_continuation_byte(0x0Du8)) by (bit_vector);
        }
        let (kept, mark) = line.split_at(n - 1);
        proof {
            lemma_split_views(line, n - 1, kept, mark);
            assert(mark.spec_bytes() =~= seq![0x0Du8]);
            lemma_single_byte_view(mark, '\r');
            assert(line@.drop_last() =~= kept@);
        }
        kept
    } else {
        proof {
            if line@.len() > 0 && line@.last() == '\r' {
                lemma_last_byte_of_char(line@, '\r');
            }
        }
        line
    }
}

/// Whether `line` ends in a carriage return.
pub fn ends_in_return(line: &str) -> (ends: bool)
    ensures
        ends == (line@.len() > 0 && line@.last() == '\r'),
{
    broadcast use vstd::utf8::group_utf8_lib;

    let bytes = line.as_bytes();
    let n = bytes.len();
    if n > 0 && bytes[n - 1] == 0x0Du8 {
        assert(is_char_boundary(line.spec_bytes(), n - 1)) by {
            assert(!is_continuation_byte(0x0Du8)) by (bit_vector);
        }
        let (kept, mark) = line.split_at(n - 1);
        proof {
            lemma_split_views(line, n - 1, kept, mark);
            assert(mark.spec_bytes() =~= seq![0x0Du8]);
            lemma_single_byte_view(mark, '\r');
            assert(line@.last() == '\r');
        }
        true
    } else {
        proof {
            if line@.len() > 0 && line@.last() == '\r' {
                lemma_last_byte_of_char(line@, '\r');
            }
        }
        false
    }
}

/// Whether `text` holds a line feed.
pub fn holds_line_feed(text: &str) -> (holds: bool)
    ensures
        holds == text@.contains('\n'),
{
    let (_, rest) = split_line(text);
    proof {
        lemma_first_break(text@);
        let k = first_break(text@);
        if k == text@.len() {
            assert(text@.take(k) =~= text@);
        }
    }
    rest.is_some()
}

/// A second list of the same texts.
pub fn copy_texts(texts: &Vec<String>) -> (copy: Vec<String>)
    ensures
        copy.deep_view() == texts.deep_view(),
{
    let mut copy: Vec<String> = Vec::new();
    let mut i: usize = 0;
    while i < texts.len()
        invariant
            i <= texts.len(),
            copy.deep_view() == texts.deep_view().take(i as int),
        decreases texts.len() - i,
    {
        let ghost before = copy.deep_view();
        copy.push(texts[i].clone());
        proof {
            assert(copy.deep_view() =~= before.push(texts.deep_view()[i as int]));
            assert(texts.deep_view().take(i + 1) =~= texts.deep_view().take(i as int).push(
                texts.deep_view()[i as int],
            ));
        }
        i += 1;
    }
    proof {
        assert(texts.deep_view().take(i as int) =~= texts.deep_view());
    }
    copy
}

} // verus!
