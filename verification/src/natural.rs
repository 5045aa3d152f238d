//! Human numeric ordering without integer overflow.
use crate::comparator;
use crate::lexicographic;
use crate::text;
use core::cmp::Ordering;
use vstd::prelude::*;

verus! {

pub open spec fn is_digit(byte: u8) -> bool {
    48 <= byte <= 57
}

/// How many bytes at the front are digits.
pub open spec fn digit_run(s: Seq<u8>) -> nat
    decreases s.len(),
{
    if s.len() > 0 && is_digit(s[0]) {
        1 + digit_run(s.drop_first())
    } else {
        0
    }
}

/// How many bytes at the front are zeros.
pub open spec fn zero_run(s: Seq<u8>) -> nat
    decreases s.len(),
{
    if s.len() > 0 && s[0] == 48 {
        1 + zero_run(s.drop_first())
    } else {
        0
    }
}

/// Bytes as keys.
pub open spec fn byte_keys(s: Seq<u8>) -> Seq<int> {
    s.map_values(|b: u8| b as int)
}

/// The key of a folded text: a run of digits counts as one number, that is, as the sign for
/// "number", the number of its digits without leading zeros, and those digits.
pub open spec fn natural_key(s: Seq<u8>) -> Seq<int>
    decreases s.len(),
{
    if s.len() == 0 {
        Seq::empty()
    } else if is_digit(s[0]) {
        let run = digit_run(s) as int;
        let zeros = zero_run(s) as int;
        if 0 < run <= s.len() {
            seq![48int, run - zeros] + byte_keys(s.subrange(zeros, run)) + natural_key(s.skip(run))
        } else {
            Seq::empty()
        }
    } else {
        seq![s[0] as int] + natural_key(s.skip(1))
    }
}

proof fn lemma_runs(s: Seq<u8>)
    ensures
        zero_run(s) <= digit_run(s) <= s.len(),
        forall|i: int| 0 <= i < digit_run(s) ==> is_digit(#[trigger] s[i]),
        forall|i: int| 0 <= i < zero_run(s) ==> #[trigger] s[i] == 48,
    decreases s.len(),
{
    if s.len() > 0 && is_digit(s[0]) {
        lemma_runs(s.drop_first());
        let rest = s.drop_first();
        assert forall|i: int| 0 <= i < digit_run(s) implies is_digit(#[trigger] s[i]) by {
            if i > 0 {
                assert(s[i] == rest[i - 1]);
            }
        }
        assert forall|i: int| 0 <= i < zero_run(s) implies #[trigger] s[i] == 48 by {
            if i > 0 {
                assert(s[i] == rest[i - 1]);
            }
        }
    }
}

/// A run that ends where it stops being a run has been measured.
proof fn lemma_run_length(s: Seq<u8>, length: int)
    requires
        0 <= length <= s.len(),
        forall|i: int| 0 <= i < length ==> is_digit(#[trigger] s[i]),
        length < s.len() ==> !is_digit(s[length]),
    ensures
        digit_run(s) == length,
    decreases s.len(),
{
    if length > 0 {
        let rest = s.drop_first();
        assert(is_digit(s[0]));
        assert forall|i: int| 0 <= i < length - 1 implies is_digit(#[trigger] rest[i]) by {
            assert(rest[i] == s[i + 1]);
        }
        if length < s.len() {
            assert(rest[length - 1] == s[length]);
        }
        lemma_run_length(rest, length - 1);
    }
}

proof fn lemma_zero_length(s: Seq<u8>, length: int)
    requires
        0 <= length <= s.len(),
        forall|i: int| 0 <= i < length ==> #[trigger] s[i] == 48,
        length < s.len() ==> s[length] != 48,
    ensures
        zero_run(s) == length,
    decreases s.len(),
{
    if length > 0 {
        let rest = s.drop_first();
        assert(s[0] == 48);
        assert forall|i: int| 0 <= i < length - 1 implies #[trigger] rest[i] == 48 by {
            assert(rest[i] == s[i + 1]);
        }
        if length < s.len() {
            assert(rest[length - 1] == s[length]);
        }
        lemma_zero_length(rest, length - 1);
    }
}

/// Skip the digits at `from`; returns where the number starts after its leading zeros and
/// where it ends.
fn number_at(text: &[u8], from: usize) -> (span: (usize, usize))
    requires
        from < text@.len(),
        is_digit(text@[from as int]),
    ensures
        from <= span.0 <= span.1 <= text@.len(),
        from < span.1,
        zero_run(text@.skip(from as int)) == span.0 - from,
        digit_run(text@.skip(from as int)) == span.1 - from,
{
    let ghost rest = text@.skip(from as int);
    let mut start: usize = from;
    while start < text.len() && text[start] == 48
        invariant
            from <= start <= text@.len(),
            rest == text@.skip(from as int),
            forall|i: int| 0 <= i < start - from ==> #[trigger] rest[i] == 48,
        decreases text@.len() - start,
    {
        assert(rest[start - from] == 48);
        start = start + 1;
    }
    let mut end: usize = start;
    while end < text.len() && 48 <= text[end] && text[end] <= 57
        invariant
            from <= start <= end <= text@.len(),
            rest == text@.skip(from as int),
            forall|i: int| 0 <= i < end - from ==> is_digit(#[trigger] rest[i]),
        decreases text@.len() - end,
    {
        assert(is_digit(rest[end - from]));
        end = end + 1;
    }
    proof {
        if start < text@.len() {
            assert(rest[start - from] == text@[start as int]);
        }
        if end < text@.len() {
            assert(rest[end - from] == text@[end as int]);
        }
        lemma_zero_length(rest, start - from);
        lemma_run_length(rest, end - from);
        assert(is_digit(rest[0]));
    }
    (start, end)
}

/// How two folded texts compare.
pub open spec fn natural_order(a: Seq<u8>, b: Seq<u8>) -> Ordering {
    lexicographic::lexicographic(natural_key(a), natural_key(b))
}

/// The order of two folded texts: by characters, but a run of digits by its value.
pub fn natural_cmp_folded(a: &str, b: &str) -> (order: Ordering)
    ensures
        order == natural_order(text::bytes_of(a@), text::bytes_of(b@)),
{
    natural_cmp_bytes(a.as_bytes(), b.as_bytes())
}

fn natural_cmp_bytes(a: &[u8], b: &[u8]) -> (order: Ordering)
    ensures
        order == natural_order(a@, b@),
{
    let mut left: usize = 0;
    let mut right: usize = 0;
    proof {
        assert(a@.skip(0) =~= a@);
        assert(b@.skip(0) =~= b@);
    }
    while left < a.len() && right < b.len()
        invariant
            left <= a@.len(),
            right <= b@.len(),
            natural_order(a@, b@) == natural_order(
                a@.skip(comparator::ix(left)),
                b@.skip(comparator::ix(right)),
            ),
        decreases a@.len() - left,
    {
        let ghost (l, r) = (comparator::ix(left), comparator::ix(right));
        let ghost (x, y) = (a@.skip(l), b@.skip(r));
        let first = a[left];
        let second = b[right];
        assert(x[0] == first && y[0] == second);
        if 48 <= first && first <= 57 && 48 <= second && second <= 57 {
            let (left_start, left_end) = number_at(a, left);
            let (right_start, right_end) = number_at(b, right);
            let left_length: usize = left_end - left_start;
            let right_length: usize = right_end - right_start;
            let ghost (p, q) = (
                x.subrange(left_start - l, left_end - l),
                y.subrange(right_start - r, right_end - r),
            );
            let ghost (tail_a, tail_b) = (natural_key(x.skip(left_end - l)), natural_key(
                y.skip(right_end - r),
            ));
            let ghost key_a = seq![48int, p.len() + 0int] + byte_keys(p) + tail_a;
            let ghost key_b = seq![48int, q.len() + 0int] + byte_keys(q) + tail_b;
            assert(natural_key(x) == key_a);
            assert(natural_key(y) == key_b);
            if left_length != right_length {
                proof {
                    assert(key_a.take(1) =~= key_b.take(1));
                    lexicographic::lemma_lexicographic_differs(key_a, key_b, 1);
                }
                return if left_length < right_length {
                    Ordering::Less
                } else {
                    Ordering::Greater
                };
            }
            let mut offset: usize = 0;
            while offset < left_length
                invariant
                    offset <= left_length,
                    left_start + left_length == left_end <= a@.len(),
                    right_start + left_length == right_end <= b@.len(),
                    l <= left_start && r <= right_start,
                    p.len() == left_length && q.len() == left_length,
                    p == a@.subrange(comparator::ix(left_start), comparator::ix(left_end)),
                    q == b@.subrange(comparator::ix(right_start), comparator::ix(right_end)),
                    p.take(comparator::ix(offset)) == q.take(comparator::ix(offset)),
                    key_a == seq![48int, p.len() + 0int] + byte_keys(p) + tail_a,
                    key_b == seq![48int, q.len() + 0int] + byte_keys(q) + tail_b,
                    natural_order(a@, b@) == lexicographic::lexicographic(key_a, key_b),
                decreases left_length - offset,
            {
                let ghost o = comparator::ix(offset);
                let digit = a[left_start + offset];
                let other = b[right_start + offset];
                assert(p[o] == digit && q[o] == other);
                if digit != other {
                    proof {
                        assert(key_a.take(o + 2) =~= seq![48int, p.len() + 0int] + byte_keys(p.take(o)));
                        assert(key_b.take(o + 2) =~= seq![48int, q.len() + 0int] + byte_keys(q.take(o)));
                        assert(key_a[o + 2] == digit && key_b[o + 2] == other);
                        lexicographic::lemma_lexicographic_differs(key_a, key_b, o + 2);
                    }
                    return if digit < other {
                        Ordering::Less
                    } else {
                        Ordering::Greater
                    };
                }
                assert(p.take(o + 1) =~= p.take(o).push(p[o]));
                assert(q.take(o + 1) =~= q.take(o).push(q[o]));
                offset = offset + 1;
            }
            proof {
                assert(p =~= q) by {
                    assert(p.take(comparator::ix(offset)) =~= p);
                    assert(q.take(comparator::ix(offset)) =~= q);
                }
                lexicographic::lemma_lexicographic_prefix(
                    seq![48int, p.len() + 0int] + byte_keys(p),
                    tail_a,
                    tail_b,
                );
                assert(x.skip(left_end - l) =~= a@.skip(comparator::ix(left_end)));
                assert(y.skip(right_end - r) =~= b@.skip(comparator::ix(right_end)));
            }
            left = left_end;
            right = right_end;
        } else if first != second {
            proof {
                let (ka, kb) = (natural_key(x), natural_key(y));
                lemma_runs(x);
                lemma_runs(y);
                assert(ka.len() > 0 && ka[0] == (if is_digit(first) { 48int } else { first + 0 }));
                assert(kb.len() > 0 && kb[0] == (if is_digit(second) { 48int } else { second + 0 }));
                assert(ka.take(0) =~= kb.take(0));
                lexicographic::lemma_lexicographic_differs(ka, kb, 0);
            }
            return if first < second {
                Ordering::Less
            } else {
                Ordering::Greater
            };
        } else {
            proof {
                lexicographic::lemma_lexicographic_prefix(
                    seq![first + 0],
                    natural_key(x.skip(1)),
                    natural_key(y.skip(1)),
                );
                assert(x.skip(1) =~= a@.skip(l + 1));
                assert(y.skip(1) =~= b@.skip(r + 1));
            }
            left = left + 1;
            right = right + 1;
        }
    }
    proof {
        lemma_key_empty(a@.skip(comparator::ix(left)));
        lemma_key_empty(b@.skip(comparator::ix(right)));
    }
    if left < a.len() {
        Ordering::Greater
    } else if right < b.len() {
        Ordering::Less
    } else {
        Ordering::Equal
    }
}

/// Only an empty text has an empty key.
proof fn lemma_key_empty(s: Seq<u8>)
    ensures
        natural_key(s).len() == 0 <==> s.len() == 0,
{
    if s.len() > 0 && is_digit(s[0]) {
        lemma_runs(s);
        assert(digit_run(s) >= 1);
    }
}

/// What a folded text consists of when its runs of digits are read as numbers.
pub enum Piece {
    Byte(u8),
    Number(nat),
}

/// The number that decimal digits stand for.
pub open spec fn decimal(digits: Seq<u8>) -> nat
    decreases digits.len(),
{
    if digits.len() == 0 {
        0
    } else {
        decimal(digits.drop_last()) * 10 + (digits.last() - 48) as nat
    }
}

/// A folded text, its runs of digits read as numbers.
pub open spec fn pieces(s: Seq<u8>) -> Seq<Piece>
    decreases s.len(),
{
    if s.len() == 0 {
        Seq::empty()
    } else if is_digit(s[0]) {
        let run = digit_run(s) as int;
        if 0 < run <= s.len() {
            seq![Piece::Number(decimal(s.take(run)))] + pieces(s.skip(run))
        } else {
            Seq::empty()
        }
    } else {
        seq![Piece::Byte(s[0])] + pieces(s.skip(1))
    }
}

proof fn lemma_zeros_count_nothing(s: Seq<u8>, zeros: int)
    requires
        0 <= zeros <= s.len(),
        forall|i: int| 0 <= i < zeros ==> #[trigger] s[i] == 48,
    ensures
        decimal(s.skip(zeros)) == decimal(s),
    decreases s.len(),
{
    if zeros < s.len() {
        let init = s.drop_last();
        lemma_zeros_count_nothing(init, zeros);
        assert(s.skip(zeros).drop_last() =~= init.skip(zeros));
        assert(s.skip(zeros).last() == s.last());
    } else {
        assert(s.skip(zeros) =~= Seq::<u8>::empty());
        if s.len() > 0 {
            let init = s.drop_last();
            assert forall|i: int| 0 <= i < zeros - 1 implies #[trigger] init[i] == 48 by {
                assert(init[i] == s[i]);
            }
            lemma_zeros_count_nothing(init, zeros - 1);
            assert(init.skip(zeros - 1) =~= Seq::<u8>::empty());
            assert(s[s.len() - 1] == 48);
        }
    }
}

/// Digits of which the first is no zero.
spec fn proper(digits: Seq<u8>) -> bool {
    &&& forall|i: int| 0 <= i < digits.len() ==> is_digit(#[trigger] digits[i])
    &&& digits.len() > 0 ==> digits[0] != 48
}

proof fn lemma_proper_positive(digits: Seq<u8>)
    requires
        proper(digits),
        digits.len() > 0,
    ensures
        decimal(digits) > 0,
    decreases digits.len(),
{
    assert(is_digit(digits[digits.len() - 1]));
    if digits.len() > 1 {
        let init = digits.drop_last();
        assert forall|i: int| 0 <= i < init.len() implies is_digit(#[trigger] init[i]) by {
            assert(init[i] == digits[i]);
        }
        lemma_proper_positive(init);
    } else {
        assert(digits.last() == digits[0]);
    }
}

/// A number has one spelling without leading zeros.
proof fn lemma_proper_unique(a: Seq<u8>, b: Seq<u8>)
    requires
        proper(a),
        proper(b),
        decimal(a) == decimal(b),
    ensures
        a == b,
    decreases a.len(),
{
    if a.len() == 0 || b.len() == 0 {
        if a.len() > 0 {
            lemma_proper_positive(a);
        }
        if b.len() > 0 {
            lemma_proper_positive(b);
        }
        assert(a =~= b);
    } else {
        let (x, y) = (a.drop_last(), b.drop_last());
        assert(is_digit(a[a.len() - 1]) && is_digit(b[b.len() - 1]));
        assert forall|i: int| 0 <= i < x.len() implies is_digit(#[trigger] x[i]) by {
            assert(x[i] == a[i]);
        }
        assert forall|i: int| 0 <= i < y.len() implies is_digit(#[trigger] y[i]) by {
            assert(y[i] == b[i]);
        }
        lemma_proper_unique(x, y);
        assert(a =~= x.push(a.last()));
        assert(b =~= y.push(b.last()));
    }
}

/// The digits of a leading run without its leading zeros.
proof fn lemma_leading_number(s: Seq<u8>)
    requires
        s.len() > 0,
        is_digit(s[0]),
    ensures
        0 < digit_run(s) <= s.len(),
        proper(s.subrange(zero_run(s) as int, digit_run(s) as int)),
        decimal(s.take(digit_run(s) as int)) == decimal(
            s.subrange(zero_run(s) as int, digit_run(s) as int),
        ),
{
    lemma_runs(s);
    let (zeros, run) = (zero_run(s) as int, digit_run(s) as int);
    let digits = s.take(run);
    assert forall|i: int| 0 <= i < zeros implies #[trigger] digits[i] == 48 by {
        assert(digits[i] == s[i]);
    }
    lemma_zeros_count_nothing(digits, zeros);
    assert(digits.skip(zeros) =~= s.subrange(zeros, run));
    let left = s.subrange(zeros, run);
    assert forall|i: int| 0 <= i < left.len() implies is_digit(#[trigger] left[i]) by {
        assert(left[i] == s[zeros + i]);
    }
    if left.len() > 0 {
        lemma_after_zeros(s);
        assert(left[0] == s[zeros]);
    }
}

proof fn lemma_after_zeros(s: Seq<u8>)
    ensures
        zero_run(s) < s.len() ==> s[zero_run(s) as int] != 48,
    decreases s.len(),
{
    if s.len() > 0 && s[0] == 48 {
        let rest = s.drop_first();
        lemma_after_zeros(rest);
        if zero_run(rest) < rest.len() {
            assert(rest[zero_run(rest) as int] == s[zero_run(rest) + 1int]);
        }
    }
}

proof fn lemma_same_numbers(p: Seq<u8>, q: Seq<u8>, x: Seq<int>, y: Seq<int>)
    requires
        seq![48int, p.len() as int] + byte_keys(p) + x == seq![48int, q.len() as int] + byte_keys(q)
            + y,
    ensures
        p == q,
        x == y,
{
    let a = seq![48int, p.len() as int] + byte_keys(p) + x;
    let b = seq![48int, q.len() as int] + byte_keys(q) + y;
    assert(a[1] == p.len() && b[1] == q.len());
    assert forall|i: int| 0 <= i < p.len() implies p[i] == q[i] by {
        assert(a[i + 2] == p[i] as int && b[i + 2] == q[i] as int);
    }
    assert(p =~= q);
    assert(x =~= a.skip(2int + p.len()));
    assert(y =~= b.skip(2int + q.len()));
}

/// Texts have the same key exactly if they read the same.
proof fn lemma_key_reads(a: Seq<u8>, b: Seq<u8>)
    ensures
        natural_key(a) == natural_key(b) <==> pieces(a) == pieces(b),
    decreases a.len(),
{
    lemma_key_empty(a);
    lemma_key_empty(b);
    let (ka, kb, pa, pb) = (natural_key(a), natural_key(b), pieces(a), pieces(b));
    if a.len() > 0 && is_digit(a[0]) {
        lemma_leading_number(a);
    }
    if b.len() > 0 && is_digit(b[0]) {
        lemma_leading_number(b);
    }
    assert(pa.len() == 0 <==> a.len() == 0);
    assert(pb.len() == 0 <==> b.len() == 0);
    if a.len() == 0 || b.len() == 0 {
        assert(a.len() == 0 && b.len() == 0 ==> ka =~= kb && pa =~= pb);
    } else if is_digit(a[0]) != is_digit(b[0]) {
        assert(ka[0] == (if is_digit(a[0]) { 48int } else { a[0] as int }));
        assert(kb[0] == (if is_digit(b[0]) { 48int } else { b[0] as int }));
        assert(ka[0] != kb[0]);
        assert(pa[0] != pb[0]);
    } else if is_digit(a[0]) {
        let (za, ra, zb, rb) = (
            zero_run(a) as int,
            digit_run(a) as int,
            zero_run(b) as int,
            digit_run(b) as int,
        );
        let (p, q) = (a.subrange(za, ra), b.subrange(zb, rb));
        lemma_key_reads(a.skip(ra), b.skip(rb));
        let (ta, tb) = (natural_key(a.skip(ra)), natural_key(b.skip(rb)));
        lemma_runs(a);
        lemma_runs(b);
        assert(ka == seq![48int, p.len() as int] + byte_keys(p) + ta);
        assert(kb == seq![48int, q.len() as int] + byte_keys(q) + tb);
        let (sa, sb) = (pieces(a.skip(ra)), pieces(b.skip(rb)));
        assert(pa == seq![Piece::Number(decimal(p))] + sa);
        assert(pb == seq![Piece::Number(decimal(q))] + sb);
        if ka == kb {
            lemma_same_numbers(p, q, ta, tb);
        }
        if pa == pb {
            assert(pa[0] == Piece::Number(decimal(p)) && pb[0] == Piece::Number(decimal(q)));
            lemma_proper_unique(p, q);
            assert(sa =~= pa.skip(1));
            assert(sb =~= pb.skip(1));
        }
    } else {
        lemma_key_reads(a.skip(1), b.skip(1));
        let (ta, tb) = (natural_key(a.skip(1)), natural_key(b.skip(1)));
        let (sa, sb) = (pieces(a.skip(1)), pieces(b.skip(1)));
        assert(ka == seq![a[0] as int] + ta && kb == seq![b[0] as int] + tb);
        assert(pa == seq![Piece::Byte(a[0])] + sa && pb == seq![Piece::Byte(b[0])] + sb);
        if ka == kb {
            assert(ka[0] == a[0] as int && kb[0] == b[0] as int);
            assert(ta =~= ka.skip(1));
            assert(tb =~= kb.skip(1));
        }
        if pa == pb {
            assert(pa[0] == Piece::Byte(a[0]) && pb[0] == Piece::Byte(b[0]));
            assert(sa =~= pa.skip(1));
            assert(sb =~= pb.skip(1));
        }
    }
}

/// Texts count as equal exactly if they agree once their runs of digits are read as numbers.
pub proof fn law_equal_texts_read_the_same(a: Seq<u8>, b: Seq<u8>)
    ensures
        natural_order(a, b) == Ordering::Equal <==> pieces(a) == pieces(b),
{
    lexicographic::lemma_lexicographic_opposite(natural_key(a), natural_key(b));
    lemma_key_reads(a, b);
}

/// Any two texts can be compared, a text is equal to itself, swapping the sides turns the
/// order round, and the order carries over a text between two others.
pub proof fn law_natural_order_is_a_total_preorder(a: Seq<u8>, b: Seq<u8>, c: Seq<u8>)
    ensures
        natural_order(a, a) == Ordering::Equal,
        natural_order(b, a) == lexicographic::opposite(natural_order(a, b)),
        natural_order(a, b) != Ordering::Greater && natural_order(b, c) != Ordering::Greater
            ==> natural_order(a, c) != Ordering::Greater,
{
    let (x, y, z) = (natural_key(a), natural_key(b), natural_key(c));
    lexicographic::lemma_lexicographic_opposite(x, x);
    lexicographic::lemma_lexicographic_opposite(x, y);
    if natural_order(a, b) != Ordering::Greater && natural_order(b, c) != Ordering::Greater {
        lexicographic::lemma_lexicographic_transitive(x, y, z);
    }
}

/// A longer spelling without leading zeros stands for a larger number.
proof fn lemma_longer_is_larger(a: Seq<u8>, b: Seq<u8>)
    requires
        proper(a),
        proper(b),
        a.len() < b.len(),
    ensures
        decimal(a) < decimal(b),
    decreases a.len(),
{
    assert(is_digit(b[b.len() - 1]));
    if a.len() == 0 {
        lemma_proper_positive(b);
    } else {
        let (x, y) = (a.drop_last(), b.drop_last());
        assert(is_digit(a[a.len() - 1]));
        assert forall|i: int| 0 <= i < x.len() implies is_digit(#[trigger] x[i]) by {
            assert(x[i] == a[i]);
        }
        assert forall|i: int| 0 <= i < y.len() implies is_digit(#[trigger] y[i]) by {
            assert(y[i] == b[i]);
        }
        lemma_longer_is_larger(x, y);
    }
}

/// Of two spellings of the same length the first different digit decides.
proof fn lemma_first_digit_decides(a: Seq<u8>, b: Seq<u8>, at: int)
    requires
        forall|i: int| 0 <= i < a.len() ==> is_digit(#[trigger] a[i]),
        forall|i: int| 0 <= i < b.len() ==> is_digit(#[trigger] b[i]),
        a.len() == b.len(),
        0 <= at < a.len(),
        a.take(at) == b.take(at),
        a[at] < b[at],
    ensures
        decimal(a) < decimal(b),
    decreases a.len(),
{
    let (x, y) = (a.drop_last(), b.drop_last());
    assert(is_digit(a[a.len() - 1]) && is_digit(b[b.len() - 1]));
    if at == a.len() - 1 {
        assert(x =~= a.take(at));
        assert(y =~= b.take(at));
    } else {
        assert forall|i: int| 0 <= i < x.len() implies is_digit(#[trigger] x[i]) by {
            assert(x[i] == a[i]);
        }
        assert forall|i: int| 0 <= i < y.len() implies is_digit(#[trigger] y[i]) by {
            assert(y[i] == b[i]);
        }
        assert(x.take(at) =~= a.take(at));
        assert(y.take(at) =~= b.take(at));
        lemma_first_digit_decides(x, y, at);
    }
}

/// Where two different texts of the same length differ first.
proof fn first_difference(a: Seq<u8>, b: Seq<u8>) -> (at: int)
    requires
        a.len() == b.len(),
        a != b,
    ensures
        0 <= at < a.len(),
        a.take(at) == b.take(at),
        a[at] != b[at],
    decreases a.len(),
{
    if a.len() == 0 {
        assert(a =~= b);
        0
    } else {
        let (x, y) = (a.drop_last(), b.drop_last());
        if x == y {
            assert(a =~= x.push(a.last()));
            assert(b =~= y.push(b.last()));
            assert(a.take(a.len() - 1) =~= x);
            assert(b.take(a.len() - 1) =~= y);
            a.len() - 1
        } else {
            let at = first_difference(x, y);
            assert(x.take(at) =~= a.take(at));
            assert(y.take(at) =~= b.take(at));
            at
        }
    }
}

/// Where the spellings of two different numbers put their keys apart: the key of the smaller
/// number is the smaller one there.
proof fn numbers_differ(p: Seq<u8>, q: Seq<u8>, x: Seq<int>, y: Seq<int>) -> (at: int)
    requires
        proper(p),
        proper(q),
        decimal(p) < decimal(q),
    ensures
        ({
            let a = seq![48int, p.len() as int] + byte_keys(p) + x;
            let b = seq![48int, q.len() as int] + byte_keys(q) + y;
            0 <= at < a.len() && at < b.len() && a.take(at) == b.take(at) && a[at] < b[at]
        }),
{
    let a = seq![48int, p.len() as int] + byte_keys(p) + x;
    let b = seq![48int, q.len() as int] + byte_keys(q) + y;
    if p.len() > q.len() {
        lemma_longer_is_larger(q, p);
        0
    } else if p.len() < q.len() {
        assert(a.take(1) =~= b.take(1));
        1
    } else {
        let at = first_difference(p, q);
        if p[at] > q[at] {
            lemma_first_digit_decides(q, p, at);
        }
        assert(a[at + 2] == p[at] as int && b[at + 2] == q[at] as int);
        assert forall|i: int| 0 <= i < at implies p[i] == q[i] by {
            assert(p.take(at)[i] == q.take(at)[i]);
        }
        assert(a.take(at + 2) =~= b.take(at + 2));
        at + 2
    }
}

/// What the key of a text begins with.
proof fn lemma_key_front(s: Seq<u8>)
    requires
        s.len() > 0,
    ensures
        is_digit(s[0]) ==> ({
            let (zeros, run) = (zero_run(s) as int, digit_run(s) as int);
            let p = s.subrange(zeros, run);
            &&& 0 < run <= s.len()
            &&& proper(p)
            &&& decimal(s.take(run)) == decimal(p)
            &&& natural_key(s) == seq![48int, p.len() as int] + byte_keys(p) + natural_key(
                s.skip(run),
            )
        }),
        !is_digit(s[0]) ==> natural_key(s) == seq![s[0] as int] + natural_key(s.skip(1)),
{
    if is_digit(s[0]) {
        lemma_leading_number(s);
        lemma_runs(s);
    }
}

/// A text comes first where it ends first. Of two bytes that are no digits the smaller one comes
/// first, and after equal ones the rest decides. Two runs of digits compare as the numbers that
/// they stand for, however they are spelled, and after equal numbers the rest decides. A number
/// comes before the bytes above the digits and after those below them.
pub proof fn law_numbers_compare_by_value(a: Seq<u8>, b: Seq<u8>)
    ensures
        a.len() == 0 ==> natural_order(a, b) == (if b.len() == 0 {
            Ordering::Equal
        } else {
            Ordering::Less
        }),
        a.len() > 0 && b.len() > 0 && !is_digit(a[0]) && !is_digit(b[0]) ==> natural_order(a, b)
            == (if a[0] < b[0] {
            Ordering::Less
        } else if a[0] > b[0] {
            Ordering::Greater
        } else {
            natural_order(a.skip(1), b.skip(1))
        }),
        a.len() > 0 && b.len() > 0 && is_digit(a[0]) && is_digit(b[0]) ==> ({
            let (run, other) = (digit_run(a) + 0int, digit_run(b) + 0int);
            let (m, n) = (decimal(a.take(run)), decimal(b.take(other)));
            natural_order(a, b) == (if m < n {
                Ordering::Less
            } else if m > n {
                Ordering::Greater
            } else {
                natural_order(a.skip(run), b.skip(other))
            })
        }),
        a.len() > 0 && b.len() > 0 && is_digit(a[0]) && !is_digit(b[0]) ==> natural_order(a, b)
            == (if b[0] > 57 {
            Ordering::Less
        } else {
            Ordering::Greater
        }),
{
    lemma_key_empty(a);
    lemma_key_empty(b);
    let (x, y) = (natural_key(a), natural_key(b));
    if a.len() > 0 && b.len() > 0 {
        lemma_key_front(a);
        lemma_key_front(b);
        let (za, ra) = (zero_run(a) + 0int, digit_run(a) + 0int);
        let (zb, rb) = (zero_run(b) + 0int, digit_run(b) + 0int);
        let (p, q) = (a.subrange(za, ra), b.subrange(zb, rb));
        if is_digit(a[0]) && is_digit(b[0]) {
            let (ta, tb) = (natural_key(a.skip(ra)), natural_key(b.skip(rb)));
            if decimal(p) < decimal(q) {
                let at = numbers_differ(p, q, ta, tb);
                lexicographic::lemma_lexicographic_differs(x, y, at);
            } else if decimal(p) > decimal(q) {
                let at = numbers_differ(q, p, tb, ta);
                lexicographic::lemma_lexicographic_differs(x, y, at);
            } else {
                lemma_proper_unique(p, q);
                lexicographic::lemma_lexicographic_prefix(
                    seq![48int, p.len() + 0int] + byte_keys(p),
                    ta,
                    tb,
                );
            }
        } else if !is_digit(a[0]) && !is_digit(b[0]) {
            assert(x.drop_first() =~= natural_key(a.skip(1)));
            assert(y.drop_first() =~= natural_key(b.skip(1)));
        }
    }
}

} // verus!
