//! Comma-separated text: fields, blanks and decimal numbers.

use crate::bytes::copy_range;
use vstd::prelude::*;

verus! {

/// The comma between fields.
pub const COMMA: u8 = 44;

/// The `x` between the two numbers of a pair.
pub const CROSS: u8 = 120;

/// The first place from `i` on that holds `sep`, or the length.
pub open spec fn position(s: Seq<u8>, sep: u8, i: int) -> int
    decreases s.len() - i,
{
    if i >= s.len() {
        s.len() as int
    } else if s[i] == sep {
        i
    } else {
        position(s, sep, i + 1)
    }
}

/// What stands between the separators.
pub open spec fn fields(s: Seq<u8>, sep: u8) -> Seq<Seq<u8>>
    decreases s.len(),
{
    let p = position(s, sep, 0);
    if 0 <= p < s.len() {
        seq![s.subrange(0, p)] + fields(s.subrange(p + 1, s.len() as int), sep)
    } else {
        seq![s]
    }
}

/// The fields again with separators between them.
pub open spec fn joined(f: Seq<Seq<u8>>, sep: u8) -> Seq<u8>
    decreases f.len(),
{
    if f.len() == 0 {
        Seq::empty()
    } else if f.len() == 1 {
        f[0]
    } else {
        f[0] + seq![sep] + joined(f.drop_first(), sep)
    }
}

/// The contents of each vector.
pub open spec fn texts(v: Seq<Vec<u8>>) -> Seq<Seq<u8>> {
    Seq::new(v.len(), |i: int| v[i]@)
}

proof fn lemma_position(s: Seq<u8>, sep: u8, i: int, k: int)
    requires
        0 <= i <= k <= s.len(),
        forall|j: int| i <= j < k ==> s[j] != sep,
        k < s.len() ==> s[k] == sep,
    ensures
        position(s, sep, i) == k,
    decreases k - i,
{
    if i < k {
        lemma_position(s, sep, i + 1, k);
    }
}

proof fn lemma_position_is_first(s: Seq<u8>, sep: u8, i: int)
    requires
        0 <= i <= s.len(),
    ensures
        i <= position(s, sep, i) <= s.len(),
        position(s, sep, i) < s.len() ==> s[position(s, sep, i)] == sep,
        forall|j: int| i <= j < position(s, sep, i) ==> s[j] != sep,
    decreases s.len() - i,
{
    if i < s.len() && s[i] != sep {
        lemma_position_is_first(s, sep, i + 1);
    }
}

/// There is at least one field, and none of them holds the separator.
pub proof fn lemma_fields(s: Seq<u8>, sep: u8)
    ensures
        fields(s, sep).len() > 0,
        forall|i: int, j: int|
            0 <= i < fields(s, sep).len() && 0 <= j < fields(s, sep)[i].len()
                ==> #[trigger] fields(s, sep)[i][j] != sep,
    decreases s.len(),
{
    let p = position(s, sep, 0);
    lemma_position_is_first(s, sep, 0);
    if p < s.len() {
        let rest = s.subrange(p + 1, s.len() as int);
        lemma_fields(rest, sep);
        assert forall|i: int, j: int|
            0 <= i < fields(s, sep).len() && 0 <= j < fields(s, sep)[i].len() implies
            #[trigger] fields(s, sep)[i][j] != sep by {
            if i > 0 {
                assert(fields(s, sep)[i] == fields(rest, sep)[i - 1]);
            }
        }
    }
}

/// Joining the fields of a text gives the text back.
pub proof fn law_fields_join(s: Seq<u8>, sep: u8)
    ensures
        joined(fields(s, sep), sep) == s,
    decreases s.len(),
{
    let p = position(s, sep, 0);
    lemma_position_is_first(s, sep, 0);
    if p < s.len() {
        let rest = s.subrange(p + 1, s.len() as int);
        law_fields_join(rest, sep);
        lemma_fields(rest, sep);
        assert(fields(s, sep).drop_first() =~= fields(rest, sep));
        assert(s =~= s.subrange(0, p) + seq![sep] + rest);
    }
}

/// Splits `line` at every `sep`.
pub fn split(line: &[u8], sep: u8) -> (r: Vec<Vec<u8>>)
    ensures
        texts(r@) == fields(line@, sep),
{
    let mut out: Vec<Vec<u8>> = Vec::new();
    let mut start: usize = 0;
    let mut i: usize = 0;
    assert(line@.subrange(0, line@.len() as int) =~= line@);
    assert(texts(out@) + fields(line@, sep) =~= fields(line@, sep));
    while i < line.len()
        invariant
            start <= i <= line.len(),
            forall|j: int| start <= j < i ==> line@[j] != sep,
            texts(out@) + fields(line@.subrange(start as int, line@.len() as int), sep) == fields(
                line@,
                sep,
            ),
        decreases line.len() - i,
    {
        if line[i] == sep {
            let ghost rest = line@.subrange(start as int, line@.len() as int);
            let ghost before = out@;
            let piece: Vec<u8> = copy_range(line, start, i);
            proof {
                lemma_position(rest, sep, 0, i - start);
                assert(rest.subrange(0, i - start) =~= piece@);
                assert(rest.subrange(i - start + 1, rest.len() as int) =~= line@.subrange(
                    i + 1,
                    line@.len() as int,
                ));
            }
            out.push(piece);
            proof {
                assert(texts(out@) =~= texts(before) + seq![piece@]);
                let tail = fields(line@.subrange(i + 1, line@.len() as int), sep);
                assert(fields(rest, sep) =~= seq![piece@] + tail);
                assert(texts(before) + (seq![piece@] + tail) =~= texts(before) + seq![piece@]
                    + tail);
            }
            start = i + 1;
        }
        i += 1;
    }
    let ghost rest = line@.subrange(start as int, line@.len() as int);
    let ghost before = out@;
    let piece: Vec<u8> = copy_range(line, start, line.len());
    proof {
        lemma_position(rest, sep, 0, rest.len() as int);
        assert(fields(rest, sep) =~= seq![rest]);
    }
    out.push(piece);
    assert(texts(out@) =~= texts(before) + seq![piece@]);
    out
}

/// A blank: a space, or one of the five control characters from tab to
/// carriage return.
pub open spec fn is_blank(b: u8) -> bool {
    b == 32 || 9 <= b <= 13
}

/// A text without the blanks at its ends.
pub open spec fn trimmed(s: Seq<u8>) -> Seq<u8>
    decreases s.len(),
{
    if s.len() > 0 && is_blank(s[0]) {
        trimmed(s.drop_first())
    } else if s.len() > 0 && is_blank(s.last()) {
        trimmed(s.drop_last())
    } else {
        s
    }
}

/// Takes the blanks off both ends.
pub fn trim(s: &[u8]) -> (r: Vec<u8>)
    ensures
        r@ == trimmed(s@),
{
    let mut a: usize = 0;
    let mut b: usize = s.len();
    assert(s@.subrange(0, s@.len() as int) =~= s@);
    while a < b && (s[a] == 32 || (9 <= s[a] && s[a] <= 13))
        invariant
            a <= b == s.len(),
            trimmed(s@.subrange(a as int, b as int)) == trimmed(s@),
        decreases b - a,
    {
        assert(s@.subrange(a as int, b as int).drop_first() =~= s@.subrange(a + 1, b as int));
        a += 1;
    }
    while a < b && (s[b - 1] == 32 || (9 <= s[b - 1] && s[b - 1] <= 13))
        invariant
            a <= b <= s.len(),
            a < b ==> !is_blank(s@[a as int]),
            trimmed(s@.subrange(a as int, b as int)) == trimmed(s@),
        decreases b - a,
    {
        assert(s@.subrange(a as int, b as int).drop_last() =~= s@.subrange(a as int, b - 1));
        b -= 1;
    }
    copy_range(s, a, b)
}

/// The value of a run of decimal digits, `None` where another byte stands.
pub open spec fn digits_value(s: Seq<u8>) -> Option<int>
    decreases s.len(),
{
    if s.len() == 0 {
        Some(0)
    } else {
        match digits_value(s.drop_last()) {
            Some(v) => if 48 <= s.last() <= 57 {
                Some(10 * v + (s.last() - 48))
            } else {
                None
            },
            None => None,
        }
    }
}

/// A decimal number that fits a machine word: an optional plus sign and at
/// least one digit.
pub open spec fn number(s: Seq<u8>) -> Option<int> {
    let d = if s.len() > 0 && s[0] == 43 {
        s.drop_first()
    } else {
        s
    };
    match digits_value(d) {
        Some(v) => if d.len() > 0 && v <= usize::MAX {
            Some(v)
        } else {
            None
        },
        None => None,
    }
}

proof fn lemma_digits_prefix(s: Seq<u8>, k: int)
    requires
        0 <= k <= s.len(),
    ensures
        digits_value(s) matches Some(v) ==> (digits_value(s.take(k)) matches Some(w) && 0 <= w
            <= v),
    decreases s.len(),
{
    if k < s.len() {
        lemma_digits_prefix(s.drop_last(), k);
        assert(s.drop_last().take(k) =~= s.take(k));
    } else {
        assert(s.take(k) =~= s);
        if s.len() > 0 {
            lemma_digits_prefix(s.drop_last(), k - 1);
            assert(s.drop_last().take(k - 1) =~= s.drop_last());
        }
    }
}

/// Reads a decimal number.
pub fn parse_number(s: &[u8]) -> (r: Option<usize>)
    ensures
        match r {
            Some(v) => number(s@) == Some(v as int),
            None => number(s@) is None,
        },
{
    let from: usize = if s.len() > 0 && s[0] == 43 {
        1
    } else {
        0
    };
    let ghost d = s@.subrange(from as int, s@.len() as int);
    assert(from == 1 ==> d =~= s@.drop_first());
    assert(from == 0 ==> d =~= s@);
    if from == s.len() {
        return None;
    }
    let mut v: usize = 0;
    let mut i: usize = from;
    assert(d.take(0) =~= Seq::<u8>::empty());
    while i < s.len()
        invariant
            from <= i <= s.len(),
            from < s.len(),
            d == s@.subrange(from as int, s@.len() as int),
            number(s@) == (match digits_value(d) {
                Some(w) => if w <= usize::MAX {
                    Some(w)
                } else {
                    None
                },
                None => None,
            }),
            digits_value(d.take(i - from)) == Some(v as int),
        decreases s.len() - i,
    {
        let b: u8 = s[i];
        proof {
            assert(d.take(i - from + 1).drop_last() =~= d.take(i - from));
            lemma_digits_prefix(d, i - from + 1);
        }
        if b < 48 || b > 57 {
            return None;
        }
        let digit: usize = (b - 48) as usize;
        if v > (usize::MAX - digit) / 10 {
            assert(10 * v + digit > usize::MAX);
            return None;
        }
        v = 10 * v + digit;
        i += 1;
    }
    assert(d.take(s.len() - from) =~= d);
    Some(v)
}

/// Reads a list such as `8,16,64`; `None` where an entry is no number. A
/// blank text is the empty list.
pub fn parse_list(raw: &[u8]) -> (r: Option<Vec<usize>>)
    ensures
        trimmed(raw@).len() == 0 ==> (r matches Some(v) && v@ == Seq::<usize>::empty()),
        trimmed(raw@).len() > 0 ==> {
            let f = fields(raw@, COMMA);
            match r {
                Some(v) => v.len() == f.len() && forall|i: int|
                    0 <= i < f.len() ==> number(trimmed(#[trigger] f[i])) == Some(v@[i] as int),
                None => exists|i: int|
                    0 <= i < f.len() && number(trimmed(#[trigger] f[i])) is None,
            }
        },
{
    let bare: Vec<u8> = trim(raw);
    let mut out: Vec<usize> = Vec::new();
    if bare.len() == 0 {
        assert(out@ =~= Seq::<usize>::empty());
        return Some(out);
    }
    let parts: Vec<Vec<u8>> = split(raw, COMMA);
    let ghost f = fields(raw@, COMMA);
    assert(texts(parts@).len() == f.len());
    for i in 0..parts.len()
        invariant
            texts(parts@) == f,
            f == fields(raw@, COMMA),
            trimmed(raw@).len() > 0,
            out.len() == i,
            parts.len() == f.len(),
            forall|k: int| 0 <= k < i ==> number(trimmed(#[trigger] f[k])) == Some(out@[k] as int),
    {
        assert(texts(parts@)[i as int] == parts@[i as int]@);
        let entry: Vec<u8> = trim(parts[i].as_slice());
        match parse_number(entry.as_slice()) {
            Some(v) => {
                out.push(v);
            },
            None => {
                assert(number(trimmed(f[i as int])) is None);
                return None;
            },
        }
    }
    Some(out)
}

/// Two numbers with a cross between them, such as `14x16`.
pub open spec fn pair(s: Seq<u8>) -> Option<(int, int)> {
    let p = position(s, CROSS, 0);
    if p < s.len() {
        match (number(s.subrange(0, p)), number(s.subrange(p + 1, s.len() as int))) {
            (Some(a), Some(b)) => Some((a, b)),
            _ => None,
        }
    } else {
        None
    }
}

/// Reads two numbers at the first cross.
pub fn parse_pair(s: &[u8]) -> (r: Option<(usize, usize)>)
    ensures
        match r {
            Some(v) => pair(s@) == Some((v.0 as int, v.1 as int)),
            None => pair(s@) is None,
        },
{
    let mut p: usize = 0;
    while p < s.len() && s[p] != CROSS
        invariant
            p <= s.len(),
            forall|j: int| 0 <= j < p ==> s@[j] != CROSS,
        decreases s.len() - p,
    {
        p += 1;
    }
    proof {
        lemma_position(s@, CROSS, 0, p as int);
    }
    if p == s.len() {
        return None;
    }
    let left: Vec<u8> = copy_range(s, 0, p);
    let right: Vec<u8> = copy_range(s, p + 1, s.len());
    match (parse_number(left.as_slice()), parse_number(right.as_slice())) {
        (Some(a), Some(b)) => Some((a, b)),
        _ => None,
    }
}

/// Reads a list such as `100x100,300x100`; `None` where an entry is no pair.
pub fn parse_pairs(raw: &[u8]) -> (r: Option<Vec<(usize, usize)>>)
    ensures
        ({
            let f = fields(raw@, COMMA);
            match r {
                Some(v) => v.len() == f.len() && forall|i: int|
                    0 <= i < f.len() ==> pair(trimmed(#[trigger] f[i])) == Some(
                        (v@[i].0 as int, v@[i].1 as int),
                    ),
                None => exists|i: int| 0 <= i < f.len() && pair(trimmed(#[trigger] f[i])) is None,
            }
        }),
{
    let mut out: Vec<(usize, usize)> = Vec::new();
    let parts: Vec<Vec<u8>> = split(raw, COMMA);
    let ghost f = fields(raw@, COMMA);
    assert(texts(parts@).len() == f.len());
    for i in 0..parts.len()
        invariant
            texts(parts@) == f,
            f == fields(raw@, COMMA),
            out.len() == i,
            parts.len() == f.len(),
            forall|k: int|
                0 <= k < i ==> pair(trimmed(#[trigger] f[k])) == Some(
                    (out@[k].0 as int, out@[k].1 as int),
                ),
    {
        assert(texts(parts@)[i as int] == parts@[i as int]@);
        let entry: Vec<u8> = trim(parts[i].as_slice());
        match parse_pair(entry.as_slice()) {
            Some(v) => {
                out.push(v);
            },
            None => {
                assert(pair(trimmed(f[i as int])) is None);
                return None;
            },
        }
    }
    Some(out)
}

/// The decimal digits of a number, without leading zeros.
pub open spec fn decimal(v: nat) -> Seq<u8>
    decreases v,
{
    if v < 10 {
        seq![(48 + v) as u8]
    } else {
        decimal(v / 10) + seq![(48 + v % 10) as u8]
    }
}

/// Appends a number in decimal.
pub fn push_decimal(out: &mut Vec<u8>, v: usize)
    ensures
        final(out)@ == old(out)@ + decimal(v as nat),
    decreases v,
{
    if v >= 10 {
        push_decimal(out, v / 10);
    }
    let ghost before = out@;
    out.push(48 + (v % 10) as u8);
    assert(out@ =~= old(out)@ + decimal(v as nat));
}

/// What is written in decimal is read back.
pub proof fn law_decimal_round_trip(v: nat)
    ensures
        digits_value(decimal(v)) == Some(v as int),
        v <= usize::MAX ==> number(decimal(v)) == Some(v as int),
    decreases v,
{
    if v >= 10 {
        law_decimal_round_trip(v / 10);
        assert(decimal(v).drop_last() =~= decimal(v / 10));
        assert(decimal(v).last() == (48 + v % 10) as u8);
        assert(v == 10 * (v / 10) + v % 10);
    } else {
        assert(decimal(v).drop_last() =~= Seq::<u8>::empty());
        assert(digits_value(Seq::<u8>::empty()) == Some(0int));
        assert(decimal(v).last() == (48 + v) as u8);
    }
    lemma_decimal_starts(v);
}

proof fn lemma_decimal_starts(v: nat)
    ensures
        decimal(v).len() > 0,
        48 <= decimal(v)[0] <= 57,
    decreases v,
{
    if v >= 10 {
        lemma_decimal_starts(v / 10);
    }
}

/// Equality of byte strings.
pub fn same_bytes(a: &[u8], b: &[u8]) -> (r: bool)
    ensures
        r == (a@ == b@),
{
    if a.len() != b.len() {
        return false;
    }
    for i in 0..a.len()
        invariant
            a.len() == b.len(),
            forall|j: int| 0 <= j < i ==> a@[j] == b@[j],
    {
        if a[i] != b[i] {
            assert(a@[i as int] != b@[i as int]);
            return false;
        }
    }
    assert(a@ =~= b@);
    true
}

/// The first of `items` that equals `x`.
pub fn find_bytes(items: &[Vec<u8>], x: &[u8]) -> (r: Option<usize>)
    ensures
        match r {
            Some(i) => i < items.len() && items@[i as int]@ == x@ && forall|j: int|
                0 <= j < i ==> (#[trigger] items@[j])@ != x@,
            None => forall|j: int| 0 <= j < items.len() ==> (#[trigger] items@[j])@ != x@,
        },
{
    for i in 0..items.len()
        invariant
            forall|j: int| 0 <= j < i ==> (#[trigger] items@[j])@ != x@,
    {
        if same_bytes(items[i].as_slice(), x) {
            return Some(i);
        }
    }
    None
}

/// No field holds a separator.
pub proof fn law_fields_have_no_separator(s: Seq<u8>, sep: u8, i: int, j: int)
    requires
        0 <= i < fields(s, sep).len(),
        0 <= j < fields(s, sep)[i].len(),
    ensures
        fields(s, sep)[i][j] != sep,
    decreases s.len(),
{
    let p = position(s, sep, 0);
    lemma_position_is_first(s, sep, 0);
    if p < s.len() {
        let rest = s.subrange(p + 1, s.len() as int);
        if i > 0 {
            law_fields_have_no_separator(rest, sep, i - 1, j);
        }
    }
}

/// Trimming takes blanks off the ends and nothing else: the result gives where
/// what is left stands.
pub proof fn law_trimming_takes_blanks(s: Seq<u8>) -> (at: (int, int))
    ensures
        0 <= at.0 <= at.1 <= s.len(),
        trimmed(s) == s.subrange(at.0, at.1),
        forall|i: int| 0 <= i < at.0 ==> #[trigger] s[i] == 32 || 9 <= s[i] <= 13,
        forall|i: int| at.1 <= i < s.len() ==> #[trigger] s[i] == 32 || 9 <= s[i] <= 13,
        at.0 < at.1 ==> s[at.0] != 32 && !(9 <= s[at.0] <= 13),
        at.0 < at.1 ==> s[at.1 - 1] != 32 && !(9 <= s[at.1 - 1] <= 13),
    decreases s.len(),
{
    if s.len() > 0 && is_blank(s[0]) {
        let low = s.drop_first();
        let (a, b) = law_trimming_takes_blanks(low);
        assert(s.subrange(a + 1, b + 1) =~= low.subrange(a, b));
        assert forall|i: int| 0 <= i < a + 1 implies #[trigger] s[i] == 32 || 9 <= s[i] <= 13 by {
            if i > 0 {
                assert(low[i - 1] == s[i]);
            }
        }
        assert forall|i: int| b + 1 <= i < s.len() implies #[trigger] s[i] == 32 || 9 <= s[i]
            <= 13 by {
            assert(low[i - 1] == s[i]);
        }
        (a + 1, b + 1)
    } else if s.len() > 0 && is_blank(s.last()) {
        let low = s.drop_last();
        let (a, b) = law_trimming_takes_blanks(low);
        assert(s.subrange(a, b) =~= low.subrange(a, b));
        assert forall|i: int| 0 <= i < a implies #[trigger] s[i] == 32 || 9 <= s[i] <= 13 by {
            assert(low[i] == s[i]);
        }
        assert forall|i: int| b <= i < s.len() implies #[trigger] s[i] == 32 || 9 <= s[i] <= 13 by {
            if i < low.len() {
                assert(low[i] == s[i]);
            }
        }
        (a, b)
    } else {
        assert(s.subrange(0, s.len() as int) =~= s);
        (0, s.len() as int)
    }
}

/// A text of digits is a number, whose value grows by a digit as the text does;
/// any other byte makes it none.
pub proof fn law_numbers_grow_by_digits(s: Seq<u8>, d: u8)
    ensures
        digits_value(s.push(d)) == (if 48 <= d <= 57 && digits_value(s) is Some {
            Some(10 * digits_value(s)->0 + d - 48)
        } else {
            None
        }),
        digits_value(Seq::<u8>::empty()) == Some(0int),
{
    assert(s.push(d).drop_last() =~= s);
}

} // verus!
