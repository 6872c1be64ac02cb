use vstd::prelude::*;

use crate::text::{chars_of, is_ascii_digit, is_digit, string_of};

verus! {

/// The characters an integer is read from: the digits, and a `-` met before
/// any of them.
pub open spec fn int_chars(s: Seq<char>) -> Seq<char>
    decreases s.len(),
{
    if s.len() == 0 {
        s
    } else {
        let k = int_chars(s.drop_last());
        let c = s.last();
        if is_digit(c) || (c == '-' && k.len() == 0) {
            k.push(c)
        } else {
            k
        }
    }
}

/// Whether nothing had to be dropped to read an integer.
pub open spec fn int_clean(s: Seq<char>) -> bool
    decreases s.len(),
{
    if s.len() == 0 {
        true
    } else {
        int_clean(s.drop_last()) && (is_digit(s.last()) || (s.last() == '-' && int_chars(
            s.drop_last(),
        ).len() == 0))
    }
}

/// The value of a sequence of decimal digits.
pub open spec fn digits_value(d: Seq<char>) -> int
    decreases d.len(),
{
    if d.len() == 0 {
        0
    } else {
        10 * digits_value(d.drop_last()) + (d.last() as int - '0' as int)
    }
}

/// The integer that a `-` and digits, or digits alone, stand for.
pub open spec fn signed_value(k: Seq<char>) -> Option<int> {
    if k.len() > 0 && k[0] == '-' {
        if k.len() > 1 {
            Some(-digits_value(k.drop_first()))
        } else {
            None
        }
    } else if k.len() > 0 {
        Some(digits_value(k))
    } else {
        None
    }
}

/// The integer read from `s` once every character but the digits and a
/// leading `-` is dropped, if it fits an `isize`.
pub open spec fn int_value(s: Seq<char>) -> Option<isize> {
    match signed_value(int_chars(s)) {
        Some(v) => if isize::MIN <= v <= isize::MAX {
            Some(v as isize)
        } else {
            None
        },
        None => None,
    }
}

proof fn lemma_int_chars_shape(s: Seq<char>)
    ensures
        forall|i: int| 0 < i < int_chars(s).len() ==> is_digit(#[trigger] int_chars(s)[i]),
        forall|i: int|
            0 <= i < int_chars(s).len() ==> is_digit(#[trigger] int_chars(s)[i]) || int_chars(
                s,
            )[i] == '-',
    decreases s.len(),
{
    if s.len() > 0 {
        let k = int_chars(s.drop_last());
        lemma_int_chars_shape(s.drop_last());
        let c = s.last();
        if is_digit(c) || (c == '-' && k.len() == 0) {
            assert forall|i: int| 0 <= i < k.len() implies #[trigger] int_chars(s)[i] == k[i] by {}
            assert(int_chars(s)[k.len() as int] == c);
        }
    }
}

proof fn lemma_digits_grow(d: Seq<char>, c: char)
    requires
        is_digit(c),
        forall|i: int| 0 <= i < d.len() ==> is_digit(#[trigger] d[i]),
    ensures
        digits_value(d.push(c)) >= digits_value(d),
        digits_value(d) >= 0,
    decreases d.len(),
{
    assert(d.push(c).drop_last() =~= d);
    if d.len() > 0 {
        lemma_digits_grow(d.drop_last(), d.last());
    }
}

/// The kept characters and whether every character could be kept.
fn int_filter(s: &Vec<char>) -> (r: (Vec<char>, bool))
    ensures
        r.0@ == int_chars(s@),
        r.1 == int_clean(s@),
{
    let mut k: Vec<char> = Vec::new();
    let mut clean = true;
    let mut i: usize = 0;
    while i < s.len()
        invariant
            i <= s@.len(),
            k@ == int_chars(s@.take(i as int)),
            clean == int_clean(s@.take(i as int)),
        decreases s.len() - i,
    {
        let c = s[i];
        assert(s@.take(i + 1).drop_last() =~= s@.take(i as int));
        if is_ascii_digit(c) || (c == '-' && k.len() == 0) {
            k.push(c);
        } else {
            clean = false;
        }
        i = i + 1;
    }
    assert(s@.take(s@.len() as int) =~= s@);
    (k, clean)
}

/// Reads `-` and digits, or digits alone, as an `isize`.
fn read_isize(k: &Vec<char>) -> (r: Option<isize>)
    requires
        forall|i: int| 0 < i < k@.len() ==> is_digit(#[trigger] k@[i]),
        forall|i: int| 0 <= i < k@.len() ==> is_digit(#[trigger] k@[i]) || k@[i] == '-',
    ensures
        r == match signed_value(k@) {
            Some(v) => if isize::MIN <= v <= isize::MAX {
                Some(v as isize)
            } else {
                None::<isize>
            },
            None => None::<isize>,
        },
{
    if k.len() == 0 {
        return None;
    }
    let negative = k[0] == '-';
    let start: usize = if negative {
        1
    } else {
        0
    };
    if start == k.len() {
        return None;
    }
    let ghost d = k@.subrange(start as int, k@.len() as int);
    assert(negative ==> d =~= k@.drop_first());
    assert(!negative ==> d =~= k@);
    let limit: u128 = (isize::MAX as u128) + 1;
    let mut acc: u128 = 0;
    let mut big = false;
    let mut i: usize = start;
    while i < k.len()
        invariant
            start <= i <= k@.len(),
            d == k@.subrange(start as int, k@.len() as int),
            forall|j: int| start <= j < k@.len() ==> is_digit(#[trigger] k@[j]),
            acc <= limit,
            limit == isize::MAX + 1,
            big ==> digits_value(k@.subrange(start as int, i as int)) > limit,
            !big ==> acc == digits_value(k@.subrange(start as int, i as int)),
        decreases k.len() - i,
    {
        let c = k[i];
        let ghost p = k@.subrange(start as int, i as int);
        assert(k@.subrange(start as int, i + 1) =~= p.push(c));
        assert(p.push(c).drop_last() =~= p);
        proof {
            assert forall|j: int| 0 <= j < p.len() implies is_digit(#[trigger] p[j]) by {
                assert(p[j] == k@[start + j]);
            }
            lemma_digits_grow(p, c);
        }
        if !big {
            let digit = (c as u32 - '0' as u32) as u128;
            let next = acc * 10 + digit;
            if next > limit {
                big = true;
            } else {
                acc = next;
            }
        }
        i = i + 1;
    }
    assert(k@.subrange(start as int, k@.len() as int) == d);
    if big {
        None
    } else if negative {
        Some((0 - (acc as i128)) as isize)
    } else if acc < limit {
        Some(acc as isize)
    } else {
        None
    }
}

/// Reads an integer from `s`, dropping every character but the digits and a
/// `-` that comes before them; `None` when nothing is left to read or the
/// value does not fit.
pub fn s_to_int(s: &str) -> (r: Option<isize>)
    ensures
        r == (if s@.len() == 0 {
            None
        } else {
            int_value(s@)
        }),
{
    s_to_int_validation(s).0
}

/// [`s_to_int`], and whether the text was read without dropping anything.
pub fn s_to_int_validation(s: &str) -> (r: (Option<isize>, bool))
    ensures
        s@.len() == 0 ==> r == (None::<isize>, false),
        s@.len() > 0 ==> r == match int_value(s@) {
            Some(v) => (Some(v), int_clean(s@)),
            None => (None::<isize>, false),
        },
{
    let cs = chars_of(s);
    if cs.len() == 0 {
        return (None, false);
    }
    let (k, clean) = int_filter(&cs);
    proof {
        lemma_int_chars_shape(s@);
    }
    match read_isize(&k) {
        Some(v) => (Some(v), clean),
        None => (None, false),
    }
}

/// The characters a decimal number is read from: the digits, the
/// separators with `,` turned into `.`, and a `-` met before any of them.
pub open spec fn decimal_chars(s: Seq<char>) -> Seq<char>
    decreases s.len(),
{
    if s.len() == 0 {
        s
    } else {
        let k = decimal_chars(s.drop_last());
        let c = s.last();
        if is_digit(c) || c == '.' || (c == '-' && k.len() == 0) {
            k.push(c)
        } else if c == ',' {
            k.push('.')
        } else {
            k
        }
    }
}

/// Whether nothing had to be dropped to read a decimal number.
pub open spec fn decimal_clean(s: Seq<char>) -> bool
    decreases s.len(),
{
    if s.len() == 0 {
        true
    } else {
        decimal_clean(s.drop_last()) && (is_digit(s.last()) || s.last() == '.' || s.last() == ','
            || (s.last() == '-' && decimal_chars(s.drop_last()).len() == 0))
    }
}

/// The text a decimal number is read from, and whether nothing was dropped.
pub fn decimal_filter(s: &str) -> (r: (String, bool))
    ensures
        r.0@ == decimal_chars(s@),
        r.1 == decimal_clean(s@),
{
    let cs = chars_of(s);
    let mut k: Vec<char> = Vec::new();
    let mut clean = true;
    let mut i: usize = 0;
    while i < cs.len()
        invariant
            cs@ == s@,
            i <= cs@.len(),
            k@ == decimal_chars(cs@.take(i as int)),
            clean == decimal_clean(cs@.take(i as int)),
        decreases cs.len() - i,
    {
        let c = cs[i];
        assert(cs@.take(i + 1).drop_last() =~= cs@.take(i as int));
        if is_ascii_digit(c) || c == '.' || (c == '-' && k.len() == 0) {
            k.push(c);
        } else if c == ',' {
            k.push('.');
        } else {
            clean = false;
        }
        i = i + 1;
    }
    assert(cs@.take(cs@.len() as int) =~= cs@);
    (string_of(&k), clean)
}

} // verus!
