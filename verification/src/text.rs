//! Verified text helpers: whole-string equality and substring search,
//! each stated over the character sequences of its arguments.

use vstd::prelude::*;
use vstd::string::*;

verus! {

/// Whole-string equality, stated over the character sequences.
pub fn str_eq(a: &str, b: &str) -> (r: bool)
    ensures
        r == (a@ == b@),
{
    let la = a.unicode_len();
    let lb = b.unicode_len();
    if la != lb {
        assert(a@ != b@) by {
            assert(a@.len() != b@.len());
        }
        return false;
    }
    let mut i: usize = 0;
    while i < la
        invariant
            la == a@.len(),
            la == b@.len(),
            i <= la,
            forall|j: int| 0 <= j < i ==> a@[j] == b@[j],
        decreases la - i,
    {
        if a.get_char(i) != b.get_char(i) {
            return false;
        }
        i = i + 1;
    }
    proof {
        assert(a@ =~= b@);
    }
    true
}

/// The needle matches the haystack at offset `i`.
pub open spec fn match_at(h: Seq<char>, n: Seq<char>, i: int) -> bool {
    0 <= i && i + n.len() <= h.len() && h.subrange(i, i + n.len()) == n
}

/// The needle occurs somewhere in the haystack.
pub open spec fn seq_contains(h: Seq<char>, n: Seq<char>) -> bool {
    exists|i: int| match_at(h, n, i)
}

/// Whether the needle matches the haystack at offset `i`.
fn match_here(hay: &str, needle: &str, i: usize) -> (r: bool)
    requires
        i + needle@.len() <= hay@.len(),
        hay@.len() <= usize::MAX,
    ensures
        r == match_at(hay@, needle@, i as int),
{
    let nl = needle.unicode_len();
    let mut j: usize = 0;
    while j < nl
        invariant
            nl == needle@.len(),
            i + nl <= hay@.len(),
            hay@.len() <= usize::MAX,
            j <= nl,
            forall|u: int| 0 <= u < j ==> hay@[i + u] == needle@[u],
        decreases nl - j,
    {
        if hay.get_char(i + j) != needle.get_char(j) {
            proof {
                assert(hay@[i + j] != needle@[j as int]);
                if match_at(hay@, needle@, i as int) {
                    assert(hay@.subrange(i as int, i + nl)[j as int] == hay@[i + j]);
                }
            }
            return false;
        }
        j = j + 1;
    }
    proof {
        assert forall|u: int| 0 <= u < nl implies hay@.subrange(i as int, i + nl)[u]
            == needle@[u] by {
            assert(hay@[i + u] == needle@[u]);
        }
        assert(hay@.subrange(i as int, i + nl) =~= needle@);
    }
    true
}

/// Substring search, stated over the character sequences.
pub fn contains_sub(hay: &str, needle: &str) -> (r: bool)
    ensures
        r == seq_contains(hay@, needle@),
{
    let hl = hay.unicode_len();
    let nl = needle.unicode_len();
    if nl == 0 {
        proof {
            assert(hay@.subrange(0, 0) =~= needle@);
            assert(match_at(hay@, needle@, 0));
        }
        return true;
    }
    if nl > hl {
        assert(!seq_contains(hay@, needle@)) by {
            assert(forall|i: int| !match_at(hay@, needle@, i));
        }
        return false;
    }
    let mut i: usize = 0;
    while i <= hl - nl
        invariant
            hl == hay@.len(),
            nl == needle@.len(),
            1 <= nl <= hl,
            i <= hl - nl + 1,
            forall|k: int| 0 <= k < i ==> !match_at(hay@, needle@, k),
        decreases hl - nl + 1 - i,
    {
        if match_here(hay, needle, i) {
            return true;
        }
        i = i + 1;
    }
    proof {
        assert forall|k: int| !match_at(hay@, needle@, k) by {
            if 0 <= k && k + nl <= hl {
                assert(!match_at(hay@, needle@, k));
            }
        }
    }
    false
}

/// Lexicographic order on texts by code point, which for UTF-8 encoded
/// strings coincides with the byte order `str` compares by.
pub open spec fn spec_str_lt(a: Seq<char>, b: Seq<char>) -> bool
    decreases a.len(),
{
    if b.len() == 0 {
        false
    } else if a.len() == 0 {
        true
    } else if a[0] != b[0] {
        (a[0] as u32) < (b[0] as u32)
    } else {
        spec_str_lt(a.drop_first(), b.drop_first())
    }
}

/// Reflexive companion of [`spec_str_lt`].
pub open spec fn spec_str_le(a: Seq<char>, b: Seq<char>) -> bool {
    !spec_str_lt(b, a)
}

/// The order is strict: at most one direction holds.
pub proof fn lemma_str_lt_asymmetric(a: Seq<char>, b: Seq<char>)
    ensures
        !(spec_str_lt(a, b) && spec_str_lt(b, a)),
    decreases a.len(),
{
    if a.len() > 0 && b.len() > 0 && a[0] == b[0] {
        lemma_str_lt_asymmetric(a.drop_first(), b.drop_first());
    }
}

/// The order is connected: incomparable texts are equal.
pub proof fn lemma_str_lt_connected(a: Seq<char>, b: Seq<char>)
    requires
        !spec_str_lt(a, b),
        !spec_str_lt(b, a),
    ensures
        a == b,
    decreases a.len(),
{
    if a.len() > 0 && b.len() > 0 {
        if a[0] == b[0] {
            lemma_str_lt_connected(a.drop_first(), b.drop_first());
            assert(a =~= b) by {
                assert(a.drop_first() == b.drop_first());
                assert(a.len() == b.len());
                assert forall|i: int| 0 <= i < a.len() implies a[i] == b[i] by {
                    if i > 0 {
                        assert(a.drop_first()[i - 1] == b.drop_first()[i - 1]);
                    }
                }
            }
        } else {
            assert((a[0] as u32) != (b[0] as u32)) by {
                vstd::utf8::char_u32_cast(a[0], a[0] as u32);
                vstd::utf8::char_u32_cast(b[0], b[0] as u32);
            }
        }
    }
}

/// The order is transitive.
pub proof fn lemma_str_lt_transitive(a: Seq<char>, b: Seq<char>, c: Seq<char>)
    requires
        spec_str_lt(a, b),
        spec_str_lt(b, c),
    ensures
        spec_str_lt(a, c),
    decreases a.len(),
{
    if a.len() > 0 && b.len() > 0 && c.len() > 0 {
        if a[0] == b[0] && b[0] == c[0] {
            lemma_str_lt_transitive(a.drop_first(), b.drop_first(), c.drop_first());
        }
    }
}

/// [`spec_str_le`] is transitive.
pub proof fn lemma_str_le_transitive(a: Seq<char>, b: Seq<char>, c: Seq<char>)
    requires
        spec_str_le(a, b),
        spec_str_le(b, c),
    ensures
        spec_str_le(a, c),
{
    if spec_str_lt(c, a) {
        if spec_str_lt(a, b) {
            lemma_str_lt_transitive(c, a, b);
        } else {
            lemma_str_lt_connected(a, b);
        }
    }
}

/// Lexicographic comparison, stated over the character sequences.
pub fn str_lt(a: &str, b: &str) -> (r: bool)
    ensures
        r == spec_str_lt(a@, b@),
{
    let la = a.unicode_len();
    let lb = b.unicode_len();
    let mut i: usize = 0;
    proof {
        assert(a@.skip(0) =~= a@);
        assert(b@.skip(0) =~= b@);
    }
    while i < la && i < lb
        invariant
            la == a@.len(),
            lb == b@.len(),
            i <= la,
            i <= lb,
            spec_str_lt(a@, b@) == spec_str_lt(a@.skip(i as int), b@.skip(i as int)),
        decreases la - i,
    {
        let ca = a.get_char(i);
        let cb = b.get_char(i);
        proof {
            assert(a@.skip(i as int)[0] == a@[i as int]);
            assert(b@.skip(i as int)[0] == b@[i as int]);
        }
        if ca != cb {
            return (ca as u32) < (cb as u32);
        }
        proof {
            assert(a@.skip(i as int).drop_first() =~= a@.skip(i + 1));
            assert(b@.skip(i as int).drop_first() =~= b@.skip(i + 1));
        }
        i = i + 1;
    }
    proof {
        if i >= lb {
            assert(b@.skip(i as int).len() == 0);
        } else {
            assert(a@.skip(i as int).len() == 0);
            assert(b@.skip(i as int).len() > 0);
        }
    }
    i < lb
}

/// The digit character for one decimal digit.
pub open spec fn spec_digit(d: int) -> char {
    if d == 0 { '0' } else if d == 1 { '1' } else if d == 2 { '2' } else if d == 3 { '3' }
    else if d == 4 { '4' } else if d == 5 { '5' } else if d == 6 { '6' } else if d == 7 { '7' }
    else if d == 8 { '8' } else { '9' }
}

/// The decimal digits of a number, most significant first.
pub open spec fn spec_udec(n: int) -> Seq<char>
    decreases n,
{
    if n < 10 {
        seq![spec_digit(n)]
    } else {
        spec_udec(n / 10).push(spec_digit(n % 10))
    }
}

/// The digits collected least-significant-first, read backwards.
pub open spec fn rev_digits(ds: Seq<usize>) -> Seq<char> {
    Seq::new(ds.len(), |i: int| spec_digit(ds[ds.len() - 1 - i] as int))
}

/// The character of one decimal digit.
fn digit_str(d: usize) -> (r: &'static str)
    requires
        d < 10,
    ensures
        r@ == seq![spec_digit(d as int)],
{
    let r = match d {
        0 => "0",
        1 => "1",
        2 => "2",
        3 => "3",
        4 => "4",
        5 => "5",
        6 => "6",
        7 => "7",
        8 => "8",
        _ => "9",
    };
    proof {
        reveal_strlit("0");
        reveal_strlit("1");
        reveal_strlit("2");
        reveal_strlit("3");
        reveal_strlit("4");
        reveal_strlit("5");
        reveal_strlit("6");
        reveal_strlit("7");
        reveal_strlit("8");
        reveal_strlit("9");
        assert(r@ =~= seq![spec_digit(d as int)]);
    }
    r
}

/// Renders a number in decimal.
pub fn usize_to_decimal(n: usize) -> (s: String)
    ensures
        s@ == spec_udec(n as int),
{
    let mut digits: Vec<usize> = Vec::new();
    let mut m = n;
    while m >= 10
        invariant
            spec_udec(n as int) =~= spec_udec(m as int) + rev_digits(digits@),
            forall|i: int| 0 <= i < digits@.len() ==> #[trigger] digits@[i] < 10,
        decreases m,
    {
        let ghost ds0 = digits@;
        let ghost m0 = m as int;
        digits.push(m % 10);
        m = m / 10;
        proof {
            assert(spec_udec(m0) == spec_udec(m0 / 10).push(spec_digit(m0 % 10)));
            assert(rev_digits(ds0.push((m0 % 10) as usize))
                =~= seq![spec_digit(m0 % 10)] + rev_digits(ds0));
            assert(spec_udec(m0 / 10).push(spec_digit(m0 % 10)) + rev_digits(ds0)
                =~= spec_udec(m0 / 10) + (seq![spec_digit(m0 % 10)] + rev_digits(ds0)));
            assert(spec_udec(n as int) =~= spec_udec(m as int) + rev_digits(digits@));
        }
    }
    let ghost dsf = digits@;
    digits.push(m);
    proof {
        assert(spec_udec(m as int) == seq![spec_digit(m as int)]);
        assert(rev_digits(dsf.push(m)) =~= seq![spec_digit(m as int)] + rev_digits(dsf));
        assert(spec_udec(n as int) =~= rev_digits(digits@));
    }
    let k = digits.len();
    let mut s = String::new();
    let mut j: usize = 0;
    while j < k
        invariant
            k == digits@.len(),
            j <= k,
            forall|i: int| 0 <= i < k ==> #[trigger] digits@[i] < 10,
            s@ =~= rev_digits(digits@).subrange(0, j as int),
        decreases k - j,
    {
        s.append(digit_str(digits[k - 1 - j]));
        proof {
            assert(rev_digits(digits@)[j as int] == spec_digit(digits@[k - 1 - j] as int));
            assert(s@ =~= rev_digits(digits@).subrange(0, j + 1));
        }
        j = j + 1;
    }
    proof {
        assert(rev_digits(digits@).subrange(0, k as int) =~= rev_digits(digits@));
    }
    s
}

} // verus!
