//! Text helpers: the order in which label names are listed, and the few string tests the
//! migration rules are written in.

use vstd::prelude::*;
use vstd::std_specs::iter::IteratorSpec;

verus! {

/// How one text stands to another in lexicographic order.
#[derive(Clone, Copy, Debug, PartialEq, Eq, Structural)]
pub enum Rank {
    Before,
    Same,
    After,
}

/// `a` comes strictly before `b`: at the first position where they differ `a` has the smaller
/// code point, or `a` is a proper prefix of `b`.
pub open spec fn precedes(a: Seq<char>, b: Seq<char>) -> bool {
    exists|k: int| #[trigger] precedes_at(a, b, k)
}

/// `a` and `b` agree on their first `k` characters, `b` goes on after them, and `a` either ends
/// there or goes on with a smaller code point than `b`.
pub open spec fn precedes_at(a: Seq<char>, b: Seq<char>, k: int) -> bool {
    &&& 0 <= k <= a.len()
    &&& k < b.len()
    &&& a.take(k) == b.take(k)
    &&& k < a.len() ==> (a[k] as int) < (b[k] as int)
}

/// The rank of `a` against `b`.
pub open spec fn rank_of(a: Seq<char>, b: Seq<char>) -> Rank {
    if a == b {
        Rank::Same
    } else if precedes(a, b) {
        Rank::Before
    } else {
        Rank::After
    }
}

fn char_before(c: char, d: char) -> (r: bool)
    ensures
        r == ((c as int) < (d as int)),
{
    c < d
}

/// Compares two texts character by character.
pub fn compare(a: &str, b: &str) -> (r: Rank)
    ensures
        r == rank_of(a@, b@),
        r == Rank::After <==> precedes(b@, a@),
{
    broadcast use vstd::string::axiom_spec_iter;
    let mut left = a.chars();
    let mut right = b.chars();
    let ghost mut at: int = 0;
    loop
        invariant
            0 <= at <= a@.len(),
            at <= b@.len(),
            left.remaining() == a@.skip(at),
            right.remaining() == b@.skip(at),
            a@.take(at) == b@.take(at),
            left.obeys_prophetic_iter_laws(),
            right.obeys_prophetic_iter_laws(),
            left.decrease() is Some,
        decreases a@.len() - at,
    {
        let x = left.next();
        let y = right.next();
        match (x, y) {
            (None, None) => {
                proof {
                    assert(a@ == a@.take(at));
                    assert(b@ == b@.take(at));
                    lemma_precedes_irreflexive(a@);
                }
                return Rank::Same;
            },
            (None, Some(_)) => {
                proof {
                    assert(precedes_at(a@, b@, at));
                    lemma_precedes_asymmetric(a@, b@);
                }
                return Rank::Before;
            },
            (Some(_), None) => {
                proof {
                    assert(precedes_at(b@, a@, at));
                    lemma_precedes_asymmetric(b@, a@);
                }
                return Rank::After;
            },
            (Some(c), Some(d)) => {
                if char_before(c, d) {
                    proof {
                        assert(precedes_at(a@, b@, at));
                        lemma_precedes_asymmetric(a@, b@);
                    }
                    return Rank::Before;
                }
                if char_before(d, c) {
                    proof {
                        assert(precedes_at(b@, a@, at));
                        lemma_precedes_asymmetric(b@, a@);
                    }
                    return Rank::After;
                }
                proof {
                    assert(a@.take(at + 1) == a@.take(at).push(a@[at]));
                    assert(b@.take(at + 1) == b@.take(at).push(b@[at]));
                    assert(a@.skip(at).drop_first() == a@.skip(at + 1));
                    assert(b@.skip(at).drop_first() == b@.skip(at + 1));
                    at = at + 1;
                }
            },
        }
    }
}

/// No text comes before itself.
pub proof fn lemma_precedes_irreflexive(a: Seq<char>)
    ensures
        !precedes(a, a),
{
}

/// Of two texts at most one comes before the other.
pub proof fn lemma_precedes_asymmetric(a: Seq<char>, b: Seq<char>)
    requires
        precedes(a, b),
    ensures
        !precedes(b, a),
        a != b,
{
    let k = choose|k: int| #[trigger] precedes_at(a, b, k);
    if precedes(b, a) {
        let j = choose|j: int| #[trigger] precedes_at(b, a, j);
        if j < k {
            assert(a.take(k)[j] == b.take(k)[j]);
        } else if k < j {
            assert(b.take(j)[k] == a.take(j)[k]);
        }
    }
}

/// The order is transitive.
pub proof fn lemma_precedes_transitive(a: Seq<char>, b: Seq<char>, c: Seq<char>)
    requires
        precedes(a, b),
        precedes(b, c),
    ensures
        precedes(a, c),
{
    let k = choose|k: int| #[trigger] precedes_at(a, b, k);
    let j = choose|j: int| #[trigger] precedes_at(b, c, j);
    if k <= j {
        lemma_take_shorter(b, c, j, k);
        assert(precedes_at(a, c, k));
    } else {
        lemma_take_shorter(a, b, k, j);
        assert(precedes_at(a, c, j));
    }
}

/// Any two texts are equal or one comes before the other.
pub proof fn lemma_precedes_total(a: Seq<char>, b: Seq<char>)
    ensures
        a == b || precedes(a, b) || precedes(b, a),
{
    assert(a.take(0) =~= b.take(0));
    lemma_total_from(a, b, 0);
}

proof fn lemma_total_from(a: Seq<char>, b: Seq<char>, k: int)
    requires
        0 <= k <= a.len(),
        k <= b.len(),
        a.take(k) == b.take(k),
    ensures
        a == b || precedes(a, b) || precedes(b, a),
    decreases a.len() - k,
{
    if k == a.len() && k == b.len() {
        assert(a == a.take(k));
        assert(b == b.take(k));
    } else if k == a.len() || (k < b.len() && (a[k] as int) < (b[k] as int)) {
        assert(precedes_at(a, b, k));
    } else if k == b.len() || (b[k] as int) < (a[k] as int) {
        assert(precedes_at(b, a, k));
    } else {
        assert(a.take(k + 1) == a.take(k).push(a[k]));
        assert(b.take(k + 1) == b.take(k).push(b[k]));
        lemma_total_from(a, b, k + 1);
    }
}

proof fn lemma_take_shorter(a: Seq<char>, b: Seq<char>, k: int, j: int)
    requires
        0 <= j <= k <= a.len(),
        k <= b.len(),
        a.take(k) == b.take(k),
    ensures
        a.take(j) == b.take(j),
        j < k ==> a[j] == b[j],
{
    assert(a.take(j) == a.take(k).take(j));
    assert(b.take(j) == b.take(k).take(j));
    if j < k {
        assert(a[j] == a.take(k)[j]);
        assert(b[j] == b.take(k)[j]);
    }
}

/// `s` holds `part` somewhere in it.
pub open spec fn has_infix(s: Seq<char>, part: Seq<char>) -> bool {
    exists|i: int| #[trigger] infix_at(s, part, i)
}

/// `part` stands in `s` from position `i` on.
pub open spec fn infix_at(s: Seq<char>, part: Seq<char>, i: int) -> bool {
    0 <= i && i + part.len() <= s.len() && s.subrange(i, i + part.len()) == part
}

/// The characters of `s`, in order.
pub fn chars_of(s: &str) -> (out: Vec<char>)
    ensures
        out@ == s@,
{
    broadcast use vstd::string::axiom_spec_iter;
    let mut out: Vec<char> = Vec::new();
    for c in it: s.chars()
        invariant
            it.seq() == s@,
            out@ == s@.take(it.index()),
    {
        out.push(c);
    }
    out
}

/// Whether two texts are the same.
pub fn same(a: &str, b: &str) -> (r: bool)
    ensures
        r == (a@ == b@),
{
    compare(a, b) == Rank::Same
}

fn matches_at(s: &Vec<char>, part: &Vec<char>, i: usize) -> (r: bool)
    requires
        i + part.len() <= s.len(),
    ensures
        r == infix_at(s@, part@, i as int),
{
    let mut j: usize = 0;
    while j < part.len()
        invariant
            j <= part.len(),
            i + part.len() <= s.len(),
            s@.subrange(i as int, i + j) == part@.take(j as int),
        decreases part.len() - j,
    {
        if s[i + j] != part[j] {
            proof {
                if infix_at(s@, part@, i as int) {
                    assert(s@.subrange(i as int, i + part.len())[j as int] == part@[j as int]);
                }
            }
            return false;
        }
        proof {
            assert(s@.subrange(i as int, i + j + 1) == s@.subrange(i as int, i + j).push(
                s@[i + j],
            ));
            assert(part@.take(j + 1) == part@.take(j as int).push(part@[j as int]));
        }
        j += 1;
    }
    proof {
        assert(part@.take(part.len() as int) == part@);
    }
    true
}

/// Whether `s` begins with `prefix`.
pub fn starts_with(s: &str, prefix: &str) -> (r: bool)
    ensures
        r == prefix@.is_prefix_of(s@),
{
    let text = chars_of(s);
    let part = chars_of(prefix);
    if part.len() > text.len() {
        return false;
    }
    matches_at(&text, &part, 0)
}

/// Whether `s` ends with `suffix`.
pub fn ends_with(s: &str, suffix: &str) -> (r: bool)
    ensures
        r == suffix@.is_suffix_of(s@),
{
    let text = chars_of(s);
    let part = chars_of(suffix);
    if part.len() > text.len() {
        return false;
    }
    matches_at(&text, &part, text.len() - part.len())
}

/// Whether `part` occurs in `s`.
pub fn contains(s: &str, part: &str) -> (r: bool)
    ensures
        r == has_infix(s@, part@),
{
    let text = chars_of(s);
    let wanted = chars_of(part);
    if wanted.len() > text.len() {
        proof {
            assert forall|i: int| !#[trigger] infix_at(text@, wanted@, i) by {}
        }
        return false;
    }
    let last: usize = text.len() - wanted.len();
    let mut i: usize = 0;
    loop
        invariant
            text@ == s@,
            wanted@ == part@,
            last == text.len() - wanted.len(),
            i <= last,
            forall|k: int| 0 <= k < i ==> !#[trigger] infix_at(text@, wanted@, k),
        decreases last - i,
    {
        if matches_at(&text, &wanted, i) {
            assert(infix_at(text@, wanted@, i as int));
            return true;
        }
        if i == last {
            proof {
                assert forall|k: int| !#[trigger] infix_at(text@, wanted@, k) by {}
            }
            return false;
        }
        i += 1;
    }
}

/// What `{:?}` prints for a text: the text between double quotes, with the characters that
/// Rust escapes written as escapes.
pub uninterp spec fn debug_quoted(value: Seq<char>) -> Seq<char>;

/// `<str as Debug>::fmt` through `format!`: the quoted, escaped form of `value`. The contract
/// only names that form; nothing is proved of the escaping itself.
#[verifier::external_body]
pub(crate) fn quoted(value: &str) -> (r: String)
    ensures
        r@ == debug_quoted(value@),
{
    format!("{:?}", value)
}

/// Whether a character is whitespace: one of the code points that have the Unicode property
/// White_Space.
pub open spec fn is_whitespace(c: char) -> bool {
    let code = c as int;
    ||| 0x9 <= code <= 0xd
    ||| code == 0x20
    ||| code == 0x85
    ||| code == 0xa0
    ||| code == 0x1680
    ||| 0x2000 <= code <= 0x200a
    ||| code == 0x2028
    ||| code == 0x2029
    ||| code == 0x202f
    ||| code == 0x205f
    ||| code == 0x3000
}

/// Whether a character is whitespace.
fn whitespace(c: char) -> (r: bool)
    ensures
        r == is_whitespace(c),
{
    let code = c as u32;
    (0x9 <= code && code <= 0xd) || code == 0x20 || code == 0x85 || code == 0xa0 || code == 0x1680
        || (0x2000 <= code && code <= 0x200a) || code == 0x2028 || code == 0x2029 || code == 0x202f
        || code == 0x205f || code == 0x3000
}

/// How many whitespace characters a text begins with.
pub open spec fn leading(text: Seq<char>) -> nat
    decreases text.len(),
{
    if text.len() == 0 || !is_whitespace(text.first()) {
        0
    } else {
        1 + leading(text.drop_first())
    }
}

/// How many whitespace characters a text ends with.
pub open spec fn trailing(text: Seq<char>) -> nat
    decreases text.len(),
{
    if text.len() == 0 || !is_whitespace(text.last()) {
        0
    } else {
        1 + trailing(text.drop_last())
    }
}

/// A text without the whitespace at its start and at its end.
pub open spec fn trim_of(text: Seq<char>) -> Seq<char> {
    let rest = text.skip(leading(text) as int);
    rest.take(rest.len() - trailing(rest))
}

proof fn lemma_leading(text: Seq<char>, k: int)
    requires
        0 <= k <= text.len(),
        forall|j: int| 0 <= j < k ==> is_whitespace(#[trigger] text[j]),
        k < text.len() ==> !is_whitespace(text[k]),
    ensures
        leading(text) == k,
    decreases k,
{
    if k > 0 {
        let rest = text.drop_first();
        assert forall|j: int| 0 <= j < k - 1 implies is_whitespace(#[trigger] rest[j]) by {
            assert(rest[j] == text[j + 1]);
        }
        if k - 1 < rest.len() {
            assert(rest[k - 1] == text[k]);
        }
        assert(is_whitespace(text[0]));
        lemma_leading(rest, k - 1);
    }
}

proof fn lemma_trailing(text: Seq<char>, k: int)
    requires
        0 <= k <= text.len(),
        forall|j: int| text.len() - k <= j < text.len() ==> is_whitespace(#[trigger] text[j]),
        k < text.len() ==> !is_whitespace(text[text.len() - k - 1]),
    ensures
        trailing(text) == k,
    decreases k,
{
    if k > 0 {
        let rest = text.drop_last();
        assert forall|j: int| rest.len() - (k - 1) <= j < rest.len() implies is_whitespace(
            #[trigger] rest[j],
        ) by {
            assert(rest[j] == text[j]);
        }
        if k - 1 < rest.len() {
            assert(rest[rest.len() - (k - 1) - 1] == text[text.len() - k - 1]);
        }
        assert(is_whitespace(text[text.len() - 1]));
        lemma_trailing(rest, k - 1);
    }
}

/// The text without the whitespace at its start and at its end.
pub fn trimmed(text: &str) -> (r: &str)
    ensures
        r@ == trim_of(text@),
{
    let chars = chars_of(text);
    let mut start: usize = 0;
    while start < chars.len() && whitespace(chars[start])
        invariant
            start <= chars.len(),
            forall|j: int| 0 <= j < start ==> is_whitespace(#[trigger] chars@[j]),
        decreases chars.len() - start,
    {
        start += 1;
    }
    let ghost rest = chars@.skip(start as int);
    let mut end: usize = chars.len();
    while end > start && whitespace(chars[end - 1])
        invariant
            start <= end <= chars.len(),
            rest == chars@.skip(start as int),
            forall|j: int| end <= j < chars.len() ==> is_whitespace(#[trigger] chars@[j]),
        decreases end,
    {
        end -= 1;
    }
    proof {
        lemma_leading(chars@, start as int);
        assert forall|j: int|
            rest.len() - (chars.len() - end) <= j < rest.len() implies is_whitespace(
            #[trigger] rest[j],
        ) by {
            assert(rest[j] == chars@[j + start]);
        }
        if end > start {
            assert(rest[end - start - 1] == chars@[end - 1]);
        }
        lemma_trailing(rest, chars.len() - end);
        assert(text@.subrange(start as int, end as int) =~= rest.take(end - start));
    }
    text.substring_char(start, end)
}

} // verus!
