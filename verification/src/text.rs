//! Plain text pieces: decimal numerals and searching.
use vstd::prelude::*;

verus! {

/// The character for one decimal digit.
pub open spec fn digit(d: nat) -> char {
    (48 + d) as char
}

/// The decimal numeral of `n`, without leading zeros.
pub open spec fn numeral(n: nat) -> Seq<char>
    decreases n,
{
    if n < 10 {
        seq![digit(n)]
    } else {
        numeral(n / 10).push(digit(n % 10))
    }
}

/// The number that a row of decimal digits stands for.
pub open spec fn reading(digits: Seq<char>) -> nat
    decreases digits.len(),
{
    if digits.len() == 0 {
        0
    } else {
        (10 * reading(digits.drop_last()) + (digits.last() as int - 48)) as nat
    }
}

/// A numeral is a row of digits that reads as its number, and it does not begin with a zero
/// but for zero itself.
pub proof fn law_numeral_reads_back(n: nat)
    ensures
        numeral(n).len() > 0,
        forall|i: int| 0 <= i < numeral(n).len() ==> '0' <= #[trigger] numeral(n)[i] <= '9',
        reading(numeral(n)) == n,
        n > 0 ==> numeral(n)[0] != '0',
    decreases n,
{
    let shown = numeral(n);
    if n < 10 {
        assert(shown.drop_last().len() == 0);
        assert(reading(shown.drop_last()) == 0);
    } else {
        law_numeral_reads_back(n / 10);
        assert(shown.drop_last() =~= numeral(n / 10));
        assert(shown[0] == numeral(n / 10)[0]);
        assert forall|i: int| 0 <= i < shown.len() implies '0' <= #[trigger] shown[i] <= '9' by {
            if i < numeral(n / 10).len() {
                assert(shown[i] == numeral(n / 10)[i]);
            }
        }
    }
}

/// One row of digits after another reads as the first, moved up by the places of the second,
/// and the second.
pub proof fn lemma_rows_read_on(first: Seq<char>, second: Seq<char>)
    requires
        forall|i: int| 0 <= i < first.len() ==> '0' <= #[trigger] first[i] <= '9',
        forall|i: int| 0 <= i < second.len() ==> '0' <= #[trigger] second[i] <= '9',
    ensures
        reading(first + second) == reading(first) * places(second.len()) + reading(second),
    decreases second.len(),
{
    let all = first + second;
    if second.len() == 0 {
        assert(all =~= first);
        assert(reading(first) * 1 == reading(first)) by (nonlinear_arith);
    } else {
        let less = second.drop_last();
        lemma_rows_read_on(first, less);
        assert(all.drop_last() =~= first + less);
        assert(all.last() == second.last());
        let (r, t) = (reading(first), places(less.len()));
        assert(10 * (r * t) == r * (10 * t)) by (nonlinear_arith);
    }
}

/// What one is moved up to by so many decimal places.
pub open spec fn places(n: nat) -> nat
    decreases n,
{
    if n == 0 {
        1
    } else {
        10 * places((n - 1) as nat)
    }
}

pub(crate) fn digit_text(d: u64) -> (r: &'static str)
    requires
        d < 10,
    ensures
        r@ == seq![digit(d as nat)],
{
    proof {
        reveal_strlit("0");
        reveal_strlit("1");
        reveal_strlit("2");
        reveal_strlit("3");
        reveal_strlit("4");
        reveal_strlit("5");
        reveal_strlit("6");
        reveal_strlit("7");
        reveal_strlit("8");
        reveal_strlit("9");
    }
    let r: &'static str = match d {
        0 => "0",
        1 => "1",
        2 => "2",
        3 => "3",
        4 => "4",
        5 => "5",
        6 => "6",
        7 => "7",
        8 => "8",
        _ => "9",
    };
    assert(r@ =~= seq![digit(d as nat)]);
    r
}

/// Writes `n` in decimal.
pub fn decimal(n: u64) -> (r: String)
    ensures
        r@ == numeral(n as nat),
    decreases n,
{
    if n < 10 {
        digit_text(n).to_owned()
    } else {
        let mut r: String = decimal(n / 10);
        r.append(digit_text(n % 10));
        assert(r@ =~= numeral(n as nat));
        r
    }
}

/// `pattern` stands in `text` from place `k` on.
pub open spec fn occurs_at(text: Seq<char>, pattern: Seq<char>, k: int) -> bool {
    0 <= k && k + pattern.len() <= text.len() && text.subrange(k, k + pattern.len()) == pattern
}

/// `pattern` stands somewhere in `text`.
pub open spec fn occurs(text: Seq<char>, pattern: Seq<char>) -> bool {
    exists|k: int| occurs_at(text, pattern, k)
}

/// A pattern occurs in a text exactly where the text is something, the pattern and something
/// more.
pub proof fn law_pattern_stands_between(before: Seq<char>, pattern: Seq<char>, after: Seq<char>)
    ensures
        occurs(before + pattern + after, pattern),
        occurs(before, pattern) ==> exists|head: Seq<char>, tail: Seq<char>|
            before == #[trigger] (head + pattern + tail),
{
    let text = before + pattern + after;
    let k = before.len() as int;
    assert(text.subrange(k, k + pattern.len()) =~= pattern);
    assert(occurs_at(text, pattern, k));
    if occurs(before, pattern) {
        let k = choose|k: int| occurs_at(before, pattern, k);
        let (head, tail) = (before.take(k), before.skip(k + pattern.len()));
        assert(before =~= head + pattern + tail);
    }
}

fn stands_at(text: &str, pattern: &str, k: usize) -> (r: bool)
    requires
        k + pattern@.len() <= text@.len(),
    ensures
        r == occurs_at(text@, pattern@, k as int),
{
    let n: usize = pattern.unicode_len();
    let length: usize = text.unicode_len();
    let mut i: usize = 0;
    while i < n
        invariant
            i <= n,
            n == pattern@.len(),
            length == text@.len(),
            k + n <= length,
            forall|j: int| 0 <= j < i ==> text@[k + j] == pattern@[j],
        decreases n - i,
    {
        if text.get_char(k + i) != pattern.get_char(i) {
            assert(text@.subrange(k as int, k + n)[i as int] != pattern@[i as int]);
            return false;
        }
        i = i + 1;
    }
    assert(text@.subrange(k as int, k + n) =~= pattern@);
    true
}

/// Whether `pattern` stands somewhere in `text`.
pub fn contains(text: &str, pattern: &str) -> (r: bool)
    ensures
        r == occurs(text@, pattern@),
{
    let n: usize = text.unicode_len();
    let m: usize = pattern.unicode_len();
    if m > n {
        assert forall|k: int| !occurs_at(text@, pattern@, k) by {}
        return false;
    }
    let mut k: usize = 0;
    while k <= n - m
        invariant
            n == text@.len(),
            m == pattern@.len(),
            m <= n,
            k <= n - m + 1,
            forall|j: int| 0 <= j < k ==> !occurs_at(text@, pattern@, j),
        decreases n - m + 1 - k,
    {
        if stands_at(text, pattern, k) {
            return true;
        }
        if k == n - m {
            return false;
        }
        k = k + 1;
    }
    false
}

} // verus!
