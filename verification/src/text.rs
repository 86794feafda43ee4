//! Text building blocks: decimal numerals, substring search and replacement, joining,
//! and the order in which names are listed. Text is modelled as its sequence of
//! characters.
use vstd::prelude::*;

verus! {

/// The character of a decimal digit.
pub open spec fn digit_char(d: nat) -> char {
    (48 + d) as char
}

/// The decimal numeral of `n`, without leading zeros.
pub open spec fn digits(n: nat) -> Seq<char>
    decreases n,
{
    if n < 10 {
        seq![digit_char(n)]
    } else {
        digits(n / 10).push(digit_char(n % 10))
    }
}

/// The `n` lowest decimal digits of `v`, padded with zeros on the left.
pub open spec fn padded_digits(v: nat, n: nat) -> Seq<char>
    decreases n,
{
    if n == 0 {
        Seq::empty()
    } else {
        padded_digits(v / 10, (n - 1) as nat).push(digit_char(v % 10))
    }
}

/// `pat` occurs in `s` at position `i`.
pub open spec fn occurs_at(s: Seq<char>, pat: Seq<char>, i: int) -> bool {
    0 <= i && i + pat.len() <= s.len() && s.subrange(i, i + pat.len()) == pat
}

/// `pat` occurs somewhere in `s`.
pub open spec fn has_text(s: Seq<char>, pat: Seq<char>) -> bool {
    exists|i: int| #[trigger] occurs_at(s, pat, i)
}

/// `s` starts with `prefix`.
pub open spec fn starts_with(s: Seq<char>, prefix: Seq<char>) -> bool {
    prefix.len() <= s.len() && s.take(prefix.len() as int) == prefix
}

/// `s` with every occurrence of `pat` replaced by `with`, searching from the left and
/// going on after each occurrence. An empty `pat` replaces nothing.
pub open spec fn replaced(s: Seq<char>, pat: Seq<char>, with: Seq<char>) -> Seq<char>
    decreases s.len(),
{
    if pat.len() == 0 || s.len() < pat.len() {
        s
    } else if s.subrange(0, pat.len() as int) == pat {
        with + replaced(s.skip(pat.len() as int), pat, with)
    } else {
        s.take(1) + replaced(s.skip(1), pat, with)
    }
}

/// The texts `items`, with `sep` between each two.
pub open spec fn joined(items: Seq<Seq<char>>, sep: Seq<char>) -> Seq<char>
    decreases items.len(),
{
    if items.len() == 0 {
        Seq::empty()
    } else if items.len() == 1 {
        items[0]
    } else {
        joined(items.drop_last(), sep) + sep + items.last()
    }
}

/// The views of a sequence of strings.
pub open spec fn views(items: Seq<String>) -> Seq<Seq<char>> {
    Seq::new(items.len(), |i: int| items[i]@)
}

/// `a` comes before `b`: at the first character where they differ `a` has the lower code
/// point, or `a` is a proper prefix of `b`.
pub open spec fn text_before(a: Seq<char>, b: Seq<char>) -> bool
    decreases a.len(),
{
    if b.len() == 0 {
        false
    } else if a.len() == 0 {
        true
    } else if a[0] != b[0] {
        (a[0] as int) < (b[0] as int)
    } else {
        text_before(a.skip(1), b.skip(1))
    }
}

/// `true` or `false` as text.
pub open spec fn bool_text(b: bool) -> Seq<char> {
    if b {
        "true"@
    } else {
        "false"@
    }
}

/// Of two different texts exactly one comes before the other.
pub proof fn lemma_text_before_total(a: Seq<char>, b: Seq<char>)
    ensures
        a == b ==> !text_before(a, b),
        a != b ==> (text_before(a, b) <==> !text_before(b, a)),
    decreases a.len(),
{
    if a.len() == 0 || b.len() == 0 {
        if a.len() == 0 && b.len() == 0 {
            assert(a =~= b);
        }
    } else if a[0] == b[0] {
        lemma_text_before_total(a.skip(1), b.skip(1));
        if a.skip(1) == b.skip(1) {
            assert(a =~= seq![a[0]] + a.skip(1));
            assert(b =~= seq![b[0]] + b.skip(1));
        }
    }
}

/// The order of texts is transitive.
pub proof fn lemma_text_before_transitive(a: Seq<char>, b: Seq<char>, c: Seq<char>)
    requires
        text_before(a, b),
        text_before(b, c),
    ensures
        text_before(a, c),
    decreases a.len(),
{
    if a.len() > 0 && b.len() > 0 && c.len() > 0 && a[0] == b[0] && b[0] == c[0] {
        lemma_text_before_transitive(a.skip(1), b.skip(1), c.skip(1));
    }
}

/// The one-character text of a decimal digit.
fn digit_str(d: u8) -> (r: &'static str)
    requires
        d < 10,
    ensures
        r@ == seq![digit_char(d as nat)],
{
    proof {
        reveal_strlit("0");
        reveal_strlit("1");
        reveal_strlit("2");
        reveal_strlit("3");
        reveal_strlit("4");
        reveal_strlit("5");
        reveal_strlit("6");
        reveal_strlit("7");
        reveal_strlit("8");
        reveal_strlit("9");
    }
    let r = match d {
        0 => "0",
        1 => "1",
        2 => "2",
        3 => "3",
        4 => "4",
        5 => "5",
        6 => "6",
        7 => "7",
        8 => "8",
        _ => "9",
    };
    assert(r@ =~= seq![digit_char(d as nat)]);
    r
}

/// The decimal numeral of `n`.
pub fn number(n: u64) -> (r: String)
    ensures
        r@ == digits(n as nat),
    decreases n,
{
    if n < 10 {
        String::from_str(digit_str(n as u8))
    } else {
        let mut r = number(n / 10);
        r.append(digit_str((n % 10) as u8));
        assert(r@ =~= digits(n as nat));
        r
    }
}

/// The `n` lowest decimal digits of `v`.
pub fn padded_number(v: u64, n: u64) -> (r: String)
    ensures
        r@ == padded_digits(v as nat, n as nat),
    decreases n,
{
    if n == 0 {
        let r = String::new();
        assert(r@ =~= Seq::<char>::empty());
        r
    } else {
        let mut r = padded_number(v / 10, n - 1);
        r.append(digit_str((v % 10) as u8));
        assert(r@ =~= padded_digits(v as nat, n as nat));
        r
    }
}

/// `true` or `false`.
pub fn bool_str(b: bool) -> (r: &'static str)
    ensures
        r@ == bool_text(b),
{
    if b {
        "true"
    } else {
        "false"
    }
}

/// Whether two texts are equal.
pub fn same_text(a: &str, b: &str) -> (r: bool)
    ensures
        r == (a@ == b@),
{
    let x = String::from_str(a);
    let y = String::from_str(b);
    x == y
}

/// Whether `pat` occurs in `s` at position `i`.
fn matches_at(s: &str, pat: &str, i: usize) -> (r: bool)
    ensures
        r == occurs_at(s@, pat@, i as int),
{
    let n = s.unicode_len();
    let m = pat.unicode_len();
    if m > n || i > n - m {
        return false;
    }
    let mut j: usize = 0;
    while j < m
        invariant
            m == pat@.len(),
            n == s@.len(),
            i + m <= n,
            0 <= j <= m,
            forall|k: int| 0 <= k < j ==> s@[i + k] == pat@[k],
        decreases m - j,
    {
        if s.get_char(i + j) != pat.get_char(j) {
            assert(s@.subrange(i as int, i + pat@.len())[j as int] != pat@[j as int]);
            return false;
        }
        j = j + 1;
    }
    assert(s@.subrange(i as int, i + pat@.len()) =~= pat@);
    true
}

/// Whether `pat` occurs in `s`.
pub fn contains(s: &str, pat: &str) -> (r: bool)
    ensures
        r == has_text(s@, pat@),
{
    let n = s.unicode_len();
    let mut i: usize = 0;
    while i <= n
        invariant
            n == s@.len(),
            i <= n + 1,
            forall|k: int| 0 <= k < i ==> !occurs_at(s@, pat@, k),
        decreases n + 1 - i,
    {
        if matches_at(s, pat, i) {
            return true;
        }
        if i == n {
            assert forall|k: int| !occurs_at(s@, pat@, k) by {
                if 0 <= k <= n {
                } else {
                    assert(!(0 <= k && k + pat@.len() <= s@.len()));
                }
            }
            return false;
        }
        i = i + 1;
    }
    false
}

/// `s` with every occurrence of `pat` replaced by `with`.
pub fn replace(s: &str, pat: &str, with: &str) -> (r: String)
    ensures
        r@ == replaced(s@, pat@, with@),
{
    let n = s.unicode_len();
    let m = pat.unicode_len();
    if m == 0 || n < m {
        return String::from_str(s);
    }
    let mut out = String::new();
    let mut i: usize = 0;
    assert(s@.skip(0) =~= s@);
    assert(out@ + replaced(s@, pat@, with@) =~= replaced(s@, pat@, with@));
    while i <= n - m
        invariant
            n == s@.len(),
            m == pat@.len(),
            0 < m <= n,
            i <= n,
            out@ + replaced(s@.skip(i as int), pat@, with@) == replaced(s@, pat@, with@),
        decreases n - i,
    {
        let ghost rest = s@.skip(i as int);
        let ghost before = out@;
        if matches_at(s, pat, i) {
            out.append(with);
            proof {
                assert(rest.subrange(0, m as int) =~= s@.subrange(i as int, i + m));
                assert(rest.skip(m as int) =~= s@.skip(i + m));
                assert(before + (with@ + replaced(rest.skip(m as int), pat@, with@)) =~= out@
                    + replaced(s@.skip(i + m), pat@, with@));
            }
            i = i + m;
        } else {
            out.append(s.substring_char(i, i + 1));
            proof {
                assert(rest.subrange(0, m as int) =~= s@.subrange(i as int, i + m));
                assert(rest.skip(1) =~= s@.skip(i + 1));
                assert(rest.take(1) =~= s@.subrange(i as int, i + 1));
                assert(before + (rest.take(1) + replaced(rest.skip(1), pat@, with@)) =~= out@
                    + replaced(s@.skip(i + 1), pat@, with@));
            }
            i = i + 1;
        }
    }
    out.append(s.substring_char(i, n));
    assert(s@.skip(i as int) =~= s@.subrange(i as int, n as int));
    out
}

/// The strings `items` with `sep` between each two.
pub fn join(items: &Vec<String>, sep: &str) -> (r: String)
    ensures
        r@ == joined(views(items@), sep@),
{
    let mut out = String::new();
    let mut i: usize = 0;
    assert(views(items@).take(0) =~= Seq::<Seq<char>>::empty());
    assert(out@ =~= joined(views(items@).take(0), sep@));
    while i < items.len()
        invariant
            i <= items.len(),
            out@ == joined(views(items@).take(i as int), sep@),
        decreases items.len() - i,
    {
        if i > 0 {
            out.append(sep);
        }
        out.append(items[i].as_str());
        proof {
            let next = views(items@).take(i + 1);
            assert(next.drop_last() =~= views(items@).take(i as int));
            assert(next.last() == items@[i as int]@);
            if i == 0 {
                assert(out@ =~= next[0]);
            } else {
                assert(out@ =~= joined(next.drop_last(), sep@) + sep@ + next.last());
            }
        }
        i = i + 1;
    }
    assert(views(items@).take(items@.len() as int) =~= views(items@));
    out
}

/// Whether `a` comes before `b` in the order of names.
pub fn comes_before(a: &str, b: &str) -> (r: bool)
    ensures
        r == text_before(a@, b@),
{
    let n = a.unicode_len();
    let m = b.unicode_len();
    let mut i: usize = 0;
    assert(a@.skip(0) =~= a@ && b@.skip(0) =~= b@);
    while i < n && i < m
        invariant
            n == a@.len(),
            m == b@.len(),
            i <= n,
            i <= m,
            text_before(a@, b@) == text_before(a@.skip(i as int), b@.skip(i as int)),
        decreases n - i,
    {
        let x = a.get_char(i);
        let y = b.get_char(i);
        assert(a@.skip(i as int)[0] == x && b@.skip(i as int)[0] == y);
        if x != y {
            return (x as u32) < (y as u32);
        }
        assert(a@.skip(i as int).skip(1) =~= a@.skip(i + 1));
        assert(b@.skip(i as int).skip(1) =~= b@.skip(i + 1));
        i = i + 1;
    }
    i < m
}

/// The number that a text of decimal digits stands for.
pub open spec fn numeral_value(s: Seq<char>) -> int
    decreases s.len(),
{
    if s.len() == 0 {
        0
    } else {
        10 * numeral_value(s.drop_last()) + (s.last() as int - '0' as int)
    }
}

/// The numeral of a number stands for it: it has digits only, no leading zero, and reads back
/// as the number.
pub proof fn law_numerals_read_back(n: nat)
    ensures
        numeral_value(digits(n)) == n,
        digits(n).len() > 0,
        forall|i: int| 0 <= i < digits(n).len() ==> '0' <= #[trigger] digits(n)[i] <= '9',
        digits(n)[0] == '0' ==> n == 0,
    decreases n,
{
    if n >= 10 {
        law_numerals_read_back(n / 10);
        assert(digits(n).drop_last() =~= digits(n / 10));
    } else {
        assert(digits(n).drop_last() =~= Seq::<char>::empty());
        assert(numeral_value(digits(n).drop_last()) == 0);
    }
}

/// Padded digits are as many as asked for and stand for the lowest digits of the number.
pub proof fn law_padded_digits_read_back(v: nat, n: nat)
    ensures
        padded_digits(v, n).len() == n,
        numeral_value(padded_digits(v, n)) == v as int % vstd::arithmetic::power::pow(10, n),
        forall|i: int| 0 <= i < n ==> '0' <= #[trigger] padded_digits(v, n)[i] <= '9',
    decreases n,
{
    vstd::arithmetic::power::lemma_pow_positive(10, n);
    if n > 0 {
        let k = (n - 1) as nat;
        law_padded_digits_read_back(v / 10, k);
        vstd::arithmetic::power::lemma_pow_positive(10, k);
        assert(padded_digits(v, n).drop_last() =~= padded_digits(v / 10, k));
        let p = vstd::arithmetic::power::pow(10, k);
        assert(vstd::arithmetic::power::pow(10, n) == 10 * p) by {
            reveal(vstd::arithmetic::power::pow);
        }
        vstd::arithmetic::div_mod::lemma_breakdown(v as int, 10, p);
    } else {
        vstd::arithmetic::power::lemma_pow0(10);
    }
}

/// `c` does not occur in `s`.
pub open spec fn free_of(s: Seq<char>, c: char) -> bool {
    forall|i: int| 0 <= i < s.len() ==> #[trigger] s[i] != c
}

/// Replacing leaves alone what comes before the first character of the pattern.
pub proof fn law_replacing_starts_at_the_pattern(
    before: Seq<char>,
    rest: Seq<char>,
    pat: Seq<char>,
    with: Seq<char>,
)
    requires
        pat.len() > 0,
        free_of(before, pat[0]),
    ensures
        replaced(before + rest, pat, with) == before + replaced(rest, pat, with),
        replaced(before, pat, with) == before,
    decreases before.len(),
{
    if before.len() == 0 {
        assert(before + rest =~= rest);
        assert(before + replaced(rest, pat, with) =~= replaced(rest, pat, with));
        assert(replaced(before, pat, with) =~= before);
    } else {
        let all = before + rest;
        let tail = before.skip(1);
        assert forall|i: int| 0 <= i < tail.len() implies #[trigger] tail[i] != pat[0] by {
            assert(tail[i] == before[i + 1]);
        }
        law_replacing_starts_at_the_pattern(tail, rest, pat, with);
        assert(all.skip(1) =~= tail + rest);
        assert(before[0] != pat[0]);
        if all.len() >= pat.len() {
            assert(all.subrange(0, pat.len() as int)[0] == before[0]);
            assert(all.take(1) + replaced(all.skip(1), pat, with) =~= before + replaced(
                rest,
                pat,
                with,
            ));
        } else {
            assert(rest.len() < pat.len());
            assert(replaced(rest, pat, with) == rest);
        }
        if before.len() >= pat.len() {
            assert(before.subrange(0, pat.len() as int)[0] == before[0]);
            assert(before.take(1) + tail =~= before);
        }
    }
}

/// Replacing puts the new text in the place of the pattern and goes on after it.
pub proof fn law_replacing_replaces_the_pattern(rest: Seq<char>, pat: Seq<char>, with: Seq<char>)
    requires
        pat.len() > 0,
    ensures
        replaced(pat + rest, pat, with) == with + replaced(rest, pat, with),
{
    let all = pat + rest;
    assert(all.subrange(0, pat.len() as int) =~= pat);
    assert(all.skip(pat.len() as int) =~= rest);
}

/// Replacing passes over a text that starts like the pattern and then differs.
pub proof fn law_replacing_passes_over_other_text(
    other: Seq<char>,
    rest: Seq<char>,
    pat: Seq<char>,
    with: Seq<char>,
)
    requires
        pat.len() >= 2,
        other.len() >= 2,
        other[0] == pat[0],
        other[1] != pat[1],
        free_of(other.skip(1), pat[0]),
    ensures
        replaced(other + rest, pat, with) == other + replaced(rest, pat, with),
{
    let all = other + rest;
    let tail = other.skip(1);
    law_replacing_starts_at_the_pattern(tail, rest, pat, with);
    assert(all.skip(1) =~= tail + rest);
    if all.len() >= pat.len() {
        assert(all.subrange(0, pat.len() as int)[1] == other[1]);
        assert(all.take(1) + (tail + replaced(rest, pat, with)) =~= other + replaced(
            rest,
            pat,
            with,
        ));
    } else {
        assert(replaced(rest, pat, with) == rest);
    }
}

/// The order of texts is decided at the first place where they differ: by the code points there,
/// or, where one of them ends, by the end, which comes first.
pub proof fn law_texts_are_ordered_by_the_first_difference(a: Seq<char>, b: Seq<char>, p: int)
    requires
        0 <= p <= a.len(),
        p <= b.len(),
        forall|i: int| 0 <= i < p ==> #[trigger] a[i] == b[i],
        p < a.len() && p < b.len() ==> a[p] != b[p],
    ensures
        p < a.len() && p < b.len() ==> (text_before(a, b) <==> (a[p] as int) < (b[p] as int)),
        p == a.len() ==> (text_before(a, b) <==> p < b.len()),
        p == b.len() ==> !text_before(a, b),
    decreases p,
{
    if p > 0 {
        let s = a.skip(1);
        let t = b.skip(1);
        assert forall|i: int| 0 <= i < p - 1 implies #[trigger] s[i] == t[i] by {
            assert(a[i + 1] == b[i + 1]);
        }
        assert(a[0] == b[0]);
        law_texts_are_ordered_by_the_first_difference(s, t, p - 1);
    }
}

/// Joined texts stand in their order with the separator between them: the first one, the
/// separator, and the others joined.
pub proof fn law_joining_keeps_the_order(items: Seq<Seq<char>>, sep: Seq<char>)
    ensures
        items.len() == 0 ==> joined(items, sep).len() == 0,
        items.len() == 1 ==> joined(items, sep) == items[0],
        items.len() >= 2 ==> joined(items, sep) == items[0] + sep + joined(items.skip(1), sep),
    decreases items.len(),
{
    if items.len() == 2 {
        assert(items.drop_last().len() == 1 && items.drop_last()[0] == items[0]);
        assert(items.skip(1).len() == 1 && items.skip(1)[0] == items[1]);
        assert(joined(items.skip(1), sep) == items[1]);
        assert(joined(items.drop_last(), sep) == items[0]);
    } else if items.len() > 2 {
        let front = items.drop_last();
        law_joining_keeps_the_order(front, sep);
        assert(items.skip(1).drop_last() =~= front.skip(1));
        assert(items.skip(1).last() == items.last());
        let mid = joined(front.skip(1), sep);
        assert((items[0] + sep + mid) + sep + items.last() =~= items[0] + sep + (mid + sep
            + items.last()));
    }
}

/// A pattern occurs at a place exactly when the text is what stands before the place, the
/// pattern, and what stands behind it.
pub proof fn law_occurrences(s: Seq<char>, pat: Seq<char>, i: int)
    requires
        0 <= i <= s.len(),
    ensures
        occurs_at(s, pat, i) <==> exists|rest: Seq<char>| s == #[trigger] (s.take(i) + pat + rest),
{
    if occurs_at(s, pat, i) {
        let rest = s.skip(i + pat.len());
        assert forall|k: int| i <= k < i + pat.len() implies s[k] == pat[k - i] by {
            assert(s.subrange(i, i + pat.len())[k - i] == s[k]);
        }
        assert(s =~= s.take(i) + pat + rest);
    }
    if exists|rest: Seq<char>| s == #[trigger] (s.take(i) + pat + rest) {
        let rest = choose|rest: Seq<char>| s == #[trigger] (s.take(i) + pat + rest);
        let whole = s.take(i) + pat + rest;
        assert(whole.len() == i + pat.len() + rest.len());
        assert(s.subrange(i, i + pat.len()) =~= pat);
    }
}

} // verus!
