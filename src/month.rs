use vstd::prelude::*;

verus! {

/// A calendar month, the key receipts are grouped under.
#[derive(Clone, Copy, Debug, PartialEq, Eq, Structural)]
pub struct MonthKey {
    pub year: i32,
    pub month: u32,
}

/// Chronological order of month keys.
pub open spec fn key_lt(a: MonthKey, b: MonthKey) -> bool {
    a.year < b.year || (a.year == b.year && a.month < b.month)
}

pub open spec fn digit_char(d: nat) -> char {
    if d == 0 { '0' }
    else if d == 1 { '1' }
    else if d == 2 { '2' }
    else if d == 3 { '3' }
    else if d == 4 { '4' }
    else if d == 5 { '5' }
    else if d == 6 { '6' }
    else if d == 7 { '7' }
    else if d == 8 { '8' }
    else { '9' }
}

/// Decimal digits of `n`, padded with leading zeros to at least `width`.
pub open spec fn padded_digits(n: nat, width: nat) -> Seq<char>
    decreases n + width,
{
    if n < 10 && width <= 1 {
        seq![digit_char(n)]
    } else {
        padded_digits(n / 10, if width == 0 { 0 } else { (width - 1) as nat }) + seq![digit_char(n % 10)]
    }
}

/// A year as four zero-padded digits; outside 0..=9999 it carries its sign.
pub open spec fn year_text(y: int) -> Seq<char> {
    if 0 <= y <= 9999 {
        padded_digits(y as nat, 4)
    } else if y < 0 {
        seq!['-'] + padded_digits((-y) as nat, 4)
    } else {
        seq!['+'] + padded_digits(y as nat, 4)
    }
}

/// The `YYYY-MM` text of a month key.
pub open spec fn month_label(k: MonthKey) -> Seq<char> {
    year_text(k.year as int) + seq!['-'] + padded_digits(k.month as nat, 2)
}

fn digit_str(d: u32) -> (r: &'static str)
    requires
        d < 10,
    ensures
        r@ == seq![digit_char(d as nat)],
{
    proof {
        reveal_strlit("0");
        reveal_strlit("1");
        reveal_strlit("2");
        reveal_strlit("3");
        reveal_strlit("4");
        reveal_strlit("5");
        reveal_strlit("6");
        reveal_strlit("7");
        reveal_strlit("8");
        reveal_strlit("9");
    }
    if d == 0 { "0" }
    else if d == 1 { "1" }
    else if d == 2 { "2" }
    else if d == 3 { "3" }
    else if d == 4 { "4" }
    else if d == 5 { "5" }
    else if d == 6 { "6" }
    else if d == 7 { "7" }
    else if d == 8 { "8" }
    else { "9" }
}

fn append_digits(s: &mut String, n: u32, width: u32)
    ensures
        final(s)@ == old(s)@ + padded_digits(n as nat, width as nat),
    decreases n + width,
{
    if n < 10 && width <= 1 {
        s.append(digit_str(n));
    } else {
        let w: u32 = if width == 0 { 0 } else { width - 1 };
        append_digits(s, n / 10, w);
        s.append(digit_str(n % 10));
        proof {
            assert(final(s)@ =~= old(s)@ + padded_digits(n as nat, width as nat));
        }
    }
}

impl MonthKey {
    /// Whether `self` comes before `other` in time.
    pub fn is_before(&self, other: &MonthKey) -> (r: bool)
        ensures
            r == key_lt(*self, *other),
    {
        self.year < other.year || (self.year == other.year && self.month < other.month)
    }

    /// The zero-padded `YYYY-MM` text of this month.
    pub fn label(&self) -> (r: String)
        ensures
            r@ == month_label(*self),
    {
        let mut s = String::new();
        if self.year < 0 {
            s.append("-");
            let y: u32 = (0i64 - self.year as i64) as u32;
            append_digits(&mut s, y, 4);
        } else if self.year > 9999 {
            s.append("+");
            append_digits(&mut s, self.year as u32, 4);
        } else {
            append_digits(&mut s, self.year as u32, 4);
        }
        s.append("-");
        append_digits(&mut s, self.month, 2);
        proof {
            reveal_strlit("-");
            reveal_strlit("+");
            assert(s@ =~= month_label(*self));
        }
        s
    }
}

/// Lexicographic order of texts, by character code.
pub open spec fn text_lt(a: Seq<char>, b: Seq<char>) -> bool
    decreases a.len(),
{
    if a.len() == 0 {
        b.len() > 0
    } else if b.len() == 0 {
        false
    } else if a[0] != b[0] {
        (a[0] as u32) < (b[0] as u32)
    } else {
        text_lt(a.drop_first(), b.drop_first())
    }
}

proof fn lemma_text_lt_unfold(a: Seq<char>, b: Seq<char>)
    requires
        a.len() > 0,
        b.len() > 0,
    ensures
        text_lt(a, b) == if a[0] != b[0] {
            (a[0] as u32) < (b[0] as u32)
        } else {
            text_lt(a.drop_first(), b.drop_first())
        },
{
}

proof fn lemma_digit_code(d: nat)
    requires
        d < 10,
    ensures
        digit_char(d) as u32 == 48 + d,
{
}

proof fn lemma_four_digits(y: nat)
    requires
        y <= 9999,
    ensures
        padded_digits(y, 4) == seq![
            digit_char(y / 1000),
            digit_char((y / 100) % 10),
            digit_char((y / 10) % 10),
            digit_char(y % 10),
        ],
{
    assert(y / 10 / 10 == y / 100);
    assert(y / 100 / 10 == y / 1000);
    assert(y / 1000 < 10);
    reveal_with_fuel(padded_digits, 4);
    assert(padded_digits(y / 1000, 1) == seq![digit_char(y / 1000)]);
    assert(padded_digits(y / 100, 2) =~= seq![digit_char(y / 1000), digit_char((y / 100) % 10)]);
    assert(padded_digits(y / 10, 3) =~= seq![digit_char(y / 1000), digit_char((y / 100) % 10), digit_char((y / 10) % 10)]);
    assert(padded_digits(y, 4) =~= seq![
        digit_char(y / 1000),
        digit_char((y / 100) % 10),
        digit_char((y / 10) % 10),
        digit_char(y % 10),
    ]);
}

proof fn lemma_two_digits(m: nat)
    requires
        m <= 99,
    ensures
        padded_digits(m, 2) == seq![digit_char(m / 10), digit_char(m % 10)],
{
    reveal_with_fuel(padded_digits, 2);
    assert(padded_digits(m / 10, 1) == seq![digit_char(m / 10)]);
    assert(padded_digits(m, 2) =~= seq![digit_char(m / 10), digit_char(m % 10)]);
}

/// The label text of a month whose year has digits `d0..d3` and whose month
/// has digits `d4, d5`.
spec fn label_of_digits(d: Seq<nat>) -> Seq<char> {
    seq![digit_char(d[0]), digit_char(d[1]), digit_char(d[2]), digit_char(d[3]), '-', digit_char(d[4]), digit_char(d[5])]
}

spec fn digits_value(d: Seq<nat>) -> nat {
    100000 * d[0] + 10000 * d[1] + 1000 * d[2] + 100 * d[3] + 10 * d[4] + d[5]
}

spec fn six_digits(d: Seq<nat>) -> bool {
    d.len() == 6 && forall|i: int| 0 <= i < 6 ==> #[trigger] d[i] < 10
}

proof fn lemma_text_order_of_digits(d: Seq<nat>, e: Seq<nat>)
    requires
        six_digits(d),
        six_digits(e),
    ensures
        text_lt(label_of_digits(d), label_of_digits(e)) <==> digits_value(d) < digits_value(e),
{
    let la = label_of_digits(d);
    let lb = label_of_digits(e);
    assert forall|i: int| 0 <= i < 6 implies digit_char(#[trigger] d[i]) as u32 == 48 + d[i] && digit_char(e[i]) as u32 == 48 + e[i] by {
        lemma_digit_code(d[i]);
        lemma_digit_code(e[i]);
    }
    assert(text_lt(la.subrange(6, 7), lb.subrange(6, 7)) <==> d[5] < e[5]) by {
        lemma_text_lt_unfold(la.subrange(6, 7), lb.subrange(6, 7));
        assert(la.subrange(6, 7).drop_first().len() == 0);
        assert(lb.subrange(6, 7).drop_first().len() == 0);
    }
    assert(text_lt(la.subrange(5, 7), lb.subrange(5, 7)) <==> 10 * d[4] + d[5] < 10 * e[4] + e[5]) by {
        lemma_text_lt_unfold(la.subrange(5, 7), lb.subrange(5, 7));
        assert(la.subrange(5, 7).drop_first() =~= la.subrange(6, 7));
        assert(lb.subrange(5, 7).drop_first() =~= lb.subrange(6, 7));
    }
    assert(text_lt(la.subrange(4, 7), lb.subrange(4, 7)) <==> 10 * d[4] + d[5] < 10 * e[4] + e[5]) by {
        lemma_text_lt_unfold(la.subrange(4, 7), lb.subrange(4, 7));
        assert(la.subrange(4, 7).drop_first() =~= la.subrange(5, 7));
        assert(lb.subrange(4, 7).drop_first() =~= lb.subrange(5, 7));
    }
    assert(text_lt(la.subrange(3, 7), lb.subrange(3, 7)) <==> 100 * d[3] + 10 * d[4] + d[5] < 100 * e[3] + 10 * e[4] + e[5]) by {
        lemma_text_lt_unfold(la.subrange(3, 7), lb.subrange(3, 7));
        assert(la.subrange(3, 7).drop_first() =~= la.subrange(4, 7));
        assert(lb.subrange(3, 7).drop_first() =~= lb.subrange(4, 7));
    }
    assert(text_lt(la.subrange(2, 7), lb.subrange(2, 7)) <==> 1000 * d[2] + 100 * d[3] + 10 * d[4] + d[5] < 1000 * e[2] + 100 * e[3] + 10 * e[4] + e[5]) by {
        lemma_text_lt_unfold(la.subrange(2, 7), lb.subrange(2, 7));
        assert(la.subrange(2, 7).drop_first() =~= la.subrange(3, 7));
        assert(lb.subrange(2, 7).drop_first() =~= lb.subrange(3, 7));
    }
    assert(text_lt(la.subrange(1, 7), lb.subrange(1, 7)) <==> 10000 * d[1] + 1000 * d[2] + 100 * d[3] + 10 * d[4] + d[5] < 10000 * e[1] + 1000 * e[2] + 100 * e[3] + 10 * e[4] + e[5]) by {
        lemma_text_lt_unfold(la.subrange(1, 7), lb.subrange(1, 7));
        assert(la.subrange(1, 7).drop_first() =~= la.subrange(2, 7));
        assert(lb.subrange(1, 7).drop_first() =~= lb.subrange(2, 7));
    }
    lemma_text_lt_unfold(la, lb);
    assert(la.drop_first() =~= la.subrange(1, 7));
    assert(lb.drop_first() =~= lb.subrange(1, 7));
}

/// The digits of a month key whose year is 0 to 9999, and their value.
proof fn lemma_key_digits(k: MonthKey) -> (d: Seq<nat>)
    requires
        0 <= k.year <= 9999,
        1 <= k.month <= 12,
    ensures
        six_digits(d),
        month_label(k) == label_of_digits(d),
        digits_value(d) == 100 * k.year + k.month,
{
    let y = k.year as nat;
    let m = k.month as nat;
    lemma_four_digits(y);
    lemma_two_digits(m);
    let d = seq![y / 1000, (y / 100) % 10, (y / 10) % 10, y % 10, m / 10, m % 10];
    assert(y / 10 / 10 == y / 100);
    assert(y / 100 / 10 == y / 1000);
    assert(y == 10 * (y / 10) + y % 10);
    assert(y / 10 == 10 * (y / 100) + (y / 10) % 10);
    assert(y / 100 == 10 * (y / 1000) + (y / 100) % 10);
    assert(y / 1000 < 10);
    assert(m == 10 * (m / 10) + m % 10);
    assert(month_label(k) =~= label_of_digits(d));
    d
}

/// For years 0 to 9999, the text order of month labels is their
/// chronological order.
pub proof fn lemma_label_order(a: MonthKey, b: MonthKey)
    requires
        0 <= a.year <= 9999,
        0 <= b.year <= 9999,
        1 <= a.month <= 12,
        1 <= b.month <= 12,
    ensures
        key_lt(a, b) <==> text_lt(month_label(a), month_label(b)),
{
    let d = lemma_key_digits(a);
    let e = lemma_key_digits(b);
    lemma_text_order_of_digits(d, e);
}

} // verus!
