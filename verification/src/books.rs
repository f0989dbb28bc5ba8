//! The page-count field of a book on the reading list.
//!
//! Whatever is typed into the field is cut down to at most five decimal
//! digits without leading zeros. An empty result clears the field; a page at
//! or past the book's length shows the length and a full bar; any other page
//! is shown as typed, and the bar is filled in proportion to it.

use vstd::prelude::*;
use crate::text::{
    all_digits, decimal, digit_char, digit_value, digits_value, is_ascii_digit, lemma_decimal_len, lemma_digit_char,
    lemma_decimal_shape, lemma_digits_value_bound, pow10, signed_decimal, signed_numeral,
};

verus! {

/// The decimal digits of `s`, in order.
pub open spec fn keep_digits(s: Seq<char>) -> Seq<char>
    decreases s.len(),
{
    if s.len() == 0 {
        Seq::empty()
    } else if is_ascii_digit(s.last()) {
        keep_digits(s.drop_last()).push(s.last())
    } else {
        keep_digits(s.drop_last())
    }
}

/// The first `n` elements of `s`, or all of `s` where it is shorter.
pub open spec fn at_most(s: Seq<char>, n: nat) -> Seq<char> {
    if s.len() <= n {
        s
    } else {
        s.take(n as int)
    }
}

/// `s` without its leading `'0'` characters.
pub open spec fn strip_leading_zeros(s: Seq<char>) -> Seq<char>
    decreases s.len(),
{
    if s.len() > 0 && s[0] == '0' {
        strip_leading_zeros(s.drop_first())
    } else {
        s
    }
}

/// The most digits the field keeps.
pub const MAX_PAGE_DIGITS: usize = 5;

/// What the field keeps of the typed text `raw`: its first five digits,
/// without leading zeros.
pub open spec fn page_text(raw: Seq<char>) -> Seq<char> {
    strip_leading_zeros(at_most(keep_digits(raw), MAX_PAGE_DIGITS as nat))
}

/// What the field shows after an edit, as a value.
pub enum PageEntryView {
    /// Nothing is left: the field is emptied and the bar is empty.
    Cleared,
    /// The page reaches the book's length: the field shows the length, and
    /// the bar is full.
    Reached(Seq<char>),
    /// A page before the end: its number and the text the field shows.
    Partial(int, Seq<char>),
}

/// What the field shows after an edit.
#[derive(Debug, PartialEq, Eq)]
pub enum PageEntry {
    /// Nothing is left: the field is emptied and the bar is empty.
    Cleared,
    /// The page reaches the book's length: the field shows this text, the
    /// length, and the bar is full.
    Reached(String),
    /// A page before the end: its number and the text the field shows.
    Partial(i32, String),
}

impl View for PageEntry {
    type V = PageEntryView;

    open spec fn view(&self) -> PageEntryView {
        match self {
            PageEntry::Cleared => PageEntryView::Cleared,
            PageEntry::Reached(t) => PageEntryView::Reached(t@),
            PageEntry::Partial(p, t) => PageEntryView::Partial(*p as int, t@),
        }
    }
}

/// The outcome of typing `raw` into the field of a book of `length` pages.
pub open spec fn page_entry(raw: Seq<char>, length: int) -> PageEntryView {
    let t = page_text(raw);
    if t.len() == 0 {
        PageEntryView::Cleared
    } else if digits_value(t) >= length {
        PageEntryView::Reached(signed_decimal(length))
    } else {
        PageEntryView::Partial(digits_value(t) as int, t)
    }
}

/// The text that the field shows for an outcome.
pub open spec fn shown_text(e: PageEntryView) -> Seq<char> {
    match e {
        PageEntryView::Cleared => Seq::empty(),
        PageEntryView::Reached(t) => t,
        PageEntryView::Partial(_, t) => t,
    }
}

/// Whether `c` is one of `'0'` to `'9'`, as `char::is_ascii_digit` tests.
pub fn is_digit_char(c: char) -> (r: bool)
    ensures
        r == is_ascii_digit(c),
{
    '0' <= c && c <= '9'
}

proof fn lemma_keep_digits_shape(s: Seq<char>)
    ensures
        all_digits(keep_digits(s)),
        keep_digits(s).len() <= s.len(),
        all_digits(s) ==> keep_digits(s) == s,
    decreases s.len(),
{
    if s.len() > 0 {
        let p = s.drop_last();
        lemma_keep_digits_shape(p);
        if all_digits(s) {
            assert forall|i: int| 0 <= i < p.len() implies #[trigger] is_ascii_digit(p[i]) by {
                assert(p[i] == s[i]);
            }
            assert(is_ascii_digit(s[s.len() - 1]));
            assert(keep_digits(s) =~= s);
        }
        let k = keep_digits(s);
        assert forall|i: int| 0 <= i < k.len() implies #[trigger] is_ascii_digit(k[i]) by {
            if i < keep_digits(p).len() {
                assert(k[i] == keep_digits(p)[i]);
            }
        }
    }
}

/// The digits of a concatenation are those of its parts.
proof fn lemma_keep_digits_append(a: Seq<char>, b: Seq<char>)
    ensures
        keep_digits(a + b) == keep_digits(a) + keep_digits(b),
    decreases b.len(),
{
    if b.len() == 0 {
        assert(a + b =~= a);
        assert(keep_digits(a) + keep_digits(b) =~= keep_digits(a));
    } else {
        lemma_keep_digits_append(a, b.drop_last());
        assert((a + b).drop_last() =~= a + b.drop_last());
        assert((a + b).last() == b.last());
        if is_ascii_digit(b.last()) {
            assert(keep_digits(a) + keep_digits(b) =~= (keep_digits(a) + keep_digits(
                b.drop_last(),
            )).push(b.last()));
        }
    }
}

proof fn lemma_at_most_shape(s: Seq<char>, n: nat)
    ensures
        at_most(s, n).len() <= n,
        all_digits(s) ==> all_digits(at_most(s, n)),
        s.len() <= n ==> at_most(s, n) == s,
        s.len() > 0 && n > 0 ==> at_most(s, n).len() > 0 && at_most(s, n)[0] == s[0],
{
    let t = at_most(s, n);
    if all_digits(s) {
        assert forall|i: int| 0 <= i < t.len() implies #[trigger] is_ascii_digit(t[i]) by {
            assert(t[i] == s[i]);
        }
    }
}

proof fn lemma_strip_shape(s: Seq<char>)
    ensures
        strip_leading_zeros(s).len() <= s.len(),
        all_digits(s) ==> all_digits(strip_leading_zeros(s)),
        strip_leading_zeros(s).len() > 0 ==> strip_leading_zeros(s)[0] != '0',
        s.len() == 0 || s[0] != '0' ==> strip_leading_zeros(s) == s,
    decreases s.len(),
{
    if s.len() > 0 && s[0] == '0' {
        let p = s.drop_first();
        lemma_strip_shape(p);
        if all_digits(s) {
            assert forall|i: int| 0 <= i < p.len() implies #[trigger] is_ascii_digit(p[i]) by {
                assert(p[i] == s[i + 1]);
            }
        }
    }
}

/// What the field keeps is at most five digits without a leading zero.
pub proof fn lemma_page_text_shape(raw: Seq<char>)
    ensures
        all_digits(page_text(raw)),
        page_text(raw).len() <= MAX_PAGE_DIGITS,
        page_text(raw).len() > 0 ==> page_text(raw)[0] != '0',
{
    let k = keep_digits(raw);
    lemma_keep_digits_shape(raw);
    lemma_at_most_shape(k, MAX_PAGE_DIGITS as nat);
    lemma_strip_shape(at_most(k, MAX_PAGE_DIGITS as nat));
}

/// Cleaning the field's text is idempotent: what the field keeps, typed
/// again, is kept as it is.
pub proof fn page_text_idempotent(raw: Seq<char>)
    ensures
        page_text(page_text(raw)) == page_text(raw),
{
    let t = page_text(raw);
    lemma_page_text_shape(raw);
    lemma_keep_digits_shape(t);
    lemma_at_most_shape(t, MAX_PAGE_DIGITS as nat);
    lemma_strip_shape(t);
}

/// The field is stable: typing again the text it shows after an edit gives
/// the same outcome. This holds for every length but zero, whose numeral
/// `"0"` is cleaned away.
pub proof fn page_entry_stable(raw: Seq<char>, length: int)
    requires
        length != 0,
    ensures
        page_entry(shown_text(page_entry(raw, length)), length) == page_entry(raw, length),
{
    let e = page_entry(raw, length);
    let t = page_text(raw);
    if t.len() == 0 {
        assert(keep_digits(Seq::<char>::empty()) =~= Seq::<char>::empty());
        assert(page_text(Seq::<char>::empty()) =~= Seq::<char>::empty());
    } else if digits_value(t) >= length {
        let shown = signed_decimal(length);
        reveal_with_fuel(pow10, 6);
        lemma_page_text_shape(raw);
        lemma_digits_value_bound(t, 5);
        if length > 0 {
            let d = decimal(length as nat);
            lemma_decimal_shape(length as nat);
            lemma_decimal_len(length as nat, 5);
            lemma_keep_digits_shape(d);
            lemma_at_most_shape(d, MAX_PAGE_DIGITS as nat);
            lemma_strip_shape(d);
            assert(page_text(shown) == d);
        } else {
            let m = (-length) as nat;
            let d = decimal(m);
            lemma_decimal_shape(m);
            lemma_keep_digits_shape(d);
            lemma_keep_digits_append(seq!['-'], d);
            assert(keep_digits(seq!['-']) =~= Seq::<char>::empty()) by {
                assert(seq!['-'].drop_last() =~= Seq::<char>::empty());
                assert(seq!['-'].last() == '-');
                assert(!is_ascii_digit('-'));
                assert(keep_digits(Seq::<char>::empty()) =~= Seq::<char>::empty());
            }
            assert(keep_digits(shown) =~= d);
            lemma_at_most_shape(d, MAX_PAGE_DIGITS as nat);
            let a = at_most(d, MAX_PAGE_DIGITS as nat);
            lemma_strip_shape(a);
            assert(page_text(shown) == a);
        }
    } else {
        page_text_idempotent(raw);
    }
}


/// A nonempty string of digits that does not start with `0` denotes a
/// positive number whose numeral it is.
proof fn lemma_numeral_of_digits(s: Seq<char>)
    requires
        s.len() > 0,
        all_digits(s),
        s[0] != '0',
    ensures
        digits_value(s) > 0,
        decimal(digits_value(s)) == s,
    decreases s.len(),
{
    let c = s.last();
    assert(is_ascii_digit(s[s.len() - 1]));
    let d = digit_value(c);
    lemma_digit_char(d);
    assert(digit_char(d) == c);
    if s.len() == 1 {
        assert(s.drop_last() =~= Seq::<char>::empty());
        assert(digits_value(Seq::<char>::empty()) == 0);
        assert(d != 0);
        assert(decimal(d) =~= s);
    } else {
        let p = s.drop_last();
        assert(all_digits(p)) by {
            assert forall|i: int| 0 <= i < p.len() implies #[trigger] is_ascii_digit(p[i]) by {
                assert(p[i] == s[i]);
            }
        }
        lemma_numeral_of_digits(p);
        let v = digits_value(s);
        assert(v == digits_value(p) * 10 + d);
        assert(v / 10 == digits_value(p) && v % 10 == d);
        assert(decimal(v) == decimal(v / 10).push(digit_char(v % 10)));
        assert(decimal(v) =~= s);
    }
}

/// A page before the end is a page from one up to the length less one, and
/// the field shows its numeral.
pub proof fn partial_entry_bounds(raw: Seq<char>, length: int)
    ensures
        page_entry(raw, length) matches PageEntryView::Partial(p, t) ==> {
            &&& 1 <= p < length
            &&& p < 100000
            &&& t == decimal(p as nat)
        },
{
    let t = page_text(raw);
    lemma_page_text_shape(raw);
    if t.len() > 0 && digits_value(t) < length {
        lemma_numeral_of_digits(t);
        reveal_with_fuel(pow10, 6);
        lemma_digits_value_bound(t, 5);
    }
}


/// The digits of a single character: itself if it is a digit, else nothing.
proof fn lemma_keep_digits_single(c: char)
    ensures
        keep_digits(seq![c]) == if is_ascii_digit(c) {
            seq![c]
        } else {
            Seq::<char>::empty()
        },
{
    assert(seq![c].drop_last() =~= Seq::<char>::empty());
    assert(keep_digits(Seq::<char>::empty()) =~= Seq::<char>::empty());
    assert(Seq::<char>::empty().push(c) =~= seq![c]);
}

/// Characters other than digits are ignored wherever they stand: taking one
/// out of the typed text changes nothing that the field keeps.
pub proof fn page_text_ignores_non_digits(a: Seq<char>, c: char, b: Seq<char>)
    requires
        !is_ascii_digit(c),
    ensures
        page_text(a + seq![c] + b) == page_text(a + b),
{
    lemma_keep_digits_append(a + seq![c], b);
    lemma_keep_digits_append(a, seq![c]);
    lemma_keep_digits_append(a, b);
    lemma_keep_digits_single(c);
    assert(keep_digits(a) + Seq::<char>::empty() =~= keep_digits(a));
    assert(keep_digits(a + seq![c] + b) == keep_digits(a + b));
}

/// A number of at most five digits typed without leading zeros is kept as
/// typed.
pub proof fn page_text_keeps_plain_numbers(d: Seq<char>)
    requires
        all_digits(d),
        d.len() <= MAX_PAGE_DIGITS,
        d.len() == 0 || d[0] != '0',
    ensures
        page_text(d) == d,
{
    lemma_keep_digits_shape(d);
    lemma_at_most_shape(d, MAX_PAGE_DIGITS as nat);
    lemma_strip_shape(d);
}

/// Only the first five digits count: whatever follows them is ignored.
pub proof fn page_text_ignores_after_five_digits(d: Seq<char>, rest: Seq<char>)
    requires
        all_digits(d),
        d.len() == MAX_PAGE_DIGITS,
    ensures
        page_text(d + rest) == page_text(d),
{
    lemma_keep_digits_append(d, rest);
    lemma_keep_digits_shape(d);
    assert((d + keep_digits(rest)).take(MAX_PAGE_DIGITS as int) =~= d);
    lemma_at_most_shape(d, MAX_PAGE_DIGITS as nat);
}

/// A leading zero among the first five digits is dropped.
pub proof fn page_text_drops_leading_zero(d: Seq<char>)
    requires
        all_digits(d),
        d.len() < MAX_PAGE_DIGITS,
    ensures
        page_text(seq!['0'] + d) == page_text(d),
{
    let z = seq!['0'] + d;
    assert(all_digits(z)) by {
        assert forall|i: int| 0 <= i < z.len() implies #[trigger] is_ascii_digit(z[i]) by {
            if i > 0 {
                assert(z[i] == d[i - 1]);
            }
        }
    }
    lemma_keep_digits_shape(z);
    lemma_keep_digits_shape(d);
    lemma_at_most_shape(z, MAX_PAGE_DIGITS as nat);
    lemma_at_most_shape(d, MAX_PAGE_DIGITS as nat);
    assert(z.drop_first() =~= d);
}

/// What the field shows follows from the page it keeps: nothing kept clears
/// the field, and only that does; a kept page below the length is shown as
/// its numeral with that page; a kept page at or past the length shows the
/// length. Whatever is kept is the numeral of a page.
pub proof fn page_entry_follows_kept_page(raw: Seq<char>, length: int, p: nat)
    ensures
        page_entry(raw, length) is Cleared <==> page_text(raw).len() == 0,
        page_text(raw).len() > 0 ==> page_text(raw) == decimal(digits_value(page_text(raw))),
        page_text(raw) == decimal(p) && p < length ==> page_entry(raw, length)
            == PageEntryView::Partial(p as int, decimal(p)),
        page_text(raw) == decimal(p) && p >= length ==> page_entry(raw, length)
            == PageEntryView::Reached(signed_decimal(length)),
{
    lemma_page_text_shape(raw);
    lemma_decimal_shape(p);
    if page_text(raw).len() > 0 {
        lemma_numeral_of_digits(page_text(raw));
    }
}

/// Proves the step of the digit-keeping loop.
proof fn lemma_keep_step(t: Seq<char>, c: char)
    ensures
        keep_digits(t.push(c)) == if is_ascii_digit(c) {
            keep_digits(t).push(c)
        } else {
            keep_digits(t)
        },
        at_most(keep_digits(t.push(c)), MAX_PAGE_DIGITS as nat) == if is_ascii_digit(c)
            && keep_digits(t).len() < MAX_PAGE_DIGITS {
            at_most(keep_digits(t), MAX_PAGE_DIGITS as nat).push(c)
        } else {
            at_most(keep_digits(t), MAX_PAGE_DIGITS as nat)
        },
{
    assert(t.push(c).drop_last() =~= t);
    let k = keep_digits(t);
    if is_ascii_digit(c) && k.len() >= MAX_PAGE_DIGITS {
        assert(k.push(c).take(MAX_PAGE_DIGITS as int) =~= k.take(MAX_PAGE_DIGITS as int));
    }
}

/// Cuts the typed text `raw` down to what the field keeps: its first five
/// digits, without leading zeros.
pub fn clean_page_input(raw: &str) -> (r: String)
    ensures
        r@ == page_text(raw@),
{
    let n = raw.unicode_len();
    let mut kept = String::new();
    let mut kept_len: usize = 0;
    assert(raw@.take(0) =~= Seq::<char>::empty());
    for i in 0..n
        invariant
            n == raw@.len(),
            kept@ == at_most(keep_digits(raw@.take(i as int)), MAX_PAGE_DIGITS as nat),
            kept_len == kept@.len(),
            kept_len <= MAX_PAGE_DIGITS,
    {
        let c = raw.get_char(i);
        proof {
            assert(raw@.take(i + 1) =~= raw@.take(i as int).push(c));
            lemma_keep_step(raw@.take(i as int), c);
        }
        if is_digit_char(c) && kept_len < MAX_PAGE_DIGITS {
            crate::text::push_char(&mut kept, c);
            kept_len = kept_len + 1;
        }
    }
    assert(raw@.take(n as int) =~= raw@);
    let view = kept.as_str();
    let mut k: usize = 0;
    assert(kept@.skip(0) =~= kept@);
    while k < kept_len && view.get_char(k) == '0'
        invariant
            kept_len == kept@.len(),
            view@ == kept@,
            k <= kept_len,
            page_text(raw@) == strip_leading_zeros(kept@.skip(k as int)),
        decreases kept_len - k,
    {
        assert(kept@.skip(k as int).drop_first() =~= kept@.skip(k + 1));
        k = k + 1;
    }
    assert(kept@.subrange(k as int, kept_len as int) =~= kept@.skip(k as int));
    String::from_str(view.substring_char(k, kept_len))
}

/// The number that `text`, at most five digits, denotes.
pub fn digits_number(text: &str) -> (r: u32)
    requires
        all_digits(text@),
        text@.len() <= MAX_PAGE_DIGITS,
    ensures
        r == digits_value(text@),
        r < 100000,
{
    let n = text.unicode_len();
    let mut v: u32 = 0;
    reveal_with_fuel(pow10, 6);
    assert(text@.take(0) =~= Seq::<char>::empty());
    assert(digits_value(Seq::<char>::empty()) == 0);
    for i in 0..n
        invariant
            n == text@.len(),
            n <= MAX_PAGE_DIGITS,
            all_digits(text@),
            v == digits_value(text@.take(i as int)),
            v < 100000,
            pow10(5) == 100000,
    {
        let c = text.get_char(i);
        assert(is_ascii_digit(text@[i as int]));
        let d: u32 = (c as u32) - 48;
        proof {
            let t = text@.take(i + 1);
            assert(t.drop_last() =~= text@.take(i as int));
            assert(t.last() == c);
            assert(all_digits(t)) by {
                assert forall|j: int| 0 <= j < t.len() implies #[trigger] is_ascii_digit(t[j]) by {
                    assert(t[j] == text@[j]);
                }
            }
            lemma_digits_value_bound(t, 5);
            assert(digit_value(c) == d);
        }
        v = v * 10 + d;
    }
    assert(text@.take(n as int) =~= text@);
    v
}

/// Reads what was typed into the field of a book of `length` pages and says
/// what the field shows next.
pub fn read_page_entry(raw: &str, length: i32) -> (r: PageEntry)
    ensures
        r@ == page_entry(raw@, length as int),
{
    let text = clean_page_input(raw);
    proof {
        lemma_page_text_shape(raw@);
    }
    if text.as_str().unicode_len() == 0 {
        return PageEntry::Cleared;
    }
    let pages = digits_number(text.as_str()) as i32;
    if pages >= length {
        PageEntry::Reached(signed_numeral(length))
    } else {
        PageEntry::Partial(pages, text)
    }
}

} // verus!
