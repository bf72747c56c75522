//! Text shaping: sentence termination and the text that is embedded for a document.

use crate::model::{Meme, Translation};
use vstd::prelude::*;
use vstd::string::StrSliceExecFns;
use vstd::string::StringExecFns;

verus! {

/// The characters that `char::is_ascii_punctuation` accepts.
pub open spec fn is_ascii_punct(c: char) -> bool {
    ('!' <= c && c <= '/') || (':' <= c && c <= '@') || ('[' <= c && c <= '`') || ('{' <= c
        && c <= '~')
}

/// `s` followed by a full stop, unless it is empty or already ends with ASCII punctuation.
pub open spec fn sentence_terminated(s: Seq<char>) -> Seq<char> {
    if s.len() == 0 || is_ascii_punct(s.last()) {
        s
    } else {
        s.push('.')
    }
}

fn char_is_ascii_punct(c: char) -> (r: bool)
    ensures
        r == is_ascii_punct(c),
{
    ('!' <= c && c <= '/') || (':' <= c && c <= '@') || ('[' <= c && c <= '`') || ('{' <= c
        && c <= '~')
}

/// Appends a full stop to `text` unless its last character is ASCII punctuation.
/// The empty text is returned unchanged.
pub fn ensure_ends_with_punctuation(text: &str) -> (r: String)
    ensures
        r@ == sentence_terminated(text@),
{
    let n = text.unicode_len();
    if n == 0 {
        return text.to_owned();
    }
    let last = text.get_char(n - 1);
    if char_is_ascii_punct(last) {
        text.to_owned()
    } else {
        proof {
            reveal_strlit(".");
        }
        let r = String::from_str(text).concat(".");
        assert(r@ =~= text@.push('.'));
        r
    }
}


/// A piece of embedded text: sentence-terminated.
pub open spec fn text_piece(s: Seq<char>) -> Seq<char> {
    sentence_terminated(s)
}

/// The title, caption and description of each translation, in order, concatenated.
pub open spec fn translation_text(trs: Seq<Translation>) -> Seq<char>
    decreases trs.len(),
{
    if trs.len() == 0 {
        Seq::empty()
    } else {
        let t = trs.last();
        translation_text(trs.drop_last()) + text_piece(t.title@) + text_piece(t.caption@)
            + text_piece(t.description@)
    }
}

/// The text embedded for a document: its on-image text when it has one, then its
/// translations.
pub open spec fn embedding_text(doc: Meme, trs: Seq<Translation>) -> Seq<char> {
    match doc.text {
        Some(t) => text_piece(t@) + translation_text(trs),
        None => translation_text(trs),
    }
}

fn push_piece(out: &mut String, s: &str)
    ensures
        final(out)@ == old(out)@ + text_piece(s@),
{
    let t = ensure_ends_with_punctuation(s);
    out.append(t.as_str());
}

/// Builds the text that is embedded for a document.
pub fn get_text_for_embedding(meme: &Meme, translations: &Vec<Translation>) -> (r: String)
    ensures
        r@ == embedding_text(*meme, translations@),
{
    let mut out = String::new();
    match &meme.text {
        Some(t) => push_piece(&mut out, t.as_str()),
        None => {},
    }
    let ghost head = out@;
    let mut i: usize = 0;
    assert(translation_text(translations@.subrange(0, 0)) =~= Seq::<char>::empty());
    assert(out@ =~= head + translation_text(translations@.subrange(0, 0)));
    while i < translations.len()
        invariant
            i <= translations.len(),
            out@ == head + translation_text(translations@.subrange(0, i as int)),
        decreases translations.len() - i,
    {
        let t = &translations[i];
        let ghost pre = translations@.subrange(0, i as int);
        let ghost next = translations@.subrange(0, i + 1);
        assert(next.drop_last() =~= pre);
        assert(next.last() == *t);
        push_piece(&mut out, t.title.as_str());
        push_piece(&mut out, t.caption.as_str());
        push_piece(&mut out, t.description.as_str());
        assert(out@ =~= head + translation_text(next));
        i += 1;
    }
    assert(translations@.subrange(0, translations.len() as int) =~= translations@);
    assert(meme.text is None ==> head =~= Seq::<char>::empty());
    out
}


/// The character of a decimal digit.
pub open spec fn digit_char(d: nat) -> char {
    if d == 0 {
        '0'
    } else if d == 1 {
        '1'
    } else if d == 2 {
        '2'
    } else if d == 3 {
        '3'
    } else if d == 4 {
        '4'
    } else if d == 5 {
        '5'
    } else if d == 6 {
        '6'
    } else if d == 7 {
        '7'
    } else if d == 8 {
        '8'
    } else {
        '9'
    }
}

/// The decimal notation of `n`, without leading zeros.
pub open spec fn decimal(n: nat) -> Seq<char>
    decreases n,
{
    if n < 10 {
        seq![digit_char(n)]
    } else {
        decimal(n / 10).push(digit_char(n % 10))
    }
}

fn digit_str(d: u64) -> (r: &'static str)
    requires
        d < 10,
    ensures
        r@ == seq![digit_char(d as nat)],
{
    proof {
        reveal_strlit("0");
        reveal_strlit("1");
        reveal_strlit("2");
        reveal_strlit("3");
        reveal_strlit("4");
        reveal_strlit("5");
        reveal_strlit("6");
        reveal_strlit("7");
        reveal_strlit("8");
        reveal_strlit("9");
    }
    let r = if d == 0 {
        "0"
    } else if d == 1 {
        "1"
    } else if d == 2 {
        "2"
    } else if d == 3 {
        "3"
    } else if d == 4 {
        "4"
    } else if d == 5 {
        "5"
    } else if d == 6 {
        "6"
    } else if d == 7 {
        "7"
    } else if d == 8 {
        "8"
    } else {
        "9"
    };
    assert(r@ =~= seq![digit_char(d as nat)]);
    r
}

/// The decimal notation of `n`.
pub fn decimal_string(n: u64) -> (r: String)
    ensures
        r@ == decimal(n as nat),
    decreases n,
{
    if n < 10 {
        String::from_str(digit_str(n))
    } else {
        let mut s = decimal_string(n / 10);
        s.append(digit_str(n % 10));
        assert(s@ =~= decimal(n as nat));
        s
    }
}


/// An ASCII decimal digit.
pub open spec fn is_digit(c: char) -> bool {
    48 <= (c as u32) <= 57
}

/// Every character is a decimal digit.
pub open spec fn all_digits(s: Seq<char>) -> bool {
    forall|i: int| 0 <= i < s.len() ==> is_digit(#[trigger] s[i])
}

/// The value of a string of decimal digits.
pub open spec fn digits_value(s: Seq<char>) -> int
    decreases s.len(),
{
    if s.len() == 0 {
        0
    } else {
        digits_value(s.drop_last()) * 10 + ((s.last() as u32) - 48)
    }
}

/// The integer that `s` writes: optional sign, then one or more decimal digits.
pub open spec fn int_value(s: Seq<char>) -> Option<int> {
    if s.len() >= 2 && (s[0] == '-' || s[0] == '+') && all_digits(s.drop_first()) {
        Some(if s[0] == '-' { -digits_value(s.drop_first()) } else { digits_value(s.drop_first()) })
    } else if s.len() >= 1 && all_digits(s) {
        Some(digits_value(s))
    } else {
        None
    }
}

/// The integer that `s` writes, when it lies in `lo..=hi`; this is what `str::parse`
/// accepts for an integer type with that range.
pub open spec fn int_in_range(s: Seq<char>, lo: int, hi: int) -> Option<int> {
    match int_value(s) {
        Some(v) => if lo <= v <= hi {
            Some(v)
        } else {
            None
        },
        None => None,
    }
}

proof fn lemma_digits_prefix(s: Seq<char>, j: int)
    requires
        all_digits(s),
        0 <= j <= s.len(),
    ensures
        digits_value(s.subrange(0, j)) <= digits_value(s),
        0 <= digits_value(s),
    decreases s.len(),
{
    if s.len() > 0 {
        let p = s.drop_last();
        assert(all_digits(p)) by {
            assert forall|i: int| 0 <= i < p.len() implies is_digit(#[trigger] p[i]) by {
                assert(p[i] == s[i]);
            }
        }
        assert(is_digit(s[s.len() - 1]));
        if j == s.len() {
            assert(s.subrange(0, j) =~= s);
            lemma_digits_prefix(p, 0);
        } else {
            assert(p.subrange(0, j) =~= s.subrange(0, j));
            lemma_digits_prefix(p, j);
        }
    } else {
        assert(s.subrange(0, j) =~= s);
    }
}

/// Parses the characters `from..to` of `s` as an integer in `lo..=hi`.
pub fn parse_int(s: &str, from: usize, to: usize, lo: i64, hi: i64) -> (r: Option<i64>)
    requires
        from <= to <= s@.len(),
    ensures
        r matches Some(v) ==> int_in_range(s@.subrange(from as int, to as int), lo as int, hi as int) == Some(v as int),
        r is None ==> int_in_range(s@.subrange(from as int, to as int), lo as int, hi as int) is None,
{
    let ghost t = s@.subrange(from as int, to as int);
    if from == to {
        return None;
    }
    let first = s.get_char(from);
    assert(first == t[0]);
    assert(first == '-' || first == '+' ==> !is_digit(t[0]));
    let negative = first == '-';
    let start: usize = if first == '-' || first == '+' { from + 1 } else { from };
    if start == to {
        return None;
    }
    let ghost body = s@.subrange(start as int, to as int);
    assert(start == from + 1 ==> body =~= t.drop_first());
    assert(start == from ==> body =~= t);
    let bound: i128 = 0x8000_0000_0000_0000;
    let mut acc: i128 = 0;
    let mut j: usize = start;
    while j < to
        invariant
            start <= j <= to <= s@.len(),
            body == s@.subrange(start as int, to as int),
            t == s@.subrange(from as int, to as int),
            from < to,
            negative == (t[0] == '-'),
            start == from + 1 || start == from,
            start == from + 1 <==> (t[0] == '-' || t[0] == '+'),
            start == from + 1 ==> body == t.drop_first() && !is_digit(t[0]) && t.len() >= 2,
            start == from ==> body == t,
            acc as int == digits_value(body.subrange(0, j - start)),
            all_digits(body.subrange(0, j - start)),
            bound == 0x8000_0000_0000_0000,
            0 <= acc <= bound,
        decreases to - j,
    {
        let c = s.get_char(j);
        assert(c == body[j - start]);
        let ghost pre = body.subrange(0, j - start);
        let ghost next = body.subrange(0, j - start + 1);
        assert(next.drop_last() =~= pre);
        let cu = c as u32;
        if cu < 48 || cu > 57 {
            assert(!is_digit(body[j - start]));
            assert(!all_digits(body));
            assert(start == from ==> !all_digits(t));
            return None;
        }
        acc = acc * 10 + (cu - 48) as i128;
        assert(all_digits(next)) by {
            assert forall|i: int| 0 <= i < next.len() implies is_digit(#[trigger] next[i]) by {
                if i < pre.len() {
                    assert(next[i] == pre[i]);
                }
            }
        }
        if acc > bound {
            proof {
                if all_digits(body) {
                    lemma_digits_prefix(body, j - start + 1);
                }
            }
            return None;
        }
        j += 1;
    }
    assert(body.subrange(0, to - start) =~= body);
    let v: i128 = if negative { -acc } else { acc };
    if v < lo as i128 || v > hi as i128 {
        None
    } else {
        Some(v as i64)
    }
}


proof fn lemma_digit_char(d: nat)
    requires
        d < 10,
    ensures
        digit_char(d) as u32 == 48 + d,
{
    assert('0' as u32 == 48);
    assert('1' as u32 == 49);
    assert('2' as u32 == 50);
    assert('3' as u32 == 51);
    assert('4' as u32 == 52);
    assert('5' as u32 == 53);
    assert('6' as u32 == 54);
    assert('7' as u32 == 55);
    assert('8' as u32 == 56);
    assert('9' as u32 == 57);
}

/// Decimal notation is made of digits, and reads back as the number.
pub proof fn lemma_decimal_digits(n: nat)
    ensures
        all_digits(decimal(n)),
        digits_value(decimal(n)) == n,
        decimal(n).len() >= 1,
    decreases n,
{
    lemma_digit_char(n % 10);
    if n < 10 {
        let d = decimal(n);
        assert(d.drop_last() =~= Seq::<char>::empty());
        assert(digits_value(d.drop_last()) == 0);
        assert(n % 10 == n);
        assert(d.last() == digit_char(n));
        assert(is_digit(d[0]));
    } else {
        lemma_decimal_digits(n / 10);
        let p = decimal(n / 10);
        let d = decimal(n);
        assert(d == p.push(digit_char(n % 10)));
        assert(d.drop_last() =~= p);
        assert(d.last() == digit_char(n % 10));
        assert(n == (n / 10) * 10 + n % 10);
        assert forall|i: int| 0 <= i < d.len() implies is_digit(#[trigger] d[i]) by {
            if i < p.len() {
                assert(d[i] == p[i]);
            }
        }
    }
}

/// The signed decimal notation of `n` reads back as `n`, and holds no character but digits
/// and a leading minus sign.
pub proof fn lemma_signed_decimal_reads_back(n: int)
    ensures
        int_value(signed_decimal(n)) == Some(n),
        forall|i: int| 0 <= i < signed_decimal(n).len() ==> (is_digit(#[trigger] signed_decimal(n)[i]) || signed_decimal(n)[i] == '-'),
        signed_decimal(n).len() >= 1,
{
    if n < 0 {
        let d = decimal((-n) as nat);
        lemma_decimal_digits((-n) as nat);
        let s = signed_decimal(n);
        assert(s.drop_first() =~= d);
        assert forall|i: int| 0 <= i < s.len() implies (is_digit(#[trigger] s[i]) || s[i] == '-') by {
            if i > 0 {
                assert(s[i] == d[i - 1]);
            }
        }
    } else {
        let d = decimal(n as nat);
        lemma_decimal_digits(n as nat);
        assert(is_digit(d[0]));
    }
}

/// The decimal notation of a signed integer.
pub open spec fn signed_decimal(n: int) -> Seq<char> {
    if n < 0 {
        seq!['-'] + decimal((-n) as nat)
    } else {
        decimal(n as nat)
    }
}

/// The decimal notation of `n`, with a minus sign when negative.
pub fn signed_decimal_string(n: i64) -> (r: String)
    ensures
        r@ == signed_decimal(n as int),
{
    if n < 0 {
        let m: u64 = (-(n as i128)) as u64;
        let d = decimal_string(m);
        proof {
            reveal_strlit("-");
        }
        let r = String::from_str("-").concat(d.as_str());
        assert(r@ =~= signed_decimal(n as int));
        r
    } else {
        decimal_string(n as u64)
    }
}

} // verus!
