//! What IDs and references stand for.

use vstd::prelude::*;
use vstd::string::*;
use vstd::utf8::*;

use crate::clock::{
    calendar_of, day_number, digit_value, is_digit_stamp, lemma_calendar_exists, lemma_day_bounds,
    pair_value, valid_date, Moment,
};
use crate::config::valid_strain_name;
use crate::lines::{is_space, lines_of, trim_back, trim_front, trimmed_text, word_len, words};
use crate::snapshot::id::{
    id_moment, id_ok, id_text, lemma_epoch_year, lemma_id_plain, lemma_id_text,
};
use crate::snapshot::target::{parse_target, TargetView};
use crate::text::{
    is_digit, lemma_split_first_at, lemma_split_first_none, split_first, text_less,
};

verus! {

/// Whether a text of digits has the shape of an ID: `YYYYMMDD-HHMMSS`, or that
/// with `-NNN` behind it.
pub open spec fn is_id_shaped(s: Seq<char>) -> bool {
    &&& s.len() == 15 || (s.len() == 19 && s[15] == '-' && is_digit(s[16]) && is_digit(s[17])
        && is_digit(s[18]))
    &&& is_digit_stamp(s.take(15))
}

/// An ID is accepted exactly if its digits are a day of the calendar and a time
/// of day, and it stands for that second in UTC, with the milliseconds behind
/// it, if any.
pub proof fn law_instant_of_id(s: Seq<char>)
    requires
        is_id_shaped(s),
    ensures
        ({
            let y = pair_value(s, 0) * 100 + pair_value(s, 2);
            let (m, d) = (pair_value(s, 4), pair_value(s, 6));
            let (h, mi, sec) = (pair_value(s, 9), pair_value(s, 11), pair_value(s, 13));
            let millis = if s.len() == 19 {
                digit_value(s[16]) * 100 + digit_value(s[17]) * 10 + digit_value(s[18])
            } else {
                0
            };
            &&& id_ok(s) <==> valid_date(y, m, d) && h <= 23 && mi <= 59 && sec <= 60
            &&& id_ok(s) ==> (id_moment(s) matches Some(t) && t.secs == day_number(y, m, d) * 86_400
                + h * 3_600 + mi * 60 + (if sec == 60 {
                59
            } else {
                sec
            }) && t.nanos == millis * 1_000_000)
        }),
{
    let b = encode_utf8(s);
    let t = s.take(15);
    assert(is_ascii_chars(s)) by {
        assert forall|i: int| 0 <= i < s.len() implies '\0' <= #[trigger] s[i] <= '\u{7f}' by {
            if i < 15 {
                assert(s[i] == t[i]);
            }
        }
    }
    is_ascii_chars_encode_utf8(s);
    assert(is_ascii_chars(t));
    is_ascii_chars_encode_utf8(t);
    encode_utf8_decode_utf8(t);
    encode_utf8_decode_utf8(s);
    assert(b.len() == s.len());
    assert(b[8] == s[8] as u8);
    assert(t[8] == s[8]);
    if s.len() == 19 {
        assert(b.subrange(0, 15) =~= encode_utf8(t));
        assert(b[15] == s[15] as u8);
        assert(b[16] == s[16] as u8 && b[17] == s[17] as u8 && b[18] == s[18] as u8);
    } else {
        assert(t =~= s);
    }
    assert(is_digit(t[0]) && is_digit(t[1]) && is_digit(t[2]) && is_digit(t[3]));
    assert(is_digit(t[9]) && is_digit(t[10]) && is_digit(t[11]) && is_digit(t[12]));
    assert(is_digit(t[13]) && is_digit(t[14]));
    assert(pair_value(t, 0) == pair_value(s, 0) && pair_value(t, 2) == pair_value(s, 2));
    assert(pair_value(t, 4) == pair_value(s, 4) && pair_value(t, 6) == pair_value(s, 6));
    assert(pair_value(t, 9) == pair_value(s, 9) && pair_value(t, 11) == pair_value(s, 11));
    assert(pair_value(t, 13) == pair_value(s, 13));
    let y = pair_value(t, 0) * 100 + pair_value(t, 2);
    assert(0 <= y <= 9_999);
    if valid_date(y, pair_value(t, 4), pair_value(t, 6)) {
        lemma_day_bounds(y, pair_value(t, 4), pair_value(t, 6));
    }
}

/// The ID of an instant up to the year 9999 is accepted, has 19 characters, and
/// stands for the instant, to the millisecond.
pub proof fn law_id_of_instant(m: Moment)
    requires
        m.of_clock(),
        calendar_of(m.secs as int).year <= 9_999,
    ensures
        id_ok(id_text(m)),
        id_text(m).len() == 19,
        id_moment(id_text(m)) matches Some(t) && t.secs == m.secs && t.nanos == m.nanos as int
            / 1_000_000 * 1_000_000,
{
    lemma_calendar_exists(m.secs as int);
    lemma_epoch_year(m.secs as int, calendar_of(m.secs as int));
    lemma_id_text(m);
}

/// What references stand for: an ID for the snapshots with it, `strain@id` for
/// that of the strain, and `strain@` and `strain@all` for all of the strain.
pub proof fn law_references(strain: Seq<char>, id: Seq<char>)
    requires
        valid_strain_name(strain),
        id_ok(id),
    ensures
        parse_target(id) == Ok::<TargetView, Seq<char>>(TargetView::Single { strain: None, id }),
        parse_target(strain + "@"@ + id) == Ok::<TargetView, Seq<char>>(
            TargetView::Single { strain: Some(strain), id },
        ),
        parse_target(strain + "@"@) == Ok::<TargetView, Seq<char>>(
            TargetView::AllInStrain { strain },
        ),
        parse_target(strain + "@all"@) == Ok::<TargetView, Seq<char>>(
            TargetView::AllInStrain { strain },
        ),
{
    reveal_strlit("@");
    reveal_strlit("@all");
    reveal_strlit("all");
    lemma_id_plain(id);
    crate::snapshot::id::lemma_id_last(id);
    lemma_no_at(id);
    assert forall|i: int| 0 <= i < strain.len() implies strain[i] != '@' by {
        assert(crate::snapshot::id::is_token_char(strain[i]));
    }
    lemma_at(strain, id);
    lemma_at(strain, Seq::empty());
    lemma_at(strain, "all"@);
    assert("@"@ =~= seq!['@']);
    assert("@all"@ =~= seq!['@'] + "all"@);
    assert(strain + "@"@ + id =~= strain + seq!['@'] + id);
    assert(strain + "@"@ =~= strain + seq!['@'] + Seq::empty());
    assert(strain + "@all"@ =~= strain + seq!['@'] + "all"@);
    if id == "all"@ {
        assert(id.last() == 'l');
    }
}

proof fn lemma_no_at(s: Seq<char>)
    requires
        forall|i: int| 0 <= i < s.len() ==> s[i] != '@',
    ensures
        split_first(s, '@') is None,
    decreases s.len(),
{
    if s.len() > 0 {
        assert forall|i: int| 0 <= i < s.skip(1).len() implies s.skip(1)[i] != '@' by {
            assert(s.skip(1)[i] == s[i + 1]);
        }
        lemma_no_at(s.skip(1));
    }
}

proof fn lemma_at(a: Seq<char>, b: Seq<char>)
    requires
        forall|i: int| 0 <= i < a.len() ==> a[i] != '@',
    ensures
        split_first(a + seq!['@'] + b, '@') == Some((a, b)),
{
    let s = a + seq!['@'] + b;
    let k = a.len() as int;
    assert(s[k] == '@');
    assert forall|j: int| 0 <= j < k implies s[j] != '@' by {
        assert(s[j] == a[j]);
    }
    lemma_split_first_at(s, '@', k);
    assert(s.subrange(0, k) =~= a);
    assert(s.subrange(k + 1, s.len() as int) =~= b);
}

/// What is refused as a reference: a text without `@` that is no ID; and one
/// whose part before the first `@` is no strain name, or whose part behind it is
/// neither empty, nor `all`, nor an ID.
pub proof fn law_refused_references(a: Seq<char>, b: Seq<char>)
    requires
        forall|i: int| 0 <= i < a.len() ==> a[i] != '@',
    ensures
        parse_target(a) is Ok <==> a.len() > 0 && id_ok(a),
        parse_target(a + "@"@ + b) is Ok <==> valid_strain_name(a) && (b.len() == 0 || b == "all"@
            || id_ok(b)),
{
    reveal_strlit("@");
    assert("@"@ =~= seq!['@']);
    assert(a + "@"@ + b =~= a + seq!['@'] + b);
    lemma_no_at(a);
    lemma_at(a, b);
}

proof fn lemma_trim_front(s: Seq<char>) -> (k: int)
    ensures
        0 <= k <= s.len(),
        trim_front(s) == s.skip(k),
        forall|i: int| 0 <= i < k ==> is_space(#[trigger] s[i]),
        k < s.len() ==> !is_space(s[k]),
    decreases s.len(),
{
    if s.len() > 0 && is_space(s[0]) {
        let k = lemma_trim_front(s.skip(1));
        assert(s.skip(1).skip(k) =~= s.skip(k + 1));
        assert forall|i: int| 0 <= i < k + 1 implies is_space(#[trigger] s[i]) by {
            if i > 0 {
                assert(s.skip(1)[i - 1] == s[i]);
            }
        }
        k + 1
    } else {
        assert(s.skip(0) =~= s);
        0
    }
}

proof fn lemma_trim_back(s: Seq<char>) -> (k: int)
    ensures
        0 <= k <= s.len(),
        trim_back(s) == s.take(k),
        forall|i: int| k <= i < s.len() ==> is_space(#[trigger] s[i]),
        k > 0 ==> !is_space(s[k - 1]),
    decreases s.len(),
{
    if s.len() > 0 && is_space(s.last()) {
        let k = lemma_trim_back(s.drop_last());
        assert(s.drop_last().take(k) =~= s.take(k));
        assert forall|i: int| k <= i < s.len() implies is_space(#[trigger] s[i]) by {
            if i < s.len() - 1 {
                assert(s.drop_last()[i] == s[i]);
            }
        }
        k
    } else {
        assert(s.take(s.len() as int) =~= s);
        s.len() as int
    }
}

/// A trimmed text is what is left without the white space round it, and no
/// more is taken away.
pub proof fn law_trimmed(s: Seq<char>)
    ensures
        exists|a: int, b: int|
            0 <= a <= b <= s.len() && trimmed_text(s) == #[trigger] s.subrange(a, b) && (forall|
                i: int,
            |
                0 <= i < a || b <= i < s.len() ==> is_space(#[trigger] s[i])),
        trimmed_text(s).len() > 0 ==> !is_space(trimmed_text(s)[0]) && !is_space(
            trimmed_text(s).last(),
        ),
{
    let a = lemma_trim_front(s);
    let t = s.skip(a);
    let k = lemma_trim_back(t);
    assert(t.take(k) =~= s.subrange(a, a + k));
    assert forall|i: int| 0 <= i < a || a + k <= i < s.len() implies is_space(#[trigger] s[i]) by {
        if i >= a + k {
            assert(t[i - a] == s[i]);
        }
    }
    if k > 0 {
        assert(t[k - 1] == s[a + k - 1]);
        assert(t[0] == s[a]);
    }
}

/// Texts are ordered by the first character in which they differ; a text comes
/// before any that goes on from it.
pub proof fn law_text_order(a: Seq<char>, b: Seq<char>)
    ensures
        text_less(a, b) <==> exists|k: int|
            0 <= k <= a.len() && k <= b.len() && #[trigger] a.take(k) == b.take(k) && (if k
                == a.len() {
                k < b.len()
            } else {
                k < b.len() && (a[k] as u32) < (b[k] as u32)
            }),
    decreases a.len(),
{
    let (x, y) = (a.skip(1), b.skip(1));
    if a.len() > 0 && b.len() > 0 && a[0] == b[0] {
        law_text_order(x, y);
    }
    if text_less(a, b) {
        if a.len() == 0 || a[0] != b[0] {
            assert(a.take(0) =~= b.take(0));
        } else {
            let k = choose|k: int|
                0 <= k <= x.len() && k <= y.len() && #[trigger] x.take(k) == y.take(k) && (if k
                    == x.len() {
                    k < y.len()
                } else {
                    k < y.len() && (x[k] as u32) < (y[k] as u32)
                });
            assert(a.take(k + 1) =~= seq![a[0]] + x.take(k));
            assert(b.take(k + 1) =~= seq![b[0]] + y.take(k));
            assert(a.take(k + 1) == b.take(k + 1));
        }
    }
    if exists|k: int|
        0 <= k <= a.len() && k <= b.len() && #[trigger] a.take(k) == b.take(k) && (if k == a.len() {
            k < b.len()
        } else {
            k < b.len() && (a[k] as u32) < (b[k] as u32)
        }) {
        let k = choose|k: int|
            0 <= k <= a.len() && k <= b.len() && #[trigger] a.take(k) == b.take(k) && (if k
                == a.len() {
                k < b.len()
            } else {
                k < b.len() && (a[k] as u32) < (b[k] as u32)
            });
        if k > 0 {
            assert(a.take(k)[0] == a[0] && b.take(k)[0] == b[0]);
            assert(x.take(k - 1) =~= a.take(k).skip(1));
            assert(y.take(k - 1) =~= b.take(k).skip(1));
            assert(x.take(k - 1) == y.take(k - 1));
        }
    }
}

/// Every ID has its separators in place: 15 bytes with a dash behind the date,
/// or 19 with another before three digits.
pub proof fn law_id_form(s: Seq<char>)
    requires
        id_ok(s),
    ensures
        ({
            let b = encode_utf8(s);
            &&& b.len() == 15 || b.len() == 19
            &&& b[8] == 0x2d
            &&& b.len() == 19 ==> b[15] == 0x2d && 0x30 <= b[16] <= 0x39 && 0x30 <= b[17] <= 0x39
                && 0x30 <= b[18] <= 0x39
        }),
{
}

proof fn lemma_word(s: Seq<char>, n: int)
    requires
        0 <= n <= s.len(),
        forall|j: int| 0 <= j < n ==> !is_space(#[trigger] s[j]),
        n < s.len() ==> is_space(s[n]),
    ensures
        word_len(s) == n,
    decreases n,
{
    if n > 0 {
        let t = s.skip(1);
        assert forall|j: int| 0 <= j < n - 1 implies !is_space(#[trigger] t[j]) by {
            assert(t[j] == s[j + 1]);
        }
        assert(!is_space(s[0]));
        lemma_word(t, n - 1);
    }
}

/// The words of a text are what stands between space: space at the start adds
/// none, and a word ends where space begins.
pub proof fn law_words(word: Seq<char>, gap: char, rest: Seq<char>)
    requires
        word.len() > 0,
        forall|j: int| 0 <= j < word.len() ==> !is_space(#[trigger] word[j]),
        is_space(gap),
    ensures
        words(word) == seq![word],
        words(seq![gap] + rest) == words(rest),
        words(word + seq![gap] + rest) == seq![word] + words(rest),
        words(Seq::<char>::empty()).len() == 0,
{
    let n = word.len() as int;
    lemma_word(word, n);
    assert(word.take(n) =~= word);
    assert(word.skip(n) =~= Seq::empty());
    assert(seq![word] + words(Seq::<char>::empty()) =~= seq![word]);
    assert((seq![gap] + rest).skip(1) =~= rest);
    let s = word + seq![gap] + rest;
    assert forall|j: int| 0 <= j < n implies !is_space(#[trigger] s[j]) by {
        assert(s[j] == word[j]);
    }
    lemma_word(s, n);
    assert(s.take(n) =~= word);
    assert(s.skip(n) =~= seq![gap] + rest);
    assert(!is_space(s[0]));
    assert(!is_space(word[0]));
    assert((seq![gap] + rest)[0] == gap);
    assert(words(s) == seq![s.take(n)] + words(s.skip(n)));
}

/// A text is its lines: each ends at a line feed, with a carriage return before
/// it left out, and the last need not end.
pub proof fn law_lines(line: Seq<char>, rest: Seq<char>)
    requires
        forall|j: int| 0 <= j < line.len() ==> #[trigger] line[j] != '\n',
    ensures
        line.len() > 0 ==> lines_of(line) == seq![line],
        lines_of(Seq::<char>::empty()).len() == 0,
        lines_of(line + seq!['\n'] + rest) == seq![
            if line.len() > 0 && line.last() == '\r' {
                line.drop_last()
            } else {
                line
            },
        ] + lines_of(rest),
{
    lemma_split_first_none(line, '\n');
    let s = line + seq!['\n'] + rest;
    let n = line.len() as int;
    assert forall|j: int| 0 <= j < n implies s[j] != '\n' by {
        assert(s[j] == line[j]);
    }
    lemma_split_first_at(s, '\n', n);
    assert(s.subrange(0, n) =~= line);
    assert(s.subrange(n + 1, s.len() as int) =~= rest);
}

} // verus!
