//! Snapshot identifiers and the names of snapshot subvolumes.

use vstd::prelude::*;
use vstd::string::*;
use vstd::utf8::{decode_utf8, encode_utf8, is_char_boundary, valid_utf8};

use crate::clock::{
    calendar, calendar_of, digit_stamp_secs, digit_value, format_stamp, is_calendar, is_digit_stamp,
    is_stamp_like, lemma_stamp_order, lemma_stamp_round_trip, pair_value, parse_stamp, stamp_secs,
    stamp_text, three, two, utc_now, year_text, Calendar, Moment,
};
use crate::error::{ErrorView, RevenantError};
use crate::text::{cat2, cat5, chars_of, dec, digit, is_digit, text_less, text_of};

verus! {

/// Length of a legacy snapshot ID, `YYYYMMDD-HHMMSS`.
pub const ID_LEN_LEGACY: usize = 15;

/// Length of the current snapshot ID, `YYYYMMDD-HHMMSS-NNN`.
pub const ID_LEN_CURRENT: usize = 19;

/// The UTF-8 form of a concatenation is the concatenation of the forms.
pub proof fn lemma_encode_concat(a: Seq<char>, b: Seq<char>)
    ensures
        encode_utf8(a + b) == encode_utf8(a) + encode_utf8(b),
    decreases a.len(),
{
    if a.len() == 0 {
        assert(a + b =~= b);
        assert(encode_utf8(a) + encode_utf8(b) =~= encode_utf8(b));
    } else {
        lemma_encode_concat(a.drop_first(), b);
        assert((a + b).drop_first() =~= a.drop_first() + b);
        let head = vstd::utf8::encode_scalar(a[0] as u32);
        assert(head + (encode_utf8(a.drop_first()) + encode_utf8(b)) =~= (head + encode_utf8(
            a.drop_first(),
        )) + encode_utf8(b));
    }
}

/// Texts with the same UTF-8 form are the same.
pub proof fn lemma_encode_injective(a: Seq<char>, b: Seq<char>)
    requires
        encode_utf8(a) == encode_utf8(b),
    ensures
        a == b,
{
    vstd::utf8::encode_utf8_decode_utf8(a);
    vstd::utf8::encode_utf8_decode_utf8(b);
}

/// What is wrong with a text as a snapshot ID.
pub enum IdFault {
    Format,
    Milliseconds,
    Timestamp,
}

/// Whether `b` is the code of an ASCII digit.
pub open spec fn is_digit_byte(b: u8) -> bool {
    0x30 <= b <= 0x39
}

/// What is wrong with the text whose UTF-8 form is `b` as a snapshot ID, if
/// anything: `YYYYMMDD-HHMMSS-NNN`, or the legacy `YYYYMMDD-HHMMSS`.
pub open spec fn id_fault(b: Seq<u8>) -> Option<IdFault> {
    if b.len() == ID_LEN_CURRENT {
        if b[8] != 0x2d || b[15] != 0x2d {
            Some(IdFault::Format)
        } else if !(is_digit_byte(b[16]) && is_digit_byte(b[17]) && is_digit_byte(b[18])) {
            Some(IdFault::Milliseconds)
        } else if stamp_secs(decode_utf8(b.subrange(0, 15))) is None {
            Some(IdFault::Timestamp)
        } else {
            None
        }
    } else if b.len() == ID_LEN_LEGACY {
        if b[8] != 0x2d {
            Some(IdFault::Format)
        } else if stamp_secs(decode_utf8(b)) is None {
            Some(IdFault::Timestamp)
        } else {
            None
        }
    } else {
        Some(IdFault::Format)
    }
}

/// Whether `s` is a snapshot ID.
pub open spec fn id_ok(s: Seq<char>) -> bool {
    id_fault(encode_utf8(s)) is None
}

/// The message for a text that is no snapshot ID.
pub open spec fn id_fault_text(f: IdFault, s: Seq<char>) -> Seq<char> {
    match f {
        IdFault::Format => "invalid snapshot ID format: "@ + s,
        IdFault::Milliseconds => "invalid snapshot ID milliseconds: "@ + s,
        IdFault::Timestamp => "invalid snapshot ID timestamp: "@ + s,
    }
}

/// The instant that a snapshot ID denotes: its stamp in UTC, with the
/// milliseconds of its suffix, if any.
pub open spec fn id_moment(s: Seq<char>) -> Option<Moment> {
    let b = encode_utf8(s);
    if b.len() == ID_LEN_CURRENT {
        match stamp_secs(decode_utf8(b.subrange(0, 15))) {
            Some(t) => Some(
                Moment {
                    secs: t as i64,
                    nanos: ((((b[16] - 0x30) * 100 + (b[17] - 0x30) * 10 + (b[18] - 0x30))
                        * 1_000_000) as u32),
                },
            ),
            None => None,
        }
    } else {
        match stamp_secs(s) {
            Some(t) => Some(Moment { secs: t as i64, nanos: 0 }),
            None => None,
        }
    }
}

/// The instant in milliseconds that the ID of an instant keeps.
pub open spec fn to_millis(m: Moment) -> Moment {
    Moment { secs: m.secs, nanos: (m.nanos as int / 1_000_000 * 1_000_000) as u32 }
}

/// The text of the ID of an instant.
pub open spec fn id_text(m: Moment) -> Seq<char> {
    stamp_text(calendar_of(m.secs as int)) + seq!['-'] + three(m.nanos as int / 1_000_000)
}

/// Whether a text is an ID in the current form that denotes the instant `m`, to
/// the millisecond.
pub open spec fn is_current_id(id: Seq<char>, m: Moment) -> bool {
    &&& id_ok(id)
    &&& id.len() == ID_LEN_CURRENT
    &&& id_moment(id) == Some(to_millis(m))
}

/// Whether a text is the ID of an instant that the clock may show.
pub open spec fn is_clock_id(id: Seq<char>) -> bool {
    exists|m: Moment| #[trigger] m.of_clock() && id == id_text(m)
}

/// The name of a snapshot subvolume.
pub open spec fn name_text(subvol: Seq<char>, strain: Seq<char>, id: Seq<char>) -> Seq<char> {
    subvol + "-"@ + strain + "-"@ + id
}

/// Snapshot identifier based on a UTC timestamp: `YYYYMMDD-HHMMSS-NNN`,
/// where the trailing three digits are milliseconds. Legacy IDs without
/// the millisecond suffix (`YYYYMMDD-HHMMSS`) are accepted on read; new IDs
/// are always given the longer form.
#[derive(Debug, PartialEq, Eq, PartialOrd, Ord, Hash)]
pub struct SnapshotId(String);

impl View for SnapshotId {
    type V = Seq<char>;

    closed spec fn view(&self) -> Seq<char> {
        self.0@
    }
}

impl Clone for SnapshotId {
    fn clone(&self) -> (r: Self)
        ensures
            r@ == self@,
    {
        proof {
            use_type_invariant(self);
        }
        SnapshotId(self.0.clone())
    }
}

proof fn lemma_dash_boundary(b: Seq<u8>, i: int)
    requires
        valid_utf8(b),
        0 <= i < b.len(),
        b[i] == 0x2d,
    ensures
        is_char_boundary(b, i),
        is_char_boundary(b, i + 1),
{
    vstd::utf8::is_char_boundary_iff_not_is_continuation_byte(b, i);
    vstd::utf8::valid_utf8_split(b, i);
    let t = b.subrange(i, b.len() as int);
    assert(vstd::utf8::is_leading_byte_width_1(t[0]));
    if i + 1 < b.len() {
        assert(valid_utf8(vstd::utf8::pop_first_scalar(t)));
        let u = vstd::utf8::pop_first_scalar(t);
        assert(u =~= b.subrange(i + 1, b.len() as int));
        vstd::utf8::is_char_boundary_start_end_of_seq(u);
        vstd::utf8::is_char_boundary_iff_not_is_continuation_byte(u, 0);
        assert(u[0] == b[i + 1]);
        vstd::utf8::is_char_boundary_iff_not_is_continuation_byte(b, i + 1);
    } else {
        vstd::utf8::is_char_boundary_start_end_of_seq(b);
    }
}

impl SnapshotId {
    #[verifier::type_invariant]
    spec fn inv(&self) -> bool {
        id_ok(self.0@) || encode_utf8(self.0@).len() > ID_LEN_CURRENT
    }

    /// Create a snapshot ID from its text. Accepts both the legacy form and
    /// the current one.
    pub fn from_string(s: &str) -> (r: Result<Self, RevenantError>)
        ensures
            match r {
                Ok(id) => id@ == s@ && id_ok(s@),
                Err(e) => id_fault(encode_utf8(s@)) matches Some(f) && e@ == ErrorView::Other(
                    id_fault_text(f, s@),
                ),
            },
    {
        let b = s.as_bytes();
        proof {
            vstd::utf8::encode_utf8_valid_utf8(s@);
            vstd::utf8::encode_utf8_decode_utf8(s@);
        }
        if b.len() == ID_LEN_CURRENT {
            if b[8] != 0x2d || b[15] != 0x2d {
                return Err(RevenantError::Other(cat2("invalid snapshot ID format: ", s)));
            }
            let digits: bool = 0x30 <= b[16] && b[16] <= 0x39 && 0x30 <= b[17] && b[17] <= 0x39
                && 0x30 <= b[18] && b[18] <= 0x39;
            if !digits {
                return Err(RevenantError::Other(cat2("invalid snapshot ID milliseconds: ", s)));
            }
            proof {
                lemma_dash_boundary(b@, 15);
            }
            let (stamp, _rest) = s.split_at(ID_LEN_LEGACY);
            proof {
                vstd::utf8::encode_utf8_decode_utf8(stamp@);
            }
            if parse_stamp(stamp).is_none() {
                return Err(RevenantError::Other(cat2("invalid snapshot ID timestamp: ", s)));
            }
        } else if b.len() == ID_LEN_LEGACY {
            if b[8] != 0x2d {
                return Err(RevenantError::Other(cat2("invalid snapshot ID format: ", s)));
            }
            if parse_stamp(s).is_none() {
                return Err(RevenantError::Other(cat2("invalid snapshot ID timestamp: ", s)));
            }
        } else {
            return Err(RevenantError::Other(cat2("invalid snapshot ID format: ", s)));
        }
        Ok(SnapshotId(s.to_owned()))
    }

    /// The text of the ID.
    pub fn as_str(&self) -> (r: &str)
        ensures
            r@ == self@,
    {
        self.0.as_str()
    }

    /// The instant that the ID's timestamp denotes. The millisecond suffix,
    /// if any, is kept.
    pub fn created_at(&self) -> (r: Option<Moment>)
        ensures
            r == id_moment(self@),
            r matches Some(m) ==> m.wf(),
    {
        proof {
            use_type_invariant(self);
            vstd::utf8::encode_utf8_valid_utf8(self.0@);
        }
        let s = self.0.as_str();
        let b = s.as_bytes();
        if b.len() == ID_LEN_CURRENT {
            proof {
                lemma_dash_boundary(b@, 15);
            }
            let (stamp, _rest) = s.split_at(ID_LEN_LEGACY);
            proof {
                vstd::utf8::encode_utf8_decode_utf8(stamp@);
            }
            let ms: u32 = (b[16] - 0x30) as u32 * 100 + (b[17] - 0x30) as u32 * 10 + (b[18]
                - 0x30) as u32;
            match parse_stamp(stamp) {
                Some(t) => Some(Moment { secs: t, nanos: ms * 1_000_000 }),
                None => None,
            }
        } else {
            match parse_stamp(s) {
                Some(t) => Some(Moment { secs: t, nanos: 0 }),
                None => None,
            }
        }
    }

    /// The ID of an instant, with millisecond precision.
    pub fn at(m: &Moment) -> (r: Self)
        requires
            m.wf(),
            m.secs >= 0,
        ensures
            r@ == id_text(*m),
            calendar_of(m.secs as int).year <= 9_999 ==> is_current_id(r@, *m),
    {
        let s = format_stamp(m.secs, m.nanos);
        let c = calendar(m.secs);
        proof {
            lemma_epoch_year(m.secs as int, c);
            if c.year <= 9_999 {
                lemma_id_text(*m);
            } else {
                lemma_long_id(*m);
            }
        }
        SnapshotId(s)
    }

    /// A new snapshot ID from the current UTC time, with millisecond
    /// precision so that snapshots created back-to-back in the same strain do
    /// not collide.
    #[must_use]
    pub fn now() -> (r: Self)
        ensures
            is_clock_id(r@),
            exists|m: Moment| #[trigger]
                m.of_clock() && r@ == id_text(m) && (calendar_of(m.secs as int).year <= 9_999
                    ==> is_current_id(r@, m)),
    {
        let m = utc_now();
        let r = SnapshotId::at(&m);
        assert(m.of_clock());
        r
    }

    /// The snapshot subvolume name for a source subvolume and a strain.
    #[must_use]
    pub fn snapshot_name(&self, subvol: &str, strain: &str) -> (r: String)
        ensures
            r@ == name_text(subvol@, strain@, self@),
    {
        cat5(subvol, "-", strain, "-", self.as_str())
    }

    fn trailing<'a>(s: &'a str, width: usize) -> (r: Option<(&'a str, SnapshotId)>)
        requires
            width == ID_LEN_CURRENT || width == ID_LEN_LEGACY,
        ensures
            match r {
                Some((p, id)) => trailing_split(s@, p@, id@, width as int),
                None => forall|p: Seq<char>, t: Seq<char>|
                    !#[trigger] trailing_split(s@, p, t, width as int),
            },
    {
        let b = s.as_bytes();
        let n: usize = b.len();
        proof {
            vstd::utf8::encode_utf8_valid_utf8(s@);
            assert forall|p: Seq<char>, t: Seq<char>| #[trigger]
                trailing_split(s@, p, t, width as int) implies n >= width + 2 && b[n - width - 1]
                == 0x2d && encode_utf8(t) == b@.subrange(n - width, n as int) by {
                lemma_split_bytes(s@, p, t, width as int);
            }
        }
        if n < width + 2 {
            return None;
        }
        if b[n - width - 1] != 0x2d {
            return None;
        }
        proof {
            lemma_dash_boundary(b@, n - width - 1);
        }
        let (head, tail) = s.split_at(n - width);
        let (p, _dash) = s.split_at(n - width - 1);
        match SnapshotId::from_string(tail) {
            Ok(id) => {
                proof {
                    lemma_rejoin(s@, p@, tail@, n - width);
                    lemma_encode_nonempty(p@);
                }
                Some((p, id))
            },
            Err(_) => {
                proof {
                    assert forall|p: Seq<char>, t: Seq<char>| !#[trigger] trailing_split(
                        s@,
                        p,
                        t,
                        width as int,
                    ) by {
                        if trailing_split(s@, p, t, width as int) {
                            assert(encode_utf8(t) =~= encode_utf8(tail@));
                        }
                    }
                }
                None
            },
        }
    }

    pub(crate) fn split_trailing<'a>(s: &'a str) -> (r: Option<(&'a str, SnapshotId)>)
        ensures
            match r {
                Some((p, id)) => trailing_id(s@) == Some((p@, id@)),
                None => trailing_id(s@) is None,
            },
    {
        match SnapshotId::trailing(s, ID_LEN_CURRENT) {
            Some((p, id)) => {
                proof {
                    lemma_trailing_unique(s@, p@, id@, ID_LEN_CURRENT as int);
                }
                Some((p, id))
            },
            None => match SnapshotId::trailing(s, ID_LEN_LEGACY) {
                Some((p, id)) => {
                    proof {
                        lemma_trailing_unique(s@, p@, id@, ID_LEN_LEGACY as int);
                    }
                    Some((p, id))
                },
                None => None,
            },
        }
    }

    /// The trailing snapshot ID of a text like `...-<strain>-<id>`, the
    /// current form tried first, and the byte index in `s` at which it
    /// begins; the byte before that is the `-` separator.
    #[must_use]
    pub fn extract_trailing(s: &str) -> (r: Option<(Self, usize)>)
        ensures
            match r {
                Some((id, start)) => trailing_id(s@) matches Some((p, t)) && id@ == t && start
                    == encode_utf8(p).len() + 1,
                None => trailing_id(s@) is None,
            },
    {
        match SnapshotId::split_trailing(s) {
            Some((p, id)) => {
                proof {
                    let w = encode_utf8(id@).len() as int;
                    lemma_split_bytes(s@, p@, id@, w);
                }
                let start: usize = s.as_bytes().len() - id.as_str().as_bytes().len();
                Some((id, start))
            },
            None => None,
        }
    }
}

impl core::str::FromStr for SnapshotId {
    type Err = RevenantError;

    fn from_str(s: &str) -> (r: Result<Self, Self::Err>)
        ensures
            match r {
                Ok(id) => id@ == s@ && id_ok(s@),
                Err(e) => id_fault(encode_utf8(s@)) matches Some(f) && e@ == ErrorView::Other(
                    id_fault_text(f, s@),
                ),
            },
    {
        SnapshotId::from_string(s)
    }
}

/// `s` is `p`, a dash and the snapshot ID `t` of `width` bytes.
pub open spec fn trailing_split(s: Seq<char>, p: Seq<char>, t: Seq<char>, width: int) -> bool {
    &&& s == p + seq!['-'] + t
    &&& p.len() > 0
    &&& encode_utf8(t).len() == width
    &&& id_ok(t)
}

/// `s` ends in a dash and a snapshot ID of `width` bytes.
pub open spec fn has_trailing(s: Seq<char>, width: int) -> bool {
    exists|p: Seq<char>, t: Seq<char>| #[trigger] trailing_split(s, p, t, width)
}

/// What precedes the dash before the trailing snapshot ID of `s`, and that
/// ID. An ID of the current form is preferred to one of the legacy form.
pub open spec fn trailing_id(s: Seq<char>) -> Option<(Seq<char>, Seq<char>)> {
    if has_trailing(s, ID_LEN_CURRENT as int) {
        Some(
            choose|p: Seq<char>, t: Seq<char>| #[trigger]
                trailing_split(s, p, t, ID_LEN_CURRENT as int),
        )
    } else if has_trailing(s, ID_LEN_LEGACY as int) {
        Some(
            choose|p: Seq<char>, t: Seq<char>| #[trigger]
                trailing_split(s, p, t, ID_LEN_LEGACY as int),
        )
    } else {
        None
    }
}

proof fn lemma_encode_dash()
    ensures
        encode_utf8(seq!['-']) == seq![0x2du8],
{
    vstd::utf8::is_ascii_chars_encode_utf8(seq!['-']);
    assert(encode_utf8(seq!['-']) =~= seq![0x2du8]);
}

proof fn lemma_encode_nonempty(s: Seq<char>)
    requires
        encode_utf8(s).len() > 0,
    ensures
        s.len() > 0,
{
}

proof fn lemma_split_bytes(s: Seq<char>, p: Seq<char>, t: Seq<char>, width: int)
    requires
        trailing_split(s, p, t, width),
    ensures
        encode_utf8(s).len() == encode_utf8(p).len() + 1 + width,
        encode_utf8(p).len() >= 1,
        encode_utf8(s)[encode_utf8(p).len() as int] == 0x2d,
        encode_utf8(t) == encode_utf8(s).subrange(
            encode_utf8(s).len() - width,
            encode_utf8(s).len() as int,
        ),
        encode_utf8(p) == encode_utf8(s).subrange(0, encode_utf8(s).len() - width - 1),
{
    lemma_encode_concat(p + seq!['-'], t);
    lemma_encode_concat(p, seq!['-']);
    lemma_encode_dash();
    assert(encode_utf8(t) =~= encode_utf8(s).subrange(
        encode_utf8(s).len() - width,
        encode_utf8(s).len() as int,
    ));
    assert(encode_utf8(p) =~= encode_utf8(s).subrange(0, encode_utf8(s).len() - width - 1));
    vstd::utf8::encode_utf8_first_scalar(p);
}

proof fn lemma_rejoin(s: Seq<char>, p: Seq<char>, t: Seq<char>, start: int)
    requires
        1 <= start <= encode_utf8(s).len(),
        encode_utf8(p) == encode_utf8(s).subrange(0, start - 1),
        encode_utf8(s)[start - 1] == 0x2d,
        encode_utf8(t) == encode_utf8(s).subrange(start, encode_utf8(s).len() as int),
    ensures
        s == p + seq!['-'] + t,
{
    lemma_encode_concat(p + seq!['-'], t);
    lemma_encode_concat(p, seq!['-']);
    lemma_encode_dash();
    assert(encode_utf8(p + seq!['-'] + t) =~= encode_utf8(s));
    lemma_encode_injective(s, p + seq!['-'] + t);
}

/// A text has at most one trailing ID of a given width.
proof fn lemma_trailing_unique(s: Seq<char>, p: Seq<char>, t: Seq<char>, width: int)
    requires
        trailing_split(s, p, t, width),
    ensures
        has_trailing(s, width),
        (choose|a: Seq<char>, b: Seq<char>| #[trigger] trailing_split(s, a, b, width)) == (p, t),
{
    let (a, b) = choose|a: Seq<char>, b: Seq<char>| #[trigger] trailing_split(s, a, b, width);
    assert(trailing_split(s, a, b, width));
    lemma_split_bytes(s, p, t, width);
    lemma_split_bytes(s, a, b, width);
    lemma_encode_injective(p, a);
    lemma_encode_injective(t, b);
}

proof fn lemma_digit_ascii(d: int)
    ensures
        is_digit(digit(d)),
        (digit(d) as u8) as int == 0x30 + if 0 <= d < 9 {
            d
        } else {
            9
        },
{
}

pub proof fn lemma_epoch_year(secs: int, c: Calendar)
    requires
        secs >= 0,
        is_calendar(secs, c),
    ensures
        c.year >= 1970,
{
    crate::clock::lemma_year_from_day(c.year as int, c.month as int, c.day as int);
}

pub proof fn lemma_id_text(m: Moment)
    requires
        m.wf(),
        is_calendar(m.secs as int, calendar_of(m.secs as int)),
        0 <= calendar_of(m.secs as int).year <= 9_999,
    ensures
        encode_utf8(id_text(m)).len() == ID_LEN_CURRENT,
        is_current_id(id_text(m), m),
{
    let c = calendar_of(m.secs as int);
    let st = stamp_text(c);
    let ms = m.nanos as int / 1_000_000;
    let tail = three(ms);
    lemma_stamp_round_trip(m.secs as int, c);
    let s = id_text(m);
    assert(s.len() == 19);
    assert forall|i: int| 0 <= i < s.len() implies '\0' <= #[trigger] s[i] <= '\u{7f}' by {
        if i < 15 {
            assert(s[i] == st[i]);
        } else if i == 15 {
            assert(s[i] == '-');
        } else {
            assert(s[i] == tail[i - 16]);
            lemma_digit_ascii(ms / 100);
            lemma_digit_ascii(ms / 10 % 10);
            lemma_digit_ascii(ms % 10);
        }
    }
    vstd::utf8::is_ascii_chars_encode_utf8(s);
    let b = encode_utf8(s);
    lemma_encode_concat(st, seq!['-']);
    lemma_encode_concat(st + seq!['-'], tail);
    assert(s[8] == st[8]);
    assert(s[15] == '-');
    assert(s[16] == tail[0] && s[17] == tail[1] && s[18] == tail[2]);
    lemma_digit_ascii(ms / 100);
    lemma_digit_ascii(ms / 10 % 10);
    lemma_digit_ascii(ms % 10);
    assert(vstd::utf8::is_ascii_chars(st)) by {
        assert forall|i: int| 0 <= i < st.len() implies '\0' <= #[trigger] st[i] <= '\u{7f}' by {
            assert(s[i] == st[i]);
        }
    }
    vstd::utf8::is_ascii_chars_encode_utf8(st);
    assert(b.subrange(0, 15) =~= encode_utf8(st));
    vstd::utf8::encode_utf8_decode_utf8(st);
    assert(ms == ms / 100 * 100 + ms / 10 % 10 * 10 + ms % 10);
}

proof fn lemma_dec(n: nat)
    ensures
        dec(n).len() >= 1,
        forall|i: int| 0 <= i < dec(n).len() ==> is_digit(#[trigger] dec(n)[i]),
    decreases n,
{
    lemma_digit_ascii((n % 10) as int);
    lemma_digit_ascii(n as int);
    if n >= 10 {
        lemma_dec(n / 10);
    }
}

proof fn lemma_long_id(m: Moment)
    requires
        calendar_of(m.secs as int).year >= 10_000,
    ensures
        encode_utf8(id_text(m)).len() > ID_LEN_CURRENT,
{
    let c = calendar_of(m.secs as int);
    let y = c.year as nat;
    let yt = year_text(y as int);
    reveal_with_fuel(dec, 5);
    lemma_dec(y / 10 / 10 / 10 / 10);
    assert(dec(y).len() >= 5);
    lemma_dec(y);
    let s = id_text(m);
    let n = yt.len() as int;
    let rest = two(c.month as int) + two(c.day as int) + seq!['-'] + two(c.hour as int) + two(
        c.minute as int,
    ) + two(c.second as int) + seq!['-'] + three(m.nanos as int / 1_000_000);
    assert(s =~= yt + rest);
    assert(rest.len() == 15);
    lemma_encode_concat(yt, rest);
    lemma_encode_len(yt);
    lemma_encode_len(rest);
}

/// A text is no longer than its UTF-8 form.
pub proof fn lemma_encode_len(s: Seq<char>)
    ensures
        encode_utf8(s).len() >= s.len(),
    decreases s.len(),
{
    if s.len() > 0 {
        lemma_encode_len(s.drop_first());
        vstd::utf8::encode_utf8_first_scalar(s);
    }
}

/// What precedes and what follows the last `c` in `s`.
pub open spec fn split_last(s: Seq<char>, c: char) -> Option<(Seq<char>, Seq<char>)>
    decreases s.len(),
{
    if s.len() == 0 {
        None
    } else if s.last() == c {
        Some((s.drop_last(), Seq::empty()))
    } else {
        match split_last(s.drop_last(), c) {
            Some((a, b)) => Some((a, b.push(s.last()))),
            None => None,
        }
    }
}

pub proof fn lemma_split_last_at(s: Seq<char>, c: char, i: int)
    requires
        0 <= i < s.len(),
        s[i] == c,
        forall|j: int| i < j < s.len() ==> s[j] != c,
    ensures
        split_last(s, c) == Some((s.subrange(0, i), s.subrange(i + 1, s.len() as int))),
    decreases s.len(),
{
    if i == s.len() - 1 {
        assert(s.drop_last() =~= s.subrange(0, i));
        assert(s.subrange(i + 1, s.len() as int) =~= Seq::empty());
    } else {
        let t = s.drop_last();
        lemma_split_last_at(t, c, i);
        assert(t.subrange(0, i) =~= s.subrange(0, i));
        assert(t.subrange(i + 1, t.len() as int).push(s.last()) =~= s.subrange(
            i + 1,
            s.len() as int,
        ));
    }
}

proof fn lemma_split_last_none(s: Seq<char>, c: char)
    requires
        forall|j: int| 0 <= j < s.len() ==> s[j] != c,
    ensures
        split_last(s, c) is None,
    decreases s.len(),
{
    if s.len() > 0 {
        lemma_split_last_none(s.drop_last(), c);
    }
}

/// Splits `s` at its last `c`.
pub fn rsplit_once(s: &str, c: char) -> (r: Option<(String, String)>)
    ensures
        match r {
            Some((a, b)) => split_last(s@, c) == Some((a@, b@)),
            None => split_last(s@, c) is None,
        },
{
    let v = chars_of(s);
    let mut i: usize = v.len();
    while i > 0
        invariant
            i <= v.len(),
            v@ == s@,
            forall|j: int| i <= j < v.len() ==> v@[j] != c,
        decreases i,
    {
        if v[i - 1] == c {
            proof {
                lemma_split_last_at(s@, c, i - 1);
            }
            return Some((text_of(&v, 0, i - 1), text_of(&v, i, v.len())));
        }
        i = i - 1;
    }
    proof {
        lemma_split_last_none(s@, c);
    }
    None
}

/// Whether `c` may occur in a strain name: a letter, a digit or `_`.
pub open spec fn is_token_char(c: char) -> bool {
    'a' <= c <= 'z' || 'A' <= c <= 'Z' || '0' <= c <= '9' || c == '_'
}

/// Whether `s` is a non-empty text of letters, digits and `_`.
pub open spec fn is_token(s: Seq<char>) -> bool {
    s.len() > 0 && forall|i: int| 0 <= i < s.len() ==> is_token_char(#[trigger] s[i])
}

/// The source subvolume, strain and ID in the name of a snapshot subvolume.
///
/// Strain names hold no dash, so the last dash before the ID's separator is
/// the boundary between subvolume and strain.
pub open spec fn parse_name(s: Seq<char>) -> Option<(Seq<char>, Seq<char>, Seq<char>)> {
    match trailing_id(s) {
        Some((p, id)) => match split_last(p, '-') {
            Some((subvol, strain)) => if subvol.len() > 0 && is_token(strain) {
                Some((subvol, strain, id))
            } else {
                None
            },
            None => None,
        },
        None => None,
    }
}

/// Whether `s` is a non-empty text of letters, digits and `_`.
pub fn is_token_text(s: &str) -> (r: bool)
    ensures
        r == is_token(s@),
{
    let v = chars_of(s);
    if v.len() == 0 {
        return false;
    }
    let mut i: usize = 0;
    while i < v.len()
        invariant
            i <= v.len(),
            v@ == s@,
            forall|j: int| 0 <= j < i ==> is_token_char(#[trigger] v@[j]),
        decreases v.len() - i,
    {
        let c: char = v[i];
        let ok: bool = ('a' <= c && c <= 'z') || ('A' <= c && c <= 'Z') || ('0' <= c && c <= '9')
            || c == '_';
        if !ok {
            assert(!is_token_char(s@[i as int]));
            return false;
        }
        i = i + 1;
    }
    true
}

/// Parse a snapshot subvolume name back into its `(subvol, strain, id)`
/// components: the inverse of [`SnapshotId::snapshot_name`]. Returns `None`
/// for anything that isn't shaped like a snapshot subvolume name.
#[must_use]
pub fn parse_snapshot_subvol_name(name: &str) -> (r: Option<(String, String, SnapshotId)>)
    ensures
        match r {
            Some((subvol, strain, id)) => parse_name(name@) == Some((subvol@, strain@, id@)),
            None => parse_name(name@) is None,
        },
{
    match SnapshotId::split_trailing(name) {
        Some((p, id)) => match rsplit_once(p, '-') {
            Some((subvol, strain)) => {
                if subvol.as_str().is_empty() || !is_token_text(strain.as_str()) {
                    None
                } else {
                    Some((subvol, strain, id))
                }
            },
            None => None,
        },
        None => None,
    }
}

/// The character that an ASCII byte of a text's UTF-8 form stands for.
proof fn lemma_ascii_at(s: Seq<char>, i: int) -> (c: int)
    requires
        0 <= i < encode_utf8(s).len(),
        encode_utf8(s)[i] < 0x80,
    ensures
        0 <= c < s.len(),
        s[c] as u32 == encode_utf8(s)[i] as u32,
        encode_utf8(s.take(c)).len() == i,
    decreases s.len(),
{
    let x = s[0] as u32;
    let head = vstd::utf8::encode_scalar(x);
    let rest = encode_utf8(s.drop_first());
    assert(encode_utf8(s) == head + rest);
    vstd::utf8::char_is_scalar(s[0]);
    assert(x <= 0x7f ==> (x & 0x7f) as u8 == x) by (bit_vector);
    assert((0xC0u8 | ((x >> 6) & 0x1F) as u8) >= 0x80) by (bit_vector);
    assert((0xE0u8 | ((x >> 12) & 0x0F) as u8) >= 0x80) by (bit_vector);
    assert((0xF0u8 | ((x >> 18) & 0x7) as u8) >= 0x80) by (bit_vector);
    assert((0x80u8 | (x & 0x3F) as u8) >= 0x80) by (bit_vector);
    assert((0x80u8 | ((x >> 6) & 0x3F) as u8) >= 0x80) by (bit_vector);
    assert((0x80u8 | ((x >> 12) & 0x3F) as u8) >= 0x80) by (bit_vector);
    if i < head.len() {
        assert(head[i] == encode_utf8(s)[i]);
        assert(head.len() == 1);
        assert(s.take(0) =~= Seq::empty());
        0
    } else {
        let c = lemma_ascii_at(s.drop_first(), i - head.len());
        let t = s.take(c + 1);
        assert(t.drop_first() =~= s.drop_first().take(c));
        c + 1
    }
}

/// A character with the code of an ASCII byte is that byte's character.
proof fn lemma_char_of(c: char, b: u8)
    requires
        c as u32 == b as u32,
    ensures
        b == 0x2d ==> c == '-',
        b == 0x40 ==> c == '@',
        b == 0x2f ==> c == '/',
        is_digit_byte(b) ==> is_digit(c),
{
    vstd::utf8::char_u32_cast(c, b as u32);
    vstd::utf8::char_u32_cast('-', 0x2d);
    vstd::utf8::char_u32_cast('@', 0x40);
    vstd::utf8::char_u32_cast('/', 0x2f);
}

/// Later characters stand later in the UTF-8 form.
proof fn lemma_ascii_order(s: Seq<char>, i: int, j: int, c: int, d: int)
    requires
        0 <= c < s.len(),
        0 <= d < s.len(),
        encode_utf8(s.take(c)).len() == i,
        encode_utf8(s.take(d)).len() == j,
        i < j,
    ensures
        c < d,
{
    if d <= c {
        assert(s.take(c) =~= s.take(d) + s.subrange(d, c));
        lemma_encode_concat(s.take(d), s.subrange(d, c));
    }
}

/// An `@` or a slash of a text stands for itself in the UTF-8 form.
proof fn lemma_mark_byte(s: Seq<char>, c: int)
    requires
        0 <= c < s.len(),
        s[c] == '@' || s[c] == '/',
    ensures
        encode_utf8(s.take(c)).len() < encode_utf8(s).len(),
        encode_utf8(s)[encode_utf8(s.take(c)).len() as int] == if s[c] == '@' {
            0x40u8
        } else {
            0x2f
        },
{
    let one = seq![s[c]];
    assert(one =~= seq!['@'] || one =~= seq!['/']);
    vstd::utf8::is_ascii_chars_encode_utf8(one);
    assert(s =~= s.take(c) + one + s.skip(c + 1));
    lemma_encode_concat(s.take(c) + one, s.skip(c + 1));
    lemma_encode_concat(s.take(c), one);
}

/// A snapshot ID ends in a digit.
pub proof fn lemma_id_last(s: Seq<char>)
    requires
        id_ok(s),
    ensures
        s.len() > 0,
        is_digit(s.last()),
{
    let b = encode_utf8(s);
    vstd::utf8::encode_utf8_decode_utf8(s);
    if b.len() == ID_LEN_CURRENT {
        let c = lemma_ascii_at(s, 18);
        assert(s =~= s.take(c) + s.skip(c));
        lemma_encode_concat(s.take(c), s.skip(c));
        lemma_encode_len(s.skip(c));
        assert(c == s.len() - 1);
        lemma_char_of(s[c], b[18]);
    } else if is_digit_stamp(s) {
        assert(is_digit(s[14]));
    } else {
        reveal(is_stamp_like);
    }
}

/// A snapshot ID holds no `@` and no slash.
pub proof fn lemma_id_plain(s: Seq<char>)
    requires
        id_ok(s),
    ensures
        forall|i: int| 0 <= i < s.len() ==> #[trigger] s[i] != '@' && s[i] != '/',
{
    let b = encode_utf8(s);
    vstd::utf8::encode_utf8_decode_utf8(s);
    reveal(is_stamp_like);
    assert forall|i: int| 0 <= i < s.len() implies #[trigger] s[i] != '@' && s[i] != '/' by {
        if (s[i] == '@' || s[i] == '/') && b.len() == ID_LEN_CURRENT {
            lemma_mark_byte(s, i);
            let k = encode_utf8(s.take(i)).len() as int;
            assert(k < 15);
            vstd::utf8::encode_utf8_valid_utf8(s);
            lemma_dash_boundary(b, 15);
            let head = b.subrange(0, 15);
            vstd::utf8::valid_utf8_split(b, 15);
            vstd::utf8::decode_utf8_encode_utf8(head);
            let stamp = decode_utf8(head);
            assert(encode_utf8(stamp)[k] == b[k]);
            let c = lemma_ascii_at(stamp, k);
            lemma_char_of(stamp[c], b[k]);
            assert(false);
        }
    }
}

/// A text has at most one trailing ID: what precedes the dash and the ID are
/// found exactly where the text is made of them.
pub proof fn law_trailing_id(s: Seq<char>, p: Seq<char>, id: Seq<char>)
    ensures
        trailing_id(s) == Some((p, id)) <==> s == p + seq!['-'] + id && p.len() > 0 && id_ok(id),
{
    if trailing_id(s) == Some((p, id)) {
        let w = if has_trailing(s, ID_LEN_CURRENT as int) {
            ID_LEN_CURRENT as int
        } else {
            ID_LEN_LEGACY as int
        };
        assert(trailing_split(s, p, id, w));
    }
    if s == p + seq!['-'] + id && p.len() > 0 && id_ok(id) {
        lemma_trailing(p, id);
    }
}

/// Splitting a text that ends in a dash and an ID gives back both parts.
pub proof fn lemma_trailing(p: Seq<char>, id: Seq<char>)
    requires
        p.len() > 0,
        id_ok(id),
    ensures
        trailing_id(p + seq!['-'] + id) == Some((p, id)),
{
    let s = p + seq!['-'] + id;
    if encode_utf8(id).len() == ID_LEN_CURRENT {
        assert(trailing_split(s, p, id, ID_LEN_CURRENT as int));
        lemma_trailing_unique(s, p, id, ID_LEN_CURRENT as int);
    } else {
        assert(trailing_split(s, p, id, ID_LEN_LEGACY as int));
        lemma_trailing_unique(s, p, id, ID_LEN_LEGACY as int);
        if has_trailing(s, ID_LEN_CURRENT as int) {
            let (a, t) = choose|a: Seq<char>, t: Seq<char>| #[trigger]
                trailing_split(s, a, t, ID_LEN_CURRENT as int);
            lemma_split_bytes(s, a, t, ID_LEN_CURRENT as int);
            lemma_split_bytes(s, p, id, ID_LEN_LEGACY as int);
            let b = encode_utf8(id);
            assert(encode_utf8(t)[8] == b[4]);
            assert(encode_utf8(t)[15] == b[11]);
            let x = lemma_ascii_at(id, 4);
            let y = lemma_ascii_at(id, 8);
            let z = lemma_ascii_at(id, 11);
            lemma_ascii_order(id, 4, 8, x, y);
            lemma_ascii_order(id, 8, 11, y, z);
            vstd::utf8::encode_utf8_decode_utf8(id);
            lemma_char_of(id[x], 0x2d);
            lemma_char_of(id[y], 0x2d);
            lemma_char_of(id[z], 0x2d);
            reveal(is_stamp_like);
            assert(id[x] == '-' && id[y] == '-' && id[z] == '-');
            assert(false);
        }
    }
}

/// A text with a trailing ID is at least three characters long.
pub proof fn lemma_trailing_len(s: Seq<char>)
    requires
        trailing_id(s) is Some,
    ensures
        s.len() >= 3,
{
    let (p, t) = trailing_id(s)->0;
    let w = if has_trailing(s, ID_LEN_CURRENT as int) {
        ID_LEN_CURRENT as int
    } else {
        ID_LEN_LEGACY as int
    };
    assert(trailing_split(s, p, t, w));
    assert(t.len() > 0);
}

/// A trailing ID is not empty.
pub proof fn lemma_trailing_id_nonempty(s: Seq<char>)
    requires
        trailing_id(s) is Some,
    ensures
        trailing_id(s)->Some_0.0.len() > 0,
        trailing_id(s)->Some_0.1.len() > 0,
{
    let (p, t) = trailing_id(s)->0;
    let w = if has_trailing(s, ID_LEN_CURRENT as int) {
        ID_LEN_CURRENT as int
    } else {
        ID_LEN_LEGACY as int
    };
    assert(trailing_split(s, p, t, w));
}

/// Parsing undoes naming: the name of a snapshot subvolume gives back its
/// source subvolume, strain and ID, and no other text gives them.
pub proof fn law_parse_undoes_naming(
    name: Seq<char>,
    subvol: Seq<char>,
    strain: Seq<char>,
    id: Seq<char>,
)
    ensures
        parse_name(name) == Some((subvol, strain, id)) <==> subvol.len() > 0 && is_token(strain)
            && id_ok(id) && name == name_text(subvol, strain, id),
{
    reveal_strlit("-");
    assert("-"@ =~= seq!['-']);
    let p = subvol + "-"@ + strain;
    if parse_name(name) == Some((subvol, strain, id)) {
        let q = trailing_id(name)->Some_0.0;
        law_trailing_id(name, q, id);
        lemma_split_last_joins(q, '-');
        assert(q == subvol + seq!['-'] + strain);
    }
    if subvol.len() > 0 && is_token(strain) && id_ok(id) && name == name_text(subvol, strain, id) {
        lemma_trailing(p, id);
        let k = subvol.len() as int;
        assert(p[k] == '-');
        assert forall|j: int| k < j < p.len() implies p[j] != '-' by {
            assert(p[j] == strain[j - k - 1]);
            assert(is_token_char(strain[j - k - 1]));
        }
        lemma_split_last_at(p, '-', k);
        assert(p.subrange(0, k) =~= subvol);
        assert(p.subrange(k + 1, p.len() as int) =~= strain);
    }
}

pub proof fn lemma_split_last_joins(s: Seq<char>, c: char)
    requires
        split_last(s, c) is Some,
    ensures
        s == split_last(s, c)->Some_0.0 + seq![c] + split_last(s, c)->Some_0.1,
    decreases s.len(),
{
    let (a, b) = split_last(s, c)->0;
    if s.last() == c {
        assert(s =~= a + seq![c] + b);
    } else {
        lemma_split_last_joins(s.drop_last(), c);
        let (x, y) = split_last(s.drop_last(), c)->0;
        assert(b == y.push(s.last()));
        assert(s =~= s.drop_last().push(s.last()));
        assert((x + seq![c] + y).push(s.last()) =~= x + seq![c] + y.push(s.last()));
    }
}

/// Whether `s` is a snapshot ID, legacy or current, made of digits and its
/// separators, with seconds up to 59.
pub open spec fn is_digit_id(s: Seq<char>) -> bool {
    &&& id_ok(s)
    &&& is_digit_stamp(s) || (s.len() == ID_LEN_CURRENT && is_digit_stamp(s.take(15)) && s[15]
        == '-' && is_digit(s[16]) && is_digit(s[17]) && is_digit(s[18]))
    &&& pair_value(s, 13) <= 59
}

/// The milliseconds of an ID made of digits.
spec fn digit_millis(s: Seq<char>) -> int {
    if s.len() == ID_LEN_CURRENT {
        digit_value(s[16]) * 100 + digit_value(s[17]) * 10 + digit_value(s[18])
    } else {
        0
    }
}

proof fn lemma_digit_id(s: Seq<char>)
    requires
        is_digit_id(s),
    ensures
        is_digit_stamp(s.take(15)),
        digit_stamp_secs(s.take(15)) is Some,
        id_moment(s) is Some,
        id_moment(s)->0.secs == digit_stamp_secs(s.take(15))->0,
        id_moment(s)->0.nanos == digit_millis(s) * 1_000_000,
        0 <= digit_millis(s) <= 999,
{
    let b = encode_utf8(s);
    assert(vstd::utf8::is_ascii_chars(s)) by {
        assert forall|i: int| 0 <= i < s.len() implies '\0' <= #[trigger] s[i] <= '\u{7f}' by {
            if i < 15 {
                assert(s[i] == s.take(15)[i]);
            }
        }
    }
    vstd::utf8::is_ascii_chars_encode_utf8(s);
    let t = s.take(15);
    assert(vstd::utf8::is_ascii_chars(t));
    vstd::utf8::is_ascii_chars_encode_utf8(t);
    vstd::utf8::encode_utf8_decode_utf8(t);
    vstd::utf8::encode_utf8_decode_utf8(s);
    if s.len() == ID_LEN_CURRENT {
        assert(b.subrange(0, 15) =~= encode_utf8(t));
        assert(b[16] == s[16] as u8 && b[17] == s[17] as u8 && b[18] == s[18] as u8);
    } else {
        assert(t =~= s);
    }
    let y = pair_value(t, 0) * 100 + pair_value(t, 2);
    assert(is_digit(t[0]) && is_digit(t[1]) && is_digit(t[2]) && is_digit(t[3]));
    assert(is_digit(t[9]) && is_digit(t[10]) && is_digit(t[11]) && is_digit(t[12]));
    assert(is_digit(t[13]) && is_digit(t[14]));
    assert(0 <= y <= 9_999);
    crate::clock::lemma_day_bounds(y, pair_value(t, 4), pair_value(t, 6));
}

/// Where two ordered texts first differ.
proof fn lemma_first_difference(a: Seq<char>, b: Seq<char>) -> (k: int)
    requires
        text_less(a, b),
    ensures
        0 <= k <= a.len(),
        k < b.len(),
        forall|i: int| 0 <= i < k ==> a[i] == b[i],
        k < a.len() ==> (a[k] as u32) < (b[k] as u32),
    decreases a.len(),
{
    if a.len() == 0 || a[0] != b[0] {
        0
    } else {
        let k = lemma_first_difference(a.skip(1), b.skip(1));
        assert forall|i: int| 0 <= i < k + 1 implies a[i] == b[i] by {
            if i > 0 {
                assert(a.skip(1)[i - 1] == b.skip(1)[i - 1]);
            }
        }
        k + 1
    }
}

/// The order of IDs made of digits is the order of their instants, legacy and
/// current forms mixed.
pub proof fn law_id_order(a: Seq<char>, b: Seq<char>)
    requires
        is_digit_id(a),
        is_digit_id(b),
        a == b || text_less(a, b),
    ensures
        id_moment(a) is Some,
        id_moment(b) is Some,
        !id_moment(b)->0.earlier(id_moment(a)->0),
{
    lemma_digit_id(a);
    lemma_digit_id(b);
    if a != b {
        let k = lemma_first_difference(a, b);
        let (x, y) = (a.take(15), b.take(15));
        if k < 15 {
            assert forall|i: int| 0 <= i < k implies x[i] == y[i] by {
                assert(a[i] == b[i]);
            }
            assert(pair_value(x, 13) == pair_value(a, 13));
            assert(pair_value(y, 13) == pair_value(b, 13));
            lemma_stamp_order(x, y, k);
        } else {
            assert(x =~= y) by {
                assert forall|i: int| 0 <= i < 15 implies x[i] == y[i] by {
                    assert(a[i] == b[i]);
                }
            }
        }
    }
}

/// A legacy ID sorts before every current ID of the same second.
pub proof fn law_legacy_before_current(stamp: Seq<char>, millis: Seq<char>)
    requires
        millis.len() > 0,
    ensures
        text_less(stamp, stamp + seq!['-'] + millis),
    decreases stamp.len(),
{
    let s = stamp + seq!['-'] + millis;
    if stamp.len() > 0 {
        law_legacy_before_current(stamp.skip(1), millis);
        assert(s.skip(1) =~= stamp.skip(1) + seq!['-'] + millis);
    }
}

} // verus!
