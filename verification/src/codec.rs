//! The filename codec: a stored image is named `<label>@<timestamp>.<extension>`.
//! `encode` composes such a name; `decode` takes any stored path back to its
//! display fields (label, rendered time, raw sort key).

use vstd::prelude::*;
use vstd::arithmetic::div_mod::lemma_fundamental_div_mod;
use vstd::string::StrSliceExecFns;
use vstd::string::StringExecFns;

use crate::errors::BoothError;
use crate::strutil::after_first;
use crate::strutil::before_first;
use crate::strutil::contains_char;
use crate::strutil::find_first;
use crate::strutil::find_last;
use crate::strutil::is_first_at;
use crate::strutil::last_segment;
use crate::strutil::lemma_first_at_is;
use crate::strutil::replace_char;
use crate::strutil::underscores_to_spaces;

verus! {

/// Largest epoch-seconds value whose UTC calendar year still has four digits
/// (end of year 9999), the last timestamp the time rendering accepts.
pub const MAX_RENDER_TS: i64 = 253402300799;

/// `c` is a decimal digit.
pub open spec fn is_digit(c: char) -> bool {
    48 <= c as int && c as int <= 57
}

/// Numeric value of a digit character.
pub open spec fn digit_val(c: char) -> int {
    c as int - 48
}

/// The digit character for a value in `0 ..= 9`.
pub open spec fn digit_char(d: int) -> char {
    if d == 0 {
        '0'
    } else if d == 1 {
        '1'
    } else if d == 2 {
        '2'
    } else if d == 3 {
        '3'
    } else if d == 4 {
        '4'
    } else if d == 5 {
        '5'
    } else if d == 6 {
        '6'
    } else if d == 7 {
        '7'
    } else if d == 8 {
        '8'
    } else {
        '9'
    }
}

/// Every character of `s` is a decimal digit.
pub open spec fn all_digits(s: Seq<char>) -> bool {
    forall|i: int| 0 <= i < s.len() ==> is_digit(s[i])
}

/// The number denoted by a digit string, most significant digit first.
pub open spec fn digits_val(s: Seq<char>) -> int
    decreases s.len(),
{
    if s.len() == 0 {
        0
    } else {
        digits_val(s.drop_last()) * 10 + digit_val(s.last())
    }
}

/// The decimal rendering of a non-negative number, without sign or leading zeros.
pub open spec fn dec_digits(n: int) -> Seq<char>
    recommends
        n >= 0,
    decreases n,
{
    if n < 10 {
        seq![digit_char(n)]
    } else {
        dec_digits(n / 10).push(digit_char(n % 10))
    }
}

/// A digit string denotes a non-negative number.
pub proof fn lemma_digits_val_nonneg(s: Seq<char>)
    requires
        all_digits(s),
    ensures
        digits_val(s) >= 0,
    decreases s.len(),
{
    if s.len() > 0 {
        assert(all_digits(s.drop_last()));
        lemma_digits_val_nonneg(s.drop_last());
    }
}

/// A prefix of a digit string denotes no more than the whole string.
pub proof fn lemma_digits_val_prefix_le(s: Seq<char>, i: int)
    requires
        all_digits(s),
        0 <= i <= s.len(),
    ensures
        digits_val(s.take(i)) <= digits_val(s),
    decreases s.len() - i,
{
    if i == s.len() {
        assert(s.take(i) =~= s);
    } else {
        assert(s.take(i + 1).drop_last() =~= s.take(i));
        assert(s.take(i + 1).last() == s[i]);
        assert(all_digits(s.take(i)));
        lemma_digits_val_nonneg(s.take(i));
        assert(digits_val(s.take(i + 1)) == digits_val(s.take(i)) * 10 + digit_val(s[i]));
        lemma_digits_val_prefix_le(s, i + 1);
    }
}

/// Rendering a number and reading the digits back gives the number again;
/// the rendering is non-empty and consists of digits.
pub proof fn lemma_dec_digits_val(n: int)
    requires
        n >= 0,
    ensures
        digits_val(dec_digits(n)) == n,
        all_digits(dec_digits(n)),
        dec_digits(n).len() >= 1,
    decreases n,
{
    if n < 10 {
        let s = seq![digit_char(n)];
        assert(dec_digits(n) =~= s);
        assert(s.drop_last() =~= Seq::<char>::empty());
        assert(digits_val(Seq::<char>::empty()) == 0);
        assert(digits_val(s) == digits_val(s.drop_last()) * 10 + digit_val(s.last()));
    } else {
        lemma_dec_digits_val(n / 10);
        lemma_fundamental_div_mod(n, 10);
        let p = dec_digits(n / 10).push(digit_char(n % 10));
        assert(dec_digits(n) == p);
        assert(p.drop_last() =~= dec_digits(n / 10));
        assert(p.last() == digit_char(n % 10));
        assert(digits_val(p) == digits_val(p.drop_last()) * 10 + digit_val(p.last()));
    }
}

/// A timestamp string is non-empty, all digits, and in the renderable range.
pub open spec fn valid_ts_str(s: Seq<char>) -> bool {
    &&& s.len() > 0
    &&& all_digits(s)
    &&& digits_val(s) <= MAX_RENDER_TS as int
}

/// Parse a stored timestamp: digits only, within the renderable range.
pub fn parse_ts(s: &str) -> (r: Option<i64>)
    ensures
        match r {
            Some(v) => valid_ts_str(s@) && v as int == digits_val(s@) && 0 <= v <= MAX_RENDER_TS,
            None => !valid_ts_str(s@),
        },
{
    let n = s.unicode_len();
    if n == 0 {
        return None;
    }
    let mut acc: i64 = 0;
    let mut i: usize = 0;
    while i < n
        invariant
            n == s@.len(),
            i <= n,
            all_digits(s@.take(i as int)),
            0 <= acc <= MAX_RENDER_TS,
            acc as int == digits_val(s@.take(i as int)),
        decreases n - i,
    {
        let c = s.get_char(i);
        let u = c as u32;
        if u < 48 || u > 57 {
            proof {
                assert(!is_digit(s@[i as int]));
            }
            return None;
        }
        let d = (u - 48) as i64;
        let acc2 = acc * 10 + d;
        proof {
            assert(s@.take(i + 1 as int).drop_last() =~= s@.take(i as int));
            assert(s@.take(i + 1 as int).last() == s@[i as int]);
            assert(digits_val(s@.take(i + 1 as int)) == digits_val(s@.take(i as int)) * 10
                + digit_val(s@[i as int]));
            assert(all_digits(s@.take(i + 1 as int)));
        }
        if acc2 > MAX_RENDER_TS {
            proof {
                if all_digits(s@) {
                    lemma_digits_val_prefix_le(s@, i + 1 as int);
                }
            }
            return None;
        }
        acc = acc2;
        i += 1;
    }
    proof {
        assert(s@.take(n as int) =~= s@);
    }
    Some(acc)
}

/// One digit as a string slice.
fn digit_str(d: i64) -> (r: &'static str)
    requires
        0 <= d <= 9,
    ensures
        r@ =~= seq![digit_char(d as int)],
{
    if d == 0 {
        proof {
            reveal_strlit("0");
        }
        "0"
    } else if d == 1 {
        proof {
            reveal_strlit("1");
        }
        "1"
    } else if d == 2 {
        proof {
            reveal_strlit("2");
        }
        "2"
    } else if d == 3 {
        proof {
            reveal_strlit("3");
        }
        "3"
    } else if d == 4 {
        proof {
            reveal_strlit("4");
        }
        "4"
    } else if d == 5 {
        proof {
            reveal_strlit("5");
        }
        "5"
    } else if d == 6 {
        proof {
            reveal_strlit("6");
        }
        "6"
    } else if d == 7 {
        proof {
            reveal_strlit("7");
        }
        "7"
    } else if d == 8 {
        proof {
            reveal_strlit("8");
        }
        "8"
    } else {
        proof {
            reveal_strlit("9");
        }
        "9"
    }
}

/// The decimal rendering of a non-negative timestamp.
pub fn ts_string(n: i64) -> (r: String)
    requires
        n >= 0,
    ensures
        r@ == dec_digits(n as int),
{
    let mut m: i64 = n;
    let mut r = String::new();
    loop
        invariant
            n >= 0,
            0 <= m,
            (r@.len() == 0 && m == n) || (m > 0 && dec_digits(n as int) == dec_digits(m as int)
                + r@),
        decreases m + if r@.len() == 0 { 1int } else { 0int },
    {
        let d = m % 10;
        let m2 = m / 10;
        proof {
            lemma_fundamental_div_mod(m as int, 10);
        }
        let mut piece = digit_str(d).to_owned();
        piece.append(r.as_str());
        proof {
            if m >= 10 {
                assert(dec_digits(m as int) == dec_digits(m as int / 10).push(digit_char(
                    m as int % 10,
                )));
                assert(dec_digits(m as int) + (if r@.len() == 0 && m == n {
                    Seq::<char>::empty()
                } else {
                    r@
                }) =~= dec_digits(m2 as int) + piece@);
            }
        }
        let old_r_len: Ghost<nat> = Ghost(r@.len());
        r = piece;
        if m2 == 0 {
            proof {
                assert(m < 10);
                assert(dec_digits(m as int) =~= seq![digit_char(m as int)]);
                if old_r_len@ == 0 {
                    assert(r@ =~= dec_digits(n as int));
                } else {
                    assert(r@ =~= dec_digits(n as int));
                }
            }
            return r;
        }
        m = m2;
    }
}

/// The stored name composed from a label, a timestamp and an extension.
pub open spec fn encoded(label: Seq<char>, ts: int, ext: Seq<char>) -> Seq<char> {
    label + seq!['@'] + dec_digits(ts) + seq!['.'] + ext
}

/// The raw label of a stored path: the final path segment up to the first `@`.
pub open spec fn name_label(s: Seq<char>) -> Seq<char> {
    before_first(last_segment(s), '@')
}

/// The timestamp digits of a stored path: between the first `@` of the final
/// segment and the first `.` after it.
pub open spec fn name_ts_str(s: Seq<char>) -> Seq<char> {
    before_first(after_first(last_segment(s), '@'), '.')
}

/// The timestamp a stored path carries.
pub open spec fn name_ts(s: Seq<char>) -> int {
    digits_val(name_ts_str(s))
}

/// A stored path decodes: its final segment has an `@`, a `.` after the `@`,
/// and digits between them that fit the renderable range.
pub open spec fn valid_name(s: Seq<char>) -> bool {
    &&& contains_char(last_segment(s), '@')
    &&& contains_char(after_first(last_segment(s), '@'), '.')
    &&& valid_ts_str(name_ts_str(s))
}

/// The RFC 2822 rendering of an epoch-seconds timestamp in UTC.
pub uninterp spec fn rfc2822_of(secs: int) -> Seq<char>;

/// The displayed time: the RFC 2822 rendering with the trailing seconds and
/// timezone (`:SS +0000`, nine characters) dropped.
pub open spec fn display_time_of(ts: int) -> Seq<char> {
    if rfc2822_of(ts).len() >= 9 {
        rfc2822_of(ts).take(rfc2822_of(ts).len() - 9)
    } else {
        rfc2822_of(ts)
    }
}

/// Relies on chrono::DateTime::<Utc>::from_timestamp, which returns a value for
/// every second of the years 1970 through 9999, and chrono::DateTime::to_rfc2822,
/// whose rendering is a function of the epoch seconds alone, in the shape
/// `Www, D Mon YYYY HH:MM:SS +0000` — so it always ends in the nine characters
/// `:SS +0000`.
#[verifier::external_body]
fn format_rfc2822_utc(secs: i64) -> (r: String)
    requires
        0 <= secs <= MAX_RENDER_TS,
    ensures
        r@ == rfc2822_of(secs as int),
        r@.len() >= 9,
{
    match chrono::DateTime::<chrono::Utc>::from_timestamp(secs, 0) {
        Some(dt) => dt.to_rfc2822(),
        None => String::new(),
    }
}

/// One decoded stored image, as the gallery displays it.
#[derive(Debug, PartialEq)]
pub struct DisplayImage {
    /// The storage path, exactly as handed to `decode`.
    pub path: String,
    /// The label with underscores read back as spaces.
    pub name: String,
    /// The rendered upload time, seconds and timezone dropped.
    pub time: String,
    /// The raw timestamp, the ordering key of the gallery.
    pub sort_key: i64,
}

/// The mathematical content of a `DisplayImage`.
pub ghost struct ImageView {
    pub path: Seq<char>,
    pub name: Seq<char>,
    pub time: Seq<char>,
    pub sort_key: int,
}

impl View for DisplayImage {
    type V = ImageView;

    open spec fn view(&self) -> ImageView {
        ImageView {
            path: self.path@,
            name: self.name@,
            time: self.time@,
            sort_key: self.sort_key as int,
        }
    }
}

/// What a valid stored path decodes to.
pub open spec fn image_view_of(path: Seq<char>) -> ImageView {
    ImageView {
        path: path,
        name: replace_char(name_label(path), '_', ' '),
        time: display_time_of(name_ts(path)),
        sort_key: name_ts(path),
    }
}

/// Compose the stored filename `{label}@{timestamp}.{extension}`. The label is
/// taken as already sanitized: the caller keeps `@`, `.` and `/` out of it.
pub fn encode(label: &str, timestamp: i64, extension: &str) -> (r: String)
    requires
        0 <= timestamp,
    ensures
        r@ == encoded(label@, timestamp as int, extension@),
{
    proof {
        reveal_strlit("@");
        reveal_strlit(".");
        assert("@"@ =~= seq!['@']);
        assert("."@ =~= seq!['.']);
    }
    let mut r = label.to_owned();
    r.append("@");
    let t = ts_string(timestamp);
    r.append(t.as_str());
    r.append(".");
    r.append(extension);
    proof {
        assert(r@ =~= encoded(label@, timestamp as int, extension@));
    }
    r
}

/// Take a stored path back to its display fields. Fails with `MalformedName`
/// exactly when the path does not have the `<label>@<digits>.<extension>`
/// shape with a renderable timestamp.
pub fn decode(filename: &str) -> (r: Result<DisplayImage, BoothError>)
    ensures
        match r {
            Ok(img) => valid_name(filename@) && img@ == image_view_of(filename@),
            Err(e) => e == BoothError::MalformedName && !valid_name(filename@),
        },
{
    let n = filename.unicode_len();
    let name: &str = match find_last(filename, '/') {
        Some(j) => filename.substring_char(j + 1, n),
        None => filename,
    };
    proof {
        assert(name@ =~= last_segment(filename@));
    }
    let nn = name.unicode_len();
    let at = match find_first(name, '@') {
        Some(i) => i,
        None => {
            return Err(BoothError::MalformedName);
        },
    };
    let raw_label = name.substring_char(0, at);
    let rest = name.substring_char(at + 1, nn);
    proof {
        assert(raw_label@ =~= before_first(name@, '@'));
        assert(rest@ =~= after_first(name@, '@'));
    }
    let rn = rest.unicode_len();
    let dot = match find_first(rest, '.') {
        Some(i) => i,
        None => {
            return Err(BoothError::MalformedName);
        },
    };
    let tstr = rest.substring_char(0, dot);
    proof {
        assert(tstr@ =~= before_first(rest@, '.'));
        assert(tstr@ == name_ts_str(filename@));
    }
    let ts = match parse_ts(tstr) {
        Some(v) => v,
        None => {
            return Err(BoothError::MalformedName);
        },
    };
    let full = format_rfc2822_utc(ts);
    let full_str = full.as_str();
    let fl = full_str.unicode_len();
    let time = full_str.substring_char(0, fl - 9).to_owned();
    let disp_name = underscores_to_spaces(raw_label);
    let img = DisplayImage { path: filename.to_owned(), name: disp_name, time, sort_key: ts };
    proof {
        assert(time@ == display_time_of(name_ts(filename@)));
        assert(img@ == image_view_of(filename@));
    }
    Ok(img)
}

/// Law: decoding an encoded name gives back the timestamp, and the label with
/// its underscores read as spaces. It holds for every label free of `@`, `.`
/// and `/`, every extension free of `@`, `.` and `/`, and every timestamp in
/// the renderable range.
pub proof fn lemma_round_trip(label: Seq<char>, ts: int, ext: Seq<char>)
    requires
        0 <= ts <= MAX_RENDER_TS as int,
        forall|i: int|
            0 <= i < label.len() ==> label[i] != '@' && label[i] != '.' && label[i] != '/',
        forall|i: int| 0 <= i < ext.len() ==> ext[i] != '@' && ext[i] != '.' && ext[i] != '/',
    ensures
        valid_name(encoded(label, ts, ext)),
        image_view_of(encoded(label, ts, ext)).sort_key == ts,
        image_view_of(encoded(label, ts, ext)).name == replace_char(label, '_', ' '),
{
    let enc = encoded(label, ts, ext);
    lemma_dec_digits_val(ts);
    let d = dec_digits(ts);
    let ll = label.len() as int;
    let dl = d.len() as int;
    assert forall|i: int| 0 <= i < enc.len() implies enc[i] != '/' by {
        if i < ll {
            assert(enc[i] == label[i]);
        } else if i == ll {
            assert(enc[i] == '@');
        } else if i < ll + 1 + dl {
            assert(enc[i] == d[i - ll - 1]);
            assert(is_digit(d[i - ll - 1]));
        } else if i == ll + 1 + dl {
            assert(enc[i] == '.');
        } else {
            assert(enc[i] == ext[i - (ll + 1 + dl + 1)]);
        }
    }
    assert(!contains_char(enc, '/'));
    assert(last_segment(enc) == enc);
    assert(enc[ll] == '@');
    assert forall|j: int| 0 <= j < ll implies enc[j] != '@' by {
        assert(enc[j] == label[j]);
    }
    assert(is_first_at(enc, '@', ll));
    lemma_first_at_is(enc, '@', ll);
    assert(before_first(enc, '@') =~= label);
    let rest = after_first(enc, '@');
    assert(rest =~= d + seq!['.'] + ext);
    assert(rest[dl] == '.');
    assert forall|j: int| 0 <= j < dl implies rest[j] != '.' by {
        assert(rest[j] == d[j]);
        assert(is_digit(d[j]));
    }
    assert(is_first_at(rest, '.', dl));
    lemma_first_at_is(rest, '.', dl);
    assert(before_first(rest, '.') =~= d);
    assert(name_ts_str(enc) == d);
    assert(valid_ts_str(d));
    assert(name_ts(enc) == ts);
    assert(name_label(enc) == label);
}

} // verus!
