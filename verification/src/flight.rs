//! Flight records as the feed delivers them: one line of four fields,
//! `<uuid>;<longitude>;<latitude>;<landed>`.
//!
//! The two coordinates are decimal numbers and stay text in this library:
//! it decides whether they are well formed, the renderer turns them into
//! machine numbers.

use vstd::prelude::*;

verus! {

/// The character that ends a field.
pub open spec fn is_separator(c: char) -> bool {
    c == ';'
}

/// How many characters stand before the first separator of `s`; the length
/// of `s` where it holds none.
pub open spec fn first_separator(s: Seq<char>) -> nat
    decreases s.len(),
{
    if s.len() == 0 || is_separator(s[0]) {
        0
    } else {
        1 + first_separator(s.drop_first())
    }
}

/// The fields of a line: the text before its first separator, then the
/// fields of what follows that separator. A line without a separator is one
/// field, so a line with `n` separators has `n + 1` fields, empty ones
/// included.
pub open spec fn fields(s: Seq<char>) -> Seq<Seq<char>>
    decreases s.len(),
{
    let i = first_separator(s) as int;
    if i >= s.len() {
        seq![s]
    } else {
        seq![s.take(i)] + fields(s.skip(i + 1))
    }
}

/// `first_separator` is the one position that holds a separator, or the end
/// of the text, with no separator before it.
pub proof fn lemma_first_separator(s: Seq<char>, k: int)
    requires
        0 <= k <= s.len(),
        forall|j: int| 0 <= j < k ==> !is_separator(#[trigger] s[j]),
        k < s.len() ==> is_separator(s[k]),
    ensures
        first_separator(s) == k,
    decreases s.len(),
{
    if k > 0 {
        let rest = s.drop_first();
        assert forall|j: int| 0 <= j < k - 1 implies !is_separator(#[trigger] rest[j]) by {
            assert(rest[j] == s[j + 1]);
        }
        lemma_first_separator(rest, k - 1);
    }
}

/// The characters of `text`, in order.
fn chars_of(text: &str) -> (chars: Vec<char>)
    ensures
        chars@ == text@,
{
    let mut chars: Vec<char> = Vec::new();
    for c in it: text.chars()
        invariant
            it.seq() == text@,
            chars@ == text@.take(it.index() as int),
    {
        chars.push(c);
        assert(text@.take(it.index() + 1) =~= text@.take(it.index() as int).push(c));
    }
    assert(text@.take(text@.len() as int) =~= text@);
    chars
}

/// The position of the first separator at or after `from`, or the length of
/// `chars` where none follows.
fn find_separator(chars: &Vec<char>, from: usize) -> (at: usize)
    requires
        from <= chars@.len(),
    ensures
        from <= at <= chars@.len(),
        at == from + first_separator(chars@.skip(from as int)),
{
    let mut at: usize = from;
    while at < chars.len() && chars[at] != ';'
        invariant
            from <= at <= chars@.len(),
            forall|j: int| from <= j < at ==> !is_separator(#[trigger] chars@[j]),
        decreases chars@.len() - at,
    {
        at += 1;
    }
    proof {
        lemma_first_separator(chars@.skip(from as int), at - from);
    }
    at
}

/// A decimal digit.
pub open spec fn is_digit(c: char) -> bool {
    '0' <= c && c <= '9'
}

/// A sign, as it may stand before a number or before an exponent's digits.
pub open spec fn is_sign(c: char) -> bool {
    c == '+' || c == '-'
}

/// Where the run of digits that starts at `from` ends: the first position at
/// or after `from` that holds no digit.
pub open spec fn digits_end(s: Seq<char>, from: int) -> int
    decreases s.len() - from,
{
    if 0 <= from < s.len() && is_digit(s[from]) {
        digits_end(s, from + 1)
    } else {
        from
    }
}

/// From `from` to its end `s` is an exponent: `e` or `E`, an optional sign,
/// and one digit or more.
pub open spec fn is_exponent(s: Seq<char>, from: int) -> bool {
    let digits = if from + 1 < s.len() && is_sign(s[from + 1]) {
        from + 2
    } else {
        from + 1
    };
    &&& 0 <= from < s.len()
    &&& (s[from] == 'e' || s[from] == 'E')
    &&& digits < s.len()
    &&& digits_end(s, digits) == s.len()
}

/// From `from` to its end `s` is a decimal: digits, with or without a point
/// before, among or after them, at least one digit in all, and then an
/// exponent or nothing.
pub open spec fn is_decimal(s: Seq<char>, from: int) -> bool {
    let whole = digits_end(s, from);
    let point = whole < s.len() && s[whole] == '.';
    let end = if point {
        digits_end(s, whole + 1)
    } else {
        whole
    };
    let count = if point {
        end - from - 1
    } else {
        end - from
    };
    &&& count > 0
    &&& (end == s.len() || is_exponent(s, end))
}

/// From `from` to its end `s` is `word`, in small or capital letters:
/// `lower` and `upper` spell the word in the two cases.
pub open spec fn spells(s: Seq<char>, from: int, lower: Seq<char>, upper: Seq<char>) -> bool {
    &&& s.len() - from == lower.len()
    &&& forall|i: int|
        0 <= i < lower.len() ==> s[from + i] == #[trigger] lower[i] || s[from + i] == upper[i]
}

/// From `from` to its end `s` names infinity or not-a-number: `inf`,
/// `infinity` or `nan`, in letters of either case.
pub open spec fn is_special(s: Seq<char>, from: int) -> bool {
    ||| spells(s, from, seq!['i', 'n', 'f'], seq!['I', 'N', 'F'])
    ||| spells(s, from, seq!['n', 'a', 'n'], seq!['N', 'A', 'N'])
    ||| spells(
        s,
        from,
        seq!['i', 'n', 'f', 'i', 'n', 'i', 't', 'y'],
        seq!['I', 'N', 'F', 'I', 'N', 'I', 'T', 'Y'],
    )
}

/// The text of a coordinate is well formed: an optional sign, then a decimal
/// or one of the special names. Nothing may stand before or after, blanks
/// neither.
pub open spec fn is_number(s: Seq<char>) -> bool {
    let from: int = if s.len() > 0 && is_sign(s[0]) {
        1
    } else {
        0
    };
    is_decimal(s, from) || is_special(s, from)
}

/// What the text of the landed flag says: `true`, `false`, or nothing that
/// the feed may send.
pub open spec fn landed_flag(s: Seq<char>) -> Option<bool> {
    if s == seq!['t', 'r', 'u', 'e'] {
        Some(true)
    } else if s == seq!['f', 'a', 'l', 's', 'e'] {
        Some(false)
    } else {
        None
    }
}

/// The end of the run of digits that starts at `from`.
fn scan_digits(chars: &Vec<char>, from: usize) -> (end: usize)
    requires
        from <= chars@.len(),
    ensures
        from <= end <= chars@.len(),
        end == digits_end(chars@, from as int),
{
    let mut end: usize = from;
    while end < chars.len() && chars[end] >= '0' && chars[end] <= '9'
        invariant
            from <= end <= chars@.len(),
            digits_end(chars@, from as int) == digits_end(chars@, end as int),
        decreases chars@.len() - end,
    {
        end += 1;
    }
    end
}

/// Whether `chars` is an exponent from `from` on.
fn check_exponent(chars: &Vec<char>, from: usize) -> (ok: bool)
    requires
        from < chars@.len(),
    ensures
        ok == is_exponent(chars@, from as int),
{
    let len: usize = chars.len();
    if chars[from] != 'e' && chars[from] != 'E' {
        return false;
    }
    let mut digits: usize = from + 1;
    if digits < len && (chars[digits] == '+' || chars[digits] == '-') {
        digits += 1;
    }
    if digits >= len {
        return false;
    }
    scan_digits(chars, digits) == len
}

/// Whether `chars` is a decimal from `from` on.
fn check_decimal(chars: &Vec<char>, from: usize) -> (ok: bool)
    requires
        from <= chars@.len(),
    ensures
        ok == is_decimal(chars@, from as int),
{
    let whole: usize = scan_digits(chars, from);
    let mut end: usize = whole;
    let mut count: usize = whole - from;
    if whole < chars.len() && chars[whole] == '.' {
        end = scan_digits(chars, whole + 1);
        count = end - from - 1;
    }
    if count == 0 {
        return false;
    }
    end == chars.len() || check_exponent(chars, end)
}

/// Whether `chars` is `lower`, in letters of either case, from `from` on.
fn check_spells(chars: &Vec<char>, from: usize, lower: &Vec<char>, upper: &Vec<char>) -> (ok: bool)
    requires
        from <= chars@.len(),
        lower@.len() == upper@.len(),
    ensures
        ok == spells(chars@, from as int, lower@, upper@),
{
    let len: usize = chars.len();
    if len - from != lower.len() {
        return false;
    }
    let mut i: usize = 0;
    while i < lower.len()
        invariant
            0 <= i <= lower@.len(),
            lower@.len() == upper@.len(),
            len == chars@.len(),
            len - from == lower@.len(),
            forall|j: int|
                0 <= j < i ==> chars@[from + j] == #[trigger] lower@[j] || chars@[from + j]
                    == upper@[j],
        decreases lower@.len() - i,
    {
        if chars[from + i] != lower[i] && chars[from + i] != upper[i] {
            return false;
        }
        i += 1;
    }
    true
}

/// Whether `chars` is one of the special names from `from` on.
fn check_special(chars: &Vec<char>, from: usize) -> (ok: bool)
    requires
        from <= chars@.len(),
    ensures
        ok == is_special(chars@, from as int),
{
    let inf_lower: Vec<char> = vec!['i', 'n', 'f'];
    let inf_upper: Vec<char> = vec!['I', 'N', 'F'];
    let nan_lower: Vec<char> = vec!['n', 'a', 'n'];
    let nan_upper: Vec<char> = vec!['N', 'A', 'N'];
    let infinity_lower: Vec<char> = vec!['i', 'n', 'f', 'i', 'n', 'i', 't', 'y'];
    let infinity_upper: Vec<char> = vec!['I', 'N', 'F', 'I', 'N', 'I', 'T', 'Y'];
    assert(inf_lower@ =~= seq!['i', 'n', 'f']);
    assert(inf_upper@ =~= seq!['I', 'N', 'F']);
    assert(nan_lower@ =~= seq!['n', 'a', 'n']);
    assert(nan_upper@ =~= seq!['N', 'A', 'N']);
    assert(infinity_lower@ =~= seq!['i', 'n', 'f', 'i', 'n', 'i', 't', 'y']);
    assert(infinity_upper@ =~= seq!['I', 'N', 'F', 'I', 'N', 'I', 'T', 'Y']);
    check_spells(chars, from, &inf_lower, &inf_upper) || check_spells(
        chars,
        from,
        &nan_lower,
        &nan_upper,
    ) || check_spells(chars, from, &infinity_lower, &infinity_upper)
}

/// Whether `text` is a well-formed coordinate.
pub fn holds_number(text: &str) -> (ok: bool)
    ensures
        ok == is_number(text@),
{
    let chars = chars_of(text);
    let mut from: usize = 0;
    if chars.len() > 0 && (chars[0] == '+' || chars[0] == '-') {
        from = 1;
    }
    check_decimal(&chars, from) || check_special(&chars, from)
}

/// Reads the landed flag.
pub fn read_landed(text: &str) -> (flag: Option<bool>)
    ensures
        flag == landed_flag(text@),
{
    let chars = chars_of(text);
    if chars.len() == 4 && chars[0] == 't' && chars[1] == 'r' && chars[2] == 'u' && chars[3]
        == 'e' {
        assert(chars@ =~= seq!['t', 'r', 'u', 'e']);
        Some(true)
    } else if chars.len() == 5 && chars[0] == 'f' && chars[1] == 'a' && chars[2] == 'l'
        && chars[3] == 's' && chars[4] == 'e' {
        assert(chars@ =~= seq!['f', 'a', 'l', 's', 'e']);
        Some(false)
    } else {
        assert(seq!['t', 'r', 'u', 'e'].len() == 4);
        assert(seq!['f', 'a', 'l', 's', 'e'].len() == 5);
        None
    }
}

/// One flight as the feed reports it. The coordinates are kept as the text
/// that came. The feed promises them normalised, from zero up to one;
/// nothing here holds it to that, and any well-formed number is taken.
#[derive(Clone, Debug, PartialEq, Eq)]
pub struct FlightInfo {
    pub uuid: String,
    pub latitude: String,
    pub longitude: String,
    pub landed: bool,
}

/// What a `FlightInfo` holds, as plain text.
pub struct FlightRecord {
    pub uuid: Seq<char>,
    pub latitude: Seq<char>,
    pub longitude: Seq<char>,
    pub landed: bool,
}

impl View for FlightInfo {
    type V = FlightRecord;

    open spec fn view(&self) -> FlightRecord {
        FlightRecord {
            uuid: self.uuid@,
            latitude: self.latitude@,
            longitude: self.longitude@,
            landed: self.landed,
        }
    }
}

/// The field of a four-field line that is not what it must be. Fields are
/// examined in this order, and the first bad one is named.
#[derive(Clone, Copy, Debug, PartialEq, Eq, Structural)]
pub enum FieldError {
    /// The second field is no number.
    Longitude,
    /// The third field is no number.
    Latitude,
    /// The fourth field is neither `true` nor `false`.
    Landed,
}

/// What a line of the feed means. A line that does not have exactly four
/// fields is no record, and no error either. A line of four fields is a
/// record if its coordinates are numbers and its flag is a flag; the
/// identifier may be any text, the empty one too.
pub open spec fn decode(s: Seq<char>) -> Result<Option<FlightRecord>, FieldError> {
    let f = fields(s);
    if f.len() != 4 {
        Ok(None)
    } else if !is_number(f[1]) {
        Err(FieldError::Longitude)
    } else if !is_number(f[2]) {
        Err(FieldError::Latitude)
    } else {
        match landed_flag(f[3]) {
            None => Err(FieldError::Landed),
            Some(landed) => Ok(
                Some(FlightRecord { uuid: f[0], longitude: f[1], latitude: f[2], landed }),
            ),
        }
    }
}

/// The outcome of decoding, with the record taken by its view.
pub open spec fn decoded(r: Result<Option<FlightInfo>, FieldError>) -> Result<
    Option<FlightRecord>,
    FieldError,
> {
    match r {
        Ok(Some(flight)) => Ok(Some(flight@)),
        Ok(None) => Ok(None),
        Err(e) => Err(e),
    }
}

/// A line has at least one field.
pub proof fn lemma_fields_nonempty(s: Seq<char>)
    ensures
        fields(s).len() >= 1,
{
}

/// How many separators `s` holds.
pub open spec fn separators(s: Seq<char>) -> nat
    decreases s.len(),
{
    if s.len() == 0 {
        0
    } else if is_separator(s[0]) {
        1 + separators(s.drop_first())
    } else {
        separators(s.drop_first())
    }
}

/// A line has one field more than it has separators.
pub proof fn lemma_fields_count(s: Seq<char>)
    ensures
        fields(s).len() == separators(s) + 1,
    decreases s.len(),
{
    if s.len() > 0 {
        let rest = s.drop_first();
        lemma_fields_count(rest);
        if is_separator(s[0]) {
            assert(s.skip(1) =~= rest);
        } else {
            let i = first_separator(s) as int;
            if i < s.len() {
                assert(s.skip(i + 1) =~= rest.skip(i));
            }
        }
    }
}

/// No character of `s` is a separator.
pub open spec fn plain(s: Seq<char>) -> bool {
    forall|i: int| 0 <= i < s.len() ==> !is_separator(#[trigger] s[i])
}

/// The line that carries four fields.
pub open spec fn line(
    uuid: Seq<char>,
    longitude: Seq<char>,
    latitude: Seq<char>,
    landed: Seq<char>,
) -> Seq<char> {
    uuid + seq![';'] + longitude + seq![';'] + latitude + seq![';'] + landed
}

/// A text without a separator is one field.
proof fn lemma_fields_plain(s: Seq<char>)
    requires
        plain(s),
    ensures
        fields(s) == seq![s],
{
    lemma_first_separator(s, s.len() as int);
}

/// A text without a separator, a separator and a rest: the first field is
/// that text, the others are the fields of the rest.
proof fn lemma_fields_cons(head: Seq<char>, rest: Seq<char>)
    requires
        plain(head),
    ensures
        fields(head + seq![';'] + rest) == seq![head] + fields(rest),
{
    let s = head + seq![';'] + rest;
    let k = head.len() as int;
    assert forall|j: int| 0 <= j < k implies !is_separator(#[trigger] s[j]) by {
        assert(s[j] == head[j]);
    }
    assert(s[k] == ';');
    lemma_first_separator(s, k);
    assert(s.take(k) =~= head);
    assert(s.skip(k + 1) =~= rest);
}

/// Four texts without a separator, joined by separators, are a line of
/// these four fields: splitting undoes joining.
pub proof fn lemma_fields_of_line(
    uuid: Seq<char>,
    longitude: Seq<char>,
    latitude: Seq<char>,
    landed: Seq<char>,
)
    requires
        plain(uuid),
        plain(longitude),
        plain(latitude),
        plain(landed),
    ensures
        fields(line(uuid, longitude, latitude, landed)) == seq![uuid, longitude, latitude, landed],
{
    let sep = seq![';'];
    let third = latitude + sep + landed;
    let second = longitude + sep + third;
    assert(line(uuid, longitude, latitude, landed) =~= uuid + sep + second);
    lemma_fields_cons(uuid, second);
    lemma_fields_cons(longitude, third);
    lemma_fields_cons(latitude, landed);
    lemma_fields_plain(landed);
    assert(seq![uuid] + (seq![longitude] + (seq![latitude] + seq![landed])) =~= seq![
        uuid,
        longitude,
        latitude,
        landed,
    ]);
}

/// One step of splitting: where the first separator at or after `from`
/// stands at `at`, the fields from `from` on are the text between the two
/// and the fields after `at`; where none follows, they are the one field
/// that is left.
proof fn lemma_fields_step(s: Seq<char>, from: int, at: int)
    requires
        0 <= from <= at <= s.len(),
        at == from + first_separator(s.skip(from)),
    ensures
        at == s.len() ==> fields(s.skip(from)) == seq![s.subrange(from, at)],
        at < s.len() ==> fields(s.skip(from)) == seq![s.subrange(from, at)] + fields(
            s.skip(at + 1),
        ),
{
    let rest = s.skip(from);
    assert(rest.take(at - from) =~= s.subrange(from, at));
    if at == s.len() {
        assert(rest =~= s.subrange(from, at));
    } else {
        assert(rest.skip(at - from + 1) =~= s.skip(at + 1));
    }
}

/// Decodes one line of the feed. `Ok(None)` says that the line is no
/// record; an error names the first field that is malformed.
pub fn decode_flight(data: &str) -> (r: Result<Option<FlightInfo>, FieldError>)
    ensures
        decoded(r) == decode(data@),
{
    let chars = chars_of(data);
    let len: usize = chars.len();
    let ghost s = data@;
    assert(s.skip(0) =~= s);
    let first: usize = find_separator(&chars, 0);
    proof {
        lemma_fields_step(s, 0, first as int);
    }
    if first == len {
        return Ok(None);
    }
    let second: usize = find_separator(&chars, first + 1);
    proof {
        lemma_fields_step(s, first + 1, second as int);
    }
    if second == len {
        return Ok(None);
    }
    let third: usize = find_separator(&chars, second + 1);
    proof {
        lemma_fields_step(s, second + 1, third as int);
    }
    if third == len {
        return Ok(None);
    }
    let end: usize = find_separator(&chars, third + 1);
    proof {
        lemma_fields_step(s, third + 1, end as int);
        if end < len {
            lemma_fields_nonempty(s.skip(end + 1));
        }
    }
    if end != len {
        return Ok(None);
    }
    assert(fields(s) =~= seq![
        s.subrange(0, first as int),
        s.subrange(first + 1, second as int),
        s.subrange(second + 1, third as int),
        s.subrange(third + 1, len as int),
    ]);
    let longitude = data.substring_char(first + 1, second);
    if !holds_number(longitude) {
        return Err(FieldError::Longitude);
    }
    let latitude = data.substring_char(second + 1, third);
    if !holds_number(latitude) {
        return Err(FieldError::Latitude);
    }
    match read_landed(data.substring_char(third + 1, len)) {
        None => Err(FieldError::Landed),
        Some(landed) => Ok(
            Some(
                FlightInfo {
                    uuid: data.substring_char(0, first).to_owned(),
                    latitude: latitude.to_owned(),
                    longitude: longitude.to_owned(),
                    landed,
                },
            ),
        ),
    }
}

/// Decodes one line that the page's script handed over. The line must not
/// be one of four fields with a malformed one among them; `decode_flight`
/// tells.
pub fn get_flights_from_js(data: &str) -> (flight: Option<FlightInfo>)
    requires
        decode(data@) is Ok,
    ensures
        decoded(Ok(flight)) == decode(data@),
{
    match decode_flight(data) {
        Ok(flight) => flight,
        Err(_) => None,
    }
}

} // verus!
