//! Tags: a name for an object, with who made it, when, and why.
//!
//! The text is `object <hash>`, `type <object type>`, `tag <name>` and
//! `tagger <name> <<email>> <seconds> <offset>`, each on a line of its own,
//! then an empty line and the message.

use vstd::prelude::*;
use vstd::utf8::*;
use crate::decimal::{all_digits, decimal, is_digit, lemma_decimal_one_word, parse_i64, parse_i64_chars};
use crate::lines::{
    find_char, find_char_exec, keeps_line_ends, lemma_terminated_lines_from, lines_from,
    single_line, split_lines, strip_cr, sub_chars, terminated_lines, text_lines,
};
use crate::storage::objects::commit::{opt_chars, timestamp_accepted, timestamp_in_range};
use crate::bytes::{copy_range, find_zero, first_zero};
use crate::storage::codec::{zlib_contents, zlib_decompress};
use crate::storage::utils::{Loadable, framed, ObjectError, Storable, VoxObject, OBJ_TYPE_TAG};
use crate::text::string_from_utf8;
use crate::text::{
    is_trimmed, lemma_trimmed_unchanged, push_str, str_bytes, str_chars, string_from_chars, trim_chars,
    trimmed,
};

verus! {

/// A tag: the object it names, that object's type, the tag's name, who made
/// it (name, email, seconds since the epoch) and its message.
#[derive(Debug)]
pub struct Tag {
    /// The hash of the object being tagged (usually a commit)
    pub object: String,
    /// The type of object being tagged (typically "commit")
    pub object_type: String,
    /// The name of the tag
    pub tag: String,
    /// Who created the tag: name, email, and seconds since the epoch
    pub tagger: (String, String, i64),
    /// The annotation message for the tag
    pub message: String,
}

/// The value of a tag.
pub struct TagModel {
    pub object: Seq<char>,
    pub object_type: Seq<char>,
    pub tag: Seq<char>,
    pub tagger: (Seq<char>, Seq<char>, i64),
    pub message: Seq<char>,
}

impl View for Tag {
    type V = TagModel;

    open spec fn view(&self) -> TagModel {
        TagModel {
            object: self.object@,
            object_type: self.object_type@,
            tag: self.tag@,
            tagger: (self.tagger.0@, self.tagger.1@, self.tagger.2),
            message: self.message@,
        }
    }
}

/// Why tag text could not be read.
#[derive(Debug, PartialEq, Eq, Structural)]
pub enum TagError {
    /// The tagger line is not `name <email> seconds offset`.
    InvalidTagger,
    /// The tagger's seconds are not an `i64`.
    InvalidTimestamp,
    /// The tagger's seconds name no date chrono can hold.
    TimestampOutOfRange,
    /// The tagger's offset (`HHMM`, hours and minutes) is a day or more.
    OffsetOutOfRange,
    MissingObject,
    MissingType,
    MissingTag,
    MissingTagger,
}

/// The faults on which reading a tag aborts rather than failing.
pub open spec fn tag_aborts(e: TagError) -> bool {
    e == TagError::OffsetOutOfRange
}

/// The start of the run of digits that ends at `end`.
pub open spec fn digit_run_start(s: Seq<char>, end: int) -> int
    decreases end,
{
    if end > 0 && end <= s.len() && is_digit(s[end - 1]) {
        digit_run_start(s, end - 1)
    } else {
        end
    }
}

/// The last ` <` that ends at or before `end`.
pub open spec fn last_open(s: Seq<char>, end: int) -> Option<int>
    decreases end,
{
    if end < 2 || end > s.len() {
        None
    } else if s[end - 2] == ' ' && s[end - 1] == '<' {
        Some(end - 2)
    } else {
        last_open(s, end - 1)
    }
}

/// The pieces `name <email> seconds offset` of a tagger, as the pattern
/// `^(.*) <(.*?)> (\d+) ([\+\-]\d{4})$` captures them: the offset is a sign and
/// four digits at the end, after a space; the seconds the digits before that,
/// after `> `; the name runs up to the last ` <` before that, and the email from
/// there to the `> `. No piece may hold a line feed.
pub open spec fn identity_parts(s: Seq<char>) -> Option<(Seq<char>, Seq<char>, Seq<char>, Seq<char>)> {
    let n = s.len() as int;
    if n < 6 || find_char(s, '\n', 0) is Some {
        None
    } else if !(s[n - 6] == ' ' && (s[n - 5] == '+' || s[n - 5] == '-') && all_digits(
        s.subrange(n - 4, n),
    )) {
        None
    } else {
        let dend = n - 6;
        let d0 = digit_run_start(s, dend);
        if d0 == dend || d0 < 2 || s[d0 - 2] != '>' || s[d0 - 1] != ' ' {
            None
        } else {
            match last_open(s, d0 - 2) {
                None => None,
                Some(i) => Some(
                    (
                        s.subrange(0, i),
                        s.subrange(i + 2, d0 - 2),
                        s.subrange(d0, dend),
                        s.subrange(n - 5, n),
                    ),
                ),
            }
        }
    }
}

/// The value in seconds of an offset: a sign, two digits of hours and two of
/// minutes.
pub open spec fn offset_seconds(tz: Seq<char>) -> int {
    let v = crate::decimal::digits_value(tz.subrange(1, 3)) * 3600 + crate::decimal::digits_value(
        tz.subrange(3, 5),
    ) * 60;
    if tz[0] == '-' {
        -v
    } else {
        v
    }
}

/// An offset `±HHMM` is worth HH hours and MM minutes in seconds, negative
/// after a `-`; a tagger is refused unless that is less than a day either way.
pub proof fn lemma_offset_value(sign: char, h1: char, h0: char, m1: char, m0: char)
    ensures
        ({
            let v = ((h1 as int - 48) * 10 + (h0 as int - 48)) * 3600 + ((m1 as int - 48) * 10 + (
            m0 as int - 48)) * 60;
            offset_seconds(seq![sign, h1, h0, m1, m0]) == if sign == '-' {
                -v
            } else {
                v
            }
        }),
{
    let tz = seq![sign, h1, h0, m1, m0];
    let hh = tz.subrange(1, 3);
    let mm = tz.subrange(3, 5);
    assert(tz[0] == sign);
    assert(hh =~= seq![h1, h0]);
    assert(mm =~= seq![m1, m0]);
    assert(hh.drop_last() =~= seq![h1]);
    assert(mm.drop_last() =~= seq![m1]);
    assert(seq![h1].drop_last() =~= Seq::<char>::empty());
    assert(seq![m1].drop_last() =~= Seq::<char>::empty());
    reveal_with_fuel(crate::decimal::digits_value, 3);
    assert('0' as int == 48) by {
        vstd::utf8::char_u32_cast('0', '0' as u32);
    }
    assert(crate::decimal::digits_value(Seq::<char>::empty()) == 0);
    assert(crate::decimal::digits_value(seq![h1]) == crate::decimal::digit_value(h1));
    assert(crate::decimal::digits_value(hh) == crate::decimal::digit_value(h1) * 10
        + crate::decimal::digit_value(h0));
    assert(crate::decimal::digits_value(seq![m1]) == crate::decimal::digit_value(m1));
    assert(crate::decimal::digits_value(mm) == crate::decimal::digit_value(m1) * 10
        + crate::decimal::digit_value(m0));
}

/// Reading a tagger: the name and email trimmed, the seconds; the offset, in
/// seconds, must stay within a day.
pub open spec fn tagger_parse(s: Seq<char>) -> Result<(Seq<char>, Seq<char>, i64), TagError> {
    match identity_parts(s) {
        None => Err(TagError::InvalidTagger),
        Some((name, email, secs, tz)) => match parse_i64(secs) {
            None => Err(TagError::InvalidTimestamp),
            Some(t) => if !timestamp_in_range(t) {
                Err(TagError::TimestampOutOfRange)
            } else if offset_seconds(tz) <= -86400 || offset_seconds(tz) >= 86400 {
                Err(TagError::OffsetOutOfRange)
            } else {
                Ok((trimmed(name), trimmed(email), t))
            },
        },
    }
}

/// The fields read so far.
#[verifier::ext_equal]
pub struct TagFields {
    pub object: Option<Seq<char>>,
    pub object_type: Option<Seq<char>>,
    pub tag: Option<Seq<char>>,
    pub tagger: Option<(Seq<char>, Seq<char>, i64)>,
    pub message: Seq<char>,
    pub in_message: bool,
}

pub open spec fn no_tag_fields() -> TagFields {
    TagFields {
        object: None,
        object_type: None,
        tag: None,
        tagger: None,
        message: Seq::empty(),
        in_message: false,
    }
}

/// Reading one line: in the message, the line and a line feed go to the
/// message; an empty line starts the message; a line `key value` sets the
/// field `key` names (its value trimmed), and lines without a space or with
/// another key are passed over.
pub open spec fn tag_step(f: TagFields, line: Seq<char>) -> Result<TagFields, TagError> {
    if f.in_message {
        Ok(TagFields { message: f.message + line + seq!['\n'], ..f })
    } else if line.len() == 0 {
        Ok(TagFields { in_message: true, ..f })
    } else {
        match find_char(line, ' ', 0) {
            None => Ok(f),
            Some(j) => {
                let key = line.subrange(0, j);
                let value = line.subrange(j + 1, line.len() as int);
                if key == "object"@ {
                    Ok(TagFields { object: Some(trimmed(value)), ..f })
                } else if key == "type"@ {
                    Ok(TagFields { object_type: Some(trimmed(value)), ..f })
                } else if key == "tag"@ {
                    Ok(TagFields { tag: Some(trimmed(value)), ..f })
                } else if key == "tagger"@ {
                    match tagger_parse(value) {
                        Ok(t) => Ok(TagFields { tagger: Some(t), ..f }),
                        Err(e) => Err(e),
                    }
                } else {
                    Ok(f)
                }
            },
        }
    }
}

/// Reading the lines from `i` on.
pub open spec fn run_tag(ls: Seq<Seq<char>>, i: int, f: TagFields) -> Result<TagFields, TagError>
    decreases ls.len() - i,
{
    if i < 0 || i >= ls.len() {
        Ok(f)
    } else {
        match tag_step(f, ls[i]) {
            Err(e) => Err(e),
            Ok(g) => run_tag(ls, i + 1, g),
        }
    }
}

/// Reading tag text.
pub open spec fn tag_parse(data: Seq<char>) -> Result<TagModel, TagError> {
    match run_tag(text_lines(data), 0, no_tag_fields()) {
        Err(e) => Err(e),
        Ok(f) => if f.object is None {
            Err(TagError::MissingObject)
        } else if f.object_type is None {
            Err(TagError::MissingType)
        } else if f.tag is None {
            Err(TagError::MissingTag)
        } else if f.tagger is None {
            Err(TagError::MissingTagger)
        } else {
            Ok(
                TagModel {
                    object: f.object.unwrap(),
                    object_type: f.object_type.unwrap(),
                    tag: f.tag.unwrap(),
                    tagger: f.tagger.unwrap(),
                    message: trimmed(f.message),
                },
            )
        },
    }
}

/// A tag result, by value.
pub open spec fn tag_result(r: Result<Tag, TagError>) -> Result<TagModel, TagError> {
    match r {
        Ok(t) => Ok(t@),
        Err(e) => Err(e),
    }
}

/// The text a tag is stored as; the tagger's time is written in UTC, so its
/// offset is `+0000`.
pub open spec fn tag_text(t: TagModel) -> Seq<char> {
    "object "@ + t.object + "\n"@ + "type "@ + t.object_type + "\n"@ + "tag "@ + t.tag + "\n"@
        + "tagger "@ + t.tagger.0 + " <"@ + t.tagger.1 + "> "@ + decimal(t.tagger.2 as int)
        + " +0000\n"@ + "\n"@ + t.message
}

/// The fields read so far, held by the reader.
struct TagReader {
    object: Option<String>,
    object_type: Option<String>,
    tag: Option<String>,
    tagger: Option<(String, String, i64)>,
    message: Vec<char>,
    in_message: bool,
}

impl TagReader {
    spec fn fields(&self) -> TagFields {
        TagFields {
            object: opt_chars(self.object),
            object_type: opt_chars(self.object_type),
            tag: opt_chars(self.tag),
            tagger: match self.tagger {
                Some(t) => Some((t.0@, t.1@, t.2)),
                None => None,
            },
            message: self.message@,
            in_message: self.in_message,
        }
    }
}

/// Whether `v` holds exactly the characters of `w`.
fn is_word(v: &Vec<char>, w: &str) -> (r: bool)
    ensures
        r == (v@ == w@),
{
    let wc = str_chars(w);
    if v.len() != wc.len() {
        return false;
    }
    let mut i: usize = 0;
    while i < v.len()
        invariant
            v@.len() == wc@.len(),
            wc@ == w@,
            i <= v@.len(),
            forall|t: int| 0 <= t < i ==> v@[t] == wc@[t],
        decreases v@.len() - i,
    {
        if v[i] != wc[i] {
            return false;
        }
        i = i + 1;
    }
    assert(v@ =~= wc@);
    true
}

/// The characters of `cs` trimmed, as a string.
fn trimmed_string(cs: &Vec<char>) -> (s: String)
    ensures
        s@ == trimmed(cs@),
{
    let t = trim_chars(cs);
    string_from_chars(t.as_slice())
}

/// The start of the run of digits ending at `end`.
fn digit_run_start_exec(s: &Vec<char>, end: usize) -> (d: usize)
    requires
        end <= s@.len(),
    ensures
        d == digit_run_start(s@, end as int),
        d <= end,
{
    let mut d = end;
    while d > 0 && '0' <= s[d - 1] && s[d - 1] <= '9'
        invariant
            d <= end <= s@.len(),
            digit_run_start(s@, d as int) == digit_run_start(s@, end as int),
        decreases d,
    {
        d = d - 1;
    }
    d
}

/// The last ` <` ending at or before `end`.
fn last_open_exec(s: &Vec<char>, end: usize) -> (r: Option<usize>)
    requires
        end <= s@.len(),
    ensures
        match last_open(s@, end as int) {
            Some(i) => r == Some(i as usize),
            None => r is None,
        },
        r matches Some(i) ==> i + 2 <= end && last_open(s@, end as int) == Some(i as int),
{
    let mut e = end;
    while e >= 2
        invariant
            e <= end <= s@.len(),
            last_open(s@, e as int) == last_open(s@, end as int),
        decreases e,
    {
        if s[e - 2] == ' ' && s[e - 1] == '<' {
            return Some(e - 2);
        }
        e = e - 1;
    }
    None
}

/// Whether the four characters from `at` are all digits.
fn four_digits(s: &Vec<char>, at: usize) -> (b: bool)
    requires
        at + 4 <= s@.len(),
    ensures
        b == all_digits(s@.subrange(at as int, at + 4)),
{
    let n = s.len();
    let b = '0' <= s[at] && s[at] <= '9' && '0' <= s[at + 1] && s[at + 1] <= '9' && '0' <= s[at + 2]
        && s[at + 2] <= '9' && '0' <= s[at + 3] && s[at + 3] <= '9';
    proof {
        let w = s@.subrange(at as int, at + 4);
        if !b {
            if !is_digit(s@[at as int]) {
                assert(!is_digit(w[0]));
            } else if !is_digit(s@[at + 1]) {
                assert(!is_digit(w[1]));
            } else if !is_digit(s@[at + 2]) {
                assert(!is_digit(w[2]));
            } else {
                assert(!is_digit(w[3]));
            }
        }
    }
    b
}

/// The value of the decimal digit `c`.
fn digit_of(c: char) -> (d: u32)
    requires
        is_digit(c),
    ensures
        d == crate::decimal::digit_value(c),
        d < 10,
{
    (c as u32) - ('0' as u32)
}

/// Reads a tagger: `name <email> seconds offset`.
fn read_tagger(s: &Vec<char>) -> (r: Result<(String, String, i64), TagError>)
    ensures
        match tagger_parse(s@) {
            Ok(t) => r matches Ok(x) && x.0@ == t.0 && x.1@ == t.1 && x.2 == t.2,
            Err(e) => r == Err::<(String, String, i64), TagError>(e),
        },
{
    let n = s.len();
    proof {
        crate::lines::lemma_find_char(s@, '\n', 0);
    }
    if n < 6 {
        return Err(TagError::InvalidTagger);
    }
    if find_char_exec(s, '\n', 0).is_some() {
        return Err(TagError::InvalidTagger);
    }
    if !(s[n - 6] == ' ' && (s[n - 5] == '+' || s[n - 5] == '-') && four_digits(s, n - 4)) {
        return Err(TagError::InvalidTagger);
    }
    let dend = n - 6;
    let d0 = digit_run_start_exec(s, dend);
    if d0 == dend || d0 < 2 || s[d0 - 2] != '>' || s[d0 - 1] != ' ' {
        return Err(TagError::InvalidTagger);
    }
    let open = last_open_exec(s, d0 - 2);
    if open.is_none() {
        return Err(TagError::InvalidTagger);
    }
    let i = open.unwrap();
    let name = sub_chars(s, 0, i);
    let email = sub_chars(s, i + 2, d0 - 2);
    let secs = sub_chars(s, d0, dend);
    let stamp = parse_i64_chars(secs.as_slice());
    if stamp.is_none() {
        return Err(TagError::InvalidTimestamp);
    }
    let t = stamp.unwrap();
    if !timestamp_accepted(t) {
        return Err(TagError::TimestampOutOfRange);
    }
    // The offset: a sign and four digits, hours and minutes.
    let ghost w = s@.subrange(n - 4, n as int);
    assert(is_digit(w[0]) && is_digit(w[1]) && is_digit(w[2]) && is_digit(w[3]));
    let d1 = digit_of(s[n - 4]);
    let d2 = digit_of(s[n - 3]);
    let d3 = digit_of(s[n - 2]);
    let d4 = digit_of(s[n - 1]);
    let v: u32 = (d1 * 10 + d2) * 3600 + (d3 * 10 + d4) * 60;
    proof {
        let tz = s@.subrange(n - 5, n as int);
        let hh = tz.subrange(1, 3);
        let mm = tz.subrange(3, 5);
        assert(hh =~= seq![w[0], w[1]]);
        assert(mm =~= seq![w[2], w[3]]);
        reveal_with_fuel(crate::decimal::digits_value, 3);
        assert(hh.drop_last().drop_last() =~= Seq::<char>::empty());
        assert(hh.drop_last() =~= seq![w[0]]);
        assert(mm.drop_last().drop_last() =~= Seq::<char>::empty());
        assert(mm.drop_last() =~= seq![w[2]]);
        assert(crate::decimal::digits_value(hh) == d1 * 10 + d2);
        assert(crate::decimal::digits_value(mm) == d3 * 10 + d4);
    }
    if v >= 86400 {
        return Err(TagError::OffsetOutOfRange);
    }
    Ok((trimmed_string(&name), trimmed_string(&email), t))
}

/// Reads one line of tag text into `f`.
fn read_tag_line(f: TagReader, line: &Vec<char>) -> (r: Result<TagReader, TagError>)
    ensures
        match tag_step(f.fields(), line@) {
            Ok(g) => r matches Ok(h) && h.fields() == g,
            Err(e) => r matches Err(x) && x == e,
        },
{
    let ghost old_fields = f.fields();
    let mut f = f;
    if f.in_message {
        let ghost before = f.message@;
        let mut i: usize = 0;
        while i < line.len()
            invariant
                i <= line@.len(),
                f.message@ == before + line@.subrange(0, i as int),
                f.fields() == (TagFields { message: f.message@, ..old_fields }),
            decreases line@.len() - i,
        {
            f.message.push(line[i]);
            assert(line@.subrange(0, i + 1) =~= line@.subrange(0, i as int).push(line@[i as int]));
            i = i + 1;
        }
        f.message.push('\n');
        assert(f.message@ =~= before + line@ + seq!['\n']);
        assert(f.fields() =~= TagFields { message: before + line@ + seq!['\n'], ..old_fields });
        return Ok(f);
    }
    if line.len() == 0 {
        f.in_message = true;
        return Ok(f);
    }
    proof {
        crate::lines::lemma_find_char(line@, ' ', 0);
    }
    let found = find_char_exec(line, ' ', 0);
    if found.is_none() {
        return Ok(f);
    }
    let j = found.unwrap();
    let n = line.len();
    let key = sub_chars(line, 0, j);
    let value = sub_chars(line, j + 1, n);
    if is_word(&key, "object") {
        f.object = Some(trimmed_string(&value));
        Ok(f)
    } else if is_word(&key, "type") {
        f.object_type = Some(trimmed_string(&value));
        Ok(f)
    } else if is_word(&key, "tag") {
        f.tag = Some(trimmed_string(&value));
        Ok(f)
    } else if is_word(&key, "tagger") {
        match read_tagger(&value) {
            Ok(t) => {
                f.tagger = Some(t);
                Ok(f)
            },
            Err(e) => Err(e),
        }
    } else {
        Ok(f)
    }
}

impl Tag {
    /// Reads tag text, reporting each way it can be wrong.
    fn read_text(data: &str) -> (r: Result<Tag, TagError>)
        ensures
            tag_result(r) == tag_parse(data@),
    {
        let cs = str_chars(data);
        let ls = split_lines(&cs);
        let ghost sl = text_lines(data@);
        let n = ls.len();
        let mut f = TagReader {
            object: None,
            object_type: None,
            tag: None,
            tagger: None,
            message: Vec::new(),
            in_message: false,
        };
        assert(f.fields() == no_tag_fields());
        let mut i: usize = 0;
        while i < n
            invariant
                n == ls@.len(),
                n == sl.len(),
                sl == text_lines(data@),
                forall|t: int| 0 <= t < n ==> #[trigger] ls@[t]@ == sl[t],
                i <= n,
                run_tag(sl, 0, no_tag_fields()) == run_tag(sl, i as int, f.fields()),
            decreases n - i,
        {
            assert(ls@[i as int]@ == sl[i as int]);
            match read_tag_line(f, &ls[i]) {
                Err(e) => return Err(e),
                Ok(g) => {
                    f = g;
                },
            }
            i = i + 1;
        }
        let object = match f.object {
            None => return Err(TagError::MissingObject),
            Some(o) => o,
        };
        let object_type = match f.object_type {
            None => return Err(TagError::MissingType),
            Some(t) => t,
        };
        let tag = match f.tag {
            None => return Err(TagError::MissingTag),
            Some(t) => t,
        };
        let tagger = match f.tagger {
            None => return Err(TagError::MissingTagger),
            Some(t) => t,
        };
        let message = trimmed_string(&f.message);
        Ok(Tag { object, object_type, tag, tagger, message })
    }

    /// Reads a tag from its text: lines `object`, `type`, `tag` and `tagger`
    /// up to the first empty line, then the message. The text must not be one
    /// on which reading aborts (`tag_aborts`).
    pub fn parse(data: &str) -> (r: Result<Tag, TagError>)
        requires
            !(tag_parse(data@) matches Err(e) && tag_aborts(e)),
        ensures
            tag_result(r) == tag_parse(data@),
    {
        Self::read_text(data)
    }

    /// Reads a tag as `parse` does; where reading would abort, gives the fault
    /// as an error instead.
    pub fn parse_checked(data: &str) -> (r: Result<Tag, TagError>)
        ensures
            tag_result(r) == tag_parse(data@),
    {
        match Self::read_text(data) {
            Err(TagError::OffsetOutOfRange) => Err(TagError::OffsetOutOfRange),
            _ => Self::parse(data),
        }
    }

    /// The tag's text.
    pub fn text(&self) -> (s: String)
        ensures
            s@ == tag_text(self@),
    {
        let mut s = String::new();
        push_str(&mut s, "object ");
        push_str(&mut s, self.object.as_str());
        push_str(&mut s, "\n");
        push_str(&mut s, "type ");
        push_str(&mut s, self.object_type.as_str());
        push_str(&mut s, "\n");
        push_str(&mut s, "tag ");
        push_str(&mut s, self.tag.as_str());
        push_str(&mut s, "\n");
        push_str(&mut s, "tagger ");
        push_str(&mut s, self.tagger.0.as_str());
        push_str(&mut s, " <");
        push_str(&mut s, self.tagger.1.as_str());
        push_str(&mut s, "> ");
        let secs = crate::decimal::i64_to_string(self.tagger.2);
        push_str(&mut s, secs.as_str());
        push_str(&mut s, " +0000\n");
        push_str(&mut s, "\n");
        push_str(&mut s, self.message.as_str());
        s
    }
}

impl VoxObject for Tag {
    open spec fn kind(&self) -> Seq<char> {
        OBJ_TYPE_TAG@
    }

    open spec fn encoding(&self) -> Option<Seq<u8>> {
        Some(encode_utf8(tag_text(self@)))
    }

    /// "tag"
    fn object_type(&self) -> (t: &str) {
        OBJ_TYPE_TAG
    }

    /// The tag's text, in UTF-8.
    fn serialize(&self) -> (r: Result<Vec<u8>, ObjectError>) {
        let s = self.text();
        Ok(str_bytes(s.as_str()))
    }
}

impl Storable for Tag {

}


/// Why a stored tag could not be read back.
#[derive(Debug, PartialEq, Eq, Structural)]
pub enum TagLoadError {
    /// The data is not a zlib stream.
    Decompress,
    /// The stored form has no zero byte ending its header.
    NoHeaderEnd,
    /// The text is not UTF-8.
    ContentNotUtf8,
    /// The text is not a tag.
    Parse(TagError),
}

/// Reading a stored tag: decompress, skip the header up to the first zero
/// byte, and read the text after it.
pub open spec fn tag_load(data: Seq<u8>) -> Result<TagModel, TagLoadError> {
    match zlib_contents(data) {
        None => Err(TagLoadError::Decompress),
        Some(d) => match first_zero(d, 0) {
            None => Err(TagLoadError::NoHeaderEnd),
            Some(z) => {
                let c = d.subrange(z + 1, d.len() as int);
                if !valid_utf8(c) {
                    Err(TagLoadError::ContentNotUtf8)
                } else {
                    match tag_parse(decode_utf8(c)) {
                        Ok(t) => Ok(t),
                        Err(e) => Err(TagLoadError::Parse(e)),
                    }
                }
            },
        },
    }
}

impl Loadable for Tag {
    type LoadError = TagLoadError;

    /// The tag stored as the compressed `data`. Where reading its text would
    /// abort (see `parse`), the fault is the error.
    fn from_stored(data: &[u8]) -> (r: Result<Tag, TagLoadError>)
        ensures
            match r {
                Ok(t) => tag_load(data@) == Ok::<TagModel, TagLoadError>(t@),
                Err(e) => tag_load(data@) == Err::<TagModel, TagLoadError>(e),
            },
    {
        let unpacked = zlib_decompress(data);
        if unpacked.is_none() {
            return Err(TagLoadError::Decompress);
        }
        let d = unpacked.unwrap();
        let found = find_zero(d.as_slice(), 0);
        if found.is_none() {
            return Err(TagLoadError::NoHeaderEnd);
        }
        let z = found.unwrap();
        let n = d.len();
        let content = match string_from_utf8(copy_range(d.as_slice(), z + 1, n)) {
            None => return Err(TagLoadError::ContentNotUtf8),
            Some(c) => c,
        };
        match Self::parse_checked(content.as_str()) {
            Ok(t) => Ok(t),
            Err(e) => Err(TagLoadError::Parse(e)),
        }
    }
}


/// Whether no ` <` stands in `s`.
pub open spec fn no_open_bracket(s: Seq<char>) -> bool {
    forall|j: int| 0 <= j < s.len() - 1 ==> !(#[trigger] s[j] == ' ' && s[j + 1] == '<')
}

/// Whether a tag's fields come back from its text: the object, type, name,
/// tagger name and email each fit on a line without white space at their
/// ends, the email holds no ` <`, the seconds are not negative and name a date
/// chrono can hold, and the message has no white space at its ends and keeps
/// its line ends.
pub open spec fn tag_plain(t: TagModel) -> bool {
    &&& single_line(t.object) && is_trimmed(t.object)
    &&& single_line(t.object_type) && is_trimmed(t.object_type)
    &&& single_line(t.tag) && is_trimmed(t.tag)
    &&& single_line(t.tagger.0) && is_trimmed(t.tagger.0)
    &&& single_line(t.tagger.1) && is_trimmed(t.tagger.1) && no_open_bracket(t.tagger.1)
    &&& t.tagger.2 >= 0 && timestamp_in_range(t.tagger.2)
    &&& is_trimmed(t.message) && keeps_line_ends(t.message)
}

/// The value of a tag's `tagger` line.
pub open spec fn tagger_value(t: TagModel) -> Seq<char> {
    t.tagger.0 + " <"@ + t.tagger.1 + "> "@ + decimal(t.tagger.2 as int) + " +0000"@
}

/// The header lines of a tag's text, with the empty line after them.
pub open spec fn tag_header_lines(t: TagModel) -> Seq<Seq<char>> {
    seq![
        "object "@ + t.object,
        "type "@ + t.object_type,
        "tag "@ + t.tag,
        "tagger "@ + tagger_value(t),
        Seq::empty(),
    ]
}

/// The digits that end at `end` start at `start`.
proof fn lemma_digit_run_start(s: Seq<char>, start: int, end: int)
    requires
        0 <= start <= end <= s.len(),
        forall|k: int| start <= k < end ==> is_digit(#[trigger] s[k]),
        start == 0 || !is_digit(s[start - 1]),
    ensures
        digit_run_start(s, end) == start,
    decreases end,
{
    if end > start {
        lemma_digit_run_start(s, start, end - 1);
    }
}

/// The last ` <` up to `end` is the one at `i` when none comes after it.
proof fn lemma_last_open(s: Seq<char>, i: int, end: int)
    requires
        0 <= i,
        i + 2 <= end <= s.len(),
        s[i] == ' ',
        s[i + 1] == '<',
        forall|k: int| i + 2 < k <= end ==> !(#[trigger] s[k - 2] == ' ' && s[k - 1] == '<'),
    ensures
        last_open(s, end) == Some(i),
    decreases end,
{
    if end > i + 2 {
        lemma_last_open(s, i, end - 1);
    }
}

/// A line with one of the fixed lines of a tag's text.
proof fn lemma_single_line_join(a: Seq<char>, b: Seq<char>)
    requires
        single_line(a),
        single_line(b),
    ensures
        single_line(a + b),
{
    assert forall|i: int| 0 <= i < (a + b).len() implies (a + b)[i] != '\n' by {
        if i >= a.len() {
            assert((a + b)[i] == b[i - a.len()]);
        }
    }
}

/// Reading the value of a tag's `tagger` line gives its tagger.
proof fn lemma_tagger_parse(t: TagModel)
    requires
        tag_plain(t),
    ensures
        tagger_parse(tagger_value(t)) == Ok::<(Seq<char>, Seq<char>, i64), TagError>(t.tagger),
        single_line(tagger_value(t)),
        tagger_value(t).last() == '0',
{
    reveal_strlit(" <");
    reveal_strlit("> ");
    reveal_strlit(" +0000");
    let name = t.tagger.0;
    let email = t.tagger.1;
    let d = decimal(t.tagger.2 as int);
    let s = tagger_value(t);
    let a = name.len() as int;
    let b = email.len() as int;
    crate::decimal::lemma_digits_value(t.tagger.2 as nat);
    lemma_decimal_one_word(t.tagger.2 as int);
    let dn = d.len() as int;
    let n = s.len() as int;
    assert(n == a + b + dn + 10);
    let tail = " +0000"@;
    assert(s =~= name + " <"@ + email + "> "@ + d + tail);
    assert forall|i: int| 0 <= i < n implies s[i] != '\n' by {
        if i < a {
            assert(s[i] == name[i]);
        } else if a + 2 <= i < a + 2 + b {
            assert(s[i] == email[i - a - 2]);
        } else if a + b + 4 <= i < a + b + 4 + dn {
            assert(s[i] == d[i - a - b - 4]);
        }
    }
    crate::lines::lemma_find_char(s, '\n', 0);
    assert(find_char(s, '\n', 0) is None);
    assert(single_line(s));
    assert(s[n - 6] == ' ' && s[n - 5] == '+');
    assert(all_digits(s.subrange(n - 4, n))) by {
        assert forall|k: int| 0 <= k < 4 implies is_digit(#[trigger] s.subrange(n - 4, n)[k]) by {
            assert(s.subrange(n - 4, n)[k] == s[n - 4 + k]);
        }
    }
    let dend = n - 6;
    let d0 = a + b + 4;
    assert forall|k: int| d0 <= k < dend implies is_digit(#[trigger] s[k]) by {
        assert(s[k] == d[k - d0]);
    }
    assert(s[d0 - 1] == ' ');
    lemma_digit_run_start(s, d0, dend);
    assert(s[d0 - 2] == '>');
    assert forall|k: int| a + 2 < k <= d0 - 2 implies !(#[trigger] s[k - 2] == ' ' && s[k - 1] == '<') by {
        if k - 2 == a + 1 {
            assert(s[k - 2] == '<');
        } else {
            assert(s[k - 2] == email[k - 2 - a - 2]);
            assert(s[k - 1] == email[k - 1 - a - 2]);
        }
    }
    lemma_last_open(s, a, d0 - 2);
    assert(s.subrange(0, a) =~= name);
    assert(s.subrange(a + 2, d0 - 2) =~= email);
    assert(s.subrange(d0, dend) =~= d);
    let tz = s.subrange(n - 5, n);
    assert(identity_parts(s) == Some((name, email, d, tz)));
    crate::decimal::lemma_parse_decimal(t.tagger.2);
    assert(tz.subrange(1, 3) =~= seq!['0', '0']);
    assert(tz.subrange(3, 5) =~= seq!['0', '0']);
    reveal_with_fuel(crate::decimal::digits_value, 3);
    assert(seq!['0', '0'].drop_last().drop_last() =~= Seq::<char>::empty());
    assert(seq!['0', '0'].drop_last() =~= seq!['0']);
    assert(crate::decimal::digits_value(seq!['0', '0']) == 0);
    assert(offset_seconds(tz) == 0);
    lemma_trimmed_unchanged(name);
    lemma_trimmed_unchanged(email);
}

/// Text made of four lines, an empty line and a rest: its lines are those
/// five, then the lines of the rest.
proof fn lemma_five_lines(
    s: Seq<char>,
    l0: Seq<char>,
    l1: Seq<char>,
    l2: Seq<char>,
    l3: Seq<char>,
    m: Seq<char>,
)
    requires
        s == l0 + seq!['\n'] + l1 + seq!['\n'] + l2 + seq!['\n'] + l3 + seq!['\n'] + seq!['\n'] + m,
        single_line(l0) && strip_cr(l0) == l0,
        single_line(l1) && strip_cr(l1) == l1,
        single_line(l2) && strip_cr(l2) == l2,
        single_line(l3) && strip_cr(l3) == l3,
    ensures
        text_lines(s) == seq![l0, l1, l2, l3, Seq::<char>::empty()] + lines_from(s, s.len() - m.len()),
{
    let nl = seq!['\n'];
    let e = Seq::<char>::empty();
    assert(s =~= e + l0 + nl + (l1 + nl + l2 + nl + l3 + nl + nl + m));
    lemma_line_in(s, e, l0, l1 + nl + l2 + nl + l3 + nl + nl + m);
    assert(s =~= (l0 + nl) + l1 + nl + (l2 + nl + l3 + nl + nl + m));
    lemma_line_in(s, l0 + nl, l1, l2 + nl + l3 + nl + nl + m);
    assert(s =~= (l0 + nl + l1 + nl) + l2 + nl + (l3 + nl + nl + m));
    lemma_line_in(s, l0 + nl + l1 + nl, l2, l3 + nl + nl + m);
    assert(s =~= (l0 + nl + l1 + nl + l2 + nl) + l3 + nl + (nl + m));
    lemma_line_in(s, l0 + nl + l1 + nl + l2 + nl, l3, nl + m);
    assert(s =~= (l0 + nl + l1 + nl + l2 + nl + l3 + nl) + e + nl + m);
    lemma_line_in(s, l0 + nl + l1 + nl + l2 + nl + l3 + nl, e, m);
    assert(single_line(e));
    assert(strip_cr(e) =~= e);
    assert(text_lines(s) =~= seq![l0, l1, l2, l3, e] + lines_from(s, s.len() - m.len()));
}

/// A field's line `word value` fits on a line, and its line feed is not
/// preceded by a carriage return.
proof fn lemma_field_line(word: Seq<char>, value: Seq<char>)
    requires
        single_line(word),
        word.len() > 0,
        word.last() == ' ',
        single_line(value),
        is_trimmed(value) || value.last() == '0',
    ensures
        single_line(word + value),
        strip_cr(word + value) == word + value,
{
    lemma_single_line_join(word, value);
    if value.len() > 0 {
        assert((word + value).last() == value.last());
    } else {
        assert(word + value =~= word);
    }
}

/// A tag's text, line by line.
#[verifier::spinoff_prover]
proof fn lemma_tag_text_shape(t: TagModel)
    ensures
        tag_text(t) == ("object "@ + t.object) + seq!['\n'] + ("type "@ + t.object_type) + seq!['\n']
            + ("tag "@ + t.tag) + seq!['\n'] + ("tagger "@ + tagger_value(t)) + seq!['\n'] + seq!['\n']
            + t.message,
{
    reveal_strlit(" +0000");
    reveal_strlit(" +0000\n");
    reveal_strlit("\n");
    let nl = seq!['\n'];
    assert(" +0000\n"@ =~= " +0000"@ + nl);
    assert("\n"@ =~= nl);
    assert(tag_text(t) =~= ("object "@ + t.object) + nl + ("type "@ + t.object_type) + nl + ("tag "@
        + t.tag) + nl + ("tagger "@ + tagger_value(t)) + nl + nl + t.message);
}

/// The lines of a tag's text: its header lines, the empty line, then the
/// lines of its message.
proof fn lemma_tag_lines(t: TagModel)
    requires
        tag_plain(t),
    ensures
        text_lines(tag_text(t)) == tag_header_lines(t) + lines_from(
            tag_text(t),
            tag_text(t).len() - t.message.len(),
        ),
{
    lemma_tagger_parse(t);
    let s = tag_text(t);
    let nl = seq!['\n'];
    let v = tagger_value(t);
    let m = t.message;
    lemma_tag_text_shape(t);
    assert(single_line("object "@) && "object "@.len() > 0 && "object "@.last() == ' ') by {
        reveal_strlit("object ");
    }
    assert(single_line("type "@) && "type "@.len() > 0 && "type "@.last() == ' ') by {
        reveal_strlit("type ");
    }
    assert(single_line("tag "@) && "tag "@.len() > 0 && "tag "@.last() == ' ') by {
        reveal_strlit("tag ");
    }
    assert(single_line("tagger "@) && "tagger "@.len() > 0 && "tagger "@.last() == ' ') by {
        reveal_strlit("tagger ");
    }
    lemma_field_line("object "@, t.object);
    lemma_field_line("type "@, t.object_type);
    lemma_field_line("tag "@, t.tag);
    lemma_field_line("tagger "@, v);
    lemma_five_lines(s, "object "@ + t.object, "type "@ + t.object_type, "tag "@ + t.tag, "tagger "@ + v, m);
}

/// The line `l` that lies between `x` and `y` is the next line after `x`.
proof fn lemma_line_in(s: Seq<char>, x: Seq<char>, l: Seq<char>, y: Seq<char>)
    requires
        s == x + l + seq!['\n'] + y,
        single_line(l),
    ensures
        lines_from(s, x.len() as int) == seq![strip_cr(l)] + lines_from(s, x.len() + l.len() + 1int),
{
    assert(s.subrange(x.len() as int, x.len() + l.len() as int) =~= l);
    assert(s[x.len() + l.len() as int] == '\n');
    crate::lines::lemma_line_at(s, x.len() as int, l);
}

/// The line `key value` sets the field `key` names to `value`.
proof fn lemma_key_line(word: &str, value: Seq<char>)
    requires
        word@.len() > 0,
        forall|i: int| 0 <= i < word@.len() ==> word@[i] != ' ',
    ensures
        ({
            let line = word@ + seq![' '] + value;
            &&& find_char(line, ' ', 0) == Some(word@.len() as int)
            &&& line.subrange(0, word@.len() as int) == word@
            &&& line.subrange(word@.len() + 1int, line.len() as int) == value
        }),
{
    let line = word@ + seq![' '] + value;
    crate::lines::lemma_find_char_at(line, ' ', 0, word@.len() as int);
    assert(line.subrange(0, word@.len() as int) =~= word@);
    assert(line.subrange(word@.len() + 1int, line.len() as int) =~= value);
}

/// Reading the message lines after the empty line collects them, each with a
/// line feed.
proof fn lemma_run_message(ls: Seq<Seq<char>>, i: int, f: TagFields)
    requires
        f.in_message,
        0 <= i <= ls.len(),
    ensures
        run_tag(ls, i, f) == Ok::<TagFields, TagError>(
            TagFields { message: f.message + terminated_lines(ls.subrange(i, ls.len() as int)), ..f },
        ),
    decreases ls.len() - i,
{
    let rest = ls.subrange(i, ls.len() as int);
    if i < ls.len() {
        let g = TagFields { message: f.message + ls[i] + seq!['\n'], ..f };
        lemma_run_message(ls, i + 1, g);
        assert(rest.drop_first() =~= ls.subrange(i + 1, ls.len() as int));
        assert(g.message + terminated_lines(ls.subrange(i + 1, ls.len() as int)) =~= f.message
            + terminated_lines(rest));
    } else {
        assert(rest =~= Seq::<Seq<char>>::empty());
        assert(f.message + terminated_lines(rest) =~= f.message);
        assert(TagFields { message: f.message + terminated_lines(rest), ..f } =~= f);
    }
}

/// The fields a tag's header lines set.
pub open spec fn tag_header_fields(t: TagModel) -> TagFields {
    TagFields {
        object: Some(t.object),
        object_type: Some(t.object_type),
        tag: Some(t.tag),
        tagger: Some(t.tagger),
        message: Seq::empty(),
        in_message: true,
    }
}

/// The line `object <hash>` sets the object.
#[verifier::spinoff_prover]
proof fn lemma_object_step(f: TagFields, v: Seq<char>)
    requires
        !f.in_message,
        is_trimmed(v),
    ensures
        tag_step(f, "object "@ + v) == Ok::<TagFields, TagError>(TagFields { object: Some(v), ..f }),
{
    reveal_strlit("object ");
    reveal_strlit("object");
    assert("object "@ =~= "object"@ + seq![' ']);
    lemma_key_line("object", v);
    lemma_trimmed_unchanged(v);
}

/// The line `type <type>` sets the object's type.
#[verifier::spinoff_prover]
proof fn lemma_type_step(f: TagFields, v: Seq<char>)
    requires
        !f.in_message,
        is_trimmed(v),
    ensures
        tag_step(f, "type "@ + v) == Ok::<TagFields, TagError>(TagFields { object_type: Some(v), ..f }),
{
    reveal_strlit("type ");
    reveal_strlit("type");
    reveal_strlit("object");
    assert("type "@ =~= "type"@ + seq![' ']);
    lemma_key_line("type", v);
    assert("type"@ != "object"@);
    lemma_trimmed_unchanged(v);
}

/// The line `tag <name>` sets the tag's name.
#[verifier::spinoff_prover]
proof fn lemma_name_step(f: TagFields, v: Seq<char>)
    requires
        !f.in_message,
        is_trimmed(v),
    ensures
        tag_step(f, "tag "@ + v) == Ok::<TagFields, TagError>(TagFields { tag: Some(v), ..f }),
{
    reveal_strlit("tag ");
    reveal_strlit("tag");
    reveal_strlit("type");
    reveal_strlit("object");
    assert("tag "@ =~= "tag"@ + seq![' ']);
    lemma_key_line("tag", v);
    assert("tag"@ != "object"@ && "tag"@ != "type"@);
    lemma_trimmed_unchanged(v);
}

/// The line `tagger <tagger>` sets the tagger.
#[verifier::spinoff_prover]
proof fn lemma_tagger_step(f: TagFields, t: TagModel)
    requires
        !f.in_message,
        tag_plain(t),
    ensures
        tag_step(f, "tagger "@ + tagger_value(t)) == Ok::<TagFields, TagError>(
            TagFields { tagger: Some(t.tagger), ..f },
        ),
{
    reveal_strlit("tagger ");
    reveal_strlit("tagger");
    reveal_strlit("tag");
    reveal_strlit("type");
    reveal_strlit("object");
    assert("tagger "@ =~= "tagger"@ + seq![' ']);
    lemma_key_line("tagger", tagger_value(t));
    lemma_tagger_parse(t);
    assert("tagger"@ != "object"@ && "tagger"@ != "type"@ && "tagger"@ != "tag"@) by {
        assert("tagger"@[0] != "object"@[0]);
    }
}

/// Reading a tag's header lines sets its fields and starts the message.
proof fn lemma_tag_header(t: TagModel, ls: Seq<Seq<char>>)
    requires
        tag_plain(t),
        5 <= ls.len(),
        forall|i: int| 0 <= i < 5 ==> ls[i] == #[trigger] tag_header_lines(t)[i],
    ensures
        run_tag(ls, 0, no_tag_fields()) == run_tag(ls, 5, tag_header_fields(t)),
{
    let hl = tag_header_lines(t);
    assert(ls[0] == hl[0] && ls[1] == hl[1] && ls[2] == hl[2] && ls[3] == hl[3] && ls[4] == hl[4]);
    let f0 = no_tag_fields();
    let f1 = TagFields { object: Some(t.object), ..f0 };
    let f2 = TagFields { object_type: Some(t.object_type), ..f1 };
    let f3 = TagFields { tag: Some(t.tag), ..f2 };
    let f4 = TagFields { tagger: Some(t.tagger), ..f3 };
    lemma_object_step(f0, t.object);
    lemma_type_step(f1, t.object_type);
    lemma_name_step(f2, t.tag);
    lemma_tagger_step(f3, t);
    assert(tag_step(f4, ls[4]) == Ok::<TagFields, TagError>(tag_header_fields(t)));
    assert(run_tag(ls, 4, f4) == run_tag(ls, 5, tag_header_fields(t)));
    assert(run_tag(ls, 3, f3) == run_tag(ls, 4, f4));
    assert(run_tag(ls, 2, f2) == run_tag(ls, 3, f3));
    assert(run_tag(ls, 1, f1) == run_tag(ls, 2, f2));
    assert(run_tag(ls, 0, f0) == run_tag(ls, 1, f1));
}

/// Reading back a tag's text gives the tag, for a tag whose fields come back
/// from its text (`tag_plain`).
pub proof fn lemma_tag_roundtrip(t: TagModel)
    requires
        tag_plain(t),
    ensures
        tag_parse(tag_text(t)) == Ok::<TagModel, TagError>(t),
{
    let s = tag_text(t);
    lemma_tag_lines(t);
    let ls = text_lines(s);
    let hl = tag_header_lines(t);
    let qm = s.len() - t.message.len();
    let rest = lines_from(s, qm);
    assert(ls == hl + rest);
    assert forall|i: int| 0 <= i < 5 implies ls[i] == #[trigger] tag_header_lines(t)[i] by {
        assert((hl + rest)[i] == hl[i]);
    }
    lemma_tag_header(t, ls);
    let f5 = tag_header_fields(t);
    lemma_run_message(ls, 5, f5);
    assert(ls.subrange(5, ls.len() as int) =~= rest);
    assert(s.subrange(qm, s.len() as int) =~= t.message) by {
        reveal_strlit("\n");
    }
    lemma_terminated_lines_from(s, qm);
    let msg = f5.message + terminated_lines(rest);
    if t.message.len() > 0 {
        assert(s.last() == t.message.last());
        assert(msg =~= t.message + seq!['\n']);
    } else {
        assert(msg =~= Seq::<char>::empty());
    }
    lemma_trimmed_unchanged(t.message);
    assert(trimmed(msg) == t.message);
}

/// Reading back what saving a tag writes gives the tag, for a tag whose
/// fields come back from its text (`tag_plain`).
pub proof fn lemma_tag_store_roundtrip(t: Tag, stored: Seq<u8>)
    requires
        zlib_contents(stored) == Some(framed(t.kind(), t.encoding().unwrap())),
        tag_plain(t@),
    ensures
        tag_load(stored) == Ok::<TagModel, TagLoadError>(t@),
{
    reveal_strlit("tag");
    let enc = encode_utf8(tag_text(t@));
    crate::storage::utils::lemma_framed_content(t.kind(), enc);
    encode_utf8_valid_utf8(tag_text(t@));
    encode_utf8_decode_utf8(tag_text(t@));
    lemma_tag_roundtrip(t@);
}

} // verus!
