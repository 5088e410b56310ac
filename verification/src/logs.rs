//! Log lines and compose files, as the panels show them.

use vstd::prelude::*;
use vstd::string::*;

use crate::{num, text};

verus! {

/// How many log lines the logs panel shows.
pub const LOG_TAIL_LINES: u32 = 200;

// ---------------------------------------------------------------------------
// Escape sequences
// ---------------------------------------------------------------------------

/// The escape character.
pub open spec fn is_esc(c: char) -> bool {
    c == '\u{1b}'
}

/// The predicate "does not end a control sequence".
pub open spec fn in_sequence() -> spec_fn(char) -> bool {
    |c: char| !('\u{40}' <= c <= '\u{7e}')
}

/// `s` without escape sequences: an escape character and a bracket are dropped
/// with all up to and with the final character; an escape character alone is
/// dropped, and what follows it stays.
pub open spec fn plain(s: Seq<char>) -> Seq<char>
    decreases s.len(),
{
    if s.len() == 0 {
        Seq::empty()
    } else if is_esc(s[0]) {
        if s.len() > 1 && s[1] == '[' {
            let k = text::lead(s.skip(2), in_sequence());
            if 0 <= k < s.len() - 2 {
                plain(s.skip(3 + k))
            } else {
                Seq::empty()
            }
        } else {
            plain(s.skip(1))
        }
    } else {
        seq![s[0]] + plain(s.skip(1))
    }
}

/// Strip escape sequences, so that logs show as plain text.
pub fn strip_ansi(input: &str) -> (r: String)
    ensures
        r@ == plain(input@),
{
    let v = text::chars_of(input);
    let ghost s = input@;
    let mut out = String::new();
    let mut i: usize = 0;
    proof {
        assert(s.skip(0) =~= s);
        assert(out@ + plain(s.skip(0)) =~= plain(s));
    }
    while i < v.len()
        invariant
            i <= v.len(),
            v@ == s,
            s == input@,
            out@ + plain(s.skip(i as int)) == plain(s),
        decreases v.len() - i,
    {
        let ghost t = s.skip(i as int);
        let ghost before = out@;
        proof {
            assert(t[0] == v[i as int]);
            assert(t.skip(1) =~= s.skip(i + 1));
        }
        if v[i] != '\u{1b}' {
            out.push(v[i]);
            proof {
                assert(before + plain(t) =~= out@ + plain(s.skip(i + 1)));
            }
            i += 1;
        } else if v.len() - i > 1 && v[i + 1] == '[' {
            let mut k: usize = i + 2;
            let ghost u = s.skip(i + 2);
            proof {
                assert(t.skip(2) =~= u);
                assert(t[1] == v[i + 1]);
            }
            while k < v.len() && !('\u{40}' <= v[k] && v[k] <= '\u{7e}')
                invariant
                    i + 2 <= k <= v.len(),
                    v@ == s,
                    u == s.skip(i + 2),
                    forall|j: int| 0 <= j < k - i - 2 ==> in_sequence()(#[trigger] u[j]),
                decreases v.len() - k,
            {
                proof {
                    assert(u[k - i - 2] == v[k as int]);
                }
                k += 1;
            }
            proof {
                if k < v.len() {
                    assert(u[k - i - 2] == v[k as int]);
                }
                text::lemma_lead_is(u, in_sequence(), k - i - 2);
                if k < v.len() {
                    assert(t.skip(3 + (k - i - 2)) =~= s.skip(k + 1));
                } else {
                    assert(s.skip(k as int) =~= Seq::<char>::empty());
                }
            }
            if k < v.len() {
                i = k + 1;
            } else {
                i = k;
            }
        } else {
            proof {
                if t.len() > 1 {
                    assert(t[1] == v[i + 1]);
                }
            }
            i += 1;
        }
    }
    proof {
        assert(s.skip(v.len() as int) =~= Seq::<char>::empty());
        assert(out@ + plain(Seq::empty()) =~= out@);
    }
    out
}

/// What is left holds no escape character.
pub proof fn law_stripped_text_has_no_escapes(s: Seq<char>)
    ensures
        !plain(s).contains('\u{1b}'),
    decreases s.len(),
{
    if s.len() > 0 {
        if is_esc(s[0]) {
            if s.len() > 1 && s[1] == '[' {
                let k = text::lead(s.skip(2), in_sequence());
                if 0 <= k < s.len() - 2 {
                    law_stripped_text_has_no_escapes(s.skip(3 + k));
                }
            } else {
                law_stripped_text_has_no_escapes(s.skip(1));
            }
        } else {
            let rest = plain(s.skip(1));
            law_stripped_text_has_no_escapes(s.skip(1));
            let all = seq![s[0]] + rest;
            if all.contains('\u{1b}') {
                let i = choose|i: int| 0 <= i < all.len() && all[i] == '\u{1b}';
                if i > 0 {
                    assert(rest[i - 1] == '\u{1b}');
                }
            }
        }
    }
}

/// Text without escape characters is left as it is.
pub proof fn law_plain_text_is_untouched(s: Seq<char>)
    requires
        !s.contains('\u{1b}'),
    ensures
        plain(s) == s,
    decreases s.len(),
{
    if s.len() > 0 {
        assert(s.contains(s[0]));
        let t = s.skip(1);
        assert(!t.contains('\u{1b}')) by {
            if t.contains('\u{1b}') {
                let i = choose|i: int| 0 <= i < t.len() && t[i] == '\u{1b}';
                assert(s[i + 1] == '\u{1b}');
            }
        }
        law_plain_text_is_untouched(t);
        assert(seq![s[0]] + t =~= s);
    } else {
        assert(plain(s) =~= s);
    }
}

// ---------------------------------------------------------------------------
// Lines and their time stamps
// ---------------------------------------------------------------------------

/// A line without the carriage return of its ending.
pub open spec fn without_return(s: Seq<char>) -> Seq<char> {
    if s.len() > 0 && s.last() == '\r' {
        s.drop_last()
    } else {
        s
    }
}

/// The lines of a text. A line ends with a line feed, or with a carriage return
/// and a line feed; the ending of the last one is optional.
pub open spec fn lines_of(s: Seq<char>) -> Seq<Seq<char>>
    decreases s.len(),
{
    if s.len() == 0 {
        Seq::empty()
    } else {
        match text::cut_first(s, '\n') {
            Some((line, rest)) => if rest.len() < s.len() {
                seq![without_return(line)] + lines_of(rest)
            } else {
                Seq::empty()
            },
            None => seq![s],
        }
    }
}

/// Whether a character fits its place in a time stamp.
pub open spec fn fits_stamp(c: char, i: int) -> bool {
    if i == 4 || i == 7 {
        c == '-'
    } else if i == 10 {
        c == 'T'
    } else if i == 13 || i == 16 {
        c == ':'
    } else {
        num::is_digit(c)
    }
}

/// Whether a word is a time stamp in UTC: date and time to the second, anything
/// after that, and a `Z` at the end.
pub open spec fn is_stamp(ts: Seq<char>) -> bool {
    &&& ts.len() >= 20
    &&& ts.last() == 'Z'
    &&& forall|i: int| 0 <= i < 19 ==> fits_stamp(#[trigger] ts[i], i)
}

/// The time stamp and the message of a log line.
pub open spec fn stamped(line: Seq<char>) -> Option<(Seq<char>, Seq<char>)> {
    match text::cut_first(line, ' ') {
        Some((ts, msg)) => if is_stamp(ts) {
            Some((ts, msg))
        } else {
            None
        },
        None => None,
    }
}

fn stamp_test(ts: &str) -> (r: bool)
    ensures
        r == is_stamp(ts@),
{
    let v = text::chars_of(ts);
    if v.len() < 20 || v[v.len() - 1] != 'Z' {
        return false;
    }
    let mut i: usize = 0;
    while i < 19
        invariant
            i <= 19,
            v.len() >= 20,
            v@ == ts@,
            forall|j: int| 0 <= j < i ==> fits_stamp(#[trigger] ts@[j], j),
        decreases 19 - i,
    {
        let c = v[i];
        let ok: bool = if i == 4 || i == 7 {
            c == '-'
        } else if i == 10 {
            c == 'T'
        } else if i == 13 || i == 16 {
            c == ':'
        } else {
            num::digit_test(c)
        };
        if !ok {
            proof {
                assert(!fits_stamp(ts@[i as int], i as int));
            }
            return false;
        }
        i += 1;
    }
    true
}

/// Split a log line into the engine's time stamp and the message; `None` when
/// the line does not start with a time stamp.
pub fn split_log_timestamp(line: &str) -> (r: Option<(&str, &str)>)
    ensures
        match r {
            Some((ts, msg)) => stamped(line@) == Some((ts@, msg@)),
            None => stamped(line@) is None,
        },
{
    match text::split_once(line, ' ') {
        Some((ts, msg)) => if stamp_test(ts) {
            Some((ts, msg))
        } else {
            None
        },
        None => None,
    }
}

/// A log line as the panel shows it.
#[derive(Debug)]
pub struct LogLine {
    /// The time stamp to the second, for the page to show in local time, and
    /// the text to show until then.
    pub stamp: Option<(String, String)>,
    pub message: String,
}

/// The time stamp to the second.
pub open spec fn stamp_secs(ts: Seq<char>) -> Seq<char> {
    ts.take(19).push('Z')
}

/// The time stamp as text: date and time with a space between.
pub open spec fn stamp_text(ts: Seq<char>) -> Seq<char> {
    ts.take(19).update(10, ' ')
}

/// Whether `l` is what the panel shows for a line.
pub open spec fn shows_line(l: LogLine, line: Seq<char>) -> bool {
    match stamped(line) {
        Some((ts, msg)) => {
            &&& l.stamp matches Some((secs, shown)) && secs@ == stamp_secs(ts) && shown@
                == stamp_text(ts)
            &&& l.message@ == msg
        },
        None => l.stamp is None && l.message@ == line,
    }
}

fn log_line(line: &str) -> (r: LogLine)
    ensures
        shows_line(r, line@),
{
    match split_log_timestamp(line) {
        Some((ts, msg)) => {
            proof {
                assert(ts@.subrange(0, 19) =~= ts@.take(19));
                assert(ts@.subrange(0, 10) + " "@ + ts@.subrange(11, 19) =~= stamp_text(ts@)) by {
                    reveal_strlit(" ");
                }
            }
            let mut secs = ts.substring_char(0, 19).to_owned();
            secs.push('Z');
            let mut shown = ts.substring_char(0, 10).to_owned();
            shown.append(" ");
            shown.append(ts.substring_char(11, 19));
            LogLine { stamp: Some((secs, shown)), message: msg.to_owned() }
        },
        None => LogLine { stamp: None, message: line.to_owned() },
    }
}

/// The lines of a log as the panel shows them.
pub fn render_log_lines(log: &str) -> (r: Vec<LogLine>)
    ensures
        r.len() == lines_of(log@).len(),
        forall|i: int| 0 <= i < r.len() ==> shows_line(#[trigger] r[i], lines_of(log@)[i]),
{
    let mut out: Vec<LogLine> = Vec::new();
    let mut rest = log;
    let ghost all = lines_of(log@);
    loop
        invariant
            all == lines_of(log@),
            out.len() + lines_of(rest@).len() == all.len(),
            lines_of(rest@) == all.skip(out.len() as int),
            forall|i: int| 0 <= i < out.len() ==> shows_line(#[trigger] out[i], all[i]),
        decreases rest@.len(),
    {
        if rest.is_empty() {
            return out;
        }
        proof {
            text::lemma_lead(rest@, text::not_char('\n'));
        }
        match text::split_once(rest, '\n') {
            Some((raw, after)) => {
                let n: usize = raw.unicode_len();
                let line = if n > 0 && raw.get_char(n - 1) == '\r' {
                    proof {
                        assert(raw@.subrange(0, n - 1) =~= raw@.drop_last());
                    }
                    raw.substring_char(0, n - 1)
                } else {
                    raw
                };
                proof {
                    assert(line@ == without_return(raw@));
                    assert(lines_of(rest@) == seq![line@] + lines_of(after@));
                    assert(lines_of(rest@)[0] == line@);
                    assert(all[out.len() as int] == lines_of(rest@)[0]);
                    assert((seq![line@] + lines_of(after@)).skip(1) =~= lines_of(after@));
                    assert(all.skip(out.len() as int).skip(1) =~= all.skip(out.len() as int + 1));
                }
                out.push(log_line(line));
                rest = after;
            },
            None => {
                proof {
                    assert(lines_of(rest@) == seq![rest@]);
                    assert(lines_of(rest@)[0] == rest@);
                    assert(all[out.len() as int] == lines_of(rest@)[0]);
                }
                out.push(log_line(rest));
                return out;
            },
        }
    }
}

/// The panel's lines for a log as the engine sent it, without escape sequences;
/// `None` when there is nothing but white space.
pub fn log_view(log: &str) -> (r: Option<Vec<LogLine>>)
    ensures
        match r {
            None => text::trimmed(log@).len() == 0,
            Some(lines) => {
                &&& text::trimmed(log@).len() > 0
                &&& lines.len() == lines_of(plain(log@)).len()
                &&& forall|i: int|
                    0 <= i < lines.len() ==> shows_line(
                        #[trigger] lines[i],
                        lines_of(plain(log@))[i],
                    )
            },
        },
{
    if text::trim(log).is_empty() {
        None
    } else {
        Some(render_log_lines(strip_ansi(log).as_str()))
    }
}

// ---------------------------------------------------------------------------
// Compose files
// ---------------------------------------------------------------------------

/// A path without the slashes and single dots at its end, which name nothing.
pub open spec fn without_tail(path: Seq<char>) -> Seq<char>
    decreases path.len(),
{
    if path.len() == 0 {
        path
    } else if path.last() == '/' {
        without_tail(path.drop_last())
    } else if path.last() == '.' && (path.len() == 1 || path[path.len() - 2] == '/') {
        without_tail(path.drop_last())
    } else {
        path
    }
}

/// The extension of the file that a path names: what follows the last dot of its
/// name. A name whose only dot comes first has none, and neither has a path that
/// ends in two dots.
pub open spec fn extension_of(path: Seq<char>) -> Option<Seq<char>> {
    let name = text::after_last(without_tail(path), '/');
    if name == ".."@ {
        None
    } else {
        match text::cut_last(name, '.') {
            Some((stem, ext)) => if stem.len() == 0 {
                None
            } else {
                Some(ext)
            },
            None => None,
        }
    }
}

/// Whether a path names a YAML file.
pub open spec fn names_yaml(path: Seq<char>) -> bool {
    match extension_of(path) {
        Some(e) => text::same_ignoring_case(e, "yml"@) || text::same_ignoring_case(e, "yaml"@),
        None => false,
    }
}

/// Whether a path names a YAML file. Only such files are read, since the paths
/// come from labels that anyone who starts a container can write.
pub fn is_yaml_path(path: &str) -> (r: bool)
    ensures
        r == names_yaml(path@),
{
    let v = text::chars_of(path);
    let mut n: usize = v.len();
    proof {
        assert(path@.take(n as int) =~= path@);
    }
    loop
        invariant
            n <= v.len(),
            v@ == path@,
            without_tail(path@) == without_tail(path@.take(n as int)),
        ensures
            n <= v.len(),
            without_tail(path@) == path@.take(n as int),
        decreases n,
    {
        let ghost t = path@.take(n as int);
        if n == 0 {
            break ;
        }
        proof {
            assert(t.last() == v[n - 1]);
            assert(t.drop_last() =~= path@.take(n - 1));
            if n > 1 {
                assert(t[n - 2] == v[n - 2]);
            }
        }
        if v[n - 1] == '/' || (v[n - 1] == '.' && (n == 1 || v[n - 2] == '/')) {
            n -= 1;
        } else {
            break ;
        }
    }
    proof {
        assert(path@.subrange(0, n as int) =~= path@.take(n as int));
    }
    let name = text::behind(path.substring_char(0, n), '/');
    if text::same(name, "..") {
        return false;
    }
    match text::rsplit_once(name, '.') {
        Some((stem, ext)) => !stem.is_empty() && (text::eq_ignore_case(ext, "yml")
            || text::eq_ignore_case(ext, "yaml")),
        None => false,
    }
}

/// What is shown in place of a file that is not read.
pub const NOT_YAML_TEXT: &'static str = "(refusing to read a non-YAML path)";

/// A file whose name does not end in one of the two extensions is never read.
pub proof fn law_only_yaml_is_read(path: Seq<char>)
    requires
        names_yaml(path),
    ensures
        ({
            let name = text::after_last(without_tail(path), '/');
            &&& text::cut_last(name, '.') matches Some((stem, ext)) && stem.len() > 0 && (
            text::lowered(ext) == text::lowered("yml"@) || text::lowered(ext) == text::lowered(
                "yaml"@,
            ))
        }),
{
}

// ---------------------------------------------------------------------------
// Laws
// ---------------------------------------------------------------------------

/// Text before an escape stays, a whole control sequence goes, and the rest is
/// treated likewise; a sequence that does not end takes the rest with it; an
/// escape character that starts no sequence goes alone.
pub proof fn law_sequences_are_cut_out(
    text: Seq<char>,
    params: Seq<char>,
    last: char,
    rest: Seq<char>,
)
    requires
        !text.contains('\u{1b}'),
        forall|i: int|
            0 <= i < params.len() ==> (#[trigger] params[i] < '\u{40}' || params[i] > '\u{7e}'),
        '\u{40}' <= last,
        last <= '\u{7e}',
    ensures
        plain(text + (seq!['\u{1b}', '['] + (params.push(last) + rest))) == text + plain(rest),
        plain(text + (seq!['\u{1b}', '['] + params)) == text,
        rest.len() == 0 || rest[0] != '[' ==> plain(text + (seq!['\u{1b}'] + rest)) == text
            + plain(rest),
{
    let tail = params.push(last) + rest;
    let whole = seq!['\u{1b}', '['] + tail;
    assert(whole.skip(2) =~= tail);
    assert forall|j: int| 0 <= j < params.len() implies in_sequence()(#[trigger] tail[j]) by {
        assert(tail[j] == params[j]);
    }
    assert(tail[params.len() as int] == last);
    text::lemma_lead_is(tail, in_sequence(), params.len() as int);
    assert(whole.skip(3 + params.len() as int) =~= rest);
    lemma_plain_front(text, whole);
    let open = seq!['\u{1b}', '['] + params;
    assert(open.skip(2) =~= params);
    assert forall|j: int| 0 <= j < params.len() implies in_sequence()(#[trigger] params[j]) by {}
    text::lemma_lead_is(params, in_sequence(), params.len() as int);
    lemma_plain_front(text, open);
    assert(text + Seq::<char>::empty() =~= text);
    let bare = seq!['\u{1b}'] + rest;
    if rest.len() > 0 {
        assert(bare[1] == rest[0]);
    }
    assert(bare.skip(1) =~= rest);
    lemma_plain_front(text, bare);
}

/// Text without escape characters in front is left as it is.
proof fn lemma_plain_front(text: Seq<char>, rest: Seq<char>)
    requires
        !text.contains('\u{1b}'),
    ensures
        plain(text + rest) == text + plain(rest),
    decreases text.len(),
{
    if text.len() == 0 {
        assert(text + rest =~= rest);
        assert(text + plain(rest) =~= plain(rest));
    } else {
        let t = text.skip(1);
        assert(text.contains(text[0]));
        assert(!t.contains('\u{1b}')) by {
            if t.contains('\u{1b}') {
                let i = choose|i: int| 0 <= i < t.len() && t[i] == '\u{1b}';
                assert(text[i + 1] == '\u{1b}');
            }
        }
        lemma_plain_front(t, rest);
        assert((text + rest).skip(1) =~= t + rest);
        assert((text + rest)[0] == text[0]);
        assert(seq![text[0]] + (t + plain(rest)) =~= text + plain(rest));
    }
}

/// The lines of a text are what stands before its first line feed, without the
/// carriage return that may come before that, and the lines of what follows it;
/// text without a line feed is a line, unless it is empty.
pub proof fn law_lines_end_at_line_feeds(line: Seq<char>, rest: Seq<char>)
    requires
        !line.contains('\n'),
    ensures
        (line.len() == 0 || line.last() != '\r') ==> lines_of(line.push('\n') + rest) == seq![line]
            + lines_of(rest),
        lines_of(line.push('\r').push('\n') + rest) == seq![line] + lines_of(rest),
        line.len() > 0 ==> lines_of(line) == seq![line],
        lines_of(Seq::empty()) == Seq::<Seq<char>>::empty(),
{
    text::lemma_cut_first_at(line, '\n', rest);
    let returned = line.push('\r');
    assert(!returned.contains('\n')) by {
        if returned.contains('\n') {
            let i = choose|i: int| 0 <= i < returned.len() && returned[i] == '\n';
            assert(line[i] == '\n');
        }
    }
    text::lemma_cut_first_at(returned, '\n', rest);
    assert(returned.drop_last() =~= line);
    text::law_cuts_split_at_the_character(line, '\n');
    if let Some((a, b)) = text::cut_first(line, '\n') {
        assert((a.push('\n') + b)[a.len() as int] == '\n');
        assert(line.contains('\n'));
    }
}

/// A time stamp is a date, a `T`, a time to the second, and a `Z` at the end: four
/// digits, two and two with dashes between, then two, two and two with colons
/// between.
pub proof fn law_stamps_have_their_form(ts: Seq<char>)
    ensures
        is_stamp(ts) == (ts.len() >= 20 && ts.last() == 'Z' && ts[4] == '-' && ts[7] == '-'
            && ts[10] == 'T' && ts[13] == ':' && ts[16] == ':' && (forall|i: int|
            0 <= i < 19 && i != 4 && i != 7 && i != 10 && i != 13 && i != 16 ==> '0'
                <= #[trigger] ts[i] && ts[i] <= '9')),
{
    if ts.len() >= 20 && ts.last() == 'Z' && ts[4] == '-' && ts[7] == '-' && ts[10] == 'T' && ts[13]
        == ':' && ts[16] == ':' && (forall|i: int|
        0 <= i < 19 && i != 4 && i != 7 && i != 10 && i != 13 && i != 16 ==> '0' <= #[trigger] ts[i]
            && ts[i] <= '9') {
        assert forall|i: int| 0 <= i < 19 implies fits_stamp(#[trigger] ts[i], i) by {}
    }
    if is_stamp(ts) {
        assert(fits_stamp(ts[4], 4));
        assert(fits_stamp(ts[7], 7));
        assert(fits_stamp(ts[10], 10));
        assert(fits_stamp(ts[13], 13));
        assert(fits_stamp(ts[16], 16));
        assert forall|i: int|
            0 <= i < 19 && i != 4 && i != 7 && i != 10 && i != 13 && i != 16 implies '0'
            <= #[trigger] ts[i] && ts[i] <= '9' by {
            assert(fits_stamp(ts[i], i));
        }
    }
}

/// A line that starts with a time stamp is shown as the stamp to the second and
/// the message behind it; any other is shown whole.
pub proof fn law_stamps_are_set_apart(l: LogLine, ts: Seq<char>, msg: Seq<char>, line: Seq<char>)
    requires
        !ts.contains(' '),
    ensures
        is_stamp(ts) && shows_line(l, ts.push(' ') + msg) ==> l.message@ == msg && (
        l.stamp matches Some((secs, shown)) && secs@ == ts.take(19).push('Z') && shown@ == ts.take(
            10,
        ).push(' ') + ts.subrange(11, 19)),
        !is_stamp(ts) && shows_line(l, ts.push(' ') + msg) ==> l.message@ == ts.push(' ') + msg
            && l.stamp is None,
        !line.contains(' ') && shows_line(l, line) ==> l.message@ == line && l.stamp is None,
{
    text::lemma_cut_first_at(ts, ' ', msg);
    text::law_cuts_split_at_the_character(line, ' ');
    if let Some((a, b)) = text::cut_first(line, ' ') {
        assert((a.push(' ') + b)[a.len() as int] == ' ');
        assert(line.contains(' '));
    }
    if is_stamp(ts) {
        assert(ts.take(19).update(10, ' ') =~= ts.take(10).push(' ') + ts.subrange(11, 19));
    }
}

/// A file is read if its name has one of the two extensions, in any case, wherever
/// it lies.
pub proof fn law_yaml_files_are_read(dir: Seq<char>, stem: Seq<char>, ext: Seq<char>)
    requires
        stem.len() > 0,
        !stem.contains('/'),
        ext.len() > 0,
        !ext.contains('/'),
        !ext.contains('.'),
        text::lowered(ext) == text::lowered("yml"@) || text::lowered(ext) == text::lowered(
            "yaml"@,
        ),
    ensures
        names_yaml(stem.push('.') + ext),
        names_yaml(dir.push('/') + (stem.push('.') + ext)),
{
    let name = stem.push('.') + ext;
    let path = dir.push('/') + name;
    assert(ext.contains(ext.last()));
    assert(name.last() == ext.last());
    assert(path.last() == ext.last());
    assert(without_tail(name) == name);
    assert(without_tail(path) == path);
    assert(!name.contains('/')) by {
        if name.contains('/') {
            let i = choose|i: int| 0 <= i < name.len() && name[i] == '/';
            if i < stem.len() {
                assert(stem[i] == '/');
            } else if i > stem.len() {
                assert(ext[i - stem.len() - 1] == '/');
            }
        }
    }
    lemma_behind(Seq::empty(), '/', name);
    lemma_behind(dir, '/', name);
    lemma_cut_last_at(stem, '.', ext);
    reveal_strlit("..");
    if name == ".."@ {
        assert(ext.last() == '.');
    }
}

proof fn lemma_behind(a: Seq<char>, c: char, b: Seq<char>)
    requires
        !b.contains(c),
    ensures
        text::after_last(a.push(c) + b, c) == b,
        text::after_last(b, c) == b,
{
    lemma_cut_last_at(a, c, b);
    text::law_cuts_split_at_the_character(a.push(c) + b, c);
    text::law_cuts_split_at_the_character(b, c);
    if let Some((x, y)) = text::cut_last(b, c) {
        assert((x.push(c) + y)[x.len() as int] == c);
        assert(b.contains(c));
    }
}

proof fn lemma_cut_last_at(a: Seq<char>, c: char, b: Seq<char>)
    requires
        !b.contains(c),
    ensures
        text::cut_last(a.push(c) + b, c) == Some((a, b)),
{
    let s = a.push(c) + b;
    let n = a.len() as int + 1;
    assert forall|j: int| n <= j < s.len() implies text::not_char(c)(#[trigger] s[j]) by {
        assert(b[j - n] == s[j]);
        assert(b.contains(b[j - n]));
    }
    assert(s[n - 1] == c);
    text::lemma_trail_is(s, text::not_char(c), b.len() as int);
    assert(s.take(n - 1) =~= a);
    assert(s.skip(n) =~= b);
}

proof fn lemma_without_tail(path: Seq<char>)
    ensures
        without_tail(path).is_prefix_of(path),
        forall|i: int|
            without_tail(path).len() <= i < path.len() ==> (#[trigger] path[i] == '/' || path[i]
                == '.'),
    decreases path.len(),
{
    if path.len() > 0 && (path.last() == '/' || path.last() == '.' && (path.len() == 1
        || path[path.len() - 2] == '/')) {
        let head = path.drop_last();
        lemma_without_tail(head);
        assert forall|i: int| without_tail(path).len() <= i < path.len() implies (
        #[trigger] path[i] == '/' || path[i] == '.') by {
            if i < head.len() {
                assert(head[i] == path[i]);
            }
        }
    }
}

/// A file is read only if its path holds a dot and one of the two extensions, in
/// any case, with at most slashes and dots behind them.
pub proof fn law_other_files_are_not_read(path: Seq<char>)
    requires
        names_yaml(path),
    ensures
        exists|before: Seq<char>, ext: Seq<char>, tail: Seq<char>| #[trigger]
            (before.push('.') + ext + tail) == path && (text::lowered(ext) == text::lowered("yml"@)
                || text::lowered(ext) == text::lowered("yaml"@)) && (forall|i: int|
                0 <= i < tail.len() ==> (#[trigger] tail[i] == '/' || tail[i] == '.')),
{
    let cut = without_tail(path);
    lemma_without_tail(path);
    let name = text::after_last(cut, '/');
    text::law_cuts_split_at_the_character(cut, '/');
    text::law_cuts_split_at_the_character(name, '.');
    let (stem, ext) = text::cut_last(name, '.')->0;
    let tail = path.skip(cut.len() as int);
    let front = cut.take(cut.len() - name.len());
    assert(cut =~= front + name) by {
        if let Some((a, b)) = text::cut_last(cut, '/') {
            assert(front =~= a.push('/'));
        }
    }
    let before = front + stem;
    assert(name == stem.push('.') + ext);
    assert(cut =~= before.push('.') + ext);
    assert(path =~= cut + tail);
    assert(before.push('.') + ext + tail == path);
    assert forall|i: int| 0 <= i < tail.len() implies (#[trigger] tail[i] == '/' || tail[i]
        == '.') by {
        assert(tail[i] == path[cut.len() + i]);
    }
}

} // verus!
