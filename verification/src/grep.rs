//! Finding a pattern in a line and rendering the line with every match
//! highlighted in red, behind a right-aligned line number.

use vstd::prelude::*;
use vstd::utf8::*;
use colored::Colorize;

verus! {

#[verifier::external_type_specification]
#[verifier::external_body]
pub struct ExRegex(regex::Regex);

#[verifier::external_type_specification]
#[verifier::external_body]
pub struct ExRegexError(regex::Error);

/// The byte range of one match inside a line.
#[derive(Debug, Clone, Copy, PartialEq, Eq)]
pub struct MatchSpan {
    pub start: usize,
    pub end: usize,
}

/// Matches of a search in a line, as the regex engine reports them: each
/// within the line and on character boundaries, in order, none overlapping.
pub open spec fn spans_valid(bytes: Seq<u8>, spans: Seq<MatchSpan>) -> bool {
    &&& forall|i: int|
        0 <= i < spans.len() ==> {
            &&& (#[trigger] spans[i]).start <= spans[i].end <= bytes.len()
            &&& is_char_boundary(bytes, spans[i].start as int)
            &&& is_char_boundary(bytes, spans[i].end as int)
        }
    &&& forall|i: int, j: int| 0 <= i < j < spans.len() ==> (#[trigger] spans[i]).end <= (#[trigger] spans[j]).start
}

/// Whether `regex::Regex::new` accepts `pattern`.
pub uninterp spec fn regex_accepts(pattern: Seq<char>) -> bool;

/// Compiles `pattern` with `regex::Regex::new`.
///
/// Whether compilation succeeds depends on the pattern alone (with the
/// crate's default limits); that is what `regex_accepts` names.
#[verifier::external_body]
fn compile_regex(pattern: &str) -> (res: Result<regex::Regex, regex::Error>)
    ensures
        res is Ok <==> regex_accepts(pattern@),
{
    regex::Regex::new(pattern)
}

/// The message of a pattern error, from its `Display` impl; nothing is
/// stated of its text.
#[verifier::external_body]
fn regex_error_message(e: &regex::Error) -> String {
    e.to_string()
}

/// The byte ranges of the successive non-overlapping matches of `pattern`,
/// compiled by `regex::Regex::new`, in `haystack`, as
/// `regex::Regex::find_iter` yields them.
pub uninterp spec fn regex_spans(pattern: Seq<char>, haystack: Seq<char>) -> Seq<(usize, usize)>;

/// Compiles `pattern` with `regex::Regex::new` and, when it compiles, lists
/// the matches of `regex::Regex::find_iter` in `haystack` as byte ranges.
///
/// Compilation succeeds on the patterns `regex_accepts` names. The matches
/// are a function of the pattern and the haystack alone, named by
/// `regex_spans`. The crate documents that each match has `start <= end`,
/// that both offsets fall on UTF-8 boundaries of the haystack, and that the
/// matches come in order without overlapping.
#[verifier::external_body]
fn regex_compile_find(pattern: &str, haystack: &str) -> (res: Option<Vec<MatchSpan>>)
    ensures
        res is Some <==> regex_accepts(pattern@),
        res matches Some(s) ==> spans_valid(encode_utf8(haystack@), s@) && s@.map_values(
            |m: MatchSpan| (m.start, m.end),
        ) == regex_spans(pattern@, haystack@),
{
    match regex::Regex::new(pattern) {
        Ok(re) => Some(re.find_iter(haystack).map(|m| MatchSpan { start: m.start(), end: m.end() }).collect()),
        Err(_) => None,
    }
}

/// The matches of `pattern` in `haystack`, as spans.
pub open spec fn found_spans(pattern: Seq<char>, haystack: Seq<char>) -> Seq<MatchSpan> {
    regex_spans(pattern, haystack).map_values(|p: (usize, usize)| MatchSpan { start: p.0, end: p.1 })
}

/// The escape sequence that turns the foreground red.
pub open spec fn red_on() -> Seq<char> {
    seq!['\x1b', '[', '3', '1', 'm']
}

/// The escape sequence that resets all attributes.
pub open spec fn reset_all() -> Seq<char> {
    seq!['\x1b', '[', '0', 'm']
}

/// Whether `s` holds the reset sequence somewhere.
pub open spec fn holds_reset(s: Seq<char>) -> bool {
    exists|i: int| 0 <= i && i + 4 <= s.len() && #[trigger] s.subrange(i, i + 4) == reset_all()
}

/// What showing `word` in red may give. With colouring off throughout: the
/// word unchanged. Otherwise the output ends with the reset sequence; when the
/// word holds no reset sequence of its own it is the word between the red and
/// reset sequences, or, when the switch is turned off while the word is being
/// written, the word followed by the reset sequence.
pub open spec fn painted(word: Seq<char>, out: Seq<char>) -> bool {
    ||| out == word
    ||| {
        &&& out.len() >= 4
        &&& out.skip(out.len() - 4) == reset_all()
        &&& !holds_reset(word) ==> (out == red_on() + word + reset_all() || out == word + reset_all())
    }
}

/// `word` shown in red by `colored`: `format!("{}", word.red())`.
///
/// `colored` colours only when its process-wide switch, read from the
/// environment and from whether stdout is a terminal, or set by
/// `set_override`, says so; otherwise it prints the word unchanged. When
/// colouring, it writes the style (`ESC[31m`, or nothing if the switch has
/// been turned off since), the word (with that style re-inserted after any
/// reset sequence inside it), and `ESC[0m`. The switch is read several times
/// during one call; the contract states what holds whatever it says each
/// time.
#[verifier::external_body]
fn paint_red(word: &str) -> (out: String)
    ensures
        painted(word@, out@),
{
    format!("{}", word.red())
}

/// A byte index that is a character boundary of a valid UTF-8 sequence stays
/// one inside any slice between two boundaries, and that slice is valid.
pub proof fn lemma_boundary_in_slice(bytes: Seq<u8>, a: int, c: int, idx: int)
    requires
        valid_utf8(bytes),
        0 <= a <= idx <= c <= bytes.len(),
        is_char_boundary(bytes, a),
        is_char_boundary(bytes, c),
        is_char_boundary(bytes, idx),
    ensures
        valid_utf8(bytes.subrange(a, c)),
        is_char_boundary(bytes.subrange(a, c), idx - a),
{
    let suffix = bytes.subrange(a, bytes.len() as int);
    valid_utf8_split(bytes, a);
    if c < bytes.len() {
        is_char_boundary_iff_not_is_continuation_byte(bytes, c);
        is_char_boundary_iff_not_is_continuation_byte(suffix, c - a);
        assert(suffix[c - a] == bytes[c]);
    } else {
        is_char_boundary_start_end_of_seq(suffix);
    }
    valid_utf8_split(suffix, c - a);
    assert(suffix.subrange(0, c - a) =~= bytes.subrange(a, c));
    let sub = bytes.subrange(a, c);
    if idx < c {
        is_char_boundary_iff_not_is_continuation_byte(bytes, idx);
        is_char_boundary_iff_not_is_continuation_byte(sub, idx - a);
        assert(sub[idx - a] == bytes[idx]);
    } else {
        is_char_boundary_start_end_of_seq(sub);
    }
}

/// Decoding a slice between boundaries decodes its two parts around any
/// boundary inside it.
pub proof fn lemma_decode_slice_split(bytes: Seq<u8>, a: int, b: int, c: int)
    requires
        valid_utf8(bytes),
        0 <= a <= b <= c <= bytes.len(),
        is_char_boundary(bytes, a),
        is_char_boundary(bytes, b),
        is_char_boundary(bytes, c),
    ensures
        decode_utf8(bytes.subrange(a, c)) == decode_utf8(bytes.subrange(a, b)) + decode_utf8(
            bytes.subrange(b, c),
        ),
{
    lemma_boundary_in_slice(bytes, a, c, b);
    let sub = bytes.subrange(a, c);
    decode_utf8_split(sub, b - a);
    assert(sub.subrange(0, b - a) =~= bytes.subrange(a, b));
    assert(sub.subrange(b - a, sub.len() as int) =~= bytes.subrange(b, c));
}

/// Where the `i`-th stretch of unmatched text begins: at the start of the
/// line, or where the previous match ends.
pub open spec fn gap_start(spans: Seq<MatchSpan>, i: int) -> int {
    if i == 0 {
        0
    } else {
        spans[i - 1].end as int
    }
}

/// Where the `i`-th stretch of unmatched text ends: where the `i`-th match
/// begins, or at the end of the line after the last match.
pub open spec fn gap_end(bytes: Seq<u8>, spans: Seq<MatchSpan>, i: int) -> int {
    if i < spans.len() {
        spans[i].start as int
    } else {
        bytes.len() as int
    }
}

/// The `i`-th stretch of unmatched text.
pub open spec fn gap_text(bytes: Seq<u8>, spans: Seq<MatchSpan>, i: int) -> Seq<char> {
    decode_utf8(bytes.subrange(gap_start(spans, i), gap_end(bytes, spans, i)))
}

/// The text of the `i`-th match.
pub open spec fn match_text(bytes: Seq<u8>, spans: Seq<MatchSpan>, i: int) -> Seq<char> {
    decode_utf8(bytes.subrange(spans[i].start as int, spans[i].end as int))
}

/// The first `k` stretches of unmatched text, each followed by the shown
/// form `marks[j]` of the match after it.
pub open spec fn woven(bytes: Seq<u8>, spans: Seq<MatchSpan>, marks: Seq<Seq<char>>, k: int) -> Seq<char>
    decreases k,
{
    if k <= 0 {
        Seq::empty()
    } else {
        woven(bytes, spans, marks, k - 1) + gap_text(bytes, spans, k - 1) + marks[k - 1]
    }
}

/// The whole line with each match replaced by its shown form.
pub open spec fn body_text(bytes: Seq<u8>, spans: Seq<MatchSpan>, marks: Seq<Seq<char>>) -> Seq<char> {
    woven(bytes, spans, marks, spans.len() as int) + gap_text(bytes, spans, spans.len() as int)
}

/// `marks` holds, for every match, a form it may be shown in.
pub open spec fn marks_for(bytes: Seq<u8>, spans: Seq<MatchSpan>, marks: Seq<Seq<char>>) -> bool {
    &&& marks.len() == spans.len()
    &&& forall|i: int| 0 <= i < spans.len() ==> painted(match_text(bytes, spans, i), #[trigger] marks[i])
}

/// `woven` only reads the marks it weaves in.
proof fn lemma_woven_reads_prefix(
    bytes: Seq<u8>,
    spans: Seq<MatchSpan>,
    m1: Seq<Seq<char>>,
    m2: Seq<Seq<char>>,
    k: int,
)
    requires
        0 <= k <= m1.len(),
        k <= m2.len(),
        forall|j: int| 0 <= j < k ==> m1[j] == m2[j],
    ensures
        woven(bytes, spans, m1, k) == woven(bytes, spans, m2, k),
    decreases k,
{
    if k > 0 {
        lemma_woven_reads_prefix(bytes, spans, m1, m2, k - 1);
    }
}

/// Every gap boundary of valid spans is a character boundary, in order.
proof fn lemma_gap_bounds(bytes: Seq<u8>, spans: Seq<MatchSpan>, i: int)
    requires
        valid_utf8(bytes),
        spans_valid(bytes, spans),
        0 <= i <= spans.len(),
    ensures
        0 <= gap_start(spans, i) <= gap_end(bytes, spans, i) <= bytes.len(),
        is_char_boundary(bytes, gap_start(spans, i)),
        is_char_boundary(bytes, gap_end(bytes, spans, i)),
        is_char_boundary(bytes, bytes.len() as int),
{
    is_char_boundary_start_end_of_seq(bytes);
    if i > 0 {
        assert(spans[i - 1].start <= spans[i - 1].end);
    }
    if i < spans.len() {
        assert(spans[i].start <= spans[i].end);
        if i > 0 {
            assert(spans[i - 1].end <= spans[i].start);
        }
    }
}

/// The line `content` with every match of `spans` shown as `paint_red`
/// shows it, and the text between matches kept as it is.
pub fn highlight(content: &str, spans: &[MatchSpan]) -> (body: String)
    requires
        spans_valid(encode_utf8(content@), spans@),
    ensures
        exists|marks: Seq<Seq<char>>|
            marks_for(encode_utf8(content@), spans@, marks) && body@ == body_text(
                encode_utf8(content@),
                spans@,
                marks,
            ),
{
    let ghost bytes = encode_utf8(content@);
    proof {
        encode_utf8_valid_utf8(content@);
        assert(bytes.subrange(0, bytes.len() as int) =~= bytes);
    }
    let mut body = String::new();
    let mut rest: &str = content;
    let mut offset: usize = 0;
    let ghost mut marks: Seq<Seq<char>> = Seq::empty();
    let mut i: usize = 0;
    while i < spans.len()
        invariant
            bytes == encode_utf8(content@),
            valid_utf8(bytes),
            spans_valid(bytes, spans@),
            i <= spans@.len(),
            offset == gap_start(spans@, i as int),
            encode_utf8(rest@) == bytes.subrange(offset as int, bytes.len() as int),
            marks.len() == i,
            forall|j: int| 0 <= j < i ==> painted(match_text(bytes, spans@, j), #[trigger] marks[j]),
            body@ == woven(bytes, spans@, marks, i as int),
        decreases spans@.len() - i,
    {
        let span = spans[i];
        proof {
            lemma_gap_bounds(bytes, spans@, i as int);
            lemma_boundary_in_slice(bytes, offset as int, bytes.len() as int, span.start as int);
            lemma_boundary_in_slice(bytes, span.start as int, bytes.len() as int, span.end as int);
        }
        let (gap, tail) = rest.split_at(span.start - offset);
        proof {
            assert(encode_utf8(gap@) =~= bytes.subrange(offset as int, span.start as int));
            assert(encode_utf8(tail@) =~= bytes.subrange(span.start as int, bytes.len() as int));
            encode_utf8_decode_utf8(gap@);
        }
        let (word, after) = tail.split_at(span.end - span.start);
        proof {
            assert(encode_utf8(word@) =~= bytes.subrange(span.start as int, span.end as int));
            assert(encode_utf8(after@) =~= bytes.subrange(span.end as int, bytes.len() as int));
            encode_utf8_decode_utf8(word@);
        }
        body.append(gap);
        let mark = paint_red(word);
        body.append(mark.as_str());
        proof {
            let next = marks.push(mark@);
            lemma_woven_reads_prefix(bytes, spans@, marks, next, i as int);
            assert(next[i as int] == mark@);
            marks = next;
        }
        rest = after;
        offset = span.end;
        i = i + 1;
    }
    proof {
        lemma_gap_bounds(bytes, spans@, i as int);
        encode_utf8_decode_utf8(rest@);
        assert(marks_for(bytes, spans@, marks));
    }
    body.append(rest);
    body
}

/// With every match shown as plain text, the rendered line is the line
/// itself.
pub proof fn lemma_plain_marks_give_line(bytes: Seq<u8>, spans: Seq<MatchSpan>)
    requires
        valid_utf8(bytes),
        spans_valid(bytes, spans),
    ensures
        marks_for(bytes, spans, Seq::new(spans.len(), |i: int| match_text(bytes, spans, i))),
        body_text(bytes, spans, Seq::new(spans.len(), |i: int| match_text(bytes, spans, i)))
            == decode_utf8(bytes),
{
    let plain = Seq::new(spans.len(), |i: int| match_text(bytes, spans, i));
    lemma_woven_plain(bytes, spans, plain, spans.len() as int);
    let n = spans.len() as int;
    lemma_gap_bounds(bytes, spans, n);
    lemma_decode_slice_split(bytes, 0, gap_start(spans, n), bytes.len() as int);
    assert(bytes.subrange(0, bytes.len() as int) =~= bytes);
}

/// Whatever painted forms were chosen, when none of them is coloured (each is
/// the match text itself) the rendered text is the line itself: every byte
/// once and in order.
pub proof fn lemma_uncoloured_body_is_line(bytes: Seq<u8>, spans: Seq<MatchSpan>, marks: Seq<Seq<char>>)
    requires
        valid_utf8(bytes),
        spans_valid(bytes, spans),
        marks_for(bytes, spans, marks),
        forall|i: int| 0 <= i < spans.len() ==> #[trigger] marks[i] == match_text(bytes, spans, i),
    ensures
        body_text(bytes, spans, marks) == decode_utf8(bytes),
{
    lemma_plain_marks_give_line(bytes, spans);
    assert(marks =~= Seq::new(spans.len(), |i: int| match_text(bytes, spans, i)));
}

/// The first `k` gaps and plain matches spell the line up to where the
/// `k`-th gap begins.
proof fn lemma_woven_plain(bytes: Seq<u8>, spans: Seq<MatchSpan>, plain: Seq<Seq<char>>, k: int)
    requires
        valid_utf8(bytes),
        spans_valid(bytes, spans),
        0 <= k <= spans.len(),
        plain == Seq::new(spans.len(), |i: int| match_text(bytes, spans, i)),
    ensures
        woven(bytes, spans, plain, k) == decode_utf8(bytes.subrange(0, gap_start(spans, k))),
    decreases k,
{
    is_char_boundary_start_end_of_seq(bytes);
    if k == 0 {
        assert(bytes.subrange(0, 0) =~= Seq::<u8>::empty());
        assert(decode_utf8(Seq::<u8>::empty()) =~= Seq::<char>::empty());
    } else {
        lemma_woven_plain(bytes, spans, plain, k - 1);
        lemma_gap_bounds(bytes, spans, k - 1);
        let a = gap_start(spans, k - 1);
        let b = spans[k - 1].start as int;
        let c = spans[k - 1].end as int;
        lemma_decode_slice_split(bytes, 0, a, b);
        lemma_decode_slice_split(bytes, 0, b, c);
    }
}

/// The decimal digit `d`.
pub open spec fn digit_char(d: nat) -> char {
    seq!['0', '1', '2', '3', '4', '5', '6', '7', '8', '9'][d as int]
}

/// The decimal numeral of `n`, without leading zeros.
pub open spec fn decimal(n: nat) -> Seq<char>
    decreases n,
{
    if n < 10 {
        seq![digit_char(n)]
    } else {
        decimal(n / 10).push(digit_char(n % 10))
    }
}

/// The number a decimal numeral denotes.
pub open spec fn numeral_value(s: Seq<char>) -> int
    decreases s.len(),
{
    if s.len() == 0 {
        0
    } else {
        numeral_value(s.drop_last()) * 10 + (s.last() as int - '0' as int)
    }
}

/// The numeral of `n` denotes `n`, has no leading zero, and has at most ten
/// digits when `n` fits in a `u32`.
pub proof fn lemma_decimal_denotes(n: nat)
    ensures
        numeral_value(decimal(n)) == n,
        decimal(n).len() >= 1,
        n >= 10 ==> decimal(n).len() >= 2,
        decimal(n).len() > 1 ==> decimal(n)[0] != '0',
        n <= u32::MAX ==> decimal(n).len() <= 10,
    decreases n,
{
    let s = decimal(n);
    if n < 10 {
        lemma_digit_char_code(n);
        assert(s.len() == 1);
        assert(s.drop_last() =~= Seq::<char>::empty());
        assert(numeral_value(s) == numeral_value(s.drop_last()) * 10 + (s.last() as int - '0' as int));
    } else {
        let m = n / 10;
        lemma_digit_char_code(n % 10);
        lemma_digit_char_code(m % 10);
        lemma_decimal_denotes(m);
        assert(s == decimal(m).push(digit_char(n % 10)));
        assert(s.drop_last() =~= decimal(m));
        assert(s.last() == digit_char(n % 10));
        assert(numeral_value(s) == numeral_value(decimal(m)) * 10 + (n % 10));
        assert(m * 10 + n % 10 == n);
        assert(s[0] == decimal(m)[0]);
        if decimal(m).len() == 1 {
            assert(m < 10);
            assert(decimal(m)[0] == digit_char(m));
            assert(m % 10 == m);
        }
        if n <= u32::MAX {
            lemma_decimal_len_bound(n);
        }
    }
}

/// The code of digit `d` is that of `'0'` plus `d`.
proof fn lemma_digit_char_code(d: nat)
    requires
        d < 10,
    ensures
        digit_char(d) as int == '0' as int + d,
{
    assert(d == 0 || d == 1 || d == 2 || d == 3 || d == 4 || d == 5 || d == 6 || d == 7 || d == 8
        || d == 9);
}

/// A number below `10^k` has at most `k` digits.
proof fn lemma_decimal_len_bound(n: nat)
    requires
        n <= u32::MAX,
    ensures
        decimal(n).len() <= 10,
{
    assert(decimal(n).len() <= 10) by {
        reveal_with_fuel(decimal, 11);
    }
}

/// `k` spaces.
pub open spec fn spaces(k: nat) -> Seq<char> {
    Seq::new(k, |i: int| ' ')
}

/// `s` right-aligned in a field of `width` characters.
pub open spec fn pad_left(s: Seq<char>, width: nat) -> Seq<char> {
    if s.len() >= width {
        s
    } else {
        spaces((width - s.len()) as nat) + s
    }
}

/// `s` left-aligned in a field of `width` characters.
pub open spec fn pad_right(s: Seq<char>, width: nat) -> Seq<char> {
    if s.len() >= width {
        s
    } else {
        s + spaces((width - s.len()) as nat)
    }
}

/// The printed form of line `n` with text `body`: the number right-aligned in
/// six columns, a colon and a space, then the text left-aligned in three.
pub open spec fn line_layout(n: u32, body: Seq<char>) -> Seq<char> {
    pad_left(decimal(n as nat), 6) + seq![':', ' '] + pad_right(body, 3)
}

/// The columns of a laid-out line: the numeral of `n` ends in column six (or
/// fills the front when it is longer), spaces before it; then `": "`; then
/// the text, with spaces after it up to three characters.
pub proof fn lemma_layout_columns(n: u32, body: Seq<char>)
    ensures
        ({
            let out = line_layout(n, body);
            let num = decimal(n as nat);
            let w = if num.len() >= 6 { num.len() as int } else { 6 };
            let t = if body.len() >= 3 { body.len() as int } else { 3 };
            &&& out.len() == w + 2 + t
            &&& forall|i: int| 0 <= i < w - num.len() ==> out[i] == ' '
            &&& out.subrange(w - num.len(), w) == num
            &&& out[w] == ':'
            &&& out[w + 1] == ' '
            &&& out.subrange(w + 2, w + 2 + body.len()) == body
            &&& forall|i: int| w + 2 + body.len() <= i < out.len() ==> out[i] == ' '
        }),
{
    let out = line_layout(n, body);
    let num = decimal(n as nat);
    let w = if num.len() >= 6 { num.len() as int } else { 6 };
    let left = pad_left(num, 6);
    let right = pad_right(body, 3);
    assert(left.len() == w);
    assert(out == left + seq![':', ' '] + right);
    assert(out.subrange(w - num.len(), w) =~= left.subrange(w - num.len(), w));
    assert(left.subrange(w - num.len(), w) =~= num);
    assert(out.subrange(w + 2, w + 2 + body.len()) =~= right.subrange(0, body.len() as int));
    assert(right.subrange(0, body.len() as int) =~= body);
    assert forall|i: int| 0 <= i < w - num.len() implies out[i] == ' ' by {
        assert(out[i] == left[i]);
    }
    assert forall|i: int| w + 2 + body.len() <= i < out.len() implies out[i] == ' ' by {
        assert(out[i] == right[i - w - 2]);
    }
}

/// The digit `d` as text.
fn digit_str(d: u32) -> (s: &'static str)
    requires
        d < 10,
    ensures
        s@ == seq![digit_char(d as nat)],
{
    proof {
        reveal_strlit("0");
        reveal_strlit("1");
        reveal_strlit("2");
        reveal_strlit("3");
        reveal_strlit("4");
        reveal_strlit("5");
        reveal_strlit("6");
        reveal_strlit("7");
        reveal_strlit("8");
        reveal_strlit("9");
    }
    match d {
        0 => "0",
        1 => "1",
        2 => "2",
        3 => "3",
        4 => "4",
        5 => "5",
        6 => "6",
        7 => "7",
        8 => "8",
        _ => "9",
    }
}

/// The decimal numeral of `n`.
pub fn decimal_string(n: u32) -> (s: String)
    ensures
        s@ == decimal(n as nat),
{
    let mut s: String = digit_str(n % 10).to_owned();
    let mut m: u32 = n / 10;
    while m > 0
        invariant
            decimal(n as nat) == (if m == 0 { s@ } else { decimal(m as nat) + s@ }),
        decreases m,
    {
        let d = digit_str(m % 10).to_owned();
        proof {
            assert(decimal(m as nat) == (if m < 10 { seq![digit_char(m as nat)] } else {
                decimal((m / 10) as nat).push(digit_char((m % 10) as nat))
            }));
            if m >= 10 {
                assert(decimal((m / 10) as nat).push(digit_char((m % 10) as nat)) + s@ =~= decimal(
                    (m / 10) as nat,
                ) + (d@ + s@));
            } else {
                assert(seq![digit_char(m as nat)] + s@ =~= d@ + s@);
            }
        }
        s = d.concat(s.as_str());
        m = m / 10;
    }
    s
}

/// `k` spaces as text.
fn spaces_string(k: usize) -> (s: String)
    ensures
        s@ == spaces(k as nat),
{
    let mut s = String::new();
    let mut i: usize = 0;
    while i < k
        invariant
            i <= k,
            s@ == spaces(i as nat),
        decreases k - i,
    {
        proof {
            reveal_strlit(" ");
        }
        s.append(" ");
        i = i + 1;
        assert(s@ =~= spaces(i as nat));
    }
    s
}

/// Line `n` with text `body` laid out as [`line_layout`] says.
pub fn layout_line(n: u32, body: &str) -> (line: String)
    ensures
        line@ == line_layout(n, body@),
{
    let number = decimal_string(n);
    let digits = number.as_str().unicode_len();
    let mut line = if digits < 6 {
        spaces_string(6 - digits)
    } else {
        String::new()
    };
    line.append(number.as_str());
    proof {
        reveal_strlit(": ");
    }
    line.append(": ");
    line.append(body);
    let chars = body.unicode_len();
    if chars < 3 {
        let pad = spaces_string(3 - chars);
        line.append(pad.as_str());
    }
    proof {
        assert(line@ =~= line_layout(n, body@));
    }
    line
}

/// The printed form of line `n`, whose text is `content` and whose matches
/// are `arr`: the line number, then the text with every match shown in red.
pub fn pprint(n: u32, content: &str, arr: &[MatchSpan]) -> (line: String)
    requires
        spans_valid(encode_utf8(content@), arr@),
    ensures
        exists|marks: Seq<Seq<char>>|
            marks_for(encode_utf8(content@), arr@, marks) && line@ == line_layout(
                n,
                body_text(encode_utf8(content@), arr@, marks),
            ),
{
    let body = highlight(content, arr);
    layout_line(n, body.as_str())
}

/// What the printed form of line `n`, whose text is `text` and whose matches
/// are `spans`, may be: the text with every match in one of its painted
/// forms, laid out behind the number.
pub open spec fn rendered(n: u32, text: Seq<char>, spans: Seq<MatchSpan>, out: Seq<char>) -> bool {
    exists|marks: Seq<Seq<char>>|
        marks_for(encode_utf8(text), spans, marks) && out == line_layout(
            n,
            body_text(encode_utf8(text), spans, marks),
        )
}

/// A pattern that the regex engine refused, with the engine's message.
#[derive(Debug)]
pub struct PatternError {
    pub message: String,
}

/// A search pattern that the regex engine accepts.
pub struct LineMatcher {
    pattern: String,
}

impl LineMatcher {
    #[verifier::type_invariant]
    spec fn accepted(self) -> bool {
        regex_accepts(self.pattern@)
    }

    /// The pattern searched for.
    pub closed spec fn pattern(&self) -> Seq<char> {
        self.pattern@
    }

    /// Compiles `pattern`; refused exactly when the regex engine refuses it.
    pub fn new(pattern: &str) -> (res: Result<LineMatcher, PatternError>)
        ensures
            res is Ok <==> regex_accepts(pattern@),
            res matches Ok(m) ==> m.pattern() == pattern@,
    {
        match compile_regex(pattern) {
            Ok(_) => Ok(LineMatcher { pattern: pattern.to_owned() }),
            Err(e) => Err(PatternError { message: regex_error_message(&e) }),
        }
    }

    /// The matches of the pattern in `line`, in order.
    pub fn find(&self, line: &str) -> (spans: Vec<MatchSpan>)
        ensures
            spans@ == found_spans(self.pattern(), line@),
            spans_valid(encode_utf8(line@), spans@),
    {
        proof {
            use_type_invariant(self);
        }
        match regex_compile_find(self.pattern.as_str(), line) {
            Some(spans) => {
                proof {
                    let pairs = regex_spans(self.pattern@, line@);
                    assert(spans@.map_values(|m: MatchSpan| (m.start, m.end)) == pairs);
                    assert forall|i: int| 0 <= i < spans@.len() implies spans@[i] == found_spans(
                        self.pattern@,
                        line@,
                    )[i] by {
                        assert(pairs[i] == (spans@[i].start, spans@[i].end));
                    }
                    assert(spans@ =~= found_spans(self.pattern@, line@));
                }
                spans
            },
            None => Vec::new(),
        }
    }

    /// Line `n` as it is printed: `None` when the pattern does not match
    /// `line`, else the line with its matches painted.
    pub fn render(&self, n: u32, line: &str) -> (out: Option<String>)
        ensures
            out is None <==> found_spans(self.pattern(), line@).len() == 0,
            out matches Some(o) ==> rendered(n, line@, found_spans(self.pattern(), line@), o@),
    {
        let spans = self.find(line);
        render_matches(n, line, spans.as_slice())
    }
}

/// Line `n`, whose text is `line` and whose matches are `spans`, as it is
/// printed: nothing when there is no match, else [`pprint`]'s output.
pub fn render_matches(n: u32, line: &str, spans: &[MatchSpan]) -> (out: Option<String>)
    requires
        spans_valid(encode_utf8(line@), spans@),
    ensures
        out is None <==> spans@.len() == 0,
        out matches Some(o) ==> rendered(n, line@, spans@, o@),
{
    if spans.len() == 0 {
        None
    } else {
        let o = pprint(n, line, spans);
        Some(o)
    }
}

/// What to do after reading a line.
pub enum ScanAction {
    /// The input is exhausted.
    Stop,
    /// The line does not match; print nothing.
    Quiet,
    /// Print this.
    Print(String),
}

/// Walks the lines of one file, numbering them from 1.
pub struct LineScanner {
    pub count: u32,
}

impl LineScanner {
    /// A scanner before the first line.
    pub fn new() -> (s: LineScanner)
        ensures
            s.count == 0,
    {
        LineScanner { count: 0 }
    }

    /// Takes the next line as read, with its line terminator, and the
    /// matches found in it; an empty line means the end of the input.
    pub fn on_line_matches(&mut self, line: &str, spans: &[MatchSpan]) -> (act: ScanAction)
        requires
            line@.len() > 0 ==> old(self).count < u32::MAX,
            spans_valid(encode_utf8(line@), spans@),
        ensures
            line@.len() == 0 ==> act is Stop && final(self).count == old(self).count,
            line@.len() > 0 ==> final(self).count == old(self).count + 1 && !(act is Stop),
            line@.len() > 0 ==> (act is Quiet <==> spans@.len() == 0),
            act matches ScanAction::Print(o) ==> rendered(final(self).count, line@, spans@, o@),
    {
        if line.is_empty() {
            return ScanAction::Stop;
        }
        self.count = self.count + 1;
        match render_matches(self.count, line, spans) {
            Some(o) => ScanAction::Print(o),
            None => ScanAction::Quiet,
        }
    }

    /// Takes the next line as read, with its line terminator, and searches
    /// it for the pattern; an empty line means the end of the input.
    pub fn on_line(&mut self, matcher: &LineMatcher, line: &str) -> (act: ScanAction)
        requires
            line@.len() > 0 ==> old(self).count < u32::MAX,
        ensures
            line@.len() == 0 ==> act is Stop && final(self).count == old(self).count,
            line@.len() > 0 ==> final(self).count == old(self).count + 1 && !(act is Stop),
            line@.len() > 0 ==> (act is Quiet <==> found_spans(matcher.pattern(), line@).len() == 0),
            act matches ScanAction::Print(o) ==> rendered(
                final(self).count,
                line@,
                found_spans(matcher.pattern(), line@),
                o@,
            ),
    {
        let spans = matcher.find(line);
        self.on_line_matches(line, spans.as_slice())
    }
}

} // verus!
