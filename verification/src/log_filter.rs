//! Log filters of `tracing_subscriber`.

use vstd::prelude::*;
use vstd::string::StrSliceExecFns;
use vstd::utf8::{encode_scalar, encode_utf8};

verus! {

/// A parsed log filter.
#[verifier::external_type_specification]
#[verifier::external_body]
pub struct ExEnvFilter(tracing_subscriber::EnvFilter);

/// Why a text is no log filter.
#[verifier::external_type_specification]
#[verifier::external_body]
pub struct ExParseError(tracing_subscriber::filter::ParseError);

/// The filter that a text stands for, if it is a comma-separated list of directives.
pub uninterp spec fn parsed_filter(text: Seq<char>) -> Option<tracing_subscriber::EnvFilter>;

/// The text is a comma-separated list of filter directives.
pub open spec fn is_log_filter(text: Seq<char>) -> bool {
    parsed_filter(text) is Some
}

/// The filter that a comma-separated list of directives stands for.
pub open spec fn filter_of(directives: Seq<char>) -> tracing_subscriber::EnvFilter
    recommends
        is_log_filter(directives),
{
    parsed_filter(directives)->0
}

/// The character is Unicode white space.
pub open spec fn is_white(c: char) -> bool {
    let n = c as u32;
    ||| 0x09 <= n <= 0x0d
    ||| n == 0x20
    ||| n == 0x85
    ||| n == 0xa0
    ||| n == 0x1680
    ||| 0x2000 <= n <= 0x200a
    ||| n == 0x2028
    ||| n == 0x2029
    ||| n == 0x202f
    ||| n == 0x205f
    ||| n == 0x3000
}

/// The number of bytes that encode the character.
pub open spec fn width(c: char) -> nat {
    let n = c as u32;
    if n < 0x80 {
        1
    } else if n < 0x800 {
        2
    } else if n < 0x1_0000 {
        3
    } else {
        4
    }
}

/// The number of bytes that encode the first `i` characters.
pub open spec fn offset(text: Seq<char>, i: int) -> nat
    decreases i,
{
    if i <= 0 {
        0
    } else {
        offset(text, i - 1) + width(text[i - 1])
    }
}

/// The number of white characters that `text` has from position `i` on.
pub open spec fn indent(text: Seq<char>, i: int) -> int
    decreases text.len() - i,
{
    if 0 <= i < text.len() && is_white(text[i]) {
        indent(text, i + 1) + 1
    } else {
        0
    }
}

/// The position of the first character from `i` on that is `a` or `b`, or the length.
pub open spec fn find(text: Seq<char>, i: int, a: char, b: char) -> int
    decreases text.len() - i,
{
    if 0 <= i < text.len() && text[i] != a && text[i] != b {
        find(text, i + 1, a, b)
    } else if i < text.len() {
        i
    } else {
        text.len() as int
    }
}

/// A cut of the trimmed text before the character at position `i` of `text`, made at the
/// same byte of the whole text, does not fall inside a character.
pub open spec fn cuts(text: Seq<char>, i: int) -> bool {
    exists|j: int|
        0 <= j <= i && #[trigger] offset(text, j) == offset(text, i) - offset(
            text,
            indent(text, 0),
        )
}

/// The cut before a level that may follow at position `i`.
pub open spec fn cuts_level(part: Seq<char>, i: int) -> bool {
    i < part.len() && part[i] == '=' ==> cuts(part, i + 1)
}

/// The cuts around the field that begins at position `i`, and the one before a level. Only
/// behind a field that it accepts does the parser go on to a level.
pub open spec fn cuts_field(part: Seq<char>, i: int) -> bool {
    let end = find(part, i, '}', '}');
    end < part.len() ==> {
        &&& cuts(part, i)
        &&& cuts(part, end)
        &&& end + 1 < part.len() && part[end + 1] == ']' && is_log_filter(
            part.subrange(0, end + 2),
        ) ==> cuts_level(part, end + 2)
    }
}

/// The cuts around the span that begins at position `i`, and those behind it.
pub open spec fn cuts_span(part: Seq<char>, i: int) -> bool {
    let end = find(part, i, ']', '{');
    end < part.len() ==> {
        &&& cuts(part, i)
        &&& cuts(part, end)
        &&& if part[end] == ']' {
            cuts_level(part, end + 1)
        } else {
            cuts_field(part, end + 1)
        }
    }
}

/// No cut that the parser makes in a directive falls inside a character. A directive is a
/// span in square brackets or a target, which ends at a span or at a level; its first
/// character tells whether the parser takes it for one at all.
pub open spec fn cuts_directive(part: Seq<char>) -> bool {
    let start = indent(part, 0);
    let end = find(part, start + 1, '=', '[');
    if start >= part.len() {
        true
    } else if part[start] == '[' {
        cuts_span(part, start + 1)
    } else {
        is_log_filter(part.subrange(0, start + 1)) && end < part.len() ==> {
            &&& cuts(part, end)
            &&& if part[end] == '=' {
                cuts(part, end + 1)
            } else {
                cuts_span(part, end + 1)
            }
        }
    }
}

/// The characters from `i` up to, and without, `j` are one of the parts into which commas
/// divide the text.
pub open spec fn is_part(text: Seq<char>, i: int, j: int) -> bool {
    &&& 0 <= i <= j <= text.len()
    &&& i == 0 || text[i - 1] == ','
    &&& j == text.len() || text[j] == ','
    &&& forall|m: int| i <= m < j ==> #[trigger] text[m] != ','
}

/// The parser can read the text, be it a list of directives or not: each part that it
/// comes to, having accepted what stands before, is cut between characters.
pub open spec fn readable(text: Seq<char>) -> bool {
    forall|i: int, j: int| #[trigger]
        is_part(text, i, j) && (i == 0 || is_log_filter(text.subrange(0, i - 1)))
            ==> cuts_directive(text.subrange(i, j))
}

/// `tracing_subscriber::EnvFilter::try_new`: whether a text is a list of directives, and
/// which filter it then stands for, depends on the text alone, and the empty text is such
/// a list. Nothing is said of what the filter lets through, nor of why a text is refused.
///
/// Each part of the text is trimmed, and is then cut at byte positions of the trimmed
/// part: where white space comes first, such a position can lie inside a character that
/// is longer than a byte, and the parser panics. Texts on which that happens are left out.
#[verifier::external_body]
pub(crate) fn try_filter(directives: &str) -> (r: Result<
    tracing_subscriber::EnvFilter,
    tracing_subscriber::filter::ParseError,
>)
    requires
        readable(directives@),
    ensures
        match r {
            Ok(filter) => parsed_filter(directives@) == Some(filter),
            Err(_) => parsed_filter(directives@) is None,
        },
        directives@.len() == 0 ==> r is Ok,
{
    tracing_subscriber::EnvFilter::try_new(directives)
}

/// Tells whether a character is Unicode white space.
fn white(c: char) -> (r: bool)
    ensures
        r == is_white(c),
{
    let n: u32 = c as u32;
    (0x09 <= n && n <= 0x0d) || n == 0x20 || n == 0x85 || n == 0xa0 || n == 0x1680 || (0x2000 <= n
        && n <= 0x200a) || n == 0x2028 || n == 0x2029 || n == 0x202f || n == 0x205f || n == 0x3000
}

/// Counts the bytes that encode the first `i` characters.
fn count_bytes(chars: &Vec<char>, i: usize) -> (r: u128)
    requires
        i <= chars@.len(),
    ensures
        r == offset(chars@, i as int),
        r <= 4 * i,
{
    let mut r: u128 = 0;
    let mut m: usize = 0;
    while m < i
        invariant
            m <= i <= chars@.len(),
            r == offset(chars@, m as int),
            r <= 4 * m,
        decreases i - m,
    {
        let n: u32 = chars[m] as u32;
        let step: u128 = if n < 0x80 {
            1
        } else if n < 0x800 {
            2
        } else if n < 0x1_0000 {
            3
        } else {
            4
        };
        r = r + step;
        m += 1;
    }
    r
}

/// Counts the white characters at the beginning.
fn count_white(chars: &Vec<char>) -> (r: usize)
    ensures
        r == indent(chars@, 0),
        r <= chars@.len(),
{
    let mut r: usize = 0;
    while r < chars.len() && white(chars[r])
        invariant
            r <= chars@.len(),
            indent(chars@, 0) == r + indent(chars@, r as int),
        decreases chars@.len() - r,
    {
        r += 1;
    }
    r
}

/// Finds the first character from `i` on that is `a` or `b`.
fn find_char(chars: &Vec<char>, i: usize, a: char, b: char) -> (r: usize)
    requires
        i <= chars@.len(),
    ensures
        r == find(chars@, i as int, a, b),
        i <= r <= chars@.len(),
        r < chars@.len() ==> chars@[r as int] == a || chars@[r as int] == b,
        forall|m: int| i <= m < r ==> #[trigger] chars@[m] != a && chars@[m] != b,
{
    let mut r: usize = i;
    while r < chars.len() && chars[r] != a && chars[r] != b
        invariant
            i <= r <= chars@.len(),
            find(chars@, i as int, a, b) == find(chars@, r as int, a, b),
            forall|m: int| i <= m < r ==> #[trigger] chars@[m] != a && chars@[m] != b,
        decreases chars@.len() - r,
    {
        r += 1;
    }
    r
}

/// Tells whether a cut before the character at position `i` falls between characters.
fn can_cut(chars: &Vec<char>, i: usize) -> (r: bool)
    requires
        indent(chars@, 0) <= i <= chars@.len(),
    ensures
        r == cuts(chars@, i as int),
{
    let start = count_white(chars);
    proof {
        lemma_offset_grows(chars@, start as int, i as int);
    }
    let target: u128 = count_bytes(chars, i) - count_bytes(chars, start);
    let mut j: usize = 0;
    while j < i && count_bytes(chars, j) < target
        invariant
            j <= i <= chars@.len(),
            forall|m: int| 0 <= m < j ==> #[trigger] offset(chars@, m) < target,
        decreases i - j,
    {
        j += 1;
    }
    let reached = count_bytes(chars, j);
    proof {
        assert forall|m: int| 0 <= m <= i && reached != target implies #[trigger] offset(chars@, m)
            != target by {
            if m >= j {
                lemma_offset_grows(chars@, j as int, m);
            }
        }
        assert(reached == target ==> offset(chars@, j as int) == target);
    }
    reached == target
}

/// The characters of a text.
fn chars_of(text: &str) -> (r: Vec<char>)
    ensures
        r@ == text@,
{
    let n = text.unicode_len();
    let mut r: Vec<char> = Vec::new();
    let mut i: usize = 0;
    while i < n
        invariant
            n == text@.len(),
            i <= n,
            r@ == text@.subrange(0, i as int),
        decreases n - i,
    {
        r.push(text.get_char(i));
        i += 1;
        assert(r@ =~= text@.subrange(0, i as int));
    }
    assert(r@ =~= text@);
    r
}

/// Tells whether the parser cuts a part only between characters.
fn can_cut_directive(part: &str) -> (r: bool)
    requires
        forall|m: int| 0 <= m < part@.len() ==> #[trigger] part@[m] != ',',
    ensures
        r == cuts_directive(part@),
{
    let chars = chars_of(part);
    let n = chars.len();
    let start = count_white(&chars);
    if start >= n {
        return true;
    }
    let mut span: usize = start + 1;
    if chars[start] != '[' {
        proof {
            lemma_first_is_readable(part@);
        }
        if try_filter(part.substring_char(0, start + 1)).is_err() {
            return true;
        }
        let end = find_char(&chars, start + 1, '=', '[');
        if end >= n {
            return true;
        }
        if !can_cut(&chars, end) {
            return false;
        }
        if chars[end] == '=' {
            return can_cut(&chars, end + 1);
        }
        span = end + 1;
    }
    let span_end = find_char(&chars, span, ']', '{');
    if span_end >= n {
        return true;
    }
    if !can_cut(&chars, span) || !can_cut(&chars, span_end) {
        return false;
    }
    let mut level: usize = span_end + 1;
    if chars[span_end] == '{' {
        let field = span_end + 1;
        let end = find_char(&chars, field, '}', '}');
        if end >= n {
            return true;
        }
        if !can_cut(&chars, field) || !can_cut(&chars, end) {
            return false;
        }
        if end + 1 >= n || chars[end + 1] != ']' {
            return true;
        }
        proof {
            lemma_field_is_readable(part@, span as int, span_end as int, end as int);
        }
        if try_filter(part.substring_char(0, end + 2)).is_err() {
            return true;
        }
        level = end + 2;
    }
    if level < n && chars[level] == '=' {
        return can_cut(&chars, level + 1);
    }
    true
}

/// Tells whether the parser can read a text.
pub fn is_readable(text: &str) -> (r: bool)
    ensures
        r == readable(text@),
{
    let chars = chars_of(text);
    let n = chars.len();
    let mut start: usize = 0;
    loop
        invariant
            chars@ == text@,
            n == text@.len(),
            start <= n,
            start == 0 || text@[start - 1] == ',',
            readable_before(text@, start as int),
        decreases n - start,
    {
        let end = find_char(&chars, start, ',', ',');
        let part = text.substring_char(start, end);
        proof {
            lemma_only_part(text@, start as int, end as int);
            assert forall|m: int| 0 <= m < part@.len() implies #[trigger] part@[m] != ',' by {
                assert(part@[m] == text@[start + m]);
            }
            if start > 0 {
                lemma_readable_before(text@, start as int);
            }
        }
        let reached = start == 0 || try_filter(text.substring_char(0, start - 1)).is_ok();
        if reached && !can_cut_directive(part) {
            assert(is_part(text@, start as int, end as int));
            return false;
        }
        if end >= n {
            return true;
        }
        start = end + 1;
    }
}

/// Each part that ends before `at`, and that the parser comes to, is cut between
/// characters.
spec fn readable_before(text: Seq<char>, at: int) -> bool {
    forall|i: int, j: int| #[trigger]
        is_part(text, i, j) && j < at && (i == 0 || is_log_filter(text.subrange(0, i - 1)))
            ==> cuts_directive(text.subrange(i, j))
}

/// What stands before a part can be read, if its parts can.
proof fn lemma_readable_before(text: Seq<char>, at: int)
    requires
        0 < at <= text.len(),
        text[at - 1] == ',',
        readable_before(text, at),
    ensures
        readable(text.subrange(0, at - 1)),
{
    let head = text.subrange(0, at - 1);
    assert forall|i: int, j: int| #[trigger]
        is_part(head, i, j) && (i == 0 || is_log_filter(head.subrange(0, i - 1)))
        implies cuts_directive(head.subrange(i, j)) by {
        assert forall|m: int| i <= m < j implies #[trigger] text[m] != ',' by {
            assert(head[m] != ',');
        }
        assert(is_part(text, i, j));
        assert(head.subrange(i, j) =~= text.subrange(i, j));
        if i > 0 {
            assert(head.subrange(0, i - 1) =~= text.subrange(0, i - 1));
        }
    }
}

/// A part that ends where another one ends, or inside it, is the same part.
proof fn lemma_only_part(text: Seq<char>, start: int, end: int)
    requires
        0 <= start <= end <= text.len(),
        start == 0 || text[start - 1] == ',',
        end == text.len() || text[end] == ',',
        forall|m: int| start <= m < end ==> #[trigger] text[m] != ',',
    ensures
        is_part(text, start, end),
        forall|i: int, j: int| #[trigger]
            is_part(text, i, j) && start <= j <= end ==> i == start && j == end,
{
    assert forall|i: int, j: int| #[trigger]
        is_part(text, i, j) && start <= j <= end implies i == start && j == end by {
        if i > start {
            assert(text[i - 1] != ',');
        }
        if i < start {
            assert(text[start - 1] != ',');
        }
        if j < end {
            assert(text[j] != ',');
        }
    }
}

/// A text without commas can be read, if it is cut between characters.
proof fn lemma_readable_part(part: Seq<char>)
    requires
        forall|m: int| 0 <= m < part.len() ==> #[trigger] part[m] != ',',
        cuts_directive(part),
    ensures
        readable(part),
{
    lemma_only_part(part, 0, part.len() as int);
    assert forall|i: int, j: int| #[trigger] is_part(part, i, j) implies cuts_directive(
        part.subrange(i, j),
    ) by {
        assert(part.subrange(i, j) =~= part);
    }
}

/// A part up to its first character that is not white can be read.
proof fn lemma_first_is_readable(part: Seq<char>)
    requires
        forall|m: int| 0 <= m < part.len() ==> #[trigger] part[m] != ',',
        indent(part, 0) < part.len(),
    ensures
        readable(part.subrange(0, indent(part, 0) + 1)),
{
    let start = indent(part, 0);
    lemma_indent(part, 0, start + 1);
    let head = part.subrange(0, start + 1);
    assert forall|m: int| 0 <= m < head.len() implies #[trigger] head[m] != ',' by {
        assert(head[m] == part[m]);
    }
    lemma_readable_part(head);
}

/// A part up to the bracket behind its field can be read, if it is cut between characters
/// as far as there.
proof fn lemma_field_is_readable(part: Seq<char>, span: int, span_end: int, end: int)
    requires
        forall|m: int| 0 <= m < part.len() ==> #[trigger] part[m] != ',',
        ({
            let start = indent(part, 0);
            &&& 0 <= start < span <= span_end < end < part.len() - 1
            &&& part[start] == '[' ==> span == start + 1
            &&& part[start] != '[' ==> {
                &&& span == find(part, start + 1, '=', '[') + 1
                &&& part[span - 1] == '['
                &&& cuts(part, span - 1)
            }
        }),
        span_end == find(part, span, ']', '{'),
        part[span_end] == '{',
        end == find(part, span_end + 1, '}', '}'),
        part[end + 1] == ']',
        cuts(part, span),
        cuts(part, span_end),
        cuts(part, span_end + 1),
        cuts(part, end),
    ensures
        readable(part.subrange(0, end + 2)),
{
    let start = indent(part, 0);
    let head = part.subrange(0, end + 2);
    assert forall|m: int| 0 <= m < head.len() implies #[trigger] head[m] != ',' by {
        assert(head[m] == part[m]);
    }
    lemma_indent(part, 0, end + 2);
    lemma_find(part, span, ']', '{', end + 2);
    lemma_find(part, span_end + 1, '}', '}', end + 2);
    lemma_cuts(part, span, end + 2);
    lemma_cuts(part, span_end, end + 2);
    lemma_cuts(part, span_end + 1, end + 2);
    lemma_cuts(part, end, end + 2);
    if part[start] != '[' {
        lemma_find(part, start + 1, '=', '[', end + 2);
        lemma_cuts(part, span - 1, end + 2);
    }
    lemma_readable_part(head);
}

/// A beginning that reaches past the white characters has as many of them.
proof fn lemma_indent(text: Seq<char>, i: int, end: int)
    requires
        0 <= i,
        i + indent(text, i) < end <= text.len(),
    ensures
        indent(text.subrange(0, end), i) == indent(text, i),
        0 <= indent(text, i),
    decreases text.len() - i,
{
    if i < text.len() && is_white(text[i]) {
        lemma_indent_counts(text, i + 1);
        lemma_indent(text, i + 1, end);
    }
}

/// The count of white characters is not negative.
proof fn lemma_indent_counts(text: Seq<char>, i: int)
    ensures
        0 <= indent(text, i),
    decreases text.len() - i,
{
    if 0 <= i < text.len() && is_white(text[i]) {
        lemma_indent_counts(text, i + 1);
    }
}

/// What is found inside a beginning of the text is found in the beginning alone.
proof fn lemma_find(text: Seq<char>, i: int, a: char, b: char, end: int)
    requires
        0 <= i,
        find(text, i, a, b) < end <= text.len(),
    ensures
        find(text.subrange(0, end), i, a, b) == find(text, i, a, b),
        i <= find(text, i, a, b),
    decreases text.len() - i,
{
    if i < text.len() && text[i] != a && text[i] != b {
        lemma_find(text, i + 1, a, b, end);
    }
}

/// A cut inside a beginning of the text falls there as it does in the text.
proof fn lemma_cuts(text: Seq<char>, i: int, end: int)
    requires
        0 <= indent(text, 0) <= i <= end <= text.len(),
        indent(text.subrange(0, end), 0) == indent(text, 0),
        cuts(text, i),
    ensures
        cuts(text.subrange(0, end), i),
{
    let head = text.subrange(0, end);
    let start = indent(text, 0);
    let j = choose|j: int|
        0 <= j <= i && #[trigger] offset(text, j) == offset(text, i) - offset(text, start);
    lemma_offset(text, i, end);
    lemma_offset(text, j, end);
    lemma_offset(text, start, end);
    assert(offset(head, j) == offset(head, i) - offset(head, start));
}

/// The beginning of the text takes the bytes that it takes in the text.
proof fn lemma_offset(text: Seq<char>, i: int, end: int)
    requires
        0 <= i <= end <= text.len(),
    ensures
        offset(text.subrange(0, end), i) == offset(text, i),
    decreases i,
{
    if i > 0 {
        lemma_offset(text, i - 1, end);
    }
}

/// More characters take more bytes.
proof fn lemma_offset_grows(text: Seq<char>, i: int, j: int)
    requires
        0 <= i <= j,
    ensures
        offset(text, i) <= offset(text, j),
    decreases j - i,
{
    if i < j {
        lemma_offset_grows(text, i, j - 1);
    }
}

/// White space is what Unicode counts as such: the blank, the tabulators and line ends of
/// ASCII, and nineteen characters beyond it.
pub proof fn law_white_space(c: char)
    ensures
        (c as u32) < 0x80 ==> (is_white(c) <==> c == ' ' || c == '\t' || c == '\n' || c == '\r'
            || c as u32 == 0x0b || c as u32 == 0x0c),
        (c as u32) >= 0x80 ==> (is_white(c) <==> set![
            0x85u32, 0xa0, 0x1680, 0x2000, 0x2001, 0x2002, 0x2003, 0x2004, 0x2005, 0x2006, 0x2007,
            0x2008, 0x2009, 0x200a, 0x2028, 0x2029, 0x202f, 0x205f, 0x3000,
        ].contains(c as u32)),
{
}

/// Whatever the text is, the parser can read it if none of the parts between its commas
/// begins with white space.
pub proof fn law_unindented_text_is_readable(text: Seq<char>)
    requires
        forall|i: int|
            0 <= i < text.len() && (i == 0 || text[i - 1] == ',') ==> !is_white(#[trigger] text[i]),
    ensures
        readable(text),
{
    assert forall|i: int, j: int| #[trigger] is_part(text, i, j) implies cuts_directive(
        text.subrange(i, j),
    ) by {
        let part = text.subrange(i, j);
        if part.len() > 0 {
            assert(part[0] == text[i]);
        }
        assert(indent(part, 0) == 0);
        lemma_cuts_everywhere(part);
    }
}

/// The parser can read every ASCII text.
pub proof fn law_ascii_text_is_readable(text: Seq<char>)
    requires
        forall|i: int| 0 <= i < text.len() ==> (#[trigger] text[i] as u32) < 0x80,
    ensures
        readable(text),
{
    assert forall|i: int, j: int| #[trigger] is_part(text, i, j) implies cuts_directive(
        text.subrange(i, j),
    ) by {
        let part = text.subrange(i, j);
        assert forall|m: int| 0 <= m < part.len() implies (#[trigger] part[m] as u32) < 0x80 by {
            assert(part[m] == text[i + m]);
        }
        lemma_cuts_ascii(part);
    }
}

/// Where no white space comes first, every cut falls between characters.
proof fn lemma_cuts_everywhere(part: Seq<char>)
    requires
        indent(part, 0) == 0,
    ensures
        cuts_directive(part),
{
    assert forall|i: int| 0 <= i implies #[trigger] cuts(part, i) by {
        assert(offset(part, i) == offset(part, i) - offset(part, 0));
    }
    lemma_cuts_make_directive(part);
}

/// In ASCII every cut falls between characters.
proof fn lemma_cuts_ascii(part: Seq<char>)
    requires
        forall|i: int| 0 <= i < part.len() ==> (#[trigger] part[i] as u32) < 0x80,
    ensures
        cuts_directive(part),
{
    let start = indent(part, 0);
    lemma_indent_counts(part, 0);
    lemma_indent_bound(part, 0);
    assert forall|i: int| start <= i <= part.len() implies #[trigger] cuts(part, i) by {
        lemma_offset_ascii(part, i);
        lemma_offset_ascii(part, start);
        lemma_offset_ascii(part, i - start);
        assert(offset(part, i - start) == offset(part, i) - offset(part, start));
    }
    lemma_cuts_make_directive(part);
}

/// If every cut behind the white space falls between characters, so do those that the
/// parser makes.
proof fn lemma_cuts_make_directive(part: Seq<char>)
    requires
        forall|i: int| indent(part, 0) <= i <= part.len() ==> #[trigger] cuts(part, i),
    ensures
        cuts_directive(part),
{
    let start = indent(part, 0);
    lemma_indent_counts(part, 0);
    if start < part.len() {
        let end = find(part, start + 1, '=', '[');
        lemma_find_bound(part, start + 1, '=', '[');
        lemma_span_cuts(part, start + 1);
        if end < part.len() {
            lemma_span_cuts(part, end + 1);
            assert(cuts(part, end));
            assert(cuts(part, end + 1));
        }
    }
}

proof fn lemma_span_cuts(part: Seq<char>, i: int)
    requires
        0 <= indent(part, 0) <= i <= part.len(),
        forall|i: int| indent(part, 0) <= i <= part.len() ==> #[trigger] cuts(part, i),
    ensures
        cuts_span(part, i),
{
    let end = find(part, i, ']', '{');
    lemma_find_bound(part, i, ']', '{');
    if end < part.len() {
        let field_end = find(part, end + 1, '}', '}');
        lemma_find_bound(part, end + 1, '}', '}');
        assert(cuts(part, i) && cuts(part, end) && cuts(part, end + 1));
        if end + 2 <= part.len() {
            assert(cuts(part, end + 2));
        }
        if field_end < part.len() {
            assert(cuts(part, field_end));
            if field_end + 3 <= part.len() {
                assert(cuts(part, field_end + 3));
            }
        }
    }
}

/// What is looked for is found behind where the search begins, or not at all.
proof fn lemma_find_bound(text: Seq<char>, i: int, a: char, b: char)
    requires
        0 <= i <= text.len(),
    ensures
        i <= find(text, i, a, b) <= text.len(),
    decreases text.len() - i,
{
    if i < text.len() && text[i] != a && text[i] != b {
        lemma_find_bound(text, i + 1, a, b);
    }
}

/// There is no more white space than there are characters.
proof fn lemma_indent_bound(text: Seq<char>, i: int)
    requires
        0 <= i <= text.len(),
    ensures
        i + indent(text, i) <= text.len(),
    decreases text.len() - i,
{
    if i < text.len() && is_white(text[i]) {
        lemma_indent_bound(text, i + 1);
    }
}

/// An ASCII character takes one byte.
proof fn lemma_offset_ascii(text: Seq<char>, i: int)
    requires
        0 <= i <= text.len(),
        forall|i: int| 0 <= i < text.len() ==> (#[trigger] text[i] as u32) < 0x80,
    ensures
        offset(text, i) == i,
    decreases i,
{
    if i > 0 {
        lemma_offset_ascii(text, i - 1);
    }
}

/// The bytes of the first characters are those of their UTF-8 encoding, and a cut falls
/// between characters exactly when, so many bytes before it as the white space takes, a
/// character begins or the text ends.
pub proof fn law_cuts_in_bytes(text: Seq<char>, i: int)
    requires
        0 <= i <= text.len(),
        indent(text, 0) <= text.len(),
    ensures
        offset(text, i) == encode_utf8(text.take(i)).len(),
        cuts(text, i) <==> exists|j: int|
            0 <= j <= i && encode_utf8(#[trigger] text.take(j)).len() + encode_utf8(
                text.take(indent(text, 0)),
            ).len() == encode_utf8(text.take(i)).len(),
{
    let start = indent(text, 0);
    lemma_indent_counts(text, 0);
    lemma_offset_utf8(text, i);
    lemma_offset_utf8(text, start);
    if cuts(text, i) {
        let j = choose|j: int|
            0 <= j <= i && #[trigger] offset(text, j) == offset(text, i) - offset(text, start);
        lemma_offset_utf8(text, j);
        assert(encode_utf8(text.take(j)).len() + encode_utf8(text.take(start)).len()
            == encode_utf8(text.take(i)).len());
    }
    if exists|j: int|
        0 <= j <= i && encode_utf8(#[trigger] text.take(j)).len() + encode_utf8(
            text.take(start),
        ).len() == encode_utf8(text.take(i)).len() {
        let j = choose|j: int|
            0 <= j <= i && encode_utf8(#[trigger] text.take(j)).len() + encode_utf8(
                text.take(start),
            ).len() == encode_utf8(text.take(i)).len();
        lemma_offset_utf8(text, j);
        assert(offset(text, j) == offset(text, i) - offset(text, start));
    }
}

/// A text without an equals sign or an opening bracket is never cut, and can be read however
/// it is indented.
pub proof fn law_text_without_cuts_is_readable(text: Seq<char>)
    requires
        forall|i: int| 0 <= i < text.len() ==> #[trigger] text[i] != '=' && text[i] != '[',
    ensures
        readable(text),
{
    assert forall|i: int, j: int| #[trigger] is_part(text, i, j) implies cuts_directive(
        text.subrange(i, j),
    ) by {
        let part = text.subrange(i, j);
        assert forall|m: int| 0 <= m < part.len() implies #[trigger] part[m] != '=' && part[m]
            != '[' by {
            assert(part[m] == text[i + m]);
        }
        let start = indent(part, 0);
        lemma_indent_counts(part, 0);
        if start < part.len() {
            lemma_find_bound(part, start + 1, '=', '[');
            lemma_find_stops(part, start + 1, '=', '[');
        }
    }
}

/// A directive that is indented by a blank, and whose target is one character of more than a
/// byte, is cut inside that character: the parser cannot read it.
pub proof fn law_wide_target_behind_a_blank_is_not_readable(c: char, rest: Seq<char>)
    requires
        c as u32 >= 0x80,
        !is_white(c),
        is_log_filter(seq![' ', c]),
        forall|i: int| 0 <= i < rest.len() ==> #[trigger] rest[i] != ',',
    ensures
        !readable(seq![' ', c, '='] + rest),
{
    let text = seq![' ', c, '='] + rest;
    assert(text[0] == ' ' && text[1] == c && text[2] == '=');
    reveal_with_fuel(indent, 3);
    reveal_with_fuel(find, 2);
    reveal_with_fuel(offset, 4);
    assert(indent(text, 0) == 1);
    assert(find(text, 2, '=', '[') == 2);
    assert(text.subrange(0, 2) =~= seq![' ', c]);
    assert(offset(text, 1) == 1);
    assert(offset(text, 2) == 1 + width(c));
    assert(width(c) >= 2);
    assert forall|j: int| 0 <= j <= 2 implies #[trigger] offset(text, j) != offset(text, 2)
        - offset(text, 1) by {
        assert(j == 0 || j == 1 || j == 2);
    }
    assert(!cuts(text, 2));
    assert forall|m: int| 0 <= m < text.len() implies #[trigger] text[m] != ',' by {
        if m >= 3 {
            assert(text[m] == rest[m - 3]);
        }
    }
    assert(is_part(text, 0, text.len() as int));
    assert(text.subrange(0, text.len() as int) =~= text);
}

/// Where a search stops, it has found what it looked for.
proof fn lemma_find_stops(text: Seq<char>, i: int, a: char, b: char)
    requires
        0 <= i <= text.len(),
    ensures
        ({
            let end = find(text, i, a, b);
            end < text.len() ==> text[end] == a || text[end] == b
        }),
    decreases text.len() - i,
{
    if i < text.len() && text[i] != a && text[i] != b {
        lemma_find_stops(text, i + 1, a, b);
    }
}

/// The bytes of the first characters are those of their encoding.
proof fn lemma_offset_utf8(text: Seq<char>, i: int)
    requires
        0 <= i <= text.len(),
    ensures
        offset(text, i) == encode_utf8(text.take(i)).len(),
    decreases i,
{
    if i > 0 {
        lemma_offset_utf8(text, i - 1);
        let before = text.take(i - 1);
        let last = text[i - 1];
        assert(text.take(i) =~= before.push(last));
        lemma_encode_push(before, last);
    }
}

/// One character more takes its own bytes more.
proof fn lemma_encode_push(text: Seq<char>, c: char)
    ensures
        encode_utf8(text.push(c)).len() == encode_utf8(text).len() + width(c),
    decreases text.len(),
{
    let longer = text.push(c);
    if text.len() == 0 {
        assert(longer.drop_first() =~= Seq::empty());
        assert(longer[0] == c);
        assert(encode_utf8(longer.drop_first()).len() == 0);
        assert(encode_utf8(text).len() == 0);
        assert(encode_scalar(c as u32).len() == width(c));
    } else {
        assert(longer.drop_first() =~= text.drop_first().push(c));
        assert(longer[0] == text[0]);
        lemma_encode_push(text.drop_first(), c);
    }
}

} // verus!
