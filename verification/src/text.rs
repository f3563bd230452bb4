//! Characters and strings: UTF-8 widths, white space, and the few string
//! operations that the rest of the library needs.
use vstd::prelude::*;

verus! {

/// The number of bytes in the UTF-8 encoding of a character.
pub open spec fn char_len(c: char) -> nat {
    if (c as u32) < 0x80 {
        1
    } else if (c as u32) < 0x800 {
        2
    } else if (c as u32) < 0x10000 {
        3
    } else {
        4
    }
}

/// The number of bytes in the UTF-8 encoding of a piece of text.
pub open spec fn text_len(s: Seq<char>) -> nat
    decreases s.len(),
{
    if s.len() == 0 {
        0
    } else {
        text_len(s.drop_last()) + char_len(s.last())
    }
}

/// Whether a character has the Unicode property `White_Space`.
pub open spec fn white_space(c: char) -> bool {
    let v = c as u32;
    ||| 0x9 <= v <= 0xd
    ||| v == 0x20
    ||| v == 0x85
    ||| v == 0xa0
    ||| v == 0x1680
    ||| 0x2000 <= v <= 0x200a
    ||| v == 0x2028
    ||| v == 0x2029
    ||| v == 0x202f
    ||| v == 0x205f
    ||| v == 0x3000
}

/// Whether a piece of text has no character but white space.
pub open spec fn blank(s: Seq<char>) -> bool {
    forall|i: int| 0 <= i < s.len() ==> white_space(#[trigger] s[i])
}

/// Whether the first character of `s` that is not white space is `c`.
pub open spec fn first_visible_is(s: Seq<char>, c: char) -> bool {
    exists|i: int|
        0 <= i < s.len() && #[trigger] s[i] == c && !white_space(c) && blank(s.take(i))
}

/// The characters of `s` whose encoding starts at a byte in `from..to`, where
/// the first byte of `s` counts as byte zero.
pub open spec fn byte_slice(s: Seq<char>, from: int, to: int) -> Seq<char>
    decreases s.len(),
{
    if s.len() == 0 {
        Seq::empty()
    } else {
        let head = byte_slice(s.drop_last(), from, to);
        if from <= text_len(s.drop_last()) < to {
            head.push(s.last())
        } else {
            head
        }
    }
}

/// The last line of `s`: the text after the last line feed that has something
/// behind it. A line feed ends a line, and so does a carriage return directly in
/// front of it; neither belongs to the line. An empty text has no line.
pub open spec fn last_line_of(s: Seq<char>) -> Option<Seq<char>> {
    if s.len() == 0 {
        None
    } else if s.last() == '\n' {
        let body = s.drop_last();
        let line = after_last_feed(body);
        if line.len() > 0 && line.last() == '\r' {
            Some(line.drop_last())
        } else {
            Some(line)
        }
    } else {
        Some(after_last_feed(s))
    }
}

/// What follows the last line feed of `s`, or all of `s` if it has none.
pub open spec fn after_last_feed(s: Seq<char>) -> Seq<char>
    decreases s.len(),
{
    if s.len() == 0 || s.last() == '\n' {
        Seq::empty()
    } else {
        after_last_feed(s.drop_last()).push(s.last())
    }
}

pub proof fn lemma_text_len_concat(a: Seq<char>, b: Seq<char>)
    ensures
        text_len(a + b) == text_len(a) + text_len(b),
    decreases b.len(),
{
    if b.len() == 0 {
        assert(a + b =~= a);
    } else {
        assert((a + b).drop_last() =~= a + b.drop_last());
        lemma_text_len_concat(a, b.drop_last());
    }
}

/// `text_len` is the length of the UTF-8 encoding.
pub proof fn law_text_len_is_utf8(s: Seq<char>)
    ensures
        text_len(s) == vstd::utf8::encode_utf8(s).len(),
    decreases s.len(),
{
    if s.len() > 0 {
        let first = s.take(1);
        law_text_len_is_utf8(s.drop_first());
        lemma_text_len_concat(first, s.drop_first());
        assert(s =~= first + s.drop_first());
        assert(first.drop_last() =~= Seq::<char>::empty());
        assert(text_len(first) == char_len(s[0])) by {
            reveal_with_fuel(text_len, 2);
        }
        vstd::utf8::char_is_scalar(s[0]);
        assert(vstd::utf8::encode_utf8(s) == vstd::utf8::encode_scalar(s[0] as u32)
            + vstd::utf8::encode_utf8(s.drop_first()));
        assert(vstd::utf8::encode_scalar(s[0] as u32).len() == char_len(s[0]));
    }
}

pub proof fn lemma_byte_slice_concat(a: Seq<char>, b: Seq<char>, from: int, to: int)
    ensures
        byte_slice(a + b, from, to) == byte_slice(a, from, to) + byte_slice(
            b,
            from - text_len(a),
            to - text_len(a),
        ),
    decreases b.len(),
{
    if b.len() == 0 {
        assert(a + b =~= a);
    } else {
        assert((a + b).drop_last() =~= a + b.drop_last());
        lemma_byte_slice_concat(a, b.drop_last(), from, to);
        lemma_text_len_concat(a, b.drop_last());
    }
    assert(byte_slice(a + b, from, to) =~= byte_slice(a, from, to) + byte_slice(
        b,
        from - text_len(a),
        to - text_len(a),
    ));
}

pub proof fn lemma_byte_slice_ends(s: Seq<char>, from: int, to: int)
    ensures
        from <= 0 && text_len(s) <= to ==> byte_slice(s, from, to) == s,
        text_len(s) <= from || to <= 0 ==> byte_slice(s, from, to) == Seq::<char>::empty(),
    decreases s.len(),
{
    if s.len() > 0 {
        lemma_byte_slice_ends(s.drop_last(), from, to);
        assert(s.drop_last().push(s.last()) =~= s);
    } else {
        assert(byte_slice(s, from, to) =~= s);
    }
}

/// A piece of text between two others is the slice between their lengths.
pub proof fn lemma_byte_slice_middle(a: Seq<char>, b: Seq<char>, c: Seq<char>)
    ensures
        byte_slice(a + b + c, text_len(a) as int, (text_len(a) + text_len(b)) as int) == b,
{
    let from = text_len(a) as int;
    let to = from + text_len(b);
    lemma_byte_slice_concat(a + b, c, from, to);
    lemma_byte_slice_concat(a, b, from, to);
    lemma_text_len_concat(a, b);
    lemma_byte_slice_ends(a, from, to);
    lemma_byte_slice_ends(b, 0, text_len(b) as int);
    lemma_byte_slice_ends(c, from - text_len(a + b), to - text_len(a + b));
    assert(Seq::<char>::empty() + b + Seq::<char>::empty() =~= b);
}

/// The number of bytes that `c` takes in UTF-8.
pub fn utf8_len(c: char) -> (r: usize)
    ensures
        r == char_len(c),
{
    let v: u32 = c as u32;
    if v < 0x80 {
        1
    } else if v < 0x800 {
        2
    } else if v < 0x10000 {
        3
    } else {
        4
    }
}

/// Whether `c` is white space.
pub fn is_whitespace(c: char) -> (r: bool)
    ensures
        r == white_space(c),
{
    let v: u32 = c as u32;
    (0x9 <= v && v <= 0xd) || v == 0x20 || v == 0x85 || v == 0xa0 || v == 0x1680 || (0x2000 <= v
        && v <= 0x200a) || v == 0x2028 || v == 0x2029 || v == 0x202f || v == 0x205f || v == 0x3000
}

/// `String::push` of the standard library: the character goes to the end of the
/// string, and everything in front of it stays.
pub assume_specification[ String::push ](s: &mut String, c: char)
    ensures
        final(s)@ == old(s)@.push(c),
;

/// The characters of `s`, in order.
pub fn chars_of(s: &str) -> (r: Vec<char>)
    ensures
        r@ == s@,
{
    let mut r: Vec<char> = Vec::new();
    for c in it: s.chars()
        invariant
            it.seq() == s@,
            r@ == s@.take(it.index() as int),
    {
        r.push(c);
    }
    r
}

/// The string with the characters `chars[from..to]`.
pub fn string_of(chars: &Vec<char>, from: usize, to: usize) -> (r: String)
    requires
        from <= to <= chars@.len(),
    ensures
        r@ == chars@.subrange(from as int, to as int),
{
    let mut r = String::new();
    let mut i: usize = from;
    while i < to
        invariant
            from <= i <= to <= chars@.len(),
            r@ == chars@.subrange(from as int, i as int),
        decreases to - i,
    {
        r.push(chars[i]);
        i += 1;
        assert(r@ =~= chars@.subrange(from as int, i as int));
    }
    r
}

/// Whether the two texts are equal.
pub fn same_text(a: &String, b: &str) -> (r: bool)
    ensures
        r == (a@ == b@),
{
    *a == b.to_owned()
}

proof fn lemma_after_last_feed(s: Seq<char>, i: int)
    requires
        0 <= i <= s.len(),
        i == 0 || s[i - 1] == '\n',
        forall|k: int| i <= k < s.len() ==> s[k] != '\n',
    ensures
        after_last_feed(s) == s.skip(i),
    decreases s.len(),
{
    if s.len() == i {
        assert(after_last_feed(s) =~= s.skip(i));
    } else {
        lemma_after_last_feed(s.drop_last(), i);
        assert(s.drop_last().skip(i).push(s.last()) =~= s.skip(i));
    }
}

/// The last line of a text is what follows the line feed in front of it, whether
/// a line feed, alone or behind a carriage return, ends it or nothing does; only
/// an empty text has none.
pub proof fn law_last_line(before: Seq<char>, line: Seq<char>)
    requires
        before.len() == 0 || before.last() == '\n',
        forall|k: int| 0 <= k < line.len() ==> #[trigger] line[k] != '\n',
    ensures
        last_line_of(Seq::empty()) is None,
        line.len() > 0 ==> last_line_of(before + line) == Some(line),
        line.len() == 0 || line.last() != '\r' ==> last_line_of(before + line + seq!['\n']) == Some(
            line,
        ),
        last_line_of(before + line + seq!['\r', '\n']) == Some(line),
{
    let n = before.len() as int;
    let open = before + line;
    lemma_after_last_feed(open, n);
    assert(open.skip(n) =~= line);
    assert((open + seq!['\n']).drop_last() =~= open);
    let body = open.push('\r');
    assert((open + seq!['\r', '\n']).drop_last() =~= body);
    lemma_after_last_feed(body, n);
    assert(body.skip(n) =~= line.push('\r'));
    assert(line.push('\r').drop_last() =~= line);
}

/// The last line of `text`, without the line ending, if there is any line.
pub fn last_line(text: &str) -> (r: Option<String>)
    ensures
        match last_line_of(text@) {
            Some(line) => r matches Some(found) && found@ == line,
            None => r is None,
        },
{
    let chars = chars_of(text);
    let len: usize = chars.len();
    if len == 0 {
        return None;
    }
    let ended: bool = chars[len - 1] == '\n';
    let mut end: usize = if ended {
        len - 1
    } else {
        len
    };
    let ghost body = chars@.take(end as int);
    assert(ended ==> body =~= chars@.drop_last());
    assert(!ended ==> body =~= chars@);
    let mut start: usize = end;
    while start > 0 && chars[start - 1] != '\n'
        invariant
            start <= end <= chars@.len(),
            body == chars@.take(end as int),
            forall|k: int| start <= k < end ==> body[k] != '\n',
        decreases start,
    {
        start -= 1;
    }
    proof {
        lemma_after_last_feed(body, start as int);
        assert(body.skip(start as int) =~= chars@.subrange(start as int, end as int));
    }
    if ended && start < end && chars[end - 1] == '\r' {
        end -= 1;
        assert(body.skip(start as int).drop_last() =~= chars@.subrange(start as int, end as int));
    }
    Some(string_of(&chars, start, end))
}

} // verus!
