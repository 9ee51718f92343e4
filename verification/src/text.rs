//! Text as sequences of characters.
use vstd::prelude::*;
use vstd::string::StringExecFns;
use vstd::utf8;

verus! {

/// Whether a character has the Unicode property `White_Space`.
pub open spec fn white_space(c: char) -> bool {
    ||| 0x09 <= c as u32 <= 0x0d
    ||| c as u32 == 0x20
    ||| c as u32 == 0x85
    ||| c as u32 == 0xa0
    ||| c as u32 == 0x1680
    ||| 0x2000 <= c as u32 <= 0x200a
    ||| c as u32 == 0x2028
    ||| c as u32 == 0x2029
    ||| c as u32 == 0x202f
    ||| c as u32 == 0x205f
    ||| c as u32 == 0x3000
}

/// `char::is_whitespace`: whether the character has the property `White_Space`.
pub assume_specification[ char::is_whitespace ](c: char) -> (b: bool)
    ensures
        b == white_space(c),
;

/// `String::push`: appends one character.
pub assume_specification[ std::string::String::push ](s: &mut std::string::String, c: char)
    ensures
        final(s)@ == old(s)@.push(c),
;

/// Whether a character is an ASCII letter.
pub open spec fn ascii_letter(c: char) -> bool {
    ('a' <= c && c <= 'z') || ('A' <= c && c <= 'Z')
}

/// Whether a character is an ASCII digit.
pub open spec fn ascii_digit(c: char) -> bool {
    '0' <= c && c <= '9'
}

pub fn is_ascii_letter(c: char) -> (b: bool)
    ensures
        b == ascii_letter(c),
{
    ('a' <= c && c <= 'z') || ('A' <= c && c <= 'Z')
}

pub fn is_ascii_digit(c: char) -> (b: bool)
    ensures
        b == ascii_digit(c),
{
    '0' <= c && c <= '9'
}

/// The characters of a text. Their encoding fits in memory.
pub fn chars_of(s: &str) -> (r: Vec<char>)
    ensures
        r@ == s@,
        utf8::encode_utf8(s@).len() <= usize::MAX,
{
    let bytes: usize = s.as_bytes().len();
    assert(utf8::encode_utf8(s@).len() == bytes);
    let mut r: Vec<char> = Vec::new();
    for c in it: s.chars()
        invariant
            it.seq() == s@,
            r@.len() == it.index(),
            forall|i: int| 0 <= i < r@.len() ==> r@[i] == s@[i],
    {
        r.push(c);
    }
    assert(r@ =~= s@);
    r
}

/// The text that some of the characters spell.
pub fn text_of(chars: &Vec<char>, from: usize, to: usize) -> (s: String)
    requires
        from <= to <= chars@.len(),
    ensures
        s@ == chars@.subrange(from as int, to as int),
{
    let mut s = String::new();
    let mut i: usize = from;
    while i < to
        invariant
            from <= i <= to <= chars@.len(),
            s@ == chars@.subrange(from as int, i as int),
        decreases to - i,
    {
        s.push(chars[i]);
        assert(chars@.subrange(from as int, i + 1) =~= chars@.subrange(from as int, i as int).push(
            chars@[i as int],
        ));
        i += 1;
    }
    s
}

/// A copy of a text.
pub fn copy_text(s: &String) -> (r: String)
    ensures
        r@ == s@,
{
    s.clone()
}

/// Copies of texts.
pub fn copy_texts(list: &Vec<String>) -> (r: Vec<String>)
    ensures
        texts(r@) == texts(list@),
{
    let mut r: Vec<String> = Vec::new();
    let mut i: usize = 0;
    while i < list.len()
        invariant
            i <= list@.len(),
            r@.len() == i,
            forall|j: int| 0 <= j < i ==> (#[trigger] r@[j])@ == list@[j]@,
        decreases list@.len() - i,
    {
        r.push(list[i].clone());
        i += 1;
    }
    assert(texts(r@) =~= texts(list@));
    r
}

/// What texts say.
pub open spec fn texts(list: Seq<String>) -> Seq<Seq<char>> {
    Seq::new(list.len(), |i: int| list[i]@)
}

/// Whether two texts are the same.
pub fn same_text(a: &String, b: &String) -> (r: bool)
    ensures
        r == (a@ == b@),
{
    *a == *b
}

/// Whether a text is one that is written out.
pub fn is_text(a: &String, b: &str) -> (r: bool)
    ensures
        r == (a@ == b@),
{
    let c = b.to_owned();
    *a == c
}

/// Two texts one after the other.
pub fn joined(a: &str, b: &str) -> (r: String)
    ensures
        r@ == a@ + b@,
{
    let mut r = a.to_owned();
    r.append(b);
    r
}

/// Whether `a` comes before `b` in the order of character codes.
pub open spec fn text_less(a: Seq<char>, b: Seq<char>) -> bool
    decreases a.len(),
{
    if b.len() == 0 {
        false
    } else if a.len() == 0 {
        true
    } else if a[0] != b[0] {
        a[0] < b[0]
    } else {
        text_less(a.skip(1), b.skip(1))
    }
}

pub proof fn lemma_text_less_total(a: Seq<char>, b: Seq<char>)
    ensures
        text_less(a, b) || text_less(b, a) || a == b,
        !(text_less(a, b) && text_less(b, a)),
        !text_less(a, a),
    decreases a.len(),
{
    if a.len() > 0 && b.len() > 0 {
        lemma_text_less_total(a.skip(1), b.skip(1));
        if a[0] == b[0] && a.skip(1) == b.skip(1) {
            assert(a =~= seq![a[0]] + a.skip(1));
            assert(b =~= seq![b[0]] + b.skip(1));
        }
    } else {
        if a.len() == 0 && b.len() == 0 {
            assert(a =~= b);
        }
        if a.len() > 0 {
            lemma_text_less_total(a.skip(1), a.skip(1));
        }
    }
}

pub proof fn lemma_text_less_transitive(a: Seq<char>, b: Seq<char>, c: Seq<char>)
    requires
        text_less(a, b),
        text_less(b, c),
    ensures
        text_less(a, c),
    decreases a.len(),
{
    if a.len() > 0 && a[0] == b[0] && b[0] == c[0] {
        lemma_text_less_transitive(a.skip(1), b.skip(1), c.skip(1));
    }
}

/// Compares two texts by character codes.
pub fn is_text_less(a: &String, b: &String) -> (r: bool)
    ensures
        r == text_less(a@, b@),
{
    let x = chars_of(a.as_str());
    let y = chars_of(b.as_str());
    let mut i: usize = 0;
    assert(x@.skip(0) =~= x@);
    assert(y@.skip(0) =~= y@);
    while i < x.len() && i < y.len()
        invariant
            i <= x@.len(),
            i <= y@.len(),
            x@ == a@,
            y@ == b@,
            text_less(x@.skip(i as int), y@.skip(i as int)) == text_less(x@, y@),
        decreases x@.len() - i,
    {
        assert(x@.skip(i as int)[0] == x@[i as int]);
        assert(y@.skip(i as int)[0] == y@[i as int]);
        if x[i] != y[i] {
            return x[i] < y[i];
        }
        assert(x@.skip(i as int).skip(1) =~= x@.skip(i + 1));
        assert(y@.skip(i as int).skip(1) =~= y@.skip(i + 1));
        i += 1;
    }
    i < y.len()
}

/// The number of bytes that the first `i` characters take.
pub open spec fn byte_offset(text: Seq<char>, i: int) -> nat {
    utf8::encode_utf8(text.take(i)).len()
}

proof fn lemma_encode_push(text: Seq<char>, c: char)
    ensures
        utf8::encode_utf8(text.push(c)) == utf8::encode_utf8(text) + utf8::encode_scalar(c as u32),
    decreases text.len(),
{
    let all = text.push(c);
    if text.len() == 0 {
        assert(all.drop_first() =~= Seq::empty());
        assert(utf8::encode_utf8(all.drop_first()) =~= Seq::<u8>::empty());
        assert(utf8::encode_utf8(text) =~= Seq::<u8>::empty());
        assert(utf8::encode_utf8(all) =~= utf8::encode_utf8(text) + utf8::encode_scalar(c as u32));
    } else {
        lemma_encode_push(text.drop_first(), c);
        assert(all.drop_first() =~= text.drop_first().push(c));
        assert(utf8::encode_utf8(all) =~= utf8::encode_utf8(text) + utf8::encode_scalar(c as u32));
    }
}

/// A text takes at most four bytes for each character.
pub proof fn lemma_encoded_length(text: Seq<char>)
    ensures
        utf8::encode_utf8(text).len() <= 4 * text.len(),
    decreases text.len(),
{
    if text.len() > 0 {
        lemma_encoded_length(text.drop_last());
        assert(text =~= text.drop_last().push(text.last()));
        lemma_encode_push(text.drop_last(), text.last());
    }
}

pub proof fn lemma_byte_offset_step(text: Seq<char>, i: int)
    requires
        0 <= i < text.len(),
    ensures
        byte_offset(text, i + 1) == byte_offset(text, i) + utf8::encode_scalar(
            text[i] as u32,
        ).len(),
{
    assert(text.take(i + 1) =~= text.take(i).push(text[i]));
    lemma_encode_push(text.take(i), text[i]);
}

pub proof fn lemma_byte_offset_bound(text: Seq<char>, i: int)
    requires
        0 <= i <= text.len(),
    ensures
        byte_offset(text, i) <= utf8::encode_utf8(text).len(),
    decreases text.len() - i,
{
    if i == text.len() {
        assert(text.take(i) =~= text);
    } else {
        lemma_byte_offset_step(text, i);
        lemma_byte_offset_bound(text, i + 1);
    }
}

/// The number of bytes that one character takes.
fn byte_width(c: char) -> (n: usize)
    ensures
        n == utf8::encode_scalar(c as u32).len(),
        1 <= n <= 4,
{
    let code: u32 = c as u32;
    if code <= 0x7F {
        1
    } else if code <= 0x7FF {
        2
    } else if code <= 0xFFFF {
        3
    } else {
        4
    }
}

/// The byte offset of every character, and of the end.
pub fn byte_offsets(chars: &Vec<char>) -> (r: Vec<usize>)
    requires
        utf8::encode_utf8(chars@).len() <= usize::MAX,
    ensures
        r@.len() == chars@.len() + 1,
        forall|i: int| 0 <= i < r@.len() ==> #[trigger] r@[i] == byte_offset(chars@, i),
{
    let mut r: Vec<usize> = Vec::new();
    let mut offset: usize = 0;
    r.push(0);
    let mut i: usize = 0;
    assert(chars@.take(0) =~= Seq::empty());
    while i < chars.len()
        invariant
            i <= chars@.len(),
            utf8::encode_utf8(chars@).len() <= usize::MAX,
            r@.len() == i + 1,
            offset == byte_offset(chars@, i as int),
            forall|j: int| 0 <= j < r@.len() ==> #[trigger] r@[j] == byte_offset(chars@, j),
        decreases chars@.len() - i,
    {
        proof {
            lemma_byte_offset_step(chars@, i as int);
            lemma_byte_offset_bound(chars@, i + 1);
        }
        offset = offset + byte_width(chars[i]);
        r.push(offset);
        i += 1;
    }
    r
}

/// Whether a text has white space only.
pub open spec fn blank(s: Seq<char>) -> bool {
    forall|i: int| 0 <= i < s.len() ==> white_space(#[trigger] s[i])
}

/// A text without the white space at its start.
pub open spec fn trim_start(s: Seq<char>) -> Seq<char>
    decreases s.len(),
{
    if s.len() == 0 || !white_space(s[0]) {
        s
    } else {
        trim_start(s.skip(1))
    }
}

/// A text without the white space at its end.
pub open spec fn trim_end(s: Seq<char>) -> Seq<char>
    decreases s.len(),
{
    if s.len() == 0 || !white_space(s.last()) {
        s
    } else {
        trim_end(s.drop_last())
    }
}

/// A text without the white space at both ends.
pub open spec fn trim(s: Seq<char>) -> Seq<char> {
    trim_end(trim_start(s))
}

/// Whether a text stands at place `i` of another.
pub open spec fn stands_at(s: Seq<char>, part: Seq<char>, i: int) -> bool {
    0 <= i && i + part.len() <= s.len() && s.subrange(i, i + part.len()) == part
}

/// Whether a text occurs in another.
pub open spec fn occurs(s: Seq<char>, part: Seq<char>) -> bool {
    exists|i: int| stands_at(s, part, i)
}

/// Whether `i` is the first place at which a text occurs in another.
pub open spec fn first_at(s: Seq<char>, part: Seq<char>, i: int) -> bool {
    stands_at(s, part, i) && forall|j: int| 0 <= j < i ==> !stands_at(s, part, j)
}

/// The part before the first `c`, or all.
pub open spec fn before_char(s: Seq<char>, c: char) -> Seq<char>
    decreases s.len(),
{
    if s.len() == 0 || s[0] == c {
        Seq::empty()
    } else {
        seq![s[0]] + before_char(s.skip(1), c)
    }
}

/// Whether a text has white space only.
pub fn is_blank(s: &String) -> (b: bool)
    ensures
        b == blank(s@),
{
    let c = chars_of(s.as_str());
    let mut i: usize = 0;
    while i < c.len()
        invariant
            i <= c@.len(),
            c@ == s@,
            forall|j: int| 0 <= j < i ==> white_space(#[trigger] c@[j]),
        decreases c@.len() - i,
    {
        if !c[i].is_whitespace() {
            return false;
        }
        i += 1;
    }
    true
}

/// Where a text starts without its white space.
fn start_of(c: &Vec<char>, from: usize) -> (i: usize)
    requires
        from <= c@.len(),
    ensures
        from <= i <= c@.len(),
        trim_start(c@.skip(from as int)) == c@.skip(i as int),
{
    let mut i: usize = from;
    while i < c.len()
        invariant
            from <= i <= c@.len(),
            trim_start(c@.skip(from as int)) == trim_start(c@.skip(i as int)),
        decreases c@.len() - i,
    {
        assert(c@.skip(i as int)[0] == c@[i as int]);
        if !c[i].is_whitespace() {
            return i;
        }
        assert(c@.skip(i as int).skip(1) =~= c@.skip(i + 1));
        i += 1;
    }
    i
}

/// Where a text that starts at `from` ends without its white space.
fn end_of(c: &Vec<char>, from: usize, to: usize) -> (i: usize)
    requires
        from <= to <= c@.len(),
    ensures
        from <= i <= to,
        trim_end(c@.subrange(from as int, to as int)) == c@.subrange(from as int, i as int),
{
    let mut i: usize = to;
    while i > from
        invariant
            from <= i <= to <= c@.len(),
            trim_end(c@.subrange(from as int, to as int)) == trim_end(
                c@.subrange(from as int, i as int),
            ),
        decreases i,
    {
        let ghost part = c@.subrange(from as int, i as int);
        assert(part.last() == c@[i - 1]);
        if !c[i - 1].is_whitespace() {
            return i;
        }
        assert(part.drop_last() =~= c@.subrange(from as int, i - 1));
        i -= 1;
    }
    i
}

/// A text without the white space at its end.
pub fn trimmed_end(s: &str) -> (r: String)
    ensures
        r@ == trim_end(s@),
{
    let c = chars_of(s);
    let n: usize = c.len();
    assert(c@.subrange(0, n as int) =~= c@);
    let i: usize = end_of(&c, 0, n);
    text_of(&c, 0, i)
}

/// A text without the white space at both ends.
pub fn trimmed(s: &str) -> (r: String)
    ensures
        r@ == trim(s@),
{
    let c = chars_of(s);
    let n: usize = c.len();
    assert(c@.skip(0) =~= c@);
    let start: usize = start_of(&c, 0);
    assert(c@.skip(start as int) =~= c@.subrange(start as int, n as int));
    let end: usize = end_of(&c, start, n);
    text_of(&c, start, end)
}

/// A text from the first `from` characters on, without the white space at its start.
pub fn trimmed_rest(s: &str, from: usize) -> (r: String)
    requires
        from <= s@.len(),
    ensures
        r@ == trim_start(s@.skip(from as int)),
{
    let c = chars_of(s);
    let n: usize = c.len();
    let start: usize = start_of(&c, from);
    assert(c@.skip(start as int) =~= c@.subrange(start as int, n as int));
    text_of(&c, start, n)
}

/// Whether `part` stands at place `i`.
fn is_at(c: &Vec<char>, part: &Vec<char>, i: usize) -> (b: bool)
    requires
        i <= c@.len(),
    ensures
        b == stands_at(c@, part@, i as int),
{
    let n: usize = c.len();
    let m: usize = part.len();
    if m > n - i {
        return false;
    }
    let mut k: usize = 0;
    while k < m
        invariant
            k <= m,
            m == part@.len(),
            n == c@.len(),
            i + m <= n,
            forall|j: int| 0 <= j < k ==> c@[i + j] == part@[j],
        decreases m - k,
    {
        if c[i + k] != part[k] {
            assert(c@.subrange(i as int, i + m)[k as int] != part@[k as int]);
            return false;
        }
        k += 1;
    }
    assert(c@.subrange(i as int, i + m) =~= part@);
    true
}

/// The first place at which a text occurs in another.
pub fn find_text(s: &str, part: &str) -> (r: Option<usize>)
    ensures
        match r {
            Some(i) => first_at(s@, part@, i as int),
            None => !occurs(s@, part@),
        },
{
    let c = chars_of(s);
    let p = chars_of(part);
    let n: usize = c.len();
    let mut i: usize = 0;
    while i <= n
        invariant
            i <= n + 1,
            n == c@.len(),
            c@ == s@,
            p@ == part@,
            forall|j: int| 0 <= j < i ==> !stands_at(s@, part@, j),
        decreases n + 1 - i,
    {
        if is_at(&c, &p, i) {
            return Some(i);
        }
        if i == n {
            assert forall|j: int| !stands_at(s@, part@, j) by {
                if 0 <= j <= n {
                    assert(j < i || j == i);
                }
            }
            return None;
        }
        i += 1;
    }
    None
}

/// Whether a text starts with another.
pub fn starts_with(s: &str, part: &str) -> (b: bool)
    ensures
        b == stands_at(s@, part@, 0),
{
    let c = chars_of(s);
    let p = chars_of(part);
    is_at(&c, &p, 0)
}

/// The part before the first `c`, or all.
pub fn text_before(s: &str, c: char) -> (r: String)
    ensures
        r@ == before_char(s@, c),
{
    let v = chars_of(s);
    let mut r = String::new();
    let mut i: usize = 0;
    assert(v@.skip(0) =~= v@);
    assert(Seq::<char>::empty() + before_char(v@, c) =~= before_char(v@, c));
    while i < v.len()
        invariant
            i <= v@.len(),
            v@ == s@,
            r@ + before_char(v@.skip(i as int), c) == before_char(s@, c),
        decreases v@.len() - i,
    {
        assert(v@.skip(i as int)[0] == v@[i as int]);
        if v[i] == c {
            assert(r@ + Seq::<char>::empty() =~= r@);
            return r;
        }
        proof {
            assert(v@.skip(i as int).skip(1) =~= v@.skip(i + 1));
            assert(r@ + (seq![v@[i as int]] + before_char(v@.skip(i + 1), c)) =~= r@.push(
                v@[i as int],
            ) + before_char(v@.skip(i + 1), c));
        }
        r.push(v[i]);
        i += 1;
    }
    assert(r@ + Seq::<char>::empty() =~= r@);
    r
}

/// A text from its first `from` characters on.
pub fn text_after(s: &str, from: usize) -> (r: String)
    requires
        from <= s@.len(),
    ensures
        r@ == s@.skip(from as int),
{
    let c = chars_of(s);
    let n: usize = c.len();
    assert(c@.skip(from as int) =~= c@.subrange(from as int, n as int));
    text_of(&c, from, n)
}

/// The first characters of a text.
pub fn text_start(s: &str, to: usize) -> (r: String)
    requires
        to <= s@.len(),
    ensures
        r@ == s@.take(to as int),
{
    let c = chars_of(s);
    assert(c@.take(to as int) =~= c@.subrange(0, to as int));
    text_of(&c, 0, to)
}

} // verus!
