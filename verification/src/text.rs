//! Character classes, a cursor over scalar values, and small text utilities
//! shared by both pipelines.

use vstd::prelude::*;

verus! {

/// Whether `c` is alphabetic in the sense of the Unicode `Alphabetic` property.
pub uninterp spec fn alphabetic(c: char) -> bool;

/// Whether `c` is numeric in the sense of the Unicode general categories
/// `Nd`, `Nl` and `No`.
pub uninterp spec fn numeric(c: char) -> bool;

/// Whether `c` has the Unicode `White_Space` property.
pub uninterp spec fn whitespace(c: char) -> bool;

/// The lowercase form of a string, by the Unicode case mapping.
pub uninterp spec fn lowercase(s: Seq<char>) -> Seq<char>;

/// Alphabetic or numeric.
pub open spec fn alphanumeric(c: char) -> bool {
    alphabetic(c) || numeric(c)
}

/// One of the ten ASCII digits.
pub open spec fn ascii_digit(c: char) -> bool {
    '0' <= c && c <= '9'
}

/// `char::is_alphabetic` decides the Unicode `Alphabetic` property, which is
/// given the name [`alphabetic`] here.
pub assume_specification[ char::is_alphabetic ](c: char) -> (r: bool)
    ensures
        r == alphabetic(c),
;

/// `char::is_alphanumeric` holds exactly of the characters that are alphabetic
/// or numeric.
pub assume_specification[ char::is_alphanumeric ](c: char) -> (r: bool)
    ensures
        r == (alphabetic(c) || numeric(c)),
;

/// `char::is_whitespace` decides the Unicode `White_Space` property, which is
/// given the name [`whitespace`] here.
pub assume_specification[ char::is_whitespace ](c: char) -> (r: bool)
    ensures
        r == whitespace(c),
;

/// `String::push` appends one character to the end of the string.
pub assume_specification[ std::string::String::push ](s: &mut std::string::String, c: char)
    ensures
        final(s)@ == old(s)@.push(c),
;

/// `str::to_lowercase` returns the lowercase form of the whole string, which
/// is given the name [`lowercase`] here. Nothing more is claimed of it.
pub assume_specification[ str::to_lowercase ](s: &str) -> (r: std::string::String)
    ensures
        r@ == lowercase(s@),
;

/// The sets of characters that the tokenizers read runs of.
#[derive(Clone, Copy, Debug, PartialEq, Eq)]
pub enum CharClass {
    /// Unicode whitespace.
    Whitespace,
    /// Alphanumeric characters, `-` and `_`: tag names and identifiers.
    Name,
    /// What a [`CharClass::Name`] holds, and `:`.
    AttributeName,
    /// The ten ASCII digits.
    Digit,
    /// ASCII digits and `.`.
    Numeral,
    /// Everything but whitespace, `>` and `/`: an attribute value without quotes.
    Unquoted,
    /// Every character but the given one.
    Except(char),
    /// The given character alone.
    Only(char),
}

impl CharClass {
    /// Membership of `c` in the class.
    pub open spec fn contains(self, c: char) -> bool {
        match self {
            CharClass::Whitespace => whitespace(c),
            CharClass::Name => alphanumeric(c) || c == '-' || c == '_',
            CharClass::AttributeName => alphanumeric(c) || c == '-' || c == '_' || c == ':',
            CharClass::Digit => ascii_digit(c),
            CharClass::Numeral => ascii_digit(c) || c == '.',
            CharClass::Unquoted => !whitespace(c) && c != '>' && c != '/',
            CharClass::Except(x) => c != x,
            CharClass::Only(x) => c == x,
        }
    }

    /// Decides membership of `c` in the class.
    pub fn holds(self, c: char) -> (r: bool)
        ensures
            r == self.contains(c),
    {
        match self {
            CharClass::Whitespace => c.is_whitespace(),
            CharClass::Name => c.is_alphanumeric() || c == '-' || c == '_',
            CharClass::AttributeName => c.is_alphanumeric() || c == '-' || c == '_' || c == ':',
            CharClass::Digit => '0' <= c && c <= '9',
            CharClass::Numeral => ('0' <= c && c <= '9') || c == '.',
            CharClass::Unquoted => !c.is_whitespace() && c != '>' && c != '/',
            CharClass::Except(x) => c != x,
            CharClass::Only(x) => c == x,
        }
    }
}

/// The character of `s` at index `p`, if there is one.
pub open spec fn char_at(s: Seq<char>, p: int) -> Option<char> {
    if 0 <= p < s.len() {
        Some(s[p])
    } else {
        None
    }
}

/// Where the longest run of characters of `class` that starts at `p` ends:
/// the first index from `p` on whose character is outside the class, or the
/// length of `s` if there is none.
pub open spec fn run_end(s: Seq<char>, p: int, class: CharClass) -> int
    decreases s.len() - p,
{
    if 0 <= p < s.len() && class.contains(s[p]) {
        run_end(s, p + 1, class)
    } else {
        p
    }
}

/// A run ends at or after its start and within the text, holds only
/// characters of the class, and is not followed by one.
pub proof fn lemma_run_end(s: Seq<char>, p: int, class: CharClass)
    requires
        0 <= p <= s.len(),
    ensures
        p <= run_end(s, p, class) <= s.len(),
        forall|i: int| p <= i < run_end(s, p, class) ==> class.contains(#[trigger] s[i]),
        run_end(s, p, class) < s.len() ==> !class.contains(s[run_end(s, p, class)]),
    decreases s.len() - p,
{
    if p < s.len() && class.contains(s[p]) {
        lemma_run_end(s, p + 1, class);
    }
}

/// A position in a text that has been decoded into scalar values. The
/// position counts scalar values, so it never falls inside a character.
pub struct Cursor {
    chars: Vec<char>,
    position: usize,
}

impl Cursor {
    #[verifier::type_invariant]
    spec fn in_bounds(&self) -> bool {
        self.position <= self.chars@.len()
    }

    /// The whole text that the cursor moves over.
    pub closed spec fn text(&self) -> Seq<char> {
        self.chars@
    }

    /// The number of characters that lie behind the cursor.
    pub closed spec fn offset(&self) -> int {
        self.position as int
    }

    /// A cursor at the start of `input`.
    pub fn new(input: &str) -> (cursor: Self)
        ensures
            cursor.text() == input@,
            cursor.offset() == 0,
    {
        Cursor { chars: chars_of(input), position: 0 }
    }

    /// The number of characters that lie behind the cursor.
    pub fn position(&self) -> (p: usize)
        ensures
            p == self.offset(),
            p <= self.text().len(),
    {
        proof {
            use_type_invariant(self);
        }
        self.position
    }

    /// The character at the cursor, or `None` at the end of the text.
    pub fn current(&self) -> (c: Option<char>)
        ensures
            c == char_at(self.text(), self.offset()),
            0 <= self.offset() <= self.text().len(),
    {
        proof {
            use_type_invariant(self);
        }
        if self.position < self.chars.len() {
            Some(self.chars[self.position])
        } else {
            None
        }
    }

    /// The character after the one at the cursor, if there is one.
    pub fn peek(&self) -> (c: Option<char>)
        ensures
            c == char_at(self.text(), self.offset() + 1),
            0 <= self.offset() <= self.text().len(),
    {
        proof {
            use_type_invariant(self);
        }
        if self.position < self.chars.len() && self.position + 1 < self.chars.len() {
            Some(self.chars[self.position + 1])
        } else {
            None
        }
    }

    /// Whether the cursor has reached the end of the text.
    pub fn at_end(&self) -> (r: bool)
        ensures
            r == (self.offset() == self.text().len()),
            0 <= self.offset() <= self.text().len(),
    {
        proof {
            use_type_invariant(self);
        }
        self.position >= self.chars.len()
    }

    /// Moves one character forward; at the end of the text nothing changes.
    pub fn advance(&mut self)
        ensures
            final(self).text() == old(self).text(),
            final(self).offset() == if old(self).offset() < old(self).text().len() {
                old(self).offset() + 1
            } else {
                old(self).offset()
            },
            0 <= old(self).offset() <= old(self).text().len(),
    {
        proof {
            use_type_invariant(&*self);
        }
        if self.position < self.chars.len() {
            self.position = self.position + 1;
        }
    }

    /// Reads the longest run of characters of `class` that starts at the
    /// cursor, and leaves the cursor behind it.
    pub fn consume_while(&mut self, class: CharClass) -> (run: String)
        ensures
            final(self).text() == old(self).text(),
            final(self).offset() == run_end(old(self).text(), old(self).offset(), class),
            0 <= old(self).offset() <= final(self).offset() <= old(self).text().len(),
            run@ == old(self).text().subrange(old(self).offset(), final(self).offset()),
    {
        proof {
            use_type_invariant(&*self);
        }
        let ghost start = self.position as int;
        let mut run = String::new();
        while self.position < self.chars.len() && class.holds(self.chars[self.position])
            invariant
                self.chars@ == old(self).chars@,
                start == old(self).position,
                start <= self.position <= self.chars@.len(),
                run@ == self.chars@.subrange(start, self.position as int),
                run_end(self.chars@, start, class) == run_end(
                    self.chars@,
                    self.position as int,
                    class,
                ),
            decreases self.chars@.len() - self.position,
        {
            run.push(self.chars[self.position]);
            self.position = self.position + 1;
        }
        run
    }

    /// Passes over the longest run of characters of `class` that starts at
    /// the cursor.
    pub fn skip_while(&mut self, class: CharClass)
        ensures
            final(self).text() == old(self).text(),
            final(self).offset() == run_end(old(self).text(), old(self).offset(), class),
            0 <= old(self).offset() <= final(self).offset() <= old(self).text().len(),
    {
        proof {
            use_type_invariant(&*self);
        }
        let ghost start = self.position as int;
        while self.position < self.chars.len() && class.holds(self.chars[self.position])
            invariant
                self.chars@ == old(self).chars@,
                start == old(self).position,
                start <= self.position <= self.chars@.len(),
                run_end(self.chars@, start, class) == run_end(
                    self.chars@,
                    self.position as int,
                    class,
                ),
            decreases self.chars@.len() - self.position,
        {
            self.position = self.position + 1;
        }
    }

    /// Whether `pattern` stands in the text at index `at`.
    fn stands_at(&self, at: usize, pattern: &Vec<char>) -> (r: bool)
        requires
            at <= self.text().len(),
        ensures
            r == occurs_at(self.text(), at as int, pattern@),
    {
        if pattern.len() > self.chars.len() - at {
            return false;
        }
        let mut i: usize = 0;
        while i < pattern.len()
            invariant
                at + pattern@.len() <= self.chars@.len() <= usize::MAX,
                i <= pattern@.len(),
                self.chars@.subrange(at as int, at + i) == pattern@.subrange(0, i as int),
            decreases pattern@.len() - i,
        {
            if self.chars[at + i] != pattern[i] {
                return false;
            }
            i = i + 1;
        }
        proof {
            assert(pattern@.subrange(0, i as int) == pattern@);
        }
        true
    }

    /// Reads up to the first place from the cursor on at which `pattern`
    /// stands, and leaves the cursor behind that occurrence. Where the
    /// pattern stands nowhere, everything up to the end of the text is read.
    pub fn consume_until(&mut self, pattern: &Vec<char>) -> (run: String)
        ensures
            final(self).text() == old(self).text(),
            run@ == old(self).text().subrange(
                old(self).offset(),
                find_from(old(self).text(), old(self).offset(), pattern@),
            ),
            final(self).offset() == skip_past(old(self).text(), old(self).offset(), pattern@),
            0 <= old(self).offset() <= final(self).offset() <= old(self).text().len(),
    {
        proof {
            use_type_invariant(&*self);
        }
        let ghost start = self.position as int;
        let mut run = String::new();
        while self.position < self.chars.len()
            invariant
                self.chars@ == old(self).chars@,
                start == old(self).position,
                start <= self.position <= self.chars@.len(),
                run@ == self.chars@.subrange(start, self.position as int),
                find_from(self.chars@, start, pattern@) == find_from(
                    self.chars@,
                    self.position as int,
                    pattern@,
                ),
            decreases self.chars@.len() - self.position,
        {
            if self.stands_at(self.position, pattern) {
                self.position = self.position + pattern.len();
                return run;
            }
            run.push(self.chars[self.position]);
            self.position = self.position + 1;
        }
        run
    }
}

/// Whether `pattern` stands in `s` at index `p`.
pub open spec fn occurs_at(s: Seq<char>, p: int, pattern: Seq<char>) -> bool {
    0 <= p && p + pattern.len() <= s.len() && s.subrange(p, p + pattern.len()) == pattern
}

/// The first index from `p` on at which `pattern` stands in `s`, or the
/// length of `s` if it stands nowhere from `p` on.
pub open spec fn find_from(s: Seq<char>, p: int, pattern: Seq<char>) -> int
    decreases s.len() - p,
{
    if p < 0 || p >= s.len() {
        s.len() as int
    } else if occurs_at(s, p, pattern) {
        p
    } else {
        find_from(s, p + 1, pattern)
    }
}

/// Where reading goes on after a search for `pattern` from `p` on: behind its
/// first occurrence, or at the end of the text if there is none.
pub open spec fn skip_past(s: Seq<char>, p: int, pattern: Seq<char>) -> int {
    let found = find_from(s, p, pattern);
    if found < s.len() {
        found + pattern.len()
    } else {
        s.len() as int
    }
}

/// What [`find_from`] returns lies between `p` and the end of the text; the
/// pattern stands nowhere between `p` and it, and it stands there unless the
/// end of the text was reached.
pub proof fn lemma_find_from(s: Seq<char>, p: int, pattern: Seq<char>)
    requires
        0 <= p <= s.len(),
    ensures
        p <= find_from(s, p, pattern) <= s.len(),
        forall|i: int| p <= i < find_from(s, p, pattern) ==> !occurs_at(s, i, pattern),
        find_from(s, p, pattern) < s.len() ==> occurs_at(s, find_from(s, p, pattern), pattern),
    decreases s.len() - p,
{
    if p < s.len() && !occurs_at(s, p, pattern) {
        lemma_find_from(s, p + 1, pattern);
    }
}

/// The parts of `s` that the spans hold, one after the other. A span is a
/// pair of the index at which it begins and the index before which it ends.
pub open spec fn covered(s: Seq<char>, spans: Seq<(int, int)>) -> Seq<char>
    decreases spans.len(),
{
    if spans.len() == 0 {
        Seq::empty()
    } else {
        s.subrange(spans[0].0, spans[0].1) + covered(s, spans.drop_first())
    }
}

/// Whether the spans follow one another without a gap: each begins where
/// the one before it ends, and none is empty.
pub open spec fn contiguous(spans: Seq<(int, int)>) -> bool {
    &&& forall|i: int| 0 <= i < spans.len() ==> (#[trigger] spans[i]).0 < spans[i].1
    &&& forall|i: int| 0 <= i < spans.len() - 1 ==> (#[trigger] spans[i]).1 == spans[i + 1].0
}

/// Where the last of the spans ends; `p` where there is no span.
pub open spec fn end_of(spans: Seq<(int, int)>, p: int) -> int {
    if spans.len() > 0 {
        spans.last().1
    } else {
        p
    }
}

/// The text without the characters of `class` that it begins with.
pub open spec fn without_leading(s: Seq<char>, class: CharClass) -> Seq<char> {
    s.subrange(run_end(s, 0, class), s.len() as int)
}

/// The number of characters that are left when the characters of `class`
/// that `s` ends with are taken away.
pub open spec fn trailing_start(s: Seq<char>, class: CharClass) -> int
    decreases s.len(),
{
    if s.len() > 0 && class.contains(s.last()) {
        trailing_start(s.drop_last(), class)
    } else {
        s.len() as int
    }
}

/// The text without the characters of `class` that it ends with.
pub open spec fn without_trailing(s: Seq<char>, class: CharClass) -> Seq<char> {
    s.subrange(0, trailing_start(s, class))
}

/// The text without the whitespace at its two ends.
pub open spec fn trimmed(s: Seq<char>) -> Seq<char> {
    without_trailing(without_leading(s, CharClass::Whitespace), CharClass::Whitespace)
}

/// What is left lies within the text, ends with no character of the class,
/// and only characters of the class were taken away.
pub proof fn lemma_trailing_start(s: Seq<char>, class: CharClass)
    ensures
        0 <= trailing_start(s, class) <= s.len(),
        forall|i: int| trailing_start(s, class) <= i < s.len() ==> class.contains(#[trigger] s[i]),
        trailing_start(s, class) > 0 ==> !class.contains(s[trailing_start(s, class) - 1]),
    decreases s.len(),
{
    if s.len() > 0 && class.contains(s.last()) {
        let init = s.drop_last();
        lemma_trailing_start(init, class);
        assert forall|i: int| trailing_start(s, class) <= i < s.len() implies class.contains(
            #[trigger] s[i],
        ) by {
            if i < init.len() {
                assert(s[i] == init[i]);
            }
        }
    }
}

/// Cutting characters of the class off the end does not change what is left.
pub proof fn lemma_trailing_start_of_prefix(s: Seq<char>, n: int, class: CharClass)
    requires
        0 <= n <= s.len(),
        forall|i: int| n <= i < s.len() ==> class.contains(#[trigger] s[i]),
    ensures
        trailing_start(s, class) == trailing_start(s.subrange(0, n), class),
    decreases s.len() - n,
{
    if n < s.len() {
        assert(s.drop_last().subrange(0, n) == s.subrange(0, n));
        lemma_trailing_start_of_prefix(s.drop_last(), n, class);
    } else {
        assert(s.subrange(0, n) == s);
    }
}

/// A trimmed text neither begins nor ends with whitespace, so that trimming
/// it again changes nothing.
pub proof fn lemma_trimmed_twice(s: Seq<char>)
    ensures
        trimmed(s).len() > 0 ==> !whitespace(trimmed(s).first()) && !whitespace(trimmed(s).last()),
        trimmed(trimmed(s)) == trimmed(s),
{
    lemma_run_end(s, 0, CharClass::Whitespace);
    lemma_trailing_start(without_leading(s, CharClass::Whitespace), CharClass::Whitespace);
}

/// The characters of `chars` from index `from` up to `to`, as a string.
pub fn string_from(chars: &Vec<char>, from: usize, to: usize) -> (text: String)
    requires
        from <= to <= chars@.len(),
    ensures
        text@ == chars@.subrange(from as int, to as int),
{
    let mut text = String::new();
    let mut i: usize = from;
    while i < to
        invariant
            from <= i <= to <= chars@.len(),
            text@ == chars@.subrange(from as int, i as int),
        decreases to - i,
    {
        text.push(chars[i]);
        i = i + 1;
    }
    text
}

/// The characters of `chars` from index `from` up to `to`.
pub fn slice(chars: &Vec<char>, from: usize, to: usize) -> (part: Vec<char>)
    requires
        from <= to <= chars@.len(),
    ensures
        part@ == chars@.subrange(from as int, to as int),
{
    let mut part: Vec<char> = Vec::new();
    let mut i: usize = from;
    while i < to
        invariant
            from <= i <= to <= chars@.len(),
            part@ == chars@.subrange(from as int, i as int),
        decreases to - i,
    {
        part.push(chars[i]);
        i = i + 1;
    }
    part
}

/// The characters of `s`, in order.
pub fn chars_of(s: &str) -> (chars: Vec<char>)
    ensures
        chars@ == s@,
{
    let mut chars: Vec<char> = Vec::new();
    for c in it: s.chars()
        invariant
            it.seq() == s@,
            chars@ == s@.take(it.index() as int),
    {
        chars.push(c);
    }
    chars
}

/// Where the run of characters of `class` that starts at `from` ends.
pub fn leading_end(chars: &Vec<char>, from: usize, class: CharClass) -> (end: usize)
    requires
        from <= chars@.len(),
    ensures
        end == run_end(chars@, from as int, class),
        from <= end <= chars@.len(),
{
    let mut end: usize = from;
    while end < chars.len() && class.holds(chars[end])
        invariant
            from <= end <= chars@.len(),
            run_end(chars@, from as int, class) == run_end(chars@, end as int, class),
        decreases chars@.len() - end,
    {
        end = end + 1;
    }
    end
}

/// Where the characters of `class` that `chars` ends with begin.
pub fn trailing_begin(chars: &Vec<char>, class: CharClass) -> (begin: usize)
    ensures
        begin == trailing_start(chars@, class),
        begin <= chars@.len(),
{
    let mut begin: usize = chars.len();
    while begin > 0 && class.holds(chars[begin - 1])
        invariant
            begin <= chars@.len(),
            forall|i: int| begin <= i < chars@.len() ==> class.contains(#[trigger] chars@[i]),
        decreases begin,
    {
        begin = begin - 1;
    }
    proof {
        lemma_trailing_start_of_prefix(chars@, begin as int, class);
    }
    begin
}

/// The text without the characters of `class` at its two ends.
pub fn strip(s: &str, class: CharClass) -> (text: String)
    ensures
        text@ == without_trailing(without_leading(s@, class), class),
{
    let chars = chars_of(s);
    let from = leading_end(&chars, 0, class);
    let rest = slice(&chars, from, chars.len());
    let to = trailing_begin(&rest, class);
    string_from(&rest, 0, to)
}

/// The text without the whitespace at its two ends.
pub fn trim(s: &str) -> (text: String)
    ensures
        text@ == trimmed(s@),
{
    strip(s, CharClass::Whitespace)
}

} // verus!
