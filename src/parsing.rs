//! The source cursor: decoded characters with their lines and columns, a position
//! that moves only forward or back to a save point, and the character tests the
//! grammar is built from.
use vstd::prelude::*;
use vstd::string::*;
use vstd::std_specs::iter::IteratorSpec;
use crate::text::{decimal, push_chars, push_decimal};

verus! {

/// One character of the input with the line and column (both from 1) at which it stands.
#[derive(Clone, Copy, Debug, PartialEq, Eq, Structural)]
pub struct ParsedChar {
    pub char: char,
    pub line: u32,
    pub column: u32,
}

/// A snapshot of a cursor's position, to go back to after a failed attempt.
#[derive(Clone, Copy, Debug, PartialEq, Eq, Structural)]
pub struct ParseSavePoint(pub usize);

/// A cursor over the decoded characters of an input text.
pub struct ParseInput {
    pub position: usize,
    pub chars: Vec<ParsedChar>,
}

/// The line and column of the character that follows `s`.
pub open spec fn position_after(s: Seq<char>) -> (nat, nat)
    decreases s.len(),
{
    if s.len() == 0 {
        (1, 1)
    } else {
        let prev = position_after(s.drop_last());
        if s.last() == '\n' {
            (prev.0 + 1, 1)
        } else {
            (prev.0, prev.1 + 1)
        }
    }
}

/// The character at index `i` of `s`, with its line and column.
pub open spec fn decoded_at(s: Seq<char>, i: int) -> ParsedChar {
    ParsedChar {
        char: s[i],
        line: position_after(s.take(i)).0 as u32,
        column: position_after(s.take(i)).1 as u32,
    }
}

/// The characters of `s`, each with its line and column.
pub open spec fn decoded(s: Seq<char>) -> Seq<ParsedChar> {
    Seq::new(s.len(), |i: int| decoded_at(s, i))
}

/// The plain characters of a run of decoded characters.
pub open spec fn text_of(s: Seq<ParsedChar>) -> Seq<char> {
    s.map_values(|c: ParsedChar| c.char)
}

/// `line: L, column: C`
pub open spec fn location_text(line: u32, column: u32) -> Seq<char> {
    "line: "@ + decimal(line as nat) + ", column: "@ + decimal(column as nat)
}

/// The message of a failed expectation: what was expected, and what stood in its place.
pub open spec fn expected_text(what: Seq<char>, found: Option<ParsedChar>) -> Seq<char> {
    match found {
        Some(c) => "Expected: '"@ + what + "' at "@ + location_text(c.line, c.column)
            + ", but found '"@ + seq![c.char] + "'"@,
        None => "Expected: '"@ + what + "', but found end of parse text"@,
    }
}

/// An ASCII letter.
pub open spec fn is_alphabetic(c: char) -> bool {
    ('a' <= c && c <= 'z') || ('A' <= c && c <= 'Z')
}

/// An ASCII decimal digit.
pub open spec fn is_numeric(c: char) -> bool {
    '0' <= c && c <= '9'
}

pub open spec fn is_alphabetic_or_in(c: char, group: Seq<char>) -> bool {
    is_alphabetic(c) || group.contains(c)
}

/// Whitespace between expressions: space, line feed, carriage return (not tab).
pub open spec fn is_space_or_newline(c: char) -> bool {
    c == ' ' || c == '\n' || c == '\r'
}

pub open spec fn alphabetic() -> spec_fn(char) -> bool {
    |c: char| is_alphabetic(c)
}

pub open spec fn numeric() -> spec_fn(char) -> bool {
    |c: char| is_numeric(c)
}

pub open spec fn any_char() -> spec_fn(char) -> bool {
    |c: char| true
}

pub open spec fn alphabetic_or_in(group: Seq<char>) -> spec_fn(char) -> bool {
    |c: char| is_alphabetic_or_in(c, group)
}

pub open spec fn is_char(expected: char) -> spec_fn(char) -> bool {
    |c: char| c == expected
}

pub open spec fn in_group(group: Seq<char>) -> spec_fn(char) -> bool {
    |c: char| group.contains(c)
}

pub open spec fn not_in_group(group: Seq<char>) -> spec_fn(char) -> bool {
    |c: char| !group.contains(c)
}

pub open spec fn space_or_newline() -> spec_fn(char) -> bool {
    |c: char| is_space_or_newline(c)
}

/// The description used in errors of the "alphabetical or in a group" test.
pub open spec fn alphabetic_or_in_text(group: Seq<char>) -> Seq<char> {
    "alphabetical character or one of "@ + group
}

/// A `Result` whose error message is seen as its characters.
pub open spec fn result_view<T>(r: Result<T, String>) -> Result<T, Seq<char>> {
    match r {
        Ok(x) => Ok(x),
        Err(e) => Err(e@),
    }
}

/// The character at `p`, if there is one.
pub open spec fn char_at(chars: Seq<ParsedChar>, p: int) -> Option<ParsedChar> {
    if 0 <= p < chars.len() {
        Some(chars[p])
    } else {
        None
    }
}

/// The result of testing the character at `p` against a condition described by `what`.
pub open spec fn test_at(
    chars: Seq<ParsedChar>,
    p: int,
    accept: spec_fn(char) -> bool,
    what: Seq<char>,
) -> Result<ParsedChar, Seq<char>> {
    match char_at(chars, p) {
        Some(c) => if accept(c.char) {
            Ok(c)
        } else {
            Err(expected_text(what, Some(c)))
        },
        None => Err(expected_text(what, None)),
    }
}

/// The first position at or after `p` whose character is not accepted.
pub open spec fn skip_from(chars: Seq<ParsedChar>, p: int, accept: spec_fn(char) -> bool) -> int
    decreases chars.len() - p,
{
    if 0 <= p < chars.len() && accept(chars[p].char) {
        skip_from(chars, p + 1, accept)
    } else {
        p
    }
}


/// The characters from `p` on begin with `word`.
pub open spec fn window_matches(chars: Seq<ParsedChar>, p: int, word: Seq<char>) -> bool {
    0 <= p && p + word.len() <= chars.len() && text_of(chars.subrange(p, p + word.len())) == word
}

pub proof fn lemma_skip_from_bounds(chars: Seq<ParsedChar>, p: int, accept: spec_fn(char) -> bool)
    requires
        0 <= p <= chars.len(),
    ensures
        p <= skip_from(chars, p, accept) <= chars.len(),
        skip_from(chars, p, accept) < chars.len() ==> !accept(
            chars[skip_from(chars, p, accept)].char,
        ),
        forall|i: int| p <= i < skip_from(chars, p, accept) ==> accept(#[trigger] chars[i].char),
    decreases chars.len() - p,
{
    if p < chars.len() && accept(chars[p].char) {
        lemma_skip_from_bounds(chars, p + 1, accept);
    }
}

proof fn lemma_decode_step(s: Seq<char>, i: int)
    requires
        0 <= i < s.len(),
    ensures
        decoded(s).take(i + 1) == decoded(s).take(i).push(decoded_at(s, i)),
        position_after(s.take(i + 1)) == (if s[i] == '\n' {
            (position_after(s.take(i)).0 + 1, 1nat)
        } else {
            (position_after(s.take(i)).0, position_after(s.take(i)).1 + 1)
        }),
{
    assert(s.take(i + 1).drop_last() =~= s.take(i));
    assert(decoded(s).take(i + 1) =~= decoded(s).take(i).push(decoded(s)[i]));
}

proof fn lemma_decode_all(s: Seq<char>, i: int)
    requires
        i == s.len(),
    ensures
        decoded(s).take(i) == decoded(s),
{
    assert(decoded(s).take(i) =~= decoded(s));
}

/// An error message built from a description and the character found instead.
pub fn expected_error(what: &str, found: Option<ParsedChar>) -> (r: String)
    ensures
        r@ == expected_text(what@, found),
{
    let mut out = String::new();
    out.append("Expected: '");
    out.append(what);
    match found {
        Some(c) => {
            out.append("' at ");
            out.append("line: ");
            push_decimal(&mut out, c.line);
            out.append(", column: ");
            push_decimal(&mut out, c.column);
            out.append(", but found '");
            out.push(c.char);
            out.append("'");
        },
        None => {
            out.append("', but found end of parse text");
        },
    }
    assert(out@ =~= expected_text(what@, found));
    out
}

/// `Ok` with the found character where it is accepted, else the error that describes it.
fn accept_or_error(found: Option<ParsedChar>, accepted: bool, what: &str) -> (r: Result<
    ParsedChar,
    String,
>)
    requires
        found is None ==> !accepted,
    ensures
        result_view(r) == match found {
            Some(c) => if accepted {
                Ok(c)
            } else {
                Err(expected_text(what@, Some(c)))
            },
            None => Err(expected_text(what@, None)),
        },
{
    match found {
        Some(c) => if accepted {
            Ok(c)
        } else {
            Err(expected_error(what, Some(c)))
        },
        None => Err(expected_error(what, None)),
    }
}

/// Whitespace between expressions: space, line feed, carriage return.
pub fn is_space_or_newline_char(c: char) -> (r: bool)
    ensures
        r == is_space_or_newline(c),
{
    c == ' ' || c == '\n' || c == '\r'
}

/// An ASCII letter.
pub fn is_alphabetic_char(c: char) -> (r: bool)
    ensures
        r == is_alphabetic(c),
{
    ('a' <= c && c <= 'z') || ('A' <= c && c <= 'Z')
}

/// An ASCII decimal digit.
pub fn is_numeric_char(c: char) -> (r: bool)
    ensures
        r == is_numeric(c),
{
    '0' <= c && c <= '9'
}

/// Whether `c` is one of `group`.
pub fn contains_char(group: &Vec<char>, c: char) -> (r: bool)
    ensures
        r == group@.contains(c),
{
    let mut i: usize = 0;
    while i < group.len()
        invariant
            i <= group@.len(),
            forall|j: int| 0 <= j < i ==> group@[j] != c,
        decreases group@.len() - i,
    {
        if group[i] == c {
            return true;
        }
        i = i + 1;
    }
    false
}

impl ParsedChar {
    /// `line: L, column: C` for this character.
    pub fn display_location(&self) -> (r: String)
        ensures
            r@ == location_text(self.line, self.column),
    {
        let mut out = String::new();
        out.append("line: ");
        push_decimal(&mut out, self.line);
        out.append(", column: ");
        push_decimal(&mut out, self.column);
        out
    }
}

impl ParseInput {
    /// The position never passes the end of the characters.
    pub open spec fn wf(&self) -> bool {
        self.position <= self.chars@.len()
    }

    /// The character at the cursor, if there is one.
    pub open spec fn next_char(&self) -> Option<ParsedChar> {
        char_at(self.chars@, self.position as int)
    }

    /// The next character, without moving the cursor.
    pub fn get_next_char(&self) -> (r: Option<ParsedChar>)
        ensures
            r == self.next_char(),
    {
        if self.position < self.chars.len() {
            Some(self.chars[self.position])
        } else {
            None
        }
    }

    /// A save point at the current position.
    pub fn create_save_point(&self) -> (r: ParseSavePoint)
        ensures
            r == ParseSavePoint(self.position),
    {
        ParseSavePoint(self.position)
    }

    /// Moves the cursor back to `save_point`.
    pub fn load_save_point(&mut self, save_point: ParseSavePoint)
        ensures
            final(self).position == save_point.0,
            final(self).chars == old(self).chars,
    {
        self.position = save_point.0;
    }

    /// The next character, or an error at the end of the input.
    pub fn get_next_char_result(&self) -> (r: Result<ParsedChar, String>)
        ensures
            result_view(r) == test_at(self.chars@, self.position as int, any_char(), "character"@),
    {
        let next = self.get_next_char();
        accept_or_error(next, next.is_some(), "character")
    }

    /// The next character as `predicate` judges it; an error at the end of the input.
    pub fn get_next_char_predicate<F: Fn(ParsedChar) -> Result<ParsedChar, String>>(
        &self,
        predicate: &F,
    ) -> (r: Result<ParsedChar, String>)
        requires
            forall|c: ParsedChar| predicate.requires((c,)),
        ensures
            match self.next_char() {
                Some(c) => predicate.ensures((c,), r),
                None => result_view(r) == Err::<ParsedChar, Seq<char>>(
                    expected_text("character"@, None),
                ),
            },
    {
        match self.get_next_char() {
            Some(c) => predicate(c),
            None => Err(expected_error("character", None)),
        }
    }

    /// The next character if it is a letter; an error otherwise.
    pub fn get_next_char_alphabetical(&self) -> (r: Result<ParsedChar, String>)
        ensures
            result_view(r) == test_at(
                self.chars@,
                self.position as int,
                alphabetic(),
                "alphabetical character"@,
            ),
    {
        let next = self.get_next_char();
        let accepted = match next {
            Some(c) => is_alphabetic_char(c.char),
            None => false,
        };
        accept_or_error(next, accepted, "alphabetical character")
    }

    /// The next character if it is a digit; an error otherwise.
    pub fn get_next_char_numerical(&self) -> (r: Result<ParsedChar, String>)
        ensures
            result_view(r) == test_at(
                self.chars@,
                self.position as int,
                numeric(),
                "numerical character"@,
            ),
    {
        let next = self.get_next_char();
        let accepted = match next {
            Some(c) => is_numeric_char(c.char),
            None => false,
        };
        accept_or_error(next, accepted, "numerical character")
    }

    /// The next character if it is a letter or one of `accepted_chars`; an error otherwise.
    pub fn get_next_char_alphabetical_or_in_group(&self, accepted_chars: &Vec<char>) -> (r: Result<
        ParsedChar,
        String,
    >)
        ensures
            result_view(r) == test_at(
                self.chars@,
                self.position as int,
                alphabetic_or_in(accepted_chars@),
                alphabetic_or_in_text(accepted_chars@),
            ),
    {
        let next = self.get_next_char();
        let accepted = match next {
            Some(c) => is_alphabetic_char(c.char) || contains_char(accepted_chars, c.char),
            None => false,
        };
        let mut what = String::from_str("alphabetical character or one of ");
        push_chars(&mut what, accepted_chars.as_slice());
        accept_or_error(next, accepted, what.as_str())
    }

    /// Takes the next character, if there is one.
    pub fn pop_next_char(&mut self) -> (r: Option<ParsedChar>)
        ensures
            r == old(self).next_char(),
            final(self).chars == old(self).chars,
            final(self).position == if r is Some {
                old(self).position + 1
            } else {
                old(self).position as int
            },
    {
        if self.position < self.chars.len() {
            let c = self.chars[self.position];
            self.position = self.position + 1;
            Some(c)
        } else {
            None
        }
    }

    /// Takes the next character; an error at the end of the input.
    pub fn pop_next_char_result(&mut self) -> (r: Result<ParsedChar, String>)
        requires
            old(self).wf(),
        ensures
            result_view(r) == test_at(
                old(self).chars@,
                old(self).position as int,
                any_char(),
                "character"@,
            ),
            final(self).chars == old(self).chars,
            final(self).wf(),
            final(self).position == if r is Ok {
                old(self).position + 1
            } else {
                old(self).position as int
            },
    {
        let r = self.get_next_char_result();
        if r.is_ok() {
            self.skip_next_char();
        }
        r
    }

    /// Takes the next character if `predicate` accepts it.
    pub fn pop_next_char_predicate<F: Fn(ParsedChar) -> Result<ParsedChar, String>>(
        &mut self,
        predicate: &F,
    ) -> (r: Result<ParsedChar, String>)
        requires
            old(self).wf(),
            forall|c: ParsedChar| predicate.requires((c,)),
        ensures
            match old(self).next_char() {
                Some(c) => predicate.ensures((c,), r),
                None => result_view(r) == Err::<ParsedChar, Seq<char>>(
                    expected_text("character"@, None),
                ),
            },
            final(self).chars == old(self).chars,
            final(self).wf(),
            final(self).position == if r is Ok && old(self).next_char() is Some {
                old(self).position + 1
            } else {
                old(self).position as int
            },
    {
        match self.get_next_char() {
            Some(c) => {
                let x = predicate(c);
                if x.is_ok() {
                    self.skip_next_char();
                }
                x
            },
            None => Err(expected_error("character", None)),
        }
    }

    /// Takes the next character if it is a letter.
    pub fn pop_next_char_alphabetical(&mut self) -> (r: Result<ParsedChar, String>)
        requires
            old(self).wf(),
        ensures
            result_view(r) == test_at(
                old(self).chars@,
                old(self).position as int,
                alphabetic(),
                "alphabetical character"@,
            ),
            final(self).chars == old(self).chars,
            final(self).wf(),
            final(self).position == if r is Ok {
                old(self).position + 1
            } else {
                old(self).position as int
            },
    {
        let r = self.get_next_char_alphabetical();
        if r.is_ok() {
            self.skip_next_char();
        }
        r
    }

    /// Takes the next character if it is a digit.
    pub fn pop_next_char_numerical(&mut self) -> (r: Result<ParsedChar, String>)
        requires
            old(self).wf(),
        ensures
            result_view(r) == test_at(
                old(self).chars@,
                old(self).position as int,
                numeric(),
                "numerical character"@,
            ),
            final(self).chars == old(self).chars,
            final(self).wf(),
            final(self).position == if r is Ok {
                old(self).position + 1
            } else {
                old(self).position as int
            },
    {
        let r = self.get_next_char_numerical();
        if r.is_ok() {
            self.skip_next_char();
        }
        r
    }

    /// Takes the next character if it is a letter or one of `accepted_chars`.
    pub fn pop_next_char_alphabetical_or_in_group(&mut self, accepted_chars: &Vec<char>) -> (r:
        Result<ParsedChar, String>)
        requires
            old(self).wf(),
        ensures
            result_view(r) == test_at(
                old(self).chars@,
                old(self).position as int,
                alphabetic_or_in(accepted_chars@),
                alphabetic_or_in_text(accepted_chars@),
            ),
            final(self).chars == old(self).chars,
            final(self).wf(),
            final(self).position == if r is Ok {
                old(self).position + 1
            } else {
                old(self).position as int
            },
    {
        let r = self.get_next_char_alphabetical_or_in_group(accepted_chars);
        if r.is_ok() {
            self.skip_next_char();
        }
        r
    }

    /// Moves one character on, or to the end.
    pub fn skip_next_char(&mut self)
        ensures
            final(self).chars == old(self).chars,
            final(self).position == if old(self).position < old(self).chars@.len() {
                old(self).position + 1
            } else {
                old(self).chars@.len() as int
            },
    {
        if self.position < self.chars.len() {
            self.position = self.position + 1;
        } else {
            self.position = self.chars.len();
        }
    }

    /// Moves `x` characters on, stopping at the end.
    pub fn skip_x_chars(&mut self, x: usize)
        requires
            old(self).wf(),
        ensures
            final(self).chars == old(self).chars,
            final(self).wf(),
            final(self).position == if old(self).position + x <= old(self).chars@.len() {
                old(self).position + x
            } else {
                old(self).chars@.len() as int
            },
    {
        let mut i: usize = 0;
        while i < x
            invariant
                self.chars == old(self).chars,
                self.wf(),
                i <= x,
                self.position == if old(self).position + i <= old(self).chars@.len() {
                    old(self).position + i
                } else {
                    old(self).chars@.len() as int
                },
            decreases x - i,
        {
            self.skip_next_char();
            i = i + 1;
        }
    }

    /// The text from the cursor to the end.
    pub fn get_remaining_text(&self) -> (r: Result<String, String>)
        ensures
            self.wf() ==> r is Ok && r->Ok_0@ == text_of(
                self.chars@.subrange(self.position as int, self.chars@.len() as int),
            ),
            !self.wf() ==> r is Err && r->Err_0@ == "Invalid input access"@,
    {
        if self.position > self.chars.len() {
            return Err(String::from_str("Invalid input access"));
        }
        let mut output = String::new();
        let mut i: usize = self.position;
        while i < self.chars.len()
            invariant
                self.position <= i <= self.chars@.len(),
                output@ == text_of(self.chars@.subrange(self.position as int, i as int)),
            decreases self.chars@.len() - i,
        {
            output.push(self.chars[i].char);
            i = i + 1;
            assert(output@ =~= text_of(self.chars@.subrange(self.position as int, i as int)));
        }
        Ok(output)
    }

    /// The next `x` characters, if there are so many, without moving the cursor.
    pub fn get_next_x_chars(&self, x: usize) -> (r: Option<Vec<ParsedChar>>)
        ensures
            self.position + x <= self.chars@.len() ==> r is Some && r->Some_0@
                == self.chars@.subrange(self.position as int, self.position + x),
            self.position + x > self.chars@.len() ==> r is None,
    {
        if self.position > self.chars.len() || x > self.chars.len() - self.position {
            return None;
        }
        let mut output: Vec<ParsedChar> = Vec::new();
        let mut i: usize = 0;
        let len = self.chars.len();
        while i < x
            invariant
                len == self.chars@.len(),
                self.position + x <= self.chars@.len(),
                i <= x,
                output@ == self.chars@.subrange(self.position as int, self.position + i),
            decreases x - i,
        {
            output.push(self.chars[self.position + i]);
            i = i + 1;
            assert(output@ =~= self.chars@.subrange(self.position as int, self.position + i));
        }
        Some(output)
    }

    /// Whether the characters from the cursor on begin with `predicate`.
    pub fn match_word(&self, predicate: &str) -> (r: bool)
        ensures
            r == window_matches(self.chars@, self.position as int, predicate@),
    {
        let n = predicate.unicode_len();
        if self.position > self.chars.len() || n > self.chars.len() - self.position {
            return false;
        }
        let mut i: usize = 0;
        let len = self.chars.len();
        while i < n
            invariant
                len == self.chars@.len(),
                n == predicate@.len(),
                self.position + n <= self.chars@.len(),
                i <= n,
                forall|j: int|
                    0 <= j < i ==> #[trigger] self.chars@[self.position + j].char == predicate@[j],
            decreases n - i,
        {
            if self.chars[self.position + i].char != predicate.get_char(i) {
                assert(text_of(
                    self.chars@.subrange(self.position as int, self.position + n),
                )[i as int] != predicate@[i as int]);
                return false;
            }
            i = i + 1;
        }
        let ghost window = text_of(self.chars@.subrange(self.position as int, self.position + n));
        assert forall|j: int| 0 <= j < n implies window[j] == predicate@[j] by {
            assert(self.chars@[self.position + j].char == predicate@[j]);
        }
        assert(window =~= predicate@);
        true
    }

    /// Whether the cursor is at the end.
    pub fn finished(&self) -> (r: bool)
        ensures
            r == (self.next_char() is None),
    {
        self.get_next_char().is_none()
    }

    /// Takes the next character if it is `predicate`.
    pub fn pop_char(&mut self, predicate: char) -> (r: Result<ParsedChar, String>)
        requires
            old(self).wf(),
        ensures
            result_view(r) == test_at(
                old(self).chars@,
                old(self).position as int,
                is_char(predicate),
                seq![predicate],
            ),
            final(self).chars == old(self).chars,
            final(self).wf(),
            final(self).position == if r is Ok {
                old(self).position + 1
            } else {
                old(self).position as int
            },
    {
        let next = self.get_next_char();
        let accepted = match next {
            Some(c) => c.char == predicate,
            None => false,
        };
        let mut what = String::new();
        what.push(predicate);
        assert(what@ =~= seq![predicate]);
        let r = accept_or_error(next, accepted, what.as_str());
        if accepted {
            self.skip_next_char();
        }
        r
    }

    /// Moves past the next character if it is `predicate`.
    pub fn skip_char(&mut self, predicate: char) -> (r: Result<(), String>)
        requires
            old(self).wf(),
        ensures
            r is Ok <==> test_at(
                old(self).chars@,
                old(self).position as int,
                is_char(predicate),
                seq![predicate],
            ) is Ok,
            r is Err ==> r->Err_0@ == test_at(
                old(self).chars@,
                old(self).position as int,
                is_char(predicate),
                seq![predicate],
            )->Err_0,
            final(self).chars == old(self).chars,
            final(self).wf(),
            final(self).position == if r is Ok {
                old(self).position + 1
            } else {
                old(self).position as int
            },
    {
        match self.pop_char(predicate) {
            Ok(_) => Ok(()),
            Err(e) => Err(e),
        }
    }

    /// Moves past `predicate` if the characters from the cursor on begin with it.
    pub fn skip_string(&mut self, predicate: &str) -> (r: Result<(), String>)
        requires
            old(self).wf(),
        ensures
            r is Ok <==> window_matches(old(self).chars@, old(self).position as int, predicate@),
            r is Err ==> r->Err_0@ == expected_text(predicate@, old(self).next_char()),
            final(self).chars == old(self).chars,
            final(self).wf(),
            final(self).position == if r is Ok {
                old(self).position + predicate@.len()
            } else {
                old(self).position as int
            },
    {
        if self.match_word(predicate) {
            let n = predicate.unicode_len();
            self.skip_x_chars(n);
            Ok(())
        } else {
            let next = self.get_next_char();
            Err(expected_error(predicate, next))
        }
    }

    /// Moves past every `skip_char` at the cursor.
    pub fn skip_any_of_char(&mut self, skip_char: char)
        requires
            old(self).wf(),
        ensures
            final(self).chars == old(self).chars,
            final(self).wf(),
            final(self).position == skip_from(
                old(self).chars@,
                old(self).position as int,
                is_char(skip_char),
            ),
    {
        let ghost start = self.position as int;
        while self.position < self.chars.len() && self.chars[self.position].char == skip_char
            invariant
                self.chars == old(self).chars,
                self.wf(),
                skip_from(self.chars@, self.position as int, is_char(skip_char)) == skip_from(
                    self.chars@,
                    start,
                    is_char(skip_char),
                ),
            decreases self.chars@.len() - self.position,
        {
            self.position = self.position + 1;
        }
    }

    /// Moves past every character of `skip_chars` at the cursor.
    pub fn skip_any_of_chars(&mut self, skip_chars: Vec<char>)
        requires
            old(self).wf(),
        ensures
            final(self).chars == old(self).chars,
            final(self).wf(),
            final(self).position == skip_from(
                old(self).chars@,
                old(self).position as int,
                in_group(skip_chars@),
            ),
    {
        let ghost start = self.position as int;
        while self.position < self.chars.len() && contains_char(
            &skip_chars,
            self.chars[self.position].char,
        )
            invariant
                self.chars == old(self).chars,
                self.wf(),
                skip_from(self.chars@, self.position as int, in_group(skip_chars@)) == skip_from(
                    self.chars@,
                    start,
                    in_group(skip_chars@),
                ),
            decreases self.chars@.len() - self.position,
        {
            self.position = self.position + 1;
        }
    }

    /// Moves past spaces.
    pub fn skip_spaces(&mut self)
        requires
            old(self).wf(),
        ensures
            final(self).chars == old(self).chars,
            final(self).wf(),
            final(self).position == skip_from(
                old(self).chars@,
                old(self).position as int,
                is_char(' '),
            ),
    {
        self.skip_any_of_char(' ');
    }

    /// Moves past spaces, line feeds and carriage returns.
    pub fn skip_spaces_and_newlines(&mut self)
        requires
            old(self).wf(),
        ensures
            final(self).chars == old(self).chars,
            final(self).wf(),
            final(self).position == skip_from(
                old(self).chars@,
                old(self).position as int,
                space_or_newline(),
            ),
    {
        let ghost start = self.position as int;
        while self.position < self.chars.len() && is_space_or_newline_char(
            self.chars[self.position].char,
        )
            invariant
                self.chars == old(self).chars,
                self.wf(),
                skip_from(self.chars@, self.position as int, space_or_newline()) == skip_from(
                    self.chars@,
                    start,
                    space_or_newline(),
                ),
            decreases self.chars@.len() - self.position,
        {
            self.position = self.position + 1;
        }
    }

    /// Takes the characters up to the next `stop_char`, or to the end.
    pub fn pop_until_char(&mut self, stop_char: char) -> (r: String)
        requires
            old(self).wf(),
        ensures
            final(self).chars == old(self).chars,
            final(self).wf(),
            final(self).position == skip_from(
                old(self).chars@,
                old(self).position as int,
                not_in_group(seq![stop_char]),
            ),
            r@ == text_of(old(self).chars@.subrange(old(self).position as int, final(self).position as int)),
    {
        let mut stops: Vec<char> = Vec::new();
        stops.push(stop_char);
        assert(stops@ =~= seq![stop_char]);
        self.pop_until_chars(stops)
    }

    /// Takes the characters up to the next one of `stop_chars`, or to the end.
    pub fn pop_until_chars(&mut self, stop_chars: Vec<char>) -> (r: String)
        requires
            old(self).wf(),
        ensures
            final(self).chars == old(self).chars,
            final(self).wf(),
            final(self).position == skip_from(
                old(self).chars@,
                old(self).position as int,
                not_in_group(stop_chars@),
            ),
            r@ == text_of(old(self).chars@.subrange(old(self).position as int, final(self).position as int)),
    {
        let ghost start = self.position as int;
        let mut output = String::new();
        while self.position < self.chars.len()
            invariant
                self.chars == old(self).chars,
                self.wf(),
                start == old(self).position,
                start <= self.position,
                skip_from(self.chars@, self.position as int, not_in_group(stop_chars@))
                    == skip_from(self.chars@, start, not_in_group(stop_chars@)),
                output@ == text_of(self.chars@.subrange(start, self.position as int)),
            ensures
                self.chars == old(self).chars,
                self.wf(),
                self.position == skip_from(self.chars@, start, not_in_group(stop_chars@)),
                output@ == text_of(self.chars@.subrange(start, self.position as int)),
            decreases self.chars@.len() - self.position,
        {
            let c = self.chars[self.position].char;
            if contains_char(&stop_chars, c) {
                break;
            }
            let ghost before = self.position as int;
            output.push(c);
            self.position = self.position + 1;
            assert(self.chars@.subrange(start, before + 1) =~= self.chars@.subrange(
                start,
                before,
            ).push(self.chars@[before]));
            assert(output@ =~= text_of(self.chars@.subrange(start, self.position as int)));
        }
        output
    }

    /// A cursor at the start of `text`.
    pub fn new(text: String) -> (r: Self)
        requires
            text@.len() < u32::MAX,
        ensures
            r.wf(),
            r.position == 0,
            r.chars@ == decoded(text@),
    {
        let ghost s = text@;
        let mut chars: Vec<ParsedChar> = Vec::new();
        let mut line: u32 = 1;
        let mut column: u32 = 1;
        let mut it = text.as_str().chars();
        let ghost mut i: int = 0;
        loop
            invariant
                0 <= i <= s.len(),
                s.len() < u32::MAX,
                s == text@,
                it.remaining() == s.skip(i),
                chars@ == decoded(s).take(i),
                line as nat == position_after(s.take(i)).0,
                column as nat == position_after(s.take(i)).1,
                line <= i + 1,
                column <= i + 1,
            ensures
                chars@ == decoded(s),
            decreases s.len() - i,
        {
            match it.next() {
                Some(c) => {
                    proof {
                        assert(s.skip(i)[0] == s[i]);
                        lemma_decode_step(s, i);
                    }
                    chars.push(ParsedChar { char: c, line, column });
                    if c == '\n' {
                        line = line + 1;
                        column = 1;
                    } else {
                        column = column + 1;
                    }
                    proof {
                        assert(s.skip(i).drop_first() =~= s.skip(i + 1));
                        i = i + 1;
                    }
                },
                None => {
                    proof {
                        assert(s.skip(i).len() == 0);
                        lemma_decode_all(s, i);
                        assert(chars@ == decoded(s));
                    }
                    break;
                },
            }
        }
        ParseInput { position: 0, chars }
    }
}

} // verus!
