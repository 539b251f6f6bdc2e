//! Tokenising master files: entries made of words, with comments, quoted
//! words, escapes and parenthesised continuation lines.

use vstd::prelude::*;

verus! {

/// A position in a master file, both counted from one.
#[derive(Clone, Copy, Debug, PartialEq, Eq, Structural)]
pub struct Pos {
    pub line: usize,
    pub col: usize,
}

/// What is wrong with a master file's text.
#[derive(Clone, Copy, Debug, PartialEq, Eq, Structural)]
pub enum SyntaxError {
    /// A `\` at the end of the input.
    EscapeAtEof,
    /// A `\DDD` escape that is not three digits of a value up to 255.
    BadEscape,
    /// A quoted word that the input ends inside of.
    UnterminatedQuote,
    /// A `(` inside a group, or a `)` outside one.
    BadParen,
    /// The input ends inside a group.
    UnclosedParen,
    /// A number that is malformed or too large.
    BadNumber,
    /// A label longer than 63 octets, or empty inside a name.
    BadLabel,
    /// A name longer than 255 octets.
    NameTooLong,
    /// A relative name, or `@`, with no origin to complete it.
    NoOrigin,
    /// An entry without an owner, where there is no earlier record.
    NoOwner,
    /// A record without a TTL, where no `$TTL` came before.
    NoTtl,
    /// A record type that is not known.
    UnknownType,
    /// Record data that does not fit its type.
    BadRdata,
    /// A directive without the words it needs.
    BadDirective,
}

/// A syntax error and where the entry it was found in ends.
#[derive(Clone, Copy, Debug, PartialEq, Eq, Structural)]
pub struct ScanError {
    pub error: SyntaxError,
    pub pos: Pos,
}

/// A word of an entry, its escapes kept as written.
#[derive(Debug)]
pub struct Word {
    pub raw: Vec<u8>,
    pub quoted: bool,
}

/// The words of one entry, and whether it began with blank space (and so
/// has no owner of its own).
#[derive(Debug)]
pub struct Line {
    pub indented: bool,
    pub words: Vec<Word>,
}

/// A cursor over the bytes of a master file.
#[derive(Debug)]
pub struct Scanner {
    buf: Vec<u8>,
    pos: usize,
    line: usize,
    col: usize,
}

pub open spec fn is_blank(c: u8) -> bool {
    c == 32 || c == 9 || c == 13
}

/// Bytes that end an unquoted word.
pub open spec fn ends_word(c: u8) -> bool {
    is_blank(c) || c == 10 || c == 59 || c == 40 || c == 41 || c == 34
}

/// Where the tokeniser stands: between words, inside an unquoted or a
/// quoted word (with what it holds so far, escapes as written), or inside
/// a comment.
pub ghost enum LexState {
    Between,
    Plain(Seq<u8>),
    Quoted(Seq<u8>),
    Comment,
}

pub open spec fn lex_rank(st: LexState) -> int {
    match st {
        LexState::Plain(_) | LexState::Comment => 1,
        _ => 0,
    }
}

/// The words of the entry that starts at position `i` of `s`, each with
/// whether it was quoted, and where the entry ends; or the error in it.
/// An entry ends at a line feed outside a group opened by `(` and closed
/// by `)`; `;` begins a comment up to the end of the line; `"` quotes a
/// word; `\` makes the next byte part of the word.
pub open spec fn lex(s: Seq<u8>, i: int, st: LexState, group: bool, words: Seq<(Seq<u8>, bool)>)
    -> Result<(Seq<(Seq<u8>, bool)>, int), SyntaxError>
    decreases (s.len() - i) * 2 + lex_rank(st) when 0 <= i <= s.len()
{
    if i >= s.len() {
        match st {
            LexState::Plain(w) => lex(s, i, LexState::Between, group, words.push((w, false))),
            LexState::Quoted(_) => Err(SyntaxError::UnterminatedQuote),
            _ => if group { Err(SyntaxError::UnclosedParen) } else { Ok((words, s.len() as int)) },
        }
    } else {
        let c = s[i];
        match st {
            LexState::Comment => if c == 10 {
                lex(s, i, LexState::Between, group, words)
            } else {
                lex(s, i + 1, LexState::Comment, group, words)
            },
            LexState::Plain(w) => if ends_word(c) {
                lex(s, i, LexState::Between, group, words.push((w, false)))
            } else if c == 92 {
                if i + 1 >= s.len() {
                    Err(SyntaxError::EscapeAtEof)
                } else {
                    lex(s, i + 2, LexState::Plain(w.push(c).push(s[i + 1])), group, words)
                }
            } else {
                lex(s, i + 1, LexState::Plain(w.push(c)), group, words)
            },
            LexState::Quoted(w) => if c == 34 {
                lex(s, i + 1, LexState::Between, group, words.push((w, true)))
            } else if c == 92 {
                if i + 1 >= s.len() {
                    Err(SyntaxError::EscapeAtEof)
                } else {
                    lex(s, i + 2, LexState::Quoted(w.push(c).push(s[i + 1])), group, words)
                }
            } else {
                lex(s, i + 1, LexState::Quoted(w.push(c)), group, words)
            },
            LexState::Between => if c == 10 {
                if group { lex(s, i + 1, st, group, words) } else { Ok((words, i + 1)) }
            } else if is_blank(c) {
                lex(s, i + 1, st, group, words)
            } else if c == 59 {
                lex(s, i + 1, LexState::Comment, group, words)
            } else if c == 40 {
                if group { Err(SyntaxError::BadParen) } else { lex(s, i + 1, st, true, words) }
            } else if c == 41 {
                if !group { Err(SyntaxError::BadParen) } else { lex(s, i + 1, st, false, words) }
            } else if c == 34 {
                lex(s, i + 1, LexState::Quoted(Seq::empty()), group, words)
            } else if c == 92 {
                if i + 1 >= s.len() {
                    Err(SyntaxError::EscapeAtEof)
                } else {
                    lex(s, i + 2, LexState::Plain(seq![c, s[i + 1]]), group, words)
                }
            } else {
                lex(s, i + 1, LexState::Plain(seq![c]), group, words)
            },
        }
    }
}

/// The tokeniser's state for the scanner's mode and word so far.
pub open spec fn state_of(mode: u8, cur: Seq<u8>) -> LexState {
    if mode == 1 {
        LexState::Plain(cur)
    } else if mode == 2 {
        LexState::Quoted(cur)
    } else if mode == 3 {
        LexState::Comment
    } else {
        LexState::Between
    }
}

/// The words of a line as text and whether each was quoted.
pub open spec fn words_view(ws: Seq<Word>) -> Seq<(Seq<u8>, bool)> {
    ws.map_values(|w: Word| (w.raw@, w.quoted))
}

impl Scanner {
    /// The input.
    pub closed spec fn text(&self) -> Seq<u8> {
        self.buf@
    }

    /// The position in the input.
    pub closed spec fn at(&self) -> int {
        self.pos as int
    }

    pub closed spec fn wf(&self) -> bool {
        &&& self.pos <= self.buf@.len()
        &&& 1 <= self.line
        &&& 1 <= self.col
    }

    /// How much input is left.
    pub closed spec fn remaining(&self) -> nat {
        (self.buf@.len() - self.pos) as nat
    }

    /// A scanner at the start of `buf`.
    pub fn new(buf: Vec<u8>) -> (r: Scanner)
        ensures
            r.wf(),
            r.text() == buf@,
            r.at() == 0,
    {
        Scanner { buf, pos: 0, line: 1, col: 1 }
    }

    pub closed spec fn line_spec(&self) -> usize {
        self.line
    }

    pub closed spec fn col_spec(&self) -> usize {
        self.col
    }

    /// A well-formed scanner stands within its text.
    pub proof fn lemma_bounds(&self)
        requires
            self.wf(),
        ensures
            0 <= self.at() <= self.text().len(),
    {
    }

    /// The current position.
    pub fn pos(&self) -> (r: Pos)
        ensures
            r.line == self.line_spec(),
            r.col == self.col_spec(),
    {
        Pos { line: self.line, col: self.col }
    }

    fn err(&self, error: SyntaxError) -> (r: ScanError)
        ensures
            r.error == error,
    {
        ScanError { error, pos: self.pos() }
    }

    fn peek(&self) -> (r: Option<u8>)
        requires
            self.wf(),
        ensures
            r is None <==> self.remaining() == 0,
            r matches Some(c) ==> c == self.buf@[self.pos as int],
    {
        if self.pos < self.buf.len() {
            Some(self.buf[self.pos])
        } else {
            None
        }
    }

    fn bump(&mut self)
        requires
            old(self).wf(),
            old(self).remaining() > 0,
        ensures
            final(self).wf(),
            final(self).remaining() == old(self).remaining() - 1,
            final(self).buf@ == old(self).buf@,
            final(self).pos == old(self).pos + 1,
    {
        let p = self.pos;
        let len = self.buf.len();
        assert(p < len);
        if self.buf[p] == 10 {
            if self.line < usize::MAX {
                self.line = self.line + 1;
            }
            self.col = 1;
        } else {
            if self.col < usize::MAX {
                self.col = self.col + 1;
            }
        }
        self.pos = p + 1;
    }

    /// The words of the next entry, or `None` at the end of the input: the
    /// words that `lex` reads from the current position.
    pub fn next_line(&mut self) -> (r: Result<Option<Line>, ScanError>)
        requires
            old(self).wf(),
        ensures
            final(self).wf(),
            old(self).at() >= old(self).text().len() ==> r matches Ok(None),
            0 <= old(self).at() <= old(self).text().len(),
            0 <= final(self).at() <= final(self).text().len(),
            final(self).remaining() == final(self).text().len() - final(self).at(),
            old(self).remaining() == old(self).text().len() - old(self).at(),
            old(self).at() < old(self).text().len() ==> match lex(old(self).text(), old(self).at(), LexState::Between, false, Seq::empty()) {
                Ok((ws, j)) => (r matches Ok(Some(line)) && words_view(line.words@) == ws
                    && line.indented == (old(self).text()[old(self).at()] == 32 || old(self).text()[old(self).at()] == 9))
                    && final(self).at() == j,
                Err(e) => r matches Err(x) && x.error == e,
            },
            r matches Ok(Some(_)) ==> final(self).remaining() < old(self).remaining(),
            final(self).text() == old(self).text(),
    {
        let first = match self.peek() {
            None => {
                return Ok(None);
            },
            Some(c) => c,
        };
        let ghost s = self.buf@;
        let ghost start = self.pos as int;
        let indented = first == 32 || first == 9;
        let mut words: Vec<Word> = Vec::new();
        let mut group = false;
        let mut mode: u8 = 0;
        let mut cur: Vec<u8> = Vec::new();
        proof {
            assert(words_view(words@) =~= Seq::<(Seq<u8>, bool)>::empty());
            assert(cur@ =~= Seq::<u8>::empty());
        }
        loop
            invariant
                self.wf(),
                self.buf@ == s,
                start < s.len(),
                start <= self.pos,
                mode <= 3,
                mode == 0 || mode == 3 ==> cur@.len() == 0,
                lex(s, start, LexState::Between, false, Seq::empty())
                    == lex(s, self.pos as int, state_of(mode, cur@), group, words_view(words@)),
                self.pos == start ==> mode == 0 && !group && words@.len() == 0,
                s == old(self).buf@,
                start == old(self).pos,
                old(self).remaining() > 0,
                indented == (s[start] == 32 || s[start] == 9),
            decreases (s.len() - self.pos) * 2 + lex_rank(state_of(mode, cur@)),
        {
            let ghost st = state_of(mode, cur@);
            let c = match self.peek() {
                None => {
                    if mode == 1 {
                        proof {
                            assert(words_view(words@.push(Word { raw: cur, quoted: false }))
                                =~= words_view(words@).push((cur@, false)));
                        }
                        words.push(Word { raw: cur, quoted: false });
                        cur = Vec::new();
                        mode = 0;
                        continue;
                    }
                    if mode == 2 {
                        return Err(self.err(SyntaxError::UnterminatedQuote));
                    }
                    if group {
                        return Err(self.err(SyntaxError::UnclosedParen));
                    }
                    return Ok(Some(Line { indented, words }));
                },
                Some(c) => c,
            };
            if mode == 3 {
                if c == 10 {
                    mode = 0;
                } else {
                    self.bump();
                }
            } else if mode == 1 {
                if ends_word_exec(c) {
                    proof {
                        assert(words_view(words@.push(Word { raw: cur, quoted: false }))
                            =~= words_view(words@).push((cur@, false)));
                    }
                    words.push(Word { raw: cur, quoted: false });
                    cur = Vec::new();
                    mode = 0;
                } else {
                    cur.push(c);
                    self.bump();
                    if c == 92 {
                        match self.peek() {
                            None => {
                                return Err(self.err(SyntaxError::EscapeAtEof));
                            },
                            Some(d) => {
                                cur.push(d);
                                self.bump();
                            },
                        }
                    }
                }
            } else if mode == 2 {
                self.bump();
                if c == 34 {
                    proof {
                        assert(words_view(words@.push(Word { raw: cur, quoted: true }))
                            =~= words_view(words@).push((cur@, true)));
                    }
                    words.push(Word { raw: cur, quoted: true });
                    cur = Vec::new();
                    mode = 0;
                } else {
                    cur.push(c);
                    if c == 92 {
                        match self.peek() {
                            None => {
                                return Err(self.err(SyntaxError::EscapeAtEof));
                            },
                            Some(d) => {
                                cur.push(d);
                                self.bump();
                            },
                        }
                    }
                }
            } else if c == 10 {
                self.bump();
                if !group {
                    return Ok(Some(Line { indented, words }));
                }
            } else if c == 32 || c == 9 || c == 13 {
                self.bump();
            } else if c == 59 {
                self.bump();
                mode = 3;
            } else if c == 40 {
                if group {
                    return Err(self.err(SyntaxError::BadParen));
                }
                group = true;
                self.bump();
            } else if c == 41 {
                if !group {
                    return Err(self.err(SyntaxError::BadParen));
                }
                group = false;
                self.bump();
            } else if c == 34 {
                self.bump();
                mode = 2;
                proof {
                    assert(cur@ =~= Seq::<u8>::empty());
                }
            } else {
                cur.push(c);
                self.bump();
                mode = 1;
                proof {
                    assert(cur@ =~= seq![c]);
                }
                if c == 92 {
                    match self.peek() {
                        None => {
                            return Err(self.err(SyntaxError::EscapeAtEof));
                        },
                        Some(d) => {
                            cur.push(d);
                            self.bump();
                            proof {
                                assert(cur@ =~= seq![c, d]);
                            }
                        },
                    }
                }
            }
        }
    }
}

pub fn ends_word_exec(c: u8) -> (r: bool)
    ensures
        r == ends_word(c),
{
    c == 32 || c == 9 || c == 13 || c == 10 || c == 59 || c == 40 || c == 41 || c == 34
}

} // verus!
