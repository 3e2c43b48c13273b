use crate::token::Token;
use vstd::prelude::*;

verus! {

/// A scanned token as the specifications see it: identifiers keep their
/// spelling and numbers their mathematical value, whatever its size.
pub enum Lexeme {
    /// Any token without a name: a keyword, an operator, a punctuation mark,
    /// an unrecognised character, or the end of input.
    Fixed(Token),
    /// A run of decimal digits, with its value.
    Number(int),
    /// An identifier that is not a reserved word.
    Word(Seq<char>),
}

/// The three kinds of character runs that the tokenizer collects.
pub enum CharClass {
    Space,
    Digit,
    WordChar,
}

pub open spec fn is_digit(c: char) -> bool {
    '0' <= c <= '9'
}

pub open spec fn is_word_start(c: char) -> bool {
    ('a' <= c <= 'z') || ('A' <= c <= 'Z') || c == '_'
}

pub open spec fn in_class(c: char, k: CharClass) -> bool {
    match k {
        CharClass::Space => c == ' ' || c == '\n' || c == '\r' || c == '\t',
        CharClass::Digit => is_digit(c),
        CharClass::WordChar => is_word_start(c) || is_digit(c),
    }
}

/// The length of the longest prefix of `s` whose characters are all in `k`.
pub open spec fn span(s: Seq<char>, k: CharClass) -> nat
    decreases s.len(),
{
    if s.len() > 0 && in_class(s[0], k) {
        1 + span(s.drop_first(), k)
    } else {
        0
    }
}

/// The value of a string of decimal digits.
pub open spec fn decimal(d: Seq<char>) -> int
    decreases d.len(),
{
    if d.len() == 0 {
        0
    } else {
        10 * decimal(d.drop_last()) + (d.last() as int - '0' as int)
    }
}

/// The reserved words and their tokens.
pub open spec fn keyword_of(w: Seq<char>) -> Option<Token> {
    if w == seq!['i', 'f'] {
        Some(Token::If)
    } else if w == seq!['e', 'l', 's', 'e'] {
        Some(Token::Else)
    } else if w == seq!['i', 'n', 't'] {
        Some(Token::Int)
    } else if w == seq!['c', 'h', 'a', 'r'] {
        Some(Token::Char)
    } else if w == seq!['r', 'e', 't', 'u', 'r', 'n'] {
        Some(Token::Return)
    } else if w == seq!['w', 'h', 'i', 'l', 'e'] {
        Some(Token::While)
    } else if w == seq!['s', 'i', 'z', 'e', 'o', 'f'] {
        Some(Token::Sizeof)
    } else if w == seq!['p', 'r', 'i', 'n', 't', 'f'] {
        Some(Token::Printf)
    } else {
        None
    }
}

/// The operator or punctuation token at the start of the non-empty `t`, and
/// how many characters it takes; one character of lookahead decides between
/// the one- and two-character operators.
pub open spec fn symbol(t: Seq<char>) -> (Token, nat) {
    let c = t[0];
    let next: Option<char> = if t.len() > 1 {
        Some(t[1])
    } else {
        None
    };
    if c == '=' {
        if next == Some('=') { (Token::Eq, 2) } else { (Token::Assign, 1) }
    } else if c == '!' {
        if next == Some('=') { (Token::Ne, 2) } else { (Token::Unknown('!'), 1) }
    } else if c == '<' {
        if next == Some('=') {
            (Token::Le, 2)
        } else if next == Some('<') {
            (Token::Shl, 2)
        } else {
            (Token::Lt, 1)
        }
    } else if c == '>' {
        if next == Some('=') {
            (Token::Ge, 2)
        } else if next == Some('>') {
            (Token::Shr, 2)
        } else {
            (Token::Gt, 1)
        }
    } else if c == '|' {
        if next == Some('|') { (Token::Lor, 2) } else { (Token::Or, 1) }
    } else if c == '&' {
        if next == Some('&') { (Token::Lan, 2) } else { (Token::And, 1) }
    } else if c == '+' {
        if next == Some('+') { (Token::Inc, 2) } else { (Token::Add, 1) }
    } else if c == '-' {
        if next == Some('-') { (Token::Dec, 2) } else { (Token::Sub, 1) }
    } else if c == '*' {
        (Token::Mul, 1)
    } else if c == '/' {
        (Token::Div, 1)
    } else if c == '%' {
        (Token::Mod, 1)
    } else if c == '(' {
        (Token::LParen, 1)
    } else if c == ')' {
        (Token::RParen, 1)
    } else if c == ';' {
        (Token::Semicolon, 1)
    } else {
        (Token::Unknown(c), 1)
    }
}

/// The first token of `s` and the number of characters that it takes,
/// whitespace before it included.
pub open spec fn scan(s: Seq<char>) -> (Lexeme, nat) {
    let n = span(s, CharClass::Space);
    let t = s.skip(n as int);
    if t.len() == 0 {
        (Lexeme::Fixed(Token::Eof), n)
    } else if is_digit(t[0]) {
        let k = span(t, CharClass::Digit);
        (Lexeme::Number(decimal(t.take(k as int))), n + k)
    } else if is_word_start(t[0]) {
        let k = span(t, CharClass::WordChar);
        let w = t.take(k as int);
        match keyword_of(w) {
            Some(kw) => (Lexeme::Fixed(kw), n + k),
            None => (Lexeme::Word(w), n + k),
        }
    } else {
        (Lexeme::Fixed(symbol(t).0), n + symbol(t).1)
    }
}

/// The whole token stream of `s`, up to and including the end marker.
pub open spec fn lexemes(s: Seq<char>) -> Seq<Lexeme>
    decreases s.len(),
{
    let (l, n) = scan(s);
    if l == Lexeme::Fixed(Token::Eof) || n == 0 || n > s.len() {
        seq![l]
    } else {
        seq![l] + lexemes(s.skip(n as int))
    }
}

/// Whether `r`, as the tokenizer returns it, stands for the lexeme `l`: a
/// number literal too large for `i64` is reported as `None`.
pub open spec fn denotes(r: Option<Token>, l: Lexeme) -> bool {
    match l {
        Lexeme::Fixed(t) => r == Some(t),
        Lexeme::Number(v) => if v <= i64::MAX {
            r == Some(Token::Num(v as i64))
        } else {
            r is None
        },
        Lexeme::Word(w) => r matches Some(Token::Id(name)) && name@ == w,
    }
}

pub proof fn lemma_span_bound(s: Seq<char>, k: CharClass)
    ensures
        span(s, k) <= s.len(),
        forall|i: int| 0 <= i < span(s, k) ==> in_class(#[trigger] s[i], k),
        span(s, k) < s.len() ==> !in_class(s[span(s, k) as int], k),
    decreases s.len(),
{
    if s.len() > 0 && in_class(s[0], k) {
        lemma_span_bound(s.drop_first(), k);
        assert forall|i: int| 0 <= i < span(s, k) implies in_class(#[trigger] s[i], k) by {
            if i > 0 {
                assert(s[i] == s.drop_first()[i - 1]);
            }
        }
    }
}

/// A run of `k` characters of class `c` that is followed by the end or by a
/// character of another class is the span of `c`.
pub proof fn lemma_span_exact(s: Seq<char>, c: CharClass, k: int)
    requires
        0 <= k <= s.len(),
        forall|i: int| 0 <= i < k ==> in_class(#[trigger] s[i], c),
        k < s.len() ==> !in_class(s[k], c),
    ensures
        span(s, c) == k,
    decreases k,
{
    if k > 0 {
        assert forall|i: int| 0 <= i < k - 1 implies in_class(#[trigger] s.drop_first()[i], c) by {
            assert(s.drop_first()[i] == s[i + 1]);
        }
        lemma_span_exact(s.drop_first(), c, k - 1);
    }
}

/// A non-empty lexeme other than the end marker takes at least one character.
pub proof fn lemma_scan_progress(s: Seq<char>)
    ensures
        scan(s).1 <= s.len(),
        scan(s).0 != Lexeme::Fixed(Token::Eof) ==> scan(s).1 > 0,
        scan(s).0 == Lexeme::Fixed(Token::Eof) ==> scan(s).1 == s.len(),
{
    let n = span(s, CharClass::Space);
    lemma_span_bound(s, CharClass::Space);
    let t = s.skip(n as int);
    if t.len() > 0 {
        lemma_span_bound(t, CharClass::Digit);
        lemma_span_bound(t, CharClass::WordChar);
        if !is_digit(t[0]) && !is_word_start(t[0]) {
            assert(symbol(t).0 != Token::Eof);
        }
    }
}

/// A text of whitespace alone has the end marker as its one token.
pub proof fn lemma_whitespace_only(s: Seq<char>)
    requires
        forall|i: int| 0 <= i < s.len() ==> in_class(#[trigger] s[i], CharClass::Space),
    ensures
        scan(s) == (Lexeme::Fixed(Token::Eof), s.len()),
        lexemes(s) == seq![Lexeme::Fixed(Token::Eof)],
{
    lemma_span_exact(s, CharClass::Space, s.len() as int);
}

/// A reserved word, followed by the end of input or by a character that
/// cannot continue a word, is scanned as its keyword token, never as an
/// identifier.
pub proof fn lemma_keyword_scan(w: Seq<char>, rest: Seq<char>)
    requires
        keyword_of(w) is Some,
        rest.len() == 0 || !in_class(rest[0], CharClass::WordChar),
    ensures
        scan(w + rest) == (Lexeme::Fixed(keyword_of(w)->0), w.len()),
{
    let s = w + rest;
    assert(0 < w.len() && forall|i: int| 0 <= i < w.len() ==> 'a' <= #[trigger] w[i] <= 'z');
    lemma_span_exact(s, CharClass::Space, 0);
    assert(s.skip(0) =~= s);
    assert forall|i: int| 0 <= i < w.len() implies in_class(#[trigger] s[i], CharClass::WordChar) by {
        assert(s[i] == w[i]);
    }
    if rest.len() > 0 {
        assert(s[w.len() as int] == rest[0]);
    }
    lemma_span_exact(s, CharClass::WordChar, w.len() as int);
    assert(s.take(w.len() as int) =~= w);
}

/// The tokenizer: a cursor over the characters of a source text, and the
/// table of reserved words.
pub struct Lexer {
    pub chars: Vec<char>,
    pub pos: usize,
    pub keywords: Vec<(String, Token)>,
}

impl Lexer {
    /// The characters that are still to be read.
    pub open spec fn rest(&self) -> Seq<char> {
        self.chars@.skip(self.pos as int)
    }

    pub open spec fn wf(&self) -> bool {
        &&& self.pos <= self.chars.len()
        &&& forall|i: int|
            0 <= i < self.keywords.len() ==> keyword_of(#[trigger] self.keywords@[i].0@)
                == Some(self.keywords@[i].1)
        &&& forall|w: Seq<char>|
            #[trigger] keyword_of(w) is Some ==> exists|i: int|
                0 <= i < self.keywords.len() && #[trigger] self.keywords@[i].0@ == w
    }

    /// Creates a tokenizer at the start of `input`, with its own table of
    /// reserved words.
    pub fn new(input: &str) -> (r: Lexer)
        ensures
            r.wf(),
            r.chars@ == input@,
            r.pos == 0,
    {
        let mut chars: Vec<char> = Vec::new();
        for c in it: input.chars()
            invariant
                chars@ == it.seq().take(it.index()),
        {
            chars.push(c);
        }
        let mut keywords: Vec<(String, Token)> = Vec::new();
        keywords.push(("if".to_string(), Token::If));
        keywords.push(("else".to_string(), Token::Else));
        keywords.push(("int".to_string(), Token::Int));
        keywords.push(("char".to_string(), Token::Char));
        keywords.push(("return".to_string(), Token::Return));
        keywords.push(("while".to_string(), Token::While));
        keywords.push(("sizeof".to_string(), Token::Sizeof));
        keywords.push(("printf".to_string(), Token::Printf));
        proof {
            reveal_strlit("if");
            reveal_strlit("else");
            reveal_strlit("int");
            reveal_strlit("char");
            reveal_strlit("return");
            reveal_strlit("while");
            reveal_strlit("sizeof");
            reveal_strlit("printf");
            assert(keywords@[0].0@ =~= seq!['i', 'f']);
            assert(keywords@[1].0@ =~= seq!['e', 'l', 's', 'e']);
            assert(keywords@[2].0@ =~= seq!['i', 'n', 't']);
            assert(keywords@[3].0@ =~= seq!['c', 'h', 'a', 'r']);
            assert(keywords@[4].0@ =~= seq!['r', 'e', 't', 'u', 'r', 'n']);
            assert(keywords@[5].0@ =~= seq!['w', 'h', 'i', 'l', 'e']);
            assert(keywords@[6].0@ =~= seq!['s', 'i', 'z', 'e', 'o', 'f']);
            assert(keywords@[7].0@ =~= seq!['p', 'r', 'i', 'n', 't', 'f']);
        }
        Lexer { chars, pos: 0, keywords }
    }

    /// The character under the cursor, if any is left.
    fn current(&self) -> (r: Option<char>)
        ensures
            r == (if self.pos < self.chars.len() {
                Some(self.chars@[self.pos as int])
            } else {
                None
            }),
    {
        if self.pos < self.chars.len() {
            Some(self.chars[self.pos])
        } else {
            None
        }
    }

    /// Whether the character under the cursor is `c`.
    fn peek_is(&self, c: char) -> (r: bool)
        ensures
            r == (self.pos < self.chars.len() && self.chars@[self.pos as int] == c),
    {
        self.pos < self.chars.len() && self.chars[self.pos] == c
    }

    /// Consumes `c` when it is the character under the cursor.
    fn take_if(&mut self, c: char) -> (r: bool)
        requires
            old(self).wf(),
        ensures
            final(self).wf(),
            final(self).chars == old(self).chars,
            final(self).keywords == old(self).keywords,
            r == (old(self).pos < old(self).chars.len() && old(self).chars@[old(self).pos as int]
                == c),
            final(self).pos == old(self).pos + if r { 1int } else { 0int },
    {
        if self.peek_is(c) {
            self.advance();
            true
        } else {
            false
        }
    }

    /// Moves the cursor past the current character.
    fn advance(&mut self)
        requires
            old(self).wf(),
            old(self).pos < old(self).chars.len(),
        ensures
            final(self).wf(),
            final(self).chars == old(self).chars,
            final(self).keywords == old(self).keywords,
            final(self).pos == old(self).pos + 1,
    {
        self.pos = self.pos + 1;
    }

    /// Collects the characters from the cursor on for as long as they meet
    /// `condition`.
    fn collect_while<F: Fn(char) -> bool>(&mut self, condition: F) -> (r: String)
        requires
            old(self).wf(),
            forall|c: char| condition.requires((c,)),
        ensures
            final(self).wf(),
            final(self).chars == old(self).chars,
            final(self).keywords == old(self).keywords,
            old(self).pos <= final(self).pos <= final(self).chars.len(),
            r@ == old(self).chars@.subrange(old(self).pos as int, final(self).pos as int),
            forall|i: int|
                old(self).pos <= i < final(self).pos ==> condition.ensures(
                    (#[trigger] old(self).chars@[i],),
                    true,
                ),
            final(self).pos < final(self).chars.len() ==> condition.ensures(
                (old(self).chars@[final(self).pos as int],),
                false,
            ),
    {
        let ghost start = self.pos as int;
        let mut result = String::new();
        let mut stopped = false;
        while !stopped && self.pos < self.chars.len()
            invariant
                self.wf(),
                self.chars == old(self).chars,
                self.keywords == old(self).keywords,
                start == old(self).pos,
                start <= self.pos <= self.chars.len(),
                forall|c: char| condition.requires((c,)),
                result@ == self.chars@.subrange(start, self.pos as int),
                forall|i: int|
                    start <= i < self.pos ==> condition.ensures((#[trigger] self.chars@[i],), true),
                stopped ==> self.pos < self.chars.len() && condition.ensures(
                    (self.chars@[self.pos as int],),
                    false,
                ),
            decreases self.chars.len() - self.pos, if stopped { 0int } else { 1int },
        {
            let c = self.chars[self.pos];
            if condition(c) {
                push_char(&mut result, c);
                self.advance();
                assert(result@ =~= self.chars@.subrange(start, self.pos as int));
            } else {
                stopped = true;
            }
        }
        result
    }

    /// Reads the run of digits under the cursor; `None` when its value does
    /// not fit in `i64`.
    fn read_number(&mut self) -> (r: Option<i64>)
        requires
            old(self).wf(),
        ensures
            final(self).wf(),
            final(self).chars == old(self).chars,
            final(self).keywords == old(self).keywords,
            final(self).pos == old(self).pos + span(old(self).rest(), CharClass::Digit),
            ({
                let v = decimal(
                    old(self).rest().take(span(old(self).rest(), CharClass::Digit) as int),
                );
                if v <= i64::MAX {
                    r == Some(v as i64)
                } else {
                    r is None
                }
            }),
    {
        let start = self.pos;
        let mut value: i64 = 0;
        let mut overflow = false;
        while self.pos < self.chars.len() && '0' <= self.chars[self.pos] && self.chars[self.pos]
            <= '9'
            invariant
                self.wf(),
                self.chars == old(self).chars,
                self.keywords == old(self).keywords,
                start == old(self).pos,
                start <= self.pos <= self.chars.len(),
                forall|i: int| start <= i < self.pos ==> is_digit(#[trigger] self.chars@[i]),
                value >= 0,
                !overflow ==> value == decimal(self.chars@.subrange(start as int, self.pos as int)),
                overflow ==> decimal(self.chars@.subrange(start as int, self.pos as int))
                    > i64::MAX,
            decreases self.chars.len() - self.pos,
        {
            let c = self.chars[self.pos];
            let d = (c as u32 - '0' as u32) as i64;
            let ghost before = self.chars@.subrange(start as int, self.pos as int);
            if !overflow {
                match value.checked_mul(10) {
                    Some(m) => match m.checked_add(d) {
                        Some(v) => value = v,
                        None => overflow = true,
                    },
                    None => overflow = true,
                }
            }
            self.advance();
            let ghost after = self.chars@.subrange(start as int, self.pos as int);
            assert(after.drop_last() =~= before);
            assert(after.last() == c);
            assert(decimal(after) == 10 * decimal(before) + (c as int - '0' as int));
        }
        proof {
            let k = self.pos - start;
            let rest = old(self).rest();
            assert forall|i: int| 0 <= i < k implies in_class(#[trigger] rest[i], CharClass::Digit) by {
                assert(rest[i] == self.chars@[start + i]);
            }
            lemma_span_exact(rest, CharClass::Digit, k);
            assert(rest.take(k) =~= self.chars@.subrange(start as int, self.pos as int));
        }
        if overflow {
            None
        } else {
            Some(value)
        }
    }

    /// Returns the next token, skipping whitespace before it, or the end
    /// marker once the input is used up (again on every later call). A
    /// number literal too large for `i64` gives `None`, past its digits.
    pub fn next_token(&mut self) -> (r: Option<Token>)
        requires
            old(self).wf(),
        ensures
            final(self).wf(),
            final(self).chars == old(self).chars,
            final(self).keywords == old(self).keywords,
            final(self).pos == old(self).pos + scan(old(self).rest()).1,
            denotes(r, scan(old(self).rest()).0),
    {
        let ghost s = self.rest();
        while self.pos < self.chars.len() && (self.chars[self.pos] == ' ' || self.chars[self.pos]
            == '\n' || self.chars[self.pos] == '\r' || self.chars[self.pos] == '\t')
            invariant
                self.wf(),
                self.chars == old(self).chars,
                self.keywords == old(self).keywords,
                s == old(self).rest(),
                old(self).pos <= self.pos <= self.chars.len(),
                span(s, CharClass::Space) == (self.pos - old(self).pos) + span(
                    self.rest(),
                    CharClass::Space,
                ),
            decreases self.chars.len() - self.pos,
        {
            let ghost before = self.rest();
            self.advance();
            assert(self.rest() =~= before.drop_first());
        }
        proof {
            assert(s.skip(self.pos - old(self).pos) =~= self.rest());
        }
        let c = match self.current() {
            None => {
                return Some(Token::Eof);
            },
            Some(c) => c,
        };
        if '0' <= c && c <= '9' {
            return match self.read_number() {
                Some(v) => Some(Token::Num(v)),
                None => None,
            };
        }
        if ('a' <= c && c <= 'z') || ('A' <= c && c <= 'Z') || c == '_' {
            let ghost t = self.rest();
            let start = self.pos;
            let ident = self.collect_while(is_word_char);
            proof {
                let k = self.pos - start;
                assert forall|i: int| 0 <= i < k implies in_class(
                    #[trigger] t[i],
                    CharClass::WordChar,
                ) by {
                    assert(t[i] == self.chars@[start + i]);
                }
                lemma_span_exact(t, CharClass::WordChar, k);
                assert(t.take(k) =~= ident@);
            }
            return match self.keyword(&ident) {
                Some(kw) => Some(kw),
                None => Some(Token::Id(ident)),
            };
        }
        self.advance();
        let tok = match c {
            '=' => if self.take_if('=') {
                Token::Eq
            } else {
                Token::Assign
            },
            '!' => if self.take_if('=') {
                Token::Ne
            } else {
                Token::Unknown('!')
            },
            '<' => if self.take_if('=') {
                Token::Le
            } else if self.take_if('<') {
                Token::Shl
            } else {
                Token::Lt
            },
            '>' => if self.take_if('=') {
                Token::Ge
            } else if self.take_if('>') {
                Token::Shr
            } else {
                Token::Gt
            },
            '|' => if self.take_if('|') {
                Token::Lor
            } else {
                Token::Or
            },
            '&' => if self.take_if('&') {
                Token::Lan
            } else {
                Token::And
            },
            '+' => if self.take_if('+') {
                Token::Inc
            } else {
                Token::Add
            },
            '-' => if self.take_if('-') {
                Token::Dec
            } else {
                Token::Sub
            },
            '*' => Token::Mul,
            '/' => Token::Div,
            '%' => Token::Mod,
            '(' => Token::LParen,
            ')' => Token::RParen,
            ';' => Token::Semicolon,
            _ => Token::Unknown(c),
        };
        Some(tok)
    }

    /// The token of a reserved word, looked up in this tokenizer's table.
    fn keyword(&self, w: &String) -> (r: Option<Token>)
        requires
            self.wf(),
        ensures
            r == keyword_of(w@),
    {
        let mut i: usize = 0;
        while i < self.keywords.len()
            invariant
                self.wf(),
                i <= self.keywords.len(),
                forall|j: int| 0 <= j < i ==> (#[trigger] self.keywords@[j]).0@ != w@,
            decreases self.keywords.len() - i,
        {
            if self.keywords[i].0 == *w {
                return Some(self.keywords[i].1.clone());
            }
            i = i + 1;
        }
        None
    }
}

/// Whether `c` may continue an identifier.
fn is_word_char(c: char) -> (r: bool)
    ensures
        r == in_class(c, CharClass::WordChar),
{
    ('a' <= c && c <= 'z') || ('A' <= c && c <= 'Z') || c == '_' || ('0' <= c && c <= '9')
}

/// Relies on `String::push`: appends one character.
#[verifier::external_body]
fn push_char(s: &mut String, c: char)
    ensures
        final(s)@ == old(s)@.push(c),
{
    s.push(c);
}

} // verus!
