use vstd::prelude::*;

use crate::text::{decimal_text, push_char, push_decimal, push_str};

verus! {

/// Why a list index could not be read as a `usize`.
#[derive(Debug, Clone, Copy, PartialEq, Eq)]
pub enum IndexErrorKind {
    /// There was nothing to read.
    Empty,
    /// A character other than a decimal digit was found.
    InvalidDigit,
    /// The digits spell a number larger than `usize::MAX`.
    Overflow,
}

/// An error returned from a failed field path query.
///
/// Every `index` is a character position in the path text.
#[derive(Debug, PartialEq, Eq)]
pub enum ReflectPathError {
    /// An identifier was expected after the token ending at `index`.
    ExpectedIdent { index: usize },
    /// The current struct has no field with the given name.
    InvalidField { index: usize, field: String },
    /// The current tuple struct has no field with the given index.
    InvalidTupleStructIndex { index: usize, tuple_struct_index: usize },
    /// The current list has no value at the given index.
    InvalidListIndex { index: usize, list_index: usize },
    /// A token was found where none may stand.
    UnexpectedToken { index: usize, token: char },
    /// A token was expected but was not there.
    ExpectedToken { index: usize, token: char },
    /// A struct was expected but another kind of value was found.
    ExpectedStruct { index: usize },
    /// A list was expected but another kind of value was found.
    ExpectedList { index: usize },
    /// A list index was not a decimal number that fits in a `usize`.
    IndexParseError(IndexErrorKind),
    /// The value at the end of the path is not of the requested type.
    InvalidDowncast,
}

pub open spec fn is_digit(c: char) -> bool {
    '0' <= c && c <= '9'
}

pub open spec fn all_digits(s: Seq<char>) -> bool {
    forall|i: int| 0 <= i < s.len() ==> is_digit(#[trigger] s[i])
}

/// The number that a string of decimal digits spells.
pub open spec fn digits_value(s: Seq<char>) -> nat
    decreases s.len(),
{
    if s.len() == 0 {
        0
    } else {
        digits_value(s.drop_last()) * 10 + ((s.last() as u32 - '0' as u32) as nat)
    }
}

/// The digits of a number text, without its optional leading `+`.
pub open spec fn index_digits(s: Seq<char>) -> Seq<char> {
    if s.len() > 0 && s[0] == '+' {
        s.drop_first()
    } else {
        s
    }
}

/// How a text reads as a `usize`: an optional `+` followed by at least one decimal digit.
pub open spec fn index_of_text(s: Seq<char>) -> Result<usize, IndexErrorKind> {
    let d = index_digits(s);
    if s.len() == 0 {
        Err(IndexErrorKind::Empty)
    } else if d.len() == 0 || !all_digits(d) {
        Err(IndexErrorKind::InvalidDigit)
    } else if digits_value(d) > usize::MAX {
        Err(IndexErrorKind::Overflow)
    } else {
        Ok(digits_value(d) as usize)
    }
}

proof fn lemma_digits_prefix(s: Seq<char>, i: int)
    requires
        0 <= i < s.len(),
    ensures
        s.subrange(0, i + 1).drop_last() =~= s.subrange(0, i),
        s.subrange(0, i + 1).last() == s[i],
{
}

/// Reads a list or tuple index: an optional `+` followed by decimal digits.
pub fn parse_index(s: &str) -> (r: Result<usize, IndexErrorKind>)
    ensures
        r == index_of_text(s@),
{
    let len = s.unicode_len();
    if len == 0 {
        return Err(IndexErrorKind::Empty);
    }
    let start: usize = if s.get_char(0) == '+' { 1 } else { 0 };
    let ghost d = index_digits(s@);
    assert(d =~= s@.subrange(start as int, len as int));
    if start == len {
        return Err(IndexErrorKind::InvalidDigit);
    }
    let mut i: usize = start;
    let mut value: usize = 0;
    let mut overflow = false;
    while i < len
        invariant
            start <= i <= len,
            len == s@.len(),
            len > 0,
            d == index_digits(s@),
            d =~= s@.subrange(start as int, len as int),
            all_digits(s@.subrange(start as int, i as int)),
            !overflow ==> value as nat == digits_value(s@.subrange(start as int, i as int)),
            overflow ==> digits_value(s@.subrange(start as int, i as int)) > usize::MAX,
        decreases len - i,
    {
        let c = s.get_char(i);
        if !('0' <= c && c <= '9') {
            assert(!is_digit(d[i - start]));
            return Err(IndexErrorKind::InvalidDigit);
        }
        let digit = (c as u32 - '0' as u32) as usize;
        proof {
            lemma_digits_prefix(s@.subrange(start as int, len as int), i - start);
            assert(s@.subrange(start as int, i + 1) =~= s@.subrange(start as int, len as int).subrange(0, i - start + 1));
            assert(s@.subrange(start as int, i as int) =~= s@.subrange(start as int, len as int).subrange(0, i - start));
        }
        if !overflow {
            if value > (usize::MAX - digit) / 10 {
                overflow = true;
                assert(value * 10 + digit > usize::MAX) by (nonlinear_arith)
                    requires value > (usize::MAX - digit) / 10, digit <= 9;
            } else {
                assert(value * 10 + digit <= usize::MAX) by (nonlinear_arith)
                    requires value <= (usize::MAX - digit) / 10, digit <= 9;
                value = value * 10 + digit;
            }
        } else {
            let ghost p = digits_value(s@.subrange(start as int, i as int));
            assert(p * 10 + digit > usize::MAX) by (nonlinear_arith)
                requires p > usize::MAX;
        }
        i = i + 1;
    }
    assert(s@.subrange(start as int, i as int) =~= d);
    if overflow {
        Err(IndexErrorKind::Overflow)
    } else {
        Ok(value)
    }
}

/// One step of a field path, as the specifications see it.
pub enum AccessModel {
    Field(Seq<char>),
    TupleIndex(usize),
    ListIndex(usize),
}

/// One token of a field path, as the specifications see it.
pub enum TokenModel {
    Dot,
    OpenBracket,
    CloseBracket,
    Ident(Seq<char>),
}

pub open spec fn is_delimiter(c: char) -> bool {
    c == '.' || c == '[' || c == ']'
}

/// The end of the identifier that starts at `i`: the first delimiter at or
/// after `i`, or the end of the text.
pub open spec fn ident_end(s: Seq<char>, i: int) -> int
    decreases s.len() - i,
{
    if 0 <= i < s.len() && !is_delimiter(s[i]) {
        ident_end(s, i + 1)
    } else {
        i
    }
}

/// The token that starts at position `i`, with the position after it.
pub open spec fn token_at(s: Seq<char>, i: int) -> Option<(TokenModel, int)> {
    if i < 0 || i >= s.len() {
        None
    } else if s[i] == '.' {
        Some((TokenModel::Dot, i + 1))
    } else if s[i] == '[' {
        Some((TokenModel::OpenBracket, i + 1))
    } else if s[i] == ']' {
        Some((TokenModel::CloseBracket, i + 1))
    } else {
        Some((TokenModel::Ident(s.subrange(i, ident_end(s, i))), ident_end(s, i)))
    }
}

/// An identifier names a tuple field when it reads as an index, a struct field otherwise.
pub open spec fn ident_access(v: Seq<char>) -> AccessModel {
    match index_of_text(v) {
        Ok(n) => AccessModel::TupleIndex(n),
        Err(_) => AccessModel::Field(v),
    }
}

/// The access that a token starts, given the position `j` after the token:
/// the access or the error, and the position after the access.
pub open spec fn access_after(s: Seq<char>, tok: TokenModel, j: int) -> (
    Result<AccessModel, ReflectPathError>,
    int,
) {
    match tok {
        TokenModel::Dot => match token_at(s, j) {
            Some((TokenModel::Ident(v), k)) => (Ok(ident_access(v)), k),
            _ => (Err(ReflectPathError::ExpectedIdent { index: j as usize }), j),
        },
        TokenModel::OpenBracket => match token_at(s, j) {
            Some((TokenModel::Ident(v), k)) => match index_of_text(v) {
                Ok(n) => match token_at(s, k) {
                    Some((TokenModel::CloseBracket, m)) => (Ok(AccessModel::ListIndex(n)), m),
                    _ => (Err(ReflectPathError::ExpectedToken { index: j as usize, token: ']' }), j),
                },
                Err(e) => (Err(ReflectPathError::IndexParseError(e)), j),
            },
            _ => (Err(ReflectPathError::ExpectedIdent { index: j as usize }), j),
        },
        TokenModel::CloseBracket => (
            Err(ReflectPathError::UnexpectedToken { index: j as usize, token: ']' }),
            j,
        ),
        TokenModel::Ident(v) => (Ok(ident_access(v)), j),
    }
}

/// Parses the rest of a field path from position `i`, after the accesses `acc`.
/// Each access is kept with the position right after its first token.
pub open spec fn parse_from(s: Seq<char>, i: int, acc: Seq<(AccessModel, usize)>) -> Result<
    Seq<(AccessModel, usize)>,
    ReflectPathError,
>
    decreases s.len() - i,
{
    if 0 <= i < s.len() {
        let (tok, j) = token_at(s, i).unwrap();
        let (res, k) = access_after(s, tok, j);
        match res {
            Err(e) => Err(e),
            Ok(a) => if i < k <= s.len() {
                parse_from(s, k, acc.push((a, j as usize)))
            } else {
                Ok(acc)
            },
        }
    } else {
        Ok(acc)
    }
}

/// The accesses that the whole text `s` parses to.
pub open spec fn parse_field_path(s: Seq<char>) -> Result<Seq<(AccessModel, usize)>, ReflectPathError> {
    parse_from(s, 0, Seq::empty())
}

proof fn lemma_ident_end(s: Seq<char>, i: int)
    requires
        0 <= i <= s.len(),
    ensures
        i <= ident_end(s, i) <= s.len(),
        forall|k: int| i <= k < ident_end(s, i) ==> !is_delimiter(#[trigger] s[k]),
        ident_end(s, i) < s.len() ==> is_delimiter(s[ident_end(s, i)]),
    decreases s.len() - i,
{
    if i < s.len() && !is_delimiter(s[i]) {
        lemma_ident_end(s, i + 1);
    }
}

proof fn lemma_token_at(s: Seq<char>, i: int)
    requires
        0 <= i < s.len(),
    ensures
        token_at(s, i) is Some,
        i < token_at(s, i).unwrap().1 <= s.len(),
{
    lemma_ident_end(s, i);
}

proof fn lemma_access_after(s: Seq<char>, tok: TokenModel, j: int)
    requires
        0 <= j <= s.len(),
    ensures
        j <= access_after(s, tok, j).1 <= s.len(),
{
    if j < s.len() {
        lemma_token_at(s, j);
        let k = token_at(s, j).unwrap().1;
        if k < s.len() {
            lemma_token_at(s, k);
        }
    }
}

/// An owned step of a field path.
#[derive(Debug, Clone, PartialEq, Eq, Hash, PartialOrd, Ord)]
pub enum Access {
    Field(String),
    TupleIndex(usize),
    ListIndex(usize),
}

/// A borrowed step of a field path.
#[derive(Debug)]
pub enum AccessRef<'a> {
    Field(&'a str),
    TupleIndex(usize),
    ListIndex(usize),
}

impl View for Access {
    type V = AccessModel;

    open spec fn view(&self) -> AccessModel {
        match self {
            Access::Field(v) => AccessModel::Field(v@),
            Access::TupleIndex(n) => AccessModel::TupleIndex(*n),
            Access::ListIndex(n) => AccessModel::ListIndex(*n),
        }
    }
}

impl<'a> View for AccessRef<'a> {
    type V = AccessModel;

    open spec fn view(&self) -> AccessModel {
        match self {
            AccessRef::Field(v) => AccessModel::Field(v@),
            AccessRef::TupleIndex(n) => AccessModel::TupleIndex(*n),
            AccessRef::ListIndex(n) => AccessModel::ListIndex(*n),
        }
    }
}

impl Access {
    /// Borrows this access.
    pub fn to_ref(&self) -> (r: AccessRef<'_>)
        ensures
            r@ == self@,
    {
        match self {
            Access::Field(value) => AccessRef::Field(value.as_str()),
            Access::TupleIndex(value) => AccessRef::TupleIndex(*value),
            Access::ListIndex(value) => AccessRef::ListIndex(*value),
        }
    }

    /// A copy of this access.
    pub fn duplicate(&self) -> (r: Access)
        ensures
            r@ == self@,
    {
        match self {
            Access::Field(value) => Access::Field(value.clone()),
            Access::TupleIndex(value) => Access::TupleIndex(*value),
            Access::ListIndex(value) => Access::ListIndex(*value),
        }
    }
}

impl<'a> AccessRef<'a> {
    /// An owned copy of this access.
    pub fn to_owned(&self) -> (r: Access)
        ensures
            r@ == self@,
    {
        match self {
            AccessRef::Field(value) => {
                let v: &str = *value;
                Access::Field(v.to_owned())
            },
            AccessRef::TupleIndex(value) => Access::TupleIndex(*value),
            AccessRef::ListIndex(value) => Access::ListIndex(*value),
        }
    }
}

/// A token of a field path, borrowing identifiers from the path text.
pub enum Token<'a> {
    Dot,
    OpenBracket,
    CloseBracket,
    Ident(&'a str),
}

impl<'a> View for Token<'a> {
    type V = TokenModel;

    open spec fn view(&self) -> TokenModel {
        match self {
            Token::Dot => TokenModel::Dot,
            Token::OpenBracket => TokenModel::OpenBracket,
            Token::CloseBracket => TokenModel::CloseBracket,
            Token::Ident(v) => TokenModel::Ident(v@),
        }
    }
}

/// Splits a field path text into accesses, front to back.
pub struct PathParser<'a> {
    path: &'a str,
    len: usize,
    index: usize,
}

impl<'a> PathParser<'a> {
    /// The text being parsed.
    pub closed spec fn text(&self) -> Seq<char> {
        self.path@
    }

    /// The character position of the next token.
    pub closed spec fn position(&self) -> int {
        self.index as int
    }

    pub closed spec fn wf(&self) -> bool {
        &&& self.len as int == self.path@.len()
        &&& self.index <= self.len
    }

    /// A parser positioned at the start of `path`.
    pub fn new(path: &'a str) -> (r: Self)
        ensures
            r.wf(),
            r.text() == path@,
            r.position() == 0,
    {
        let len = path.unicode_len();
        PathParser { path, len, index: 0 }
    }

    /// Reads the next token and moves past it.
    pub fn next_token(&mut self) -> (r: Option<Token<'a>>)
        requires
            old(self).wf(),
        ensures
            final(self).wf(),
            final(self).text() == old(self).text(),
            match token_at(old(self).text(), old(self).position()) {
                None => r is None && final(self).position() == old(self).position(),
                Some((t, j)) => r is Some && r->0@ == t && final(self).position() == j,
            },
    {
        if self.index >= self.len {
            return None;
        }
        let c = self.path.get_char(self.index);
        if c == '.' {
            self.index = self.index + 1;
            return Some(Token::Dot);
        } else if c == '[' {
            self.index = self.index + 1;
            return Some(Token::OpenBracket);
        } else if c == ']' {
            self.index = self.index + 1;
            return Some(Token::CloseBracket);
        }
        let ghost s = self.path@;
        let ghost start = self.index as int;
        proof {
            lemma_ident_end(s, start);
        }
        let mut end: usize = self.index;
        loop
            invariant
                start <= end <= self.len,
                self.len as int == s.len(),
                s == self.path@,
                ident_end(s, start) == ident_end(s, end as int),
            ensures
                start <= end <= self.len,
                ident_end(s, start) == end as int,
            decreases self.len - end,
        {
            if end >= self.len {
                break;
            }
            if is_delimiter_char(self.path.get_char(end)) {
                break;
            }
            end = end + 1;
        }
        let ident = self.path.substring_char(self.index, end);
        self.index = end;
        Some(Token::Ident(ident))
    }

    /// Reads the access that `token`, just read, starts.
    pub fn token_to_access(&mut self, token: Token<'a>) -> (r: Result<AccessRef<'a>, ReflectPathError>)
        requires
            old(self).wf(),
        ensures
            final(self).wf(),
            final(self).text() == old(self).text(),
            ({
                let (res, k) = access_after(old(self).text(), token@, old(self).position());
                match res {
                    Ok(a) => r is Ok && r->Ok_0@ == a && final(self).position() == k,
                    Err(e) => r is Err && r->Err_0 == e,
                }
            }),
    {
        let current_index = self.index;
        match token {
            Token::Dot => {
                match self.next_token() {
                    Some(Token::Ident(value)) => Ok(ident_to_access(value)),
                    _ => Err(ReflectPathError::ExpectedIdent { index: current_index }),
                }
            },
            Token::OpenBracket => {
                let value = match self.next_token() {
                    Some(Token::Ident(value)) => value,
                    _ => {
                        return Err(ReflectPathError::ExpectedIdent { index: current_index });
                    },
                };
                let n = match parse_index(value) {
                    Ok(n) => n,
                    Err(e) => {
                        return Err(ReflectPathError::IndexParseError(e));
                    },
                };
                match self.next_token() {
                    Some(Token::CloseBracket) => Ok(AccessRef::ListIndex(n)),
                    _ => Err(ReflectPathError::ExpectedToken { index: current_index, token: ']' }),
                }
            },
            Token::CloseBracket => Err(
                ReflectPathError::UnexpectedToken { index: current_index, token: ']' },
            ),
            Token::Ident(value) => Ok(ident_to_access(value)),
        }
    }

    /// Reads the next access, with the position right after its first token.
    pub fn next(&mut self) -> (r: Option<(Result<AccessRef<'a>, ReflectPathError>, usize)>)
        requires
            old(self).wf(),
        ensures
            final(self).wf(),
            final(self).text() == old(self).text(),
            match token_at(old(self).text(), old(self).position()) {
                None => r is None,
                Some((t, j)) => {
                    let (res, k) = access_after(old(self).text(), t, j);
                    let (got, idx) = r.unwrap();
                    &&& r is Some
                    &&& idx == j
                    &&& match res {
                        Ok(a) => got is Ok && got->Ok_0@ == a && final(self).position() == k,
                        Err(e) => got is Err && got->Err_0 == e,
                    }
                },
            },
    {
        let token = match self.next_token() {
            Some(token) => token,
            None => {
                return None;
            },
        };
        let index = self.index;
        Some((self.token_to_access(token), index))
    }
}

fn is_delimiter_char(c: char) -> (r: bool)
    ensures
        r == is_delimiter(c),
{
    c == '.' || c == '[' || c == ']'
}

fn ident_to_access<'a>(value: &'a str) -> (r: AccessRef<'a>)
    ensures
        r@ == ident_access(value@),
{
    match parse_index(value) {
        Ok(n) => AccessRef::TupleIndex(n),
        Err(_) => AccessRef::Field(value),
    }
}

/// How one access is written in a path text.
pub open spec fn access_text(a: AccessModel) -> Seq<char> {
    match a {
        AccessModel::Field(v) => v,
        AccessModel::TupleIndex(n) => decimal_text(n as nat),
        AccessModel::ListIndex(n) => seq!['['] + decimal_text(n as nat) + seq![']'],
    }
}

/// How a sequence of accesses is written: each access in turn, separated by `.`.
pub open spec fn path_text(parts: Seq<(AccessModel, usize)>) -> Seq<char>
    decreases parts.len(),
{
    if parts.len() == 0 {
        Seq::empty()
    } else if parts.len() == 1 {
        access_text(parts[0].0)
    } else {
        path_text(parts.drop_last()) + seq!['.'] + access_text(parts.last().0)
    }
}

/// The position that a field pushed onto `parts` is recorded with: where its
/// name ends when it is the only access, else where its name starts in the
/// written path.
pub open spec fn pushed_position(parts: Seq<(AccessModel, usize)>, field: Seq<char>) -> int {
    if parts.len() == 0 {
        field.len() as int
    } else {
        path_text(parts).len() + 1int
    }
}

/// A path to a field within a value, as a sequence of accesses. Each access is
/// kept with the character position right after its first token in the text
/// it was parsed from, for error reports.
#[derive(Clone, Debug, PartialEq, Eq, Hash, PartialOrd, Ord)]
pub struct FieldPath(Vec<(Access, usize)>);

pub open spec fn parts_view(v: Seq<(Access, usize)>) -> Seq<(AccessModel, usize)> {
    v.map_values(|p: (Access, usize)| (p.0@, p.1))
}

impl View for FieldPath {
    type V = Seq<(AccessModel, usize)>;

    closed spec fn view(&self) -> Seq<(AccessModel, usize)> {
        parts_view(self.0@)
    }
}

impl FieldPath {
    /// Parses a field path such as `a.b[2].0`. An identifier that reads as a
    /// number is a tuple index; a number in brackets is a list index.
    pub fn parse(string: &str) -> (r: Result<FieldPath, ReflectPathError>)
        ensures
            match parse_field_path(string@) {
                Ok(v) => r is Ok && r->Ok_0@ == v,
                Err(e) => r is Err && r->Err_0 == e,
            },
    {
        let mut parts: Vec<(Access, usize)> = Vec::new();
        let mut parser = PathParser::new(string);
        assert(parts_view(parts@) =~= Seq::empty());
        loop
            invariant
                parser.wf(),
                parser.text() == string@,
                0 <= parser.position() <= string@.len(),
                parse_field_path(string@) == parse_from(string@, parser.position(), parts_view(parts@)),
            decreases string@.len() - parser.position(),
        {
            let ghost i = parser.position();
            let ghost acc = parts_view(parts@);
            proof {
                if 0 <= i < string@.len() {
                    lemma_token_at(string@, i);
                    let (tok, j) = token_at(string@, i).unwrap();
                    lemma_access_after(string@, tok, j);
                }
            }
            match parser.next() {
                None => {
                    return Ok(FieldPath(parts));
                },
                Some((res, idx)) => match res {
                    Err(e) => {
                        return Err(e);
                    },
                    Ok(a) => {
                        parts.push((a.to_owned(), idx));
                        assert(parts_view(parts@) =~= acc.push((a@, idx)));
                    },
                },
            }
        }
    }

    /// The number of accesses.
    pub fn len(&self) -> (r: usize)
        ensures
            r == self@.len(),
    {
        self.0.len()
    }

    /// Whether there are no accesses.
    pub fn is_empty(&self) -> (r: bool)
        ensures
            r == (self@.len() == 0),
    {
        self.0.len() == 0
    }

    /// The accesses in order, each with its recorded position.
    pub fn iter(&self) -> (r: &[(Access, usize)])
        ensures
            parts_view(r@) == self@,
    {
        self.0.as_slice()
    }

    /// Writes the path as text: the accesses separated by `.`, list indices in brackets.
    pub fn to_path_string(&self) -> (r: String)
        ensures
            r@ == path_text(self@),
    {
        let mut out = String::new();
        let mut i: usize = 0;
        while i < self.0.len()
            invariant
                i <= self.0@.len(),
                out@ == path_text(self@.take(i as int)),
            decreases self.0@.len() - i,
        {
            if i > 0 {
                push_char(&mut out, '.');
            }
            match &self.0[i].0 {
                Access::Field(name) => push_str(&mut out, name.as_str()),
                Access::TupleIndex(n) => push_decimal(&mut out, *n),
                Access::ListIndex(n) => {
                    push_char(&mut out, '[');
                    push_decimal(&mut out, *n);
                    push_char(&mut out, ']');
                },
            }
            proof {
                let t = self@.take(i + 1);
                assert(t.drop_last() =~= self@.take(i as int));
                assert(self@[i as int] == (self.0@[i as int].0@, self.0@[i as int].1));
            }
            i = i + 1;
            assert(out@ =~= path_text(self@.take(i as int)));
        }
        assert(self@.take(i as int) =~= self@);
        out
    }

    /// Adds a struct field access at the end.
    pub fn push(&mut self, field: &str)
        requires
            path_text(old(self)@).len() + 1 <= usize::MAX,
        ensures
            final(self)@ == old(self)@.push(
                (AccessModel::Field(field@), pushed_position(old(self)@, field@) as usize),
            ),
    {
        let position: usize = if self.0.len() == 0 {
            field.unicode_len()
        } else {
            self.to_path_string().as_str().unicode_len() + 1
        };
        let ghost old_parts = self.0@;
        self.0.push((Access::Field(field.to_owned()), position));
        assert(parts_view(self.0@) =~= parts_view(old_parts).push(
            (AccessModel::Field(field@), position),
        ));
    }

    /// Removes the last access and returns it, if there is one.
    pub fn pop(&mut self) -> (r: Option<Access>)
        ensures
            old(self)@.len() == 0 ==> r is None && final(self)@ == old(self)@,
            old(self)@.len() > 0 ==> r is Some && r->0@ == old(self)@.last().0 && final(self)@
                == old(self)@.drop_last(),
    {
        let ghost old_parts = self.0@;
        match self.0.pop() {
            Some((access, _)) => {
                assert(parts_view(self.0@) =~= parts_view(old_parts).drop_last());
                Some(access)
            },
            None => None,
        }
    }
}

} // verus!
