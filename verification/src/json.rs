//! JSON values and the parser that reads them.

use crate::grammar;
use crate::grammar::JsonModel;
use crate::numeral::parts_of;
use crate::text::{chars_of, owned, same_text, string_of_range};
use vstd::prelude::*;

verus! {

/// `char::from_u32`: the character with the given number. There is none for the numbers of
/// surrogates and for those above the last code point.
pub assume_specification[ char::from_u32 ](i: u32) -> (out: Option<char>)
    ensures
        match out {
            Some(c) => grammar::is_scalar(i as int) && c as int == i,
            None => !grammar::is_scalar(i as int),
        },
;

/// A JSON value.
#[derive(Debug)]
pub enum Json {
    Null,
    Bool(()),
    /// A number, as the numeral that it was written with.
    Number(String),
    String(String),
    Array(Vec<Json>),
    /// The fields in the order in which they were read; of equal keys the last one counts.
    Object(Vec<(String, Json)>),
}

impl View for Json {
    type V = JsonModel;

    open spec fn view(&self) -> JsonModel {
        json_model(*self)
    }
}

/// The mathematical value of a JSON value.
pub open spec fn json_model(value: Json) -> JsonModel
    decreases value,
{
    match value {
        Json::Null => JsonModel::Null,
        Json::Bool(_) => JsonModel::Bool,
        Json::Number(n) => JsonModel::Number(n@),
        Json::String(s) => JsonModel::String(s@),
        Json::Array(items) => JsonModel::Array(item_models(items@)),
        Json::Object(fields) => JsonModel::Object(field_models(fields@)),
    }
}

/// The values of a sequence of items.
pub open spec fn item_models(items: Seq<Json>) -> Seq<JsonModel>
    decreases items,
{
    if items.len() == 0 {
        seq![]
    } else {
        item_models(items.drop_last()).push(json_model(items.last()))
    }
}

/// The values of a sequence of fields by key, later fields replacing earlier ones.
pub open spec fn field_models(fields: Seq<(String, Json)>) -> Map<Seq<char>, JsonModel>
    decreases fields,
{
    if fields.len() == 0 {
        Map::empty()
    } else {
        field_models(fields.drop_last()).insert(fields.last().0@, json_model(fields.last().1))
    }
}

/// The items are modelled one by one.
pub proof fn lemma_item_models(items: Seq<Json>)
    ensures
        item_models(items).len() == items.len(),
        forall|i: int|
            0 <= i < items.len() ==> item_models(items)[i] == json_model(#[trigger] items[i]),
    decreases items.len(),
{
    if items.len() > 0 {
        lemma_item_models(items.drop_last());
        assert forall|i: int| 0 <= i < items.len() implies item_models(items)[i] == json_model(
            #[trigger] items[i],
        ) by {
            if i < items.len() - 1 {
                assert(items.drop_last()[i] == items[i]);
            }
        }
    }
}

/// The field of an object, where the value is one and has it.
pub open spec fn field(value: JsonModel, key: Seq<char>) -> Option<JsonModel> {
    match value {
        JsonModel::Object(fields) if fields.dom().contains(key) => Some(fields[key]),
        _ => None,
    }
}

/// What a path of keys leads to.
pub open spec fn at_path(value: JsonModel, path: Seq<Seq<char>>) -> Option<JsonModel>
    decreases path.len(),
{
    if path.len() == 0 {
        Some(value)
    } else {
        match field(value, path[0]) {
            Some(inner) => at_path(inner, path.drop_first()),
            None => None,
        }
    }
}

/// The text of a value that is a string.
pub open spec fn as_string(value: JsonModel) -> Option<Seq<char>> {
    match value {
        JsonModel::String(s) => Some(s),
        _ => None,
    }
}

/// The numeral of a value that is a number.
pub open spec fn as_number(value: JsonModel) -> Option<Seq<char>> {
    match value {
        JsonModel::Number(n) => Some(n),
        _ => None,
    }
}

/// The items of a value that is an array.
pub open spec fn as_array(value: JsonModel) -> Option<Seq<JsonModel>> {
    match value {
        JsonModel::Array(items) => Some(items),
        _ => None,
    }
}

/// The texts of a path of keys.
pub open spec fn path_texts(path: Seq<&str>) -> Seq<Seq<char>> {
    path.map_values(|k: &str| k@)
}

/// The model of an optional value.
pub open spec fn opt_model(value: Option<&Json>) -> Option<JsonModel> {
    match value {
        Some(v) => Some(v@),
        None => None,
    }
}

impl Json {
    /// The field of an object.
    pub fn get(&self, key: &str) -> (out: Option<&Json>)
        ensures
            opt_model(out) == field(self@, key@),
    {
        match self {
            Json::Object(fields) => {
                let mut i: usize = fields.len();
                assert(fields@.take(i as int) =~= fields@);
                while i > 0
                    invariant
                        i <= fields@.len(),
                        self@ == JsonModel::Object(field_models(fields@)),
                        field_models(fields@).dom().contains(key@) == field_models(
                            fields@.take(i as int),
                        ).dom().contains(key@),
                        field_models(fields@)[key@] == field_models(fields@.take(i as int))[key@],
                    decreases i,
                {
                    let ghost seen = fields@.take(i as int);
                    assert(seen.drop_last() =~= fields@.take(i - 1));
                    assert(seen.last() == fields@[i - 1]);
                    if same_text(fields[i - 1].0.as_str(), key) {
                        return Some(&fields[i - 1].1);
                    }
                    i -= 1;
                }
                None
            },
            _ => None,
        }
    }

    /// What a path of keys leads to.
    pub fn get_path(&self, path: &[&str]) -> (out: Option<&Json>)
        ensures
            opt_model(out) == at_path(self@, path_texts(path@)),
    {
        let mut cur: &Json = self;
        let ghost keys = path_texts(path@);
        assert(keys.skip(0) =~= keys);
        for i in 0..path.len()
            invariant
                keys == path_texts(path@),
                at_path(cur@, keys.skip(i as int)) == at_path(self@, keys),
        {
            assert(keys.skip(i as int)[0] == path@[i as int]@);
            assert(keys.skip(i as int).drop_first() =~= keys.skip(i + 1));
            match cur.get(path[i]) {
                Some(inner) => {
                    cur = inner;
                },
                None => {
                    return None;
                },
            }
        }
        Some(cur)
    }

    /// The text of a string.
    pub fn string(&self) -> (out: Option<&str>)
        ensures
            match out {
                Some(s) => as_string(self@) == Some(s@),
                None => as_string(self@) is None,
            },
    {
        match self {
            Json::String(s) => Some(s.as_str()),
            _ => None,
        }
    }

    /// The numeral of a number.
    pub fn number(&self) -> (out: Option<&str>)
        ensures
            match out {
                Some(n) => as_number(self@) == Some(n@),
                None => as_number(self@) is None,
            },
    {
        match self {
            Json::Number(n) => Some(n.as_str()),
            _ => None,
        }
    }

    /// The items of an array.
    pub fn array(&self) -> (out: Option<&[Json]>)
        ensures
            match out {
                Some(items) => as_array(self@) == Some(item_models(items@)),
                None => as_array(self@) is None,
            },
    {
        match self {
            Json::Array(items) => Some(items.as_slice()),
            _ => None,
        }
    }
}

/// A reader over the characters of a JSON text.
pub struct Parser {
    chars: Vec<char>,
    pos: usize,
}

impl Parser {
    /// Whether the position lies within the text.
    pub closed spec fn valid(&self) -> bool {
        self.pos <= self.chars@.len()
    }

    /// The text that is still to be read.
    pub closed spec fn rest(&self) -> Seq<char> {
        self.chars@.skip(self.pos as int)
    }

    /// A reader at the start of the text.
    pub fn new(input: &str) -> (p: Parser)
        ensures
            p.valid(),
            p.rest() == input@,
    {
        let chars = chars_of(input);
        assert(chars@.skip(0) =~= chars@);
        Parser { chars, pos: 0 }
    }

    /// The next character, which stays where it is.
    pub fn peek(&self) -> (out: Option<char>)
        requires
            self.valid(),
        ensures
            match out {
                Some(c) => self.rest().len() > 0 && self.rest()[0] == c,
                None => self.rest().len() == 0,
            },
    {
        if self.pos < self.chars.len() {
            Some(self.chars[self.pos])
        } else {
            None
        }
    }

    /// Takes the next character.
    pub fn bump(&mut self) -> (out: Option<char>)
        requires
            old(self).valid(),
        ensures
            final(self).valid(),
            match out {
                Some(c) => {
                    &&& old(self).rest().len() > 0
                    &&& old(self).rest()[0] == c
                    &&& final(self).rest() == old(self).rest().drop_first()
                },
                None => old(self).rest().len() == 0 && final(self).rest() == old(self).rest(),
            },
    {
        if self.pos < self.chars.len() {
            let c = self.chars[self.pos];
            assert(self.rest().drop_first() =~= self.chars@.skip(self.pos + 1));
            self.pos = self.pos + 1;
            Some(c)
        } else {
            None
        }
    }

    /// Skips white space.
    pub fn ws(&mut self)
        requires
            old(self).valid(),
        ensures
            final(self).valid(),
            final(self).rest() == grammar::skip_ws(old(self).rest()),
    {
        loop
            invariant
                self.valid(),
                grammar::skip_ws(self.rest()) == grammar::skip_ws(old(self).rest()),
            ensures
                self.valid(),
                self.rest() == grammar::skip_ws(old(self).rest()),
            decreases self.rest().len(),
        {
            match self.peek() {
                Some(c) => {
                    if c == ' ' || c == '\n' || c == '\r' || c == '\t' {
                        self.bump();
                    } else {
                        break ;
                    }
                },
                None => {
                    break ;
                },
            }
        }
    }

    /// Takes an expected character.
    pub fn expect(&mut self, ch: char) -> (out: Result<(), String>)
        requires
            old(self).valid(),
        ensures
            final(self).valid(),
            final(self).rest() == grammar::parse_char(old(self).rest(), ch).1,
            match out {
                Ok(_) => grammar::parse_char(old(self).rest(), ch).0 is Ok,
                Err(e) => grammar::parse_char(old(self).rest(), ch).0 == Err::<(), _>(e@),
            },
    {
        match self.bump() {
            Some(c) => {
                if c == ch {
                    return Ok(());
                }
            },
            None => {},
        }
        let mut message = owned("expected ");
        message.push(ch);
        Err(message)
    }

    /// Reads a word that stands for a value.
    pub fn literal(&mut self, lit: &str, value: Json) -> (out: Result<Json, String>)
        requires
            old(self).valid(),
        ensures
            final(self).valid(),
            reads(out, final(self).rest(), grammar::parse_literal(old(self).rest(), lit@, value@)),
    {
        let word = chars_of(lit);
        assert(word@.skip(0) =~= word@);
        for i in 0..word.len()
            invariant
                word@ == lit@,
                self.valid(),
                grammar::match_word(self.rest(), word@.skip(i as int)) == grammar::match_word(
                    old(self).rest(),
                    lit@,
                ),
        {
            assert(word@.skip(i as int).drop_first() =~= word@.skip(i + 1));
            let next = self.bump();
            if next.is_none() || next.unwrap() != word[i] {
                let mut message = owned("expected ");
                message.append(lit);
                return Err(message);
            }
        }
        Ok(value)
    }

    /// Reads a string with its quotes.
    pub fn string(&mut self) -> (out: Result<String, String>)
        requires
            old(self).valid(),
        ensures
            final(self).valid(),
            reads_text(out, final(self).rest(), grammar::parse_string(old(self).rest())),
    {
        match self.expect('"') {
            Ok(_) => {},
            Err(e) => {
                return Err(e);
            },
        }
        let ghost body = self.rest();
        let mut text = String::new();
        proof {
            let whole = grammar::parse_string_body(body);
            if let Ok(t) = whole.0 {
                assert(text@ + t =~= t);
            }
        }
        loop
            invariant
                self.valid(),
                grammar::with_front(text@, grammar::parse_string_body(self.rest()))
                    == grammar::parse_string_body(body),
                grammar::parse_string(old(self).rest()) == grammar::parse_string_body(body),
            decreases self.rest().len(),
        {
            let ghost here = self.rest();
            let ghost before = text@;
            match self.bump() {
                None => {
                    return Err(owned("unterminated string"));
                },
                Some(c) => {
                    if c == '"' {
                        assert(before + Seq::<char>::empty() =~= before);
                        return Ok(text);
                    } else if c == '\\' {
                        match self.escape() {
                            Err(e) => {
                                return Err(e);
                            },
                            Ok(escaped) => {
                                proof {
                                    grammar::lemma_parse_escape_shrinks(here.drop_first());
                                    if let Ok(t) = grammar::parse_string_body(self.rest()).0 {
                                        assert(before + (opt_text(escaped) + t) =~= before
                                            + opt_text(escaped) + t);
                                    }
                                }
                                match escaped {
                                    Some(x) => {
                                        text.push(x);
                                        assert(text@ =~= before + opt_text(escaped));
                                    },
                                    None => {
                                        assert(before + opt_text(escaped) =~= before);
                                    },
                                }
                            },
                        }
                    } else {
                        text.push(c);
                        proof {
                            if let Ok(t) = grammar::parse_string_body(self.rest()).0 {
                                assert(before + (seq![c] + t) =~= text@ + t);
                            }
                        }
                    }
                },
            }
        }
    }

    /// Reads what follows a backslash: a character, or nothing where the code is that of none.
    fn escape(&mut self) -> (out: Result<Option<char>, String>)
        requires
            old(self).valid(),
        ensures
            final(self).valid(),
            final(self).rest() == grammar::parse_escape(old(self).rest()).1,
            match out {
                Ok(c) => grammar::parse_escape(old(self).rest()).0 == Ok::<Seq<char>, Seq<char>>(
                    opt_text(c),
                ),
                Err(e) => grammar::parse_escape(old(self).rest()).0 == Err::<Seq<char>, _>(e@),
            },
    {
        match self.bump() {
            None => Err(owned("unterminated escape")),
            Some(c) => {
                if c == '"' || c == '\\' || c == '/' {
                    Ok(Some(c))
                } else if c == 'b' {
                    Ok(Some('\u{8}'))
                } else if c == 'f' {
                    Ok(Some('\u{c}'))
                } else if c == 'n' {
                    Ok(Some('\n'))
                } else if c == 'r' {
                    Ok(Some('\r'))
                } else if c == 't' {
                    Ok(Some('\t'))
                } else if c == 'u' {
                    match self.code() {
                        Ok(code) => {
                            let made = char::from_u32(code);
                            proof {
                                if let Some(x) = made {
                                    assert((code as int) as char == x);
                                }
                            }
                            Ok(made)
                        },
                        Err(e) => Err(e),
                    }
                } else {
                    let mut message = owned("invalid escape ");
                    message.push(c);
                    Err(message)
                }
            },
        }
    }

    /// Reads four hexadecimal digits.
    fn code(&mut self) -> (out: Result<u32, String>)
        requires
            old(self).valid(),
        ensures
            final(self).valid(),
            final(self).rest() == grammar::parse_hex(old(self).rest(), 4, 0).1,
            match out {
                Ok(n) => grammar::parse_hex(old(self).rest(), 4, 0).0 == Ok::<int, Seq<char>>(
                    n as int,
                ),
                Err(e) => grammar::parse_hex(old(self).rest(), 4, 0).0 == Err::<int, _>(e@),
            },
    {
        let mut code: u32 = 0;
        let mut left: u32 = 4;
        while left > 0
            invariant
                left <= 4,
                self.valid(),
                left == 4 ==> code == 0,
                left == 3 ==> code < 0x10,
                left == 2 ==> code < 0x100,
                left == 1 ==> code < 0x1000,
                grammar::parse_hex(self.rest(), left as nat, code as int) == grammar::parse_hex(
                    old(self).rest(),
                    4,
                    0,
                ),
            decreases left,
        {
            let digit: Option<u32> = match self.bump() {
                Some(c) => hex_digit(c),
                None => None,
            };
            match digit {
                Some(d) => {
                    code = code * 16 + d;
                },
                None => {
                    return Err(owned("invalid unicode escape"));
                },
            }
            left -= 1;
        }
        Ok(code)
    }

    /// Reads a number.
    pub fn number(&mut self) -> (out: Result<Json, String>)
        requires
            old(self).valid(),
        ensures
            final(self).valid(),
            reads(out, final(self).rest(), grammar::parse_number(old(self).rest())),
    {
        let start: usize = self.pos;
        let ghost run = grammar::number_run(self.rest());
        loop
            invariant
                self.valid(),
                self.chars@ == old(self).chars@,
                start == old(self).pos,
                start <= self.pos,
                run == grammar::number_run(old(self).rest()),
                run == self.pos - start + grammar::number_run(self.rest()),
            ensures
                self.valid(),
                self.chars@ == old(self).chars@,
                start <= self.pos,
                run == self.pos - start,
            decreases self.rest().len(),
        {
            if self.pos < self.chars.len() && is_number_char(self.chars[self.pos]) {
                assert(self.rest().drop_first() =~= self.chars@.skip(self.pos + 1));
                self.pos = self.pos + 1;
            } else {
                break ;
            }
        }
        let ghost raw = old(self).rest().take(run as int);
        assert(raw =~= self.chars@.subrange(start as int, self.pos as int));
        assert(old(self).rest().skip(run as int) =~= self.rest());
        let text = string_of_range(&self.chars, start, self.pos);
        let digits = chars_of(text.as_str());
        if parts_of(&digits).is_some() {
            Ok(Json::Number(text))
        } else {
            let mut message = owned("invalid number ");
            message.append(text.as_str());
            Err(message)
        }
    }

    /// Reads a value, with white space before it.
    pub fn value(&mut self) -> (out: Result<Json, String>)
        requires
            old(self).valid(),
        ensures
            final(self).valid(),
            reads(out, final(self).rest(), grammar::parse_value(old(self).rest())),
        decreases old(self).rest().len(), 1nat,
    {
        proof {
            grammar::lemma_skip_ws(self.rest());
        }
        self.ws();
        match self.peek() {
            Some(c) => {
                if c == 'n' {
                    self.literal("null", Json::Null)
                } else if c == 't' {
                    self.literal("true", Json::Bool(()))
                } else if c == 'f' {
                    self.literal("false", Json::Bool(()))
                } else if c == '"' {
                    match self.string() {
                        Ok(s) => Ok(Json::String(s)),
                        Err(e) => Err(e),
                    }
                } else if c == '[' {
                    self.array()
                } else if c == '{' {
                    self.object()
                } else if c == '-' || ('0' <= c && c <= '9') {
                    self.number()
                } else {
                    Err(owned("invalid JSON value"))
                }
            },
            None => Err(owned("invalid JSON value")),
        }
    }

    /// Reads an array.
    pub fn array(&mut self) -> (out: Result<Json, String>)
        requires
            old(self).valid(),
        ensures
            final(self).valid(),
            reads(out, final(self).rest(), grammar::parse_array(old(self).rest())),
        decreases old(self).rest().len(), 0nat,
    {
        let ghost first = self.rest();
        match self.expect('[') {
            Ok(_) => {},
            Err(e) => {
                return Err(e);
            },
        }
        let mut items: Vec<Json> = Vec::new();
        assert(item_models(items@) =~= seq![]);
        loop
            invariant
                self.valid(),
                self.rest().len() < first.len(),
                first == old(self).rest(),
                grammar::parse_items(self.rest(), item_models(items@)) == grammar::parse_array(first),
            decreases self.rest().len(),
        {
            proof {
                grammar::lemma_skip_ws(self.rest());
            }
            self.ws();
            let ghost s = self.rest();
            match self.peek() {
                Some(c) => {
                    if c == ']' {
                        self.bump();
                        return Ok(Json::Array(items));
                    }
                },
                None => {},
            }
            let ghost earlier = items@;
            let ghost read = item_models(earlier);
            match self.value() {
                Ok(v) => {
                    items.push(v);
                    assert(items@.drop_last() =~= earlier);
                    assert(item_models(items@) =~= read.push(v@));
                },
                Err(e) => {
                    return Err(e);
                },
            }
            proof {
                grammar::lemma_parse_value_shrinks(s);
                grammar::lemma_skip_ws(self.rest());
            }
            self.ws();
            match self.bump() {
                Some(c) => {
                    if c == ',' {
                    } else if c == ']' {
                        return Ok(Json::Array(items));
                    } else {
                        return Err(owned("expected ',' or ']'"));
                    }
                },
                None => {
                    return Err(owned("expected ',' or ']'"));
                },
            }
        }
    }

    /// Reads an object.
    pub fn object(&mut self) -> (out: Result<Json, String>)
        requires
            old(self).valid(),
        ensures
            final(self).valid(),
            reads(out, final(self).rest(), grammar::parse_object(old(self).rest())),
        decreases old(self).rest().len(), 0nat,
    {
        let ghost first = self.rest();
        match self.expect('{') {
            Ok(_) => {},
            Err(e) => {
                return Err(e);
            },
        }
        let mut fields: Vec<(String, Json)> = Vec::new();
        assert(field_models(fields@) =~= Map::empty());
        loop
            invariant
                self.valid(),
                self.rest().len() < first.len(),
                first == old(self).rest(),
                grammar::parse_fields(self.rest(), field_models(fields@)) == grammar::parse_object(first),
            decreases self.rest().len(),
        {
            proof {
                grammar::lemma_skip_ws(self.rest());
            }
            self.ws();
            let ghost s = self.rest();
            match self.peek() {
                Some(c) => {
                    if c == '}' {
                        self.bump();
                        return Ok(Json::Object(fields));
                    }
                },
                None => {},
            }
            let ghost earlier = fields@;
            let ghost read = field_models(earlier);
            proof {
                if s.len() > 0 {
                    grammar::lemma_parse_string_body_shrinks(s.drop_first());
                }
            }
            let key = match self.string() {
                Ok(k) => k,
                Err(e) => {
                    return Err(e);
                },
            };
            proof {
                grammar::lemma_skip_ws(self.rest());
            }
            self.ws();
            match self.expect(':') {
                Ok(_) => {},
                Err(e) => {
                    return Err(e);
                },
            }
            proof {
                grammar::lemma_parse_value_shrinks(self.rest());
            }
            let v = match self.value() {
                Ok(v) => v,
                Err(e) => {
                    return Err(e);
                },
            };
            fields.push((key, v));
            assert(fields@.drop_last() =~= earlier);
            assert(field_models(fields@) =~= read.insert(key@, v@));
            proof {
                grammar::lemma_skip_ws(self.rest());
            }
            self.ws();
            match self.bump() {
                Some(c) => {
                    if c == ',' {
                    } else if c == '}' {
                        return Ok(Json::Object(fields));
                    } else {
                        return Err(owned("expected ',' or '}'"));
                    }
                },
                None => {
                    return Err(owned("expected ',' or '}'"));
                },
            }
        }
    }
}

/// The text of an optional character.
pub open spec fn opt_text(c: Option<char>) -> Seq<char> {
    match c {
        Some(x) => seq![x],
        None => seq![],
    }
}

/// Whether a reader's outcome and what it left are those of the grammar.
pub open spec fn reads(
    out: Result<Json, String>,
    left: Seq<char>,
    expected: (Result<JsonModel, Seq<char>>, Seq<char>),
) -> bool {
    &&& left == expected.1
    &&& json_outcome(out) == expected.0
}

/// The model of an outcome.
pub open spec fn json_outcome(out: Result<Json, String>) -> Result<JsonModel, Seq<char>> {
    match out {
        Ok(v) => Ok(v@),
        Err(e) => Err(e@),
    }
}

/// Whether a reader's outcome and what it left are those of the grammar, for a string.
pub open spec fn reads_text(
    out: Result<String, String>,
    left: Seq<char>,
    expected: (Result<Seq<char>, Seq<char>>, Seq<char>),
) -> bool {
    &&& left == expected.1
    &&& match out {
        Ok(v) => expected.0 == Ok::<Seq<char>, Seq<char>>(v@),
        Err(e) => expected.0 == Err::<Seq<char>, Seq<char>>(e@),
    }
}

fn is_number_char(c: char) -> (b: bool)
    ensures
        b == grammar::is_number_char(c),
{
    c == '-' || c == '+' || c == '.' || c == 'e' || c == 'E' || ('0' <= c && c <= '9')
}

fn hex_digit(c: char) -> (out: Option<u32>)
    ensures
        match out {
            Some(d) => grammar::is_hex(c) && d == grammar::hex_value(c) && d < 16,
            None => !grammar::is_hex(c),
        },
{
    let n: u32 = c as u32;
    if '0' <= c && c <= '9' {
        Some(n - 48)
    } else if 'a' <= c && c <= 'f' {
        Some(n - 97 + 10)
    } else if 'A' <= c && c <= 'F' {
        Some(n - 65 + 10)
    } else {
        None
    }
}

/// Reads a whole JSON text.
pub fn parse_json(input: &str) -> (out: Result<Json, String>)
    ensures
        json_outcome(out) == grammar::json_value(input@),
{
    let mut p = Parser::new(input);
    let value = match p.value() {
        Ok(v) => v,
        Err(e) => {
            return Err(e);
        },
    };
    p.ws();
    match p.peek() {
        Some(_) => Err(owned("trailing JSON input")),
        None => Ok(value),
    }
}

// ---------------------------------------------------------------------------
// Laws
// ---------------------------------------------------------------------------

/// Whether a value is an object that holds another value under a key.
pub open spec fn holds(value: JsonModel, key: Seq<char>, inner: JsonModel) -> bool {
    value matches JsonModel::Object(fields) && fields.dom().contains(key) && fields[key] == inner
}

/// A field is what an object holds under its key, and only objects have fields.
pub proof fn lemma_field(value: JsonModel, key: Seq<char>, inner: JsonModel)
    ensures
        field(value, key) == Some(inner) <==> holds(value, key, inner),
        field(value, key) is None <==> forall|other: JsonModel| !holds(value, key, other),
{
    if field(value, key) is None {
        assert forall|other: JsonModel| !holds(value, key, other) by {}
    } else {
        assert(holds(value, key, field(value, key)->0));
    }
}

/// A path of two keys leads through the first object into the second.
pub proof fn lemma_two_keys(value: JsonModel, a: Seq<char>, b: Seq<char>, inner: JsonModel)
    ensures
        at_path(value, seq![a, b]) == Some(inner) <==> exists|middle: JsonModel|
            holds(value, a, middle) && #[trigger] holds(middle, b, inner),
{
    reveal_with_fuel(at_path, 3);
    assert(seq![a, b].drop_first() =~= seq![b]);
    assert(seq![b].drop_first() =~= seq![]);
    if at_path(value, seq![a, b]) == Some(inner) {
        let middle = field(value, a)->0;
        assert(holds(value, a, middle) && holds(middle, b, inner));
    }
}

/// A path of three keys leads through two objects into the third.
pub proof fn lemma_three_keys(
    value: JsonModel,
    a: Seq<char>,
    b: Seq<char>,
    c: Seq<char>,
    inner: JsonModel,
)
    ensures
        at_path(value, seq![a, b, c]) == Some(inner) <==> exists|first: JsonModel, second: JsonModel|
            holds(value, a, first) && #[trigger] holds(first, b, second) && #[trigger] holds(
                second,
                c,
                inner,
            ),
{
    reveal_with_fuel(at_path, 4);
    assert(seq![a, b, c].drop_first() =~= seq![b, c]);
    assert(seq![b, c].drop_first() =~= seq![c]);
    assert(seq![c].drop_first() =~= seq![]);
    if at_path(value, seq![a, b, c]) == Some(inner) {
        let first = field(value, a)->0;
        let second = field(first, b)->0;
        assert(holds(first, b, second) && holds(second, c, inner));
    }
}

} // verus!
