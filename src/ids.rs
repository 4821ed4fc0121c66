//! Identifiers and small value types of the lexical graph.

use vstd::prelude::*;
use crate::text::concat_str;

verus! {

/// Identifier of a sense set (synset).
#[derive(Debug, PartialEq, Eq, Hash)]
pub struct SynsetId(pub String);

impl View for SynsetId {
    type V = Seq<char>;

    open spec fn view(&self) -> Seq<char> {
        self.0@
    }
}

impl Clone for SynsetId {
    fn clone(&self) -> (r: Self)
        ensures
            r == *self,
    {
        SynsetId(self.0.clone())
    }
}

impl SynsetId {
    pub fn new(s: &str) -> (r: SynsetId)
        ensures
            r@ == s@,
    {
        SynsetId(s.to_owned())
    }

    pub fn to_string(&self) -> (r: String)
        ensures
            r@ == self@,
    {
        self.0.clone()
    }

    /// Whether two identifiers spell the same string.
    pub fn same(&self, other: &SynsetId) -> (r: bool)
        ensures
            r == (self@ == other@),
    {
        self.0 == other.0
    }
}

/// Identifier of a sense: one headword's membership in one sense set.
#[derive(Debug, PartialEq, Eq, Hash)]
pub struct SenseId(pub String);

impl View for SenseId {
    type V = Seq<char>;

    open spec fn view(&self) -> Seq<char> {
        self.0@
    }
}

impl Clone for SenseId {
    fn clone(&self) -> (r: Self)
        ensures
            r == *self,
    {
        SenseId(self.0.clone())
    }
}

impl SenseId {
    pub fn new(s: &str) -> (r: SenseId)
        ensures
            r@ == s@,
    {
        SenseId(s.to_owned())
    }

    pub fn to_string(&self) -> (r: String)
        ensures
            r@ == self@,
    {
        self.0.clone()
    }

    /// Whether two identifiers spell the same string.
    pub fn same(&self, other: &SenseId) -> (r: bool)
        ensures
            r == (self@ == other@),
    {
        self.0 == other.0
    }
}

/// External cross-reference identifier of a sense set.
#[derive(Debug, PartialEq, Eq, Hash)]
pub struct ILIID(pub String);

impl View for ILIID {
    type V = Seq<char>;

    open spec fn view(&self) -> Seq<char> {
        self.0@
    }
}

impl Clone for ILIID {
    fn clone(&self) -> (r: Self)
        ensures
            r == *self,
    {
        ILIID(self.0.clone())
    }
}

impl ILIID {
    pub fn new(s: &str) -> (r: ILIID)
        ensures
            r@ == s@,
    {
        ILIID(s.to_owned())
    }
}

/// Syntactic category of a sense set.
#[allow(non_camel_case_types)]
#[derive(Debug, Clone, Copy, PartialEq, Eq, Structural)]
pub enum PartOfSpeech {
    n,
    v,
    a,
    r,
    s,
}

/// One-letter code of a category.
pub open spec fn pos_code(p: PartOfSpeech) -> Seq<char> {
    match p {
        PartOfSpeech::n => seq!['n'],
        PartOfSpeech::v => seq!['v'],
        PartOfSpeech::a => seq!['a'],
        PartOfSpeech::r => seq!['r'],
        PartOfSpeech::s => seq!['s'],
    }
}

/// The category whose one-letter code is `s`, if any.
pub open spec fn pos_of_code(s: Seq<char>) -> Option<PartOfSpeech> {
    if s == seq!['n'] {
        Some(PartOfSpeech::n)
    } else if s == seq!['v'] {
        Some(PartOfSpeech::v)
    } else if s == seq!['a'] {
        Some(PartOfSpeech::a)
    } else if s == seq!['r'] {
        Some(PartOfSpeech::r)
    } else if s == seq!['s'] {
        Some(PartOfSpeech::s)
    } else {
        None
    }
}

/// Long name of a category.
pub open spec fn pos_long_name(p: PartOfSpeech) -> Seq<char> {
    match p {
        PartOfSpeech::n => "noun"@,
        PartOfSpeech::v => "verb"@,
        PartOfSpeech::a => "adjective"@,
        PartOfSpeech::s => "adjective_satellite"@,
        PartOfSpeech::r => "adverb"@,
    }
}

impl PartOfSpeech {
    pub fn str(&self) -> (r: &'static str)
        ensures
            r@ == pos_code(*self),
    {
        proof {
            reveal_strlit("n");
            reveal_strlit("v");
            reveal_strlit("a");
            reveal_strlit("r");
            reveal_strlit("s");
        }
        match *self {
            PartOfSpeech::n => "n",
            PartOfSpeech::v => "v",
            PartOfSpeech::a => "a",
            PartOfSpeech::r => "r",
            PartOfSpeech::s => "s",
        }
    }

    /// Reads a one-letter category code; any other string is refused with a message.
    pub fn from_str(s: &str) -> (r: Result<PartOfSpeech, String>)
        ensures
            match pos_of_code(s@) {
                Some(p) => r == Ok::<PartOfSpeech, String>(p),
                None => r is Err && r->Err_0@ == "Unknown part of speech: "@ + s@,
            },
    {
        if s.unicode_len() == 1 {
            let c = s.get_char(0);
            assert(s@ =~= seq![c]);
            if c == 'n' {
                return Ok(PartOfSpeech::n);
            } else if c == 'v' {
                return Ok(PartOfSpeech::v);
            } else if c == 'a' {
                return Ok(PartOfSpeech::a);
            } else if c == 'r' {
                return Ok(PartOfSpeech::r);
            } else if c == 's' {
                return Ok(PartOfSpeech::s);
            }
        }
        Err(concat_str("Unknown part of speech: ", s))
    }

    pub fn as_long_string(&self) -> (r: &'static str)
        ensures
            r@ == pos_long_name(*self),
    {
        match *self {
            PartOfSpeech::n => "noun",
            PartOfSpeech::v => "verb",
            PartOfSpeech::a => "adjective",
            PartOfSpeech::s => "adjective_satellite",
            PartOfSpeech::r => "adverb",
        }
    }
}

/// Key of a lexical entry within a headword: category code, optionally
/// followed by a separator and a numeric variant index.
#[derive(Debug, PartialEq, Eq, Hash)]
pub struct PosKey(pub String);

impl View for PosKey {
    type V = Seq<char>;

    open spec fn view(&self) -> Seq<char> {
        self.0@
    }
}

impl Clone for PosKey {
    fn clone(&self) -> (r: Self)
        ensures
            r == *self,
    {
        PosKey(self.0.clone())
    }
}

pub open spec fn is_digit(c: char) -> bool {
    '0' <= c && c <= '9'
}

pub open spec fn all_digits(s: Seq<char>) -> bool {
    forall|i: int| 0 <= i < s.len() ==> is_digit(#[trigger] s[i])
}

/// Decimal value of a string of digits.
pub open spec fn decimal_value(s: Seq<char>) -> nat
    decreases s.len(),
{
    if s.len() == 0 {
        0
    } else {
        10 * decimal_value(s.drop_last()) + ((s.last() as u32 - '0' as u32) as nat)
    }
}

/// What `u32`'s `FromStr` accepts: an optional `+`, then one or more decimal
/// digits whose value fits in 32 bits.
pub open spec fn parse_u32(s: Seq<char>) -> Option<u32> {
    let body = if s.len() > 0 && s[0] == '+' {
        s.subrange(1, s.len() as int)
    } else {
        s
    };
    if body.len() > 0 && all_digits(body) && decimal_value(body) <= u32::MAX {
        Some(decimal_value(body) as u32)
    } else {
        None
    }
}

/// Numeric variant index of a pos key: what follows its first two characters,
/// read as an unsigned number.
pub open spec fn entry_no_of(key: Seq<char>) -> Option<u32> {
    if key.len() < 3 {
        None
    } else {
        parse_u32(key.subrange(2, key.len() as int))
    }
}

proof fn lemma_decimal_prefix_le(s: Seq<char>, j: int)
    requires
        0 <= j <= s.len(),
        all_digits(s),
    ensures
        decimal_value(s.subrange(0, j)) <= decimal_value(s),
    decreases s.len(),
{
    if j < s.len() {
        let t = s.drop_last();
        assert(all_digits(t));
        lemma_decimal_prefix_le(t, j);
        assert(t.subrange(0, j) =~= s.subrange(0, j));
    } else {
        assert(s.subrange(0, j) =~= s);
    }
}

/// Reads the characters of `s` from `start` on as an optionally `+`-signed
/// decimal `u32`.
fn parse_u32_from(s: &str, start: usize) -> (r: Option<u32>)
    requires
        start <= s@.len(),
    ensures
        r == parse_u32(s@.subrange(start as int, s@.len() as int)),
{
    let len = s.unicode_len();
    let ghost full = s@.subrange(start as int, len as int);
    let mut i = start;
    if i < len && s.get_char(i) == '+' {
        i = i + 1;
    }
    let ghost body = s@.subrange(i as int, len as int);
    assert(body =~= (if full.len() > 0 && full[0] == '+' {
        full.subrange(1, full.len() as int)
    } else {
        full
    }));
    if i == len {
        return None;
    }
    let begin = i;
    let mut value: u64 = 0;
    while i < len
        invariant
            len == s@.len(),
            begin <= i <= len,
            body == s@.subrange(begin as int, len as int),
            full == s@.subrange(start as int, len as int),
            body == (if full.len() > 0 && full[0] == '+' {
                full.subrange(1, full.len() as int)
            } else {
                full
            }),
            all_digits(s@.subrange(begin as int, i as int)),
            value == decimal_value(s@.subrange(begin as int, i as int)),
            value <= u32::MAX,
        decreases len - i,
    {
        let c = s.get_char(i);
        let ghost pre = s@.subrange(begin as int, i as int);
        let ghost next = s@.subrange(begin as int, i + 1);
        assert(next =~= pre.push(c));
        assert(next.drop_last() =~= pre);
        if c < '0' || c > '9' {
            assert(body[i - begin] == c);
            assert(!all_digits(body));
            return None;
        }
        let d = (c as u32 - '0' as u32) as u64;
        value = value * 10 + d;
        if value > u32::MAX as u64 {
            assert(all_digits(next));
            proof {
                if all_digits(body) {
                    assert(body.subrange(0, i + 1 - begin) =~= next);
                    lemma_decimal_prefix_le(body, i + 1 - begin);
                }
                assert(!(all_digits(body) && decimal_value(body) <= u32::MAX));

            }
            return None;
        }
        i = i + 1;
    }
    assert(s@.subrange(begin as int, i as int) =~= body);
    Some(value as u32)
}

impl PosKey {
    /// The numeric variant index, if the key carries one.
    pub fn entry_no(&self) -> (r: Option<u32>)
        ensures
            r == entry_no_of(self@),
    {
        if self.0.as_str().unicode_len() < 3 {
            None
        } else {
            parse_u32_from(self.0.as_str(), 2)
        }
    }
}

} // verus!
