//! Telling the two forms apart in free text, and converting each
//! identifier found to its other form.

use crate::compact::{compact_form, compact_read};
use crate::hex::{hex_form, hex_read};
use crate::uuid32::Uuid32;
use vstd::prelude::*;

verus! {

/// The character between the tokens of an input.
pub const DELIMITER: char = '/';

/// What became of one token.
#[derive(Clone, Debug, PartialEq, Eq)]
pub enum ResolvedToken {
    /// The token is an identifier in one form; `other_form` is its other
    /// form and `numeric_value` its value.
    Converted { original: String, other_form: String, numeric_value: u128 },
    /// The token is empty or no identifier.
    PassThrough { original: String },
}

/// A resolved token as plain values.
pub enum TokenView {
    Converted { original: Seq<char>, other_form: Seq<char>, numeric_value: u128 },
    PassThrough { original: Seq<char> },
}

impl View for ResolvedToken {
    type V = TokenView;

    open spec fn view(&self) -> TokenView {
        match self {
            ResolvedToken::Converted { original, other_form, numeric_value } => (
            TokenView::Converted {
                original: original@,
                other_form: other_form@,
                numeric_value: *numeric_value,
            }),
            ResolvedToken::PassThrough { original } => (TokenView::PassThrough {
                original: original@,
            }),
        }
    }
}

/// What a token resolves to: an empty token and one in neither form pass
/// through; the hex form is tried before the compact form.
pub open spec fn resolved(token: Seq<char>) -> TokenView {
    if token.len() == 0 {
        TokenView::PassThrough { original: token }
    } else if let Some(v) = hex_read(token) {
        TokenView::Converted {
            original: token,
            other_form: compact_form(v),
            numeric_value: v,
        }
    } else if let Some(v) = compact_read(token) {
        TokenView::Converted { original: token, other_form: hex_form(v), numeric_value: v }
    } else {
        TokenView::PassThrough { original: token }
    }
}

/// The text shown for a resolved token: the other form of an identifier,
/// else the token itself.
pub open spec fn displayed(t: TokenView) -> Seq<char> {
    match t {
        TokenView::Converted { other_form, .. } => other_form,
        TokenView::PassThrough { original } => original,
    }
}

/// The value reported for a resolved token: that of an identifier, else 0.
pub open spec fn reported_value(t: TokenView) -> u128 {
    match t {
        TokenView::Converted { numeric_value, .. } => numeric_value,
        TokenView::PassThrough { .. } => 0,
    }
}

/// The tokens of `s`: the runs of characters between delimiters, in order,
/// the empty ones too.
pub open spec fn split_text(s: Seq<char>) -> Seq<Seq<char>>
    decreases s.len(),
{
    if s.len() == 0 {
        seq![Seq::<char>::empty()]
    } else {
        let before = split_text(s.drop_last());
        if s.last() == DELIMITER {
            before.push(Seq::<char>::empty())
        } else {
            before.drop_last().push(before.last().push(s.last()))
        }
    }
}

/// The texts of `parts` in a row, with a delimiter between each two.
pub open spec fn join_text(parts: Seq<Seq<char>>) -> Seq<char>
    decreases parts.len(),
{
    if parts.len() == 0 {
        Seq::<char>::empty()
    } else if parts.len() == 1 {
        parts[0]
    } else {
        join_text(parts.drop_last()).push(DELIMITER) + parts.last()
    }
}

/// The views of the strings of `v`.
pub open spec fn texts(v: Seq<String>) -> Seq<Seq<char>> {
    Seq::new(v.len(), |i: int| v[i]@)
}

/// What is shown for each token of `tokens`.
pub open spec fn displayed_all(tokens: Seq<Seq<char>>) -> Seq<Seq<char>> {
    Seq::new(tokens.len(), |i: int| displayed(resolved(tokens[i])))
}

/// The outcome of converting an input.
#[derive(Clone, Debug, PartialEq, Eq)]
pub struct Conversion {
    /// The converted tokens, joined as the input was.
    pub output: String,
    /// Where the input is one token: its value, 0 if it is no identifier.
    pub single_value: Option<u128>,
}

impl ResolvedToken {
    /// The text shown for the token.
    pub fn displayed(&self) -> (s: &str)
        ensures
            s@ == displayed(self@),
    {
        match self {
            ResolvedToken::Converted { other_form, .. } => other_form.as_str(),
            ResolvedToken::PassThrough { original } => original.as_str(),
        }
    }

    /// The value reported for the token.
    pub fn reported_value(&self) -> (v: u128)
        ensures
            v == reported_value(self@),
    {
        match self {
            ResolvedToken::Converted { numeric_value, .. } => *numeric_value,
            ResolvedToken::PassThrough { .. } => 0,
        }
    }
}

/// Resolves one token.
pub fn resolve(token: &str) -> (r: ResolvedToken)
    ensures
        r@ == resolved(token@),
{
    if token.is_empty() {
        return ResolvedToken::PassThrough { original: token.to_owned() };
    }
    match Uuid32::from_hex_form(token) {
        Ok(u) => ResolvedToken::Converted {
            original: token.to_owned(),
            other_form: u.to_compact_form(),
            numeric_value: u.inner(),
        },
        Err(_) => match Uuid32::from_compact_form(token) {
            Ok(u) => ResolvedToken::Converted {
                original: token.to_owned(),
                other_form: u.to_hex_form(),
                numeric_value: u.inner(),
            },
            Err(_) => ResolvedToken::PassThrough { original: token.to_owned() },
        },
    }
}

/// Splits an input at each delimiter.
pub fn split_tokens(input: &str) -> (parts: Vec<String>)
    ensures
        texts(parts@) == split_text(input@),
        parts@.len() >= 1,
{
    let n: usize = input.unicode_len();
    let mut parts: Vec<String> = Vec::new();
    let mut start: usize = 0;
    let mut i: usize = 0;
    proof {
        assert(input@.take(0).len() == 0);
        assert(texts(parts@).push(input@.subrange(0, 0)) =~~= split_text(input@.take(0)));
    }
    while i < n
        invariant
            start <= i <= n,
            n == input@.len(),
            texts(parts@).push(input@.subrange(start as int, i as int)) == split_text(
                input@.take(i as int),
            ),
        decreases n - i,
    {
        let c = input.get_char(i);
        let ghost before = split_text(input@.take(i as int));
        let ghost prev = texts(parts@);
        proof {
            assert(input@.take(i + 1).drop_last() =~= input@.take(i as int));
            assert(before.drop_last() =~= prev);
            assert(before.last() == input@.subrange(start as int, i as int));
        }
        if c == DELIMITER {
            parts.push(input.substring_char(start, i).to_owned());
            start = i + 1;
            proof {
                assert(texts(parts@) =~= before);
                assert(input@.subrange(start as int, i + 1) =~= Seq::<char>::empty());
            }
        } else {
            proof {
                assert(input@.subrange(start as int, i + 1) =~= input@.subrange(
                    start as int,
                    i as int,
                ).push(c));
            }
        }
        i = i + 1;
    }
    parts.push(input.substring_char(start, n).to_owned());
    proof {
        assert(input@.take(n as int) =~= input@);
        assert(texts(parts@) =~= split_text(input@));
    }
    parts
}

/// Joins texts with a delimiter between each two.
pub fn join_tokens(parts: &Vec<String>) -> (s: String)
    ensures
        s@ == join_text(texts(parts@)),
{
    let mut out = String::new();
    let mut i: usize = 0;
    proof {
        reveal_strlit("/");
        assert(texts(parts@).take(0) =~= Seq::<Seq<char>>::empty());
    }
    while i < parts.len()
        invariant
            i <= parts.len(),
            "/"@ == seq![DELIMITER],
            out@ == join_text(texts(parts@).take(i as int)),
        decreases parts.len() - i,
    {
        let ghost upto = texts(parts@).take(i + 1);
        proof {
            assert(upto.drop_last() =~= texts(parts@).take(i as int));
            assert(upto.last() == parts@[i as int]@);
        }
        if i > 0 {
            out.append("/");
            proof {
                assert(out@ =~= join_text(upto.drop_last()).push(DELIMITER));
            }
        } else {
            proof {
                assert(out@ =~= Seq::<char>::empty());
                assert(upto[0] =~= out@ + parts@[0]@);
            }
        }
        out.append(parts[i].as_str());
        i = i + 1;
    }
    proof {
        assert(texts(parts@).take(parts@.len() as int) =~= texts(parts@));
    }
    out
}

/// Converts an input: splits it at the delimiters, turns each token that is
/// an identifier into its other form, and joins what is shown for each. For
/// an input of one token it reports the token's value too.
pub fn convert(input: &str) -> (c: Conversion)
    ensures
        c.output@ == join_text(displayed_all(split_text(input@))),
        c.single_value == if split_text(input@).len() == 1 {
            Some(reported_value(resolved(split_text(input@)[0])))
        } else {
            None::<u128>
        },
{
    let tokens = split_tokens(input);
    let mut shown: Vec<String> = Vec::new();
    let mut value: u128 = 0;
    let mut i: usize = 0;
    while i < tokens.len()
        invariant
            i <= tokens.len(),
            texts(tokens@) == split_text(input@),
            texts(shown@) == displayed_all(split_text(input@)).take(i as int),
            i > 0 ==> value == reported_value(resolved(split_text(input@)[i - 1])),
        decreases tokens.len() - i,
    {
        let r = resolve(tokens[i].as_str());
        proof {
            assert(texts(tokens@)[i as int] == tokens@[i as int]@);
        }
        value = r.reported_value();
        let ghost before = texts(shown@);
        shown.push(r.displayed().to_owned());
        proof {
            assert(texts(shown@) =~= before.push(displayed(r@)));
            assert(texts(shown@) =~= displayed_all(split_text(input@)).take(i + 1));
        }
        i = i + 1;
    }
    proof {
        let all = displayed_all(split_text(input@));
        assert(texts(tokens@).len() == tokens@.len());
        assert(all.take(tokens@.len() as int) =~= all);
    }
    let output = join_tokens(&shown);
    let single_value = if tokens.len() == 1 {
        Some(value)
    } else {
        None
    };
    Conversion { output, single_value }
}

/// Splitting gives at least one token.
pub proof fn lemma_split_nonempty(s: Seq<char>)
    ensures
        split_text(s).len() >= 1,
    decreases s.len(),
{
    if s.len() > 0 {
        lemma_split_nonempty(s.drop_last());
    }
}

/// Joining the tokens of a text gives the text back: no token is lost, an
/// empty one neither.
pub proof fn join_of_split(s: Seq<char>)
    ensures
        join_text(split_text(s)) == s,
    decreases s.len(),
{
    if s.len() == 0 {
        assert(join_text(split_text(s)) =~= s);
    } else {
        let rest = s.drop_last();
        let before = split_text(rest);
        let parts = split_text(s);
        join_of_split(rest);
        lemma_split_nonempty(rest);
        if s.last() == DELIMITER {
            assert(parts.drop_last() =~= before);
            assert(join_text(parts) =~= rest.push(DELIMITER));
            assert(rest.push(s.last()) =~= s);
        } else if before.len() == 1 {
            assert(parts.len() == 1);
            assert(join_text(parts) == before[0].push(s.last()));
            assert(rest.push(s.last()) =~= s);
        } else {
            assert(parts.drop_last() =~= before.drop_last());
            assert(join_text(parts) =~= join_text(before).push(s.last()));
            assert(rest.push(s.last()) =~= s);
        }
    }
}

} // verus!
