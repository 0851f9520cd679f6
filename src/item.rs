use crate::text::{
    bounded_decimal, decimal_text, is_ascii_ws, is_digit, lemma_decimal_round_trip,
    lemma_decimal_text, lemma_tokens_of_last_word, lemma_tokens_of_word, parse_decimal, push_decimal,
    spans_text, token_spans, tokens,
};
use vstd::prelude::*;
use vstd::slice::slice_subrange;
use vstd::string::StringSliceAdditionalSpecFns;

verus! {

/// Why a line does not describe an item.
#[derive(Debug, Clone, Copy, PartialEq, Eq, Structural)]
pub enum ItemError {
    /// The token at position `field` (counted from 0) is not an unsigned
    /// 64-bit integer.
    MalformedInteger { field: usize },
    /// The line holds `found` tokens where `expected` were needed.
    WrongFieldCount { found: usize, expected: usize },
}

/// The number of tokens in a line that describes an item.
pub const ITEM_FIELDS: usize = 3;

/// The unsigned 64-bit integer that a token denotes, if any.
pub open spec fn u64_of(t: Seq<u8>) -> Option<nat> {
    bounded_decimal(t, u64::MAX as nat)
}

/// The position of the first token at or after `j` that is not an unsigned
/// 64-bit integer, if any.
pub open spec fn first_malformed(toks: Seq<Seq<u8>>, j: int) -> Option<int>
    decreases toks.len() - j,
{
    if j < 0 || j >= toks.len() {
        None
    } else if u64_of(toks[j]) is None {
        Some(j)
    } else {
        first_malformed(toks, j + 1)
    }
}

/// What a line describes: the identifier, value and weight of an item when
/// the line holds exactly three whitespace-separated unsigned integers. A
/// token that is no such integer is reported before a wrong count.
pub open spec fn item_fields(line: Seq<u8>) -> Result<(u64, u64, u64), ItemError> {
    let toks = tokens(line);
    match first_malformed(toks, 0) {
        Some(j) => Err(ItemError::MalformedInteger { field: j as usize }),
        None => if toks.len() != ITEM_FIELDS {
            Err(ItemError::WrongFieldCount { found: toks.len() as usize, expected: ITEM_FIELDS })
        } else {
            Ok(
                (
                    u64_of(toks[0])->0 as u64,
                    u64_of(toks[1])->0 as u64,
                    u64_of(toks[2])->0 as u64,
                ),
            )
        },
    }
}

/// The item holds the identifier, value and weight given.
pub open spec fn has_fields(it: Item, f: (u64, u64, u64)) -> bool {
    it.id() == f.0 && it.value() == f.1 && it.weight() == f.2
}

/// The identifier, value and weight of an item.
pub open spec fn fields_of(it: Item) -> (u64, u64, u64) {
    (it.id(), it.value(), it.weight())
}

/// The line that describes an item with the given fields: identifier, value
/// and weight in decimal, separated by single spaces.
pub open spec fn item_line(f: (u64, u64, u64)) -> Seq<u8> {
    decimal_text(f.0 as nat) + seq![0x20u8] + decimal_text(f.1 as nat) + seq![0x20u8]
        + decimal_text(f.2 as nat)
}

/// The line that describes an item reads back as that item's fields, and
/// holds digits and spaces alone, ending in a digit.
pub proof fn lemma_item_line_round_trip(f: (u64, u64, u64))
    ensures
        item_fields(item_line(f)) == Ok::<(u64, u64, u64), ItemError>(f),
        item_line(f).len() > 0,
        is_digit(item_line(f).last()),
        forall|k: int|
            0 <= k < item_line(f).len() ==> is_digit(#[trigger] item_line(f)[k]) || item_line(f)[k]
                == 0x20,
{
    let d0 = decimal_text(f.0 as nat);
    let d1 = decimal_text(f.1 as nat);
    let d2 = decimal_text(f.2 as nat);
    lemma_decimal_text(f.0 as nat);
    lemma_decimal_text(f.1 as nat);
    lemma_decimal_text(f.2 as nat);
    lemma_decimal_round_trip(f.0 as nat, u64::MAX as nat);
    lemma_decimal_round_trip(f.1 as nat, u64::MAX as nat);
    lemma_decimal_round_trip(f.2 as nat, u64::MAX as nat);
    assert forall|k: int| 0 <= k < d0.len() implies !is_ascii_ws(d0[k]) by {
        assert(is_digit(d0[k]));
    }
    assert forall|k: int| 0 <= k < d1.len() implies !is_ascii_ws(d1[k]) by {
        assert(is_digit(d1[k]));
    }
    assert forall|k: int| 0 <= k < d2.len() implies !is_ascii_ws(d2[k]) by {
        assert(is_digit(d2[k]));
    }
    let rest = d1 + seq![0x20u8] + d2;
    lemma_tokens_of_last_word(d2);
    lemma_tokens_of_word(d1, d2);
    lemma_tokens_of_word(d0, rest);
    assert(item_line(f) =~= d0 + seq![0x20u8] + rest);
    let toks = tokens(item_line(f));
    assert(toks =~= seq![d0, d1, d2]);
    assert(first_malformed(toks, 3) is None);
    assert(toks[2] == d2 && u64_of(toks[2]) is Some);
    assert(first_malformed(toks, 2) is None);
    assert(toks[1] == d1 && u64_of(toks[1]) is Some);
    assert(first_malformed(toks, 1) is None);
    assert(toks[0] == d0 && u64_of(toks[0]) is Some);
    assert(first_malformed(toks, 0) is None);
    assert forall|k: int| 0 <= k < item_line(f).len() implies is_digit(#[trigger] item_line(f)[k])
        || item_line(f)[k] == 0x20 by {
        let l = item_line(f);
        if k < d0.len() {
            assert(l[k] == d0[k]);
        } else if k == d0.len() {
        } else if k < d0.len() + 1 + d1.len() {
            assert(l[k] == d1[k - d0.len() - 1]);
        } else if k == d0.len() + 1 + d1.len() {
        } else {
            assert(l[k] == d2[k - d0.len() - 2 - d1.len()]);
        }
    }
}

/// One entry of a knapsack instance: an identifier, a value and a weight.
/// An item never changes once it is made.
#[derive(Debug, Clone, Copy, PartialEq, Eq, Structural)]
pub struct Item {
    id: u64,
    value: u64,
    weight: u64,
}

impl Item {
    /// The item's identifier.
    pub closed spec fn spec_id(&self) -> u64 {
        self.id
    }

    /// The item's value.
    pub closed spec fn spec_value(&self) -> u64 {
        self.value
    }

    /// The item's weight.
    pub closed spec fn spec_weight(&self) -> u64 {
        self.weight
    }

    pub fn new(id: u64, value: u64, weight: u64) -> (r: Item)
        ensures
            r.id() == id,
            r.value() == value,
            r.weight() == weight,
    {
        Item { id, value, weight }
    }

    #[verifier::when_used_as_spec(spec_id)]
    pub fn id(&self) -> (r: u64)
        ensures
            r == self.id(),
    {
        self.id
    }

    #[verifier::when_used_as_spec(spec_value)]
    pub fn value(&self) -> (r: u64)
        ensures
            r == self.value(),
    {
        self.value
    }

    #[verifier::when_used_as_spec(spec_weight)]
    pub fn weight(&self) -> (r: u64)
        ensures
            r == self.weight(),
    {
        self.weight
    }

    /// Appends the line that describes this item, without a line feed.
    pub fn push_line(&self, out: &mut Vec<u8>)
        ensures
            final(out)@ == old(out)@ + item_line(fields_of(*self)),
    {
        push_decimal(out, self.id);
        out.push(0x20);
        push_decimal(out, self.value);
        out.push(0x20);
        push_decimal(out, self.weight);
        assert(out@ =~= old(out)@ + item_line(fields_of(*self)));
    }

    /// Reads an item from a line of three whitespace-separated unsigned
    /// integers: its identifier, value and weight.
    pub fn parse_line(line: &[u8]) -> (r: Result<Item, ItemError>)
        ensures
            match item_fields(line@) {
                Ok(f) => r matches Ok(it) && has_fields(it, f),
                Err(e) => r == Err::<Item, ItemError>(e),
            },
    {
        let spans = token_spans(line);
        let ghost toks = tokens(line@);
        let mut vals: Vec<u64> = Vec::new();
        let mut k: usize = 0;
        while k < spans.len()
            invariant
                k <= spans.len(),
                toks == tokens(line@),
                spans_text(line@, spans@) == toks,
                crate::text::spans_within(line@, spans@),
                vals@.len() == k,
                forall|m: int| 0 <= m < k ==> u64_of(toks[m]) == Some(#[trigger] vals@[m] as nat),
                first_malformed(toks, 0) == first_malformed(toks, k as int),
            decreases spans.len() - k,
        {
            let (a, b) = spans[k];
            let t = slice_subrange(line, a, b);
            assert(t@ == toks[k as int]);
            match parse_decimal(t, u64::MAX) {
                None => {
                    assert(toks.len() == spans@.len());
                    assert(first_malformed(toks, k as int) == Some(k as int));
                    return Err(ItemError::MalformedInteger { field: k });
                },
                Some(v) => {
                    vals.push(v);
                },
            }
            k = k + 1;
        }
        if vals.len() != ITEM_FIELDS {
            Err(ItemError::WrongFieldCount { found: vals.len(), expected: ITEM_FIELDS })
        } else {
            Ok(Item::new(vals[0], vals[1], vals[2]))
        }
    }
}

impl std::str::FromStr for Item {
    type Err = ItemError;

    /// Reads an item from the UTF-8 bytes of `s`, as `Item::parse_line` does.
    fn from_str(s: &str) -> (r: Result<Item, ItemError>)
        ensures
            match item_fields(s.spec_bytes()) {
                Ok(f) => r matches Ok(it) && has_fields(it, f),
                Err(e) => r == Err::<Item, ItemError>(e),
            },
    {
        Item::parse_line(s.as_bytes())
    }
}

/// Two items are equal exactly when their identifiers, values and weights are.
pub proof fn lemma_item_eq(a: Item, b: Item)
    ensures
        (a == b) <==> (a.id() == b.id() && a.value() == b.value() && a.weight() == b.weight()),
{
}

} // verus!
