use crate::item::{
    fields_of, lemma_item_eq, has_fields, item_fields, item_line, lemma_item_line_round_trip, u64_of, Item,
};
use crate::run_error::ParseError;
use crate::text::{
    bounded_decimal, decimal_text, is_digit, lemma_decimal_round_trip, lemma_decimal_text,
    lemma_lines_of_line, lines, lines_from, next_line, parse_decimal, push_decimal,
};
use vstd::prelude::*;
use vstd::slice::slice_subrange;

verus! {

/// The sum of `amounts[i]` over the positions `i < n` whose choice is set.
pub open spec fn selected_sum(amounts: Seq<u64>, choices: Seq<bool>, n: int) -> int
    decreases n,
{
    if n <= 0 {
        0
    } else {
        selected_sum(amounts, choices, n - 1) + if choices[n - 1] {
            amounts[n - 1] as int
        } else {
            0
        }
    }
}

/// The number of positions that pair an item with a choice: the shorter of
/// the two lengths.
pub open spec fn paired_len(items: Seq<Item>, choices: Seq<bool>) -> int {
    if items.len() < choices.len() {
        items.len() as int
    } else {
        choices.len() as int
    }
}

/// The values of the items, in order.
pub open spec fn values_of(items: Seq<Item>) -> Seq<u64> {
    items.map_values(|it: Item| it.value())
}

/// The weights of the items, in order.
pub open spec fn weights_of(items: Seq<Item>) -> Seq<u64> {
    items.map_values(|it: Item| it.weight())
}

/// The total value of the items that a candidate includes, item `i` paired
/// with choice `i` up to the shorter of the two sequences.
pub open spec fn total_value(items: Seq<Item>, choices: Seq<bool>) -> int {
    selected_sum(values_of(items), choices, paired_len(items, choices))
}

/// The total weight of the items that a candidate includes, paired as in
/// `total_value`.
pub open spec fn total_weight(items: Seq<Item>, choices: Seq<bool>) -> int {
    selected_sum(weights_of(items), choices, paired_len(items, choices))
}

/// A selected sum over `n` positions is at most `n` times the largest amount.
proof fn lemma_selected_sum_bounds(amounts: Seq<u64>, choices: Seq<bool>, n: int)
    requires
        0 <= n <= amounts.len(),
        n <= choices.len(),
    ensures
        0 <= selected_sum(amounts, choices, n) <= n * u64::MAX,
    decreases n,
{
    if n > 0 {
        lemma_selected_sum_bounds(amounts, choices, n - 1);
    }
}

/// A selected sum is zero where no choice among the first `n` is set.
proof fn lemma_selected_sum_none(amounts: Seq<u64>, choices: Seq<bool>, n: int)
    requires
        n <= choices.len(),
        forall|i: int| 0 <= i < n ==> !choices[i],
    ensures
        selected_sum(amounts, choices, n) == 0,
    decreases n,
{
    if n > 0 {
        lemma_selected_sum_none(amounts, choices, n - 1);
    }
}

/// A candidate that includes no item has total value and total weight zero,
/// whatever the instance.
pub proof fn lemma_empty_choice_totals(items: Seq<Item>, choices: Seq<bool>)
    requires
        forall|i: int| 0 <= i < choices.len() ==> !choices[i],
    ensures
        total_value(items, choices) == 0,
        total_weight(items, choices) == 0,
{
    lemma_selected_sum_none(values_of(items), choices, paired_len(items, choices));
    lemma_selected_sum_none(weights_of(items), choices, paired_len(items, choices));
}

/// The first line at or after `j` and before `end` that does not describe an
/// item, if any.
pub open spec fn first_bad_item(ls: Seq<Seq<u8>>, j: int, end: int) -> Option<int>
    decreases end - j,
{
    if j < 0 || j >= end {
        None
    } else if item_fields(ls[j]) is Err {
        Some(j)
    } else {
        first_bad_item(ls, j + 1, end)
    }
}

/// The instance that a text describes, as the fields of its items and its
/// capacity, or why it describes none. The first line holds the item count
/// `n`, the next `n` lines one item each, and the line after them the
/// capacity; anything after that is ignored. A bad item line among those
/// present is reported before missing lines.
pub open spec fn instance_of(s: Seq<u8>) -> Result<(Seq<(u64, u64, u64)>, u64), ParseError> {
    let ls = lines(s);
    if ls.len() == 0 {
        Err(ParseError::EmptyInput)
    } else {
        match bounded_decimal(ls[0], usize::MAX as nat) {
            None => Err(ParseError::IllegalItemCount),
            Some(n) => {
                let present = if n < ls.len() - 1 {
                    n as int
                } else {
                    ls.len() - 1
                };
                match first_bad_item(ls, 1, 1 + present) {
                    Some(j) => Err(
                        ParseError::Item { line: (j + 1) as usize, error: item_fields(ls[j])->Err_0 },
                    ),
                    None => if ls.len() < n + 2 {
                        Err(ParseError::MissingCapacity)
                    } else {
                        match u64_of(ls[n + 1 as int]) {
                            None => Err(ParseError::MalformedCapacity),
                            Some(c) => Ok(
                                (Seq::new(n, |k: int| item_fields(ls[k + 1])->Ok_0), c as u64),
                            ),
                        }
                    },
                }
            },
        }
    }
}

/// Item `m` is what line `m + 1` describes.
pub open spec fn item_read(items: Seq<Item>, ls: Seq<Seq<u8>>, m: int) -> bool {
    item_fields(ls[m + 1]) is Ok && has_fields(items[m], item_fields(ls[m + 1])->Ok_0)
}

/// Each item is what the line after the one before it describes.
pub open spec fn items_read(items: Seq<Item>, ls: Seq<Seq<u8>>) -> bool {
    forall|m: int| 0 <= m < items.len() ==> #[trigger] item_read(items, ls, m)
}

/// The lines that describe items with the given fields, each ended by a line
/// feed.
pub open spec fn items_text(fs: Seq<(u64, u64, u64)>) -> Seq<u8>
    decreases fs.len(),
{
    if fs.len() == 0 {
        seq![]
    } else {
        item_line(fs[0]) + seq![0x0au8] + items_text(fs.drop_first())
    }
}

/// The text that describes an instance: the item count, one line per item and
/// the capacity, each line ended by a line feed.
pub open spec fn instance_text(fs: Seq<(u64, u64, u64)>, capacity: u64) -> Seq<u8> {
    decimal_text(fs.len()) + seq![0x0au8] + items_text(fs) + decimal_text(capacity as nat) + seq![
        0x0au8,
    ]
}

proof fn lemma_items_text_push(fs: Seq<(u64, u64, u64)>, f: (u64, u64, u64))
    ensures
        items_text(fs.push(f)) == items_text(fs) + item_line(f) + seq![0x0au8],
    decreases fs.len(),
{
    if fs.len() == 0 {
        assert(fs.push(f).drop_first() =~= fs);
        assert(items_text(fs.push(f)) =~= items_text(fs) + item_line(f) + seq![0x0au8]);
    } else {
        assert(fs.push(f).drop_first() =~= fs.drop_first().push(f));
        lemma_items_text_push(fs.drop_first(), f);
        assert(items_text(fs.push(f)) =~= items_text(fs) + item_line(f) + seq![0x0au8]);
    }
}

/// The lines of the item lines followed by more text.
proof fn lemma_lines_of_items(fs: Seq<(u64, u64, u64)>, tail: Seq<u8>)
    ensures
        lines(items_text(fs) + tail) == fs.map_values(|f: (u64, u64, u64)| item_line(f)) + lines(
            tail,
        ),
    decreases fs.len(),
{
    let all = fs.map_values(|f: (u64, u64, u64)| item_line(f));
    if fs.len() == 0 {
        assert(items_text(fs) + tail =~= tail);
        assert(all + lines(tail) =~= lines(tail));
    } else {
        let rest = fs.drop_first();
        let l = item_line(fs[0]);
        lemma_item_line_round_trip(fs[0]);
        assert forall|k: int| 0 <= k < l.len() implies l[k] != 0x0a by {
            assert(is_digit(l[k]) || l[k] == 0x20);
        }
        assert(items_text(fs) + tail =~= l + seq![0x0au8] + (items_text(rest) + tail));
        lemma_lines_of_line(l, items_text(rest) + tail);
        lemma_lines_of_items(rest, tail);
        assert(all =~= seq![l] + rest.map_values(|f: (u64, u64, u64)| item_line(f)));
        assert(seq![l] + (rest.map_values(|f: (u64, u64, u64)| item_line(f)) + lines(tail))
            =~= all + lines(tail));
    }
}

/// No line in `[j, end)` fails to describe an item.
proof fn lemma_no_bad_item(ls: Seq<Seq<u8>>, j: int, end: int)
    requires
        0 <= j,
        forall|k: int| j <= k < end ==> #[trigger] item_fields(ls[k]) is Ok,
    ensures
        first_bad_item(ls, j, end) is None,
    decreases end - j,
{
    if j < end {
        lemma_no_bad_item(ls, j + 1, end);
    }
}

/// Writing an instance as text and reading the text back gives the same
/// items, in order, and the same capacity.
pub proof fn lemma_round_trip(fs: Seq<(u64, u64, u64)>, capacity: u64)
    requires
        fs.len() <= usize::MAX,
    ensures
        instance_of(instance_text(fs, capacity)) == Ok::<
            (Seq<(u64, u64, u64)>, u64),
            ParseError,
        >((fs, capacity)),
{
    let n = fs.len();
    let head = decimal_text(n);
    let last = decimal_text(capacity as nat);
    let body = items_text(fs) + (last + seq![0x0au8]);
    lemma_decimal_text(n);
    lemma_decimal_text(capacity as nat);
    lemma_decimal_round_trip(n, usize::MAX as nat);
    lemma_decimal_round_trip(capacity as nat, u64::MAX as nat);
    assert forall|k: int| 0 <= k < head.len() implies head[k] != 0x0a by {
        assert(is_digit(head[k]));
    }
    assert forall|k: int| 0 <= k < last.len() implies last[k] != 0x0a by {
        assert(is_digit(last[k]));
    }
    assert(is_digit(head.last()));
    assert(is_digit(last.last()));
    assert(instance_text(fs, capacity) =~= head + seq![0x0au8] + body);
    lemma_lines_of_line(head, body);
    lemma_lines_of_items(fs, last + seq![0x0au8]);
    lemma_lines_of_line(last, Seq::<u8>::empty());
    assert(last + seq![0x0au8] =~= last + seq![0x0au8] + Seq::<u8>::empty());
    assert(lines(Seq::<u8>::empty()) =~= Seq::<Seq<u8>>::empty());
    let items = fs.map_values(|f: (u64, u64, u64)| item_line(f));
    let ls = lines(instance_text(fs, capacity));
    assert(ls =~= seq![head] + items + seq![last]);
    assert forall|k: int| 1 <= k < 1 + n implies #[trigger] item_fields(ls[k]) is Ok by {
        assert(ls[k] == item_line(fs[k - 1]));
        lemma_item_line_round_trip(fs[k - 1]);
    }
    lemma_no_bad_item(ls, 1, 1 + n as int);
    assert(ls[n + 1 as int] == last);
    let got = Seq::new(n, |k: int| item_fields(ls[k + 1])->Ok_0);
    assert forall|k: int| 0 <= k < n implies got[k] == fs[k] by {
        assert(ls[k + 1] == item_line(fs[k]));
        lemma_item_line_round_trip(fs[k]);
    }
    assert(got =~= fs);
}

/// An instance that holds the fields and capacity of another has the same
/// items, in order, and the same capacity. With `lemma_round_trip`, the
/// contracts of `to_text` and `parse` then give back the instance that was
/// written.
pub proof fn lemma_same_fields_same_instance(a: Knapsack, b: Knapsack)
    requires
        b.holds(a.fields(), a.capacity()),
    ensures
        b.spec_items() == a.spec_items(),
        b.capacity() == a.capacity(),
{
    assert forall|i: int| 0 <= i < a.spec_items().len() implies b.spec_items()[i]
        == a.spec_items()[i] by {
        assert(has_fields(b.spec_items()[i], a.fields()[i]));
        lemma_item_eq(b.spec_items()[i], a.spec_items()[i]);
    }
    assert(b.spec_items() =~= a.spec_items());
}

/// A knapsack instance: an ordered sequence of items and a capacity in the
/// unit of the items' weights. Item `i` pairs with position `i` of every
/// candidate evaluated against the instance.
#[derive(Debug, Clone)]
pub struct Knapsack {
    items: Vec<Item>,
    capacity: u64,
}

impl Knapsack {
    /// The items of the instance, in order.
    pub closed spec fn spec_items(&self) -> Seq<Item> {
        self.items@
    }

    /// The capacity of the instance.
    pub closed spec fn spec_capacity(&self) -> u64 {
        self.capacity
    }

    pub fn new(items: Vec<Item>, capacity: u64) -> (r: Knapsack)
        ensures
            r.spec_items() == items@,
            r.capacity() == capacity,
    {
        Knapsack { items, capacity }
    }

    pub fn items(&self) -> (r: &[Item])
        ensures
            r@ == self.spec_items(),
    {
        self.items.as_slice()
    }

    pub fn num_items(&self) -> (r: usize)
        ensures
            r == self.spec_items().len(),
    {
        self.items.len()
    }

    pub fn get_item(&self, index: usize) -> (r: Option<&Item>)
        ensures
            index < self.spec_items().len() ==> r == Some(&self.spec_items()[index as int]),
            index >= self.spec_items().len() ==> r is None,
    {
        if index < self.items.len() {
            Some(&self.items[index])
        } else {
            None
        }
    }

    /// The items of the instance, one by one and in order.
    pub fn iter(&self) -> (r: std::slice::Iter<'_, Item>)
        ensures
            vstd::std_specs::slice::into_iter_elts(r) == self.spec_items(),
    {
        let s = self.items.as_slice();
        let r = s.iter();
        proof {
            vstd::std_specs::slice::axiom_spec_slice_iter(s);
            assert(vstd::std_specs::iter::IteratorSpec::remaining(&r).unref() =~= s@);
        }
        r
    }

    #[verifier::when_used_as_spec(spec_capacity)]
    pub fn capacity(&self) -> (r: u64)
        ensures
            r == self.capacity(),
    {
        self.capacity
    }

    /// The fields of the instance's items, in order.
    pub open spec fn fields(&self) -> Seq<(u64, u64, u64)> {
        self.spec_items().map_values(|it: Item| fields_of(it))
    }

    /// The instance as text, in the form that `parse` reads.
    pub fn to_text(&self) -> (r: Vec<u8>)
        ensures
            r@ == instance_text(self.fields(), self.capacity()),
    {
        let mut out: Vec<u8> = Vec::new();
        push_decimal(&mut out, self.items.len() as u64);
        out.push(0x0a);
        let ghost head = out@;
        let mut i: usize = 0;
        assert(self.fields().subrange(0, 0) =~= Seq::<(u64, u64, u64)>::empty());
        while i < self.items.len()
            invariant
                i <= self.items@.len(),
                out@ == head + items_text(self.fields().subrange(0, i as int)),
            decreases self.items.len() - i,
        {
            self.items[i].push_line(&mut out);
            out.push(0x0a);
            proof {
                let fs = self.fields();
                assert(fs.subrange(0, i + 1) =~= fs.subrange(0, i as int).push(fs[i as int]));
                lemma_items_text_push(fs.subrange(0, i as int), fs[i as int]);
                assert(out@ =~= head + items_text(self.fields().subrange(0, i + 1)));
            }
            i = i + 1;
        }
        push_decimal(&mut out, self.capacity);
        out.push(0x0a);
        assert(self.fields().subrange(0, i as int) =~= self.fields());
        assert(out@ =~= instance_text(self.fields(), self.capacity()));
        out
    }

    /// The instance holds items with the fields given, in order, and the
    /// capacity given.
    pub open spec fn holds(&self, fields: Seq<(u64, u64, u64)>, capacity: u64) -> bool {
        &&& self.spec_items().len() == fields.len()
        &&& forall|i: int| 0 <= i < fields.len() ==> has_fields(#[trigger] self.spec_items()[i], fields[i])
        &&& self.capacity() == capacity
    }

    /// Reads an instance from text: a line with the item count `n`, `n` lines
    /// of three whitespace-separated unsigned integers (identifier, value,
    /// weight), and a line with the capacity.
    pub fn parse(input: &[u8]) -> (r: Result<Knapsack, ParseError>)
        ensures
            match instance_of(input@) {
                Ok((fields, capacity)) => r matches Ok(k) && k.holds(fields, capacity),
                Err(e) => r == Err::<Knapsack, ParseError>(e),
            },
    {
        let ghost ls = lines(input@);
        if input.len() == 0 {
            return Err(ParseError::EmptyInput);
        }
        let (a, b, next) = next_line(input, 0);
        let mut pos: usize = next;
        assert(ls[0] == input@.subrange(a as int, b as int));
        assert(lines_from(input@, pos as int) =~= ls.subrange(1, ls.len() as int));
        let n: usize = match parse_decimal(slice_subrange(input, a, b), usize::MAX as u64) {
            None => {
                return Err(ParseError::IllegalItemCount);
            },
            Some(v) => v as usize,
        };
        let ghost present = if n < ls.len() - 1 {
            n as int
        } else {
            ls.len() - 1
        };
        let mut items: Vec<Item> = Vec::new();
        let mut k: usize = 0;
        while k < n && pos < input.len()
            invariant
                ls == lines(input@),
                ls.len() >= 1,
                bounded_decimal(ls[0], usize::MAX as nat) == Some(n as nat),
                present == (if n < ls.len() - 1 {
                    n as int
                } else {
                    ls.len() - 1
                }),
                k <= n,
                k + 1 <= pos <= input.len(),
                1 + k <= ls.len(),
                lines_from(input@, pos as int) == ls.subrange(1 + k, ls.len() as int),
                items@.len() == k,
                items_read(items@, ls),
                first_bad_item(ls, 1, 1 + present) == first_bad_item(ls, 1 + k, 1 + present),
            decreases n - k,
        {
            let (a, b, next) = next_line(input, pos);
            assert(lines_from(input@, pos as int).len() >= 1);
            assert(ls.len() >= 2 + k);
            assert(ls[1 + k] == input@.subrange(a as int, b as int)) by {
                assert(ls.subrange(1 + k, ls.len() as int)[0] == ls[1 + k]);
            }
            assert(lines_from(input@, next as int) =~= ls.subrange(2 + k, ls.len() as int)) by {
                assert(ls.subrange(1 + k, ls.len() as int).subrange(1, ls.len() - 1 - k)
                    =~= ls.subrange(2 + k, ls.len() as int));
            }
            let line = slice_subrange(input, a, b);
            assert(line@ == ls[1 + k]);
            let it = match Item::parse_line(line) {
                Err(e) => {
                    assert(first_bad_item(ls, 1 + k, 1 + present) == Some(1 + k));
                    return Err(ParseError::Item { line: k + 2, error: e });
                },
                Ok(it) => it,
            };
            assert(item_fields(ls[1 + k]) is Ok);
            let ghost before = items@;
            items.push(it);
            assert forall|m: int| 0 <= m < items@.len() implies item_read(items@, ls, m) by {
                if m < k {
                    assert(item_read(before, ls, m));
                }
            }
            pos = next;
            k = k + 1;
        }
        if pos >= input.len() {
            assert(lines_from(input@, pos as int) =~= Seq::<Seq<u8>>::empty());
            assert(ls.len() == 1 + k);
            return Err(ParseError::MissingCapacity);
        }
        let (a, b, _) = next_line(input, pos);
        assert(lines_from(input@, pos as int).len() >= 1);
        assert(ls.len() >= 2 + n);
        assert(ls[1 + n] == input@.subrange(a as int, b as int)) by {
            assert(ls.subrange(1 + k, ls.len() as int)[0] == ls[1 + k]);
        }
        match parse_decimal(slice_subrange(input, a, b), u64::MAX) {
            None => Err(ParseError::MalformedCapacity),
            Some(capacity) => {
                let r = Knapsack { items, capacity };
                let ghost fields = Seq::new(n as nat, |m: int| item_fields(ls[m + 1])->Ok_0);
                assert forall|i: int| 0 <= i < fields.len() implies has_fields(
                    #[trigger] r.spec_items()[i],
                    fields[i],
                ) by {
                    assert(item_read(r.items@, ls, i));
                }
                assert(r.holds(fields, capacity));
                Ok(r)
            },
        }
    }

    /// The total value of the items that `choices` includes.
    pub fn value(&self, choices: &[bool]) -> (r: u128)
        ensures
            r == total_value(self.spec_items(), choices@),
    {
        let ghost amounts = values_of(self.items@);
        let n: usize = if self.items.len() < choices.len() {
            self.items.len()
        } else {
            choices.len()
        };
        let mut sum: u128 = 0;
        let mut i: usize = 0;
        while i < n
            invariant
                n == paired_len(self.items@, choices@),
                amounts == values_of(self.items@),
                i <= n,
                sum == selected_sum(amounts, choices@, i as int),
            decreases n - i,
        {
            proof {
                lemma_selected_sum_bounds(amounts, choices@, i + 1);
                assert((i + 1) * u64::MAX <= usize::MAX * u64::MAX) by (nonlinear_arith)
                    requires
                        i + 1 <= usize::MAX,
                ;
            }
            if choices[i] {
                sum = sum + self.items[i].value() as u128;
            }
            i = i + 1;
        }
        sum
    }

    /// The total weight of the items that `choices` includes.
    pub fn weight(&self, choices: &[bool]) -> (r: u128)
        ensures
            r == total_weight(self.spec_items(), choices@),
    {
        let ghost amounts = weights_of(self.items@);
        let n: usize = if self.items.len() < choices.len() {
            self.items.len()
        } else {
            choices.len()
        };
        let mut sum: u128 = 0;
        let mut i: usize = 0;
        while i < n
            invariant
                n == paired_len(self.items@, choices@),
                amounts == weights_of(self.items@),
                i <= n,
                sum == selected_sum(amounts, choices@, i as int),
            decreases n - i,
        {
            proof {
                lemma_selected_sum_bounds(amounts, choices@, i + 1);
                assert((i + 1) * u64::MAX <= usize::MAX * u64::MAX) by (nonlinear_arith)
                    requires
                        i + 1 <= usize::MAX,
                ;
            }
            if choices[i] {
                sum = sum + self.items[i].weight() as u128;
            }
            i = i + 1;
        }
        sum
    }
}

} // verus!
