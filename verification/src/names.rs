//! The names of table files. A table made by the engine is called `sst_`, its sequence number with at
//! least eight digits, and `.sst`. Names are byte strings, as directory entries are.

use vstd::prelude::*;

use crate::decimal::{
    all_digits, decimal, decimal_bytes, digit, is_digit, lemma_decimal_leads, lemma_decimal_value,
    numeral_value,
};
use crate::format::append_bytes;
use crate::order::{
    KeyOrder, key_lt, lemma_key_lt_excludes, lemma_key_lt_total, lemma_key_lt_transitive,
    order_keys,
};

verus! {

/// `sst_`
pub open spec fn name_prefix() -> Seq<u8> {
    seq![115u8, 115u8, 116u8, 95u8]
}

/// `.sst`
pub open spec fn name_suffix() -> Seq<u8> {
    seq![46u8, 115u8, 115u8, 116u8]
}

/// The numeral of `n` with at least `width` digits.
pub open spec fn padded(n: nat, width: nat) -> Seq<u8>
    decreases width,
{
    if width == 0 {
        if n == 0 {
            Seq::empty()
        } else {
            decimal(n)
        }
    } else {
        padded(n / 10, (width - 1) as nat).push(digit(n % 10))
    }
}

/// The file name of the table with sequence number `n`.
pub open spec fn table_file(n: nat) -> Seq<u8> {
    name_prefix() + padded(n, 8) + name_suffix()
}

/// Where the stem of `name` ends: at the last dot among the first `n` bytes that is not the first
/// byte, or at the end of the name.
pub open spec fn stem_end(name: Seq<u8>, n: int) -> int
    decreases n,
{
    if n <= 1 {
        name.len() as int
    } else if name[n - 1] == 46 {
        n - 1
    } else {
        stem_end(name, n - 1)
    }
}

/// `name` without its extension.
pub open spec fn stem(name: Seq<u8>) -> Seq<u8> {
    name.take(stem_end(name, name.len() as int))
}

/// The 64-bit number that `s` denotes: digits, after a plus sign or not.
pub open spec fn parsed(s: Seq<u8>) -> Option<nat> {
    let digits = if s.len() > 0 && s[0] == 43 {
        s.drop_first()
    } else {
        s
    };
    if digits.len() > 0 && all_digits(digits) && numeral_value(digits) <= u64::MAX {
        Some(numeral_value(digits))
    } else {
        None
    }
}

/// The sequence number in a file name, if it has one.
pub open spec fn seq_of(name: Seq<u8>) -> Option<nat> {
    let s = stem(name);
    if name_prefix().is_prefix_of(s) {
        parsed(s.skip(4))
    } else {
        None
    }
}

/// `name` has the extension of a table file.
pub open spec fn is_table_name(name: Seq<u8>) -> bool {
    name.len() > 4 && name_suffix().is_suffix_of(name)
}

/// What a sequence of names says.
pub open spec fn names_view(s: Seq<Vec<u8>>) -> Seq<Seq<u8>> {
    Seq::new(s.len(), |i: int| s[i]@)
}

/// How young the table of a name is: its number. A name without one is older than all with one.
pub open spec fn age_rank(name: Seq<u8>) -> int {
    match seq_of(name) {
        Some(n) => n as int,
        None => -1,
    }
}

/// The table `a` is older than `b`: by its number, then by its name.
pub open spec fn name_lt(a: Seq<u8>, b: Seq<u8>) -> bool {
    age_rank(a) < age_rank(b) || (age_rank(a) == age_rank(b) && key_lt(a, b))
}

/// The table `a` is older than `b`, or the names are the same.
pub open spec fn name_le(a: Seq<u8>, b: Seq<u8>) -> bool {
    a == b || name_lt(a, b)
}

/// No table is older than one that follows it.
pub open spec fn descending(s: Seq<Seq<u8>>) -> bool {
    forall|i: int, j: int| 0 <= i < j < s.len() ==> name_le(#[trigger] s[j], #[trigger] s[i])
}

// ---------------------------------------------------------------------------
// Facts about names
// ---------------------------------------------------------------------------

/// A padded numeral denotes its number.
pub proof fn lemma_padded_value(n: nat, width: nat)
    ensures
        all_digits(padded(n, width)),
        numeral_value(padded(n, width)) == n,
        padded(n, width).len() >= width,
    decreases width,
{
    if width == 0 {
        if n > 0 {
            lemma_decimal_value(n);
        }
    } else {
        lemma_padded_value(n / 10, (width - 1) as nat);
        let s = padded(n, width);
        assert(s.drop_last() =~= padded(n / 10, (width - 1) as nat));
    }
}

/// The sequence number of a table can be read back from its name.
pub proof fn file_name_keeps_the_number(n: nat)
    requires
        n <= u64::MAX,
    ensures
        seq_of(table_file(n)) == Some(n),
        is_table_name(table_file(n)),
{
    let name = table_file(n);
    let digits = padded(n, 8);
    let end = 4 + digits.len() as int;
    lemma_padded_value(n, 8);
    assert(name.len() == end + 4);
    assert(name[end] == 46);
    reveal_with_fuel(stem_end, 5);
    assert(stem_end(name, end + 4) == end);
    assert(stem(name) =~= name_prefix() + digits);
    assert(stem(name).skip(4) =~= digits);
    assert(name_prefix().is_prefix_of(stem(name)));
    assert(is_digit(digits[0]));
    assert(name.skip(end) =~= name_suffix());
    assert(name_suffix().is_suffix_of(name));
}

/// The name of a table: `sst_`, its number in decimal with zeros in front up to eight digits, and
/// `.sst`.
pub proof fn the_name_of_a_table(n: nat)
    ensures
        table_file(n).len() >= 16,
        table_file(n).take(4) == seq![115u8, 115u8, 116u8, 95u8],
        table_file(n).skip(table_file(n).len() - 4) == seq![46u8, 115u8, 115u8, 116u8],
        ({
            let digits = table_file(n).subrange(4, table_file(n).len() - 4);
            &&& forall|i: int| 0 <= i < digits.len() ==> 48 <= #[trigger] digits[i] <= 57
            &&& numeral_value(digits) == n
            &&& digits.len() > 8 ==> digits[0] != 48
        }),
{
    let name = table_file(n);
    let digits = padded(n, 8);
    lemma_padded_value(n, 8);
    lemma_padded_leads(n, 8);
    assert(name.take(4) =~= seq![115u8, 115u8, 116u8, 95u8]);
    assert(name.skip(name.len() - 4) =~= seq![46u8, 115u8, 115u8, 116u8]);
    assert(name.subrange(4, name.len() - 4) =~= digits);
    assert forall|i: int| 0 <= i < digits.len() implies 48 <= #[trigger] digits[i] <= 57 by {
        assert(is_digit(digits[i]));
    }
}

/// A padded numeral that is longer than its width has no zero in front.
proof fn lemma_padded_leads(n: nat, width: nat)
    ensures
        padded(n, width).len() > width ==> padded(n, width)[0] != 48,
    decreases width,
{
    if width == 0 {
        if n > 0 {
            lemma_decimal_leads(n);
        }
    } else {
        lemma_padded_leads(n / 10, (width - 1) as nat);
    }
}

/// Digits between `sst_` and `.sst` are the number of a table, where they denote one of 64 bits, with a
/// plus sign in front or not.
pub proof fn digits_number_a_table(digits: Seq<u8>)
    requires
        digits.len() > 0,
        forall|i: int| 0 <= i < digits.len() ==> 48 <= #[trigger] digits[i] <= 57,
    ensures
        ({
            let head = seq![115u8, 115u8, 116u8, 95u8];
            let end = seq![46u8, 115u8, 115u8, 116u8];
            let n = if numeral_value(digits) <= u64::MAX {
                Some(numeral_value(digits))
            } else {
                None
            };
            &&& seq_of(head + digits + end) == n
            &&& seq_of(head + (seq![43u8] + digits) + end) == n
        }),
{
    lemma_stem_number(digits);
    lemma_stem_number(seq![43u8] + digits);
    assert((seq![43u8] + digits).drop_first() =~= digits);
    assert forall|i: int| 0 <= i < digits.len() implies is_digit(#[trigger] digits[i]) by {}
}

/// What stands between `sst_` and `.sst` is read as the number.
proof fn lemma_stem_number(s: Seq<u8>)
    ensures
        seq_of(seq![115u8, 115u8, 116u8, 95u8] + s + seq![46u8, 115u8, 115u8, 116u8]) == parsed(s),
{
    let name = seq![115u8, 115u8, 116u8, 95u8] + s + seq![46u8, 115u8, 115u8, 116u8];
    let end = 4 + s.len() as int;
    assert(name.len() == end + 4);
    assert(name[end] == 46);
    assert(name[end + 1] == 115 && name[end + 2] == 115 && name[end + 3] == 116);
    reveal_with_fuel(stem_end, 5);
    assert(stem_end(name, end + 4) == end);
    assert(stem(name) =~= name_prefix() + s);
    assert(stem(name).skip(4) =~= s);
    assert(name_prefix().is_prefix_of(stem(name)));
}

/// Nothing but digits, with a plus sign in front or not, makes a number.
pub proof fn only_digits_number_a_table(s: Seq<u8>)
    requires
        seq_of(seq![115u8, 115u8, 116u8, 95u8] + s + seq![46u8, 115u8, 115u8, 116u8]) is Some,
    ensures
        s.len() > 0,
        48 <= s[0] <= 57 || (s[0] == 43 && s.len() > 1),
        forall|i: int| 1 <= i < s.len() ==> 48 <= #[trigger] s[i] <= 57,
{
    lemma_stem_number(s);
    assert forall|i: int| 1 <= i < s.len() implies 48 <= #[trigger] s[i] <= 57 by {
        if s[0] == 43 {
            assert(is_digit(s.drop_first()[i - 1]));
        } else {
            assert(is_digit(s[i]));
        }
    }
    if s[0] != 43 {
        assert(is_digit(s[0]));
    }
}

/// Names are ordered by their numbers; names of one number, and names without one, by their bytes. A
/// name without a number stands before every name with one.
pub proof fn names_are_ordered_by_number_first(a: Seq<u8>, b: Seq<u8>)
    ensures
        match (seq_of(a), seq_of(b)) {
            (Some(m), Some(n)) => {
                &&& m < n ==> name_lt(a, b)
                &&& m == n ==> (name_lt(a, b) <==> key_lt(a, b))
            },
            (None, Some(_)) => name_lt(a, b),
            (Some(_), None) => name_lt(b, a),
            (None, None) => name_lt(a, b) <==> key_lt(a, b),
        },
{
}

/// Only a name that begins with `sst_` has a number, and that fits 64 bits.
pub proof fn other_names_have_no_number(name: Seq<u8>)
    ensures
        seq_of(name) matches Some(n) ==> n <= u64::MAX && name.len() > 4 && name.take(4) == seq![
            115u8,
            115u8,
            116u8,
            95u8,
        ],
{
    if seq_of(name) is Some {
        let s = stem(name);
        lemma_stem_end(name, name.len() as int);
        assert(name.take(4) =~= s.take(4));
        assert(s.take(4) =~= name_prefix());
    }
}

proof fn lemma_stem_end(name: Seq<u8>, n: int)
    requires
        n <= name.len(),
    ensures
        0 <= stem_end(name, n) <= name.len(),
    decreases n,
{
    if n > 1 && name[n - 1] != 46 {
        lemma_stem_end(name, n - 1);
    }
}

/// The files that hold tables are those whose names end in `.sst`, with something before.
pub proof fn tables_are_told_by_their_extension(front: Seq<u8>, name: Seq<u8>)
    ensures
        front.len() > 0 ==> is_table_name(front + seq![46u8, 115u8, 115u8, 116u8]),
        is_table_name(name) ==> name.len() > 4 && name.skip(name.len() - 4) == seq![
            46u8,
            115u8,
            115u8,
            116u8,
        ],
{
    let end = seq![46u8, 115u8, 115u8, 116u8];
    assert((front + end).skip(front.len() as int) =~= end);
    assert(name_suffix() =~= end);
}

/// A name stands before no other way round, and differs from one that it stands before.
pub proof fn lemma_name_lt_excludes(a: Seq<u8>, b: Seq<u8>)
    requires
        name_lt(a, b),
    ensures
        a != b,
        !name_lt(b, a),
{
    if key_lt(a, b) {
        lemma_key_lt_excludes(a, b);
    }
}

/// The order of names is transitive.
pub proof fn lemma_name_lt_transitive(a: Seq<u8>, b: Seq<u8>, c: Seq<u8>)
    requires
        name_lt(a, b),
        name_lt(b, c),
    ensures
        name_lt(a, c),
{
    if key_lt(a, b) && key_lt(b, c) {
        lemma_key_lt_transitive(a, b, c);
    }
}

/// The order of names is total.
pub proof fn lemma_name_lt_total(a: Seq<u8>, b: Seq<u8>)
    ensures
        name_lt(a, b) || a == b || name_lt(b, a),
{
    lemma_key_lt_total(a, b);
}

/// The names of tables stand in the order of their numbers.
pub proof fn file_names_order_as_numbers(n: nat, m: nat)
    requires
        n < m <= u64::MAX,
    ensures
        name_lt(table_file(n), table_file(m)),
{
    file_name_keeps_the_number(n);
    file_name_keeps_the_number(m);
}

// ---------------------------------------------------------------------------
// Making and reading names
// ---------------------------------------------------------------------------

fn padded_bytes(n: u64, width: u8) -> (r: Vec<u8>)
    ensures
        r@ == padded(n as nat, width as nat),
    decreases width,
{
    if width == 0 {
        if n == 0 {
            Vec::new()
        } else {
            decimal_bytes(n)
        }
    } else {
        let mut out = padded_bytes(n / 10, width - 1);
        out.push(48 + (n % 10) as u8);
        out
    }
}

/// The file name of the table with sequence number `seq`.
pub fn table_file_name(seq: u64) -> (r: Vec<u8>)
    ensures
        r@ == table_file(seq as nat),
{
    let mut name: Vec<u8> = Vec::new();
    append_bytes(&mut name, &[115u8, 115u8, 116u8, 95u8]);
    append_bytes(&mut name, padded_bytes(seq, 8).as_slice());
    append_bytes(&mut name, &[46u8, 115u8, 115u8, 116u8]);
    assert(name@ =~= table_file(seq as nat));
    name
}

/// The number that `s` denotes, if it is one that fits 64 bits.
fn parse_number(s: &[u8]) -> (r: Option<u64>)
    ensures
        r matches Some(n) ==> parsed(s@) == Some(n as nat),
        r is None ==> parsed(s@) is None,
{
    let start: usize = if s.len() > 0 && s[0] == 43 {
        1
    } else {
        0
    };
    let ghost digits = s@.skip(start as int);
    assert(start == 1 ==> digits =~= s@.drop_first());
    assert(start == 0 ==> digits =~= s@);
    if s.len() == start {
        return None;
    }
    let mut value: u64 = 0;
    let mut i: usize = start;
    assert(digits.take(0) =~= Seq::empty());
    while i < s.len()
        invariant
            start <= i <= s@.len(),
            start < s@.len(),
            digits == s@.skip(start as int),
            all_digits(digits.take(i - start)),
            value == numeral_value(digits.take(i - start)),
            parsed(s@) == (if all_digits(digits) && numeral_value(digits) <= u64::MAX {
                Some(numeral_value(digits))
            } else {
                None
            }),
        decreases s@.len() - i,
    {
        let c = s[i];
        let ghost next = digits.take(i - start + 1);
        assert(next.drop_last() =~= digits.take(i - start));
        assert(next.last() == c);
        assert(digits[i - start] == c);
        if c < 48 || c > 57 {
            assert(!all_digits(digits));
            return None;
        }
        let d = (c - 48) as u64;
        proof {
            lemma_numeral_grows(digits, i - start + 1);
        }
        if value > (u64::MAX - d) / 10 {
            return None;
        }
        value = value * 10 + d;
        i = i + 1;
        assert(all_digits(next)) by {
            assert forall|j: int| 0 <= j < next.len() implies is_digit(#[trigger] next[j]) by {
                if j < next.len() - 1 {
                    assert(is_digit(digits.take(i - start - 1)[j]));
                }
            }
        }
    }
    assert(digits.take(i - start) =~= digits);
    Some(value)
}

/// A prefix of a numeral denotes no more than the whole.
proof fn lemma_numeral_grows(s: Seq<u8>, n: int)
    requires
        0 <= n <= s.len(),
    ensures
        all_digits(s) ==> numeral_value(s.take(n)) <= numeral_value(s),
    decreases s.len(),
{
    if all_digits(s) {
        if n == s.len() {
            assert(s.take(n) =~= s);
        } else {
            let front = s.drop_last();
            assert(all_digits(front)) by {
                assert forall|j: int| 0 <= j < front.len() implies is_digit(#[trigger] front[j]) by {
                    assert(is_digit(s[j]));
                }
            }
            lemma_numeral_grows(front, n);
            assert(front.take(n) =~= s.take(n));
            assert(is_digit(s[s.len() - 1]));
        }
    }
}

/// The sequence number in a file name, if it has one.
pub fn table_seq(name: &[u8]) -> (r: Option<u64>)
    ensures
        r matches Some(n) ==> seq_of(name@) == Some(n as nat),
        r is None ==> seq_of(name@) is None,
{
    let mut n: usize = name.len();
    while n > 1 && name[n - 1] != 46
        invariant
            n <= name@.len(),
            stem_end(name@, name@.len() as int) == stem_end(name@, n as int),
        decreases n,
    {
        n = n - 1;
    }
    let end = if n > 1 {
        n - 1
    } else {
        name.len()
    };
    let s = &name[0..end];
    assert(s@ =~= stem(name@));
    if s.len() < 4 || s[0] != 115 || s[1] != 115 || s[2] != 116 || s[3] != 95 {
        proof {
            if name_prefix().is_prefix_of(s@) {
                assert(s@.take(4)[0] == s@[0] && s@.take(4)[1] == s@[1] && s@.take(4)[2] == s@[2]
                    && s@.take(4)[3] == s@[3]);
            }
        }
        return None;
    }
    let digits = &s[4..s.len()];
    assert(digits@ =~= s@.skip(4));
    assert(name_prefix().is_prefix_of(s@));
    parse_number(digits)
}

/// Whether `name` has the extension of a table file.
pub fn has_table_extension(name: &[u8]) -> (r: bool)
    ensures
        r == is_table_name(name@),
{
    let n = name.len();
    if n <= 4 {
        return false;
    }
    let r = name[n - 4] == 46 && name[n - 3] == 115 && name[n - 2] == 115 && name[n - 1] == 116;
    proof {
        let tail = name@.skip(n - 4);
        assert(tail[0] == name@[n - 4] && tail[1] == name@[n - 3] && tail[2] == name@[n - 2]
            && tail[3] == name@[n - 1]);
        if r {
            assert(tail =~= name_suffix());
        }
    }
    r
}

/// The names that have the extension of a table file, in the order given.
pub fn select_tables(names: Vec<Vec<u8>>) -> (r: Vec<Vec<u8>>)
    ensures
        names_view(r@) == names_view(names@).filter(|n: Seq<u8>| is_table_name(n)),
{
    let ghost all = names_view(names@);
    let ghost keep = |n: Seq<u8>| is_table_name(n);
    let mut out: Vec<Vec<u8>> = Vec::new();
    proof {
        reveal(Seq::filter);
        assert(all.take(0) =~= Seq::empty());
        assert(names_view(out@) =~= all.take(0).filter(keep));
    }
    for name in it: names
        invariant
            all == names_view(it.seq()),
            keep == (|n: Seq<u8>| is_table_name(n)),
            names_view(out@) == all.take(it.index()).filter(keep),
    {
        let ghost before = names_view(out@);
        proof {
            let next = all.take(it.index() + 1);
            assert(next.drop_last() =~= all.take(it.index()));
            assert(next.last() == name@);
            reveal(Seq::filter);
        }
        if has_table_extension(name.as_slice()) {
            out.push(name);
            assert(names_view(out@) =~= before.push(name@));
        }
    }
    assert(all.take(all.len() as int) =~= all);
    out
}

/// The names with the newest first: the greatest number, then the greatest name.
pub fn newest_first(names: Vec<Vec<u8>>) -> (r: Vec<Vec<u8>>)
    ensures
        descending(names_view(r@)),
        names_view(r@).to_multiset() == names_view(names@).to_multiset(),
{
    let ghost all = names_view(names@);
    let mut out: Vec<Vec<u8>> = Vec::new();
    assert(all.take(0) =~= names_view(out@));
    for name in it: names
        invariant
            all == names_view(it.seq()),
            descending(names_view(out@)),
            names_view(out@).to_multiset() == all.take(it.index()).to_multiset(),
    {
        let ghost before = names_view(out@);
        let p = place(&out, name.as_slice());
        proof {
            let after = before.insert(p as int, name@);
            lemma_placed(before, p as int, name@);
            vstd::seq_lib::to_multiset_insert(before, p as int, name@);
            let next = all.take(it.index() + 1);
            assert(next =~= all.take(it.index()).push(name@));
            vstd::seq_lib::to_multiset_build(all.take(it.index()), name@);
        }
        out.insert(p, name);
        assert(names_view(out@) =~= before.insert(p as int, name@));
    }
    assert(all.take(all.len() as int) =~= all);
    out
}

/// Which of two tables is older.
pub fn order_names(a: &[u8], b: &[u8]) -> (r: KeyOrder)
    ensures
        r == KeyOrder::Before <==> name_lt(a@, b@),
        r == KeyOrder::Same <==> a@ == b@,
        r == KeyOrder::After <==> name_lt(b@, a@),
{
    match (table_seq(a), table_seq(b)) {
        (Some(m), Some(n)) => if m < n {
            KeyOrder::Before
        } else if n < m {
            KeyOrder::After
        } else {
            order_keys(a, b)
        },
        (None, Some(_)) => KeyOrder::Before,
        (Some(_), None) => KeyOrder::After,
        (None, None) => order_keys(a, b),
    }
}

/// Where `name` belongs in the descending sequence `names`: after every name that does not stand
/// before it.
fn place(names: &Vec<Vec<u8>>, name: &[u8]) -> (p: usize)
    requires
        descending(names_view(names@)),
    ensures
        p <= names@.len(),
        forall|i: int| 0 <= i < p ==> name_le(name@, #[trigger] names_view(names@)[i]),
        forall|i: int| p <= i < names@.len() ==> name_lt(#[trigger] names_view(names@)[i], name@),
{
    let ghost s = names_view(names@);
    let mut p: usize = 0;
    while p < names.len()
        invariant
            s == names_view(names@),
            descending(s),
            p <= names@.len(),
            forall|i: int| 0 <= i < p ==> name_le(name@, #[trigger] s[i]),
        decreases names@.len() - p,
    {
        match order_names(names[p].as_slice(), name) {
            KeyOrder::Before => {
                proof {
                    assert forall|i: int| p <= i < names@.len() implies name_lt(
                        #[trigger] s[i],
                        name@,
                    ) by {
                        assert(name_lt(s[p as int], name@));
                        if p < i && s[i] != s[p as int] {
                            assert(name_le(s[i], s[p as int]));
                            lemma_name_lt_transitive(s[i], s[p as int], name@);
                        }
                    }
                }
                return p;
            },
            _ => {
                proof {
                    lemma_name_lt_total(s[p as int], name@);
                }
                assert(name_le(name@, s[p as int]));
                p = p + 1;
            },
        }
    }
    p
}

proof fn lemma_placed(s: Seq<Seq<u8>>, p: int, name: Seq<u8>)
    requires
        descending(s),
        0 <= p <= s.len(),
        forall|i: int| 0 <= i < p ==> name_le(name, #[trigger] s[i]),
        forall|i: int| p <= i < s.len() ==> name_lt(#[trigger] s[i], name),
    ensures
        descending(s.insert(p, name)),
{
    let t = s.insert(p, name);
    assert forall|i: int, j: int| 0 <= i < j < t.len() implies name_le(
        #[trigger] t[j],
        #[trigger] t[i],
    ) by {
        let x = if i < p {
            i
        } else {
            i - 1
        };
        let y = if j < p {
            j
        } else {
            j - 1
        };
        if i == p {
            assert(name_lt(s[y], name));
        } else if j == p {
            assert(name_le(name, s[x]));
        } else {
            assert(name_le(s[y], s[x]));
        }
    }
}

} // verus!
