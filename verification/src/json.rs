//! What the JSON text of a snapshot tells.

use vstd::prelude::*;

use crate::decimal::{ascii_text, decimal, is_digit, lemma_decimal_value};
use crate::metrics::{MetricsSnapshot, number};

verus! {

/// The number that a text of digits denotes.
pub open spec fn text_value(s: Seq<char>) -> nat
    decreases s.len(),
{
    if s.len() == 0 {
        0
    } else {
        10 * text_value(s.drop_last()) + (s.last() as int - '0' as int) as nat
    }
}

/// `s` is the numeral of `n`: digits, without leading zeros.
pub open spec fn is_numeral(s: Seq<char>, n: nat) -> bool {
    &&& s.len() > 0
    &&& forall|i: int| 0 <= i < s.len() ==> '0' <= #[trigger] s[i] <= '9'
    &&& s.len() > 1 ==> s[0] != '0'
    &&& text_value(s) == n
}

/// The name of a member in a JSON text: in quotes, and a colon.
pub open spec fn member(name: Seq<char>) -> Seq<char> {
    seq!['"'] + name + seq!['"', ':']
}

/// The name of a member stands at position `i` of the text.
pub open spec fn named_at(text: Seq<char>, name: Seq<char>, i: int) -> bool {
    &&& 0 <= i
    &&& i + member(name).len() <= text.len()
    &&& text.subrange(i, i + member(name).len()) == member(name)
}

/// After position `i` of the text stands the number `n`, with these decimals, and then its end.
pub open spec fn number_at(text: Seq<char>, i: int, n: nat, decimals: Seq<char>) -> bool {
    exists|digits: Seq<char>, rest: Seq<char>|
        #![trigger digits + decimals + rest]
        is_numeral(digits, n) && text.skip(i) == digits + decimals + rest && rest.len() > 0 && (
        rest[0] == ',' || rest[0] == '}')
}

/// The text has a member of this name, and wherever it has one, its value is the number `n` with these
/// decimals.
pub open spec fn tells(text: Seq<char>, name: Seq<char>, n: u64, decimals: Seq<char>) -> bool {
    &&& exists|i: int| named_at(text, name, i)
    &&& told(text, name, n as nat, decimals)
}

/// Wherever the text has a member of this name, its value is the number `n` with these decimals.
pub open spec fn told(text: Seq<char>, name: Seq<char>, n: nat, decimals: Seq<char>) -> bool {
    forall|i: int| #[trigger]
        named_at(text, name, i) ==> number_at(text, i + member(name).len(), n, decimals)
}

/// No character of `s` is a quote.
spec fn unquoted(s: Seq<char>) -> bool {
    forall|i: int| 0 <= i < s.len() ==> #[trigger] s[i] != '"'
}

/// A numeral is what `number` gives.
proof fn lemma_number(n: u64)
    ensures
        is_numeral(number(n), n as nat),
        unquoted(number(n)),
{
    let s = number(n);
    lemma_text_value(n as nat);
    assert forall|i: int| 0 <= i < s.len() implies #[trigger] s[i] != '"' by {
        assert('0' <= s[i]);
    }
}

/// A decimal numeral as text denotes its number.
pub proof fn lemma_text_value(n: nat)
    ensures
        is_numeral(ascii_text(decimal(n)), n),
        n > 0 ==> ascii_text(decimal(n))[0] != '0',
    decreases n,
{
    let s = ascii_text(decimal(n));
    lemma_decimal_value(n);
    assert forall|i: int| 0 <= i < s.len() implies '0' <= #[trigger] s[i] <= '9' by {
        assert(is_digit(decimal(n)[i]));
    }
    if n >= 10 {
        lemma_text_value(n / 10);
        let front = ascii_text(decimal(n / 10));
        assert(s.drop_last() =~= front);
        assert(s.last() as int - '0' as int == n % 10);
        assert(s[0] == front[0]);
    } else {
        assert(s.drop_last() =~= Seq::<char>::empty());
        assert(text_value(s.drop_last()) == 0);
    }
}

/// A member before others: what is told of the others stays true, and what is told of the member is its
/// own number.
proof fn lemma_member_first(
    sep: Seq<char>,
    other: Seq<char>,
    digits: Seq<char>,
    rest: Seq<char>,
    name: Seq<char>,
    n: nat,
    decimals: Seq<char>,
)
    requires
        unquoted(sep),
        unquoted(other),
        unquoted(digits),
        unquoted(name),
        name.len() > 0,
        name[0] != ':',
        told(rest, name, n, decimals),
        name == other ==> number_at(digits + rest, 0, n, decimals),
    ensures
        told(sep + member(other) + digits + rest, name, n, decimals),
{
    let text = sep + member(other) + digits + rest;
    let front = sep.len() + member(other).len() + digits.len();
    let size = member(name).len() as int;
    assert forall|i: int| #[trigger] named_at(text, name, i) implies number_at(
        text,
        i + size,
        n,
        decimals,
    ) by {
        let seen = text.subrange(i, i + size);
        assert(seen[0] == '"' && seen[1] == name[0] && seen[size - 2] == '"');
        assert(text[i] == '"' && text[i + 1] == name[0] && text[i + size - 2] == '"');
        if i >= front {
            let j = i - front;
            assert(rest.subrange(j, j + size) =~= seen);
            assert(named_at(rest, name, j));
            assert(text.skip(i + size) =~= rest.skip(j + size));
        } else {
            let at = sep.len() as int;
            let close = at + other.len() as int + 1;
            if i < at {
                assert(text[i] == sep[i]);
            } else if i > close {
                if i == close + 1 {
                    assert(text[i] == ':');
                } else {
                    assert(text[i] == digits[i - close - 2]);
                }
            } else if i == close {
                assert(text[i + 1] == ':');
            } else if i > at {
                assert(text[i] == other[i - at - 1]);
            }
            assert(i == at);
            assert(text.subrange(at, at + member(other).len()) =~= member(other));
            lemma_same_member(text, at, name, other);
            assert(text.skip(i + size) =~= digits + rest);
            assert((digits + rest).skip(0) =~= digits + rest);
        }
    }
}

/// Two names that stand at one position are the same.
proof fn lemma_same_member(text: Seq<char>, at: int, name: Seq<char>, other: Seq<char>)
    requires
        unquoted(name),
        unquoted(other),
        named_at(text, name, at),
        named_at(text, other, at),
    ensures
        name == other,
{
    let a = text.subrange(at, at + member(name).len());
    let b = text.subrange(at, at + member(other).len());
    let x = name.len() as int;
    let y = other.len() as int;
    if x < y {
        assert(a[x + 1] == '"' && b[x + 1] == other[x]);
    } else if y < x {
        assert(b[y + 1] == '"' && a[y + 1] == name[y]);
    } else {
        assert forall|i: int| 0 <= i < name.len() implies name[i] == other[i] by {
            assert(a[i + 1] == name[i] && b[i + 1] == other[i]);
        }
        assert(name =~= other);
    }
}

/// What is told of a name is told with characters before that have no quotes.
proof fn lemma_told_after(front: Seq<char>, rest: Seq<char>, name: Seq<char>, n: nat, decimals: Seq<char>)
    requires
        unquoted(front),
        told(rest, name, n, decimals),
    ensures
        told(front + rest, name, n, decimals),
{
    let text = front + rest;
    let size = member(name).len() as int;
    assert forall|i: int| #[trigger] named_at(text, name, i) implies number_at(
        text,
        i + size,
        n,
        decimals,
    ) by {
        let seen = text.subrange(i, i + size);
        assert(member(name)[0] == '"');
        assert(seen[0] == text[i]);
        if i < front.len() {
            assert(text[i] == front[i]);
        }
        let j = i - front.len();
        assert(rest.subrange(j, j + size) =~= seen);
        assert(named_at(rest, name, j));
        assert(text.skip(i + size) =~= rest.skip(j + size));
    }
}

/// A member of a JSON object: its name, its number and the decimals of that.
type Member = (Seq<char>, u64, Seq<char>);

/// What stands between the numeral of member `j` and the next member.
spec fn after_numeral(ms: Seq<Member>, j: int) -> Seq<char> {
    if j + 1 < ms.len() {
        ms[j].2 + seq![',']
    } else {
        ms[j].2
    }
}

/// The members from position `j` on, up to the closing brace.
spec fn text_from(ms: Seq<Member>, j: int) -> Seq<char>
    decreases ms.len() - j,
{
    if j < ms.len() {
        member(ms[j].0) + number(ms[j].1) + after_numeral(ms, j) + text_from(ms, j + 1)
    } else {
        seq!['}']
    }
}

/// The names of the members differ, and neither they nor the decimals have quotes.
spec fn plain_members(ms: Seq<Member>) -> bool {
    &&& forall|i: int, j: int|
        0 <= i < j < ms.len() ==> (#[trigger] ms[i]).0 != (#[trigger] ms[j]).0
    &&& forall|i: int|
        0 <= i < ms.len() ==> unquoted((#[trigger] ms[i]).0) && unquoted(ms[i].2) && ms[i].0.len()
            > 0 && ms[i].0[0] != ':'
}

proof fn lemma_told_from(ms: Seq<Member>, j: int, k: int)
    requires
        plain_members(ms),
        0 <= j <= ms.len(),
        0 <= k < ms.len(),
    ensures
        told(text_from(ms, j), ms[k].0, ms[k].1 as nat, ms[k].2),
    decreases ms.len() - j,
{
    let name = ms[k].0;
    let n = ms[k].1 as nat;
    let decimals = ms[k].2;
    let text = text_from(ms, j);
    if j == ms.len() {
        assert forall|i: int| #[trigger] named_at(text, name, i) implies number_at(
            text,
            i + member(name).len(),
            n,
            decimals,
        ) by {
            assert(member(name).len() > 1);
        }
    } else {
        let digits = number(ms[j].1);
        let e = after_numeral(ms, j);
        let t = text_from(ms, j + 1);
        let none = Seq::<char>::empty();
        lemma_number(ms[j].1);
        lemma_told_from(ms, j + 1, k);
        assert(unquoted(e));
        lemma_told_after(e, t, name, n, decimals);
        if name == ms[j].0 {
            assert(j == k) by {
                if j < k {
                    assert(ms[j].0 != ms[k].0);
                } else if k < j {
                    assert(ms[k].0 != ms[j].0);
                }
            }
            let rest = if j + 1 < ms.len() {
                seq![','] + t
            } else {
                t
            };
            assert(digits + (e + t) =~= digits + decimals + rest);
            assert((digits + (e + t)).skip(0) =~= digits + decimals + rest);
            assert(number_at(digits + (e + t), 0, n, decimals));
        }
        lemma_member_first(none, ms[j].0, digits, e + t, name, n, decimals);
        assert(text =~= none + member(ms[j].0) + digits + (e + t));
    }
}

proof fn lemma_named_from(ms: Seq<Member>, j: int, k: int) -> (i: int)
    requires
        0 <= j <= k < ms.len(),
    ensures
        named_at(text_from(ms, j), ms[k].0, i),
    decreases k - j,
{
    let text = text_from(ms, j);
    let size = member(ms[k].0).len() as int;
    if j == k {
        assert(text.subrange(0, size) =~= member(ms[k].0));
        0
    } else {
        let t = text_from(ms, j + 1);
        let i = lemma_named_from(ms, j + 1, k);
        let at = text.len() - t.len() + i;
        assert(text.subrange(at, at + size) =~= t.subrange(i, i + size));
        at
    }
}

/// The snapshot's members.
spec fn members(s: MetricsSnapshot) -> Seq<Member> {
    seq![
        ("writes_per_sec"@, s.writes_per_sec, ".00"@),
        ("reads_per_sec"@, s.reads_per_sec, ".00"@),
        ("compaction_count"@, s.compaction_count, Seq::empty()),
        ("wal_size_bytes"@, s.wal_size_bytes, Seq::empty()),
        ("sstable_count"@, s.sstable_count, Seq::empty()),
        ("recovery_time_ms"@, s.recovery_time_ms, Seq::empty()),
        ("total_writes"@, s.total_writes, Seq::empty()),
        ("total_reads"@, s.total_reads, Seq::empty()),
    ]
}

proof fn lemma_members_plain(s: MetricsSnapshot)
    ensures
        plain_members(members(s)),
{
    let ms = members(s);
    reveal_strlit("writes_per_sec");
    reveal_strlit("reads_per_sec");
    reveal_strlit("compaction_count");
    reveal_strlit("wal_size_bytes");
    reveal_strlit("sstable_count");
    reveal_strlit("recovery_time_ms");
    reveal_strlit("total_writes");
    reveal_strlit("total_reads");
    reveal_strlit(".00");
    assert(unquoted("writes_per_sec"@));
    assert(unquoted("reads_per_sec"@));
    assert(unquoted("compaction_count"@));
    assert(unquoted("wal_size_bytes"@));
    assert(unquoted("sstable_count"@));
    assert(unquoted("recovery_time_ms"@));
    assert(unquoted("total_writes"@));
    assert(unquoted("total_reads"@));
    assert forall|i: int| 0 <= i < ms.len() implies unquoted((#[trigger] ms[i]).0) && unquoted(
        ms[i].2,
    ) && ms[i].0.len() > 0 && ms[i].0[0] != ':' by {}
    assert("writes_per_sec"@[1] == 'r' && "wal_size_bytes"@[1] == 'a');
    assert("reads_per_sec"@[0] == 'r' && "sstable_count"@[0] == 's');
    assert("compaction_count"@[0] == 'c' && "recovery_time_ms"@[0] == 'r');
    assert forall|i: int, j: int| 0 <= i < j < ms.len() implies (#[trigger] ms[i]).0 != (
    #[trigger] ms[j]).0 by {}
}

proof fn lemma_regroup(
    p: Seq<char>,
    d: Seq<char>,
    m: Seq<char>,
    n: Seq<char>,
    e: Seq<char>,
    t: Seq<char>,
)
    ensures
        p + (d + (m + n + e + t)) == (p + (d + m) + n) + (e + t),
{
    assert(p + (d + (m + n + e + t)) =~= (p + (d + m) + n) + (e + t));
}

/// The text of a snapshot is that of its members.
proof fn lemma_json_members(s: MetricsSnapshot)
    ensures
        s.json() == seq!['{'] + text_from(members(s), 0),
{
    let ms = members(s);
    let none = Seq::<char>::empty();
    lemma_json_separators(s);
    let p0 = none + "{\"writes_per_sec\":"@ + number(s.writes_per_sec);
    lemma_regroup(
        none,
        seq!['{'],
        member(ms[0].0),
        number(ms[0].1),
        after_numeral(ms, 0),
        text_from(ms, 1),
    );
    let p1 = p0 + ".00,\"reads_per_sec\":"@ + number(s.reads_per_sec);
    lemma_regroup(
        p0,
        after_numeral(ms, 0),
        member(ms[1].0),
        number(ms[1].1),
        after_numeral(ms, 1),
        text_from(ms, 2),
    );
    let p2 = p1 + ".00,\"compaction_count\":"@ + number(s.compaction_count);
    lemma_regroup(
        p1,
        after_numeral(ms, 1),
        member(ms[2].0),
        number(ms[2].1),
        after_numeral(ms, 2),
        text_from(ms, 3),
    );
    let p3 = p2 + ",\"wal_size_bytes\":"@ + number(s.wal_size_bytes);
    lemma_regroup(
        p2,
        after_numeral(ms, 2),
        member(ms[3].0),
        number(ms[3].1),
        after_numeral(ms, 3),
        text_from(ms, 4),
    );
    let p4 = p3 + ",\"sstable_count\":"@ + number(s.sstable_count);
    lemma_regroup(
        p3,
        after_numeral(ms, 3),
        member(ms[4].0),
        number(ms[4].1),
        after_numeral(ms, 4),
        text_from(ms, 5),
    );
    let p5 = p4 + ",\"recovery_time_ms\":"@ + number(s.recovery_time_ms);
    lemma_regroup(
        p4,
        after_numeral(ms, 4),
        member(ms[5].0),
        number(ms[5].1),
        after_numeral(ms, 5),
        text_from(ms, 6),
    );
    let p6 = p5 + ",\"total_writes\":"@ + number(s.total_writes);
    lemma_regroup(
        p5,
        after_numeral(ms, 5),
        member(ms[6].0),
        number(ms[6].1),
        after_numeral(ms, 6),
        text_from(ms, 7),
    );
    let p7 = p6 + ",\"total_reads\":"@ + number(s.total_reads);
    lemma_regroup(
        p6,
        after_numeral(ms, 6),
        member(ms[7].0),
        number(ms[7].1),
        after_numeral(ms, 7),
        text_from(ms, 8),
    );
    assert(none + (seq!['{'] + text_from(ms, 0)) =~= seq!['{'] + text_from(ms, 0));
    assert(after_numeral(ms, 7) + text_from(ms, 8) =~= "}"@);
    assert(none + "{\"writes_per_sec\":"@ =~= "{\"writes_per_sec\":"@);
}

proof fn lemma_json_separators(s: MetricsSnapshot)
    ensures
        ({
            let ms = members(s);
            &&& "{\"writes_per_sec\":"@ == seq!['{'] + member(ms[0].0)
            &&& ".00,\"reads_per_sec\":"@ == after_numeral(ms, 0) + member(ms[1].0)
            &&& ".00,\"compaction_count\":"@ == after_numeral(ms, 1) + member(ms[2].0)
            &&& ",\"wal_size_bytes\":"@ == after_numeral(ms, 2) + member(ms[3].0)
            &&& ",\"sstable_count\":"@ == after_numeral(ms, 3) + member(ms[4].0)
            &&& ",\"recovery_time_ms\":"@ == after_numeral(ms, 4) + member(ms[5].0)
            &&& ",\"total_writes\":"@ == after_numeral(ms, 5) + member(ms[6].0)
            &&& ",\"total_reads\":"@ == after_numeral(ms, 6) + member(ms[7].0)
            &&& "}"@ == seq!['}']
        }),
{
    let ms = members(s);
    reveal_strlit("writes_per_sec");
    reveal_strlit("reads_per_sec");
    reveal_strlit("compaction_count");
    reveal_strlit("wal_size_bytes");
    reveal_strlit("sstable_count");
    reveal_strlit("recovery_time_ms");
    reveal_strlit("total_writes");
    reveal_strlit("total_reads");
    reveal_strlit(".00");
    reveal_strlit("}");
    reveal_strlit("{\"writes_per_sec\":");
    reveal_strlit(".00,\"reads_per_sec\":");
    reveal_strlit(".00,\"compaction_count\":");
    reveal_strlit(",\"wal_size_bytes\":");
    reveal_strlit(",\"sstable_count\":");
    reveal_strlit(",\"recovery_time_ms\":");
    reveal_strlit(",\"total_writes\":");
    reveal_strlit(",\"total_reads\":");
    assert("{\"writes_per_sec\":"@ =~= seq!['{'] + member(ms[0].0));
    assert(".00,\"reads_per_sec\":"@ =~= after_numeral(ms, 0) + member(ms[1].0));
    assert(".00,\"compaction_count\":"@ =~= after_numeral(ms, 1) + member(ms[2].0));
    assert(",\"wal_size_bytes\":"@ =~= after_numeral(ms, 2) + member(ms[3].0));
    assert(",\"sstable_count\":"@ =~= after_numeral(ms, 3) + member(ms[4].0));
    assert(",\"recovery_time_ms\":"@ =~= after_numeral(ms, 4) + member(ms[5].0));
    assert(",\"total_writes\":"@ =~= after_numeral(ms, 5) + member(ms[6].0));
    assert(",\"total_reads\":"@ =~= after_numeral(ms, 6) + member(ms[7].0));
    assert("}"@ =~= seq!['}']);
}

/// The text of a snapshot tells each of its numbers under its name: the text has a member of that name,
/// and wherever it has one, the numeral that follows denotes that number and ends there. Rates have two
/// decimals, both zero.
pub proof fn the_text_tells_each_number(s: MetricsSnapshot)
    ensures
        tells(s.json(), "writes_per_sec"@, s.writes_per_sec, ".00"@),
        tells(s.json(), "reads_per_sec"@, s.reads_per_sec, ".00"@),
        tells(s.json(), "compaction_count"@, s.compaction_count, Seq::empty()),
        tells(s.json(), "wal_size_bytes"@, s.wal_size_bytes, Seq::empty()),
        tells(s.json(), "sstable_count"@, s.sstable_count, Seq::empty()),
        tells(s.json(), "recovery_time_ms"@, s.recovery_time_ms, Seq::empty()),
        tells(s.json(), "total_writes"@, s.total_writes, Seq::empty()),
        tells(s.json(), "total_reads"@, s.total_reads, Seq::empty()),
        s.json()[0] == '{',
        s.json().last() == '}',
{
    let ms = members(s);
    lemma_members_plain(s);
    lemma_json_members(s);
    lemma_tells(s, 0);
    lemma_tells(s, 1);
    lemma_tells(s, 2);
    lemma_tells(s, 3);
    lemma_tells(s, 4);
    lemma_tells(s, 5);
    lemma_tells(s, 6);
    lemma_tells(s, 7);
    lemma_text_ends(ms, 0);
}

proof fn lemma_text_ends(ms: Seq<Member>, j: int)
    requires
        0 <= j <= ms.len(),
    ensures
        text_from(ms, j).len() > 0,
        text_from(ms, j).last() == '}',
    decreases ms.len() - j,
{
    if j < ms.len() {
        lemma_text_ends(ms, j + 1);
    }
}

proof fn lemma_tells(s: MetricsSnapshot, k: int)
    requires
        0 <= k < 8,
    ensures
        tells(s.json(), members(s)[k].0, members(s)[k].1, members(s)[k].2),
{
    let ms = members(s);
    let text = text_from(ms, 0);
    let name = ms[k].0;
    lemma_members_plain(s);
    lemma_json_members(s);
    lemma_told_from(ms, 0, k);
    lemma_told_after(seq!['{'], text, name, ms[k].1 as nat, ms[k].2);
    let i = lemma_named_from(ms, 0, k);
    let size = member(name).len() as int;
    assert(s.json().subrange(i + 1, i + 1 + size) =~= text.subrange(i, i + size));
    assert(named_at(s.json(), name, i + 1));
}

/// A text tells one number under a name, so snapshots that differ in any number have different texts.
pub proof fn the_text_determines_the_snapshot(a: MetricsSnapshot, b: MetricsSnapshot)
    requires
        a.json() == b.json(),
    ensures
        a == b,
{
    lemma_same_number(a, b, 0);
    lemma_same_number(a, b, 1);
    lemma_same_number(a, b, 2);
    lemma_same_number(a, b, 3);
    lemma_same_number(a, b, 4);
    lemma_same_number(a, b, 5);
    lemma_same_number(a, b, 6);
    lemma_same_number(a, b, 7);
}

proof fn lemma_same_number(a: MetricsSnapshot, b: MetricsSnapshot, k: int)
    requires
        a.json() == b.json(),
        0 <= k < 8,
    ensures
        members(a)[k].1 == members(b)[k].1,
{
    let (name, n, decimals) = members(a)[k];
    let m = members(b)[k].1;
    reveal_strlit(".00");
    lemma_tells(a, k);
    lemma_tells(b, k);
    assert(members(b)[k].0 == name && members(b)[k].2 == decimals);
    lemma_one_number(a.json(), name, n, m, decimals);
}

proof fn lemma_one_number(text: Seq<char>, name: Seq<char>, a: u64, b: u64, decimals: Seq<char>)
    requires
        tells(text, name, a, decimals),
        tells(text, name, b, decimals),
        decimals.len() > 0 ==> decimals[0] == '.',
    ensures
        a == b,
{
    let i = choose|i: int| named_at(text, name, i);
    let at = i + member(name).len() as int;
    assert(number_at(text, at, a as nat, decimals));
    assert(number_at(text, at, b as nat, decimals));
    let (x, y) = choose|x: Seq<char>, y: Seq<char>|
        #![trigger x + decimals + y]
        is_numeral(x, a as nat) && text.skip(at) == x + decimals + y && y.len() > 0 && (y[0] == ','
            || y[0] == '}');
    let (u, v) = choose|u: Seq<char>, v: Seq<char>|
        #![trigger u + decimals + v]
        is_numeral(u, b as nat) && text.skip(at) == u + decimals + v && v.len() > 0 && (v[0] == ','
            || v[0] == '}');
    let t = text.skip(at);
    assert(t.len() > x.len() && !('0' <= t[x.len() as int] <= '9'));
    assert(t.len() > u.len() && !('0' <= t[u.len() as int] <= '9'));
    if x.len() < u.len() {
        assert(t[x.len() as int] == u[x.len() as int]);
    }
    if u.len() < x.len() {
        assert(t[u.len() as int] == x[u.len() as int]);
    }
    assert(x =~= t.take(x.len() as int));
    assert(u =~= t.take(u.len() as int));
}

} // verus!
